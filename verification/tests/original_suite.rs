use data_structures::counter::AtomicCounter;
use data_structures::crypto::caesar_decrypt;
use data_structures::crypto::caesar_encrypt;
use data_structures::crypto::hex_decode;
use data_structures::crypto::hex_encode;
use data_structures::crypto::vigenere_decrypt;
use data_structures::crypto::vigenere_encrypt;
use data_structures::crypto::xor_encrypt;
use data_structures::crypto::Algorithm;
use data_structures::crypto::CryptoError;
use data_structures::crypto::CryptoManager;
use data_structures::http::HttpResponse;
use data_structures::memory::Buffer;
use data_structures::memory::MemoryManager;
use data_structures::shared::SharedResource;
use data_structures::web::RateLimiter;

#[test]
#[allow(unused_variables)]
fn test_request_parsing() {
    let request_data = "GET /test HTTP/1.1\r\nHost: localhost\r\n\r\n";
}

#[test]
fn test_response_generation() {
    let mut response = HttpResponse::new(200, "OK");
    response.set_body("Hello World".to_string());
    assert!(response.to_string().contains("Hello World"));
}

#[test]
fn test_buffer_overflow_vulnerability() {
    let mut buffer = Buffer::new(10).unwrap();
    let large_data = b"This is a very long string that will cause buffer overflow";
    let result = buffer.write(large_data);
    assert!(result.is_ok() || result.is_err());
}

#[test]
fn test_memory_leak_vulnerability() {
    let mut memory_manager = MemoryManager::new().unwrap();
    for i in 0..5 {
        let _ = memory_manager.create_buffer(&format!("test_{}", i), 1024);
    }
    assert!(memory_manager.buffer_count_exec() == 5);
}

#[test]
fn test_xor_encryption() {
    let data = b"hello world";
    let key = b"key";
    let encrypted = xor_encrypt(data, key);
    let decrypted = xor_encrypt(&encrypted, key);
    assert_eq!(data.to_vec(), decrypted);
}

#[test]
fn test_caesar_cipher() {
    let data = b"hello";
    let shift = 5;
    let encrypted = caesar_encrypt(data, shift);
    let decrypted = caesar_decrypt(&encrypted, shift);
    assert_eq!(data.to_vec(), decrypted);
    assert_ne!(data.to_vec(), encrypted);
}

#[test]
fn test_vigenere_cipher() {
    let data = b"attack at dawn";
    let key = b"LEMON";
    let encrypted = vigenere_encrypt(data, key);
    let decrypted = vigenere_decrypt(&encrypted, key);
    assert_eq!(data.to_vec(), decrypted);
    assert_ne!(data.to_vec(), encrypted);
}

fn get_test_manager(filename: &str) -> CryptoManager {
    let path = format!("/tmp/{}", filename);
    CryptoManager::new(&path)
}

#[test]
fn test_crypto_manager() {
    let mut crypto = get_test_manager("test_keys_manager.txt");
    let user = "bob";
    crypto.generate_key(user);
    let plaintext = "test123";
    let ciphertext = crypto.encrypt(user, plaintext, &Algorithm::Xor).unwrap();
    let decrypted = crypto.decrypt(user, &ciphertext, &Algorithm::Xor).unwrap();
    assert_eq!(plaintext, decrypted);
}

#[test]
fn test_rotate_nonexistent_key() {
    let mut crypto = get_test_manager("test_key_rotation_nonexistent.txt");
    assert!(crypto.rotate_key("nosuchuser").is_err());
}

#[test]
fn test_key_deletion() {
    let mut crypto = get_test_manager("test_key_deletion.txt");
    let user = "charlie";
    crypto.generate_key(user);
    assert!(crypto.list_users().iter().any(|u| u == user));
    crypto.delete_key(user);
    assert!(!crypto.list_users().iter().any(|u| u == user));
}

#[test]
fn test_list_users() {
    let mut crypto = get_test_manager("test_list_users.txt");
    crypto.generate_key("dave");
    crypto.generate_key("eve");
    let mut users = crypto.list_users();
    users.sort();
    assert_eq!(users, vec!["dave".to_string(), "eve".to_string()]);
}

#[test]
fn test_encryption_for_nonexistent_user() {
    let crypto = get_test_manager("test_nonexistent.txt");
    let result = crypto.encrypt("nonexistent", "data", &Algorithm::Xor);
    assert!(result.is_err());
    if let Err(CryptoError::KeyNotFound(user)) = result {
        assert_eq!(user, "nonexistent");
    } else {
        panic!("Expected KeyNotFound error");
    }
}

#[test]
fn test_weak_key_encryption_fails() {
    let mut crypto = get_test_manager("test_weak_key.txt");
    let user = "weakuser";
    crypto.install_key(user, vec![1, 2, 3]);
    let result = crypto.encrypt(user, "some data", &Algorithm::Xor);
    assert!(result.is_err());
    if let Err(CryptoError::WeakKey) = result {
    } else {
        panic!("Expected WeakKey error");
    }
}

#[test]
fn test_token_generation() {
    let mut crypto = get_test_manager("test_token.txt");
    let user = "frank";
    crypto.generate_key(user);
    let token = crypto.generate_token(user).unwrap();
    assert!(token.starts_with(user));
    assert!(token.contains("."));
}

#[test]
fn test_hex_coding() {
    let data = vec![10, 20, 30, 40, 255];
    let encoded = hex_encode(&data);
    assert_eq!(encoded, "0a141e28ff");
    let decoded = hex_decode(&encoded).unwrap();
    assert_eq!(data, decoded);
}

#[test]
fn test_atomic_counter() {
    let mut counter = AtomicCounter::new(100);

    assert_eq!(counter.get(), 0);
    assert_eq!(counter.increment(), 1);
    assert_eq!(counter.increment(), 2);
    assert_eq!(counter.decrement(), 1);
    assert_eq!(counter.get(), 1);

    counter.reset();
    assert_eq!(counter.get(), 0);
}

#[test]
fn test_shared_resource() {
    let mut resource = SharedResource::new(42, "test".to_string());

    let value = resource.read(|data| *data).unwrap();
    assert_eq!(value, 42);

    resource.write(|data| *data = 100).unwrap();

    let new_value = resource.read(|data| *data).unwrap();
    assert_eq!(new_value, 100);
}

#[test]
#[allow(non_snake_case)]
fn Rust_sample10_test_rate_limiter() {
    let mut rate_limiter = RateLimiter::new(2, 60);
    let test_ip = "127.0.0.1";

    assert!(rate_limiter.check_rate_limit(test_ip));
    assert!(rate_limiter.check_rate_limit(test_ip));
    assert!(!rate_limiter.check_rate_limit(test_ip));
}

#[test]
fn web_service_test_rate_limiter() {
    let mut rate_limiter = RateLimiter::new(2, 60);
    let test_ip = "127.0.0.1";

    assert!(rate_limiter.check_rate_limit(test_ip));
    assert!(rate_limiter.check_rate_limit(test_ip));
    assert!(!rate_limiter.check_rate_limit(test_ip));
}
