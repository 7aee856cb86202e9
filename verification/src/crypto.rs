//! Byte-level ciphers, hexadecimal coding, and a keyed encryption manager.
//!
//! The ciphers act position by position: XOR with a repeating key, a Caesar
//! shift with wrap-around, and a Vigenère addition of a repeating key. An
//! empty key leaves the data unchanged for the keyed ciphers. Applying XOR
//! twice with one key, or a decryption after its encryption, restores the
//! input byte for byte.
//!
//! The manager keeps one key per user name. Keys derive from the user name
//! and the wall clock; persistence of the key file is left to the caller.

use crate::clock::current_timestamp;
use crate::strutil::dec_rep;
use crate::strutil::str_eq;
use crate::strutil::u64_to_string;
use vstd::prelude::*;
use vstd::string::StringSliceAdditionalSpecFns;
use vstd::wrapping::u8_specs;

verus! {

// ---------------------------------------------------------------------------
// Ciphers.
// ---------------------------------------------------------------------------

/// XOR of each byte with the key byte at the same position modulo the key
/// length; the data itself when the key is empty.
pub open spec fn xor_spec(data: Seq<u8>, key: Seq<u8>) -> Seq<u8> {
    Seq::new(
        data.len(),
        |i: int|
            if key.len() == 0 {
                data[i]
            } else {
                data[i] ^ key[i % key.len() as int]
            },
    )
}

/// Each byte shifted up by `shift`, wrapping modulo 256.
pub open spec fn caesar_spec(data: Seq<u8>, shift: u8) -> Seq<u8> {
    Seq::new(data.len(), |i: int| u8_specs::wrapping_add(data[i], shift))
}

/// Each byte shifted down by `shift`, wrapping modulo 256.
pub open spec fn caesar_dec_spec(data: Seq<u8>, shift: u8) -> Seq<u8> {
    Seq::new(data.len(), |i: int| u8_specs::wrapping_sub(data[i], shift))
}

/// Each byte shifted up by the key byte at the same position modulo the key
/// length; the data itself when the key is empty.
pub open spec fn vigenere_spec(data: Seq<u8>, key: Seq<u8>) -> Seq<u8> {
    Seq::new(
        data.len(),
        |i: int|
            if key.len() == 0 {
                data[i]
            } else {
                u8_specs::wrapping_add(data[i], key[i % key.len() as int])
            },
    )
}

/// The inverse of `vigenere_spec` for the same key.
pub open spec fn vigenere_dec_spec(data: Seq<u8>, key: Seq<u8>) -> Seq<u8> {
    Seq::new(
        data.len(),
        |i: int|
            if key.len() == 0 {
                data[i]
            } else {
                u8_specs::wrapping_sub(data[i], key[i % key.len() as int])
            },
    )
}

pub fn xor_encrypt(data: &[u8], key: &[u8]) -> (r: Vec<u8>)
    ensures
        r@ == xor_spec(data@, key@),
{
    let mut r: Vec<u8> = Vec::new();
    let mut i: usize = 0;
    while i < data.len()
        invariant
            i <= data@.len(),
            r@.len() == i,
            forall|k: int| 0 <= k < i ==> r@[k] == xor_spec(data@, key@)[k],
        decreases data@.len() - i,
    {
        if key.len() == 0 {
            r.push(data[i]);
        } else {
            r.push(data[i] ^ key[i % key.len()]);
        }
        i = i + 1;
    }
    proof {
        assert(r@ =~= xor_spec(data@, key@));
    }
    r
}

pub fn caesar_encrypt(data: &[u8], shift: u8) -> (r: Vec<u8>)
    ensures
        r@ == caesar_spec(data@, shift),
{
    let mut r: Vec<u8> = Vec::new();
    let mut i: usize = 0;
    while i < data.len()
        invariant
            i <= data@.len(),
            r@.len() == i,
            forall|k: int| 0 <= k < i ==> r@[k] == caesar_spec(data@, shift)[k],
        decreases data@.len() - i,
    {
        r.push(data[i].wrapping_add(shift));
        i = i + 1;
    }
    proof {
        assert(r@ =~= caesar_spec(data@, shift));
    }
    r
}

pub fn caesar_decrypt(data: &[u8], shift: u8) -> (r: Vec<u8>)
    ensures
        r@ == caesar_dec_spec(data@, shift),
{
    let mut r: Vec<u8> = Vec::new();
    let mut i: usize = 0;
    while i < data.len()
        invariant
            i <= data@.len(),
            r@.len() == i,
            forall|k: int| 0 <= k < i ==> r@[k] == caesar_dec_spec(data@, shift)[k],
        decreases data@.len() - i,
    {
        r.push(data[i].wrapping_sub(shift));
        i = i + 1;
    }
    proof {
        assert(r@ =~= caesar_dec_spec(data@, shift));
    }
    r
}

pub fn vigenere_encrypt(data: &[u8], key: &[u8]) -> (r: Vec<u8>)
    ensures
        r@ == vigenere_spec(data@, key@),
{
    let mut r: Vec<u8> = Vec::new();
    let mut i: usize = 0;
    while i < data.len()
        invariant
            i <= data@.len(),
            r@.len() == i,
            forall|k: int| 0 <= k < i ==> r@[k] == vigenere_spec(data@, key@)[k],
        decreases data@.len() - i,
    {
        if key.len() == 0 {
            r.push(data[i]);
        } else {
            r.push(data[i].wrapping_add(key[i % key.len()]));
        }
        i = i + 1;
    }
    proof {
        assert(r@ =~= vigenere_spec(data@, key@));
    }
    r
}

pub fn vigenere_decrypt(data: &[u8], key: &[u8]) -> (r: Vec<u8>)
    ensures
        r@ == vigenere_dec_spec(data@, key@),
{
    let mut r: Vec<u8> = Vec::new();
    let mut i: usize = 0;
    while i < data.len()
        invariant
            i <= data@.len(),
            r@.len() == i,
            forall|k: int| 0 <= k < i ==> r@[k] == vigenere_dec_spec(data@, key@)[k],
        decreases data@.len() - i,
    {
        if key.len() == 0 {
            r.push(data[i]);
        } else {
            r.push(data[i].wrapping_sub(key[i % key.len()]));
        }
        i = i + 1;
    }
    proof {
        assert(r@ =~= vigenere_dec_spec(data@, key@));
    }
    r
}

/// Decrypting after encrypting restores the input: XOR is its own inverse
/// under one key, and a Caesar or Vigenère shift down undoes the shift up.
pub proof fn lemma_cipher_round_trip(data: Seq<u8>, key: Seq<u8>, shift: u8)
    ensures
        xor_spec(xor_spec(data, key), key) == data,
        caesar_dec_spec(caesar_spec(data, shift), shift) == data,
        vigenere_dec_spec(vigenere_spec(data, key), key) == data,
{
    assert(xor_spec(xor_spec(data, key), key) =~= data) by {
        assert forall|i: int| 0 <= i < data.len() implies xor_spec(xor_spec(data, key), key)[i]
            == data[i] by {
            if key.len() > 0 {
                let k = key[i % key.len() as int];
                let d = data[i];
                assert((d ^ k) ^ k == d) by (bit_vector);
            }
        }
    }
    assert(caesar_dec_spec(caesar_spec(data, shift), shift) =~= data);
    assert(vigenere_dec_spec(vigenere_spec(data, key), key) =~= data);
}

// ---------------------------------------------------------------------------
// Hexadecimal coding.
// ---------------------------------------------------------------------------

/// The lower-case hexadecimal digit character for a value below sixteen.
pub open spec fn hex_digit_char(d: nat) -> char {
    if d < 10 {
        crate::strutil::digit_char(d)
    } else if d == 10 {
        'a'
    } else if d == 11 {
        'b'
    } else if d == 12 {
        'c'
    } else if d == 13 {
        'd'
    } else if d == 14 {
        'e'
    } else {
        'f'
    }
}

/// Two lower-case hexadecimal digits per byte, high nibble first.
pub open spec fn hex_of(bytes: Seq<u8>) -> Seq<char> {
    Seq::new(
        2 * bytes.len(),
        |i: int|
            if i % 2 == 0 {
                hex_digit_char((bytes[i / 2] >> 4) as nat)
            } else {
                hex_digit_char((bytes[i / 2] & 0xf) as nat)
            },
    )
}

fn hex_digit_str(d: u8) -> (r: &'static str)
    requires
        d < 16,
    ensures
        r@ == seq![hex_digit_char(d as nat)],
{
    proof {
        reveal_strlit("a");
        reveal_strlit("b");
        reveal_strlit("c");
        reveal_strlit("d");
        reveal_strlit("e");
        reveal_strlit("f");
    }
    if d < 10 {
        crate::strutil::digit_str(d as u64)
    } else if d == 10 {
        "a"
    } else if d == 11 {
        "b"
    } else if d == 12 {
        "c"
    } else if d == 13 {
        "d"
    } else if d == 14 {
        "e"
    } else {
        "f"
    }
}

pub fn hex_encode(bytes: &[u8]) -> (r: String)
    ensures
        r@ == hex_of(bytes@),
{
    let mut r = String::new();
    let mut i: usize = 0;
    while i < bytes.len()
        invariant
            i <= bytes@.len(),
            r@.len() == 2 * i,
            forall|k: int| 0 <= k < 2 * i ==> r@[k] == hex_of(bytes@)[k],
        decreases bytes@.len() - i,
    {
        let b = bytes[i];
        proof {
            assert(b >> 4 < 16) by (bit_vector);
            assert(b & 0xf < 16) by (bit_vector);
        }
        r.append(hex_digit_str(b >> 4));
        r.append(hex_digit_str(b & 0xf));
        i = i + 1;
    }
    proof {
        assert(r@ =~= hex_of(bytes@));
    }
    r
}

/// The numeric value of a hexadecimal digit character, upper or lower case.
pub open spec fn hex_val(c: char) -> Option<u8> {
    let u = c as u32;
    if 48 <= u <= 57 {
        Some((u - 48) as u8)
    } else if 97 <= u <= 102 {
        Some((u - 87) as u8)
    } else if 65 <= u <= 70 {
        Some((u - 55) as u8)
    } else {
        None
    }
}

/// The bytes a hexadecimal string of even length denotes, or nothing if any
/// character is no hexadecimal digit.
pub open spec fn hex_decode_spec(s: Seq<char>) -> Option<Seq<u8>>
    decreases s.len(),
{
    if s.len() < 2 {
        Some(Seq::empty())
    } else {
        match (hex_val(s[0]), hex_val(s[1])) {
            (Some(h), Some(l)) => match hex_decode_spec(s.skip(2)) {
                Some(rest) => Some(seq![(16 * h + l) as u8] + rest),
                None => None,
            },
            _ => None,
        }
    }
}

/// A character that is no hexadecimal digit.
#[derive(Debug, PartialEq, Eq, Structural)]
pub struct HexDecodeError;

fn hex_char_val(c: char) -> (r: Option<u8>)
    ensures
        r == hex_val(c),
{
    let u = c as u32;
    if 48 <= u && u <= 57 {
        Some((u - 48) as u8)
    } else if 97 <= u && u <= 102 {
        Some((u - 87) as u8)
    } else if 65 <= u && u <= 70 {
        Some((u - 55) as u8)
    } else {
        None
    }
}

pub fn hex_decode(s: &str) -> (r: Result<Vec<u8>, HexDecodeError>)
    requires
        s@.len() % 2 == 0,
    ensures
        match r {
            Ok(bytes) => hex_decode_spec(s@) == Some(bytes@),
            Err(_) => hex_decode_spec(s@) is None,
        },
{
    let n = s.unicode_len();
    let mut acc: Vec<u8> = Vec::new();
    let mut i: usize = 0;
    proof {
        assert(s@.skip(0) =~= s@);
        if hex_decode_spec(s@) is Some {
            assert(acc@ + hex_decode_spec(s@).unwrap() =~= hex_decode_spec(s@).unwrap());
        }
    }
    while i < n
        invariant
            s@.len() == n,
            n % 2 == 0,
            i % 2 == 0,
            i <= n,
            hex_decode_spec(s@) == match hex_decode_spec(s@.skip(i as int)) {
                Some(rest) => Some(acc@ + rest),
                None => None::<Seq<u8>>,
            },
        decreases n - i,
    {
        let h = hex_char_val(s.get_char(i));
        let l = hex_char_val(s.get_char(i + 1));
        let ghost tail = s@.skip(i as int);
        proof {
            assert(tail[0] == s@[i as int]);
            assert(tail[1] == s@[i + 1]);
            assert(tail.skip(2) =~= s@.skip(i + 2));
        }
        match (h, l) {
            (Some(hv), Some(lv)) => {
                acc.push(16 * hv + lv);
                proof {
                    assert(acc@ =~= acc@.drop_last() + seq![(16 * hv + lv) as u8]);
                    if hex_decode_spec(s@.skip(i + 2)) is Some {
                        assert(acc@ + hex_decode_spec(s@.skip(i + 2)).unwrap() =~= acc@.drop_last()
                            + (seq![(16 * hv + lv) as u8] + hex_decode_spec(
                            s@.skip(i + 2),
                        ).unwrap()));
                    }
                }
                i = i + 2;
            },
            _ => {
                return Err(HexDecodeError);
            },
        }
    }
    proof {
        assert(s@.skip(n as int) =~= Seq::empty());
        assert(acc@ + Seq::<u8>::empty() =~= acc@);
    }
    Ok(acc)
}

// ---------------------------------------------------------------------------
// The keyed encryption manager.
// ---------------------------------------------------------------------------

pub enum Algorithm {
    Xor,
    Caesar(u8),
    Vigenere,
}

#[derive(Debug)]
pub enum CryptoError {
    Io(String),
    KeyNotFound(String),
    HexDecode(HexDecodeError),
    Utf8,
    WeakKey,
}

/// A key shorter than eight bytes, or one whose bytes are all alike, is too
/// weak to encrypt with.
pub open spec fn weak_spec(key: Seq<u8>) -> bool {
    key.len() < 8 || (forall|i: int| 0 <= i < key.len() ==> (#[trigger] key[i]) == key[0])
}

/// The bytes the manager derives keys from.
pub open spec fn master_bytes() -> Seq<u8> {
    seq![109u8, 97u8, 115u8, 116u8, 101u8, 114u8, 95u8, 115u8, 101u8, 99u8, 114u8, 101u8, 116u8]
}

/// The key derived for `user` at wall-clock second `t`.
pub open spec fn derived_key(user: Seq<char>, t: nat) -> Seq<u8> {
    xor_spec(vstd::utf8::encode_utf8(user + seq!['_'] + dec_rep(t)), master_bytes())
}

/// What each algorithm does to `data` under `key`.
pub open spec fn encrypt_dispatch(alg: Algorithm, data: Seq<u8>, key: Seq<u8>) -> Seq<u8> {
    match alg {
        Algorithm::Xor => xor_spec(data, key),
        Algorithm::Caesar(shift) => caesar_spec(data, shift),
        Algorithm::Vigenere => vigenere_spec(data, key),
    }
}

/// What each algorithm's decryption does to `data` under `key`.
pub open spec fn decrypt_dispatch(alg: Algorithm, data: Seq<u8>, key: Seq<u8>) -> Seq<u8> {
    match alg {
        Algorithm::Xor => xor_spec(data, key),
        Algorithm::Caesar(shift) => caesar_dec_spec(data, shift),
        Algorithm::Vigenere => vigenere_dec_spec(data, key),
    }
}

fn master_secret() -> (r: Vec<u8>)
    ensures
        r@ == master_bytes(),
{
    let mut v: Vec<u8> = Vec::new();
    v.push(109);
    v.push(97);
    v.push(115);
    v.push(116);
    v.push(101);
    v.push(114);
    v.push(95);
    v.push(115);
    v.push(101);
    v.push(99);
    v.push(114);
    v.push(101);
    v.push(116);
    proof {
        assert(v@ =~= master_bytes());
    }
    v
}

pub struct CryptoManager {
    keys: Vec<(String, Vec<u8>)>,
    key_file: String,
    history: Vec<String>,
}

impl CryptoManager {
    /// The user names that hold a key, in insertion order.
    pub closed spec fn names(&self) -> Seq<Seq<char>> {
        Seq::new(self.keys@.len(), |i: int| self.keys@[i].0@)
    }

    /// The key bytes, position by position alongside `names`.
    pub closed spec fn key_bytes(&self) -> Seq<Seq<u8>> {
        Seq::new(self.keys@.len(), |i: int| self.keys@[i].1@)
    }

    pub closed spec fn history_len(&self) -> nat {
        self.history@.len()
    }

    /// Each user name appears at most once.
    pub closed spec fn well_formed(&self) -> bool {
        forall|i: int, j: int|
            0 <= i < j < self.keys@.len() ==> self.keys@[i].0@ != self.keys@[j].0@
    }

    pub open spec fn has_user(&self, u: Seq<char>) -> bool {
        exists|i: int| 0 <= i < self.names().len() && self.names()[i] == u
    }

    /// The key stored for a user the manager knows.
    pub open spec fn user_key(&self, u: Seq<char>) -> Seq<u8> {
        self.key_bytes()[choose|i: int| 0 <= i < self.names().len() && self.names()[i] == u]
    }

    /// Creates a manager with no keys. The named file is only remembered:
    /// reading and writing it is the caller's task.
    pub fn new(key_file: &str) -> (m: Self)
        ensures
            m.well_formed(),
            m.names() == Seq::<Seq<char>>::empty(),
            m.history_len() == 1,
    {
        let mut m = CryptoManager {
            keys: Vec::new(),
            key_file: String::from_str(key_file),
            history: Vec::new(),
        };
        m.log_action(String::from_str("CryptoManager created"));
        proof {
            assert(m.names() =~= Seq::<Seq<char>>::empty());
        }
        m
    }

    fn log_action(&mut self, action: String)
        ensures
            final(self).keys == old(self).keys,
            final(self).key_file == old(self).key_file,
            final(self).history@.len() == old(self).history@.len() + 1,
    {
        let timestamp = current_timestamp();
        let mut entry = String::from_str("[");
        entry.append(u64_to_string(timestamp).as_str());
        entry.append("] ");
        entry.append(action.as_str());
        self.history.push(entry);
    }

    fn find_user(&self, user: &str) -> (r: Option<usize>)
        requires
            self.well_formed(),
        ensures
            match r {
                Some(i) => i < self.names().len() && self.names()[i as int] == user@
                    && self.has_user(user@) && self.user_key(user@) == self.key_bytes()[i as int],
                None => !self.has_user(user@),
            },
    {
        let mut i: usize = 0;
        while i < self.keys.len()
            invariant
                self.well_formed(),
                i <= self.keys@.len(),
                forall|k: int| 0 <= k < i ==> self.names()[k] != user@,
            decreases self.keys@.len() - i,
        {
            if str_eq(self.keys[i].0.as_str(), user) {
                proof {
                    assert(self.names()[i as int] == user@);
                    let j = choose|j: int|
                        0 <= j < self.names().len() && self.names()[j] == user@;
                    assert(j == i);
                }
                return Some(i);
            }
            i = i + 1;
        }
        None
    }

    /// Derives a fresh key for `user` from the user name and the wall clock,
    /// stores it under that name (replacing any earlier key), and returns it.
    pub fn generate_key(&mut self, user: &str) -> (r: Vec<u8>)
        requires
            old(self).well_formed(),
        ensures
            final(self).well_formed(),
            final(self).has_user(user@),
            final(self).user_key(user@) == r@,
            exists|t: u64| r@ == derived_key(user@, t as nat),
            forall|u: Seq<char>|
                u != user@ ==> final(self).has_user(u) == old(self).has_user(u) && (old(self).has_user(u) ==> final(self).user_key(u) == old(self).user_key(u)),
    {
        let timestamp = current_timestamp();
        let mut key_data = String::from_str(user);
        key_data.append("_");
        key_data.append(u64_to_string(timestamp).as_str());
        proof {
            reveal_strlit("_");
            assert(key_data@ =~= user@ + seq!['_'] + dec_rep(timestamp as nat));
        }
        let master = master_secret();
        let kd_str = key_data.as_str();
        let key = xor_encrypt(kd_str.as_bytes(), master.as_slice());
        proof {
            assert(kd_str.spec_bytes() == vstd::utf8::encode_utf8(key_data@));
            assert(key@ == derived_key(user@, timestamp as nat));
        }
        let stored = (String::from_str(user), clone_bytes(&key));
        let ghost pre = *self;
        match self.find_user(user) {
            Some(i) => {
                self.keys.set(i, stored);
                proof {
                    Self::lemma_views_after_set(pre, *self, i as int, user@, key@);
                }
            },
            None => {
                self.keys.push(stored);
                proof {
                    Self::lemma_views_after_push(pre, *self, user@, key@);
                }
            },
        }
        let ghost before_log = *self;
        self.log_action(String::from_str("Generated key for user"));
        proof {
            assert(self.names() =~= before_log.names());
            assert(self.key_bytes() =~= before_log.key_bytes());
            assert(key@ == derived_key(user@, timestamp as nat));
        }
        key
    }

    proof fn lemma_views_after_set(pre: Self, post: Self, i: int, user: Seq<char>, key: Seq<u8>)
        requires
            pre.well_formed(),
            0 <= i < pre.keys@.len(),
            pre.names()[i] == user,
            post.keys@ == pre.keys@.update(i, post.keys@[i]),
            post.keys@[i].0@ == user,
            post.keys@[i].1@ == key,
        ensures
            post.well_formed(),
            post.has_user(user),
            post.user_key(user) == key,
            forall|u: Seq<char>|
                u != user ==> post.has_user(u) == pre.has_user(u) && (pre.has_user(u)
                    ==> post.user_key(u) == pre.user_key(u)),
    {
        assert(post.names().len() == pre.names().len());
        assert forall|k: int| 0 <= k < post.names().len() implies post.names()[k] == (if k == i {
            user
        } else {
            pre.names()[k]
        }) by {}
        assert(post.names()[i] == user);
        let j = choose|j: int| 0 <= j < post.names().len() && post.names()[j] == user;
        assert(j == i);
        assert forall|u: Seq<char>| u != user implies post.has_user(u) == pre.has_user(u) && (
        pre.has_user(u) ==> post.user_key(u) == pre.user_key(u)) by {
            if pre.has_user(u) {
                let k = choose|k: int| 0 <= k < pre.names().len() && pre.names()[k] == u;
                assert(post.names()[k] == u);
                assert(post.has_user(u));
                let k2 = choose|k2: int| 0 <= k2 < post.names().len() && post.names()[k2] == u;
                assert(post.names()[k2] == u && k2 != i);
                assert(pre.names()[k2] == u);
                assert(k2 == k);
                assert(post.key_bytes()[k2] == pre.key_bytes()[k2]);
                assert(pre.user_key(u) == pre.key_bytes()[k]);
            }
            if post.has_user(u) {
                let k = choose|k: int| 0 <= k < post.names().len() && post.names()[k] == u;
                assert(k != i);
                assert(pre.names()[k] == u);
                assert(pre.has_user(u));
            }
        }
    }

    proof fn lemma_views_after_push(pre: Self, post: Self, user: Seq<char>, key: Seq<u8>)
        requires
            pre.well_formed(),
            !pre.has_user(user),
            post.keys@ == pre.keys@.push(post.keys@.last()),
            post.keys@.last().0@ == user,
            post.keys@.last().1@ == key,
        ensures
            post.well_formed(),
            post.has_user(user),
            post.user_key(user) == key,
            forall|u: Seq<char>|
                u != user ==> post.has_user(u) == pre.has_user(u) && (pre.has_user(u)
                    ==> post.user_key(u) == pre.user_key(u)),
    {
        let n = pre.keys@.len() as int;
        assert(post.names().len() == n + 1);
        assert forall|k: int| 0 <= k < n implies post.names()[k] == pre.names()[k] by {}
        assert(post.names()[n] == user);
        assert forall|i: int, j: int|
            0 <= i < j < post.keys@.len() implies post.keys@[i].0@ != post.keys@[j].0@ by {
            if j == n {
                assert(pre.names()[i] == post.names()[i]);
                if post.keys@[i].0@ == user {
                    assert(pre.has_user(user));
                }
            }
        }
        assert(post.has_user(user));
        let j = choose|j: int| 0 <= j < post.names().len() && post.names()[j] == user;
        assert(j == n) by {
            if j < n {
                assert(pre.names()[j] == user);
            }
        }
        assert forall|u: Seq<char>| u != user implies post.has_user(u) == pre.has_user(u) && (
        pre.has_user(u) ==> post.user_key(u) == pre.user_key(u)) by {
            if pre.has_user(u) {
                let k = choose|k: int| 0 <= k < pre.names().len() && pre.names()[k] == u;
                assert(post.names()[k] == u);
                assert(post.has_user(u));
                let k2 = choose|k2: int| 0 <= k2 < post.names().len() && post.names()[k2] == u;
                assert(k2 != n);
                assert(pre.names()[k2] == u);
                assert(k2 == k);
            }
            if post.has_user(u) {
                let k = choose|k: int| 0 <= k < post.names().len() && post.names()[k] == u;
                assert(k != n);
                assert(pre.names()[k] == u);
                assert(pre.has_user(u));
            }
        }
    }
}

/// Clones a byte vector.
fn clone_bytes(v: &Vec<u8>) -> (r: Vec<u8>)
    ensures
        r@ == v@,
{
    let mut r: Vec<u8> = Vec::new();
    let mut i: usize = 0;
    while i < v.len()
        invariant
            i <= v@.len(),
            r@ == v@.subrange(0, i as int),
        decreases v@.len() - i,
    {
        r.push(v[i]);
        proof {
            assert(r@ =~= v@.subrange(0, i + 1));
        }
        i = i + 1;
    }
    proof {
        assert(r@ =~= v@);
    }
    r
}


/// The token text: the message `user_t` followed by a dot and the
/// hex-encoded XOR signature of that message under `key`.
pub open spec fn token_spec(user: Seq<char>, t: nat, key: Seq<u8>) -> Seq<char> {
    let message = user + seq!['_'] + dec_rep(t);
    message + seq!['.'] + hex_of(xor_spec(vstd::utf8::encode_utf8(message), key))
}

impl CryptoManager {
    /// Stores `key` for `user` exactly as given, replacing any earlier key:
    /// how entries read back from a key file enter the manager.
    pub fn install_key(&mut self, user: &str, key: Vec<u8>)
        requires
            old(self).well_formed(),
        ensures
            final(self).well_formed(),
            final(self).has_user(user@),
            final(self).user_key(user@) == key@,
            forall|u: Seq<char>|
                u != user@ ==> final(self).has_user(u) == old(self).has_user(u) && (old(
                    self,
                ).has_user(u) ==> final(self).user_key(u) == old(self).user_key(u)),
    {
        let ghost key_view = key@;
        let stored = (String::from_str(user), key);
        let ghost pre = *self;
        match self.find_user(user) {
            Some(i) => {
                self.keys.set(i, stored);
                proof {
                    Self::lemma_views_after_set(pre, *self, i as int, user@, key_view);
                }
            },
            None => {
                self.keys.push(stored);
                proof {
                    Self::lemma_views_after_push(pre, *self, user@, key_view);
                }
            },
        }
    }

    /// Replaces the key of a user the manager knows with a freshly derived
    /// one; a name without a key is refused.
    pub fn rotate_key(&mut self, user: &str) -> (r: Result<Vec<u8>, CryptoError>)
        requires
            old(self).well_formed(),
        ensures
            final(self).well_formed(),
            match r {
                Ok(k) => {
                    &&& old(self).has_user(user@)
                    &&& final(self).has_user(user@)
                    &&& final(self).user_key(user@) == k@
                    &&& exists|t: u64| k@ == derived_key(user@, t as nat)
                    &&& forall|u: Seq<char>|
                        u != user@ ==> final(self).has_user(u) == old(self).has_user(u) && (old(self).has_user(u) ==> final(self).user_key(u) == old(self).user_key(u))
                },
                Err(e) => {
                    &&& !old(self).has_user(user@)
                    &&& *final(self) == *old(self)
                    &&& e matches CryptoError::KeyNotFound(u) && u@ == user@
                },
            },
    {
        match self.find_user(user) {
            None => Err(CryptoError::KeyNotFound(String::from_str(user))),
            Some(_) => {
                let new_key = self.generate_key(user);
                let ghost before_log = *self;
                self.log_action(String::from_str("Rotated key for user"));
                proof {
                    assert(self.names() =~= before_log.names());
                    assert(self.key_bytes() =~= before_log.key_bytes());
                }
                Ok(new_key)
            },
        }
    }

    /// Removes and returns the key of `user`, if any.
    pub fn delete_key(&mut self, user: &str) -> (r: Option<Vec<u8>>)
        requires
            old(self).well_formed(),
        ensures
            final(self).well_formed(),
            match r {
                Some(k) => {
                    &&& old(self).has_user(user@)
                    &&& k@ == old(self).user_key(user@)
                    &&& !final(self).has_user(user@)
                    &&& forall|u: Seq<char>|
                        u != user@ ==> final(self).has_user(u) == old(self).has_user(u) && (old(self).has_user(u) ==> final(self).user_key(u) == old(self).user_key(u))
                },
                None => {
                    &&& !old(self).has_user(user@)
                    &&& *final(self) == *old(self)
                },
            },
    {
        let ghost pre = *self;
        match self.find_user(user) {
            None => None,
            Some(i) => {
                let kv = self.keys.remove(i);
                proof {
                    Self::lemma_views_after_remove(pre, *self, i as int, user@);
                }
                let ghost before_log = *self;
                self.log_action(String::from_str("Deleted key for user"));
                proof {
                    assert(self.names() =~= before_log.names());
                    assert(self.key_bytes() =~= before_log.key_bytes());
                }
                Some(kv.1)
            },
        }
    }

    proof fn lemma_views_after_remove(pre: Self, post: Self, i: int, user: Seq<char>)
        requires
            pre.well_formed(),
            0 <= i < pre.keys@.len(),
            pre.names()[i] == user,
            post.keys@ == pre.keys@.remove(i),
        ensures
            post.well_formed(),
            !post.has_user(user),
            forall|u: Seq<char>|
                u != user ==> post.has_user(u) == pre.has_user(u) && (pre.has_user(u)
                    ==> post.user_key(u) == pre.user_key(u)),
    {
        let n = pre.keys@.len() as int;
        assert(post.names().len() == n - 1);
        assert forall|k: int| 0 <= k < n - 1 implies post.names()[k] == (if k < i {
            pre.names()[k]
        } else {
            pre.names()[k + 1]
        }) by {}
        assert forall|k: int| 0 <= k < n - 1 implies post.names()[k] != user by {
            if k < i {
                assert(pre.names()[k] != pre.names()[i]);
            } else {
                assert(pre.names()[k + 1] != pre.names()[i]);
            }
        }
        assert forall|u: Seq<char>| u != user implies post.has_user(u) == pre.has_user(u) && (
        pre.has_user(u) ==> post.user_key(u) == pre.user_key(u)) by {
            if pre.has_user(u) {
                let k = choose|k: int| 0 <= k < pre.names().len() && pre.names()[k] == u;
                assert(k != i);
                if k < i {
                    assert(post.names()[k] == u);
                } else {
                    assert(post.names()[k - 1] == u);
                }
                assert(post.has_user(u));
                let k2 = choose|k2: int| 0 <= k2 < post.names().len() && post.names()[k2] == u;
                let k2pre: int = if k2 < i {
                    k2
                } else {
                    k2 + 1
                };
                assert(pre.names()[k2pre] == u);
                assert(k2pre == k);
                assert(post.key_bytes()[k2] == pre.key_bytes()[k]);
                assert(pre.user_key(u) == pre.key_bytes()[k]);
            }
            if post.has_user(u) {
                let k = choose|k: int| 0 <= k < post.names().len() && post.names()[k] == u;
                if k < i {
                    assert(pre.names()[k] == u);
                } else {
                    assert(pre.names()[k + 1] == u);
                }
                assert(pre.has_user(u));
            }
        }
    }

    /// A key is weak when it is shorter than eight bytes or all its bytes
    /// are alike.
    pub fn is_key_weak(&self, key: &[u8]) -> (r: bool)
        ensures
            r == weak_spec(key@),
    {
        if key.len() < 8 {
            return true;
        }
        let first = key[0];
        let mut i: usize = 0;
        while i < key.len()
            invariant
                i <= key@.len(),
                key@.len() >= 8,
                first == key@[0],
                forall|k: int| 0 <= k < i ==> #[trigger] key@[k] == key@[0],
            decreases key@.len() - i,
        {
            if key[i] != first {
                proof {
                    assert(key@[i as int] != key@[0]);
                    assert(!weak_spec(key@));
                }
                return false;
            }
            i = i + 1;
        }
        proof {
            assert(weak_spec(key@));
        }
        true
    }

    /// Encrypts under the stored key of `user`: refused when the user holds
    /// no key or the key is weak, otherwise the chosen cipher applied to the
    /// text's bytes.
    pub fn encrypt(&self, user: &str, plaintext: &str, algorithm: &Algorithm) -> (r: Result<
        Vec<u8>,
        CryptoError,
    >)
        requires
            self.well_formed(),
        ensures
            match r {
                Ok(c) => {
                    &&& self.has_user(user@)
                    &&& !weak_spec(self.user_key(user@))
                    &&& c@ == encrypt_dispatch(
                        *algorithm,
                        plaintext.spec_bytes(),
                        self.user_key(user@),
                    )
                },
                Err(e) => match e {
                    CryptoError::KeyNotFound(u) => !self.has_user(user@) && u@ == user@,
                    CryptoError::WeakKey => self.has_user(user@) && weak_spec(
                        self.user_key(user@),
                    ),
                    _ => false,
                },
            },
    {
        match self.find_user(user) {
            None => Err(CryptoError::KeyNotFound(String::from_str(user))),
            Some(i) => {
                let key = &self.keys[i].1;
                if self.is_key_weak(key.as_slice()) {
                    return Err(CryptoError::WeakKey);
                }
                let data = plaintext.as_bytes();
                match algorithm {
                    Algorithm::Xor => Ok(xor_encrypt(data, key.as_slice())),
                    Algorithm::Caesar(shift) => Ok(caesar_encrypt(data, *shift)),
                    Algorithm::Vigenere => Ok(vigenere_encrypt(data, key.as_slice())),
                }
            },
        }
    }

    /// Decrypts under the stored key of `user` and decodes the result as
    /// UTF-8; refused for a missing or weak key or for bytes that decode to
    /// no valid text.
    pub fn decrypt(&self, user: &str, ciphertext: &[u8], algorithm: &Algorithm) -> (r: Result<
        String,
        CryptoError,
    >)
        requires
            self.well_formed(),
        ensures
            match r {
                Ok(s) => {
                    &&& self.has_user(user@)
                    &&& !weak_spec(self.user_key(user@))
                    &&& vstd::utf8::valid_utf8(
                        decrypt_dispatch(*algorithm, ciphertext@, self.user_key(user@)),
                    )
                    &&& s@ == vstd::utf8::decode_utf8(
                        decrypt_dispatch(*algorithm, ciphertext@, self.user_key(user@)),
                    )
                },
                Err(e) => match e {
                    CryptoError::KeyNotFound(u) => !self.has_user(user@) && u@ == user@,
                    CryptoError::WeakKey => self.has_user(user@) && weak_spec(
                        self.user_key(user@),
                    ),
                    CryptoError::Utf8 => {
                        &&& self.has_user(user@)
                        &&& !weak_spec(self.user_key(user@))
                        &&& !vstd::utf8::valid_utf8(
                            decrypt_dispatch(*algorithm, ciphertext@, self.user_key(user@)),
                        )
                    },
                    _ => false,
                },
            },
    {
        match self.find_user(user) {
            None => Err(CryptoError::KeyNotFound(String::from_str(user))),
            Some(i) => {
                let key = &self.keys[i].1;
                if self.is_key_weak(key.as_slice()) {
                    return Err(CryptoError::WeakKey);
                }
                let decrypted = match algorithm {
                    Algorithm::Xor => xor_encrypt(ciphertext, key.as_slice()),
                    Algorithm::Caesar(shift) => caesar_decrypt(ciphertext, *shift),
                    Algorithm::Vigenere => vigenere_decrypt(ciphertext, key.as_slice()),
                };
                match crate::strutil::utf8_string(decrypted) {
                    Some(s) => Ok(s),
                    None => Err(CryptoError::Utf8),
                }
            },
        }
    }

    /// Issues a token for a user the manager knows: the message `user_t` for
    /// the current wall-clock second `t`, a dot, and the hex-encoded XOR
    /// signature of the message under the user's key.
    pub fn generate_token(&self, user: &str) -> (r: Result<String, CryptoError>)
        requires
            self.well_formed(),
        ensures
            match r {
                Ok(tok) => {
                    &&& self.has_user(user@)
                    &&& exists|t: u64| tok@ == token_spec(user@, t as nat, self.user_key(user@))
                },
                Err(e) => {
                    &&& !self.has_user(user@)
                    &&& e matches CryptoError::KeyNotFound(u) && u@ == user@
                },
            },
    {
        let timestamp = current_timestamp();
        match self.find_user(user) {
            None => Err(CryptoError::KeyNotFound(String::from_str(user))),
            Some(i) => {
                let key = &self.keys[i].1;
                let mut message = String::from_str(user);
                message.append("_");
                message.append(u64_to_string(timestamp).as_str());
                proof {
                    reveal_strlit("_");
                    assert(message@ =~= user@ + seq!['_'] + dec_rep(timestamp as nat));
                }
                let msg_str = message.as_str();
                let signature = xor_encrypt(msg_str.as_bytes(), key.as_slice());
                let hexed = hex_encode(signature.as_slice());
                let mut token = message;
                token.append(".");
                token.append(hexed.as_str());
                proof {
                    reveal_strlit(".");
                    assert(token@ =~= token_spec(user@, timestamp as nat, self.user_key(user@)));
                }
                Ok(token)
            },
        }
    }

    /// The user names that hold a key, in storage order.
    pub fn list_users(&self) -> (r: Vec<String>)
        ensures
            r@.len() == self.names().len(),
            forall|i: int| 0 <= i < r@.len() ==> #[trigger] r@[i]@ == self.names()[i],
    {
        let mut r: Vec<String> = Vec::new();
        let mut i: usize = 0;
        while i < self.keys.len()
            invariant
                i <= self.keys@.len(),
                r@.len() == i,
                forall|k: int| 0 <= k < i ==> #[trigger] r@[k]@ == self.names()[k],
            decreases self.keys@.len() - i,
        {
            r.push(self.keys[i].0.clone());
            i = i + 1;
        }
        r
    }
}

} // verus!
