use data_structures::algorithms::Algorithms;
use data_structures::bst::BST;
use data_structures::cli::ArgumentParser;
use data_structures::cli::OutputFormat;
use data_structures::counter::AtomicCounter;
use data_structures::crypto::hex_decode;
use data_structures::fast_vec::FastVec;
use data_structures::graph::Graph;
use data_structures::http::HttpResponse;
use data_structures::http::HttpRequest;
use data_structures::http::RouteOutcome;
use data_structures::http::WebServer;
use data_structures::memory::MemoryManager;
use data_structures::monitor::PerformanceMonitor;
use data_structures::pipeline::ParallelPipeline;
use data_structures::pool::MemoryPool;
use data_structures::priority_queue::PriorityQueue;
use data_structures::queue::LockFreeQueue;
use data_structures::search::FileSearcher;
use data_structures::web::ApiResponse;
use data_structures::web::DatabaseError;
use data_structures::web::WebError;

#[test]
fn growable_buffer_pops_in_reverse_push_order() {
    let mut v: FastVec<i32> = FastVec::new();
    for i in 0..10 {
        v.push(i);
    }
    assert_eq!(v.len(), 10);
    assert_eq!(v.capacity(), 16);
    let mut popped = Vec::new();
    while let Some(x) = v.pop() {
        popped.push(x);
    }
    assert_eq!(popped, vec![9, 8, 7, 6, 5, 4, 3, 2, 1, 0]);
    assert!(v.is_empty());
}

#[test]
fn growable_buffer_capacity_steps() {
    let mut v: FastVec<u8> = FastVec::new();
    assert_eq!(v.capacity(), 0);
    v.push(1);
    assert_eq!(v.capacity(), 4);
    for _ in 0..4 {
        v.push(0);
    }
    assert_eq!(v.capacity(), 8);
    assert_eq!(v.get(0), Some(&1));
    assert_eq!(v.get(5), None);
}

#[test]
fn queue_hands_back_enqueue_order() {
    let mut q: LockFreeQueue<u32> = LockFreeQueue::new();
    assert!(q.is_empty());
    for i in 1..=5 {
        q.enqueue(i);
    }
    assert_eq!(q.size(), 5);
    let mut out = Vec::new();
    while let Some(x) = q.dequeue() {
        out.push(x);
    }
    assert_eq!(out, vec![1, 2, 3, 4, 5]);
}

#[test]
fn queue_keeps_every_value_of_two_producers() {
    let mut q: LockFreeQueue<u32> = LockFreeQueue::new();
    let a = [1u32, 2, 3];
    let b = [10u32, 20, 30];
    for k in 0..3 {
        q.enqueue(a[k]);
        q.enqueue(b[k]);
    }
    let mut out = Vec::new();
    while let Some(x) = q.dequeue() {
        out.push(x);
    }
    let mut sorted = out.clone();
    sorted.sort();
    assert_eq!(sorted, vec![1, 2, 3, 10, 20, 30]);
    assert_eq!(out.len(), 6);
}

#[test]
fn bst_scenario_remove_keeps_order() {
    let mut bst = BST::new();
    for v in [50, 30, 70, 20, 40, 60, 80] {
        bst.insert(v);
    }
    assert_eq!(bst.size(), 7);
    assert!(bst.remove(&30));
    assert_eq!(bst.inorder_traversal(), vec![20, 40, 50, 60, 70, 80]);
    assert!(bst.contains(&40));
    assert!(!bst.contains(&90));
}

#[test]
fn bst_counts_distinct_values_only() {
    let mut bst = BST::new();
    bst.insert(5);
    bst.insert(5);
    bst.insert(7);
    assert_eq!(bst.size(), 2);
    assert!(!bst.remove(&9));
    assert_eq!(bst.size(), 2);
    assert!(bst.remove(&5));
    assert_eq!(bst.size(), 1);
    assert!(bst.is_empty() == false);
}

#[test]
fn bst_stays_ordered_under_many_operations() {
    let mut bst = BST::new();
    for v in [8, 3, 10, 1, 6, 14, 4, 7, 13, 2, 5, 9, 11, 12] {
        bst.insert(v);
    }
    for v in [10, 1, 13] {
        bst.remove(&v);
    }
    let walk = bst.inorder_traversal();
    for w in walk.windows(2) {
        assert!(w[0] < w[1]);
    }
    assert_eq!(walk.len(), bst.size());
}

#[test]
fn sorts_agree_and_order() {
    let mut a = vec![64, 34, 25, 12, 22, 11, 90];
    let mut b = a.clone();
    Algorithms::quick_sort(&mut a);
    Algorithms::merge_sort(&mut b);
    assert_eq!(a, vec![11, 12, 22, 25, 34, 64, 90]);
    assert_eq!(a, b);
}

#[test]
fn binary_search_finds_exactly_the_present() {
    let sorted = vec![1, 3, 5, 7, 9, 11, 13, 15, 17, 19];
    assert_eq!(Algorithms::binary_search(&sorted, &7), Some(3));
    assert_eq!(Algorithms::binary_search(&sorted, &10), None);
    assert_eq!(Algorithms::binary_search(&sorted, &15), Some(7));
}

#[test]
fn priority_queue_pops_greatest_priority_first() {
    let mut pq = PriorityQueue::new(|x: &i32| *x);
    for v in [3, 1, 4, 1, 5, 9, 2, 6] {
        pq.push(v);
    }
    assert_eq!(pq.len(), 8);
    assert_eq!(pq.peek(), Some(&9));
    let mut out = Vec::new();
    while let Some(v) = pq.pop() {
        out.push(v);
    }
    assert_eq!(out, vec![9, 6, 5, 4, 3, 2, 1, 1]);
    assert!(pq.is_empty());
}

#[test]
fn graph_walks_start_at_the_start() {
    let mut g = Graph::new();
    g.add_edge(1, 2);
    g.add_edge(1, 3);
    g.add_edge(2, 4);
    g.add_edge(3, 4);
    g.add_edge(4, 5);
    assert_eq!(g.node_count(), 5);
    let bfs = g.bfs(&1);
    assert_eq!(bfs[0], 1);
    assert_eq!(bfs.len(), 5);
    let dfs = g.dfs(&1);
    assert_eq!(dfs[0], 1);
    assert_eq!(dfs.len(), 5);
    assert!(g.bfs(&99).is_empty());
    let neighbors = g.get_neighbors(&1).unwrap();
    assert_eq!(neighbors.len(), 2);
}

#[test]
fn graph_shortest_path_is_a_real_path() {
    let mut g = Graph::new();
    g.add_edge(1, 2);
    g.add_edge(1, 3);
    g.add_edge(2, 4);
    g.add_edge(3, 4);
    g.add_edge(4, 5);
    let path = g.shortest_path(&1, &5).unwrap();
    assert_eq!(path.first(), Some(&1));
    assert_eq!(path.last(), Some(&5));
    assert_eq!(path.len(), 4);
    assert!(g.shortest_path(&5, &1).is_none());
    assert!(g.shortest_path(&1, &99).is_none());
}

#[test]
fn hex_decode_rejects_a_non_digit() {
    assert!(hex_decode("0a1g").is_err());
    assert_eq!(hex_decode("").unwrap(), Vec::<u8>::new());
}

#[test]
fn memory_manager_round_trip_and_clamped_read() {
    let mut m = MemoryManager::new().unwrap();
    m.create_buffer("buf", 16).unwrap();
    m.write_to_buffer("buf", b"abcdef").unwrap();
    assert_eq!(m.read_from_buffer("buf", 0, 6).unwrap(), b"abcdef".to_vec());
    assert_eq!(m.read_from_buffer("buf", 4, 10).unwrap(), b"ef".to_vec());
    assert_eq!(m.read_from_buffer("buf", 9, 3).unwrap(), Vec::<u8>::new());
    assert!(m.read_from_buffer("missing", 0, 1).is_err());
    m.write_string("buf", "héllo").unwrap();
    assert_eq!(m.read_string("buf").unwrap(), "héllo");
    m.write_to_buffer("buf", &[0xff, 0xfe]).unwrap();
    assert!(m.read_string("buf").is_err());
    assert_eq!(m.delete_buffer("buf").unwrap(), true);
    assert_eq!(m.delete_buffer("buf").unwrap(), false);
}

#[test]
fn buffer_borrow_edits_in_place() {
    let mut m = MemoryManager::new().unwrap();
    m.create_buffer("log", 8).unwrap();
    m.write_to_buffer("log", b"abc").unwrap();
    {
        let b = m.get_buffer_mut("log").unwrap();
        b.append(b"def").unwrap();
    }
    assert_eq!(m.read_from_buffer("log", 0, 6).unwrap(), b"abcdef".to_vec());
    assert!(m.get_buffer_mut("absent").is_none());
}

#[test]
fn growable_buffer_with_capacity_starts_there() {
    let mut v: FastVec<u16> = FastVec::with_capacity(3);
    assert_eq!(v.capacity(), 3);
    assert_eq!(v.len(), 0);
    v.push(7);
    v.push(8);
    v.push(9);
    assert_eq!(v.capacity(), 3);
    v.push(10);
    assert_eq!(v.capacity(), 6);
    assert_eq!(v.pop(), Some(10));
}

#[test]
fn block_pool_validates_deallocation() {
    let mut pool = MemoryPool::new(256, 32);
    assert_eq!(pool.total_blocks(), 8);
    let p1 = pool.allocate().unwrap();
    let p2 = pool.allocate().unwrap();
    assert_ne!(p1, p2);
    assert!(pool.deallocate(p1).is_ok());
    assert!(pool.deallocate(p2).is_ok());
    assert_eq!(pool.allocated_count(), 0);
    assert!(pool.deallocate(1024).is_err());
    assert!(pool.deallocate(17).is_err());
    assert!(pool.deallocate(p1).is_err());
}

#[test]
fn counter_compare_and_swap_reports_the_value_seen() {
    let mut c = AtomicCounter::new(2);
    assert_eq!(c.compare_and_swap(0, 7), Ok(0));
    assert_eq!(c.compare_and_swap(3, 9), Err(7));
    assert_eq!(c.get(), 7);
    assert!(!c.has_overflowed());
    c.increment();
    assert!(c.has_overflowed());
}

#[test]
fn monitor_statistics_of_one_measurement() {
    let mut m = PerformanceMonitor::new();
    let r = m.time_operation("op", || 21 * 2);
    assert_eq!(r, 42);
    let st = m.get_statistics("op").unwrap();
    assert_eq!(st.count, 1);
    assert_eq!(st.min, st.max);
    assert_eq!(st.median, st.min);
    assert_eq!(st.total, st.min);
    assert!(m.get_statistics("other").is_none());
}

#[test]
fn response_renders_status_line_headers_and_body() {
    let r = HttpResponse::new(404, "Not Found");
    assert_eq!(r.to_string(), "HTTP/1.1 404 Not Found\r\n\r\n");
    let mut r2 = HttpResponse::new(200, "OK");
    r2.add_header("X-Kind", "demo");
    r2.set_body("hi".to_string());
    assert_eq!(
        r2.to_string(),
        "HTTP/1.1 200 OK\r\nX-Kind: demo\r\nContent-Length: 2\r\n\r\nhi"
    );
}

#[test]
fn server_routes_known_paths_and_rejects_the_rest() {
    let server = WebServer::new(8080);
    assert_eq!(server.port(), 8080);
    let known = HttpRequest::new("POST".to_string(), "/execute".to_string(), "ls".to_string());
    match server.handle_request(&known) {
        RouteOutcome::Action(_) => {},
        RouteOutcome::Response(_) => panic!("expected an action"),
    }
    let unknown = HttpRequest::new("GET".to_string(), "/missing".to_string(), String::new());
    match server.handle_request(&unknown) {
        RouteOutcome::Response(resp) => {
            assert!(resp.to_string().contains("Endpoint not found"));
            assert!(resp.to_string().starts_with("HTTP/1.1 404"));
        },
        RouteOutcome::Action(_) => panic!("expected a response"),
    }
}

#[test]
fn api_response_envelopes() {
    let ok: ApiResponse<u32> = ApiResponse::success(5);
    assert!(ok.success);
    assert_eq!(ok.data, Some(5));
    assert!(ok.error.is_none());
    let bad: ApiResponse<u32> = ApiResponse::error("nope".to_string());
    assert!(!bad.success);
    assert!(bad.data.is_none());
    assert_eq!(bad.error, Some("nope".to_string()));
    match WebError::from(DatabaseError::NotFound) {
        WebError::NotFound => {},
        _ => panic!("wrong mapping"),
    }
    match WebError::from(DatabaseError::InvalidInput("x".to_string())) {
        WebError::BadRequest(m) => assert_eq!(m, "x"),
        _ => panic!("wrong mapping"),
    }
}

#[test]
fn pipeline_moves_work_through_both_queues() {
    let mut p: ParallelPipeline<i32, i32> = ParallelPipeline::new(3);
    p.mark_running();
    assert!(p.is_running());
    for i in 1..=4 {
        p.push_input(i);
    }
    assert_eq!(p.input_size(), 4);
    while let Some(x) = p.take_input() {
        p.push_output(x * x);
    }
    assert_eq!(p.input_size(), 0);
    assert_eq!(p.output_size(), 4);
    assert_eq!(p.pop_output(), Some(1));
    assert_eq!(p.pop_output(), Some(4));
    p.stop();
    assert!(!p.is_running());
}

#[test]
fn searcher_reports_line_and_column() {
    let searcher = FileSearcher::new("wor.d", true).unwrap();
    let lines = vec![
        "hello world".to_string(),
        "no match here".to_string(),
        "world of words".to_string(),
    ];
    let results = searcher.search_lines("demo.txt", &lines);
    assert_eq!(results.len(), 2);
    assert_eq!(results[0].line_number, 1);
    assert_eq!(results[0].column, 7);
    assert_eq!(results[0].matched_text, "world");
    assert_eq!(results[1].line_number, 3);
    assert_eq!(results[1].column, 1);
    assert_eq!(results[0].file_path, "demo.txt");
    assert!(FileSearcher::new("(", true).is_err());
}

#[test]
fn searcher_case_insensitive_flag() {
    let searcher = FileSearcher::new("ERROR", false).unwrap();
    let lines = vec!["an error happened".to_string()];
    let results = searcher.search_lines("log.txt", &lines);
    assert_eq!(results.len(), 1);
    assert_eq!(results[0].matched_text, "error");
}

#[test]
fn argument_parser_fills_the_fields() {
    let args: Vec<String> = ["tool", "search", "-i", "data.txt", "--verbose", "-c", "25", "-f", "json", "--depth", "3"]
        .iter()
        .map(|s| s.to_string())
        .collect();
    let parsed = ArgumentParser::parse(&args).unwrap();
    assert_eq!(parsed.command, "search");
    assert_eq!(parsed.input_file, Some("data.txt".to_string()));
    assert!(parsed.verbose);
    assert!(!parsed.recursive);
    assert_eq!(parsed.count, 25);
    assert!(matches!(parsed.format, OutputFormat::Json));
    assert_eq!(parsed.extra_args.len(), 1);
    assert_eq!(parsed.extra_args[0].0, "depth");
    assert_eq!(parsed.extra_args[0].1, "3");
}

#[test]
fn argument_parser_rejects_bad_input() {
    let to_args = |v: &[&str]| v.iter().map(|s| s.to_string()).collect::<Vec<String>>();
    assert!(ArgumentParser::parse(&to_args(&["tool"])).is_err());
    assert!(ArgumentParser::parse(&to_args(&["tool", "count", "-c", "ten"])).is_err());
    assert!(ArgumentParser::parse(&to_args(&["tool", "count", "-c"])).is_err());
    assert!(ArgumentParser::parse(&to_args(&["tool", "x", "-f", "yaml"])).is_err());
    assert!(ArgumentParser::parse(&to_args(&["tool", "x", "stray"])).is_err());
}
