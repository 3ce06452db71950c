use bencode_rs::pool::worth_keeping;
use bencode_rs::{bencode_graph, ContextPool, EncodeError, Graph, GraphError, Integer, Node};

fn number(n: i64) -> Node {
    Node::Integer(Integer::from_i64(n))
}

fn text(s: &str) -> Node {
    Node::ByteString(s.as_bytes().to_vec())
}

fn key(s: &str, id: usize) -> (Vec<u8>, usize) {
    (s.as_bytes().to_vec(), id)
}

fn fails(graph: &Graph, root: usize, kind: EncodeError, node: usize) {
    assert_eq!(bencode_graph(graph, root), Err(GraphError { kind, node }));
}

#[test]
fn graph_of_a_tree_encodes_like_the_tree() {
    let mut graph = Graph::new();
    let one = graph.add(number(1));
    let spam = graph.add(text("spam"));
    let list = graph.add(Node::List(vec![one, spam]));
    let root = graph.add(Node::Dictionary(vec![key("z", list), key("a", one)]));
    assert_eq!(bencode_graph(&graph, root), Ok(b"d1:ai1e1:zli1e4:spamee".to_vec()));
    assert_eq!(bencode_graph(&graph, list), Ok(b"li1e4:spame".to_vec()));
    assert_eq!(bencode_graph(&graph, one), Ok(b"i1e".to_vec()));
    assert_eq!(bencode_graph(&graph, spam), Ok(b"4:spam".to_vec()));
}

#[test]
fn graph_add_returns_positions_in_order() {
    let mut graph = Graph::new();
    assert_eq!(graph.add(number(1)), 0);
    assert_eq!(graph.add(number(2)), 1);
    assert_eq!(graph.add(Node::Unsupported), 2);
    assert_eq!(graph.nodes.len(), 3);
}

#[test]
fn shared_container_is_written_each_time_it_is_reached() {
    let mut graph = Graph::new();
    let shared = graph.add(Node::List(vec![]));
    let inner = graph.add(Node::List(vec![shared, shared]));
    let root = graph.add(Node::List(vec![inner, shared, inner]));
    assert_eq!(bencode_graph(&graph, root), Ok(b"llleleelelleleee".to_vec()));
}

#[test]
fn shared_dictionary_under_two_keys_is_no_cycle() {
    let mut graph = Graph::new();
    let one = graph.add(number(1));
    let shared = graph.add(Node::Dictionary(vec![key("k", one)]));
    let root = graph.add(Node::Dictionary(vec![key("b", shared), key("a", shared)]));
    assert_eq!(bencode_graph(&graph, root), Ok(b"d1:ad1:ki1ee1:bd1:ki1eee".to_vec()));
}

#[test]
fn list_that_contains_itself_is_a_cycle() {
    let graph = Graph { nodes: vec![Node::List(vec![0])] };
    fails(&graph, 0, EncodeError::Cycle, 0);
}

#[test]
fn dictionary_that_contains_itself_is_a_cycle() {
    let graph = Graph { nodes: vec![Node::Dictionary(vec![key("self", 0)])] };
    fails(&graph, 0, EncodeError::Cycle, 0);
}

#[test]
fn container_that_contains_itself_through_others_is_a_cycle() {
    let graph = Graph {
        nodes: vec![
            Node::List(vec![1]),
            Node::Dictionary(vec![key("next", 2)]),
            Node::List(vec![3, 0]),
            number(7),
        ],
    };
    fails(&graph, 0, EncodeError::Cycle, 0);
    fails(&graph, 1, EncodeError::Cycle, 1);
    fails(&graph, 2, EncodeError::Cycle, 2);
    assert_eq!(bencode_graph(&graph, 3), Ok(b"i7e".to_vec()));
}

#[test]
fn cycle_behind_the_root_is_found() {
    let graph = Graph {
        nodes: vec![
            Node::List(vec![3, 1]),
            Node::List(vec![2]),
            Node::List(vec![1]),
            text("x"),
        ],
    };
    fails(&graph, 0, EncodeError::Cycle, 1);
}

#[test]
fn long_cycle_is_found() {
    let n = 500;
    let mut nodes = Vec::new();
    for i in 0..n {
        nodes.push(Node::List(vec![(i + 1) % n]));
    }
    let graph = Graph { nodes };
    fails(&graph, 0, EncodeError::Cycle, 0);
    fails(&graph, 17, EncodeError::Cycle, 17);
}

#[test]
fn deep_nesting_without_a_cycle_encodes() {
    let n = 500;
    let mut nodes = vec![Node::List(vec![])];
    for i in 0..n {
        nodes.push(Node::List(vec![i]));
    }
    let graph = Graph { nodes };
    let mut expected = vec![b'l'; n + 1];
    expected.extend(vec![b'e'; n + 1]);
    assert_eq!(bencode_graph(&graph, n), Ok(expected));
}

#[test]
fn unsupported_object_is_rejected() {
    let mut graph = Graph::new();
    let bad = graph.add(Node::Unsupported);
    let one = graph.add(number(1));
    let root = graph.add(Node::List(vec![one, bad]));
    fails(&graph, root, EncodeError::UnsupportedType, bad);
    fails(&graph, bad, EncodeError::UnsupportedType, bad);
}

#[test]
fn position_outside_the_graph_is_rejected() {
    let graph = Graph { nodes: vec![Node::List(vec![5])] };
    fails(&graph, 0, EncodeError::UnsupportedType, 5);
    fails(&graph, 9, EncodeError::UnsupportedType, 9);
    fails(&Graph::new(), 0, EncodeError::UnsupportedType, 0);
}

#[test]
fn dictionary_node_with_equal_keys_is_rejected() {
    let mut graph = Graph::new();
    let one = graph.add(number(1));
    let two = graph.add(number(2));
    let dict = graph.add(Node::Dictionary(vec![key("a", one), key("b", two), key("a", two)]));
    let root = graph.add(Node::List(vec![dict]));
    fails(&graph, root, EncodeError::DuplicateKey, dict);
}

#[test]
fn the_first_failure_in_writing_order_is_reported() {
    let graph = Graph {
        nodes: vec![
            Node::List(vec![1, 2, 0]),
            Node::Unsupported,
            Node::Dictionary(vec![key("a", 1), key("a", 1)]),
        ],
    };
    fails(&graph, 0, EncodeError::UnsupportedType, 1);
    let graph = Graph {
        nodes: vec![
            Node::List(vec![2, 0, 1]),
            Node::Unsupported,
            Node::Dictionary(vec![key("a", 0), key("a", 1)]),
        ],
    };
    fails(&graph, 0, EncodeError::DuplicateKey, 2);
    let graph = Graph {
        nodes: vec![Node::Dictionary(vec![key("b", 1), key("a", 0)]), Node::Unsupported],
    };
    fails(&graph, 0, EncodeError::Cycle, 0);
}

#[test]
fn dictionary_node_writes_its_entries_sorted() {
    let mut graph = Graph::new();
    let mut entries = Vec::new();
    for i in (0..20).rev() {
        let id = graph.add(number(i));
        entries.push(key(&format!("k{:02}", i), id));
    }
    let root = graph.add(Node::Dictionary(entries));
    let mut expected = b"d".to_vec();
    for i in 0..20 {
        expected.extend_from_slice(format!("3:k{:02}i{}e", i, i).as_bytes());
    }
    expected.push(b'e');
    assert_eq!(bencode_graph(&graph, root), Ok(expected));
}

#[test]
fn graph_error_reports_message_and_node() {
    let graph = Graph { nodes: vec![Node::List(vec![0])] };
    let err = bencode_graph(&graph, 0).unwrap_err();
    assert_eq!(err.node(), 0);
    assert_eq!(err.message(), "circular reference found");
}

#[test]
fn pooled_encoding_gives_the_same_bytes() {
    let mut pool = ContextPool::new();
    let mut graph = Graph::new();
    let one = graph.add(number(1));
    let list = graph.add(Node::List(vec![one, one]));
    let cyclic = graph.add(Node::List(vec![2]));
    for _ in 0..10 {
        assert_eq!(pool.bencode_graph(&graph, list), Ok(b"li1ei1ee".to_vec()));
        assert_eq!(pool.bencode_graph(&graph, list), bencode_graph(&graph, list));
        assert_eq!(pool.bencode_graph(&graph, cyclic), bencode_graph(&graph, cyclic));
        assert_eq!(pool.bencode_graph(&graph, one), Ok(b"i1e".to_vec()));
    }
}

#[test]
fn pool_hands_out_fresh_contexts() {
    let mut pool = ContextPool::new();
    let mut ctx = pool.get_ctx();
    assert!(ctx.buf.is_empty());
    assert!(ctx.seen.is_empty());
    ctx.buf.extend_from_slice(b"left over");
    ctx.seen.insert(3);
    pool.release_ctx(ctx);
    let again = pool.get_ctx();
    assert!(again.buf.is_empty());
    assert!(again.seen.is_empty());
}

#[test]
fn pool_keeps_small_buffers_while_it_has_room() {
    assert!(worth_keeping(0, 0));
    assert!(worth_keeping(4096, 3));
    assert!(worth_keeping(1024 * 1024, 0));
    assert!(!worth_keeping(1024 * 1024 + 1, 0));
    assert!(!worth_keeping(4096, 4));
    assert!(!worth_keeping(4096, 5));
}

#[test]
fn pool_goes_on_after_a_large_encoding() {
    let mut pool = ContextPool::new();
    let mut graph = Graph::new();
    let large = graph.add(Node::ByteString(vec![b'x'; 2 * 1024 * 1024]));
    let small = graph.add(text("small"));
    let bytes = pool.bencode_graph(&graph, large).unwrap();
    assert_eq!(bytes.len(), 2 * 1024 * 1024 + 8);
    assert_eq!(&bytes[..8], b"2097152:");
    assert_eq!(pool.bencode_graph(&graph, small), Ok(b"5:small".to_vec()));
    assert_eq!(pool.bencode_graph(&graph, large), Ok(bytes));
}

#[test]
fn graph_and_nodes_can_be_copied() {
    let mut graph = Graph::new();
    let one = graph.add(number(1));
    let root = graph.add(Node::Dictionary(vec![key("k", one)]));
    let copy = graph.clone();
    assert_eq!(copy, graph);
    assert_eq!(bencode_graph(&copy, root), bencode_graph(&graph, root));
}

#[test]
fn pool_takes_back_by_capacity_and_room() {
    let mut pool = ContextPool::new();
    let mut a = pool.get_ctx();
    a.buf.extend_from_slice(b"left over");
    a.seen.insert(7);
    let b = pool.get_ctx();
    pool.take_back(a, 4096);
    pool.take_back(b, 1024 * 1024 + 1);
    let first = pool.get_ctx();
    assert!(first.buf.is_empty());
    assert!(first.seen.is_empty());
    assert!(first.buf.capacity() >= 9);
    let second = pool.get_ctx();
    assert!(second.buf.is_empty());
}
