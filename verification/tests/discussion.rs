use mininet::discussion::{sort_threads, Node, Order};

fn node(id: &str, timestamp_ms: u64, upvotes: usize) -> Node {
    Node {
        id: id.to_string(),
        author: "Mininet participant".to_string(),
        did: "did:mini:a".to_string(),
        text: format!("thread {id}"),
        timestamp_ms,
        upvotes,
        own: false,
        replies: Vec::new(),
        truncated: 0,
    }
}

fn ids(threads: &[Node]) -> Vec<&str> {
    threads.iter().map(|t| t.id.as_str()).collect()
}

#[test]
fn top_threads_sort_by_upvotes_then_time_then_id() {
    let mut threads = vec![
        node("b1", 5, 0),
        node("c2", 6, 2),
        node("a3", 7, 0),
        node("d4", 7, 0),
        node("e5", 1, 2),
    ];
    sort_threads(&mut threads, Order::Top);
    assert_eq!(ids(&threads), vec!["c2", "e5", "d4", "a3", "b1"]);
}

#[test]
fn new_threads_sort_by_time_then_id() {
    let mut threads = vec![node("b1", 5, 0), node("c2", 6, 2), node("a3", 7, 0), node("z9", 6, 0)];
    sort_threads(&mut threads, Order::New);
    assert_eq!(ids(&threads), vec!["a3", "z9", "c2", "b1"]);
    let mut none: Vec<Node> = Vec::new();
    sort_threads(&mut none, Order::New);
    assert!(none.is_empty());
}

#[test]
fn threads_that_tie_keep_their_order() {
    let mut threads = vec![node("same", 3, 1), node("same", 3, 1)];
    threads[0].text = "first".to_string();
    threads[1].text = "second".to_string();
    sort_threads(&mut threads, Order::Top);
    assert_eq!(threads[0].text, "first");
    assert_eq!(threads[1].text, "second");
}
