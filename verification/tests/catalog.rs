use mininet::catalog::{newest_first, sort, Entry, Kind, Sort, MAX_ENTRIES};
use mininet::discussion::Node;
use mininet::library::{Item, Kind as LibraryKind};

fn entry(title: &str, timestamp_ms: u64, likes: usize, comments: usize) -> Entry {
    Entry {
        post: format!("post-{title}"),
        media: format!("media-{title}"),
        title: title.into(),
        description: "A Walk in the PARK".into(),
        file_name: "clip.mp4".into(),
        content_type: "video/mp4".into(),
        kind: Kind::Video,
        bytes: 5,
        author_name: "Alice".into(),
        author_did: "did:mini:Alice".into(),
        author_avatar: None,
        timestamp_ms,
        likes,
        comments,
        complete: true,
        own: false,
    }
}

#[test]
fn search_matches_every_word_case_insensitively() {
    let e = entry("Sunset Ride", 1, 0, 0);
    assert!(e.matches(""));
    assert!(e.matches("   "));
    assert!(e.matches("sunset"));
    assert!(e.matches("  RIDE  park "));
    assert!(e.matches("alice clip.mp4"));
    assert!(e.matches("video"));
    assert!(e.matches("mp4"));
    assert!(!e.matches("sunset moon"));
    assert!(!e.matches("music"));
    let mut g = entry("Straße", 1, 0, 0);
    g.kind = Kind::Animation;
    assert!(g.matches("STRASSE") == "STRASSE".to_lowercase().contains("straße"));
    assert!(g.matches("straße gif"));
}

#[test]
fn sorting_is_stable_and_ranks_as_chosen() {
    let mut v = vec![entry("a", 10, 1, 5), entry("b", 30, 1, 0), entry("c", 20, 7, 5), entry("d", 30, 0, 1)];
    sort(&mut v, Sort::Newest);
    let titles: Vec<&str> = v.iter().map(|e| e.title.as_str()).collect();
    assert_eq!(titles, vec!["b", "d", "c", "a"]);
    sort(&mut v, Sort::MostLiked);
    let titles: Vec<&str> = v.iter().map(|e| e.title.as_str()).collect();
    assert_eq!(titles, vec!["c", "b", "a", "d"]);
    sort(&mut v, Sort::MostDiscussed);
    let titles: Vec<&str> = v.iter().map(|e| e.title.as_str()).collect();
    assert_eq!(titles, vec!["c", "a", "d", "b"]);
    let mut same = vec![entry("x", 5, 0, 0), entry("y", 5, 0, 0), entry("z", 5, 0, 0)];
    sort(&mut same, Sort::MostLiked);
    let titles: Vec<&str> = same.iter().map(|e| e.title.as_str()).collect();
    assert_eq!(titles, vec!["x", "y", "z"]);
}

fn node(replies: Vec<Node>, truncated: usize) -> Node {
    Node {
        id: "id".into(),
        author: "Bob".into(),
        did: "did:mini:bob".into(),
        text: "hello".into(),
        timestamp_ms: 1,
        upvotes: 0,
        own: false,
        replies,
        truncated,
    }
}

#[test]
fn reply_totals_count_every_level_and_truncated_replies() {
    assert_eq!(node(vec![], 0).total_replies(), 0);
    let leaf = node(vec![], 2);
    let mid = node(vec![leaf, node(vec![], 0)], 1);
    let root = node(vec![mid, node(vec![], 0)], 0);
    // mid: 2 replies (leaf with 2 hidden, empty) + 1 hidden = 1+2 + 1+0 + 1 = 5
    assert_eq!(root.total_replies(), 1 + 5 + 1 + 0);
}

#[test]
fn library_items_report_completion() {
    let mut item = Item {
        id: "obj".into(),
        kind: LibraryKind::Collection,
        name: "movie.mkv".into(),
        content_type: "video/x-matroska".into(),
        total_len: 10,
        author: "did:mini:alice".into(),
        timestamp_ms: 1,
        chunks_present: 3,
        chunks_total: 4,
        parts_missing: 0,
    };
    assert!(!item.complete());
    assert_eq!(item.percent(), 75);
    item.chunks_present = 4;
    assert!(item.complete());
    assert_eq!(item.percent(), 100);
    item.chunks_total = 0;
    item.chunks_present = 0;
    assert_eq!(item.percent(), 100);
    item.parts_missing = 1;
    assert_eq!(item.percent(), 0);
}

#[test]
fn catalog_lists_posts_newest_first_then_by_greater_id() {
    let posts = vec![
        ("b".to_string(), 5u64),
        ("a".to_string(), 9),
        ("c".to_string(), 5),
        ("a".to_string(), 5),
        ("z".to_string(), 1),
    ];
    assert_eq!(
        newest_first(posts),
        vec![
            ("a".to_string(), 9u64),
            ("c".to_string(), 5),
            ("b".to_string(), 5),
            ("a".to_string(), 5),
            ("z".to_string(), 1),
        ]
    );
    assert!(newest_first(Vec::new()).is_empty());
    assert_eq!(MAX_ENTRIES, 2_000);
}
