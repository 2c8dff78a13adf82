use mininet::did::DidVerdicts;
use mininet::mute_list::{MuteList, MAX_MUTED};

const A: &str = "did:mini:EAbcdefghijklmnopqrstuvwxyz0123456789ABCDEFGHIJKLMNOPQ";
const B: &str = "did:mini:EBbcdefghijklmnopqrstuvwxyz0123456789ABCDEFGHIJKLMNOPQ";
const HEADER: &str = "mininet-muted/1";

/// The did:mini parser's verdicts as these tests need them: each `good`
/// text is an identifier, canonical as written; each `bad` text is refused.
fn parser(good: &[&str], bad: &[&str]) -> DidVerdicts {
    let mut v = DidVerdicts::new();
    for g in good {
        v.record(g, Ok(g.to_string()));
    }
    for b in bad {
        v.record(b, Err("invalid did:mini identifier".to_string()));
    }
    v
}

#[test]
fn mute_list_round_trips_and_rejects_garbage() {
    let dids = parser(&[A, B], &["not-a-did", "broken", ""]);
    let mut list = MuteList::new();
    assert!(list.is_empty());
    assert!(list.mute(A, &dids).unwrap());
    assert!(!list.mute(A, &dids).unwrap());
    assert!(list.mute(&format!("  {B} "), &dids).unwrap());
    assert!(list.contains(A));
    assert_eq!(list.len(), 2);
    let decoded = MuteList::decode(&list.encode(), &dids).unwrap();
    assert_eq!(decoded, list);
    assert!(list.unmute(A));
    assert!(!list.unmute(A));
    assert!(list.mute("not-a-did", &dids).is_err());
    assert!(MuteList::decode("other/1\n", &dids).is_err());
    assert!(MuteList::decode(&format!("{HEADER}\n{A}\nbroken\n"), &dids).is_err());
}

#[test]
fn mute_list_keeps_order_and_trims() {
    let dids = parser(&[A, B], &[]);
    let mut list = MuteList::new();
    assert!(list.mute(B, &dids).unwrap());
    assert!(list.mute(A, &dids).unwrap());
    assert!(!list.mute(&format!("  {B} "), &dids).unwrap());
    assert!(!list.contains(&format!(" {A}")));
    assert_eq!(list.iter(), vec![A.to_string(), B.to_string()]);
    assert_eq!(list.encode(), format!("mininet-muted/1\n{A}\n{B}\n"));
    assert!(list.unmute(&format!("{A}\n")));
    assert_eq!(list.len(), 1);
}

#[test]
fn refusals_say_why_and_leave_the_list_alone() {
    let dids = parser(&[A, B], &["not-a-did", ""]);
    assert_eq!(MuteList::decode("other/1\n", &dids).unwrap_err(), "unrecognized mute list header");
    assert_eq!(MuteList::decode("", &dids).unwrap_err(), "unrecognized mute list header");
    let mut list = MuteList::new();
    assert_eq!(
        list.mute("   ", &dids).unwrap_err(),
        "not a did:mini identifier: invalid did:mini identifier"
    );
    assert_eq!(
        list.mute("not-a-did", &dids).unwrap_err(),
        "not a did:mini identifier: invalid did:mini identifier"
    );
    // A text the parser never judged is not taken as an identifier.
    assert_eq!(list.mute("did:mini:unseen", &dids).unwrap_err(), "not a did:mini identifier");
    assert!(list.is_empty());
    let text = format!(" mininet-muted/1 \r\n\n{B}\r\n  {A}  \n{B}\n");
    let decoded = MuteList::decode(&text, &dids).unwrap();
    assert_eq!(decoded.iter(), vec![A.to_string(), B.to_string()]);
}

#[test]
fn the_parsers_canonical_text_is_what_is_kept() {
    let mut dids = DidVerdicts::new();
    dids.record("did:mini:Alias", Ok(A.to_string()));
    let mut list = MuteList::new();
    assert!(list.mute(" did:mini:Alias ", &dids).unwrap());
    assert!(list.contains(A));
    assert!(!list.contains("did:mini:Alias"));
}

#[test]
fn a_full_list_refuses_new_identities_only() {
    let names: Vec<String> = (0..MAX_MUTED).map(|i| format!("did:mini:{i:05}")).collect();
    let mut good: Vec<&str> = names.iter().map(|s| s.as_str()).collect();
    good.push("did:mini:new");
    good.push("did:mini:another");
    let dids = parser(&good, &[]);
    let mut list = MuteList::new();
    for name in &names {
        assert!(list.mute(name, &dids).unwrap());
    }
    assert_eq!(list.len(), MAX_MUTED);
    assert_eq!(
        list.mute("did:mini:new", &dids).unwrap_err(),
        "at most 4096 identities can be muted"
    );
    assert!(!list.mute("did:mini:00007", &dids).unwrap());
    assert!(list.unmute("did:mini:00007"));
    assert!(list.mute("did:mini:new", &dids).unwrap());
    let mut text = list.encode();
    text.push_str("did:mini:another\n");
    assert_eq!(
        MuteList::decode(&text, &dids).unwrap_err(),
        "at most 4096 identities can be muted"
    );
}
