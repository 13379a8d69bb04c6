use chat_core::history::HistoryLog;
use chat_core::identities::{dedupe_by_nick, keep_winners, IdentityRecord};

fn rec(ip: &str, nick: &str, updated: u64) -> (String, IdentityRecord) {
    (ip.to_string(), IdentityRecord { nick: nick.to_string(), updated })
}

#[test]
fn newest_record_wins_per_lowercase_nick() {
    let records = vec![
        rec("10.0.0.1", "Alice", 5),
        rec("10.0.0.2", "alice", 9),
        rec("10.0.0.3", "bob", 1),
        rec("10.0.0.4", "ALICE", 9),
    ];
    let kept = dedupe_by_nick(&records);
    assert_eq!(kept, vec![rec("10.0.0.2", "alice", 9), rec("10.0.0.3", "bob", 1)]);
}

#[test]
fn distinct_nicks_all_kept() {
    let records = vec![rec("1", "a", 1), rec("2", "b", 1), rec("3", "c", 1)];
    assert_eq!(dedupe_by_nick(&records), records);
    assert!(dedupe_by_nick(&Vec::new()).is_empty());
}

#[test]
fn unicode_case_folds_together() {
    let records = vec![rec("1", "ÄRGER", 3), rec("2", "ärger", 2)];
    assert_eq!(dedupe_by_nick(&records), vec![rec("1", "ÄRGER", 3)]);
}

#[test]
fn history_keeps_most_recent() {
    let mut h = HistoryLog::new(2);
    h.push_at("a".into(), "1".into(), 1);
    h.push_at("b".into(), "2".into(), 2);
    h.push_at("c".into(), "3".into(), 3);
    let items = h.list();
    assert_eq!(items.len(), 2);
    assert_eq!(items[0].nick, "b");
    assert_eq!(items[1].text, "3");
    assert_eq!(items[1].ts, 3);
    h.push("d".into(), "4".into());
    assert_eq!(h.list().len(), 2);
    assert_eq!(h.list()[1].nick, "d");
}

#[test]
fn winners_follow_the_given_keys() {
    let records = vec![rec("a", "x", 1), rec("b", "y", 1), rec("c", "z", 2)];
    let keys = vec!["k".to_string(), "k".to_string(), "m".to_string()];
    assert_eq!(keep_winners(&records, &keys), vec![rec("a", "x", 1), rec("c", "z", 2)]);
    let keys = vec!["k".to_string(), "j".to_string(), "k".to_string()];
    assert_eq!(keep_winners(&records, &keys), vec![rec("b", "y", 1), rec("c", "z", 2)]);
}
