use chat_core::allowlist::{gate, AllowedList, PendingEntry, PendingList};
use chat_core::net::IpAddress;

fn v4(a: u8, b: u8, c: u8, d: u8) -> IpAddress {
    IpAddress::V4(u32::from_be_bytes([a, b, c, d]))
}

#[test]
fn allowlist_basic() {
    let list = AllowedList { allow: vec!["127.0.0.1".into(), "10.0.0.0/8".into()] };
    assert!(list.allows(v4(127, 0, 0, 1)));
    assert!(list.allows(v4(10, 1, 2, 3)));
    assert!(!list.allows(v4(192, 168, 0, 1)));
}

#[test]
fn allowlist_skips_malformed_entries_and_handles_v6() {
    let list = AllowedList {
        allow: vec!["".into(), "not-an-ip".into(), "300.1.1.1".into(), "2001:db8::/32".into(), "::1".into()],
    };
    assert!(list.allows(IpAddress::V6(0x2001_0db8_0000_0000_0000_0000_0000_0042)));
    assert!(list.allows(IpAddress::V6(1)));
    assert!(!list.allows(IpAddress::V6(2)));
    assert!(!list.allows(v4(0, 0, 0, 1)));
    assert_eq!(list.to_nets().len(), 2);
}

#[test]
fn allowlist_prefix_zero_and_host_bits() {
    let list = AllowedList { allow: vec!["0.0.0.0/0".into()] };
    assert!(list.allows(v4(8, 8, 8, 8)));
    assert!(!list.allows(IpAddress::V6(1)));
    let list = AllowedList { allow: vec!["192.168.1.77/24".into()] };
    assert!(list.allows(v4(192, 168, 1, 5)));
    assert!(!list.allows(v4(192, 168, 2, 5)));
}

#[test]
fn add_twice_lists_once() {
    let mut list = AllowedList::default();
    assert!(list.add("X"));
    assert!(!list.add("X"));
    assert_eq!(list.allow, vec!["X".to_string()]);
}

#[test]
fn add_keeps_entries_sorted() {
    let mut list = AllowedList::default();
    list.add("b");
    list.add("a");
    list.add("c");
    assert_eq!(list.allow, vec!["a".to_string(), "b".to_string(), "c".to_string()]);
}

#[test]
fn remove_drops_every_copy() {
    let mut list = AllowedList { allow: vec!["a".into(), "b".into(), "a".into()] };
    list.remove("a");
    assert_eq!(list.allow, vec!["b".to_string()]);
    list.remove("zzz");
    assert_eq!(list.allow, vec!["b".to_string()]);
}

#[test]
fn denied_peer_is_noted_pending() {
    let allow = AllowedList { allow: vec!["127.0.0.1".into()] };
    let mut pending = PendingList::default();
    assert!(!gate(&allow, &mut pending, v4(192, 168, 0, 9), 100));
    assert_eq!(
        pending.pending,
        vec![("192.168.0.9".to_string(), PendingEntry { first_seen: 100, last_seen: 100, attempts: 1 })]
    );
    assert!(!gate(&allow, &mut pending, v4(192, 168, 0, 9), 250));
    assert_eq!(pending.pending[0].1, PendingEntry { first_seen: 100, last_seen: 250, attempts: 2 });
    assert!(gate(&allow, &mut pending, v4(127, 0, 0, 1), 300));
    assert_eq!(pending.pending.len(), 1);
}

#[test]
fn pending_v6_key_is_canonical_text() {
    let mut pending = PendingList::default();
    pending.note_attempt(IpAddress::V6(1), 5);
    assert_eq!(pending.pending[0].0, "::1");
}

#[test]
fn pending_remove_and_clear() {
    let mut pending = PendingList::default();
    pending.note_attempt_key("10.0.0.1", 1);
    pending.note_attempt_key("10.0.0.2", 2);
    assert!(pending.contains("10.0.0.1"));
    pending.remove("10.0.0.1");
    assert!(!pending.contains("10.0.0.1"));
    assert!(pending.contains("10.0.0.2"));
    pending.clear();
    assert!(pending.pending.is_empty());
}
