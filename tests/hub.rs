use chat_core::hub::{refused_ids, HubState, RateVerdict, OUTBOUND_CAPACITY};
use chat_core::session::{Reaction, Session};
use chat_core::net::IpAddress;
use chat_core::protocol::ServerMsg;
use tokio::sync::mpsc::{channel, Receiver};

fn local() -> IpAddress {
    IpAddress::V4(u32::from_be_bytes([127, 0, 0, 1]))
}

fn drain(rx: &mut Receiver<ServerMsg>) -> Vec<ServerMsg> {
    let mut out = Vec::new();
    while let Ok(m) = rx.try_recv() {
        out.push(m);
    }
    out
}

#[test]
fn add_issues_increasing_ids_and_refuses_taken_nicks() {
    let mut hub = HubState::new(5, 20);
    let (tx1, _rx1) = channel(64);
    let (tx2, _rx2) = channel(64);
    let (tx3, _rx3) = channel(64);
    let a = hub.add_client("alice".into(), local(), tx1, 0).unwrap();
    assert_eq!(a, 1);
    assert!(hub.add_client("ALICE".into(), local(), tx2, 0).is_none());
    let b = hub.add_client("bob".into(), local(), tx3, 0).unwrap();
    assert_eq!(b, 2);
    assert_eq!(hub.next_id, 3);
    assert_eq!(hub.list_nicks(), vec!["alice".to_string(), "bob".to_string()]);
    assert!(hub.nick_taken("Alice"));
    assert!(!hub.nick_taken("carol"));
    assert!(hub.key_in_use("alice"));
    assert!(!hub.key_in_use("Alice"));
    assert_eq!(hub.ip_rates.len(), 1);
}

#[test]
fn rename_rules() {
    let mut hub = HubState::new(5, 20);
    let (tx1, _rx1) = channel(64);
    let (tx2, _rx2) = channel(64);
    let a = hub.add_client("alice".into(), local(), tx1, 0).unwrap();
    let _b = hub.add_client("bob".into(), local(), tx2, 0).unwrap();
    assert_eq!(hub.rename(a, "BOB".into()), Err("nickname already taken".to_string()));
    assert_eq!(hub.rename(a, "Alice".into()), Ok(()));
    assert_eq!(hub.list_nicks()[0], "alice");
    assert_eq!(hub.rename(a, "carol".into()), Ok(()));
    assert!(!hub.nick_taken("alice"));
    assert!(hub.nick_taken("CAROL"));
    assert_eq!(hub.rename(99, "dave".into()), Err("unknown client".to_string()));
}

#[test]
fn remove_keeps_ip_limiter() {
    let mut hub = HubState::new(5, 20);
    let (tx, _rx) = channel(64);
    let a = hub.add_client("alice".into(), local(), tx, 0).unwrap();
    let h = hub.remove_client(a).unwrap();
    assert_eq!(h.nick, "alice");
    assert!(hub.remove_client(a).is_none());
    assert!(hub.clients.is_empty());
    assert!(hub.conn_rates.is_empty());
    assert_eq!(hub.ip_rates.len(), 1);
    assert!(!hub.nick_taken("alice"));
}

#[test]
fn broadcast_reaches_each_client_once_including_sender() {
    let mut hub = HubState::new(5, 20);
    let (tx1, mut rx1) = channel(64);
    let (tx2, mut rx2) = channel(64);
    let a = hub.add_client("alice".into(), local(), tx1, 0).unwrap();
    let b = hub.add_client("bob".into(), local(), tx2, 0).unwrap();
    let msg = ServerMsg::Msg { nick: "alice".into(), text: "hello".into() };
    let round = hub.deliver(&msg);
    assert_eq!(round, vec![(a, true), (b, true)]);
    assert_eq!(drain(&mut rx1), vec![msg.clone()]);
    assert_eq!(drain(&mut rx2), vec![msg.clone()]);
    let dropped = hub.broadcast_with_disconnects(&msg);
    assert!(dropped.is_empty());
    assert_eq!(drain(&mut rx1).len(), 1);
    assert_eq!(drain(&mut rx2).len(), 1);
}

#[test]
fn slow_consumer_is_evicted() {
    let mut hub = HubState::new(5, 20);
    let (tx_slow, _rx_slow) = channel(1);
    let (tx_fast, mut rx_fast) = channel(64);
    let slow = hub.add_client("slow".into(), local(), tx_slow, 0).unwrap();
    let fast = hub.add_client("fast".into(), local(), tx_fast, 0).unwrap();
    let first = ServerMsg::Msg { nick: "fast".into(), text: "1".into() };
    assert!(hub.broadcast_chat(&first).is_empty());
    let second = ServerMsg::Msg { nick: "fast".into(), text: "2".into() };
    assert_eq!(hub.broadcast_chat(&second), vec![slow]);
    assert_eq!(hub.list_nicks(), vec!["fast".to_string()]);
    let got = drain(&mut rx_fast);
    assert_eq!(got.len(), 3);
    assert_eq!(got[2], ServerMsg::Sys { text: "slow left (slow consumer)".into() });
    let _ = fast;
}

#[test]
fn rate_warns_then_disconnects() {
    let mut hub = HubState::new(1, 1);
    let (tx, _rx) = channel(64);
    let a = hub.add_client("alice".into(), local(), tx, 0).unwrap();
    assert_eq!(hub.rate_verdict(a, local(), 10), RateVerdict::Pass);
    assert_eq!(hub.rate_verdict(a, local(), 20), RateVerdict::Warn);
    assert!(hub.conn_warned(a));
    assert!(hub.ip_warned(local()));
    assert_eq!(hub.rate_verdict(a, local(), 30), RateVerdict::Disconnect);
    assert_eq!(hub.rate_verdict(a, local(), 2000), RateVerdict::Pass);
    assert!(!hub.conn_warned(a));
    assert!(!hub.ip_warned(local()));
}

#[test]
fn ip_limiter_is_shared_and_sticky() {
    let mut hub = HubState::new(10, 2);
    let (tx1, _rx1) = channel(64);
    let a = hub.add_client("a".into(), local(), tx1, 0).unwrap();
    assert!(hub.ip_rate_ok(local(), 1));
    assert!(hub.ip_rate_ok(local(), 2));
    hub.remove_client(a);
    let (tx2, _rx2) = channel(64);
    let _b = hub.add_client("b".into(), local(), tx2, 3).unwrap();
    assert!(!hub.ip_rate_ok(local(), 4));
    hub.mark_ip_warned(local());
    assert!(hub.ip_warned(local()));
    assert!(hub.conn_rate_ok(77, 5));
    assert!(!hub.conn_warned(77));
}

#[test]
fn slow_consumer_eviction_after_full_queue() {
    let mut hub = HubState::new(1000, 1000);
    let (tx_slow, _rx_slow) = channel(OUTBOUND_CAPACITY);
    let (tx_talker, mut rx_talker) = channel(OUTBOUND_CAPACITY);
    let slow = hub.add_client("slow".into(), local(), tx_slow, 0).unwrap();
    let talker = hub.add_client("talker".into(), local(), tx_talker, 0).unwrap();
    let mut session = Session { id: talker, ip: local(), nick: "talker".into() };
    let mut evicted = Vec::new();
    for i in 0..65u64 {
        let reaction = session.handle_line(&mut hub, &format!("SAY line {}", i), i);
        match reaction {
            Reaction::Chat(msg) => evicted.extend(hub.broadcast_chat(&msg)),
            other => panic!("unexpected {:?}", other),
        }
        let got = drain(&mut rx_talker);
        if i < 64 {
            assert_eq!(got.len(), 1);
        } else {
            assert_eq!(got.last().unwrap(), &ServerMsg::Sys { text: "slow left (slow consumer)".into() });
        }
    }
    assert_eq!(evicted, vec![slow]);
    assert_eq!(hub.list_nicks(), vec!["talker".to_string()]);
}

#[test]
fn refused_ids_keep_round_order() {
    assert_eq!(refused_ids(&vec![(1, true), (2, false), (3, true), (4, false)]), vec![2, 4]);
    assert!(refused_ids(&vec![]).is_empty());
}

#[test]
fn second_disconnect_changes_nothing() {
    let mut hub = HubState::new(5, 20);
    let (tx1, _rx1) = channel(64);
    let (tx2, mut rx2) = channel(64);
    let a = hub.add_client("slow".into(), local(), tx1, 0).unwrap();
    let _b = hub.add_client("bob".into(), local(), tx2, 0).unwrap();
    assert!(hub.disconnect_client(a, "slow consumer"));
    assert!(!hub.nick_taken("slow"));
    assert_eq!(hub.conn_rates.len(), 1);
    assert_eq!(drain(&mut rx2), vec![ServerMsg::Sys { text: "slow left (slow consumer)".into() }]);
    assert!(!hub.disconnect_client(a, "slow consumer"));
    assert!(drain(&mut rx2).is_empty());
    assert_eq!(hub.list_nicks(), vec!["bob".to_string()]);
}

#[test]
fn evict_removes_listed_clients_only() {
    let mut hub = HubState::new(5, 20);
    let (tx1, _rx1) = channel(64);
    let (tx2, _rx2) = channel(64);
    let (tx3, mut rx3) = channel(64);
    let a = hub.add_client("a".into(), local(), tx1, 0).unwrap();
    let b = hub.add_client("b".into(), local(), tx2, 0).unwrap();
    let _c = hub.add_client("c".into(), local(), tx3, 0).unwrap();
    hub.evict(&vec![a, b, a], "gone");
    assert_eq!(hub.list_nicks(), vec!["c".to_string()]);
    assert_eq!(
        drain(&mut rx3),
        vec![ServerMsg::Sys { text: "a left (gone)".into() }, ServerMsg::Sys { text: "b left (gone)".into() }]
    );
    assert_eq!(hub.ip_rates.len(), 1);
}
