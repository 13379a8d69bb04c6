use chat_core::hub::HubState;
use chat_core::net::IpAddress;
use chat_core::protocol::ServerMsg;
use chat_core::session::{
    begin_handshake, handshake_reply, joined_notice, prompt_answer, register, Handshake,
    HandshakeStep, Reaction, Session,
};
use tokio::sync::mpsc::{channel, Receiver};

fn local() -> IpAddress {
    IpAddress::V4(u32::from_be_bytes([127, 0, 0, 1]))
}

fn drain(rx: &mut Receiver<ServerMsg>) -> Vec<ServerMsg> {
    let mut out = Vec::new();
    while let Ok(m) = rx.try_recv() {
        out.push(m);
    }
    out
}

fn join(hub: &mut HubState, nick: &str) -> (Session, Receiver<ServerMsg>) {
    let (tx, rx) = channel(64);
    let id = hub.add_client(nick.into(), local(), tx, 0).unwrap();
    (Session { id, ip: local(), nick: nick.into() }, rx)
}

#[test]
fn reconnect_prompts_for_saved_nick() {
    // The first visit settles "alice" and records it for the address.
    let hub = HubState::new(5, 20);
    let (state, _) = begin_handshake(None);
    let saved = match handshake_reply(state, &hub, "nick", "alice") {
        HandshakeStep::Done { nick, persist } => {
            assert!(persist);
            nick
        }
        other => panic!("unexpected {:?}", other),
    };
    // The next connection from that address is offered the saved nickname.
    let (state, prompt) = begin_handshake(Some(saved));
    assert_eq!(state, Handshake::AskKeep { saved: "alice".into() });
    assert_eq!(
        prompt,
        ServerMsg::Prompt { id: "keep_nick".into(), text: "Your nickname is alice. Change it? (y/N)".into() }
    );
    let (state, prompt) = begin_handshake(None);
    assert_eq!(state, Handshake::AskNick);
    assert_eq!(prompt, ServerMsg::Prompt { id: "nick".into(), text: "Choose nickname".into() });
}

#[test]
fn handshake_keep_or_change() {
    let hub = HubState::new(5, 20);
    let keep = Handshake::AskKeep { saved: "alice".into() };
    assert_eq!(
        handshake_reply(keep.clone(), &hub, "keep_nick", "n"),
        HandshakeStep::Done { nick: "alice".into(), persist: false }
    );
    match handshake_reply(keep.clone(), &hub, "keep_nick", "Yes") {
        HandshakeStep::Wait { next, out } => {
            assert_eq!(next, Handshake::AskNick);
            assert_eq!(out, vec![ServerMsg::Prompt { id: "nick".into(), text: "Choose nickname".into() }]);
        }
        other => panic!("unexpected {:?}", other),
    }
    match handshake_reply(keep, &hub, "nick", "n") {
        HandshakeStep::Wait { next, out } => {
            assert_eq!(next, Handshake::AskKeep { saved: "alice".into() });
            assert!(out.is_empty());
        }
        other => panic!("unexpected {:?}", other),
    }
}

#[test]
fn handshake_refuses_taken_and_invalid_nicks() {
    let mut hub = HubState::new(5, 20);
    let (_alice, _rx) = join(&mut hub, "alice");
    match handshake_reply(Handshake::AskNick, &hub, "nick", "Alice") {
        HandshakeStep::Wait { next, out } => {
            assert_eq!(next, Handshake::AskNick);
            assert_eq!(out[0], ServerMsg::Sys { text: "nickname already taken".into() });
            assert_eq!(out[1], ServerMsg::Prompt { id: "nick".into(), text: "Choose nickname".into() });
        }
        other => panic!("unexpected {:?}", other),
    }
    match handshake_reply(Handshake::AskNick, &hub, "nick", &"x".repeat(33)) {
        HandshakeStep::Wait { out, .. } => assert_eq!(out[0], ServerMsg::Sys { text: "invalid nickname".into() }),
        other => panic!("unexpected {:?}", other),
    }
    assert_eq!(
        handshake_reply(Handshake::AskNick, &hub, "nick", &"x".repeat(32)),
        HandshakeStep::Done { nick: "x".repeat(32), persist: true }
    );
    match handshake_reply(Handshake::AskKeep { saved: "ALICE".into() }, &hub, "keep_nick", "no") {
        HandshakeStep::Wait { next, out } => {
            assert_eq!(next, Handshake::AskNick);
            assert_eq!(out[0], ServerMsg::Sys { text: "nickname already taken".into() });
        }
        other => panic!("unexpected {:?}", other),
    }
}

#[test]
fn nickname_uniqueness() {
    let mut hub = HubState::new(5, 20);
    let (state, _) = begin_handshake(None);
    let nick = match handshake_reply(state, &hub, "nick", "alice") {
        HandshakeStep::Done { nick, .. } => nick,
        other => panic!("unexpected {:?}", other),
    };
    let (tx, _rx) = channel(64);
    hub.add_client(nick, local(), tx, 0).unwrap();
    let (state, _) = begin_handshake(None);
    match handshake_reply(state, &hub, "nick", "alice") {
        HandshakeStep::Wait { next, out } => {
            assert_eq!(next, Handshake::AskNick);
            match &out[0] {
                ServerMsg::Sys { text } => assert!(text.contains("nickname already taken")),
                other => panic!("unexpected {:?}", other),
            }
            assert_eq!(out[1], ServerMsg::Prompt { id: "nick".into(), text: "Choose nickname".into() });
        }
        other => panic!("unexpected {:?}", other),
    }
}

#[test]
fn prompt_answers_are_filtered_by_id() {
    assert_eq!(prompt_answer("PROMPT nick bob\r\n", "nick"), Some("bob".into()));
    assert_eq!(prompt_answer("PROMPT keep_nick y", "nick"), None);
    assert_eq!(prompt_answer("SAY hi", "nick"), None);
    assert_eq!(prompt_answer("", "nick"), None);
}

#[test]
fn broadcast_and_who() {
    let mut hub = HubState::new(5, 20);
    let (mut alice, mut rx_a) = join(&mut hub, "alice");
    let (mut bob, mut rx_b) = join(&mut hub, "bob");
    let r = alice.handle_line(&mut hub, "SAY hello", 0);
    let msg = ServerMsg::Msg { nick: "alice".into(), text: "hello".into() };
    assert_eq!(r, Reaction::Chat(msg.clone()));
    assert!(hub.broadcast_chat(&msg).is_empty());
    assert_eq!(drain(&mut rx_b), vec![msg.clone()]);
    assert_eq!(drain(&mut rx_a), vec![msg]);
    let r = bob.handle_line(&mut hub, "WHO", 1);
    assert_eq!(r, Reaction::Reply(ServerMsg::Who { count: 2, nicks: vec!["alice".into(), "bob".into()] }));
}

#[test]
fn nick_command_limits_and_rename() {
    let mut hub = HubState::new(50, 50);
    let (mut alice, _rx_a) = join(&mut hub, "alice");
    let (_bob, mut rx_b) = join(&mut hub, "bob");
    let r = alice.handle_line(&mut hub, &format!("NICK {}", "n".repeat(33)), 0);
    assert_eq!(r, Reaction::Reply(ServerMsg::Sys { text: "nickname too long".into() }));
    let r = alice.handle_line(&mut hub, "NICK Bob", 1);
    assert_eq!(r, Reaction::Reply(ServerMsg::Sys { text: "nickname already taken".into() }));
    let thirty_two = "n".repeat(32);
    let r = alice.handle_line(&mut hub, &format!("NICK {}", thirty_two), 2);
    assert_eq!(r, Reaction::Renamed { old: "alice".into(), new: thirty_two.clone() });
    assert_eq!(alice.nick, thirty_two);
    assert!(!hub.nick_taken("alice"));
    assert_eq!(drain(&mut rx_b), vec![ServerMsg::Sys { text: format!("alice is now {}", thirty_two) }]);
}

#[test]
fn other_commands_and_bad_lines() {
    let mut hub = HubState::new(50, 50);
    let (mut alice, _rx) = join(&mut hub, "alice");
    assert_eq!(alice.handle_line(&mut hub, "  ", 0), Reaction::Ignore);
    assert_eq!(alice.handle_line(&mut hub, "DANCE", 0), Reaction::Reply(ServerMsg::Sys { text: "invalid command".into() }));
    assert_eq!(
        alice.handle_line(&mut hub, "PROMPT nick x", 0),
        Reaction::Reply(ServerMsg::Sys { text: "unexpected prompt".into() })
    );
    assert_eq!(alice.handle_line(&mut hub, "quit", 0), Reaction::Quit);
    let long = format!("SAY {}", "z".repeat(3000));
    match alice.handle_line(&mut hub, &long, 0) {
        Reaction::Chat(ServerMsg::Msg { text, .. }) => assert_eq!(text.len(), 1020),
        other => panic!("unexpected {:?}", other),
    }
}

#[test]
fn rate_limit_disconnects() {
    let mut hub = HubState::new(1, 1);
    let (mut alice, _rx) = join(&mut hub, "alice");
    assert_eq!(alice.handle_line(&mut hub, "WHO", 0), Reaction::Reply(ServerMsg::Who { count: 1, nicks: vec!["alice".into()] }));
    assert_eq!(
        alice.handle_line(&mut hub, "SAY spam", 10),
        Reaction::Reply(ServerMsg::Sys { text: "rate limit exceeded".into() })
    );
    assert!(hub.conn_warned(alice.id));
    assert!(hub.ip_warned(local()));
    assert_eq!(alice.handle_line(&mut hub, "SAY spam", 20), Reaction::RateDisconnect);
}

#[test]
fn join_notice_text() {
    assert_eq!(joined_notice("alice"), ServerMsg::Sys { text: "alice joined".into() });
}

#[test]
fn register_restarts_handshake_when_taken() {
    let mut hub = HubState::new(5, 20);
    let (tx1, _rx1) = channel(64);
    let (tx2, _rx2) = channel(64);
    assert_eq!(register(&mut hub, "alice".into(), local(), tx1, 0).unwrap(), 1);
    match register(&mut hub, "ALICE".into(), local(), tx2, 0) {
        Err(HandshakeStep::Wait { next, out }) => {
            assert_eq!(next, Handshake::AskNick);
            assert_eq!(out[0], ServerMsg::Sys { text: "nickname already taken".into() });
            assert_eq!(out[1], ServerMsg::Prompt { id: "nick".into(), text: "Choose nickname".into() });
        }
        other => panic!("unexpected {:?}", other),
    }
    assert_eq!(hub.list_nicks(), vec!["alice".to_string()]);
}

#[test]
fn refused_nick_leaves_registry_alone() {
    let mut hub = HubState::new(50, 50);
    let (mut alice, _ra) = join(&mut hub, "alice");
    let (_bob, _rb) = join(&mut hub, "bob");
    alice.handle_line(&mut hub, &format!("NICK {}", "q".repeat(33)), 0);
    alice.handle_line(&mut hub, "NICK BOB", 1);
    assert_eq!(hub.list_nicks(), vec!["alice".to_string(), "bob".to_string()]);
    assert_eq!(alice.nick, "alice");
}
