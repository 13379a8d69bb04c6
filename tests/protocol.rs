use chat_core::protocol::{
    clean_line, format_client_msg, format_server_msg, parse_client_line, parse_server_line,
    ClientMsg, ServerMsg, MAX_LINE,
};

#[test]
fn parse_client_nick() {
    let msg = parse_client_line("NICK alice\n").unwrap();
    assert_eq!(msg, ClientMsg::Nick { nick: "alice".into() });
}

#[test]
fn parse_client_say() {
    let msg = parse_client_line("SAY hello").unwrap();
    assert_eq!(msg, ClientMsg::Say { text: "hello".into() });
}

#[test]
fn format_server_msg_line() {
    let line = format_server_msg(&ServerMsg::Sys { text: "hi".into() });
    assert_eq!(line, "SYS hi");
}

#[test]
fn clean_line_strips_crlf_and_spaces() {
    assert_eq!(clean_line("  SAY hi \r\n"), Some("SAY hi".to_string()));
    assert_eq!(clean_line("\r\n"), None);
    assert_eq!(clean_line(""), None);
    assert_eq!(clean_line("   \t  "), None);
}

#[test]
fn clean_line_trims_unicode_whitespace() {
    assert_eq!(clean_line("\u{3000}SAY hi\u{85}\u{a0}"), Some("SAY hi".to_string()));
    assert_eq!(clean_line("\u{2028}x\u{200a}"), Some("x".to_string()));
}

#[test]
fn say_longer_than_max_line_is_truncated() {
    let long = format!("SAY {}", "a".repeat(2000));
    let msg = parse_client_line(&long).unwrap();
    match msg {
        ClientMsg::Say { text } => {
            assert_eq!(text.len(), MAX_LINE - 4);
            assert_eq!(text, "a".repeat(1020));
        }
        other => panic!("unexpected {:?}", other),
    }
    let cleaned = clean_line(&long).unwrap();
    assert_eq!(cleaned.len(), 1024);
}

#[test]
fn truncation_keeps_whole_characters() {
    // 1023 ASCII bytes then a two-byte character: it does not fit whole.
    let line = format!("{}é", "b".repeat(1023));
    let cleaned = clean_line(&line).unwrap();
    assert_eq!(cleaned, "b".repeat(1023));
    let line = format!("{}é", "b".repeat(1022));
    assert_eq!(clean_line(&line).unwrap().len(), 1024);
}

#[test]
fn client_verbs_are_case_insensitive() {
    assert_eq!(parse_client_line("nick bob").unwrap(), ClientMsg::Nick { nick: "bob".into() });
    assert_eq!(parse_client_line("wHo").unwrap(), ClientMsg::Who);
    assert_eq!(parse_client_line("quit").unwrap(), ClientMsg::Quit);
    assert_eq!(parse_client_line("say   spaced  out ").unwrap(), ClientMsg::Say { text: "spaced  out".into() });
}

#[test]
fn client_prompt_reply_splits_at_first_space() {
    assert_eq!(
        parse_client_line("PROMPT keep_nick  yes please ").unwrap(),
        ClientMsg::Prompt { id: "keep_nick".into(), answer: "yes please".into() }
    );
}

#[test]
fn client_parse_errors() {
    assert_eq!(parse_client_line("   ").unwrap_err().message, "empty line");
    assert_eq!(parse_client_line("NICK").unwrap_err().message, "missing nickname");
    assert_eq!(parse_client_line("SAY    ").unwrap_err().message, "empty message");
    assert_eq!(parse_client_line("PROMPT nick").unwrap_err().message, "invalid prompt reply");
    assert_eq!(parse_client_line("PROMPT").unwrap_err().message, "invalid prompt reply");
    assert_eq!(parse_client_line("JUMP now").unwrap_err().message, "unknown command");
}

#[test]
fn format_client_lines() {
    assert_eq!(format_client_msg(ClientMsg::Nick { nick: "al".into() }), "NICK al");
    assert_eq!(format_client_msg(ClientMsg::Say { text: "a b".into() }), "SAY a b");
    assert_eq!(format_client_msg(ClientMsg::Who), "WHO");
    assert_eq!(format_client_msg(ClientMsg::Quit), "QUIT");
    assert_eq!(
        format_client_msg(ClientMsg::Prompt { id: "nick".into(), answer: "al ice".into() }),
        "PROMPT nick al ice"
    );
}

#[test]
fn client_round_trip_on_examples() {
    let msgs = vec![
        ClientMsg::Nick { nick: "Zoë".into() },
        ClientMsg::Say { text: "hello  there".into() },
        ClientMsg::Who,
        ClientMsg::Quit,
        ClientMsg::Prompt { id: "keep_nick".into(), answer: "n o".into() },
    ];
    for m in msgs {
        let line = format_client_msg(m.clone());
        assert_eq!(parse_client_line(&line).unwrap(), m);
    }
}

#[test]
fn format_server_lines() {
    assert_eq!(format_server_msg(&ServerMsg::Msg { nick: "alice".into(), text: "hello".into() }), "MSG alice hello");
    assert_eq!(format_server_msg(&ServerMsg::Hist { nick: "bob".into(), text: "x y".into() }), "HIST bob x y");
    assert_eq!(
        format_server_msg(&ServerMsg::Who { count: 2, nicks: vec!["alice".into(), "bob".into()] }),
        "WHO 2 alice bob"
    );
    assert_eq!(format_server_msg(&ServerMsg::Who { count: 0, nicks: vec![] }), "WHO 0 ");
    assert_eq!(format_server_msg(&ServerMsg::Who { count: 120, nicks: vec!["a".into()] }), "WHO 120 a");
    assert_eq!(format_server_msg(&ServerMsg::Prompt { id: "nick".into(), text: "Choose nickname".into() }), "PROMPT nick Choose nickname");
}

#[test]
fn server_round_trip_on_examples() {
    let msgs = vec![
        ServerMsg::Sys { text: "rate limit exceeded".into() },
        ServerMsg::Sys { text: "".into() },
        ServerMsg::Msg { nick: "alice".into(), text: " leading space kept".into() },
        ServerMsg::Hist { nick: "bob".into(), text: "old line".into() },
        ServerMsg::Who { count: 2, nicks: vec!["alice".into(), "bob".into()] },
        ServerMsg::Who { count: 0, nicks: vec![] },
        ServerMsg::Prompt { id: "keep_nick".into(), text: "Your nickname is alice. Change it? (y/N)".into() },
    ];
    for m in msgs {
        let line = format_server_msg(&m);
        assert_eq!(parse_server_line(&line).unwrap(), m);
    }
}

#[test]
fn server_parse_details() {
    assert_eq!(
        parse_server_line("WHO +3 a\tb  c").unwrap(),
        ServerMsg::Who { count: 3, nicks: vec!["a".into(), "b".into(), "c".into()] }
    );
    assert_eq!(parse_server_line("WHO x alice").unwrap(), ServerMsg::Who { count: 0, nicks: vec!["alice".into()] });
    assert_eq!(parse_server_line("WHO").unwrap(), ServerMsg::Who { count: 0, nicks: vec![] });
    assert_eq!(
        parse_server_line("WHO 99999999999999999999999 a").unwrap(),
        ServerMsg::Who { count: 0, nicks: vec!["a".into()] }
    );
    assert_eq!(parse_server_line("sys hello").unwrap(), ServerMsg::Sys { text: "hello".into() });
    assert_eq!(parse_server_line("MSG alice").unwrap_err().message, "invalid MSG");
    assert_eq!(parse_server_line("HIST bob").unwrap_err().message, "invalid HIST");
    assert_eq!(parse_server_line("PROMPT nick").unwrap_err().message, "invalid PROMPT");
    assert_eq!(parse_server_line("").unwrap_err().message, "empty line");
    assert_eq!(parse_server_line("BYE now").unwrap_err().message, "unknown command");
}
