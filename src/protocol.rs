//! The line-oriented wire protocol: cleaning a received line, parsing client
//! and server messages, and writing them back out.
use vstd::prelude::*;
use crate::text::{
    chars_of, decimal, head, is_space, parse_usize_spec, same_text, string_of, tail, trim,
    trim_bounds, trim_end_crlf, truncate_bytes, upper_verb, fit_count, char_width, verb_upper,
    find_space, push_decimal, parse_usize, is_whitespace, byte_len, lemma_truncate_longest,
    lemma_byte_len_sub,
};

verus! {

/// Longest line, in bytes, that the protocol keeps.
pub const MAX_LINE: usize = 1024;

/// Longest nickname, in bytes.
pub const MAX_NICK: usize = 32;

/// A message from a client to the server.
#[derive(Debug, Clone, PartialEq, Eq)]
pub enum ClientMsg {
    Nick { nick: String },
    Say { text: String },
    Who,
    Quit,
    Prompt { id: String, answer: String },
}

/// A message from the server to a client.
#[derive(Debug, Clone, PartialEq, Eq)]
pub enum ServerMsg {
    Sys { text: String },
    Msg { nick: String, text: String },
    Hist { nick: String, text: String },
    Who { count: usize, nicks: Vec<String> },
    Prompt { id: String, text: String },
}

/// Why a line could not be parsed.
#[derive(Debug, Clone, PartialEq, Eq)]
pub struct ParseError {
    pub message: String,
}

/// The mathematical form of a [`ClientMsg`].
pub enum ClientCmd {
    Nick { nick: Seq<char> },
    Say { text: Seq<char> },
    Who,
    Quit,
    Prompt { id: Seq<char>, answer: Seq<char> },
}

/// The mathematical form of a [`ServerMsg`].
pub enum ServerCmd {
    Sys { text: Seq<char> },
    Msg { nick: Seq<char>, text: Seq<char> },
    Hist { nick: Seq<char>, text: Seq<char> },
    Who { count: usize, nicks: Seq<Seq<char>> },
    Prompt { id: Seq<char>, text: Seq<char> },
}

/// The characters of each string.
pub open spec fn views(v: Seq<String>) -> Seq<Seq<char>> {
    v.map_values(|s: String| s@)
}

impl View for ClientMsg {
    type V = ClientCmd;

    open spec fn view(&self) -> ClientCmd {
        match self {
            ClientMsg::Nick { nick } => ClientCmd::Nick { nick: nick@ },
            ClientMsg::Say { text } => ClientCmd::Say { text: text@ },
            ClientMsg::Who => ClientCmd::Who,
            ClientMsg::Quit => ClientCmd::Quit,
            ClientMsg::Prompt { id, answer } => ClientCmd::Prompt { id: id@, answer: answer@ },
        }
    }
}

impl View for ServerMsg {
    type V = ServerCmd;

    open spec fn view(&self) -> ServerCmd {
        match self {
            ServerMsg::Sys { text } => ServerCmd::Sys { text: text@ },
            ServerMsg::Msg { nick, text } => ServerCmd::Msg { nick: nick@, text: text@ },
            ServerMsg::Hist { nick, text } => ServerCmd::Hist { nick: nick@, text: text@ },
            ServerMsg::Who { count, nicks } => ServerCmd::Who { count: *count, nicks: views(nicks@) },
            ServerMsg::Prompt { id, text } => ServerCmd::Prompt { id: id@, text: text@ },
        }
    }
}

/// A parse outcome with messages and errors in mathematical form.
pub open spec fn client_outcome(r: Result<ClientMsg, ParseError>) -> Result<ClientCmd, Seq<char>> {
    match r {
        Ok(m) => Ok(m@),
        Err(e) => Err(e.message@),
    }
}

/// A parse outcome with messages and errors in mathematical form.
pub open spec fn server_outcome(r: Result<ServerMsg, ParseError>) -> Result<ServerCmd, Seq<char>> {
    match r {
        Ok(m) => Ok(m@),
        Err(e) => Err(e.message@),
    }
}

/// A received line once cleaned: trailing CR/LF dropped, cut to `MAX_LINE`
/// bytes, surrounding whitespace trimmed.
pub open spec fn clean(line: Seq<char>) -> Seq<char> {
    trim(truncate_bytes(trim_end_crlf(line), MAX_LINE as int))
}

/// The client message named by the upper-cased verb `cmd`, with `rest` the
/// trimmed remainder of the line.
pub open spec fn client_cmd_of(cmd: Seq<char>, rest: Seq<char>) -> Result<ClientCmd, Seq<char>> {
    if cmd == "NICK"@ {
        if rest.len() == 0 {
            Err("missing nickname"@)
        } else {
            Ok(ClientCmd::Nick { nick: rest })
        }
    } else if cmd == "SAY"@ {
        if rest.len() == 0 {
            Err("empty message"@)
        } else {
            Ok(ClientCmd::Say { text: rest })
        }
    } else if cmd == "WHO"@ {
        Ok(ClientCmd::Who)
    } else if cmd == "QUIT"@ {
        Ok(ClientCmd::Quit)
    } else if cmd == "PROMPT"@ {
        let id = trim(head(rest));
        let answer = trim(tail(rest));
        if id.len() == 0 || answer.len() == 0 {
            Err("invalid prompt reply"@)
        } else {
            Ok(ClientCmd::Prompt { id, answer })
        }
    } else {
        Err("unknown command"@)
    }
}

/// What a client line parses to.
pub open spec fn parse_client_spec(line: Seq<char>) -> Result<ClientCmd, Seq<char>> {
    let c = clean(line);
    if c.len() == 0 {
        Err("empty line"@)
    } else {
        client_cmd_of(upper_verb(head(c)), trim(tail(c)))
    }
}

/// The whitespace-separated words of `s`, as `str::split_whitespace` gives them.
pub open spec fn words(s: Seq<char>) -> Seq<Seq<char>>
    decreases s.len(),
{
    if s.len() == 0 {
        seq![]
    } else {
        let prev = words(s.drop_last());
        let c = s.last();
        if is_space(c) {
            prev
        } else if s.len() >= 2 && !is_space(s[s.len() - 2]) {
            prev.drop_last().push(prev.last().push(c))
        } else {
            prev.push(seq![c])
        }
    }
}

/// The server message named by the upper-cased verb `cmd`, with `rest` the
/// remainder of the line.
pub open spec fn server_cmd_of(cmd: Seq<char>, rest: Seq<char>) -> Result<ServerCmd, Seq<char>> {
    if cmd == "SYS"@ {
        Ok(ServerCmd::Sys { text: rest })
    } else if cmd == "MSG"@ {
        if head(rest).len() == 0 || tail(rest).len() == 0 {
            Err("invalid MSG"@)
        } else {
            Ok(ServerCmd::Msg { nick: head(rest), text: tail(rest) })
        }
    } else if cmd == "HIST"@ {
        if head(rest).len() == 0 || tail(rest).len() == 0 {
            Err("invalid HIST"@)
        } else {
            Ok(ServerCmd::Hist { nick: head(rest), text: tail(rest) })
        }
    } else if cmd == "WHO"@ {
        let count = match parse_usize_spec(head(rest)) {
            Some(n) => n,
            None => 0usize,
        };
        Ok(ServerCmd::Who { count, nicks: words(tail(rest)) })
    } else if cmd == "PROMPT"@ {
        if head(rest).len() == 0 || tail(rest).len() == 0 {
            Err("invalid PROMPT"@)
        } else {
            Ok(ServerCmd::Prompt { id: head(rest), text: tail(rest) })
        }
    } else {
        Err("unknown command"@)
    }
}

/// What a server line parses to.
pub open spec fn parse_server_spec(line: Seq<char>) -> Result<ServerCmd, Seq<char>> {
    let c = clean(line);
    if c.len() == 0 {
        Err("empty line"@)
    } else {
        server_cmd_of(upper_verb(head(c)), tail(c))
    }
}

/// `ns` joined with single spaces.
pub open spec fn join_words(ns: Seq<Seq<char>>) -> Seq<char>
    decreases ns.len(),
{
    if ns.len() == 0 {
        Seq::empty()
    } else if ns.len() == 1 {
        ns[0]
    } else {
        join_words(ns.drop_last()) + " "@ + ns.last()
    }
}

/// The line that carries a client message.
pub open spec fn format_client_spec(m: ClientCmd) -> Seq<char> {
    match m {
        ClientCmd::Nick { nick } => "NICK "@ + nick,
        ClientCmd::Say { text } => "SAY "@ + text,
        ClientCmd::Who => "WHO"@,
        ClientCmd::Quit => "QUIT"@,
        ClientCmd::Prompt { id, answer } => "PROMPT "@ + id + " "@ + answer,
    }
}

/// The line that carries a server message.
pub open spec fn format_server_spec(m: ServerCmd) -> Seq<char> {
    match m {
        ServerCmd::Sys { text } => "SYS "@ + text,
        ServerCmd::Msg { nick, text } => "MSG "@ + nick + " "@ + text,
        ServerCmd::Hist { nick, text } => "HIST "@ + nick + " "@ + text,
        ServerCmd::Who { count, nicks } => "WHO "@ + decimal(count as nat) + " "@ + join_words(nicks),
        ServerCmd::Prompt { id, text } => "PROMPT "@ + id + " "@ + text,
    }
}

impl ParseError {
    pub fn new(message: &str) -> (r: ParseError)
        ensures
            r.message@ == message@,
    {
        ParseError { message: message.to_owned() }
    }
}

/// Bounds of `clean(cs)` within `cs`.
fn clean_bounds(cs: &Vec<char>) -> (r: (usize, usize))
    ensures
        r.0 <= r.1 <= cs.len(),
        cs@.subrange(r.0 as int, r.1 as int) == clean(cs@),
        byte_len(cs@.subrange(r.0 as int, r.1 as int)) <= MAX_LINE,
{
    let mut end = cs.len();
    assert(cs@.take(cs.len() as int) =~= cs@);
    while end > 0 && (cs[end - 1] == '\r' || cs[end - 1] == '\n')
        invariant
            end <= cs.len(),
            trim_end_crlf(cs@) == trim_end_crlf(cs@.take(end as int)),
        decreases end,
    {
        assert(cs@.take(end as int).drop_last() =~= cs@.take(end - 1));
        end = end - 1;
    }
    let ghost t = cs@.take(end as int);
    let mut used: usize = 0;
    let mut i: usize = 0;
    assert(t.skip(0) =~= t);
    while i < end && used + char_width(cs[i]) <= MAX_LINE
        invariant
            i <= end <= cs.len(),
            used <= MAX_LINE,
            t == cs@.take(end as int),
            fit_count(t, MAX_LINE as int) == i + fit_count(t.skip(i as int), MAX_LINE - used),
        decreases end - i,
    {
        let w = char_width(cs[i]);
        assert(t.skip(i as int).drop_first() =~= t.skip(i + 1));
        used = used + w;
        i = i + 1;
    }
    assert(t.take(i as int) =~= cs@.take(i as int));
    let r = trim_bounds(cs, 0, i);
    proof {
        lemma_truncate_longest(t, MAX_LINE as int);
        assert(fit_count(t, MAX_LINE as int) == i);
        lemma_byte_len_sub(cs@.take(i as int), r.0 as int, r.1 as int);
        assert(cs@.take(i as int).subrange(r.0 as int, r.1 as int) =~= cs@.subrange(r.0 as int, r.1 as int));
    }
    r
}

/// The cleaned form of a received line, or `None` when nothing is left.
pub fn clean_line(line: &str) -> (r: Option<String>)
    ensures
        r is Some <==> clean(line@).len() > 0,
        r matches Some(s) ==> s@ == clean(line@) && byte_len(s@) <= MAX_LINE,
{
    let cs = chars_of(line);
    let (a, b) = clean_bounds(&cs);
    if a == b {
        None
    } else {
        Some(string_of(&cs, a, b))
    }
}

/// Splits `cs[a..b]` at its first space: the verb, and the bounds of the rest.
fn split_verb(cs: &Vec<char>, a: usize, b: usize) -> (r: (String, usize))
    requires
        a <= b <= cs.len(),
    ensures
        r.0@ == head(cs@.subrange(a as int, b as int)),
        a <= r.1 <= b,
        cs@.subrange(r.1 as int, b as int) == tail(cs@.subrange(a as int, b as int)),
{
    let ghost c = cs@.subrange(a as int, b as int);
    let sp = find_space(cs, a, b);
    let verb = string_of(cs, a, sp);
    assert(verb@ =~= head(c));
    if sp < b {
        assert(cs@.subrange(sp + 1, b as int) =~= tail(c));
        (verb, sp + 1)
    } else {
        assert(cs@.subrange(b as int, b as int) =~= tail(c));
        (verb, b)
    }
}

/// The client message for the upper-cased verb `cmd` and the trimmed
/// remainder `rest`.
pub fn client_msg_from(cmd: &str, rest: &str) -> (r: Result<ClientMsg, ParseError>)
    ensures
        client_outcome(r) == client_cmd_of(cmd@, rest@),
{
    if same_text(cmd, "NICK") {
        if rest.is_empty() {
            return Err(ParseError::new("missing nickname"));
        }
        Ok(ClientMsg::Nick { nick: rest.to_owned() })
    } else if same_text(cmd, "SAY") {
        if rest.is_empty() {
            return Err(ParseError::new("empty message"));
        }
        Ok(ClientMsg::Say { text: rest.to_owned() })
    } else if same_text(cmd, "WHO") {
        Ok(ClientMsg::Who)
    } else if same_text(cmd, "QUIT") {
        Ok(ClientMsg::Quit)
    } else if same_text(cmd, "PROMPT") {
        let cs = chars_of(rest);
        let (id_text, after) = split_verb(&cs, 0, cs.len());
        assert(cs@.subrange(0, cs.len() as int) =~= rest@);
        let ids = chars_of(id_text.as_str());
        let (ia, ib) = trim_bounds(&ids, 0, ids.len());
        assert(ids@.subrange(0, ids.len() as int) =~= ids@);
        let (aa, ab) = trim_bounds(&cs, after, cs.len());
        if ia == ib || aa == ab {
            return Err(ParseError::new("invalid prompt reply"));
        }
        Ok(ClientMsg::Prompt { id: string_of(&ids, ia, ib), answer: string_of(&cs, aa, ab) })
    } else {
        Err(ParseError::new("unknown command"))
    }
}

/// Parses one line received from a client.
pub fn parse_client_line(line: &str) -> (r: Result<ClientMsg, ParseError>)
    ensures
        client_outcome(r) == parse_client_spec(line@),
{
    let cs = chars_of(line);
    let (a, b) = clean_bounds(&cs);
    if a == b {
        return Err(ParseError::new("empty line"));
    }
    let (verb, after) = split_verb(&cs, a, b);
    let (ra, rb) = trim_bounds(&cs, after, b);
    let rest = string_of(&cs, ra, rb);
    let upper = verb_upper(verb.as_str());
    client_msg_from(upper.as_str(), rest.as_str())
}

proof fn lemma_views_push(v: Seq<String>, s: String)
    ensures
        views(v.push(s)) == views(v).push(s@),
{
    assert(views(v.push(s)) =~= views(v).push(s@));
}

/// The words of `cs[lo..hi]`, split at whitespace.
fn split_words(cs: &Vec<char>, lo: usize, hi: usize) -> (r: Vec<String>)
    requires
        lo <= hi <= cs.len(),
    ensures
        views(r@) == words(cs@.subrange(lo as int, hi as int)),
{
    let mut out: Vec<String> = Vec::new();
    let mut start = lo;
    let mut in_word = false;
    let mut i = lo;
    assert(views(out@) =~= Seq::<Seq<char>>::empty());
    while i < hi
        invariant
            lo <= start <= i <= hi <= cs.len(),
            in_word <==> (i > lo && !is_space(cs@[i - 1])),
            in_word ==> start < i,
            in_word ==> (start == lo || is_space(cs@[start - 1])),
            in_word ==> forall|j: int| start <= j < i ==> !is_space(#[trigger] cs@[j]),
            in_word ==> words(cs@.subrange(lo as int, i as int)) == views(out@).push(
                cs@.subrange(start as int, i as int),
            ),
            !in_word ==> words(cs@.subrange(lo as int, i as int)) == views(out@),
        decreases hi - i,
    {
        let c = cs[i];
        let ghost t = cs@.subrange(lo as int, i + 1);
        assert(t.drop_last() =~= cs@.subrange(lo as int, i as int));
        assert(t.last() == c);
        if is_whitespace(c) {
            if in_word {
                let w = string_of(cs, start, i);
                proof {
                    lemma_views_push(out@, w);
                }
                out.push(w);
                in_word = false;
            }
        } else {
            if !in_word {
                start = i;
                in_word = true;
                assert(cs@.subrange(start as int, i + 1) =~= seq![c]);
            } else {
                assert(t[t.len() - 2] == cs@[i - 1]);
                assert(cs@.subrange(start as int, i + 1) =~= cs@.subrange(start as int, i as int).push(c));
                assert(views(out@).push(cs@.subrange(start as int, i as int)).drop_last() =~= views(out@));
            }
        }
        i = i + 1;
    }
    if in_word {
        let w = string_of(cs, start, hi);
        proof {
            lemma_views_push(out@, w);
        }
        out.push(w);
    }
    out
}

/// The server message for the upper-cased verb `cmd` and the remainder `rest`.
pub fn server_msg_from(cmd: &str, rest: &str) -> (r: Result<ServerMsg, ParseError>)
    ensures
        server_outcome(r) == server_cmd_of(cmd@, rest@),
{
    let cs = chars_of(rest);
    let (first, after) = split_verb(&cs, 0, cs.len());
    assert(cs@.subrange(0, cs.len() as int) =~= rest@);
    let second = string_of(&cs, after, cs.len());
    if same_text(cmd, "SYS") {
        Ok(ServerMsg::Sys { text: rest.to_owned() })
    } else if same_text(cmd, "MSG") {
        if first.as_str().is_empty() || second.as_str().is_empty() {
            return Err(ParseError::new("invalid MSG"));
        }
        Ok(ServerMsg::Msg { nick: first, text: second })
    } else if same_text(cmd, "HIST") {
        if first.as_str().is_empty() || second.as_str().is_empty() {
            return Err(ParseError::new("invalid HIST"));
        }
        Ok(ServerMsg::Hist { nick: first, text: second })
    } else if same_text(cmd, "WHO") {
        let count = match parse_usize(first.as_str()) {
            Some(n) => n,
            None => 0,
        };
        let nicks = split_words(&cs, after, cs.len());
        Ok(ServerMsg::Who { count, nicks })
    } else if same_text(cmd, "PROMPT") {
        if first.as_str().is_empty() || second.as_str().is_empty() {
            return Err(ParseError::new("invalid PROMPT"));
        }
        Ok(ServerMsg::Prompt { id: first, text: second })
    } else {
        Err(ParseError::new("unknown command"))
    }
}

/// Parses one line received from the server.
pub fn parse_server_line(line: &str) -> (r: Result<ServerMsg, ParseError>)
    ensures
        server_outcome(r) == parse_server_spec(line@),
{
    let cs = chars_of(line);
    let (a, b) = clean_bounds(&cs);
    if a == b {
        return Err(ParseError::new("empty line"));
    }
    let (verb, after) = split_verb(&cs, a, b);
    let rest = string_of(&cs, after, b);
    let upper = verb_upper(verb.as_str());
    server_msg_from(upper.as_str(), rest.as_str())
}

/// The line that carries a client message.
pub fn format_client_msg(msg: ClientMsg) -> (r: String)
    ensures
        r@ == format_client_spec(msg@),
{
    match msg {
        ClientMsg::Nick { nick } => {
            let mut out = "NICK ".to_owned();
            out.append(nick.as_str());
            out
        },
        ClientMsg::Say { text } => {
            let mut out = "SAY ".to_owned();
            out.append(text.as_str());
            out
        },
        ClientMsg::Who => "WHO".to_owned(),
        ClientMsg::Quit => "QUIT".to_owned(),
        ClientMsg::Prompt { id, answer } => {
            let mut out = "PROMPT ".to_owned();
            out.append(id.as_str());
            out.append(" ");
            out.append(answer.as_str());
            out
        },
    }
}

/// Appends `nicks` joined with single spaces.
fn push_joined(out: &mut String, nicks: &Vec<String>)
    ensures
        final(out)@ == old(out)@ + join_words(views(nicks@)),
{
    let ghost start = out@;
    let mut i: usize = 0;
    assert(views(nicks@.take(0)) =~= Seq::<Seq<char>>::empty());
    assert(start + Seq::<char>::empty() =~= start);
    while i < nicks.len()
        invariant
            i <= nicks.len(),
            out@ == start + join_words(views(nicks@.take(i as int))),
        decreases nicks.len() - i,
    {
        let ghost prev = views(nicks@.take(i as int));
        assert(views(nicks@.take(i + 1)) =~= prev.push(nicks@[i as int]@));
        assert(views(nicks@.take(i + 1)).drop_last() =~= prev);
        if i > 0 {
            out.append(" ");
        }
        out.append(nicks[i].as_str());
        proof {
            if i == 0 {
                assert(prev.len() == 0);
                assert(out@ =~= start + join_words(views(nicks@.take(i + 1))));
            } else {
                assert(out@ =~= start + join_words(views(nicks@.take(i + 1))));
            }
        }
        i = i + 1;
    }
    assert(nicks@.take(nicks.len() as int) =~= nicks@);
}

/// The line that carries a server message.
pub fn format_server_msg(msg: &ServerMsg) -> (r: String)
    ensures
        r@ == format_server_spec(msg@),
{
    match msg {
        ServerMsg::Sys { text } => {
            let mut out = "SYS ".to_owned();
            out.append(text.as_str());
            out
        },
        ServerMsg::Msg { nick, text } => {
            let mut out = "MSG ".to_owned();
            out.append(nick.as_str());
            out.append(" ");
            out.append(text.as_str());
            out
        },
        ServerMsg::Hist { nick, text } => {
            let mut out = "HIST ".to_owned();
            out.append(nick.as_str());
            out.append(" ");
            out.append(text.as_str());
            out
        },
        ServerMsg::Who { count, nicks } => {
            let mut out = "WHO ".to_owned();
            push_decimal(&mut out, *count);
            out.append(" ");
            push_joined(&mut out, nicks);
            out
        },
        ServerMsg::Prompt { id, text } => {
            let mut out = "PROMPT ".to_owned();
            out.append(id.as_str());
            out.append(" ");
            out.append(text.as_str());
            out
        },
    }
}

} // verus!
