//! The rules of one client session: the identity handshake that settles a
//! nickname, and the reaction to each line once the client has joined.
//! The caller performs the I/O that a step asks for.
use vstd::prelude::*;
use vstd::utf8::{encode_scalar, encode_utf8};
use crate::hub::{ClientId, HubState, RateVerdict};
use tokio::sync::mpsc::Sender;
use crate::net::IpAddress;
use crate::protocol::{
    clean, clean_line, parse_client_line, parse_client_spec, ClientCmd, ClientMsg, ServerMsg,
    ServerCmd, MAX_NICK, views,
};
use crate::text::{byte_len, char_width, chars_of, lower_of, string_of, trim, trim_bounds};

verus! {

/// Where the identity handshake stands.
#[derive(Debug, Clone, PartialEq, Eq)]
pub enum Handshake {
    /// The address has a saved nickname; waiting for the `keep_nick` answer.
    AskKeep { saved: String },
    /// Waiting for a `nick` answer.
    AskNick,
}

/// The outcome of one handshake answer.
#[derive(Debug, Clone, PartialEq, Eq)]
pub enum HandshakeStep {
    /// Keep waiting in `next`, after sending `out` to the client.
    Wait { next: Handshake, out: Vec<ServerMsg> },
    /// The nickname is settled; `persist` says whether to record it for the address.
    Done { nick: String, persist: bool },
}

/// What the session does after one line in steady state.
#[derive(Debug, Clone, PartialEq, Eq)]
pub enum Reaction {
    /// Nothing: the line was empty.
    Ignore,
    /// Send this message to the client itself.
    Reply(ServerMsg),
    /// The nickname changed from `old` to `new`; record `new` for the address.
    Renamed { old: String, new: String },
    /// Record this chat message in the history, then broadcast it.
    Chat(ServerMsg),
    /// The client asked to leave.
    Quit,
    /// The rate limits were broken again after a warning: end the session.
    RateDisconnect,
}

/// A joined client's session: its id, address and current nickname.
#[derive(Debug, Clone)]
pub struct Session {
    pub id: ClientId,
    pub ip: IpAddress,
    pub nick: String,
}

/// The prompt asking for a nickname.
pub open spec fn nick_prompt_spec() -> ServerCmd {
    ServerCmd::Prompt { id: "nick"@, text: "Choose nickname"@ }
}

/// The prompt offering to keep the saved nickname.
pub open spec fn keep_prompt_spec(saved: Seq<char>) -> ServerCmd {
    ServerCmd::Prompt {
        id: "keep_nick"@,
        text: "Your nickname is "@ + saved + ". Change it? (y/N)"@,
    }
}

/// A system line.
pub open spec fn sys_spec(text: Seq<char>) -> ServerCmd {
    ServerCmd::Sys { text }
}

/// The messages in mathematical form.
pub open spec fn msg_views(v: Seq<ServerMsg>) -> Seq<ServerCmd> {
    v.map_values(|m: ServerMsg| m@)
}

/// The answer a line carries for the prompt `expected`, if it is a
/// `PROMPT` reply to that prompt.
pub open spec fn prompt_answer_spec(line: Seq<char>, expected: Seq<char>) -> Option<Seq<char>> {
    if clean(line).len() == 0 {
        None
    } else {
        match parse_client_spec(clean(line)) {
            Ok(ClientCmd::Prompt { id, answer }) => if id == expected {
                Some(answer)
            } else {
                None
            },
            _ => None,
        }
    }
}

/// The prompt asking for a nickname.
pub fn nick_prompt() -> (r: ServerMsg)
    ensures
        r@ == nick_prompt_spec(),
{
    ServerMsg::Prompt { id: "nick".to_owned(), text: "Choose nickname".to_owned() }
}

/// The prompt offering to keep the saved nickname.
pub fn keep_prompt(saved: &str) -> (r: ServerMsg)
    ensures
        r@ == keep_prompt_spec(saved@),
{
    let mut text = "Your nickname is ".to_owned();
    text.append(saved);
    text.append(". Change it? (y/N)");
    ServerMsg::Prompt { id: "keep_nick".to_owned(), text }
}

/// A system line.
pub fn sys(text: &str) -> (r: ServerMsg)
    ensures
        r@ == sys_spec(text@),
{
    ServerMsg::Sys { text: text.to_owned() }
}

/// The notice that `nick` joined.
pub fn joined_notice(nick: &str) -> (r: ServerMsg)
    ensures
        r@ == sys_spec(nick@ + " joined"@),
{
    let mut text = nick.to_owned();
    text.append(" joined");
    ServerMsg::Sys { text }
}

/// The answer `line` carries for the prompt `expected`, if any; other lines
/// are skipped while a prompt is pending.
pub fn prompt_answer(line: &str, expected: &str) -> (r: Option<String>)
    ensures
        match r {
            Some(a) => prompt_answer_spec(line@, expected@) == Some(a@),
            None => prompt_answer_spec(line@, expected@) is None,
        },
{
    match clean_line(line) {
        None => None,
        Some(c) => match parse_client_line(c.as_str()) {
            Ok(ClientMsg::Prompt { id, answer }) => {
                if crate::text::same_text(id.as_str(), expected) {
                    Some(answer)
                } else {
                    None
                }
            },
            _ => None,
        },
    }
}

/// The first handshake step: offer the saved nickname, or ask for one.
pub fn begin_handshake(saved: Option<String>) -> (r: (Handshake, ServerMsg))
    ensures
        match saved {
            Some(s) => r.0 == (Handshake::AskKeep { saved: s }) && r.1@ == keep_prompt_spec(s@),
            None => r.0 == Handshake::AskNick && r.1@ == nick_prompt_spec(),
        },
{
    match saved {
        Some(s) => {
            let prompt = keep_prompt(s.as_str());
            (Handshake::AskKeep { saved: s }, prompt)
        },
        None => (Handshake::AskNick, nick_prompt()),
    }
}

/// Whether an answer asks to change the nickname: it starts with `y` or `Y`.
pub open spec fn wants_change(answer: Seq<char>) -> bool {
    answer.len() > 0 && (answer[0] == 'y' || answer[0] == 'Y')
}

fn starts_with_yes(answer: &str) -> (r: bool)
    ensures
        r == wants_change(answer@),
{
    let cs = chars_of(answer);
    cs.len() > 0 && (cs[0] == 'y' || cs[0] == 'Y')
}

/// Whether `cs[lo..hi]` takes more than `limit` bytes in UTF-8.
pub fn longer_than(cs: &Vec<char>, lo: usize, hi: usize, limit: usize) -> (r: bool)
    requires
        lo <= hi <= cs.len(),
    ensures
        r == (byte_len(cs@.subrange(lo as int, hi as int)) > limit),
{
    let mut used: usize = 0;
    let mut i = hi;
    assert(cs@.subrange(hi as int, hi as int) =~= Seq::<char>::empty());
    while i > lo
        invariant
            lo <= i <= hi <= cs.len(),
            used <= limit,
            used == byte_len(cs@.subrange(i as int, hi as int)),
        decreases i - lo,
    {
        let w = char_width(cs[i - 1]);
        let ghost s = cs@.subrange(i - 1, hi as int);
        assert(s.drop_first() =~= cs@.subrange(i as int, hi as int));
        assert(s[0] == cs@[i - 1]);
        if w > limit - used {
            proof {
                lemma_byte_len_grows(cs@.subrange(lo as int, hi as int), i - 1 - lo);
                assert(cs@.subrange(lo as int, hi as int).skip(i - 1 - lo) =~= s);
            }
            return true;
        }
        used = used + w;
        i = i - 1;
    }
    assert(cs@.subrange(i as int, hi as int) =~= cs@.subrange(lo as int, hi as int));
    false
}

/// Dropping leading characters never adds bytes.
proof fn lemma_byte_len_grows(s: Seq<char>, k: int)
    requires
        0 <= k <= s.len(),
    ensures
        byte_len(s.skip(k)) <= byte_len(s),
    decreases k,
{
    if k > 0 {
        lemma_byte_len_grows(s, k - 1);
        let t = s.skip(k - 1);
        assert(t.drop_first() =~= s.skip(k));
        assert(encode_utf8(t) == encode_scalar(t[0] as u32) + encode_utf8(t.drop_first()));
    } else {
        assert(s.skip(0) =~= s);
    }
}

/// One handshake step for a `PROMPT` reply with `id` and `answer`; replies
/// to another prompt are ignored.
pub fn handshake_reply(state: Handshake, hub: &HubState, id: &str, answer: &str) -> (r: HandshakeStep)
    ensures
        match state {
            Handshake::AskKeep { saved } => if id@ != "keep_nick"@ {
                r matches HandshakeStep::Wait { next, out } && next == (Handshake::AskKeep { saved })
                    && out@.len() == 0
            } else if wants_change(answer@) {
                r matches HandshakeStep::Wait { next, out } && next == Handshake::AskNick
                    && msg_views(out@) == seq![nick_prompt_spec()]
            } else if hub.nicks().contains(lower_of(saved@)) {
                r matches HandshakeStep::Wait { next, out } && next == Handshake::AskNick
                    && msg_views(out@) == seq![sys_spec("nickname already taken"@), nick_prompt_spec()]
            } else {
                r matches HandshakeStep::Done { nick, persist } && nick@ == saved@ && !persist
            },
            Handshake::AskNick => if id@ != "nick"@ {
                r matches HandshakeStep::Wait { next, out } && next == Handshake::AskNick && out@.len() == 0
            } else if trim(answer@).len() == 0 || byte_len(trim(answer@)) > MAX_NICK {
                r matches HandshakeStep::Wait { next, out } && next == Handshake::AskNick
                    && msg_views(out@) == seq![sys_spec("invalid nickname"@), nick_prompt_spec()]
            } else if hub.nicks().contains(lower_of(trim(answer@))) {
                r matches HandshakeStep::Wait { next, out } && next == Handshake::AskNick
                    && msg_views(out@) == seq![sys_spec("nickname already taken"@), nick_prompt_spec()]
            } else {
                r matches HandshakeStep::Done { nick, persist } && nick@ == trim(answer@) && persist
            },
        },
{
    match state {
        Handshake::AskKeep { saved } => {
            if !crate::text::same_text(id, "keep_nick") {
                return HandshakeStep::Wait { next: Handshake::AskKeep { saved }, out: Vec::new() };
            }
            if starts_with_yes(answer) {
                let out = vec![nick_prompt()];
                assert(msg_views(out@) =~= seq![nick_prompt_spec()]);
                return HandshakeStep::Wait { next: Handshake::AskNick, out };
            }
            if hub.nick_taken(saved.as_str()) {
                let out = vec![sys("nickname already taken"), nick_prompt()];
                assert(msg_views(out@) =~= seq![sys_spec("nickname already taken"@), nick_prompt_spec()]);
                return HandshakeStep::Wait { next: Handshake::AskNick, out };
            }
            let ghost saved_view = saved@;
            let r = HandshakeStep::Done { nick: saved, persist: false };
            assert(r matches HandshakeStep::Done { nick, persist } && nick@ == saved_view && !persist);
            r
        },
        Handshake::AskNick => {
            if !crate::text::same_text(id, "nick") {
                return HandshakeStep::Wait { next: Handshake::AskNick, out: Vec::new() };
            }
            let cs = chars_of(answer);
            let (a, b) = trim_bounds(&cs, 0, cs.len());
            assert(cs@.subrange(0, cs.len() as int) =~= answer@);
            let nick = string_of(&cs, a, b);
            if a == b || longer_than(&cs, a, b, MAX_NICK) {
                let out = vec![sys("invalid nickname"), nick_prompt()];
                assert(msg_views(out@) =~= seq![sys_spec("invalid nickname"@), nick_prompt_spec()]);
                return HandshakeStep::Wait { next: Handshake::AskNick, out };
            }
            if hub.nick_taken(nick.as_str()) {
                let out = vec![sys("nickname already taken"), nick_prompt()];
                assert(msg_views(out@) =~= seq![sys_spec("nickname already taken"@), nick_prompt_spec()]);
                return HandshakeStep::Wait { next: Handshake::AskNick, out };
            }
            HandshakeStep::Done { nick, persist: true }
        },
    }
}

/// What a parsed command leads to once the rate check has passed, for a
/// client named `nick`; `nicks` are the lowercase nicknames in use, `live`
/// whether the client is registered, `names` the display nicknames.
pub open spec fn command_outcome(
    cmd: ClientCmd,
    nick: Seq<char>,
    nicks: Set<Seq<char>>,
    live: bool,
    names: Seq<Seq<char>>,
    r: Reaction,
    nick_after: Seq<char>,
) -> bool {
    match cmd {
        ClientCmd::Nick { nick: new } => if byte_len(new) > MAX_NICK {
            r matches Reaction::Reply(m) && m@ == sys_spec("nickname too long"@) && nick_after == nick
        } else if nicks.contains(lower_of(new)) {
            r matches Reaction::Reply(m) && m@ == sys_spec("nickname already taken"@) && nick_after == nick
        } else if !live {
            r matches Reaction::Reply(m) && m@ == sys_spec("unknown client"@) && nick_after == nick
        } else {
            r matches Reaction::Renamed { old, new: n } && old@ == nick && n@ == new && nick_after == new
        },
        ClientCmd::Say { text } => r matches Reaction::Chat(m) && m@ == (ServerCmd::Msg { nick, text })
            && nick_after == nick,
        ClientCmd::Who => r matches Reaction::Reply(m) && m@ == (ServerCmd::Who { count: names.len() as usize, nicks: names })
            && nick_after == nick,
        ClientCmd::Quit => r == Reaction::Quit && nick_after == nick,
        ClientCmd::Prompt { .. } => r matches Reaction::Reply(m) && m@ == sys_spec("unexpected prompt"@)
            && nick_after == nick,
    }
}

/// Registers a client whose handshake settled on `nick`. If the nickname
/// was taken meanwhile (or the ids have run out), the handshake goes back to
/// asking: the client is told the name is taken and prompted again.
pub fn register(hub: &mut HubState, nick: String, ip: IpAddress, tx: Sender<ServerMsg>, now: u64) -> (r: Result<ClientId, HandshakeStep>)
    requires
        old(hub).wf(),
    ensures
        final(hub).wf(),
        r is Ok <==> (!old(hub).nicks().contains(lower_of(nick@)) && old(hub).next_id < u64::MAX),
        r matches Ok(id) ==> {
            &&& id == old(hub).next_id
            &&& final(hub).has_client(id)
            &&& final(hub).nicks() == old(hub).nicks().insert(lower_of(nick@))
        },
        r matches Err(step) ==> {
            &&& *final(hub) == *old(hub)
            &&& step matches HandshakeStep::Wait { next, out }
            &&& next == Handshake::AskNick
            &&& msg_views(out@) == seq![sys_spec("nickname already taken"@), nick_prompt_spec()]
        },
{
    match hub.add_client(nick, ip, tx, now) {
        Some(id) => {
            assert(hub.clients@[hub.clients.len() - 1].id == id);
            Ok(id)
        },
        None => {
            let out = vec![sys("nickname already taken"), nick_prompt()];
            assert(msg_views(out@) =~= seq![sys_spec("nickname already taken"@), nick_prompt_spec()]);
            Err(HandshakeStep::Wait { next: Handshake::AskNick, out })
        },
    }
}

/// Whether a parsed command that passed the rate check renames the client:
/// a `NICK` whose name fits, is free in lowercase, for a registered client.
pub open spec fn renames_client(cmd: ClientCmd, nicks: Set<Seq<char>>, live: bool) -> bool {
    cmd matches ClientCmd::Nick { nick: new } && byte_len(new) <= MAX_NICK && !nicks.contains(
        lower_of(new),
    ) && live
}

/// The display nicknames of the live clients, in registry order.
pub open spec fn names_of(hub: &HubState) -> Seq<Seq<char>> {
    hub.clients@.map_values(|c: crate::hub::ClientSlot| c.handle.nick@)
}

impl Session {
    /// Reacts to one line from the client: empty lines are skipped, lines
    /// that do not parse get `SYS invalid command`, every parsed command is
    /// counted by the rate limiters, and a command that passes is carried out.
    pub fn handle_line(&mut self, hub: &mut HubState, line: &str, now: u64) -> (r: Reaction)
        requires
            old(hub).wf(),
        ensures
            final(hub).wf(),
            final(self).id == old(self).id,
            final(self).ip == old(self).ip,
            forall|c: ClientId| #[trigger] final(hub).has_client(c) == old(hub).has_client(c),
            ({
                let c = clean(line@);
                if c.len() == 0 {
                    r == Reaction::Ignore && *final(hub) == *old(hub) && final(self).nick@ == old(self).nick@
                } else {
                    match parse_client_spec(c) {
                        Err(_) => r matches Reaction::Reply(m) && m@ == sys_spec("invalid command"@)
                            && *final(hub) == *old(hub) && final(self).nick@ == old(self).nick@,
                        Ok(cmd) => {
                            let v = old(hub).verdict_spec(old(self).id, old(self).ip, now);
                            &&& final(hub).rates_checked_from(old(hub), old(self).id, old(self).ip, now)
                            &&& if v == RateVerdict::Pass && renames_client(
                                cmd,
                                old(hub).nicks(),
                                old(hub).has_client(old(self).id),
                            ) {
                                final(hub).slot_renamed(old(hub), old(self).id, cmd->Nick_nick)
                            } else {
                                final(hub).clients@ == old(hub).clients@
                            }
                            &&& if v == RateVerdict::Disconnect {
                                r == Reaction::RateDisconnect && final(self).nick@ == old(self).nick@
                            } else if v == RateVerdict::Warn {
                                r matches Reaction::Reply(m) && m@ == sys_spec("rate limit exceeded"@)
                                    && final(self).nick@ == old(self).nick@
                            } else {
                                command_outcome(
                                    cmd,
                                    old(self).nick@,
                                    old(hub).nicks(),
                                    old(hub).has_client(old(self).id),
                                    names_of(old(hub)),
                                    r,
                                    final(self).nick@,
                                )
                            }
                        },
                    }
                }
            }),
    {
        let cleaned = match clean_line(line) {
            None => {
                return Reaction::Ignore;
            },
            Some(c) => c,
        };
        let msg = match parse_client_line(cleaned.as_str()) {
            Err(_) => {
                return Reaction::Reply(sys("invalid command"));
            },
            Ok(m) => m,
        };
        let ghost before = *hub;
        match hub.rate_verdict(self.id, self.ip, now) {
            RateVerdict::Disconnect => {
                return Reaction::RateDisconnect;
            },
            RateVerdict::Warn => {
                return Reaction::Reply(sys("rate limit exceeded"));
            },
            RateVerdict::Pass => {},
        }
        assert(hub.nicks() =~= before.nicks());
        match msg {
            ClientMsg::Nick { nick: new } => {
                let new_chars = chars_of(new.as_str());
                assert(new_chars@.subrange(0, new_chars.len() as int) =~= new@);
                if longer_than(&new_chars, 0, new_chars.len(), MAX_NICK) {
                    return Reaction::Reply(sys("nickname too long"));
                }
                if hub.nick_taken(new.as_str()) {
                    return Reaction::Reply(sys("nickname already taken"));
                }
                let old = self.nick.clone();
                let ghost mid = *hub;
                match hub.rename(self.id, new.clone()) {
                    Err(e) => Reaction::Reply(sys(e.as_str())),
                    Ok(()) => {
                        proof {
                            assert forall|c: ClientId| #[trigger] hub.has_client(c) == mid.has_client(c) by {
                                if mid.has_client(c) {
                                    let j = choose|j: int| 0 <= j < mid.clients.len() && (#[trigger] mid.clients@[j]).id == c;
                                    assert(hub.clients@[j].id == c);
                                }
                                if hub.has_client(c) {
                                    let j = choose|j: int| 0 <= j < hub.clients.len() && (#[trigger] hub.clients@[j]).id == c;
                                    assert(mid.clients@[j].id == c);
                                }
                            }
                        }
                        let mut text = old.clone();
                        text.append(" is now ");
                        text.append(new.as_str());
                        hub.broadcast(&ServerMsg::Sys { text });
                        self.nick = new.clone();
                        Reaction::Renamed { old, new }
                    },
                }
            },
            ClientMsg::Say { text } => Reaction::Chat(ServerMsg::Msg { nick: self.nick.clone(), text }),
            ClientMsg::Who => {
                let nicks = hub.list_nicks();
                assert(views(nicks@) =~= names_of(&before));
                Reaction::Reply(ServerMsg::Who { count: nicks.len(), nicks })
            },
            ClientMsg::Quit => Reaction::Quit,
            ClientMsg::Prompt { .. } => Reaction::Reply(sys("unexpected prompt")),
        }
    }
}

} // verus!
