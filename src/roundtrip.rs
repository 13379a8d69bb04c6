//! Round trips of the wire codec: a message written out and read back is
//! the message itself.
use vstd::prelude::*;
use crate::protocol::{
    clean, format_client_spec, format_server_spec, join_words, parse_client_spec, parse_server_spec,
    words, ClientCmd, ServerCmd, MAX_LINE,
};
use crate::text::{
    trim_end_crlf, trim_start, byte_len, decimal, head, is_ascii_capitals, is_space, lemma_decimal_parses, lemma_fit_all,
    lemma_no_split, lemma_split_after, lemma_trim_end_last, lemma_trim_keeps, lemma_trimmed_ends, tail, trim, trim_end,
    upper_verb,
};

verus! {

/// A client message that its line carries intact: text fields non-empty and
/// trimmed, a prompt id without spaces, the whole line within `MAX_LINE` bytes.
pub open spec fn client_representable(m: ClientCmd) -> bool {
    &&& byte_len(format_client_spec(m)) <= MAX_LINE
    &&& match m {
        ClientCmd::Nick { nick } => nick.len() > 0 && trim(nick) == nick,
        ClientCmd::Say { text } => text.len() > 0 && trim(text) == text,
        ClientCmd::Who => true,
        ClientCmd::Quit => true,
        ClientCmd::Prompt { id, answer } => id.len() > 0 && trim(id) == id && !id.contains(' ')
            && answer.len() > 0 && trim(answer) == answer,
    }
}

/// A line whose ends are not whitespace and that fits is its own cleaned form.
proof fn lemma_clean_keeps(s: Seq<char>)
    requires
        s.len() > 0,
        !is_space(s[0]),
        !is_space(s.last()),
        byte_len(s) <= MAX_LINE,
    ensures
        clean(s) == s,
{
    assert(s.last() != '\r' && s.last() != '\n');
    lemma_fit_all(s, MAX_LINE as int);
    lemma_trim_keeps(s);
}

/// A verb of ASCII capitals has no space and is its own upper case.
proof fn lemma_capital_verb(v: Seq<char>)
    requires
        is_ascii_capitals(v),
    ensures
        !v.contains(' '),
        upper_verb(v) == v,
{
    if v.contains(' ') {
        let j = choose|j: int| 0 <= j < v.len() && v[j] == ' ';
        assert('A' <= v[j]);
    }
}

/// The verbs of the protocol, and the separators around them.
proof fn lemma_verbs()
    ensures
        "NICK"@ == seq!['N', 'I', 'C', 'K'],
        "SAY"@ == seq!['S', 'A', 'Y'],
        "WHO"@ == seq!['W', 'H', 'O'],
        "QUIT"@ == seq!['Q', 'U', 'I', 'T'],
        "PROMPT"@ == seq!['P', 'R', 'O', 'M', 'P', 'T'],
        "SYS"@ == seq!['S', 'Y', 'S'],
        "MSG"@ == seq!['M', 'S', 'G'],
        "HIST"@ == seq!['H', 'I', 'S', 'T'],
        "NICK "@ == seq!['N', 'I', 'C', 'K', ' '],
        "SAY "@ == seq!['S', 'A', 'Y', ' '],
        "PROMPT "@ == seq!['P', 'R', 'O', 'M', 'P', 'T', ' '],
        "SYS "@ == seq!['S', 'Y', 'S', ' '],
        "MSG "@ == seq!['M', 'S', 'G', ' '],
        "HIST "@ == seq!['H', 'I', 'S', 'T', ' '],
        "WHO "@ == seq!['W', 'H', 'O', ' '],
        " "@ == seq![' '],
        is_ascii_capitals("NICK"@),
        is_ascii_capitals("SAY"@),
        is_ascii_capitals("WHO"@),
        is_ascii_capitals("QUIT"@),
        is_ascii_capitals("PROMPT"@),
        is_ascii_capitals("SYS"@),
        is_ascii_capitals("MSG"@),
        is_ascii_capitals("HIST"@),
{
    reveal_strlit("NICK");
    reveal_strlit("SAY");
    reveal_strlit("WHO");
    reveal_strlit("QUIT");
    reveal_strlit("PROMPT");
    reveal_strlit("SYS");
    reveal_strlit("MSG");
    reveal_strlit("HIST");
    reveal_strlit("NICK ");
    reveal_strlit("SAY ");
    reveal_strlit("PROMPT ");
    reveal_strlit("SYS ");
    reveal_strlit("MSG ");
    reveal_strlit("HIST ");
    reveal_strlit("WHO ");
    reveal_strlit(" ");
    assert("NICK"@ =~= seq!['N', 'I', 'C', 'K']);
    assert("SAY"@ =~= seq!['S', 'A', 'Y']);
    assert("WHO"@ =~= seq!['W', 'H', 'O']);
    assert("QUIT"@ =~= seq!['Q', 'U', 'I', 'T']);
    assert("PROMPT"@ =~= seq!['P', 'R', 'O', 'M', 'P', 'T']);
    assert("SYS"@ =~= seq!['S', 'Y', 'S']);
    assert("MSG"@ =~= seq!['M', 'S', 'G']);
    assert("HIST"@ =~= seq!['H', 'I', 'S', 'T']);
    assert("NICK "@ =~= seq!['N', 'I', 'C', 'K', ' ']);
    assert("SAY "@ =~= seq!['S', 'A', 'Y', ' ']);
    assert("PROMPT "@ =~= seq!['P', 'R', 'O', 'M', 'P', 'T', ' ']);
    assert("SYS "@ =~= seq!['S', 'Y', 'S', ' ']);
    assert("MSG "@ =~= seq!['M', 'S', 'G', ' ']);
    assert("HIST "@ =~= seq!['H', 'I', 'S', 'T', ' ']);
    assert("WHO "@ =~= seq!['W', 'H', 'O', ' ']);
    assert(" "@ =~= seq![' ']);
}

/// `verb + " " + rest`, with `rest` free of surrounding whitespace and the
/// line within bounds, cleans to itself and splits back into verb and rest.
proof fn lemma_verb_line(verb: Seq<char>, rest: Seq<char>)
    requires
        is_ascii_capitals(verb),
        verb.len() > 0,
        rest.len() > 0,
        !is_space(rest.last()),
        byte_len(verb + seq![' '] + rest) <= MAX_LINE,
    ensures
        clean(verb + seq![' '] + rest) == verb + seq![' '] + rest,
        head(clean(verb + seq![' '] + rest)) == verb,
        tail(clean(verb + seq![' '] + rest)) == rest,
        upper_verb(verb) == verb,
{
    let line = verb + seq![' '] + rest;
    lemma_capital_verb(verb);
    assert(line[0] == verb[0]);
    assert('A' <= verb[0] <= 'Z');
    assert(line.last() == rest.last());
    lemma_clean_keeps(line);
    lemma_split_after(verb, rest);
}

/// A verb alone cleans to itself and has no remainder.
proof fn lemma_bare_verb(verb: Seq<char>)
    requires
        is_ascii_capitals(verb),
        verb.len() > 0,
        byte_len(verb) <= MAX_LINE,
    ensures
        clean(verb) == verb,
        head(clean(verb)) == verb,
        tail(clean(verb)) == Seq::<char>::empty(),
        upper_verb(verb) == verb,
{
    lemma_capital_verb(verb);
    assert('A' <= verb[0] <= 'Z');
    assert('A' <= verb.last() <= 'Z');
    lemma_clean_keeps(verb);
    lemma_no_split(verb);
}

/// Reading back the line of a client message gives the message, for every
/// message whose fields survive the trimming that reading applies.
pub proof fn lemma_client_line_round_trip(m: ClientCmd)
    requires
        client_representable(m),
    ensures
        parse_client_spec(format_client_spec(m)) == Ok::<ClientCmd, Seq<char>>(m),
{
    lemma_verbs();
    match m {
        ClientCmd::Nick { nick } => {
            lemma_trimmed_ends(nick);
            assert(format_client_spec(m) =~= "NICK"@ + seq![' '] + nick);
            lemma_verb_line("NICK"@, nick);
        },
        ClientCmd::Say { text } => {
            lemma_trimmed_ends(text);
            assert(format_client_spec(m) =~= "SAY"@ + seq![' '] + text);
            lemma_verb_line("SAY"@, text);
        },
        ClientCmd::Who => {
            lemma_bare_verb("WHO"@);
            assert(trim(Seq::<char>::empty()) == Seq::<char>::empty());
        },
        ClientCmd::Quit => {
            lemma_bare_verb("QUIT"@);
            assert(trim(Seq::<char>::empty()) == Seq::<char>::empty());
        },
        ClientCmd::Prompt { id, answer } => {
            lemma_trimmed_ends(id);
            lemma_trimmed_ends(answer);
            let rest = id + seq![' '] + answer;
            assert(format_client_spec(m) =~= "PROMPT"@ + seq![' '] + rest);
            assert(rest.last() == answer.last());
            lemma_verb_line("PROMPT"@, rest);
            assert(rest[0] == id[0]);
            lemma_trim_keeps(rest);
            lemma_split_after(id, answer);
        },
    }
}

/// A word: non-empty, without whitespace.
pub open spec fn is_word(w: Seq<char>) -> bool {
    w.len() > 0 && forall|i: int| 0 <= i < w.len() ==> !is_space(#[trigger] w[i])
}

/// A server message that its line carries intact: a trailing text without
/// trailing whitespace, a nick or prompt id without spaces, WHO nicks that
/// are words, and the whole line within `MAX_LINE` bytes.
pub open spec fn server_representable(m: ServerCmd) -> bool {
    &&& byte_len(format_server_spec(m)) <= MAX_LINE
    &&& match m {
        ServerCmd::Sys { text } => trim_end(text) == text,
        ServerCmd::Msg { nick, text } => nick.len() > 0 && !nick.contains(' ') && text.len() > 0
            && trim_end(text) == text,
        ServerCmd::Hist { nick, text } => nick.len() > 0 && !nick.contains(' ') && text.len() > 0
            && trim_end(text) == text,
        ServerCmd::Who { count, nicks } => forall|i: int| 0 <= i < nicks.len() ==> is_word(#[trigger] nicks[i]),
        ServerCmd::Prompt { id, text } => id.len() > 0 && !id.contains(' ') && text.len() > 0
            && trim_end(text) == text,
    }
}

/// A trailing space adds no word.
proof fn lemma_words_space(a: Seq<char>)
    ensures
        words(a.push(' ')) == words(a),
{
    assert(a.push(' ').drop_last() =~= a);
    assert(is_space(' '));
}

/// A word after a space (or at the start) is one more word.
proof fn lemma_words_word(a: Seq<char>, w: Seq<char>)
    requires
        is_word(w),
        a.len() == 0 || is_space(a.last()),
    ensures
        words(a + w) == words(a).push(w),
    decreases w.len(),
{
    let s = a + w;
    let c = w.last();
    assert(!is_space(w[w.len() - 1]));
    if w.len() == 1 {
        assert(s.drop_last() =~= a);
        assert(s.last() == c);
        if s.len() >= 2 {
            assert(s[s.len() - 2] == a.last());
        }
        assert(seq![c] =~= w);
    } else {
        let w1 = w.drop_last();
        assert(is_word(w1)) by {
            assert forall|i: int| 0 <= i < w1.len() implies !is_space(#[trigger] w1[i]) by {
                assert(w1[i] == w[i]);
            }
        }
        lemma_words_word(a, w1);
        assert(s.drop_last() =~= a + w1);
        assert(s[s.len() - 2] == w[w.len() - 2]);
        assert(!is_space(w[w.len() - 2]));
        let prev = words(a + w1);
        assert(prev.drop_last() =~= words(a));
        assert(w1.push(c) =~= w);
        assert(prev.drop_last().push(prev.last().push(c)) =~= words(a).push(w));
    }
}

/// Words joined by single spaces split back into the same words.
proof fn lemma_words_join(ns: Seq<Seq<char>>)
    requires
        forall|i: int| 0 <= i < ns.len() ==> is_word(#[trigger] ns[i]),
    ensures
        words(join_words(ns)) == ns,
        ns.len() > 0 ==> join_words(ns).len() > 0 && join_words(ns).last() == ns.last().last(),
    decreases ns.len(),
{
    lemma_verbs();
    if ns.len() == 0 {
        assert(words(Seq::<char>::empty()) =~= ns);
    } else if ns.len() == 1 {
        assert(is_word(ns[0]));
        lemma_words_word(Seq::<char>::empty(), ns[0]);
        assert(Seq::<char>::empty() + ns[0] =~= ns[0]);
        assert(seq![ns[0]] =~= ns);
    } else {
        let init = ns.drop_last();
        assert forall|i: int| 0 <= i < init.len() implies is_word(#[trigger] init[i]) by {
            assert(init[i] == ns[i]);
        }
        lemma_words_join(init);
        let a = join_words(init).push(' ');
        assert(is_word(ns[ns.len() - 1]));
        lemma_words_word(a, ns.last());
        lemma_words_space(join_words(init));
        assert(join_words(ns) =~= a + ns.last());
        assert(init.push(ns.last()) =~= ns);
    }
}

/// A line `verb first second`, with `first` free of spaces and `second`
/// free of trailing whitespace, reads back as verb, first and second.
proof fn lemma_two_field_line(verb: Seq<char>, first: Seq<char>, second: Seq<char>)
    requires
        is_ascii_capitals(verb),
        verb.len() > 0,
        first.len() > 0,
        !first.contains(' '),
        second.len() > 0,
        trim_end(second) == second,
        byte_len(verb + seq![' '] + (first + seq![' '] + second)) <= MAX_LINE,
    ensures
        ({
            let line = verb + seq![' '] + (first + seq![' '] + second);
            &&& clean(line) == line
            &&& upper_verb(head(clean(line))) == verb
            &&& head(tail(clean(line))) == first
            &&& tail(tail(clean(line))) == second
        }),
{
    let rest = first + seq![' '] + second;
    lemma_trim_end_last(second);
    assert(rest.last() == second.last());
    lemma_verb_line(verb, rest);
    lemma_split_after(first, second);
}

proof fn lemma_sys_round_trip(text: Seq<char>)
    requires
        server_representable(ServerCmd::Sys { text }),
    ensures
        parse_server_spec(format_server_spec(ServerCmd::Sys { text })) == Ok::<ServerCmd, Seq<char>>(ServerCmd::Sys { text }),
{
    lemma_verbs();
    let m = ServerCmd::Sys { text };
    if text.len() == 0 {
        assert(text =~= Seq::<char>::empty());
        let line = "SYS"@ + seq![' '];
        assert(format_server_spec(m) =~= line);
        lemma_capital_verb("SYS"@);
        assert(line.last() == ' ');
        assert(line.drop_last() =~= "SYS"@);
        lemma_fit_all(line, MAX_LINE as int);
        assert(line[0] == 'S');
        assert(trim_end_crlf(line) == line);
        assert(trim_start(line) == line);
        assert(trim_end(line) == trim_end("SYS"@));
        assert("SYS"@.last() == 'S');
        assert(trim_end("SYS"@) == "SYS"@);
        assert(clean(line) == "SYS"@);
        lemma_no_split("SYS"@);
    } else {
        lemma_trim_end_last(text);
        assert(format_server_spec(m) =~= "SYS"@ + seq![' '] + text);
        lemma_verb_line("SYS"@, text);
    }
}

/// The WHO line with no nicks cleans to `WHO count`.
proof fn lemma_who_line_empty(count: usize)
    requires
        byte_len("WHO"@ + seq![' '] + decimal(count as nat) + seq![' ']) <= MAX_LINE,
    ensures
        ({
            let c = clean("WHO"@ + seq![' '] + decimal(count as nat) + seq![' ']);
            &&& upper_verb(head(c)) == "WHO"@
            &&& head(tail(c)) == decimal(count as nat)
            &&& tail(tail(c)) == Seq::<char>::empty()
        }),
{
    lemma_verbs();
    let dec = decimal(count as nat);
    lemma_decimal_parses(count);
    assert('0' <= dec.last() <= '9');
    let line = "WHO"@ + seq![' '] + dec + seq![' '];
    let inner = "WHO"@ + seq![' '] + dec;
    assert(line.drop_last() =~= inner);
    assert(inner.last() == dec.last());
    lemma_fit_all(line, MAX_LINE as int);
    lemma_capital_verb("WHO"@);
    assert(line[0] == 'W');
    assert(trim_end_crlf(line) == line);
    assert(trim_start(line) == line);
    assert(trim_end(line) == trim_end(inner));
    assert(trim_end(inner) == inner);
    assert(clean(line) == inner);
    lemma_split_after("WHO"@, dec);
    lemma_no_split(dec);
}

/// The WHO line with nicks reads back as verb, count and the joined nicks.
proof fn lemma_who_line_words(count: usize, nicks: Seq<Seq<char>>)
    requires
        nicks.len() > 0,
        forall|i: int| 0 <= i < nicks.len() ==> is_word(#[trigger] nicks[i]),
        byte_len("WHO"@ + seq![' '] + (decimal(count as nat) + seq![' '] + join_words(nicks))) <= MAX_LINE,
    ensures
        ({
            let c = clean("WHO"@ + seq![' '] + (decimal(count as nat) + seq![' '] + join_words(nicks)));
            &&& upper_verb(head(c)) == "WHO"@
            &&& head(tail(c)) == decimal(count as nat)
            &&& tail(tail(c)) == join_words(nicks)
        }),
{
    lemma_verbs();
    let dec = decimal(count as nat);
    lemma_decimal_parses(count);
    lemma_words_join(nicks);
    let joined = join_words(nicks);
    let rest = dec + seq![' '] + joined;
    assert(is_word(nicks.last())) by {
        assert(nicks.last() == nicks[nicks.len() - 1]);
    }
    assert(!is_space(nicks.last()[nicks.last().len() - 1]));
    assert(rest.last() == joined.last());
    lemma_verb_line("WHO"@, rest);
    lemma_split_after(dec, joined);
}

proof fn lemma_who_round_trip(count: usize, nicks: Seq<Seq<char>>)
    requires
        server_representable(ServerCmd::Who { count, nicks }),
    ensures
        parse_server_spec(format_server_spec(ServerCmd::Who { count, nicks })) == Ok::<ServerCmd, Seq<char>>(ServerCmd::Who { count, nicks }),
{
    lemma_verbs();
    let m = ServerCmd::Who { count, nicks };
    let dec = decimal(count as nat);
    lemma_decimal_parses(count);
    lemma_words_join(nicks);
    if nicks.len() == 0 {
        assert(format_server_spec(m) =~= "WHO"@ + seq![' '] + dec + seq![' ']);
        lemma_who_line_empty(count);
        assert(words(Seq::<char>::empty()) =~= nicks);
    } else {
        assert(format_server_spec(m) =~= "WHO"@ + seq![' '] + (dec + seq![' '] + join_words(nicks)));
        lemma_who_line_words(count, nicks);
    }
}

/// Reading back the line of a server message gives the message, for every
/// message whose fields survive cleaning, with WHO nicks that are words.
pub proof fn lemma_server_line_round_trip(m: ServerCmd)
    requires
        server_representable(m),
    ensures
        parse_server_spec(format_server_spec(m)) == Ok::<ServerCmd, Seq<char>>(m),
{
    lemma_verbs();
    match m {
        ServerCmd::Sys { text } => {
            lemma_sys_round_trip(text);
        },
        ServerCmd::Msg { nick, text } => {
            assert(format_server_spec(m) =~= "MSG"@ + seq![' '] + (nick + seq![' '] + text));
            lemma_two_field_line("MSG"@, nick, text);
        },
        ServerCmd::Hist { nick, text } => {
            assert(format_server_spec(m) =~= "HIST"@ + seq![' '] + (nick + seq![' '] + text));
            lemma_two_field_line("HIST"@, nick, text);
        },
        ServerCmd::Prompt { id, text } => {
            assert(format_server_spec(m) =~= "PROMPT"@ + seq![' '] + (id + seq![' '] + text));
            lemma_two_field_line("PROMPT"@, id, text);
        },
        ServerCmd::Who { count, nicks } => {
            lemma_who_round_trip(count, nicks);
        },
    }
}

} // verus!
