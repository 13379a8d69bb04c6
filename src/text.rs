//! Character-level helpers shared by the wire codec and the stores:
//! whitespace, trimming, splitting at the first space, UTF-8 widths,
//! decimal numbers and case mapping.
use vstd::prelude::*;
use vstd::utf8::{char_is_scalar, encode_scalar, encode_utf8};

verus! {

/// The characters with the Unicode `White_Space` property.
pub open spec fn is_space(c: char) -> bool {
    ||| ('\u{9}' <= c && c <= '\u{d}')
    ||| c == ' '
    ||| c == '\u{85}'
    ||| c == '\u{a0}'
    ||| c == '\u{1680}'
    ||| ('\u{2000}' <= c && c <= '\u{200a}')
    ||| c == '\u{2028}'
    ||| c == '\u{2029}'
    ||| c == '\u{202f}'
    ||| c == '\u{205f}'
    ||| c == '\u{3000}'
}

/// Whether `c` has the Unicode `White_Space` property, as `char::is_whitespace` says.
pub fn is_whitespace(c: char) -> (r: bool)
    ensures
        r == is_space(c),
{
    ('\u{9}' <= c && c <= '\u{d}') || c == ' ' || c == '\u{85}' || c == '\u{a0}' || c == '\u{1680}'
        || ('\u{2000}' <= c && c <= '\u{200a}') || c == '\u{2028}' || c == '\u{2029}' || c == '\u{202f}'
        || c == '\u{205f}' || c == '\u{3000}'
}

/// Relies on `String::push`: appends one character.
#[verifier::external_body]
pub(crate) fn push_char(s: &mut String, c: char)
    ensures
        final(s)@ == old(s)@.push(c),
{
    s.push(c)
}

/// What `str::to_uppercase` returns for a string.
pub uninterp spec fn upper_of(s: Seq<char>) -> Seq<char>;

/// What `str::to_lowercase` returns for a string.
pub uninterp spec fn lower_of(s: Seq<char>) -> Seq<char>;

/// True when every character is an ASCII capital letter.
pub open spec fn is_ascii_capitals(s: Seq<char>) -> bool {
    forall|i: int| 0 <= i < s.len() ==> 'A' <= #[trigger] s[i] && s[i] <= 'Z'
}

/// Relies on `str::to_uppercase`: the result depends on the characters alone.
#[verifier::external_body]
pub(crate) fn to_upper(s: &str) -> (r: String)
    ensures
        r@ == upper_of(s@),
{
    s.to_uppercase()
}

/// A verb in upper case: one made of ASCII capitals already is kept as it
/// is, any other is upper-cased.
pub open spec fn upper_verb(v: Seq<char>) -> Seq<char> {
    if is_ascii_capitals(v) {
        v
    } else {
        upper_of(v)
    }
}

/// The verb `v` in upper case.
pub fn verb_upper(v: &str) -> (r: String)
    ensures
        r@ == upper_verb(v@),
{
    let cs = chars_of(v);
    let mut i: usize = 0;
    while i < cs.len()
        invariant
            cs@ == v@,
            i <= cs.len(),
            forall|j: int| 0 <= j < i ==> 'A' <= #[trigger] cs@[j] && cs@[j] <= 'Z',
        decreases cs.len() - i,
    {
        if cs[i] < 'A' || cs[i] > 'Z' {
            return to_upper(v);
        }
        i = i + 1;
    }
    v.to_owned()
}

/// Relies on `str::to_lowercase`: the result depends on the characters alone.
#[verifier::external_body]
pub(crate) fn to_lower(s: &str) -> (r: String)
    ensures
        r@ == lower_of(s@),
{
    s.to_lowercase()
}

/// `s` without its leading whitespace.
pub open spec fn trim_start(s: Seq<char>) -> Seq<char>
    decreases s.len(),
{
    if s.len() > 0 && is_space(s[0]) {
        trim_start(s.drop_first())
    } else {
        s
    }
}

/// `s` without its trailing whitespace.
pub open spec fn trim_end(s: Seq<char>) -> Seq<char>
    decreases s.len(),
{
    if s.len() > 0 && is_space(s.last()) {
        trim_end(s.drop_last())
    } else {
        s
    }
}

/// `s` without surrounding whitespace, as `str::trim` gives it.
pub open spec fn trim(s: Seq<char>) -> Seq<char> {
    trim_end(trim_start(s))
}

/// `s` without its trailing carriage returns and line feeds.
pub open spec fn trim_end_crlf(s: Seq<char>) -> Seq<char>
    decreases s.len(),
{
    if s.len() > 0 && (s.last() == '\r' || s.last() == '\n') {
        trim_end_crlf(s.drop_last())
    } else {
        s
    }
}

/// Number of bytes that `c` takes in UTF-8.
pub open spec fn width(c: char) -> nat {
    encode_scalar(c as u32).len()
}

/// Number of bytes that `s` takes in UTF-8.
pub open spec fn byte_len(s: Seq<char>) -> nat {
    encode_utf8(s).len()
}

/// How many leading characters of `s` fit in `n` bytes of UTF-8.
pub open spec fn fit_count(s: Seq<char>, n: int) -> nat
    decreases s.len(),
{
    if s.len() > 0 && width(s[0]) <= n {
        1 + fit_count(s.drop_first(), n - width(s[0]))
    } else {
        0
    }
}

/// The longest prefix of `s` that fits in `n` bytes.
pub open spec fn truncate_bytes(s: Seq<char>, n: int) -> Seq<char> {
    s.take(fit_count(s, n) as int)
}

/// Index of the first space character `' '` in `s`, or its length.
pub open spec fn space_index(s: Seq<char>) -> nat
    decreases s.len(),
{
    if s.len() == 0 || s[0] == ' ' {
        0
    } else {
        1 + space_index(s.drop_first())
    }
}

/// The first piece of `s.splitn(2, ' ')`.
pub open spec fn head(s: Seq<char>) -> Seq<char> {
    s.take(space_index(s) as int)
}

/// The second piece of `s.splitn(2, ' ')`, or nothing when `s` has no space.
pub open spec fn tail(s: Seq<char>) -> Seq<char> {
    if space_index(s) < s.len() {
        s.skip(space_index(s) as int + 1)
    } else {
        Seq::empty()
    }
}

/// The decimal digit for `d < 10`.
pub open spec fn digit_char(d: nat) -> char {
    ((d + 48) as u8) as char
}

/// The decimal form of `n`, as `usize`'s `Display` writes it.
pub open spec fn decimal(n: nat) -> Seq<char>
    decreases n,
{
    if n < 10 {
        seq![digit_char(n)]
    } else {
        decimal(n / 10).push(digit_char(n % 10))
    }
}

/// True when every character of `s` is an ASCII digit.
pub open spec fn all_digits(s: Seq<char>) -> bool {
    forall|i: int| 0 <= i < s.len() ==> '0' <= #[trigger] s[i] && s[i] <= '9'
}

/// The number written by the ASCII digits `s`.
pub open spec fn digits_value(s: Seq<char>) -> nat
    decreases s.len(),
{
    if s.len() == 0 {
        0
    } else {
        digits_value(s.drop_last()) * 10 + ((s.last() as u32) - 48) as nat
    }
}

/// What `s.parse::<usize>()` gives: an optional `+` and then at least one
/// ASCII digit, with a value that fits.
pub open spec fn parse_usize_spec(s: Seq<char>) -> Option<usize> {
    let d = if s.len() > 0 && s[0] == '+' {
        s.drop_first()
    } else {
        s
    };
    if d.len() > 0 && all_digits(d) && digits_value(d) <= usize::MAX {
        Some(digits_value(d) as usize)
    } else {
        None
    }
}

/// The characters of `s`, in order.
pub fn chars_of(s: &str) -> (r: Vec<char>)
    ensures
        r@ == s@,
{
    let mut out: Vec<char> = Vec::new();
    for c in it: s.chars()
        invariant
            it.seq() == s@,
            out@ == s@.subrange(0, it.index() as int),
    {
        out.push(c);
    }
    out
}

/// A string holding `cs[lo..hi]`.
pub fn string_of(cs: &Vec<char>, lo: usize, hi: usize) -> (r: String)
    requires
        lo <= hi <= cs.len(),
    ensures
        r@ == cs@.subrange(lo as int, hi as int),
{
    let mut out = String::new();
    let mut i = lo;
    while i < hi
        invariant
            lo <= i <= hi <= cs.len(),
            out@ == cs@.subrange(lo as int, i as int),
        decreases hi - i,
    {
        push_char(&mut out, cs[i]);
        assert(out@ == cs@.subrange(lo as int, i + 1));
        i = i + 1;
    }
    out
}

/// True when the two strings hold the same characters.
pub fn same_text(a: &str, b: &str) -> (r: bool)
    ensures
        r == (a@ == b@),
{
    let x = chars_of(a);
    let y = chars_of(b);
    if x.len() != y.len() {
        return false;
    }
    let mut i: usize = 0;
    while i < x.len()
        invariant
            x@ == a@,
            y@ == b@,
            x.len() == y.len(),
            i <= x.len(),
            forall|j: int| 0 <= j < i ==> x@[j] == y@[j],
        decreases x.len() - i,
    {
        if x[i] != y[i] {
            return false;
        }
        i = i + 1;
    }
    assert(x@ =~= y@);
    true
}

/// The UTF-8 width of `c`, from its scalar value.
pub fn char_width(c: char) -> (w: usize)
    ensures
        w == width(c),
        1 <= w <= 4,
{
    proof {
        char_is_scalar(c);
    }
    let v = c as u32;
    if v < 0x80 {
        1
    } else if v < 0x800 {
        2
    } else if v < 0x10000 {
        3
    } else {
        4
    }
}

proof fn lemma_trim_start_step(s: Seq<char>, i: int)
    requires
        0 <= i < s.len(),
        is_space(s[i]),
    ensures
        trim_start(s.skip(i)) == trim_start(s.skip(i + 1)),
{
    assert(s.skip(i).drop_first() =~= s.skip(i + 1));
}

proof fn lemma_trim_end_step(s: Seq<char>, i: int)
    requires
        0 < i <= s.len(),
        is_space(s[i - 1]),
    ensures
        trim_end(s.take(i)) == trim_end(s.take(i - 1)),
{
    assert(s.take(i).drop_last() =~= s.take(i - 1));
}

/// First index in `lo..hi` whose character is not whitespace, or `hi`.
pub fn skip_spaces(cs: &Vec<char>, lo: usize, hi: usize) -> (r: usize)
    requires
        lo <= hi <= cs.len(),
    ensures
        lo <= r <= hi,
        cs@.subrange(r as int, hi as int) == trim_start(cs@.subrange(lo as int, hi as int)),
{
    let ghost s = cs@.subrange(lo as int, hi as int);
    let mut i = lo;
    assert(s.skip(0) =~= s);
    while i < hi && is_whitespace(cs[i])
        invariant
            lo <= i <= hi <= cs.len(),
            s == cs@.subrange(lo as int, hi as int),
            trim_start(s) == trim_start(s.skip(i - lo)),
        decreases hi - i,
    {
        proof {
            lemma_trim_start_step(s, i - lo);
        }
        i = i + 1;
    }
    proof {
        assert(s.skip(i - lo) =~= cs@.subrange(i as int, hi as int));
    }
    i
}

/// End of `cs[lo..hi]` once trailing whitespace is dropped.
pub fn drop_trailing_spaces(cs: &Vec<char>, lo: usize, hi: usize) -> (r: usize)
    requires
        lo <= hi <= cs.len(),
    ensures
        lo <= r <= hi,
        cs@.subrange(lo as int, r as int) == trim_end(cs@.subrange(lo as int, hi as int)),
{
    let ghost s = cs@.subrange(lo as int, hi as int);
    let mut i = hi;
    assert(s.take(hi - lo) =~= s);
    while i > lo && is_whitespace(cs[i - 1])
        invariant
            lo <= i <= hi <= cs.len(),
            s == cs@.subrange(lo as int, hi as int),
            trim_end(s) == trim_end(s.take(i - lo)),
        decreases i - lo,
    {
        proof {
            lemma_trim_end_step(s, i - lo);
        }
        i = i - 1;
    }
    proof {
        assert(s.take(i - lo) =~= cs@.subrange(lo as int, i as int));
    }
    i
}

/// The bounds of `trim(cs[lo..hi])` within `cs`.
pub fn trim_bounds(cs: &Vec<char>, lo: usize, hi: usize) -> (r: (usize, usize))
    requires
        lo <= hi <= cs.len(),
    ensures
        lo <= r.0 <= r.1 <= hi,
        cs@.subrange(r.0 as int, r.1 as int) == trim(cs@.subrange(lo as int, hi as int)),
{
    let a = skip_spaces(cs, lo, hi);
    let b = drop_trailing_spaces(cs, a, hi);
    (a, b)
}

/// Index of the first `' '` in `cs[lo..hi]`, or `hi`.
pub fn find_space(cs: &Vec<char>, lo: usize, hi: usize) -> (r: usize)
    requires
        lo <= hi <= cs.len(),
    ensures
        lo <= r <= hi,
        r - lo == space_index(cs@.subrange(lo as int, hi as int)),
{
    let ghost s = cs@.subrange(lo as int, hi as int);
    let mut i = lo;
    assert(s.skip(0) =~= s);
    while i < hi && cs[i] != ' '
        invariant
            lo <= i <= hi <= cs.len(),
            s == cs@.subrange(lo as int, hi as int),
            space_index(s) == (i - lo) + space_index(s.skip(i - lo)),
        decreases hi - i,
    {
        proof {
            assert(s.skip(i - lo).drop_first() =~= s.skip(i - lo + 1));
        }
        i = i + 1;
    }
    i
}

/// Appends the decimal form of `n` to `out`.
pub fn push_decimal(out: &mut String, n: usize)
    ensures
        final(out)@ == old(out)@ + decimal(n as nat),
    decreases n,
{
    if n >= 10 {
        push_decimal(out, n / 10);
    }
    let d = (n % 10) as u8;
    push_char(out, (d + 48) as char);
    proof {
        assert(decimal(n as nat) == if n < 10 {
            seq![digit_char(n as nat)]
        } else {
            decimal((n / 10) as nat).push(digit_char((n % 10) as nat))
        });
    }
}

proof fn lemma_digits_value_prefix(s: Seq<char>, i: int)
    requires
        0 <= i <= s.len(),
        all_digits(s),
    ensures
        digits_value(s.take(i)) <= digits_value(s),
    decreases s.len() - i,
{
    if i < s.len() {
        lemma_digits_value_prefix(s, i + 1);
        assert(s.take(i + 1).drop_last() =~= s.take(i));
    } else {
        assert(s.take(i) =~= s);
    }
}

/// `s.parse::<usize>()` as an `Option`: an optional `+`, then ASCII digits.
pub fn parse_usize(s: &str) -> (r: Option<usize>)
    ensures
        r == parse_usize_spec(s@),
{
    let cs = chars_of(s);
    let mut i: usize = 0;
    if cs.len() > 0 && cs[0] == '+' {
        i = 1;
    }
    let ghost d = cs@.skip(i as int);
    proof {
        if cs.len() > 0 && cs@[0] == '+' {
            assert(d =~= cs@.drop_first());
        } else {
            assert(d =~= cs@);
        }
    }
    if i >= cs.len() {
        return None;
    }
    let start = i;
    let mut acc: usize = 0;
    while i < cs.len()
        invariant
            start <= i <= cs.len(),
            start < cs.len(),
            cs@ == s@,
            d == cs@.skip(start as int),
            d == (if s@.len() > 0 && s@[0] == '+' { s@.drop_first() } else { s@ }),
            all_digits(d.take(i - start)),
            acc == digits_value(d.take(i - start)),
        decreases cs.len() - i,
    {
        let c = cs[i];
        if c < '0' || c > '9' {
            assert(d[i - start] == c);
            return None;
        }
        let digit = (c as u32 - 48) as usize;
        proof {
            assert(d.take(i - start + 1).drop_last() =~= d.take(i - start));
            assert(d.take(i - start + 1).last() == c);
            assert(digits_value(d.take(i - start + 1)) == acc * 10 + digit);
        }
        match acc.checked_mul(10) {
            Some(m) => match m.checked_add(digit) {
                Some(v) => {
                    acc = v;
                },
                None => {
                    proof {
                        lemma_all_digits_extend(d, i - start);
                        lemma_overflow_stays(d, i - start + 1);
                    }
                    return None;
                },
            },
            None => {
                proof {
                    lemma_all_digits_extend(d, i - start);
                    lemma_overflow_stays(d, i - start + 1);
                }
                return None;
            },
        }
        proof {
            lemma_all_digits_extend(d, i - start);
        }
        i = i + 1;
    }
    proof {
        assert(d.take(i - start) =~= d);
    }
    Some(acc)
}

proof fn lemma_all_digits_extend(d: Seq<char>, k: int)
    requires
        0 <= k < d.len(),
        all_digits(d.take(k)),
        '0' <= d[k] <= '9',
    ensures
        all_digits(d.take(k + 1)),
{
    assert forall|j: int| 0 <= j < k + 1 implies '0' <= #[trigger] d.take(k + 1)[j] && d.take(k + 1)[j] <= '9' by {
        if j < k {
            assert(d.take(k)[j] == d[j]);
        }
    }
}

proof fn lemma_overflow_stays(d: Seq<char>, k: int)
    requires
        0 < k <= d.len(),
        all_digits(d.take(k)),
        digits_value(d.take(k)) > usize::MAX,
    ensures
        !all_digits(d) || digits_value(d) > usize::MAX,
{
    if all_digits(d) {
        lemma_digits_value_prefix(d, k);
    }
}

proof fn lemma_trim_start_len(s: Seq<char>)
    ensures
        trim_start(s).len() <= s.len(),
        trim_start(s).len() == s.len() ==> trim_start(s) == s,
    decreases s.len(),
{
    if s.len() > 0 && is_space(s[0]) {
        lemma_trim_start_len(s.drop_first());
    }
}

proof fn lemma_trim_end_len(s: Seq<char>)
    ensures
        trim_end(s).len() <= s.len(),
    decreases s.len(),
{
    if s.len() > 0 && is_space(s.last()) {
        lemma_trim_end_len(s.drop_last());
    }
}

/// A string that trimming leaves alone starts and ends with non-whitespace.
pub proof fn lemma_trimmed_ends(s: Seq<char>)
    requires
        trim(s) == s,
        s.len() > 0,
    ensures
        !is_space(s[0]),
        !is_space(s.last()),
{
    lemma_trim_start_len(s);
    lemma_trim_end_len(trim_start(s));
    if is_space(s[0]) {
        lemma_trim_start_len(s.drop_first());
        assert(false);
    }
    assert(trim_start(s) == s);
    if is_space(s.last()) {
        lemma_trim_end_len(s.drop_last());
        assert(false);
    }
}

/// A string without trailing whitespace to drop ends in non-whitespace.
pub proof fn lemma_trim_end_last(s: Seq<char>)
    requires
        trim_end(s) == s,
        s.len() > 0,
    ensures
        !is_space(s.last()),
{
    if is_space(s.last()) {
        lemma_trim_end_len(s.drop_last());
        assert(false);
    }
}

/// Trimming leaves alone a string whose ends are not whitespace.
pub proof fn lemma_trim_keeps(s: Seq<char>)
    requires
        s.len() == 0 || (!is_space(s[0]) && !is_space(s.last())),
    ensures
        trim(s) == s,
        trim_end(s) == s,
{
}

/// All of `s` fits when its UTF-8 length is within `n`.
pub proof fn lemma_fit_all(s: Seq<char>, n: int)
    requires
        byte_len(s) <= n,
    ensures
        fit_count(s, n) == s.len(),
        truncate_bytes(s, n) == s,
    decreases s.len(),
{
    if s.len() > 0 {
        assert(encode_utf8(s) == encode_scalar(s[0] as u32) + encode_utf8(s.drop_first()));
        lemma_fit_all(s.drop_first(), n - width(s[0]));
    }
    assert(s.take(s.len() as int) =~= s);
}

/// The first space of `p + " " + rest`, for `p` without spaces, ends `p`.
pub proof fn lemma_split_after(p: Seq<char>, rest: Seq<char>)
    requires
        !p.contains(' '),
    ensures
        space_index(p + seq![' '] + rest) == p.len(),
        head(p + seq![' '] + rest) == p,
        tail(p + seq![' '] + rest) == rest,
    decreases p.len(),
{
    let s = p + seq![' '] + rest;
    if p.len() > 0 {
        assert(!p.drop_first().contains(' ')) by {
            if p.drop_first().contains(' ') {
                let j = choose|j: int| 0 <= j < p.drop_first().len() && p.drop_first()[j] == ' ';
                assert(p[j + 1] == ' ');
            }
        }
        lemma_split_after(p.drop_first(), rest);
        assert(s.drop_first() =~= p.drop_first() + seq![' '] + rest);
        assert(s[0] == p[0]);
        assert(p[0] != ' ');
    } else {
        assert(s[0] == ' ');
    }
    assert(s.take(p.len() as int) =~= p);
    assert(s.skip(p.len() as int + 1) =~= rest);
}

/// A string without spaces is all verb and no remainder.
pub proof fn lemma_no_split(p: Seq<char>)
    requires
        !p.contains(' '),
    ensures
        space_index(p) == p.len(),
        head(p) == p,
        tail(p) == Seq::<char>::empty(),
    decreases p.len(),
{
    if p.len() > 0 {
        assert(!p.drop_first().contains(' ')) by {
            if p.drop_first().contains(' ') {
                let j = choose|j: int| 0 <= j < p.drop_first().len() && p.drop_first()[j] == ' ';
                assert(p[j + 1] == ' ');
            }
        }
        lemma_no_split(p.drop_first());
        assert(p[0] != ' ');
    }
    assert(p.take(p.len() as int) =~= p);
}

/// The decimal form of a number reads back as that number.
pub proof fn lemma_decimal_parses(n: usize)
    ensures
        parse_usize_spec(decimal(n as nat)) == Some(n),
        decimal(n as nat).len() > 0,
        !decimal(n as nat).contains(' '),
        all_digits(decimal(n as nat)),
{
    lemma_decimal_digits(n as nat);
    let d = decimal(n as nat);
    assert(d[0] != '+');
    assert(!d.contains(' ')) by {
        if d.contains(' ') {
            let j = choose|j: int| 0 <= j < d.len() && d[j] == ' ';
            assert('0' <= d[j]);
        }
    }
}

proof fn lemma_digit_char(d: nat)
    requires
        d < 10,
    ensures
        digit_char(d) as u32 == d + 48,
{
    let b = (d + 48) as u8;
    assert(b as u32 == d + 48);
    assert((b as char) as u32 == b as u32);
}

proof fn lemma_decimal_digits(n: nat)
    ensures
        decimal(n).len() > 0,
        all_digits(decimal(n)),
        digits_value(decimal(n)) == n,
    decreases n,
{
    lemma_digit_char(n % 10);
    if n >= 10 {
        lemma_decimal_digits(n / 10);
        let d = decimal(n);
        assert(d.drop_last() =~= decimal(n / 10));
        assert(n == (n / 10) * 10 + n % 10) by (nonlinear_arith);
        assert(digits_value(d) == digits_value(d.drop_last()) * 10 + ((d.last() as u32) - 48) as nat);
        assert(d.last() == digit_char(n % 10));
        assert forall|i: int| 0 <= i < d.len() implies '0' <= #[trigger] d[i] && d[i] <= '9' by {
            if i < d.len() - 1 {
                assert(d[i] == decimal(n / 10)[i]);
            }
        }
    } else {
        let d = decimal(n);
        assert(d.drop_last() =~= Seq::<char>::empty());
        assert(digits_value(d) == digits_value(d.drop_last()) * 10 + ((d.last() as u32) - 48) as nat);
    }
}

/// `truncate_bytes(s, n)` is the longest prefix of `s` within `n` bytes:
/// it fits, and one more character would not.
pub proof fn lemma_truncate_longest(s: Seq<char>, n: int)
    requires
        n >= 0,
    ensures
        fit_count(s, n) <= s.len(),
        byte_len(truncate_bytes(s, n)) <= n,
        fit_count(s, n) < s.len() ==> byte_len(s.take(fit_count(s, n) as int + 1)) > n,
    decreases s.len(),
{
    let k = fit_count(s, n) as int;
    if s.len() > 0 && width(s[0]) <= n {
        let rest = s.drop_first();
        let m = n - width(s[0]);
        lemma_truncate_longest(rest, m);
        assert(k == 1 + fit_count(rest, m));
        let t = s.take(k);
        assert(t.drop_first() =~= rest.take(k - 1));
        assert(encode_utf8(t) == encode_scalar(t[0] as u32) + encode_utf8(t.drop_first()));
        if k < s.len() {
            let u = s.take(k + 1);
            assert(u.drop_first() =~= rest.take(k));
            assert(encode_utf8(u) == encode_scalar(u[0] as u32) + encode_utf8(u.drop_first()));
        }
    } else {
        assert(s.take(0) =~= Seq::<char>::empty());
        if s.len() > 0 {
            let u = s.take(1);
            assert(u.drop_first() =~= Seq::<char>::empty());
            assert(encode_utf8(u) == encode_scalar(u[0] as u32) + encode_utf8(u.drop_first()));
        }
    }
}

/// A non-empty string takes the bytes of its first character and then those of the rest.
pub proof fn lemma_byte_len_unfold(s: Seq<char>)
    requires
        s.len() > 0,
    ensures
        byte_len(s) == width(s[0]) + byte_len(s.drop_first()),
{
    assert(encode_utf8(s) == encode_scalar(s[0] as u32) + encode_utf8(s.drop_first()));
}

/// A piece of a string takes no more bytes than the whole.
pub proof fn lemma_byte_len_sub(s: Seq<char>, a: int, b: int)
    requires
        0 <= a <= b <= s.len(),
    ensures
        byte_len(s.subrange(a, b)) <= byte_len(s),
    decreases s.len(),
{
    if a == b {
        assert(s.subrange(a, b) =~= Seq::<char>::empty());
    } else {
        lemma_byte_len_unfold(s);
        lemma_byte_len_unfold(s.subrange(a, b));
        if a > 0 {
            lemma_byte_len_sub(s.drop_first(), a - 1, b - 1);
            assert(s.drop_first().subrange(a - 1, b - 1) =~= s.subrange(a, b));
        } else {
            lemma_byte_len_sub(s.drop_first(), 0, b - 1);
            assert(s.subrange(a, b).drop_first() =~= s.drop_first().subrange(0, b - 1));
            assert(s.subrange(a, b)[0] == s[0]);
        }
    }
}

} // verus!
