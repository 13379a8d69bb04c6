//! Admission control: the list of allowed addresses and networks, and the
//! list of addresses that were refused.
use vstd::prelude::*;
use vstd::utf8::encode_utf8;
use vstd::seq_lib::{to_multiset_contains, to_multiset_len};
use crate::net::{
    cidr_of, host_net, host_network, ip_literal_of, ip_text, ip_text_of, net_contains, parse_cidr,
    parse_ip, IpAddress, IpNetwork,
};
use crate::protocol::views;
use crate::text::{chars_of, same_text};

verus! {

/// The entries that admit peers: bare IP literals or `address/prefix` networks.
#[derive(Debug, Clone, Default)]
pub struct AllowedList {
    pub allow: Vec<String>,
}

/// What is known of an address that was refused.
#[derive(Debug, Clone, Copy, PartialEq, Eq)]
pub struct PendingEntry {
    pub first_seen: u64,
    pub last_seen: u64,
    pub attempts: u64,
}

/// Refused addresses, keyed by their textual form, each key once.
#[derive(Debug, Clone, Default)]
pub struct PendingList {
    pub pending: Vec<(String, PendingEntry)>,
}

/// The network an allowlist entry stands for: a network when it holds a
/// `/`, else the single address it names; nothing when it does not parse.
pub open spec fn entry_net(e: Seq<char>) -> Option<IpNetwork> {
    if e.contains('/') {
        cidr_of(e)
    } else {
        match ip_literal_of(e) {
            Some(ip) => Some(host_net(ip)),
            None => None,
        }
    }
}

/// The networks of the entries that parse, in order.
pub open spec fn nets_of(entries: Seq<Seq<char>>) -> Seq<IpNetwork>
    decreases entries.len(),
{
    if entries.len() == 0 {
        seq![]
    } else {
        let prev = nets_of(entries.drop_last());
        match entry_net(entries.last()) {
            Some(n) => prev.push(n),
            None => prev,
        }
    }
}

/// Whether some entry's network holds `ip`.
pub open spec fn admits_ip(entries: Seq<Seq<char>>, ip: IpAddress) -> bool {
    exists|i: int| 0 <= i < nets_of(entries).len() && net_contains(#[trigger] nets_of(entries)[i], ip)
}

/// `a` is no greater than `b` in byte-wise lexicographic order.
pub open spec fn bytes_le(a: Seq<u8>, b: Seq<u8>) -> bool
    decreases a.len(),
{
    if a.len() == 0 {
        true
    } else if b.len() == 0 {
        false
    } else if a[0] != b[0] {
        a[0] < b[0]
    } else {
        bytes_le(a.drop_first(), b.drop_first())
    }
}

/// The strings are in ascending order of their UTF-8 bytes, as `String`'s `Ord` has it.
pub open spec fn sorted_text(v: Seq<Seq<char>>) -> bool {
    forall|i: int, j: int|
        0 <= i < j < v.len() ==> bytes_le(encode_utf8(#[trigger] v[i]), encode_utf8(#[trigger] v[j]))
}

/// What adding `x` makes of the entries `before`: nothing changes when `x`
/// is listed already, else the list is `before` and `x`, sorted.
pub open spec fn add_post(before: Seq<Seq<char>>, x: Seq<char>, after: Seq<Seq<char>>) -> bool {
    if before.contains(x) {
        after == before
    } else {
        after.to_multiset() == before.push(x).to_multiset() && sorted_text(after)
    }
}

/// Relies on `slice::sort` for `String`s: the same strings, in ascending
/// order of their bytes.
#[verifier::external_body]
fn sort_texts(v: &mut Vec<String>)
    ensures
        views(final(v)@).to_multiset() == views(old(v)@).to_multiset(),
        sorted_text(views(final(v)@)),
{
    v.sort()
}

/// Whether the string contains `c`.
fn has_char(s: &str, c: char) -> (r: bool)
    ensures
        r == s@.contains(c),
{
    let cs = chars_of(s);
    let mut i: usize = 0;
    while i < cs.len()
        invariant
            cs@ == s@,
            i <= cs.len(),
            forall|j: int| 0 <= j < i ==> cs@[j] != c,
        decreases cs.len() - i,
    {
        if cs[i] == c {
            return true;
        }
        i = i + 1;
    }
    false
}

/// The network an allowlist entry stands for.
pub fn entry_network(e: &str) -> (r: Option<IpNetwork>)
    ensures
        r == entry_net(e@),
        r matches Some(n) ==> n.wf(),
{
    if has_char(e, '/') {
        parse_cidr(e)
    } else {
        match parse_ip(e) {
            Some(ip) => Some(host_network(ip)),
            None => None,
        }
    }
}

impl AllowedList {
    /// The entries as character sequences.
    pub open spec fn entries(&self) -> Seq<Seq<char>> {
        views(self.allow@)
    }

    /// The networks of the entries that parse; the others are skipped.
    pub fn to_nets(&self) -> (r: Vec<IpNetwork>)
        ensures
            r@ == nets_of(self.entries()),
            forall|i: int| 0 <= i < r.len() ==> (#[trigger] r@[i]).wf(),
    {
        let mut out: Vec<IpNetwork> = Vec::new();
        let mut i: usize = 0;
        while i < self.allow.len()
            invariant
                i <= self.allow.len(),
                out@ == nets_of(self.entries().take(i as int)),
                forall|j: int| 0 <= j < out.len() ==> (#[trigger] out@[j]).wf(),
            decreases self.allow.len() - i,
        {
            let ghost t = self.entries().take(i + 1);
            assert(t.drop_last() =~= self.entries().take(i as int));
            assert(t.last() == self.allow@[i as int]@);
            match entry_network(self.allow[i].as_str()) {
                Some(n) => {
                    out.push(n);
                },
                None => {},
            }
            i = i + 1;
        }
        assert(self.entries().take(self.allow.len() as int) =~= self.entries());
        out
    }

    /// Whether some entry admits `ip`.
    pub fn allows(&self, ip: IpAddress) -> (r: bool)
        ensures
            r == admits_ip(self.entries(), ip),
    {
        let nets = self.to_nets();
        let mut i: usize = 0;
        while i < nets.len()
            invariant
                nets@ == nets_of(self.entries()),
                forall|j: int| 0 <= j < nets.len() ==> (#[trigger] nets@[j]).wf(),
                i <= nets.len(),
                forall|j: int| 0 <= j < i ==> !net_contains(#[trigger] nets@[j], ip),
            decreases nets.len() - i,
        {
            if nets[i].contains(ip) {
                return true;
            }
            i = i + 1;
        }
        false
    }

    /// Whether `entry` is listed.
    pub fn lists(&self, entry: &str) -> (r: bool)
        ensures
            r == self.entries().contains(entry@),
    {
        let mut i: usize = 0;
        while i < self.allow.len()
            invariant
                i <= self.allow.len(),
                forall|j: int| 0 <= j < i ==> self.allow@[j]@ != entry@,
            decreases self.allow.len() - i,
        {
            if same_text(self.allow[i].as_str(), entry) {
                assert(self.entries()[i as int] == entry@);
                return true;
            }
            i = i + 1;
        }
        assert forall|j: int| 0 <= j < self.entries().len() implies self.entries()[j] != entry@ by {
            assert(self.entries()[j] == self.allow@[j]@);
        }
        false
    }

    /// Adds `entry` unless it is listed already, keeping the list sorted;
    /// says whether the list changed.
    pub fn add(&mut self, entry: &str) -> (changed: bool)
        ensures
            add_post(old(self).entries(), entry@, final(self).entries()),
            changed == !old(self).entries().contains(entry@),
    {
        if self.lists(entry) {
            return false;
        }
        let ghost before = self.allow@;
        self.allow.push(entry.to_owned());
        assert(views(self.allow@) =~= views(before).push(entry@));
        sort_texts(&mut self.allow);
        true
    }

    /// Drops every copy of `entry`.
    pub fn remove(&mut self, entry: &str)
        ensures
            final(self).entries() == old(self).entries().filter(|e: Seq<char>| e != entry@),
    {
        let ghost before = self.entries();
        let ghost pred = |e: Seq<char>| e != entry@;
        let mut kept: Vec<String> = Vec::new();
        let mut i: usize = 0;
        assert(before.take(0).filter(pred) =~= Seq::<Seq<char>>::empty()) by {
            reveal(Seq::filter);
        }
        assert(views(kept@) =~= Seq::<Seq<char>>::empty());
        while i < self.allow.len()
            invariant
                i <= self.allow.len(),
                before == views(self.allow@),
                pred == (|e: Seq<char>| e != entry@),
                views(kept@) == before.take(i as int).filter(pred),
            decreases self.allow.len() - i,
        {
            proof {
                assert(before.take(i + 1) =~= before.take(i as int).push(before[i as int]));
                before.take(i as int).lemma_filter_push(before[i as int], pred);
            }
            assert(before[i as int] == self.allow@[i as int]@);
            if !same_text(self.allow[i].as_str(), entry) {
                let e = self.allow[i].clone();
                assert(views(kept@.push(e)) =~= views(kept@).push(e@));
                assert(pred(before[i as int]));
                kept.push(e);
                assert(views(kept@) == before.take(i + 1).filter(pred));
            } else {
                assert(!pred(before[i as int]));
                assert(views(kept@) == before.take(i + 1).filter(pred));
            }
            i = i + 1;
        }
        assert(before.take(self.allow.len() as int) =~= before);
        self.allow = kept;
    }
}

/// Whether some pair in `v` has the key `k`.
pub open spec fn has_key(v: Seq<(String, PendingEntry)>, k: Seq<char>) -> bool {
    exists|i: int| 0 <= i < v.len() && (#[trigger] v[i]).0@ == k
}

/// `n + 1`, held at `u64::MAX`.
pub open spec fn bump(n: u64) -> u64 {
    if n == u64::MAX {
        n
    } else {
        (n + 1) as u64
    }
}

/// What noting a refusal of `key` at `now` makes of the pairs `before`: a
/// known key gets `last_seen = now` and one more attempt; a new key is added
/// with `now` for both times and one attempt.
pub open spec fn noted(
    before: Seq<(String, PendingEntry)>,
    key: Seq<char>,
    now: u64,
    after: Seq<(String, PendingEntry)>,
) -> bool {
    if has_key(before, key) {
        exists|i: int|
            0 <= i < before.len() && (#[trigger] before[i]).0@ == key && after == before.update(
                i,
                (
                    before[i].0,
                    PendingEntry {
                        first_seen: before[i].1.first_seen,
                        last_seen: now,
                        attempts: bump(before[i].1.attempts),
                    },
                ),
            )
    } else {
        &&& after.len() == before.len() + 1
        &&& after.take(before.len() as int) == before
        &&& after.last().0@ == key
        &&& after.last().1 == (PendingEntry { first_seen: now, last_seen: now, attempts: 1 })
    }
}

impl PendingList {
    /// No key appears twice.
    pub open spec fn wf(&self) -> bool {
        forall|i: int, j: int|
            0 <= i < j < self.pending.len() ==> (#[trigger] self.pending@[i]).0@
                != (#[trigger] self.pending@[j]).0@
    }

    /// Where `key` is, if it is listed.
    fn position(&self, key: &str) -> (r: Option<usize>)
        ensures
            r matches Some(i) ==> i < self.pending.len() && self.pending@[i as int].0@ == key@,
            r is None ==> !has_key(self.pending@, key@),
    {
        let mut i: usize = 0;
        while i < self.pending.len()
            invariant
                i <= self.pending.len(),
                forall|j: int| 0 <= j < i ==> (#[trigger] self.pending@[j]).0@ != key@,
            decreases self.pending.len() - i,
        {
            if same_text(self.pending[i].0.as_str(), key) {
                return Some(i);
            }
            i = i + 1;
        }
        None
    }

    /// Whether `ip` is listed.
    pub fn contains(&self, ip: &str) -> (r: bool)
        ensures
            r == has_key(self.pending@, ip@),
    {
        self.position(ip).is_some()
    }

    /// Notes one refusal of the address written `key`, at time `now`.
    pub fn note_attempt_key(&mut self, key: &str, now: u64)
        ensures
            old(self).wf() ==> final(self).wf(),
            noted(old(self).pending@, key@, now, final(self).pending@),
    {
        match self.position(key) {
            Some(i) => {
                let k = self.pending[i].0.clone();
                let e = self.pending[i].1;
                let updated = PendingEntry {
                    first_seen: e.first_seen,
                    last_seen: now,
                    attempts: e.attempts.saturating_add(1),
                };
                let ghost before = self.pending@;
                proof {
                    assert(k@ == before[i as int].0@);
                }
                self.pending.set(i, (k, updated));
                proof {
                    assert(self.pending@ == before.update(
                        i as int,
                        (
                            before[i as int].0,
                            PendingEntry {
                                first_seen: before[i as int].1.first_seen,
                                last_seen: now,
                                attempts: bump(before[i as int].1.attempts),
                            },
                        ),
                    ));
                    assert(forall|j: int| 0 <= j < self.pending.len() ==> #[trigger] self.pending@[j].0@ == before[j].0@);
                    assert(has_key(before, key@));
                    assert(0 <= i < before.len() && before[i as int].0@ == key@);
                }
            },
            None => {
                let ghost before = self.pending@;
                self.pending.push(
                    (key.to_owned(), PendingEntry { first_seen: now, last_seen: now, attempts: 1 }),
                );
                assert(self.pending@.take(before.len() as int) =~= before);
                proof {
                    if old(self).wf() {
                        assert forall|a: int, b: int| 0 <= a < b < self.pending.len() implies (#[trigger] self.pending@[a]).0@
                            != (#[trigger] self.pending@[b]).0@ by {
                            if b == before.len() {
                                assert(self.pending@[a] == before[a]);
                            }
                        }
                    }
                }
            },
        }
    }

    /// Notes one refusal of `ip`, at time `now`.
    pub fn note_attempt(&mut self, ip: IpAddress, now: u64)
        ensures
            old(self).wf() ==> final(self).wf(),
            noted(old(self).pending@, ip_text_of(ip), now, final(self).pending@),
    {
        let key = ip_text(ip);
        self.note_attempt_key(key.as_str(), now);
    }

    /// Forgets `ip`.
    pub fn remove(&mut self, ip: &str)
        ensures
            old(self).wf() ==> final(self).wf(),
            old(self).wf() ==> !has_key(final(self).pending@, ip@),
            forall|k: Seq<char>| k != ip@ ==> (has_key(final(self).pending@, k) == has_key(old(self).pending@, k)),
            !has_key(old(self).pending@, ip@) ==> final(self).pending@ == old(self).pending@,
            has_key(old(self).pending@, ip@) ==> exists|k: int|
                0 <= k < old(self).pending.len() && (#[trigger] old(self).pending@[k]).0@ == ip@
                    && final(self).pending@ == old(self).pending@.remove(k),
    {
        match self.position(ip) {
            Some(i) => {
                let ghost before = self.pending@;
                self.pending.remove(i);
                proof {
                    let after = self.pending@;
                    assert(after =~= before.remove(i as int));
                    assert(before[i as int].0@ == ip@);
                    assert forall|k: Seq<char>| k != ip@ implies (has_key(after, k) == has_key(before, k)) by {
                        if has_key(before, k) {
                            let j = choose|j: int| 0 <= j < before.len() && (#[trigger] before[j]).0@ == k;
                            if j < i {
                                assert(after[j] == before[j]);
                            } else {
                                assert(j != i);
                                assert(after[j - 1] == before[j]);
                            }
                        }
                        if has_key(after, k) {
                            let j = choose|j: int| 0 <= j < after.len() && (#[trigger] after[j]).0@ == k;
                            if j < i {
                                assert(after[j] == before[j]);
                            } else {
                                assert(after[j] == before[j + 1]);
                            }
                        }
                    }
                    if old(self).wf() {
                        assert forall|j: int| 0 <= j < after.len() implies (#[trigger] after[j]).0@ != ip@ by {
                            if j < i {
                                assert(after[j] == before[j]);
                            } else {
                                assert(after[j] == before[j + 1]);
                            }
                        }
                    }
                }
            },
            None => {},
        }
    }

    /// Forgets every address.
    pub fn clear(&mut self)
        ensures
            final(self).pending@.len() == 0,
    {
        self.pending.clear();
    }
}

/// The admission decision for a peer at `ip`: admitted when the allowlist
/// holds it; otherwise the refusal is noted in `pending`.
pub fn gate(allow: &AllowedList, pending: &mut PendingList, ip: IpAddress, now: u64) -> (admitted: bool)
    ensures
        old(pending).wf() ==> final(pending).wf(),
        admitted == admits_ip(allow.entries(), ip),
        admitted ==> final(pending).pending@ == old(pending).pending@,
        !admitted ==> noted(old(pending).pending@, ip_text_of(ip), now, final(pending).pending@),
{
    if allow.allows(ip) {
        return true;
    }
    pending.note_attempt(ip, now);
    false
}

/// A refused address is in the pending list once the refusal is noted,
/// with at least one attempt.
pub proof fn lemma_refused_is_pending(
    before: Seq<(String, PendingEntry)>,
    key: Seq<char>,
    now: u64,
    after: Seq<(String, PendingEntry)>,
)
    requires
        noted(before, key, now, after),
    ensures
        exists|i: int| 0 <= i < after.len() && (#[trigger] after[i]).0@ == key && after[i].1.attempts >= 1 && after[i].1.last_seen == now,
{
    if has_key(before, key) {
        let i = choose|i: int|
            0 <= i < before.len() && (#[trigger] before[i]).0@ == key && after == before.update(
                i,
                (
                    before[i].0,
                    PendingEntry {
                        first_seen: before[i].1.first_seen,
                        last_seen: now,
                        attempts: bump(before[i].1.attempts),
                    },
                ),
            );
        assert(after[i].0@ == key);
    } else {
        assert(after[after.len() - 1] == after.last());
    }
}

/// Adding the same entry twice lists it once: the second add changes
/// nothing, and adding to an empty list gives exactly that entry.
pub proof fn lemma_add_twice(l0: Seq<Seq<char>>, l1: Seq<Seq<char>>, l2: Seq<Seq<char>>, x: Seq<char>)
    requires
        add_post(l0, x, l1),
        add_post(l1, x, l2),
    ensures
        l2 == l1,
        l1.contains(x),
        l0.len() == 0 ==> l1 == seq![x],
{
    if !l0.contains(x) {
        to_multiset_contains(l0.push(x), x);
        assert(l0.push(x)[l0.len() as int] == x);
        to_multiset_contains(l1, x);
        if l0.len() == 0 {
            to_multiset_len(l1);
            to_multiset_len(l0.push(x));
            assert(l1.len() == 1);
            assert(l1[0] == x);
            assert(l1 =~= seq![x]);
        }
    }
}

} // verus!
