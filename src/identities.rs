//! Identity records, and the rule that keeps nicknames unique, in
//! lowercase, whenever the records are saved.
use vstd::prelude::*;
use crate::protocol::views;
use crate::text::{lower_of, same_text, to_lower};

verus! {

/// The nickname an address last used, and when it was set (seconds).
#[derive(Debug, Clone, PartialEq, Eq)]
pub struct IdentityRecord {
    pub nick: String,
    pub updated: u64,
}

/// The lowercase nicknames of the records.
pub open spec fn nick_keys(v: Seq<(String, IdentityRecord)>) -> Seq<Seq<char>> {
    Seq::new(v.len(), |i: int| lower_of(v[i].1.nick@))
}

/// Record `i` wins among the records with its key: it is more recent than
/// every earlier one and no less recent than every later one.
pub open spec fn survives(v: Seq<(String, IdentityRecord)>, keys: Seq<Seq<char>>, i: int) -> bool {
    forall|j: int|
        0 <= j < v.len() && j != i && #[trigger] keys[j] == keys[i] ==> if j < i {
            v[j].1.updated < v[i].1.updated
        } else {
            v[j].1.updated <= v[i].1.updated
        }
}

/// The winning records among the first `n`, in order.
pub open spec fn kept_upto(v: Seq<(String, IdentityRecord)>, keys: Seq<Seq<char>>, n: int) -> Seq<
    (String, IdentityRecord),
>
    decreases n,
{
    if n <= 0 {
        seq![]
    } else if survives(v, keys, n - 1) {
        kept_upto(v, keys, n - 1).push(v[n - 1])
    } else {
        kept_upto(v, keys, n - 1)
    }
}

/// The records that are saved: the winner of each key, in order.
pub open spec fn kept(v: Seq<(String, IdentityRecord)>, keys: Seq<Seq<char>>) -> Seq<(String, IdentityRecord)> {
    kept_upto(v, keys, v.len() as int)
}

/// Each kept record is a winning record that comes from among the first `n`.
proof fn lemma_kept_from(v: Seq<(String, IdentityRecord)>, keys: Seq<Seq<char>>, n: int)
    requires
        0 <= n <= v.len(),
    ensures
        forall|a: int|
            0 <= a < kept_upto(v, keys, n).len() ==> exists|i: int|
                0 <= i < n && survives(v, keys, i) && #[trigger] kept_upto(v, keys, n)[a] == v[i],
    decreases n,
{
    if n > 0 {
        lemma_kept_from(v, keys, n - 1);
        let prev = kept_upto(v, keys, n - 1);
        assert forall|a: int| 0 <= a < kept_upto(v, keys, n).len() implies exists|i: int|
            0 <= i < n && survives(v, keys, i) && #[trigger] kept_upto(v, keys, n)[a] == v[i] by {
            if a < prev.len() {
                assert(kept_upto(v, keys, n)[a] == prev[a]);
                let i = choose|i: int| 0 <= i < n - 1 && survives(v, keys, i) && #[trigger] prev[a] == v[i];
                assert(0 <= i < n && survives(v, keys, i) && kept_upto(v, keys, n)[a] == v[i]);
            } else {
                assert(kept_upto(v, keys, n)[a] == v[n - 1]);
            }
        }
    }
}

/// No two kept records among the first `n` share a lowercase nickname.
proof fn lemma_kept_unique(v: Seq<(String, IdentityRecord)>, n: int)
    requires
        0 <= n <= v.len(),
    ensures
        forall|a: int, b: int|
            0 <= a < b < kept_upto(v, nick_keys(v), n).len() ==> lower_of(
                (#[trigger] kept_upto(v, nick_keys(v), n)[a]).1.nick@,
            ) != lower_of((#[trigger] kept_upto(v, nick_keys(v), n)[b]).1.nick@),
    decreases n,
{
    let keys = nick_keys(v);
    if n > 0 {
        lemma_kept_unique(v, n - 1);
        lemma_kept_from(v, keys, n - 1);
        let prev = kept_upto(v, keys, n - 1);
        let cur = kept_upto(v, keys, n);
        assert forall|a: int, b: int| 0 <= a < b < cur.len() implies lower_of((#[trigger] cur[a]).1.nick@)
            != lower_of((#[trigger] cur[b]).1.nick@) by {
            if b < prev.len() {
                assert(cur[a] == prev[a]);
                assert(cur[b] == prev[b]);
            } else {
                assert(survives(v, keys, n - 1));
                assert(cur[b] == v[n - 1]);
                assert(cur[a] == prev[a]);
                let i = choose|i: int| 0 <= i < n - 1 && survives(v, keys, i) && #[trigger] prev[a] == v[i];
                assert(keys[i] == lower_of(v[i].1.nick@));
                assert(keys[n - 1] == lower_of(v[n - 1].1.nick@));
                if keys[i] == keys[n - 1] {
                    assert(v[i].1.updated < v[n - 1].1.updated);
                    assert(v[n - 1].1.updated <= v[i].1.updated);
                }
            }
        }
    }
}

/// A saved identities file never holds two records whose nicknames agree
/// in lowercase, whatever records it was saved from.
pub proof fn lemma_saved_nicks_unique(v: Seq<(String, IdentityRecord)>)
    ensures
        forall|a: int, b: int|
            0 <= a < b < kept(v, nick_keys(v)).len() ==> lower_of((#[trigger] kept(v, nick_keys(v))[a]).1.nick@)
                != lower_of((#[trigger] kept(v, nick_keys(v))[b]).1.nick@),
{
    lemma_kept_unique(v, v.len() as int);
}

/// The records to keep from `records`, in order, where `keys[i]` is the
/// key of record `i`: for each key only the most recent record stays, the
/// earliest one on a tie.
pub fn keep_winners(records: &Vec<(String, IdentityRecord)>, keys: &Vec<String>) -> (r: Vec<(String, IdentityRecord)>)
    requires
        keys.len() == records.len(),
    ensures
        r@ == kept(records@, views(keys@)),
{
    let n = records.len();
    let ghost ks = views(keys@);
    let mut out: Vec<(String, IdentityRecord)> = Vec::new();
    let mut i: usize = 0;
    while i < n
        invariant
            i <= n == records.len() == keys.len(),
            ks == views(keys@),
            out@ == kept_upto(records@, ks, i as int),
        decreases n - i,
    {
        let mut wins = true;
        let mut j: usize = 0;
        while j < n
            invariant
                i < n == records.len() == keys.len(),
                j <= n,
                ks == views(keys@),
                wins == forall|x: int|
                    0 <= x < j && x != i && #[trigger] ks[x] == ks[i as int] ==> if x < i {
                        records@[x].1.updated < records@[i as int].1.updated
                    } else {
                        records@[x].1.updated <= records@[i as int].1.updated
                    },
            decreases n - j,
        {
            assert(ks[j as int] == keys@[j as int]@);
            assert(ks[i as int] == keys@[i as int]@);
            if j != i && same_text(keys[j].as_str(), keys[i].as_str()) {
                let ok = if j < i {
                    records[j].1.updated < records[i].1.updated
                } else {
                    records[j].1.updated <= records[i].1.updated
                };
                if !ok {
                    wins = false;
                }
            }
            j = j + 1;
        }
        if wins {
            let rec = IdentityRecord { nick: records[i].1.nick.clone(), updated: records[i].1.updated };
            out.push((records[i].0.clone(), rec));
        }
        i = i + 1;
    }
    out
}

/// The records to save from `records` (address, record), in order: for each
/// lowercase nickname only the most recent record stays, the earliest one
/// on a tie; the other addresses lose their binding.
pub fn dedupe_by_nick(records: &Vec<(String, IdentityRecord)>) -> (r: Vec<(String, IdentityRecord)>)
    ensures
        r@ == kept(records@, nick_keys(records@)),
        forall|a: int, b: int|
            0 <= a < b < r.len() ==> lower_of((#[trigger] r@[a]).1.nick@) != lower_of((#[trigger] r@[b]).1.nick@),
{
    let mut keys: Vec<String> = Vec::new();
    let mut i: usize = 0;
    while i < records.len()
        invariant
            i <= records.len(),
            keys.len() == i,
            forall|j: int| 0 <= j < i ==> (#[trigger] keys@[j])@ == lower_of(records@[j].1.nick@),
        decreases records.len() - i,
    {
        keys.push(to_lower(records[i].1.nick.as_str()));
        i = i + 1;
    }
    assert(views(keys@) =~= nick_keys(records@));
    let out = keep_winners(records, &keys);
    proof {
        lemma_saved_nicks_unique(records@);
        assert forall|a: int, b: int| 0 <= a < b < out.len() implies lower_of((#[trigger] out@[a]).1.nick@) != lower_of((#[trigger] out@[b]).1.nick@) by {
            assert(out@[a] == kept(records@, nick_keys(records@))[a]);
            assert(out@[b] == kept(records@, nick_keys(records@))[b]);
        }
    }
    out
}

} // verus!
