//! The bounded buffer of recent chat lines replayed to joining clients.
use vstd::prelude::*;
use crate::rate::now_ts;

verus! {

/// One chat line: who said it, what, and when (seconds since the epoch).
#[derive(Debug, Clone, PartialEq, Eq)]
pub struct HistoryItem {
    pub nick: String,
    pub text: String,
    pub ts: u64,
}

/// How many chat lines a hub keeps.
pub const HISTORY_LEN: usize = 100;

/// The most recent chat lines, oldest first, at most `max` of them.
#[derive(Debug, Clone)]
pub struct HistoryLog {
    pub max: usize,
    pub items: Vec<HistoryItem>,
}

/// A chat line in mathematical form.
pub open spec fn item_view(i: HistoryItem) -> (Seq<char>, Seq<char>, u64) {
    (i.nick@, i.text@, i.ts)
}

/// The chat lines in mathematical form.
pub open spec fn item_views(v: Seq<HistoryItem>) -> Seq<(Seq<char>, Seq<char>, u64)> {
    v.map_values(|i: HistoryItem| item_view(i))
}

/// The last `max` entries of `s` (all of them when there are fewer).
pub open spec fn last_n<A>(s: Seq<A>, max: int) -> Seq<A> {
    if s.len() > max {
        s.skip(s.len() - max)
    } else {
        s
    }
}

impl HistoryLog {
    /// An empty log that keeps at most `max` lines.
    pub fn new(max: usize) -> (r: HistoryLog)
        ensures
            r.max == max,
            r.items@.len() == 0,
    {
        HistoryLog { max, items: Vec::new() }
    }

    /// Appends a line said at `ts`, then drops the oldest lines beyond `max`.
    pub fn push_at(&mut self, nick: String, text: String, ts: u64)
        ensures
            final(self).max == old(self).max,
            item_views(final(self).items@) == last_n(
                item_views(old(self).items@).push((nick@, text@, ts)),
                old(self).max as int,
            ),
    {
        let ghost all = item_views(self.items@).push((nick@, text@, ts));
        let item = HistoryItem { nick, text, ts };
        self.items.push(item);
        assert(item_views(self.items@) =~= all);
        let ghost mut dropped: int = 0;
        while self.items.len() > self.max
            invariant
                0 <= dropped <= all.len(),
                self.max == old(self).max,
                self.items.len() + dropped == all.len(),
                all.len() <= self.max ==> dropped == 0,
                all.len() > self.max ==> dropped <= all.len() - self.max,
                item_views(self.items@) == all.skip(dropped),
            decreases self.items.len(),
        {
            let ghost before = self.items@;
            self.items.remove(0);
            proof {
                assert(before.len() >= 1);
                assert(item_views(before).len() == before.len());
                assert(all.skip(dropped).len() == before.len());
                assert(dropped + 1 <= all.len());
                assert forall|k: int| 0 <= k < self.items.len() implies item_views(self.items@)[k] == all.skip(dropped + 1)[k] by {
                    assert(self.items@[k] == before[k + 1]);
                    assert(item_views(before)[k + 1] == item_view(before[k + 1]));
                    assert(item_views(before)[k + 1] == all.skip(dropped)[k + 1]);
                    assert(all.skip(dropped)[k + 1] == all[dropped + k + 1]);
                }
                assert(item_views(self.items@) =~= all.skip(dropped + 1));
            }
            proof {
                dropped = dropped + 1;
            }
        }
        proof {
            if all.len() > self.max {
                assert(dropped == all.len() - self.max);
            } else {
                assert(dropped == 0);
                assert(all.skip(0) =~= all);
            }
        }
    }

    /// Appends a line said now, then drops the oldest lines beyond `max`.
    pub fn push(&mut self, nick: String, text: String)
        ensures
            final(self).max == old(self).max,
            exists|ts: u64|
                item_views(final(self).items@) == last_n(
                    item_views(old(self).items@).push((nick@, text@, ts)),
                    old(self).max as int,
                ),
    {
        let ts = now_ts();
        self.push_at(nick, text, ts);
    }

    /// The kept lines, oldest first.
    pub fn list(&self) -> (r: Vec<HistoryItem>)
        ensures
            item_views(r@) == item_views(self.items@),
    {
        let mut out: Vec<HistoryItem> = Vec::new();
        let mut i: usize = 0;
        while i < self.items.len()
            invariant
                i <= self.items.len(),
                item_views(out@) == item_views(self.items@.take(i as int)),
            decreases self.items.len() - i,
        {
            let it = &self.items[i];
            let copy = HistoryItem { nick: it.nick.clone(), text: it.text.clone(), ts: it.ts };
            assert(item_views(self.items@.take(i + 1)) =~= item_views(self.items@.take(i as int)).push(item_view(copy)));
            assert(item_views(out@.push(copy)) =~= item_views(out@).push(item_view(copy)));
            out.push(copy);
            i = i + 1;
        }
        assert(self.items@.take(self.items.len() as int) =~= self.items@);
        out
    }
}

} // verus!
