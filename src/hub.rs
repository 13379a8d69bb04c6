//! The hub: the registry of live clients, their lowercase nicknames, the
//! per-connection and per-IP rate state, and the broadcast fan-out.
use vstd::prelude::*;
use tokio::sync::mpsc::Sender;
use crate::net::IpAddress;
use crate::protocol::ServerMsg;
use crate::rate::{admits, after_check, IpRate, RateLimiter, IP_WINDOW_MS, ip_after_check};
use crate::text::{lower_of, same_text, to_lower};

verus! {

#[verifier::external_type_specification]
#[verifier::external_body]
#[verifier::reject_recursive_types(T)]
pub struct ExSender<T>(Sender<T>);

/// Relies on tokio's `Sender::try_send`: queues the message without waiting,
/// or refuses it when the queue is full or closed. Which one happens depends
/// on the queue, so nothing is promised.
#[verifier::external_body]
fn try_deliver(tx: &Sender<ServerMsg>, msg: ServerMsg) -> (accepted: bool) {
    tx.try_send(msg).is_ok()
}

/// Capacity of each client's outbound queue, in messages.
pub const OUTBOUND_CAPACITY: usize = 64;

/// Connection limiters count events in windows of this length, in milliseconds.
pub const CONN_WINDOW_MS: u64 = 1000;

/// Identifies a live client; issued in increasing order.
pub type ClientId = u64;

/// A live client: its display nickname, its address and its outbound queue.
#[derive(Debug)]
pub struct ClientHandle {
    pub nick: String,
    pub ip: IpAddress,
    pub tx: Sender<ServerMsg>,
}

/// A registered client with its id and its lowercase nickname.
#[derive(Debug)]
pub struct ClientSlot {
    pub id: ClientId,
    pub handle: ClientHandle,
    pub key: String,
}

/// What a rate check decides for one incoming command.
#[derive(Debug, Clone, Copy, PartialEq, Eq)]
pub enum RateVerdict {
    /// Both limiters admitted the command.
    Pass,
    /// A limiter refused it for the first time in a row: warn the client.
    Warn,
    /// A limiter refused it again after a warning: end the session.
    Disconnect,
}

/// The hub state. `conn_rates[i]` is the limiter of `clients[i]`, with its
/// warning flag; `ip_rates` holds one limiter per address ever seen.
#[derive(Debug)]
pub struct HubState {
    pub clients: Vec<ClientSlot>,
    pub next_id: ClientId,
    pub ip_rates: Vec<(IpAddress, IpRate)>,
    pub conn_rates: Vec<(ClientId, RateLimiter, bool)>,
    pub conn_limit: u32,
    pub ip_limit: u32,
}

/// The ids of the offers in a round that the queues refused, in order.
pub open spec fn rejected(round: Seq<(ClientId, bool)>) -> Seq<ClientId>
    decreases round.len(),
{
    if round.len() == 0 {
        seq![]
    } else {
        let prev = rejected(round.drop_last());
        if round.last().1 {
            prev
        } else {
            prev.push(round.last().0)
        }
    }
}

impl HubState {
    /// The hub's invariants: limiters line up with clients, ids increase and
    /// stay below `next_id`, each slot's key is its lowercase nickname, no
    /// two clients share one, and each address has at most one limiter.
    pub open spec fn wf(&self) -> bool {
        &&& self.conn_rates.len() == self.clients.len()
        &&& forall|i: int| 0 <= i < self.clients.len() ==> (#[trigger] self.conn_rates@[i]).0 == self.clients@[i].id
        &&& forall|i: int| 0 <= i < self.clients.len() ==> (#[trigger] self.clients@[i]).key@ == lower_of(self.clients@[i].handle.nick@)
        &&& forall|i: int| 0 <= i < self.clients.len() ==> (#[trigger] self.clients@[i]).id < self.next_id
        &&& forall|i: int, j: int| 0 <= i < j < self.clients.len() ==> (#[trigger] self.clients@[i]).id < (#[trigger] self.clients@[j]).id
        &&& forall|i: int, j: int| 0 <= i < j < self.clients.len() ==> (#[trigger] self.clients@[i]).key@ != (#[trigger] self.clients@[j]).key@
        &&& forall|i: int, j: int| 0 <= i < j < self.ip_rates.len() ==> (#[trigger] self.ip_rates@[i]).0 != (#[trigger] self.ip_rates@[j]).0
    }

    /// Whether a client with this id is registered.
    pub open spec fn has_client(&self, id: ClientId) -> bool {
        exists|i: int| 0 <= i < self.clients.len() && (#[trigger] self.clients@[i]).id == id
    }

    /// The lowercase nicknames in use.
    pub open spec fn nicks(&self) -> Set<Seq<char>> {
        Set::new(|k: Seq<char>| exists|i: int| 0 <= i < self.clients.len() && (#[trigger] self.clients@[i]).key@ == k)
    }

    /// `round` offers a message once to each client, in registry order, and
    /// records whether its queue took it.
    pub open spec fn is_round(&self, round: Seq<(ClientId, bool)>) -> bool {
        &&& round.len() == self.clients.len()
        &&& forall|i: int| 0 <= i < round.len() ==> (#[trigger] round[i]).0 == self.clients@[i].id
    }

    /// Everything but the connection limiters is as in `other`.
    pub open spec fn same_but_conn_rates(&self, other: &HubState) -> bool {
        &&& self.clients@ == other.clients@
        &&& self.next_id == other.next_id
        &&& self.ip_rates@ == other.ip_rates@
        &&& self.conn_limit == other.conn_limit
        &&& self.ip_limit == other.ip_limit
        &&& self.conn_rates.len() == other.conn_rates.len()
    }

    /// Everything but the address limiters is as in `other`.
    pub open spec fn same_but_ip_rates(&self, other: &HubState) -> bool {
        &&& self.clients@ == other.clients@
        &&& self.next_id == other.next_id
        &&& self.conn_rates@ == other.conn_rates@
        &&& self.conn_limit == other.conn_limit
        &&& self.ip_limit == other.ip_limit
    }

    /// The address limiter for `ip` before an event: the stored one, or a
    /// fresh one whose window starts at `now`.
    pub open spec fn ip_rate_before(&self, ip: IpAddress, now: u64) -> IpRate {
        if exists|i: int| 0 <= i < self.ip_rates.len() && (#[trigger] self.ip_rates@[i]).0 == ip {
            let i = choose|i: int| 0 <= i < self.ip_rates.len() && (#[trigger] self.ip_rates@[i]).0 == ip;
            self.ip_rates@[i].1
        } else {
            IpRate { limiter: RateLimiter::new_spec(self.ip_limit, IP_WINDOW_MS, now), warned: false }
        }
    }

    /// The address limiter stored for `ip`, after an event.
    pub open spec fn ip_rate_is(&self, ip: IpAddress, r: IpRate) -> bool {
        exists|i: int| 0 <= i < self.ip_rates.len() && (#[trigger] self.ip_rates@[i]).0 == ip && self.ip_rates@[i].1 == r
    }

    /// What the rate policy decides for a command of client `id` from `ip`
    /// at `now`, before the limiters count it.
    pub open spec fn verdict_spec(&self, id: ClientId, ip: IpAddress, now: u64) -> RateVerdict {
        let ipr = self.ip_rate_before(ip, now);
        let ip_ok = admits(ipr.limiter, now);
        if self.has_client(id) {
            let k = choose|k: int| 0 <= k < self.clients.len() && (#[trigger] self.clients@[k]).id == id;
            let (cid, lim, w) = self.conn_rates@[k];
            let conn_ok = admits(lim, now);
            if conn_ok && ip_ok {
                RateVerdict::Pass
            } else if (!conn_ok && w) || (!ip_ok && ipr.warned) {
                RateVerdict::Disconnect
            } else {
                RateVerdict::Warn
            }
        } else if ip_ok {
            RateVerdict::Pass
        } else if ipr.warned {
            RateVerdict::Disconnect
        } else {
            RateVerdict::Warn
        }
    }

    /// `self` is `old` with client `id` renamed to `new_nick`: its slot holds
    /// the new nickname and its lowercase key, the other slots are as they
    /// were, and the old lowercase nickname is no longer in use.
    pub open spec fn slot_renamed(&self, old: &HubState, id: ClientId, new_nick: Seq<char>) -> bool {
        exists|k: int| {
            &&& 0 <= k < old.clients.len()
            &&& (#[trigger] old.clients@[k]).id == id
            &&& self.clients.len() == old.clients.len()
            &&& self.clients@[k].handle.nick@ == new_nick
            &&& self.clients@[k].key@ == lower_of(new_nick)
            &&& self.clients@[k].id == id
            &&& self.clients@[k].handle.ip == old.clients@[k].handle.ip
            &&& forall|j: int| 0 <= j < old.clients.len() && j != k ==> self.clients@[j] == old.clients@[j]
            &&& self.nicks().contains(lower_of(new_nick))
            &&& !self.nicks().contains(old.clients@[k].key@)
        }
    }

    /// `self` is `old` after the rate check of one command of client `id`
    /// from `ip` at `now`: both limiters counted it, and each limiter's
    /// warning is set exactly when it refused; nothing else changed.
    pub open spec fn rate_checked_from(&self, old: &HubState, id: ClientId, ip: IpAddress, now: u64) -> bool {
        &&& self.clients@ == old.clients@
        &&& self.rates_checked_from(old, id, ip, now)
    }

    /// The limiters, ids and limits of `self` are those of `old` after the
    /// rate check of one command of client `id` from `ip` at `now`.
    pub open spec fn rates_checked_from(&self, old: &HubState, id: ClientId, ip: IpAddress, now: u64) -> bool {
        let ipr = old.ip_rate_before(ip, now);
        let ip_ok = admits(ipr.limiter, now);
        &&& self.next_id == old.next_id
        &&& self.conn_limit == old.conn_limit
        &&& self.ip_limit == old.ip_limit
        &&& self.ip_rate_is(ip, IpRate { limiter: after_check(ipr.limiter, now), warned: !ip_ok })
        &&& forall|i: int| 0 <= i < old.ip_rates.len() && (#[trigger] old.ip_rates@[i]).0 != ip
            ==> i < self.ip_rates.len() && self.ip_rates@[i] == old.ip_rates@[i]
        &&& (!old.has_client(id) ==> self.conn_rates@ == old.conn_rates@)
        &&& forall|k: int| 0 <= k < old.clients.len() && (#[trigger] old.clients@[k]).id == id ==> {
            let (cid, lim, w) = old.conn_rates@[k];
            self.conn_rates@ == old.conn_rates@.update(k, (cid, after_check(lim, now), !admits(lim, now)))
        }
    }

    /// An empty hub with the given per-connection and per-IP limits.
    pub fn new(conn_limit: u32, ip_limit: u32) -> (r: HubState)
        ensures
            r.wf(),
            r.clients.len() == 0,
            r.ip_rates.len() == 0,
            r.next_id == 1,
            r.conn_limit == conn_limit,
            r.ip_limit == ip_limit,
    {
        HubState {
            clients: Vec::new(),
            next_id: 1,
            ip_rates: Vec::new(),
            conn_rates: Vec::new(),
            conn_limit,
            ip_limit,
        }
    }

    /// Where the client with this id sits.
    fn position(&self, id: ClientId) -> (r: Option<usize>)
        ensures
            r matches Some(k) ==> k < self.clients.len() && self.clients@[k as int].id == id,
            r is None ==> !self.has_client(id),
    {
        let mut i: usize = 0;
        while i < self.clients.len()
            invariant
                i <= self.clients.len(),
                forall|j: int| 0 <= j < i ==> (#[trigger] self.clients@[j]).id != id,
            decreases self.clients.len() - i,
        {
            if self.clients[i].id == id {
                return Some(i);
            }
            i = i + 1;
        }
        None
    }

    /// Where a client whose lowercase nickname is `key` sits.
    fn key_position(&self, key: &str) -> (r: Option<usize>)
        ensures
            r matches Some(k) ==> k < self.clients.len() && self.clients@[k as int].key@ == key@,
            r is None ==> !self.nicks().contains(key@),
    {
        let mut i: usize = 0;
        while i < self.clients.len()
            invariant
                i <= self.clients.len(),
                forall|j: int| 0 <= j < i ==> (#[trigger] self.clients@[j]).key@ != key@,
            decreases self.clients.len() - i,
        {
            if same_text(self.clients[i].key.as_str(), key) {
                return Some(i);
            }
            i = i + 1;
        }
        None
    }

    /// Whether some live client's lowercase nickname is `key`.
    pub fn key_in_use(&self, key: &str) -> (r: bool)
        ensures
            r == self.nicks().contains(key@),
    {
        self.key_position(key).is_some()
    }

    /// Whether `nick` is taken, compared in lowercase.
    pub fn nick_taken(&self, nick: &str) -> (r: bool)
        ensures
            r == self.nicks().contains(lower_of(nick@)),
    {
        let key = to_lower(nick);
        self.key_in_use(key.as_str())
    }

    /// Registers a client under the next id, unless its nickname is taken in
    /// lowercase or the ids have run out. Its connection limiter starts at
    /// `now`; its address keeps its limiter, or gets one starting at `now`.
    pub fn add_client(&mut self, nick: String, ip: IpAddress, tx: Sender<ServerMsg>, now: u64) -> (r: Option<ClientId>)
        requires
            old(self).wf(),
        ensures
            final(self).wf(),
            r is Some <==> (!old(self).nicks().contains(lower_of(nick@)) && old(self).next_id < u64::MAX),
            r is None ==> *final(self) == *old(self),
            r matches Some(id) ==> {
                &&& id == old(self).next_id
                &&& final(self).next_id == id + 1
                &&& final(self).clients.len() == old(self).clients.len() + 1
                &&& final(self).clients@.drop_last() == old(self).clients@
                &&& final(self).clients@.last().id == id
                &&& final(self).clients@.last().handle.nick@ == nick@
                &&& final(self).clients@.last().handle.ip == ip
                &&& final(self).conn_rates@ == old(self).conn_rates@.push(
                    (id, RateLimiter::new_spec(old(self).conn_limit, CONN_WINDOW_MS, now), false),
                )
                &&& final(self).ip_rate_is(ip, old(self).ip_rate_before(ip, now))
                &&& final(self).nicks() == old(self).nicks().insert(lower_of(nick@))
                &&& final(self).conn_limit == old(self).conn_limit
                &&& final(self).ip_limit == old(self).ip_limit
            },
    {
        if self.next_id == u64::MAX {
            return None;
        }
        let key = to_lower(nick.as_str());
        if self.key_position(key.as_str()).is_some() {
            return None;
        }
        let id = self.next_id;
        self.next_id = id + 1;
        let ghost before = self.clients@;
        let ghost k = key@;
        self.clients.push(ClientSlot { id, handle: ClientHandle { nick, ip, tx }, key });
        self.conn_rates.push((id, RateLimiter::new_at(self.conn_limit, CONN_WINDOW_MS, now), false));
        self.ensure_ip_rate(ip, now);
        proof {
            let after = self.clients@;
            assert forall|x: Seq<char>| self.nicks().contains(x) == old(self).nicks().insert(k).contains(x) by {
                if old(self).nicks().contains(x) {
                    let j = choose|j: int| 0 <= j < before.len() && (#[trigger] before[j]).key@ == x;
                    assert(after[j] == before[j]);
                }
                if x == k {
                    assert(after[before.len() as int].key@ == k);
                }
                if self.nicks().contains(x) {
                    let j = choose|j: int| 0 <= j < after.len() && (#[trigger] after[j]).key@ == x;
                    if j < before.len() {
                        assert(after[j] == before[j]);
                    }
                }
            }
            assert(self.nicks() =~= old(self).nicks().insert(k));
        }
        Some(id)
    }

    /// Makes sure `ip` has a limiter, creating one that starts at `now`.
    fn ensure_ip_rate(&mut self, ip: IpAddress, now: u64) -> (k: usize)
        requires
            forall|i: int, j: int| 0 <= i < j < old(self).ip_rates.len() ==> (#[trigger] old(self).ip_rates@[i]).0 != (#[trigger] old(self).ip_rates@[j]).0,
        ensures
            forall|i: int, j: int| 0 <= i < j < final(self).ip_rates.len() ==> (#[trigger] final(self).ip_rates@[i]).0 != (#[trigger] final(self).ip_rates@[j]).0,
            k < final(self).ip_rates.len(),
            final(self).ip_rates@[k as int] == (ip, old(self).ip_rate_before(ip, now)),
            final(self).ip_rate_is(ip, old(self).ip_rate_before(ip, now)),
            forall|i: int| 0 <= i < old(self).ip_rates.len() ==> final(self).ip_rates@[i] == old(self).ip_rates@[i],
            final(self).ip_rates.len() == old(self).ip_rates.len() || final(self).ip_rates@ == old(self).ip_rates@.push((ip, old(self).ip_rate_before(ip, now))),
            final(self).clients@ == old(self).clients@,
            final(self).conn_rates@ == old(self).conn_rates@,
            final(self).next_id == old(self).next_id,
            final(self).conn_limit == old(self).conn_limit,
            final(self).ip_limit == old(self).ip_limit,
    {
        let mut i: usize = 0;
        while i < self.ip_rates.len()
            invariant
                i <= self.ip_rates.len(),
                *self == *old(self),
                forall|a: int, b: int| 0 <= a < b < self.ip_rates.len() ==> (#[trigger] self.ip_rates@[a]).0 != (#[trigger] self.ip_rates@[b]).0,
                forall|j: int| 0 <= j < i ==> (#[trigger] self.ip_rates@[j]).0 != ip,
            decreases self.ip_rates.len() - i,
        {
            if self.ip_rates[i].0 == ip {
                proof {
                    let ii = i as int;
                    assert(0 <= ii < self.ip_rates.len() && self.ip_rates@[ii].0 == ip);
                    let c = choose|c: int| 0 <= c < self.ip_rates.len() && (#[trigger] self.ip_rates@[c]).0 == ip;
                    assert(c == ii) by {
                        if c < ii {
                            assert(self.ip_rates@[c].0 != self.ip_rates@[ii].0);
                        } else if c > ii {
                            assert(self.ip_rates@[ii].0 != self.ip_rates@[c].0);
                        }
                    }
                }
                return i;
            }
            i = i + 1;
        }
        let fresh = IpRate::new_at(self.ip_limit, now);
        let ghost before = self.ip_rates@;
        self.ip_rates.push((ip, fresh));
        proof {
            assert(self.ip_rates@[before.len() as int] == (ip, fresh));
        }
        self.ip_rates.len() - 1
    }

    /// Unregisters a client and returns its handle; its address keeps its limiter.
    pub fn remove_client(&mut self, id: ClientId) -> (r: Option<ClientHandle>)
        requires
            old(self).wf(),
        ensures
            final(self).wf(),
            r is Some <==> old(self).has_client(id),
            r is None ==> *final(self) == *old(self),
            r matches Some(h) ==> exists|k: int| {
                &&& 0 <= k < old(self).clients.len()
                &&& (#[trigger] old(self).clients@[k]).id == id
                &&& h == old(self).clients@[k].handle
                &&& final(self).clients@ == old(self).clients@.remove(k)
                &&& final(self).conn_rates@ == old(self).conn_rates@.remove(k)
                &&& final(self).nicks() == old(self).nicks().remove(old(self).clients@[k].key@)
            },
            !final(self).has_client(id),
            forall|other: ClientId| other != id ==> (final(self).has_client(other) == old(self).has_client(other)),
            final(self).next_id == old(self).next_id,
            final(self).ip_rates@ == old(self).ip_rates@,
            final(self).conn_limit == old(self).conn_limit,
            final(self).ip_limit == old(self).ip_limit,
    {
        match self.position(id) {
            None => None,
            Some(k) => {
                let ghost before = *self;
                let slot = self.clients.remove(k);
                self.conn_rates.remove(k);
                proof {
                    let a = self.clients@;
                    let b = before.clients@;
                    assert forall|j: int| 0 <= j < a.len() implies #[trigger] a[j] == (if j < k { b[j] } else { b[j + 1] }) by {}
                    assert forall|j: int| 0 <= j < a.len() implies #[trigger] self.conn_rates@[j] == (if j < k { before.conn_rates@[j] } else { before.conn_rates@[j + 1] }) by {}
                    assert forall|other: ClientId| other != id implies (self.has_client(other) == before.has_client(other)) by {
                        if before.has_client(other) {
                            let j = choose|j: int| 0 <= j < b.len() && (#[trigger] b[j]).id == other;
                            if j < k {
                                assert(a[j].id == other);
                            } else {
                                assert(j != k);
                                assert(a[j - 1].id == other);
                            }
                        }
                        if self.has_client(other) {
                            let j = choose|j: int| 0 <= j < a.len() && (#[trigger] a[j]).id == other;
                            if j < k {
                                assert(b[j].id == other);
                            } else {
                                assert(b[j + 1].id == other);
                            }
                        }
                    }
                    assert forall|j: int| 0 <= j < a.len() implies (#[trigger] a[j]).id != id by {
                        if j < k {
                            assert(b[j].id < b[k as int].id);
                        } else {
                            assert(b[k as int].id < b[j + 1].id);
                        }
                    }
                    assert forall|i: int, j: int| 0 <= i < j < a.len() implies (#[trigger] a[i]).id < (#[trigger] a[j]).id by {
                        let bi = if i < k { i } else { i + 1 };
                        let bj = if j < k { j } else { j + 1 };
                        assert(b[bi].id < b[bj].id);
                    }
                    assert forall|i: int, j: int| 0 <= i < j < a.len() implies (#[trigger] a[i]).key@ != (#[trigger] a[j]).key@ by {
                        let bi = if i < k { i } else { i + 1 };
                        let bj = if j < k { j } else { j + 1 };
                        assert(b[bi].key@ != b[bj].key@);
                    }
                    let gone = b[k as int].key@;
                    assert forall|x: Seq<char>| self.nicks().contains(x) == before.nicks().remove(gone).contains(x) by {
                        if before.nicks().contains(x) && x != gone {
                            let j = choose|j: int| 0 <= j < b.len() && (#[trigger] b[j]).key@ == x;
                            assert(j != k);
                            if j < k {
                                assert(a[j] == b[j]);
                            } else {
                                assert(a[j - 1] == b[j]);
                            }
                        }
                        if self.nicks().contains(x) {
                            let j = choose|j: int| 0 <= j < a.len() && (#[trigger] a[j]).key@ == x;
                            let bj = if j < k { j } else { j + 1 };
                            assert(a[j] == b[bj]);
                            if bj < k {
                                assert(b[bj].key@ != b[k as int].key@);
                            } else {
                                assert(b[k as int].key@ != b[bj].key@);
                            }
                        }
                    }
                    assert(self.nicks() =~= before.nicks().remove(gone));
                }
                Some(slot.handle)
            },
        }
    }

    /// Changes a client's nickname. A name equal to the current one in
    /// lowercase changes nothing; a name another client holds in lowercase is
    /// refused; an unknown id is refused.
    pub fn rename(&mut self, id: ClientId, new_nick: String) -> (r: Result<(), String>)
        requires
            old(self).wf(),
        ensures
            final(self).wf(),
            ({
                let key = lower_of(new_nick@);
                let owns = exists|k: int| 0 <= k < old(self).clients.len() && (#[trigger] old(self).clients@[k]).id == id && old(self).clients@[k].key@ == key;
                if owns {
                    r is Ok && *final(self) == *old(self)
                } else if old(self).nicks().contains(key) {
                    r matches Err(e) && e@ == "nickname already taken"@ && *final(self) == *old(self)
                } else if !old(self).has_client(id) {
                    r matches Err(e) && e@ == "unknown client"@ && *final(self) == *old(self)
                } else {
                    &&& r is Ok
                    &&& final(self).slot_renamed(old(self), id, new_nick@)
                    &&& final(self).conn_rates@ == old(self).conn_rates@
                    &&& final(self).ip_rates@ == old(self).ip_rates@
                    &&& final(self).next_id == old(self).next_id
                    &&& final(self).conn_limit == old(self).conn_limit
                    &&& final(self).ip_limit == old(self).ip_limit
                }
            }),
    {
        let key = to_lower(new_nick.as_str());
        let pos = self.position(id);
        match pos {
            Some(k) => {
                if same_text(self.clients[k].key.as_str(), key.as_str()) {
                    return Ok(());
                }
            },
            None => {},
        }
        proof {
            if exists|k: int| 0 <= k < self.clients.len() && (#[trigger] self.clients@[k]).id == id && self.clients@[k].key@ == key@ {
                let k = choose|k: int| 0 <= k < self.clients.len() && (#[trigger] self.clients@[k]).id == id && self.clients@[k].key@ == key@;
                let p = pos->0 as int;
                if k < p {
                    assert(self.clients@[k].id < self.clients@[p].id);
                } else if k > p {
                    assert(self.clients@[p].id < self.clients@[k].id);
                }
            }
        }
        if self.key_position(key.as_str()).is_some() {
            return Err("nickname already taken".to_owned());
        }
        match pos {
            None => Err("unknown client".to_owned()),
            Some(k) => {
                let ghost before = *self;
                let slot = self.clients.remove(k);
                let ClientSlot { id: sid, handle, key: _ } = slot;
                let ClientHandle { nick: _, ip, tx } = handle;
                self.clients.insert(k, ClientSlot { id: sid, handle: ClientHandle { nick: new_nick, ip, tx }, key });
                proof {
                    let a = self.clients@;
                    let b = before.clients@;
                    assert forall|j: int| 0 <= j < a.len() && j != k implies #[trigger] a[j] == b[j] by {}
                    assert forall|i: int, j: int| 0 <= i < j < a.len() implies (#[trigger] a[i]).key@ != (#[trigger] a[j]).key@ by {
                        if i == k {
                            assert(!before.nicks().contains(key@));
                            assert(b[j].key@ != key@);
                        } else if j == k {
                            assert(!before.nicks().contains(key@));
                            assert(b[i].key@ != key@);
                        } else {
                            assert(b[i].key@ != b[j].key@);
                        }
                    }
                    assert forall|i: int, j: int| 0 <= i < j < a.len() implies (#[trigger] a[i]).id < (#[trigger] a[j]).id by {
                        assert(b[i].id < b[j].id);
                    }
                    let oldkey = b[k as int].key@;
                    assert(oldkey != key@);
                    assert forall|j: int| 0 <= j < a.len() implies (#[trigger] a[j]).key@ != oldkey by {
                        if j < k {
                            assert(b[j].key@ != b[k as int].key@);
                        } else if j > k {
                            assert(b[k as int].key@ != b[j].key@);
                        }
                    }
                    assert(a[k as int].key@ == key@);
                    assert(self.nicks().contains(key@));
                }
                Ok(())
            },
        }
    }

    /// The ids increase along the registry, so one id sits in one place.
    proof fn lemma_one_place(&self, id: ClientId, k: int, k2: int)
        requires
            self.wf(),
            0 <= k < self.clients.len(),
            0 <= k2 < self.clients.len(),
            self.clients@[k].id == id,
            self.clients@[k2].id == id,
        ensures
            k == k2,
    {
        if k < k2 {
            assert(self.clients@[k].id < self.clients@[k2].id);
        } else if k2 < k {
            assert(self.clients@[k2].id < self.clients@[k].id);
        }
    }

    /// Counts one command of client `id` at `now` against its connection
    /// limiter; an admitted command clears its warning. Unknown ids pass.
    pub fn conn_rate_ok(&mut self, id: ClientId, now: u64) -> (r: bool)
        requires
            old(self).wf(),
        ensures
            final(self).wf(),
            final(self).same_but_conn_rates(old(self)),
            !old(self).has_client(id) ==> r && final(self).conn_rates@ == old(self).conn_rates@,
            forall|k: int| 0 <= k < old(self).clients.len() && (#[trigger] old(self).clients@[k]).id == id ==> {
                let (cid, lim, w) = old(self).conn_rates@[k];
                &&& r == admits(lim, now)
                &&& final(self).conn_rates@ == old(self).conn_rates@.update(k, (cid, after_check(lim, now), if r { false } else { w }))
            },
    {
        match self.position(id) {
            None => true,
            Some(k) => {
                let (cid, lim0, w) = self.conn_rates[k];
                let mut lim = lim0;
                let ok = lim.check_at(now);
                self.conn_rates.set(k, (cid, lim, if ok { false } else { w }));
                proof {
                    assert forall|k2: int| 0 <= k2 < old(self).clients.len() && (#[trigger] old(self).clients@[k2]).id == id implies k2 == k by {
                        old(self).lemma_one_place(id, k as int, k2);
                    }
                }
                ok
            },
        }
    }

    /// Whether client `id` has been warned by its connection limiter.
    pub fn conn_warned(&self, id: ClientId) -> (r: bool)
        requires
            self.wf(),
        ensures
            !self.has_client(id) ==> !r,
            forall|k: int| 0 <= k < self.clients.len() && (#[trigger] self.clients@[k]).id == id ==> r == self.conn_rates@[k].2,
    {
        match self.position(id) {
            None => false,
            Some(k) => {
                proof {
                    assert forall|k2: int| 0 <= k2 < self.clients.len() && (#[trigger] self.clients@[k2]).id == id implies k2 == k by {
                        self.lemma_one_place(id, k as int, k2);
                    }
                }
                self.conn_rates[k].2
            },
        }
    }

    /// Marks client `id` as warned by its connection limiter.
    pub fn mark_conn_warned(&mut self, id: ClientId)
        requires
            old(self).wf(),
        ensures
            final(self).wf(),
            final(self).same_but_conn_rates(old(self)),
            !old(self).has_client(id) ==> final(self).conn_rates@ == old(self).conn_rates@,
            forall|k: int| 0 <= k < old(self).clients.len() && (#[trigger] old(self).clients@[k]).id == id ==> {
                let (cid, lim, w) = old(self).conn_rates@[k];
                final(self).conn_rates@ == old(self).conn_rates@.update(k, (cid, lim, true))
            },
    {
        match self.position(id) {
            None => {},
            Some(k) => {
                let (cid, lim, _) = self.conn_rates[k];
                self.conn_rates.set(k, (cid, lim, true));
                proof {
                    assert forall|k2: int| 0 <= k2 < old(self).clients.len() && (#[trigger] old(self).clients@[k2]).id == id implies k2 == k by {
                        old(self).lemma_one_place(id, k as int, k2);
                    }
                }
            },
        }
    }

    /// Counts one command from `ip` at `now` against the address limiter,
    /// creating it if the address is new; an admitted command clears its
    /// warning.
    pub fn ip_rate_ok(&mut self, ip: IpAddress, now: u64) -> (r: bool)
        requires
            old(self).wf(),
        ensures
            final(self).wf(),
            final(self).same_but_ip_rates(old(self)),
            r == admits(old(self).ip_rate_before(ip, now).limiter, now),
            final(self).ip_rate_is(ip, ip_after_check(old(self).ip_rate_before(ip, now), now)),
            final(self).ip_rates.len() >= old(self).ip_rates.len(),
            forall|i: int| 0 <= i < old(self).ip_rates.len() && (#[trigger] old(self).ip_rates@[i]).0 != ip ==> final(self).ip_rates@[i] == old(self).ip_rates@[i],
    {
        let k = self.ensure_ip_rate(ip, now);
        let (addr, rate0) = self.ip_rates[k];
        let mut rate = rate0;
        let ok = rate.check_at(now);
        self.ip_rates.set(k, (addr, rate));
        proof {
            let a = self.ip_rates@;
            assert(a[k as int] == (ip, rate));
            assert forall|i: int, j: int| 0 <= i < j < a.len() implies (#[trigger] a[i]).0 != (#[trigger] a[j]).0 by {
                if i != k && j != k {
                } else {
                }
            }
        }
        ok
    }

    /// Whether `ip` has been warned by its address limiter.
    pub fn ip_warned(&self, ip: IpAddress) -> (r: bool)
        ensures
            r == exists|i: int| 0 <= i < self.ip_rates.len() && (#[trigger] self.ip_rates@[i]).0 == ip && self.ip_rates@[i].1.warned,
    {
        let mut i: usize = 0;
        while i < self.ip_rates.len()
            invariant
                i <= self.ip_rates.len(),
                forall|j: int| 0 <= j < i ==> !((#[trigger] self.ip_rates@[j]).0 == ip && self.ip_rates@[j].1.warned),
            decreases self.ip_rates.len() - i,
        {
            if self.ip_rates[i].0 == ip && self.ip_rates[i].1.warned {
                return true;
            }
            i = i + 1;
        }
        false
    }

    /// Marks `ip` as warned by its address limiter, if it has one.
    pub fn mark_ip_warned(&mut self, ip: IpAddress)
        requires
            old(self).wf(),
        ensures
            final(self).wf(),
            final(self).same_but_ip_rates(old(self)),
            final(self).ip_rates.len() == old(self).ip_rates.len(),
            forall|i: int| 0 <= i < old(self).ip_rates.len() ==> #[trigger] final(self).ip_rates@[i] == (
                if old(self).ip_rates@[i].0 == ip {
                    (ip, IpRate { limiter: old(self).ip_rates@[i].1.limiter, warned: true })
                } else {
                    old(self).ip_rates@[i]
                }
            ),
    {
        let mut i: usize = 0;
        while i < self.ip_rates.len()
            invariant
                i <= self.ip_rates.len(),
                self.ip_rates.len() == old(self).ip_rates.len(),
                self.clients@ == old(self).clients@,
                self.conn_rates@ == old(self).conn_rates@,
                self.next_id == old(self).next_id,
                self.conn_limit == old(self).conn_limit,
                self.ip_limit == old(self).ip_limit,
                forall|j: int| 0 <= j < self.ip_rates.len() ==> (#[trigger] self.ip_rates@[j]).0 == old(self).ip_rates@[j].0,
                forall|j: int| 0 <= j < i ==> #[trigger] self.ip_rates@[j] == (
                    if old(self).ip_rates@[j].0 == ip {
                        (ip, IpRate { limiter: old(self).ip_rates@[j].1.limiter, warned: true })
                    } else {
                        old(self).ip_rates@[j]
                    }
                ),
                forall|j: int| i <= j < self.ip_rates.len() ==> #[trigger] self.ip_rates@[j] == old(self).ip_rates@[j],
                forall|a: int, b: int| 0 <= a < b < old(self).ip_rates.len() ==> (#[trigger] old(self).ip_rates@[a]).0 != (#[trigger] old(self).ip_rates@[b]).0,
            decreases self.ip_rates.len() - i,
        {
            let (addr, rate) = self.ip_rates[i];
            if addr == ip {
                self.ip_rates.set(i, (addr, IpRate { limiter: rate.limiter, warned: true }));
            }
            i = i + 1;
        }
        proof {
            let a = self.ip_rates@;
            assert forall|x: int, y: int| 0 <= x < y < a.len() implies (#[trigger] a[x]).0 != (#[trigger] a[y]).0 by {
                assert(a[x].0 == old(self).ip_rates@[x].0);
                assert(a[y].0 == old(self).ip_rates@[y].0);
            }
        }
    }

    /// The rate policy for one command of client `id` from `ip` at `now`:
    /// both limiters count it; a refusal warns, and a refusal by a limiter
    /// that has already warned ends the session. An admitted command clears
    /// that limiter's warning.
    pub fn rate_verdict(&mut self, id: ClientId, ip: IpAddress, now: u64) -> (r: RateVerdict)
        requires
            old(self).wf(),
        ensures
            final(self).wf(),
            final(self).clients@ == old(self).clients@,
            final(self).next_id == old(self).next_id,
            final(self).conn_limit == old(self).conn_limit,
            final(self).ip_limit == old(self).ip_limit,
            r == old(self).verdict_spec(id, ip, now),
            final(self).rate_checked_from(old(self), id, ip, now),
            ({
                let ipr = old(self).ip_rate_before(ip, now);
                let ip_ok = admits(ipr.limiter, now);
                &&& final(self).ip_rate_is(ip, IpRate { limiter: after_check(ipr.limiter, now), warned: !ip_ok })
                &&& (!old(self).has_client(id) ==> {
                    &&& final(self).conn_rates@ == old(self).conn_rates@
                    &&& r == if ip_ok { RateVerdict::Pass } else if ipr.warned { RateVerdict::Disconnect } else { RateVerdict::Warn }
                })
                &&& forall|k: int| 0 <= k < old(self).clients.len() && (#[trigger] old(self).clients@[k]).id == id ==> {
                    let (cid, lim, w) = old(self).conn_rates@[k];
                    let conn_ok = admits(lim, now);
                    &&& final(self).conn_rates@ == old(self).conn_rates@.update(k, (cid, after_check(lim, now), !conn_ok))
                    &&& r == if conn_ok && ip_ok {
                        RateVerdict::Pass
                    } else if (!conn_ok && w) || (!ip_ok && ipr.warned) {
                        RateVerdict::Disconnect
                    } else {
                        RateVerdict::Warn
                    }
                }
            }),
    {
        let ghost start = *self;
        let conn_ok = self.conn_rate_ok(id, now);
        let ghost mid = *self;
        let ip_ok = self.ip_rate_ok(ip, now);
        let ghost mid2 = *self;
        if conn_ok && ip_ok {
            proof {
                assert forall|i: int| 0 <= i < start.ip_rates.len() && (#[trigger] start.ip_rates@[i]).0 != ip
                    implies i < self.ip_rates.len() && self.ip_rates@[i] == start.ip_rates@[i] by {
                    assert(mid.ip_rates@ == start.ip_rates@);
                    assert(mid2.ip_rates@[i] == mid.ip_rates@[i]);
                }
            }
            return RateVerdict::Pass;
        }
        let mut disconnect = false;
        if !conn_ok {
            if self.conn_warned(id) {
                disconnect = true;
            } else {
                self.mark_conn_warned(id);
            }
        }
        let ghost mid3 = *self;
        if !ip_ok {
            if self.ip_warned(ip) {
                disconnect = true;
            } else {
                self.mark_ip_warned(ip);
            }
        }
        proof {
            let ipr = start.ip_rate_before(ip, now);
            let j = choose|j: int| 0 <= j < mid2.ip_rates.len() && (#[trigger] mid2.ip_rates@[j]).0 == ip && mid2.ip_rates@[j].1 == ip_after_check(ipr, now);
            assert(mid3.ip_rates@ == mid2.ip_rates@);
            assert forall|j2: int| 0 <= j2 < mid2.ip_rates.len() && (#[trigger] mid2.ip_rates@[j2]).0 == ip implies j2 == j by {
                if j2 < j {
                    assert(mid2.ip_rates@[j2].0 != mid2.ip_rates@[j].0);
                } else if j < j2 {
                    assert(mid2.ip_rates@[j].0 != mid2.ip_rates@[j2].0);
                }
            }
            assert(self.ip_rates@[j].0 == ip);
            assert forall|i: int| 0 <= i < start.ip_rates.len() && (#[trigger] start.ip_rates@[i]).0 != ip
                implies i < self.ip_rates.len() && self.ip_rates@[i] == start.ip_rates@[i] by {
                assert(mid.ip_rates@ == start.ip_rates@);
                assert(mid2.ip_rates@[i] == mid.ip_rates@[i]);
                assert(mid3.ip_rates@[i] == mid2.ip_rates@[i]);
            }
        }
        proof {
            let ipr = start.ip_rate_before(ip, now);
            assert(self.ip_rate_is(ip, IpRate { limiter: after_check(ipr.limiter, now), warned: !admits(ipr.limiter, now) }));
            assert(!start.has_client(id) ==> self.conn_rates@ == start.conn_rates@);
            assert forall|k: int| 0 <= k < start.clients.len() && (#[trigger] start.clients@[k]).id == id implies {
                let (cid, lim, w) = start.conn_rates@[k];
                self.conn_rates@ == start.conn_rates@.update(k, (cid, after_check(lim, now), !admits(lim, now)))
            } by {
                let (cid, lim, w) = start.conn_rates@[k];
                assert(mid.conn_rates@ == start.conn_rates@.update(k, (cid, after_check(lim, now), if conn_ok { false } else { w })));
                assert(conn_ok == admits(lim, now));
            }
        }
        if disconnect {
            RateVerdict::Disconnect
        } else {
            RateVerdict::Warn
        }
    }

    /// The display nicknames of the live clients, in registry order.
    pub fn list_nicks(&self) -> (r: Vec<String>)
        ensures
            r.len() == self.clients.len(),
            forall|i: int| 0 <= i < r.len() ==> (#[trigger] r@[i])@ == self.clients@[i].handle.nick@,
    {
        let mut out: Vec<String> = Vec::new();
        let mut i: usize = 0;
        while i < self.clients.len()
            invariant
                i <= self.clients.len(),
                out.len() == i,
                forall|j: int| 0 <= j < i ==> (#[trigger] out@[j])@ == self.clients@[j].handle.nick@,
            decreases self.clients.len() - i,
        {
            out.push(self.clients[i].handle.nick.clone());
            i = i + 1;
        }
        out
    }

    /// Offers `msg` once to every live client, in registry order, and
    /// reports for each whether its queue took it.
    pub fn deliver(&self, msg: &ServerMsg) -> (round: Vec<(ClientId, bool)>)
        ensures
            self.is_round(round@),
    {
        let mut round: Vec<(ClientId, bool)> = Vec::new();
        let mut i: usize = 0;
        while i < self.clients.len()
            invariant
                i <= self.clients.len(),
                round.len() == i,
                forall|j: int| 0 <= j < i ==> (#[trigger] round@[j]).0 == self.clients@[j].id,
            decreases self.clients.len() - i,
        {
            let accepted = try_deliver(&self.clients[i].handle.tx, msg.clone());
            round.push((self.clients[i].id, accepted));
            i = i + 1;
        }
        round
    }

    /// Offers `msg` to every live client; a full queue drops it for that client.
    pub fn broadcast(&self, msg: &ServerMsg) {
        let _ = self.deliver(msg);
    }

    /// Offers `msg` to every live client once and returns the ids whose queue
    /// refused it, so that the caller can evict them.
    pub fn broadcast_with_disconnects(&mut self, msg: &ServerMsg) -> (r: Vec<ClientId>)
        ensures
            *final(self) == *old(self),
            exists|round: Seq<(ClientId, bool)>| old(self).is_round(round) && r@ == rejected(round),
    {
        let round = self.deliver(msg);
        refused_ids(&round)
    }

    /// Unregisters a client and tells the others it left, with the reason.
    pub fn disconnect_client(&mut self, id: ClientId, reason: &str) -> (r: bool)
        requires
            old(self).wf(),
        ensures
            final(self).wf(),
            r == old(self).has_client(id),
            !r ==> *final(self) == *old(self),
            r ==> exists|k: int| {
                &&& 0 <= k < old(self).clients.len()
                &&& (#[trigger] old(self).clients@[k]).id == id
                &&& final(self).clients@ == old(self).clients@.remove(k)
                &&& final(self).conn_rates@ == old(self).conn_rates@.remove(k)
                &&& final(self).nicks() == old(self).nicks().remove(old(self).clients@[k].key@)
            },
            !final(self).has_client(id),
            forall|other: ClientId| other != id ==> (final(self).has_client(other) == old(self).has_client(other)),
            final(self).next_id == old(self).next_id,
            final(self).ip_rates@ == old(self).ip_rates@,
            final(self).conn_limit == old(self).conn_limit,
            final(self).ip_limit == old(self).ip_limit,
    {
        match self.remove_client(id) {
            Some(handle) => {
                let mut text = handle.nick;
                text.append(" left (");
                text.append(reason);
                text.append(")");
                self.broadcast(&ServerMsg::Sys { text });
                true
            },
            None => false,
        }
    }

    /// Unregisters each client of `ids` that is still registered, telling
    /// the others it left for `reason`.
    pub fn evict(&mut self, ids: &Vec<ClientId>, reason: &str)
        requires
            old(self).wf(),
        ensures
            final(self).wf(),
            forall|i: int| 0 <= i < ids.len() ==> !final(self).has_client(#[trigger] ids@[i]),
            forall|id: ClientId| old(self).has_client(id) && !ids@.contains(id) ==> final(self).has_client(id),
            forall|id: ClientId| final(self).has_client(id) ==> old(self).has_client(id),
            final(self).ip_rates@ == old(self).ip_rates@,
            final(self).next_id == old(self).next_id,
            final(self).conn_limit == old(self).conn_limit,
            final(self).ip_limit == old(self).ip_limit,
    {
        let mut i: usize = 0;
        while i < ids.len()
            invariant
                self.wf(),
                i <= ids.len(),
                forall|j: int| 0 <= j < i ==> !self.has_client(#[trigger] ids@[j]),
                forall|id: ClientId| old(self).has_client(id) && !ids@.take(i as int).contains(id) ==> self.has_client(id),
                forall|id: ClientId| self.has_client(id) ==> old(self).has_client(id),
                self.ip_rates@ == old(self).ip_rates@,
                self.next_id == old(self).next_id,
                self.conn_limit == old(self).conn_limit,
                self.ip_limit == old(self).ip_limit,
            decreases ids.len() - i,
        {
            let id = ids[i];
            self.disconnect_client(id, reason);
            proof {
                assert forall|id2: ClientId| old(self).has_client(id2) && !ids@.take(i + 1).contains(id2) implies self.has_client(id2) by {
                    assert(ids@.take(i + 1)[i as int] == id);
                    if ids@.take(i as int).contains(id2) {
                        let j = choose|j: int| 0 <= j < i && ids@.take(i as int)[j] == id2;
                        assert(ids@.take(i + 1)[j] == id2);
                    }
                }
            }
            i = i + 1;
        }
        assert(ids@.take(ids.len() as int) =~= ids@);
    }

    /// Offers a chat message to every live client and evicts those whose
    /// queue refused it, as slow consumers; returns the evicted ids.
    pub fn broadcast_chat(&mut self, msg: &ServerMsg) -> (r: Vec<ClientId>)
        requires
            old(self).wf(),
        ensures
            final(self).wf(),
            exists|round: Seq<(ClientId, bool)>| old(self).is_round(round) && r@ == rejected(round),
            forall|i: int| 0 <= i < r.len() ==> !final(self).has_client(#[trigger] r@[i]),
            forall|id: ClientId| old(self).has_client(id) && !r@.contains(id) ==> final(self).has_client(id),
            forall|id: ClientId| final(self).has_client(id) ==> old(self).has_client(id),
            final(self).ip_rates@ == old(self).ip_rates@,
    {
        let round = self.deliver(msg);
        let dropped = refused_ids(&round);
        self.evict(&dropped, "slow consumer");
        dropped
    }
}

/// The ids of the offers in `round` that were refused, in order.
pub fn refused_ids(round: &Vec<(ClientId, bool)>) -> (r: Vec<ClientId>)
    ensures
        r@ == rejected(round@),
{
    let mut out: Vec<ClientId> = Vec::new();
    let mut i: usize = 0;
    while i < round.len()
        invariant
            i <= round.len(),
            out@ == rejected(round@.take(i as int)),
        decreases round.len() - i,
    {
        assert(round@.take(i + 1).drop_last() =~= round@.take(i as int));
        if !round[i].1 {
            out.push(round[i].0);
        }
        i = i + 1;
    }
    assert(round@.take(round.len() as int) =~= round@);
    out
}

/// Every live client's lowercase nickname is in use, and no two live
/// clients share one.
pub proof fn lemma_live_nicks_unique(hub: &HubState)
    requires
        hub.wf(),
    ensures
        forall|i: int| 0 <= i < hub.clients.len() ==> hub.nicks().contains(lower_of((#[trigger] hub.clients@[i]).handle.nick@)),
        forall|i: int, j: int|
            0 <= i < j < hub.clients.len() ==> lower_of((#[trigger] hub.clients@[i]).handle.nick@)
                != lower_of((#[trigger] hub.clients@[j]).handle.nick@),
{
    assert forall|i: int| 0 <= i < hub.clients.len() implies hub.nicks().contains(lower_of((#[trigger] hub.clients@[i]).handle.nick@)) by {
        assert(hub.clients@[i].key@ == lower_of(hub.clients@[i].handle.nick@));
    }
}

/// A broadcast round never offers a message to the same client twice, and
/// offers it to every live client.
pub proof fn lemma_round_offers_once(hub: &HubState, round: Seq<(ClientId, bool)>)
    requires
        hub.wf(),
        hub.is_round(round),
    ensures
        forall|i: int, j: int| 0 <= i < j < round.len() ==> (#[trigger] round[i]).0 != (#[trigger] round[j]).0,
        forall|id: ClientId| hub.has_client(id) ==> exists|i: int| 0 <= i < round.len() && (#[trigger] round[i]).0 == id,
{
    assert forall|i: int, j: int| 0 <= i < j < round.len() implies (#[trigger] round[i]).0 != (#[trigger] round[j]).0 by {
        assert(hub.clients@[i].id < hub.clients@[j].id);
    }
    assert forall|id: ClientId| hub.has_client(id) implies exists|i: int| 0 <= i < round.len() && (#[trigger] round[i]).0 == id by {
        let k = choose|k: int| 0 <= k < hub.clients.len() && (#[trigger] hub.clients@[k]).id == id;
        assert(round[k].0 == id);
    }
}

/// The sender of a chat line is live when it broadcasts, so the round that
/// carries its line offers the line back to the sender too.
pub proof fn lemma_sender_offered_own_line(hub: &HubState, round: Seq<(ClientId, bool)>, sender: ClientId)
    requires
        hub.wf(),
        hub.is_round(round),
        hub.has_client(sender),
    ensures
        exists|i: int| 0 <= i < round.len() && (#[trigger] round[i]).0 == sender,
{
    lemma_round_offers_once(hub, round);
}

} // verus!
