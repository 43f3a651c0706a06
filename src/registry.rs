use vstd::prelude::*;

use crate::peer::{EntryView, Lease, LeaseEntry, LeaseView, Peer};

verus! {

/// The views of a sequence of registry rows.
pub open spec fn entries_view(v: Seq<LeaseEntry>) -> Seq<EntryView> {
    v.map_values(|e: LeaseEntry| e@)
}

/// No two rows share a peer identity.
pub open spec fn unique_ids(s: Seq<EntryView>) -> bool {
    forall|i: int, j: int|
        0 <= i < s.len() && 0 <= j < s.len() && #[trigger] s[i].peer.id == #[trigger] s[j].peer.id
            ==> i == j
}

/// Some row belongs to peer `id`.
pub open spec fn has_peer(s: Seq<EntryView>, id: u64) -> bool {
    exists|i: int| 0 <= i < s.len() && #[trigger] s[i].peer.id == id
}

/// The position of peer `id`'s row, or -1 where there is none.
pub open spec fn index_of(s: Seq<EntryView>, id: u64) -> int {
    if has_peer(s, id) {
        choose|i: int| 0 <= i < s.len() && #[trigger] s[i].peer.id == id
    } else {
        -1
    }
}

/// The deadline of a lease renewed at `now` for `ttl`, saturated at the
/// largest representable instant.
pub open spec fn deadline(now: u64, ttl: u64) -> u64 {
    if now + ttl > u64::MAX {
        u64::MAX
    } else {
        (now + ttl) as u64
    }
}

/// Whether the registry takes row `e` as a renewal: the peer is new, or the
/// new deadline lies strictly after the recorded one.
pub open spec fn accepts_renewal(s: Seq<EntryView>, e: EntryView) -> bool {
    !has_peer(s, e.peer.id) || s[index_of(s, e.peer.id)].lease.expire_time
        < e.lease.expire_time
}

/// The registry after offering it row `e`: a new peer is appended, an
/// accepted renewal replaces the peer's row in place, anything else is
/// ignored.
pub open spec fn renewed(s: Seq<EntryView>, e: EntryView) -> Seq<EntryView> {
    if !has_peer(s, e.peer.id) {
        s.push(e)
    } else if accepts_renewal(s, e) {
        s.update(index_of(s, e.peer.id), e)
    } else {
        s
    }
}

/// The registry after offering it each row of `es` in turn.
pub open spec fn renewed_all(s: Seq<EntryView>, es: Seq<EntryView>) -> Seq<EntryView>
    decreases es.len(),
{
    if es.len() == 0 {
        s
    } else {
        renewed(renewed_all(s, es.drop_last()), es.last())
    }
}

/// A row that is registered under `ns` and whose lease runs past `now`.
pub open spec fn is_live(e: EntryView, ns: u64, now: u64) -> bool {
    e.namespace == ns && e.lease.expire_time > now
}

/// The rows of namespace `ns` that are alive at `now`, in registry order.
pub open spec fn live_entries(s: Seq<EntryView>, ns: u64, now: u64) -> Seq<EntryView> {
    s.filter(|e: EntryView| is_live(e, ns, now))
}

/// A row whose lease ran out more than `grace` before `now`.
pub open spec fn is_evictable(e: EntryView, now: u64, grace: u64) -> bool {
    e.lease.expire_time + grace < now
}

/// The registry without its evictable rows.
pub open spec fn after_eviction(s: Seq<EntryView>, now: u64, grace: u64) -> Seq<EntryView> {
    s.filter(|e: EntryView| !is_evictable(e, now, grace))
}

/// The recorded deadline of peer `id`.
pub open spec fn expire_of(s: Seq<EntryView>, id: u64) -> u64 {
    s[index_of(s, id)].lease.expire_time
}

/// One renewal keeps identities unique, keeps every known peer, and never
/// moves a recorded deadline earlier.
pub proof fn lemma_renew_never_shortens(s: Seq<EntryView>, e: EntryView)
    requires
        unique_ids(s),
    ensures
        unique_ids(renewed(s, e)),
        forall|id: u64|
            #[trigger] has_peer(s, id) ==> has_peer(renewed(s, e), id) && expire_of(s, id) <= expire_of(
                renewed(s, e),
                id,
            ),
{
    let t = renewed(s, e);
    if !has_peer(s, e.peer.id) {
        assert forall|a: int, b: int|
            0 <= a < t.len() && 0 <= b < t.len() && #[trigger] t[a].peer.id == #[trigger] t[b].peer.id
                implies a == b by {
            if a < s.len() && b < s.len() {
                assert(t[a] == s[a] && t[b] == s[b]);
                assert(s[a].peer.id == s[b].peer.id);
            } else if a < s.len() {
                assert(t[a] == s[a]);
                assert(s[a].peer.id == e.peer.id);
            } else if b < s.len() {
                assert(t[b] == s[b]);
                assert(s[b].peer.id == e.peer.id);
            }
        }
    } else if accepts_renewal(s, e) {
        let p = index_of(s, e.peer.id);
        assert forall|a: int, b: int|
            0 <= a < t.len() && 0 <= b < t.len() && #[trigger] t[a].peer.id == #[trigger] t[b].peer.id
                implies a == b by {
            if a != p && b != p {
                assert(t[a] == s[a] && t[b] == s[b]);
                assert(s[a].peer.id == s[b].peer.id);
            } else if a == p && b != p {
                assert(t[b] == s[b]);
                assert(s[b].peer.id == s[p].peer.id);
            } else if b == p && a != p {
                assert(t[a] == s[a]);
                assert(s[a].peer.id == s[p].peer.id);
            }
        }
    }
    assert forall|id: u64| #[trigger] has_peer(s, id) implies has_peer(t, id) && expire_of(s, id)
        <= expire_of(t, id) by {
        let i = index_of(s, id);
        assert(0 <= i < s.len() && s[i].peer.id == id);
        assert(t[i].peer.id == id);
        assert(has_peer(t, id));
        let j = index_of(t, id);
        assert(t[j].peer.id == t[i].peer.id);
        assert(j == i);
    }
}

/// Renewals applied in any order keep identities unique, keep every known
/// peer, and never move a recorded deadline earlier.
pub proof fn lemma_renewals_never_shorten(s: Seq<EntryView>, es: Seq<EntryView>)
    requires
        unique_ids(s),
    ensures
        unique_ids(renewed_all(s, es)),
        forall|id: u64|
            #[trigger] has_peer(s, id) ==> has_peer(renewed_all(s, es), id) && expire_of(s, id)
                <= expire_of(renewed_all(s, es), id),
    decreases es.len(),
{
    if es.len() > 0 {
        let mid = renewed_all(s, es.drop_last());
        lemma_renewals_never_shorten(s, es.drop_last());
        lemma_renew_never_shortens(mid, es.last());
        assert forall|id: u64| #[trigger] has_peer(s, id) implies has_peer(renewed_all(s, es), id)
            && expire_of(s, id) <= expire_of(renewed_all(s, es), id) by {
            assert(has_peer(mid, id));
        }
    }
}

/// The latest deadline that registry `s` and the renewals `es` give peer
/// `id`: its recorded deadline in `s` (0 where it has none) and the
/// deadlines of the rows of `es` that belong to it, whatever their order.
pub open spec fn latest_deadline(s: Seq<EntryView>, es: Seq<EntryView>, id: u64) -> u64
    decreases es.len(),
{
    if es.len() == 0 {
        if has_peer(s, id) {
            expire_of(s, id)
        } else {
            0
        }
    } else {
        let m = latest_deadline(s, es.drop_last(), id);
        if es.last().peer.id == id && es.last().lease.expire_time > m {
            es.last().lease.expire_time
        } else {
            m
        }
    }
}

/// After renewals arriving in any order, a peer's recorded deadline is the
/// latest deadline it was ever given; a peer the registry does not hold was
/// never given one.
pub proof fn lemma_renewals_keep_latest_deadline(s: Seq<EntryView>, es: Seq<EntryView>, id: u64)
    requires
        unique_ids(s),
    ensures
        has_peer(renewed_all(s, es), id) ==> expire_of(renewed_all(s, es), id) == latest_deadline(
            s,
            es,
            id,
        ),
        !has_peer(renewed_all(s, es), id) ==> latest_deadline(s, es, id) == 0,
    decreases es.len(),
{
    if es.len() > 0 {
        let t = renewed_all(s, es.drop_last());
        let e = es.last();
        let u = renewed(t, e);
        lemma_renewals_keep_latest_deadline(s, es.drop_last(), id);
        lemma_renewals_never_shorten(s, es.drop_last());
        lemma_renew_never_shortens(t, e);
        assert(u == renewed_all(s, es));
        if has_peer(u, id) {
            let i = index_of(u, id);
            assert(0 <= i < u.len() && u[i].peer.id == id);
            if e.peer.id != id {
                if !has_peer(t, e.peer.id) {
                    assert(i < t.len()) by {
                        if i == t.len() {
                            assert(u[i] == e);
                        }
                    }
                    assert(u[i] == t[i]);
                } else if accepts_renewal(t, e) {
                    let p = index_of(t, e.peer.id);
                    assert(i != p) by {
                        if i == p {
                            assert(u[p] == e);
                        }
                    }
                    assert(u[i] == t[i]);
                }
                assert(t[i].peer.id == id);
                assert(has_peer(t, id));
                let j = index_of(t, id);
                assert(t[j].peer.id == t[i].peer.id);
                assert(j == i);
            } else {
                if !has_peer(t, id) {
                    assert(u[t.len() as int].peer.id == id);
                    assert(u[i].peer.id == u[t.len() as int].peer.id);
                    assert(i == t.len());
                } else {
                    let p = index_of(t, id);
                    assert(u[p].peer.id == id);
                    assert(u[i].peer.id == u[p].peer.id);
                    assert(i == p);
                }
            }
        } else {
            assert(e.peer.id != id) by {
                if e.peer.id == id {
                    if !has_peer(t, id) {
                        assert(u[t.len() as int].peer.id == id);
                    } else {
                        assert(has_peer(u, id));
                    }
                }
            }
            assert(!has_peer(t, id));
        }
    }
}

/// A peer registered under `ns` is in the snapshot of `ns` taken at `now`
/// exactly while `now` lies before its recorded deadline.
pub proof fn lemma_snapshot_holds_peer_until_deadline(s: Seq<EntryView>, id: u64, ns: u64, now: u64)
    requires
        has_peer(s, id),
        s[index_of(s, id)].namespace == ns,
    ensures
        live_entries(s, ns, now).contains(s[index_of(s, id)]) <==> now < expire_of(s, id),
{
    let i = index_of(s, id);
    let pred = |e: EntryView| is_live(e, ns, now);
    if now < expire_of(s, id) {
        s.lemma_filter_contains(pred, i);
    } else if live_entries(s, ns, now).contains(s[i]) {
        let j = choose|j: int| 0 <= j < s.filter(pred).len() && s.filter(pred)[j] == s[i];
        s.lemma_filter_pred(pred, j);
    }
}

/// After renewals arriving in any order, a peer registered under `ns` is in
/// the snapshot of `ns` at `now` exactly while `now` lies before the latest
/// deadline it was ever given: a late heartbeat with an earlier deadline
/// never cuts its lease short.
pub proof fn lemma_renewed_peer_live_until_latest(
    s: Seq<EntryView>,
    es: Seq<EntryView>,
    id: u64,
    ns: u64,
    now: u64,
)
    requires
        unique_ids(s),
        has_peer(renewed_all(s, es), id),
        renewed_all(s, es)[index_of(renewed_all(s, es), id)].namespace == ns,
    ensures
        live_entries(renewed_all(s, es), ns, now).contains(
            renewed_all(s, es)[index_of(renewed_all(s, es), id)],
        ) <==> now < latest_deadline(s, es, id),
{
    lemma_renewals_keep_latest_deadline(s, es, id);
    lemma_snapshot_holds_peer_until_deadline(renewed_all(s, es), id, ns, now);
}

/// Filtering a sequence extended by one element.
pub proof fn lemma_filter_push<A>(s: Seq<A>, x: A, pred: spec_fn(A) -> bool)
    ensures
        s.push(x).filter(pred) == (if pred(x) {
            s.filter(pred).push(x)
        } else {
            s.filter(pred)
        }),
{
    reveal(Seq::filter);
    assert(s.push(x).drop_last() =~= s);
}

/// Every element of a filtered sequence is an element of the unfiltered one.
pub proof fn lemma_filter_subset<A>(s: Seq<A>, pred: spec_fn(A) -> bool)
    ensures
        forall|i: int| 0 <= i < s.filter(pred).len() ==> s.contains(#[trigger] s.filter(pred)[i]),
    decreases s.len(),
{
    reveal(Seq::filter);
    if s.len() > 0 {
        lemma_filter_subset(s.drop_last(), pred);
        let f = s.filter(pred);
        let g = s.drop_last().filter(pred);
        assert forall|i: int| 0 <= i < f.len() implies s.contains(#[trigger] f[i]) by {
            if i < g.len() {
                assert(f[i] == g[i]);
                let k = choose|k: int| 0 <= k < s.drop_last().len() && s.drop_last()[k] == g[i];
                assert(s[k] == f[i]);
            } else {
                assert(f[i] == s.last());
                assert(s[s.len() - 1] == f[i]);
            }
        }
    }
}

/// Filtering keeps peer identities unique.
pub proof fn lemma_filter_unique(s: Seq<EntryView>, pred: spec_fn(EntryView) -> bool)
    requires
        unique_ids(s),
    ensures
        unique_ids(s.filter(pred)),
    decreases s.len(),
{
    reveal(Seq::filter);
    if s.len() > 0 {
        let d = s.drop_last();
        assert(unique_ids(d)) by {
            assert forall|i: int, j: int|
                0 <= i < d.len() && 0 <= j < d.len() && #[trigger] d[i].peer.id
                    == #[trigger] d[j].peer.id implies i == j by {
                assert(s[i] == d[i] && s[j] == d[j]);
                assert(s[i].peer.id == s[j].peer.id);
            }
        }
        lemma_filter_unique(d, pred);
        lemma_filter_subset(d, pred);
        let g = d.filter(pred);
        if pred(s.last()) {
            let f = g.push(s.last());
            assert forall|i: int, j: int|
                0 <= i < f.len() && 0 <= j < f.len() && #[trigger] f[i].peer.id
                    == #[trigger] f[j].peer.id implies i == j by {
                if i < g.len() && j == g.len() {
                    assert(d.contains(g[i]));
                    let k = choose|k: int| 0 <= k < d.len() && d[k] == g[i];
                    assert(s[k].peer.id == s[s.len() - 1].peer.id);
                } else if j < g.len() && i == g.len() {
                    assert(d.contains(g[j]));
                    let k = choose|k: int| 0 <= k < d.len() && d[k] == g[j];
                    assert(s[k].peer.id == s[s.len() - 1].peer.id);
                } else if i < g.len() && j < g.len() {
                    assert(f[i] == g[i] && f[j] == g[j]);
                    assert(g[i].peer.id == g[j].peer.id);
                }
            }
        }
    }
}

/// The registry: one row per peer identity, each with its namespace and
/// lease. Rows are kept in the order their peers first registered.
pub struct LeaseRegistry {
    entries: Vec<LeaseEntry>,
}

impl View for LeaseRegistry {
    type V = Seq<EntryView>;

    closed spec fn view(&self) -> Seq<EntryView> {
        entries_view(self.entries@)
    }
}

impl LeaseRegistry {
    #[verifier::type_invariant]
    closed spec fn well_formed(self) -> bool {
        unique_ids(entries_view(self.entries@))
    }

    /// An empty registry.
    pub fn new() -> (r: LeaseRegistry)
        ensures
            r@ == Seq::<EntryView>::empty(),
    {
        let r = LeaseRegistry { entries: Vec::new() };
        assert(r@ =~= Seq::<EntryView>::empty());
        r
    }

    /// A copy of the registry.
    pub fn duplicate(&self) -> (r: LeaseRegistry)
        ensures
            r@ == self@,
    {
        proof {
            use_type_invariant(self);
        }
        let mut entries: Vec<LeaseEntry> = Vec::new();
        let mut i: usize = 0;
        while i < self.entries.len()
            invariant
                i <= self.entries.len(),
                entries@.len() == i,
                entries_view(entries@) == self@.subrange(0, i as int),
            decreases self.entries.len() - i,
        {
            let e = self.entries[i].duplicate();
            assert(e@ == self@[i as int]);
            let ghost before = entries@;
            entries.push(e);
            assert forall|k: int| 0 <= k < i implies #[trigger] entries_view(entries@)[k] == self@[k] by {
                assert(entries@[k] == before[k]);
                assert(entries_view(before)[k] == self@.subrange(0, i as int)[k]);
            }
            i = i + 1;
            assert(entries_view(entries@) =~= self@.subrange(0, i as int));
        }
        assert(self@.subrange(0, i as int) =~= self@);
        LeaseRegistry { entries }
    }

    /// The number of rows, live or not.
    pub fn len(&self) -> (r: usize)
        ensures
            r == self@.len(),
            unique_ids(self@),
    {
        proof {
            use_type_invariant(self);
        }
        self.entries.len()
    }

    /// Records a heartbeat of `peer` under namespace `ns` received at `now`:
    /// its lease is set to run until `now + ttl` (saturated) and its load
    /// figures are replaced, unless that deadline is not later than the one
    /// already recorded, in which case the heartbeat is ignored. Returns
    /// whether it was applied.
    pub fn renew(&mut self, ns: u64, peer: Peer, load_stats: Vec<u64>, ttl: u64, now: u64) -> (applied: bool)
        ensures
            ({
                let e = EntryView {
                    namespace: ns,
                    peer: peer@,
                    lease: LeaseView { expire_time: deadline(now, ttl), load_stats: load_stats@ },
                };
                &&& final(self)@ == renewed(old(self)@, e)
                &&& applied == accepts_renewal(old(self)@, e)
            }),
    {
        proof {
            use_type_invariant(&*self);
        }
        let expire_time = now.saturating_add(ttl);
        let entry = LeaseEntry { namespace: ns, peer, lease: Lease { expire_time, load_stats } };
        let ghost e = entry@;
        let ghost s = self@;
        let mut entries: Vec<LeaseEntry> = Vec::new();
        std::mem::swap(&mut entries, &mut self.entries);
        assert(entries_view(entries@) == s);
        let mut i: usize = 0;
        while i < entries.len() && entries[i].peer.id != entry.peer.id
            invariant
                i <= entries.len(),
                entries_view(entries@) == s,
                e == entry@,
                forall|k: int| 0 <= k < i ==> s[k].peer.id != e.peer.id,
            decreases entries.len() - i,
        {
            assert(s[i as int] == entries@[i as int]@);
            i = i + 1;
        }
        let applied;
        if i == entries.len() {
            assert(!has_peer(s, e.peer.id));
            entries.push(entry);
            applied = true;
            assert(entries_view(entries@) =~= s.push(e));
        } else {
            assert(s[i as int] == entries@[i as int]@);
            assert(s[i as int].peer.id == e.peer.id);
            assert(has_peer(s, e.peer.id));
            assert(index_of(s, e.peer.id) == i);
            if entries[i].lease.expire_time < expire_time {
                entries[i] = entry;
                applied = true;
                assert(entries_view(entries@) =~= s.update(i as int, e));
            } else {
                applied = false;
            }
        }
        proof {
            lemma_renew_never_shortens(s, e);
        }
        self.entries = entries;
        applied
    }

    /// Copies of the rows of namespace `ns` that are alive at `now`, in
    /// registry order.
    pub fn snapshot(&self, ns: u64, now: u64) -> (r: Vec<LeaseEntry>)
        ensures
            entries_view(r@) == live_entries(self@, ns, now),
            unique_ids(self@),
    {
        proof {
            use_type_invariant(self);
        }
        let mut r: Vec<LeaseEntry> = Vec::new();
        let mut i: usize = 0;
        while i < self.entries.len()
            invariant
                i <= self.entries.len(),
                entries_view(r@) == live_entries(self@.subrange(0, i as int), ns, now),
            decreases self.entries.len() - i,
        {
            let ghost prefix = self@.subrange(0, i as int);
            proof {
                assert(self@.subrange(0, i + 1) =~= prefix.push(self@[i as int]));
                lemma_filter_push(prefix, self@[i as int], |e: EntryView| is_live(e, ns, now));
            }
            let e = &self.entries[i];
            if e.namespace == ns && e.lease.expire_time > now {
                let c = e.duplicate();
                r.push(c);
                assert(entries_view(r@) =~= live_entries(prefix, ns, now).push(self@[i as int]));
            } else {
                assert(entries_view(r@) =~= live_entries(prefix, ns, now));
            }
            i = i + 1;
        }
        assert(self@.subrange(0, i as int) =~= self@);
        r
    }

    /// Drops the rows whose lease ran out more than `grace` before `now`,
    /// and returns how many were dropped. Selection never depends on this:
    /// expired rows are filtered out wherever they are read.
    pub fn evict_expired(&mut self, now: u64, grace: u64) -> (count: usize)
        ensures
            final(self)@ == after_eviction(old(self)@, now, grace),
            count == old(self)@.len() - final(self)@.len(),
    {
        proof {
            use_type_invariant(&*self);
        }
        let ghost s = self@;
        let mut kept: Vec<LeaseEntry> = Vec::new();
        let n = self.entries.len();
        let mut i: usize = 0;
        while i < n
            invariant
                i <= n,
                n == s.len(),
                s == self@,
                entries_view(kept@) == after_eviction(s.subrange(0, i as int), now, grace),
                kept.len() <= i,
            decreases n - i,
        {
            let ghost prefix = s.subrange(0, i as int);
            proof {
                assert(s.subrange(0, i + 1) =~= prefix.push(s[i as int]));
                lemma_filter_push(prefix, s[i as int], |e: EntryView| !is_evictable(e, now, grace));
                prefix.lemma_filter_len(
                    |e: EntryView| !is_evictable(e, now, grace),
                );
            }
            let e = &self.entries[i];
            assert(s[i as int] == e@);
            if !(e.lease.expire_time < now && now - e.lease.expire_time > grace) {
                kept.push(e.duplicate());
                assert(entries_view(kept@) =~= after_eviction(prefix, now, grace).push(s[i as int]));
            }
            i = i + 1;
        }
        assert(s.subrange(0, n as int) =~= s);
        proof {
            lemma_filter_unique(s, |e: EntryView| !is_evictable(e, now, grace));
        }
        let count = n - kept.len();
        self.entries = kept;
        count
    }
}

} // verus!
