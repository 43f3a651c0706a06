use vstd::prelude::*;

use crate::lease_based::rotation_pick;
use crate::load_based::is_lowest;
use crate::peer::EntryView;
use crate::registry::{is_live, lemma_filter_subset, live_entries, unique_ids};
use crate::selector::{eligible, peers_of};

verus! {

/// Every row a request may choose from is a row of the registry that is
/// live in the request's namespace and whose peer is not excluded.
pub proof fn lemma_eligible_rows_are_live(s: Seq<EntryView>, ns: u64, now: u64, excluded: Seq<u64>)
    ensures
        forall|j: int|
            0 <= j < eligible(s, ns, now, excluded).len() ==> {
                let e = #[trigger] eligible(s, ns, now, excluded)[j];
                &&& s.contains(e)
                &&& is_live(e, ns, now)
                &&& !excluded.contains(e.peer.id)
            },
{
    let live = live_entries(s, ns, now);
    let pred = |e: EntryView| !excluded.contains(e.peer.id);
    let c = live.filter(pred);
    lemma_filter_subset(s, |e: EntryView| is_live(e, ns, now));
    lemma_filter_subset(live, pred);
    assert forall|j: int| 0 <= j < c.len() implies {
        let e = #[trigger] c[j];
        &&& s.contains(e)
        &&& is_live(e, ns, now)
        &&& !excluded.contains(e.peer.id)
    } by {
        s.filter(|e: EntryView| is_live(e, ns, now)).lemma_filter_pred(pred, j);
        assert(live.contains(c[j]));
        let k = choose|k: int| 0 <= k < live.len() && live[k] == c[j];
        s.lemma_filter_pred(|e: EntryView| is_live(e, ns, now), k);
    }
}

/// A row that has expired by `now`, or that is registered under another
/// namespace, is in no snapshot of `ns` taken at `now`, and neither strategy
/// picks its peer for a request in `ns` at `now`.
pub proof fn lemma_picks_exclude_row(
    s: Seq<EntryView>,
    i: int,
    ns: u64,
    now: u64,
    excluded: Seq<u64>,
    rotation: int,
    replicas: nat,
)
    requires
        unique_ids(s),
        0 <= i < s.len(),
        !is_live(s[i], ns, now),
        rotation >= 0,
    ensures
        forall|j: int|
            0 <= j < live_entries(s, ns, now).len() ==> (#[trigger] live_entries(s, ns, now)[j]).peer.id
                != s[i].peer.id,
        forall|j: int|
            0 <= j < rotation_pick(peers_of(eligible(s, ns, now, excluded)), rotation, replicas).len()
                ==> (#[trigger] rotation_pick(peers_of(eligible(s, ns, now, excluded)), rotation, replicas)[j]).id
                != s[i].peer.id,
        forall|low: Seq<EntryView>, j: int|
            #![trigger is_lowest(low, eligible(s, ns, now, excluded), replicas), low[j]]
            is_lowest(low, eligible(s, ns, now, excluded), replicas) && 0 <= j < low.len()
                ==> low[j].peer.id != s[i].peer.id,
{
    let c = eligible(s, ns, now, excluded);
    lemma_eligible_rows_are_live(s, ns, now, excluded);
    // A row of `s` that carries the peer of `s[i]` is `s[i]` itself.
    assert forall|e: EntryView| s.contains(e) && is_live(e, ns, now) implies e.peer.id != s[i].peer.id by {
        let k = choose|k: int| 0 <= k < s.len() && s[k] == e;
        if e.peer.id == s[i].peer.id {
            assert(s[k].peer.id == s[i].peer.id);
        }
    }
    let live = live_entries(s, ns, now);
    lemma_filter_subset(s, |e: EntryView| is_live(e, ns, now));
    assert forall|j: int| 0 <= j < live.len() implies (#[trigger] live[j]).peer.id != s[i].peer.id by {
        s.lemma_filter_pred(|e: EntryView| is_live(e, ns, now), j);
        assert(s.contains(live[j]));
    }
    assert forall|j: int| 0 <= j < c.len() implies (#[trigger] c[j]).peer.id != s[i].peer.id by {
        assert(s.contains(c[j]) && is_live(c[j], ns, now));
    }
    let pc = peers_of(c);
    if c.len() > 0 {
        let n = c.len() as int;
        assert forall|j: int| 0 <= j < rotation_pick(pc, rotation, replicas).len()
            implies (#[trigger] rotation_pick(pc, rotation, replicas)[j]).id != s[i].peer.id by {
            vstd::arithmetic::div_mod::lemma_mod_pos_bound(rotation + j, n);
            let m = (rotation + j) % n;
            assert(pc[m] == c[m].peer);
        }
    }
    assert forall|low: Seq<EntryView>, j: int|
        #![trigger is_lowest(low, c, replicas), low[j]]
        is_lowest(low, c, replicas) && 0 <= j < low.len() implies low[j].peer.id != s[i].peer.id by {
        assert(c.contains(low[j]));
        let k = choose|k: int| 0 <= k < c.len() && c[k] == low[j];
        assert(c[k].peer.id != s[i].peer.id);
    }
}

/// A namespace with no row alive at `now` offers nothing to choose from, so
/// every strategy reports `NoAvailablePeer` there.
pub proof fn lemma_dead_namespace_has_no_candidates(s: Seq<EntryView>, ns: u64, now: u64, excluded: Seq<u64>)
    requires
        forall|i: int| 0 <= i < s.len() && (#[trigger] s[i]).namespace == ns ==> s[i].lease.expire_time <= now,
    ensures
        eligible(s, ns, now, excluded).len() == 0,
        live_entries(s, ns, now).len() == 0,
{
    lemma_eligible_rows_are_live(s, ns, now, excluded);
    let live = live_entries(s, ns, now);
    lemma_filter_subset(s, |e: EntryView| is_live(e, ns, now));
    if live.len() > 0 {
        s.lemma_filter_pred(|e: EntryView| is_live(e, ns, now), 0);
        assert(s.contains(live[0]));
        let k = choose|k: int| 0 <= k < s.len() && s[k] == live[0];
        assert(s[k].namespace == ns);
    }
    let c = eligible(s, ns, now, excluded);
    if c.len() > 0 {
        assert(s.contains(c[0]) && is_live(c[0], ns, now));
        let k = choose|k: int| 0 <= k < s.len() && s[k] == c[0];
        assert(s[k].namespace == ns);
    }
}

} // verus!
