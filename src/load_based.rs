use vstd::prelude::*;

use crate::error::Error;
use crate::lease_based::granted;
use crate::peer::{load_score, stats_sum, EntryView, Peer};
use crate::registry::{entries_view, unique_ids};
use crate::selector::{
    eligible_in, peers_of, peers_view, Allocation, Namespace, Selector, SelectorContext,
};

verus! {

/// The load-based strategy: picks the least-loaded live peers, lowest
/// score first, with the peer identity breaking ties.
pub struct LoadBasedSelector;

/// The load score of a row.
pub open spec fn score(e: EntryView) -> int {
    stats_sum(e.lease.load_stats)
}

/// `a` is preferred to `b`: a lower score, or the same score and a smaller
/// identity.
pub open spec fn ranks_before(a: EntryView, b: EntryView) -> bool {
    score(a) < score(b) || (score(a) == score(b) && a.peer.id < b.peer.id)
}

/// `r` lists, best first, the `min(k, |c|)` rows of `c` that rank before
/// all the others.
pub open spec fn is_lowest(r: Seq<EntryView>, c: Seq<EntryView>, k: nat) -> bool {
    &&& r.len() == granted(k, c.len())
    &&& forall|i: int, j: int| 0 <= i < j < r.len() ==> ranks_before(#[trigger] r[i], #[trigger] r[j])
    &&& forall|i: int| 0 <= i < r.len() ==> c.contains(#[trigger] r[i])
    &&& forall|x: EntryView, i: int|
        #![trigger c.contains(x), r[i]]
        c.contains(x) && !r.contains(x) && 0 <= i < r.len() ==> ranks_before(r[i], x)
}

/// The outcomes the load-based strategy allows: the peers of the lowest
/// ranked eligible rows, or `NoAvailablePeer` exactly when there are none.
pub open spec fn load_based_outcome(ns: Namespace, ctx: SelectorContext, r: Result<Allocation, Error>) -> bool {
    let c = eligible_in(ctx, ns);
    match r {
        Ok(a) => {
            &&& c.len() > 0
            &&& exists|low: Seq<EntryView>|
                is_lowest(low, c, ctx.replicas as nat) && peers_view(a.peers@) == #[trigger] peers_of(low)
            &&& a.requested == ctx.replicas
        },
        Err(e) => c.len() == 0 && e == Error::NoAvailablePeer { namespace: ns },
    }
}

/// `x` comes after the last pick, keyed by score `ps` and identity `pid`,
/// or nothing was picked yet.
pub open spec fn follows(picked: bool, ps: int, pid: u64, x: EntryView) -> bool {
    !picked || ps < score(x) || (ps == score(x) && pid < x.peer.id)
}

/// Two duplicate-free sequences holding the same elements have the same
/// length.
proof fn lemma_same_elements_same_len(a: Seq<EntryView>, b: Seq<EntryView>)
    requires
        a.no_duplicates(),
        b.no_duplicates(),
        forall|x: EntryView| a.contains(x) <==> b.contains(x),
    ensures
        a.len() == b.len(),
{
    a.unique_seq_to_set();
    b.unique_seq_to_set();
    assert(a.to_set() =~= b.to_set());
}

/// Rows with unique identities are duplicate-free.
proof fn lemma_unique_no_duplicates(c: Seq<EntryView>)
    requires
        unique_ids(c),
    ensures
        c.no_duplicates(),
{
    assert forall|i: int, j: int| 0 <= i < c.len() && 0 <= j < c.len() && i != j implies c[i]
        != c[j] by {
        if c[i] == c[j] {
            assert(c[i].peer.id == c[j].peer.id);
        }
    }
}

/// Where two lowest-load lists agree before position `i`, and the first
/// ranks its `i`-th row no later than the second's, the rows are equal.
proof fn lemma_lowest_step(c: Seq<EntryView>, r1: Seq<EntryView>, r2: Seq<EntryView>, k: nat, i: int)
    requires
        unique_ids(c),
        is_lowest(r1, c, k),
        is_lowest(r2, c, k),
        0 <= i < r1.len(),
        forall|j: int| 0 <= j < i ==> r1[j] == r2[j],
        !ranks_before(r2[i], r1[i]),
    ensures
        r1[i] == r2[i],
{
    let a = r1[i];
    let b = r2[i];
    assert(c.contains(a) && c.contains(b));
    if a != b {
        let ka = choose|x: int| 0 <= x < c.len() && c[x] == a;
        let kb = choose|x: int| 0 <= x < c.len() && c[x] == b;
        assert(c[ka].peer.id != c[kb].peer.id);
        assert(ranks_before(a, b));
        if r2.contains(a) {
            let j = choose|j: int| 0 <= j < r2.len() && r2[j] == a;
            if j < i {
                assert(r1[j] == a);
                assert(ranks_before(r1[j], r1[i]));
            } else if j > i {
                assert(ranks_before(r2[i], r2[j]));
            }
        } else {
            assert(ranks_before(r2[i], a));
        }
    }
}

/// Any two lists that pick the lowest-ranked rows of the same candidates
/// for the same count are equal: the load-based choice is fully determined
/// by the scores, with identities breaking ties.
pub proof fn lemma_lowest_is_unique(c: Seq<EntryView>, r1: Seq<EntryView>, r2: Seq<EntryView>, k: nat)
    requires
        unique_ids(c),
        is_lowest(r1, c, k),
        is_lowest(r2, c, k),
    ensures
        r1 == r2,
{
    lemma_lowest_prefix(c, r1, r2, k, r1.len() as int);
    assert(r1 =~= r2);
}

/// Two lowest-load lists agree on their first `i` rows.
proof fn lemma_lowest_prefix(c: Seq<EntryView>, r1: Seq<EntryView>, r2: Seq<EntryView>, k: nat, i: int)
    requires
        unique_ids(c),
        is_lowest(r1, c, k),
        is_lowest(r2, c, k),
        0 <= i <= r1.len(),
    ensures
        forall|j: int| 0 <= j < i ==> r1[j] == r2[j],
    decreases i,
{
    if i > 0 {
        lemma_lowest_prefix(c, r1, r2, k, i - 1);
        if ranks_before(r2[i - 1], r1[i - 1]) {
            lemma_lowest_step(c, r2, r1, k, i - 1);
        } else {
            lemma_lowest_step(c, r1, r2, k, i - 1);
        }
    }
}

impl Selector for LoadBasedSelector {
    type Context = SelectorContext;
    type Output = Allocation;

    open spec fn selects(&self, ns: Namespace, ctx: SelectorContext, r: Result<Allocation, Error>) -> bool {
        load_based_outcome(ns, ctx, r)
    }

    fn select(&self, ns: Namespace, ctx: &SelectorContext) -> (r: Result<Allocation, Error>) {
        let cands = ctx.candidates(ns);
        let ghost cv = entries_view(cands@);
        let n = cands.len();
        if n == 0 {
            return Err(Error::NoAvailablePeer { namespace: ns });
        }
        let k = if ctx.replicas < n {
            ctx.replicas
        } else {
            n
        };
        let mut scores: Vec<u128> = Vec::new();
        let mut m: usize = 0;
        while m < n
            invariant
                n == cands.len(),
                cv == entries_view(cands@),
                m <= n,
                scores@.len() == m,
                forall|i: int| 0 <= i < m ==> #[trigger] scores@[i] == score(cv[i]),
            decreases n - m,
        {
            assert(cv[m as int] == cands@[m as int]@);
            let s = load_score(&cands[m].lease.load_stats);
            scores.push(s);
            m = m + 1;
        }
        let mut peers: Vec<Peer> = Vec::new();
        let ghost mut chosen: Seq<EntryView> = Seq::empty();
        let mut picked = false;
        let mut prev_score: u128 = 0;
        let mut prev_id: u64 = 0;
        let mut exhausted = false;
        while peers.len() < k && !exhausted
            invariant
                n == cands.len(),
                n == scores@.len(),
                cv == entries_view(cands@),
                cv == eligible_in(*ctx, ns),
                unique_ids(cv),
                forall|i: int| 0 <= i < n ==> #[trigger] scores@[i] == score(cv[i]),
                k == granted(ctx.replicas as nat, n as nat),
                peers@.len() == chosen.len(),
                chosen.len() <= k,
                peers_view(peers@) == peers_of(chosen),
                forall|i: int, j: int| 0 <= i < j < chosen.len() ==> ranks_before(#[trigger] chosen[i], #[trigger] chosen[j]),
                forall|i: int| 0 <= i < chosen.len() ==> cv.contains(#[trigger] chosen[i]),
                picked == (chosen.len() > 0),
                picked ==> prev_score == score(chosen.last()) && prev_id == chosen.last().peer.id,
                forall|x: EntryView| cv.contains(x) && !chosen.contains(x) ==> #[trigger] follows(picked, prev_score as int, prev_id, x),
                exhausted ==> forall|x: EntryView| #[trigger] cv.contains(x) ==> chosen.contains(x),
            decreases k - chosen.len(), if exhausted { 0int } else { 1int },
        {
            let mut found = false;
            let mut best: usize = 0;
            let mut j: usize = 0;
            while j < n
                invariant
                    n == cands.len(),
                    n == scores@.len(),
                    cv == entries_view(cands@),
                    unique_ids(cv),
                    forall|i: int| 0 <= i < n ==> #[trigger] scores@[i] == score(cv[i]),
                    j <= n,
                    best < n,
                    found ==> best < n && follows(picked, prev_score as int, prev_id, cv[best as int]),
                    found ==> forall|i: int| 0 <= i < j && #[trigger] follows(picked, prev_score as int, prev_id, cv[i])
                        ==> cv[i] == cv[best as int] || ranks_before(cv[best as int], cv[i]),
                    !found ==> forall|i: int| 0 <= i < j ==> !#[trigger] follows(picked, prev_score as int, prev_id, cv[i]),
                decreases n - j,
            {
                assert(cv[j as int] == cands@[j as int]@);
                assert(cv[best as int] == cands@[best as int]@);
                let s = scores[j];
                let id = cands[j].peer.id;
                if !picked || prev_score < s || (prev_score == s && prev_id < id) {
                    if !found || s < scores[best] || (s == scores[best] && id < cands[best].peer.id) {
                        found = true;
                        best = j;
                    }
                }
                j = j + 1;
            }
            if found {
                assert(cv[best as int] == cands@[best as int]@);
                let ghost b = cv[best as int];
                let ghost old_chosen = chosen;
                assert(cv.contains(b));
                assert forall|i: int, j2: int| 0 <= i < j2 < old_chosen.len() + 1 implies ranks_before(
                    #[trigger] old_chosen.push(b)[i],
                    #[trigger] old_chosen.push(b)[j2],
                ) by {
                    if j2 == old_chosen.len() {
                        let last = old_chosen.last();
                        if i < old_chosen.len() - 1 {
                            assert(ranks_before(old_chosen[i], last));
                        }
                    }
                }
                assert forall|x: EntryView| cv.contains(x) && !old_chosen.push(b).contains(x) implies #[trigger] follows(
                    true,
                    score(b),
                    b.peer.id,
                    x,
                ) by {
                    if !old_chosen.contains(x) {
                        assert(follows(picked, prev_score as int, prev_id, x));
                        let i = choose|i: int| 0 <= i < cv.len() && cv[i] == x;
                        assert(x != b) by {
                            assert(old_chosen.push(b)[old_chosen.len() as int] == b);
                        }
                        assert(cv[i] == cv[best as int] || ranks_before(cv[best as int], cv[i]));
                    } else {
                        let i = choose|i: int| 0 <= i < old_chosen.len() && old_chosen[i] == x;
                        assert(old_chosen.push(b)[i] == x);
                    }
                }
                proof {
                    chosen = old_chosen.push(b);
                }
                let p = cands[best].peer.duplicate();
                let ghost before = peers@;
                peers.push(p);
                assert forall|i: int| 0 <= i < chosen.len() implies #[trigger] peers_view(peers@)[i] == peers_of(chosen)[i] by {
                    if i < before.len() {
                        assert(peers@[i] == before[i]);
                        assert(peers_view(before)[i] == peers_of(old_chosen)[i]);
                    }
                }
                assert(peers_view(peers@) =~= peers_of(chosen));
                picked = true;
                prev_score = scores[best];
                prev_id = cands[best].peer.id;
                assert forall|x: EntryView| #[trigger] cv.contains(x) && !chosen.contains(x) implies follows(
                    picked,
                    prev_score as int,
                    prev_id,
                    x,
                ) by {
                    assert(follows(true, score(b), b.peer.id, x));
                }
            } else {
                assert forall|x: EntryView| #[trigger] cv.contains(x) implies chosen.contains(x) by {
                    let i = choose|i: int| 0 <= i < cv.len() && cv[i] == x;
                    assert(!follows(picked, prev_score as int, prev_id, cv[i]));
                }
                exhausted = true;
            }
        }
        proof {
            if exhausted {
                lemma_unique_no_duplicates(cv);
                assert(chosen.no_duplicates()) by {
                    assert forall|i: int, j: int| 0 <= i < chosen.len() && 0 <= j < chosen.len() && i != j implies chosen[i] != chosen[j] by {
                        if i < j {
                            assert(ranks_before(chosen[i], chosen[j]));
                        } else {
                            assert(ranks_before(chosen[j], chosen[i]));
                        }
                    }
                }
                lemma_same_elements_same_len(chosen, cv);
            }
            assert forall|x: EntryView, i: int|
                #![trigger cv.contains(x), chosen[i]]
                cv.contains(x) && !chosen.contains(x) && 0 <= i < chosen.len() implies ranks_before(chosen[i], x) by {
                assert(follows(picked, prev_score as int, prev_id, x));
                if i < chosen.len() - 1 {
                    assert(ranks_before(chosen[i], chosen[chosen.len() - 1]));
                }
            }
            assert(is_lowest(chosen, cv, ctx.replicas as nat));
        }
        Ok(Allocation { peers, requested: ctx.replicas })
    }
}

} // verus!
