use vstd::arithmetic::div_mod::{
    lemma_add_mod_noop, lemma_fundamental_div_mod, lemma_mod_multiples_vanish, lemma_mod_pos_bound,
    lemma_mod_sub_multiples_vanish, lemma_small_mod,
};
use vstd::prelude::*;

use crate::error::Error;
use crate::peer::{Peer, PeerView};
use crate::selector::{
    eligible_in, peers_of, peers_view, Allocation, Namespace, Selector, SelectorContext,
};

verus! {

/// The lease-based strategy: ignores load and hands out live peers in
/// rotation, so that successive requests spread evenly over them.
pub struct LeaseBasedSelector;

/// The number of peers a request for `replicas` gets from `n` candidates.
pub open spec fn granted(replicas: nat, n: nat) -> nat {
    if replicas < n {
        replicas
    } else {
        n
    }
}

/// The peers a rotation starting at `rotation` picks from candidates `c`:
/// as many as requested or as there are, taken cyclically from position
/// `rotation mod |c|`.
pub open spec fn rotation_pick(c: Seq<PeerView>, rotation: int, replicas: nat) -> Seq<PeerView> {
    Seq::new(granted(replicas, c.len()), |j: int| c[(rotation + j) % (c.len() as int)])
}

/// The outcomes the lease-based strategy allows: the rotation's pick from
/// the eligible peers, or `NoAvailablePeer` exactly when there are none.
pub open spec fn lease_based_outcome(ns: Namespace, ctx: SelectorContext, r: Result<Allocation, Error>) -> bool {
    let c = peers_of(eligible_in(ctx, ns));
    match r {
        Ok(a) => {
            &&& c.len() > 0
            &&& peers_view(a.peers@) == rotation_pick(c, ctx.rotation as int, ctx.replicas as nat)
            &&& a.requested == ctx.replicas
        },
        Err(e) => c.len() == 0 && e == Error::NoAvailablePeer { namespace: ns },
    }
}

/// Position `rotation + j` wrapped into `0..n`, written without a division.
proof fn lemma_wrapped_index(rotation: int, j: int, n: int)
    requires
        0 < n,
        0 <= rotation,
        0 <= j < n,
    ensures
        (rotation + j) % n == (if rotation % n + j < n {
            rotation % n + j
        } else {
            rotation % n + j - n
        }),
{
    lemma_add_mod_noop(rotation, j, n);
    lemma_small_mod(j as nat, n as nat);
    lemma_mod_pos_bound(rotation, n);
    let a = rotation % n;
    if a + j < n {
        lemma_small_mod((a + j) as nat, n as nat);
    } else {
        lemma_mod_sub_multiples_vanish(a + j, n);
        lemma_small_mod((a + j - n) as nat, n as nat);
    }
}

impl Selector for LeaseBasedSelector {
    type Context = SelectorContext;
    type Output = Allocation;

    open spec fn selects(&self, ns: Namespace, ctx: SelectorContext, r: Result<Allocation, Error>) -> bool {
        lease_based_outcome(ns, ctx, r)
    }

    fn select(&self, ns: Namespace, ctx: &SelectorContext) -> (r: Result<Allocation, Error>) {
        let cands = ctx.candidates(ns);
        let ghost c = peers_of(eligible_in(*ctx, ns));
        let n = cands.len();
        if n == 0 {
            return Err(Error::NoAvailablePeer { namespace: ns });
        }
        let k = if ctx.replicas < n {
            ctx.replicas
        } else {
            n
        };
        let start = (ctx.rotation % (n as u64)) as usize;
        let mut peers: Vec<Peer> = Vec::new();
        let mut j: usize = 0;
        while j < k
            invariant
                0 < n,
                n == cands.len(),
                k == granted(ctx.replicas as nat, n as nat),
                start == (ctx.rotation as int) % (n as int),
                c.len() == n,
                forall|m: int| 0 <= m < n ==> c[m] == #[trigger] cands@[m].peer@,
                j <= k,
                peers@.len() == j,
                rotation_pick(c, ctx.rotation as int, ctx.replicas as nat).len() == k,
                peers_view(peers@) == rotation_pick(c, ctx.rotation as int, ctx.replicas as nat).subrange(0, j as int),
            decreases k - j,
        {
            proof {
                lemma_wrapped_index(ctx.rotation as int, j as int, n as int);
            }
            let idx = if j < n - start {
                start + j
            } else {
                j - (n - start)
            };
            assert(idx == (ctx.rotation as int + j as int) % (n as int));
            let p = cands[idx].peer.duplicate();
            assert(p@ == c[idx as int]);
            let ghost rp = rotation_pick(c, ctx.rotation as int, ctx.replicas as nat);
            assert(rp[j as int] == p@);
            let ghost before = peers@;
            peers.push(p);
            assert(peers@ == before.push(p));
            assert forall|m: int| 0 <= m < j implies #[trigger] peers_view(peers@)[m] == rp[m] by {
                assert(peers@[m] == before[m]);
                assert(peers_view(before)[m] == rp.subrange(0, j as int)[m]);
            }
            j = j + 1;
            assert(peers_view(peers@) =~= rp.subrange(0, j as int));
        }
        assert(rotation_pick(c, ctx.rotation as int, ctx.replicas as nat).subrange(0, j as int)
            =~= rotation_pick(c, ctx.rotation as int, ctx.replicas as nat));
        Ok(Allocation { peers, requested: ctx.replicas })
    }
}

/// Fairness of the rotation: over any `|c|` consecutive rotations, every
/// candidate is picked first by one of them, and no two of them pick the
/// same candidate first. So callers that advance the rotation by one per
/// request see each live peer lead exactly once per round.
pub proof fn lemma_rotation_fair(c: Seq<PeerView>, start: int, replicas: nat)
    requires
        c.len() > 0,
        c.no_duplicates(),
        start >= 0,
        replicas > 0,
    ensures
        forall|j: int|
            #![trigger c[j]]
            0 <= j < c.len() ==> exists|t: int|
                #![trigger rotation_pick(c, t, replicas)]
                start <= t < start + c.len() && rotation_pick(c, t, replicas)[0] == c[j],
        forall|t1: int, t2: int|
            start <= t1 < start + c.len() && start <= t2 < start + c.len()
                && #[trigger] rotation_pick(c, t1, replicas)[0] == #[trigger] rotation_pick(c, t2, replicas)[0]
                ==> t1 == t2,
{
    let n = c.len() as int;
    lemma_fundamental_div_mod(start, n);
    lemma_mod_pos_bound(start, n);
    let q = start / n;
    let a = start % n;
    assert forall|t: int| t >= 0 implies #[trigger] rotation_pick(c, t, replicas)[0] == c[t % n] by {
        lemma_mod_pos_bound(t, n);
    }
    assert forall|j: int| #![trigger c[j]] 0 <= j < c.len() implies exists|t: int|
        #![trigger rotation_pick(c, t, replicas)]
        start <= t < start + c.len() && rotation_pick(c, t, replicas)[0] == c[j] by {
        let t = if j >= a {
            start + (j - a)
        } else {
            start + (n - a + j)
        };
        if j >= a {
            assert(t == n * q + j);
            lemma_mod_multiples_vanish(q, j, n);
        } else {
            assert(t == n * (q + 1) + j) by (nonlinear_arith)
                requires
                    t == start + (n - a + j),
                    start == n * q + a,
            ;
            lemma_mod_multiples_vanish(q + 1, j, n);
        }
        lemma_small_mod(j as nat, n as nat);
        assert(t % n == j);
        assert(start <= t < start + c.len() && rotation_pick(c, t, replicas)[0] == c[j]);
    }
    assert forall|t1: int, t2: int|
        start <= t1 < start + c.len() && start <= t2 < start + c.len()
            && #[trigger] rotation_pick(c, t1, replicas)[0] == #[trigger] rotation_pick(c, t2, replicas)[0]
            implies t1 == t2 by {
        lemma_mod_pos_bound(t1, n);
        lemma_mod_pos_bound(t2, n);
        assert(rotation_pick(c, t1, replicas)[0] == c[t1 % n]);
        assert(rotation_pick(c, t2, replicas)[0] == c[t2 % n]);
        assert(c[t1 % n] == c[t2 % n]);
        assert(t1 % n == t2 % n);
        lemma_fundamental_div_mod(t1, n);
        lemma_fundamental_div_mod(t2, n);
        let q1 = t1 / n;
        let q2 = t2 / n;
        assert(t1 - t2 == n * (q1 - q2)) by (nonlinear_arith)
            requires
                t1 == n * q1 + t1 % n,
                t2 == n * q2 + t2 % n,
                t1 % n == t2 % n,
        ;
        assert(t1 - t2 < n && t2 - t1 < n);
        if q1 > q2 {
            assert(n * (q1 - q2) >= n) by (nonlinear_arith)
                requires
                    q1 - q2 >= 1,
                    n > 0,
            ;
            assert(false);
        } else if q1 < q2 {
            assert(n * (q2 - q1) >= n) by (nonlinear_arith)
                requires
                    q2 - q1 >= 1,
                    n > 0,
            ;
            assert(t2 - t1 == n * (q2 - q1)) by (nonlinear_arith)
                requires
                    t1 - t2 == n * (q1 - q2),
            ;
            assert(false);
        } else {
            assert(n * (q1 - q2) == 0) by (nonlinear_arith)
                requires
                    q1 == q2,
            ;
        }
    }
}

/// How many of the `m` rotations `start, start + 1, ..` put candidate
/// `c[j]` first.
pub open spec fn lead_count(c: Seq<PeerView>, start: int, m: nat, replicas: nat, j: int) -> nat
    decreases m,
{
    if m == 0 {
        0
    } else {
        lead_count(c, start, (m - 1) as nat, replicas, j) + (if rotation_pick(
            c,
            start + m - 1,
            replicas,
        )[0] == c[j] {
            1nat
        } else {
            0nat
        })
    }
}

/// Counting over `a + w` rotations is counting over the first `a` and then
/// over the next `w`.
proof fn lemma_lead_count_split(c: Seq<PeerView>, start: int, a: nat, w: nat, replicas: nat, j: int)
    ensures
        lead_count(c, start, a + w, replicas, j) == lead_count(c, start, a, replicas, j)
            + lead_count(c, start + a, w, replicas, j),
    decreases w,
{
    if w > 0 {
        lemma_lead_count_split(c, start, a, (w - 1) as nat, replicas, j);
        assert((a + w - 1) as nat == a + (w - 1) as nat);
    }
}

/// In a window of rotations where at most one puts `c[j]` first, the count
/// is 1 exactly when one does.
proof fn lemma_lead_count_window(c: Seq<PeerView>, b: int, w: nat, replicas: nat, j: int)
    requires
        forall|t1: int, t2: int|
            b <= t1 < b + w && b <= t2 < b + w && #[trigger] rotation_pick(c, t1, replicas)[0] == c[j]
                && #[trigger] rotation_pick(c, t2, replicas)[0] == c[j] ==> t1 == t2,
    ensures
        lead_count(c, b, w, replicas, j) <= 1,
        lead_count(c, b, w, replicas, j) == 1 <==> exists|t: int|
            b <= t < b + w && #[trigger] rotation_pick(c, t, replicas)[0] == c[j],
    decreases w,
{
    if w > 0 {
        lemma_lead_count_window(c, b, (w - 1) as nat, replicas, j);
        let last = b + w - 1;
        if rotation_pick(c, last, replicas)[0] == c[j] {
            if lead_count(c, b, (w - 1) as nat, replicas, j) == 1 {
                let t = choose|t: int| b <= t < b + (w - 1) && #[trigger] rotation_pick(c, t, replicas)[0] == c[j];
                assert(t == last);
            }
        } else {
            assert forall|t: int| b <= t < b + w && #[trigger] rotation_pick(c, t, replicas)[0] == c[j]
                implies b <= t < b + (w - 1) by {}
        }
    }
}

/// Fairness over any number of requests: among `m` consecutive rotations,
/// each of the `|c|` candidates comes first between `m / |c|` and
/// `m / |c|` rounded up times.
pub proof fn lemma_rotation_frequency(c: Seq<PeerView>, start: int, m: nat, replicas: nat, j: int)
    requires
        c.len() > 0,
        c.no_duplicates(),
        start >= 0,
        replicas > 0,
        0 <= j < c.len(),
    ensures
        m as int / c.len() as int <= lead_count(c, start, m, replicas, j) <= (m + c.len() - 1) as int
            / c.len() as int,
    decreases m,
{
    let n = c.len() as int;
    if m < n {
        // At most one rotation of this window puts `c[j]` first.
        lemma_rotation_fair(c, start, replicas);
        assert forall|t1: int, t2: int|
            start <= t1 < start + m && start <= t2 < start + m && #[trigger] rotation_pick(c, t1, replicas)[0]
                == c[j] && #[trigger] rotation_pick(c, t2, replicas)[0] == c[j] implies t1 == t2 by {}
        lemma_lead_count_window(c, start, m, replicas, j);
        lemma_small_mod(m as nat, n as nat);
        vstd::arithmetic::div_mod::lemma_basic_div(m as int, n);
        if m > 0 {
            vstd::arithmetic::div_mod::lemma_div_pos_is_pos(m + n - 1, n);
            assert((m + n - 1) / n >= 1) by {
                vstd::arithmetic::div_mod::lemma_div_by_self(n);
                vstd::arithmetic::div_mod::lemma_div_is_ordered(n, m + n - 1, n);
            }
        } else {
            assert(lead_count(c, start, m, replicas, j) == 0);
        }
    } else {
        let rest = (m - n) as nat;
        lemma_rotation_frequency(c, start, rest, replicas, j);
        lemma_lead_count_split(c, start, rest, n as nat, replicas, j);
        // The last `|c|` rotations put `c[j]` first exactly once.
        lemma_rotation_fair(c, start + rest, replicas);
        assert(exists|t: int| start + rest <= t < start + rest + n && #[trigger] rotation_pick(c, t, replicas)[0]
            == c[j]);
        lemma_lead_count_window(c, start + rest, n as nat, replicas, j);
        vstd::arithmetic::div_mod::lemma_div_plus_one(rest as int, n);
        vstd::arithmetic::div_mod::lemma_div_plus_one((rest + n - 1) as int, n);
        assert(rest + n == m);
    }
}

} // verus!
