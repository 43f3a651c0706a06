use std::sync::Arc;

use vstd::prelude::*;

use crate::error::Error;
use crate::lease_based::LeaseBasedSelector;
use crate::load_based::LoadBasedSelector;
use crate::peer::{EntryView, LeaseEntry, Peer, PeerView};
use crate::selector_type::SelectorType;
use crate::registry::{
    entries_view, is_live, lemma_filter_push, lemma_filter_unique, live_entries,
    unique_ids, LeaseRegistry,
};

verus! {

/// The scope that partitions peers between clusters or tenants.
pub type Namespace = u64;

/// A placement strategy: picks peers of one namespace for a request.
pub trait Selector {
    type Context;
    type Output;

    /// Whether `r` is an outcome this strategy allows for a request in `ns`
    /// with context `ctx`.
    spec fn selects(&self, ns: Namespace, ctx: Self::Context, r: Result<Self::Output, Error>) -> bool;

    /// Picks peers for a request in `ns`. Never changes the registry.
    fn select(&self, ns: Namespace, ctx: &Self::Context) -> (r: Result<Self::Output, Error>)
        ensures
            self.selects(ns, *ctx, r),
    ;
}

/// What a selection request carries besides its namespace.
pub struct SelectorContext {
    /// The registry to read peers from.
    pub registry: Arc<LeaseRegistry>,
    /// The time of the request, in the registry's clock.
    pub now: u64,
    /// How many peers are wanted.
    pub replicas: usize,
    /// Peers that must not be chosen (for instance, those already holding
    /// a copy of the region being placed).
    pub excluded: Vec<u64>,
    /// Where the rotation of the lease-based strategy starts; callers
    /// advance it by one per request.
    pub rotation: u64,
}

/// The rows a request may choose from: live rows of `ns` whose peer is not
/// excluded, in registry order.
pub open spec fn eligible(s: Seq<EntryView>, ns: u64, now: u64, excluded: Seq<u64>) -> Seq<EntryView> {
    live_entries(s, ns, now).filter(|e: EntryView| !excluded.contains(e.peer.id))
}

/// The rows that context `ctx` lets a request in `ns` choose from.
pub open spec fn eligible_in(ctx: SelectorContext, ns: u64) -> Seq<EntryView> {
    eligible(ctx.registry@, ns, ctx.now, ctx.excluded@)
}

/// The peers of a sequence of rows.
pub open spec fn peers_of(s: Seq<EntryView>) -> Seq<PeerView> {
    s.map_values(|e: EntryView| e.peer)
}

/// The views of a sequence of peers.
pub open spec fn peers_view(v: Seq<Peer>) -> Seq<PeerView> {
    v.map_values(|p: Peer| p@)
}

/// Peers chosen for one request, and how many were asked for.
#[derive(Debug)]
pub struct Allocation {
    pub peers: Vec<Peer>,
    pub requested: usize,
}

impl Allocation {
    /// Fewer peers were chosen than requested.
    pub fn is_partial(&self) -> (r: bool)
        ensures
            r == (self.peers.len() < self.requested),
    {
        self.peers.len() < self.requested
    }

    /// The number of peers chosen.
    pub fn len(&self) -> (r: usize)
        ensures
            r == self.peers.len(),
    {
        self.peers.len()
    }
}

/// Whether `id` occurs in `v`.
fn contains_id(v: &Vec<u64>, id: u64) -> (r: bool)
    ensures
        r == v@.contains(id),
{
    let mut i: usize = 0;
    while i < v.len()
        invariant
            i <= v.len(),
            forall|k: int| 0 <= k < i ==> v@[k] != id,
        decreases v.len() - i,
    {
        if v[i] == id {
            assert(v@[i as int] == id);
            return true;
        }
        i = i + 1;
    }
    false
}

impl SelectorContext {
    pub fn new(registry: Arc<LeaseRegistry>, now: u64, replicas: usize, excluded: Vec<u64>, rotation: u64) -> (r: SelectorContext)
        ensures
            r.registry@ == registry@,
            r.now == now,
            r.replicas == replicas,
            r.excluded@ == excluded@,
            r.rotation == rotation,
    {
        SelectorContext { registry, now, replicas, excluded, rotation }
    }

    /// Copies of the rows a request in `ns` may choose from.
    pub fn candidates(&self, ns: Namespace) -> (r: Vec<LeaseEntry>)
        ensures
            entries_view(r@) == eligible_in(*self, ns),
            unique_ids(entries_view(r@)),
    {
        let live = self.registry.snapshot(ns, self.now);
        let ghost lv = entries_view(live@);
        let ghost pred = |e: EntryView| !self.excluded@.contains(e.peer.id);
        let mut r: Vec<LeaseEntry> = Vec::new();
        let mut i: usize = 0;
        while i < live.len()
            invariant
                i <= live.len(),
                lv == entries_view(live@),
                lv == live_entries(self.registry@, ns, self.now),
                pred == (|e: EntryView| !self.excluded@.contains(e.peer.id)),
                entries_view(r@) == lv.subrange(0, i as int).filter(pred),
            decreases live.len() - i,
        {
            let ghost prefix = lv.subrange(0, i as int);
            proof {
                assert(lv.subrange(0, i + 1) =~= prefix.push(lv[i as int]));
                lemma_filter_push(prefix, lv[i as int], pred);
            }
            let e = &live[i];
            assert(lv[i as int] == e@);
            if !contains_id(&self.excluded, e.peer.id) {
                r.push(e.duplicate());
                assert(entries_view(r@) =~= prefix.filter(pred).push(lv[i as int]));
            }
            i = i + 1;
        }
        assert(lv.subrange(0, i as int) =~= lv);
        proof {
            lemma_filter_unique(self.registry@, |e: EntryView| is_live(e, ns, self.now));
            lemma_filter_unique(lv, pred);
        }
        r
    }
}

/// A strategy chosen from configuration at startup.
pub enum AnySelector {
    LoadBased(LoadBasedSelector),
    LeaseBased(LeaseBasedSelector),
}

impl AnySelector {
    /// The configured strategy this selector runs.
    pub fn selector_type(&self) -> (r: SelectorType)
        ensures
            r == (match self {
                AnySelector::LoadBased(_) => SelectorType::LoadBased,
                AnySelector::LeaseBased(_) => SelectorType::LeaseBased,
            }),
    {
        match self {
            AnySelector::LoadBased(_) => SelectorType::LoadBased,
            AnySelector::LeaseBased(_) => SelectorType::LeaseBased,
        }
    }
}

impl From<SelectorType> for AnySelector {
    fn from(selector_type: SelectorType) -> (r: AnySelector) {
        match selector_type {
            SelectorType::LoadBased => AnySelector::LoadBased(LoadBasedSelector),
            SelectorType::LeaseBased => AnySelector::LeaseBased(LeaseBasedSelector),
        }
    }
}

impl vstd::std_specs::convert::FromSpecImpl<SelectorType> for AnySelector {
    open spec fn obeys_from_spec() -> bool {
        true
    }

    open spec fn from_spec(selector_type: SelectorType) -> AnySelector {
        match selector_type {
            SelectorType::LoadBased => AnySelector::LoadBased(LoadBasedSelector),
            SelectorType::LeaseBased => AnySelector::LeaseBased(LeaseBasedSelector),
        }
    }
}

impl Selector for AnySelector {
    type Context = SelectorContext;
    type Output = Allocation;

    open spec fn selects(&self, ns: Namespace, ctx: SelectorContext, r: Result<Allocation, Error>) -> bool {
        match self {
            AnySelector::LoadBased(s) => s.selects(ns, ctx, r),
            AnySelector::LeaseBased(s) => s.selects(ns, ctx, r),
        }
    }

    fn select(&self, ns: Namespace, ctx: &SelectorContext) -> (r: Result<Allocation, Error>) {
        match self {
            AnySelector::LoadBased(s) => s.select(ns, ctx),
            AnySelector::LeaseBased(s) => s.select(ns, ctx),
        }
    }
}

} // verus!
