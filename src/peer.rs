use vstd::prelude::*;

verus! {

/// Identity and address of a worker node.
#[derive(Debug)]
pub struct Peer {
    pub id: u64,
    pub addr: String,
}

/// Mathematical view of a [`Peer`].
pub struct PeerView {
    pub id: u64,
    pub addr: Seq<char>,
}

impl View for Peer {
    type V = PeerView;

    open spec fn view(&self) -> PeerView {
        PeerView { id: self.id, addr: self.addr@ }
    }
}

impl Peer {
    pub fn new(id: u64, addr: String) -> (r: Peer)
        ensures
            r.id == id,
            r.addr@ == addr@,
    {
        Peer { id, addr }
    }

    /// A copy of this peer.
    pub fn duplicate(&self) -> (r: Peer)
        ensures
            r@ == self@,
    {
        Peer { id: self.id, addr: self.addr.clone() }
    }
}

/// Liveness and load record of one peer.
#[derive(Debug)]
pub struct Lease {
    /// Deadline (in milliseconds) after which the peer counts as dead.
    pub expire_time: u64,
    /// Load figures reported by the peer's last accepted heartbeat.
    pub load_stats: Vec<u64>,
}

/// Mathematical view of a [`Lease`].
pub struct LeaseView {
    pub expire_time: u64,
    pub load_stats: Seq<u64>,
}

impl View for Lease {
    type V = LeaseView;

    open spec fn view(&self) -> LeaseView {
        LeaseView { expire_time: self.expire_time, load_stats: self.load_stats@ }
    }
}

/// The sum of a sequence of load figures.
pub open spec fn stats_sum(s: Seq<u64>) -> int
    decreases s.len(),
{
    if s.len() == 0 {
        0
    } else {
        stats_sum(s.drop_last()) + s.last()
    }
}

/// A copy of a sequence of load figures.
fn copy_stats(v: &Vec<u64>) -> (r: Vec<u64>)
    ensures
        r@ == v@,
{
    let mut r: Vec<u64> = Vec::with_capacity(v.len());
    let mut i: usize = 0;
    while i < v.len()
        invariant
            i <= v.len(),
            r@ == v@.subrange(0, i as int),
        decreases v.len() - i,
    {
        r.push(v[i]);
        i = i + 1;
        assert(r@ =~= v@.subrange(0, i as int));
    }
    assert(r@ =~= v@);
    r
}

impl Lease {
    pub fn new(expire_time: u64, load_stats: Vec<u64>) -> (r: Lease)
        ensures
            r.expire_time == expire_time,
            r.load_stats@ == load_stats@,
    {
        Lease { expire_time, load_stats }
    }

    /// A copy of this lease.
    pub fn duplicate(&self) -> (r: Lease)
        ensures
            r@ == self@,
    {
        Lease { expire_time: self.expire_time, load_stats: copy_stats(&self.load_stats) }
    }
}

/// The scalar load of a peer: the sum of its load figures. Lower means more
/// spare capacity.
pub fn load_score(stats: &Vec<u64>) -> (r: u128)
    ensures
        r == stats_sum(stats@),
{
    let mut total: u128 = 0;
    let mut i: usize = 0;
    while i < stats.len()
        invariant
            i <= stats.len(),
            total == stats_sum(stats@.subrange(0, i as int)),
            total <= i * 0xffff_ffff_ffff_ffffu128,
        decreases stats.len() - i,
    {
        assert(stats@.subrange(0, i + 1).drop_last() =~= stats@.subrange(0, i as int));
        total = total + stats[i] as u128;
        i = i + 1;
    }
    assert(stats@.subrange(0, i as int) =~= stats@);
    total
}

/// A registry row: a peer, the namespace it registered under, and its lease.
#[derive(Debug)]
pub struct LeaseEntry {
    pub namespace: u64,
    pub peer: Peer,
    pub lease: Lease,
}

/// Mathematical view of a [`LeaseEntry`].
pub struct EntryView {
    pub namespace: u64,
    pub peer: PeerView,
    pub lease: LeaseView,
}

impl View for LeaseEntry {
    type V = EntryView;

    open spec fn view(&self) -> EntryView {
        EntryView { namespace: self.namespace, peer: self.peer@, lease: self.lease@ }
    }
}

impl LeaseEntry {
    /// A copy of this entry.
    pub fn duplicate(&self) -> (r: LeaseEntry)
        ensures
            r@ == self@,
    {
        LeaseEntry {
            namespace: self.namespace,
            peer: self.peer.duplicate(),
            lease: self.lease.duplicate(),
        }
    }
}

} // verus!
