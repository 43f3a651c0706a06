use std::sync::Arc;

use meta_select::{
    AnySelector, Error, LeaseBasedSelector, LeaseRegistry, LoadBasedSelector, Peer, Selector,
    SelectorContext, SelectorType,
};

fn peer(id: u64) -> Peer {
    Peer::new(id, format!("node-{id}"))
}

fn ctx(reg: &Arc<LeaseRegistry>, now: u64, replicas: usize, excluded: Vec<u64>, rotation: u64) -> SelectorContext {
    SelectorContext::new(reg.clone(), now, replicas, excluded, rotation)
}

fn chosen(r: &meta_select::Allocation) -> Vec<u64> {
    r.peers.iter().map(|p| p.id).collect()
}

#[test]
fn load_based_picks_the_two_least_loaded() {
    // A: score 5, B: score 2, C: score 9.
    let (a, b, c) = (1, 2, 3);
    let mut reg = LeaseRegistry::new();
    reg.renew(1, peer(a), vec![5], 10_000, 0);
    reg.renew(1, peer(b), vec![2], 10_000, 0);
    reg.renew(1, peer(c), vec![4, 5], 10_000, 0);
    let reg = Arc::new(reg);
    let out = LoadBasedSelector.select(1, &ctx(&reg, 100, 2, vec![], 0)).unwrap();
    assert_eq!(chosen(&out), vec![b, a]);
    assert!(!out.is_partial());
}

#[test]
fn load_based_breaks_ties_by_identity() {
    let mut reg = LeaseRegistry::new();
    reg.renew(1, peer(9), vec![3], 10_000, 0);
    reg.renew(1, peer(4), vec![1, 2], 10_000, 0);
    reg.renew(1, peer(6), vec![3], 10_000, 0);
    reg.renew(1, peer(2), vec![7], 10_000, 0);
    let reg = Arc::new(reg);
    let out = LoadBasedSelector.select(1, &ctx(&reg, 0, 4, vec![], 0)).unwrap();
    assert_eq!(chosen(&out), vec![4, 6, 9, 2]);
}

#[test]
fn load_based_skips_expired_and_excluded_peers() {
    let mut reg = LeaseRegistry::new();
    reg.renew(1, peer(1), vec![0], 1_000, 0);
    reg.renew(1, peer(2), vec![1], 10_000, 0);
    reg.renew(1, peer(3), vec![2], 10_000, 0);
    reg.renew(1, peer(4), vec![3], 10_000, 0);
    reg.renew(2, peer(5), vec![0], 10_000, 0);
    let reg = Arc::new(reg);
    let out = LoadBasedSelector.select(1, &ctx(&reg, 2_000, 2, vec![2], 0)).unwrap();
    assert_eq!(chosen(&out), vec![3, 4]);
}

#[test]
fn partial_allocation_is_signalled() {
    let mut reg = LeaseRegistry::new();
    reg.renew(1, peer(1), vec![2], 10_000, 0);
    reg.renew(1, peer(2), vec![1], 10_000, 0);
    let reg = Arc::new(reg);
    let out = LoadBasedSelector.select(1, &ctx(&reg, 0, 5, vec![], 0)).unwrap();
    assert_eq!(chosen(&out), vec![2, 1]);
    assert!(out.is_partial());
    assert_eq!(out.requested, 5);
    let out = LeaseBasedSelector.select(1, &ctx(&reg, 0, 5, vec![], 0)).unwrap();
    assert_eq!(out.len(), 2);
    assert!(out.is_partial());
}

#[test]
fn empty_namespace_has_no_available_peer() {
    let mut reg = LeaseRegistry::new();
    reg.renew(1, peer(1), vec![], 10_000, 0);
    let reg = Arc::new(reg);
    let c = ctx(&reg, 0, 1, vec![], 0);
    assert!(matches!(
        LeaseBasedSelector.select(7, &c),
        Err(Error::NoAvailablePeer { namespace: 7 })
    ));
    assert!(matches!(
        LoadBasedSelector.select(7, &c),
        Err(Error::NoAvailablePeer { namespace: 7 })
    ));
}

#[test]
fn fully_expired_namespace_has_no_available_peer() {
    let mut reg = LeaseRegistry::new();
    reg.renew(1, peer(1), vec![], 10_000, 0);
    reg.renew(1, peer(2), vec![], 5_000, 0);
    let reg = Arc::new(reg);
    let c = ctx(&reg, 10_000, 1, vec![], 0);
    let e = LeaseBasedSelector.select(1, &c).unwrap_err();
    assert!(e.is_no_available_peer());
    let e = LoadBasedSelector.select(1, &c).unwrap_err();
    assert!(e.is_no_available_peer());
    // Excluding every live peer empties the set as well.
    let c = ctx(&reg, 0, 1, vec![1, 2], 0);
    assert!(LoadBasedSelector.select(1, &c).unwrap_err().is_no_available_peer());
}

#[test]
fn lease_based_rotates_through_live_peers() {
    let mut reg = LeaseRegistry::new();
    for id in [10, 20, 30] {
        reg.renew(1, peer(id), vec![id], 10_000, 0);
    }
    let reg = Arc::new(reg);
    let out = LeaseBasedSelector.select(1, &ctx(&reg, 0, 2, vec![], 0)).unwrap();
    assert_eq!(chosen(&out), vec![10, 20]);
    let out = LeaseBasedSelector.select(1, &ctx(&reg, 0, 2, vec![], 2)).unwrap();
    assert_eq!(chosen(&out), vec![30, 10]);
    let out = LeaseBasedSelector.select(1, &ctx(&reg, 0, 3, vec![], 4)).unwrap();
    assert_eq!(chosen(&out), vec![20, 30, 10]);
    let out = LeaseBasedSelector.select(1, &ctx(&reg, 0, 1, vec![20], 1)).unwrap();
    assert_eq!(chosen(&out), vec![30]);
}

#[test]
fn lease_based_spreads_requests_evenly() {
    let mut reg = LeaseRegistry::new();
    for id in 1..=4 {
        reg.renew(1, peer(id), vec![100 * id], 10_000, 0);
    }
    let reg = Arc::new(reg);
    let mut counts = [0usize; 5];
    for rotation in 0..1_000u64 {
        let out = LeaseBasedSelector.select(1, &ctx(&reg, 0, 1, vec![], rotation)).unwrap();
        counts[out.peers[0].id as usize] += 1;
    }
    assert_eq!(&counts[1..], &[250, 250, 250, 250]);
}

#[test]
fn configured_selector_dispatches() {
    let mut reg = LeaseRegistry::new();
    reg.renew(1, peer(1), vec![9], 10_000, 0);
    reg.renew(1, peer(2), vec![1], 10_000, 0);
    let reg = Arc::new(reg);
    let c = ctx(&reg, 0, 1, vec![], 0);
    let load = AnySelector::from(SelectorType::LoadBased);
    assert_eq!(chosen(&load.select(1, &c).unwrap()), vec![2]);
    let lease = AnySelector::from(SelectorType::default());
    assert_eq!(chosen(&lease.select(1, &c).unwrap()), vec![1]);
}

#[test]
fn lease_based_counts_differ_by_at_most_one() {
    let mut reg = LeaseRegistry::new();
    for id in 1..=3 {
        reg.renew(1, peer(id), vec![], 10_000, 0);
    }
    let reg = Arc::new(reg);
    let mut counts = [0usize; 4];
    for rotation in 5..15u64 {
        let out = LeaseBasedSelector.select(1, &ctx(&reg, 0, 1, vec![], rotation)).unwrap();
        counts[out.peers[0].id as usize] += 1;
    }
    // Ten requests over three peers: 4, 3, 3 in some order.
    let mut c = counts[1..].to_vec();
    c.sort();
    assert_eq!(c, vec![3, 3, 4]);
}

#[test]
fn reordered_heartbeats_keep_the_latest_deadline_for_selection() {
    let mut reg = LeaseRegistry::new();
    reg.renew(1, peer(1), vec![], 10_000, 30_000); // deadline 40 000
    reg.renew(1, peer(1), vec![], 10_000, 10_000); // late, deadline 20 000
    reg.renew(1, peer(2), vec![], 100_000, 0);
    let reg = Arc::new(reg);
    let out = LoadBasedSelector.select(1, &ctx(&reg, 39_999, 2, vec![], 0)).unwrap();
    assert!(chosen(&out).contains(&1));
    let out = LoadBasedSelector.select(1, &ctx(&reg, 40_000, 2, vec![], 0)).unwrap();
    assert!(!chosen(&out).contains(&1));
}
