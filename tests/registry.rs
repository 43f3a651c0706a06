use meta_select::{load_score, LeaseRegistry, Peer};

fn peer(id: u64) -> Peer {
    Peer::new(id, format!("10.0.0.{id}:4001"))
}

fn ids(reg: &LeaseRegistry, ns: u64, now: u64) -> Vec<u64> {
    reg.snapshot(ns, now).iter().map(|e| e.peer.id).collect()
}

#[test]
fn renewal_sets_deadline_and_stats() {
    let mut reg = LeaseRegistry::new();
    assert!(reg.renew(1, peer(1), vec![3, 4], 10_000, 5_000));
    let snap = reg.snapshot(1, 5_000);
    assert_eq!(snap.len(), 1);
    assert_eq!(snap[0].lease.expire_time, 15_000);
    assert_eq!(snap[0].lease.load_stats, vec![3, 4]);
    assert_eq!(snap[0].peer.addr, "10.0.0.1:4001");
    assert_eq!(snap[0].namespace, 1);
}

#[test]
fn expired_peer_leaves_the_snapshot() {
    // D renews for 10 s at t = 0 and goes silent; at t = 11 s it is gone.
    let mut reg = LeaseRegistry::new();
    reg.renew(3, peer(4), vec![], 10_000, 0);
    assert_eq!(ids(&reg, 3, 9_999), vec![4]);
    assert!(ids(&reg, 3, 10_000).is_empty());
    assert!(ids(&reg, 3, 11_000).is_empty());
}

#[test]
fn late_heartbeat_never_shortens_a_lease() {
    let mut reg = LeaseRegistry::new();
    assert!(reg.renew(1, peer(1), vec![1], 10_000, 20_000));
    // A reordered heartbeat from earlier arrives afterwards.
    assert!(!reg.renew(1, peer(1), vec![99], 10_000, 15_000));
    // The same deadline again is not an extension either.
    assert!(!reg.renew(1, peer(1), vec![98], 10_000, 20_000));
    let snap = reg.snapshot(1, 20_000);
    assert_eq!(snap[0].lease.expire_time, 30_000);
    assert_eq!(snap[0].lease.load_stats, vec![1]);
    assert!(reg.renew(1, peer(1), vec![7], 10_000, 21_000));
    let snap = reg.snapshot(1, 21_000);
    assert_eq!(snap[0].lease.expire_time, 31_000);
    assert_eq!(snap[0].lease.load_stats, vec![7]);
    assert_eq!(reg.len(), 1);
}

#[test]
fn namespaces_are_isolated() {
    let mut reg = LeaseRegistry::new();
    reg.renew(1, peer(1), vec![], 10_000, 0);
    reg.renew(2, peer(2), vec![], 10_000, 0);
    reg.renew(1, peer(3), vec![], 10_000, 0);
    assert_eq!(ids(&reg, 1, 0), vec![1, 3]);
    assert_eq!(ids(&reg, 2, 0), vec![2]);
    assert!(ids(&reg, 5, 0).is_empty());
}

#[test]
fn deadline_saturates() {
    let mut reg = LeaseRegistry::new();
    reg.renew(1, peer(1), vec![], u64::MAX, 10);
    assert_eq!(reg.snapshot(1, u64::MAX - 1)[0].lease.expire_time, u64::MAX);
    assert!(reg.snapshot(1, u64::MAX).is_empty());
}

#[test]
fn eviction_drops_only_long_expired_rows() {
    let mut reg = LeaseRegistry::new();
    reg.renew(1, peer(1), vec![], 1_000, 0); // expires at 1 000
    reg.renew(1, peer(2), vec![], 5_000, 0); // expires at 5 000
    reg.renew(1, peer(3), vec![], 20_000, 0); // expires at 20 000
    // With a grace of 2 000 at t = 6 000 only the first is old enough.
    assert_eq!(reg.evict_expired(6_000, 2_000), 1);
    assert_eq!(reg.len(), 2);
    assert_eq!(ids(&reg, 1, 6_000), vec![3]);
    assert_eq!(reg.evict_expired(7_000, 2_000), 0);
    assert_eq!(reg.evict_expired(7_001, 2_000), 1);
    assert_eq!(reg.len(), 1);
}

#[test]
fn load_score_is_the_sum_of_figures() {
    assert_eq!(load_score(&vec![]), 0);
    assert_eq!(load_score(&vec![2, 3, 5]), 10);
    assert_eq!(
        load_score(&vec![u64::MAX, u64::MAX]),
        2 * (u64::MAX as u128)
    );
}
