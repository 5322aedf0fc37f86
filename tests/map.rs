use fisherman::map::{HexCoord, HexDir};

fn at_distance(center: &HexCoord, cells: &[HexCoord]) -> Vec<i32> {
    cells.iter().map(|c| center.distance(c)).collect()
}

#[test]
fn distance_is_symmetric_and_zero_on_itself() {
    let a = HexCoord::new(3, -1, -2);
    let b = HexCoord::new(-2, 4, -2);
    assert_eq!(a.distance(&b), 5);
    assert_eq!(b.distance(&a), 5);
    assert_eq!(a.distance(&a), 0);
    assert_eq!(HexCoord::zero().distance(&HexCoord::new(0, 1, -1)), 1);
}

#[test]
fn within_radius_counts_disk_cells() {
    let c = HexCoord::new(2, -3, 1);
    for (r, n) in [(0, 1usize), (1, 7), (2, 19), (3, 37), (4, 61)] {
        let disk = c.within_radius(r);
        assert_eq!(disk.len(), n);
        assert!(at_distance(&c, &disk).iter().all(|d| *d <= r));
        let mut seen = disk.clone();
        seen.sort_by_key(|x| (x.q, x.r, x.s));
        seen.dedup();
        assert_eq!(seen.len(), n);
        assert!(disk.iter().all(|x| x.q + x.r + x.s == 0));
    }
}

#[test]
fn on_radius_gives_only_the_ring() {
    let c = HexCoord::new(-1, 0, 1);
    assert_eq!(c.on_radius(0), vec![c]);
    for r in 1..6 {
        let ring = c.on_radius(r);
        assert_eq!(ring.len(), 6 * r as usize);
        assert!(at_distance(&c, &ring).iter().all(|d| *d == r));
        let mut seen = ring.clone();
        seen.sort_by_key(|x| (x.q, x.r, x.s));
        seen.dedup();
        assert_eq!(seen.len(), 6 * r as usize);
    }
}

#[test]
fn direction_arithmetic() {
    let n = HexDir::north();
    let ne = HexDir::northeast();
    assert_eq!(n.add(ne), HexDir::new(1, 1, -2));
    assert_eq!(n.sub(ne), HexDir::new(-1, 1, 0));
    assert_eq!(n.mul(3), HexDir::new(0, 3, -3));
    let c = HexCoord::new(1, 1, -2);
    assert_eq!(c.add(HexDir::south()), HexCoord::new(1, 0, -1));
    assert_eq!(c.sub_dir(HexDir::south()), HexCoord::new(1, 2, -3));
    assert_eq!(c.sub(HexCoord::zero()), HexDir::new(1, 1, -2));
    for d in [
        HexDir::north(),
        HexDir::northeast(),
        HexDir::southeast(),
        HexDir::south(),
        HexDir::southwest(),
        HexDir::northwest(),
    ] {
        assert_eq!(HexCoord::zero().distance(&HexCoord::zero().add(d)), 1);
    }
    assert_eq!(HexDir::zero(), HexDir::new_unchecked(0, 0, 0));
}
