use path_tracer::bvh::{construct, Branch, BuildError, Bvh, Leaf};
use path_tracer::nearest::nearest;

/// A closed interval on a line, standing in for a box.
#[derive(Clone, Copy, Debug, PartialEq)]
struct Span {
    lo: i64,
    hi: i64,
}

fn join(a: &Span, b: &Span) -> Span {
    Span { lo: a.lo.min(b.lo), hi: a.hi.max(b.hi) }
}

/// Sends the half with the smaller centres to the left.
fn halves(leaves: &Vec<Leaf<Span>>) -> Vec<bool> {
    let mut order: Vec<usize> = (0..leaves.len()).collect();
    order.sort_by_key(|&i| leaves[i].bound.lo + leaves[i].bound.hi);
    let mut mask = vec![false; leaves.len()];
    for &i in &order[..leaves.len() / 2] {
        mask[i] = true;
    }
    mask
}

fn spans() -> Vec<Span> {
    vec![
        Span { lo: 0, hi: 2 },
        Span { lo: 10, hi: 12 },
        Span { lo: 3, hi: 5 },
        Span { lo: 20, hi: 30 },
        Span { lo: 4, hi: 11 },
        Span { lo: -7, hi: -1 },
        Span { lo: 25, hi: 26 },
    ]
}

fn leaf_count(t: &Branch<Span>) -> usize {
    match t {
        Branch::Leaf(_) => 1,
        Branch::Node { left, right, .. } => leaf_count(left) + leaf_count(right),
    }
}

fn check_splits(t: &Branch<Span>) {
    if let Branch::Node { left, right, .. } = t {
        let n = leaf_count(t);
        let split = leaf_count(left);
        assert!(0 < split && split < n);
        check_splits(left);
        check_splits(right);
    }
}

fn leaf_indices(t: &Branch<Span>, out: &mut Vec<usize>) {
    match t {
        Branch::Leaf(l) => out.push(l.index),
        Branch::Node { left, right, .. } => {
            leaf_indices(left, out);
            leaf_indices(right, out);
        }
    }
}

#[test]
fn empty_list_is_refused() {
    let r = Bvh::new(Vec::<Span>::new(), &halves, &join);
    assert!(matches!(r, Err(BuildError::Empty)));
}

#[test]
fn one_primitive_is_a_leaf() {
    let bvh = Bvh::new(vec![Span { lo: 1, hi: 4 }], &halves, &join).ok().unwrap();
    match bvh.root() {
        Branch::Leaf(l) => {
            assert_eq!(l.index, 0);
            assert_eq!(l.bound, Span { lo: 1, hi: 4 });
        }
        Branch::Node { .. } => panic!("a single primitive makes a leaf"),
    }
}

#[test]
fn one_sided_partition_is_refused() {
    let all_left = |v: &Vec<Leaf<Span>>| vec![true; v.len()];
    let r = Bvh::new(spans(), &all_left, &join);
    assert!(matches!(r, Err(BuildError::InvalidPartition)));
    let short = |v: &Vec<Leaf<Span>>| vec![true; v.len() - 1];
    let r = Bvh::new(spans(), &short, &join);
    assert!(matches!(r, Err(BuildError::InvalidPartition)));
}

#[test]
fn every_primitive_lands_in_one_leaf() {
    let bvh = Bvh::new(spans(), &halves, &join).ok().unwrap();
    let mut seen = Vec::new();
    leaf_indices(bvh.root(), &mut seen);
    seen.sort();
    assert_eq!(seen, (0..7).collect::<Vec<usize>>());
    assert_eq!(*bvh.bound(), Span { lo: -7, hi: 30 });
}

#[test]
fn every_split_is_strictly_inside() {
    let bvh = Bvh::new(spans(), &halves, &join).ok().unwrap();
    check_splits(bvh.root());
    let leaves = vec![
        Leaf { bound: Span { lo: 0, hi: 1 }, index: 4 },
        Leaf { bound: Span { lo: 5, hi: 6 }, index: 9 },
    ];
    let t = construct(leaves, &halves, &join).ok().unwrap();
    assert_eq!(leaf_count(&t), 2);
    check_splits(&t);
}

#[test]
fn descent_matches_testing_every_primitive() {
    let list = spans();
    let bvh = Bvh::new(list.clone(), &halves, &join).ok().unwrap();
    for p in -10..35 {
        let hit = |b: &Span| b.lo <= p && p <= b.hi;
        let mut found = bvh.candidates(&hit);
        found.sort();
        let expected: Vec<usize> = (0..list.len()).filter(|&i| hit(&list[i])).collect();
        assert_eq!(found, expected, "point {}", p);
    }
}

#[test]
fn box_missed_at_the_root_gives_nothing() {
    let bvh = Bvh::new(spans(), &halves, &join).ok().unwrap();
    let hit = |b: &Span| b.lo <= 100 && 100 <= b.hi;
    assert!(bvh.candidates(&hit).is_empty());
}

#[test]
fn nearest_keeps_the_first_of_the_nearest() {
    let dist = [Some(5), None, Some(2), Some(7), Some(2)];
    let intersect = |i: usize| dist[i].map(|d| (d, i));
    let closer = |a: &(i32, usize), b: &(i32, usize)| a.0 < b.0;
    assert_eq!(nearest(&vec![0, 1, 2, 3, 4], &intersect, &closer), Some((2, 2)));
    assert_eq!(nearest(&vec![4, 3, 2], &intersect, &closer), Some((2, 4)));
    assert_eq!(nearest(&vec![1], &intersect, &closer), None);
    assert_eq!(nearest(&vec![], &intersect, &closer), None);
}

#[test]
fn nearest_hit_matches_exhaustive_search() {
    // Primitive i is hit at distance |centre - p| when the point p lies in its span.
    let list = spans();
    let bvh = Bvh::new(list.clone(), &halves, &join).ok().unwrap();
    for p in -10..35 {
        let hit = |b: &Span| b.lo <= p && p <= b.hi;
        let intersect = |i: usize| {
            let s = list[i];
            if hit(&s) {
                Some(((s.lo + s.hi - 2 * p).abs(), i))
            } else {
                None
            }
        };
        let closer = |a: &(i64, usize), b: &(i64, usize)| a.0 < b.0;
        let found = bvh.nearest_hit(&hit, &intersect, &closer);
        let searched = (0..list.len()).filter_map(|i| intersect(i)).min_by_key(|h| h.0);
        assert_eq!(found.map(|h| h.0), searched.map(|h| h.0), "point {}", p);
    }
}
