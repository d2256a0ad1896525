use geo_coding::{distance_squared, orthogonal_distance, Tree2D};

#[test]
fn tree_works() {
    let tree = Tree2D::from_nodes(vec![
        ([0_i64, 0], ()), //
        ([-1, 0], ()),    //
        ([1, 0], ()),     //
        ([2, 0], ()),     //
        ([3, 0], ()),     //
    ]);
    let neighbours = tree.find_nearest(&[5, 0], 25_u64, 1, distance_squared);
    assert_eq!(vec![(4, &[3, 0], &())], neighbours);
}

#[test]
fn search_returns_named_example() {
    let tree = Tree2D::from_nodes(vec![
        ([0_i64, 0], "a"),
        ([-1, 0], "b"),
        ([1, 0], "c"),
        ([2, 0], "d"),
        ([3, 0], "e"),
    ]);
    let neighbours = tree.find_nearest(&[5, 0], 25_u64, 1, distance_squared);
    assert_eq!(vec![(4, &[3, 0], &"e")], neighbours);
}

#[test]
fn empty_tree_and_zero_neighbours_find_nothing() {
    let empty: Tree2D<i64, ()> = Tree2D::from_nodes(Vec::new());
    assert!(empty.is_empty());
    assert_eq!(empty.len(), 0);
    assert!(empty.find_nearest(&[0, 0], u64::MAX, 3, orthogonal_distance).is_empty());
    let tree = Tree2D::from_nodes(vec![([1_i64, 1], 7_u8)]);
    assert!(tree.find_nearest(&[0, 0], u64::MAX, 0, orthogonal_distance).is_empty());
    assert_eq!(tree.find_nearest(&[0, 0], u64::MAX, 1, orthogonal_distance), vec![(1, &[1, 1], &7)]);
}

/// The children of every node of a tree of `n` nodes: positions in the
/// array, lesser then greater.
fn children(n: usize) -> Vec<(Option<usize>, Option<usize>)> {
    let mut links = vec![(None, None); n];
    let mut sizes = std::collections::VecDeque::new();
    if n > 0 {
        sizes.push_back(n);
    }
    let mut next = 1;
    let mut at = 0;
    while let Some(size) = sizes.pop_front() {
        let lesser = size / 2;
        let greater = size - lesser - 1;
        if lesser > 0 {
            links[at].0 = Some(next);
            next += 1;
            sizes.push_back(lesser);
        }
        if greater > 0 {
            links[at].1 = Some(next);
            next += 1;
            sizes.push_back(greater);
        }
        at += 1;
    }
    links
}

fn below(links: &[(Option<usize>, Option<usize>)], root: Option<usize>, found: &mut Vec<usize>) {
    if let Some(at) = root {
        found.push(at);
        below(links, links[at].0, found);
        below(links, links[at].1, found);
    }
}

fn assert_ordered(points: &[[i64; 2]]) {
    let links = children(points.len());
    let mut axes = vec![0_usize; points.len()];
    for at in 0..points.len() {
        for child in [links[at].0, links[at].1].into_iter().flatten() {
            axes[child] = 1 - axes[at];
        }
    }
    for at in 0..points.len() {
        let axis = axes[at];
        let mut lesser = Vec::new();
        below(&links, links[at].0, &mut lesser);
        for x in lesser {
            assert!(points[x][axis] <= points[at][axis]);
        }
        let mut greater = Vec::new();
        below(&links, links[at].1, &mut greater);
        for x in greater {
            assert!(points[x][axis] >= points[at][axis]);
        }
    }
}

fn scattered(n: usize) -> Vec<([i64; 2], usize)> {
    let mut state: u64 = 0x2545_f491_4f6c_dd1d;
    (0..n)
        .map(|i| {
            state ^= state << 13;
            state ^= state >> 7;
            state ^= state << 17;
            let x = (state % 2001) as i64 - 1000;
            state ^= state << 13;
            state ^= state >> 7;
            state ^= state << 17;
            let y = (state % 2001) as i64 - 1000;
            ([x, y], i)
        })
        .collect()
}

#[test]
fn the_tree_holds_the_points_it_was_given() {
    let given = scattered(200);
    let tree = Tree2D::from_nodes(given.clone());
    assert_eq!(tree.len(), 200);
    assert!(!tree.is_empty());
    let mut held: Vec<([i64; 2], usize)> = tree.iter().into_iter().map(|(l, v)| (*l, *v)).collect();
    let mut given = given;
    held.sort();
    given.sort();
    assert_eq!(held, given);
}

#[test]
fn every_node_splits_its_subtree() {
    for n in [0, 1, 2, 3, 4, 5, 7, 8, 31, 32, 33, 200] {
        let tree = Tree2D::from_nodes(scattered(n));
        let points: Vec<[i64; 2]> = tree.iter().into_iter().map(|(l, _)| *l).collect();
        assert_eq!(points.len(), n);
        assert_ordered(&points);
    }
}

#[test]
fn the_root_is_the_lower_median() {
    let tree = Tree2D::from_nodes(vec![
        ([40_i64, 0], 'e'),
        ([10, 0], 'b'),
        ([30, 0], 'd'),
        ([0, 0], 'a'),
        ([20, 0], 'c'),
        ([50, 0], 'f'),
    ]);
    let items = tree.iter();
    assert_eq!(items[0], (&[30, 0], &'d'));
    let tree = Tree2D::from_nodes(vec![([2_i64, 0], ()), ([1, 0], ())]);
    assert_eq!(tree.iter(), vec![(&[2, 0], &()), (&[1, 0], &())]);
}

#[test]
fn identical_points_are_all_kept() {
    let tree = Tree2D::from_nodes(vec![([3_i64, 3], 1_u8); 9]);
    assert_eq!(tree.len(), 9);
    for (location, value) in tree.iter() {
        assert_eq!((location, value), (&[3, 3], &1));
    }
    let hits = tree.find_nearest(&[3, 3], 0, 9, orthogonal_distance);
    assert!(hits.len() >= 1);
    assert!(hits.iter().all(|hit| *hit == (0, &[3, 3], &1)));
}

#[test]
fn the_list_is_in_ascending_order_and_within_range() {
    let tree = Tree2D::from_nodes(scattered(300));
    for k in [1, 2, 5, 50, 400] {
        for bound in [0_u64, 10, 500, 5_000_000] {
            let hits = tree.find_nearest(&[17, -40], bound, k, distance_squared);
            assert!(hits.len() <= k);
            for pair in hits.windows(2) {
                assert!(pair[0].0 <= pair[1].0);
            }
            for (distance, location, _) in hits.iter() {
                assert!(*distance <= bound);
                assert_eq!(*distance, distance_squared(location, &[17, -40]));
            }
        }
    }
}

#[test]
fn a_wide_search_finds_every_node() {
    let given = scattered(64);
    let tree = Tree2D::from_nodes(given.clone());
    let hits = tree.find_nearest(&[0, 0], u64::MAX, 64, distance_squared);
    let mut expected: Vec<u64> = given
        .iter()
        .map(|(location, _)| distance_squared(location, &[0, 0]))
        .collect();
    expected.sort();
    let found: Vec<u64> = hits.iter().map(|hit| hit.0).collect();
    assert_eq!(found, expected);
}

#[test]
fn a_full_list_shrinks_the_bound_to_its_last_distance() {
    let tree = Tree2D::from_nodes(vec![
        ([0_i64, 0], "a"),
        ([-1, 0], "b"),
        ([1, 0], "c"),
        ([2, 0], "d"),
        ([3, 0], "e"),
    ]);
    let hits = tree.find_nearest(&[1, 0], 100, 3, distance_squared);
    assert_eq!(
        hits.iter().map(|hit| hit.0).collect::<Vec<_>>(),
        vec![0, 1, 1]
    );
    assert_eq!(hits[0], (0, &[1, 0], &"c"));
}

#[test]
fn a_node_beyond_the_bound_hides_its_far_side() {
    // The root (10, 1000) is out of range and the query lies on its lesser
    // side, so the greater side is not looked at, though (11, 0) is near.
    let tree = Tree2D::from_nodes(vec![
        ([9_i64, 500], "far"),
        ([10, 1000], "root"),
        ([11, 0], "near"),
    ]);
    assert_eq!(tree.iter()[0], (&[10, 1000], &"root"));
    let hits = tree.find_nearest(&[0, 0], 100, 1, orthogonal_distance);
    assert!(hits.is_empty());
    let hits = tree.find_nearest(&[0, 0], 1000, 1, orthogonal_distance);
    assert_eq!(hits, vec![(11, &[11, 0], &"near")]);
}

#[test]
fn a_closure_can_be_the_distance() {
    let tree = Tree2D::from_nodes(vec![([1_i64, 1], ()), ([4, 4], ()), ([9, 9], ())]);
    let hits = tree.find_nearest(&[5, 5], 3, 2, |a, b| orthogonal_distance(a, b) / 2);
    assert_eq!(hits, vec![(0, &[4, 4], &()), (2, &[1, 1], &())]);
}

#[test]
fn coordinates_and_distances_of_other_types() {
    let tree = Tree2D::from_nodes(vec![
        ([10_u8, 200], 'a'),
        ([20, 100], 'b'),
        ([30, 0], 'c'),
        ([40, 50], 'd'),
    ]);
    let far = |a: &[u8; 2], b: &[u8; 2]| -> u16 {
        u16::from(a[0].abs_diff(b[0])) + u16::from(a[1].abs_diff(b[1]))
    };
    let hits = tree.find_nearest(&[25, 60], 400, 4, far);
    assert_eq!(
        hits,
        vec![
            (25, &[40, 50], &'d'),
            (45, &[20, 100], &'b'),
            (65, &[30, 0], &'c'),
            (155, &[10, 200], &'a'),
        ]
    );
    let words = Tree2D::from_nodes(vec![(["b", "x"], 1), (["a", "y"], 2), (["c", "z"], 3)]);
    assert_eq!(words.iter()[0], (&["b", "x"], &1));
}
