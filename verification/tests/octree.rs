use empyrean::octree::{Node, Octree, LEAF_CAPACITY};

type Point = [i64; 3];
type Cell = (Point, i64);

fn side(cell: &Cell, body: &Point, axis: usize) -> bool {
    body[axis] >= cell.0[axis]
}

fn child(cell: &Cell, k: usize) -> Cell {
    let half = cell.1 / 2;
    let mut center = cell.0;
    for axis in 0..3 {
        if (k >> axis) & 1 == 1 {
            center[axis] -= half;
        } else {
            center[axis] += half;
        }
    }
    (center, half)
}

fn points(n: usize, seed: u64) -> Vec<Point> {
    let mut state = seed;
    let mut next = move || {
        state = state.wrapping_mul(6364136223846793005).wrapping_add(1442695040888963407);
        ((state >> 33) % 128) as i64 - 64
    };
    (0..n).map(|_| [next(), next(), next()]).collect()
}

fn sorted(mut v: Vec<Point>) -> Vec<Point> {
    v.sort();
    v
}

const ROOT: Cell = ([0, 0, 0], 64);

fn build(bodies: &mut Vec<Point>) -> Octree<Cell> {
    let mut tree = Octree::new();
    tree.build(bodies, ROOT, side, child);
    tree
}

fn check_tree(tree: &Octree<Cell>, bodies: &[Point]) {
    let n = tree.len();
    assert!(n >= 1);
    let root: &Node<Cell> = tree.node(0);
    assert_eq!(root.bodies, 0..bodies.len());
    assert_eq!(root.data, ROOT);
    assert_eq!(root.next, None);
    let mut internal = Vec::new();
    for i in 0..n {
        let node = tree.node(i);
        match node.children {
            None => assert!(node.bodies.len() <= LEAF_CAPACITY),
            Some(c) => {
                internal.push(i);
                assert!(c > i && c + 8 <= n);
                assert!(node.bodies.len() > LEAF_CAPACITY);
                assert_eq!(node.children_range(), Some(c..c + 8));
                let mut start = node.bodies.start;
                for k in 0..8 {
                    let ch = tree.node(c + k);
                    assert_eq!(ch.bodies.start, start);
                    start = ch.bodies.end;
                    assert_eq!(ch.data, child(&node.data, k));
                    let expected_next = if k < 7 { Some(c + k + 1) } else { node.next };
                    assert_eq!(ch.next, expected_next);
                    for b in &bodies[ch.bodies.clone()] {
                        for axis in 0..3 {
                            assert_eq!(side(&node.data, b, axis), (k >> axis) & 1 == 0);
                        }
                    }
                }
                assert_eq!(start, node.bodies.end);
            }
        }
    }
    assert_eq!(tree.parents(), &internal);
}

#[test]
fn empty_tree() {
    let tree: Octree<Cell> = Octree::new();
    assert!(tree.is_empty());
    assert_eq!(tree.len(), 0);
}

#[test]
fn build_with_few_bodies_makes_one_leaf() {
    let mut bodies = points(LEAF_CAPACITY, 1);
    let initial = bodies.clone();
    let tree = build(&mut bodies);
    assert_eq!(tree.len(), 1);
    assert!(tree.parents().is_empty());
    assert_eq!(tree.node(0).children, None);
    assert_eq!(bodies, initial);
    check_tree(&tree, &bodies);
}

#[test]
fn build_with_five_bodies_subdivides_root() {
    let mut bodies: Vec<Point> = vec![[1, 1, 1], [-1, 1, 1], [1, -1, 1], [1, 1, -1], [-1, -1, -1]];
    let tree = build(&mut bodies);
    assert_eq!(tree.len(), 9);
    assert_eq!(tree.node(0).children, Some(1));
    assert_eq!(tree.parents(), &vec![0]);
    check_tree(&tree, &bodies);
    // Octant 0 holds the body with every coordinate at or above the center, octant 7 the one
    // below on every axis.
    assert_eq!(&bodies[tree.node(1).bodies.clone()], &[[1, 1, 1]]);
    assert_eq!(&bodies[tree.node(8).bodies.clone()], &[[-1, -1, -1]]);
}

#[test]
fn build_keeps_bodies_and_shapes_tree() {
    for (n, seed) in [(0usize, 3u64), (9, 4), (100, 5), (1000, 6)] {
        let mut bodies = points(n, seed);
        let initial = bodies.clone();
        let tree = build(&mut bodies);
        assert_eq!(sorted(bodies.clone()), sorted(initial));
        check_tree(&tree, &bodies);
    }
}

#[test]
fn rebuild_clears_previous_tree() {
    let mut bodies = points(200, 7);
    let mut tree = build(&mut bodies);
    let mut few = points(3, 8);
    tree.build(&mut few, ROOT, side, child);
    assert_eq!(tree.len(), 1);
    tree.clear();
    assert!(tree.is_empty());
}

#[test]
fn full_walk_visits_every_node_once() {
    let mut bodies = points(500, 9);
    let tree = build(&mut bodies);
    let mut seen = vec![false; tree.len()];
    let mut index = Some(Octree::<Cell>::ROOT_INDEX);
    let mut steps = 0;
    let mut leaf_bodies = 0;
    while let Some(i) = index {
        assert!(!seen[i]);
        seen[i] = true;
        if tree.node(i).children.is_none() {
            leaf_bodies += tree.node(i).bodies.len();
        }
        index = tree.advance(i, true);
        steps += 1;
    }
    assert_eq!(steps, tree.len());
    assert!(seen.iter().all(|s| *s));
    assert_eq!(leaf_bodies, bodies.len());
}

#[test]
fn walk_that_never_descends_stops_at_root() {
    let mut bodies = points(50, 10);
    let tree = build(&mut bodies);
    assert_eq!(tree.advance(0, false), None);
    assert_eq!(tree.advance(0, true), tree.node(0).children);
}

#[test]
fn set_data_changes_only_payload() {
    let mut bodies = points(40, 11);
    let mut tree = build(&mut bodies);
    let before: Vec<_> = (0..tree.len())
        .map(|i| (tree.node(i).children, tree.node(i).next, tree.node(i).bodies.clone()))
        .collect();
    tree.set_data(1, ([5, 5, 5], 1));
    assert_eq!(tree.node(1).data, ([5, 5, 5], 1));
    let after: Vec<_> = (0..tree.len())
        .map(|i| (tree.node(i).children, tree.node(i).next, tree.node(i).bodies.clone()))
        .collect();
    assert_eq!(before, after);
}

#[test]
fn node_new_and_children_range() {
    let node = Node::new(Some(3), 7u8, 2..5);
    assert_eq!(node.children, None);
    assert_eq!(node.next, Some(3));
    assert_eq!(node.data, 7);
    assert_eq!(node.bodies, 2..5);
    assert_eq!(node.children_range(), None);
}

#[test]
fn any_walk_stops_at_nodes_covering_each_body_once() {
    let mut bodies = points(700, 12);
    let tree = build(&mut bodies);
    for seed in 0..20u64 {
        let mut state = seed;
        let mut covered = 0;
        let mut index = Some(0usize);
        while let Some(i) = index {
            state = state.wrapping_mul(6364136223846793005).wrapping_add(1);
            let node = tree.node(i);
            let descend = (state >> 40) % 3 != 0;
            if !descend || node.children.is_none() {
                assert_eq!(node.bodies.start, covered);
                covered = node.bodies.end;
            }
            index = tree.advance(i, descend);
        }
        assert_eq!(covered, bodies.len());
    }
}

#[test]
fn every_node_but_the_root_has_exactly_one_parent() {
    for (n, seed) in [(1usize, 13u64), (60, 14), (800, 15)] {
        let mut bodies = points(n, seed);
        let tree = build(&mut bodies);
        assert_eq!(tree.len() % 8, 1);
        let mut parent_count = vec![0usize; tree.len()];
        for i in 0..tree.len() {
            if let Some(c) = tree.node(i).children {
                for j in c..c + 8 {
                    parent_count[j] += 1;
                }
            }
        }
        assert_eq!(parent_count[0], 0);
        assert!(parent_count[1..].iter().all(|count| *count == 1));
    }
}
