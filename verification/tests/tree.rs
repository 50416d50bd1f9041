use avl_tree::{bench_insert, AVLNode};

fn leaf(key: i64) -> AVLNode<i64> {
    AVLNode::Branch(Box::new(AVLNode::Nil), Box::new(AVLNode::Nil), 0, key)
}

fn branch(left: AVLNode<i64>, right: AVLNode<i64>, height: isize, key: i64) -> AVLNode<i64> {
    AVLNode::Branch(Box::new(left), Box::new(right), height, key)
}

fn build(keys: &[i64]) -> AVLNode<i64> {
    let mut tree = AVLNode::empty();
    for k in keys {
        tree = tree.insert(*k);
    }
    tree
}

fn walk(tree: &AVLNode<i64>) -> Vec<i64> {
    let mut visited = Vec::new();
    tree.in_order_traverse(&mut visited);
    visited.into_iter().copied().collect()
}

#[test]
fn test_left_rotate() {
    let tree = branch(AVLNode::Nil, branch(AVLNode::Nil, leaf(3), 1, 2), 2, 1);
    assert_eq!(tree.left_rotate(), branch(leaf(1), leaf(3), 1, 2));
}

#[test]
fn test_right_rotate() {
    let tree = branch(branch(leaf(1), AVLNode::Nil, 1, 2), AVLNode::Nil, 2, 3);
    assert_eq!(tree.right_rotate(), branch(leaf(1), leaf(3), 1, 2));
}

#[test]
fn left_rotate_moves_the_inner_subtree_across() {
    // (L, (RL, RR, 7), 3)  becomes  ((L, RL, 3), RR, 7)
    let l = leaf(1);
    let rl = leaf(5);
    let rr = branch(AVLNode::Nil, leaf(9), 1, 8);
    let tree = branch(l, branch(rl, rr, 2, 7), 3, 3);
    let expected = branch(branch(leaf(1), leaf(5), 1, 3), branch(AVLNode::Nil, leaf(9), 1, 8), 2, 7);
    assert_eq!(tree.left_rotate(), expected);
}

#[test]
fn right_rotate_moves_the_inner_subtree_across() {
    // ((LL, LR, 3), R, 7)  becomes  (LL, (LR, R, 7), 3)
    let ll = branch(leaf(0), AVLNode::Nil, 1, 1);
    let lr = leaf(5);
    let r = leaf(9);
    let tree = branch(branch(ll, lr, 2, 3), r, 3, 7);
    let expected = branch(branch(leaf(0), AVLNode::Nil, 1, 1), branch(leaf(5), leaf(9), 1, 7), 2, 3);
    assert_eq!(tree.right_rotate(), expected);
}

#[test]
fn rotation_height_formula_takes_the_larger_side() {
    // inner = max(-1, 0) + 1 = 1, outer = max(inner + 1, 0) = 2
    let tree = branch(AVLNode::Nil, branch(leaf(5), leaf(9), 1, 7), 2, 3);
    let rotated = tree.left_rotate();
    assert_eq!(rotated, branch(branch(AVLNode::Nil, leaf(5), 1, 3), leaf(9), 2, 7));
    assert_eq!(rotated.get_height(), 2);
}

#[test]
fn rotations_keep_the_in_order_sequence() {
    let tree = branch(leaf(1), branch(leaf(5), leaf(9), 1, 7), 2, 3);
    let before = walk(&tree);
    let rotated = tree.left_rotate();
    assert_eq!(walk(&rotated), before);
    let back = rotated.right_rotate();
    assert_eq!(walk(&back), before);
}

#[test]
fn empty_tree_accessors() {
    let tree: AVLNode<i64> = AVLNode::empty();
    assert_eq!(tree, AVLNode::Nil);
    assert_eq!(tree.get_height(), -1);
    assert_eq!(tree.get_balance(), 0);
    assert_eq!(tree.get_depth(), -1);
    assert!(tree.good());
    assert!(!tree.find(0));
    assert_eq!(walk(&tree), Vec::<i64>::new());
}

#[test]
fn insert_into_empty_gives_a_leaf_of_height_zero() {
    let tree = AVLNode::empty().insert(42);
    assert_eq!(tree, leaf(42));
    assert_eq!(tree.get_height(), 0);
    assert_eq!(tree.get_depth(), 0);
    assert_eq!(tree.get_balance(), 0);
}

#[test]
fn balance_factor_is_left_minus_right() {
    assert_eq!(build(&[3, 1]).get_balance(), 1);
    assert_eq!(build(&[3, 5]).get_balance(), -1);
    assert_eq!(build(&[3, 1, 5]).get_balance(), 0);
    let leaning = branch(branch(leaf(1), AVLNode::Nil, 1, 2), AVLNode::Nil, 2, 3);
    assert_eq!(leaning.get_balance(), 2);
}

#[test]
fn mixed_insertions_scenario() {
    let tree = build(&[5, 3, 8, 1, 4, 7, 9]);
    assert_eq!(walk(&tree), vec![1, 3, 4, 5, 7, 8, 9]);
    assert_eq!(tree.get_height(), 2);
    assert_eq!(
        tree,
        branch(branch(leaf(1), leaf(4), 1, 3), branch(leaf(7), leaf(9), 1, 8), 2, 5)
    );
}

#[test]
fn ascending_run_scenario() {
    let tree = build(&[1, 2, 3, 4, 5, 6, 7]);
    assert_eq!(tree.get_height(), 2);
    assert!(tree.good());
    assert_eq!(
        tree,
        branch(branch(leaf(1), leaf(3), 1, 2), branch(leaf(5), leaf(7), 1, 6), 2, 4)
    );
}

#[test]
fn ascending_run_rotates_left_at_the_third_key() {
    assert_eq!(build(&[1, 2]), branch(AVLNode::Nil, leaf(2), 1, 1));
    assert_eq!(build(&[1, 2, 3]), branch(leaf(1), leaf(3), 1, 2));
}

#[test]
fn descending_run_rotates_right() {
    let tree = build(&[7, 6, 5, 4, 3, 2, 1]);
    assert_eq!(tree.get_height(), 2);
    assert!(tree.good());
    assert_eq!(walk(&tree), vec![1, 2, 3, 4, 5, 6, 7]);
    assert_eq!(build(&[3, 2, 1]), branch(leaf(1), leaf(3), 1, 2));
}

#[test]
fn left_right_double_rotation_scenario() {
    let tree = build(&[3, 1, 2]);
    assert_eq!(tree, branch(leaf(1), leaf(3), 1, 2));
}

#[test]
fn right_left_double_rotation() {
    let tree = build(&[1, 3, 2]);
    assert_eq!(tree, branch(leaf(1), leaf(3), 1, 2));
}

#[test]
fn balance_leaves_a_balanced_tree_alone() {
    let tree = build(&[5, 3, 8, 1]);
    let copy = build(&[5, 3, 8, 1]);
    assert_eq!(tree.balance(), copy);
    let empty: AVLNode<i64> = AVLNode::Nil;
    assert_eq!(empty.balance(), AVLNode::Nil);
}

#[test]
fn balance_left_left_case() {
    let tree = branch(branch(leaf(1), AVLNode::Nil, 1, 2), AVLNode::Nil, 2, 3);
    assert_eq!(tree.balance(), branch(leaf(1), leaf(3), 1, 2));
}

#[test]
fn balance_left_right_case() {
    let tree = branch(branch(AVLNode::Nil, leaf(2), 1, 1), AVLNode::Nil, 2, 3);
    assert_eq!(tree.balance(), branch(leaf(1), leaf(3), 1, 2));
}

#[test]
fn balance_right_right_case() {
    let tree = branch(AVLNode::Nil, branch(AVLNode::Nil, leaf(3), 1, 2), 2, 1);
    assert_eq!(tree.balance(), branch(leaf(1), leaf(3), 1, 2));
}

#[test]
fn balance_right_left_case() {
    let tree = branch(AVLNode::Nil, branch(leaf(2), AVLNode::Nil, 1, 3), 2, 1);
    assert_eq!(tree.balance(), branch(leaf(1), leaf(3), 1, 2));
}

#[test]
fn balance_rotates_once_when_the_heavy_child_is_even() {
    // The left child leans to neither side: a single right rotation.
    let tree = branch(branch(leaf(1), leaf(3), 1, 2), AVLNode::Nil, 2, 4);
    assert_eq!(
        tree.balance(),
        branch(leaf(1), branch(leaf(3), AVLNode::Nil, 1, 4), 2, 2)
    );
}

#[test]
fn duplicate_insert_changes_nothing() {
    let once = build(&[5, 3, 8, 1, 4]);
    let twice = build(&[5, 3, 8, 1, 4]).insert(4);
    assert_eq!(once, twice);
    let root_again = build(&[5, 3, 8, 1, 4]).insert(5);
    assert_eq!(once, root_again);
    assert_eq!(build(&[7, 7]), leaf(7));
}

#[test]
fn find_reports_exactly_the_inserted_keys() {
    let keys = [50, 20, 70, 10, 30, 60, 80, 25, 35, 65];
    let tree = build(&keys);
    for k in keys {
        assert!(tree.find(k));
    }
    for k in [0, 15, 26, 40, 55, 66, 75, 90, -1] {
        assert!(!tree.find(k));
    }
}

#[test]
fn find_descends_left_for_smaller_keys() {
    let tree = branch(leaf(1), leaf(9), 1, 5);
    assert!(tree.find(1));
    assert!(tree.find(9));
    assert!(tree.find(5));
    assert!(!tree.find(4));
}

#[test]
fn traversal_is_strictly_ascending() {
    let tree = build(&[13, 2, 21, 8, 1, 34, 5, 3, 55, 89, 144, 4]);
    let seen = walk(&tree);
    assert_eq!(seen, vec![1, 2, 3, 4, 5, 8, 13, 21, 34, 55, 89, 144]);
    for pair in seen.windows(2) {
        assert!(pair[0] < pair[1]);
    }
}

#[test]
fn traversal_appends_to_what_was_visited_before() {
    let first = build(&[2, 1, 3]);
    let second = build(&[20, 10]);
    let mut visited = Vec::new();
    first.in_order_traverse(&mut visited);
    second.in_order_traverse(&mut visited);
    assert_eq!(visited, vec![&1, &2, &3, &10, &20]);
}

#[test]
fn every_insertion_keeps_the_tree_valid() {
    let keys = [41, 67, 34, 0, 69, 24, 78, 58, 62, 64, 5, 45, 81, 27, 61, 91, 95, 42, 27, 36];
    let mut tree = AVLNode::empty();
    for k in keys {
        tree = tree.insert(k);
        assert!(tree.good());
        assert_eq!(tree.get_height(), tree.get_depth());
        assert!(tree.get_balance().abs() <= 1);
        assert!(tree.find(k));
    }
    assert_eq!(walk(&tree).len(), 19);
}

#[test]
fn depth_ignores_the_cached_height() {
    let lying = branch(leaf(1), AVLNode::Nil, 7, 2);
    assert_eq!(lying.get_height(), 7);
    assert_eq!(lying.get_depth(), 1);
    assert_eq!(build(&[1, 2, 3, 4, 5, 6, 7]).get_depth(), 2);
    assert_eq!(build(&[1, 2, 3, 4, 5, 6, 7, 8]).get_depth(), 3);
}

#[test]
fn audit_rejects_a_wrong_cached_height() {
    assert!(!branch(leaf(1), AVLNode::Nil, 7, 2).good());
    assert!(!branch(leaf(1), leaf(3), 0, 2).good());
    assert!(!branch(branch(AVLNode::Nil, AVLNode::Nil, 1, 1), leaf(3), 1, 2).good());
    assert!(branch(leaf(1), leaf(3), 1, 2).good());
}

#[test]
fn audit_rejects_children_out_of_order() {
    assert!(!branch(leaf(5), AVLNode::Nil, 1, 2).good());
    assert!(!branch(AVLNode::Nil, leaf(1), 1, 2).good());
    assert!(!branch(branch(leaf(9), AVLNode::Nil, 1, 1), leaf(3), 2, 2).good());
}

#[test]
fn audit_accepts_equal_neighbours_and_distant_disorder() {
    // The audit compares a branch with its two children only.
    assert!(branch(leaf(2), leaf(2), 1, 2).good());
    let distant = branch(branch(AVLNode::Nil, leaf(9), 1, 1), leaf(7), 2, 5);
    assert!(distant.good());
}

#[test]
fn height_stays_within_the_logarithmic_bounds() {
    let mut tree = AVLNode::empty();
    for n in 1..=600i64 {
        tree = tree.insert((n * 7919) % 1009);
        let h = tree.get_height() as f64;
        let size = n as f64;
        assert!(h <= 1.45 * (size + 2.0).log2() - 0.33);
        assert!(h >= (size + 1.0).log2() - 1.0);
    }
}

#[test]
fn ascending_run_height_stays_within_the_logarithmic_bounds() {
    let mut tree = AVLNode::empty();
    for n in 1..=1000i64 {
        tree = tree.insert(n);
        let h = tree.get_height() as f64;
        let size = n as f64;
        assert!(h <= 1.45 * (size + 2.0).log2() - 0.33);
        assert!(h >= (size + 1.0).log2() - 1.0);
    }
    assert_eq!(tree.get_height(), 9);
}

#[test]
fn bench_insert_builds_the_ascending_run() {
    let tree = bench_insert(7);
    assert_eq!(tree.get_height(), 2);
    assert!(tree.good());
    let mut visited = Vec::new();
    tree.in_order_traverse(&mut visited);
    assert_eq!(visited, vec![&0usize, &1, &2, &3, &4, &5, &6]);
}

#[test]
fn bench_insert_of_nothing_is_the_seed() {
    let seed = AVLNode::Branch(Box::new(AVLNode::Nil), Box::new(AVLNode::Nil), 0, 0usize);
    assert_eq!(bench_insert(0), seed);
    assert_eq!(bench_insert(1), seed);
}

#[test]
fn bench_insert_stays_logarithmic() {
    // 4095 keys fill eleven levels below the root; the next key opens a new one.
    let full = bench_insert((1 << 12) - 1);
    assert_eq!(full.get_height(), 11);
    let tree = bench_insert(1 << 12);
    assert_eq!(tree.get_height(), 12);
    assert_eq!(tree.get_depth(), 12);
    assert!(tree.good());
    assert!(tree.find(4095));
    assert!(!tree.find(4096));
}

#[test]
fn keys_of_other_ordered_types() {
    let mut tree = AVLNode::empty();
    for word in ["pear", "apple", "fig", "apple", "kiwi"] {
        tree = tree.insert(word);
    }
    let mut visited = Vec::new();
    tree.in_order_traverse(&mut visited);
    assert_eq!(visited, vec![&"apple", &"fig", &"kiwi", &"pear"]);
    assert!(tree.find("fig"));
    assert!(!tree.find("plum"));
    assert!(tree.good());
}
