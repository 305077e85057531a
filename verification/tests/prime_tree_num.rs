use prime_trees::prime_tree_num::{NodeId, PrimeTree};
use prime_trees::primes::Primes;

#[test]
fn unrepresentable_placeholder_with_trimming() {
    let primes = Primes::with_bound(100);
    for num in [0usize, 1] {
        let mut tree = PrimeTree::new(&primes, true);
        tree.fill_with_num(num);
        assert_eq!(
            tree.render(),
            "0 and 1 are unrepresentable in trimmed notation"
        );
    }
}

#[test]
fn only_zero_is_empty_without_trimming() {
    let primes = Primes::with_bound(100);
    let mut tree = PrimeTree::new(&primes, false);
    tree.fill_with_num(0);
    assert_eq!(tree.render(), "");

    let mut tree1 = PrimeTree::new(&primes, false);
    tree1.fill_with_num(1);
    assert_ne!(tree1.render(), "");
}

#[test]
fn leaf_renders_as_star() {
    let primes = Primes::with_bound(100);
    // with trimming, 2 encodes as a single node with no edges
    let mut tree = PrimeTree::new(&primes, true);
    tree.fill_with_num(2);
    assert_eq!(tree.render(), "*");
}

#[test]
fn non_leaf_renders_three_lines() {
    let primes = Primes::with_bound(100);
    // without trimming, 2 encodes as a root whose set edge is a leaf
    let mut tree = PrimeTree::new(&primes, false);
    tree.fill_with_num(2);
    assert_eq!(tree.render(), "\ns*\nl\no");
}

#[test]
fn rendering_is_deterministic() {
    let primes = Primes::with_bound(1000);
    for trimming in [false, true] {
        for num in [2usize, 7, 12, 30, 360, 997] {
            let mut first = PrimeTree::new(&primes, trimming);
            first.fill_with_num(num);
            let mut second = PrimeTree::new(&primes, trimming);
            second.fill_with_num(num);
            assert_eq!(first.render(), second.render(), "num {num}");
        }
    }
}

#[test]
fn out_of_range_node_renders_nothing() {
    let primes = Primes::with_bound(100);
    let tree = PrimeTree::new(&primes, false);
    assert!(tree.to_string(NodeId(0), 0).is_none());
}

#[test]
fn distinct_numbers_render_distinct_trees() {
    let primes = Primes::with_bound(1000);
    let mut texts = Vec::new();
    for num in [2usize, 3, 4, 6, 12, 30] {
        let mut tree = PrimeTree::new(&primes, false);
        tree.fill_with_num(num);
        texts.push(tree.render());
    }
    for a in 0..texts.len() {
        for b in 0..texts.len() {
            if a != b {
                assert_ne!(texts[a], texts[b]);
            }
        }
    }
}

#[test]
fn encodes_smooth_numbers_beyond_the_largest_prime() {
    // the table's largest prime is 7919, far below these inputs, yet
    // every prime factor of each is held
    let primes = Primes::with_bound(1000);
    for num in [1 << 24, 20_000_000usize, 2 * 7919] {
        for trimming in [false, true] {
            let mut first = PrimeTree::new(&primes, trimming);
            first.fill_with_num(num);
            let text = first.render();
            assert_ne!(text, "");
            assert_ne!(text, "0 and 1 are unrepresentable in trimmed notation");
            let mut second = PrimeTree::new(&primes, trimming);
            second.fill_with_num(num);
            assert_eq!(text, second.render(), "num {num} trimming {trimming}");
        }
    }
}
