use infostop::partition::{candidate_modules, next_free_module, relabel_dense};
use infostop::rng::Rng64;

#[test]
fn rng_new_forces_odd_state_and_steps_xorshift() {
    let mut rng = Rng64::new(42);
    assert_eq!(rng.next_u64(), 46537075435);
    assert_eq!(rng.next_u64(), 12685210767805585150);
    assert_eq!(rng.next_u64(), 1156789259011059539);
}

#[test]
fn rng_zero_seed_is_not_stuck() {
    let mut rng = Rng64::new(0);
    let mut one = Rng64::new(1);
    let a = rng.next_u64();
    assert_ne!(a, 0);
    assert_eq!(a, one.next_u64());
}

#[test]
fn rng_gen_range_zero_len_does_not_advance() {
    let mut a = Rng64::new(42);
    let mut b = Rng64::new(42);
    assert_eq!(a.gen_range(0), 0);
    assert_eq!(a.next_u64(), b.next_u64());
}

#[test]
fn rng_gen_range_value() {
    let mut rng = Rng64::new(42);
    assert_eq!(rng.gen_range(10), 5);
}

#[test]
fn rng_shuffle_known_permutation() {
    let mut rng = Rng64::new(42);
    let mut items: Vec<usize> = (0..6).collect();
    rng.shuffle(&mut items);
    assert_eq!(items, vec![2, 5, 4, 3, 0, 1]);
}

#[test]
fn rng_shuffle_same_seed_same_order_and_permutation() {
    let mut a = Rng64::new(7);
    let mut b = Rng64::new(7);
    let mut x: Vec<usize> = (0..20).collect();
    let mut y: Vec<usize> = (0..20).collect();
    a.shuffle(&mut x);
    b.shuffle(&mut y);
    assert_eq!(x, y);
    let mut sorted = x.clone();
    sorted.sort();
    assert_eq!(sorted, (0..20).collect::<Vec<usize>>());
}

#[test]
fn rng_shuffle_short_inputs_untouched() {
    let mut rng = Rng64::new(3);
    let mut empty: Vec<usize> = Vec::new();
    rng.shuffle(&mut empty);
    assert!(empty.is_empty());
    let mut one = vec![9usize];
    rng.shuffle(&mut one);
    assert_eq!(one, vec![9]);
}

#[test]
fn next_free_module_values() {
    assert_eq!(next_free_module(&vec![]), 1);
    assert_eq!(next_free_module(&vec![0, 3, 1]), 4);
    assert_eq!(next_free_module(&vec![0]), 1);
}

#[test]
fn relabel_dense_first_occurrence_order() {
    assert_eq!(relabel_dense(&vec![5, 5, 2, 7, 2]), vec![0, 0, 1, 2, 1]);
    assert_eq!(relabel_dense(&vec![]), Vec::<usize>::new());
    assert_eq!(relabel_dense(&vec![3, 2, 1, 0]), vec![0, 1, 2, 3]);
}

#[test]
fn relabel_dense_is_idempotent_on_example() {
    let once = relabel_dense(&vec![9, 4, 9, 1, 4]);
    assert_eq!(relabel_dense(&once), once);
}

#[test]
fn candidate_modules_sorted_and_unique() {
    let partition = vec![4, 2, 4, 0, 7];
    let out = candidate_modules(&partition, &vec![2, 1, 0, 3], 4);
    assert_eq!(out, vec![0, 2, 4, 7]);
    let alone = candidate_modules(&partition, &vec![], 1);
    assert_eq!(alone, vec![2]);
}
