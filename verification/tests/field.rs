use pazk::field::add_mod;
use pazk::field::mul_mod;
use pazk::field::pow_mod;
use pazk::field::reduce;
use pazk::hypercube::hypercube_size;
use pazk::hypercube::number_to_domain;

#[test]
fn residues_add_and_multiply() {
    assert_eq!(reduce(40, 17), 6);
    assert_eq!(add_mod(16, 5, 17), 4);
    assert_eq!(mul_mod(16, 16, 17), 1);
    // no overflow near the top of u64
    let m = u64::MAX - 58;
    assert_eq!(add_mod(m - 1, m - 1, m), m - 2);
    assert_eq!(mul_mod(m - 1, m - 1, m), 1);
}

#[test]
fn powers_are_taken_by_squaring() {
    assert_eq!(pow_mod(3, 4, 17), 13);
    assert_eq!(pow_mod(3, 0, 17), 1);
    assert_eq!(pow_mod(0, 0, 17), 1);
    assert_eq!(pow_mod(0, 5, 17), 0);
    // Fermat: a^(p-1) = 1
    assert_eq!(pow_mod(5, 16, 17), 1);
    assert_eq!(pow_mod(22, 16, 17), 1);
    assert_eq!(pow_mod(2, 1_000_000, 1_000_003), pow_mod(2, 1_000_000 % 1_000_002, 1_000_003));
}

#[test]
fn an_index_names_a_point_by_its_bits() {
    assert_eq!(number_to_domain(5, 4), vec![1, 0, 1, 0]);
    assert_eq!(number_to_domain(6, 3), vec![0, 1, 1]);
    assert_eq!(number_to_domain(6, 2), vec![0, 1]);
    assert_eq!(number_to_domain(0, 0), Vec::<u64>::new());
    // bits beyond the width of the index are zero
    let wide = number_to_domain(usize::MAX, 70);
    assert_eq!(wide.len(), 70);
    assert_eq!(wide.iter().sum::<u64>(), usize::BITS as u64);
}

#[test]
fn the_hypercube_size_is_a_power_of_two() {
    assert_eq!(hypercube_size(0), Some(1));
    assert_eq!(hypercube_size(3), Some(8));
    assert_eq!(hypercube_size(10), Some(1024));
    assert_eq!(hypercube_size(usize::BITS as usize - 1), Some(1usize << (usize::BITS - 1)));
    assert_eq!(hypercube_size(usize::BITS as usize), None);
    assert_eq!(hypercube_size(1000), None);
}
