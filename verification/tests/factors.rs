use design_project_m11::readwrite::{factors, opt_chunk_size};

#[test]
fn factors_of_small_numbers() {
    assert_eq!(factors(12), vec![2, 2, 3]);
    assert_eq!(factors(360), vec![2, 2, 2, 3, 3, 5]);
    assert_eq!(factors(2), vec![2]);
    assert_eq!(factors(97), vec![97]);
    assert_eq!(factors(1001), vec![7, 11, 13]);
}

#[test]
fn factors_below_two_are_empty() {
    assert_eq!(factors(1), Vec::<i64>::new());
    assert_eq!(factors(0), Vec::<i64>::new());
    assert_eq!(factors(-12), Vec::<i64>::new());
}

#[test]
fn factors_multiply_back_to_the_number() {
    for n in 1..500i64 {
        let f = factors(n);
        assert_eq!(f.iter().product::<i64>(), n);
        for w in f.windows(2) {
            assert!(w[0] <= w[1]);
        }
        for p in &f {
            assert!((2..*p).all(|d| p % d != 0));
        }
    }
}

#[test]
fn factors_of_a_large_prime_power() {
    assert_eq!(factors(1 << 40), vec![2; 40]);
}

#[test]
fn chunk_size_takes_the_largest_factors() {
    // 720 = 2^4 * 3^2 * 5; the six largest factors are 2, 2, 2, 3, 3, 5
    assert_eq!(opt_chunk_size(&vec![720], 6), (360, 0, 0));
    assert_eq!(opt_chunk_size(&vec![720, 4], 6), (360, 4, 0));
    assert_eq!(opt_chunk_size(&vec![720, 4, 5], 6), (360, 4, 5));
    assert_eq!(opt_chunk_size(&vec![720, 4, 5], 2), (15, 4, 5));
    assert_eq!(opt_chunk_size(&vec![720, 4, 5], 0), (1, 4, 5));
}

#[test]
fn chunk_size_of_more_than_three_dimensions_is_zero() {
    assert_eq!(opt_chunk_size(&vec![720, 4, 5, 6], 6), (0, 0, 0));
}

#[test]
fn chunk_size_divides_the_row_count() {
    for rows in [64usize, 720, 1000, 4096, 167936] {
        let n = factors(rows as i64).len().min(6);
        let (size, _, _) = opt_chunk_size(&vec![rows], n);
        assert!(size >= 1);
        assert_eq!(rows % size, 0);
    }
}

#[test]
fn factors_of_a_product_merge_those_of_its_parts() {
    for a in 1..60i64 {
        for b in 1..60i64 {
            let mut merged = factors(a);
            merged.extend(factors(b));
            merged.sort();
            assert_eq!(factors(a * b), merged);
        }
    }
}
