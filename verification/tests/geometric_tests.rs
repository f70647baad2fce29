use orlando_transducers::geometric_optics::{blade_grade, blades_at_grade_count, grade_indices};

#[test]
fn test_blade_grade_scalar() {
    assert_eq!(blade_grade(0), 0);
}

#[test]
fn test_blade_grade_vectors() {
    assert_eq!(blade_grade(0b001), 1); // e1
    assert_eq!(blade_grade(0b010), 1); // e2
    assert_eq!(blade_grade(0b100), 1); // e3
}

#[test]
fn test_blade_grade_bivectors() {
    assert_eq!(blade_grade(0b011), 2); // e12
    assert_eq!(blade_grade(0b101), 2); // e13
    assert_eq!(blade_grade(0b110), 2); // e23
}

#[test]
fn test_blade_grade_trivector() {
    assert_eq!(blade_grade(0b111), 3); // e123
}

#[test]
fn test_blades_at_grade_count_3d() {
    assert_eq!(blades_at_grade_count(3, 0), 1);
    assert_eq!(blades_at_grade_count(3, 1), 3);
    assert_eq!(blades_at_grade_count(3, 2), 3);
    assert_eq!(blades_at_grade_count(3, 3), 1);
    assert_eq!(blades_at_grade_count(3, 4), 0);
}

#[test]
fn test_blades_at_grade_count_4d() {
    assert_eq!(blades_at_grade_count(4, 0), 1);
    assert_eq!(blades_at_grade_count(4, 1), 4);
    assert_eq!(blades_at_grade_count(4, 2), 6);
    assert_eq!(blades_at_grade_count(4, 3), 4);
    assert_eq!(blades_at_grade_count(4, 4), 1);
}

#[test]
fn test_grade_indices_3d() {
    assert_eq!(grade_indices(3, 0), vec![0]);
    assert_eq!(grade_indices(3, 1), vec![1, 2, 4]);
    assert_eq!(grade_indices(3, 2), vec![3, 5, 6]);
    assert_eq!(grade_indices(3, 3), vec![7]);
}

#[test]
fn test_binomial_sum() {
    for n in 0..8 {
        let sum: usize = (0..=n).map(|k| blades_at_grade_count(n, k)).sum();
        assert_eq!(sum, 1 << n);
    }
}

#[test]
fn test_4d_grade_indices() {
    // Grade 2 in 4D: C(4,2) = 6 bivectors
    let indices = grade_indices(4, 2);
    assert_eq!(indices.len(), 6);
    // All should have exactly 2 bits set
    for idx in &indices {
        assert_eq!(blade_grade(*idx), 2);
    }
}

#[test]
fn blade_grade_of_all_bits() {
    assert_eq!(blade_grade(usize::MAX), usize::BITS);
}

#[test]
fn larger_binomials() {
    assert_eq!(blades_at_grade_count(10, 5), 252);
    assert_eq!(blades_at_grade_count(20, 10), 184756);
    assert_eq!(blades_at_grade_count(20, 19), 20);
}

#[test]
fn grade_indices_count_matches_binomial() {
    for n in 0..10u32 {
        for k in 0..=n {
            assert_eq!(grade_indices(n, k).len(), blades_at_grade_count(n, k));
        }
    }
}
