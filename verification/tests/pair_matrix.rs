use palette_optimizer::pair_matrix::PairMatrix;

#[test]
fn pairs_of_n_items() {
    assert_eq!(PairMatrix::<u8>::triangle_number(1), 0);
    assert_eq!(PairMatrix::<u8>::triangle_number(2), 1);
    assert_eq!(PairMatrix::<u8>::triangle_number(3), 3);
    assert_eq!(PairMatrix::<u8>::triangle_number(4), 6);
    assert_eq!(PairMatrix::<u8>::triangle_number(5), 10);
    assert_eq!(PairMatrix::<u8>::triangle_number(128), 8128);
    assert_eq!(PairMatrix::<u8>::triangle_number(100003), 5000250003);
}

#[test]
fn items_from_their_pairs() {
    assert_eq!(PairMatrix::<u8>::inverse_triangle(0), 1);
    assert_eq!(PairMatrix::<u8>::inverse_triangle(1), 2);
    assert_eq!(PairMatrix::<u8>::inverse_triangle(3), 3);
    assert_eq!(PairMatrix::<u8>::inverse_triangle(6), 4);
    assert_eq!(PairMatrix::<u8>::inverse_triangle(8128), 128);
    for n in 1..2000 {
        let tri = PairMatrix::<u8>::triangle_number(n);
        assert_eq!(PairMatrix::<u8>::inverse_triangle(tri), n);
    }
    // between two triangles the root is rounded down: sqrt(1 + 8 * 4) = 5
    assert_eq!(PairMatrix::<u8>::inverse_triangle(4), 3);
    assert_eq!(PairMatrix::<u8>::inverse_triangle(5), 3);
    // sqrt(1 + 8 * 2) = 4
    assert_eq!(PairMatrix::<u8>::inverse_triangle(2), 2);
}

#[test]
fn places_in_the_triangle() {
    assert_eq!(PairMatrix::<u8>::ordered_pair_to_index((0, 1)), 0);
    assert_eq!(PairMatrix::<u8>::ordered_pair_to_index((0, 2)), 1);
    assert_eq!(PairMatrix::<u8>::ordered_pair_to_index((1, 2)), 2);
    assert_eq!(PairMatrix::<u8>::ordered_pair_to_index((0, 3)), 3);
    assert_eq!(PairMatrix::<u8>::ordered_pair_to_index((2, 3)), 5);
    // every pair of 30 items has a place of its own, and none is left empty
    let mut seen = vec![false; 435];
    for j in 1..30 {
        for i in 0..j {
            let index = PairMatrix::<u8>::ordered_pair_to_index((i, j));
            assert!(!seen[index]);
            seen[index] = true;
        }
    }
    assert!(seen.iter().all(|s| *s));
}

#[test]
fn default_matrix() {
    let mut matrix: PairMatrix<i32> = PairMatrix::new(4);
    assert_eq!(matrix.len(), 6);
    for j in 1..4 {
        for i in 0..j {
            assert_eq!(*matrix.index((i, j)), 0);
        }
    }
    *matrix.index_mut((1, 3)) = 7;
    *matrix.index_mut((0, 1)) = -2;
    assert_eq!(*matrix.index((1, 3)), 7);
    assert_eq!(*matrix.index((0, 1)), -2);
    assert_eq!(*matrix.index((2, 3)), 0);
    assert_eq!(*matrix.index((0, 3)), 0);
    assert_eq!(matrix.unordered_index((3, 1)), 7);
    assert_eq!(matrix.unordered_index((1, 3)), 7);
    assert_eq!(matrix.unordered_index((1, 0)), -2);
}

#[test]
fn matrix_of_one_item_is_empty() {
    let matrix: PairMatrix<i32> = PairMatrix::new(1);
    assert_eq!(format!("{:?}", matrix), "PairMatrix { data: [] }");
    let matrix = PairMatrix::new_populated(&vec![5u64], |a: &u64, b: &u64| a + b);
    assert_eq!(format!("{:?}", matrix), "PairMatrix { data: [] }");
}

#[test]
fn populated_matrix() {
    let base: Vec<i64> = vec![1, 10, 100, 1000, 10000];
    let matrix = PairMatrix::new_populated(&base, |a: &i64, b: &i64| *b - *a);
    assert_eq!(matrix.len(), 10);
    for j in 1..base.len() {
        for i in 0..j {
            assert_eq!(*matrix.index((i, j)), base[j] - base[i]);
            assert_eq!(matrix.unordered_index((i, j)), base[j] - base[i]);
            assert_eq!(matrix.unordered_index((j, i)), base[j] - base[i]);
        }
    }
    assert_eq!(*matrix.index((0, 1)), 9);
    assert_eq!(*matrix.index((2, 4)), 9900);
    assert_eq!(
        format!("{:?}", matrix),
        "PairMatrix { data: [9, 99, 90, 999, 990, 900, 9999, 9990, 9900, 9000] }"
    );
}
