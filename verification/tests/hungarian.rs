use sisyphus::hungarian::{hungarian_algorithm, ArrayMatrix, Matrix};

#[test]
fn test_hungarian_algorithm() {
    let a = [[8, 4, 7], [5, 2, 3], [9, 4, 8]];
    let cost = hungarian_algorithm(&a);
    assert_eq!(cost, 15);
}

#[test]
fn hungarian_on_array_matrix_and_edge_cases() {
    let mut m: ArrayMatrix<u16, 4> = ArrayMatrix::new(2, 2);
    m.push(1);
    m.push(10);
    m.push(10);
    m.push(1);
    assert_eq!(m.shape(), (2, 2));
    assert_eq!(m.get(1, 0), 10);
    assert_eq!(hungarian_algorithm(&m), 2);

    let empty: [[u16; 0]; 0] = [];
    assert_eq!(hungarian_algorithm(&empty), 0);

    let one = [[42u16]];
    assert_eq!(hungarian_algorithm(&one), 42);

    // A total beyond 16 bits comes out as the maximum.
    let big = [[65535u16, 65535], [65535, 65535]];
    assert_eq!(hungarian_algorithm(&big), u16::MAX);
}

#[test]
fn hungarian_never_exceeds_an_assignment() {
    let m = [[4u16, 1, 3], [2, 0, 5], [3, 2, 2]];
    let best = hungarian_algorithm(&m);
    assert_eq!(best, 5);
    // every permutation costs at least the result
    let perms = [[0, 1, 2], [0, 2, 1], [1, 0, 2], [1, 2, 0], [2, 0, 1], [2, 1, 0]];
    for p in perms {
        let cost: u16 = (0..3).map(|r| m[r][p[r]]).sum();
        assert!(best <= cost);
    }
}

#[test]
fn hungarian_is_the_least_total() {
    let m = [[4u16, 1, 3], [2, 0, 5], [3, 2, 2]];
    let perms = [[0, 1, 2], [0, 2, 1], [1, 0, 2], [1, 2, 0], [2, 0, 1], [2, 1, 0]];
    let least = perms.iter().map(|p| (0..3).map(|r| m[r][p[r]] as u32).sum::<u32>()).min().unwrap();
    assert_eq!(hungarian_algorithm(&m) as u32, least);

    // Large entries whose least total still fits below the maximum.
    let wide = [[40000u16, 20000], [20000, 40000]];
    assert_eq!(hungarian_algorithm(&wide), 40000);
    let skew = [[65000u16, 1], [1, 65000]];
    assert_eq!(hungarian_algorithm(&skew), 2);

    // A least total of exactly the maximum gives the maximum.
    let edge = [[65535u16]];
    assert_eq!(hungarian_algorithm(&edge), u16::MAX);
}
