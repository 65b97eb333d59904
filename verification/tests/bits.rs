use sisyphus::bits::{Bitvector, BitvectorIter, Index, LazyBitboard, Position};

fn collect(mut it: BitvectorIter) -> Vec<Index> {
    let mut out = Vec::new();
    while let Some(i) = it.next() {
        out.push(i);
    }
    out
}

#[test]
fn test_bitvector_get_set() {
    let mut bv = Bitvector::new();
    assert!(!bv.contains(Index(0)));
    assert!(!bv.contains(Index(5)));
    assert!(!bv.contains(Index(63)));

    bv.add(Index(5));
    assert!(!bv.contains(Index(0)));
    assert!(bv.contains(Index(5)));
    assert!(!bv.contains(Index(63)));

    bv.add(Index(0));
    bv.add(Index(63));
    assert!(bv.contains(Index(0)));
    assert!(bv.contains(Index(5)));
    assert!(bv.contains(Index(63)));
}

#[test]
fn test_bitvector_is_empty() {
    let mut bv = Bitvector::new();
    assert!(bv.is_empty());

    bv.add(Index(0));
    assert!(!bv.is_empty());

    bv.add(Index(63));
    assert!(!bv.is_empty());
}

#[test]
fn test_bitvector_len() {
    let mut bv = Bitvector::new();
    assert_eq!(bv.len(), 0);

    bv.add(Index(0));
    assert_eq!(bv.len(), 1);

    bv.add(Index(5));
    assert_eq!(bv.len(), 2);

    bv.add(Index(63));
    assert_eq!(bv.len(), 3);

    // Setting the same bit again should not change length
    bv.add(Index(5));
    assert_eq!(bv.len(), 3);
}

#[test]
fn test_bitvector_iter() {
    let mut bv = Bitvector::new();
    bv.add(Index(0));
    bv.add(Index(5));
    bv.add(Index(10));
    bv.add(Index(63));

    let indexes: Vec<Index> = collect(bv.iter());
    assert_eq!(indexes, vec![Index(0), Index(5), Index(10), Index(63)]);
}

#[test]
fn test_bitvector_iter_empty() {
    let bv = Bitvector::new();
    let indexes: Vec<Index> = collect(bv.iter());
    assert_eq!(indexes, Vec::<Index>::new());
}

#[test]
fn test_bitvector_iter_all() {
    let mut bv = Bitvector::new();
    for i in 0..64 {
        bv.add(Index(i));
    }
    let indexes: Vec<Index> = collect(bv.iter());
    assert_eq!(indexes.len(), 64);
    let expected: Vec<Index> = (0..64).map(|i| Index(i as u8)).collect();
    assert_eq!(indexes, expected);
}

#[test]
fn bitvector_full_union_and_remove() {
    let full = Bitvector::full(3);
    assert_eq!(full.len(), 3);
    assert!(full.contains(Index(2)));
    assert!(!full.contains(Index(3)));
    let mut other = Bitvector::new();
    other.add(Index(10));
    let both = full.union(&other);
    assert_eq!(both.len(), 4);
    assert!(both.contains_all(&other));
    assert!(both.contains_any(&other));
    let mut rest = both;
    rest.remove_all(&full);
    assert_eq!(collect(rest.iter()), vec![Index(10)]);
    rest.remove(Index(10));
    assert!(rest.is_empty());
    assert_eq!(Bitvector::full(64).len(), 64);
}

#[test]
fn lazy_bitboard_set_get_and_top_left() {
    let mut b = LazyBitboard::new();
    assert!(!b.get(Position(3, 4)));
    assert_eq!(b.top_left(), None);
    b.set(Position(3, 4));
    b.set(Position(1, 7));
    b.set(Position(63, 2));
    assert!(b.get(Position(3, 4)));
    assert!(!b.get(Position(4, 3)));
    assert_eq!(b.top_left(), Some(Position(63, 2)));
    let mut c = LazyBitboard::new();
    c.set(Position(0, 0));
    b.set_all(&c);
    assert_eq!(b.top_left(), Some(Position(0, 0)));
    b.clear();
    assert!(!b.get(Position(3, 4)));
}
