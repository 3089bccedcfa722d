use sudoku::mask::Mask;
use sudoku::{Entry, PubEntry, Unsolvable};

fn mask_of(digits: &[u8]) -> Mask {
    let mut m = Mask::none();
    for &d in digits {
        m = m.union(Mask::from_num(d));
    }
    m
}

#[test]
fn all_and_none() {
    assert_eq!(Mask::all().digits(), vec![1, 2, 3, 4, 5, 6, 7, 8, 9]);
    assert_eq!(Mask::none().digits(), Vec::<u8>::new());
    assert!(Mask::all().is_full());
    assert!(!Mask::all().is_empty());
    assert!(Mask::none().is_empty());
    assert!(!Mask::none().is_full());
    assert_eq!(Mask::all().n_possibilities(), 9);
    assert_eq!(Mask::none().n_possibilities(), 0);
}

#[test]
fn single_digit_masks() {
    for d in 1..=9u8 {
        let m = Mask::from_num(d);
        assert_eq!(m.digits(), vec![d]);
        assert_eq!(m.n_possibilities(), 1);
        assert_eq!(m.one_possibility(), d);
        assert_eq!(m.unique_num(), Ok(Some(d)));
        for other in 1..=9u8 {
            assert_eq!(m.contains(other), other == d);
        }
    }
}

#[test]
fn union_intersection_difference() {
    let a = mask_of(&[1, 3, 5, 9]);
    let b = mask_of(&[3, 4, 9]);
    assert_eq!(a.union(b).digits(), vec![1, 3, 4, 5, 9]);
    assert_eq!(a.intersect(b).digits(), vec![3, 9]);
    assert_eq!(a.without(b).digits(), vec![1, 5]);
    assert_eq!(b.without(a).digits(), vec![4]);
    assert_eq!(a.without(a), Mask::none());
    assert_eq!(a.union(Mask::all()), Mask::all());
    assert_eq!(a.intersect(Mask::none()), Mask::none());
    let mut c = a;
    c.remove(b);
    assert_eq!(c, a.without(b));
    c.remove(Mask::all());
    assert!(c.is_empty());
}

#[test]
fn counting_and_lowest() {
    assert_eq!(mask_of(&[2, 7]).n_possibilities(), 2);
    assert_eq!(mask_of(&[2, 7]).one_possibility(), 2);
    assert_eq!(mask_of(&[9]).one_possibility(), 9);
    assert_eq!(mask_of(&[4, 5, 6, 7, 8, 9]).n_possibilities(), 6);
    assert_eq!(mask_of(&[4, 5, 6, 7, 8, 9]).one_possibility(), 4);
    assert_eq!(Mask::all().one_possibility(), 1);
}

#[test]
fn classification() {
    assert_eq!(Mask::none().unique_num(), Err(Unsolvable));
    assert_eq!(mask_of(&[6]).unique_num(), Ok(Some(6)));
    assert_eq!(mask_of(&[1, 9]).unique_num(), Ok(None));
    assert_eq!(mask_of(&[8, 9]).unique_num(), Ok(None));
    assert_eq!(Mask::all().unique_num(), Ok(None));
}

#[test]
fn nth_possibility_counts_from_the_lowest() {
    let m = mask_of(&[2, 5, 6, 9]);
    assert_eq!(m.nth_possibility(0), 2);
    assert_eq!(m.nth_possibility(1), 5);
    assert_eq!(m.nth_possibility(2), 6);
    assert_eq!(m.nth_possibility(3), 9);
    for k in 0..9u8 {
        assert_eq!(Mask::all().nth_possibility(k), k + 1);
    }
}

#[test]
fn entry_coordinates() {
    let e = Entry { cell: 40, num: 7 };
    assert_eq!((e.cell(), e.row(), e.col(), e.field(), e.num()), (40, 4, 4, 4, 7));
    assert_eq!(e.mask(), Mask::from_num(7));
    let e = Entry { cell: 80, num: 1 };
    assert_eq!((e.row(), e.col(), e.field()), (8, 8, 8));
    let e = Entry { cell: 29, num: 1 };
    assert_eq!((e.row(), e.col(), e.field()), (3, 2, 3));
    let p = PubEntry { cell: 16, ch: 'x' };
    assert_eq!((p.row(), p.col(), p.field()), (1, 7, 2));
}
