use kv_session::ranges::{Span, VecSliceRange};

fn sp(start: usize, end: usize) -> Span {
    Span { start, end }
}

#[test]
fn test_vec_slice_range() {
    println!("asdfasdf {:?} asdfasdf", sp(10, 0));
    let mut a = VecSliceRange::try_from(vec![sp(0, 10), sp(20, 30)]);
    //test len
    assert!(a.len() == 20);
    //test try_shrink_end
    a.try_shrink_end(25);
    let expected = VecSliceRange::try_from(vec![sp(0, 10), sp(20, 25)]);
    assert!(a.get_ranges() == expected.get_ranges());

    let mut b = VecSliceRange::try_from(vec![sp(10, 20), sp(30, 40)]);
    // test sub_overall
    b.sub_overall(10);
    let expected = VecSliceRange::try_from(vec![sp(0, 10), sp(20, 30)]);
    assert!(b.get_ranges() == expected.get_ranges());

    //test extend_to
    b.extend_to(40);
    let expected = VecSliceRange::try_from(vec![sp(0, 10), sp(20, 40)]);
    assert!(b.get_ranges() == expected.get_ranges());
}

#[test]
fn shift_down_then_up_reproduces_ranges() {
    let mut a = VecSliceRange::try_from(vec![sp(5, 9), sp(12, 15)]);
    a.sub_overall(5);
    assert_eq!(a.get_ranges(), &[sp(0, 4), sp(7, 10)]);
    // re-adding the shift to every bound gives back the original spans
    let restored: Vec<Span> = a
        .get_ranges()
        .iter()
        .map(|r| sp(r.start + 5, r.end + 5))
        .collect();
    assert_eq!(restored, vec![sp(5, 9), sp(12, 15)]);
}

#[test]
fn extend_to_moves_end_forward() {
    let mut a = VecSliceRange::try_from(vec![sp(0, 3)]);
    assert_eq!(a.end(), 3);
    a.extend_to(3);
    assert_eq!(a.end(), 3);
    a.extend_to(7);
    assert_eq!(a.end(), 7);
    assert_eq!(a.start(), 0);
    assert_eq!(a.len(), 7);
}

#[test]
fn shrink_into_gap_changes_nothing() {
    let mut a = VecSliceRange::try_from(vec![sp(0, 2), sp(8, 11)]);
    assert!(!a.try_shrink_end(5));
    assert_eq!(a.get_ranges(), &[sp(0, 2), sp(8, 11)]);
    assert!(!a.try_shrink_end(12));
    assert_eq!(a.get_ranges(), &[sp(0, 2), sp(8, 11)]);
}

#[test]
fn shrink_at_span_start_removes_it() {
    let mut a = VecSliceRange::try_from(vec![sp(0, 2), sp(8, 11)]);
    assert!(a.try_shrink_end(8));
    assert_eq!(a.get_ranges(), &[sp(0, 2)]);
    assert_eq!(a.len(), 2);
}

#[test]
fn replace_rejects_malformed_spans() {
    // overlapping
    assert!(VecSliceRange::replace(vec![sp(0, 10), sp(5, 12)]).is_none());
    // backwards
    assert!(VecSliceRange::replace(vec![sp(3, 2)]).is_none());
    // out of order
    assert!(VecSliceRange::replace(vec![sp(6, 8), sp(0, 2)]).is_none());
    // touching spans are fine
    let t = VecSliceRange::replace(vec![sp(0, 2), sp(2, 4)]).unwrap();
    assert_eq!(t.get_ranges(), &[sp(0, 2), sp(2, 4)]);
}

#[test]
fn empty_tracker_is_the_empty_set() {
    let a = VecSliceRange::try_from(Vec::new());
    assert!(a.is_empty());
    assert_eq!(a.len(), 0);
    let b = VecSliceRange::from_span(sp(4, 4));
    assert!(!b.is_empty());
    assert_eq!(b.len(), 0);
    assert_eq!(b.start(), 4);
    assert_eq!(b.end(), 4);
}
