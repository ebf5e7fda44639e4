use hanzi_core::ink::{Ink, GRID};

#[test]
fn an_empty_box_has_no_ink() {
    let ink = Ink::empty();
    assert!(ink.is_empty());
    assert_eq!(ink.count(), 0);
}

#[test]
fn inking_a_cell_twice_counts_it_once() {
    let mut ink = Ink::empty();
    ink.set(3, 4);
    ink.set(3, 4);
    ink.set(GRID - 1, GRID - 1);
    assert_eq!(ink.count(), 2);
    assert!(!ink.is_empty());
}

#[test]
fn joining_drawings_counts_the_cells_of_either_and_sharing_counts_those_of_both() {
    let mut a = Ink::empty();
    let mut b = Ink::empty();
    for x in 0..10 {
        a.set(x, 0);
    }
    for x in 5..20 {
        b.set(x, 0);
    }
    b.set(0, 200);
    assert_eq!(a.intersection_count(&b), 5);
    assert_eq!(b.intersection_count(&a), 5);
    let mut joined = a.clone();
    joined.or_with(&b);
    assert_eq!(joined.count(), 21);
    assert_eq!(joined.intersection_count(&a), 10);
}
