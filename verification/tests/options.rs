use rplaylist::opts::{effective_creativity, effective_length};

#[test]
fn unparsable_length_falls_back_to_twenty() {
    // A request like "-l foo" fails to parse and is carried here as None.
    assert_eq!(effective_length(None), 20);
}

#[test]
fn parsed_length_is_used() {
    assert_eq!(effective_length(Some(6)), 6);
    assert_eq!(effective_length(Some(1)), 1);
    assert_eq!(effective_length(Some(1000)), 1000);
}

#[test]
fn non_positive_length_behaves_as_one() {
    assert_eq!(effective_length(Some(0)), 1);
    assert_eq!(effective_length(Some(-5)), 1);
}

#[test]
fn unparsable_creativity_falls_back_to_zero() {
    assert_eq!(effective_creativity(None), (0, 1));
}

#[test]
fn parsed_creativity_is_used() {
    assert_eq!(effective_creativity(Some((35, 100))), (35, 100));
    assert_eq!(effective_creativity(Some((2, 1))), (2, 1));
}
