use truncrate::SplitInplaceToBoundary;
use truncrate::SplitToBoundary;
use truncrate::sanitize_string_vec;

#[test]
fn test_inplace_vector_chaining_boundry() {
    let mut s = vec!("🤚🏾a🤚 ", "🤚🤚🤚 ");
    s.split_to_boundary_inplace(1).split_to_boundary_inplace(1).split_to_boundary_inplace(1);
    assert_eq!(s, vec!("🤚🏾a🤚 ", "🤚", "🤚", "🤚", ""));

    let mut s1 = vec!("🤚🏾a🤚 ", "🤚🏾 🤚 ");
    s1.split_to_boundary_inplace(1);
    assert_eq!(s1, vec!("🤚🏾a🤚 ", "", "🤚🏾 🤚 "));
    s1.split_to_boundary_inplace(3);
    assert_eq!(s1, vec!("🤚🏾a🤚 ", "", "🤚🏾", "🤚 "));
}

#[test]
fn test_test_vector_chaining_offset() {
    let mut s = vec!("🤚🏾a🤚 ", "🤚🏾🤚🏾🤚🏾  ");
    s.split_to_offset_inplace(9).split_to_offset_inplace(8).split_to_offset_inplace(10);
    assert_eq!(s, vec!("🤚🏾a🤚 ", "🤚🏾", "🤚🏾", "🤚🏾  "));
}

#[test]
fn test_vector_split_all() {
    let s = vec!("🤚🏾a🤚 ", "🤚🤚🤚 ");
    assert_eq!(s.split_all_to_boundary(1), vec!("🤚🏾a🤚 ", "🤚", "🤚", "🤚"));
    let s1 = vec!("🤚🏾a🤚 ", "🤚🏾a🤚🏾 ");
    assert_eq!(s1.split_all_to_boundary(1), vec!("🤚🏾a🤚 ", "a"));
    assert_eq!(s1.split_all_to_boundary(2), vec!("🤚🏾a🤚 ", "🤚🏾", "a", "🤚🏾"));
}

#[test]
fn vector_split_last_element() {
    let s = vec!("a", "🤚🏾a🤚 ");
    assert_eq!(s.split_to_boundary(2), vec!("a", "🤚🏾", "a🤚 "));
    assert_eq!(s.split_to_offset(9), vec!("a", "🤚🏾a", "🤚 "));

    let empty: Vec<&str> = Vec::new();
    assert_eq!(empty.split_to_boundary(2), Vec::<&str>::new());
    assert_eq!(empty.split_to_offset(2), Vec::<&str>::new());
    assert_eq!(empty.split_all_to_boundary(2), Vec::<&str>::new());
}

#[test]
fn inplace_chaining_stops_when_exhausted() {
    let mut s = vec!("a", "🤚🏾a🤚 ");
    s.split_to_offset_inplace(9).split_to_offset_inplace(9);
    assert_eq!(s, vec!("a", "🤚🏾a", "🤚 "));
}

#[test]
fn inplace_sentinel_placeholders() {
    let mut v = vec!("");
    v.split_to_offset_inplace(3);
    assert_eq!(v, vec!("", ""));

    let mut w = vec!("x", " ");
    w.split_to_boundary_inplace(1);
    assert_eq!(w, vec!("x", "", ""));

    let mut empty: Vec<&str> = Vec::new();
    empty.split_to_boundary_inplace(1);
    assert_eq!(empty, Vec::<&str>::new());
    empty.split_to_offset_inplace(1);
    assert_eq!(empty, Vec::<&str>::new());
}

#[test]
fn sanitize_removes_blank_entries() {
    let v = vec!("a", "", " ", "b ", "\t");
    assert_eq!(sanitize_string_vec(v), vec!("a", "b "));

    let empty: Vec<&str> = Vec::new();
    assert_eq!(sanitize_string_vec(empty), Vec::<&str>::new());

    let blanks = vec!("", "  ", "\t\t");
    assert_eq!(sanitize_string_vec(blanks), Vec::<&str>::new());
}
