use truncrate::SplitToBoundary;

#[test]
fn test_split_bytes() {
    let s = "🤚🏾a🤚 ";
    assert_eq!(s.split_to_offset(7), vec!("", "🤚🏾a🤚 "));
    assert_eq!(s.split_to_offset(9), vec!("🤚🏾a", "🤚 "));
}

#[test]
fn test_split_boundary() {
    let s = "🤚🏾a🤚 ";
    assert_eq!(s.split_to_boundary(1), vec!("", "🤚🏾a🤚 "));
    assert_eq!(s.split_to_boundary(2), vec!("🤚🏾", "a🤚 "));
    assert_eq!(s.split_to_boundary(3), vec!("🤚🏾a", "🤚 "));
    assert_eq!(s.split_to_boundary(4), vec!("🤚🏾a🤚", ""));
    assert_eq!(s.split_to_boundary(5), vec!(s));
    assert_eq!(s.split_to_boundary(6), vec!(s));
    assert_eq!(s.split_to_boundary(15), vec!(s));
}

#[test]
fn test_split_all() {
    let s = "🤚🏾a🤚 ";
    assert_eq!(s.split_all_to_boundary(3), vec!("🤚🏾a", "🤚 "));
    assert_eq!(s.split_all_to_boundary(4), vec!("🤚🏾a🤚"));
    assert_eq!(s.split_all_to_boundary(14), vec!("🤚🏾a🤚 "));

    let s1 = "🤚🏾a🤚🏾 ";
    assert_eq!(s1.split_all_to_boundary(1), vec!("a"));
    assert_eq!(s1.split_all_to_boundary(2), vec!("🤚🏾", "a", "🤚🏾"));
}

#[test]
fn split_offset_scenarios() {
    let s = "🤚🏾a🤚 ";
    assert_eq!(s.split_to_offset(8), vec!("🤚🏾", "a🤚 "));
    assert_eq!(s.split_to_offset(14), vec!(s));
    assert_eq!(s.split_to_offset(100), vec!(s));
}

#[test]
fn split_all_examples() {
    let s = "🤚🏾a🤚 ";
    assert_eq!(s.split_all_to_boundary(1), vec!("a", "🤚"));
    assert_eq!(s.split_all_to_boundary(2), vec!("🤚🏾", "a🤚"));
}

#[test]
fn split_empty_string() {
    let s = "";
    assert_eq!(s.split_to_boundary(0), vec!(""));
    assert_eq!(s.split_to_boundary(3), vec!(""));
    assert_eq!(s.split_to_offset(0), vec!(""));
    assert_eq!(s.split_to_offset(3), vec!(""));
    assert_eq!(s.split_all_to_boundary(3), Vec::<&str>::new());
}

#[test]
fn split_tail_left_trimmed() {
    let t = "a b";
    assert_eq!(t.split_to_boundary(1), vec!("a", "b"));
    assert_eq!(t.split_to_offset(1), vec!("a", "b"));
}

#[test]
fn split_all_whitespace_only() {
    let s = " \t  ";
    assert_eq!(s.split_all_to_boundary(2), Vec::<&str>::new());
    assert_eq!(s.split_all_to_boundary(100), Vec::<&str>::new());
}
