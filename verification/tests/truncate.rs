use truncrate::TruncateToBoundary;

#[test]
fn test() {
    let s = "🤚🏾a🤚🏾 🤚🏾\t 🤚🏾";

    assert_eq!(s.truncate_to_boundary(1), "");
    assert_eq!(s.truncate_to_boundary(2), "🤚🏾");
    assert_eq!(s.truncate_to_boundary(3), "🤚🏾a");
    assert_eq!(s.truncate_to_boundary(4), "🤚🏾a");
    assert_eq!(s.truncate_to_boundary(6), "🤚🏾a🤚🏾");
    assert_eq!(s.truncate_to_boundary(7), "🤚🏾a🤚🏾");
    assert_eq!(s.truncate_to_boundary(8), "🤚🏾a🤚🏾 🤚🏾");
    assert_eq!(s.truncate_to_boundary(9), "🤚🏾a🤚🏾 🤚🏾");
    assert_eq!(s.truncate_to_boundary(10), "🤚🏾a🤚🏾 🤚🏾");
    assert_eq!(s.truncate_to_boundary(11), "🤚🏾a🤚🏾 🤚🏾");
    assert_eq!(s.truncate_to_boundary(12), s);
}

#[test]
fn test_non_trucated_string() {
    let s = "🤚🏾a🤚🏾 🤚🏾  🤚🏾";

    assert_eq!(s.truncate_to_boundary(100), s);
    assert_eq!(s.truncate_to_boundary(s.chars().count()), s);
    assert_eq!(s.truncate_to_boundary(0), "");
}

#[test]
fn truncate_non_split_grapheme() {
    let s = "🤚🏾a🤚 🤚🏾\t 🤚    ";

    assert_eq!(s.truncate_to_boundary(4), "🤚🏾a🤚");
    assert_eq!(s.truncate_to_boundary(5), "🤚🏾a🤚");
    assert_eq!(s.truncate_to_boundary(6), "🤚🏾a🤚");
    assert_eq!(s.truncate_to_boundary(7), "🤚🏾a🤚 🤚🏾");
    assert_eq!(s.truncate_to_boundary(8), "🤚🏾a🤚 🤚🏾");
    assert_eq!(s.truncate_to_boundary(9), "🤚🏾a🤚 🤚🏾");
    assert_eq!(s.truncate_to_boundary(10), "🤚🏾a🤚 🤚🏾\t 🤚");
    assert_eq!(s.truncate_to_boundary(11), "🤚🏾a🤚 🤚🏾\t 🤚");
    assert_eq!(s.truncate_to_boundary(12), "🤚🏾a🤚 🤚🏾\t 🤚");
    assert_eq!(s.truncate_to_boundary(20), s);
}

#[test]
fn truncate_non_split_grapheme_with_whitespace() {
    let s = " 🤚🏾a🤚 🤚🏾\t 🤚    ";

    assert_eq!(s.truncate_to_boundary(5), " 🤚🏾a🤚");
    assert_eq!(s.truncate_to_boundary(6), " 🤚🏾a🤚");
    assert_eq!(s.truncate_to_boundary(7), " 🤚🏾a🤚");
    assert_eq!(s.truncate_to_boundary(8), " 🤚🏾a🤚 🤚🏾");
    assert_eq!(s.truncate_to_boundary(9), " 🤚🏾a🤚 🤚🏾");
    assert_eq!(s.truncate_to_boundary(10), " 🤚🏾a🤚 🤚🏾");
    assert_eq!(s.truncate_to_boundary(11), " 🤚🏾a🤚 🤚🏾\t 🤚");
    assert_eq!(s.truncate_to_boundary(12), " 🤚🏾a🤚 🤚🏾\t 🤚");
    assert_eq!(s.truncate_to_boundary(13), " 🤚🏾a🤚 🤚🏾\t 🤚");
    assert_eq!(s.truncate_to_boundary(21), s);
}

#[test]
fn truncate_to_bytes() {
    let s = "🤚🏾a🤚 ";

    assert_eq!(s.truncate_to_byte_offset(1), "");
    assert_eq!(s.truncate_to_byte_offset(2), "");
    assert_eq!(s.truncate_to_byte_offset(13), "🤚🏾a🤚");
    assert_eq!(s.truncate_to_byte_offset(14), s);
    assert_eq!(s.truncate_to_byte_offset(18), s);
    assert_eq!(s.truncate_to_byte_offset(100), s);
}

#[test]
fn truncate_boundary_scenarios() {
    let s = "🤚🏾a🤚🏾 ";

    assert_eq!(s.truncate_to_boundary(1), "");
    assert_eq!(s.truncate_to_boundary(2), "🤚🏾");
    assert_eq!(s.truncate_to_boundary(3), "🤚🏾a");
    assert_eq!(s.truncate_to_boundary(4), "🤚🏾a");
    assert_eq!(s.truncate_to_boundary(5), "🤚🏾a🤚🏾");
    assert_eq!(s.truncate_to_boundary(10), s);
}

#[test]
fn truncate_offset_scenarios() {
    let s = "🤚🏾a🤚 ";

    assert_eq!(s.truncate_to_byte_offset(0), "");
    assert_eq!(s.truncate_to_byte_offset(7), "");
    assert_eq!(s.truncate_to_byte_offset(8), "🤚🏾");
    assert_eq!(s.truncate_to_byte_offset(9), "🤚🏾a");
    assert_eq!(s.truncate_to_byte_offset(10), "🤚🏾a");
    assert_eq!(s.truncate_to_byte_offset(14), s);
}

#[test]
fn truncate_empty_string() {
    let s = "";

    assert_eq!(s.truncate_to_boundary(0), "");
    assert_eq!(s.truncate_to_boundary(5), "");
    assert_eq!(s.truncate_to_byte_offset(0), "");
    assert_eq!(s.truncate_to_byte_offset(5), "");
}

#[test]
fn truncate_is_idempotent_on_samples() {
    let s = "🤚🏾a🤚 🤚🏾\t 🤚    ";
    for n in 0..25 {
        let once = s.truncate_to_boundary(n);
        assert_eq!(once.truncate_to_boundary(n), once);
    }
    for m in 0..30 {
        let once = s.truncate_to_byte_offset(m);
        assert_eq!(once.truncate_to_byte_offset(m), once);
    }
}

#[test]
fn slice_indices_scenarios() {
    let s = "🤚🏾a🤚🏾 ";
    assert_eq!(s.slice_indices_at_boundary(2), ("🤚🏾", 8));
    assert_eq!(s.slice_indices_at_boundary(0), ("", 0));
    assert_eq!(s.slice_indices_at_boundary(100), (s, s.len()));

    let t = "🤚🏾🤚🏾 ";
    assert_eq!(t.slice_indices_at_offset(9), ("🤚🏾", 8));
    assert_eq!(t.slice_indices_at_offset(100), (t, t.len()));
}
