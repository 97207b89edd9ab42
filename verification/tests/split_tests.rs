use pg_glot_hybrid::split::split_middle_dot;

#[test]
fn split_middle_dot_offsets_and_segments() {
    assert_eq!(split_middle_dot("東京", 0), vec![("東京", 0, 6)]);
    let s = "トーマス・エジソン";
    let parts = split_middle_dot(s, 10);
    let surfs: Vec<&str> = parts.iter().map(|p| p.0).collect();
    assert_eq!(surfs, vec!["トーマス", "エジソン"]);
    for (sub, start, end) in parts {
        assert_eq!(&s[start - 10..end - 10], sub);
    }
    assert_eq!(
        split_middle_dot("・A･･B・", 0)
            .iter()
            .map(|p| p.0)
            .collect::<Vec<_>>(),
        vec!["A", "B"]
    );
    assert!(split_middle_dot("・･", 0).is_empty());
}

#[test]
fn split_middle_dot_empty_surface_is_returned_whole() {
    assert_eq!(split_middle_dot("", 7), vec![("", 7, 7)]);
}

#[test]
fn split_middle_dot_offsets_skip_the_dot_bytes() {
    // "A・B": A at byte 0, the dot at bytes 1..4, B at byte 4.
    assert_eq!(split_middle_dot("A・B", 100), vec![("A", 100, 101), ("B", 104, 105)]);
    // Half-width dot between multi-byte pieces.
    assert_eq!(split_middle_dot("東･京", 0), vec![("東", 0, 3), ("京", 6, 9)]);
}

#[test]
fn middle_dot_byte_patterns() {
    assert_eq!("・".as_bytes(), &[0xE3, 0x83, 0xBB]);
    assert_eq!("･".as_bytes(), &[0xEF, 0xBD, 0xA5]);
    // A lone lead byte of another character is not mistaken for a dot.
    assert_eq!(split_middle_dot("ｦ・", 0), vec![("ｦ", 0, 3)]);
}
