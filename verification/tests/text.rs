use transcriptor::text::trimmed_str;

#[test]
fn whitespace_is_what_std_calls_whitespace() {
    for u in 0u32..=0x3100 {
        if let Some(c) = char::from_u32(u) {
            let s = format!("{c}x{c}");
            let t: String = trimmed_str(&s).into_iter().collect();
            assert_eq!(t, s.trim(), "U+{u:04X}");
        }
    }
}
