use transcriptor::sorting::lex_less;

fn c(s: &str) -> Vec<char> {
    s.chars().collect()
}

#[test]
fn texts_compare_as_strings_do() {
    for (a, b) in [("a", "b"), ("ab", "abc"), ("", "a"), ("abc", "abd"), ("zeta", "álamo"), ("Z", "a")] {
        assert_eq!(lex_less(&c(a), &c(b)), a < b, "{a} < {b}");
        assert_eq!(lex_less(&c(b), &c(a)), b < a, "{b} < {a}");
    }
    assert!(!lex_less(&c("igual"), &c("igual")));
}
