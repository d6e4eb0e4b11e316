use transcriptor::asr::{clean_text, es_control, group_tokens, recognized_text, strip_control, text_from_tokens};

fn toks(v: &[&str]) -> Vec<String> {
    v.iter().map(|s| s.to_string()).collect()
}

#[test]
fn control_tokens_are_recognized() {
    assert!(es_control("<|startofcontext|>"));
    assert!(es_control(" <|pnc|> "));
    assert!(es_control("<unk>"));
    assert!(es_control("</s>"));
    assert!(es_control("<blank>"));
    assert!(!es_control("hola"));
    assert!(!es_control("<hola>"));
    assert!(!es_control("<|"));
}

#[test]
fn control_tokens_leave_with_their_timings() {
    let tokens = toks(&["<|es|>", "▁ho", "la", "<unk>", "▁mundo"]);
    let ts: Option<Vec<u32>> = Some(vec![0, 1, 2, 3, 4]);
    let ds: Option<Vec<u32>> = Some(vec![9, 8, 7]);
    let s = strip_control(&tokens, &ts, &ds);
    assert_eq!(s.tokens, vec!["▁ho", "la", "▁mundo"]);
    assert_eq!(s.timestamps, Some(vec![1, 2, 4]));
    // Durations that do not line up with the tokens are dropped altogether.
    assert_eq!(s.durations, None);
}

#[test]
fn marks_are_removed_from_loose_text() {
    assert_eq!(clean_text("<|es|><|pnc|>Hola   que <|x|> tal"), "Hola que tal");
    assert_eq!(clean_text("sin marcas"), "sin marcas");
    assert_eq!(clean_text("corta <|sin cerrar"), "corta");
    assert_eq!(clean_text("   "), "");
}

#[test]
fn text_is_rebuilt_from_tokens() {
    assert_eq!(text_from_tokens(&toks(&["▁Ho", "la", "▁que", " tal"])), "Hola que tal");
    assert_eq!(text_from_tokens(&toks(&["▁", "▁a"])), "a");
    assert_eq!(text_from_tokens(&[]), "");
}

#[test]
fn recognized_text_prefers_tokens() {
    assert_eq!(recognized_text("<|es|>crudo", &[]), "crudo");
    assert_eq!(recognized_text("<|es|>crudo", &toks(&["▁bien"])), "bien");
}

#[test]
fn tokens_group_into_words() {
    let w = group_tokens(&toks(&["▁Ho", "la", "▁", "▁que", " tal", "es"]));
    let got: Vec<(String, usize, usize)> = w.into_iter().map(|w| (w.text, w.first, w.last)).collect();
    assert_eq!(
        got,
        vec![("Hola".to_string(), 0, 1), ("que".to_string(), 3, 3), ("tales".to_string(), 4, 5)]
    );
}
