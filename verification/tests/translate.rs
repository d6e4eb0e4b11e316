use transcriptor::translate::lowered_abbrev;
use transcriptor::translate::assemble;
use transcriptor::translate::{
    frame_source, is_abbrev, is_special, join_translated, plan_batch, split_sentences, strip_special, MtOptions,
    MAX_SENTENCE_CHARS,
};

fn split(t: &str) -> Vec<String> {
    split_sentences(t, MAX_SENTENCE_CHARS)
}

#[test]
fn parte_donde_termina_la_frase() {
    // Este es el caso real que perdía texto con opus-mt.
    let v = split("si te llegan a decir que lo descuartizaron, no pasa nada. Tú sigue con tu vida");
    assert_eq!(
        v,
        vec!["si te llegan a decir que lo descuartizaron, no pasa nada.", "Tú sigue con tu vida"]
    );
}

#[test]
fn respeta_abreviaturas_y_decimales() {
    assert_eq!(split("Habló el Sr. Gómez ayer").len(), 1);
    assert_eq!(split("Costó 3.5 millones de pesos").len(), 1);
    assert_eq!(split("Vino J. Pérez a la audiencia").len(), 1);
}

#[test]
fn no_parte_de_mas() {
    assert_eq!(split("¿Qué onda? ¿Cómo estás hijo?").len(), 2);
    assert_eq!(split("¿En serio?! No puede ser.").len(), 2);
    assert_eq!(split("Eso... eso no me lo esperaba").len(), 1);
}

#[test]
fn corta_las_frases_larguisimas() {
    let larga = "hablamos de esto, y de aquello, y de lo otro, ".repeat(12);
    let v = split(&larga);
    assert!(v.len() > 1);
    assert!(v.iter().all(|s| s.chars().count() <= MAX_SENTENCE_CHARS));
}

#[test]
fn nada_se_pierde_al_partir() {
    let t = "Primero esto. Después lo otro. Y al final lo de más allá.";
    let v = split(t);
    let junto: String = v.join(" ").split_whitespace().collect::<Vec<_>>().join(" ");
    let orig: String = t.split_whitespace().collect::<Vec<_>>().join(" ");
    assert_eq!(junto, orig);
}

#[test]
fn reconoce_tokens_especiales() {
    assert!(is_special("</s>"));
    assert!(is_special("<unk>"));
    assert!(is_special("eng_Latn"));
    assert!(is_special("spa_Latn"));
    assert!(!is_special("hearing"));
    assert!(!is_special("▁audiencia"));
}

#[test]
fn empty_and_blank_text_give_no_sentence() {
    assert!(split("").is_empty());
    assert!(split("   ").is_empty());
}

#[test]
fn abbreviations_are_known() {
    let v: Vec<char> = "el Sr".chars().collect();
    assert!(is_abbrev(&v));
    let v: Vec<char> = "vino J".chars().collect();
    assert!(is_abbrev(&v));
    let v: Vec<char> = "la casa".chars().collect();
    assert!(!is_abbrev(&v));
}

#[test]
fn a_batch_keeps_each_block_apart() {
    let texts = vec!["Uno. Dos.".to_string(), "".to_string(), "Tres".to_string()];
    let b = plan_batch(&texts, MAX_SENTENCE_CHARS);
    assert_eq!(b.sentences, vec!["Uno.", "Dos.", "Tres"]);
    assert_eq!(b.ranges, vec![(0, 2), (2, 2), (2, 3)]);
}

#[test]
fn translated_pieces_are_joined_with_spaces() {
    let parts = vec!["  One. ".to_string(), "   ".to_string(), "Two.".to_string()];
    assert_eq!(join_translated(&parts), "One. Two.");
    assert_eq!(join_translated(&[]), "");
}

#[test]
fn nllb_input_is_framed_and_output_cleaned() {
    let framed = frame_source(vec!["▁hola".to_string(), "▁mundo".to_string()]);
    assert_eq!(framed, vec!["spa_Latn", "▁hola", "▁mundo", "</s>"]);
    let clean = strip_special(vec![
        "eng_Latn".to_string(),
        "▁hello".to_string(),
        "<unk>".to_string(),
        "▁world".to_string(),
        "</s>".to_string(),
    ]);
    assert_eq!(clean, vec!["▁hello", "▁world"]);
}

#[test]
fn translator_defaults() {
    let o = MtOptions::default();
    assert_eq!((o.beam_size, o.max_output_tokens, o.no_repeat_ngram), (4, 512, 6));
}

#[test]
fn a_word_longer_than_the_limit_stays_whole() {
    let word = "a".repeat(MAX_SENTENCE_CHARS + 30);
    let v = split(&word);
    assert_eq!(v, vec![word.clone()]);
    // With pauses, it is cut and every piece fits.
    let text = format!("{} {}", "b".repeat(150), "c".repeat(150));
    let v = split(&text);
    assert_eq!(v.len(), 2);
    assert!(v.iter().all(|s| s.chars().count() <= MAX_SENTENCE_CHARS));
}

#[test]
fn lowered_words_and_abbreviations() {
    let w: Vec<char> = "sra".chars().collect();
    assert!(lowered_abbrev(&w, true));
    let w: Vec<char> = "j".chars().collect();
    assert!(lowered_abbrev(&w, true));
    let w: Vec<char> = "3".chars().collect();
    assert!(!lowered_abbrev(&w, false));
    assert!(!lowered_abbrev(&[], true));
    let w: Vec<char> = "casa".chars().collect();
    assert!(!lowered_abbrev(&w, true));
}

#[test]
fn translations_are_put_back_by_block() {
    let out = vec!["One.".to_string(), " Two. ".to_string(), "".to_string(), "Three".to_string()];
    let r = assemble(&out, &[(0, 2), (2, 3), (3, 4), (4, 4)]);
    assert_eq!(r, vec!["One. Two.", "", "Three", ""]);
}

#[test]
fn sentences_come_trimmed() {
    let v = split("  Uno.   Dos.\n\t Tres  ");
    assert_eq!(v, vec!["Uno.", "Dos.", "Tres"]);
    assert!(v.iter().all(|s| s.trim() == s));
}
