use transcriptor::confidence::fold_lowered;
use transcriptor::merge::{merge_text, word_marks, BlockText};
use transcriptor::confidence::{compare, lcs_pairs, loop_score, norm, LOOP_LIMIT};
use transcriptor::merge::{is_degenerate, merge_plan, Merge};

fn words(s: &str) -> Vec<String> {
    s.split_whitespace().map(|w| w.to_string()).collect()
}

#[test]
fn identico_no_marca_nada() {
    let a = words("hola que tal estas");
    let c = compare(&a, &a);
    assert!(c.low_conf.iter().all(|x| !x));
    let agreement = c.agreement_num as f64 / c.agreement_den as f64;
    assert!((agreement - 1.0).abs() < 1e-6);
}

#[test]
fn marca_solo_lo_que_difiere() {
    let a = words("tienes audiencia el martes");
    let b = words("tienes ausencia el martes");
    let c = compare(&a, &b);
    assert_eq!(c.low_conf, vec![false, true, false, false]);
    let agreement = c.agreement_num as f64 / c.agreement_den as f64;
    assert!(agreement > 0.7 && agreement < 1.0);
}

#[test]
fn tildes_y_puntuacion_no_cuentan() {
    let a = words("¿Qué onda?");
    let b = words("que onda");
    let c = compare(&a, &b);
    assert!(c.low_conf.iter().all(|x| !x));
}

#[test]
fn detecta_bucle() {
    let sano = "hoy vamos a revisar el expediente antes de la audiencia del martes";
    assert!(loop_score(sano, 4) < LOOP_LIMIT);
    let roto = "gracias por ver el video ".repeat(20);
    assert!(loop_score(&roto, 4) >= LOOP_LIMIT);
}

#[test]
fn agreement_counts_matched_words_on_both_sides() {
    let a = words("tienes audiencia el martes");
    let b = words("tienes ausencia el martes");
    let c = compare(&a, &b);
    assert_eq!((c.agreement_num, c.agreement_den), (6, 8));
    assert_eq!(c.pairs, vec![(0, 0), (2, 2), (3, 3)]);
}

#[test]
fn nothing_heard_on_either_side_agrees() {
    let c = compare(&[], &[]);
    assert_eq!((c.agreement_num, c.agreement_den), (0, 0));
    assert!(c.low_conf.is_empty());
}

#[test]
fn words_are_compared_without_case_accents_or_punctuation() {
    let w: Vec<char> = "¿Qué?".chars().collect();
    assert_eq!(norm(&w).into_iter().collect::<String>(), "que");
    let w: Vec<char> = "AÑO,".chars().collect();
    assert_eq!(norm(&w).into_iter().collect::<String>(), "año");
}

#[test]
fn longest_alignment_of_words() {
    let a: Vec<Vec<char>> = ["a", "b", "c", "d"].iter().map(|s| s.chars().collect()).collect();
    let b: Vec<Vec<char>> = ["b", "x", "d"].iter().map(|s| s.chars().collect()).collect();
    assert_eq!(lcs_pairs(&a, &b), vec![(1, 0), (3, 2)]);
}

#[test]
fn loop_score_counts_the_most_repeated_phrase() {
    assert_eq!(loop_score("a b a b a b", 2), 3);
    assert_eq!(loop_score("uno dos", 4), 0);
    assert!(is_degenerate(&"no ".repeat(74)));
    assert!(!is_degenerate("no"));
}

#[test]
fn second_opinion_decisions() {
    assert_eq!(merge_plan("   ", true, true, true, false), Merge::NoOpinion);
    let repeated = "no ".repeat(74);
    assert_eq!(merge_plan("hola que tal", true, true, true, false), Merge::Repair);
    assert_eq!(
        merge_plan(&repeated, true, true, true, false),
        Merge::Refine { transfer_timings: true }
    );
    assert_eq!(
        merge_plan("hola", false, true, true, false),
        Merge::Refine { transfer_timings: true }
    );
    assert_eq!(
        merge_plan("hola", false, true, true, true),
        Merge::Refine { transfer_timings: false }
    );
    assert_eq!(
        merge_plan("hola", false, false, true, false),
        Merge::Refine { transfer_timings: false }
    );
}

#[test]
fn agreement_is_the_same_both_ways() {
    let a = words("tienes audiencia el martes temprano");
    let b = words("ya tienes ausencia el martes");
    let ab = compare(&a, &b);
    let ba = compare(&b, &a);
    assert_eq!((ab.agreement_num, ab.agreement_den), (ba.agreement_num, ba.agreement_den));
}

#[test]
fn lowercased_chars_fold_for_comparison() {
    assert_eq!(fold_lowered('á', true), Some('a'));
    assert_eq!(fold_lowered('ü', true), Some('u'));
    assert_eq!(fold_lowered('ñ', true), Some('ñ'));
    assert_eq!(fold_lowered('?', false), None);
    assert_eq!(fold_lowered('é', false), Some('e'));
}

#[test]
fn merging_the_text_of_a_block() {
    let block = || BlockText {
        source: "no no no no".to_string(),
        alt_source: None,
        exact_timings: false,
        degenerate: true,
        repaired: false,
    };
    let r = merge_text(block(), "hola".to_string(), true, Merge::Repair);
    assert_eq!(r.source, "hola");
    assert_eq!(r.alt_source.as_deref(), Some("no no no no"));
    assert!(r.exact_timings && !r.degenerate && r.repaired);
    let r = merge_text(block(), "hola".to_string(), true, Merge::NoOpinion);
    assert_eq!(r.source, "no no no no");
    assert_eq!(r.alt_source.as_deref(), Some(""));
    assert!(!r.exact_timings && r.degenerate && !r.repaired);
    let r = merge_text(block(), "hola".to_string(), true, Merge::Refine { transfer_timings: true });
    assert_eq!(r.source, "no no no no");
    assert_eq!(r.alt_source.as_deref(), Some("hola"));
    assert!(r.exact_timings);
    assert_eq!(word_marks(4, &[true, false]), vec![true, false, false, false]);
    assert_eq!(word_marks(1, &[false, true]), vec![false]);
}
