use transcriptor::diarize::{count_distinct, count_speakers, renumber};

#[test]
fn renumera_por_orden_de_aparicion() {
    let mut spans = vec![7, 2, 7];
    renumber(&mut spans);
    assert_eq!(spans, vec![0, 1, 0]);
}

#[test]
fn renumbering_keeps_who_is_who() {
    let mut s = vec![5, 5, -1, 9, 5, -1, 3];
    renumber(&mut s);
    assert_eq!(s, vec![0, 0, 1, 2, 0, 1, 3]);
    let mut empty: Vec<i32> = Vec::new();
    renumber(&mut empty);
    assert!(empty.is_empty());
}

#[test]
fn speakers_are_counted_once() {
    assert_eq!(count_distinct(&[3, 1, 3, 3, 2]), 3);
    assert_eq!(count_distinct(&[]), 0);
    assert_eq!(count_speakers(&[Some(0), None, Some(1), Some(0), None]), 2);
    assert_eq!(count_speakers(&[None, None]), 0);
}
