use transcriptor::vad::{chunk_spans, pad_spans, Span};

#[test]
fn spans_measure_their_samples() {
    assert_eq!(Span { start: 3, end: 10 }.len(), 7);
    assert_eq!(Span { start: 10, end: 3 }.len(), 0);
    assert!(Span { start: 4, end: 4 }.is_empty());
    assert!(!Span { start: 4, end: 5 }.is_empty());
}

#[test]
fn padding_stays_within_the_recording() {
    let mut v = vec![Span { start: 100, end: 200 }, Span { start: 10, end: 995 }];
    pad_spans(&mut v, 20, 1000);
    assert_eq!((v[0].start, v[0].end), (80, 220));
    assert_eq!((v[1].start, v[1].end), (0, 1000));
}

#[test]
fn blind_chunks_cover_the_recording() {
    let v = chunk_spans(25, 10);
    let got: Vec<(usize, usize)> = v.iter().map(|s| (s.start, s.end)).collect();
    assert_eq!(got, vec![(0, 10), (10, 20), (20, 25)]);
    assert!(chunk_spans(0, 10).is_empty());
    let ones: Vec<(usize, usize)> = chunk_spans(3, 0).iter().map(|s| (s.start, s.end)).collect();
    assert_eq!(ones, vec![(0, 1), (1, 2), (2, 3)], "a chunk size of 0 still cuts one-sample chunks");
    assert_eq!(chunk_spans(10, 10).len(), 1);
}
