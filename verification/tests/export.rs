use transcriptor::export::{lines, render, rtf_escape, srt_stamp, stamp, Content, ExportBlock, Format};

#[test]
fn escapa_lo_que_rompe_rtf() {
    assert_eq!(rtf_escape("a{b}c\\d"), "a\\{b\\}c\\\\d");
    assert_eq!(rtf_escape("audiencia"), "audiencia");
    // Las tildes salen como escapes numéricos, no como bytes crudos.
    assert!(rtf_escape("¿Qué?").starts_with("\\u"));
    assert!(!rtf_escape("mañana").contains('ñ'));
}

#[test]
fn las_marcas_de_tiempo_cuadran() {
    assert_eq!(stamp(0), "00:00:00");
    assert_eq!(stamp(3725), "01:02:05");
    assert_eq!(srt_stamp(3725500), "01:02:05,500");
}

#[test]
fn long_recordings_keep_counting_hours() {
    assert_eq!(stamp(360000), "100:00:00");
    assert_eq!(srt_stamp(7), "00:00:00,007");
}

#[test]
fn rtf_escapes_exact_values() {
    assert_eq!(rtf_escape("ñ"), "\\u241?");
    assert_eq!(rtf_escape("a\nb"), "a\\line b");
    // Above the basic plane: a surrogate pair, each unit as a signed 16-bit number.
    assert_eq!(rtf_escape("😀"), "\\u-10179?\\u-8704?");
    // A unit at or above 0x8000 is written negative.
    assert_eq!(rtf_escape("\u{FFFD}"), "\\u-3?");
}

fn block(start: u32, speaker: Option<i32>, source: &str, target: Option<&str>, doubtful: &[&str]) -> ExportBlock {
    ExportBlock {
        start_secs: start,
        start_ms: start * 1000,
        end_ms: start * 1000 + 2500,
        speaker,
        source: source.to_string(),
        target: target.map(|t| t.to_string()),
        doubtful: doubtful.iter().map(|s| s.to_string()).collect(),
    }
}

fn line_texts(b: &ExportBlock, c: Content) -> Vec<String> {
    lines(b, c).into_iter().map(|l| l.into_iter().collect()).collect()
}

#[test]
fn lines_fall_back_to_the_original() {
    let with = block(0, None, "hola", Some("hello"), &[]);
    let without = block(0, None, "hola", None, &[]);
    let empty = block(0, None, "hola", Some(""), &[]);
    assert_eq!(line_texts(&with, Content::Target), vec!["hello"]);
    assert_eq!(line_texts(&without, Content::Target), vec!["hola"]);
    assert_eq!(line_texts(&empty, Content::Target), vec!["hola"]);
    assert_eq!(line_texts(&with, Content::Source), vec!["hola"]);
    assert_eq!(line_texts(&with, Content::Both), vec!["hello", "hola"]);
    assert_eq!(line_texts(&without, Content::Both), vec!["hola"]);
}

#[test]
fn plain_text_export() {
    let blocks = vec![
        block(5, Some(0), "hola", Some("hello"), &[]),
        block(3725, None, "chau", None, &[]),
    ];
    let out = render(&blocks, Format::Txt, Content::Both, true);
    assert_eq!(out, "[00:00:05] Hablante 1\nhello\nhola\n\n[01:02:05]\nchau\n\n");
    let out = render(&blocks, Format::Txt, Content::Target, false);
    assert_eq!(out, "[00:00:05]\nhello\n\n[01:02:05]\nchau\n\n");
}

#[test]
fn subtitle_export() {
    let blocks = vec![block(1, Some(2), "hola", Some("hello"), &[]), block(4, None, "chau", None, &[])];
    let out = render(&blocks, Format::Srt, Content::Target, true);
    assert_eq!(
        out,
        "1\n00:00:01,000 --> 00:00:03,500\nhello\n\n2\n00:00:04,000 --> 00:00:06,500\nchau\n\n"
    );
}

#[test]
fn rich_text_export() {
    let blocks = vec![block(65, Some(1), "¿sí?", Some("yes?"), &["sí", "no"])];
    let out = render(&blocks, Format::Rtf, Content::Both, true);
    let expected = String::from(
        "{\\rtf1\\ansi\\deff0{\\fonttbl{\\f0 Calibri;}}{\\colortbl;\\red0\\green0\\blue0;\\red150\\green150\\blue150;\\red176\\green80\\blue0;}\\fs22\n",
    ) + "{\\cf2\\fs18 00:01:05  Hablante 2}\\par\n"
        + "yes?\\par\n"
        + "{\\cf2\\i \\u191?s\\u237??}\\par\n"
        + "{\\cf3\\fs16 revisar: s\\u237? no}\\par\n"
        + "\\par\n"
        + "}";
    assert_eq!(out, expected);
}

#[test]
fn rich_text_of_the_original_only() {
    let blocks = vec![block(0, None, "hola", Some("hello"), &[])];
    let out = render(&blocks, Format::Rtf, Content::Source, false);
    assert!(out.contains("{\\cf2\\fs18 00:00:00}\\par\nhola\\par\n\\par\n}"));
    assert!(!out.contains("hello"));
}

#[test]
fn empty_transcript_exports() {
    let blocks: Vec<ExportBlock> = Vec::new();
    assert_eq!(render(&blocks, Format::Txt, Content::Both, true), "");
    assert_eq!(render(&blocks, Format::Srt, Content::Both, true), "");
    assert!(render(&blocks, Format::Rtf, Content::Both, true).ends_with("\\fs22\n}"));
}

#[test]
fn escaped_text_is_plain_ascii() {
    let out = rtf_escape("mañana ¿qué? 😀\n{x} \\ fin");
    assert!(out.is_ascii());
    assert!(!out.contains('\n'));
    assert_eq!(
        out,
        "ma\\u241?ana \\u191?qu\\u233?? \\u-10179?\\u-8704?\\line \\{x\\} \\\\ fin"
    );
}

#[test]
fn subtitles_name_nobody() {
    let blocks = vec![block(0, Some(i32::MAX), "hola", None, &[])];
    assert_eq!(render(&blocks, Format::Srt, Content::Source, true), "1\n00:00:00,000 --> 00:00:02,500\nhola\n\n");
}
