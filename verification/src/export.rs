//! Export of a transcript to formats that serve outside the program: plain text
//! with a time mark per block, subtitles, and Rich Text that a word processor opens
//! as an ordinary document with the doubtful words set apart.

use vstd::prelude::*;
use crate::text::{
    decimal, join_space, join_with_space, padded, push_all, push_decimal, push_padded, push_signed,
    push_str, signed_decimal, string_of, string_views, chars_of, chars_of_all, views,
};

verus! {

// ---------------------------------------------------------------------------
// Time marks.
// ---------------------------------------------------------------------------

/// `HH:MM:SS` for a whole number of seconds.
pub open spec fn stamp_of(s: nat) -> Seq<char> {
    padded(s / 3600, 2) + ":"@ + padded((s / 60) % 60, 2) + ":"@ + padded(s % 60, 2)
}

/// `HH:MM:SS,mmm` for a whole number of milliseconds.
pub open spec fn srt_stamp_of(ms: nat) -> Seq<char> {
    padded(ms / 3_600_000, 2) + ":"@ + padded((ms / 60_000) % 60, 2) + ":"@ + padded(
        (ms / 1000) % 60,
        2,
    ) + ","@ + padded(ms % 1000, 3)
}

fn push_stamp(out: &mut Vec<char>, secs: u32)
    ensures
        final(out)@ == old(out)@ + stamp_of(secs as nat),
{
    push_padded(out, (secs / 3600) as u64, 2);
    push_str(out, ":");
    push_padded(out, ((secs / 60) % 60) as u64, 2);
    push_str(out, ":");
    push_padded(out, (secs % 60) as u64, 2);
    assert(final(out)@ =~= old(out)@ + stamp_of(secs as nat));
}

fn push_srt_stamp(out: &mut Vec<char>, ms: u32)
    ensures
        final(out)@ == old(out)@ + srt_stamp_of(ms as nat),
{
    push_padded(out, (ms / 3_600_000) as u64, 2);
    push_str(out, ":");
    push_padded(out, ((ms / 60_000) % 60) as u64, 2);
    push_str(out, ":");
    push_padded(out, ((ms / 1000) % 60) as u64, 2);
    push_str(out, ",");
    push_padded(out, (ms % 1000) as u64, 3);
    assert(final(out)@ =~= old(out)@ + srt_stamp_of(ms as nat));
}

/// The time mark of a block that starts `secs` whole seconds into the recording.
pub fn stamp(secs: u32) -> (r: String)
    ensures
        r@ == stamp_of(secs as nat),
{
    let mut out: Vec<char> = Vec::new();
    push_stamp(&mut out, secs);
    assert(out@ =~= stamp_of(secs as nat));
    string_of(out.as_slice())
}

/// The subtitle time mark of an instant `ms` whole milliseconds into the recording.
pub fn srt_stamp(ms: u32) -> (r: String)
    ensures
        r@ == srt_stamp_of(ms as nat),
{
    let mut out: Vec<char> = Vec::new();
    push_srt_stamp(&mut out, ms);
    assert(out@ =~= srt_stamp_of(ms as nat));
    string_of(out.as_slice())
}

// ---------------------------------------------------------------------------
// Rich Text escapes.
// ---------------------------------------------------------------------------

/// The UTF-16 code units of a char: itself below 0x10000, else a surrogate pair.
pub open spec fn utf16_units(c: char) -> Seq<int> {
    let v = c as int;
    if v < 0x10000 {
        seq![v]
    } else {
        seq![0xD800 + (v - 0x10000) / 1024, 0xDC00 + (v - 0x10000) % 1024]
    }
}

/// A 16-bit unit read as a signed 16-bit integer.
pub open spec fn signed16(u: int) -> int {
    if u >= 0x8000 {
        u - 0x10000
    } else {
        u
    }
}

/// `\uN?` for one UTF-16 unit, N signed as Rich Text wants it.
pub open spec fn unit_escape(u: int) -> Seq<char> {
    "\\u"@ + signed_decimal(signed16(u)) + "?"@
}

/// The escapes of a char that is not ASCII: one per UTF-16 unit.
pub open spec fn units_escape(c: char) -> Seq<char> {
    let us = utf16_units(c);
    if us.len() == 1 {
        unit_escape(us[0])
    } else {
        unit_escape(us[0]) + unit_escape(us[1])
    }
}

/// How one char is written in Rich Text: braces and backslash escaped, a line
/// break as `\line `, ASCII as it is, the rest as numeric escapes.
pub open spec fn char_escape(c: char) -> Seq<char> {
    if c == '\\' || c == '{' || c == '}' {
        seq!['\\', c]
    } else if c == '\n' {
        "\\line "@
    } else if (c as u32) < 128 {
        seq![c]
    } else {
        units_escape(c)
    }
}

/// A text escaped for Rich Text, char by char.
pub open spec fn rtf_escaped(s: Seq<char>) -> Seq<char>
    decreases s.len(),
{
    if s.len() == 0 {
        seq![]
    } else {
        rtf_escaped(s.drop_last()) + char_escape(s.last())
    }
}

/// Plain ASCII, with no line break: what can be written into Rich Text as it is.
pub open spec fn plain_ascii(s: Seq<char>) -> bool {
    forall|k: int| 0 <= k < s.len() ==> (#[trigger] s[k] as u32) < 128 && s[k] != '\n'
}

proof fn lemma_plain_concat(a: Seq<char>, b: Seq<char>)
    requires
        plain_ascii(a),
        plain_ascii(b),
    ensures
        plain_ascii(a + b),
{
    assert forall|k: int| 0 <= k < (a + b).len() implies ((#[trigger] (a + b)[k]) as u32) < 128
        && (a + b)[k] != '\n' by {
        if k < a.len() {
            assert((a + b)[k] == a[k]);
        } else {
            assert((a + b)[k] == b[k - a.len()]);
        }
    }
}

proof fn lemma_decimal_plain(n: nat)
    ensures
        plain_ascii(decimal(n)),
    decreases n,
{
    if n >= 10 {
        lemma_decimal_plain(n / 10);
        lemma_plain_concat(decimal(n / 10), seq![crate::text::digit(n % 10)]);
        assert(decimal(n) =~= decimal(n / 10) + seq![crate::text::digit(n % 10)]);
    }
}

proof fn lemma_unit_plain(u: int)
    ensures
        plain_ascii(unit_escape(u)),
{
    reveal_strlit("\\u");
    reveal_strlit("?");
    let i = signed16(u);
    if i < 0 {
        lemma_decimal_plain((-i) as nat);
        lemma_plain_concat(seq!['-'], decimal((-i) as nat));
    } else {
        lemma_decimal_plain(i as nat);
    }
    lemma_plain_concat("\\u"@, signed_decimal(i));
    lemma_plain_concat("\\u"@ + signed_decimal(i), "?"@);
}

proof fn lemma_char_escape_plain(c: char)
    ensures
        plain_ascii(char_escape(c)),
{
    reveal_strlit("\\line ");
    if !(c == '\\' || c == '{' || c == '}') && c != '\n' && (c as u32) >= 128 {
        let us = utf16_units(c);
        lemma_unit_plain(us[0]);
        if us.len() > 1 {
            lemma_unit_plain(us[1]);
            lemma_plain_concat(unit_escape(us[0]), unit_escape(us[1]));
        }
    }
}

/// Law: whatever the text, its Rich Text escape is plain ASCII with no line break:
/// accented letters and everything outside ASCII come out as numeric escapes.
pub proof fn law_rtf_escape_is_ascii(s: Seq<char>)
    ensures
        plain_ascii(rtf_escaped(s)),
    decreases s.len(),
{
    if s.len() > 0 {
        law_rtf_escape_is_ascii(s.drop_last());
        lemma_char_escape_plain(s.last());
        lemma_plain_concat(rtf_escaped(s.drop_last()), char_escape(s.last()));
    }
}

fn push_unit(out: &mut Vec<char>, u: u32)
    requires
        u < 0x10000,
    ensures
        final(out)@ == old(out)@ + unit_escape(u as int),
{
    push_str(out, "\\u");
    let v: i64 = if u >= 0x8000 {
        u as i64 - 0x10000
    } else {
        u as i64
    };
    push_signed(out, v);
    push_str(out, "?");
    assert(final(out)@ =~= old(out)@ + unit_escape(u as int));
}

fn push_escaped_char(out: &mut Vec<char>, c: char)
    ensures
        final(out)@ == old(out)@ + char_escape(c),
{
    if c == '\\' || c == '{' || c == '}' {
        out.push('\\');
        out.push(c);
        assert(final(out)@ =~= old(out)@ + char_escape(c));
    } else if c == '\n' {
        push_str(out, "\\line ");
    } else if (c as u32) < 128 {
        out.push(c);
        assert(final(out)@ =~= old(out)@ + char_escape(c));
    } else {
        let v = c as u32;
        if v < 0x10000 {
            push_unit(out, v);
        } else {
            let w = v - 0x10000;
            push_unit(out, 0xD800 + w / 1024);
            push_unit(out, 0xDC00 + w % 1024);
            assert(final(out)@ =~= old(out)@ + char_escape(c));
        }
    }
}

fn push_escaped(out: &mut Vec<char>, s: &[char])
    ensures
        final(out)@ == old(out)@ + rtf_escaped(s@),
{
    let ghost start = out@;
    let mut i: usize = 0;
    assert(s@.take(0) =~= Seq::<char>::empty());
    while i < s.len()
        invariant
            i <= s@.len(),
            out@ == start + rtf_escaped(s@.take(i as int)),
        decreases s.len() - i,
    {
        assert(s@.take(i + 1).drop_last() =~= s@.take(i as int));
        assert(s@.take(i + 1).last() == s@[i as int]);
        push_escaped_char(out, s[i]);
        i = i + 1;
        assert(out@ =~= start + rtf_escaped(s@.take(i as int)));
    }
    assert(s@.take(s@.len() as int) =~= s@);
}

/// Escapes a text for Rich Text: braces, backslash and everything that is not ASCII.
pub fn rtf_escape(s: &str) -> (r: String)
    ensures
        r@ == rtf_escaped(s@),
{
    let cs = chars_of(s);
    let mut out: Vec<char> = Vec::new();
    push_escaped(&mut out, cs.as_slice());
    assert(out@ =~= rtf_escaped(s@));
    string_of(out.as_slice())
}

// ---------------------------------------------------------------------------
// Documents.
// ---------------------------------------------------------------------------

/// The formats a transcript can be exported to.
#[derive(Clone, Copy, Debug, PartialEq, Eq)]
pub enum Format {
    /// Plain text with a time mark per block.
    Txt,
    /// Subtitles, to follow the recording in a player.
    Srt,
    /// Rich Text: a word processor opens it as an ordinary document, doubts set apart.
    Rtf,
}

/// Which text is written out.
#[derive(Clone, Copy, Debug, PartialEq, Eq)]
pub enum Content {
    /// Only the translation.
    Target,
    /// Only the original language.
    Source,
    /// Both, one under the other.
    Both,
}

/// One block of the transcript as export sees it: where it starts (in whole seconds
/// and in milliseconds), where its subtitle ends (in milliseconds), who speaks, what
/// was said, its translation, and the words marked as doubtful.
pub struct ExportBlock {
    pub start_secs: u32,
    pub start_ms: u32,
    pub end_ms: u32,
    pub speaker: Option<i32>,
    pub source: String,
    pub target: Option<String>,
    pub doubtful: Vec<String>,
}

/// Every speaker number has a successor: its label "Hablante k+1" can be written.
pub open spec fn labels_fit(bs: Seq<ExportBlock>) -> bool {
    forall|k: int|
        0 <= k < bs.len() ==> match (#[trigger] bs[k]).speaker {
            Some(v) => v < i32::MAX,
            None => true,
        }
}

/// The translation of a block, or nothing.
pub open spec fn target_text(b: ExportBlock) -> Seq<char> {
    match b.target {
        Some(t) => t@,
        None => seq![],
    }
}

/// "Hablante k+1" for speaker k; nothing when nobody was told apart.
pub open spec fn speaker_name(b: ExportBlock) -> Seq<char> {
    match b.speaker {
        Some(k) => "Hablante "@ + signed_decimal(k + 1),
        None => seq![],
    }
}

/// The lines written for a block, in order. Where a translation is asked for and
/// there is none, the original stands in for it.
pub open spec fn block_lines(b: ExportBlock, c: Content) -> Seq<Seq<char>> {
    let t = target_text(b);
    match c {
        Content::Target => if t.len() > 0 {
            seq![t]
        } else {
            seq![b.source@]
        },
        Content::Source => seq![b.source@],
        Content::Both => if t.len() == 0 {
            seq![b.source@]
        } else {
            seq![t, b.source@]
        },
    }
}

/// Lines, each followed by a line break.
pub open spec fn lines_text(ls: Seq<Seq<char>>) -> Seq<char>
    decreases ls.len(),
{
    if ls.len() == 0 {
        seq![]
    } else {
        lines_text(ls.drop_last()) + ls.last() + "\n"@
    }
}

/// A block in plain text: `[HH:MM:SS]`, the speaker if asked for, its lines, a blank line.
pub open spec fn txt_block(b: ExportBlock, c: Content, with_speakers: bool) -> Seq<char> {
    let head = if with_speakers && b.speaker is Some {
        "["@ + stamp_of(b.start_secs as nat) + "] "@ + speaker_name(b)
    } else {
        "["@ + stamp_of(b.start_secs as nat) + "]"@
    };
    head + "\n"@ + lines_text(block_lines(b, c)) + "\n"@
}

pub open spec fn txt_doc(bs: Seq<ExportBlock>, c: Content, with_speakers: bool) -> Seq<char>
    decreases bs.len(),
{
    if bs.len() == 0 {
        seq![]
    } else {
        txt_doc(bs.drop_last(), c, with_speakers) + txt_block(bs.last(), c, with_speakers)
    }
}

/// The `n`-th subtitle: its number, `start --> end`, its lines, a blank line.
pub open spec fn srt_block(b: ExportBlock, n: nat, c: Content) -> Seq<char> {
    decimal(n) + "\n"@ + srt_stamp_of(b.start_ms as nat) + " --> "@ + srt_stamp_of(
        b.end_ms as nat,
    ) + "\n"@ + lines_text(block_lines(b, c)) + "\n"@
}

pub open spec fn srt_doc(bs: Seq<ExportBlock>, c: Content) -> Seq<char>
    decreases bs.len(),
{
    if bs.len() == 0 {
        seq![]
    } else {
        srt_doc(bs.drop_last(), c) + srt_block(bs.last(), bs.len(), c)
    }
}

/// Opening of every Rich Text export: font, colours and size.
pub const RTF_HEAD: &'static str = "{\\rtf1\\ansi\\deff0{\\fonttbl{\\f0 Calibri;}}{\\colortbl;\\red0\\green0\\blue0;\\red150\\green150\\blue150;\\red176\\green80\\blue0;}\\fs22\n";

/// The main text of a block in Rich Text: the original when asked for or when
/// there is no translation, else the translation.
pub open spec fn principal(b: ExportBlock, c: Content) -> Seq<char> {
    if c is Source || target_text(b).len() == 0 {
        b.source@
    } else {
        target_text(b)
    }
}

/// The time mark (and speaker) of a block, small and grey.
#[verifier::opaque]
pub open spec fn rtf_head(b: ExportBlock, with_speakers: bool) -> Seq<char> {
    let head = if with_speakers && b.speaker is Some {
        stamp_of(b.start_secs as nat) + "  "@ + speaker_name(b)
    } else {
        stamp_of(b.start_secs as nat)
    };
    "{\\cf2\\fs18 "@ + rtf_escaped(head) + "}\\par\n"@
}

/// The original in grey italics under the translation, when both are asked for.
#[verifier::opaque]
pub open spec fn rtf_both(b: ExportBlock, c: Content) -> Seq<char> {
    if c is Both && target_text(b).len() > 0 {
        "{\\cf2\\i "@ + rtf_escaped(b.source@) + "}\\par\n"@
    } else {
        seq![]
    }
}

/// The doubtful words of a block, to check.
#[verifier::opaque]
pub open spec fn rtf_doubts(b: ExportBlock) -> Seq<char> {
    if b.doubtful@.len() > 0 {
        "{\\cf3\\fs16 revisar: "@ + rtf_escaped(join_space(string_views(b.doubtful@))) + "}\\par\n"@
    } else {
        seq![]
    }
}

/// A block in Rich Text: its time mark, its main text, the original under the
/// translation when both are asked for, the doubtful words, and a blank paragraph.
pub open spec fn rtf_block(b: ExportBlock, c: Content, with_speakers: bool) -> Seq<char> {
    rtf_head(b, with_speakers) + rtf_escaped(principal(b, c)) + "\\par\n"@ + rtf_both(b, c)
        + rtf_doubts(b) + "\\par\n"@
}

pub open spec fn rtf_body(bs: Seq<ExportBlock>, c: Content, with_speakers: bool) -> Seq<char>
    decreases bs.len(),
{
    if bs.len() == 0 {
        seq![]
    } else {
        rtf_body(bs.drop_last(), c, with_speakers) + rtf_block(bs.last(), c, with_speakers)
    }
}

pub open spec fn rtf_doc(bs: Seq<ExportBlock>, c: Content, with_speakers: bool) -> Seq<char> {
    RTF_HEAD@ + rtf_body(bs, c, with_speakers) + "}"@
}

/// The whole export of `bs` in format `f`.
pub open spec fn rendered(bs: Seq<ExportBlock>, f: Format, c: Content, with_speakers: bool) -> Seq<
    char,
> {
    match f {
        Format::Txt => txt_doc(bs, c, with_speakers),
        Format::Srt => srt_doc(bs, c),
        Format::Rtf => rtf_doc(bs, c, with_speakers),
    }
}

fn target_chars(b: &ExportBlock) -> (r: Vec<char>)
    ensures
        r@ == target_text(*b),
{
    match &b.target {
        Some(t) => chars_of(t.as_str()),
        None => Vec::new(),
    }
}

fn push_speaker(out: &mut Vec<char>, b: &ExportBlock)
    requires
        b.speaker matches Some(v) ==> v < i32::MAX,
    ensures
        final(out)@ == old(out)@ + speaker_name(*b),
{
    match b.speaker {
        Some(k) => {
            push_str(out, "Hablante ");
            push_signed(out, k as i64 + 1);
            assert(final(out)@ =~= old(out)@ + speaker_name(*b));
        },
        None => {
            assert(final(out)@ =~= old(out)@ + speaker_name(*b));
        },
    }
}

/// The lines to write for a block, in order.
pub fn lines(b: &ExportBlock, content: Content) -> (r: Vec<Vec<char>>)
    ensures
        views(r@) == block_lines(*b, content),
{
    let t = target_chars(b);
    let src = chars_of(b.source.as_str());
    let mut r: Vec<Vec<char>> = Vec::new();
    match content {
        Content::Target => {
            if t.len() > 0 {
                r.push(t);
            } else {
                r.push(src);
            }
        },
        Content::Source => {
            r.push(src);
        },
        Content::Both => {
            if t.len() == 0 {
                r.push(src);
            } else {
                r.push(t);
                r.push(src);
            }
        },
    }
    assert(views(r@) =~= block_lines(*b, content));
    r
}

fn push_lines(out: &mut Vec<char>, ls: &Vec<Vec<char>>)
    ensures
        final(out)@ == old(out)@ + lines_text(views(ls@)),
{
    let ghost start = out@;
    let ghost v = views(ls@);
    let mut i: usize = 0;
    assert(v.take(0) =~= Seq::<Seq<char>>::empty());
    while i < ls.len()
        invariant
            i <= ls@.len(),
            v == views(ls@),
            out@ == start + lines_text(v.take(i as int)),
        decreases ls.len() - i,
    {
        assert(v.take(i + 1).drop_last() =~= v.take(i as int));
        assert(v.take(i + 1).last() == ls@[i as int]@);
        push_all(out, ls[i].as_slice());
        push_str(out, "\n");
        i = i + 1;
        assert(out@ =~= start + lines_text(v.take(i as int)));
    }
    assert(v.take(ls@.len() as int) =~= v);
}

fn push_txt_block(out: &mut Vec<char>, b: &ExportBlock, c: Content, with_speakers: bool)
    requires
        b.speaker matches Some(v) ==> v < i32::MAX,
    ensures
        final(out)@ == old(out)@ + txt_block(*b, c, with_speakers),
{
    push_str(out, "[");
    push_stamp(out, b.start_secs);
    if with_speakers && b.speaker.is_some() {
        push_str(out, "] ");
        push_speaker(out, b);
    } else {
        push_str(out, "]");
    }
    push_str(out, "\n");
    let ls = lines(b, c);
    push_lines(out, &ls);
    push_str(out, "\n");
    assert(final(out)@ =~= old(out)@ + txt_block(*b, c, with_speakers));
}

fn push_srt_block(out: &mut Vec<char>, b: &ExportBlock, n: u64, c: Content)
    ensures
        final(out)@ == old(out)@ + srt_block(*b, n as nat, c),
{
    push_decimal(out, n);
    push_str(out, "\n");
    push_srt_stamp(out, b.start_ms);
    push_str(out, " --> ");
    push_srt_stamp(out, b.end_ms);
    push_str(out, "\n");
    let ls = lines(b, c);
    push_lines(out, &ls);
    push_str(out, "\n");
    assert(final(out)@ =~= old(out)@ + srt_block(*b, n as nat, c));
}

fn push_rtf_head(out: &mut Vec<char>, b: &ExportBlock, with_speakers: bool)
    requires
        b.speaker matches Some(v) ==> v < i32::MAX,
    ensures
        final(out)@ == old(out)@ + rtf_head(*b, with_speakers),
{
    let mut head: Vec<char> = Vec::new();
    push_stamp(&mut head, b.start_secs);
    if with_speakers && b.speaker.is_some() {
        push_str(&mut head, "  ");
        push_speaker(&mut head, b);
    }
    push_str(out, "{\\cf2\\fs18 ");
    push_escaped(out, head.as_slice());
    push_str(out, "}\\par\n");
    reveal(rtf_head);
    assert(final(out)@ =~= old(out)@ + rtf_head(*b, with_speakers));
}

fn push_rtf_main(out: &mut Vec<char>, b: &ExportBlock, c: Content)
    ensures
        final(out)@ == old(out)@ + rtf_escaped(principal(*b, c)) + "\\par\n"@ + rtf_both(*b, c),
{
    let t = target_chars(b);
    let src = chars_of(b.source.as_str());
    let main_is_source = match c {
        Content::Source => true,
        _ => t.len() == 0,
    };
    if main_is_source {
        push_escaped(out, src.as_slice());
    } else {
        push_escaped(out, t.as_slice());
    }
    push_str(out, "\\par\n");
    let ghost mid = out@;
    reveal(rtf_both);
    assert(mid == old(out)@ + rtf_escaped(principal(*b, c)) + "\\par\n"@);
    let both = match c {
        Content::Both => t.len() > 0,
        _ => false,
    };
    if both {
        push_str(out, "{\\cf2\\i ");
        push_escaped(out, src.as_slice());
        push_str(out, "}\\par\n");
        assert(out@ =~= mid + rtf_both(*b, c));
    } else {
        assert(out@ =~= mid + rtf_both(*b, c));
    }
}

fn push_rtf_doubts(out: &mut Vec<char>, b: &ExportBlock)
    ensures
        final(out)@ == old(out)@ + rtf_doubts(*b),
{
    reveal(rtf_doubts);
    if b.doubtful.len() > 0 {
        let words = chars_of_all(&b.doubtful);
        let joined = join_with_space(&words);
        push_str(out, "{\\cf3\\fs16 revisar: ");
        push_escaped(out, joined.as_slice());
        push_str(out, "}\\par\n");
        assert(final(out)@ =~= old(out)@ + rtf_doubts(*b));
    } else {
        assert(final(out)@ =~= old(out)@ + rtf_doubts(*b));
    }
}

fn push_rtf_block(out: &mut Vec<char>, b: &ExportBlock, c: Content, with_speakers: bool)
    requires
        b.speaker matches Some(v) ==> v < i32::MAX,
    ensures
        final(out)@ == old(out)@ + rtf_block(*b, c, with_speakers),
{
    let ghost s0 = out@;
    let ghost h = rtf_head(*b, with_speakers);
    let ghost m = rtf_escaped(principal(*b, c)) + "\\par\n"@ + rtf_both(*b, c);
    let ghost d = rtf_doubts(*b);
    push_rtf_head(out, b, with_speakers);
    push_rtf_main(out, b, c);
    push_rtf_doubts(out, b);
    push_str(out, "\\par\n");
    assert(out@ =~= s0 + (h + m + d + "\\par\n"@));
}

fn txt_body(blocks: &Vec<ExportBlock>, content: Content, with_speakers: bool) -> (r: Vec<char>)
    requires
        labels_fit(blocks@),
    ensures
        r@ == txt_doc(blocks@, content, with_speakers),
{
    let mut out: Vec<char> = Vec::new();
    let mut i: usize = 0;
    assert(blocks@.take(0) =~= Seq::<ExportBlock>::empty());
    while i < blocks.len()
        invariant
            i <= blocks@.len(),
            labels_fit(blocks@),
            out@ == txt_doc(blocks@.take(i as int), content, with_speakers),
        decreases blocks.len() - i,
    {
        assert(blocks@.take(i + 1).drop_last() =~= blocks@.take(i as int));
        assert(blocks@.take(i + 1).last() == blocks@[i as int]);
        assert(blocks@[i as int].speaker matches Some(v) ==> v < i32::MAX);
        push_txt_block(&mut out, &blocks[i], content, with_speakers);
        i = i + 1;
    }
    assert(blocks@.take(blocks@.len() as int) =~= blocks@);
    out
}

fn srt_body(blocks: &Vec<ExportBlock>, content: Content) -> (r: Vec<char>)
    ensures
        r@ == srt_doc(blocks@, content),
{
    let mut out: Vec<char> = Vec::new();
    let mut i: usize = 0;
    assert(blocks@.take(0) =~= Seq::<ExportBlock>::empty());
    while i < blocks.len()
        invariant
            i <= blocks@.len(),
            out@ == srt_doc(blocks@.take(i as int), content),
        decreases blocks.len() - i,
    {
        assert(blocks@.take(i + 1).drop_last() =~= blocks@.take(i as int));
        assert(blocks@.take(i + 1).last() == blocks@[i as int]);
        push_srt_block(&mut out, &blocks[i], (i + 1) as u64, content);
        i = i + 1;
    }
    assert(blocks@.take(blocks@.len() as int) =~= blocks@);
    out
}

fn rtf_blocks(blocks: &Vec<ExportBlock>, content: Content, with_speakers: bool) -> (r: Vec<char>)
    requires
        labels_fit(blocks@),
    ensures
        r@ == rtf_doc(blocks@, content, with_speakers),
{
    let mut out: Vec<char> = Vec::new();
    push_str(&mut out, RTF_HEAD);
    let mut i: usize = 0;
    assert(blocks@.take(0) =~= Seq::<ExportBlock>::empty());
    while i < blocks.len()
        invariant
            i <= blocks@.len(),
            labels_fit(blocks@),
            out@ == RTF_HEAD@ + rtf_body(blocks@.take(i as int), content, with_speakers),
        decreases blocks.len() - i,
    {
        assert(blocks@.take(i + 1).drop_last() =~= blocks@.take(i as int));
        assert(blocks@.take(i + 1).last() == blocks@[i as int]);
        assert(blocks@[i as int].speaker matches Some(v) ==> v < i32::MAX);
        push_rtf_block(&mut out, &blocks[i], content, with_speakers);
        i = i + 1;
        assert(out@ =~= RTF_HEAD@ + rtf_body(blocks@.take(i as int), content, with_speakers));
    }
    assert(blocks@.take(blocks@.len() as int) =~= blocks@);
    push_str(&mut out, "}");
    assert(out@ =~= rtf_doc(blocks@, content, with_speakers));
    out
}

/// Writes the transcript blocks `blocks` in format `format`.
pub fn render(blocks: &Vec<ExportBlock>, format: Format, content: Content, with_speakers: bool) -> (r:
    String)
    requires
        !(format is Srt) ==> labels_fit(blocks@),
    ensures
        r@ == rendered(blocks@, format, content, with_speakers),
{
    let out = match format {
        Format::Txt => txt_body(blocks, content, with_speakers),
        Format::Srt => srt_body(blocks, content),
        Format::Rtf => rtf_blocks(blocks, content, with_speakers),
    };
    string_of(out.as_slice())
}

/// Law: every format shows the text that was asked for. The main text of a block in
/// Rich Text is the first line that plain text and subtitles write for it: with a
/// non-empty translation and anything but the original asked for, that is the
/// translation, never the original; the original stands there only when it was
/// asked for, or when there is no translation.
pub proof fn law_export_shows_requested_text(b: ExportBlock, c: Content, with_speakers: bool)
    ensures
        block_lines(b, c).len() >= 1,
        principal(b, c) == block_lines(b, c)[0],
        target_text(b).len() > 0 && !(c is Source) ==> principal(b, c) == target_text(b)
            && block_lines(b, c)[0] == target_text(b),
        c is Source || target_text(b).len() == 0 ==> principal(b, c) == b.source@
            && block_lines(b, c) == seq![b.source@],
        c is Both && target_text(b).len() > 0 ==> block_lines(b, c) == seq![target_text(b), b.source@],
        rtf_block(b, c, with_speakers) == rtf_head(b, with_speakers) + rtf_escaped(
            block_lines(b, c)[0],
        ) + "\\par\n"@ + rtf_both(b, c) + rtf_doubts(b) + "\\par\n"@,
        target_text(b).len() > 0 ==> rendered(seq![b], Format::Rtf, Content::Target, with_speakers)
            == RTF_HEAD@ + (rtf_head(b, with_speakers) + rtf_escaped(target_text(b)) + "\\par\n"@
            + rtf_doubts(b) + "\\par\n"@) + "}"@,
{
    reveal(rtf_both);
    let bs = seq![b];
    assert(bs.drop_last() =~= Seq::<ExportBlock>::empty());
    assert(bs.last() == b);
    assert(rtf_body(bs.drop_last(), Content::Target, with_speakers) =~= Seq::<char>::empty());
    assert(rtf_body(bs, Content::Target, with_speakers) =~= rtf_block(b, Content::Target, with_speakers));
    if target_text(b).len() > 0 {
        assert(rtf_both(b, Content::Target) =~= Seq::<char>::empty());
        assert(rtf_block(b, Content::Target, with_speakers) =~= rtf_head(b, with_speakers)
            + rtf_escaped(target_text(b)) + "\\par\n"@ + rtf_doubts(b) + "\\par\n"@);
    }
}

} // verus!
