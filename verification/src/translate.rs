//! Preparing text for the Spanish→English translator and putting its output back together.
//!
//! Each recognized block is split into sentences before translation: a translator
//! trained sentence by sentence drops the second of two sentences given as one input.
//! Losing text is the worst thing that can happen to a working draft, so the splitter
//! never drops anything but whitespace.

use vstd::prelude::*;
use vstd::string::StringSliceAdditionalSpecFns;
use vstd::seq_lib::lemma_flatten_concat;
use vstd::utf8::encode_utf8;
use crate::text::{
    char_is_alphabetic, char_is_alphanumeric, char_is_uppercase, char_is_whitespace, chars_of,
    copy_range, is_alnum, is_alpha, is_upper, is_white, trim_start, lemma_solid_concat, lemma_solid_trim, lemma_trim_idempotent,
    lemma_split_incl_flatten, lower_text, push_all, same_as_str, solid, split_after, split_incl,
    string_of, string_views, strings_of, text_to_lowercase, trim, trimmed, trimmed_str, views,
};

verus! {

/// Above this many chars a sentence is cut anyway, even without a full stop:
/// translators have a length limit and would rather cut themselves than truncate.
pub const MAX_SENTENCE_CHARS: usize = 220;

// ---------------------------------------------------------------------------
// Sentence splitting.
// ---------------------------------------------------------------------------

/// Chars that can end a sentence.
pub open spec fn is_stop(c: char) -> bool {
    c == '.' || c == '!' || c == '?' || c == '\u{2026}'
}

/// Chars that, right after a stop, mean the punctuation goes on (`?!`, `...`, `."`).
pub open spec fn is_follow(c: char) -> bool {
    is_stop(c) || c == '"' || c == '\''
}

/// Chars that can open a new sentence.
pub open spec fn opens_sentence(c: char) -> bool {
    is_upper(c) || c == '¿' || c == '¡'
}

/// Index of the first non-whitespace char at or after `k`, or `s.len()`.
pub open spec fn first_solid(s: Seq<char>, k: int) -> int
    decreases s.len() - k,
{
    if k < 0 || k >= s.len() {
        s.len() as int
    } else if !is_white(s[k]) {
        k
    } else {
        first_solid(s, k + 1)
    }
}

/// Number of alphanumeric chars at the end of `s`.
pub open spec fn alnum_tail(s: Seq<char>) -> nat
    decreases s.len(),
{
    if s.len() > 0 && is_alnum(s.last()) {
        1 + alnum_tail(s.drop_last())
    } else {
        0
    }
}

/// Abbreviations after which a full stop does not close a sentence.
pub open spec fn is_listed_abbrev(w: Seq<char>) -> bool {
    ||| w == "sr"@
    ||| w == "sra"@
    ||| w == "srta"@
    ||| w == "dr"@
    ||| w == "dra"@
    ||| w == "lic"@
    ||| w == "ing"@
    ||| w == "ud"@
    ||| w == "uds"@
    ||| w == "etc"@
    ||| w == "av"@
    ||| w == "no"@
    ||| w == "num"@
    ||| w == "pag"@
    ||| w == "ej"@
    ||| w == "ee"@
    ||| w == "uu"@
    ||| w == "vs"@
    ||| w == "p"@
    ||| w == "art"@
    ||| w == "fig"@
    ||| w == "aprox"@
    ||| w == "min"@
    ||| w == "seg"@
    ||| w == "hrs"@
}

/// The text before a full stop ends in an abbreviation: the lowercased
/// alphanumeric run at its end is a single letter (an initial, "J. Pérez") or a listed abbreviation.
pub open spec fn ends_in_abbrev(before: Seq<char>) -> bool {
    let word = before.subrange(before.len() - alnum_tail(before), before.len() as int);
    let w = lower_text(word);
    if w.len() == 0 {
        false
    } else {
        (w.len() == 1 && is_alpha(w[0])) || is_listed_abbrev(w)
    }
}

/// The state of a packing pass: chunks closed so far, and the chunk in progress.
pub open spec fn pack_state(parts: Seq<Seq<char>>, max: nat) -> (Seq<Seq<char>>, Seq<char>)
    decreases parts.len(),
{
    if parts.len() == 0 {
        (seq![], seq![])
    } else {
        let (chunks, acc) = pack_state(parts.drop_last(), max);
        let part = parts.last();
        if acc.len() > 0 && acc.len() + part.len() > max {
            (chunks.push(trim(acc)), part)
        } else {
            (chunks, acc + part)
        }
    }
}

/// Greedy packing of consecutive parts into chunks of at most `max` chars where
/// possible; each chunk is trimmed.
pub open spec fn pack(parts: Seq<Seq<char>>, max: nat) -> Seq<Seq<char>> {
    let (chunks, acc) = pack_state(parts, max);
    if trim(acc).len() > 0 {
        chunks.push(trim(acc))
    } else {
        chunks
    }
}

/// Cutting `s` after each `sep` and packing the parts works when it gives
/// more than one chunk and every chunk fits.
pub open spec fn cut_at(s: Seq<char>, sep: char, max: nat) -> Option<Seq<Seq<char>>> {
    let chunks = pack(split_incl(s, sep), max);
    if chunks.len() > 1 && forall|k: int| 0 <= k < chunks.len() ==> (#[trigger] chunks[k]).len()
        <= max {
        Some(chunks)
    } else {
        None
    }
}

/// What one piece between two sentence ends contributes: nothing if it is
/// blank, itself (trimmed) if it fits, otherwise cut at the nearest available
/// pause (`;`, then `,`, then a space), or left whole if no cut makes it fit.
pub open spec fn piece(p: Seq<char>, max: nat) -> Seq<Seq<char>> {
    let s = trim(p);
    if s.len() == 0 {
        seq![]
    } else if s.len() <= max {
        seq![s]
    } else {
        match cut_at(s, ';', max) {
            Some(c) => c,
            None => match cut_at(s, ',', max) {
                Some(c) => c,
                None => match cut_at(s, ' ', max) {
                    Some(c) => c,
                    None => seq![s],
                },
            },
        }
    }
}

/// A sentence ends at `s[i]`, given that the current sentence began at `start`.
pub open spec fn ends_sentence(s: Seq<char>, i: int, start: int) -> bool {
    &&& is_stop(s[i])
    &&& !(i + 1 < s.len() && is_follow(s[i + 1]))
    &&& first_solid(s, i + 1) < s.len()
    &&& is_white(s[i + 1])
    &&& opens_sentence(s[first_solid(s, i + 1)])
    &&& !ends_in_abbrev(s.subrange(start, i))
}

/// Scanning `s` from `i`, with the current sentence begun at `start`.
pub open spec fn scan(s: Seq<char>, max: nat, i: int, start: int) -> Seq<Seq<char>>
    decreases s.len() - i,
{
    if i < 0 || i >= s.len() {
        piece(s.subrange(start, s.len() as int), max)
    } else if !is_stop(s[i]) || (i + 1 < s.len() && is_follow(s[i + 1])) {
        scan(s, max, i + 1, start)
    } else if first_solid(s, i + 1) >= s.len() {
        // Closing punctuation: the rest is the last sentence.
        piece(s.subrange(start, s.len() as int), max)
    } else if ends_sentence(s, i, start) {
        piece(s.subrange(start, i + 1), max) + scan(s, max, i + 1, i + 1)
    } else {
        scan(s, max, i + 1, start)
    }
}

/// The sentences of a block, in order.
pub open spec fn sentences(text: Seq<char>, max: nat) -> Seq<Seq<char>> {
    let t = trim(text);
    if t.len() == 0 {
        seq![]
    } else {
        scan(t, max, 0, 0)
    }
}

fn is_stop_char(c: char) -> (r: bool)
    ensures
        r == is_stop(c),
{
    c == '.' || c == '!' || c == '?' || c == '\u{2026}'
}

fn listed_abbrev(w: &[char]) -> (r: bool)
    ensures
        r == is_listed_abbrev(w@),
{
    same_as_str(w, "sr") || same_as_str(w, "sra") || same_as_str(w, "srta") || same_as_str(
        w,
        "dr",
    ) || same_as_str(w, "dra") || same_as_str(w, "lic") || same_as_str(w, "ing") || same_as_str(
        w,
        "ud",
    ) || same_as_str(w, "uds") || same_as_str(w, "etc") || same_as_str(w, "av") || same_as_str(
        w,
        "no",
    ) || same_as_str(w, "num") || same_as_str(w, "pag") || same_as_str(w, "ej") || same_as_str(
        w,
        "ee",
    ) || same_as_str(w, "uu") || same_as_str(w, "vs") || same_as_str(w, "p") || same_as_str(
        w,
        "art",
    ) || same_as_str(w, "fig") || same_as_str(w, "aprox") || same_as_str(w, "min")
        || same_as_str(w, "seg") || same_as_str(w, "hrs")
}

/// Is this already-lowercased word one after which a full stop does not close a
/// sentence? `first_alpha` tells whether its first char is alphabetic: a single
/// letter is an initial; otherwise the word must be a listed abbreviation.
pub fn lowered_abbrev(w: &[char], first_alpha: bool) -> (r: bool)
    ensures
        r == (w@.len() > 0 && ((w@.len() == 1 && first_alpha) || is_listed_abbrev(w@))),
{
    if w.len() == 0 {
        return false;
    }
    (w.len() == 1 && first_alpha) || listed_abbrev(w)
}

/// Does the text before a full stop end in an abbreviation?
pub fn is_abbrev(before: &[char]) -> (r: bool)
    ensures
        r == ends_in_abbrev(before@),
{
    let n = before.len();
    let mut k: usize = n;
    assert(before@.subrange(0, n as int) =~= before@);
    while k > 0 && char_is_alphanumeric(before[k - 1])
        invariant
            k <= n == before@.len(),
            alnum_tail(before@) == (n - k) + alnum_tail(before@.subrange(0, k as int)),
        decreases k,
    {
        assert(before@.subrange(0, k as int).drop_last() =~= before@.subrange(0, k - 1));
        k = k - 1;
    }
    assert(alnum_tail(before@.subrange(0, k as int)) == 0);
    let word = copy_range(before, k, n);
    let w = text_to_lowercase(word.as_slice());
    let first_alpha = w.len() > 0 && char_is_alphabetic(w[0]);
    lowered_abbrev(w.as_slice(), first_alpha)
}

/// Index of the first non-whitespace char at or after `k`, or `s.len()`.
fn solid_from(s: &[char], k: usize) -> (r: usize)
    requires
        k <= s@.len(),
    ensures
        r == first_solid(s@, k as int),
{
    let n = s.len();
    let mut i = k;
    while i < n && char_is_whitespace(s[i])
        invariant
            k <= i <= n == s@.len(),
            first_solid(s@, k as int) == first_solid(s@, i as int),
        decreases n - i,
    {
        i = i + 1;
    }
    i
}

/// Packs parts into chunks (see `pack`).
fn pack_parts(parts: &Vec<Vec<char>>, max: usize) -> (r: Vec<Vec<char>>)
    ensures
        views(r@) == pack(views(parts@), max as nat),
{
    let ghost ps = views(parts@);
    let mut chunks: Vec<Vec<char>> = Vec::new();
    let mut acc: Vec<char> = Vec::new();
    let mut i: usize = 0;
    while i < parts.len()
        invariant
            i <= parts@.len(),
            ps == views(parts@),
            pack_state(ps.take(i as int), max as nat) == (views(chunks@), acc@),
        decreases parts.len() - i,
    {
        let part = &parts[i];
        assert(ps.take(i + 1).drop_last() =~= ps.take(i as int));
        assert(ps.take(i + 1).last() == part@);
        let over = part.len() > max || acc.len() > max - part.len();
        if acc.len() > 0 && over {
            let t = trimmed(acc.as_slice());
            let ghost before = views(chunks@);
            chunks.push(t);
            assert(views(chunks@) =~= before.push(t@));
            acc = Vec::new();
            push_all(&mut acc, part.as_slice());
            assert(acc@ =~= part@);
        } else {
            push_all(&mut acc, part.as_slice());
        }
        i = i + 1;
    }
    assert(ps.take(parts@.len() as int) =~= ps);
    let t = trimmed(acc.as_slice());
    if t.len() > 0 {
        let ghost before = views(chunks@);
        chunks.push(t);
        assert(views(chunks@) =~= before.push(t@));
    }
    chunks
}

/// Tries one separator (see `cut_at`).
fn try_cut(s: &[char], sep: char, max: usize) -> (r: Option<Vec<Vec<char>>>)
    ensures
        match r {
            Some(c) => cut_at(s@, sep, max as nat) == Some(views(c@)),
            None => cut_at(s@, sep, max as nat) is None,
        },
{
    let parts = split_after(s, sep);
    let chunks = pack_parts(&parts, max);
    let ghost cv = views(chunks@);
    assert(cv == pack(split_incl(s@, sep), max as nat));
    assert(cv.len() == chunks@.len());
    if chunks.len() <= 1 {
        return None;
    }
    let mut k: usize = 0;
    while k < chunks.len()
        invariant
            k <= chunks@.len(),
            cv == views(chunks@),
            cv == pack(split_incl(s@, sep), max as nat),
            forall|q: int| 0 <= q < k ==> (#[trigger] cv[q]).len() <= max,
        decreases chunks.len() - k,
    {
        if chunks[k].len() > max {
            assert(cv[k as int].len() > max);
            assert(!(forall|q: int| 0 <= q < cv.len() ==> (#[trigger] cv[q]).len() <= max));
            assert(cut_at(s@, sep, max as nat) is None);
            return None;
        }
        k = k + 1;
    }
    Some(chunks)
}

/// Appends the contribution of one piece (see `piece`).
fn push_piece(out: &mut Vec<Vec<char>>, p: &[char], max: usize)
    ensures
        views(final(out)@) == views(old(out)@) + piece(p@, max as nat),
{
    let ghost start = views(out@);
    let s = trimmed(p);
    if s.len() == 0 {
        assert(views(out@) =~= start + piece(p@, max as nat));
        return;
    }
    if s.len() <= max {
        out.push(s);
        assert(views(out@) =~= start + piece(p@, max as nat));
        return;
    }
    let mut chosen: Option<Vec<Vec<char>>> = try_cut(s.as_slice(), ';', max);
    if chosen.is_none() {
        chosen = try_cut(s.as_slice(), ',', max);
        if chosen.is_none() {
            chosen = try_cut(s.as_slice(), ' ', max);
        }
    }
    match chosen {
        Some(chunks) => {
            let mut k: usize = 0;
            while k < chunks.len()
                invariant
                    k <= chunks@.len(),
                    views(out@) == start + views(chunks@).take(k as int),
                decreases chunks.len() - k,
            {
                let ghost before = views(out@);
                assert(views(chunks@)[k as int] == chunks@[k as int]@);
                let c = copy_range(chunks[k].as_slice(), 0, chunks[k].len());
                assert(chunks@[k as int]@.subrange(0, chunks@[k as int]@.len() as int) =~= chunks@[k as int]@);
                assert(c@ == chunks@[k as int]@);
                out.push(c);
                assert(views(out@) =~= before.push(chunks@[k as int]@));
                assert(views(out@) =~= start + views(chunks@).take(k + 1));
                k = k + 1;
            }
            assert(views(chunks@).take(chunks@.len() as int) =~= views(chunks@));
        },
        None => {
            out.push(s);
            assert(views(out@) =~= start + piece(p@, max as nat));
        },
    }
}

/// Splits a block into sentences.
pub fn split_sentences(text: &str, max_chars: usize) -> (r: Vec<String>)
    ensures
        string_views(r@) == sentences(text@, max_chars as nat),
{
    let t = trimmed_str(text);
    let mut out: Vec<Vec<char>> = Vec::new();
    if t.len() == 0 {
        let r = strings_of(&out);
        assert(views(out@) =~= seq![]);
        return r;
    }
    let n = t.len();
    let ghost s = t@;
    let ghost whole = scan(s, max_chars as nat, 0, 0);
    assert(whole == sentences(text@, max_chars as nat));
    let mut start: usize = 0;
    let mut i: usize = 0;
    while i < n
        invariant
            n == t@.len(),
            s == t@,
            start <= i <= n,
            whole == sentences(text@, max_chars as nat),
            views(out@) + scan(s, max_chars as nat, i as int, start as int) == whole,
        decreases n - i,
    {
        let c = t[i];
        if !is_stop_char(c) || (i + 1 < n && is_stop_char(t[i + 1])) || (i + 1 < n && (t[i + 1]
            == '"' || t[i + 1] == '\'')) {
            i = i + 1;
            continue;
        }
        let next = solid_from(t.as_slice(), i + 1);
        if next >= n {
            assert(scan(s, max_chars as nat, i as int, start as int) == piece(
                s.subrange(start as int, n as int),
                max_chars as nat,
            ));
            let ghost before = views(out@);
            push_piece(&mut out, copy_range(t.as_slice(), start, n).as_slice(), max_chars);
            assert(views(out@) =~= whole);
            let r = strings_of(&out);
            return r;
        }
        let ends = char_is_whitespace(t[i + 1]) && (char_is_uppercase(t[next]) || t[next] == '¿'
            || t[next] == '¡') && !is_abbrev(copy_range(t.as_slice(), start, i).as_slice());
        if ends {
            let ghost before = views(out@);
            push_piece(&mut out, copy_range(t.as_slice(), start, i + 1).as_slice(), max_chars);
            assert(views(out@) + scan(s, max_chars as nat, i + 1, i + 1) =~= before + scan(
                s,
                max_chars as nat,
                i as int,
                start as int,
            ));
            start = i + 1;
        }
        i = i + 1;
    }
    assert(scan(s, max_chars as nat, i as int, start as int) == piece(
        s.subrange(start as int, n as int),
        max_chars as nat,
    ));
    push_piece(&mut out, copy_range(t.as_slice(), start, n).as_slice(), max_chars);
    assert(views(out@) =~= whole);
    strings_of(&out)
}

// ---------------------------------------------------------------------------
// Nothing but whitespace is lost.
// ---------------------------------------------------------------------------

proof fn lemma_pack_state(parts: Seq<Seq<char>>, max: nat)
    ensures
        solid(pack_state(parts, max).0.flatten()) + solid(pack_state(parts, max).1) == solid(
            parts.flatten(),
        ),
    decreases parts.len(),
{
    if parts.len() == 0 {
        assert(solid(pack_state(parts, max).0.flatten()) + solid(pack_state(parts, max).1)
            =~= Seq::<char>::empty());
        assert(parts.flatten() =~= Seq::<char>::empty());
    } else {
        let (chunks, acc) = pack_state(parts.drop_last(), max);
        let part = parts.last();
        lemma_pack_state(parts.drop_last(), max);
        assert(parts =~= parts.drop_last().push(part));
        parts.drop_last().lemma_flatten_push(part);
        lemma_solid_concat(parts.drop_last().flatten(), part);
        if acc.len() > 0 && acc.len() + part.len() > max {
            chunks.lemma_flatten_push(trim(acc));
            lemma_solid_concat(chunks.flatten(), trim(acc));
            lemma_solid_trim(acc);
            assert(solid(chunks.push(trim(acc)).flatten()) + solid(part) =~= solid(chunks.flatten())
                + solid(acc) + solid(part));
        } else {
            lemma_solid_concat(acc, part);
            assert(solid(chunks.flatten()) + solid(acc + part) =~= solid(chunks.flatten()) + solid(
                acc,
            ) + solid(part));
        }
    }
}

proof fn lemma_pack(parts: Seq<Seq<char>>, max: nat)
    ensures
        solid(pack(parts, max).flatten()) == solid(parts.flatten()),
{
    let (chunks, acc) = pack_state(parts, max);
    lemma_pack_state(parts, max);
    lemma_solid_trim(acc);
    if trim(acc).len() > 0 {
        chunks.lemma_flatten_push(trim(acc));
        lemma_solid_concat(chunks.flatten(), trim(acc));
    } else {
        assert(solid(trim(acc)) =~= Seq::<char>::empty());
        assert(solid(chunks.flatten()) + solid(acc) =~= solid(chunks.flatten()));
    }
}

proof fn lemma_cut_at(s: Seq<char>, sep: char, max: nat)
    ensures
        cut_at(s, sep, max) matches Some(c) ==> solid(c.flatten()) == solid(s),
{
    lemma_pack(split_incl(s, sep), max);
    lemma_split_incl_flatten(s, sep);
}

proof fn lemma_piece(p: Seq<char>, max: nat)
    ensures
        solid(piece(p, max).flatten()) == solid(p),
{
    let s = trim(p);
    lemma_solid_trim(p);
    if s.len() == 0 {
        assert(solid(s) =~= Seq::<char>::empty());
        assert(piece(p, max).flatten() =~= Seq::<char>::empty());
    } else if s.len() <= max {
        seq![s].lemma_flatten_singleton();
    } else {
        lemma_cut_at(s, ';', max);
        lemma_cut_at(s, ',', max);
        lemma_cut_at(s, ' ', max);
        seq![s].lemma_flatten_singleton();
    }
}

proof fn lemma_scan(s: Seq<char>, max: nat, i: int, start: int)
    requires
        0 <= start <= i <= s.len(),
    ensures
        solid(scan(s, max, i, start).flatten()) == solid(s.subrange(start, s.len() as int)),
    decreases s.len() - i,
{
    if i >= s.len() {
        lemma_piece(s.subrange(start, s.len() as int), max);
    } else if !is_stop(s[i]) || (i + 1 < s.len() && is_follow(s[i + 1])) {
        lemma_scan(s, max, i + 1, start);
    } else if first_solid(s, i + 1) >= s.len() {
        lemma_piece(s.subrange(start, s.len() as int), max);
    } else if ends_sentence(s, i, start) {
        let head = piece(s.subrange(start, i + 1), max);
        let rest = scan(s, max, i + 1, i + 1);
        lemma_piece(s.subrange(start, i + 1), max);
        lemma_scan(s, max, i + 1, i + 1);
        lemma_flatten_concat(head, rest);
        lemma_solid_concat(head.flatten(), rest.flatten());
        assert(s.subrange(start, s.len() as int) =~= s.subrange(start, i + 1) + s.subrange(
            i + 1,
            s.len() as int,
        ));
        lemma_solid_concat(s.subrange(start, i + 1), s.subrange(i + 1, s.len() as int));
    } else {
        lemma_scan(s, max, i + 1, start);
    }
}

/// Law: splitting a block into sentences loses nothing but whitespace. The
/// non-whitespace chars of all the sentences, in order, are those of the block.
pub proof fn law_split_keeps_text(text: Seq<char>, max: nat)
    ensures
        solid(sentences(text, max).flatten()) == solid(text),
{
    let t = trim(text);
    lemma_solid_trim(text);
    if t.len() == 0 {
        assert(solid(t) =~= Seq::<char>::empty());
        assert(sentences(text, max).flatten() =~= Seq::<char>::empty());
    } else {
        lemma_scan(t, max, 0, 0);
        assert(t.subrange(0, t.len() as int) =~= t);
    }
}

/// `first_solid` skips a run of whitespace up to the first char that is not.
proof fn lemma_first_solid_run(s: Seq<char>, k: int, m: int)
    requires
        0 <= k <= m < s.len(),
        forall|j: int| k <= j < m ==> is_white(#[trigger] s[j]),
        !is_white(s[m]),
    ensures
        first_solid(s, k) == m,
    decreases m - k,
{
    if k < m {
        lemma_first_solid_run(s, k + 1, m);
    }
}

/// The scan passes over chars that cannot end a sentence.
proof fn lemma_scan_skip(s: Seq<char>, max: nat, k: int, m: int, start: int)
    requires
        0 <= k <= m < s.len(),
        forall|j: int| k <= j < m ==> !is_stop(#[trigger] s[j]),
    ensures
        scan(s, max, k, start) == scan(s, max, m, start),
    decreases m - k,
{
    if k < m {
        lemma_scan_skip(s, max, k + 1, m, start);
    }
}

/// Text with no whitespace at either end is its own trim.
proof fn lemma_trim_solid_ends(x: Seq<char>)
    requires
        x.len() > 0,
        !is_white(x[0]),
        !is_white(x.last()),
    ensures
        trim(x) == x,
{
    assert(trim_start(x) == x);
}

/// A run of whitespace has no solid chars.
proof fn lemma_solid_white(w: Seq<char>)
    requires
        forall|j: int| 0 <= j < w.len() ==> is_white(#[trigger] w[j]),
    ensures
        solid(w) == Seq::<char>::empty(),
    decreases w.len(),
{
    if w.len() > 0 {
        assert(is_white(w[w.len() - 1]));
        lemma_solid_white(w.drop_last());
    }
}

/// Law: a full stop, then whitespace, then an opening char ('¡', '¿' or an
/// uppercase letter), ends a sentence unless the stop closes an abbreviation. For
/// a block made of a first sentence `a` (no earlier stop in it, within the
/// limit), whitespace, and the rest `b`, the first sentence is exactly `a`, stop
/// included, and the sentences after it hold exactly the text of `b`, starting
/// with its opening char.
pub proof fn law_stop_then_opening_ends_sentence(a: Seq<char>, w: Seq<char>, b: Seq<char>, max: nat)
    requires
        a.len() > 0,
        !is_white(a[0]),
        a.last() == '.' || a.last() == '!' || a.last() == '?' || a.last() == '\u{2026}',
        forall|k: int| 0 <= k < a.len() - 1 ==> !is_stop(#[trigger] a[k]),
        a.len() <= max,
        !ends_in_abbrev(a.drop_last()),
        w.len() > 0,
        forall|k: int| 0 <= k < w.len() ==> is_white(#[trigger] w[k]),
        b.len() > 0,
        b[0] == '¡' || b[0] == '¿' || (is_upper(b[0]) && !is_white(b[0])),
        !is_white(b.last()),
    ensures
        sentences(a + w + b, max).len() >= 2,
        sentences(a + w + b, max)[0] == a,
        solid(sentences(a + w + b, max).drop_first().flatten()) == solid(b),
        solid(sentences(a + w + b, max).drop_first().flatten())[0] == b[0],
{
    let t = a + w + b;
    let la = a.len() as int;
    let m = la + w.len();
    assert(t[0] == a[0]);
    assert(t.last() == b.last());
    lemma_trim_solid_ends(t);
    assert(sentences(t, max) == scan(t, max, 0, 0));
    assert forall|j: int| 0 <= j < la - 1 implies !is_stop(#[trigger] t[j]) by {
        assert(t[j] == a[j]);
    }
    lemma_scan_skip(t, max, 0, la - 1, 0);
    assert(t[la - 1] == a.last());
    assert(t[la] == w[0]);
    assert(is_white(w[0]));
    assert forall|j: int| la <= j < m implies is_white(#[trigger] t[j]) by {
        assert(t[j] == w[j - la]);
    }
    assert(t[m] == b[0]);
    lemma_first_solid_run(t, la, m);
    assert(t.subrange(0, la - 1) =~= a.drop_last());
    assert(ends_sentence(t, la - 1, 0));
    let rest = scan(t, max, la, la);
    assert(t.subrange(0, la) =~= a);
    lemma_trim_solid_ends(a);
    assert(piece(a, max) == seq![a]);
    assert(scan(t, max, la - 1, 0) == seq![a] + rest);
    assert((seq![a] + rest).drop_first() =~= rest);
    lemma_scan(t, max, la, la);
    assert(t.subrange(la, t.len() as int) =~= w + b);
    lemma_solid_concat(w, b);
    lemma_solid_white(w);
    assert(solid(w) + solid(b) =~= solid(b));
    assert(b =~= seq![b[0]] + b.drop_first());
    lemma_solid_concat(seq![b[0]], b.drop_first());
    let one = seq![b[0]];
    assert(one.drop_last() =~= Seq::<char>::empty());
    assert(solid(one.drop_last()) =~= Seq::<char>::empty());
    assert(one.last() == b[0]);
    assert(!is_white(b[0]));
    assert(solid(one) =~= seq![b[0]]);
    assert(solid(b)[0] == b[0]);
    if rest.len() == 0 {
        assert(rest.flatten() =~= Seq::<char>::empty());
    }
}

/// A sentence within the length limit, or one that no pause (`;`, `,`, a space)
/// can cut into pieces that all fit.
pub open spec fn fits_or_uncuttable(x: Seq<char>, max: nat) -> bool {
    ||| x.len() <= max
    ||| cut_at(x, ';', max) is None && cut_at(x, ',', max) is None && cut_at(x, ' ', max) is None
}

proof fn lemma_pack_trimmed(parts: Seq<Seq<char>>, max: nat)
    ensures
        forall|k: int| 0 <= k < pack_state(parts, max).0.len() ==> trim(#[trigger] pack_state(parts, max).0[k])
            == pack_state(parts, max).0[k],
        forall|k: int| 0 <= k < pack(parts, max).len() ==> trim(#[trigger] pack(parts, max)[k]) == pack(
            parts,
            max,
        )[k],
    decreases parts.len(),
{
    if parts.len() > 0 {
        lemma_pack_trimmed(parts.drop_last(), max);
        let (chunks, acc) = pack_state(parts.drop_last(), max);
        lemma_trim_idempotent(acc);
        let c2 = pack_state(parts, max).0;
        assert forall|k: int| 0 <= k < c2.len() implies trim(#[trigger] c2[k]) == c2[k] by {
            if k < chunks.len() {
                assert(c2[k] == chunks[k]);
            }
        }
    }
    let (chunks, acc) = pack_state(parts, max);
    lemma_trim_idempotent(acc);
    assert forall|k: int| 0 <= k < pack(parts, max).len() implies trim(#[trigger] pack(parts, max)[k])
        == pack(parts, max)[k] by {
        if k < chunks.len() {
            assert(pack(parts, max)[k] == chunks[k]);
        }
    }
}

proof fn lemma_piece_fits(p: Seq<char>, max: nat)
    ensures
        forall|k: int|
            0 <= k < piece(p, max).len() ==> fits_or_uncuttable(#[trigger] piece(p, max)[k], max)
                && trim(piece(p, max)[k]) == piece(p, max)[k],
{
    let s = trim(p);
    lemma_trim_idempotent(p);
    lemma_pack_trimmed(split_incl(s, ';'), max);
    lemma_pack_trimmed(split_incl(s, ','), max);
    lemma_pack_trimmed(split_incl(s, ' '), max);
    if s.len() > max {
        if let Some(c) = cut_at(s, ';', max) {
            assert(forall|k: int| 0 <= k < c.len() ==> (#[trigger] c[k]).len() <= max);
        } else if let Some(c) = cut_at(s, ',', max) {
            assert(forall|k: int| 0 <= k < c.len() ==> (#[trigger] c[k]).len() <= max);
        } else if let Some(c) = cut_at(s, ' ', max) {
            assert(forall|k: int| 0 <= k < c.len() ==> (#[trigger] c[k]).len() <= max);
        }
    }
}

proof fn lemma_scan_fits(s: Seq<char>, max: nat, i: int, start: int)
    requires
        0 <= start <= i <= s.len(),
    ensures
        forall|k: int|
            0 <= k < scan(s, max, i, start).len() ==> fits_or_uncuttable(
                #[trigger] scan(s, max, i, start)[k],
                max,
            ) && trim(scan(s, max, i, start)[k]) == scan(s, max, i, start)[k],
    decreases s.len() - i,
{
    if i >= s.len() {
        lemma_piece_fits(s.subrange(start, s.len() as int), max);
        assert(scan(s, max, i, start) == piece(s.subrange(start, s.len() as int), max));
    } else if !is_stop(s[i]) || (i + 1 < s.len() && is_follow(s[i + 1])) {
        lemma_scan_fits(s, max, i + 1, start);
        assert(scan(s, max, i, start) == scan(s, max, i + 1, start));
    } else if first_solid(s, i + 1) >= s.len() {
        lemma_piece_fits(s.subrange(start, s.len() as int), max);
        assert(scan(s, max, i, start) == piece(s.subrange(start, s.len() as int), max));
    } else if ends_sentence(s, i, start) {
        let head = piece(s.subrange(start, i + 1), max);
        let rest = scan(s, max, i + 1, i + 1);
        lemma_piece_fits(s.subrange(start, i + 1), max);
        lemma_scan_fits(s, max, i + 1, i + 1);
        assert(scan(s, max, i, start) == head + rest);
        assert forall|k: int| 0 <= k < (head + rest).len() implies fits_or_uncuttable(
            #[trigger] (head + rest)[k],
            max,
        ) && trim((head + rest)[k]) == (head + rest)[k] by {
            if k >= head.len() {
                assert((head + rest)[k] == rest[k - head.len()]);
            } else {
                assert((head + rest)[k] == head[k]);
            }
        }
    } else {
        lemma_scan_fits(s, max, i + 1, start);
        assert(scan(s, max, i, start) == scan(s, max, i + 1, start));
    }
}

/// Law: every sentence is trimmed (no whitespace at either end), and none is
/// longer than the limit unless no pause can cut it into pieces that all fit (one
/// unbroken run of letters longer than the limit, say).
pub proof fn law_sentences_fit(text: Seq<char>, max: nat)
    ensures
        forall|k: int|
            0 <= k < sentences(text, max).len() ==> fits_or_uncuttable(
                #[trigger] sentences(text, max)[k],
                max,
            ) && trim(sentences(text, max)[k]) == sentences(text, max)[k],
{
    let t = trim(text);
    if t.len() > 0 {
        lemma_scan_fits(t, max, 0, 0);
    }
}

// ---------------------------------------------------------------------------
// Batches: blocks in, sentences to the translator, blocks out.
// ---------------------------------------------------------------------------

/// The sentences of every block, in order, and where each block's sentences lie.
pub struct SentenceBatch {
    pub sentences: Vec<String>,
    /// `sentences[ranges[k].0 .. ranges[k].1]` are the sentences of block `k`.
    pub ranges: Vec<(usize, usize)>,
}

/// Number of sentences of the first `k` blocks.
pub open spec fn offset(texts: Seq<String>, max: nat, k: int) -> nat
    decreases k,
{
    if k <= 0 {
        0
    } else {
        offset(texts, max, k - 1) + sentences(texts[k - 1]@, max).len()
    }
}

/// The sentences of the first `k` blocks, in order.
pub open spec fn batch_sentences(texts: Seq<String>, max: nat, k: int) -> Seq<Seq<char>>
    decreases k,
{
    if k <= 0 {
        seq![]
    } else {
        batch_sentences(texts, max, k - 1) + sentences(texts[k - 1]@, max)
    }
}

proof fn lemma_batch_len(texts: Seq<String>, max: nat, k: int)
    requires
        0 <= k <= texts.len(),
    ensures
        batch_sentences(texts, max, k).len() == offset(texts, max, k),
    decreases k,
{
    if k > 0 {
        lemma_batch_len(texts, max, k - 1);
    }
}

proof fn lemma_batch_prefix(texts: Seq<String>, max: nat, j: int, k: int)
    requires
        0 <= j <= k <= texts.len(),
    ensures
        batch_sentences(texts, max, k).subrange(0, offset(texts, max, j) as int)
            == batch_sentences(texts, max, j),
        offset(texts, max, j) <= offset(texts, max, k),
    decreases k,
{
    lemma_batch_len(texts, max, j);
    lemma_batch_len(texts, max, k);
    if j < k {
        lemma_batch_prefix(texts, max, j, k - 1);
        lemma_batch_len(texts, max, k - 1);
        assert(batch_sentences(texts, max, k).subrange(0, offset(texts, max, j) as int)
            =~= batch_sentences(texts, max, k - 1).subrange(0, offset(texts, max, j) as int));
    } else {
        assert(batch_sentences(texts, max, k).subrange(0, offset(texts, max, j) as int)
            =~= batch_sentences(texts, max, j));
    }
}

/// Law: in a planned batch, the range of block `k` holds exactly the sentences of block `k`.
pub proof fn law_batch_ranges(texts: Seq<String>, max: nat, k: int)
    requires
        0 <= k < texts.len(),
    ensures
        batch_sentences(texts, max, texts.len() as int).subrange(
            offset(texts, max, k) as int,
            offset(texts, max, k + 1) as int,
        ) == sentences(texts[k]@, max),
{
    lemma_batch_prefix(texts, max, k + 1, texts.len() as int);
    lemma_batch_len(texts, max, k);
    lemma_batch_len(texts, max, k + 1);
    lemma_batch_len(texts, max, texts.len() as int);
    let all = batch_sentences(texts, max, texts.len() as int);
    let upto = batch_sentences(texts, max, k + 1);
    assert(all.subrange(offset(texts, max, k) as int, offset(texts, max, k + 1) as int)
        =~= upto.subrange(offset(texts, max, k) as int, offset(texts, max, k + 1) as int));
    assert(upto.subrange(offset(texts, max, k) as int, offset(texts, max, k + 1) as int)
        =~= sentences(texts[k]@, max));
}

/// Splits every block of a batch into sentences for the translator.
pub fn plan_batch(texts: &[String], max_chars: usize) -> (r: SentenceBatch)
    ensures
        string_views(r.sentences@) == batch_sentences(texts@, max_chars as nat, texts@.len() as int),
        r.ranges@.len() == texts@.len(),
        forall|k: int|
            0 <= k < texts@.len() ==> #[trigger] r.ranges@[k] == (
                offset(texts@, max_chars as nat, k) as usize,
                offset(texts@, max_chars as nat, k + 1) as usize,
            ),
{
    let mut flat: Vec<String> = Vec::new();
    let mut ranges: Vec<(usize, usize)> = Vec::new();
    let mut k: usize = 0;
    while k < texts.len()
        invariant
            k <= texts@.len(),
            string_views(flat@) == batch_sentences(texts@, max_chars as nat, k as int),
            flat@.len() == offset(texts@, max_chars as nat, k as int),
            ranges@.len() == k,
            forall|q: int|
                0 <= q < k ==> #[trigger] ranges@[q] == (
                    offset(texts@, max_chars as nat, q) as usize,
                    offset(texts@, max_chars as nat, q + 1) as usize,
                ),
        decreases texts.len() - k,
    {
        let start = flat.len();
        let part = split_sentences(texts[k].as_str(), max_chars);
        let mut j: usize = 0;
        let ghost base = string_views(flat@);
        while j < part.len()
            invariant
                j <= part@.len(),
                string_views(flat@) == base + string_views(part@).take(j as int),
                flat@.len() == start + j,
            decreases part.len() - j,
        {
            let ghost before = string_views(flat@);
            let piece_text = string_of(chars_of(part[j].as_str()).as_slice());
            flat.push(piece_text);
            assert(string_views(flat@) =~= before.push(part@[j as int]@));
            assert(string_views(part@).take(j + 1) =~= string_views(part@).take(j as int).push(
                part@[j as int]@,
            ));
            j = j + 1;
        }
        assert(string_views(part@).take(part@.len() as int) =~= string_views(part@));
        ranges.push((start, flat.len()));
        k = k + 1;
    }
    SentenceBatch { sentences: flat, ranges }
}

/// The translated sentences of one block put back together: each trimmed,
/// blank ones dropped, joined by single spaces.
pub open spec fn joined(parts: Seq<Seq<char>>) -> Seq<char>
    decreases parts.len(),
{
    if parts.len() == 0 {
        seq![]
    } else {
        let init = joined(parts.drop_last());
        let t = trim(parts.last());
        if t.len() == 0 {
            init
        } else if init.len() == 0 {
            t
        } else {
            init + seq![' '] + t
        }
    }
}

/// Puts the translated sentences of one block back together.
pub fn join_translated(parts: &[String]) -> (r: String)
    ensures
        r@ == joined(string_views(parts@)),
{
    let ghost ps = string_views(parts@);
    let mut out: Vec<char> = Vec::new();
    let mut i: usize = 0;
    while i < parts.len()
        invariant
            i <= parts@.len(),
            ps == string_views(parts@),
            out@ == joined(ps.take(i as int)),
        decreases parts.len() - i,
    {
        assert(ps.take(i + 1).drop_last() =~= ps.take(i as int));
        assert(ps.take(i + 1).last() == parts@[i as int]@);
        let t = trimmed_str(parts[i].as_str());
        if t.len() > 0 {
            if out.len() > 0 {
                out.push(' ');
            }
            push_all(&mut out, t.as_slice());
        }
        i = i + 1;
        assert(out@ =~= joined(ps.take(i as int)));
    }
    assert(ps.take(parts@.len() as int) =~= ps);
    string_of(out.as_slice())
}

/// Puts each block's translation back together from the translated sentences:
/// block `k` gets the sentences `outputs[ranges[k].0 .. ranges[k].1]`, joined.
pub fn assemble(outputs: &[String], ranges: &[(usize, usize)]) -> (r: Vec<String>)
    requires
        forall|k: int| 0 <= k < ranges@.len() ==> #[trigger] ranges@[k].0 <= ranges@[k].1 <= outputs@.len(),
    ensures
        r@.len() == ranges@.len(),
        forall|k: int|
            0 <= k < ranges@.len() ==> #[trigger] r@[k]@ == joined(
                string_views(outputs@.subrange(ranges@[k].0 as int, ranges@[k].1 as int)),
            ),
{
    let mut r: Vec<String> = Vec::new();
    let mut k: usize = 0;
    while k < ranges.len()
        invariant
            k <= ranges@.len(),
            r@.len() == k,
            forall|q: int| 0 <= q < ranges@.len() ==> #[trigger] ranges@[q].0 <= ranges@[q].1 <= outputs@.len(),
            forall|q: int|
                0 <= q < k ==> #[trigger] r@[q]@ == joined(
                    string_views(outputs@.subrange(ranges@[q].0 as int, ranges@[q].1 as int)),
                ),
        decreases ranges.len() - k,
    {
        let (a, b) = ranges[k];
        assert(ranges@[k as int].0 <= ranges@[k as int].1 <= outputs@.len());
        let mut parts: Vec<String> = Vec::new();
        let mut i: usize = a;
        while i < b
            invariant
                a <= i <= b <= outputs@.len(),
                parts@ == outputs@.subrange(a as int, i as int),
            decreases b - i,
        {
            parts.push(outputs[i].clone());
            i = i + 1;
            assert(parts@ =~= outputs@.subrange(a as int, i as int));
        }
        r.push(join_translated(parts.as_slice()));
        k = k + 1;
    }
    r
}

// ---------------------------------------------------------------------------
// NLLB language tags.
// ---------------------------------------------------------------------------

/// Language tag NLLB-200 uses for Spanish.
pub const NLLB_SRC: &'static str = "spa_Latn";

/// Language tag NLLB-200 uses for English.
pub const NLLB_TGT: &'static str = "eng_Latn";

/// End-of-sentence token.
pub const EOS: &'static str = "</s>";

pub open spec fn ascii_lower(b: u8) -> bool {
    97 <= b <= 122
}

pub open spec fn ascii_upper(b: u8) -> bool {
    65 <= b <= 90
}

/// Eight bytes shaped like `eng_Latn`: three lowercase letters, `_`, an uppercase letter.
pub open spec fn is_lang_tag(b: Seq<u8>) -> bool {
    &&& b.len() == 8
    &&& b[3] == 95
    &&& ascii_lower(b[0]) && ascii_lower(b[1]) && ascii_lower(b[2])
    &&& ascii_upper(b[4])
}

/// A token that is markup and not text: `<...>`, or a language tag.
pub open spec fn special(t: Seq<char>) -> bool {
    (t.len() > 0 && t[0] == '<' && t.last() == '>') || is_lang_tag(encode_utf8(t))
}

/// Is this token markup (`</s>`, `<unk>`) or a language tag (`eng_Latn`)?
pub fn is_special(tok: &str) -> (r: bool)
    ensures
        r == special(tok@),
{
    let cs = chars_of(tok);
    if cs.len() > 0 && cs[0] == '<' && cs[cs.len() - 1] == '>' {
        return true;
    }
    let b = tok.as_bytes();
    b.len() == 8 && b[3] == 95u8 && 97u8 <= b[0] && b[0] <= 122u8 && 97u8 <= b[1] && b[1] <= 122u8
        && 97u8 <= b[2] && b[2] <= 122u8 && 65u8 <= b[4] && b[4] <= 90u8
}

pub(crate) fn owned(s: &str) -> (r: String)
    ensures
        r@ == s@,
{
    s.to_owned()
}

/// The tokens NLLB reads for a Spanish sentence: the source tag, the sentence's
/// tokens, the end-of-sentence token.
pub fn frame_source(tokens: Vec<String>) -> (r: Vec<String>)
    ensures
        string_views(r@) == seq![NLLB_SRC@] + string_views(tokens@) + seq![EOS@],
{
    let mut r: Vec<String> = Vec::new();
    r.push(owned(NLLB_SRC));
    let mut i: usize = 0;
    while i < tokens.len()
        invariant
            i <= tokens@.len(),
            string_views(r@) == seq![NLLB_SRC@] + string_views(tokens@).take(i as int),
        decreases tokens.len() - i,
    {
        let ghost before = string_views(r@);
        r.push(owned(tokens[i].as_str()));
        assert(string_views(r@) =~= before.push(tokens@[i as int]@));
        assert(string_views(tokens@).take(i + 1) =~= string_views(tokens@).take(i as int).push(
            tokens@[i as int]@,
        ));
        i = i + 1;
    }
    let ghost before = string_views(r@);
    r.push(owned(EOS));
    assert(string_views(r@) =~= before.push(EOS@));
    assert(string_views(tokens@).take(tokens@.len() as int) =~= string_views(tokens@));
    assert(string_views(r@) =~= seq![NLLB_SRC@] + string_views(tokens@) + seq![EOS@]);
    r
}

/// The tokens that are text, markup and language tags left out.
pub open spec fn without_special(ts: Seq<Seq<char>>) -> Seq<Seq<char>>
    decreases ts.len(),
{
    if ts.len() == 0 {
        seq![]
    } else if special(ts.last()) {
        without_special(ts.drop_last())
    } else {
        without_special(ts.drop_last()).push(ts.last())
    }
}

/// Drops markup and language tags before the tokens are turned back into text.
pub fn strip_special(tokens: Vec<String>) -> (r: Vec<String>)
    ensures
        string_views(r@) == without_special(string_views(tokens@)),
{
    let ghost ts = string_views(tokens@);
    let mut r: Vec<String> = Vec::new();
    let mut i: usize = 0;
    while i < tokens.len()
        invariant
            i <= tokens@.len(),
            ts == string_views(tokens@),
            string_views(r@) == without_special(ts.take(i as int)),
        decreases tokens.len() - i,
    {
        assert(ts.take(i + 1).drop_last() =~= ts.take(i as int));
        assert(ts.take(i + 1).last() == tokens@[i as int]@);
        if !is_special(tokens[i].as_str()) {
            let ghost before = string_views(r@);
            r.push(owned(tokens[i].as_str()));
            assert(string_views(r@) =~= before.push(tokens@[i as int]@));
        }
        i = i + 1;
    }
    assert(ts.take(tokens@.len() as int) =~= ts);
    r
}

// ---------------------------------------------------------------------------
// Decoding options.
// ---------------------------------------------------------------------------

/// Decoding options. `no_repeat_ngram` is a cheap guard: on garbage input a
/// translator can get stuck repeating too.
#[derive(Clone, Copy, Debug)]
pub struct MtOptions {
    pub beam_size: usize,
    pub max_output_tokens: usize,
    pub no_repeat_ngram: usize,
}

impl Default for MtOptions {
    fn default() -> (r: Self)
        ensures
            r.beam_size == 4,
            r.max_output_tokens == 512,
            r.no_repeat_ngram == 6,
    {
        MtOptions { beam_size: 4, max_output_tokens: 512, no_repeat_ngram: 6 }
    }
}

} // verus!
