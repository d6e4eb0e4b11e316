//! Clean-up of what a speech recognizer returns for one stretch of audio.
//!
//! One of the recognizers leaks its internal control marks (`<|pnc|>`, `<unk>`...)
//! into the text, sometimes hundreds in a row without spaces. They are removed
//! here, and sub-word tokens are put back together into words.

use vstd::prelude::*;
use crate::text::{
    chars_of, copy_range, join_space, join_with_space, push_all, same_as_str, split_white,
    string_of, string_views, trim, trim_start, trimmed, trimmed_str, views, words,
};

verus! {

// ---------------------------------------------------------------------------
// Control tokens.
// ---------------------------------------------------------------------------

/// A control token and not speech: `<|...|>` or one of the model's markup tokens.
pub open spec fn control(tok: Seq<char>) -> bool {
    let t = trim(tok);
    ||| (t.len() >= 2 && t[0] == '<' && t[1] == '|' && t[t.len() - 2] == '|' && t[t.len() - 1]
        == '>')
    ||| t == "<unk>"@
    ||| t == "<pad>"@
    ||| t == "<s>"@
    ||| t == "</s>"@
    ||| t == "<blank>"@
}

/// Is this token a control mark rather than speech?
pub fn es_control(tok: &str) -> (r: bool)
    ensures
        r == control(tok@),
{
    let t = trimmed_str(tok);
    let n = t.len();
    (n >= 2 && t[0] == '<' && t[1] == '|' && t[n - 2] == '|' && t[n - 1] == '>') || same_as_str(
        t.as_slice(),
        "<unk>",
    ) || same_as_str(t.as_slice(), "<pad>") || same_as_str(t.as_slice(), "<s>") || same_as_str(
        t.as_slice(),
        "</s>",
    ) || same_as_str(t.as_slice(), "<blank>")
}

/// Indices of the tokens that are speech.
pub open spec fn kept(tokens: Seq<Seq<char>>) -> Seq<int>
    decreases tokens.len(),
{
    if tokens.len() == 0 {
        seq![]
    } else if control(tokens.last()) {
        kept(tokens.drop_last())
    } else {
        kept(tokens.drop_last()).push(tokens.len() - 1)
    }
}

/// The items of `v` at the given indices.
pub open spec fn pick<T>(v: Seq<T>, idx: Seq<int>) -> Seq<T> {
    idx.map_values(|i: int| v[i])
}

/// The contents of an optional vector.
pub open spec fn opt_view<T>(o: Option<Vec<T>>) -> Option<Seq<T>> {
    match o {
        Some(v) => Some(v@),
        None => None,
    }
}

/// Per-token timings that line up with the tokens, with the control tokens' entries removed.
pub open spec fn aligned_pick<T>(tokens: Seq<Seq<char>>, t: Option<Seq<T>>) -> Option<Seq<T>> {
    match t {
        Some(v) => if v.len() == tokens.len() {
            Some(pick(v, kept(tokens)))
        } else {
            None
        },
        None => None,
    }
}

proof fn lemma_kept(tokens: Seq<Seq<char>>)
    ensures
        forall|k: int|
            0 <= k < kept(tokens).len() ==> 0 <= #[trigger] kept(tokens)[k] < tokens.len() && !control(
                tokens[kept(tokens)[k]],
            ),
        forall|k: int, q: int| 0 <= k < q < kept(tokens).len() ==> #[trigger] kept(tokens)[k] < #[trigger] kept(tokens)[q],
        forall|i: int| 0 <= i < tokens.len() && !control(#[trigger] tokens[i]) ==> kept(tokens).contains(i),
    decreases tokens.len(),
{
    if tokens.len() > 0 {
        let init = kept(tokens.drop_last());
        lemma_kept(tokens.drop_last());
        assert forall|k: int| 0 <= k < kept(tokens).len() implies 0 <= #[trigger] kept(tokens)[k]
            < tokens.len() && !control(tokens[kept(tokens)[k]]) by {
            if k < init.len() {
                assert(kept(tokens)[k] == init[k]);
                assert(tokens[init[k]] == tokens.drop_last()[init[k]]);
            }
        }
        assert forall|i: int| 0 <= i < tokens.len() && !control(#[trigger] tokens[i]) implies kept(
            tokens,
        ).contains(i) by {
            if i < tokens.len() - 1 {
                assert(tokens.drop_last()[i] == tokens[i]);
                let j = choose|j: int| 0 <= j < init.len() && init[j] == i;
                assert(kept(tokens)[j] == i);
            } else {
                assert(kept(tokens)[kept(tokens).len() - 1] == i);
            }
        }
    }
}

/// Law: stripping the control tokens keeps every token that is speech and nothing
/// else, in order, and a timing list that lined up with the tokens still lines up
/// with what is kept: entry `k` is the one of the `k`-th kept token.
pub proof fn law_strip_keeps_alignment(tokens: Seq<Seq<char>>, t: Seq<int>)
    requires
        t.len() == tokens.len(),
    ensures
        ({
            let ks = kept(tokens);
            let kept_tokens = pick(tokens, ks);
            &&& forall|k: int| 0 <= k < kept_tokens.len() ==> !control(#[trigger] kept_tokens[k])
            &&& forall|i: int| 0 <= i < tokens.len() && !control(#[trigger] tokens[i]) ==> ks.contains(i)
            &&& forall|k: int, q: int| 0 <= k < q < ks.len() ==> #[trigger] ks[k] < #[trigger] ks[q]
            &&& aligned_pick(tokens, Some(t)) matches Some(w) && w.len() == kept_tokens.len()
                && forall|k: int| 0 <= k < w.len() ==> #[trigger] w[k] == t[ks[k]]
        }),
{
    lemma_kept(tokens);
}

/// Token list without control tokens, with its aligned timings.
pub struct Stripped<T> {
    pub tokens: Vec<String>,
    pub timestamps: Option<Vec<T>>,
    pub durations: Option<Vec<T>>,
}

fn pick_aligned<T: Copy>(tokens: &[String], t: &Option<Vec<T>>) -> (r: Option<Vec<T>>)
    ensures
        opt_view(r) == aligned_pick(string_views(tokens@), opt_view(*t)),
{
    let ghost ts = string_views(tokens@);
    match t {
        None => None,
        Some(v) => {
            if v.len() != tokens.len() {
                return None;
            }
            let mut out: Vec<T> = Vec::new();
            let mut i: usize = 0;
            while i < tokens.len()
                invariant
                    i <= tokens@.len() == v@.len(),
                    ts == string_views(tokens@),
                    out@ == pick(v@, kept(ts.take(i as int))),
                decreases tokens.len() - i,
            {
                assert(ts.take(i + 1).drop_last() =~= ts.take(i as int));
                assert(ts.take(i + 1).last() == tokens@[i as int]@);
                if !es_control(tokens[i].as_str()) {
                    out.push(v[i]);
                }
                i = i + 1;
                assert(out@ =~= pick(v@, kept(ts.take(i as int))));
            }
            assert(ts.take(tokens@.len() as int) =~= ts);
            Some(out)
        },
    }
}

/// Drops the control tokens, and the timing entries that belong to them.
/// Timings that do not line up with the tokens are dropped altogether.
pub fn strip_control<T: Copy>(
    tokens: &[String],
    timestamps: &Option<Vec<T>>,
    durations: &Option<Vec<T>>,
) -> (r: Stripped<T>)
    ensures
        string_views(r.tokens@) == pick(string_views(tokens@), kept(string_views(tokens@))),
        opt_view(r.timestamps) == aligned_pick(string_views(tokens@), opt_view(*timestamps)),
        opt_view(r.durations) == aligned_pick(string_views(tokens@), opt_view(*durations)),
{
    let ghost ts = string_views(tokens@);
    let mut out: Vec<String> = Vec::new();
    let mut i: usize = 0;
    while i < tokens.len()
        invariant
            i <= tokens@.len(),
            ts == string_views(tokens@),
            string_views(out@) == pick(ts, kept(ts.take(i as int))),
        decreases tokens.len() - i,
    {
        assert(ts.take(i + 1).drop_last() =~= ts.take(i as int));
        assert(ts.take(i + 1).last() == tokens@[i as int]@);
        if !es_control(tokens[i].as_str()) {
            let ghost before = string_views(out@);
            out.push(string_of(chars_of(tokens[i].as_str()).as_slice()));
            assert(string_views(out@) =~= before.push(tokens@[i as int]@));
        }
        i = i + 1;
        assert(string_views(out@) =~= pick(ts, kept(ts.take(i as int))));
    }
    assert(ts.take(tokens@.len() as int) =~= ts);
    let timestamps = pick_aligned(tokens, timestamps);
    let durations = pick_aligned(tokens, durations);
    Stripped { tokens: out, timestamps, durations }
}

// ---------------------------------------------------------------------------
// Text without tokens.
// ---------------------------------------------------------------------------

/// Index of the first `x y` pair at or after `k`.
pub open spec fn find_pair(s: Seq<char>, x: char, y: char, k: int) -> Option<int>
    decreases s.len() - k,
{
    if k < 0 || k + 1 >= s.len() {
        None
    } else if s[k] == x && s[k + 1] == y {
        Some(k)
    } else {
        find_pair(s, x, y, k + 1)
    }
}

/// The text with every `<|...|>` mark removed; an unclosed mark takes the rest with it.
pub open spec fn strip_marks(s: Seq<char>) -> Seq<char>
    decreases s.len(),
{
    match find_pair(s, '<', '|', 0) {
        None => s,
        Some(a) => match find_pair(s, '|', '>', a) {
            None => s.take(a),
            Some(b) => if 0 <= a <= b && b + 2 <= s.len() {
                s.take(a) + strip_marks(s.skip(b + 2))
            } else {
                s.take(a)
            },
        },
    }
}

/// A loose text cleaned up: marks removed, whitespace collapsed to single spaces.
pub open spec fn cleaned(s: Seq<char>) -> Seq<char> {
    join_space(words(strip_marks(s)))
}

proof fn lemma_find_pair(s: Seq<char>, x: char, y: char, k: int)
    requires
        0 <= k,
    ensures
        find_pair(s, x, y, k) matches Some(i) ==> k <= i && i + 1 < s.len() && s[i] == x && s[i
            + 1] == y,
        find_pair(s, x, y, k) is None ==> forall|i: int|
            k <= i && i + 1 < s.len() ==> !(s[i] == x && #[trigger] s[i + 1] == y),
    decreases s.len() - k,
{
    if k + 1 < s.len() && !(s[k] == x && s[k + 1] == y) {
        lemma_find_pair(s, x, y, k + 1);
    }
}

fn find_in(s: &[char], x: char, y: char, k: usize) -> (r: Option<usize>)
    requires
        k <= s@.len(),
    ensures
        r matches Some(i) ==> find_pair(s@, x, y, k as int) == Some(i as int),
        r is None ==> find_pair(s@, x, y, k as int) is None,
{
    let n = s.len();
    let mut i = k;
    while i < n && i + 1 < n
        invariant
            k <= i <= n == s@.len(),
            find_pair(s@, x, y, k as int) == find_pair(s@, x, y, i as int),
        decreases n - i,
    {
        if s[i] == x && s[i + 1] == y {
            return Some(i);
        }
        i = i + 1;
    }
    None
}

proof fn lemma_skip_pair(s: Seq<char>, x: char, y: char, k: int, d: int)
    requires
        0 <= d <= k,
        d <= s.len(),
    ensures
        find_pair(s.skip(d), x, y, k - d) == (match find_pair(s, x, y, k) {
            Some(i) => Some(i - d),
            None => None::<int>,
        }),
    decreases s.len() - k,
{
    if k + 1 < s.len() && !(s[k] == x && s[k + 1] == y) {
        lemma_skip_pair(s, x, y, k + 1, d);
    }
}

/// Removes the `<|...|>` marks from a loose text when there are no tokens to rebuild it from.
pub fn clean_text(text: &str) -> (r: String)
    ensures
        r@ == cleaned(text@),
{
    let s = chars_of(text);
    let n = s.len();
    let mut out: Vec<char> = Vec::new();
    let mut pos: usize = 0;
    let ghost whole = strip_marks(s@);
    assert(s@.skip(0) =~= s@);
    assert(out@ + strip_marks(s@.skip(0)) =~= whole);
    loop
        invariant_except_break
            pos <= n == s@.len(),
            out@ + strip_marks(s@.skip(pos as int)) == whole,
        ensures
            out@ == whole,
        decreases n - pos,
    {
        let ghost rest = s@.skip(pos as int);
        proof {
            lemma_skip_pair(s@, '<', '|', pos as int, pos as int);
        }
        match find_in(s.as_slice(), '<', '|', pos) {
            None => {
                assert(find_pair(rest, '<', '|', 0) is None);
                let tail = copy_range(s.as_slice(), pos, n);
                assert(tail@ =~= rest);
                assert(strip_marks(rest) == rest);
                push_all(&mut out, tail.as_slice());
                break ;
            },
            Some(a) => {
                proof {
                    lemma_find_pair(s@, '<', '|', pos as int);
                    lemma_skip_pair(s@, '|', '>', a as int, pos as int);
                }
                let head = copy_range(s.as_slice(), pos, a);
                assert(head@ =~= rest.take(a - pos));
                push_all(&mut out, head.as_slice());
                match find_in(s.as_slice(), '|', '>', a) {
                    None => {
                        assert(find_pair(rest, '|', '>', a - pos) is None);
                        assert(strip_marks(rest) == rest.take(a - pos));
                        break ;
                    },
                    Some(b) => {
                        proof {
                            lemma_find_pair(s@, '|', '>', a as int);
                        }
                        assert(rest.skip(b + 2 - pos) =~= s@.skip(b + 2));
                        assert(find_pair(rest, '|', '>', a - pos) == Some(b - pos));
                        assert(strip_marks(rest) == rest.take(a - pos) + strip_marks(
                            rest.skip(b + 2 - pos),
                        ));
                        assert(out@ + strip_marks(s@.skip(b + 2)) =~= whole);
                        pos = b + 2;
                    },
                }
            },
        }
    }
    assert(out@ == whole);
    let ws = split_white(out.as_slice());
    let joined = join_with_space(&ws);
    string_of(joined.as_slice())
}

// ---------------------------------------------------------------------------
// Text and words from sub-word tokens.
// ---------------------------------------------------------------------------

/// A token opens a new word when it starts with a space or with `▁`.
pub open spec fn opens_word(t: Seq<char>) -> bool {
    t.len() > 0 && (t[0] == ' ' || t[0] == '\u{2581}')
}

/// `▁` replaced by a space.
pub open spec fn unmark(t: Seq<char>) -> Seq<char> {
    t.map_values(|c: char| if c == '\u{2581}' { ' ' } else { c })
}

/// What a token contributes to the text: its chars, `▁` as a space, leading whitespace dropped.
pub open spec fn token_piece(t: Seq<char>) -> Seq<char> {
    trim_start(unmark(t))
}

/// The text rebuilt from the tokens, before the final trim.
pub open spec fn rebuilt(tokens: Seq<Seq<char>>) -> Seq<char>
    decreases tokens.len(),
{
    if tokens.len() == 0 {
        seq![]
    } else {
        let init = rebuilt(tokens.drop_last());
        let tok = tokens.last();
        let p = token_piece(tok);
        if p.len() == 0 {
            init
        } else if opens_word(tok) && init.len() > 0 {
            init + seq![' '] + p
        } else {
            init + p
        }
    }
}

fn unmarked(t: &[char]) -> (r: Vec<char>)
    ensures
        r@ == unmark(t@),
{
    let mut r: Vec<char> = Vec::new();
    let mut i: usize = 0;
    while i < t.len()
        invariant
            i <= t@.len(),
            r@ == unmark(t@.take(i as int)),
        decreases t.len() - i,
    {
        if t[i] == '\u{2581}' {
            r.push(' ');
        } else {
            r.push(t[i]);
        }
        i = i + 1;
        assert(r@ =~= unmark(t@.take(i as int)));
    }
    assert(t@.take(t@.len() as int) =~= t@);
    r
}

fn piece_of(tok: &str) -> (r: (Vec<char>, bool))
    ensures
        r.0@ == token_piece(tok@),
        r.1 == opens_word(tok@),
{
    let t = chars_of(tok);
    let opens = t.len() > 0 && (t[0] == ' ' || t[0] == '\u{2581}');
    let u = unmarked(t.as_slice());
    let n = u.len();
    let mut a: usize = 0;
    assert(u@.subrange(0, n as int) =~= u@);
    while a < n && crate::text::char_is_whitespace(u[a])
        invariant
            a <= n == u@.len(),
            trim_start(u@) == trim_start(u@.subrange(a as int, n as int)),
        decreases n - a,
    {
        assert(u@.subrange(a as int, n as int).drop_first() =~= u@.subrange(a + 1, n as int));
        a = a + 1;
    }
    assert(u@.subrange(0, n as int) =~= u@);
    (copy_range(u.as_slice(), a, n), opens)
}

/// Rebuilds the text from tokens that are already clean.
pub fn text_from_tokens(tokens: &[String]) -> (r: String)
    ensures
        r@ == trim(rebuilt(string_views(tokens@))),
{
    let ghost ts = string_views(tokens@);
    let mut out: Vec<char> = Vec::new();
    let mut i: usize = 0;
    while i < tokens.len()
        invariant
            i <= tokens@.len(),
            ts == string_views(tokens@),
            out@ == rebuilt(ts.take(i as int)),
        decreases tokens.len() - i,
    {
        assert(ts.take(i + 1).drop_last() =~= ts.take(i as int));
        assert(ts.take(i + 1).last() == tokens@[i as int]@);
        let (p, opens) = piece_of(tokens[i].as_str());
        if p.len() > 0 {
            if opens && out.len() > 0 {
                out.push(' ');
            }
            push_all(&mut out, p.as_slice());
        }
        i = i + 1;
        assert(out@ =~= rebuilt(ts.take(i as int)));
    }
    assert(ts.take(tokens@.len() as int) =~= ts);
    let t = trimmed(out.as_slice());
    string_of(t.as_slice())
}

/// The text of a recognized stretch: rebuilt from the clean tokens when there
/// are any, otherwise the raw text with its marks removed.
pub fn recognized_text(raw: &str, tokens: &[String]) -> (r: String)
    ensures
        tokens@.len() == 0 ==> r@ == cleaned(raw@),
        tokens@.len() > 0 ==> r@ == trim(rebuilt(string_views(tokens@))),
{
    if tokens.len() == 0 {
        clean_text(raw)
    } else {
        text_from_tokens(tokens)
    }
}

/// A word put together from consecutive tokens `first..=last`.
pub struct TokenWord {
    pub text: String,
    pub first: usize,
    pub last: usize,
}

/// A word under construction: its text and its first and last token.
pub type Group = (Seq<char>, int, int);

/// The words the tokens form, before blank ones are dropped: a token joins the
/// word in progress unless it opens a new word.
pub open spec fn groups(tokens: Seq<Seq<char>>) -> Seq<Group>
    decreases tokens.len(),
{
    if tokens.len() == 0 {
        seq![]
    } else {
        let init = groups(tokens.drop_last());
        let tok = tokens.last();
        let i = tokens.len() - 1;
        if init.len() > 0 && !opens_word(tok) {
            let w = init.last();
            init.update(init.len() - 1, (w.0 + token_piece(tok), w.1, i))
        } else {
            init.push((token_piece(tok), i, i))
        }
    }
}

/// The groups whose text is not blank.
pub open spec fn non_blank(gs: Seq<Group>) -> Seq<Group>
    decreases gs.len(),
{
    if gs.len() == 0 {
        seq![]
    } else if trim(gs.last().0).len() == 0 {
        non_blank(gs.drop_last())
    } else {
        non_blank(gs.drop_last()).push(gs.last())
    }
}

/// The view of a list of token words.
pub open spec fn group_views(ws: Seq<TokenWord>) -> Seq<Group> {
    ws.map_values(|w: TokenWord| (w.text@, w.first as int, w.last as int))
}

/// Groups sub-word tokens into words. A token that starts with a space or
/// with `▁` opens a new word; the others extend the word in progress. Each
/// word records the first and last token it is made of, so that its timing
/// can be read off the tokens'.
pub fn group_tokens(tokens: &[String]) -> (r: Vec<TokenWord>)
    ensures
        group_views(r@) == non_blank(groups(string_views(tokens@))),
{
    let ghost ts = string_views(tokens@);
    let mut texts: Vec<Vec<char>> = Vec::new();
    let mut firsts: Vec<usize> = Vec::new();
    let mut lasts: Vec<usize> = Vec::new();
    let mut i: usize = 0;
    while i < tokens.len()
        invariant
            i <= tokens@.len(),
            ts == string_views(tokens@),
            texts@.len() == firsts@.len() == lasts@.len() == groups(ts.take(i as int)).len(),
            forall|k: int|
                0 <= k < texts@.len() ==> #[trigger] groups(ts.take(i as int))[k] == (
                    texts@[k]@,
                    firsts@[k] as int,
                    lasts@[k] as int,
                ),
        decreases tokens.len() - i,
    {
        let ghost pre = ts.take(i as int);
        assert(ts.take(i + 1).drop_last() =~= pre);
        assert(ts.take(i + 1).last() == tokens@[i as int]@);
        let (p, opens) = piece_of(tokens[i].as_str());
        let g = texts.len();
        if g > 0 && !opens {
            let mut w = copy_range(texts[g - 1].as_slice(), 0, texts[g - 1].len());
            assert(texts@[g - 1]@.subrange(0, texts@[g - 1]@.len() as int) =~= texts@[g - 1]@);
            push_all(&mut w, p.as_slice());
            texts.set(g - 1, w);
            lasts.set(g - 1, i);
        } else {
            texts.push(p);
            firsts.push(i);
            lasts.push(i);
        }
        i = i + 1;
    }
    assert(ts.take(tokens@.len() as int) =~= ts);
    let ghost gs = groups(ts);
    let mut r: Vec<TokenWord> = Vec::new();
    let mut k: usize = 0;
    while k < texts.len()
        invariant
            k <= texts@.len() == firsts@.len() == lasts@.len() == gs.len(),
            forall|q: int|
                0 <= q < texts@.len() ==> #[trigger] gs[q] == (
                    texts@[q]@,
                    firsts@[q] as int,
                    lasts@[q] as int,
                ),
            group_views(r@) == non_blank(gs.take(k as int)),
        decreases texts.len() - k,
    {
        assert(gs.take(k + 1).drop_last() =~= gs.take(k as int));
        assert(gs.take(k + 1).last() == gs[k as int]);
        let t = trimmed(texts[k].as_slice());
        if t.len() > 0 {
            let ghost before = group_views(r@);
            let w = TokenWord {
                text: string_of(texts[k].as_slice()),
                first: firsts[k],
                last: lasts[k],
            };
            r.push(w);
            assert(group_views(r@) =~= before.push(gs[k as int]));
        }
        k = k + 1;
    }
    assert(gs.take(texts@.len() as int) =~= gs);
    r
}

} // verus!
