//! Low-confidence marks from contrasting two independent recognizers.
//!
//! The recognizers expose no per-token probabilities, so confidence comes from a
//! second opinion: where the two models read the same words, the text is very
//! likely right; where they differ, it is worth a look. The comparison works on
//! normalized words (lowercase, no accents, no punctuation) aligned by their
//! longest common subsequence.

use vstd::prelude::*;
use crate::text::{
    char_is_alphanumeric, char_to_lowercase, chars_of, is_alnum, lower_of, same_chars, split_white,
    string_views, views, words,
};

verus! {

// ---------------------------------------------------------------------------
// Normalization.
// ---------------------------------------------------------------------------

/// One lowercase char folded for comparison, `alnum` telling whether it is
/// alphanumeric: Spanish accents dropped, anything that is not alphanumeric removed.
pub open spec fn fold_with(c: char, alnum: bool) -> Option<char> {
    if c == 'á' {
        Some('a')
    } else if c == 'é' {
        Some('e')
    } else if c == 'í' {
        Some('i')
    } else if c == 'ó' {
        Some('o')
    } else if c == 'ú' || c == 'ü' {
        Some('u')
    } else if alnum {
        Some(c)
    } else {
        None
    }
}

/// One lowercase char folded for comparison.
pub open spec fn fold_char(c: char) -> Option<char> {
    fold_with(c, is_alnum(c))
}

/// A char as it takes part in a comparison: the first char of its lowercase
/// mapping, folded.
pub open spec fn norm_char(c: char) -> Option<char> {
    let l = lower_of(c);
    if l.len() == 0 {
        None
    } else {
        fold_char(l[0])
    }
}

/// A word normalized for comparison: lowercase, no accents, no punctuation.
pub open spec fn normalized(s: Seq<char>) -> Seq<char>
    decreases s.len(),
{
    if s.len() == 0 {
        seq![]
    } else {
        let init = normalized(s.drop_last());
        match norm_char(s.last()) {
            Some(c) => init.push(c),
            None => init,
        }
    }
}

/// The normalized form of each word.
pub open spec fn normalized_all(ws: Seq<Seq<char>>) -> Seq<Seq<char>> {
    ws.map_values(|w: Seq<char>| normalized(w))
}

/// Folds one already-lowercased char for comparison, given whether it is
/// alphanumeric.
pub fn fold_lowered(c: char, alnum: bool) -> (r: Option<char>)
    ensures
        r == fold_with(c, alnum),
{
    if c == 'á' {
        Some('a')
    } else if c == 'é' {
        Some('e')
    } else if c == 'í' {
        Some('i')
    } else if c == 'ó' {
        Some('o')
    } else if c == 'ú' || c == 'ü' {
        Some('u')
    } else if alnum {
        Some(c)
    } else {
        None
    }
}

fn fold(c: char) -> (r: Option<char>)
    ensures
        r == fold_char(c),
{
    fold_lowered(c, char_is_alphanumeric(c))
}

/// Normalizes a word for comparison.
pub fn norm(s: &[char]) -> (r: Vec<char>)
    ensures
        r@ == normalized(s@),
{
    let mut r: Vec<char> = Vec::new();
    let mut i: usize = 0;
    while i < s.len()
        invariant
            i <= s@.len(),
            r@ == normalized(s@.take(i as int)),
        decreases s.len() - i,
    {
        let c = s[i];
        assert(s@.take(i + 1).drop_last() =~= s@.take(i as int));
        let low = char_to_lowercase(c);
        if low.len() > 0 {
            match fold(low[0]) {
                Some(f) => r.push(f),
                None => {},
            }
        }
        i = i + 1;
    }
    assert(s@.take(s@.len() as int) =~= s@);
    r
}

/// The Spanish accented vowels (lowercase): á é í ó ú ü.
pub open spec fn accented(c: char) -> bool {
    c == 'á' || c == 'é' || c == 'í' || c == 'ó' || c == 'ú' || c == 'ü'
}

/// The vowel without its accent: a e i o u u for á é í ó ú ü; any other char as it is.
pub open spec fn plain_vowel(c: char) -> char {
    if c == 'á' {
        'a'
    } else if c == 'é' {
        'e'
    } else if c == 'í' {
        'i'
    } else if c == 'ó' {
        'o'
    } else if c == 'ú' || c == 'ü' {
        'u'
    } else {
        c
    }
}

/// Law: folding drops Spanish accents. Each of á é í ó ú ü folds to its plain
/// vowel, whatever the alphanumeric test said of it; no folded char is accented;
/// any other char is kept exactly when it is alphanumeric.
pub proof fn law_fold_drops_accents(c: char, alnum: bool)
    ensures
        fold_with('á', alnum) == Some('a'),
        fold_with('é', alnum) == Some('e'),
        fold_with('í', alnum) == Some('i'),
        fold_with('ó', alnum) == Some('o'),
        fold_with('ú', alnum) == Some('u'),
        fold_with('ü', alnum) == Some('u'),
        accented(c) ==> fold_with(c, alnum) == Some(plain_vowel(c)),
        !accented(c) ==> (fold_with(c, alnum) is Some <==> alnum),
        fold_with(c, alnum) matches Some(x) ==> !accented(x),
{
}

/// Law: a normalized word holds no accented vowel.
pub proof fn law_normalized_has_no_accents(s: Seq<char>)
    ensures
        forall|k: int| 0 <= k < normalized(s).len() ==> !accented(#[trigger] normalized(s)[k]),
    decreases s.len(),
{
    if s.len() > 0 {
        law_normalized_has_no_accents(s.drop_last());
        let init = normalized(s.drop_last());
        let l = lower_of(s.last());
        if l.len() > 0 {
            law_fold_drops_accents(l[0], is_alnum(l[0]));
        }
        assert forall|k: int| 0 <= k < normalized(s).len() implies !accented(
            #[trigger] normalized(s)[k],
        ) by {
            if k < init.len() {
                assert(normalized(s)[k] == init[k]);
            }
        }
    }
}

/// Two chars that compare alike: their lowercase forms start with the same char,
/// or the first starts with an accented vowel and the second with that vowel
/// plain (an alphanumeric char), or neither has a lowercase form.
pub open spec fn alike_but_accent(x: char, y: char) -> bool {
    let lx = lower_of(x);
    let ly = lower_of(y);
    ||| lx.len() == 0 && ly.len() == 0
    ||| lx.len() > 0 && ly.len() > 0 && (lx[0] == ly[0] || (accented(lx[0]) && ly[0]
        == plain_vowel(lx[0]) && is_alnum(ly[0])))
}

/// Law: accents and case do not count. Two words whose chars, one by one, differ
/// at most in case or in an accent ("Cómo" and "como") normalize to the same word,
/// so a comparison pairs them.
pub proof fn law_accents_do_not_count(s: Seq<char>, t: Seq<char>)
    requires
        s.len() == t.len(),
        forall|k: int| 0 <= k < s.len() ==> alike_but_accent(#[trigger] s[k], t[k]),
    ensures
        normalized(s) == normalized(t),
    decreases s.len(),
{
    if s.len() > 0 {
        let n = s.len() - 1;
        assert(alike_but_accent(s[n], t[n]));
        assert forall|k: int| 0 <= k < s.drop_last().len() implies alike_but_accent(
            #[trigger] s.drop_last()[k],
            t.drop_last()[k],
        ) by {
            assert(alike_but_accent(s[k], t[k]));
        }
        law_accents_do_not_count(s.drop_last(), t.drop_last());
        let lx = lower_of(s.last());
        let ly = lower_of(t.last());
        if lx.len() > 0 && ly.len() > 0 && lx[0] != ly[0] {
            law_fold_drops_accents(lx[0], is_alnum(lx[0]));
            law_fold_drops_accents(ly[0], is_alnum(ly[0]));
        }
        assert(norm_char(s.last()) == norm_char(t.last()));
    }
}

// ---------------------------------------------------------------------------
// Longest common subsequence.
// ---------------------------------------------------------------------------

/// Length of the longest common subsequence of `a[i..]` and `b[j..]`.
pub open spec fn lcs(a: Seq<Seq<char>>, b: Seq<Seq<char>>, i: int, j: int) -> nat
    decreases a.len() - i + b.len() - j,
{
    if i < 0 || j < 0 || i >= a.len() || j >= b.len() {
        0
    } else if a[i] == b[j] {
        1 + lcs(a, b, i + 1, j + 1)
    } else {
        let x = lcs(a, b, i + 1, j);
        let y = lcs(a, b, i, j + 1);
        if x >= y {
            x
        } else {
            y
        }
    }
}

/// The common subsequence of `a[i..]` and `b[j..]` that the alignment reports:
/// equal words are matched as soon as they meet; otherwise the side whose
/// remainder keeps the longer common subsequence is advanced, the first one on a tie.
pub open spec fn trace(a: Seq<Seq<char>>, b: Seq<Seq<char>>, i: int, j: int) -> Seq<(int, int)>
    decreases a.len() - i + b.len() - j,
{
    if i < 0 || j < 0 || i >= a.len() || j >= b.len() {
        seq![]
    } else if a[i] == b[j] {
        seq![(i, j)] + trace(a, b, i + 1, j + 1)
    } else if lcs(a, b, i + 1, j) >= lcs(a, b, i, j + 1) {
        trace(a, b, i + 1, j)
    } else {
        trace(a, b, i, j + 1)
    }
}

/// `p` pairs equal words of `a` and `b`, strictly increasing on both sides.
pub open spec fn is_matching(a: Seq<Seq<char>>, b: Seq<Seq<char>>, p: Seq<(int, int)>) -> bool {
    &&& forall|k: int|
        0 <= k < p.len() ==> 0 <= (#[trigger] p[k]).0 < a.len() && 0 <= p[k].1 < b.len() && a[p[k].0]
            == b[p[k].1]
    &&& forall|k: int, l: int|
        0 <= k < l < p.len() ==> (#[trigger] p[k]).0 < (#[trigger] p[l]).0 && p[k].1 < p[l].1
}

/// Every pair of `p` lies in `a[i..] x b[j..]`.
pub open spec fn within(p: Seq<(int, int)>, i: int, j: int) -> bool {
    forall|k: int| 0 <= k < p.len() ==> (#[trigger] p[k]).0 >= i && p[k].1 >= j
}

/// Pairs as integers.
pub open spec fn pair_view(p: Seq<(usize, usize)>) -> Seq<(int, int)> {
    p.map_values(|x: (usize, usize)| (x.0 as int, x.1 as int))
}

proof fn lemma_lcs_bound(a: Seq<Seq<char>>, b: Seq<Seq<char>>, i: int, j: int)
    requires
        0 <= i <= a.len(),
        0 <= j <= b.len(),
    ensures
        lcs(a, b, i, j) <= a.len() - i,
        lcs(a, b, i, j) <= b.len() - j,
    decreases a.len() - i + b.len() - j,
{
    if i < a.len() && j < b.len() {
        lemma_lcs_bound(a, b, i + 1, j + 1);
        lemma_lcs_bound(a, b, i + 1, j);
        lemma_lcs_bound(a, b, i, j + 1);
    }
}

/// The reported alignment is a common subsequence of `a[i..]` and `b[j..]` of
/// the longest length.
proof fn lemma_trace(a: Seq<Seq<char>>, b: Seq<Seq<char>>, i: int, j: int)
    requires
        0 <= i <= a.len(),
        0 <= j <= b.len(),
    ensures
        is_matching(a, b, trace(a, b, i, j)),
        within(trace(a, b, i, j), i, j),
        trace(a, b, i, j).len() == lcs(a, b, i, j),
    decreases a.len() - i + b.len() - j,
{
    if i < a.len() && j < b.len() {
        if a[i] == b[j] {
            lemma_trace(a, b, i + 1, j + 1);
            let t = trace(a, b, i + 1, j + 1);
            let r = seq![(i, j)] + t;
            assert(r == trace(a, b, i, j));
            assert forall|k: int, l: int| 0 <= k < l < r.len() implies (#[trigger] r[k]).0 < (
            #[trigger] r[l]).0 && r[k].1 < r[l].1 by {
                if k > 0 {
                    assert(r[k] == t[k - 1]);
                }
                assert(r[l] == t[l - 1]);
            }
            assert forall|k: int| 0 <= k < r.len() implies 0 <= (#[trigger] r[k]).0 < a.len() && 0
                <= r[k].1 < b.len() && a[r[k].0] == b[r[k].1] && r[k].0 >= i && r[k].1 >= j by {
                if k > 0 {
                    assert(r[k] == t[k - 1]);
                }
            }
        } else if lcs(a, b, i + 1, j) >= lcs(a, b, i, j + 1) {
            lemma_trace(a, b, i + 1, j);
        } else {
            lemma_trace(a, b, i, j + 1);
        }
    }
}

/// No matching of `a[i..]` and `b[j..]` is longer than `lcs(a, b, i, j)`.
proof fn lemma_lcs_longest(a: Seq<Seq<char>>, b: Seq<Seq<char>>, i: int, j: int, p: Seq<(int, int)>)
    requires
        0 <= i <= a.len(),
        0 <= j <= b.len(),
        is_matching(a, b, p),
        within(p, i, j),
    ensures
        p.len() <= lcs(a, b, i, j),
    decreases a.len() - i + b.len() - j,
{
    if p.len() == 0 {
        return;
    }
    let x = p[0].0;
    let y = p[0].1;
    assert(0 <= x < a.len() && 0 <= y < b.len());
    let q = p.drop_first();
    assert(is_matching(a, b, q)) by {
        assert forall|k: int| 0 <= k < q.len() implies 0 <= (#[trigger] q[k]).0 < a.len() && 0
            <= q[k].1 < b.len() && a[q[k].0] == b[q[k].1] by {
            assert(q[k] == p[k + 1]);
        }
        assert forall|k: int, l: int| 0 <= k < l < q.len() implies (#[trigger] q[k]).0 < (
        #[trigger] q[l]).0 && q[k].1 < q[l].1 by {
            assert(q[k] == p[k + 1]);
            assert(q[l] == p[l + 1]);
        }
    }
    if a[i] == b[j] {
        assert(within(q, i + 1, j + 1)) by {
            assert forall|k: int| 0 <= k < q.len() implies (#[trigger] q[k]).0 >= i + 1 && q[k].1
                >= j + 1 by {
                assert(q[k] == p[k + 1]);
                assert(p[0].0 < p[k + 1].0 && p[0].1 < p[k + 1].1);
            }
        }
        lemma_lcs_longest(a, b, i + 1, j + 1, q);
    } else if x > i {
        assert(within(p, i + 1, j)) by {
            assert forall|k: int| 0 <= k < p.len() implies (#[trigger] p[k]).0 >= i + 1 && p[k].1
                >= j by {
                if k > 0 {
                    assert(p[0].0 < p[k].0);
                }
            }
        }
        lemma_lcs_longest(a, b, i + 1, j, p);
    } else {
        assert(y > j);
        assert(within(p, i, j + 1)) by {
            assert forall|k: int| 0 <= k < p.len() implies (#[trigger] p[k]).0 >= i && p[k].1 >= j
                + 1 by {
                if k > 0 {
                    assert(p[0].1 < p[k].1);
                }
            }
        }
        lemma_lcs_longest(a, b, i, j + 1, p);
    }
}

/// Law: the alignment `lcs_pairs` reports is a longest common subsequence. It
/// pairs equal words in increasing order on both sides, and no such pairing of
/// the two word lists is longer.
pub proof fn law_alignment_is_longest(a: Seq<Seq<char>>, b: Seq<Seq<char>>, p: Seq<(int, int)>)
    requires
        is_matching(a, b, p),
    ensures
        is_matching(a, b, trace(a, b, 0, 0)),
        trace(a, b, 0, 0).len() == lcs(a, b, 0, 0),
        p.len() <= trace(a, b, 0, 0).len(),
{
    lemma_trace(a, b, 0, 0);
    assert(within(p, 0, 0)) by {
        assert forall|k: int| 0 <= k < p.len() implies (#[trigger] p[k]).0 >= 0 && p[k].1 >= 0 by {
        }
    }
    lemma_lcs_longest(a, b, 0, 0, p);
}

/// Longest common subsequence of two word lists: the pairs `(i, j)` of words
/// that are matched, in increasing order.
pub fn lcs_pairs(a: &Vec<Vec<char>>, b: &Vec<Vec<char>>) -> (r: Vec<(usize, usize)>)
    requires
        a@.len() + b@.len() <= usize::MAX,
    ensures
        pair_view(r@) == trace(views(a@), views(b@), 0, 0),
{
    let ghost sa = views(a@);
    let ghost sb = views(b@);
    let n = a.len();
    let m = b.len();
    if n == 0 || m == 0 {
        let r: Vec<(usize, usize)> = Vec::new();
        assert(pair_view(r@) =~= trace(sa, sb, 0, 0));
        return r;
    }
    // rows[n - i] is row i of the table: rows[n - i][j] == lcs(i, j).
    let mut rows: Vec<Vec<usize>> = Vec::new();
    let mut last: Vec<usize> = Vec::new();
    let mut j: usize = 0;
    while j <= m
        invariant
            j <= m + 1,
            m == b@.len() < usize::MAX,
            last@.len() == j,
            forall|k: int| 0 <= k < j ==> #[trigger] last@[k] == 0,
        decreases m + 1 - j,
    {
        last.push(0);
        j = j + 1;
    }
    assert forall|k: int| 0 <= k <= m implies #[trigger] last@[k] == lcs(sa, sb, n as int, k) by {}
    rows.push(last);
    let mut i: usize = n;
    while i > 0
        invariant
            i <= n == a@.len() == sa.len(),
            m == b@.len() == sb.len(),
            m < usize::MAX,
            sa == views(a@),
            sb == views(b@),
            rows@.len() == n - i + 1,
            forall|r: int| 0 <= r < rows@.len() ==> (#[trigger] rows@[r])@.len() == m + 1,
            forall|r: int, k: int|
                0 <= r < rows@.len() && 0 <= k <= m ==> #[trigger] rows@[r]@[k] == lcs(
                    sa,
                    sb,
                    n - r,
                    k,
                ),
        decreases i,
    {
        i = i - 1;
        let prev_idx = n - i - 1;
        let mut row: Vec<usize> = Vec::new();
        let mut z: usize = 0;
        while z <= m
            invariant
                z <= m + 1,
                m < usize::MAX,
                row@.len() == z,
                forall|q: int| 0 <= q < z ==> #[trigger] row@[q] == 0,
            decreases m + 1 - z,
        {
            row.push(0);
            z = z + 1;
        }
        let mut k: usize = m;
        assert(row@[m as int] == lcs(sa, sb, i as int, m as int));
        while k > 0
            invariant
                i < n == a@.len() == sa.len(),
                m == b@.len() == sb.len(),
                sa == views(a@),
                sb == views(b@),
                prev_idx == n - i - 1,
                prev_idx < rows@.len(),
                rows@[prev_idx as int]@.len() == m + 1,
                forall|q: int|
                    0 <= q <= m ==> #[trigger] rows@[prev_idx as int]@[q] == lcs(
                        sa,
                        sb,
                        i + 1,
                        q,
                    ),
                k <= m,
                row@.len() == m + 1,
                forall|q: int| k <= q <= m ==> #[trigger] row@[q] == lcs(sa, sb, i as int, q),
            decreases k,
        {
            k = k - 1;
            assert(sa[i as int] == a@[i as int]@);
            assert(sb[k as int] == b@[k as int]@);
            let v = if same_chars(a[i].as_slice(), b[k].as_slice()) {
                proof {
                    lemma_lcs_bound(sa, sb, i + 1, k + 1);
                }
                rows[prev_idx][k + 1] + 1
            } else {
                let x = rows[prev_idx][k];
                let y = row[k + 1];
                if x >= y {
                    x
                } else {
                    y
                }
            };
            row.set(k, v);
        }
        rows.push(row);
    }
    // Walk the table from (0, 0).
    let mut pairs: Vec<(usize, usize)> = Vec::new();
    let mut x: usize = 0;
    let mut y: usize = 0;
    while x < n && y < m
        invariant
            x <= n == a@.len() == sa.len(),
            y <= m == b@.len() == sb.len(),
            sa == views(a@),
            sb == views(b@),
            rows@.len() == n + 1,
            forall|r: int| 0 <= r < rows@.len() ==> (#[trigger] rows@[r])@.len() == m + 1,
            forall|r: int, k: int|
                0 <= r < rows@.len() && 0 <= k <= m ==> #[trigger] rows@[r]@[k] == lcs(
                    sa,
                    sb,
                    n - r,
                    k,
                ),
            pair_view(pairs@) + trace(sa, sb, x as int, y as int) == trace(sa, sb, 0, 0),
        decreases n - x + m - y,
    {
        assert(sa[x as int] == a@[x as int]@);
        assert(sb[y as int] == b@[y as int]@);
        if same_chars(a[x].as_slice(), b[y].as_slice()) {
            let ghost before = pair_view(pairs@);
            pairs.push((x, y));
            assert(pair_view(pairs@) =~= before.push((x as int, y as int)));
            assert(trace(sa, sb, x as int, y as int) == seq![(x as int, y as int)] + trace(
                sa,
                sb,
                x + 1,
                y + 1,
            ));
            assert(pair_view(pairs@) + trace(sa, sb, x + 1, y + 1) =~= before + trace(
                sa,
                sb,
                x as int,
                y as int,
            ));
            x = x + 1;
            y = y + 1;
        } else if rows[n - x - 1][y] >= rows[n - x][y + 1] {
            x = x + 1;
        } else {
            y = y + 1;
        }
    }
    assert(trace(sa, sb, x as int, y as int) =~= seq![]);
    assert(pair_view(pairs@) =~= pair_view(pairs@) + trace(sa, sb, x as int, y as int));
    pairs
}

// ---------------------------------------------------------------------------
// Comparing two transcripts of the same stretch of audio.
// ---------------------------------------------------------------------------

/// Result of contrasting two transcripts of the same stretch of audio.
pub struct Comparison {
    /// One mark per word of the primary transcript: `true` = the other model said something else.
    pub low_conf: Vec<bool>,
    /// Pairs `(index in primary, index in reference)` of matching words.
    pub pairs: Vec<(usize, usize)>,
    /// Agreement is `agreement_num / agreement_den`, from 0 to 1; it is 1 when
    /// both transcripts are empty (`agreement_den == 0`).
    pub agreement_num: usize,
    /// Total number of words on both sides.
    pub agreement_den: usize,
}

/// Word `k` of the primary side takes part in alignment `t`.
pub open spec fn paired(t: Seq<(int, int)>, k: int) -> bool {
    exists|q: int| 0 <= q < t.len() && (#[trigger] t[q]).0 == k
}

/// The normalized words of a list of strings.
pub open spec fn normalized_texts(v: Seq<String>) -> Seq<Seq<char>> {
    normalized_all(string_views(v))
}

/// Normalizes each word of a transcript.
fn norm_all(v: &[String]) -> (r: Vec<Vec<char>>)
    ensures
        views(r@) == normalized_texts(v@),
{
    let mut r: Vec<Vec<char>> = Vec::new();
    let mut i: usize = 0;
    while i < v.len()
        invariant
            i <= v@.len(),
            r@.len() == i,
            forall|k: int| 0 <= k < i ==> (#[trigger] r@[k])@ == normalized(v@[k]@),
        decreases v.len() - i,
    {
        let cs = chars_of(v[i].as_str());
        r.push(norm(cs.as_slice()));
        i = i + 1;
    }
    assert(views(r@) =~= normalized_texts(v@));
    r
}

/// Contrasts the reference transcript against the primary one, word by word.
pub fn compare(primary: &[String], reference: &[String]) -> (r: Comparison)
    requires
        primary@.len() + reference@.len() <= usize::MAX,
    ensures
        pair_view(r.pairs@) == trace(
            normalized_texts(primary@),
            normalized_texts(reference@),
            0,
            0,
        ),
        r.low_conf@.len() == primary@.len(),
        forall|k: int|
            0 <= k < primary@.len() ==> #[trigger] r.low_conf@[k] == !paired(
                pair_view(r.pairs@),
                k,
            ),
        r.agreement_num == 2 * r.pairs@.len(),
        r.agreement_den == primary@.len() + reference@.len(),
{
    let a = norm_all(primary);
    let b = norm_all(reference);
    let ghost sa = views(a@);
    let ghost sb = views(b@);
    proof {
        lemma_trace(sa, sb, 0, 0);
        lemma_lcs_bound(sa, sb, 0, 0);
    }
    let pairs = lcs_pairs(&a, &b);
    let ghost t = pair_view(pairs@);
    assert(t.len() == pairs@.len());
    let mut low_conf: Vec<bool> = Vec::new();
    let mut i: usize = 0;
    while i < a.len()
        invariant
            i <= a@.len(),
            low_conf@.len() == i,
            forall|k: int| 0 <= k < i ==> #[trigger] low_conf@[k],
        decreases a.len() - i,
    {
        low_conf.push(true);
        i = i + 1;
    }
    let mut q: usize = 0;
    while q < pairs.len()
        invariant
            q <= pairs@.len(),
            t == pair_view(pairs@),
            t == trace(sa, sb, 0, 0),
            is_matching(sa, sb, t),
            low_conf@.len() == a@.len() == sa.len(),
            forall|k: int|
                0 <= k < low_conf@.len() ==> #[trigger] low_conf@[k] == !(exists|p: int|
                    0 <= p < q && (#[trigger] t[p]).0 == k),
        decreases pairs.len() - q,
    {
        let (x, _y) = pairs[q];
        assert(t[q as int] == (x as int, _y as int));
        low_conf.set(x, false);
        q = q + 1;
        assert forall|k: int| 0 <= k < low_conf@.len() implies #[trigger] low_conf@[k] == !(exists|
            p: int,
        | 0 <= p < q && (#[trigger] t[p]).0 == k) by {
            if k == x {
                assert(t[q - 1].0 == k);
            }
        }
    }
    let den = primary.len() + reference.len();
    assert(pairs@.len() <= primary@.len());
    let num = 2 * pairs.len();
    Comparison { low_conf, pairs, agreement_num: num, agreement_den: den }
}

/// The alignment of a word list with itself pairs every word with itself.
proof fn lemma_trace_self(a: Seq<Seq<char>>, i: int)
    requires
        0 <= i <= a.len(),
    ensures
        trace(a, a, i, i).len() == a.len() - i,
        forall|k: int| 0 <= k < a.len() - i ==> #[trigger] trace(a, a, i, i)[k] == (i + k, i + k),
    decreases a.len() - i,
{
    if i < a.len() {
        lemma_trace_self(a, i + 1);
        let t = trace(a, a, i + 1, i + 1);
        assert(trace(a, a, i, i) == seq![(i, i)] + t);
        assert forall|k: int| 0 <= k < a.len() - i implies #[trigger] trace(a, a, i, i)[k] == (
        i + k,
        i + k,
        ) by {
            if k > 0 {
                assert(trace(a, a, i, i)[k] == t[k - 1]);
            }
        }
    }
}

/// Law: contrasting a transcript with itself marks no word and agrees fully.
pub proof fn law_identical_agree(words_a: Seq<Seq<char>>)
    ensures
        trace(words_a, words_a, 0, 0).len() == words_a.len(),
        forall|k: int| 0 <= k < words_a.len() ==> paired(trace(words_a, words_a, 0, 0), k),
        2 * trace(words_a, words_a, 0, 0).len() == words_a.len() + words_a.len(),
{
    lemma_trace_self(words_a, 0);
    assert forall|k: int| 0 <= k < words_a.len() implies paired(
        trace(words_a, words_a, 0, 0),
        k,
    ) by {
        assert(trace(words_a, words_a, 0, 0)[k].0 == k);
    }
}

/// Law: the agreement never exceeds 1 (`2 * matched <= words on both sides`).
pub proof fn law_agreement_at_most_one(a: Seq<Seq<char>>, b: Seq<Seq<char>>)
    ensures
        2 * trace(a, b, 0, 0).len() <= a.len() + b.len(),
{
    lemma_trace(a, b, 0, 0);
    lemma_lcs_bound(a, b, 0, 0);
}

proof fn lemma_lcs_symmetric(a: Seq<Seq<char>>, b: Seq<Seq<char>>, i: int, j: int)
    ensures
        lcs(a, b, i, j) == lcs(b, a, j, i),
    decreases a.len() - i + b.len() - j,
{
    if 0 <= i < a.len() && 0 <= j < b.len() {
        lemma_lcs_symmetric(a, b, i + 1, j + 1);
        lemma_lcs_symmetric(a, b, i + 1, j);
        lemma_lcs_symmetric(a, b, i, j + 1);
    }
}

/// Law: agreement is symmetric. Comparing `a` against `b` matches as many words as
/// comparing `b` against `a`, over the same number of words, so both comparisons
/// report the same agreement.
pub proof fn law_agreement_symmetric(a: Seq<Seq<char>>, b: Seq<Seq<char>>)
    ensures
        trace(a, b, 0, 0).len() == trace(b, a, 0, 0).len(),
{
    lemma_trace(a, b, 0, 0);
    lemma_trace(b, a, 0, 0);
    lemma_lcs_symmetric(a, b, 0, 0);
}

// ---------------------------------------------------------------------------
// Repetition loops.
// ---------------------------------------------------------------------------

/// Threshold from which a stretch is taken as degenerate.
pub const LOOP_LIMIT: usize = 6;

/// The non-empty words of a list.
pub open spec fn non_empty(ws: Seq<Seq<char>>) -> Seq<Seq<char>>
    decreases ws.len(),
{
    if ws.len() == 0 {
        seq![]
    } else if ws.last().len() == 0 {
        non_empty(ws.drop_last())
    } else {
        non_empty(ws.drop_last()).push(ws.last())
    }
}

/// The words of a text as the loop detector sees them: split at whitespace,
/// normalized, empty ones dropped.
pub open spec fn loop_words(text: Seq<char>) -> Seq<Seq<char>> {
    non_empty(normalized_all(words(text)))
}

/// The `n` words starting at `i` equal the `n` words starting at `j`.
pub open spec fn same_window(ws: Seq<Seq<char>>, n: int, i: int, j: int) -> bool {
    ws.subrange(i, i + n) == ws.subrange(j, j + n)
}

/// How many of the windows starting before `upto` equal the window starting at `i`.
pub open spec fn occurrences(ws: Seq<Seq<char>>, n: int, i: int, upto: int) -> nat
    decreases upto,
{
    if upto <= 0 {
        0
    } else {
        occurrences(ws, n, i, upto - 1) + if same_window(ws, n, i, upto - 1) {
            1nat
        } else {
            0nat
        }
    }
}

/// The largest number of occurrences among the windows starting before `upto`.
pub open spec fn most_occurrences(ws: Seq<Seq<char>>, n: int, upto: int) -> nat
    decreases upto,
{
    if upto <= 0 {
        0
    } else {
        let here = occurrences(ws, n, upto - 1, ws.len() - n + 1);
        let before = most_occurrences(ws, n, upto - 1);
        if here > before {
            here
        } else {
            before
        }
    }
}

/// How many times the most frequent `n`-gram of the text's words occurs; 0 when
/// the text has fewer than `2 n` words.
pub open spec fn loop_score_of(text: Seq<char>, n: int) -> nat {
    let ws = loop_words(text);
    if ws.len() < 2 * n {
        0
    } else {
        most_occurrences(ws, n, ws.len() - n + 1)
    }
}

/// When the `n`-word windows starting at `0..=ws.len() - n` are pairwise distinct,
/// each occurs once among those starting before `upto`, if it starts there.
proof fn lemma_occurrences_distinct(ws: Seq<Seq<char>>, n: int, i: int, upto: int)
    requires
        0 <= i,
        i + n <= ws.len(),
        0 <= upto <= ws.len() - n + 1,
        forall|x: int, y: int|
            0 <= x < y <= ws.len() - n ==> #[trigger] ws.subrange(x, x + n) != #[trigger] ws.subrange(
                y,
                y + n,
            ),
    ensures
        occurrences(ws, n, i, upto) == if i < upto {
            1nat
        } else {
            0nat
        },
    decreases upto,
{
    if upto > 0 {
        lemma_occurrences_distinct(ws, n, i, upto - 1);
        let j = upto - 1;
        if i < j {
            assert(ws.subrange(i, i + n) != ws.subrange(j, j + n));
        } else if j < i {
            assert(ws.subrange(j, j + n) != ws.subrange(i, i + n));
        }
    }
}

/// `most_occurrences` is the largest count among the windows starting before
/// `upto`, and one of them reaches it.
proof fn lemma_most_occurrences(ws: Seq<Seq<char>>, n: int, upto: int)
    requires
        upto >= 0,
    ensures
        forall|i: int|
            0 <= i < upto ==> #[trigger] occurrences(ws, n, i, ws.len() - n + 1) <= most_occurrences(
                ws,
                n,
                upto,
            ),
        upto > 0 ==> exists|i: int|
            0 <= i < upto && #[trigger] occurrences(ws, n, i, ws.len() - n + 1) == most_occurrences(
                ws,
                n,
                upto,
            ),
        upto == 0 ==> most_occurrences(ws, n, upto) == 0,
    decreases upto,
{
    if upto > 0 {
        lemma_most_occurrences(ws, n, upto - 1);
        let here = occurrences(ws, n, upto - 1, ws.len() - n + 1);
        if here <= most_occurrences(ws, n, upto - 1) && upto - 1 > 0 {
            let i = choose|i: int|
                0 <= i < upto - 1 && #[trigger] occurrences(ws, n, i, ws.len() - n + 1)
                    == most_occurrences(ws, n, upto - 1);
            assert(occurrences(ws, n, i, ws.len() - n + 1) == most_occurrences(ws, n, upto));
        } else {
            assert(occurrences(ws, n, upto - 1, ws.len() - n + 1) == most_occurrences(ws, n, upto));
        }
    }
}

/// Law: the loop score is the number of times the most frequent `n`-word phrase
/// occurs. With at least `2 n` words, no `n`-word window of the text's words
/// occurs more often than the score, and some window occurs exactly that often;
/// with fewer words the score is 0.
pub proof fn law_loop_score_is_most_frequent(text: Seq<char>, n: int)
    requires
        n > 0,
    ensures
        loop_words(text).len() < 2 * n ==> loop_score_of(text, n) == 0,
        loop_words(text).len() >= 2 * n ==> {
            let ws = loop_words(text);
            let total = ws.len() - n + 1;
            &&& forall|i: int|
                0 <= i < total ==> #[trigger] occurrences(ws, n, i, total) <= loop_score_of(text, n)
            &&& exists|i: int|
                0 <= i < total && #[trigger] occurrences(ws, n, i, total) == loop_score_of(text, n)
        },
{
    let ws = loop_words(text);
    if ws.len() >= 2 * n {
        lemma_most_occurrences(ws, n, ws.len() - n + 1);
    }
}

/// Law: a text whose `n`-word phrases are pairwise distinct scores 1, however often
/// a single word repeats in it (as long as it has at least `2 n` words).
pub proof fn law_distinct_phrases_score_one(text: Seq<char>, n: int)
    requires
        n > 0,
        loop_words(text).len() >= 2 * n,
        forall|x: int, y: int|
            0 <= x < y <= loop_words(text).len() - n ==> #[trigger] loop_words(text).subrange(
                x,
                x + n,
            ) != #[trigger] loop_words(text).subrange(y, y + n),
    ensures
        loop_score_of(text, n) == 1,
{
    let ws = loop_words(text);
    let total = ws.len() - n + 1;
    lemma_most_occurrences(ws, n, total);
    assert forall|i: int| 0 <= i < total implies #[trigger] occurrences(ws, n, i, total) == 1 by {
        lemma_occurrences_distinct(ws, n, i, total);
    }
    assert(occurrences(ws, n, 0, total) == 1);
}

fn same_windows(ws: &Vec<Vec<char>>, n: usize, i: usize, j: usize) -> (r: bool)
    requires
        i + n <= ws@.len(),
        j + n <= ws@.len(),
    ensures
        r == same_window(views(ws@), n as int, i as int, j as int),
{
    let ghost v = views(ws@);
    let ghost si = v.subrange(i as int, i + n);
    let ghost sj = v.subrange(j as int, j + n);
    let len = ws.len();
    let mut t: usize = 0;
    while t < n
        invariant
            len == ws@.len(),
            i + n <= len,
            j + n <= len,
            i + n <= ws@.len(),
            j + n <= ws@.len(),
            v == views(ws@),
            si == v.subrange(i as int, i + n),
            sj == v.subrange(j as int, j + n),
            t <= n,
            forall|u: int| 0 <= u < t ==> #[trigger] si[u] == sj[u],
        decreases n - t,
    {
        assert(i + t < ws@.len() && j + t < ws@.len());
        assert(si[t as int] == ws@[i + t]@);
        assert(sj[t as int] == ws@[j + t]@);
        if !same_chars(ws[i + t].as_slice(), ws[j + t].as_slice()) {
            assert(si[t as int] != sj[t as int]);
            return false;
        }
        t = t + 1;
    }
    assert(si =~= sj);
    true
}

/// How often the most frequent `n`-gram repeats. A high value gives away the
/// classic hallucination loop of autoregressive decoders.
pub fn loop_score(text: &str, n: usize) -> (r: usize)
    requires
        n > 0,
        2 * n <= usize::MAX,
    ensures
        r == loop_score_of(text@, n as int),
{
    let cs = chars_of(text);
    let raw = split_white(cs.as_slice());
    let ghost nw = normalized_all(views(raw@));
    let mut ws: Vec<Vec<char>> = Vec::new();
    let mut i: usize = 0;
    while i < raw.len()
        invariant
            i <= raw@.len(),
            nw == normalized_all(views(raw@)),
            views(ws@) == non_empty(nw.take(i as int)),
        decreases raw.len() - i,
    {
        let w = norm(raw[i].as_slice());
        assert(nw.take(i + 1).drop_last() =~= nw.take(i as int));
        assert(nw[i as int] == w@);
        if w.len() > 0 {
            let ghost before = views(ws@);
            ws.push(w);
            assert(views(ws@) =~= before.push(nw[i as int]));
        }
        i = i + 1;
    }
    assert(nw.take(raw@.len() as int) =~= nw);
    let ghost v = views(ws@);
    assert(v == loop_words(text@));
    if ws.len() < n * 2 {
        return 0;
    }
    let total = ws.len() - n + 1;
    let mut best: usize = 0;
    let mut a: usize = 0;
    while a < total
        invariant
            v == views(ws@),
            ws@.len() >= 2 * n,
            total == ws@.len() - n + 1,
            a <= total,
            best == most_occurrences(v, n as int, a as int),
            best <= total,
        decreases total - a,
    {
        let mut count: usize = 0;
        let mut b: usize = 0;
        while b < total
            invariant
                v == views(ws@),
                total == ws@.len() - n + 1,
                a < total,
                b <= total,
                count == occurrences(v, n as int, a as int, b as int),
                count <= b,
            decreases total - b,
        {
            if same_windows(&ws, n, a, b) {
                count = count + 1;
            }
            b = b + 1;
        }
        if count > best {
            best = count;
        }
        a = a + 1;
    }
    best
}

} // verus!
