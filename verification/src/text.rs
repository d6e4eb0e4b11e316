//! Character and string primitives shared by the rest of the library.
//!
//! Text is handled as sequences of `char`. The Unicode character properties come
//! from `char`'s own methods in std; everything built on top of them is verified here.

use vstd::prelude::*;

verus! {

// ---------------------------------------------------------------------------
// Unicode properties, as std's `char` and `str` methods report them.
// ---------------------------------------------------------------------------

/// The Unicode `White_Space` property, which `char::is_whitespace` reports: tab
/// to carriage return, space, next line, no-break space, ogham space mark, the
/// spaces from en quad to hair space, line and paragraph separators, narrow
/// no-break space, medium mathematical space and ideographic space.
pub open spec fn is_white(c: char) -> bool {
    let u = c as u32;
    ||| 0x09 <= u <= 0x0D
    ||| u == 0x20
    ||| u == 0x85
    ||| u == 0xA0
    ||| u == 0x1680
    ||| 0x2000 <= u <= 0x200A
    ||| u == 0x2028
    ||| u == 0x2029
    ||| u == 0x202F
    ||| u == 0x205F
    ||| u == 0x3000
}

/// What `char::is_alphanumeric` reports (Unicode `Alphabetic` or `Numeric`).
pub uninterp spec fn is_alnum(c: char) -> bool;

/// What `char::is_alphabetic` reports (Unicode `Alphabetic`).
pub uninterp spec fn is_alpha(c: char) -> bool;

/// What `char::is_uppercase` reports (Unicode `Uppercase`).
pub uninterp spec fn is_upper(c: char) -> bool;

/// What `char::to_lowercase` yields for one char: its full lowercase mapping.
pub uninterp spec fn lower_of(c: char) -> Seq<char>;

/// What `str::to_lowercase` returns for a whole text (context-sensitive for final sigma).
pub uninterp spec fn lower_text(s: Seq<char>) -> Seq<char>;

/// Whether a char has the Unicode `White_Space` property (what `char::is_whitespace`
/// answers), checked against the list of those code points.
pub(crate) fn char_is_whitespace(c: char) -> (r: bool)
    ensures
        r == is_white(c),
{
    let u = c as u32;
    (0x09 <= u && u <= 0x0D) || u == 0x20 || u == 0x85 || u == 0xA0 || u == 0x1680 || (0x2000 <= u
        && u <= 0x200A) || u == 0x2028 || u == 0x2029 || u == 0x202F || u == 0x205F || u == 0x3000
}

/// `char::is_alphanumeric`, tied to the name `is_alnum`.
#[verifier::external_body]
pub(crate) fn char_is_alphanumeric(c: char) -> (r: bool)
    ensures
        r == is_alnum(c),
{
    c.is_alphanumeric()
}

/// `char::is_alphabetic`, tied to the name `is_alpha`.
#[verifier::external_body]
pub(crate) fn char_is_alphabetic(c: char) -> (r: bool)
    ensures
        r == is_alpha(c),
{
    c.is_alphabetic()
}

/// `char::is_uppercase`, tied to the name `is_upper`.
#[verifier::external_body]
pub(crate) fn char_is_uppercase(c: char) -> (r: bool)
    ensures
        r == is_upper(c),
{
    c.is_uppercase()
}

/// `char::to_lowercase`, collected. The contract ties the chars it yields to
/// `lower_of(c)`; what that mapping is stays with std's Unicode tables.
#[verifier::external_body]
pub(crate) fn char_to_lowercase(c: char) -> (r: Vec<char>)
    ensures
        r@ == lower_of(c),
{
    c.to_lowercase().collect()
}

/// `str::to_lowercase` on the text made of `s`. The contract ties the result to
/// `lower_text(s@)`; the Unicode mapping itself is std's.
#[verifier::external_body]
pub(crate) fn text_to_lowercase(s: &[char]) -> (r: Vec<char>)
    ensures
        r@ == lower_text(s@),
{
    s.iter().collect::<String>().to_lowercase().chars().collect()
}

/// Builds a `String` from chars (`FromIterator<&char> for String`): the string
/// holds exactly those chars, in order.
#[verifier::external_body]
pub(crate) fn string_of(s: &[char]) -> (r: String)
    ensures
        r@ == s@,
{
    s.iter().collect()
}

/// The char sequences held by a list of char vectors.
pub open spec fn views(v: Seq<Vec<char>>) -> Seq<Seq<char>> {
    v.map_values(|x: Vec<char>| x@)
}

/// The char sequences held by a list of strings.
pub open spec fn string_views(v: Seq<String>) -> Seq<Seq<char>> {
    v.map_values(|x: String| x@)
}

/// Copies a string slice into a vector of its chars.
pub fn chars_of(s: &str) -> (r: Vec<char>)
    ensures
        r@ == s@,
{
    let mut r: Vec<char> = Vec::new();
    for c in it: s.chars()
        invariant
            r@ == it.seq().take(it.index() as int),
    {
        r.push(c);
    }
    r
}

/// Turns a list of char vectors into strings.
pub fn strings_of(v: &Vec<Vec<char>>) -> (r: Vec<String>)
    ensures
        string_views(r@) == views(v@),
{
    let mut r: Vec<String> = Vec::new();
    let mut i: usize = 0;
    while i < v.len()
        invariant
            i <= v.len(),
            r.len() == i,
            forall|k: int| 0 <= k < i ==> #[trigger] r@[k]@ == v@[k]@,
        decreases v.len() - i,
    {
        r.push(string_of(v[i].as_slice()));
        i = i + 1;
    }
    assert(string_views(r@) =~= views(v@));
    r
}

/// The chars of each string of a list.
pub fn chars_of_all(v: &Vec<String>) -> (r: Vec<Vec<char>>)
    ensures
        views(r@) == string_views(v@),
{
    let mut r: Vec<Vec<char>> = Vec::new();
    let mut i: usize = 0;
    while i < v.len()
        invariant
            i <= v.len(),
            r.len() == i,
            forall|k: int| 0 <= k < i ==> #[trigger] r@[k]@ == v@[k]@,
        decreases v.len() - i,
    {
        r.push(chars_of(v[i].as_str()));
        i = i + 1;
    }
    assert(views(r@) =~= string_views(v@));
    r
}

/// Copies `s[a..b]`.
pub fn copy_range(s: &[char], a: usize, b: usize) -> (r: Vec<char>)
    requires
        a <= b <= s@.len(),
    ensures
        r@ == s@.subrange(a as int, b as int),
{
    let mut r: Vec<char> = Vec::new();
    let mut i: usize = a;
    while i < b
        invariant
            a <= i <= b <= s@.len(),
            r@ == s@.subrange(a as int, i as int),
        decreases b - i,
    {
        r.push(s[i]);
        i = i + 1;
        assert(r@ =~= s@.subrange(a as int, i as int));
    }
    r
}

/// Appends all of `t` to `out`.
pub fn push_all(out: &mut Vec<char>, t: &[char])
    ensures
        final(out)@ == old(out)@ + t@,
{
    let ghost start = out@;
    let mut i: usize = 0;
    while i < t.len()
        invariant
            i <= t@.len(),
            out@ == start + t@.subrange(0, i as int),
        decreases t.len() - i,
    {
        out.push(t[i]);
        i = i + 1;
        assert(out@ =~= start + t@.subrange(0, i as int));
    }
    assert(t@.subrange(0, t@.len() as int) =~= t@);
}

/// Appends the chars of a string slice to `out`.
pub fn push_str(out: &mut Vec<char>, t: &str)
    ensures
        final(out)@ == old(out)@ + t@,
{
    let v = chars_of(t);
    push_all(out, v.as_slice());
}

/// `a == b` on char sequences.
pub fn same_chars(a: &[char], b: &[char]) -> (r: bool)
    ensures
        r == (a@ == b@),
{
    if a.len() != b.len() {
        return false;
    }
    let mut i: usize = 0;
    while i < a.len()
        invariant
            a@.len() == b@.len(),
            i <= a@.len(),
            forall|k: int| 0 <= k < i ==> a@[k] == b@[k],
        decreases a.len() - i,
    {
        if a[i] != b[i] {
            return false;
        }
        i = i + 1;
    }
    assert(a@ =~= b@);
    true
}

/// `a == b@` for a char sequence and a string slice.
pub fn same_as_str(a: &[char], b: &str) -> (r: bool)
    ensures
        r == (a@ == b@),
{
    let v = chars_of(b);
    same_chars(a, v.as_slice())
}

// ---------------------------------------------------------------------------
// Trimming (`str::trim`: leading and trailing `White_Space` removed).
// ---------------------------------------------------------------------------

/// The text without its leading whitespace.
pub open spec fn trim_start(s: Seq<char>) -> Seq<char>
    decreases s.len(),
{
    if s.len() > 0 && is_white(s[0]) {
        trim_start(s.drop_first())
    } else {
        s
    }
}

/// The text without its trailing whitespace.
pub open spec fn trim_end(s: Seq<char>) -> Seq<char>
    decreases s.len(),
{
    if s.len() > 0 && is_white(s.last()) {
        trim_end(s.drop_last())
    } else {
        s
    }
}

/// The text without leading and trailing whitespace.
pub open spec fn trim(s: Seq<char>) -> Seq<char> {
    trim_end(trim_start(s))
}

proof fn lemma_trim_start_head(s: Seq<char>)
    ensures
        trim_start(s).len() > 0 ==> !is_white(trim_start(s)[0]),
    decreases s.len(),
{
    if s.len() > 0 && is_white(s[0]) {
        lemma_trim_start_head(s.drop_first());
    }
}

proof fn lemma_trim_end_prefix(s: Seq<char>)
    ensures
        trim_end(s).len() <= s.len(),
        trim_end(s) == s.take(trim_end(s).len() as int),
        trim_end(s).len() > 0 ==> !is_white(trim_end(s).last()),
    decreases s.len(),
{
    if s.len() > 0 && is_white(s.last()) {
        lemma_trim_end_prefix(s.drop_last());
        assert(s.drop_last().take(trim_end(s).len() as int) =~= s.take(trim_end(s).len() as int));
    } else {
        assert(s.take(s.len() as int) =~= s);
    }
}

/// Trimming twice is trimming once.
pub proof fn lemma_trim_idempotent(s: Seq<char>)
    ensures
        trim(trim(s)) == trim(s),
{
    let u = trim_start(s);
    let t = trim(s);
    lemma_trim_start_head(s);
    lemma_trim_end_prefix(u);
    if t.len() > 0 {
        assert(t[0] == u[0]);
        assert(trim_start(t) == t);
        assert(trim_end(t) == t);
    }
}

/// Index of the first non-whitespace char of `s[a..]`, or `s.len()`.
fn skip_white(s: &[char], a: usize) -> (r: usize)
    requires
        a <= s@.len(),
    ensures
        a <= r <= s@.len(),
        trim_start(s@.subrange(a as int, s@.len() as int)) == s@.subrange(
            r as int,
            s@.len() as int,
        ),
        forall|k: int| a <= k < r ==> is_white(#[trigger] s@[k]),
        r < s@.len() ==> !is_white(s@[r as int]),
{
    let n = s.len();
    let mut i = a;
    while i < n && char_is_whitespace(s[i])
        invariant
            a <= i <= n == s@.len(),
            trim_start(s@.subrange(a as int, n as int)) == trim_start(
                s@.subrange(i as int, n as int),
            ),
            forall|k: int| a <= k < i ==> is_white(#[trigger] s@[k]),
        decreases n - i,
    {
        assert(s@.subrange(i as int, n as int).drop_first() =~= s@.subrange(
            i + 1,
            n as int,
        ));
        i = i + 1;
    }
    i
}

/// Copies `s` without leading and trailing whitespace.
pub fn trimmed(s: &[char]) -> (r: Vec<char>)
    ensures
        r@ == trim(s@),
{
    let n = s.len();
    let a = skip_white(s, 0);
    assert(s@.subrange(0, n as int) =~= s@);
    let mut b = n;
    while b > a && char_is_whitespace(s[b - 1])
        invariant
            a <= b <= n == s@.len(),
            trim(s@) == trim_end(s@.subrange(a as int, b as int)),
        decreases b,
    {
        assert(s@.subrange(a as int, b as int).drop_last() =~= s@.subrange(
            a as int,
            b - 1,
        ));
        b = b - 1;
    }
    copy_range(s, a, b)
}

/// `trim` of a string slice, as chars.
pub fn trimmed_str(s: &str) -> (r: Vec<char>)
    ensures
        r@ == trim(s@),
{
    let v = chars_of(s);
    trimmed(v.as_slice())
}

// ---------------------------------------------------------------------------
// Splitting.
// ---------------------------------------------------------------------------

/// `str::split_whitespace`: the maximal runs of non-whitespace chars, in order.
pub open spec fn words(s: Seq<char>) -> Seq<Seq<char>>
    decreases s.len(),
{
    if s.len() == 0 {
        seq![]
    } else {
        let init = words(s.drop_last());
        let c = s.last();
        if is_white(c) {
            init
        } else if s.len() > 1 && !is_white(s[s.len() - 2]) {
            init.update(init.len() - 1, init.last().push(c))
        } else {
            init.push(seq![c])
        }
    }
}

/// `str::split_inclusive(sep)`: pieces that each end with `sep`, except
/// possibly the last; no piece is empty.
pub open spec fn split_incl(s: Seq<char>, sep: char) -> Seq<Seq<char>>
    decreases s.len(),
{
    if s.len() == 0 {
        seq![]
    } else {
        let init = split_incl(s.drop_last(), sep);
        let c = s.last();
        if s.len() > 1 && s[s.len() - 2] != sep {
            init.update(init.len() - 1, init.last().push(c))
        } else {
            init.push(seq![c])
        }
    }
}

/// A word is in progress right after a non-whitespace char.
proof fn lemma_words_nonempty(s: Seq<char>)
    requires
        s.len() > 0,
        !is_white(s.last()),
    ensures
        words(s).len() > 0,
        words(s).last().len() > 0,
        words(s).last().last() == s.last(),
    decreases s.len(),
{
    if s.len() > 1 && !is_white(s[s.len() - 2]) {
        assert(s.drop_last().last() == s[s.len() - 2]);
        lemma_words_nonempty(s.drop_last());
    }
}

/// The pieces of `split_incl` are never empty, and a new piece starts after `sep`.
proof fn lemma_split_incl_nonempty(s: Seq<char>, sep: char)
    requires
        s.len() > 0,
    ensures
        split_incl(s, sep).len() > 0,
        split_incl(s, sep).last().len() > 0,
        split_incl(s, sep).last().last() == s.last(),
    decreases s.len(),
{
    if s.len() > 1 && s[s.len() - 2] != sep {
        lemma_split_incl_nonempty(s.drop_last(), sep);
    }
}

/// Splits `s` at runs of whitespace (`str::split_whitespace`).
pub fn split_white(s: &[char]) -> (r: Vec<Vec<char>>)
    ensures
        views(r@) == words(s@),
{
    let n = s.len();
    let mut done: Vec<Vec<char>> = Vec::new();
    let mut cur: Vec<char> = Vec::new();
    let mut in_word = false;
    let mut i: usize = 0;
    while i < n
        invariant
            i <= n == s@.len(),
            in_word ==> i > 0 && !is_white(s@[i - 1]),
            !in_word ==> i == 0 || is_white(s@[i - 1]),
            in_word ==> words(s@.take(i as int)) == views(done@).push(cur@),
            !in_word ==> words(s@.take(i as int)) == views(done@),
        decreases n - i,
    {
        let c = s[i];
        let ghost pre = s@.take(i as int);
        let ghost now = s@.take(i + 1);
        assert(now.drop_last() =~= pre);
        assert(now.last() == c);
        if char_is_whitespace(c) {
            if in_word {
                let ghost dv = views(done@);
                let w = cur;
                done.push(w);
                assert(views(done@) =~= dv.push(w@));
                cur = Vec::new();
                assert(views(done@) =~= words(pre));
            }
            in_word = false;
        } else {
            if in_word {
                assert(now[now.len() - 2] == s@[i - 1]);
                cur.push(c);
                assert(views(done@).push(cur@) =~= words(now));
            } else {
                cur = Vec::new();
                cur.push(c);
                assert(cur@ =~= seq![c]);
                assert(views(done@).push(cur@) =~= words(now));
            }
            in_word = true;
        }
        i = i + 1;
    }
    let ghost dv = views(done@);
    let ghost last = cur@;
    if in_word {
        done.push(cur);
        assert(views(done@) =~= dv.push(last));
    }
    assert(s@.take(n as int) =~= s@);
    assert(views(done@) =~= words(s@));
    done
}

/// Splits `s` after each `sep` (`str::split_inclusive`).
pub fn split_after(s: &[char], sep: char) -> (r: Vec<Vec<char>>)
    ensures
        views(r@) == split_incl(s@, sep),
{
    let n = s.len();
    let mut done: Vec<Vec<char>> = Vec::new();
    let mut cur: Vec<char> = Vec::new();
    let mut i: usize = 0;
    while i < n
        invariant
            i <= n == s@.len(),
            i == 0 ==> done.len() == 0 && cur@.len() == 0,
            i > 0 ==> split_incl(s@.take(i as int), sep) == views(done@).push(cur@),
            i > 0 ==> cur@.len() > 0 && cur@.last() == s@[i - 1],
        decreases n - i,
    {
        let c = s[i];
        let ghost pre = s@.take(i as int);
        let ghost now = s@.take(i + 1);
        assert(now.drop_last() =~= pre);
        if i > 0 && s[i - 1] != sep {
            assert(now[now.len() - 2] == s@[i - 1]);
            cur.push(c);
            assert(views(done@).push(cur@) =~= split_incl(now, sep));
        } else {
            if i > 0 {
                let ghost dv = views(done@);
                let w = cur;
                done.push(w);
                assert(views(done@) =~= dv.push(w@));
                assert(views(done@) =~= split_incl(pre, sep));
            } else {
                assert(views(done@) =~= split_incl(pre, sep));
            }
            cur = Vec::new();
            cur.push(c);
            assert(views(done@).push(cur@) =~= split_incl(now, sep));
        }
        i = i + 1;
    }
    let ghost dv = views(done@);
    let ghost last = cur@;
    if n > 0 {
        done.push(cur);
        assert(views(done@) =~= dv.push(last));
    }
    assert(s@.take(n as int) =~= s@);
    assert(views(done@) =~= split_incl(s@, sep));
    done
}

// ---------------------------------------------------------------------------
// Decimal numbers (`Display` for unsigned integers, and `{:0w}` padding).
// ---------------------------------------------------------------------------

/// The ASCII digit for `d < 10`.
pub open spec fn digit(d: nat) -> char {
    if d == 0 {
        '0'
    } else if d == 1 {
        '1'
    } else if d == 2 {
        '2'
    } else if d == 3 {
        '3'
    } else if d == 4 {
        '4'
    } else if d == 5 {
        '5'
    } else if d == 6 {
        '6'
    } else if d == 7 {
        '7'
    } else if d == 8 {
        '8'
    } else {
        '9'
    }
}

/// Base-ten digits of `n`, most significant first, without leading zeros.
pub open spec fn decimal(n: nat) -> Seq<char>
    decreases n,
{
    if n < 10 {
        seq![digit(n)]
    } else {
        decimal(n / 10).push(digit(n % 10))
    }
}

/// A signed integer in base ten: `-` then the digits of its magnitude.
pub open spec fn signed_decimal(i: int) -> Seq<char> {
    if i < 0 {
        seq!['-'] + decimal((-i) as nat)
    } else {
        decimal(i as nat)
    }
}

/// `n` in base ten, left-padded with zeros to at least `width` chars (`{:0width}`).
pub open spec fn padded(n: nat, width: nat) -> Seq<char> {
    let d = decimal(n);
    if d.len() < width {
        Seq::new((width - d.len()) as nat, |_i: int| '0') + d
    } else {
        d
    }
}

fn digit_char(d: u64) -> (c: char)
    requires
        d < 10,
    ensures
        c == digit(d as nat),
{
    if d == 0 {
        '0'
    } else if d == 1 {
        '1'
    } else if d == 2 {
        '2'
    } else if d == 3 {
        '3'
    } else if d == 4 {
        '4'
    } else if d == 5 {
        '5'
    } else if d == 6 {
        '6'
    } else if d == 7 {
        '7'
    } else if d == 8 {
        '8'
    } else {
        '9'
    }
}

/// Appends the decimal digits of `n`.
pub fn push_decimal(out: &mut Vec<char>, n: u64)
    ensures
        final(out)@ == old(out)@ + decimal(n as nat),
    decreases n,
{
    if n >= 10 {
        push_decimal(out, n / 10);
    }
    out.push(digit_char(n % 10));
    assert(final(out)@ =~= old(out)@ + decimal(n as nat)) by {
        if n >= 10 {
            assert(decimal(n as nat) == decimal((n / 10) as nat).push(digit((n % 10) as nat)));
        }
    }
}

/// Appends a signed integer in base ten.
pub fn push_signed(out: &mut Vec<char>, i: i64)
    requires
        i > i64::MIN,
    ensures
        final(out)@ == old(out)@ + signed_decimal(i as int),
{
    if i < 0 {
        out.push('-');
        push_decimal(out, (0 - i) as u64);
        assert(final(out)@ =~= old(out)@ + signed_decimal(i as int));
    } else {
        push_decimal(out, i as u64);
    }
}

/// Appends `n` padded with zeros to `width` digits.
pub fn push_padded(out: &mut Vec<char>, n: u64, width: usize)
    ensures
        final(out)@ == old(out)@ + padded(n as nat, width as nat),
{
    let mut digits: Vec<char> = Vec::new();
    push_decimal(&mut digits, n);
    assert(digits@ =~= decimal(n as nat));
    let ghost start = out@;
    if digits.len() < width {
        let fill = width - digits.len();
        let mut k: usize = 0;
        while k < fill
            invariant
                k <= fill,
                out@ == start + Seq::new(k as nat, |_i: int| '0'),
            decreases fill - k,
        {
            out.push('0');
            k = k + 1;
            assert(out@ =~= start + Seq::new(k as nat, |_i: int| '0'));
        }
        push_all(out, digits.as_slice());
        assert(out@ =~= start + padded(n as nat, width as nat));
    } else {
        push_all(out, digits.as_slice());
    }
}

// ---------------------------------------------------------------------------
// What survives when whitespace is ignored.
// ---------------------------------------------------------------------------

/// The non-whitespace chars of a text, in order.
pub open spec fn solid(s: Seq<char>) -> Seq<char>
    decreases s.len(),
{
    if s.len() == 0 {
        seq![]
    } else if is_white(s.last()) {
        solid(s.drop_last())
    } else {
        solid(s.drop_last()).push(s.last())
    }
}

pub proof fn lemma_solid_concat(a: Seq<char>, b: Seq<char>)
    ensures
        solid(a + b) == solid(a) + solid(b),
    decreases b.len(),
{
    if b.len() == 0 {
        assert(a + b =~= a);
        assert(solid(a) + solid(b) =~= solid(a));
    } else {
        lemma_solid_concat(a, b.drop_last());
        assert((a + b).drop_last() =~= a + b.drop_last());
        assert((a + b).last() == b.last());
        if !is_white(b.last()) {
            assert(solid(a) + solid(b) =~= (solid(a) + solid(b.drop_last())).push(b.last()));
        }
    }
}

proof fn lemma_solid_trim_start(s: Seq<char>)
    ensures
        solid(trim_start(s)) == solid(s),
    decreases s.len(),
{
    if s.len() > 0 && is_white(s[0]) {
        lemma_solid_trim_start(s.drop_first());
        assert(s =~= seq![s[0]] + s.drop_first());
        lemma_solid_concat(seq![s[0]], s.drop_first());
        assert(seq![s[0]].drop_last() =~= Seq::<char>::empty());
        assert(seq![s[0]].last() == s[0]);
        assert(solid(Seq::<char>::empty()) =~= Seq::<char>::empty());
        assert(solid(seq![s[0]]) =~= Seq::<char>::empty());
        assert(solid(seq![s[0]]) + solid(s.drop_first()) =~= solid(s.drop_first()));
    }
}

proof fn lemma_solid_trim_end(s: Seq<char>)
    ensures
        solid(trim_end(s)) == solid(s),
    decreases s.len(),
{
    if s.len() > 0 && is_white(s.last()) {
        lemma_solid_trim_end(s.drop_last());
    }
}

/// Trimming removes whitespace only.
pub proof fn lemma_solid_trim(s: Seq<char>)
    ensures
        solid(trim(s)) == solid(s),
{
    lemma_solid_trim_start(s);
    lemma_solid_trim_end(trim_start(s));
}

/// Replacing the last element of a non-empty list of sequences.
proof fn lemma_flatten_update_last(xs: Seq<Seq<char>>, x: Seq<char>)
    requires
        xs.len() > 0,
    ensures
        xs.update(xs.len() - 1, x).flatten() == xs.drop_last().flatten() + x,
{
    assert(xs.update(xs.len() - 1, x) =~= xs.drop_last().push(x));
    xs.drop_last().lemma_flatten_push(x);
}

/// The pieces of `split_incl` put back together give the text.
pub proof fn lemma_split_incl_flatten(s: Seq<char>, sep: char)
    ensures
        split_incl(s, sep).flatten() == s,
    decreases s.len(),
{
    if s.len() == 0 {
        assert(split_incl(s, sep) =~= Seq::<Seq<char>>::empty());
        assert(s =~= Seq::<char>::empty());
    } else {
        let init = split_incl(s.drop_last(), sep);
        lemma_split_incl_flatten(s.drop_last(), sep);
        let c = s.last();
        if s.len() > 1 && s[s.len() - 2] != sep {
            lemma_split_incl_nonempty(s.drop_last(), sep);
            lemma_flatten_update_last(init, init.last().push(c));
            assert(init =~= init.drop_last().push(init.last()));
            init.drop_last().lemma_flatten_push(init.last());
            let x = init.drop_last().flatten();
            assert(x + init.last() == s.drop_last());
            assert(x + init.last().push(c) =~= (x + init.last()).push(c));
            assert(s =~= s.drop_last().push(c));
            assert(split_incl(s, sep).flatten() =~= s);
        } else {
            init.lemma_flatten_push(seq![c]);
            assert(split_incl(s, sep).flatten() =~= s);
        }
    }
}

// ---------------------------------------------------------------------------
// Joining words.
// ---------------------------------------------------------------------------

/// Words joined with single spaces (`[..].join(" ")`).
pub open spec fn join_space(ws: Seq<Seq<char>>) -> Seq<char>
    decreases ws.len(),
{
    if ws.len() == 0 {
        seq![]
    } else if ws.len() == 1 {
        ws[0]
    } else {
        join_space(ws.drop_last()) + seq![' '] + ws.last()
    }
}

/// Joins words with single spaces.
pub fn join_with_space(ws: &Vec<Vec<char>>) -> (r: Vec<char>)
    ensures
        r@ == join_space(views(ws@)),
{
    let ghost v = views(ws@);
    let mut out: Vec<char> = Vec::new();
    let mut i: usize = 0;
    while i < ws.len()
        invariant
            i <= ws@.len(),
            v == views(ws@),
            out@ == join_space(v.take(i as int)),
        decreases ws.len() - i,
    {
        assert(v.take(i + 1).drop_last() =~= v.take(i as int));
        assert(v.take(i + 1).last() == ws@[i as int]@);
        if i > 0 {
            out.push(' ');
        }
        push_all(&mut out, ws[i].as_slice());
        i = i + 1;
        assert(out@ =~= join_space(v.take(i as int)));
    }
    assert(v.take(ws@.len() as int) =~= v);
    out
}

} // verus!
