//! Stretches of speech, as sample indices over the whole recording.
//!
//! The voice detector always runs on the raw audio, so the stretch boundaries are
//! the same in every pass and two recognizers can be compared word by word.

use vstd::prelude::*;

verus! {

/// A stretch of speech, in sample indices over the whole recording.
#[derive(Clone, Copy, Debug)]
pub struct Span {
    pub start: usize,
    pub end: usize,
}

impl Span {
    /// Number of samples (0 when `end` is before `start`).
    pub open spec fn spec_len(&self) -> nat {
        if self.end >= self.start {
            (self.end - self.start) as nat
        } else {
            0
        }
    }

    /// Number of samples (0 when `end` is before `start`).
    pub fn len(&self) -> (r: usize)
        ensures
            r == self.spec_len(),
    {
        if self.end >= self.start {
            self.end - self.start
        } else {
            0
        }
    }

    pub fn is_empty(&self) -> (r: bool)
        ensures
            r == (self.spec_len() == 0),
    {
        self.len() == 0
    }
}

/// A stretch widened by `pad` samples on each side, clamped to the recording.
pub open spec fn padded_span(s: Span, pad: nat, total: nat) -> Span {
    Span {
        start: if s.start >= pad {
            (s.start - pad) as usize
        } else {
            0
        },
        end: if s.end + pad <= total {
            (s.end + pad) as usize
        } else {
            total as usize
        },
    }
}

/// Widens every stretch by `pad` samples on each side so that initial and
/// final consonants are not cut, without going past the recording's `total` samples.
pub fn pad_spans(spans: &mut Vec<Span>, pad: usize, total: usize)
    requires
        forall|k: int| 0 <= k < old(spans)@.len() ==> #[trigger] old(spans)@[k].end + pad <= usize::MAX,
    ensures
        final(spans)@.len() == old(spans)@.len(),
        forall|k: int|
            0 <= k < old(spans)@.len() ==> #[trigger] final(spans)@[k] == padded_span(
                old(spans)@[k],
                pad as nat,
                total as nat,
            ),
{
    let ghost orig = spans@;
    let mut i: usize = 0;
    while i < spans.len()
        invariant
            spans@.len() == orig.len(),
            i <= orig.len(),
            forall|k: int| 0 <= k < orig.len() ==> #[trigger] orig[k].end + pad <= usize::MAX,
            forall|k: int| i <= k < orig.len() ==> #[trigger] spans@[k] == orig[k],
            forall|k: int|
                0 <= k < i ==> #[trigger] spans@[k] == padded_span(orig[k], pad as nat, total as nat),
        decreases orig.len() - i,
    {
        let s = spans[i];
        let start = if s.start >= pad {
            s.start - pad
        } else {
            0
        };
        let end = if s.end + pad <= total {
            s.end + pad
        } else {
            total
        };
        spans.set(i, Span { start, end });
        i = i + 1;
    }
}

/// Law: a padded stretch stays inside the recording and contains the original
/// stretch when that one was inside the recording.
pub proof fn law_padding_contains(s: Span, pad: nat, total: nat)
    requires
        s.start <= s.end <= total,
        total <= usize::MAX,
    ensures
        padded_span(s, pad, total).start <= s.start,
        s.end <= padded_span(s, pad, total).end <= total,
{
}

/// The size of the blind chunks when `n` samples are asked for: at least one sample.
pub open spec fn chunk_size(n: nat) -> nat {
    if n == 0 {
        1
    } else {
        n
    }
}

/// Number of chunks of `n` samples (`n > 0`) needed to cover `total` samples.
pub open spec fn chunk_count(total: nat, n: nat) -> nat {
    if n == 0 {
        0
    } else {
        ((total + n - 1) / n as int) as nat
    }
}

/// Chunk `k` of `n` samples, the last one cut at `total`.
pub open spec fn chunk(total: nat, n: nat, k: nat) -> Span {
    Span {
        start: (k * n) as usize,
        end: if k * n + n <= total {
            (k * n + n) as usize
        } else {
            total as usize
        },
    }
}

/// When the voice detector finds nothing (audio badly saturated or very low), the
/// recording is cut blindly into chunks of `n` samples (at least one) so that the
/// transcript is not empty: any recording with a sample gets at least one chunk.
pub fn chunk_spans(total: usize, n: usize) -> (r: Vec<Span>)
    requires
        n == 0 || total == 0 || total - 1 + n <= usize::MAX,
    ensures
        r@.len() == chunk_count(total as nat, chunk_size(n as nat)),
        forall|k: int|
            0 <= k < r@.len() ==> #[trigger] r@[k] == chunk(
                total as nat,
                chunk_size(n as nat),
                k as nat,
            ),
        total == 0 ==> r@.len() == 0,
        total > 0 ==> {
            &&& r@.len() > 0
            &&& r@[0].start == 0
            &&& r@[r@.len() - 1].end == total
            &&& forall|k: int| 0 <= k < r@.len() - 1 ==> #[trigger] r@[k].end == r@[k + 1].start
            &&& forall|k: int|
                0 <= k < r@.len() ==> 0 < (#[trigger] r@[k]).spec_len() <= chunk_size(n as nat)
        },
{
    let m: usize = if n == 0 {
        1
    } else {
        n
    };
    let r = chunks_of(total, m);
    proof {
        if total > 0 {
            law_chunks_cover(total as nat, n as nat);
            let c = r@.len();
            assert forall|k: int| 0 <= k < r@.len() - 1 implies #[trigger] r@[k].end == r@[k
                + 1].start by {
                assert(chunk(total as nat, m as nat, k as nat).end == chunk(
                    total as nat,
                    m as nat,
                    (k as nat + 1) as nat,
                ).start);
            }
            assert forall|k: int| 0 <= k < r@.len() implies 0 < (#[trigger] r@[k]).spec_len()
                <= chunk_size(n as nat) by {
                assert(0 < chunk(total as nat, m as nat, k as nat).spec_len() <= m);
            }
            assert(r@[c - 1] == chunk(total as nat, m as nat, (c - 1) as nat));
        } else {
            assert(chunk_count(0, m as nat) == 0) by (nonlinear_arith)
                requires
                    m > 0,
                    chunk_count(0, m as nat) == ((m - 1) / m as int) as nat,
            ;
        }
    }
    r
}

fn chunks_of(total: usize, n: usize) -> (r: Vec<Span>)
    requires
        n > 0,
        total == 0 || total - 1 + n <= usize::MAX,
    ensures
        r@.len() == chunk_count(total as nat, n as nat),
        forall|k: int| 0 <= k < r@.len() ==> #[trigger] r@[k] == chunk(total as nat, n as nat, k as nat),
{
    let mut r: Vec<Span> = Vec::new();
    let mut start: usize = 0;
    let mut k: usize = 0;
    while start < total
        invariant
            n > 0,
            total == 0 || total - 1 + n <= usize::MAX,
            start == k * n,
            k <= start,
            r@.len() == k,
            start <= total + n - 1,
            k > 0 ==> (k - 1) * n < total,
            forall|q: int| 0 <= q < k ==> #[trigger] r@[q] == chunk(total as nat, n as nat, q as nat),
        decreases total + n - start,
    {
        let end = if start + n <= total {
            start + n
        } else {
            total
        };
        proof {
            assert((k + 1) * n == k * n + n) by (nonlinear_arith);
            assert(k <= k * n) by (nonlinear_arith)
                requires
                    n > 0,
            ;
        }
        r.push(Span { start, end });
        start = start + n;
        k = k + 1;
    }
    proof {
        let t = total as int;
        let nn = n as int;
        let kk = k as int;
        assert(kk * nn >= t);
        if kk > 0 {
            assert((kk - 1) * nn < t);
            assert((kk - 1) * nn == kk * nn - nn) by (nonlinear_arith);
        }
        assert((t + nn - 1) / nn == kk) by (nonlinear_arith)
            requires
                kk * nn >= t,
                kk == 0 ==> t == 0,
                kk > 0 ==> kk * nn - nn < t,
                nn > 0,
                t >= 0,
        {
            if kk > 0 {
                assert(t + nn - 1 >= kk * nn);
                assert(t + nn - 1 < (kk + 1) * nn);
            }
        }
    }
    r
}

/// Law: the blind chunks cover the whole recording, back to back, whatever chunk
/// size is asked for: there is at least one, the first starts at 0, each one starts
/// where the previous ended, the last ends at `total`, and none is empty or longer
/// than the chunk size (`n`, or one sample when `n` is 0).
pub proof fn law_chunks_cover(total: nat, n: nat)
    requires
        total > 0,
        total - 1 + chunk_size(n) <= usize::MAX,
    ensures
        chunk_count(total, chunk_size(n)) >= 1,
        chunk(total, chunk_size(n), 0).start == 0,
        chunk(total, chunk_size(n), (chunk_count(total, chunk_size(n)) - 1) as nat).end == total,
        forall|k: nat|
            k + 1 < chunk_count(total, chunk_size(n)) ==> #[trigger] chunk(total, chunk_size(n), k).end == chunk(
                total,
                chunk_size(n),
                k + 1,
            ).start,
        forall|k: nat|
            k < chunk_count(total, chunk_size(n)) ==> 0 < (#[trigger] chunk(total, chunk_size(n), k)).spec_len() <= chunk_size(n),
{
    let n = chunk_size(n);
    let c = chunk_count(total, n);
    assert(c >= 1) by (nonlinear_arith)
        requires
            c == (total + n - 1) / n as int,
            total > 0,
            n > 0,
    ;
    assert((c - 1) * n < total && c * n >= total) by (nonlinear_arith)
        requires
            c == (total + n - 1) / n as int,
            n > 0,
            c >= 1,
    ;
    assert forall|k: nat| k + 1 < chunk_count(total, n) implies #[trigger] chunk(total, n, k).end
        == chunk(total, n, k + 1).start by {
        assert((k + 1) * n == k * n + n) by (nonlinear_arith);
        assert(k * n + n <= (c - 1) * n) by (nonlinear_arith)
            requires
                k + 1 < c,
                n > 0,
        ;
    }
    assert forall|k: nat| k < chunk_count(total, n) implies 0 < (#[trigger] chunk(
        total,
        n,
        k,
    )).spec_len() <= n by {
        assert(k * n <= (c - 1) * n) by (nonlinear_arith)
            requires
                k < c,
                n > 0,
        ;
    }
    assert(((c - 1) as nat) * n + n >= total) by (nonlinear_arith)
        requires
            c * n >= total,
            c >= 1,
    ;
}

} // verus!
