//! Index of the byte ranges of a text that are formatted as code.
//!
//! The index is computed once, at construction, from the full text and is
//! immutable afterwards; [`ColorCodeBlocks::overlaps_code`] answers overlap
//! queries against the stored spans. A backtick run opens a code span, which
//! closes at the end of the next backtick run at least as long, or at the
//! end of the text when none follows. The stored spans are exactly
//! [`code_spans_of`] the text, so construction is a pure function of the
//! text, and overlap queries are answered exactly.

use vstd::prelude::*;

verus! {

/// The half-open span `sp` intersects the half-open range `[a, b)`.
pub open spec fn ranges_intersect(sp: (usize, usize), a: int, b: int) -> bool {
    sp.0 < b && a < sp.1
}

/// The first span of `spans`, in storage order, intersecting `[a, b)`.
pub open spec fn first_overlap(spans: Seq<(usize, usize)>, a: int, b: int) -> Option<
    (usize, usize),
>
    decreases spans.len(),
{
    if spans.len() == 0 {
        Option::None
    } else if ranges_intersect(spans[0], a, b) {
        Option::Some(spans[0])
    } else {
        first_overlap(spans.drop_first(), a, b)
    }
}

/// Some span of `spans` intersects `[a, b)`.
pub open spec fn spans_overlap(spans: Seq<(usize, usize)>, a: int, b: int) -> bool {
    first_overlap(spans, a, b) is Some
}

/// If any span intersects the range, `first_overlap` finds one.
pub proof fn lemma_overlap_exists(spans: Seq<(usize, usize)>, a: int, b: int, k: int)
    requires
        0 <= k < spans.len(),
        ranges_intersect(spans[k], a, b),
    ensures
        spans_overlap(spans, a, b),
    decreases spans.len(),
{
    if !ranges_intersect(spans[0], a, b) {
        assert(spans.drop_first()[k - 1] == spans[k]);
        lemma_overlap_exists(spans.drop_first(), a, b, k - 1);
    }
}

/// Length of the maximal backtick run starting at `i`; zero when the byte
/// there is not a backtick.
pub open spec fn run_len(t: Seq<u8>, i: int) -> int
    decreases t.len() - i,
{
    if 0 <= i < t.len() && t[i] == 96 {
        1 + run_len(t, i + 1)
    } else {
        0
    }
}

pub proof fn lemma_run_len(t: Seq<u8>, i: int)
    requires
        0 <= i <= t.len(),
    ensures
        0 <= run_len(t, i),
        i + run_len(t, i) <= t.len(),
    decreases t.len() - i,
{
    if i < t.len() && t[i] == 96 {
        lemma_run_len(t, i + 1);
    }
}

/// Offset of the first backtick run of length at least `k` at or after `j`,
/// if any.
pub open spec fn find_close(t: Seq<u8>, j: int, k: int) -> Option<int>
    decreases t.len() - j,
{
    if j < 0 || j >= t.len() {
        Option::None
    } else if run_len(t, j) >= k {
        Option::Some(j)
    } else {
        find_close(t, j + 1, k)
    }
}

pub proof fn lemma_find_close(t: Seq<u8>, j: int, k: int)
    requires
        0 <= j,
    ensures
        match find_close(t, j, k) {
            Option::Some(q) => j <= q < t.len() && run_len(t, q) >= k,
            Option::None => true,
        },
    decreases t.len() - j,
{
    if 0 <= j < t.len() && run_len(t, j) < k {
        lemma_find_close(t, j + 1, k);
    }
}

/// A run too short to close can be skipped whole: no position inside it
/// starts a run of length `k` either.
pub proof fn lemma_find_close_skip_run(t: Seq<u8>, j: int, k: int)
    requires
        0 <= j <= t.len(),
        run_len(t, j) < k,
    ensures
        find_close(t, j, k) == find_close(t, j + run_len(t, j), k),
    decreases run_len(t, j),
{
    lemma_run_len(t, j);
    if run_len(t, j) > 0 {
        assert(run_len(t, j + 1) == run_len(t, j) - 1);
        lemma_find_close_skip_run(t, j + 1, k);
    }
}

/// The code spans of `t` at or after offset `i`, in text order: a backtick
/// run opens a span, which closes at the end of the next backtick run at
/// least as long, or at the end of the text when no such run follows.
pub open spec fn code_spans_from(t: Seq<u8>, i: int) -> Seq<(usize, usize)>
    decreases t.len() - i,
    via code_spans_from_dec
{
    if !(0 <= i < t.len()) {
        Seq::<(usize, usize)>::empty()
    } else if t[i] != 96 {
        code_spans_from(t, i + 1)
    } else {
        let k = run_len(t, i);
        match find_close(t, i + k, k) {
            Option::None => seq![(i as usize, t.len() as usize)],
            Option::Some(j) => seq![(i as usize, (j + run_len(t, j)) as usize)]
                + code_spans_from(t, j + run_len(t, j)),
        }
    }
}

#[via_fn]
proof fn code_spans_from_dec(t: Seq<u8>, i: int) {
    if 0 <= i < t.len() && t[i] == 96 {
        let k = run_len(t, i);
        lemma_run_len(t, i);
        lemma_run_len(t, i + 1);
        assert(k >= 1);
        match find_close(t, i + k, k) {
            Option::Some(j) => {
                lemma_find_close(t, i + k, k);
                lemma_run_len(t, j);
                assert(run_len(t, j) >= k);
                assert(j + run_len(t, j) > i);
            },
            Option::None => {},
        }
    }
}

/// All code spans of `t`, from the start of the text.
pub open spec fn code_spans_of(t: Seq<u8>) -> Seq<(usize, usize)> {
    code_spans_from(t, 0)
}

/// The set of code spans of one text.
#[derive(Debug)]
pub struct ColorCodeBlocks {
    spans: Vec<(usize, usize)>,
}

impl ColorCodeBlocks {
    /// The stored spans, in the order they occur in the text.
    pub closed spec fn spans(&self) -> Seq<(usize, usize)> {
        self.spans@
    }

    /// Every stored span is nonempty and lies within a text of length `n`.
    pub open spec fn wf(&self, n: int) -> bool {
        forall|k: int|
            0 <= k < self.spans().len() ==> (#[trigger] self.spans()[k]).0 < self.spans()[k].1 <= n
    }

    /// Scans `text` once; the stored spans are exactly [`code_spans_of`]
    /// the text.
    pub fn new(text: &Vec<u8>) -> (r: ColorCodeBlocks)
        ensures
            r.wf(text@.len() as int),
            r.spans() == code_spans_of(text@),
    {
        let ghost t = text@;
        let n = text.len();
        let mut spans: Vec<(usize, usize)> = Vec::new();
        let mut i: usize = 0;
        proof {
            assert(spans@ + code_spans_from(t, 0) =~= code_spans_of(t));
        }
        while i < n
            invariant
                t == text@,
                n == t.len(),
                i <= n,
                forall|m: int|
                    0 <= m < spans@.len() ==> (#[trigger] spans@[m]).0 < spans@[m].1 <= n,
                code_spans_of(t) == spans@ + code_spans_from(t, i as int),
            decreases n - i,
        {
            if text[i] == 96 {
                let open_len = tick_run(text, i);
                let ghost k = open_len as int;
                let mut j = i + open_len;
                let mut close_end: usize = 0;
                let ghost mut found_j: int = 0;
                while j < n && close_end == 0
                    invariant
                        t == text@,
                        n == t.len(),
                        i < t.len(),
                        t[i as int] == 96,
                        k == open_len,
                        k == run_len(t, i as int),
                        1 <= open_len,
                        i + open_len <= j <= n,
                        close_end == 0 ==> find_close(t, i + open_len, k) == find_close(
                            t,
                            j as int,
                            k,
                        ),
                        close_end != 0 ==> (find_close(t, i + open_len, k) == Option::Some(found_j)
                            && close_end as int == found_j + run_len(t, found_j) && j < close_end
                            <= n),
                    decreases n - j + (if close_end == 0 { 1int } else { 0int }),
                {
                    if text[j] == 96 {
                        let r = tick_run(text, j);
                        if r >= open_len {
                            proof {
                                found_j = j as int;
                                assert(find_close(t, j as int, k) == Option::Some(j as int));
                            }
                            close_end = j + r;
                        } else {
                            proof {
                                lemma_find_close_skip_run(t, j as int, k);
                            }
                            j += r;
                        }
                    } else {
                        proof {
                            assert(run_len(t, j as int) == 0);
                            assert(find_close(t, j as int, k) == find_close(t, j + 1, k));
                        }
                        j += 1;
                    }
                }
                if close_end > 0 {
                    proof {
                        assert(code_spans_from(t, i as int) == seq![(i, close_end)]
                            + code_spans_from(t, close_end as int));
                        assert(spans@.push((i, close_end)) + code_spans_from(t, close_end as int)
                            =~= spans@ + code_spans_from(t, i as int));
                    }
                    spans.push((i, close_end));
                    i = close_end;
                } else {
                    proof {
                        assert(find_close(t, j as int, k) is None);
                        assert(code_spans_from(t, i as int) =~= seq![(i, n)]);
                        assert(spans@.push((i, n)) + code_spans_from(t, n as int) =~= spans@
                            + code_spans_from(t, i as int));
                    }
                    spans.push((i, n));
                    i = n;
                }
            } else {
                proof {
                    assert(code_spans_from(t, i as int) == code_spans_from(t, i + 1));
                }
                i += 1;
            }
        }
        proof {
            assert(spans@ + code_spans_from(t, i as int) =~= spans@);
        }
        ColorCodeBlocks { spans }
    }

    /// The first known code span intersecting `[start, end)`, or `None` when
    /// no stored span does.
    pub fn overlaps_code(&self, start: usize, end: usize) -> (r: Option<(usize, usize)>)
        ensures
            r == first_overlap(self.spans(), start as int, end as int),
    {
        let n = self.spans.len();
        let mut k: usize = 0;
        proof {
            assert(self.spans@.skip(0) =~= self.spans@);
        }
        while k < n
            invariant
                n == self.spans@.len(),
                k <= n,
                first_overlap(self.spans@, start as int, end as int) == first_overlap(
                    self.spans@.skip(k as int),
                    start as int,
                    end as int,
                ),
            decreases n - k,
        {
            let sp = self.spans[k];
            proof {
                assert(self.spans@.skip(k as int)[0] == self.spans@[k as int]);
            }
            if sp.1 > start && sp.0 < end {
                proof {
                    assert(ranges_intersect(self.spans@.skip(k as int)[0], start as int, end as int));
                }
                return Some(sp);
            }
            proof {
                assert(self.spans@.skip(k as int).drop_first() =~= self.spans@.skip(k + 1));
            }
            k += 1;
        }
        proof {
            assert(self.spans@.skip(n as int) =~= Seq::<(usize, usize)>::empty());
        }
        None
    }
}

/// Length of the maximal backtick run starting at `i`.
fn tick_run(text: &Vec<u8>, i: usize) -> (r: usize)
    requires
        i < text@.len(),
        text@[i as int] == 96,
    ensures
        1 <= r,
        i + r <= text@.len(),
        r as int == run_len(text@, i as int),
{
    let n = text.len();
    let mut e = i + 1;
    while e < n && text[e] == 96
        invariant
            n == text@.len(),
            i + 1 <= e <= n,
            run_len(text@, i as int) == (e - i) + run_len(text@, e as int),
        decreases n - e,
    {
        e += 1;
    }
    proof {
        assert(run_len(text@, e as int) == 0);
    }
    e - i
}

} // verus!
