use vstd::prelude::*;

verus! {

/// The positions of the slashes of `s`, in increasing order.
pub open spec fn slashes(s: Seq<char>) -> Seq<int>
    decreases s.len(),
{
    if s.len() == 0 {
        Seq::empty()
    } else {
        let r = slashes(s.drop_last());
        if s.last() == '/' {
            r.push(s.len() - 1)
        } else {
            r
        }
    }
}

/// The number of slash-separated segments of `s`.
pub open spec fn segment_count(s: Seq<char>) -> int {
    slashes(s).len() + 1int
}

/// Where segment `k` of `s` starts: after the `k`-th slash.
pub open spec fn seg_start(s: Seq<char>, k: int) -> int {
    if k == 0 {
        0
    } else {
        slashes(s)[k - 1] + 1
    }
}

/// Where segment `k` of `s` ends: at the next slash, or at the end.
pub open spec fn seg_end(s: Seq<char>, k: int) -> int {
    if k < slashes(s).len() {
        slashes(s)[k]
    } else {
        s.len() as int
    }
}

/// Segment `k` of `s`.
pub open spec fn segment(s: Seq<char>, k: int) -> Seq<char> {
    s.subrange(seg_start(s, k), seg_end(s, k))
}

/// `s` from the start of segment `k` to its end: the segments from `k` on,
/// joined by slashes.
pub open spec fn segments_from(s: Seq<char>, k: int) -> Seq<char> {
    s.subrange(seg_start(s, k), s.len() as int)
}

/// The segments `i` to `j` of `s`, joined by slashes.
pub open spec fn segments_between(s: Seq<char>, i: int, j: int) -> Seq<char> {
    s.subrange(seg_start(s, i), seg_end(s, j))
}

/// Whether `pat` occurs in `s`.
pub open spec fn contains_text(s: Seq<char>, pat: Seq<char>) -> bool {
    exists|i: int| 0 <= i <= s.len() - pat.len() && #[trigger] s.subrange(i, i + pat.len()) == pat
}

/// Whether `s` begins with `pat`.
pub open spec fn starts_with_text(s: Seq<char>, pat: Seq<char>) -> bool {
    pat.len() <= s.len() && s.subrange(0, pat.len() as int) == pat
}

/// The slashes of `s` lie in it, in increasing order.
pub proof fn lemma_slashes(s: Seq<char>)
    ensures
        forall|k: int| 0 <= k < slashes(s).len() ==> 0 <= #[trigger] slashes(s)[k] < s.len() && s[slashes(s)[k]] == '/',
        forall|a: int, b: int| 0 <= a < b < slashes(s).len() ==> slashes(s)[a] < slashes(s)[b],
        slashes(s).len() <= s.len(),
    decreases s.len(),
{
    if s.len() > 0 {
        lemma_slashes(s.drop_last());
    }
}

/// Segments are well placed: each starts no later than it ends.
pub proof fn lemma_segments(s: Seq<char>, k: int)
    requires
        0 <= k < segment_count(s),
    ensures
        0 <= seg_start(s, k) <= seg_end(s, k) <= s.len(),
{
    lemma_slashes(s);
}

/// Before a slash, the text from segment `k` on is that segment, a slash,
/// and the text from the next segment on.
pub proof fn lemma_segment_split(s: Seq<char>, k: int)
    requires
        0 <= k < slashes(s).len(),
    ensures
        s.subrange(seg_start(s, k), s.len() as int) == segment(s, k) + "/"@ + s.subrange(seg_start(s, k + 1), s.len() as int),
{
    lemma_slashes(s);
    lemma_segments(s, k);
    reveal_strlit("/");
    let a = seg_start(s, k);
    let b = seg_end(s, k);
    assert(b == slashes(s)[k]);
    assert(s[b] == '/');
    assert(s.subrange(a, s.len() as int) =~= s.subrange(a, b) + "/"@ + s.subrange(b + 1, s.len() as int));
}

/// The slashes of `s` shifted by `d`.
pub open spec fn shifted(xs: Seq<int>, d: int) -> Seq<int> {
    xs.map_values(|i: int| i + d)
}

/// The slashes of a joined text: those of the first part, then those of
/// the second shifted past the first.
pub proof fn lemma_slashes_concat(a: Seq<char>, b: Seq<char>)
    ensures
        slashes(a + b) == slashes(a) + shifted(slashes(b), a.len() as int),
    decreases b.len(),
{
    if b.len() == 0 {
        assert(a + b =~= a);
        assert(shifted(slashes(b), a.len() as int) =~= Seq::<int>::empty());
        assert(slashes(a) + Seq::<int>::empty() =~= slashes(a));
    } else {
        lemma_slashes_concat(a, b.drop_last());
        assert((a + b).drop_last() =~= a + b.drop_last());
        assert((a + b).last() == b.last());
        if b.last() == '/' {
            assert(shifted(slashes(b), a.len() as int) =~= shifted(slashes(b.drop_last()), a.len() as int).push(b.len() - 1 + a.len()));
            assert(slashes(a) + shifted(slashes(b), a.len() as int) =~= (slashes(a) + shifted(slashes(b.drop_last()), a.len() as int)).push((a + b).len() - 1));
        } else {
            assert(shifted(slashes(b), a.len() as int) =~= shifted(slashes(b.drop_last()), a.len() as int));
        }
    }
}

/// A text without a slash has none.
pub proof fn lemma_no_slashes(s: Seq<char>)
    requires
        !s.contains('/'),
    ensures
        slashes(s) == Seq::<int>::empty(),
    decreases s.len(),
{
    if s.len() > 0 {
        assert(s.drop_last().contains('/') ==> s.contains('/')) by {
            if s.drop_last().contains('/') {
                let i = choose|i: int| 0 <= i < s.drop_last().len() && s.drop_last()[i] == '/';
                assert(s[i] == '/');
            }
        }
        lemma_no_slashes(s.drop_last());
        assert(s.last() != '/') by {
            if s.last() == '/' {
                assert(s[s.len() - 1] == '/');
            }
        }
    }
}

/// The slashes of a slash.
pub proof fn lemma_slash_slashes()
    ensures
        slashes("/"@) == seq![0int],
{
    reveal_strlit("/");
    let e = "/"@.drop_last();
    assert(e =~= Seq::<char>::empty());
    assert(slashes(e) =~= Seq::<int>::empty());
    assert("/"@.last() == '/');
    assert(slashes("/"@) =~= Seq::<int>::empty().push(0int));
}

/// A text made of a slash-free first segment, a slash and the rest: its
/// first segment is that part, and its later segments are those of the rest.
pub proof fn lemma_peel(x: Seq<char>, y: Seq<char>, k: int)
    requires
        !x.contains('/'),
        0 <= k < segment_count(y),
    ensures
        segment_count(x + "/"@ + y) == segment_count(y) + 1,
        segment(x + "/"@ + y, 0) == x,
        segment(x + "/"@ + y, k + 1) == segment(y, k),
        segments_from(x + "/"@ + y, k + 1) == segments_from(y, k),
{
    let sl: Seq<char> = "/"@;
    let u = x + sl + y;
    let d: int = x.len() as int + 1;
    lemma_no_slashes(x);
    lemma_slash_slashes();
    lemma_slashes_concat(x, sl);
    assert(slashes(x + sl) =~= seq![x.len() as int]);
    lemma_slashes_concat(x + sl, y);
    reveal_strlit("/");
    assert((x + sl).len() == d);
    let ys = slashes(y);
    assert(slashes(u) == seq![x.len() as int] + shifted(ys, d));
    lemma_slashes(y);
    lemma_segments(y, k);
    assert(seg_start(u, 0) == 0);
    assert(seg_end(u, 0) == x.len());
    assert(u.subrange(0, x.len() as int) =~= x);
    assert(seg_start(u, k + 1) == seg_start(y, k) + d) by {
        if k > 0 {
            assert(slashes(u)[k] == ys[k - 1] + d);
        }
    }
    assert(seg_end(u, k + 1) == seg_end(y, k) + d) by {
        if k < ys.len() {
            assert(slashes(u)[k + 1] == ys[k] + d);
        }
    }
    assert(u.subrange(seg_start(y, k) + d, seg_end(y, k) + d) =~= y.subrange(seg_start(y, k), seg_end(y, k)));
    assert(u.subrange(seg_start(y, k) + d, u.len() as int) =~= y.subrange(seg_start(y, k), y.len() as int));
}

/// The positions of the slashes of `s`.
pub fn slash_positions(s: &str) -> (r: Vec<usize>)
    ensures
        r@.len() == slashes(s@).len(),
        forall|k: int| 0 <= k < r@.len() ==> r@[k] == slashes(s@)[k],
{
    let n = s.unicode_len();
    let mut r: Vec<usize> = Vec::new();
    let mut i: usize = 0;
    while i < n
        invariant
            i <= n,
            n == s@.len(),
            r@.len() == slashes(s@.subrange(0, i as int)).len(),
            forall|k: int| 0 <= k < r@.len() ==> r@[k] == slashes(s@.subrange(0, i as int))[k],
        decreases n - i,
    {
        let c = s.get_char(i);
        proof {
            assert(s@.subrange(0, i + 1).drop_last() == s@.subrange(0, i as int));
            assert(s@.subrange(0, i + 1).last() == c);
        }
        if c == '/' {
            r.push(i);
        }
        i = i + 1;
    }
    proof {
        assert(s@.subrange(0, n as int) == s@);
    }
    r
}

/// Whether `s` holds `pat` from position `at` on.
fn matches_at(s: &str, pat: &str, at: usize) -> (r: bool)
    requires
        at + pat@.len() <= s@.len(),
    ensures
        r == (s@.subrange(at as int, at + pat@.len()) == pat@),
{
    let m = pat.unicode_len();
    let n = s.unicode_len();
    let mut j: usize = 0;
    while j < m
        invariant
            j <= m,
            m == pat@.len(),
            n == s@.len(),
            at + m <= s@.len(),
            forall|q: int| 0 <= q < j ==> s@[at + q] == pat@[q],
        decreases m - j,
    {
        if s.get_char(at + j) != pat.get_char(j) {
            proof {
                assert(s@.subrange(at as int, at + m)[j as int] != pat@[j as int]);
            }
            return false;
        }
        j = j + 1;
    }
    proof {
        assert(s@.subrange(at as int, at + m) =~= pat@);
    }
    true
}

/// Whether `pat` occurs in `s`.
pub fn contains_str(s: &str, pat: &str) -> (r: bool)
    ensures
        r == contains_text(s@, pat@),
{
    let n = s.unicode_len();
    let m = pat.unicode_len();
    if m > n {
        return false;
    }
    if m == 0 {
        proof {
            assert(s@.subrange(0int, 0int + pat@.len()) =~= pat@);
        }
        return true;
    }
    let mut i: usize = 0;
    while i <= n - m
        invariant
            n == s@.len(),
            m == pat@.len(),
            1 <= m <= n,
            i <= n - m + 1,
            forall|q: int| 0 <= q < i ==> #[trigger] s@.subrange(q, q + m) != pat@,
        decreases n - m + 1 - i,
    {
        if matches_at(s, pat, i) {
            return true;
        }
        i = i + 1;
    }
    false
}

/// Whether `s` begins with `pat`.
pub fn starts_with_str(s: &str, pat: &str) -> (r: bool)
    ensures
        r == starts_with_text(s@, pat@),
{
    let n = s.unicode_len();
    let m = pat.unicode_len();
    if m > n {
        return false;
    }
    matches_at(s, pat, 0)
}

/// Whether `s` between `from` and `to` is `pat`.
pub fn range_equals(s: &str, from: usize, to: usize, pat: &str) -> (r: bool)
    requires
        from <= to <= s@.len(),
    ensures
        r == (s@.subrange(from as int, to as int) == pat@),
{
    let m = pat.unicode_len();
    if to - from != m {
        return false;
    }
    matches_at(s, pat, from)
}

/// `s` between `from` and `to`, as a new string.
pub fn range_string(s: &str, from: usize, to: usize) -> (r: String)
    requires
        from <= to <= s@.len(),
    ensures
        r@ == s@.subrange(from as int, to as int),
{
    String::from_str(s.substring_char(from, to))
}

} // verus!
