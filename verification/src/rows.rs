//! Sorting the runs between edges, row by row.

use crate::brightness_sort::{
    lemma_stable_sort_by_channel_sum, lemma_stable_sorted_idempotent, lemma_stable_sorted_multiset, lemma_stable_sorted_prefix,
    lemma_stable_sorted_single, sort_by_brightness, stable_sorted,
};
use crate::color::Color;
use vstd::prelude::*;

verus! {

/// Row `y` of an image stored row after row, `width` items per row.
pub open spec fn row<T>(s: Seq<T>, width: int, y: int) -> Seq<T> {
    s.subrange(y * width, y * width + width)
}

/// The index of the first edge in `e`, or `e.len()` when there is none.
pub open spec fn first_edge(e: Seq<bool>) -> nat
    decreases e.len(),
{
    if e.len() == 0 {
        0
    } else if e[0] {
        0
    } else {
        1 + first_edge(e.drop_first())
    }
}

/// The row `p` after its runs have been sorted, where `e` marks the edges.
///
/// Scanning from the left, an edge pixel outside a run stays where it is.
/// A run is a maximal stretch of non-edge pixels; it is sorted by brightness
/// (stably) and the edge that ends it stays in place. A run that reaches
/// the end of the row, or that is ended by the last pixel of the row, is
/// sorted together with that last pixel.
pub open spec fn sorted_row(p: Seq<Color>, e: Seq<bool>) -> Seq<Color>
    decreases p.len(),
{
    if p.len() == 0 {
        p
    } else if e[0] {
        seq![p[0]] + sorted_row(p.drop_first(), e.drop_first())
    } else {
        let t = first_edge(e) as int;
        if t + 1 >= p.len() {
            stable_sorted(p)
        } else {
            stable_sorted(p.take(t)) + seq![p[t]] + sorted_row(
                p.skip(t + 1),
                e.skip(t + 1),
            )
        }
    }
}

/// `out` is the image `inp` (rows of `width` pixels, `height` rows) after
/// its runs have been sorted: every row is `sorted_row` of the input row and
/// its edge flags, and what lies after the last row is unchanged.
pub open spec fn is_pixel_sorted(
    out: Seq<Color>,
    inp: Seq<Color>,
    edges: Seq<bool>,
    width: int,
    height: int,
) -> bool {
    &&& out.len() == inp.len()
    &&& forall|y: int|
        0 <= y < height ==> #[trigger] row(out, width, y) == sorted_row(
            row(inp, width, y),
            row(edges, width, y),
        )
    &&& forall|i: int| width * height <= i < inp.len() ==> #[trigger] out[i] == inp[i]
}

/// `r` with `r[a..b]` replaced by its stable sort.
spec fn sort_span(r: Seq<Color>, a: int, b: int) -> Seq<Color> {
    r.take(a) + stable_sorted(r.subrange(a, b)) + r.skip(b)
}

/// What the left-to-right scan of a row of length `n` produces from
/// position `x` on, with the run state `start` / `started`.
spec fn scan_from(
    r: Seq<Color>,
    e: Seq<bool>,
    n: int,
    x: int,
    start: int,
    started: bool,
) -> Seq<Color>
    decreases n - x,
{
    if x >= n {
        sort_span(r, start, n)
    } else if started {
        if e[x] {
            scan_from(sort_span(r, start, x), e, n, x + 1, start, false)
        } else {
            scan_from(r, e, n, x + 1, start, true)
        }
    } else {
        scan_from(r, e, n, x + 1, x, !e[x])
    }
}

/// `r` up to `x`, followed by the sorted row of what comes after.
spec fn sorted_after(r: Seq<Color>, e: Seq<bool>, x: int) -> Seq<Color> {
    r.take(x) + sorted_row(r.skip(x), e.skip(x))
}

/// The first edge of `e` is at `t` when `e[..t]` holds no edge and `e[t]` is one
/// (or `t` is the length).
proof fn lemma_first_edge(e: Seq<bool>, t: int)
    requires
        0 <= t <= e.len(),
        forall|i: int| 0 <= i < t ==> !#[trigger] e[i],
        t < e.len() ==> e[t],
    ensures
        first_edge(e) == t,
    decreases t,
{
    if t > 0 {
        let d = e.drop_first();
        assert forall|i: int| 0 <= i < t - 1 implies !#[trigger] d[i] by {
            assert(d[i] == e[i + 1]);
        }
        if t < e.len() {
            assert(d[t - 1] == e[t]);
        }
        lemma_first_edge(d, t - 1);
    }
}

/// The sorted row is as long as the row.
pub proof fn lemma_sorted_row_len(p: Seq<Color>, e: Seq<bool>)
    ensures
        sorted_row(p, e).len() == p.len(),
    decreases p.len(),
{
    if p.len() == 0 {
    } else if e[0] {
        lemma_sorted_row_len(p.drop_first(), e.drop_first());
    } else {
        let t = first_edge(e) as int;
        lemma_stable_sorted_multiset(p);
        if t + 1 < p.len() {
            lemma_stable_sorted_multiset(p.take(t));
            lemma_sorted_row_len(p.skip(t + 1), e.skip(t + 1));
        }
    }
}

/// The scan of a row, from a position `x` that is not inside a run, or from
/// inside a run that started at `s`.
proof fn lemma_scan(
    r: Seq<Color>,
    e: Seq<bool>,
    n: int,
    x: int,
    s: int,
    started: bool,
)
    requires
        r.len() == n,
        e.len() == n,
        0 <= x <= n,
        !started ==> x < n,
        started ==> 0 <= s < x && forall|i: int| s <= i < x ==> !#[trigger] e[i],
    ensures
        !started ==> scan_from(r, e, n, x, s, false) == sorted_after(r, e, x),
        started ==> scan_from(r, e, n, x, s, true) == sorted_after(r, e, s),
    decreases n - x,
{
    if !started {
        let q = r.skip(x);
        let f = e.skip(x);
        assert(q.drop_first() =~= r.skip(x + 1));
        assert(f.drop_first() =~= e.skip(x + 1));
        assert(q.len() > 0);
        if e[x] {
            assert(f[0]);
            assert(scan_from(r, e, n, x, s, false) == scan_from(r, e, n, x + 1, x, false));
            assert(sorted_row(q, f) == seq![q[0]] + sorted_row(q.drop_first(), f.drop_first()));
            if x + 1 == n {
                // the final sort covers the single last pixel
                assert(scan_from(r, e, n, x + 1, x, false) == sort_span(r, x, n));
                assert(r.subrange(x, n) =~= seq![r[x]]);
                lemma_stable_sorted_single(r[x]);
                assert(q.drop_first() =~= Seq::<Color>::empty());
                assert(sorted_row(q.drop_first(), f.drop_first()) =~= Seq::<Color>::empty());
                assert(sort_span(r, x, n) =~= sorted_after(r, e, x));
            } else {
                lemma_scan(r, e, n, x + 1, x, false);
                assert(sorted_after(r, e, x + 1) =~= sorted_after(r, e, x));
            }
        } else {
            assert(scan_from(r, e, n, x, s, false) == scan_from(r, e, n, x + 1, x, true));
            lemma_scan(r, e, n, x + 1, x, true);
        }
    } else {
        let q = r.skip(s);
        let f = e.skip(s);
        assert(!f[0]);
        assert(q.len() > 0);
        if x == n {
            assert(scan_from(r, e, n, x, s, true) == sort_span(r, s, n));
            assert forall|i: int| 0 <= i < f.len() implies !#[trigger] f[i] by {
                assert(f[i] == e[s + i]);
            }
            lemma_first_edge(f, f.len() as int);
            assert(sorted_row(q, f) == stable_sorted(q));
            assert(r.subrange(s, n) =~= q);
            assert(sort_span(r, s, n) =~= sorted_after(r, e, s));
        } else if e[x] {
            let t = x - s;
            assert forall|i: int| 0 <= i < t implies !#[trigger] f[i] by {
                assert(f[i] == e[s + i]);
            }
            assert(f[t] == e[x]);
            lemma_first_edge(f, t);
            let r2 = sort_span(r, s, x);
            assert(scan_from(r, e, n, x, s, true) == scan_from(r2, e, n, x + 1, s, false));
            let sorted_run = stable_sorted(r.subrange(s, x));
            lemma_stable_sorted_multiset(r.subrange(s, x));
            assert(r2.len() == n);
            if x + 1 == n {
                // the run is sorted again together with the last pixel
                assert(scan_from(r2, e, n, x + 1, s, false) == sort_span(r2, s, n));
                assert(sorted_row(q, f) == stable_sorted(q));
                assert(r2.subrange(s, n) =~= sorted_run + seq![r[x]]);
                assert(r.subrange(s, x) + seq![r[x]] =~= q);
                lemma_stable_sorted_prefix(r.subrange(s, x), seq![r[x]]);
                assert(r2.take(s) =~= r.take(s));
                assert(r2.skip(n) =~= Seq::<Color>::empty());
                assert(sort_span(r2, s, n) =~= sorted_after(r, e, s));
            } else {
                lemma_scan(r2, e, n, x + 1, x, false);
                assert(sorted_row(q, f) == stable_sorted(q.take(t)) + seq![q[t]] + sorted_row(
                    q.skip(t + 1),
                    f.skip(t + 1),
                ));
                assert(r2.take(x + 1) =~= r.take(s) + sorted_run + seq![r[x]]);
                assert(r2.skip(x + 1) =~= r.skip(x + 1));
                assert(q.take(t) =~= r.subrange(s, x));
                assert(q[t] == r[x]);
                assert(q.skip(t + 1) =~= r.skip(x + 1));
                assert(f.skip(t + 1) =~= e.skip(x + 1));
                assert(sorted_after(r2, e, x + 1) =~= sorted_after(r, e, s));
            }
        } else {
            assert(scan_from(r, e, n, x, s, true) == scan_from(r, e, n, x + 1, s, true));
            lemma_scan(r, e, n, x + 1, s, true);
        }
    }
}

/// The scan of a whole row produces the sorted row.
proof fn lemma_scan_row(r: Seq<Color>, e: Seq<bool>)
    requires
        r.len() == e.len(),
    ensures
        scan_from(r, e, r.len() as int, 0, 0, false) == sorted_row(r, e),
{
    let n = r.len() as int;
    if n == 0 {
        assert(r.subrange(0, 0) =~= Seq::<Color>::empty());
        lemma_stable_sorted_multiset(Seq::<Color>::empty());
        assert(sort_span(r, 0, 0) =~= r);
    } else {
        lemma_scan(r, e, n, 0, 0, false);
        assert(r.take(0) =~= Seq::<Color>::empty());
        assert(r.skip(0) =~= r);
        assert(e.skip(0) =~= e);
        assert(sorted_after(r, e, 0) =~= sorted_row(r, e));
    }
}

/// Row `a` ends before row `b` starts.
proof fn lemma_rows_ordered(width: int, a: int, b: int)
    requires
        0 <= width,
        0 <= a < b,
    ensures
        0 <= a * width,
        a * width + width <= b * width,
{
    assert(a * width + width <= b * width) by (nonlinear_arith)
        requires
            0 <= width,
            0 <= a < b,
    ;
    assert(0 <= a * width) by (nonlinear_arith)
        requires
            0 <= width,
            0 <= a,
    ;
}

/// Sorting `v[o + a..o + b]` sorts `[a, b)` of the row that starts at `o`.
proof fn lemma_sort_in_row(v: Seq<Color>, v2: Seq<Color>, o: int, w: int, a: int, b: int)
    requires
        0 <= o,
        0 <= a <= b <= w,
        o + w <= v.len(),
        v2 == v.take(o + a) + stable_sorted(v.subrange(o + a, o + b)) + v.skip(o + b),
    ensures
        v2.len() == v.len(),
        v2.subrange(o, o + w) == sort_span(v.subrange(o, o + w), a, b),
        forall|i: int| 0 <= i < v.len() && (i < o || o + w <= i) ==> v2[i] == v[i],
{
    let r = v.subrange(o, o + w);
    lemma_stable_sorted_multiset(v.subrange(o + a, o + b));
    assert(r.subrange(a, b) =~= v.subrange(o + a, o + b));
    assert(v2.subrange(o, o + w) =~= sort_span(r, a, b));
}

/// Sorts, in every row of the image `pixels` (`width` pixels per row,
/// `height` rows), the runs of pixels between the edges that `edges` marks.
/// What happens to a row is `sorted_row`; pixels after the last row stay.
pub fn pixel_sort(pixels: &mut Vec<Color>, edges: &[bool], width: usize, height: usize)
    requires
        width * height <= old(pixels).len(),
        width * height <= edges.len(),
    ensures
        is_pixel_sorted(final(pixels)@, old(pixels)@, edges@, width as int, height as int),
{
    let ghost orig = pixels@;
    let ghost w = width as int;
    let mut y: usize = 0;
    while y < height
        invariant
            pixels.len() == orig.len(),
            w == width,
            width * height <= orig.len(),
            width * height <= edges.len(),
            y <= height,
            forall|yy: int|
                0 <= yy < y ==> #[trigger] row(pixels@, w, yy) == sorted_row(
                    row(orig, w, yy),
                    row(edges@, w, yy),
                ),
            forall|i: int| y * width <= i < orig.len() ==> #[trigger] pixels@[i] == orig[i],
        decreases height - y,
    {
        proof {
            lemma_rows_ordered(w, y as int, height as int);
            assert(height * width == width * height) by (nonlinear_arith);
        }
        let offset = y * width;
        let ghost o = offset as int;
        let ghost before = pixels@;
        let ghost er = row(edges@, w, y as int);
        proof {
            assert(row(before, w, y as int) =~= row(orig, w, y as int));
            lemma_scan_row(row(before, w, y as int), er);
        }
        let mut start: usize = 0;
        let mut started = false;
        let mut x: usize = 0;
        while x < width
            invariant
                pixels.len() == orig.len(),
                w == width,
                o == offset,
                o == y * w,
                o + w <= orig.len(),
                o + w <= edges.len(),
                er == row(edges@, w, y as int),
                x <= width,
                start <= x,
                started ==> start < x,
                scan_from(row(pixels@, w, y as int), er, w, x as int, start as int, started)
                    == sorted_row(row(orig, w, y as int), er),
                forall|i: int|
                    0 <= i < orig.len() && (i < o || o + w <= i) ==> #[trigger] pixels@[i]
                        == before[i],
            decreases width - x,
        {
            let ghost r = row(pixels@, w, y as int);
            let ghost st = start as int;
            let ghost sd = started;
            let edge = edges[offset + x];
            assert(edge == er[x as int]);
            if started {
                if edge {
                    let ghost v = pixels@;
                    sort_by_brightness(pixels, offset + start, offset + x);
                    proof {
                        lemma_sort_in_row(v, pixels@, o, w, start as int, x as int);
                    }
                    started = false;
                }
            } else {
                start = x;
                started = !edge;
            }
            proof {
                if sd && edge {
                    assert(scan_from(r, er, w, x as int, st, sd) == scan_from(
                        sort_span(r, st, x as int),
                        er,
                        w,
                        x + 1,
                        st,
                        false,
                    ));
                } else if sd {
                    assert(row(pixels@, w, y as int) == r);
                    assert(scan_from(r, er, w, x as int, st, sd) == scan_from(
                        r,
                        er,
                        w,
                        x + 1,
                        st,
                        true,
                    ));
                } else {
                    assert(row(pixels@, w, y as int) == r);
                    assert(scan_from(r, er, w, x as int, st, sd) == scan_from(
                        r,
                        er,
                        w,
                        x + 1,
                        x as int,
                        !edge,
                    ));
                }
            }
            x = x + 1;
        }
        let ghost v = pixels@;
        sort_by_brightness(pixels, offset + start, offset + width);
        proof {
            lemma_sort_in_row(v, pixels@, o, w, start as int, w);
            assert forall|yy: int| 0 <= yy < y + 1 implies #[trigger] row(pixels@, w, yy)
                == sorted_row(row(orig, w, yy), row(edges@, w, yy)) by {
                if yy < y {
                    lemma_rows_ordered(w, yy, y as int);
                    assert(row(pixels@, w, yy) =~= row(before, w, yy));
                }
            }
            assert forall|i: int| (y + 1) * width <= i < orig.len() implies #[trigger] pixels@[i]
                == orig[i] by {
                assert((y + 1) * width == y * width + width) by (nonlinear_arith);
            }
        }
        y = y + 1;
    }
    proof {
        assert(height * width == width * height) by (nonlinear_arith);
    }
}

/// The first edge is within bounds, nothing before it is an edge, and it is
/// an edge unless it is the length.
proof fn lemma_first_edge_facts(e: Seq<bool>)
    ensures
        first_edge(e) <= e.len(),
        forall|i: int| 0 <= i < first_edge(e) ==> !#[trigger] e[i],
        first_edge(e) < e.len() ==> e[first_edge(e) as int],
    decreases e.len(),
{
    if e.len() > 0 && !e[0] {
        let d = e.drop_first();
        lemma_first_edge_facts(d);
        assert forall|i: int| 0 <= i < first_edge(e) implies !#[trigger] e[i] by {
            if i > 0 {
                assert(e[i] == d[i - 1]);
            }
        }
    }
}

/// Sorting the runs of a row only permutes its pixels.
pub proof fn lemma_sorted_row_multiset(p: Seq<Color>, e: Seq<bool>)
    ensures
        sorted_row(p, e).to_multiset() == p.to_multiset(),
    decreases p.len(),
{
    if p.len() == 0 {
    } else if e[0] {
        let rest = p.drop_first();
        lemma_sorted_row_multiset(rest, e.drop_first());
        vstd::seq_lib::lemma_multiset_commutative(seq![p[0]], sorted_row(rest, e.drop_first()));
        vstd::seq_lib::lemma_multiset_commutative(seq![p[0]], rest);
        assert(p =~= seq![p[0]] + rest);
    } else {
        let t = first_edge(e) as int;
        lemma_first_edge_facts(e);
        lemma_stable_sorted_multiset(p);
        if t + 1 < p.len() {
            let a = p.take(t);
            let b = p.skip(t + 1);
            let sa = stable_sorted(a);
            let sb = sorted_row(b, e.skip(t + 1));
            lemma_stable_sorted_multiset(a);
            lemma_sorted_row_multiset(b, e.skip(t + 1));
            vstd::seq_lib::lemma_multiset_commutative(sa + seq![p[t]], sb);
            vstd::seq_lib::lemma_multiset_commutative(sa, seq![p[t]]);
            vstd::seq_lib::lemma_multiset_commutative(a + seq![p[t]], b);
            vstd::seq_lib::lemma_multiset_commutative(a, seq![p[t]]);
            assert(p =~= a + seq![p[t]] + b);
        }
    }
}

/// The run case of `lemma_sorted_row_idempotent`.
proof fn lemma_sorted_row_idempotent_run(p: Seq<Color>, e: Seq<bool>, t: int)
    requires
        p.len() > 0,
        !e[0],
        t == first_edge(e),
        t + 1 < p.len(),
        sorted_row(sorted_row(p.skip(t + 1), e.skip(t + 1)), e.skip(t + 1)) == sorted_row(
            p.skip(t + 1),
            e.skip(t + 1),
        ),
    ensures
        sorted_row(sorted_row(p, e), e) == sorted_row(p, e),
{
    let q = sorted_row(p, e);
    let sa = stable_sorted(p.take(t));
    let sb = sorted_row(p.skip(t + 1), e.skip(t + 1));
    assert(q == sa + seq![p[t]] + sb);
    lemma_stable_sorted_multiset(p.take(t));
    lemma_sorted_row_len(p.skip(t + 1), e.skip(t + 1));
    lemma_stable_sorted_idempotent(p.take(t));
    assert(q.len() == p.len());
    assert(q.take(t) =~= sa);
    assert(q[t] == p[t]);
    assert(q.skip(t + 1) =~= sb);
    assert(sorted_row(q, e) == stable_sorted(q.take(t)) + seq![q[t]] + sorted_row(
        q.skip(t + 1),
        e.skip(t + 1),
    ));
}

/// Sorting the runs of a row a second time changes nothing.
pub proof fn lemma_sorted_row_idempotent(p: Seq<Color>, e: Seq<bool>)
    ensures
        sorted_row(sorted_row(p, e), e) == sorted_row(p, e),
    decreases p.len(),
{
    let q = sorted_row(p, e);
    lemma_sorted_row_len(p, e);
    if p.len() == 0 {
    } else if e[0] {
        let rest = sorted_row(p.drop_first(), e.drop_first());
        lemma_sorted_row_idempotent(p.drop_first(), e.drop_first());
        assert(q == seq![p[0]] + rest);
        assert(q[0] == p[0]);
        assert(q.drop_first() =~= rest);
        assert(sorted_row(q, e) == seq![q[0]] + sorted_row(q.drop_first(), e.drop_first()));
    } else {
        let t = first_edge(e) as int;
        if t + 1 >= p.len() {
            lemma_stable_sorted_idempotent(p);
            assert(q == stable_sorted(p));
            assert(sorted_row(q, e) == stable_sorted(q));
        } else {
            lemma_sorted_row_idempotent(p.skip(t + 1), e.skip(t + 1));
            lemma_sorted_row_idempotent_run(p, e, t);
        }
    }
}

/// Edge pixels stay where they are, except the last pixel of a row when
/// the pixel before it is not an edge: that one is sorted into the run.
pub proof fn lemma_sorted_row_keeps_edges(p: Seq<Color>, e: Seq<bool>, i: int)
    requires
        p.len() == e.len(),
        0 <= i < p.len(),
        e[i],
        !(i == p.len() - 1 && i > 0 && !e[i - 1]),
    ensures
        sorted_row(p, e)[i] == p[i],
    decreases p.len(),
{
    if e[0] {
        if i > 0 {
            let d = e.drop_first();
            assert(d[i - 1] == e[i]);
            if i > 1 {
                assert(d[i - 2] == e[i - 1]);
            }
            lemma_sorted_row_keeps_edges(p.drop_first(), d, i - 1);
            lemma_sorted_row_len(p.drop_first(), d);
        }
    } else {
        let t = first_edge(e) as int;
        lemma_first_edge_facts(e);
        assert(t <= i);
        if t + 1 >= p.len() {
            assert(!e[i - 1]);
            assert(false);
        } else {
            let sa = stable_sorted(p.take(t));
            lemma_stable_sorted_multiset(p.take(t));
            let b = p.skip(t + 1);
            let f = e.skip(t + 1);
            if i > t {
                assert(f[i - t - 1] == e[i]);
                if i - t - 1 > 0 {
                    assert(f[i - t - 2] == e[i - 1]);
                }
                lemma_sorted_row_keeps_edges(b, f, i - t - 1);
                lemma_sorted_row_len(b, f);
                assert(b[i - t - 1] == p[i]);
            }
        }
    }
}

/// A row without edges is sorted as a whole.
pub proof fn lemma_sorted_row_without_edges(p: Seq<Color>, e: Seq<bool>)
    requires
        p.len() == e.len(),
        forall|i: int| 0 <= i < e.len() ==> !#[trigger] e[i],
    ensures
        sorted_row(p, e) == stable_sorted(p),
{
    lemma_stable_sorted_multiset(p);
    if p.len() > 0 {
        lemma_first_edge(e, e.len() as int);
    } else {
        assert(stable_sorted(p) =~= p);
    }
}

/// Pixel `i` of an image with rows of `width` pixels lies in row `i / width`.
proof fn lemma_index_in_row(i: int, width: int, height: int)
    requires
        0 < width,
        0 <= i < width * height,
    ensures
        0 <= i / width < height,
        (i / width) * width <= i < (i / width) * width + width,
{
    assert(0 <= i / width < height && (i / width) * width <= i < (i / width) * width + width)
        by (nonlinear_arith)
        requires
            0 < width,
            0 <= i < width * height,
    ;
}

/// Sorting the runs of an image a second time, with the same edges,
/// changes nothing.
pub proof fn lemma_pixel_sort_idempotent(
    p: Seq<Color>,
    q: Seq<Color>,
    r: Seq<Color>,
    edges: Seq<bool>,
    width: int,
    height: int,
)
    requires
        0 <= width,
        0 <= height,
        width * height <= p.len(),
        is_pixel_sorted(q, p, edges, width, height),
        is_pixel_sorted(r, q, edges, width, height),
    ensures
        r == q,
{
    assert forall|i: int| 0 <= i < q.len() implies r[i] == q[i] by {
        if i < width * height {
            assert(width > 0) by (nonlinear_arith)
                requires
                    0 <= i < width * height,
                    0 <= width,
                    0 <= height,
            ;
            let y = i / width;
            lemma_index_in_row(i, width, height);
            lemma_rows_ordered(width, y, height);
            assert(height * width == width * height) by (nonlinear_arith);
            lemma_sorted_row_idempotent(row(p, width, y), row(edges, width, y));
            assert(row(r, width, y) == row(q, width, y));
            assert(r[i] == row(r, width, y)[i - y * width]);
            assert(q[i] == row(q, width, y)[i - y * width]);
        }
    }
    assert(r =~= q);
}

/// Row `y` of the image lies inside the pixels and the edge flags.
proof fn lemma_row_in_bounds(inp_len: int, edges_len: int, width: int, height: int, y: int)
    requires
        0 <= width,
        0 <= y < height,
        width * height <= inp_len,
        width * height <= edges_len,
    ensures
        0 <= y * width,
        y * width + width <= inp_len,
        y * width + width <= edges_len,
{
    lemma_rows_ordered(width, y, height);
    assert(height * width == width * height) by (nonlinear_arith);
}

/// Each row is sorted with its own edge flags: row `y` of the result is
/// `sorted_row` of row `y` of the input and of `edges[y * width..y * width + width]`.
pub proof fn lemma_pixel_sort_row_own_edges(
    out: Seq<Color>,
    inp: Seq<Color>,
    edges: Seq<bool>,
    width: int,
    height: int,
    y: int,
)
    requires
        0 <= width,
        0 <= y < height,
        width * height <= inp.len(),
        width * height <= edges.len(),
        is_pixel_sorted(out, inp, edges, width, height),
    ensures
        out.subrange(y * width, y * width + width) == sorted_row(
            inp.subrange(y * width, y * width + width),
            edges.subrange(y * width, y * width + width),
        ),
{
    assert(row(out, width, y) == sorted_row(row(inp, width, y), row(edges, width, y)));
}

/// An edge pixel of row `y` keeps its place, unless it is the last pixel of
/// the row and the pixel before it is not an edge.
pub proof fn lemma_pixel_sort_keeps_edges(
    out: Seq<Color>,
    inp: Seq<Color>,
    edges: Seq<bool>,
    width: int,
    height: int,
    y: int,
    x: int,
)
    requires
        0 <= y < height,
        0 <= x < width,
        width * height <= inp.len(),
        width * height <= edges.len(),
        is_pixel_sorted(out, inp, edges, width, height),
        edges[y * width + x],
        !(x == width - 1 && x > 0 && !edges[y * width + x - 1]),
    ensures
        out[y * width + x] == inp[y * width + x],
{
    lemma_row_in_bounds(inp.len() as int, edges.len() as int, width, height, y);
    let r = row(inp, width, y);
    let er = row(edges, width, y);
    assert(er[x] == edges[y * width + x]);
    if x > 0 {
        assert(er[x - 1] == edges[y * width + x - 1]);
    }
    lemma_sorted_row_keeps_edges(r, er, x);
    assert(row(out, width, y) == sorted_row(r, er));
    assert(out[y * width + x] == row(out, width, y)[x]);
}

/// Row `y` of the result holds the same pixels as row `y` of the input.
pub proof fn lemma_pixel_sort_permutes_row(
    out: Seq<Color>,
    inp: Seq<Color>,
    edges: Seq<bool>,
    width: int,
    height: int,
    y: int,
)
    requires
        0 <= width,
        0 <= y < height,
        width * height <= inp.len(),
        width * height <= edges.len(),
        is_pixel_sorted(out, inp, edges, width, height),
    ensures
        out.subrange(y * width, y * width + width).to_multiset() == inp.subrange(
            y * width,
            y * width + width,
        ).to_multiset(),
{
    lemma_sorted_row_multiset(row(inp, width, y), row(edges, width, y));
    assert(row(out, width, y) == sorted_row(row(inp, width, y), row(edges, width, y)));
}

/// A row whose own edge flags are all unset ends sorted by channel sum.
pub proof fn lemma_pixel_sort_sorts_edgeless_row(
    out: Seq<Color>,
    inp: Seq<Color>,
    edges: Seq<bool>,
    width: int,
    height: int,
    y: int,
    i: int,
    j: int,
)
    requires
        0 <= y < height,
        0 <= i <= j < width,
        width * height <= inp.len(),
        width * height <= edges.len(),
        is_pixel_sorted(out, inp, edges, width, height),
        forall|x: int| 0 <= x < width ==> !#[trigger] edges[y * width + x],
    ensures
        out[y * width + i].0 + out[y * width + i].1 + out[y * width + i].2 <= out[y * width
            + j].0 + out[y * width + j].1 + out[y * width + j].2,
{
    lemma_row_in_bounds(inp.len() as int, edges.len() as int, width, height, y);
    let r = row(inp, width, y);
    let er = row(edges, width, y);
    assert forall|x: int| 0 <= x < er.len() implies !#[trigger] er[x] by {
        assert(er[x] == edges[y * width + x]);
    }
    lemma_sorted_row_without_edges(r, er);
    lemma_stable_sort_by_channel_sum(r);
    let o = row(out, width, y);
    assert(o == stable_sorted(r));
    lemma_stable_sorted_multiset(r);
    assert(out[y * width + i] == o[i]);
    assert(out[y * width + j] == o[j]);
}

/// From a position that starts a run or follows an edge, the rest of the row
/// is sorted on its own.
proof fn lemma_sorted_row_fresh(p: Seq<Color>, e: Seq<bool>, a: int)
    requires
        p.len() == e.len(),
        0 <= a < p.len(),
        a == 0 || e[a - 1],
    ensures
        sorted_row(p, e).skip(a) == sorted_row(p.skip(a), e.skip(a)),
    decreases p.len(),
{
    lemma_sorted_row_len(p, e);
    if a == 0 {
        assert(sorted_row(p, e).skip(0) =~= sorted_row(p, e));
        assert(p.skip(0) =~= p);
        assert(e.skip(0) =~= e);
    } else if e[0] {
        let d = e.drop_first();
        let rest = sorted_row(p.drop_first(), d);
        assert(sorted_row(p, e) == seq![p[0]] + rest);
        if a > 1 {
            assert(d[a - 2] == e[a - 1]);
        }
        lemma_sorted_row_fresh(p.drop_first(), d, a - 1);
        assert(sorted_row(p, e).skip(a) =~= rest.skip(a - 1));
        assert(p.drop_first().skip(a - 1) =~= p.skip(a));
        assert(d.skip(a - 1) =~= e.skip(a));
    } else {
        let t = first_edge(e) as int;
        lemma_first_edge_facts(e);
        assert(t <= a - 1);
        let sa = stable_sorted(p.take(t));
        let b = p.skip(t + 1);
        let f = e.skip(t + 1);
        let rest = sorted_row(b, f);
        lemma_stable_sorted_multiset(p.take(t));
        assert(sorted_row(p, e) == sa + seq![p[t]] + rest);
        if a == t + 1 {
            assert(sorted_row(p, e).skip(a) =~= rest);
        } else {
            if a - t - 1 > 0 {
                assert(f[a - t - 2] == e[a - 1]);
            }
            lemma_sorted_row_fresh(b, f, a - t - 1);
            lemma_sorted_row_len(b, f);
            assert(sorted_row(p, e).skip(a) =~= rest.skip(a - t - 1));
            assert(b.skip(a - t - 1) =~= p.skip(a));
            assert(f.skip(a - t - 1) =~= e.skip(a));
        }
    }
}

/// A run of non-edge pixels `[a, b)` that starts the row or follows an edge,
/// and ends at the row's end or at an edge, comes out stably sorted by
/// brightness; when it ends at the last pixel of the row, that pixel is
/// sorted with it.
proof fn lemma_sorted_row_run(p: Seq<Color>, e: Seq<bool>, a: int, b: int)
    requires
        p.len() == e.len(),
        0 <= a < b <= p.len(),
        a == 0 || e[a - 1],
        forall|x: int| a <= x < b ==> !#[trigger] e[x],
        b == p.len() || e[b],
    ensures
        sorted_row(p, e).subrange(a, (if b + 1 >= p.len() { p.len() as int } else { b })) == stable_sorted(
            p.subrange(a, (if b + 1 >= p.len() { p.len() as int } else { b })),
        ),
{
    let n = p.len() as int;
    let q = p.skip(a);
    let f = e.skip(a);
    lemma_sorted_row_fresh(p, e, a);
    lemma_sorted_row_len(p, e);
    let t = b - a;
    assert forall|i: int| 0 <= i < t implies !#[trigger] f[i] by {
        assert(f[i] == e[a + i]);
    }
    if b < n {
        assert(f[t] == e[b]);
    }
    lemma_first_edge(f, t);
    assert(!f[0]);
    let ext = if b + 1 >= n { n } else { b };
    if t + 1 >= q.len() {
        assert(ext == n);
        assert(sorted_row(q, f) == stable_sorted(q));
        assert(sorted_row(p, e).subrange(a, n) =~= sorted_row(p, e).skip(a));
        assert(p.subrange(a, n) =~= q);
    } else {
        assert(ext == b);
        let sa = stable_sorted(q.take(t));
        lemma_stable_sorted_multiset(q.take(t));
        assert(sorted_row(q, f) == sa + seq![q[t]] + sorted_row(q.skip(t + 1), f.skip(t + 1)));
        assert(sorted_row(p, e).subrange(a, b) =~= sorted_row(q, f).take(t));
        assert(sorted_row(q, f).take(t) =~= sa);
        assert(q.take(t) =~= p.subrange(a, b));
    }
}

/// In row `y`, a run of non-edge pixels `[a, b)` (by the row's own edge
/// flags) that starts the row or follows an edge and ends at the row's end or
/// at an edge comes out as the stable sort by brightness of the input run;
/// when it ends at the last pixel of the row, that pixel is sorted with it.
pub proof fn lemma_pixel_sort_sorts_runs(
    out: Seq<Color>,
    inp: Seq<Color>,
    edges: Seq<bool>,
    width: int,
    height: int,
    y: int,
    a: int,
    b: int,
)
    requires
        0 <= y < height,
        0 <= a < b <= width,
        width * height <= inp.len(),
        width * height <= edges.len(),
        is_pixel_sorted(out, inp, edges, width, height),
        a == 0 || edges[y * width + a - 1],
        forall|x: int| a <= x < b ==> !#[trigger] edges[y * width + x],
        b == width || edges[y * width + b],
    ensures
        out.subrange(y * width + a, y * width + (if b + 1 >= width { width } else { b })) == stable_sorted(
            inp.subrange(y * width + a, y * width + (if b + 1 >= width { width } else { b })),
        ),
{
    lemma_row_in_bounds(inp.len() as int, edges.len() as int, width, height, y);
    let o = y * width;
    let r = row(inp, width, y);
    let er = row(edges, width, y);
    assert forall|x: int| a <= x < b implies !#[trigger] er[x] by {
        assert(er[x] == edges[o + x]);
    }
    if a > 0 {
        assert(er[a - 1] == edges[o + a - 1]);
    }
    if b < width {
        assert(er[b] == edges[o + b]);
    }
    lemma_sorted_row_run(r, er, a, b);
    let ext = (if b + 1 >= width { width } else { b });
    assert(row(out, width, y) == sorted_row(r, er));
    assert(out.subrange(o + a, o + ext) =~= row(out, width, y).subrange(a, ext));
    assert(inp.subrange(o + a, o + ext) =~= r.subrange(a, ext));
}

/// The image keeps its length, and the pixels after the last row are left
/// as they are.
pub proof fn lemma_pixel_sort_keeps_tail(
    out: Seq<Color>,
    inp: Seq<Color>,
    edges: Seq<bool>,
    width: int,
    height: int,
    i: int,
)
    requires
        width * height <= i < inp.len(),
        is_pixel_sorted(out, inp, edges, width, height),
    ensures
        out.len() == inp.len(),
        out[i] == inp[i],
{
}

} // verus!
