//! Stable sorting of colors by brightness.
//!
//! A stable sort by a key with finitely many values is determined by the
//! key classes of its input: the output lists the colors of brightness 0,
//! then those of brightness 1, and so on, each class in input order.

use crate::color::{brightness, Color};
use vstd::prelude::*;

verus! {

/// One more than the largest brightness a color can have.
pub open spec fn brightness_bound() -> int {
    766
}

/// The predicate "has brightness `k`".
pub open spec fn has_brightness(k: int) -> spec_fn(Color) -> bool {
    |c: Color| brightness(c) == k
}

/// The colors of `s` whose brightness is `k`, in the order of `s`.
pub open spec fn brightness_class(s: Seq<Color>, k: int) -> Seq<Color> {
    s.filter(has_brightness(k))
}

/// The classes of brightness `k`, `k + 1`, ... of `s`, one after the other.
pub open spec fn classes_from(s: Seq<Color>, k: int) -> Seq<Color>
    decreases brightness_bound() - k,
{
    if k >= brightness_bound() {
        Seq::empty()
    } else {
        brightness_class(s, k) + classes_from(s, k + 1)
    }
}

/// The stable sort of `s` by brightness.
pub closed spec fn stable_sorted(s: Seq<Color>) -> Seq<Color> {
    classes_from(s, 0)
}

/// `s` is in non-decreasing order of brightness.
pub open spec fn is_sorted(s: Seq<Color>) -> bool {
    forall|i: int, j: int| 0 <= i <= j < s.len() ==> brightness(s[i]) <= brightness(s[j])
}

/// `s` and `t` have the same brightness classes.
pub open spec fn same_classes(s: Seq<Color>, t: Seq<Color>) -> bool {
    forall|k: int| #[trigger] brightness_class(s, k) == brightness_class(t, k)
}

proof fn lemma_class_concat(a: Seq<Color>, b: Seq<Color>, k: int)
    ensures
        brightness_class(a + b, k) == brightness_class(a, k) + brightness_class(b, k),
{
    Seq::filter_distributes_over_add(a, b, has_brightness(k));
}

proof fn lemma_class_single(c: Color, k: int)
    ensures
        brightness_class(seq![c], k) == (if brightness(c) == k {
            seq![c]
        } else {
            Seq::<Color>::empty()
        }),
{
    reveal(Seq::filter);
    Seq::<Color>::empty().lemma_filter_push(c, has_brightness(k));
    assert(Seq::<Color>::empty().push(c) =~= seq![c]);
    assert(Seq::<Color>::empty().filter(has_brightness(k)) =~= Seq::<Color>::empty());
}

proof fn lemma_class_empty(k: int)
    ensures
        brightness_class(Seq::<Color>::empty(), k) == Seq::<Color>::empty(),
{
    reveal(Seq::filter);
}

/// A sequence whose colors all have brightness `k` is its own class `k`.
proof fn lemma_class_all(s: Seq<Color>, k: int)
    requires
        forall|i: int| 0 <= i < s.len() ==> brightness(#[trigger] s[i]) == k,
    ensures
        brightness_class(s, k) == s,
    decreases s.len(),
{
    reveal(Seq::filter);
    if s.len() > 0 {
        lemma_class_all(s.drop_last(), k);
        assert(s.drop_last().push(s.last()) =~= s);
    }
}

/// A sequence with no color of brightness `k` has an empty class `k`.
proof fn lemma_class_none(s: Seq<Color>, k: int)
    requires
        forall|i: int| 0 <= i < s.len() ==> brightness(#[trigger] s[i]) != k,
    ensures
        brightness_class(s, k) == Seq::<Color>::empty(),
    decreases s.len(),
{
    reveal(Seq::filter);
    if s.len() > 0 {
        lemma_class_none(s.drop_last(), k);
    }
}

/// `classes_from` depends on the classes only.
proof fn lemma_classes_from_congruent(s: Seq<Color>, t: Seq<Color>, k: int)
    requires
        forall|j: int| j >= k ==> #[trigger] brightness_class(s, j) == brightness_class(t, j),
    ensures
        classes_from(s, k) == classes_from(t, k),
    decreases brightness_bound() - k,
{
    if k < brightness_bound() {
        lemma_classes_from_congruent(s, t, k + 1);
        assert(brightness_class(s, k) == brightness_class(t, k));
    }
}

/// Splitting off a first color of brightness `k`.
proof fn lemma_classes_from_first(r: Seq<Color>, k: int)
    requires
        r.len() > 0,
        brightness(r[0]) == k,
        k < brightness_bound(),
    ensures
        classes_from(r, k) == seq![r[0]] + classes_from(r.drop_first(), k),
{
    let rest = r.drop_first();
    assert(r =~= seq![r[0]] + rest);
    assert forall|j: int| j >= k + 1 implies #[trigger] brightness_class(r, j)
        == brightness_class(rest, j) by {
        lemma_class_concat(seq![r[0]], rest, j);
        lemma_class_single(r[0], j);
        assert(Seq::<Color>::empty() + brightness_class(rest, j) =~= brightness_class(rest, j));
    }
    lemma_classes_from_congruent(r, rest, k + 1);
    lemma_class_concat(seq![r[0]], rest, k);
    lemma_class_single(r[0], k);
    assert(classes_from(r, k) == brightness_class(r, k) + classes_from(r, k + 1));
    assert(classes_from(rest, k) == brightness_class(rest, k) + classes_from(rest, k + 1));
    assert(classes_from(r, k) =~= seq![r[0]] + classes_from(rest, k));
}

/// Skipping a brightness that does not occur.
proof fn lemma_classes_from_absent(r: Seq<Color>, k: int)
    requires
        k < brightness_bound(),
        forall|i: int| 0 <= i < r.len() ==> brightness(#[trigger] r[i]) != k,
    ensures
        classes_from(r, k) == classes_from(r, k + 1),
{
    lemma_class_none(r, k);
    assert(classes_from(r, k) == brightness_class(r, k) + classes_from(r, k + 1));
    assert(classes_from(r, k) =~= classes_from(r, k + 1));
}

/// A sorted sequence whose brightness is at least `k` everywhere is the
/// concatenation of its classes from `k` on.
proof fn lemma_sorted_is_classes(r: Seq<Color>, k: int)
    requires
        is_sorted(r),
        forall|i: int| 0 <= i < r.len() ==> brightness(#[trigger] r[i]) >= k,
    ensures
        classes_from(r, k) == r,
    decreases brightness_bound() - k, r.len(),
{
    if k >= brightness_bound() {
        if r.len() > 0 {
            assert(brightness(r[0]) >= k);
        }
        assert(r =~= Seq::<Color>::empty());
    } else if r.len() > 0 && brightness(r[0]) == k {
        let rest = r.drop_first();
        lemma_classes_from_first(r, k);
        assert forall|i: int| 0 <= i < rest.len() implies brightness(#[trigger] rest[i]) >= k by {
            assert(rest[i] == r[i + 1]);
        }
        assert(is_sorted(rest)) by {
            assert forall|a: int, b: int| 0 <= a <= b < rest.len() implies brightness(rest[a])
                <= brightness(rest[b]) by {
                assert(rest[a] == r[a + 1]);
                assert(rest[b] == r[b + 1]);
            }
        }
        lemma_sorted_is_classes(rest, k);
        assert(r =~= seq![r[0]] + rest);
    } else {
        assert forall|i: int| 0 <= i < r.len() implies brightness(#[trigger] r[i]) >= k + 1 by {
            assert(brightness(r[0]) <= brightness(r[i]));
        }
        lemma_classes_from_absent(r, k);
        lemma_sorted_is_classes(r, k + 1);
    }
}

/// A sorted sequence with the classes of `s` is the stable sort of `s`.
pub proof fn lemma_sorted_with_same_classes(r: Seq<Color>, s: Seq<Color>)
    requires
        is_sorted(r),
        same_classes(r, s),
    ensures
        r == stable_sorted(s),
{
    lemma_classes_from_congruent(r, s, 0);
    lemma_sorted_is_classes(r, 0);
}

/// Exchanging two neighbours of different brightness keeps every class.
proof fn lemma_swap_keeps_classes(s: Seq<Color>, m: int)
    requires
        0 <= m,
        m + 1 < s.len(),
        brightness(s[m]) != brightness(s[m + 1]),
    ensures
        same_classes(s.update(m, s[m + 1]).update(m + 1, s[m]), s),
{
    let t = s.update(m, s[m + 1]).update(m + 1, s[m]);
    let a = s.take(m);
    let b = s.skip(m + 2);
    assert(s =~= a + (seq![s[m]] + seq![s[m + 1]]) + b);
    assert(t =~= a + (seq![s[m + 1]] + seq![s[m]]) + b);
    assert forall|k: int| #[trigger] brightness_class(t, k) == brightness_class(s, k) by {
        lemma_class_concat(a + (seq![s[m]] + seq![s[m + 1]]), b, k);
        lemma_class_concat(a + (seq![s[m + 1]] + seq![s[m]]), b, k);
        lemma_class_concat(a, seq![s[m]] + seq![s[m + 1]], k);
        lemma_class_concat(a, seq![s[m + 1]] + seq![s[m]], k);
        lemma_class_concat(seq![s[m]], seq![s[m + 1]], k);
        lemma_class_concat(seq![s[m + 1]], seq![s[m]], k);
        lemma_class_single(s[m], k);
        lemma_class_single(s[m + 1], k);
        assert(brightness_class(seq![s[m]] + seq![s[m + 1]], k) =~= brightness_class(
            seq![s[m + 1]] + seq![s[m]],
            k,
        ));
    }
}

/// Every class outside `0..brightness_bound()` is empty.
proof fn lemma_class_out_of_range(s: Seq<Color>, k: int)
    requires
        k < 0 || k >= brightness_bound(),
    ensures
        brightness_class(s, k) == Seq::<Color>::empty(),
{
    lemma_class_none(s, k);
}

/// The class `j` of the classes of `s` from `k` on.
proof fn lemma_class_of_classes_from(s: Seq<Color>, k: int, j: int)
    ensures
        brightness_class(classes_from(s, k), j) == (if k <= j < brightness_bound() {
            brightness_class(s, j)
        } else {
            Seq::<Color>::empty()
        }),
    decreases brightness_bound() - k,
{
    if k >= brightness_bound() {
        lemma_class_empty(j);
    } else {
        broadcast use vstd::seq_lib::group_filter_ensures;

        let c = brightness_class(s, k);
        lemma_class_of_classes_from(s, k + 1, j);
        lemma_class_concat(c, classes_from(s, k + 1), j);
        if j == k {
            assert forall|i: int| 0 <= i < c.len() implies brightness(#[trigger] c[i]) == k by {
                assert(has_brightness(k)(c[i]));
            }
            lemma_class_all(c, k);
            assert(brightness_class(classes_from(s, k), j) =~= c + Seq::<Color>::empty());
        } else {
            assert forall|i: int| 0 <= i < c.len() implies brightness(#[trigger] c[i]) != j by {
                assert(has_brightness(k)(c[i]));
            }
            lemma_class_none(c, j);
            assert(brightness_class(classes_from(s, k), j) =~= Seq::<Color>::empty()
                + brightness_class(classes_from(s, k + 1), j));
        }
    }
}

/// The stable sort keeps every class.
pub proof fn lemma_stable_sorted_classes(s: Seq<Color>)
    ensures
        same_classes(stable_sorted(s), s),
{
    assert forall|k: int| #[trigger] brightness_class(stable_sorted(s), k) == brightness_class(
        s,
        k,
    ) by {
        lemma_class_of_classes_from(s, 0, k);
        if k < 0 || k >= brightness_bound() {
            lemma_class_out_of_range(s, k);
        }
    }
}

/// The classes of `s` from `k` on are sorted, of brightness at least `k`.
proof fn lemma_classes_from_sorted(s: Seq<Color>, k: int)
    ensures
        is_sorted(classes_from(s, k)),
        forall|i: int|
            0 <= i < classes_from(s, k).len() ==> brightness(#[trigger] classes_from(s, k)[i])
                >= k,
    decreases brightness_bound() - k,
{
    if k < brightness_bound() {
        broadcast use vstd::seq_lib::group_filter_ensures;

        lemma_classes_from_sorted(s, k + 1);
        let c = brightness_class(s, k);
        let rest = classes_from(s, k + 1);
        let all = classes_from(s, k);
        assert(all == c + rest);
        assert forall|i: int| 0 <= i < c.len() implies brightness(#[trigger] c[i]) == k by {
            assert(has_brightness(k)(c[i]));
        }
        assert forall|i: int| 0 <= i < all.len() implies brightness(#[trigger] all[i]) >= k by {
            if i < c.len() {
                assert(all[i] == c[i]);
            } else {
                assert(all[i] == rest[i - c.len()]);
            }
        }
        assert forall|a: int, b: int| 0 <= a <= b < all.len() implies brightness(all[a])
            <= brightness(all[b]) by {
            if b < c.len() {
                assert(all[a] == c[a]);
                assert(all[b] == c[b]);
            } else if a < c.len() {
                assert(all[a] == c[a]);
                assert(all[b] == rest[b - c.len()]);
            } else {
                assert(all[a] == rest[a - c.len()]);
                assert(all[b] == rest[b - c.len()]);
            }
        }
    }
}

/// The stable sort is sorted.
pub proof fn lemma_stable_sorted_is_sorted(s: Seq<Color>)
    ensures
        is_sorted(stable_sorted(s)),
{
    lemma_classes_from_sorted(s, 0);
}

/// Adding one color to the end of `s` adds it to the classes from `k` on,
/// when its brightness is at least `k`.
proof fn lemma_classes_from_push_multiset(s: Seq<Color>, c: Color, k: int)
    ensures
        classes_from(s.push(c), k).to_multiset() == (if k <= brightness(c) {
            classes_from(s, k).to_multiset().insert(c)
        } else {
            classes_from(s, k).to_multiset()
        }),
    decreases brightness_bound() - k,
{
    broadcast use vstd::multiset::group_multiset_axioms;

    if k < brightness_bound() {
        lemma_classes_from_push_multiset(s, c, k + 1);
        s.lemma_filter_push(c, has_brightness(k));
        let a = brightness_class(s, k);
        let b = classes_from(s, k + 1);
        let a2 = brightness_class(s.push(c), k);
        let b2 = classes_from(s.push(c), k + 1);
        vstd::seq_lib::lemma_multiset_commutative(a, b);
        vstd::seq_lib::lemma_multiset_commutative(a2, b2);
        if brightness(c) == k {
            vstd::seq_lib::to_multiset_build(a, c);
            assert(a2.to_multiset().add(b2.to_multiset()) =~= a.to_multiset().add(
                b.to_multiset(),
            ).insert(c));
        } else if k < brightness(c) {
            assert(a2.to_multiset().add(b2.to_multiset()) =~= a.to_multiset().add(
                b.to_multiset(),
            ).insert(c));
        } else {
            assert(a2.to_multiset().add(b2.to_multiset()) =~= a.to_multiset().add(
                b.to_multiset(),
            ));
        }
    }
}

/// The stable sort is a permutation.
pub proof fn lemma_stable_sorted_multiset(s: Seq<Color>)
    ensures
        stable_sorted(s).to_multiset() == s.to_multiset(),
        stable_sorted(s).len() == s.len(),
    decreases s.len(),
{
    if s.len() == 0 {
        lemma_sorted_with_same_classes(s, s);
    } else {
        let init = s.drop_last();
        lemma_stable_sorted_multiset(init);
        lemma_classes_from_push_multiset(init, s.last(), 0);
        assert(init.push(s.last()) =~= s);
        vstd::seq_lib::to_multiset_build(init, s.last());
    }
    vstd::seq_lib::to_multiset_len(s);
    vstd::seq_lib::to_multiset_len(stable_sorted(s));
}

/// Sorting a sorted prefix again changes nothing: the stable sort of a
/// sequence depends only on its classes.
pub proof fn lemma_stable_sorted_prefix(a: Seq<Color>, b: Seq<Color>)
    ensures
        stable_sorted(stable_sorted(a) + b) == stable_sorted(a + b),
{
    lemma_stable_sorted_classes(a);
    assert forall|j: int| j >= 0 implies #[trigger] brightness_class(stable_sorted(a) + b, j)
        == brightness_class(a + b, j) by {
        lemma_class_concat(stable_sorted(a), b, j);
        lemma_class_concat(a, b, j);
    }
    lemma_classes_from_congruent(stable_sorted(a) + b, a + b, 0);
}

/// Sorting twice is sorting once.
pub proof fn lemma_stable_sorted_idempotent(s: Seq<Color>)
    ensures
        stable_sorted(stable_sorted(s)) == stable_sorted(s),
{
    lemma_stable_sorted_is_sorted(s);
    lemma_sorted_with_same_classes(stable_sorted(s), stable_sorted(s));
}

/// The predicate "the channels of the color add up to `k`".
pub open spec fn with_channel_sum(k: int) -> spec_fn(Color) -> bool {
    |c: Color| c.0 + c.1 + c.2 == k
}

/// The stable sort orders by channel sum: its result is in non-decreasing
/// order of `c.0 + c.1 + c.2`, it is a permutation of the input, and for
/// every sum the colors with that sum keep their input order.
pub proof fn lemma_stable_sort_by_channel_sum(s: Seq<Color>)
    ensures
        forall|i: int, j: int|
            0 <= i <= j < stable_sorted(s).len() ==> #[trigger] stable_sorted(s)[i].0
                + stable_sorted(s)[i].1 + stable_sorted(s)[i].2 <= #[trigger] stable_sorted(
                s,
            )[j].0 + stable_sorted(s)[j].1 + stable_sorted(s)[j].2,
        stable_sorted(s).to_multiset() == s.to_multiset(),
        forall|k: int| #[trigger] stable_sorted(s).filter(with_channel_sum(k)) == s.filter(
            with_channel_sum(k),
        ),
{
    lemma_stable_sorted_is_sorted(s);
    lemma_stable_sorted_multiset(s);
    lemma_stable_sorted_classes(s);
    assert forall|k: int| #[trigger] stable_sorted(s).filter(with_channel_sum(k)) == s.filter(
        with_channel_sum(k),
    ) by {
        assert(has_brightness(k) =~= with_channel_sum(k));
        assert(brightness_class(stable_sorted(s), k) == brightness_class(s, k));
    }
}

/// A single color is sorted.
pub(crate) proof fn lemma_stable_sorted_single(c: Color)
    ensures
        stable_sorted(seq![c]) == seq![c],
{
    lemma_sorted_with_same_classes(seq![c], seq![c]);
}

/// Insertion sort of `v[lo..hi]` by brightness; exchanges only neighbours of
/// different brightness, so it is stable.
fn insertion_sort(v: &mut Vec<Color>, lo: usize, hi: usize)
    requires
        lo <= hi <= old(v).len(),
    ensures
        final(v)@ == old(v)@.take(lo as int) + stable_sorted(old(v)@.subrange(lo as int, hi as int))
            + old(v)@.skip(hi as int),
{
    let ghost orig = v@;
    if lo == hi {
        proof {
            assert(orig.subrange(lo as int, hi as int) =~= Seq::<Color>::empty());
            lemma_sorted_with_same_classes(Seq::<Color>::empty(), Seq::<Color>::empty());
            assert(v@ =~= orig.take(lo as int) + Seq::<Color>::empty() + orig.skip(hi as int));
        }
        return;
    }
    let mut i: usize = lo + 1;
    while i < hi
        invariant
            lo < i <= hi,
            hi <= v.len(),
            v.len() == orig.len(),
            forall|x: int| 0 <= x < lo || hi <= x < v.len() ==> #[trigger] v@[x] == orig[x],
            same_classes(v@.subrange(lo as int, hi as int), orig.subrange(lo as int, hi as int)),
            forall|a: int, b: int|
                lo <= a <= b < i ==> brightness(#[trigger] v@[a]) <= brightness(#[trigger] v@[b]),
        decreases hi - i,
    {
        let mut j: usize = i;
        while j > lo && v[j - 1].channel_sum() > v[j].channel_sum()
            invariant
                lo <= j <= i < hi,
                hi <= v.len(),
                v.len() == orig.len(),
                forall|x: int| 0 <= x < lo || hi <= x < v.len() ==> #[trigger] v@[x] == orig[x],
                same_classes(
                    v@.subrange(lo as int, hi as int),
                    orig.subrange(lo as int, hi as int),
                ),
                forall|a: int, b: int|
                    lo <= a <= b <= i && a != j && b != j ==> brightness(#[trigger] v@[a])
                        <= brightness(#[trigger] v@[b]),
                forall|b: int| j < b <= i ==> brightness(v@[j as int]) < brightness(#[trigger] v@[b]),
            decreases j,
        {
            let ghost before = v@;
            let left = v[j - 1];
            let right = v[j];
            v.set(j - 1, right);
            v.set(j, left);
            proof {
                let sub = before.subrange(lo as int, hi as int);
                let m = j - 1 - lo;
                lemma_swap_keeps_classes(sub, m);
                assert(v@.subrange(lo as int, hi as int) =~= sub.update(m, sub[m + 1]).update(
                    m + 1,
                    sub[m],
                ));
            }
            j = j - 1;
        }
        proof {
            assert forall|a: int, b: int| lo <= a <= b <= i implies brightness(#[trigger] v@[a])
                <= brightness(#[trigger] v@[b]) by {
                if b == j && a < j {
                    assert(brightness(v@[a]) <= brightness(v@[j - 1]));
                }
            }
        }
        i = i + 1;
    }
    proof {
        let r = v@.subrange(lo as int, hi as int);
        assert(is_sorted(r)) by {
            assert forall|a: int, b: int| 0 <= a <= b < r.len() implies brightness(r[a])
                <= brightness(r[b]) by {
                assert(r[a] == v@[lo + a]);
                assert(r[b] == v@[lo + b]);
            }
        }
        lemma_sorted_with_same_classes(r, orig.subrange(lo as int, hi as int));
        assert(v@ =~= orig.take(lo as int) + r + orig.skip(hi as int));
    }
}

/// The classes of brightness `0`, ..., `k - 1` of `s`, one after the other.
spec fn classes_below(s: Seq<Color>, k: int) -> Seq<Color>
    decreases k,
{
    if k <= 0 {
        Seq::empty()
    } else {
        classes_below(s, k - 1) + brightness_class(s, k - 1)
    }
}

/// The classes below `k` followed by those from `k` on make the stable sort.
proof fn lemma_classes_split(s: Seq<Color>, k: int)
    requires
        0 <= k <= brightness_bound(),
    ensures
        classes_below(s, k) + classes_from(s, k) == stable_sorted(s),
    decreases k,
{
    if k == 0 {
        assert(classes_below(s, 0) + classes_from(s, 0) =~= classes_from(s, 0));
    } else {
        lemma_classes_split(s, k - 1);
        assert(classes_from(s, k - 1) == brightness_class(s, k - 1) + classes_from(s, k));
        assert(classes_below(s, k) + classes_from(s, k) =~= classes_below(s, k - 1)
            + classes_from(s, k - 1));
    }
}

/// Bucket sort of `v[lo..hi]` by brightness: one bucket per brightness,
/// filled in order and emptied in order, so it is stable.
fn bucket_sort(v: &mut Vec<Color>, lo: usize, hi: usize)
    requires
        lo <= hi <= old(v).len(),
    ensures
        final(v)@ == old(v)@.take(lo as int) + stable_sorted(old(v)@.subrange(lo as int, hi as int))
            + old(v)@.skip(hi as int),
{
    let ghost orig = v@;
    let ghost s = orig.subrange(lo as int, hi as int);
    let mut buckets: Vec<Vec<Color>> = Vec::new();
    let mut k: usize = 0;
    while k < 766
        invariant
            k <= 766,
            buckets.len() == k,
            forall|j: int| 0 <= j < k ==> (#[trigger] buckets@[j])@ == Seq::<Color>::empty(),
        decreases 766 - k,
    {
        buckets.push(Vec::new());
        k = k + 1;
    }
    proof {
        assert forall|j: int| 0 <= j < 766 implies (#[trigger] buckets@[j])@
            == brightness_class(orig.subrange(lo as int, lo as int), j) by {
            lemma_class_empty(j);
            assert(orig.subrange(lo as int, lo as int) =~= Seq::<Color>::empty());
        }
    }
    let mut i: usize = lo;
    while i < hi
        invariant
            lo <= i <= hi,
            hi <= v.len(),
            v@ == orig,
            buckets.len() == 766,
            forall|j: int|
                0 <= j < 766 ==> (#[trigger] buckets@[j])@ == brightness_class(
                    orig.subrange(lo as int, i as int),
                    j,
                ),
        decreases hi - i,
    {
        let c = v[i];
        let key = c.channel_sum() as usize;
        let mut bucket: Vec<Color> = Vec::new();
        buckets.set_and_swap(key, &mut bucket);
        bucket.push(c);
        buckets.set_and_swap(key, &mut bucket);
        proof {
            let prefix = orig.subrange(lo as int, i as int);
            assert(orig.subrange(lo as int, i + 1) =~= prefix.push(c));
            assert forall|j: int| 0 <= j < 766 implies (#[trigger] buckets@[j])@
                == brightness_class(orig.subrange(lo as int, i + 1), j) by {
                prefix.lemma_filter_push(c, has_brightness(j));
            }
        }
        i = i + 1;
    }
    assert(orig.subrange(lo as int, hi as int) == s);
    proof {
        lemma_stable_sorted_multiset(s);
        lemma_classes_split(s, 0);
        assert(classes_below(s, 0) =~= Seq::<Color>::empty());
    }
    let mut idx: usize = lo;
    let mut k: usize = 0;
    while k < 766
        invariant
            k <= 766,
            lo <= idx <= hi,
            hi <= v.len(),
            v.len() == orig.len(),
            s == orig.subrange(lo as int, hi as int),
            buckets.len() == 766,
            forall|j: int| k <= j < 766 ==> (#[trigger] buckets@[j])@ == brightness_class(s, j),
            forall|x: int| 0 <= x < lo || hi <= x < v.len() ==> #[trigger] v@[x] == orig[x],
            v@.subrange(lo as int, idx as int) == classes_below(s, k as int),
            idx - lo + classes_from(s, k as int).len() == hi - lo,
        decreases 766 - k,
    {
        let mut bucket: Vec<Color> = Vec::new();
        buckets.set_and_swap(k, &mut bucket);
        let ghost base = idx as int;
        proof {
            assert(bucket@ == brightness_class(s, k as int));
            assert(classes_from(s, k as int) == bucket@ + classes_from(s, k + 1));
        }
        let mut j: usize = 0;
        while j < bucket.len()
            invariant
                j <= bucket.len(),
                idx == base + j,
                lo <= base,
                hi <= v.len(),
                v.len() == orig.len(),
                base - lo + bucket.len() + classes_from(s, k + 1).len() == hi - lo,
                forall|x: int| 0 <= x < lo || hi <= x < v.len() ==> #[trigger] v@[x] == orig[x],
                v@.subrange(lo as int, idx as int) == classes_below(s, k as int) + bucket@.take(
                    j as int,
                ),
            decreases bucket.len() - j,
        {
            let ghost before = v@;
            v.set(idx, bucket[j]);
            proof {
                assert(v@.subrange(lo as int, idx + 1) =~= before.subrange(lo as int, idx as int)
                    .push(bucket@[j as int]));
                assert(bucket@.take(j + 1) =~= bucket@.take(j as int).push(bucket@[j as int]));
            }
            idx = idx + 1;
            j = j + 1;
        }
        proof {
            assert(bucket@.take(bucket.len() as int) =~= bucket@);
            assert(classes_below(s, k + 1) == classes_below(s, k as int) + brightness_class(
                s,
                k as int,
            ));
        }
        k = k + 1;
    }
    proof {
        lemma_classes_split(s, 766);
        assert(classes_from(s, 766) =~= Seq::<Color>::empty());
        assert(classes_below(s, 766) + Seq::<Color>::empty() =~= classes_below(s, 766));
        assert(v@ =~= orig.take(lo as int) + stable_sorted(s) + orig.skip(hi as int));
    }
}

/// Sorts `v[lo..hi]` by brightness, keeping colors of equal brightness in
/// their order; the rest of `v` is left as it is.
pub fn sort_by_brightness(v: &mut Vec<Color>, lo: usize, hi: usize)
    requires
        lo <= hi <= old(v).len(),
    ensures
        final(v)@ == old(v)@.take(lo as int) + stable_sorted(old(v)@.subrange(lo as int, hi as int))
            + old(v)@.skip(hi as int),
{
    if hi - lo < 64 {
        insertion_sort(v, lo, hi);
    } else {
        bucket_sort(v, lo, hi);
    }
}

} // verus!
