//! The ordering that the trees rely on, and ordered sequences.
//!
//! Payloads are compared with `<` and `>` only. Two values that are neither
//! below nor above each other are *equivalent*; equivalence need not be
//! equality (a map entry is equivalent to every entry with the same key).
//!
//! A tree is described by the sequence of its payloads from left to right.
//! The functions `find`, `merged` and `without` say what lookup, insertion
//! and removal do to such a sequence.

use core::cmp::Ordering;
use vstd::prelude::*;
use vstd::std_specs::cmp::PartialOrdSpec;

verus! {

/// `a` orders strictly below `b`.
pub open spec fn below<T: PartialOrd<Q>, Q>(a: T, b: Q) -> bool {
    a.partial_cmp_spec(&b) == Some(Ordering::Less)
}

/// `a` orders strictly above `b`.
pub open spec fn above<T: PartialOrd<Q>, Q>(a: T, b: Q) -> bool {
    a.partial_cmp_spec(&b) == Some(Ordering::Greater)
}

/// The executable comparisons of `T` against `Q` return what `below` and
/// `above` say.
pub open spec fn comparable<T: PartialOrd<Q>, Q>() -> bool {
    T::obeys_partial_cmp_spec()
}

/// `a` is neither below nor above `b`.
pub open spec fn same<T: PartialOrd<Q>, Q>(a: T, b: Q) -> bool {
    !below(a, b) && !above(a, b)
}

/// `T` is ordered by a strict weak order: `above` is the converse of
/// `below`, `below` is asymmetric, and whenever `a` is below `b`, every `c`
/// has `a` below it or is itself below `b`.
pub open spec fn strict_order<T: PartialOrd>() -> bool {
    &&& comparable::<T, T>()
    &&& forall|a: T, b: T| #[trigger] above(a, b) <==> below(b, a)
    &&& forall|a: T, b: T| #[trigger] below(a, b) ==> !below(b, a)
    &&& forall|a: T, b: T, c: T|
        #![trigger below(a, b), below(a, c)]
        #![trigger below(a, b), below(c, b)]
        below(a, b) ==> below(a, c) || below(c, b)
}

/// Values of `Q` can be looked up among values of `T`: whenever `a` is below
/// `b` in the order of `T`, every `q` has `a` below it or `b` above it. Where
/// this holds, the payloads below `q`, those equivalent to it and those above
/// it follow each other in an ascending sequence, and at most one payload is
/// equivalent to `q`.
pub open spec fn probe_order<T: PartialOrd<Q> + PartialOrd, Q>() -> bool {
    &&& comparable::<T, Q>()
    &&& forall|a: T, b: T, q: Q|
        #![trigger below::<T, T>(a, b), below::<T, Q>(a, q)]
        #![trigger below::<T, T>(a, b), above::<T, Q>(b, q)]
        below::<T, T>(a, b) ==> below::<T, Q>(a, q) || above::<T, Q>(b, q)
}

/// A sequence is strictly ascending.
pub open spec fn ascending<T: PartialOrd>(s: Seq<T>) -> bool {
    forall|i: int, j: int| 0 <= i < j < s.len() ==> below(#[trigger] s[i], #[trigger] s[j])
}

/// Some element of `s` is equivalent to `q`.
pub open spec fn holds<T: PartialOrd<Q>, Q>(s: Seq<T>, q: Q) -> bool {
    exists|i: int| 0 <= i < s.len() && same(#[trigger] s[i], q)
}

/// The first element of `s` that is equivalent to `q`.
pub open spec fn find<T: PartialOrd<Q>, Q>(s: Seq<T>, q: Q) -> Option<T>
    decreases s.len(),
{
    if s.len() == 0 {
        None
    } else if same(s[0], q) {
        Some(s[0])
    } else {
        find(s.drop_first(), q)
    }
}

/// `s` without its first element that is equivalent to `q`.
pub open spec fn without<T: PartialOrd<Q>, Q>(s: Seq<T>, q: Q) -> Seq<T>
    decreases s.len(),
{
    if s.len() == 0 {
        s
    } else if same(s[0], q) {
        s.drop_first()
    } else {
        seq![s[0]] + without(s.drop_first(), q)
    }
}

/// The first element of `s` that is not below `q`.
pub open spec fn first_not_below<T: PartialOrd<Q>, Q>(s: Seq<T>, q: Q) -> Option<T>
    decreases s.len(),
{
    if s.len() == 0 {
        None
    } else if !below(s[0], q) {
        Some(s[0])
    } else {
        first_not_below(s.drop_first(), q)
    }
}

/// The last element of `s` that is not above `q`.
pub open spec fn last_not_above<T: PartialOrd<Q>, Q>(s: Seq<T>, q: Q) -> Option<T>
    decreases s.len(),
{
    if s.len() == 0 {
        None
    } else if !above(s.last(), q) {
        Some(s.last())
    } else {
        last_not_above(s.drop_last(), q)
    }
}

/// The place of the first element of `s` that is not below `q`, or the
/// length of `s` if there is none.
pub open spec fn place_not_below<T: PartialOrd<Q>, Q>(s: Seq<T>, q: Q) -> int
    decreases s.len(),
{
    if s.len() == 0 {
        0
    } else if !below(s[0], q) {
        0
    } else {
        1 + place_not_below(s.drop_first(), q)
    }
}

/// The place of the last element of `s` that is not above `q`, or -1 if
/// there is none.
pub open spec fn place_not_above<T: PartialOrd<Q>, Q>(s: Seq<T>, q: Q) -> int
    decreases s.len(),
{
    if s.len() == 0 {
        -1
    } else if !above(s.last(), q) {
        s.len() - 1
    } else {
        place_not_above(s.drop_last(), q)
    }
}

/// The place of the first element of `s` that is equivalent to `q`, or the
/// length of `s` if there is none.
pub open spec fn place<T: PartialOrd<Q>, Q>(s: Seq<T>, q: Q) -> int
    decreases s.len(),
{
    if s.len() == 0 {
        0
    } else if same(s[0], q) {
        0
    } else {
        1 + place(s.drop_first(), q)
    }
}

/// `s` with `x` placed before the first element that `x` is not above. Where
/// that element is equivalent to `x`, `x` takes its place if `replace` is
/// set, and `s` is left unchanged otherwise.
pub open spec fn merged<T: PartialOrd>(s: Seq<T>, x: T, replace: bool) -> Seq<T>
    decreases s.len(),
{
    if s.len() == 0 {
        seq![x]
    } else if below(x, s[0]) {
        seq![x] + s
    } else if above(x, s[0]) {
        seq![s[0]] + merged(s.drop_first(), x, replace)
    } else if replace {
        seq![x] + s.drop_first()
    } else {
        s
    }
}

/// `s` with the elements of `items` merged into it one after the other, from
/// the first to the last.
pub open spec fn merged_all<T: PartialOrd>(s: Seq<T>, items: Seq<T>, replace: bool) -> Seq<T>
    decreases items.len(),
{
    if items.len() == 0 {
        s
    } else {
        merged_all(merged(s, items[0], replace), items.drop_first(), replace)
    }
}

/// The first element of `s` that `x` is not above, if it is equivalent to `x`.
pub open spec fn met<T: PartialOrd>(s: Seq<T>, x: T) -> Option<T>
    decreases s.len(),
{
    if s.len() == 0 {
        None
    } else if below(x, s[0]) {
        None
    } else if above(x, s[0]) {
        met(s.drop_first(), x)
    } else {
        Some(s[0])
    }
}

/// `below` is transitive in a strict order.
pub proof fn lemma_below_transitive<T: PartialOrd>(a: T, b: T, c: T)
    requires
        strict_order::<T>(),
        below(a, b),
        below(b, c),
    ensures
        below(a, c),
{
}

/// The parts of an ascending sequence `l ++ [c] ++ r` are ascending, `c` is
/// above all of `l` and below all of `r`.
pub proof fn lemma_ascending_parts<T: PartialOrd>(l: Seq<T>, c: T, r: Seq<T>)
    requires
        ascending(l.push(c) + r),
    ensures
        ascending(l),
        ascending(r),
        forall|i: int| 0 <= i < l.len() ==> below(#[trigger] l[i], c),
        forall|j: int| 0 <= j < r.len() ==> below(c, #[trigger] r[j]),
{
    let s = l.push(c) + r;
    let n = l.len() as int;
    assert(s[n] == c);
    assert forall|i: int, j: int| 0 <= i < j < l.len() implies below(
        #[trigger] l[i],
        #[trigger] l[j],
    ) by {
        assert(s[i] == l[i] && s[j] == l[j]);
    }
    assert forall|i: int, j: int| 0 <= i < j < r.len() implies below(
        #[trigger] r[i],
        #[trigger] r[j],
    ) by {
        assert(s[n + 1 + i] == r[i] && s[n + 1 + j] == r[j]);
    }
    assert forall|i: int| 0 <= i < l.len() implies below(#[trigger] l[i], c) by {
        assert(s[i] == l[i]);
    }
    assert forall|j: int| 0 <= j < r.len() implies below(c, #[trigger] r[j]) by {
        assert(s[n + 1 + j] == r[j]);
    }
}

/// Merging a value below `c` into `l ++ [c] ++ r` merges it into `l`.
pub proof fn lemma_merged_left<T: PartialOrd>(l: Seq<T>, c: T, r: Seq<T>, x: T, replace: bool)
    requires
        below(x, c),
    ensures
        merged(l.push(c) + r, x, replace) == merged(l, x, replace).push(c) + r,
        met(l.push(c) + r, x) == met(l, x),
    decreases l.len(),
{
    let s = l.push(c) + r;
    if l.len() == 0 {
        assert(s[0] == c);
        assert(merged(l, x, replace) =~= seq![x]);
        assert(seq![x] + s =~= seq![x].push(c) + r);
    } else {
        assert(s[0] == l[0]);
        assert(s.drop_first() =~= l.drop_first().push(c) + r);
        lemma_merged_left(l.drop_first(), c, r, x, replace);
        if below(x, l[0]) {
            assert(seq![x] + s =~= (seq![x] + l).push(c) + r);
        } else if above(x, l[0]) {
            let m = merged(l.drop_first(), x, replace);
            assert(seq![l[0]] + (m.push(c) + r) =~= (seq![l[0]] + m).push(c) + r);
        } else if replace {
            assert(seq![x] + s.drop_first() =~= (seq![x] + l.drop_first()).push(c) + r);
        }
    }
}

/// Merging a value above `c` and all of `l` into `l ++ [c] ++ r` merges it
/// into `r`.
pub proof fn lemma_merged_right<T: PartialOrd>(l: Seq<T>, c: T, r: Seq<T>, x: T, replace: bool)
    requires
        above(x, c),
        forall|i: int| 0 <= i < l.len() ==> above(x, #[trigger] l[i]),
    ensures
        merged(l.push(c) + r, x, replace) == l.push(c) + merged(r, x, replace),
        met(l.push(c) + r, x) == met(r, x),
    decreases l.len(),
{
    let s = l.push(c) + r;
    if l.len() == 0 {
        assert(s[0] == c);
        assert(s.drop_first() =~= r);
        assert(seq![c] + merged(r, x, replace) =~= l.push(c) + merged(r, x, replace));
    } else {
        assert(s[0] == l[0]);
        assert(above(x, l[0]));
        assert(s.drop_first() =~= l.drop_first().push(c) + r);
        assert forall|i: int| 0 <= i < l.drop_first().len() implies above(
            x,
            #[trigger] l.drop_first()[i],
        ) by {
            assert(l.drop_first()[i] == l[i + 1]);
        }
        lemma_merged_right(l.drop_first(), c, r, x, replace);
        let m = merged(r, x, replace);
        assert(seq![l[0]] + (l.drop_first().push(c) + m) =~= l.push(c) + m);
    }
}

/// Merging a value equivalent to `c` and above all of `l` into
/// `l ++ [c] ++ r` meets `c`.
pub proof fn lemma_merged_here<T: PartialOrd>(l: Seq<T>, c: T, r: Seq<T>, x: T, replace: bool)
    requires
        !below(x, c),
        !above(x, c),
        forall|i: int| 0 <= i < l.len() ==> above(x, #[trigger] l[i]),
    ensures
        merged(l.push(c) + r, x, replace) == if replace {
            l.push(x) + r
        } else {
            l.push(c) + r
        },
        met(l.push(c) + r, x) == Some(c),
    decreases l.len(),
{
    let s = l.push(c) + r;
    if l.len() == 0 {
        assert(s[0] == c);
        assert(s.drop_first() =~= r);
        assert(seq![x] + r =~= l.push(x) + r);
    } else {
        assert(s[0] == l[0]);
        assert(above(x, l[0]));
        assert(s.drop_first() =~= l.drop_first().push(c) + r);
        assert forall|i: int| 0 <= i < l.drop_first().len() implies above(
            x,
            #[trigger] l.drop_first()[i],
        ) by {
            assert(l.drop_first()[i] == l[i + 1]);
        }
        lemma_merged_here(l.drop_first(), c, r, x, replace);
        assert(seq![l[0]] + (l.drop_first().push(x) + r) =~= l.push(x) + r);
        assert(seq![l[0]] + (l.drop_first().push(c) + r) =~= l.push(c) + r);
    }
}

/// Every element of a merged sequence is the merged value or an element of
/// the sequence it was merged into.
pub proof fn lemma_merged_members<T: PartialOrd>(s: Seq<T>, x: T, replace: bool)
    ensures
        forall|k: int|
            0 <= k < merged(s, x, replace).len() ==> #[trigger] merged(s, x, replace)[k] == x
                || s.contains(merged(s, x, replace)[k]),
    decreases s.len(),
{
    let m = merged(s, x, replace);
    if s.len() == 0 {
        // `m` is `x` alone
    } else if below(x, s[0]) {
        assert forall|k: int| 0 <= k < m.len() implies #[trigger] m[k] == x || s.contains(
            m[k],
        ) by {
            if k > 0 {
                assert(m[k] == s[k - 1]);
            }
        }
    } else if above(x, s[0]) {
        let t = s.drop_first();
        let mt = merged(t, x, replace);
        lemma_merged_members(t, x, replace);
        assert forall|k: int| 0 <= k < m.len() implies #[trigger] m[k] == x || s.contains(
            m[k],
        ) by {
            if k == 0 {
                assert(m[0] == s[0]);
            } else {
                assert(m[k] == mt[k - 1]);
                if mt[k - 1] != x {
                    let j = choose|j: int| 0 <= j < t.len() && t[j] == mt[k - 1];
                    assert(s[j + 1] == t[j]);
                }
            }
        }
    } else if replace {
        assert forall|k: int| 0 <= k < m.len() implies #[trigger] m[k] == x || s.contains(
            m[k],
        ) by {
            if k > 0 {
                assert(m[k] == s[k]);
            }
        }
    } else {
        assert forall|k: int| 0 <= k < m.len() implies #[trigger] m[k] == x || s.contains(
            m[k],
        ) by {
            assert(m[k] == s[k]);
        }
    }
}

/// Merging a value into an ascending sequence leaves it ascending.
pub proof fn lemma_merged_ascending<T: PartialOrd>(s: Seq<T>, x: T, replace: bool)
    requires
        strict_order::<T>(),
        ascending(s),
    ensures
        ascending(merged(s, x, replace)),
    decreases s.len(),
{
    let m = merged(s, x, replace);
    if s.len() == 0 {
        // `m` is `x` alone
    } else if below(x, s[0]) {
        assert forall|i: int, j: int| 0 <= i < j < m.len() implies below(
            #[trigger] m[i],
            #[trigger] m[j],
        ) by {
            assert(m[j] == s[j - 1]);
            if i == 0 {
                if j > 1 {
                    assert(below(s[0], s[j - 1]));
                    lemma_below_transitive(x, s[0], s[j - 1]);
                }
            } else {
                assert(m[i] == s[i - 1]);
            }
        }
    } else if above(x, s[0]) {
        let t = s.drop_first();
        let mt = merged(t, x, replace);
        assert forall|i: int, j: int| 0 <= i < j < t.len() implies below(
            #[trigger] t[i],
            #[trigger] t[j],
        ) by {
            assert(t[i] == s[i + 1] && t[j] == s[j + 1]);
        }
        lemma_merged_ascending(t, x, replace);
        lemma_merged_members(t, x, replace);
        assert forall|i: int, j: int| 0 <= i < j < m.len() implies below(
            #[trigger] m[i],
            #[trigger] m[j],
        ) by {
            assert(m[j] == mt[j - 1]);
            if i == 0 {
                assert(m[0] == s[0]);
                if mt[j - 1] != x {
                    let k = choose|k: int| 0 <= k < t.len() && t[k] == mt[j - 1];
                    assert(s[k + 1] == t[k]);
                    assert(below(s[0], s[k + 1]));
                }
            } else {
                assert(m[i] == mt[i - 1]);
            }
        }
    } else if replace {
        assert forall|i: int, j: int| 0 <= i < j < m.len() implies below(
            #[trigger] m[i],
            #[trigger] m[j],
        ) by {
            assert(m[j] == s[j]);
            if i == 0 {
                assert(below(s[0], s[j]));
                assert(below(s[0], x) || below(x, s[j]));
            } else {
                assert(m[i] == s[i]);
            }
        }
    }
}

/// Looking up in `a ++ b` looks up in `a`, and in `b` only if `a` holds no
/// equivalent element.
pub proof fn lemma_lookup_concat<T: PartialOrd<Q>, Q>(a: Seq<T>, b: Seq<T>, q: Q)
    ensures
        holds(a + b, q) == (holds(a, q) || holds(b, q)),
        find(a + b, q) == if holds(a, q) {
            find(a, q)
        } else {
            find(b, q)
        },
        without(a + b, q) == if holds(a, q) {
            without(a, q) + b
        } else {
            a + without(b, q)
        },
    decreases a.len(),
{
    let s = a + b;
    if holds(a, q) {
        let i = choose|i: int| 0 <= i < a.len() && same(#[trigger] a[i], q);
        assert(s[i] == a[i]);
    }
    if holds(b, q) {
        let j = choose|j: int| 0 <= j < b.len() && same(#[trigger] b[j], q);
        assert(s[a.len() + j] == b[j]);
    }
    if holds(s, q) {
        let k = choose|k: int| 0 <= k < s.len() && same(#[trigger] s[k], q);
        if k < a.len() {
            assert(a[k] == s[k]);
        } else {
            assert(b[k - a.len()] == s[k]);
        }
    }
    if a.len() == 0 {
        assert(s =~= b);
        assert(a + without(b, q) =~= without(b, q));
    } else {
        assert(s[0] == a[0]);
        let t = a.drop_first();
        assert(s.drop_first() =~= t + b);
        lemma_lookup_concat(t, b, q);
        if same(a[0], q) {
            assert(holds(a, q));
        } else {
            if holds(a, q) {
                let i = choose|i: int| 0 <= i < a.len() && same(#[trigger] a[i], q);
                assert(t[i - 1] == a[i]);
            }
            if holds(t, q) {
                let i = choose|i: int| 0 <= i < t.len() && same(#[trigger] t[i], q);
                assert(a[i + 1] == t[i]);
                assert(seq![a[0]] + (without(t, q) + b) =~= (seq![a[0]] + without(t, q)) + b);
            } else {
                assert(seq![a[0]] + (t + without(b, q)) =~= a + without(b, q));
            }
        }
    }
}

/// A sequence that holds no element equivalent to `q` gives nothing up.
pub proof fn lemma_lookup_absent<T: PartialOrd<Q>, Q>(s: Seq<T>, q: Q)
    requires
        !holds(s, q),
    ensures
        find(s, q) is None,
        without(s, q) == s,
{
    lemma_lookup_concat(s, Seq::<T>::empty(), q);
}

/// Where `s` holds an element equivalent to `q`, `find` returns the first
/// such element and `without` removes it.
pub proof fn lemma_lookup_present<T: PartialOrd<Q>, Q>(s: Seq<T>, q: Q) -> (i: int)
    requires
        holds(s, q),
    ensures
        0 <= i < s.len(),
        same(s[i], q),
        forall|j: int| 0 <= j < i ==> !same(#[trigger] s[j], q),
        find(s, q) == Some(s[i]),
        without(s, q) == s.remove(i),
    decreases s.len(),
{
    let k = choose|k: int| 0 <= k < s.len() && same(#[trigger] s[k], q);
    if same(s[0], q) {
        0
    } else {
        let t = s.drop_first();
        assert(t[k - 1] == s[k]);
        let i = lemma_lookup_present(t, q);
        assert forall|j: int| 0 <= j < i + 1 implies !same(#[trigger] s[j], q) by {
            if j > 0 {
                assert(t[j - 1] == s[j]);
            }
        }
        i + 1
    }
}

/// An ascending sequence is still ascending without one of its elements.
pub proof fn lemma_without_ascending<T: PartialOrd<Q> + PartialOrd, Q>(s: Seq<T>, q: Q)
    requires
        ascending(s),
    ensures
        ascending(without(s, q)),
{
    if holds(s, q) {
        let i = lemma_lookup_present(s, q);
        let w = s.remove(i);
        assert forall|a: int, b: int| 0 <= a < b < w.len() implies below(
            #[trigger] w[a],
            #[trigger] w[b],
        ) by {
            let a0 = if a < i { a } else { a + 1 };
            let b0 = if b < i { b } else { b + 1 };
            assert(w[a] == s[a0] && w[b] == s[b0]);
        }
    } else {
        lemma_lookup_absent(s, q);
    }
}

/// In an ascending sequence `l ++ [c] ++ r`, the side of `c` that a probe
/// points away from holds nothing equivalent to the probe.
pub proof fn lemma_probe_sides<T: PartialOrd<Q> + PartialOrd, Q>(
    l: Seq<T>,
    c: T,
    r: Seq<T>,
    q: Q,
)
    requires
        probe_order::<T, Q>(),
        ascending(l.push(c) + r),
    ensures
        !below(c, q) ==> !holds(r, q),
        !above(c, q) ==> !holds(l, q),
{
    lemma_ascending_parts(l, c, r);
    if !below(c, q) && holds(r, q) {
        let j = choose|j: int| 0 <= j < r.len() && same(#[trigger] r[j], q);
        assert(below::<T, T>(c, r[j]));
        assert(below::<T, Q>(c, q) || above::<T, Q>(r[j], q));
    }
    if !above(c, q) && holds(l, q) {
        let i = choose|i: int| 0 <= i < l.len() && same(#[trigger] l[i], q);
        assert(below::<T, T>(l[i], c));
        assert(below::<T, Q>(l[i], q) || above::<T, Q>(c, q));
    }
}

/// Looking up a probe in an ascending sequence `l ++ [c] ++ r` looks at `c`
/// and goes on in `l` or in `r`, as a search tree does.
pub proof fn lemma_lookup_descends<T: PartialOrd<Q> + PartialOrd, Q>(
    l: Seq<T>,
    c: T,
    r: Seq<T>,
    q: Q,
)
    requires
        probe_order::<T, Q>(),
        ascending(l.push(c) + r),
    ensures
        above(c, q) ==> find(l.push(c) + r, q) == find(l, q) && without(l.push(c) + r, q)
            == without(l, q).push(c) + r,
        below(c, q) ==> find(l.push(c) + r, q) == find(r, q) && without(l.push(c) + r, q)
            == l.push(c) + without(r, q),
        same(c, q) ==> find(l.push(c) + r, q) == Some(c) && without(l.push(c) + r, q) == l + r,
{
    let m = seq![c];
    lemma_probe_sides(l, c, r, q);
    lemma_lookup_concat(l.push(c), r, q);
    lemma_lookup_concat(l, m, q);
    assert(l + m =~= l.push(c));
    if !holds(l, q) {
        lemma_lookup_absent(l, q);
    }
    if !holds(r, q) {
        lemma_lookup_absent(r, q);
    }
}

/// The first element not below `q` in `a ++ b` is that of `a`, or that of `b`
/// where all of `a` is below `q`.
pub proof fn lemma_first_not_below_concat<T: PartialOrd<Q>, Q>(a: Seq<T>, b: Seq<T>, q: Q)
    ensures
        first_not_below(a + b, q) == if first_not_below(a, q) is Some {
            first_not_below(a, q)
        } else {
            first_not_below(b, q)
        },
        first_not_below(a, q) is None <==> forall|i: int|
            0 <= i < a.len() ==> below(#[trigger] a[i], q),
    decreases a.len(),
{
    let s = a + b;
    if a.len() == 0 {
        assert(s =~= b);
    } else {
        let t = a.drop_first();
        assert(s[0] == a[0]);
        assert(s.drop_first() =~= t + b);
        lemma_first_not_below_concat(t, b, q);
        if below(a[0], q) {
            if first_not_below(t, q) is None {
                assert forall|i: int| 0 <= i < a.len() implies below(#[trigger] a[i], q) by {
                    if i > 0 {
                        assert(t[i - 1] == a[i]);
                    }
                }
            } else {
                if forall|i: int| 0 <= i < a.len() ==> below(#[trigger] a[i], q) {
                    assert forall|i: int| 0 <= i < t.len() implies below(#[trigger] t[i], q) by {
                        assert(t[i] == a[i + 1]);
                    }
                }
            }
        }
    }
}

/// The last element not above `q` in `a ++ b` is that of `b`, or that of `a`
/// where all of `b` is above `q`.
pub proof fn lemma_last_not_above_concat<T: PartialOrd<Q>, Q>(a: Seq<T>, b: Seq<T>, q: Q)
    ensures
        last_not_above(a + b, q) == if last_not_above(b, q) is Some {
            last_not_above(b, q)
        } else {
            last_not_above(a, q)
        },
        last_not_above(b, q) is None <==> forall|i: int|
            0 <= i < b.len() ==> above(#[trigger] b[i], q),
    decreases b.len(),
{
    let s = a + b;
    if b.len() == 0 {
        assert(s =~= a);
    } else {
        let t = b.drop_last();
        assert(s.last() == b.last());
        assert(s.drop_last() =~= a + t);
        lemma_last_not_above_concat(a, t, q);
        if above(b.last(), q) {
            if last_not_above(t, q) is None {
                assert forall|i: int| 0 <= i < b.len() implies above(#[trigger] b[i], q) by {
                    if i < t.len() {
                        assert(t[i] == b[i]);
                    }
                }
            } else {
                if forall|i: int| 0 <= i < b.len() ==> above(#[trigger] b[i], q) {
                    assert forall|i: int| 0 <= i < t.len() implies above(#[trigger] t[i], q) by {
                        assert(t[i] == b[i]);
                    }
                }
            }
        }
    }
}

/// Looking for the nearest element in an ascending sequence `l ++ [c] ++ r`
/// looks at `c` and goes on in `l` or in `r`, as a search tree does; where
/// the side it went to has no candidate, `c` is the nearest.
pub proof fn lemma_nearest_descends<T: PartialOrd<Q> + PartialOrd, Q>(
    l: Seq<T>,
    c: T,
    r: Seq<T>,
    q: Q,
)
    requires
        probe_order::<T, Q>(),
        ascending(l.push(c) + r),
    ensures
        above(c, q) ==> first_not_below(l.push(c) + r, q) == if first_not_below(l, q) is Some {
            first_not_below(l, q)
        } else {
            Some(c)
        },
        !above(c, q) ==> first_not_below(l, q) is None,
        below(c, q) ==> first_not_below(l.push(c) + r, q) == first_not_below(r, q),
        same(c, q) ==> first_not_below(l.push(c) + r, q) == Some(c),
        below(c, q) ==> last_not_above(l.push(c) + r, q) == if last_not_above(r, q) is Some {
            last_not_above(r, q)
        } else {
            Some(c)
        },
        !below(c, q) ==> last_not_above(r, q) is None,
        above(c, q) ==> last_not_above(l.push(c) + r, q) == last_not_above(l, q),
        same(c, q) ==> last_not_above(l.push(c) + r, q) == Some(c),
{
    let m = seq![c];
    let e = Seq::<T>::empty();
    lemma_ascending_parts(l, c, r);
    assert(l + m =~= l.push(c));
    assert(l.push(c) + r =~= l + (m + r));
    assert(m[0] == c && m.last() == c);
    assert(m.drop_first() =~= e && m.drop_last() =~= e);
    assert((m + r)[0] == c);
    assert((m + r).drop_first() =~= r);
    assert(l.push(c).last() == c);
    assert(l.push(c).drop_last() =~= l);
    lemma_first_not_below_concat(l, m + r, q);
    lemma_first_not_below_concat(l.push(c), r, q);
    lemma_first_not_below_concat(m, r, q);
    lemma_last_not_above_concat(l.push(c), r, q);
    lemma_last_not_above_concat(l, m, q);
    if !above(c, q) {
        assert forall|i: int| 0 <= i < l.len() implies below(#[trigger] l[i], q) by {
            assert(below::<T, T>(l[i], c));
            assert(below::<T, Q>(l[i], q) || above::<T, Q>(c, q));
        }
    }
    if !below(c, q) {
        assert forall|j: int| 0 <= j < r.len() implies above(#[trigger] r[j], q) by {
            assert(below::<T, T>(c, r[j]));
            assert(below::<T, Q>(c, q) || above::<T, Q>(r[j], q));
        }
    }
}

/// Merging adds one element where it meets no equivalent one, and none
/// where it does.
pub proof fn lemma_merged_len<T: PartialOrd>(s: Seq<T>, x: T, replace: bool)
    ensures
        merged(s, x, replace).len() == if met(s, x) is None {
            s.len() + 1
        } else {
            s.len()
        },
    decreases s.len(),
{
    if s.len() > 0 && !below(x, s[0]) && above(x, s[0]) {
        lemma_merged_len(s.drop_first(), x, replace);
    }
}

/// `find` returns an element exactly where the sequence holds an equivalent
/// one, and `without` is then shorter by one.
pub proof fn lemma_lookup_len<T: PartialOrd<Q>, Q>(s: Seq<T>, q: Q)
    ensures
        find(s, q) is Some <==> holds(s, q),
        without(s, q).len() == if holds(s, q) {
            s.len() - 1
        } else {
            s.len() as int
        },
{
    if holds(s, q) {
        lemma_lookup_present(s, q);
    } else {
        lemma_lookup_absent(s, q);
    }
}

/// `place` is where `find` finds.
pub proof fn lemma_place<T: PartialOrd<Q>, Q>(s: Seq<T>, q: Q)
    ensures
        0 <= place(s, q) <= s.len(),
        place(s, q) < s.len() <==> holds(s, q),
        find(s, q) == if place(s, q) < s.len() {
            Some(s[place(s, q)])
        } else {
            None
        },
    decreases s.len(),
{
    if s.len() > 0 {
        let t = s.drop_first();
        lemma_place(t, q);
        if !same(s[0], q) {
            if holds(s, q) {
                let i = choose|i: int| 0 <= i < s.len() && same(#[trigger] s[i], q);
                assert(t[i - 1] == s[i]);
            }
            if holds(t, q) {
                let i = choose|i: int| 0 <= i < t.len() && same(#[trigger] t[i], q);
                assert(s[i + 1] == t[i]);
            }
            if place(t, q) < t.len() {
                assert(t[place(t, q)] == s[place(t, q) + 1]);
            }
        }
    }
}

/// The place of a probe in `a ++ b` is its place in `a`, or behind `a` its
/// place in `b`.
pub proof fn lemma_place_concat<T: PartialOrd<Q>, Q>(a: Seq<T>, b: Seq<T>, q: Q)
    ensures
        place(a + b, q) == if holds(a, q) {
            place(a, q)
        } else {
            a.len() + place(b, q)
        },
    decreases a.len(),
{
    let s = a + b;
    if a.len() == 0 {
        assert(s =~= b);
    } else {
        let t = a.drop_first();
        assert(s[0] == a[0]);
        assert(s.drop_first() =~= t + b);
        lemma_place_concat(t, b, q);
        lemma_place(a, q);
        lemma_place(t, q);
    }
}

/// The place of a probe in an ascending sequence `l ++ [c] ++ r` is found by
/// looking at `c` and going on in `l` or in `r`, as a search tree does.
pub proof fn lemma_place_descends<T: PartialOrd<Q> + PartialOrd, Q>(
    l: Seq<T>,
    c: T,
    r: Seq<T>,
    q: Q,
)
    requires
        probe_order::<T, Q>(),
        ascending(l.push(c) + r),
    ensures
        above(c, q) ==> place(l.push(c) + r, q) == if holds(l, q) {
            place(l, q)
        } else {
            (l.push(c) + r).len() as int
        },
        below(c, q) ==> place(l.push(c) + r, q) == l.len() + 1 + place(r, q),
        same(c, q) ==> place(l.push(c) + r, q) == l.len(),
{
    let m = seq![c];
    lemma_probe_sides(l, c, r, q);
    lemma_place_concat(l.push(c), r, q);
    lemma_place_concat(l, m, q);
    lemma_lookup_concat(l, m, q);
    assert(l + m =~= l.push(c));
    lemma_place(r, q);
}

/// A merged sequence holds an element equivalent to the merged value: the
/// value itself, or the element that it met and that was left in place.
pub proof fn lemma_merged_holds<T: PartialOrd>(s: Seq<T>, x: T, replace: bool) -> (i: int)
    requires
        strict_order::<T>(),
    ensures
        0 <= i < merged(s, x, replace).len(),
        same(merged(s, x, replace)[i], x),
        merged(s, x, replace)[i] == if replace || met(s, x) is None {
            x
        } else {
            met(s, x)->0
        },
    decreases s.len(),
{
    if s.len() == 0 {
        0
    } else if below(x, s[0]) {
        0
    } else if above(x, s[0]) {
        let i = lemma_merged_holds(s.drop_first(), x, replace);
        i + 1
    } else {
        0
    }
}


/// `place_not_below` is where `first_not_below` finds, and in `a ++ b` it is
/// the place in `a`, or behind `a` the place in `b`.
pub proof fn lemma_place_not_below<T: PartialOrd<Q>, Q>(a: Seq<T>, b: Seq<T>, q: Q)
    ensures
        0 <= place_not_below(a, q) <= a.len(),
        first_not_below(a, q) == if place_not_below(a, q) < a.len() {
            Some(a[place_not_below(a, q)])
        } else {
            None
        },
        place_not_below(a + b, q) == if place_not_below(a, q) < a.len() {
            place_not_below(a, q)
        } else {
            a.len() + place_not_below(b, q)
        },
    decreases a.len(),
{
    let s = a + b;
    if a.len() == 0 {
        assert(s =~= b);
    } else {
        let t = a.drop_first();
        assert(s[0] == a[0]);
        assert(s.drop_first() =~= t + b);
        lemma_place_not_below(t, b, q);
        if below(a[0], q) && place_not_below(t, q) < t.len() {
            assert(t[place_not_below(t, q)] == a[place_not_below(t, q) + 1]);
        }
    }
}

/// `place_not_above` is where `last_not_above` finds, and in `a ++ b` it is
/// behind `a` the place in `b`, or the place in `a`.
pub proof fn lemma_place_not_above<T: PartialOrd<Q>, Q>(a: Seq<T>, b: Seq<T>, q: Q)
    ensures
        -1 <= place_not_above(b, q) < b.len(),
        last_not_above(b, q) == if place_not_above(b, q) >= 0 {
            Some(b[place_not_above(b, q)])
        } else {
            None
        },
        place_not_above(a + b, q) == if place_not_above(b, q) >= 0 {
            a.len() + place_not_above(b, q)
        } else {
            place_not_above(a, q)
        },
    decreases b.len(),
{
    let s = a + b;
    if b.len() == 0 {
        assert(s =~= a);
    } else {
        let t = b.drop_last();
        assert(s.last() == b.last());
        assert(s.drop_last() =~= a + t);
        lemma_place_not_above(a, t, q);
        if above(b.last(), q) && place_not_above(t, q) >= 0 {
            assert(t[place_not_above(t, q)] == b[place_not_above(t, q)]);
        }
    }
}

/// The place of the nearest element in an ascending sequence
/// `l ++ [c] ++ r` is found by looking at `c` and going on in `l` or in `r`,
/// as a search tree does; where the side it went to has no candidate, the
/// place is that of `c`.
pub proof fn lemma_nearest_place_descends<T: PartialOrd<Q> + PartialOrd, Q>(
    l: Seq<T>,
    c: T,
    r: Seq<T>,
    q: Q,
)
    requires
        probe_order::<T, Q>(),
        ascending(l.push(c) + r),
    ensures
        above(c, q) ==> place_not_below(l.push(c) + r, q) == place_not_below(l, q),
        below(c, q) ==> place_not_below(l.push(c) + r, q) == l.len() + 1 + place_not_below(r, q),
        same(c, q) ==> place_not_below(l.push(c) + r, q) == l.len(),
        below(c, q) ==> place_not_above(l.push(c) + r, q) == if place_not_above(r, q) >= 0 {
            l.len() + 1 + place_not_above(r, q)
        } else {
            l.len() as int
        },
        above(c, q) ==> place_not_above(l.push(c) + r, q) == place_not_above(l, q),
        same(c, q) ==> place_not_above(l.push(c) + r, q) == l.len(),
        0 <= place_not_below(l, q) <= l.len(),
        0 <= place_not_below(r, q) <= r.len(),
        -1 <= place_not_above(l, q) < l.len(),
        -1 <= place_not_above(r, q) < r.len(),
{
    let m = seq![c];
    let e = Seq::<T>::empty();
    lemma_nearest_descends(l, c, r, q);
    assert(l + m =~= l.push(c));
    assert(l.push(c) + r =~= l + (m + r));
    assert(m[0] == c && m.last() == c);
    assert(m.drop_first() =~= e && m.drop_last() =~= e);
    assert(place_not_below(e, q) == 0 && place_not_above(e, q) == -1);
    assert(place_not_below(m, q) == if below(c, q) { 1int } else { 0int });
    assert(place_not_above(m, q) == if above(c, q) { -1int } else { 0int });
    lemma_place_not_below(l, m + r, q);
    lemma_place_not_below(m, r, q);
    lemma_place_not_below(r, e, q);
    lemma_place_not_above(l.push(c), r, q);
    lemma_place_not_above(l, m, q);
    lemma_place_not_above(e, l, q);
    lemma_place_not_above(e, m, q);
}

} // verus!
