//! A stable sort by key, stated over sequences.
//!
//! The library orders files, keys and directories by keys built of texts
//! and numbers, as `slice::sort_by` does with a comparator: the result is
//! ordered by key and elements with equal keys keep their relative order.
use vstd::prelude::*;

verus! {

/// A type whose values are ordered by a key: `key_le_spec` is a total
/// preorder (total and transitive).
pub trait SortKey: Sized {
    /// The key of `self` is no greater than the key of `other`.
    spec fn key_le_spec(self, other: Self) -> bool;

    /// Any two keys are comparable.
    proof fn lemma_key_le_total(a: Self, b: Self)
        ensures
            a.key_le_spec(b) || b.key_le_spec(a),
    ;

    /// The order on keys is transitive.
    proof fn lemma_key_le_transitive(a: Self, b: Self, c: Self)
        requires
            a.key_le_spec(b),
            b.key_le_spec(c),
        ensures
            a.key_le_spec(c),
    ;

    /// Whether the key of `self` is no greater than the key of `other`.
    fn key_le(&self, other: &Self) -> (r: bool)
        ensures
            r == self.key_le_spec(*other),
    ;
}

/// `a` and `b` have equal keys.
pub open spec fn same_key<T: SortKey>(a: T, b: T) -> bool {
    a.key_le_spec(b) && b.key_le_spec(a)
}

/// The elements of `s` whose key equals the key of `x`, in their order in `s`.
pub open spec fn key_class<T: SortKey>(s: Seq<T>, x: T) -> Seq<T> {
    s.filter(|y: T| same_key(x, y))
}

/// `s` is ordered by key.
pub open spec fn sorted_by_key<T: SortKey>(s: Seq<T>) -> bool {
    forall|i: int, j: int| 0 <= i < j < s.len() ==> #[trigger] s[i].key_le_spec(#[trigger] s[j])
}

/// `out` is `input` sorted stably by key: ordered by key, and for every key
/// the elements with that key appear in the same order as in `input`.
pub open spec fn stable_sort_of<T: SortKey>(out: Seq<T>, input: Seq<T>) -> bool {
    &&& sorted_by_key(out)
    &&& forall|x: T| #[trigger] key_class(out, x) == key_class(input, x)
}

/// Filtering a sequence none of whose elements satisfy the predicate
/// gives the empty sequence.
proof fn lemma_filter_none<T>(s: Seq<T>, p: spec_fn(T) -> bool)
    requires
        forall|i: int| 0 <= i < s.len() ==> !p(s[i]),
    ensures
        s.filter(p) =~= Seq::<T>::empty(),
    decreases s.len(),
{
    reveal(Seq::filter);
    if s.len() > 0 {
        lemma_filter_none(s.drop_last(), p);
    }
}

/// One more element of the input adds it to its own key class only.
proof fn lemma_class_take_succ<T: SortKey>(s: Seq<T>, i: int, x: T)
    requires
        0 <= i < s.len(),
    ensures
        key_class(s.take(i + 1), x) == if same_key(x, s[i]) {
            key_class(s.take(i), x).push(s[i])
        } else {
            key_class(s.take(i), x)
        },
{
    reveal(Seq::filter);
    assert(s.take(i + 1).drop_last() =~= s.take(i));
}

/// Inserting `e` in front of elements whose keys are all greater appends it
/// to its own key class and leaves the other classes as they were.
proof fn lemma_class_insert<T: SortKey>(s: Seq<T>, p: int, e: T, x: T)
    requires
        0 <= p <= s.len(),
        forall|q: int| p <= q < s.len() ==> !(#[trigger] s[q]).key_le_spec(e),
    ensures
        key_class(s.insert(p, e), x) == if same_key(x, e) {
            key_class(s, x).push(e)
        } else {
            key_class(s, x)
        },
{
    let pred = |y: T| same_key(x, y);
    let front = s.take(p);
    let back = s.skip(p);
    assert(s =~= front + back);
    assert(s.insert(p, e) =~= front + seq![e] + back);
    Seq::filter_distributes_over_add(front, back, pred);
    Seq::filter_distributes_over_add(front + seq![e], back, pred);
    Seq::filter_distributes_over_add(front, seq![e], pred);
    reveal(Seq::filter);
    assert(seq![e].drop_last() =~= Seq::<T>::empty());
    if same_key(x, e) {
        assert forall|q: int| 0 <= q < back.len() implies !pred(back[q]) by {
            if pred(back[q]) {
                T::lemma_key_le_transitive(back[q], x, e);
            }
        }
        lemma_filter_none(back, pred);
        assert(key_class(s.insert(p, e), x) =~= front.filter(pred).push(e));
        assert(key_class(s, x) =~= front.filter(pred));
    } else {
        assert(seq![e].last() == e);
        assert(Seq::<T>::empty().filter(pred) =~= Seq::<T>::empty());
        assert(seq![e].filter(pred) =~= Seq::<T>::empty());
        assert(key_class(s.insert(p, e), x) =~= front.filter(pred) + back.filter(pred));
    }
}

/// `v` sorted stably by key.
pub fn sort_by_key<T: SortKey>(v: Vec<T>) -> (out: Vec<T>)
    ensures
        stable_sort_of(out@, v@),
        out@.len() == v@.len(),
{
    let ghost input = v@;
    let mut rest = v;
    let mut out: Vec<T> = Vec::new();
    let ghost mut i: int = 0;
    assert(input.skip(0) =~= input);
    assert forall|x: T| #[trigger] key_class(out@, x) == key_class(input.take(0), x) by {
        reveal(Seq::filter);
        assert(input.take(0) =~= Seq::<T>::empty());
        assert(out@ =~= Seq::<T>::empty());
    }
    while rest.len() > 0
        invariant
            0 <= i <= input.len(),
            rest@ == input.skip(i),
            out@.len() == i,
            sorted_by_key(out@),
            forall|x: T| #[trigger] key_class(out@, x) == key_class(input.take(i), x),
        decreases rest.len(),
    {
        let e = rest.remove(0);
        assert(e == input[i]);
        let mut p: usize = 0;
        while p < out.len() && out[p].key_le(&e)
            invariant
                p <= out@.len(),
                forall|q: int| 0 <= q < p ==> (#[trigger] out@[q]).key_le_spec(e),
            decreases out.len() - p,
        {
            p += 1;
        }
        let ghost before = out@;
        proof {
            assert forall|q: int| p <= q < before.len() implies !(#[trigger] before[q]).key_le_spec(
                e,
            ) by {
                if before[q].key_le_spec(e) {
                    T::lemma_key_le_transitive(before[p as int], before[q], e);
                }
            }
        }
        out.insert(p, e);
        proof {
            assert(out@ == before.insert(p as int, e));
            assert forall|a: int, b: int| 0 <= a < b < out@.len() implies #[trigger] out@[a].key_le_spec(
                #[trigger] out@[b],
            ) by {
                if b < p {
                } else if b == p {
                    assert(out@[a] == before[a]);
                } else if a < p {
                    assert(out@[a] == before[a]);
                    assert(out@[b] == before[b - 1]);
                    T::lemma_key_le_total(e, before[b - 1]);
                    T::lemma_key_le_transitive(before[a], e, before[b - 1]);
                } else if a == p {
                    assert(out@[b] == before[b - 1]);
                    T::lemma_key_le_total(e, before[b - 1]);
                } else {
                    assert(out@[a] == before[a - 1]);
                    assert(out@[b] == before[b - 1]);
                }
            }
            assert forall|x: T| #[trigger] key_class(out@, x) == key_class(input.take(i + 1), x) by {
                lemma_class_insert(before, p as int, e, x);
                lemma_class_take_succ(input, i, x);
            }
            assert(rest@ =~= input.skip(i + 1));
            i = i + 1;
        }
    }
    assert(input.take(i) =~= input);
    out
}

/// An element of a stable sort's result comes from its input.
pub proof fn lemma_stable_sort_contains<T: SortKey>(out: Seq<T>, input: Seq<T>, k: int)
    requires
        stable_sort_of(out, input),
        0 <= k < out.len(),
    ensures
        input.contains(out[k]),
{
    let x = out[k];
    T::lemma_key_le_total(x, x);
    let pred = |y: T| same_key(x, y);
    reveal(Seq::filter);
    out.lemma_filter_contains(pred, k);
    assert(key_class(out, x) == key_class(input, x));
    assert(input.filter(pred).contains(x));
    lemma_filter_subset(input, pred, x);
}

/// An element kept by a filter is an element of the sequence.
proof fn lemma_filter_subset<T>(s: Seq<T>, p: spec_fn(T) -> bool, x: T)
    requires
        s.filter(p).contains(x),
    ensures
        s.contains(x),
    decreases s.len(),
{
    reveal(Seq::filter);
    if s.len() > 0 {
        let rest = s.drop_last().filter(p);
        if p(s.last()) && x == s.last() {
            assert(s[s.len() - 1] == x);
        } else {
            if p(s.last()) {
                let j = choose|j: int| 0 <= j < s.filter(p).len() && s.filter(p)[j] == x;
                assert(rest[j] == x);
            }
            assert(rest.contains(x));
            lemma_filter_subset(s.drop_last(), p, x);
            let j = choose|j: int| 0 <= j < s.drop_last().len() && s.drop_last()[j] == x;
            assert(s[j] == x);
        }
    }
}

/// An element of a stable sort's input is in its result.
pub proof fn lemma_stable_sort_keeps<T: SortKey>(out: Seq<T>, input: Seq<T>, k: int)
    requires
        stable_sort_of(out, input),
        0 <= k < input.len(),
    ensures
        out.contains(input[k]),
{
    let x = input[k];
    T::lemma_key_le_total(x, x);
    let pred = |y: T| same_key(x, y);
    input.lemma_filter_contains(pred, k);
    assert(key_class(out, x) == key_class(input, x));
    assert(out.filter(pred).contains(x));
    lemma_filter_subset(out, pred, x);
}

} // verus!
