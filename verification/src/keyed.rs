//! Sequences keyed by text: keeping the last element for each key, as
//! collecting into a map from keys does.
use vstd::prelude::*;

use crate::text;

verus! {

broadcast use vstd::string::group_string_axioms;

/// A type whose values carry a text key.
pub trait TextKeyed: Sized {
    /// The key of `self`.
    spec fn text_key(self) -> Seq<char>;

    /// The key of `self`, as text.
    fn key_text(&self) -> (r: &str)
        ensures
            r@ == self.text_key(),
    ;

}

/// A keyed type whose values can be copied.
pub trait KeyedCopy: TextKeyed {
    /// A copy of `self`.
    fn duplicate(&self) -> (r: Self)
        ensures
            r == *self,
    ;
}

/// `k` is the last position in `entries` that holds its key.
pub open spec fn is_last_of_key<T: TextKeyed>(entries: Seq<T>, k: int) -> bool {
    forall|m: int| k < m < entries.len() ==> (#[trigger] entries[m]).text_key() != entries[k].text_key()
}

/// Some entry of `entries` equal to `x` is the last one with its key.
pub open spec fn is_last_entry<T: TextKeyed>(entries: Seq<T>, x: T) -> bool {
    exists|k: int| 0 <= k < entries.len() && x == entries[k] && is_last_of_key(entries, k)
}

/// Some entry of `out` has the key `key`.
pub open spec fn has_key<T: TextKeyed>(out: Seq<T>, key: Seq<char>) -> bool {
    exists|i: int| 0 <= i < out.len() && out[i].text_key() == key
}

/// `out` holds, for each key of `entries`, the last entry with that key,
/// in increasing order of keys.
pub open spec fn deduped_by_key<T: TextKeyed>(out: Seq<T>, entries: Seq<T>) -> bool {
    &&& forall|i: int, j: int|
        0 <= i < j < out.len() ==> text::seq_lt(#[trigger] out[i].text_key(), #[trigger] out[j].text_key())
    &&& forall|i: int| 0 <= i < out.len() ==> #[trigger] is_last_entry(entries, out[i])
    &&& forall|k: int| 0 <= k < entries.len() ==> #[trigger] has_key(out, entries[k].text_key())
}

/// Putting an entry in place of the one with the same key keeps the result
/// deduplicated for one more entry.
proof fn lemma_dedup_replace<T: TextKeyed>(
    old_out: Seq<T>,
    pre: Seq<T>,
    e: T,
    p: int,
)
    requires
        deduped_by_key(old_out, pre),
        0 <= p < old_out.len(),
        old_out[p].text_key() == e.text_key(),
    ensures
        deduped_by_key(old_out.update(p, e), pre.push(e)),
{
    let out = old_out.update(p, e);
    let post = pre.push(e);
    let n = pre.len() as int;
    assert forall|i: int, j: int| 0 <= i < j < out.len() implies text::seq_lt(
        #[trigger] out[i].text_key(),
        #[trigger] out[j].text_key(),
    ) by {
        assert(old_out[i].text_key() == out[i].text_key());
        assert(old_out[j].text_key() == out[j].text_key());
    }
    assert forall|i: int| 0 <= i < out.len() implies #[trigger] is_last_entry(post, out[i]) by {
        if i == p {
            assert(out[i] == post[n]);
        } else {
            assert(is_last_entry(pre, old_out[i]));
            let k = choose|k: int| 0 <= k < pre.len() && old_out[i] == pre[k] && is_last_of_key(pre, k);
            assert(out[i] == post[k]);
            assert(post[n].text_key() != post[k].text_key()) by {
                text::lemma_seq_lt_irreflexive(old_out[p].text_key());
                if i < p {
                    assert(text::seq_lt(old_out[i].text_key(), old_out[p].text_key()));
                } else {
                    assert(text::seq_lt(old_out[p].text_key(), old_out[i].text_key()));
                }
            }
        }
    }
    assert forall|k: int| 0 <= k < post.len() implies #[trigger] has_key(out, post[k].text_key()) by {
        if k == n {
            assert(out[p].text_key() == post[k].text_key());
        } else {
            assert(pre[k] == post[k]);
            assert(has_key(old_out, pre[k].text_key()));
            let i = choose|i: int| 0 <= i < old_out.len() && old_out[i].text_key() == pre[k].text_key();
            assert(out[i].text_key() == post[k].text_key());
        }
    }
}

/// Inserting an entry with a new key at its place in key order keeps the
/// result deduplicated for one more entry.
#[verifier::rlimit(40)]
proof fn lemma_dedup_insert<T: TextKeyed>(
    old_out: Seq<T>,
    pre: Seq<T>,
    e: T,
    p: int,
)
    requires
        deduped_by_key(old_out, pre),
        0 <= p <= old_out.len(),
        forall|q: int| 0 <= q < p ==> text::seq_lt(#[trigger] old_out[q].text_key(), e.text_key()),
        p < old_out.len() ==> text::seq_lt(e.text_key(), old_out[p].text_key()),
    ensures
        deduped_by_key(old_out.insert(p, e), pre.push(e)),
{
    let out = old_out.insert(p, e);
    let post = pre.push(e);
    let n = pre.len() as int;
    assert forall|q: int| p <= q < old_out.len() implies text::seq_lt(
        e.text_key(),
        #[trigger] old_out[q].text_key(),
    ) by {
        if q > p {
            assert(text::seq_lt(old_out[p].text_key(), old_out[q].text_key()));
            text::lemma_seq_lt_transitive(e.text_key(), old_out[p].text_key(), old_out[q].text_key());
        }
    }
    assert forall|i: int, j: int| 0 <= i < j < out.len() implies text::seq_lt(
        #[trigger] out[i].text_key(),
        #[trigger] out[j].text_key(),
    ) by {
        if j < p {
            assert(out[i] == old_out[i] && out[j] == old_out[j]);
        } else if j == p {
            assert(out[i] == old_out[i]);
        } else if i < p {
            assert(out[i] == old_out[i] && out[j] == old_out[j - 1]);
            text::lemma_seq_lt_transitive(old_out[i].text_key(), e.text_key(), old_out[j - 1].text_key());
        } else if i == p {
            assert(out[j] == old_out[j - 1]);
        } else {
            assert(out[i] == old_out[i - 1] && out[j] == old_out[j - 1]);
        }
    }
    assert forall|i: int| 0 <= i < out.len() implies #[trigger] is_last_entry(post, out[i]) by {
        if i == p {
            assert(out[i] == post[n]);
        } else {
            let oi = if i < p {
                i
            } else {
                i - 1
            };
            assert(out[i] == old_out[oi]);
            assert(is_last_entry(pre, old_out[oi]));
            let k = choose|k: int| 0 <= k < pre.len() && old_out[oi] == pre[k] && is_last_of_key(pre, k);
            assert(out[i] == post[k]);
            text::lemma_seq_lt_irreflexive(e.text_key());
            assert(post[n].text_key() != post[k].text_key());
        }
    }
    assert forall|k: int| 0 <= k < post.len() implies #[trigger] has_key(out, post[k].text_key()) by {
        if k == n {
            assert(out[p].text_key() == post[k].text_key());
        } else {
            assert(pre[k] == post[k]);
            assert(has_key(old_out, pre[k].text_key()));
            let i = choose|i: int| 0 <= i < old_out.len() && old_out[i].text_key() == pre[k].text_key();
            if i < p {
                assert(out[i].text_key() == post[k].text_key());
            } else {
                assert(out[i + 1].text_key() == post[k].text_key());
            }
        }
    }
}

/// Adds one more entry to a deduplicated result.
fn add_entry<T: KeyedCopy>(out: &mut Vec<T>, e: T, Ghost(pre): Ghost<Seq<T>>)
    requires
        deduped_by_key(old(out)@, pre),
    ensures
        deduped_by_key(final(out)@, pre.push(e)),
{
    let mut p: usize = 0;
    while p < out.len() && text::str_le(out[p].key_text(), e.key_text()) && !text::str_eq(
        out[p].key_text(),
        e.key_text(),
    )
        invariant
            p <= out@.len(),
            out@ == old(out)@,
            forall|q: int| 0 <= q < p ==> text::seq_lt(#[trigger] out@[q].text_key(), e.text_key()),
        decreases out.len() - p,
    {
        proof {
            text::lemma_seq_lt_total(out@[p as int].text_key(), e.text_key());
        }
        p += 1;
    }
    if p < out.len() && text::str_eq(out[p].key_text(), e.key_text()) {
        proof {
            lemma_dedup_replace(out@, pre, e, p as int);
        }
        out.set(p, e);
    } else {
        proof {
            if p < out@.len() {
                text::lemma_seq_lt_total(out@[p as int].text_key(), e.text_key());
            }
            lemma_dedup_insert(out@, pre, e, p as int);
        }
        out.insert(p, e);
    }
}

/// For each key, the last element with that key, in increasing order of keys.
pub fn dedupe_by_key<T: KeyedCopy>(entries: &[T]) -> (out: Vec<T>)
    ensures
        deduped_by_key(out@, entries@),
        out@ == deduped(entries@),
{
    let mut out: Vec<T> = Vec::new();
    for n in 0..entries.len()
        invariant
            deduped_by_key(out@, entries@.take(n as int)),
    {
        let e = entries[n].duplicate();
        assert(entries@.take(n + 1) =~= entries@.take(n as int).push(entries@[n as int]));
        add_entry(&mut out, e, Ghost(entries@.take(n as int)));
    }
    assert(entries@.take(entries@.len() as int) =~= entries@);
    proof {
        lemma_deduped(out@, entries@);
    }
    out
}

/// Keys in strictly increasing order.
pub open spec fn keys_increasing<T: TextKeyed>(s: Seq<T>) -> bool {
    forall|i: int, j: int| 0 <= i < j < s.len() ==> text::seq_lt(#[trigger] s[i].text_key(), #[trigger] s[j].text_key())
}

/// Two sequences with strictly increasing keys and the same keys have
/// their keys at the same positions.
proof fn lemma_same_keys<T: TextKeyed>(a: Seq<T>, b: Seq<T>)
    requires
        keys_increasing(a),
        keys_increasing(b),
        forall|k: Seq<char>| #[trigger] has_key(a, k) == has_key(b, k),
    ensures
        a.len() == b.len(),
        forall|i: int| 0 <= i < a.len() ==> (#[trigger] a[i]).text_key() == b[i].text_key(),
    decreases a.len(),
{
    if a.len() == 0 {
        if b.len() > 0 {
            assert(has_key(b, b[0].text_key()));
            assert(has_key(a, b[0].text_key()));
        }
    } else {
        assert(has_key(a, a[0].text_key()));
        assert(has_key(b, a[0].text_key()));
        assert(b.len() > 0);
        assert(has_key(b, b[0].text_key()));
        assert(has_key(a, b[0].text_key()));
        let ja = choose|j: int| 0 <= j < a.len() && a[j].text_key() == b[0].text_key();
        let jb = choose|j: int| 0 <= j < b.len() && b[j].text_key() == a[0].text_key();
        if a[0].text_key() != b[0].text_key() {
            assert(ja > 0 && jb > 0);
            assert(text::seq_lt(a[0].text_key(), a[ja].text_key()));
            assert(text::seq_lt(b[0].text_key(), b[jb].text_key()));
            text::lemma_seq_lt_transitive(a[0].text_key(), b[0].text_key(), a[0].text_key());
            text::lemma_seq_lt_irreflexive(a[0].text_key());
        }
        let ar = a.drop_first();
        let br = b.drop_first();
        assert forall|k: Seq<char>| #[trigger] has_key(ar, k) == has_key(br, k) by {
            if has_key(ar, k) {
                let i = choose|i: int| 0 <= i < ar.len() && ar[i].text_key() == k;
                assert(ar[i] == a[i + 1]);
                assert(has_key(a, k));
                assert(has_key(b, k));
                let j = choose|j: int| 0 <= j < b.len() && b[j].text_key() == k;
                assert(text::seq_lt(a[0].text_key(), a[i + 1].text_key()));
                if j == 0 {
                    text::lemma_seq_lt_irreflexive(k);
                }
                assert(br[j - 1] == b[j]);
                assert(has_key(br, k));
            }
            if has_key(br, k) {
                let i = choose|i: int| 0 <= i < br.len() && br[i].text_key() == k;
                assert(br[i] == b[i + 1]);
                assert(has_key(b, k));
                assert(has_key(a, k));
                let j = choose|j: int| 0 <= j < a.len() && a[j].text_key() == k;
                assert(text::seq_lt(b[0].text_key(), b[i + 1].text_key()));
                if j == 0 {
                    text::lemma_seq_lt_irreflexive(k);
                }
                assert(ar[j - 1] == a[j]);
                assert(has_key(ar, k));
            }
        }
        lemma_same_keys(ar, br);
        assert forall|i: int| 0 <= i < a.len() implies (#[trigger] a[i]).text_key() == b[i].text_key() by {
            if i > 0 {
                assert(ar[i - 1] == a[i] && br[i - 1] == b[i]);
            }
        }
    }
}

/// There is exactly one way to keep the last element for each key in key order.
pub proof fn lemma_deduped_unique<T: TextKeyed>(a: Seq<T>, b: Seq<T>, entries: Seq<T>)
    requires
        deduped_by_key(a, entries),
        deduped_by_key(b, entries),
    ensures
        a == b,
{
    assert forall|k: Seq<char>| #[trigger] has_key(a, k) == has_key(b, k) by {
        if has_key(a, k) {
            let i = choose|i: int| 0 <= i < a.len() && a[i].text_key() == k;
            assert(is_last_entry(entries, a[i]));
            let m = choose|m: int| 0 <= m < entries.len() && a[i] == entries[m] && is_last_of_key(entries, m);
            assert(has_key(b, entries[m].text_key()));
        }
        if has_key(b, k) {
            let i = choose|i: int| 0 <= i < b.len() && b[i].text_key() == k;
            assert(is_last_entry(entries, b[i]));
            let m = choose|m: int| 0 <= m < entries.len() && b[i] == entries[m] && is_last_of_key(entries, m);
            assert(has_key(a, entries[m].text_key()));
        }
    }
    lemma_same_keys(a, b);
    assert forall|i: int| 0 <= i < a.len() implies a[i] == b[i] by {
        assert(is_last_entry(entries, a[i]));
        assert(is_last_entry(entries, b[i]));
        let m1 = choose|m: int| 0 <= m < entries.len() && a[i] == entries[m] && is_last_of_key(entries, m);
        let m2 = choose|m: int| 0 <= m < entries.len() && b[i] == entries[m] && is_last_of_key(entries, m);
        assert(a[i].text_key() == b[i].text_key());
        if m1 < m2 {
            assert(entries[m2].text_key() != entries[m1].text_key());
        } else if m2 < m1 {
            assert(entries[m1].text_key() != entries[m2].text_key());
        }
    }
    assert(a =~= b);
}

/// For each key of `entries`, its last element, in increasing order of keys.
pub open spec fn deduped<T: TextKeyed>(entries: Seq<T>) -> Seq<T> {
    choose|out: Seq<T>| deduped_by_key(out, entries)
}

/// A deduplicated result is the one `deduped` names.
pub proof fn lemma_deduped<T: TextKeyed>(out: Seq<T>, entries: Seq<T>)
    requires
        deduped_by_key(out, entries),
    ensures
        deduped(entries) == out,
{
    let d = deduped(entries);
    assert(deduped_by_key(d, entries));
    lemma_deduped_unique(d, out, entries);
}

/// The element of `s` with the key `k`, for a sequence whose keys are unique.
pub open spec fn keyed_get<T: TextKeyed>(s: Seq<T>, k: Seq<char>) -> T {
    choose|x: T| s.contains(x) && x.text_key() == k
}

/// The element with key `k` in a sequence with strictly increasing keys.
pub fn find_by_key<'a, T: TextKeyed>(s: &'a [T], k: &str) -> (out: Option<&'a T>)
    requires
        keys_increasing(s@),
    ensures
        match out {
            Some(x) => has_key(s@, k@) && *x == keyed_get(s@, k@) && x.text_key() == k@,
            None => !has_key(s@, k@),
        },
{
    for i in 0..s.len()
        invariant
            keys_increasing(s@),
            forall|j: int| 0 <= j < i ==> (#[trigger] s@[j]).text_key() != k@,
    {
        if text::str_eq(s[i].key_text(), k) {
            proof {
                let x = keyed_get(s@, k@);
                assert(s@.contains(s@[i as int]));
                assert(s@.contains(x) && x.text_key() == k@);
                let j = choose|j: int| 0 <= j < s@.len() && s@[j] == x;
                if j != i {
                    if j < i {
                    } else {
                        assert(text::seq_lt(s@[i as int].text_key(), s@[j].text_key()));
                        text::lemma_seq_lt_irreflexive(k@);
                    }
                }
            }
            return Some(&s[i]);
        }
    }
    None
}

/// Texts in strictly increasing order.
pub open spec fn strictly_sorted_texts(s: Seq<String>) -> bool {
    forall|i: int, j: int| 0 <= i < j < s.len() ==> text::seq_lt(#[trigger] s[i]@, #[trigger] s[j]@)
}

/// Some text of `s` equals `x`.
pub open spec fn has_text(s: Seq<String>, x: Seq<char>) -> bool {
    exists|i: int| 0 <= i < s.len() && s[i]@ == x
}

/// Adds `l` to texts kept in strictly increasing order, once.
pub fn insert_text_sorted(texts: &mut Vec<String>, l: String)
    requires
        strictly_sorted_texts(old(texts)@),
    ensures
        strictly_sorted_texts(final(texts)@),
        forall|x: Seq<char>| #[trigger] has_text(final(texts)@, x) == (has_text(old(texts)@, x) || x == l@),
{
    let mut p: usize = 0;
    while p < texts.len() && !text::str_le(l.as_str(), texts[p].as_str())
        invariant
            p <= texts@.len(),
            texts@ == old(texts)@,
            forall|q: int| 0 <= q < p ==> text::seq_lt(#[trigger] texts@[q]@, l@),
        decreases texts.len() - p,
    {
        p += 1;
    }
    let ghost before = texts@;
    if p < texts.len() && text::str_eq(texts[p].as_str(), l.as_str()) {
        assert forall|x: Seq<char>| #[trigger] has_text(texts@, x) == (has_text(before, x) || x == l@) by {
            if x == l@ {
                assert(texts@[p as int]@ == x);
            }
        }
        return;
    }
    proof {
        if p < texts@.len() {
            text::lemma_seq_lt_total(l@, texts@[p as int]@);
        }
    }
    texts.insert(p, l);
    proof {
        assert forall|q: int| p <= q < before.len() implies text::seq_lt(l@, #[trigger] before[q]@) by {
            if q > p {
                assert(text::seq_lt(before[p as int]@, before[q]@));
                text::lemma_seq_lt_transitive(l@, before[p as int]@, before[q]@);
            }
        }
        assert forall|i: int, j: int| 0 <= i < j < texts@.len() implies text::seq_lt(
            #[trigger] texts@[i]@,
            #[trigger] texts@[j]@,
        ) by {
            if j < p {
                assert(texts@[i] == before[i] && texts@[j] == before[j]);
            } else if j == p {
                assert(texts@[i] == before[i]);
            } else if i < p {
                assert(texts@[i] == before[i] && texts@[j] == before[j - 1]);
                text::lemma_seq_lt_transitive(before[i]@, l@, before[j - 1]@);
            } else if i == p {
                assert(texts@[j] == before[j - 1]);
            } else {
                assert(texts@[i] == before[i - 1] && texts@[j] == before[j - 1]);
            }
        }
        assert forall|x: Seq<char>| #[trigger] has_text(texts@, x) == (has_text(before, x) || x == l@) by {
            if has_text(texts@, x) {
                let i = choose|i: int| 0 <= i < texts@.len() && texts@[i]@ == x;
                if i < p {
                    assert(before[i] == texts@[i]);
                } else if i > p {
                    assert(before[i - 1] == texts@[i]);
                }
            }
            if has_text(before, x) {
                let i = choose|i: int| 0 <= i < before.len() && before[i]@ == x;
                if i < p {
                    assert(texts@[i] == before[i]);
                } else {
                    assert(texts@[i + 1] == before[i]);
                }
            }
            if x == l@ {
                assert(texts@[p as int]@ == x);
            }
        }
    }
}

/// Deduplicating by key twice gives what deduplicating once gave: a result
/// keeps each of its entries, as the last (and only) one of its key.
pub proof fn lemma_dedupe_idempotent<T: TextKeyed>(out: Seq<T>, entries: Seq<T>)
    requires
        deduped_by_key(out, entries),
    ensures
        deduped_by_key(out, out),
        deduped(out) == out,
{
    assert forall|i: int| 0 <= i < out.len() implies #[trigger] is_last_entry(out, out[i]) by {
        assert forall|m: int| i < m < out.len() implies (#[trigger] out[m]).text_key() != out[i].text_key() by {
            assert(text::seq_lt(out[i].text_key(), out[m].text_key()));
            text::lemma_seq_lt_irreflexive(out[i].text_key());
        }
        assert(is_last_of_key(out, i));
    }
    assert forall|k: int| 0 <= k < out.len() implies #[trigger] has_key(out, out[k].text_key()) by {}
    lemma_deduped(out, out);
}

/// Without its first text, a strictly sorted sequence holds exactly its
/// other texts.
proof fn lemma_sorted_texts_rest(a: Seq<String>, x: Seq<char>)
    requires
        strictly_sorted_texts(a),
        a.len() > 0,
    ensures
        has_text(a.drop_first(), x) == (has_text(a, x) && x != a[0]@),
{
    let r = a.drop_first();
    if has_text(r, x) {
        let i = choose|i: int| 0 <= i < r.len() && r[i]@ == x;
        assert(a[i + 1] == r[i]);
        assert(text::seq_lt(a[0]@, a[i + 1]@));
        text::lemma_seq_lt_irreflexive(x);
    }
    if has_text(a, x) && x != a[0]@ {
        let i = choose|i: int| 0 <= i < a.len() && a[i]@ == x;
        assert(r[i - 1] == a[i]);
    }
}

/// Two strictly sorted sequences that hold the same texts have the same
/// length.
pub proof fn lemma_sorted_texts_same_len(a: Seq<String>, b: Seq<String>)
    requires
        strictly_sorted_texts(a),
        strictly_sorted_texts(b),
        forall|x: Seq<char>| #[trigger] has_text(a, x) == has_text(b, x),
    ensures
        a.len() == b.len(),
    decreases a.len() + b.len(),
{
    if a.len() == 0 {
        if b.len() > 0 {
            assert(has_text(b, b[0]@));
            assert(has_text(a, b[0]@));
        }
    } else if b.len() == 0 {
        assert(has_text(a, a[0]@));
    } else {
        let a0 = a[0]@;
        let b0 = b[0]@;
        assert(has_text(a, a0));
        assert(has_text(b, b0));
        assert(has_text(b, a0));
        assert(has_text(a, b0));
        if a0 != b0 {
            let k = choose|k: int| 0 <= k < b.len() && b[k]@ == a0;
            let m = choose|m: int| 0 <= m < a.len() && a[m]@ == b0;
            assert(k > 0 && m > 0);
            assert(text::seq_lt(b0, a0));
            assert(text::seq_lt(a0, b0));
            text::lemma_seq_lt_asymmetric(a0, b0);
        }
        let ra = a.drop_first();
        let rb = b.drop_first();
        assert forall|x: Seq<char>| #[trigger] has_text(ra, x) == has_text(rb, x) by {
            lemma_sorted_texts_rest(a, x);
            lemma_sorted_texts_rest(b, x);
        }
        lemma_sorted_texts_same_len(ra, rb);
    }
}

} // verus!
