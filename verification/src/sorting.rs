//! Stable sorting by a text key, as `sort_by` with `String::cmp` orders
//! students by family name and assignments by title.

use vstd::prelude::*;
use crate::text::{lex_le, lemma_lex_le_antisymmetric, lemma_lex_le_reflexive, lemma_lex_le_total, lemma_lex_le_transitive, str_le};

verus! {

/// A value that is sorted by a text key.
pub trait SortKey {
    /// The key, as a sequence of characters.
    spec fn sort_key(&self) -> Seq<char>;

    /// The key, for comparisons.
    fn key(&self) -> (r: &str)
        ensures
            r@ == self.sort_key(),
    ;
}

/// Holds of the values whose key is `k`.
pub open spec fn key_is<T: SortKey>(k: Seq<char>) -> spec_fn(T) -> bool {
    |y: T| y.sort_key() == k
}

/// The values of `s` whose key is `k`, in the order of `s`.
pub open spec fn with_key<T: SortKey>(s: Seq<T>, k: Seq<char>) -> Seq<T> {
    s.filter(key_is::<T>(k))
}

/// The keys of `s` never decrease.
pub open spec fn keys_sorted<T: SortKey>(s: Seq<T>) -> bool {
    forall|i: int, j: int|
        0 <= i < j < s.len() ==> lex_le(#[trigger] s[i].sort_key(), #[trigger] s[j].sort_key())
}

/// `out` is `input` sorted stably: its keys never decrease, and the values
/// that share a key come in the order in which `input` holds them.
pub open spec fn is_stable_sort_of<T: SortKey>(out: Seq<T>, input: Seq<T>) -> bool {
    &&& keys_sorted(out)
    &&& forall|k: Seq<char>| #[trigger] with_key(out, k) == with_key(input, k)
}

proof fn lemma_with_key_single<T: SortKey>(x: T, k: Seq<char>)
    ensures
        with_key(seq![x], k) == (if x.sort_key() == k {
            seq![x]
        } else {
            Seq::<T>::empty()
        }),
{
    reveal_with_fuel(Seq::<_>::filter, 2);
    assert(seq![x].drop_last() =~= Seq::<T>::empty());
    if x.sort_key() == k {
        assert(Seq::<T>::empty().push(x) =~= seq![x]);
    }
}

proof fn lemma_with_key_absent<T: SortKey>(s: Seq<T>, k: Seq<char>)
    requires
        forall|i: int| 0 <= i < s.len() ==> #[trigger] s[i].sort_key() != k,
    ensures
        with_key(s, k) == Seq::<T>::empty(),
    decreases s.len(),
{
    reveal_with_fuel(Seq::<_>::filter, 1);
    if s.len() > 0 {
        lemma_with_key_absent(s.drop_last(), k);
        assert(s.last() == s[s.len() - 1]);
    }
    assert(with_key(s, k) =~= Seq::<T>::empty());
}

proof fn lemma_with_key_concat<T: SortKey>(a: Seq<T>, b: Seq<T>, k: Seq<char>)
    ensures
        with_key(a + b, k) == with_key(a, k) + with_key(b, k),
{
    Seq::filter_distributes_over_add(a, b, key_is::<T>(k));
}

/// Inserting `x` after every value whose key is at most its own, and before
/// the others, keeps a stable order.
proof fn lemma_insert_keeps_stable<T: SortKey>(out: Seq<T>, pos: int, x: T, before: Seq<T>)
    requires
        keys_sorted(out),
        0 <= pos <= out.len(),
        forall|m: int| 0 <= m < pos ==> lex_le(#[trigger] out[m].sort_key(), x.sort_key()),
        pos < out.len() ==> !lex_le(out[pos].sort_key(), x.sort_key()),
        forall|k: Seq<char>| #[trigger] with_key(out, k) == with_key(before, k),
    ensures
        keys_sorted(out.insert(pos, x)),
        forall|k: Seq<char>| #[trigger] with_key(out.insert(pos, x), k) == with_key(before.push(x), k),
{
    let xk = x.sort_key();
    assert forall|m: int| pos <= m < out.len() implies !lex_le(#[trigger] out[m].sort_key(), xk)
        && lex_le(xk, out[m].sort_key()) && out[m].sort_key() != xk by {
        if lex_le(out[m].sort_key(), xk) {
            if m > pos {
                lemma_lex_le_transitive(out[pos].sort_key(), out[m].sort_key(), xk);
            }
        }
        lemma_lex_le_total(out[m].sort_key(), xk);
        lemma_lex_le_reflexive(xk);
    }
    let res = out.insert(pos, x);
    out.insert_ensures(pos, x);
    assert forall|i: int, j: int| 0 <= i < j < res.len() implies lex_le(
        #[trigger] res[i].sort_key(),
        #[trigger] res[j].sort_key(),
    ) by {
        if j < pos {
            assert(res[i] == out[i] && res[j] == out[j]);
        } else if j == pos {
            assert(res[i] == out[i]);
        } else if i < pos {
            assert(res[i] == out[i] && res[j] == out[j - 1]);
            lemma_lex_le_transitive(out[i].sort_key(), xk, out[j - 1].sort_key());
        } else if i == pos {
            assert(res[j] == out[j - 1]);
        } else {
            assert(res[i] == out[i - 1] && res[j] == out[j - 1]);
        }
    }
    let pre = out.subrange(0, pos);
    let post = out.subrange(pos, out.len() as int);
    assert(out =~= pre + post);
    assert(res =~= pre + seq![x] + post);
    assert(before.push(x) =~= before + seq![x]);
    assert forall|k: Seq<char>| #[trigger] with_key(res, k) == with_key(before.push(x), k) by {
        lemma_with_key_concat(pre, post, k);
        lemma_with_key_concat(pre + seq![x], post, k);
        lemma_with_key_concat(pre, seq![x], k);
        lemma_with_key_concat(before, seq![x], k);
        lemma_with_key_single(x, k);
        if xk == k {
            assert forall|i: int| 0 <= i < post.len() implies #[trigger] post[i].sort_key() != k by {
                assert(post[i] == out[pos + i]);
            }
            lemma_with_key_absent(post, k);
            assert(with_key(res, k) =~= with_key(before.push(x), k));
        } else {
            assert(with_key(res, k) =~= with_key(before.push(x), k));
        }
    }
}

proof fn lemma_with_key_first<T: SortKey>(s: Seq<T>, k: Seq<char>)
    requires
        s.len() > 0,
    ensures
        with_key(s, k) == (if s[0].sort_key() == k {
            seq![s[0]]
        } else {
            Seq::<T>::empty()
        }) + with_key(s.drop_first(), k),
{
    assert(s =~= seq![s[0]] + s.drop_first());
    s.drop_first().lemma_filter_prepend(s[0], key_is::<T>(k));
}

proof fn lemma_with_key_holds<T: SortKey>(s: Seq<T>, i: int)
    requires
        0 <= i < s.len(),
    ensures
        with_key(s, s[i].sort_key()).len() > 0,
{
    s.lemma_filter_contains(key_is::<T>(s[i].sort_key()), i);
}

proof fn lemma_with_key_witness<T: SortKey>(s: Seq<T>, k: Seq<char>) -> (j: int)
    requires
        with_key(s, k).len() > 0,
    ensures
        0 <= j < s.len(),
        s[j].sort_key() == k,
{
    let f = with_key(s, k);
    s.lemma_filter_pred(key_is::<T>(k), 0);
    assert(f.contains(f[0]));
    s.lemma_filter_contains_rev(key_is::<T>(k), f[0]);
    choose|j: int| 0 <= j < s.len() && s[j] == f[0]
}

proof fn lemma_sorted_by_key_filters_unique<T: SortKey>(a: Seq<T>, b: Seq<T>)
    requires
        keys_sorted(a),
        keys_sorted(b),
        forall|k: Seq<char>| #[trigger] with_key(a, k) == with_key(b, k),
    ensures
        a == b,
    decreases a.len(),
{
    if a.len() == 0 || b.len() == 0 {
        if a.len() > 0 {
            lemma_with_key_holds(a, 0);
            assert(with_key(b, a[0].sort_key()) =~= Seq::<T>::empty()) by {
                reveal_with_fuel(Seq::<_>::filter, 1);
            }
        } else if b.len() > 0 {
            lemma_with_key_holds(b, 0);
            assert(with_key(a, b[0].sort_key()) =~= Seq::<T>::empty()) by {
                reveal_with_fuel(Seq::<_>::filter, 1);
            }
        }
        assert(a =~= b);
    } else {
        let k1 = a[0].sort_key();
        let k2 = b[0].sort_key();
        lemma_with_key_holds(a, 0);
        lemma_with_key_holds(b, 0);
        let j = lemma_with_key_witness(b, k1);
        let i = lemma_with_key_witness(a, k2);
        if j > 0 {
            assert(lex_le(b[0].sort_key(), b[j].sort_key()));
        } else {
            lemma_lex_le_reflexive(k1);
        }
        if i > 0 {
            assert(lex_le(a[0].sort_key(), a[i].sort_key()));
        } else {
            lemma_lex_le_reflexive(k1);
        }
        lemma_lex_le_antisymmetric(k1, k2);
        lemma_with_key_first(a, k1);
        lemma_with_key_first(b, k1);
        assert(with_key(a, k1)[0] == a[0]);
        assert(with_key(b, k1)[0] == b[0]);
        let ta = a.drop_first();
        let tb = b.drop_first();
        assert forall|k: Seq<char>| #[trigger] with_key(ta, k) == with_key(tb, k) by {
            lemma_with_key_first(a, k);
            lemma_with_key_first(b, k);
            if k == k1 {
                assert(with_key(a, k) =~= seq![a[0]] + with_key(ta, k));
                assert(with_key(ta, k) =~= with_key(a, k).drop_first());
                assert(with_key(tb, k) =~= with_key(b, k).drop_first());
            } else {
                assert(with_key(ta, k) =~= with_key(a, k));
                assert(with_key(tb, k) =~= with_key(b, k));
            }
        }
        assert forall|i: int, j: int| 0 <= i < j < ta.len() implies lex_le(
            #[trigger] ta[i].sort_key(),
            #[trigger] ta[j].sort_key(),
        ) by {
            assert(ta[i] == a[i + 1] && ta[j] == a[j + 1]);
        }
        assert forall|i: int, j: int| 0 <= i < j < tb.len() implies lex_le(
            #[trigger] tb[i].sort_key(),
            #[trigger] tb[j].sort_key(),
        ) by {
            assert(tb[i] == b[i + 1] && tb[j] == b[j + 1]);
        }
        lemma_sorted_by_key_filters_unique(ta, tb);
        assert(a =~= seq![a[0]] + ta);
        assert(b =~= seq![b[0]] + tb);
    }
}

/// A stable sort has one outcome: two stable sorts of the same sequence are
/// equal.
pub proof fn lemma_stable_sort_unique<T: SortKey>(out1: Seq<T>, out2: Seq<T>, input: Seq<T>)
    requires
        is_stable_sort_of(out1, input),
        is_stable_sort_of(out2, input),
    ensures
        out1 == out2,
{
    assert forall|k: Seq<char>| #[trigger] with_key(out1, k) == with_key(out2, k) by {
        assert(with_key(out1, k) == with_key(input, k));
        assert(with_key(out2, k) == with_key(input, k));
    }
    lemma_sorted_by_key_filters_unique(out1, out2);
}

/// Sorting a sorted sequence again changes nothing.
pub proof fn lemma_stable_sort_idempotent<T: SortKey>(twice: Seq<T>, once: Seq<T>, input: Seq<T>)
    requires
        is_stable_sort_of(once, input),
        is_stable_sort_of(twice, once),
    ensures
        twice == once,
{
    assert(is_stable_sort_of(once, once));
    lemma_stable_sort_unique(twice, once, once);
}

proof fn lemma_count_within_key<T: SortKey>(s: Seq<T>, v: T)
    ensures
        s.to_multiset().count(v) == with_key(s, v.sort_key()).to_multiset().count(v),
    decreases s.len(),
{
    broadcast use vstd::seq_lib::group_to_multiset_ensures;

    reveal_with_fuel(Seq::<_>::filter, 1);
    if s.len() > 0 {
        lemma_count_within_key(s.drop_last(), v);
        assert(s =~= s.drop_last().push(s.last()));
    } else {
        assert(with_key(s, v.sort_key()) =~= s);
    }
}

/// A stable sort keeps every value, as many times as it occurs.
pub proof fn lemma_stable_sort_permutes<T: SortKey>(out: Seq<T>, input: Seq<T>)
    requires
        is_stable_sort_of(out, input),
    ensures
        out.to_multiset() == input.to_multiset(),
        out.len() == input.len(),
{
    broadcast use vstd::seq_lib::group_to_multiset_ensures;

    assert forall|v: T| #[trigger] out.to_multiset().count(v) == input.to_multiset().count(v) by {
        lemma_count_within_key(out, v);
        lemma_count_within_key(input, v);
        assert(with_key(out, v.sort_key()) == with_key(input, v.sort_key()));
    }
    assert(out.to_multiset() =~= input.to_multiset());
    assert(out.to_multiset().len() == input.to_multiset().len());
}

/// Sorts `v` stably by key: keys in increasing order, and values with the
/// same key in the order in which they came.
pub fn stable_sort<T: SortKey>(v: &mut Vec<T>)
    ensures
        is_stable_sort_of(final(v)@, old(v)@),
{
    let ghost input = v@;
    let mut rest: Vec<T> = Vec::new();
    core::mem::swap(v, &mut rest);
    let mut out: Vec<T> = Vec::new();
    let ghost mut done: int = 0;
    assert(rest@.skip(0) =~= rest@);
    assert forall|k: Seq<char>| #[trigger] with_key(out@, k) == with_key(input.take(0), k) by {
        assert(input.take(0) =~= out@);
    }
    while rest.len() > 0
        invariant
            0 <= done <= input.len(),
            done + rest@.len() == input.len(),
            rest@ == input.skip(done),
            keys_sorted(out@),
            forall|k: Seq<char>| #[trigger] with_key(out@, k) == with_key(input.take(done), k),
        decreases rest@.len(),
    {
        let x = rest.remove(0);
        let mut pos: usize = 0;
        while pos < out.len() && str_le(out[pos].key(), x.key())
            invariant
                pos <= out@.len(),
                forall|m: int| 0 <= m < pos ==> lex_le(#[trigger] out@[m].sort_key(), x.sort_key()),
            decreases out@.len() - pos,
        {
            pos = pos + 1;
        }
        proof {
            assert(input.take(done + 1) =~= input.take(done).push(x));
            lemma_insert_keeps_stable(out@, pos as int, x, input.take(done));
        }
        out.insert(pos, x);
        proof {
            done = done + 1;
            assert(rest@ =~= input.skip(done));
        }
    }
    assert(input.take(done) =~= input);
    *v = out;
}

} // verus!
