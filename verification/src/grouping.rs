//! Values gathered under keys: which values a key collects, in the order they came.

use vstd::prelude::*;

verus! {

/// The values tagged with key `k`, in order.
pub open spec fn lines_for<K, V>(tagged: Seq<(K, V)>, k: K) -> Seq<V>
    decreases tagged.len(),
{
    if tagged.len() == 0 {
        seq![]
    } else {
        let prev = lines_for(tagged.drop_last(), k);
        if tagged.last().0 == k { prev.push(tagged.last().1) } else { prev }
    }
}

/// Some value is tagged with key `k`.
pub open spec fn has_key<K, V>(tagged: Seq<(K, V)>, k: K) -> bool {
    exists|i: int| 0 <= i < tagged.len() && (#[trigger] tagged[i]).0 == k
}

/// A key that tags no value collects nothing.
pub proof fn lemma_lines_for_absent<K, V>(tagged: Seq<(K, V)>, k: K)
    requires
        !has_key(tagged, k),
    ensures
        lines_for(tagged, k) == Seq::<V>::empty(),
    decreases tagged.len(),
{
    if tagged.len() > 0 {
        assert forall|i: int| 0 <= i < tagged.drop_last().len() implies (#[trigger] tagged.drop_last()[i]).0 != k by {
            assert(tagged.drop_last()[i] == tagged[i]);
        }
        lemma_lines_for_absent(tagged.drop_last(), k);
        assert(tagged.last() == tagged[tagged.len() - 1]);
    }
}

/// One more tagged value extends the values of its own key only.
pub proof fn lemma_lines_for_push<K, V>(tagged: Seq<(K, V)>, a: (K, V), k: K)
    ensures
        lines_for(tagged.push(a), k) == (if a.0 == k { lines_for(tagged, k).push(a.1) } else { lines_for(tagged, k) }),
        has_key(tagged.push(a), k) == (has_key(tagged, k) || a.0 == k),
{
    assert(tagged.push(a).drop_last() =~= tagged);
    if has_key(tagged, k) {
        let i = choose|i: int| 0 <= i < tagged.len() && (#[trigger] tagged[i]).0 == k;
        assert(tagged.push(a)[i] == tagged[i]);
    }
    if a.0 == k {
        assert(tagged.push(a)[tagged.len() as int] == a);
    }
    if has_key(tagged.push(a), k) {
        let i = choose|i: int| 0 <= i < tagged.push(a).len() && (#[trigger] tagged.push(a)[i]).0 == k;
        if i < tagged.len() {
            assert(tagged.push(a)[i] == tagged[i]);
        }
    }
}

/// The values of a key in two pieces are those of the first, then those of the second.
pub proof fn lemma_lines_for_append<K, V>(a: Seq<(K, V)>, b: Seq<(K, V)>, k: K)
    ensures
        lines_for(a + b, k) == lines_for(a, k) + lines_for(b, k),
    decreases b.len(),
{
    if b.len() == 0 {
        assert(a + b =~= a);
        assert(lines_for(b, k) =~= Seq::<V>::empty());
        assert(lines_for(a, k) + lines_for(b, k) =~= lines_for(a, k));
    } else {
        lemma_lines_for_append(a, b.drop_last(), k);
        assert((a + b).drop_last() =~= a + b.drop_last());
        assert((a + b).last() == b.last());
        if b.last().0 == k {
            assert(lines_for(a, k) + lines_for(b, k) =~= (lines_for(a, k) + lines_for(b.drop_last(), k)).push(b.last().1));
        }
    }
}

/// How many values the keys `ks` collect together.
pub open spec fn sum_lines<K, V>(tagged: Seq<(K, V)>, ks: Seq<K>) -> nat
    decreases ks.len(),
{
    if ks.len() == 0 {
        0
    } else {
        sum_lines(tagged, ks.drop_last()) + lines_for(tagged, ks.last()).len()
    }
}

/// Nothing tagged, nothing collected.
proof fn lemma_sum_lines_empty<K, V>(ks: Seq<K>)
    ensures
        sum_lines(Seq::<(K, V)>::empty(), ks) == 0,
    decreases ks.len(),
{
    if ks.len() > 0 {
        lemma_sum_lines_empty::<K, V>(ks.drop_last());
        lemma_lines_for_absent(Seq::<(K, V)>::empty(), ks.last());
    }
}

/// One more tagged value adds one to the total exactly when its key is listed.
proof fn lemma_sum_lines_push<K, V>(tagged: Seq<(K, V)>, a: (K, V), ks: Seq<K>)
    requires
        ks.no_duplicates(),
    ensures
        sum_lines(tagged.push(a), ks) == sum_lines(tagged, ks) + if ks.contains(a.0) { 1nat } else { 0nat },
    decreases ks.len(),
{
    if ks.len() > 0 {
        let pre = ks.drop_last();
        assert(pre.no_duplicates()) by {
            assert forall|i: int, j: int| 0 <= i < pre.len() && 0 <= j < pre.len() && i != j implies pre[i] != pre[j] by {
                assert(pre[i] == ks[i] && pre[j] == ks[j]);
            }
        }
        lemma_sum_lines_push(tagged, a, pre);
        lemma_lines_for_push(tagged, a, ks.last());
        if ks.last() == a.0 {
            assert(ks[ks.len() - 1] == a.0);
            if pre.contains(a.0) {
                let i = choose|i: int| 0 <= i < pre.len() && pre[i] == a.0;
                assert(ks[i] == a.0);
            }
        } else {
            if ks.contains(a.0) {
                let i = choose|i: int| 0 <= i < ks.len() && ks[i] == a.0;
                assert(pre[i] == a.0);
            }
            if pre.contains(a.0) {
                let i = choose|i: int| 0 <= i < pre.len() && pre[i] == a.0;
                assert(ks[i] == a.0);
            }
        }
    }
}

/// Distinct keys that cover every tagged value collect each value once: the
/// values they collect add up to all of them.
pub proof fn lemma_sum_lines_total<K, V>(tagged: Seq<(K, V)>, ks: Seq<K>)
    requires
        ks.no_duplicates(),
        forall|k: K| has_key(tagged, k) ==> ks.contains(k),
    ensures
        sum_lines(tagged, ks) == tagged.len(),
    decreases tagged.len(),
{
    if tagged.len() == 0 {
        assert(tagged =~= Seq::<(K, V)>::empty());
        lemma_sum_lines_empty::<K, V>(ks);
    } else {
        let pre = tagged.drop_last();
        let a = tagged.last();
        assert(pre.push(a) =~= tagged);
        assert forall|k: K| has_key(pre, k) implies ks.contains(k) by {
            lemma_lines_for_push(pre, a, k);
        }
        lemma_sum_lines_total(pre, ks);
        lemma_lines_for_push(pre, a, a.0);
        lemma_sum_lines_push(pre, a, ks);
    }
}

/// Each tagged value is among the values its key collects.
pub proof fn lemma_lines_for_contains<K, V>(tagged: Seq<(K, V)>, t: int)
    requires
        0 <= t < tagged.len(),
    ensures
        lines_for(tagged, tagged[t].0).contains(tagged[t].1),
    decreases tagged.len(),
{
    let k = tagged[t].0;
    let pre = tagged.drop_last();
    if t == tagged.len() - 1 {
        assert(tagged.last() == tagged[t]);
        let l = lines_for(tagged, k);
        assert(l[l.len() - 1] == tagged[t].1);
    } else {
        assert(pre[t] == tagged[t]);
        lemma_lines_for_contains(pre, t);
        let p = lines_for(pre, k);
        let i = choose|i: int| 0 <= i < p.len() && p[i] == tagged[t].1;
        if tagged.last().0 == k {
            assert(lines_for(tagged, k)[i] == p[i]);
        }
    }
}

} // verus!
