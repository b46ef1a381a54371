//! Lexicographic order on character sequences, the order `String` comparison
//! follows (UTF-8 byte order and code point order agree).

use vstd::prelude::*;

verus! {

/// `a` sorts strictly before `b`.
pub open spec fn chars_lt(a: Seq<char>, b: Seq<char>) -> bool
    decreases a.len(),
{
    if a.len() == 0 {
        b.len() > 0
    } else if b.len() == 0 {
        false
    } else if a[0] != b[0] {
        (a[0] as u32) < (b[0] as u32)
    } else {
        chars_lt(a.drop_first(), b.drop_first())
    }
}

/// No sequence sorts before itself.
pub proof fn lemma_chars_lt_irreflexive(a: Seq<char>)
    ensures
        !chars_lt(a, a),
    decreases a.len(),
{
    if a.len() > 0 {
        lemma_chars_lt_irreflexive(a.drop_first());
    }
}

/// Two sequences that differ are ordered one way or the other, and not both.
pub proof fn lemma_chars_lt_total(a: Seq<char>, b: Seq<char>)
    ensures
        a != b ==> (chars_lt(a, b) || chars_lt(b, a)),
        !(chars_lt(a, b) && chars_lt(b, a)),
    decreases a.len(),
{
    if a.len() > 0 && b.len() > 0 {
        if a[0] == b[0] {
            lemma_chars_lt_total(a.drop_first(), b.drop_first());
            if a != b {
                assert(a =~= seq![a[0]] + a.drop_first());
                assert(b =~= seq![b[0]] + b.drop_first());
            }
        } else {
            vstd::utf8::char_u32_cast(a[0], a[0] as u32);
            vstd::utf8::char_u32_cast(b[0], b[0] as u32);
        }
    } else if a.len() == 0 && b.len() == 0 {
        assert(a =~= b);
    }
}

/// The order is transitive.
pub proof fn lemma_chars_lt_transitive(a: Seq<char>, b: Seq<char>, c: Seq<char>)
    requires
        chars_lt(a, b),
        chars_lt(b, c),
    ensures
        chars_lt(a, c),
    decreases a.len(),
{
    if a.len() > 0 && b.len() > 0 && c.len() > 0 {
        if a[0] == b[0] && b[0] == c[0] {
            lemma_chars_lt_transitive(a.drop_first(), b.drop_first(), c.drop_first());
        }
    }
}

/// A line of a diff: its number and text.
pub type LineKey = (u32, Seq<char>);

/// Lines order by number, then by text.
pub open spec fn key_le(x: LineKey, y: LineKey) -> bool {
    x.0 < y.0 || (x.0 == y.0 && !chars_lt(y.1, x.1))
}

/// Keys in non-decreasing order.
pub open spec fn keys_sorted(s: Seq<LineKey>) -> bool {
    forall|i: int, j: int| 0 <= i < j < s.len() ==> key_le(s[i], s[j])
}

/// `key_le` is transitive.
pub proof fn lemma_key_le_transitive(x: LineKey, y: LineKey, z: LineKey)
    requires
        key_le(x, y),
        key_le(y, z),
    ensures
        key_le(x, z),
{
    if x.0 == y.0 && y.0 == z.0 {
        lemma_chars_lt_total(x.1, y.1);
        lemma_chars_lt_total(y.1, z.1);
        lemma_chars_lt_total(x.1, z.1);
        if chars_lt(z.1, x.1) {
            if x.1 == y.1 {
            } else if y.1 == z.1 {
            } else {
                lemma_chars_lt_transitive(z.1, x.1, y.1);
            }
        }
    }
}

/// `key_le` is total.
pub proof fn lemma_key_le_total(x: LineKey, y: LineKey)
    ensures
        key_le(x, y) || key_le(y, x),
{
    lemma_chars_lt_total(x.1, y.1);
}

/// Whether `a` sorts strictly before `b`.
pub fn chars_less(a: &Vec<char>, b: &Vec<char>) -> (r: bool)
    ensures
        r == chars_lt(a@, b@),
{
    let mut i: usize = 0;
    assert(a@.subrange(0, a@.len() as int) =~= a@);
    assert(b@.subrange(0, b@.len() as int) =~= b@);
    while i < a.len() && i < b.len() && a[i] == b[i]
        invariant
            i <= a@.len(),
            i <= b@.len(),
            chars_lt(a@, b@) == chars_lt(a@.subrange(i as int, a@.len() as int), b@.subrange(i as int, b@.len() as int)),
        decreases a.len() - i,
    {
        assert(a@.subrange(i as int, a@.len() as int).drop_first() =~= a@.subrange(i + 1, a@.len() as int));
        assert(b@.subrange(i as int, b@.len() as int).drop_first() =~= b@.subrange(i + 1, b@.len() as int));
        i += 1;
    }
    assert(a@.subrange(i as int, a@.len() as int).len() == a@.len() - i);
    assert(i < a@.len() ==> a@.subrange(i as int, a@.len() as int)[0] == a@[i as int]);
    assert(i < b@.len() ==> b@.subrange(i as int, b@.len() as int)[0] == b@[i as int]);
    if i == a.len() {
        i < b.len()
    } else if i == b.len() {
        false
    } else {
        (a[i] as u32) < (b[i] as u32)
    }
}

} // verus!
