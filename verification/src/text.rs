//! Character-level helpers shared by the text pipelines: whitespace, trimming,
//! ASCII case folding, decimal rendering and string assembly.

use vstd::prelude::*;

verus! {

broadcast use vstd::string::group_string_axioms;

/// The Unicode `White_Space` property, the set that `char::is_whitespace` tests.
pub open spec fn is_space(c: char) -> bool {
    ||| ('\u{9}' <= c && c <= '\u{d}')
    ||| c == ' '
    ||| c == '\u{85}'
    ||| c == '\u{a0}'
    ||| c == '\u{1680}'
    ||| ('\u{2000}' <= c && c <= '\u{200a}')
    ||| c == '\u{2028}'
    ||| c == '\u{2029}'
    ||| c == '\u{202f}'
    ||| c == '\u{205f}'
    ||| c == '\u{3000}'
}

/// Whether `c` is whitespace, as `char::is_whitespace` answers: the
/// characters with the Unicode `White_Space` property.
pub(crate) fn char_is_whitespace(c: char) -> (b: bool)
    ensures
        b == is_space(c),
{
    ('\u{9}' <= c && c <= '\u{d}') || c == ' ' || c == '\u{85}' || c == '\u{a0}' || c == '\u{1680}'
        || ('\u{2000}' <= c && c <= '\u{200a}') || c == '\u{2028}' || c == '\u{2029}' || c == '\u{202f}'
        || c == '\u{205f}' || c == '\u{3000}'
}

/// `String::push`: appends one character to the end of the string.
#[verifier::external_body]
pub(crate) fn push_char(s: &mut String, c: char)
    ensures
        final(s)@ == old(s)@.push(c),
{
    s.push(c)
}

/// Collects the characters of `s` into a vector.
pub fn chars_of(s: &str) -> (out: Vec<char>)
    ensures
        out@ == s@,
{
    let mut out: Vec<char> = Vec::new();
    let mut it = s.chars();
    let ghost all = s@;
    loop
        invariant
            vstd::std_specs::iter::IteratorSpec::obeys_prophetic_iter_laws(&it),
            all == s@,
            vstd::std_specs::iter::IteratorSpec::decrease(&it) is Some,
            out@ + vstd::std_specs::iter::IteratorSpec::remaining(&it) == all,
        ensures
            out@ == all,
        decreases vstd::std_specs::iter::IteratorSpec::decrease(&it)->0,
    {
        match it.next() {
            Some(c) => {
                out.push(c);
            },
            None => {
                break ;
            },
        }
    }
    out
}

/// Builds a string holding the characters of `cs[from..to]`.
pub fn string_from_range(cs: &Vec<char>, from: usize, to: usize) -> (s: String)
    requires
        from <= to <= cs.len(),
    ensures
        s@ == cs@.subrange(from as int, to as int),
{
    let mut s = String::new();
    let mut i = from;
    while i < to
        invariant
            from <= i <= to <= cs.len(),
            s@ == cs@.subrange(from as int, i as int),
        decreases to - i,
    {
        push_char(&mut s, cs[i]);
        i += 1;
        assert(s@ =~= cs@.subrange(from as int, i as int));
    }
    s
}

/// Builds a string holding the characters of `cs`.
pub fn string_from_chars(cs: &Vec<char>) -> (s: String)
    ensures
        s@ == cs@,
{
    let s = string_from_range(cs, 0, cs.len());
    assert(cs@.subrange(0, cs@.len() as int) =~= cs@);
    s
}

/// Removes leading whitespace.
pub open spec fn trim_start(s: Seq<char>) -> Seq<char>
    decreases s.len(),
{
    if s.len() > 0 && is_space(s[0]) {
        trim_start(s.drop_first())
    } else {
        s
    }
}

/// Removes trailing whitespace.
pub open spec fn trim_end(s: Seq<char>) -> Seq<char>
    decreases s.len(),
{
    if s.len() > 0 && is_space(s.last()) {
        trim_end(s.drop_last())
    } else {
        s
    }
}

/// Removes leading and trailing whitespace, as `str::trim` does.
pub open spec fn trim(s: Seq<char>) -> Seq<char> {
    trim_end(trim_start(s))
}

/// True when every character of `s` is whitespace.
pub open spec fn all_space(s: Seq<char>) -> bool {
    forall|i: int| 0 <= i < s.len() ==> is_space(#[trigger] s[i])
}

/// The trimmed text is a contiguous piece of the original.
pub proof fn lemma_trim_start_suffix(s: Seq<char>)
    ensures
        exists|k: int| 0 <= k <= s.len() && trim_start(s) == s.subrange(k, s.len() as int) && all_space(s.subrange(0, k)),
        trim_start(s).len() > 0 ==> !is_space(trim_start(s)[0]),
        trim_start(s).len() == 0 <==> all_space(s),
    decreases s.len(),
{
    if s.len() > 0 && is_space(s[0]) {
        lemma_trim_start_suffix(s.drop_first());
        let k = choose|k: int| 0 <= k <= s.drop_first().len() && trim_start(s.drop_first()) == s.drop_first().subrange(k, s.drop_first().len() as int) && all_space(s.drop_first().subrange(0, k));
        assert(s.drop_first().subrange(k, s.drop_first().len() as int) =~= s.subrange(k + 1, s.len() as int));
        assert forall|i: int| 0 <= i < k + 1 implies is_space(#[trigger] s.subrange(0, k + 1)[i]) by {
            if i > 0 {
                assert(s.subrange(0, k + 1)[i] == s.drop_first().subrange(0, k)[i - 1]);
            }
        }
        if all_space(s.drop_first()) {
            assert forall|i: int| 0 <= i < s.len() implies is_space(#[trigger] s[i]) by {
                if i > 0 { assert(s[i] == s.drop_first()[i - 1]); }
            }
        }
        if all_space(s) {
            assert forall|i: int| 0 <= i < s.drop_first().len() implies is_space(#[trigger] s.drop_first()[i]) by {
                assert(s.drop_first()[i] == s[i + 1]);
            }
        }
    } else {
        assert(s.subrange(0, s.len() as int) =~= s);
        assert(s.subrange(0, 0).len() == 0);
    }
}

/// Trimming the end keeps a prefix that, unless empty, ends in a non-space.
pub proof fn lemma_trim_end_prefix(s: Seq<char>)
    ensures
        exists|k: int| 0 <= k <= s.len() && trim_end(s) == s.subrange(0, k),
        trim_end(s).len() > 0 ==> !is_space(trim_end(s).last()),
    decreases s.len(),
{
    if s.len() > 0 && is_space(s.last()) {
        lemma_trim_end_prefix(s.drop_last());
        let k = choose|k: int| 0 <= k <= s.drop_last().len() && trim_end(s.drop_last()) == s.drop_last().subrange(0, k);
        assert(s.drop_last().subrange(0, k) =~= s.subrange(0, k));
    } else {
        assert(s.subrange(0, s.len() as int) =~= s);
    }
}

/// Trimming twice is trimming once.
pub proof fn lemma_trim_idempotent(s: Seq<char>)
    ensures
        trim(trim(s)) == trim(s),
{
    let a = trim_start(s);
    lemma_trim_start_suffix(s);
    lemma_trim_end_prefix(a);
    let b = trim_end(a);
    if b.len() > 0 {
        let k = choose|k: int| 0 <= k <= a.len() && trim_end(a) == a.subrange(0, k);
        assert(b[0] == a[0]);
    }
    assert(trim_start(b) == b);
    assert(trim_end(b) == b);
}

/// Index of the first non-whitespace character of `cs` (or its length).
fn first_non_space(cs: &Vec<char>) -> (k: usize)
    ensures
        k <= cs.len(),
        trim_start(cs@) == cs@.subrange(k as int, cs@.len() as int),
{
    let mut k: usize = 0;
    assert(cs@.subrange(0, cs@.len() as int) =~= cs@);
    while k < cs.len() && char_is_whitespace(cs[k])
        invariant
            k <= cs.len(),
            trim_start(cs@) == trim_start(cs@.subrange(k as int, cs@.len() as int)),
        decreases cs.len() - k,
    {
        assert(cs@.subrange(k as int, cs@.len() as int).drop_first() =~= cs@.subrange(k + 1, cs@.len() as int));
        k += 1;
    }
    k
}

/// Index one past the last non-whitespace character of `cs[from..]` (at least `from`).
fn last_non_space(cs: &Vec<char>, from: usize) -> (k: usize)
    requires
        from <= cs.len(),
    ensures
        from <= k <= cs.len(),
        trim_end(cs@.subrange(from as int, cs@.len() as int)) == cs@.subrange(from as int, k as int),
{
    let mut k: usize = cs.len();
    while k > from && char_is_whitespace(cs[k - 1])
        invariant
            from <= k <= cs.len(),
            trim_end(cs@.subrange(from as int, cs@.len() as int)) == trim_end(cs@.subrange(from as int, k as int)),
        decreases k - from,
    {
        assert(cs@.subrange(from as int, k as int).drop_last() =~= cs@.subrange(from as int, k - 1));
        k -= 1;
    }
    k
}

/// Bounds of the trimmed part of `cs`.
pub fn trim_bounds(cs: &Vec<char>) -> (r: (usize, usize))
    ensures
        r.0 <= r.1 <= cs.len(),
        trim(cs@) == cs@.subrange(r.0 as int, r.1 as int),
{
    let a = first_non_space(cs);
    let b = last_non_space(cs, a);
    (a, b)
}

/// `str::trim` as an owned string.
pub fn trim_string(s: &str) -> (r: String)
    ensures
        r@ == trim(s@),
{
    let cs = chars_of(s);
    let (a, b) = trim_bounds(&cs);
    string_from_range(&cs, a, b)
}

/// `str::trim_end` as an owned string.
pub fn trim_end_string(s: &str) -> (r: String)
    ensures
        r@ == trim_end(s@),
{
    let cs = chars_of(s);
    let b = last_non_space(&cs, 0);
    assert(cs@.subrange(0, cs@.len() as int) =~= cs@);
    string_from_range(&cs, 0, b)
}

/// Whether `s` is empty or made of whitespace only (`s.trim().is_empty()`).
pub fn is_blank(s: &str) -> (b: bool)
    ensures
        b == (trim(s@).len() == 0),
{
    let cs = chars_of(s);
    let (a, b) = trim_bounds(&cs);
    a == b
}

/// ASCII upper-case letters map to lower case; everything else is kept.
pub open spec fn lower_char(c: char) -> char {
    if 'A' <= c && c <= 'Z' {
        ((c as u32) + 32) as char
    } else {
        c
    }
}

/// `str::to_ascii_lowercase` on a character sequence.
pub open spec fn ascii_lower(s: Seq<char>) -> Seq<char> {
    s.map_values(|c: char| lower_char(c))
}

/// `char::to_ascii_lowercase`.
pub fn lower_char_exec(c: char) -> (r: char)
    ensures
        r == lower_char(c),
{
    if 'A' <= c && c <= 'Z' {
        let b = (c as u8) + 32;
        b as char
    } else {
        c
    }
}

/// Lower-cases the ASCII letters of `cs[from..to]` into a new string.
pub fn lower_range(cs: &Vec<char>, from: usize, to: usize) -> (s: String)
    requires
        from <= to <= cs.len(),
    ensures
        s@ == ascii_lower(cs@.subrange(from as int, to as int)),
{
    let mut s = String::new();
    let mut i = from;
    while i < to
        invariant
            from <= i <= to <= cs.len(),
            s@ == ascii_lower(cs@.subrange(from as int, i as int)),
        decreases to - i,
    {
        let c = lower_char_exec(cs[i]);
        push_char(&mut s, c);
        i += 1;
        assert(s@ =~= ascii_lower(cs@.subrange(from as int, i as int)));
    }
    s
}

/// The decimal digit for `d < 10`.
pub open spec fn digit_char(d: nat) -> char {
    ((48 + d) as u32) as char
}

/// Decimal rendering of a natural number, as `Display` for integers prints it.
pub open spec fn decimal(n: nat) -> Seq<char>
    decreases n,
{
    if n < 10 {
        seq![digit_char(n)]
    } else {
        decimal(n / 10).push(digit_char(n % 10))
    }
}

/// Renders `n` in decimal.
pub fn decimal_string(n: u64) -> (s: String)
    ensures
        s@ == decimal(n as nat),
{
    let mut digits: Vec<char> = Vec::new();
    let mut m = n;
    // digits holds the low-order digits, least significant first
    loop
        invariant_except_break
            decimal(n as nat) == decimal(m as nat) + digits@.reverse(),
        ensures
            decimal(n as nat) == digits@.reverse(),
        decreases m,
    {
        let d = m % 10;
        let c = ((48 + d) as u8) as char;
        if m < 10 {
            assert(decimal(m as nat) == seq![c]);
            let ghost old_digits = digits@;
            digits.push(c);
            assert(digits@.reverse() =~= seq![c] + old_digits.reverse());
            break ;
        }
        assert(decimal(m as nat) == decimal((m / 10) as nat).push(c));
        let ghost old_digits = digits@;
        digits.push(c);
        assert(digits@.reverse() =~= seq![c] + old_digits.reverse());
        m = m / 10;
    }
    let mut s = String::new();
    let mut i = digits.len();
    while i > 0
        invariant
            i <= digits.len(),
            s@ == digits@.subrange(i as int, digits@.len() as int).reverse(),
        decreases i,
    {
        i -= 1;
        push_char(&mut s, digits[i]);
        assert(s@ =~= digits@.subrange(i as int, digits@.len() as int).reverse());
    }
    assert(digits@.subrange(0, digits@.len() as int) =~= digits@);
    s
}


/// Whether two character vectors hold the same characters.
pub fn chars_equal(a: &Vec<char>, b: &Vec<char>) -> (r: bool)
    ensures
        r == (a@ == b@),
{
    if a.len() != b.len() {
        return false;
    }
    let mut i: usize = 0;
    while i < a.len()
        invariant
            a@.len() == b@.len(),
            i <= a@.len(),
            forall|k: int| 0 <= k < i ==> a@[k] == b@[k],
        decreases a.len() - i,
    {
        if a[i] != b[i] {
            return false;
        }
        i += 1;
    }
    assert(a@ =~= b@);
    true
}

/// Whether two strings hold the same characters.
pub fn str_equal(a: &str, b: &str) -> (r: bool)
    ensures
        r == (a@ == b@),
{
    let x = chars_of(a);
    let y = chars_of(b);
    chars_equal(&x, &y)
}

/// ASCII letters.
pub open spec fn is_ascii_alpha(c: char) -> bool {
    ('a' <= c && c <= 'z') || ('A' <= c && c <= 'Z')
}

/// `char::is_ascii_alphabetic`.
pub fn is_ascii_alpha_exec(c: char) -> (b: bool)
    ensures
        b == is_ascii_alpha(c),
{
    ('a' <= c && c <= 'z') || ('A' <= c && c <= 'Z')
}

/// Characters of the ASCII range.
pub open spec fn is_ascii_char(c: char) -> bool {
    c <= '\u{7f}'
}

/// Whether every character of `cs` is ASCII.
pub fn all_ascii(cs: &Vec<char>) -> (b: bool)
    ensures
        b == (forall|i: int| 0 <= i < cs@.len() ==> is_ascii_char(#[trigger] cs@[i])),
{
    let mut i: usize = 0;
    while i < cs.len()
        invariant
            i <= cs@.len(),
            forall|k: int| 0 <= k < i ==> is_ascii_char(#[trigger] cs@[k]),
        decreases cs.len() - i,
    {
        if cs[i] > '\u{7f}' {
            return false;
        }
        i += 1;
    }
    true
}


/// The parts joined with `sep` between consecutive parts.
pub open spec fn join(parts: Seq<Seq<char>>, sep: Seq<char>) -> Seq<char>
    decreases parts.len(),
{
    if parts.len() == 0 {
        seq![]
    } else if parts.len() == 1 {
        parts[0]
    } else {
        join(parts.drop_last(), sep) + sep + parts.last()
    }
}

/// Joins strings with a separator, as `[String]::join` does.
pub fn join_strings(parts: &Vec<String>, sep: &str) -> (r: String)
    ensures
        r@ == join(parts@.map_values(|s: String| s@), sep@),
{
    let ghost ps = parts@.map_values(|s: String| s@);
    let mut r = String::new();
    let mut i: usize = 0;
    assert(ps.subrange(0, 0) =~= seq![]);
    while i < parts.len()
        invariant
            i <= parts@.len(),
            ps == parts@.map_values(|s: String| s@),
            r@ == join(ps.subrange(0, i as int), sep@),
        decreases parts.len() - i,
    {
        assert(ps.subrange(0, i + 1).drop_last() =~= ps.subrange(0, i as int));
        assert(ps.subrange(0, i + 1).last() == parts@[i as int]@);
        if i > 0 {
            r.append(sep);
        } else {
            assert(r@ =~= seq![]);
        }
        r.append(parts[i].as_str());
        i += 1;
        assert(r@ =~= join(ps.subrange(0, i as int), sep@));
    }
    assert(ps.subrange(0, ps.len() as int) =~= ps);
    r
}

/// The parts one after another.
pub open spec fn concat(parts: Seq<Seq<char>>) -> Seq<char>
    decreases parts.len(),
{
    if parts.len() == 0 {
        seq![]
    } else {
        concat(parts.drop_last()) + parts.last()
    }
}

/// One more part extends the concatenation by that part.
pub proof fn lemma_concat_push(parts: Seq<Seq<char>>, p: Seq<char>)
    ensures
        concat(parts.push(p)) == concat(parts) + p,
{
    assert(parts.push(p).drop_last() =~= parts);
}

} // verus!
