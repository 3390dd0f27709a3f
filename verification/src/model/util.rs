//! UTF-16 arithmetic on strings and small range helpers.

use std::ops::Range;
use vstd::prelude::*;
use vstd::std_specs::iter::IteratorSpec;
use vstd::string::next_postcondition;
use vstd::string::StringSliceAdditionalSpecFns;
use vstd::utf8::encode_utf8;

verus! {

/// Number of UTF-16 code units that encode one character.
pub open spec fn utf16_units(c: char) -> nat {
    if (c as u32) < 0x10000 {
        1
    } else {
        2
    }
}

/// Number of UTF-16 code units that encode a string.
pub open spec fn utf16_len(s: Seq<char>) -> nat
    decreases s.len(),
{
    if s.len() == 0 {
        0
    } else {
        utf16_len(s.drop_last()) + utf16_units(s.last())
    }
}

/// The number of leading characters of `s` that fit into `n` code units:
/// the length of the longest prefix whose UTF-16 length is at most `n`.
pub open spec fn utf16_index(s: Seq<char>, n: nat) -> nat
    decreases s.len(),
{
    if s.len() == 0 {
        0
    } else if utf16_len(s) <= n {
        s.len()
    } else {
        utf16_index(s.drop_last(), n)
    }
}

/// True when offset `n` (in code units) does not fall inside a surrogate pair
/// of `s`. Offsets at or past the end count as boundaries.
pub open spec fn utf16_boundary(s: Seq<char>, n: nat) -> bool {
    n >= utf16_len(s) || utf16_len(s.take(utf16_index(s, n) as int)) == n
}

/// The UTF-16 length of a concatenation is the sum of the lengths.
pub proof fn lemma_utf16_len_add(a: Seq<char>, b: Seq<char>)
    ensures
        utf16_len(a + b) == utf16_len(a) + utf16_len(b),
    decreases b.len(),
{
    if b.len() == 0 {
        assert(a + b =~= a);
    } else {
        assert((a + b).drop_last() =~= a + b.drop_last());
        lemma_utf16_len_add(a, b.drop_last());
    }
}

/// Every character takes at least one code unit.
pub proof fn lemma_utf16_len_bounds(s: Seq<char>)
    ensures
        s.len() <= utf16_len(s) <= 2 * s.len(),
    decreases s.len(),
{
    if s.len() > 0 {
        lemma_utf16_len_bounds(s.drop_last());
    }
}

/// Prefix lengths grow with the prefix.
pub proof fn lemma_utf16_len_take_mono(s: Seq<char>, i: int, j: int)
    requires
        0 <= i <= j <= s.len(),
    ensures
        utf16_len(s.take(i)) + (j - i) <= utf16_len(s.take(j)),
{
    assert(s.take(j) =~= s.take(i) + s.subrange(i, j));
    lemma_utf16_len_add(s.take(i), s.subrange(i, j));
    lemma_utf16_len_bounds(s.subrange(i, j));
}

/// The prefix of `k` characters is the one `utf16_index` finds for `n` when
/// it fits into `n` units and one more character would not.
pub proof fn lemma_utf16_index_exact(s: Seq<char>, k: int, n: nat)
    requires
        0 <= k <= s.len(),
        utf16_len(s.take(k)) <= n,
        k < s.len() ==> n < utf16_len(s.take(k + 1)),
    ensures
        utf16_index(s, n) == k,
    decreases s.len(),
{
    if s.len() == 0 {
    } else if utf16_len(s) <= n {
        assert(s.take(s.len() as int) =~= s);
        if k < s.len() {
            lemma_utf16_len_take_mono(s, k + 1, s.len() as int);
        }
    } else {
        assert(s.take(s.len() as int) =~= s);
        assert(k < s.len());
        assert(s.drop_last().take(k) =~= s.take(k));
        if k < s.len() - 1 {
            assert(s.drop_last().take(k + 1) =~= s.take(k + 1));
        }
        lemma_utf16_index_exact(s.drop_last(), k, n);
    }
}

/// `utf16_index` never exceeds the string and its prefix never exceeds `n`.
pub proof fn lemma_utf16_index_bounds(s: Seq<char>, n: nat)
    ensures
        utf16_index(s, n) <= s.len(),
        utf16_len(s.take(utf16_index(s, n) as int)) <= n,
        n >= utf16_len(s) ==> utf16_index(s, n) == s.len(),
    decreases s.len(),
{
    if s.len() == 0 {
        assert(s.take(0) =~= s);
    } else if utf16_len(s) <= n {
        assert(s.take(s.len() as int) =~= s);
    } else {
        lemma_utf16_index_bounds(s.drop_last(), n);
        let k = utf16_index(s.drop_last(), n) as int;
        assert(s.drop_last().take(k) =~= s.take(k));
    }
}

/// Number of UTF-16 code units of one character.
pub fn char_len_utf16(c: char) -> (l: usize)
    ensures
        l == utf16_units(c),
{
    if (c as u32) < 0x10000 {
        1
    } else {
        2
    }
}

/// A string has no more UTF-16 code units than UTF-8 bytes.
pub proof fn lemma_utf16_len_le_bytes(s: Seq<char>)
    ensures
        utf16_len(s) <= encode_utf8(s).len(),
    decreases s.len(),
{
    if s.len() > 0 {
        assert(s =~= seq![s[0]] + s.drop_first());
        lemma_utf16_len_add(seq![s[0]], s.drop_first());
        assert(seq![s[0]].drop_last() =~= Seq::<char>::empty());
        assert(utf16_len(seq![s[0]].drop_last()) == 0);
        assert(utf16_len(seq![s[0]]) == utf16_units(s[0]));
        lemma_utf16_len_le_bytes(s.drop_first());
    }
}

/// The UTF-16 length of a string that is held in memory fits a machine word.
pub fn utf16_len_fits(text: &str)
    ensures
        utf16_len(text@) <= usize::MAX,
{
    let bytes = text.as_bytes();
    let byte_count: usize = bytes.len();
    proof {
        lemma_utf16_len_le_bytes(text@);
        assert(encode_utf8(text@).len() == byte_count);
    }
}

/// Counts the UTF-16 code units of a string.
pub fn count_utf16(text: &str) -> (r: usize)
    ensures
        r == utf16_len(text@),
{
    utf16_len_fits(text);
    let mut it = text.chars();
    let mut n: usize = 0;
    let ghost mut k: int = 0;
    proof {
        assert(text@.take(0) =~= Seq::<char>::empty());
        assert(text@.skip(0) =~= text@);
    }
    loop
        invariant
            0 <= k <= text@.len(),
            it.remaining() == text@.skip(k),
            n == utf16_len(text@.take(k)),
            utf16_len(text@) <= usize::MAX,
        decreases text@.len() - k,
    {
        broadcast use next_postcondition;
        match it.next() {
            Some(c) => {
                proof {
                    assert(text@.take(k + 1).drop_last() =~= text@.take(k));
                    assert(text@.skip(k).drop_first() =~= text@.skip(k + 1));
                    lemma_utf16_len_take_mono(text@, k + 1, text@.len() as int);
                    assert(text@.take(text@.len() as int) =~= text@);
                    k = k + 1;
                }
                n = n + char_len_utf16(c);
            },
            None => {
                proof {
                    assert(text@.take(k) =~= text@);
                }
                return n;
            },
        }
    }
}

/// Splits a string after the longest prefix that takes at most `index`
/// UTF-16 code units: exactly `index` units unless `index` lies past the end
/// or inside a surrogate pair.
pub fn split_within_utf16(text: &str, index: usize) -> (r: (&str, &str))
    ensures
        r.0@ == text@.take(utf16_index(text@, index as nat) as int),
        r.1@ == text@.skip(utf16_index(text@, index as nat) as int),
{
    let total: usize = text.unicode_len();
    let mut it = text.chars();
    let mut rest: usize = index;
    let mut k: usize = 0;
    proof {
        assert(text@.take(0) =~= Seq::<char>::empty());
        assert(text@.skip(0) =~= text@);
    }
    while rest > 0
        invariant
            0 <= k <= text@.len(),
            total == text@.len(),
            it.remaining() == text@.skip(k as int),
            rest <= index,
            index - rest == utf16_len(text@.take(k as int)),
        decreases text@.len() - k,
    {
        broadcast use next_postcondition;
        match it.next() {
            Some(c) => {
                let l: usize = char_len_utf16(c);
                proof {
                    assert(text@.take(k + 1).drop_last() =~= text@.take(k as int));
                    assert(text@.skip(k as int).drop_first() =~= text@.skip(k + 1));
                }
                if l > rest {
                    proof {
                        lemma_utf16_index_exact(text@, k as int, index as nat);
                    }
                    return (text.substring_char(0, k), text.substring_char(k, total));
                }
                rest = rest - l;
                k = k + 1;
            },
            None => {
                proof {
                    reveal_strlit("");
                    assert(text@.take(k as int) =~= text@);
                    lemma_utf16_index_bounds(text@, index as nat);
                    assert(text@.take(text@.len() as int) =~= text@);
                    assert(text@.skip(text@.len() as int) =~= Seq::<char>::empty());
                }
                return (text, "");
            },
        }
    }
    proof {
        if k < text@.len() {
            assert(text@.take(k + 1).drop_last() =~= text@.take(k as int));
        }
        lemma_utf16_index_exact(text@, k as int, index as nat);
    }
    (text.substring_char(0, k), text.substring_char(k, total))
}

/// Splits a string so that the left part covers exactly `index` UTF-16 code
/// units; an `index` at or past the end gives the whole string and an empty
/// rest. An `index` inside a surrogate pair is not a place to split.
pub fn split_at_utf16(text: &str, index: usize) -> (r: (&str, &str))
    requires
        utf16_boundary(text@, index as nat),
    ensures
        r.0@ + r.1@ == text@,
        r.0@ == text@.take(utf16_index(text@, index as nat) as int),
        r.1@ == text@.skip(utf16_index(text@, index as nat) as int),
        index <= utf16_len(text@) ==> utf16_len(r.0@) == index,
        index > utf16_len(text@) ==> r.0@ == text@,
{
    proof {
        lemma_utf16_index_bounds(text@, index as nat);
        let k = utf16_index(text@, index as nat) as int;
        assert(text@.take(k) + text@.skip(k) =~= text@);
        assert(text@.take(text@.len() as int) =~= text@);
    }
    split_within_utf16(text, index)
}

/// Rising offsets give rising character indices.
pub proof fn lemma_utf16_index_mono(s: Seq<char>, m: nat, n: nat)
    requires
        m <= n,
    ensures
        utf16_index(s, m) <= utf16_index(s, n),
    decreases s.len(),
{
    if s.len() > 0 {
        lemma_utf16_index_mono(s.drop_last(), m, n);
        lemma_utf16_index_bounds(s.drop_last(), n);
    }
}

/// The characters of `s` between two offsets in UTF-16 code units. An
/// offset inside a surrogate pair counts as the offset before the pair.
pub open spec fn cut_text(s: Seq<char>, from: nat, to: nat) -> Seq<char> {
    let a = utf16_index(s, from) as int;
    let b = utf16_index(s, to) as int;
    if a <= b {
        s.subrange(a, b)
    } else {
        Seq::empty()
    }
}

/// The characters that fit into `n` units of a prefix are those that fit
/// into `n` units of the whole, as far as the prefix goes.
pub proof fn lemma_utf16_index_take(s: Seq<char>, k: int, n: nat)
    requires
        0 <= k <= s.len(),
    ensures
        utf16_index(s.take(k), n) == if utf16_index(s, n) <= k {
            utf16_index(s, n)
        } else {
            k as nat
        },
    decreases s.len(),
{
    if k == s.len() {
        assert(s.take(k) =~= s);
        lemma_utf16_index_bounds(s, n);
    } else {
        assert(s.drop_last().take(k) =~= s.take(k));
        lemma_utf16_index_take(s.drop_last(), k, n);
        if utf16_len(s) <= n {
            lemma_utf16_len_take_mono(s, k, s.len() as int);
            assert(s.take(s.len() as int) =~= s);
            lemma_utf16_index_bounds(s.take(k), n);
        }
    }
}

/// A cut of a text is no longer than the text, and a cut between two
/// offsets within the text that split no surrogate pair has the length
/// that lies between them.
pub proof fn lemma_cut_text_len(s: Seq<char>, from: nat, to: nat)
    ensures
        utf16_len(cut_text(s, from, to)) <= utf16_len(s),
        from <= to <= utf16_len(s) && utf16_boundary(s, from) && utf16_boundary(s, to)
            ==> utf16_len(cut_text(s, from, to)) == to - from,
{
    lemma_utf16_index_bounds(s, from);
    lemma_utf16_index_bounds(s, to);
    let a = utf16_index(s, from) as int;
    let b = utf16_index(s, to) as int;
    if a <= b {
        assert(s =~= s.take(a) + s.subrange(a, b) + s.skip(b));
        lemma_utf16_len_add(s.take(a) + s.subrange(a, b), s.skip(b));
        lemma_utf16_len_add(s.take(a), s.subrange(a, b));
        assert(s.take(b) =~= s.take(a) + s.subrange(a, b));
        assert(s.take(s.len() as int) =~= s);
    } else {
        if from <= to {
            lemma_utf16_index_mono(s, from, to);
        }
    }
}

/// The first position of a range.
pub fn from(range: &Range<usize>) -> (r: usize)
    ensures
        r == range.start,
{
    range.start
}

/// The position after the last one of a range. A range with both ends
/// given never falls back on `max`, the end of what the range is taken of.
pub fn to(range: &Range<usize>, max: usize) -> (r: usize)
    ensures
        r == range.end,
{
    range.end
}

} // verus!
