//! Character-level text operations: whitespace, trimming, measuring, and
//! the conversions between strings and vectors of characters.
//!
//! Every operation is specified over `Seq<char>`, the view of a string, and
//! the executable versions work on vectors of characters.

use vstd::prelude::*;
use vstd::utf8::encode_utf8;

verus! {

/// The characters that count as whitespace: the code points that Unicode
/// marks as `White_Space`.
pub open spec fn spec_is_whitespace(c: char) -> bool {
    ||| '\u{9}' <= c <= '\u{d}'
    ||| c == ' '
    ||| c == '\u{85}'
    ||| c == '\u{a0}'
    ||| c == '\u{1680}'
    ||| '\u{2000}' <= c <= '\u{200a}'
    ||| c == '\u{2028}'
    ||| c == '\u{2029}'
    ||| c == '\u{202f}'
    ||| c == '\u{205f}'
    ||| c == '\u{3000}'
}

/// Tells whether `c` is a whitespace character.
#[verifier::when_used_as_spec(spec_is_whitespace)]
pub fn is_whitespace(c: char) -> (b: bool)
    ensures
        b == spec_is_whitespace(c),
{
    ('\u{9}' <= c && c <= '\u{d}') || c == ' ' || c == '\u{85}' || c == '\u{a0}' || c == '\u{1680}'
        || ('\u{2000}' <= c && c <= '\u{200a}') || c == '\u{2028}' || c == '\u{2029}' || c
        == '\u{202f}' || c == '\u{205f}' || c == '\u{3000}'
}

/// Every character of `s` is whitespace.
pub open spec fn all_whitespace(s: Seq<char>) -> bool {
    forall|i: int| 0 <= i < s.len() ==> is_whitespace(#[trigger] s[i])
}

/// The character `c` does not occur in `s`.
pub open spec fn free_of(s: Seq<char>, c: char) -> bool {
    forall|i: int| 0 <= i < s.len() ==> #[trigger] s[i] != c
}

/// `s` without its leading whitespace.
pub open spec fn trim_start(s: Seq<char>) -> Seq<char>
    decreases s.len(),
{
    if s.len() > 0 && is_whitespace(s[0]) {
        trim_start(s.drop_first())
    } else {
        s
    }
}

/// `s` without its trailing whitespace.
pub open spec fn trim_end(s: Seq<char>) -> Seq<char>
    decreases s.len(),
{
    if s.len() > 0 && is_whitespace(s.last()) {
        trim_end(s.drop_last())
    } else {
        s
    }
}

/// `s` without its leading and trailing whitespace.
pub open spec fn trim(s: Seq<char>) -> Seq<char> {
    trim_end(trim_start(s))
}

/// If the first `k` characters of `s` are whitespace and the next one, if
/// there is one, is not, then trimming the start removes exactly those `k`.
pub proof fn lemma_trim_start_at(s: Seq<char>, k: int)
    requires
        0 <= k <= s.len(),
        forall|j: int| 0 <= j < k ==> is_whitespace(#[trigger] s[j]),
        k == s.len() || !is_whitespace(s[k]),
    ensures
        trim_start(s) == s.skip(k),
    decreases k,
{
    if k == 0 {
        assert(s.skip(0) =~= s);
    } else {
        let rest = s.drop_first();
        assert forall|j: int| 0 <= j < k - 1 implies is_whitespace(#[trigger] rest[j]) by {
            assert(rest[j] == s[j + 1]);
        }
        lemma_trim_start_at(rest, k - 1);
        assert(rest.skip(k - 1) =~= s.skip(k));
    }
}

/// If the characters of `s` from index `k` on are whitespace and the one
/// before them, if there is one, is not, then trimming the end keeps exactly
/// the first `k`.
pub proof fn lemma_trim_end_at(s: Seq<char>, k: int)
    requires
        0 <= k <= s.len(),
        forall|j: int| k <= j < s.len() ==> is_whitespace(#[trigger] s[j]),
        k == 0 || !is_whitespace(s[k - 1]),
    ensures
        trim_end(s) == s.take(k),
    decreases s.len() - k,
{
    if k == s.len() {
        assert(s.take(k) =~= s);
    } else {
        let rest = s.drop_last();
        assert forall|j: int| k <= j < rest.len() implies is_whitespace(#[trigger] rest[j]) by {
            assert(rest[j] == s[j]);
        }
        lemma_trim_end_at(rest, k);
        assert(rest.take(k) =~= s.take(k));
    }
}

/// Trimming keeps the range between the first and the last character that is
/// not whitespace, and nothing where every character is whitespace.
pub proof fn lemma_trim_range(s: Seq<char>, lo: int, hi: int)
    requires
        0 <= lo <= hi <= s.len(),
        forall|j: int| 0 <= j < lo ==> is_whitespace(#[trigger] s[j]),
        forall|j: int| hi <= j < s.len() ==> is_whitespace(#[trigger] s[j]),
        lo == hi || (!is_whitespace(s[lo]) && !is_whitespace(s[hi - 1])),
    ensures
        trim(s) == s.subrange(lo, hi),
{
    if lo == hi {
        lemma_trim_start_at(s, s.len() as int);
        assert(s.skip(s.len() as int) =~= Seq::<char>::empty());
        assert(trim_end(Seq::<char>::empty()) =~= Seq::<char>::empty());
        assert(s.subrange(lo, hi) =~= Seq::<char>::empty());
    } else {
        lemma_trim_start_at(s, lo);
        let rest = s.skip(lo);
        assert forall|j: int| hi - lo <= j < rest.len() implies is_whitespace(
            #[trigger] rest[j],
        ) by {
            assert(rest[j] == s[j + lo]);
        }
        lemma_trim_end_at(rest, hi - lo);
        assert(rest.take(hi - lo) =~= s.subrange(lo, hi));
    }
}

/// The number of whitespace characters at the start of `s`.
pub proof fn lemma_trim_start_bound(s: Seq<char>) -> (k: int)
    ensures
        0 <= k <= s.len(),
        forall|j: int| 0 <= j < k ==> is_whitespace(#[trigger] s[j]),
        k == s.len() || !is_whitespace(s[k]),
        trim_start(s) == s.skip(k),
    decreases s.len(),
{
    if s.len() > 0 && is_whitespace(s[0]) {
        let rest = s.drop_first();
        let inner = lemma_trim_start_bound(rest);
        assert forall|j: int| 0 <= j < inner + 1 implies is_whitespace(#[trigger] s[j]) by {
            if j > 0 {
                assert(s[j] == rest[j - 1]);
            }
        }
        assert(rest.skip(inner) =~= s.skip(inner + 1));
        inner + 1
    } else {
        assert(s.skip(0) =~= s);
        0
    }
}

/// The index from which on `s` holds whitespace alone.
pub proof fn lemma_trim_end_bound(s: Seq<char>) -> (k: int)
    ensures
        0 <= k <= s.len(),
        forall|j: int| k <= j < s.len() ==> is_whitespace(#[trigger] s[j]),
        k == 0 || !is_whitespace(s[k - 1]),
        trim_end(s) == s.take(k),
    decreases s.len(),
{
    if s.len() > 0 && is_whitespace(s.last()) {
        let rest = s.drop_last();
        let inner = lemma_trim_end_bound(rest);
        assert forall|j: int| inner <= j < s.len() implies is_whitespace(#[trigger] s[j]) by {
            if j < rest.len() {
                assert(s[j] == rest[j]);
            }
        }
        assert(rest.take(inner) =~= s.take(inner));
        inner
    } else {
        assert(s.take(s.len() as int) =~= s);
        s.len() as int
    }
}

/// The range of `s` that trimming keeps: whitespace alone stands before it
/// and after it, and it neither starts nor ends with whitespace.
pub proof fn lemma_trim_bounds(s: Seq<char>) -> (bounds: (int, int))
    ensures
        0 <= bounds.0 <= bounds.1 <= s.len(),
        forall|j: int| 0 <= j < bounds.0 ==> is_whitespace(#[trigger] s[j]),
        forall|j: int| bounds.1 <= j < s.len() ==> is_whitespace(#[trigger] s[j]),
        bounds.0 == bounds.1 || (!is_whitespace(s[bounds.0]) && !is_whitespace(s[bounds.1 - 1])),
        trim(s) == s.subrange(bounds.0, bounds.1),
{
    let lo = lemma_trim_start_bound(s);
    let rest = s.skip(lo);
    let kept = lemma_trim_end_bound(rest);
    let hi = lo + kept;
    assert forall|j: int| hi <= j < s.len() implies is_whitespace(#[trigger] s[j]) by {
        assert(s[j] == rest[j - lo]);
    }
    assert(rest.take(kept) =~= s.subrange(lo, hi));
    (lo, hi)
}

/// Whitespace before and after a text does not change what trimming keeps
/// of it.
pub proof fn lemma_trim_padded(before: Seq<char>, s: Seq<char>, after: Seq<char>)
    requires
        all_whitespace(before),
        all_whitespace(after),
    ensures
        trim(before + s + after) == trim(s),
{
    let (lo, hi) = lemma_trim_bounds(s);
    let whole = before + s + after;
    let shift = before.len() as int;
    if lo == hi {
        assert forall|j: int| 0 <= j < whole.len() implies is_whitespace(#[trigger] whole[j]) by {
            if j < shift {
                assert(whole[j] == before[j]);
            } else if j < shift + s.len() {
                assert(whole[j] == s[j - shift]);
            } else {
                assert(whole[j] == after[j - shift - s.len()]);
            }
        }
        lemma_trim_range(whole, 0, 0);
        assert(whole.subrange(0, 0) =~= s.subrange(lo, hi));
    } else {
        assert forall|j: int| 0 <= j < shift + lo implies is_whitespace(#[trigger] whole[j]) by {
            if j < shift {
                assert(whole[j] == before[j]);
            } else {
                assert(whole[j] == s[j - shift]);
            }
        }
        assert forall|j: int| shift + hi <= j < whole.len() implies is_whitespace(
            #[trigger] whole[j],
        ) by {
            if j < shift + s.len() {
                assert(whole[j] == s[j - shift]);
            } else {
                assert(whole[j] == after[j - shift - s.len()]);
            }
        }
        assert(whole[shift + lo] == s[lo]);
        assert(whole[shift + hi - 1] == s[hi - 1]);
        lemma_trim_range(whole, shift + lo, shift + hi);
        assert(whole.subrange(shift + lo, shift + hi) =~= s.subrange(lo, hi));
    }
}

/// Trimming a trimmed text changes nothing.
pub proof fn lemma_trim_idempotent(s: Seq<char>)
    ensures
        trim(trim(s)) == trim(s),
{
    let (lo, hi) = lemma_trim_bounds(s);
    let kept = s.subrange(lo, hi);
    lemma_trim_range(kept, 0, kept.len() as int);
    assert(kept.subrange(0, kept.len() as int) =~= kept);
}

/// A character that a text does not hold is not in the trimmed text either.
pub proof fn lemma_trim_keeps_free(s: Seq<char>, c: char)
    requires
        free_of(s, c),
    ensures
        free_of(trim(s), c),
{
    let (lo, hi) = lemma_trim_bounds(s);
    let kept = s.subrange(lo, hi);
    assert forall|j: int| 0 <= j < kept.len() implies #[trigger] kept[j] != c by {
        assert(kept[j] == s[j + lo]);
    }
}

/// A text that holds a character other than whitespace is not trimmed to
/// nothing.
pub proof fn lemma_trim_nonempty(s: Seq<char>, i: int)
    requires
        0 <= i < s.len(),
        !is_whitespace(s[i]),
    ensures
        trim(s).len() > 0,
{
    let (lo, hi) = lemma_trim_bounds(s);
    if lo == hi {
        if i < lo {
            assert(is_whitespace(s[i]));
        } else {
            assert(is_whitespace(s[i]));
        }
    }
}

/// Around a character that is not whitespace, trimming removes the
/// whitespace at the start of what stands before it and at the end of what
/// stands after it.
pub proof fn lemma_trim_around(before: Seq<char>, c: char, after: Seq<char>)
    requires
        !is_whitespace(c),
    ensures
        trim(before + seq![c] + after) == trim_start(before) + seq![c] + trim_end(after),
{
    let whole = before + seq![c] + after;
    let lo = lemma_trim_start_bound(before);
    let kept = lemma_trim_end_bound(after);
    let shift = before.len() + 1;
    let hi = shift + kept;
    assert forall|j: int| 0 <= j < lo implies is_whitespace(#[trigger] whole[j]) by {
        assert(whole[j] == before[j]);
    }
    assert forall|j: int| hi <= j < whole.len() implies is_whitespace(#[trigger] whole[j]) by {
        assert(whole[j] == after[j - shift]);
    }
    assert(whole[before.len() as int] == c);
    if lo < before.len() {
        assert(whole[lo] == before[lo]);
    }
    if kept > 0 {
        assert(whole[hi - 1] == after[kept - 1]);
    }
    lemma_trim_range(whole, lo, hi);
    assert(whole.subrange(lo, hi) =~= before.skip(lo) + seq![c] + after.take(kept));
}

/// Copies the characters of `v` without its leading and trailing whitespace.
pub fn trim_chars(v: &Vec<char>) -> (trimmed: Vec<char>)
    ensures
        trimmed@ == trim(v@),
{
    let n = v.len();
    let mut lo: usize = 0;
    while lo < n && is_whitespace(v[lo])
        invariant
            n == v.len(),
            lo <= n,
            forall|j: int| 0 <= j < lo ==> is_whitespace(#[trigger] v@[j]),
        decreases n - lo,
    {
        lo += 1;
    }
    let mut hi: usize = n;
    while hi > lo && is_whitespace(v[hi - 1])
        invariant
            n == v.len(),
            lo <= hi <= n,
            forall|j: int| hi <= j < n ==> is_whitespace(#[trigger] v@[j]),
        decreases hi,
    {
        hi -= 1;
    }
    let mut trimmed: Vec<char> = Vec::new();
    let mut i: usize = lo;
    while i < hi
        invariant
            lo <= i <= hi <= v.len(),
            trimmed@ == v@.subrange(lo as int, i as int),
        decreases hi - i,
    {
        trimmed.push(v[i]);
        assert(v@.subrange(lo as int, i as int).push(v@[i as int]) =~= v@.subrange(
            lo as int,
            i + 1,
        ));
        i += 1;
    }
    proof {
        lemma_trim_range(v@, lo as int, hi as int);
    }
    trimmed
}

/// `String::push` of the standard library appends one character to the end
/// of the string and changes nothing else of it.
pub assume_specification[ String::push ](s: &mut String, c: char)
    ensures
        final(s)@ == old(s)@.push(c),
;

/// The characters of `s`, in order.
pub fn to_chars(s: &str) -> (chars: Vec<char>)
    ensures
        chars@ == s@,
{
    let mut chars: Vec<char> = Vec::new();
    for c in it: s.chars()
        invariant
            it.seq() == s@,
            chars@ == it.seq().take(it.index() as int),
    {
        chars.push(c);
    }
    chars
}

/// The string made of `chars`, in order.
pub fn to_string(chars: &Vec<char>) -> (s: String)
    ensures
        s@ == chars@,
{
    let mut s = String::new();
    let mut i: usize = 0;
    while i < chars.len()
        invariant
            i <= chars.len(),
            s@ == chars@.take(i as int),
        decreases chars.len() - i,
    {
        s.push(chars[i]);
        i += 1;
    }
    s
}

/// The width of a text: the number of bytes of its UTF-8 encoding.
pub open spec fn text_width(s: Seq<char>) -> nat {
    encode_utf8(s).len()
}

/// The width of `s` in bytes.
pub fn measure(s: &str) -> (width: usize)
    ensures
        width == text_width(s@),
{
    s.as_bytes().len()
}

/// The text that repeats `c` `n` times.
pub open spec fn repeat(c: char, n: nat) -> Seq<char> {
    Seq::new(n, |i: int| c)
}

/// Appends `n` times the character `c` to `s`.
pub fn push_repeated(s: &mut String, c: char, n: usize)
    ensures
        final(s)@ == old(s)@ + repeat(c, n as nat),
{
    let mut i: usize = 0;
    assert(s@ + repeat(c, 0) =~= s@);
    while i < n
        invariant
            i <= n,
            s@ == old(s)@ + repeat(c, i as nat),
        decreases n - i,
    {
        s.push(c);
        assert((old(s)@ + repeat(c, i as nat)).push(c) =~= old(s)@ + repeat(c, (i + 1) as nat));
        i += 1;
    }
}

} // verus!
