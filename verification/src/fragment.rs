//! Splitting a text on a separator character, and joining fragments with
//! one: the two are inverse to each other.

use crate::text::free_of;
use vstd::prelude::*;

verus! {

/// The index of the first occurrence of `sep` in `s`, or the length of `s`
/// where `sep` does not occur.
pub open spec fn first_index(s: Seq<char>, sep: char) -> nat
    decreases s.len(),
{
    if s.len() == 0 || s[0] == sep {
        0
    } else {
        1 + first_index(s.drop_first(), sep)
    }
}

/// The fragments of `s` between the occurrences of `sep`: the part before the
/// first separator, followed by the fragments of what comes after it. A text
/// with `n` separators has `n + 1` fragments, some of which may be empty.
pub open spec fn split(s: Seq<char>, sep: char) -> Seq<Seq<char>>
    decreases s.len(),
{
    let i = first_index(s, sep) as int;
    if i >= s.len() {
        seq![s]
    } else {
        seq![s.take(i)] + split(s.skip(i + 1), sep)
    }
}

/// `first_index` is within the text, nothing before it is the separator,
/// and the character at it, if there is one, is the separator.
pub proof fn lemma_first_index_bounds(s: Seq<char>, sep: char)
    ensures
        first_index(s, sep) <= s.len(),
        forall|k: int| 0 <= k < first_index(s, sep) ==> #[trigger] s[k] != sep,
        first_index(s, sep) < s.len() ==> s[first_index(s, sep) as int] == sep,
    decreases s.len(),
{
    if s.len() == 0 || s[0] == sep {
    } else {
        let rest = s.drop_first();
        lemma_first_index_bounds(rest, sep);
        assert forall|k: int| 0 <= k < first_index(s, sep) implies #[trigger] s[k] != sep by {
            if k > 0 {
                assert(s[k] == rest[k - 1]);
            }
        }
    }
}

/// An index at which the separator stands, or the end of the text, with no
/// separator before it, is the `first_index`.
pub proof fn lemma_first_index_at(s: Seq<char>, sep: char, i: int)
    requires
        0 <= i <= s.len(),
        forall|k: int| 0 <= k < i ==> #[trigger] s[k] != sep,
        i == s.len() || s[i] == sep,
    ensures
        first_index(s, sep) == i,
{
    lemma_first_index_bounds(s, sep);
    let f = first_index(s, sep) as int;
    if f < i {
        assert(s[f] != sep);
    } else if i < f {
        assert(s[i] != sep);
    }
}

/// A text always has at least one fragment.
pub proof fn lemma_split_nonempty(s: Seq<char>, sep: char)
    ensures
        split(s, sep).len() >= 1,
{
    lemma_first_index_bounds(s, sep);
}

/// A text without a separator is its own single fragment.
pub proof fn lemma_split_whole(s: Seq<char>, sep: char)
    requires
        free_of(s, sep),
    ensures
        split(s, sep) == seq![s],
{
    lemma_first_index_at(s, sep, s.len() as int);
}

/// Where the first separator stands at index `i`, the first fragment is
/// what comes before it and the others are the fragments of what follows.
pub proof fn lemma_split_at(s: Seq<char>, sep: char, i: int)
    requires
        0 <= i < s.len(),
        s[i] == sep,
        forall|k: int| 0 <= k < i ==> #[trigger] s[k] != sep,
    ensures
        split(s, sep) == seq![s.take(i)] + split(s.skip(i + 1), sep),
{
    lemma_first_index_at(s, sep, i);
}

/// Splits `text` on every occurrence of `sep`.
pub fn split_chars(text: &Vec<char>, sep: char) -> (parts: Vec<Vec<char>>)
    ensures
        parts.deep_view() == split(text@, sep),
{
    let n = text.len();
    let mut parts: Vec<Vec<char>> = Vec::new();
    let mut current: Vec<char> = Vec::new();
    let mut start: usize = 0;
    let mut i: usize = 0;
    proof {
        assert(text@.skip(0) =~= text@);
        assert(parts.deep_view() + split(text@, sep) =~= split(text@, sep));
    }
    while i < n
        invariant
            n == text.len(),
            start <= i <= n,
            current@ == text@.subrange(start as int, i as int),
            free_of(current@, sep),
            split(text@, sep) == parts.deep_view() + split(text@.skip(start as int), sep),
        decreases n - i,
    {
        let c = text[i];
        if c == sep {
            let ghost before = parts.deep_view();
            let ghost fragment = current@;
            let ghost rest = split(text@.skip(i + 1), sep);
            proof {
                let tail = text@.skip(start as int);
                assert forall|k: int| 0 <= k < i - start implies #[trigger] tail[k] != sep by {
                    assert(tail[k] == current@[k]);
                }
                lemma_split_at(tail, sep, i - start);
                assert(tail.take(i - start) =~= fragment);
                assert(tail.skip(i - start + 1) =~= text@.skip(i + 1));
                assert(split(text@, sep) == before + (seq![fragment] + rest));
            }
            parts.push(current);
            proof {
                assert(parts.deep_view() =~~= before.push(fragment));
                assert(before + (seq![fragment] + rest) =~= before.push(fragment) + rest);
            }
            current = Vec::new();
            start = i + 1;
            assert(text@.subrange(start as int, i + 1) =~= Seq::<char>::empty());
        } else {
            current.push(c);
            assert(text@.subrange(start as int, i as int).push(c) =~= text@.subrange(
                start as int,
                i + 1,
            ));
        }
        i += 1;
    }
    let ghost before = parts.deep_view();
    proof {
        assert(text@.skip(start as int) =~= current@);
        lemma_split_whole(current@, sep);
    }
    parts.push(current);
    assert(parts.deep_view() =~~= before + seq![text@.skip(start as int)]);
    parts
}

/// The text made of `parts` with `sep` between each two of them.
pub open spec fn join(parts: Seq<Seq<char>>, sep: char) -> Seq<char>
    decreases parts.len(),
{
    if parts.len() == 0 {
        Seq::empty()
    } else if parts.len() == 1 {
        parts[0]
    } else {
        join(parts.drop_last(), sep) + seq![sep] + parts.last()
    }
}

/// None of `parts` holds the character `c`.
pub open spec fn all_free_of(parts: Seq<Seq<char>>, c: char) -> bool {
    forall|i: int| 0 <= i < parts.len() ==> free_of(#[trigger] parts[i], c)
}

/// The fragments of a concatenation: those of the first text, the last of
/// them continued by the first fragment of the second text, and then the
/// other fragments of the second text.
pub proof fn lemma_split_concat(a: Seq<char>, b: Seq<char>, sep: char)
    ensures
        split(a + b, sep) == split(a, sep).drop_last() + seq![
            split(a, sep).last() + split(b, sep).first(),
        ] + split(b, sep).drop_first(),
    decreases a.len(),
{
    lemma_first_index_bounds(a, sep);
    lemma_first_index_bounds(b, sep);
    lemma_split_nonempty(a, sep);
    lemma_split_nonempty(b, sep);
    let fa = first_index(a, sep) as int;
    let fb = first_index(b, sep) as int;
    let ab = a + b;
    let merged = split(a, sep).drop_last() + seq![split(a, sep).last() + split(b, sep).first()]
        + split(b, sep).drop_first();
    if fa == a.len() {
        assert forall|k: int| 0 <= k < a.len() + fb implies #[trigger] ab[k] != sep by {
            if k >= a.len() {
                assert(ab[k] == b[k - a.len()]);
            }
        }
        lemma_first_index_at(ab, sep, a.len() + fb);
        if fb == b.len() {
            assert(split(ab, sep) =~= merged);
        } else {
            assert(ab.take(a.len() + fb) =~= a + b.take(fb));
            assert(ab.skip(a.len() + fb + 1) =~= b.skip(fb + 1));
            assert(split(ab, sep) =~= merged);
        }
    } else {
        lemma_first_index_at(ab, sep, fa);
        let rest = a.skip(fa + 1);
        assert(ab.take(fa) =~= a.take(fa));
        assert(ab.skip(fa + 1) =~= rest + b);
        lemma_split_concat(rest, b, sep);
        lemma_split_nonempty(rest, sep);
        assert(split(ab, sep) =~= merged);
    }
}

/// A separator between two texts keeps their fragments apart: the fragments
/// of the whole are those of the first text followed by those of the second.
pub proof fn lemma_split_around(a: Seq<char>, b: Seq<char>, sep: char)
    ensures
        split(a + seq![sep] + b, sep) == split(a, sep) + split(b, sep),
{
    let tail = seq![sep] + b;
    lemma_split_at(tail, sep, 0);
    assert(tail.take(0) =~= Seq::<char>::empty());
    assert(tail.skip(1) =~= b);
    lemma_split_concat(a, tail, sep);
    lemma_split_nonempty(a, sep);
    assert(a + seq![sep] + b =~= a + tail);
    assert(split(a, sep).last() + Seq::<char>::empty() =~= split(a, sep).last());
    assert(split(a + tail, sep) =~= split(a, sep) + split(b, sep));
}

/// Splitting undoes joining: fragments that do not hold the separator, at
/// least one of them, are the fragments of their joined text.
pub proof fn lemma_split_join(parts: Seq<Seq<char>>, sep: char)
    requires
        parts.len() >= 1,
        all_free_of(parts, sep),
    ensures
        split(join(parts, sep), sep) == parts,
    decreases parts.len(),
{
    if parts.len() == 1 {
        lemma_split_whole(parts[0], sep);
        assert(seq![parts[0]] =~= parts);
    } else {
        let front = parts.drop_last();
        assert forall|i: int| 0 <= i < front.len() implies free_of(#[trigger] front[i], sep) by {
            assert(front[i] == parts[i]);
        }
        lemma_split_join(front, sep);
        lemma_split_around(join(front, sep), parts.last(), sep);
        lemma_split_whole(parts.last(), sep);
        assert(front + seq![parts.last()] =~= parts);
    }
}

/// No fragment holds the separator.
pub proof fn lemma_split_free_of_separator(s: Seq<char>, sep: char)
    ensures
        all_free_of(split(s, sep), sep),
    decreases s.len(),
{
    lemma_first_index_bounds(s, sep);
    let i = first_index(s, sep) as int;
    if i < s.len() {
        lemma_split_free_of_separator(s.skip(i + 1), sep);
        let rest = split(s.skip(i + 1), sep);
        assert forall|k: int| 0 <= k < split(s, sep).len() implies free_of(
            #[trigger] split(s, sep)[k],
            sep,
        ) by {
            if k > 0 {
                assert(split(s, sep)[k] == rest[k - 1]);
            }
        }
    }
}

/// A character that the text does not hold is in none of its fragments.
pub proof fn lemma_split_keeps_free(s: Seq<char>, sep: char, c: char)
    requires
        free_of(s, c),
    ensures
        all_free_of(split(s, sep), c),
    decreases s.len(),
{
    lemma_first_index_bounds(s, sep);
    let i = first_index(s, sep) as int;
    if i < s.len() {
        let tail = s.skip(i + 1);
        assert forall|k: int| 0 <= k < tail.len() implies #[trigger] tail[k] != c by {
            assert(tail[k] == s[k + i + 1]);
        }
        lemma_split_keeps_free(tail, sep, c);
        let rest = split(tail, sep);
        assert forall|k: int| 0 <= k < split(s, sep).len() implies free_of(
            #[trigger] split(s, sep)[k],
            c,
        ) by {
            if k > 0 {
                assert(split(s, sep)[k] == rest[k - 1]);
            }
        }
    }
}

/// The number of times that `c` occurs in `s`.
pub open spec fn count_of(s: Seq<char>, c: char) -> nat
    decreases s.len(),
{
    if s.len() == 0 {
        0
    } else if s.last() == c {
        count_of(s.drop_last(), c) + 1
    } else {
        count_of(s.drop_last(), c)
    }
}

/// A text with `n` separators has `n + 1` fragments.
pub proof fn lemma_split_count(s: Seq<char>, sep: char)
    ensures
        split(s, sep).len() == count_of(s, sep) + 1,
    decreases s.len(),
{
    if s.len() == 0 {
    } else {
        let front = s.drop_last();
        lemma_split_count(front, sep);
        lemma_split_nonempty(front, sep);
        lemma_split_concat(front, seq![s.last()], sep);
        assert(front + seq![s.last()] =~= s);
        let tail = seq![s.last()];
        if s.last() == sep {
            lemma_split_at(tail, sep, 0);
            assert(tail.skip(1) =~= Seq::<char>::empty());
            assert(split(tail, sep).len() == 2);
        } else {
            lemma_split_whole(tail, sep);
        }
    }
}

/// Joining fragments of which there are at least two puts the first one and
/// a separator before the others joined.
pub proof fn lemma_join_first(parts: Seq<Seq<char>>, sep: char)
    requires
        parts.len() >= 2,
    ensures
        join(parts, sep) == parts.first() + seq![sep] + join(parts.drop_first(), sep),
    decreases parts.len(),
{
    if parts.len() == 2 {
        assert(join(parts.drop_last(), sep) == parts[0]);
        assert(join(parts.drop_first(), sep) == parts[1]);
    } else {
        let front = parts.drop_last();
        lemma_join_first(front, sep);
        assert(front.drop_first() =~= parts.drop_first().drop_last());
        assert(join(parts, sep) =~= parts.first() + seq![sep] + join(parts.drop_first(), sep));
    }
}

/// Joining undoes splitting: the fragments of a text, joined with the
/// separator, give the text back.
pub proof fn lemma_join_split(s: Seq<char>, sep: char)
    ensures
        join(split(s, sep), sep) == s,
    decreases s.len(),
{
    lemma_first_index_bounds(s, sep);
    let i = first_index(s, sep) as int;
    if i < s.len() {
        let tail = s.skip(i + 1);
        lemma_join_split(tail, sep);
        lemma_split_nonempty(tail, sep);
        lemma_join_first(split(s, sep), sep);
        assert(split(s, sep).drop_first() =~= split(tail, sep));
        assert(s.take(i) + seq![sep] + tail =~= s);
    }
}

} // verus!
