//! What the parser tolerates and what it refuses: whitespace around the
//! text and around the pipes of a line changes nothing, and a line that does
//! not start with a pipe is never accepted.

use crate::fragment::{
    first_index, lemma_first_index_bounds, lemma_split_around, lemma_split_concat,
    lemma_split_nonempty, lemma_split_whole, split,
};
use crate::model::{
    data_lines, fragments, lines_of, parse_line, parse_lines, TableError, TableView,
};
use crate::text::{
    all_whitespace, free_of, is_whitespace, lemma_trim_around, lemma_trim_bounds,
    lemma_trim_end_at, lemma_trim_end_bound, lemma_trim_nonempty, lemma_trim_padded,
    lemma_trim_start_at, lemma_trim_start_bound, trim, trim_end, trim_start,
};
use vstd::prelude::*;

verus! {

/// One of the two errors that say that a line does not start or does not
/// end with a pipe.
pub open spec fn is_boundary_error(e: TableError) -> bool {
    e == TableError::MissingLeadingBoundary || e == TableError::MissingTrailingBoundary
}

/// A line whose first character other than whitespace is not a pipe is
/// refused: it has no cells.
pub proof fn lemma_line_without_leading_pipe(line: Seq<char>)
    requires
        trim(line).len() > 0,
        trim(line).first() != '|',
    ensures
        parse_line(line) == Err::<Seq<Seq<char>>, TableError>(
            TableError::MissingLeadingBoundary,
        ),
{
    let (lo, hi) = lemma_trim_bounds(line);
    assert(trim(line).first() == line[lo]);
    lemma_first_index_bounds(line, '|');
    let f = first_index(line, '|') as int;
    if f <= lo {
        if f < lo {
            assert(is_whitespace(line[f]));
        }
        assert(false);
    }
    let first = split(line, '|').first();
    if f >= line.len() {
        assert(first == line);
    } else {
        assert(first == line.take(f));
    }
    assert(first[lo] == line[lo]);
    lemma_trim_nonempty(first, lo);
    assert(fragments(line).first() == trim(first));
}

/// Lines of which one is refused are refused, with a boundary error.
pub proof fn lemma_lines_with_refused_line(lines: Seq<Seq<char>>, k: int)
    requires
        0 <= k < lines.len(),
        parse_line(lines[k]) is Err,
    ensures
        parse_lines(lines) matches Err(e) && is_boundary_error(e),
    decreases lines.len(),
{
    let front = lines.drop_last();
    if k < lines.len() - 1 {
        assert(front[k] == lines[k]);
        lemma_lines_with_refused_line(front, k);
    } else {
        if parse_lines(front) is Err {
            let j = lemma_refused_lines(front);
            lemma_lines_with_refused_line(front, j);
        }
    }
}

/// Where lines are refused, one of them is.
pub proof fn lemma_refused_lines(lines: Seq<Seq<char>>) -> (k: int)
    requires
        parse_lines(lines) is Err,
    ensures
        0 <= k < lines.len(),
        parse_line(lines[k]) is Err,
    decreases lines.len(),
{
    let front = lines.drop_last();
    if parse_lines(front) is Err {
        let k = lemma_refused_lines(front);
        assert(front[k] == lines[k]);
        k
    } else {
        lines.len() - 1
    }
}

/// A text in which the header line or a data line does not start with a
/// pipe is refused with a boundary error. The second line, the separator,
/// is not looked at.
pub proof fn lemma_text_without_leading_pipe(raw: Seq<char>, i: int)
    requires
        0 <= i < lines_of(raw).len(),
        i != 1,
        trim(lines_of(raw)[i]).len() > 0,
        trim(lines_of(raw)[i]).first() != '|',
    ensures
        TableView::parse(raw) matches Err(e) && is_boundary_error(e),
{
    let lines = lines_of(raw);
    lemma_line_without_leading_pipe(lines[i]);
    if i >= 2 {
        let data = lines.skip(2);
        assert(data[i - 2] == lines[i]);
        lemma_lines_with_refused_line(data, i - 2);
    }
}

/// Whitespace before and after the whole text changes nothing in what is
/// parsed.
pub proof fn lemma_parse_ignores_outer_whitespace(
    before: Seq<char>,
    raw: Seq<char>,
    after: Seq<char>,
)
    requires
        all_whitespace(before),
        all_whitespace(after),
    ensures
        TableView::parse(before + raw + after) == TableView::parse(raw),
{
    lemma_trim_padded(before, raw, after);
}

/// Whitespace before and after a pipe changes nothing in the cells of a
/// line.
pub proof fn lemma_line_ignores_padding(
    left: Seq<char>,
    before: Seq<char>,
    after: Seq<char>,
    right: Seq<char>,
)
    requires
        all_whitespace(before),
        all_whitespace(after),
    ensures
        parse_line(left + before + seq!['|'] + after + right) == parse_line(
            left + seq!['|'] + right,
        ),
{
    let padded = left + before + seq!['|'] + after + right;
    let bare = left + seq!['|'] + right;
    let heads = split(left, '|');
    let tails = split(right, '|');
    lemma_split_nonempty(left, '|');
    lemma_split_nonempty(right, '|');
    assert(free_of(before, '|')) by {
        assert forall|j: int| 0 <= j < before.len() implies #[trigger] before[j] != '|' by {
            assert(is_whitespace(before[j]));
        }
    }
    assert(free_of(after, '|')) by {
        assert forall|j: int| 0 <= j < after.len() implies #[trigger] after[j] != '|' by {
            assert(is_whitespace(after[j]));
        }
    }
    lemma_split_whole(before, '|');
    lemma_split_whole(after, '|');
    lemma_split_concat(left, before, '|');
    lemma_split_concat(after, right, '|');
    lemma_split_around(left + before, after + right, '|');
    lemma_split_around(left, right, '|');
    assert(padded =~= (left + before) + seq!['|'] + (after + right));
    let padded_parts = split(padded, '|');
    let bare_parts = split(bare, '|');
    assert(bare_parts == heads + tails);
    assert(padded_parts == split(left + before, '|') + split(after + right, '|'));
    assert(split(left + before, '|') =~= heads.drop_last().push(heads.last() + before));
    assert(split(after + right, '|') =~= seq![after + tails.first()] + tails.drop_first());
    assert(padded_parts.len() == bare_parts.len());
    assert forall|i: int| 0 <= i < bare_parts.len() implies trim(padded_parts[i]) == trim(
        bare_parts[i],
    ) by {
        if i == heads.len() - 1 {
            lemma_trim_padded(Seq::empty(), heads.last(), before);
            assert(Seq::<char>::empty() + heads.last() + before =~= heads.last() + before);
        } else if i == heads.len() {
            lemma_trim_padded(after, tails.first(), Seq::empty());
            assert(after + tails.first() + Seq::<char>::empty() =~= after + tails.first());
        }
    }
    assert(fragments(padded) =~= fragments(bare));
}

/// Lines that are as many and have the same cells one by one give the
/// same rows.
proof fn lemma_same_lines_same_rows(first: Seq<Seq<char>>, second: Seq<Seq<char>>)
    requires
        first.len() == second.len(),
        forall|i: int| 0 <= i < first.len() ==> parse_line(#[trigger] first[i]) == parse_line(
            second[i],
        ),
    ensures
        parse_lines(first) == parse_lines(second),
    decreases first.len(),
{
    if first.len() > 0 {
        let first_front = first.drop_last();
        let second_front = second.drop_last();
        assert forall|i: int| 0 <= i < first_front.len() implies parse_line(
            #[trigger] first_front[i],
        ) == parse_line(second_front[i]) by {
            assert(first_front[i] == first[i]);
            assert(second_front[i] == second[i]);
        }
        lemma_same_lines_same_rows(first_front, second_front);
        assert(parse_line(first[first.len() - 1]) == parse_line(second[first.len() - 1]));
    }
}

/// Whitespace after a text either goes when the start is trimmed, where the
/// text holds whitespace alone, or stays as it is.
proof fn lemma_trim_start_padded(s: Seq<char>, padding: Seq<char>) -> (kept: Seq<char>)
    requires
        all_whitespace(padding),
    ensures
        trim_start(s + padding) == trim_start(s) + kept,
        kept == padding || kept == Seq::<char>::empty(),
{
    let whole = s + padding;
    let k = lemma_trim_start_bound(s);
    if k == s.len() {
        assert forall|j: int| 0 <= j < whole.len() implies is_whitespace(#[trigger] whole[j]) by {
            if j < s.len() {
                assert(whole[j] == s[j]);
            } else {
                assert(whole[j] == padding[j - s.len()]);
            }
        }
        lemma_trim_start_at(whole, whole.len() as int);
        assert(whole.skip(whole.len() as int) =~= s.skip(k) + Seq::<char>::empty());
        Seq::empty()
    } else {
        assert forall|j: int| 0 <= j < k implies is_whitespace(#[trigger] whole[j]) by {
            assert(whole[j] == s[j]);
        }
        assert(whole[k] == s[k]);
        lemma_trim_start_at(whole, k);
        assert(whole.skip(k) =~= s.skip(k) + padding);
        padding
    }
}

/// Whitespace before a text either goes when the end is trimmed, where the
/// text holds whitespace alone, or stays as it is.
proof fn lemma_trim_end_padded(padding: Seq<char>, s: Seq<char>) -> (kept: Seq<char>)
    requires
        all_whitespace(padding),
    ensures
        trim_end(padding + s) == kept + trim_end(s),
        kept == padding || kept == Seq::<char>::empty(),
{
    let whole = padding + s;
    let shift = padding.len() as int;
    let k = lemma_trim_end_bound(s);
    if k == 0 {
        assert forall|j: int| 0 <= j < whole.len() implies is_whitespace(#[trigger] whole[j]) by {
            if j < shift {
                assert(whole[j] == padding[j]);
            } else {
                assert(whole[j] == s[j - shift]);
            }
        }
        lemma_trim_end_at(whole, 0);
        assert(whole.take(0) =~= Seq::<char>::empty() + s.take(k));
        Seq::empty()
    } else {
        assert forall|j: int| shift + k <= j < whole.len() implies is_whitespace(
            #[trigger] whole[j],
        ) by {
            assert(whole[j] == s[j - shift]);
        }
        assert(whole[shift + k - 1] == s[k - 1]);
        lemma_trim_end_at(whole, shift + k);
        assert(whole.take(shift + k) =~= padding + s.take(k));
        padding
    }
}

/// The lines of a text around a middle part that holds no newline: the
/// middle part stands in one line, between the last line of what is before
/// it and the first line of what is after it.
proof fn lemma_lines_around(before: Seq<char>, middle: Seq<char>, after: Seq<char>)
    requires
        free_of(middle, '\n'),
    ensures
        split(before + middle + after, '\n') == split(before, '\n').drop_last() + seq![
            split(before, '\n').last() + middle + split(after, '\n').first(),
        ] + split(after, '\n').drop_first(),
{
    lemma_split_whole(middle, '\n');
    lemma_split_nonempty(before, '\n');
    lemma_split_nonempty(after, '\n');
    lemma_split_concat(middle, after, '\n');
    lemma_split_concat(before, middle + after, '\n');
    assert(before + middle + after =~= before + (middle + after));
    let tails = split(after, '\n');
    assert(split(middle + after, '\n') =~= seq![middle + tails.first()] + tails.drop_first());
    assert(split(before, '\n').last() + (middle + tails.first()) =~= split(before, '\n').last()
        + middle + tails.first());
    assert(split(before + (middle + after), '\n') =~= split(before, '\n').drop_last() + seq![
        split(before, '\n').last() + middle + tails.first(),
    ] + tails.drop_first());
}

/// Whitespace other than newlines before and after a pipe changes nothing
/// in what is parsed.
pub proof fn lemma_parse_ignores_padding(
    left: Seq<char>,
    before: Seq<char>,
    after: Seq<char>,
    right: Seq<char>,
)
    requires
        all_whitespace(before),
        all_whitespace(after),
        free_of(before, '\n'),
        free_of(after, '\n'),
    ensures
        TableView::parse(left + before + seq!['|'] + after + right) == TableView::parse(
            left + seq!['|'] + right,
        ),
{
    let padded = left + before + seq!['|'] + after + right;
    let bare = left + seq!['|'] + right;
    let head = trim_start(left);
    let tail = trim_end(right);
    let kept_before = lemma_trim_start_padded(left, before);
    let kept_after = lemma_trim_end_padded(after, right);
    assert(padded =~= (left + before) + seq!['|'] + (after + right));
    lemma_trim_around(left + before, '|', after + right);
    lemma_trim_around(left, '|', right);
    let padded_pipe = kept_before + seq!['|'] + kept_after;
    assert(trim(padded) =~= head + padded_pipe + tail);
    assert(trim(bare) == head + seq!['|'] + tail);
    assert(free_of(padded_pipe, '\n'));
    assert(free_of(seq!['|'], '\n'));
    lemma_lines_around(head, padded_pipe, tail);
    lemma_lines_around(head, seq!['|'], tail);
    let heads = split(head, '\n');
    let tails = split(tail, '\n');
    lemma_split_nonempty(head, '\n');
    lemma_split_nonempty(tail, '\n');
    let padded_lines = lines_of(padded);
    let bare_lines = lines_of(bare);
    assert(trim(padded)[(head.len() + kept_before.len()) as int] == '|');
    assert(trim(bare)[head.len() as int] == '|');
    assert(padded_lines.len() == bare_lines.len());
    let at = heads.len() - 1;
    assert(padded_lines[at] =~= heads.last() + kept_before + seq!['|'] + kept_after
        + tails.first());
    assert(bare_lines[at] == heads.last() + seq!['|'] + tails.first());
    lemma_line_ignores_padding(heads.last(), kept_before, kept_after, tails.first());
    assert forall|i: int| 0 <= i < padded_lines.len() implies parse_line(
        #[trigger] padded_lines[i],
    ) == parse_line(bare_lines[i]) by {
        if i != at {
            assert(padded_lines[i] == bare_lines[i]);
        }
    }
    let padded_data = data_lines(padded_lines);
    let bare_data = data_lines(bare_lines);
    assert forall|i: int| 0 <= i < padded_data.len() implies parse_line(
        #[trigger] padded_data[i],
    ) == parse_line(bare_data[i]) by {
        assert(padded_data[i] == padded_lines[i + 2]);
        assert(bare_data[i] == bare_lines[i + 2]);
    }
    lemma_same_lines_same_rows(padded_data, bare_data);
}

} // verus!
