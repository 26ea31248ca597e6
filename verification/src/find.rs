//! Searching the physical lines of a text for a byte pattern.

use vstd::prelude::*;
use vstd::slice::slice_subrange;
use vstd::string::StringSliceAdditionalSpecFns;
use crate::lines::{
    after_first_line, is_newline, lemma_first_newline, lemma_newline_count_push,
    lemma_newline_free_count, lemma_no_newline, line_count, newline_free, NEWLINE,
};

verus! {

/// The byte that may stand before the newline of a line and is then no part
/// of the line.
pub const CARRIAGE_RETURN: u8 = 13;

/// The first physical line of `data` without what ends it: the bytes before
/// the first newline, less a carriage return right before it, and all of
/// `data` where it holds no newline.
pub open spec fn first_line(data: Seq<u8>) -> Seq<u8> {
    match data.index_of_first(NEWLINE) {
        Some(i) => if i > 0 && data[i - 1] == CARRIAGE_RETURN {
            data.take(i - 1)
        } else {
            data.take(i)
        },
        None => data,
    }
}

/// The physical lines of `data`, each without what ends it.
pub open spec fn lines_of(data: Seq<u8>) -> Seq<Seq<u8>>
    decreases data.len(),
    via lines_of_decreases
{
    if data.len() == 0 {
        Seq::empty()
    } else {
        seq![first_line(data)] + lines_of(after_first_line(data))
    }
}

#[via_fn]
proof fn lines_of_decreases(data: Seq<u8>) {
    data.index_of_first_ensures(NEWLINE);
}

/// Whether `pattern` stands in `line` at index `at`.
pub open spec fn occurs_at(line: Seq<u8>, pattern: Seq<u8>, at: int) -> bool {
    0 <= at && at + pattern.len() <= line.len() && line.subrange(at, at + pattern.len())
        == pattern
}

/// Whether `pattern` stands somewhere in `line`.
pub open spec fn occurs_in(line: Seq<u8>, pattern: Seq<u8>) -> bool {
    exists|at: int| occurs_at(line, pattern, at)
}

/// Whether `found` lists, in ascending order, the index of every line in
/// which `pattern` stands, and nothing else.
pub open spec fn lists_matches(found: Seq<usize>, lines: Seq<Seq<u8>>, pattern: Seq<u8>) -> bool {
    &&& forall|a: int, b: int| 0 <= a < b < found.len() ==> found[a] < found[b]
    &&& forall|k: int|
        0 <= k < found.len() ==> (#[trigger] found[k]) < lines.len() && occurs_in(
            lines[found[k] as int],
            pattern,
        )
    &&& forall|i: int|
        0 <= i < lines.len() && occurs_in(#[trigger] lines[i], pattern) ==> found.contains(
            i as usize,
        )
}

/// The entry of `rows` at position `i`, or 0 where `i` is past the end.
pub open spec fn row_of_next(rows: Seq<usize>, i: int) -> usize {
    if 0 <= i < rows.len() {
        rows[i]
    } else {
        0
    }
}

/// The lines that are searched are the lines that are counted: a text has
/// `line_count` physical lines.
pub proof fn lemma_lines_counted(data: Seq<u8>)
    ensures
        lines_of(data).len() == line_count(data),
    decreases data.len(),
{
    reveal(Seq::filter);
    if data.len() > 0 {
        data.index_of_first_ensures(NEWLINE);
        match data.index_of_first(NEWLINE) {
            None => {
                lemma_newline_free_count(data);
                assert(lines_of(after_first_line(data)) =~= Seq::<Seq<u8>>::empty());
            },
            Some(i) => {
                let head = data.take(i);
                let rest = data.skip(i + 1);
                lemma_lines_counted(rest);
                lemma_newline_free_count(head);
                lemma_newline_count_push(head, NEWLINE);
                assert(head.push(NEWLINE) + rest =~= data);
                Seq::filter_distributes_over_add(
                    head.push(NEWLINE),
                    rest,
                    |byte: u8| is_newline(byte),
                );
            },
        }
    }
}

/// Whether `pattern` stands in `line` at index `at`.
fn matches_at(line: &[u8], pattern: &[u8], at: usize) -> (same: bool)
    requires
        at + pattern.len() <= line.len(),
    ensures
        same == occurs_at(line@, pattern@, at as int),
{
    let ghost part = line@.subrange(at as int, at + pattern.len());
    let mut k: usize = 0;
    while k < pattern.len()
        invariant
            k <= pattern.len(),
            at + pattern.len() <= line.len(),
            part == line@.subrange(at as int, at + pattern.len()),
            forall|j: int| 0 <= j < k ==> part[j] == pattern@[j],
        decreases pattern.len() - k,
    {
        if line[at + k] != pattern[k] {
            return false;
        }
        k = k + 1;
    }
    assert(part =~= pattern@);
    true
}

/// Whether `pattern` stands somewhere in `line`.
fn contains_pattern(line: &[u8], pattern: &[u8]) -> (found: bool)
    ensures
        found == occurs_in(line@, pattern@),
{
    if pattern.len() > line.len() {
        return false;
    }
    let last: usize = line.len() - pattern.len();
    let mut at: usize = 0;
    loop
        invariant
            last == line.len() - pattern.len(),
            at <= last,
            forall|j: int| 0 <= j < at ==> !occurs_at(line@, pattern@, j),
        decreases last - at,
    {
        if matches_at(line, pattern, at) {
            return true;
        }
        if at == last {
            return false;
        }
        at = at + 1;
    }
}

/// Finds every physical line of `data` in which the bytes of `search_str`
/// stand, and returns the indices of these lines in ascending order. The first
/// line has index 0, whether it is a header or not: `has_headers` changes
/// nothing. An empty `search_str` stands in every line.
pub fn find_matching_rows(data: &[u8], search_str: &str, has_headers: bool) -> (matched_rows: Vec<
    usize,
>)
    ensures
        lists_matches(matched_rows@, lines_of(data@), search_str.spec_bytes()),
{
    let pattern = search_str.as_bytes();
    let mut matched_rows: Vec<usize> = Vec::new();
    let mut row_pos: usize = 0;
    let mut start: usize = 0;
    let ghost mut done: Seq<Seq<u8>> = Seq::empty();
    proof {
        assert(data@.skip(0) =~= data@);
        assert(done + lines_of(data@) =~= lines_of(data@));
    }
    while start < data.len()
        invariant
            start <= data.len(),
            row_pos <= start,
            row_pos == done.len(),
            pattern@ == search_str.spec_bytes(),
            lines_of(data@) == done + lines_of(data@.skip(start as int)),
            lists_matches(matched_rows@, done, pattern@),
        decreases data.len() - start,
    {
        let ghost rest = data@.skip(start as int);
        let mut end: usize = start;
        while end < data.len() && data[end] != NEWLINE
            invariant
                start <= end <= data.len(),
                forall|j: int| start <= j < end ==> data@[j] != NEWLINE,
            decreases data.len() - end,
        {
            end = end + 1;
        }
        let terminated = end < data.len();
        let line_end: usize = if terminated && end > start && data[end - 1] == CARRIAGE_RETURN {
            end - 1
        } else {
            end
        };
        let next: usize = if terminated {
            end + 1
        } else {
            end
        };
        let line = slice_subrange(data, start, line_end);
        proof {
            if terminated {
                lemma_first_newline(rest, end - start);
                assert(after_first_line(rest) =~= data@.skip(next as int));
            } else {
                assert(newline_free(rest));
                lemma_no_newline(rest);
                assert(after_first_line(rest) =~= data@.skip(next as int));
            }
            assert(line@ =~= first_line(rest));
            assert(lines_of(rest) == seq![line@] + lines_of(data@.skip(next as int)));
            assert(done + lines_of(rest) =~= done.push(line@) + lines_of(data@.skip(next as int)));
        }
        let ghost before = matched_rows@;
        if contains_pattern(line, pattern) {
            matched_rows.push(row_pos);
            proof {
                assert forall|i: int|
                    0 <= i < done.push(line@).len() && occurs_in(
                        #[trigger] done.push(line@)[i],
                        pattern@,
                    ) implies matched_rows@.contains(i as usize) by {
                    if i < done.len() {
                        assert(done[i] == done.push(line@)[i]);
                        let k = choose|k: int| 0 <= k < before.len() && before[k] == i as usize;
                        assert(matched_rows@[k] == i as usize);
                    } else {
                        assert(matched_rows@[before.len() as int] == i as usize);
                    }
                }
            }
        } else {
            proof {
                assert forall|i: int|
                    0 <= i < done.push(line@).len() && occurs_in(
                        #[trigger] done.push(line@)[i],
                        pattern@,
                    ) implies matched_rows@.contains(i as usize) by {
                    assert(done[i] == done.push(line@)[i]);
                }
            }
        }
        proof {
            done = done.push(line@);
        }
        row_pos = row_pos + 1;
        start = next;
    }
    proof {
        assert(lines_of(data@.skip(start as int)) =~= Seq::<Seq<u8>>::empty());
        assert(done + Seq::<Seq<u8>>::empty() =~= done);
    }
    matched_rows
}

/// Returns the row index stored at position `i` of a list of matching rows,
/// and 0 when `i` is not a position of the list.
pub fn find_row_of_next(vec: Vec<usize>, i: usize) -> (match_index: usize)
    ensures
        match_index == row_of_next(vec@, i as int),
{
    let mut match_index: usize = 0;
    if i < vec.len() {
        match_index = vec[i];
    }
    match_index
}

} // verus!
