//! Physical lines of a text: counting them and stepping over the first.

use vstd::prelude::*;
use vstd::slice::slice_subrange;

verus! {

/// The byte that ends a physical line.
pub const NEWLINE: u8 = 10;

/// Whether a byte ends a physical line.
pub open spec fn is_newline(byte: u8) -> bool {
    byte == NEWLINE
}

/// The number of newline bytes in `data`.
pub open spec fn newline_count(data: Seq<u8>) -> nat {
    data.filter(|byte: u8| is_newline(byte)).len()
}

/// The number of physical lines of `data`: one for each newline byte, and one
/// more for text after the last newline.
pub open spec fn line_count(data: Seq<u8>) -> nat {
    if data.len() > 0 && data.last() != NEWLINE {
        newline_count(data) + 1
    } else {
        newline_count(data)
    }
}

/// The number of data rows among `lines` physical lines, of which the first is
/// a header where `has_header` holds.
pub open spec fn data_row_count(lines: nat, has_header: bool) -> nat {
    if has_header && lines > 0 {
        (lines - 1) as nat
    } else {
        lines
    }
}

/// What follows the first physical line of `data`: the bytes after the first
/// newline, and nothing where `data` holds no newline.
pub open spec fn after_first_line(data: Seq<u8>) -> Seq<u8> {
    match data.index_of_first(NEWLINE) {
        Some(i) => data.skip(i + 1),
        None => Seq::empty(),
    }
}

/// The text in which data rows are looked for: all of `data`, or what follows
/// its first physical line where that line is a header.
pub open spec fn body_of(data: Seq<u8>, has_header: bool) -> Seq<u8> {
    if has_header {
        after_first_line(data)
    } else {
        data
    }
}

/// The text made of `lines`, each followed by a newline.
pub open spec fn text_of_lines(lines: Seq<Seq<u8>>) -> Seq<u8>
    decreases lines.len(),
{
    if lines.len() == 0 {
        Seq::empty()
    } else {
        text_of_lines(lines.drop_last()) + lines.last().push(NEWLINE)
    }
}

/// Whether no byte of `line` is a newline.
pub open spec fn newline_free(line: Seq<u8>) -> bool {
    forall|i: int| 0 <= i < line.len() ==> line[i] != NEWLINE
}

/// A byte added at the end adds one to the newline bytes if it is one.
pub proof fn lemma_newline_count_push(data: Seq<u8>, byte: u8)
    ensures
        newline_count(data.push(byte)) == newline_count(data) + if byte == NEWLINE {
            1nat
        } else {
            0nat
        },
{
    reveal(Seq::filter);
    assert(data.push(byte).drop_last() =~= data);
}

/// Where no byte is a newline, none is counted as one.
pub proof fn lemma_newline_free_count(line: Seq<u8>)
    requires
        newline_free(line),
    ensures
        newline_count(line) == 0,
    decreases line.len(),
{
    reveal(Seq::filter);
    if line.len() > 0 {
        lemma_newline_free_count(line.drop_last());
    }
}

/// The first line of `data` ends at the first newline byte.
pub proof fn lemma_first_newline(data: Seq<u8>, i: int)
    requires
        0 <= i < data.len(),
        data[i] == NEWLINE,
        forall|j: int| 0 <= j < i ==> data[j] != NEWLINE,
    ensures
        data.index_of_first(NEWLINE) == Some(i),
{
    data.index_of_first_ensures(NEWLINE);
}

/// A text without a newline byte is one line that no newline ends.
pub proof fn lemma_no_newline(data: Seq<u8>)
    requires
        newline_free(data),
    ensures
        data.index_of_first(NEWLINE) == None::<int>,
{
    data.index_of_first_ensures(NEWLINE);
}

/// Returns the number of newline bytes in `data`.
fn count_newlines(data: &[u8]) -> (newlines: usize)
    ensures
        newlines == newline_count(data@),
        newlines <= data.len(),
{
    let mut newlines: usize = 0;
    let mut i: usize = 0;
    proof {
        reveal(Seq::filter);
    }
    while i < data.len()
        invariant
            i <= data.len(),
            newlines == newline_count(data@.take(i as int)),
            newlines <= i,
        decreases data.len() - i,
    {
        proof {
            lemma_newline_count_push(data@.take(i as int), data@[i as int]);
            assert(data@.take(i as int + 1) =~= data@.take(i as int).push(data@[i as int]));
        }
        if data[i] == NEWLINE {
            newlines = newlines + 1;
        }
        i = i + 1;
    }
    assert(data@.take(i as int) =~= data@);
    newlines
}

/// A text that ends in another byte than a newline has fewer newline bytes
/// than bytes.
proof fn lemma_open_line(data: Seq<u8>)
    requires
        data.len() > 0,
        data.last() != NEWLINE,
    ensures
        newline_count(data) < data.len(),
{
    lemma_newline_count_push(data.drop_last(), data.last());
    assert(data.drop_last().push(data.last()) =~= data);
    data.drop_last().lemma_filter_len(|byte: u8| is_newline(byte));
}

/// Returns the number of physical lines of `data`. A header line counts like
/// any other.
pub fn get_row_count(data: &[u8]) -> (number_of_rows: usize)
    ensures
        number_of_rows == line_count(data@),
{
    let newlines = count_newlines(data);
    if data.len() > 0 && data[data.len() - 1] != NEWLINE {
        proof {
            lemma_open_line(data@);
        }
        newlines + 1
    } else {
        newlines
    }
}

/// Counts the physical lines of a text that comes in pieces, so that a file
/// can be counted without being held in memory at once.
pub struct LineCounter {
    newlines: Option<usize>,
    open: bool,
    seen: Ghost<Seq<u8>>,
}

impl LineCounter {
    /// The text that was fed so far: the pieces one after the other.
    pub closed spec fn text(self) -> Seq<u8> {
        self.seen@
    }

    #[verifier::type_invariant]
    spec fn counted(self) -> bool {
        &&& match self.newlines {
            Some(newlines) => newlines == newline_count(self.seen@),
            None => newline_count(self.seen@) > usize::MAX,
        }
        &&& self.open == (self.seen@.len() > 0 && self.seen@.last() != NEWLINE)
    }

    /// A counter that was fed nothing.
    pub fn new() -> (counter: LineCounter)
        ensures
            counter.text() == Seq::<u8>::empty(),
    {
        proof {
            reveal(Seq::filter);
        }
        LineCounter { newlines: Some(0), open: false, seen: Ghost(Seq::empty()) }
    }

    /// Feeds the next piece of the text.
    pub fn feed(&mut self, piece: &[u8])
        ensures
            final(self).text() == old(self).text() + piece@,
    {
        proof {
            use_type_invariant(&*self);
        }
        let added = count_newlines(piece);
        let newlines = match self.newlines {
            Some(newlines) => if added <= usize::MAX - newlines {
                Some(newlines + added)
            } else {
                None
            },
            None => None,
        };
        let open = if piece.len() > 0 {
            piece[piece.len() - 1] != NEWLINE
        } else {
            self.open
        };
        let ghost text = self.seen@ + piece@;
        proof {
            Seq::filter_distributes_over_add(self.seen@, piece@, |byte: u8| is_newline(byte));
        }
        *self = LineCounter { newlines, open, seen: Ghost(text) };
    }

    /// Returns the number of physical lines of the text that was fed, or
    /// `None` where the text has more lines than can be numbered.
    pub fn count(&self) -> (number_of_rows: Option<usize>)
        ensures
            match number_of_rows {
                Some(rows) => rows == line_count(self.text()),
                None => line_count(self.text()) > usize::MAX,
            },
    {
        proof {
            use_type_invariant(self);
        }
        match self.newlines {
            Some(newlines) => if !self.open {
                Some(newlines)
            } else if newlines < usize::MAX {
                Some(newlines + 1)
            } else {
                None
            },
            None => None,
        }
    }
}

/// Returns the number of data rows of `data`, counted in physical lines: the
/// header line, where there is one, is left out.
pub fn count_data_rows(data: &[u8], has_header: bool) -> (rows: usize)
    ensures
        rows == data_row_count(line_count(data@), has_header),
{
    let lines = get_row_count(data);
    if has_header && lines > 0 {
        lines - 1
    } else {
        lines
    }
}

/// Returns what follows the first physical line of `data`.
pub fn skip_first_line(data: &[u8]) -> (rest: &[u8])
    ensures
        rest@ == after_first_line(data@),
{
    let mut i: usize = 0;
    while i < data.len()
        invariant
            i <= data.len(),
            forall|j: int| 0 <= j < i ==> data@[j] != NEWLINE,
        decreases data.len() - i,
    {
        if data[i] == NEWLINE {
            proof {
                lemma_first_newline(data@, i as int);
            }
            let rest = slice_subrange(data, i + 1, data.len());
            return rest;
        }
        i = i + 1;
    }
    proof {
        lemma_no_newline(data@);
    }
    let rest = slice_subrange(data, data.len(), data.len());
    rest
}

/// Returns the text in which data rows are looked for: `data` itself, or what
/// follows its header line.
pub fn skip_header(data: &[u8], has_header: bool) -> (body: &[u8])
    ensures
        body@ == body_of(data@, has_header),
{
    if has_header {
        skip_first_line(data)
    } else {
        data
    }
}

proof fn lemma_text_of_lines_count(lines: Seq<Seq<u8>>)
    requires
        forall|i: int| 0 <= i < lines.len() ==> newline_free(#[trigger] lines[i]),
    ensures
        newline_count(text_of_lines(lines)) == lines.len(),
        lines.len() > 0 ==> text_of_lines(lines).len() > 0 && text_of_lines(lines).last()
            == NEWLINE,
        lines.len() == 0 ==> text_of_lines(lines).len() == 0,
    decreases lines.len(),
{
    if lines.len() > 0 {
        let front = lines.drop_last();
        let line = lines.last();
        lemma_text_of_lines_count(front);
        lemma_newline_free_count(line);
        lemma_newline_count_push(line, NEWLINE);
        Seq::filter_distributes_over_add(
            text_of_lines(front),
            line.push(NEWLINE),
            |byte: u8| is_newline(byte),
        );
    }
}

/// A text of newline-terminated lines has as many physical lines as it was
/// made of, so a header line and `rows` data lines count as `rows.len()` data
/// rows once the header is taken off.
pub proof fn lemma_count_of_header_and_rows(header: Seq<u8>, rows: Seq<Seq<u8>>)
    requires
        newline_free(header),
        forall|i: int| 0 <= i < rows.len() ==> newline_free(#[trigger] rows[i]),
    ensures
        line_count(text_of_lines(rows)) == rows.len(),
        data_row_count(line_count(text_of_lines(seq![header] + rows)), true) == rows.len(),
{
    let all = seq![header] + rows;
    lemma_text_of_lines_count(all);
    lemma_text_of_lines_count(rows);
}

/// The last line of a text needs no newline to be counted: a header line and
/// `rows` data lines count as `rows.len()` data rows also where the newline
/// after a non-empty last row is missing.
pub proof fn lemma_count_without_last_newline(header: Seq<u8>, rows: Seq<Seq<u8>>)
    requires
        newline_free(header),
        forall|i: int| 0 <= i < rows.len() ==> newline_free(#[trigger] rows[i]),
        rows.len() > 0,
        rows.last().len() > 0,
    ensures
        data_row_count(line_count(text_of_lines(seq![header] + rows).drop_last()), true)
            == rows.len(),
{
    let all = seq![header] + rows;
    lemma_text_of_lines_count(all);
    let text = text_of_lines(all);
    let cut = text.drop_last();
    lemma_newline_count_push(cut, NEWLINE);
    assert(cut.push(NEWLINE) =~= text);
}

/// What follows a header line is the text after it, whatever the header holds:
/// no byte of the header is left in the body.
pub proof fn lemma_body_after_header(header: Seq<u8>, rest: Seq<u8>)
    requires
        newline_free(header),
    ensures
        body_of(header.push(NEWLINE) + rest, true) == rest,
{
    let data = header.push(NEWLINE) + rest;
    lemma_first_newline(data, header.len() as int);
}

} // verus!
