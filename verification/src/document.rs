//! The document: an ordered sequence of lines plus file identity,
//! the remembered search term, and the dirty flag.
//!
//! Editing operations dispatch to the targeted line(s) and re-highlight
//! every line they touch, so a document's overlays are fresh after each
//! operation. Positions whose row lies outside the document, or whose
//! column lies beyond the targeted line, are benign no-ops.

use vstd::prelude::*;
use crate::filetype::{FileType, file_type_of};
use crate::position::Position;
use crate::row::{Row, RowView, highlighted_row, row_find_backward, row_find_forward};

verus! {

/// Which way a search scans from its starting position.
#[derive(Clone, Copy, Debug, PartialEq, Eq, Structural)]
pub enum SearchDirection {
    Forward,
    Backward,
}

/// The views of a line sequence.
pub open spec fn rows_view(rows: Seq<Row>) -> Seq<RowView> {
    rows.map_values(|row: Row| row@)
}

/// An in-memory document.
pub struct Document {
    pub rows: Vec<Row>,
    pub filetype: FileType,
    pub filename: Option<String>,
    pub search_string: Option<String>,
    is_dirty: bool,
}

/// The mathematical content of a document.
pub ghost struct DocumentView {
    pub rows: Seq<RowView>,
    pub filetype: FileType,
    pub filename: Option<Seq<char>>,
    pub search_string: Option<Seq<char>>,
    pub dirty: bool,
}

impl View for Document {
    type V = DocumentView;

    closed spec fn view(&self) -> DocumentView {
        DocumentView {
            rows: rows_view(self.rows@),
            filetype: self.filetype,
            filename: match self.filename {
                Some(ref n) => Some(n@),
                None => None,
            },
            search_string: match self.search_string {
                Some(ref s) => Some(s@),
                None => None,
            },
            dirty: self.is_dirty,
        }
    }
}

/// The view of a line that was just created empty.
pub open spec fn empty_row_view() -> RowView {
    RowView { text: Seq::empty(), syntax: Seq::empty(), shading: Seq::empty() }
}

/// What `insert` does to the line sequence. A row beyond the document
/// is a no-op. A newline at column zero inserts a fresh empty line
/// before the row; at a later column it splits the row's line there and
/// both halves are re-highlighted. Any other character appends a fresh
/// one-character line when the caret sits just past the last line,
/// no-ops when the column lies beyond the line, and otherwise is
/// inserted before the column, the line re-highlighted.
pub open spec fn doc_insert_rows(
    rows: Seq<RowView>,
    ft: FileType,
    term: Option<Seq<char>>,
    c: char,
    x: int,
    y: int,
) -> Seq<RowView> {
    if y > rows.len() {
        rows
    } else if c == '\n' {
        if x == 0 {
            rows.insert(y, empty_row_view())
        } else if y == rows.len() {
            rows
        } else {
            let tx = rows[y].text;
            let cut: int = if x > tx.len() {
                tx.len() as int
            } else {
                x
            };
            rows.update(y, highlighted_row(tx.subrange(0, cut), ft, term)).insert(
                y + 1,
                highlighted_row(tx.subrange(cut, tx.len() as int), ft, term),
            )
        }
    } else if y == rows.len() {
        rows.push(highlighted_row(seq![c], ft, term))
    } else if x > rows[y].text.len() {
        rows
    } else {
        rows.update(y, highlighted_row(rows[y].text.insert(x, c), ft, term))
    }
}

/// Whether `insert` changes the document.
pub open spec fn insert_applies(rows: Seq<RowView>, c: char, x: int, y: int) -> bool {
    if y > rows.len() {
        false
    } else if c == '\n' {
        x == 0 || y < rows.len()
    } else if y == rows.len() {
        true
    } else {
        x <= rows[y].text.len()
    }
}

/// What `delete` does to the line sequence. A row beyond the document
/// is a no-op. A caret at the end of a line that has a successor merges
/// the successor's text into the line and removes the successor;
/// otherwise the character at the column is removed (columns at or past
/// the end change nothing). The touched line is re-highlighted.
pub open spec fn doc_delete_rows(
    rows: Seq<RowView>,
    ft: FileType,
    term: Option<Seq<char>>,
    x: int,
    y: int,
) -> Seq<RowView> {
    if y >= rows.len() {
        rows
    } else if x == rows[y].text.len() && y + 1 < rows.len() {
        rows.update(y, highlighted_row(rows[y].text + rows[y + 1].text, ft, term)).remove(y + 1)
    } else {
        let tx = rows[y].text;
        let ntx = if x < tx.len() {
            tx.remove(x)
        } else {
            tx
        };
        rows.update(y, highlighted_row(ntx, ft, term))
    }
}

/// What a forward document search returns: rows are scanned from `y`
/// to the last row; on row `y` the in-line search starts at `x`, on
/// every later row at column zero. The first row with an occurrence
/// gives the result, as end-of-match column and row.
pub open spec fn doc_find_forward(rows: Seq<RowView>, q: Seq<char>, x: int, y: int) -> Option<
    (int, int),
>
    decreases rows.len() - y,
{
    if y < 0 || y >= rows.len() {
        None
    } else {
        match row_find_forward(rows[y].text, q, x) {
            Some(e) => Some((e, y)),
            None => doc_find_forward(rows, q, 0, y + 1),
        }
    }
}

/// The starting column a backward search uses on a row it reaches from
/// above: the last column of the line, or zero on an empty line.
pub open spec fn backward_start_col(l: int) -> int {
    if l == 0 {
        0
    } else {
        l - 1
    }
}

/// What a backward document search returns: rows are scanned from `y`
/// down to row zero; on row `y` the in-line search starts at `x`, on
/// every earlier row at its backward starting column.
pub open spec fn doc_find_backward(rows: Seq<RowView>, q: Seq<char>, x: int, y: int) -> Option<
    (int, int),
>
    decreases y + 1,
{
    if y < 0 || y >= rows.len() {
        None
    } else {
        match row_find_backward(rows[y].text, q, x) {
            Some(e) => Some((e, y)),
            None => if y == 0 {
                None
            } else {
                doc_find_backward(rows, q, backward_start_col(rows[y - 1].text.len() as int), y - 1)
            },
        }
    }
}

/// The lines' texts.
pub open spec fn row_texts(rows: Seq<RowView>) -> Seq<Seq<char>> {
    rows.map_values(|r: RowView| r.text)
}

/// The characters held in the lines' texts, all lines together.
pub open spec fn total_text_len(rows: Seq<RowView>) -> int
    decreases rows.len(),
{
    if rows.len() == 0 {
        0
    } else {
        rows[0].text.len() + total_text_len(rows.drop_first())
    }
}

/// The document's total character count: the lines' texts plus one
/// separator between each pair of adjacent lines.
pub open spec fn char_count(rows: Seq<RowView>) -> int {
    if rows.len() <= 1 {
        total_text_len(rows)
    } else {
        total_text_len(rows) + rows.len() - 1
    }
}

proof fn lemma_ttl_push(rows: Seq<RowView>, r: RowView)
    ensures
        total_text_len(rows.push(r)) == total_text_len(rows) + r.text.len(),
    decreases rows.len(),
{
    let whole = rows.push(r);
    if rows.len() == 0 {
        assert(whole[0] == r);
        assert(whole.drop_first() =~= Seq::<RowView>::empty());
        assert(total_text_len(Seq::<RowView>::empty()) == 0);
    } else {
        assert(whole[0] == rows[0]);
        assert(whole.drop_first() =~= rows.drop_first().push(r));
        lemma_ttl_push(rows.drop_first(), r);
    }
}

proof fn lemma_ttl_insert(rows: Seq<RowView>, i: int, r: RowView)
    requires
        0 <= i <= rows.len(),
    ensures
        total_text_len(rows.insert(i, r)) == total_text_len(rows) + r.text.len(),
    decreases i,
{
    let whole = rows.insert(i, r);
    if i == 0 {
        assert(whole[0] == r);
        assert(whole.drop_first() =~= rows);
    } else {
        assert(whole[0] == rows[0]);
        assert(whole.drop_first() =~= rows.drop_first().insert(i - 1, r));
        lemma_ttl_insert(rows.drop_first(), i - 1, r);
    }
}

proof fn lemma_ttl_update(rows: Seq<RowView>, i: int, r: RowView)
    requires
        0 <= i < rows.len(),
    ensures
        total_text_len(rows.update(i, r)) == total_text_len(rows) - rows[i].text.len()
            + r.text.len(),
    decreases i,
{
    let whole = rows.update(i, r);
    if i == 0 {
        assert(whole[0] == r);
        assert(whole.drop_first() =~= rows.drop_first());
    } else {
        assert(whole[0] == rows[0]);
        assert(whole.drop_first() =~= rows.drop_first().update(i - 1, r));
        lemma_ttl_update(rows.drop_first(), i - 1, r);
    }
}

proof fn lemma_ttl_remove(rows: Seq<RowView>, i: int)
    requires
        0 <= i < rows.len(),
    ensures
        total_text_len(rows.remove(i)) == total_text_len(rows) - rows[i].text.len(),
    decreases i,
{
    let whole = rows.remove(i);
    if i == 0 {
        assert(whole =~= rows.drop_first());
    } else {
        assert(whole[0] == rows[0]);
        assert(whole.drop_first() =~= rows.drop_first().remove(i - 1));
        lemma_ttl_remove(rows.drop_first(), i - 1);
    }
}

/// The net characters an insertion adds, separators included: one for
/// an applied character or line split, two when a character creates a
/// new last line in a non-empty document, nothing for a no-op.
pub open spec fn insert_char_delta(rows: Seq<RowView>, c: char, x: int, y: int) -> int {
    if y > rows.len() {
        0
    } else if c == '\n' {
        if x == 0 {
            if rows.len() == 0 {
                0
            } else {
                1
            }
        } else if y == rows.len() {
            0
        } else {
            1
        }
    } else if y == rows.len() {
        if rows.len() == 0 {
            1
        } else {
            2
        }
    } else if x > rows[y].text.len() {
        0
    } else {
        1
    }
}

/// The net characters a deletion removes, separators included: one for
/// a removed character or a line merge, nothing for a no-op.
pub open spec fn delete_char_delta(rows: Seq<RowView>, x: int, y: int) -> int {
    if y >= rows.len() {
        0
    } else if x == rows[y].text.len() && y + 1 < rows.len() {
        1
    } else if x < rows[y].text.len() {
        1
    } else {
        0
    }
}

/// An insertion changes the character count by exactly its delta.
pub proof fn lemma_insert_char_count(
    rows: Seq<RowView>,
    ft: FileType,
    term: Option<Seq<char>>,
    c: char,
    x: int,
    y: int,
)
    requires
        0 <= x,
        0 <= y,
    ensures
        char_count(doc_insert_rows(rows, ft, term, c, x, y)) == char_count(rows)
            + insert_char_delta(rows, c, x, y),
{
    if y > rows.len() {
    } else if c == '\n' {
        if x == 0 {
            lemma_ttl_insert(rows, y, empty_row_view());
        } else if y == rows.len() {
        } else {
            let tx = rows[y].text;
            let cut: int = if x > tx.len() {
                tx.len() as int
            } else {
                x
            };
            let head = highlighted_row(tx.subrange(0, cut), ft, term);
            let tail = highlighted_row(tx.subrange(cut, tx.len() as int), ft, term);
            lemma_ttl_update(rows, y, head);
            lemma_ttl_insert(rows.update(y, head), y + 1, tail);
        }
    } else if y == rows.len() {
        lemma_ttl_push(rows, highlighted_row(seq![c], ft, term));
        assert(seq![c].len() == 1);
    } else if x > rows[y].text.len() {
    } else {
        lemma_ttl_update(rows, y, highlighted_row(rows[y].text.insert(x, c), ft, term));
    }
}

/// A deletion changes the character count by exactly its delta.
pub proof fn lemma_delete_char_count(
    rows: Seq<RowView>,
    ft: FileType,
    term: Option<Seq<char>>,
    x: int,
    y: int,
)
    requires
        0 <= x,
        0 <= y,
    ensures
        char_count(doc_delete_rows(rows, ft, term, x, y)) == char_count(rows) - delete_char_delta(
            rows,
            x,
            y,
        ),
{
    if y >= rows.len() {
    } else if x == rows[y].text.len() && y + 1 < rows.len() {
        let merged = highlighted_row(rows[y].text + rows[y + 1].text, ft, term);
        lemma_ttl_update(rows, y, merged);
        assert(rows.update(y, merged)[y + 1] == rows[y + 1]);
        lemma_ttl_remove(rows.update(y, merged), y + 1);
    } else {
        let tx = rows[y].text;
        let ntx = if x < tx.len() {
            tx.remove(x)
        } else {
            tx
        };
        lemma_ttl_update(rows, y, highlighted_row(ntx, ft, term));
    }
}

/// One editing operation, at the specification level.
pub ghost enum EditOp {
    Insert(char, int, int),
    Delete(int, int),
}

/// Coordinates as the executable operations receive them: column and
/// row are unsigned.
pub open spec fn edit_wf(op: EditOp) -> bool {
    match op {
        EditOp::Insert(c, x, y) => 0 <= x && 0 <= y,
        EditOp::Delete(x, y) => 0 <= x && 0 <= y,
    }
}

/// What one operation does to the line sequence: exactly what the
/// executable `insert` and `delete` promise.
pub open spec fn apply_edit(
    ft: FileType,
    term: Option<Seq<char>>,
    rows: Seq<RowView>,
    op: EditOp,
) -> Seq<RowView> {
    match op {
        EditOp::Insert(c, x, y) => doc_insert_rows(rows, ft, term, c, x, y),
        EditOp::Delete(x, y) => doc_delete_rows(rows, ft, term, x, y),
    }
}

/// A sequence of operations applied in order.
pub open spec fn apply_edits(
    ft: FileType,
    term: Option<Seq<char>>,
    rows: Seq<RowView>,
    ops: Seq<EditOp>,
) -> Seq<RowView>
    decreases ops.len(),
{
    if ops.len() == 0 {
        rows
    } else {
        apply_edits(ft, term, apply_edit(ft, term, rows, ops[0]), ops.drop_first())
    }
}

/// The net characters a sequence of operations inserts minus those it
/// deletes, separators from line splits and merges included.
pub open spec fn edits_delta(
    ft: FileType,
    term: Option<Seq<char>>,
    rows: Seq<RowView>,
    ops: Seq<EditOp>,
) -> int
    decreases ops.len(),
{
    if ops.len() == 0 {
        0
    } else {
        (match ops[0] {
            EditOp::Insert(c, x, y) => insert_char_delta(rows, c, x, y),
            EditOp::Delete(x, y) => -delete_char_delta(rows, x, y),
        }) + edits_delta(ft, term, apply_edit(ft, term, rows, ops[0]), ops.drop_first())
    }
}

/// For every sequence of insert and delete operations applied in order,
/// the document's total character count ends up at the starting count
/// plus the net characters inserted minus those deleted, newline-driven
/// line splits and merges accounted as one separator each.
pub proof fn lemma_edit_sequence_char_count(
    ft: FileType,
    term: Option<Seq<char>>,
    rows: Seq<RowView>,
    ops: Seq<EditOp>,
)
    requires
        forall|i: int| 0 <= i < ops.len() ==> edit_wf(ops[i]),
    ensures
        char_count(apply_edits(ft, term, rows, ops)) == char_count(rows) + edits_delta(
            ft,
            term,
            rows,
            ops,
        ),
    decreases ops.len(),
{
    if ops.len() > 0 {
        assert(edit_wf(ops[0]));
        match ops[0] {
            EditOp::Insert(c, x, y) => lemma_insert_char_count(rows, ft, term, c, x, y),
            EditOp::Delete(x, y) => lemma_delete_char_count(rows, ft, term, x, y),
        }
        assert forall|i: int| 0 <= i < ops.drop_first().len() implies edit_wf(
            ops.drop_first()[i],
        ) by {
            assert(ops.drop_first()[i] == ops[i + 1]);
        }
        lemma_edit_sequence_char_count(
            ft,
            term,
            apply_edit(ft, term, rows, ops[0]),
            ops.drop_first(),
        );
    }
}

/// The persisted form of a document: every line's text followed by one
/// newline, in order.
pub open spec fn join_lines(lines: Seq<Seq<char>>) -> Seq<char>
    decreases lines.len(),
{
    if lines.len() == 0 {
        Seq::empty()
    } else {
        lines[0] + seq!['\n'] + join_lines(lines.drop_first())
    }
}

/// Joining one more line appends its text and a newline.
pub proof fn lemma_join_push(lines: Seq<Seq<char>>, l: Seq<char>)
    ensures
        join_lines(lines.push(l)) == join_lines(lines) + l + seq!['\n'],
    decreases lines.len(),
{
    let whole = lines.push(l);
    if lines.len() == 0 {
        assert(whole[0] == l);
        assert(whole.drop_first() =~= Seq::<Seq<char>>::empty());
        assert(join_lines(whole.drop_first()) == Seq::<char>::empty());
        assert(join_lines(whole) =~= join_lines(lines) + l + seq!['\n']);
    } else {
        assert(whole[0] == lines[0]);
        assert(whole.drop_first() =~= lines.drop_first().push(l));
        lemma_join_push(lines.drop_first(), l);
        assert(join_lines(whole) =~= join_lines(lines) + l + seq!['\n']);
    }
}

/// How loading splits a text into lines, scanning from `i` with the
/// current line started at `ls`: a newline ends a line; a final segment
/// without a trailing newline still counts; a trailing newline adds no
/// empty last line.
pub open spec fn split_lines_from(t: Seq<char>, i: int, ls: int) -> Seq<Seq<char>>
    decreases t.len() - i,
{
    if i >= t.len() {
        if ls < i {
            seq![t.subrange(ls, i)]
        } else {
            Seq::empty()
        }
    } else if t[i] == '\n' {
        seq![t.subrange(ls, i)] + split_lines_from(t, i + 1, i + 1)
    } else {
        split_lines_from(t, i + 1, ls)
    }
}

/// The lines of a persisted text.
pub open spec fn split_lines_spec(t: Seq<char>) -> Seq<Seq<char>> {
    split_lines_from(t, 0, 0)
}

/// Splitting only reads the text from the current position on.
proof fn lemma_split_shift(w: Seq<char>, o: int, i: int, ls: int)
    requires
        0 <= o <= ls <= i <= w.len(),
    ensures
        split_lines_from(w, i, ls) == split_lines_from(
            w.subrange(o, w.len() as int),
            i - o,
            ls - o,
        ),
    decreases w.len() - i,
{
    let w2 = w.subrange(o, w.len() as int);
    if i >= w.len() {
        if ls < i {
            assert(w.subrange(ls, i) =~= w2.subrange(ls - o, i - o));
        }
    } else {
        assert(w2[i - o] == w[i]);
        if w[i] == '\n' {
            lemma_split_shift(w, o, i + 1, i + 1);
            assert(w.subrange(ls, i) =~= w2.subrange(ls - o, i - o));
        } else {
            lemma_split_shift(w, o, i + 1, ls);
        }
    }
}

/// Scanning over a newline-free stretch does not change the result.
proof fn lemma_split_no_newline(w: Seq<char>, i: int, ls: int, j: int)
    requires
        0 <= ls <= i <= j <= w.len(),
        forall|k: int| i <= k < j ==> w[k] != '\n',
    ensures
        split_lines_from(w, i, ls) == split_lines_from(w, j, ls),
    decreases j - i,
{
    if i < j {
        assert(w[i] != '\n');
        lemma_split_no_newline(w, i + 1, ls, j);
    }
}

/// Round trip: persisting a sequence of newline-free line texts and
/// splitting the result reproduces the line texts exactly. This is what
/// `serialize` followed by `from_contents` preserves.
pub proof fn lemma_save_open_round_trip(lines: Seq<Seq<char>>)
    requires
        forall|i: int| 0 <= i < lines.len() ==> !lines[i].contains('\n'),
    ensures
        split_lines_spec(join_lines(lines)) == lines,
    decreases lines.len(),
{
    if lines.len() == 0 {
    } else {
        let l0 = lines[0];
        let rest = lines.drop_first();
        let t = join_lines(lines);
        let n0 = l0.len() as int;
        assert(t == l0 + seq!['\n'] + join_lines(rest));
        assert(t.len() == n0 + 1 + join_lines(rest).len());
        assert forall|k: int| 0 <= k < n0 implies t[k] != '\n' by {
            assert(t[k] == l0[k]);
            if l0[k] == '\n' {
                assert(l0.contains('\n'));
            }
        }
        lemma_split_no_newline(t, 0, 0, n0);
        assert(t[n0] == '\n');
        assert(split_lines_from(t, n0, 0) == seq![t.subrange(0, n0)] + split_lines_from(
            t,
            n0 + 1,
            n0 + 1,
        ));
        lemma_split_shift(t, n0 + 1, n0 + 1, n0 + 1);
        assert(t.subrange(n0 + 1, t.len() as int) =~= join_lines(rest));
        assert forall|i: int| 0 <= i < rest.len() implies !rest[i].contains('\n') by {
            assert(rest[i] == lines[i + 1]);
        }
        lemma_save_open_round_trip(rest);
        assert(t.subrange(0, n0) =~= l0);
        assert(split_lines_spec(t) =~= lines);
    }
}

/// Round trip at the document level: splitting what `serialize` writes
/// (`join_lines` of the line texts) reproduces the line texts that
/// `from_contents` builds rows from, provided no line text holds a
/// newline — a line containing one would be split on load.
pub proof fn lemma_document_round_trip(rows: Seq<RowView>)
    requires
        forall|i: int| 0 <= i < rows.len() ==> !rows[i].text.contains('\n'),
    ensures
        split_lines_spec(join_lines(row_texts(rows))) == row_texts(rows),
{
    assert forall|i: int| 0 <= i < row_texts(rows).len() implies !row_texts(rows)[i].contains(
        '\n',
    ) by {
        assert(row_texts(rows)[i] == rows[i].text);
    }
    lemma_save_open_round_trip(row_texts(rows));
}

/// Build one bare line per segment of the contents.
fn split_rows(contents: &Vec<char>) -> (r: Vec<Row>)
    ensures
        row_texts(rows_view(r@)) == split_lines_spec(contents@),
{
    let ghost t = contents@;
    let n = contents.len();
    let mut rows: Vec<Row> = Vec::new();
    let mut cur: Vec<char> = Vec::new();
    let ghost mut ls: int = 0;
    let mut i: usize = 0;
    proof {
        assert(cur@ =~= t.subrange(0, 0));
        assert(row_texts(rows_view(rows@)) =~= Seq::<Seq<char>>::empty());
        assert(split_lines_spec(t) =~= row_texts(rows_view(rows@)) + split_lines_from(t, 0, 0));
    }
    while i < n
        invariant
            n == t.len(),
            t == contents@,
            0 <= ls <= i as int <= n as int,
            cur@ == t.subrange(ls, i as int),
            split_lines_spec(t) == row_texts(rows_view(rows@)) + split_lines_from(
                t,
                i as int,
                ls,
            ),
        decreases n - i,
    {
        let c = contents[i];
        if c == '\n' {
            let ghost before = rows_view(rows@);
            let row = Row::from_chars(cur);
            cur = Vec::new();
            rows.push(row);
            proof {
                assert(rows_view(rows@) =~= before.push(row@));
                assert(row_texts(before.push(row@)) =~= row_texts(before).push(
                    t.subrange(ls, i as int),
                ));
                assert(split_lines_from(t, i as int, ls) == seq![t.subrange(ls, i as int)]
                    + split_lines_from(t, i as int + 1, i as int + 1));
                ls = i as int + 1;
                assert(split_lines_spec(t) =~= row_texts(rows_view(rows@)) + split_lines_from(
                    t,
                    i as int + 1,
                    ls,
                ));
                assert(cur@ =~= t.subrange(ls, i as int + 1));
            }
        } else {
            cur.push(c);
            proof {
                assert(cur@ =~= t.subrange(ls, i as int + 1));
            }
        }
        i += 1;
    }
    if cur.len() > 0 {
        let ghost before = rows_view(rows@);
        let row = Row::from_chars(cur);
        rows.push(row);
        proof {
            assert(rows_view(rows@) =~= before.push(row@));
            assert(row_texts(before.push(row@)) =~= row_texts(before).push(
                t.subrange(ls, n as int),
            ));
            assert(split_lines_from(t, n as int, ls) == seq![t.subrange(ls, n as int)]);
            assert(row_texts(rows_view(rows@)) =~= split_lines_spec(t));
        }
    } else {
        proof {
            assert(split_lines_from(t, n as int, ls) =~= Seq::<Seq<char>>::empty());
            assert(row_texts(rows_view(rows@)) =~= split_lines_spec(t));
        }
    }
    rows
}

/// Scan the rows for `query` without touching them.
fn search_rows(rows: &Vec<Row>, query: &String, at: Position, direction: SearchDirection) -> (r:
    Option<Position>)
    ensures
        ({
            let rv = rows_view(rows@);
            match direction {
                SearchDirection::Forward => match r {
                    Some(p) => doc_find_forward(rv, query@, at.x as int, at.y as int) == Some(
                        (p.x as int, p.y as int),
                    ) && p.y < rows@.len(),
                    None => doc_find_forward(rv, query@, at.x as int, at.y as int) is None,
                },
                SearchDirection::Backward => match r {
                    Some(p) => doc_find_backward(rv, query@, at.x as int, at.y as int) == Some(
                        (p.x as int, p.y as int),
                    ) && p.y < rows@.len(),
                    None => doc_find_backward(rv, query@, at.x as int, at.y as int) is None,
                },
            }
        }),
{
    let ghost rv = rows_view(rows@);
    let doc_len = rows.len();
    if at.y >= doc_len {
        return None;
    }
    match direction {
        SearchDirection::Forward => {
            let mut y = at.y;
            let mut cur_x = at.x;
            while y < doc_len
                invariant
                    direction == SearchDirection::Forward,
                    rv == rows_view(rows@),
                    doc_len == rows@.len(),
                    at.y <= y <= doc_len,
                    cur_x as int == (if y == at.y {
                        at.x as int
                    } else {
                        0
                    }),
                    doc_find_forward(rv, query@, at.x as int, at.y as int) == doc_find_forward(
                        rv,
                        query@,
                        cur_x as int,
                        y as int,
                    ),
                decreases doc_len - y,
            {
                proof {
                    assert(rv[y as int] == rows@[y as int]@);
                }
                match rows[y].find(query, cur_x, SearchDirection::Forward) {
                    Some(x) => {
                        proof {
                            assert(doc_find_forward(rv, query@, cur_x as int, y as int) == Some(
                                (x as int, y as int),
                            ));
                        }
                        return Some(Position { x, y });
                    },
                    None => {
                        proof {
                            assert(doc_find_forward(rv, query@, cur_x as int, y as int)
                                == doc_find_forward(rv, query@, 0, y as int + 1));
                        }
                    },
                }
                y += 1;
                cur_x = 0;
            }
            None
        },
        SearchDirection::Backward => {
            let mut y = at.y;
            let mut cur_x = at.x;
            loop
                invariant
                    direction == SearchDirection::Backward,
                    rv == rows_view(rows@),
                    doc_len == rows@.len(),
                    0 <= y <= at.y < doc_len,
                    cur_x as int == (if y == at.y {
                        at.x as int
                    } else {
                        backward_start_col(rv[y as int].text.len() as int)
                    }),
                    doc_find_backward(rv, query@, at.x as int, at.y as int) == doc_find_backward(
                        rv,
                        query@,
                        cur_x as int,
                        y as int,
                    ),
                decreases y,
            {
                proof {
                    assert(rv[y as int] == rows@[y as int]@);
                }
                match rows[y].find(query, cur_x, SearchDirection::Backward) {
                    Some(x) => {
                        proof {
                            assert(doc_find_backward(rv, query@, cur_x as int, y as int) == Some(
                                (x as int, y as int),
                            ));
                        }
                        return Some(Position { x, y });
                    },
                    None => {},
                }
                if y == 0 {
                    proof {
                        assert(doc_find_backward(rv, query@, cur_x as int, 0) is None);
                    }
                    return None;
                }
                proof {
                    assert(doc_find_backward(rv, query@, cur_x as int, y as int)
                        == doc_find_backward(
                        rv,
                        query@,
                        backward_start_col(rv[y as int - 1].text.len() as int),
                        y as int - 1,
                    ));
                }
                y -= 1;
                proof {
                    assert(rv[y as int] == rows@[y as int]@);
                }
                let l = rows[y].len();
                cur_x = if l == 0 {
                    0
                } else {
                    l - 1
                };
            }
        },
    }
}

impl Document {
    /// The line at `index`, if the document has one.
    pub fn row(&self, index: usize) -> (r: Option<&Row>)
        ensures
            match r {
                Some(row) => index < self@.rows.len() && row@ == self@.rows[index as int],
                None => index >= self@.rows.len(),
            },
    {
        if index < self.rows.len() {
            Some(&self.rows[index])
        } else {
            None
        }
    }

    /// The line at `index`, mutably, if the document has one: the
    /// caller receives the line as it is now, and whatever it leaves
    /// in the reference is what the document holds there afterwards.
    pub fn row_mut(&mut self, index: usize) -> (r: Option<&mut Row>)
        ensures
            match r {
                Some(row) => {
                    &&& index < old(self)@.rows.len()
                    &&& row@ == old(self)@.rows[index as int]
                    &&& final(self)@.rows == old(self)@.rows.update(index as int, final(row)@)
                    &&& final(self)@.filetype == old(self)@.filetype
                    &&& final(self)@.filename == old(self)@.filename
                    &&& final(self)@.search_string == old(self)@.search_string
                    &&& final(self)@.dirty == old(self)@.dirty
                },
                None => index >= old(self)@.rows.len() && final(self)@ == old(self)@,
            },
    {
        if index < self.rows.len() {
            Some(&mut self.rows[index])
        } else {
            None
        }
    }

    /// Whether the document has no lines at all.
    pub fn is_empty(&self) -> (r: bool)
        ensures
            r == (self@.rows.len() == 0),
    {
        self.rows.is_empty()
    }

    /// The number of lines.
    pub fn len(&self) -> (r: usize)
        ensures
            r == self@.rows.len(),
    {
        self.rows.len()
    }

    /// Whether the document has changed since the last successful save.
    pub fn is_dirty(&self) -> (r: bool)
        ensures
            r == self@.dirty,
    {
        self.is_dirty
    }

    /// Insert character `c` at `pos`, per `doc_insert_rows`; the dirty
    /// flag is raised exactly when the document changed.
    pub fn insert(&mut self, c: char, pos: &Position)
        ensures
            final(self)@.rows == doc_insert_rows(
                old(self)@.rows,
                old(self)@.filetype,
                old(self)@.search_string,
                c,
                pos.x as int,
                pos.y as int,
            ),
            final(self)@.filetype == old(self)@.filetype,
            final(self)@.filename == old(self)@.filename,
            final(self)@.search_string == old(self)@.search_string,
            final(self)@.dirty == (old(self)@.dirty || insert_applies(
                old(self)@.rows,
                c,
                pos.x as int,
                pos.y as int,
            )),
    {
        let ghost old_rows = self@.rows;
        let doc_len = self.rows.len();
        if pos.y > doc_len {
            return ;
        }
        if c == '\n' {
            if pos.x == 0 {
                let row = Row::from_chars(Vec::new());
                proof {
                    assert(row@ == empty_row_view()) by {
                        assert(Seq::<char>::empty() =~= row@.text);
                    }
                }
                self.rows.insert(pos.y, row);
                self.is_dirty = true;
                proof {
                    assert(self@.rows =~= old_rows.insert(pos.y as int, empty_row_view()));
                }
            } else if pos.y == doc_len {
                // A caret past the last line has no line to split.
                return ;
            } else {
                let mut row = self.rows.remove(pos.y);
                let mut tail = row.split(pos.x);
                row.highlight(&self.filetype, &self.search_string);
                tail.highlight(&self.filetype, &self.search_string);
                self.rows.insert(pos.y, row);
                self.rows.insert(pos.y + 1, tail);
                self.is_dirty = true;
                proof {
                    assert(self@.rows =~= doc_insert_rows(
                        old_rows,
                        old(self)@.filetype,
                        old(self)@.search_string,
                        c,
                        pos.x as int,
                        pos.y as int,
                    ));
                }
            }
        } else if pos.y == doc_len {
            let mut row = Row::from_chars(Vec::new());
            row.insert(c, 0);
            row.highlight(&self.filetype, &self.search_string);
            self.rows.push(row);
            self.is_dirty = true;
            proof {
                assert(Seq::<char>::empty().insert(0, c) =~= seq![c]);
                assert(self@.rows =~= old_rows.push(
                    highlighted_row(seq![c], old(self)@.filetype, old(self)@.search_string),
                ));
            }
        } else {
            let row_len = self.rows[pos.y].len();
            if pos.x > row_len {
                return ;
            }
            let mut row = self.rows.remove(pos.y);
            row.insert(c, pos.x);
            row.highlight(&self.filetype, &self.search_string);
            self.rows.insert(pos.y, row);
            self.is_dirty = true;
            proof {
                assert(self@.rows =~= old_rows.update(
                    pos.y as int,
                    highlighted_row(
                        old_rows[pos.y as int].text.insert(pos.x as int, c),
                        old(self)@.filetype,
                        old(self)@.search_string,
                    ),
                ));
            }
        }
    }

    /// Delete at `pos`, per `doc_delete_rows`; any position inside the
    /// document marks it dirty.
    pub fn delete(&mut self, pos: &Position)
        ensures
            final(self)@.rows == doc_delete_rows(
                old(self)@.rows,
                old(self)@.filetype,
                old(self)@.search_string,
                pos.x as int,
                pos.y as int,
            ),
            final(self)@.filetype == old(self)@.filetype,
            final(self)@.filename == old(self)@.filename,
            final(self)@.search_string == old(self)@.search_string,
            final(self)@.dirty == (old(self)@.dirty || (pos.y as int) < old(self)@.rows.len()),
    {
        let ghost old_rows = self@.rows;
        let doc_len = self.rows.len();
        if pos.y >= doc_len {
            return ;
        }
        let row_len = self.rows[pos.y].len();
        if pos.x == row_len && pos.y + 1 < doc_len {
            let next_row = self.rows.remove(pos.y + 1);
            let mut row = self.rows.remove(pos.y);
            row.append(&next_row);
            row.highlight(&self.filetype, &self.search_string);
            self.rows.insert(pos.y, row);
            self.is_dirty = true;
            proof {
                assert(self@.rows =~= doc_delete_rows(
                    old_rows,
                    old(self)@.filetype,
                    old(self)@.search_string,
                    pos.x as int,
                    pos.y as int,
                ));
            }
        } else {
            let mut row = self.rows.remove(pos.y);
            row.delete(pos.x);
            row.highlight(&self.filetype, &self.search_string);
            self.rows.insert(pos.y, row);
            self.is_dirty = true;
            proof {
                assert(self@.rows =~= doc_delete_rows(
                    old_rows,
                    old(self)@.filetype,
                    old(self)@.search_string,
                    pos.x as int,
                    pos.y as int,
                ));
            }
        }
    }
    /// Multi-line search, per `doc_find_forward` / `doc_find_backward`.
    /// On a hit the query becomes the remembered search term, the hit's
    /// row is re-highlighted with it, and the end-of-match position is
    /// returned; otherwise nothing changes.
    pub fn find(&mut self, query: &String, at: Position, direction: SearchDirection) -> (r: Option<
        Position,
    >)
        ensures
            ({
                let spec_hit = match direction {
                    SearchDirection::Forward => doc_find_forward(
                        old(self)@.rows,
                        query@,
                        at.x as int,
                        at.y as int,
                    ),
                    SearchDirection::Backward => doc_find_backward(
                        old(self)@.rows,
                        query@,
                        at.x as int,
                        at.y as int,
                    ),
                };
                match r {
                    Some(p) => {
                        &&& spec_hit == Some((p.x as int, p.y as int))
                        &&& (p.y as int) < old(self)@.rows.len()
                        &&& final(self)@.rows == old(self)@.rows.update(
                            p.y as int,
                            highlighted_row(
                                old(self)@.rows[p.y as int].text,
                                old(self)@.filetype,
                                Some(query@),
                            ),
                        )
                        &&& final(self)@.search_string == Some(query@)
                        &&& final(self)@.filetype == old(self)@.filetype
                        &&& final(self)@.filename == old(self)@.filename
                        &&& final(self)@.dirty == old(self)@.dirty
                    },
                    None => final(self)@ == old(self)@ && spec_hit is None,
                }
            }),
    {
        let ghost old_rows = self@.rows;
        let hit = search_rows(&self.rows, query, at, direction);
        match hit {
            Some(p) => {
                self.search_string = Some(query.clone());
                let mut row = self.rows.remove(p.y);
                row.highlight(&self.filetype, &self.search_string);
                self.rows.insert(p.y, row);
                proof {
                    assert(self@.rows =~= old_rows.update(
                        p.y as int,
                        highlighted_row(
                            old_rows[p.y as int].text,
                            old(self)@.filetype,
                            Some(query@),
                        ),
                    ));
                }
                Some(p)
            },
            None => {
                proof {
                    assert(self@ == old(self)@);
                }
                None
            },
        }
    }

    /// Re-highlight every line with the current file type and search
    /// term; used after a search is cancelled to strip match overlays.
    pub fn hightlight(&mut self)
        ensures
            final(self)@.rows.len() == old(self)@.rows.len(),
            forall|i: int|
                0 <= i < old(self)@.rows.len() ==> final(self)@.rows[i] == highlighted_row(
                    old(self)@.rows[i].text,
                    old(self)@.filetype,
                    old(self)@.search_string,
                ),
            final(self)@.filetype == old(self)@.filetype,
            final(self)@.filename == old(self)@.filename,
            final(self)@.search_string == old(self)@.search_string,
            final(self)@.dirty == old(self)@.dirty,
    {
        let n = self.rows.len();
        let mut i: usize = 0;
        while i < n
            invariant
                n == self@.rows.len(),
                n == old(self)@.rows.len(),
                0 <= i <= n,
                self@.filetype == old(self)@.filetype,
                self@.filename == old(self)@.filename,
                self@.search_string == old(self)@.search_string,
                self@.dirty == old(self)@.dirty,
                forall|j: int|
                    0 <= j < i ==> self@.rows[j] == highlighted_row(
                        old(self)@.rows[j].text,
                        old(self)@.filetype,
                        old(self)@.search_string,
                    ),
                forall|j: int| i <= j < n ==> self@.rows[j] == old(self)@.rows[j],
            decreases n - i,
        {
            let ghost before = self@.rows;
            let mut row = self.rows.remove(i);
            row.highlight(&self.filetype, &self.search_string);
            self.rows.insert(i, row);
            proof {
                assert(self@.rows =~= before.update(
                    i as int,
                    highlighted_row(before[i as int].text, self@.filetype, self@.search_string),
                ));
            }
            i += 1;
        }
    }

    /// Build a document from a file's contents: one line per segment of
    /// the text per `split_lines_spec`, each highlighted under the file
    /// type inferred from the filename, with no active search term and
    /// the dirty flag clear.
    pub fn from_contents(filename: String, contents: &Vec<char>) -> (r: Document)
        ensures
            r@.filetype == file_type_of(filename@),
            r@.filename == Some(filename@),
            r@.search_string is None,
            !r@.dirty,
            row_texts(r@.rows) == split_lines_spec(contents@),
            forall|i: int|
                0 <= i < r@.rows.len() ==> r@.rows[i] == highlighted_row(
                    split_lines_spec(contents@)[i],
                    file_type_of(filename@),
                    None,
                ),
    {
        let filetype = FileType::from(filename.as_str());
        let rows = split_rows(contents);
        let mut doc = Document {
            rows,
            filetype,
            filename: Some(filename),
            search_string: None,
            is_dirty: false,
        };
        let ghost lines = split_lines_spec(contents@);
        proof {
            assert(row_texts(doc@.rows) == lines);
            assert(doc@.rows.len() == lines.len());
        }
        doc.hightlight();
        proof {
            assert(row_texts(doc@.rows) =~= lines);
        }
        doc
    }

    /// The persisted form of the document: every line's text followed
    /// by a single newline, in order.
    pub fn serialize(&self) -> (r: Vec<char>)
        ensures
            r@ == join_lines(row_texts(self@.rows)),
    {
        let n = self.rows.len();
        let mut out: Vec<char> = Vec::new();
        let mut i: usize = 0;
        proof {
            assert(self@.rows.take(0) =~= Seq::<RowView>::empty());
            assert(row_texts(self@.rows.take(0)) =~= Seq::<Seq<char>>::empty());
            assert(out@ =~= join_lines(row_texts(self@.rows.take(0))));
        }
        while i < n
            invariant
                n == self@.rows.len(),
                0 <= i <= n,
                out@ == join_lines(row_texts(self@.rows.take(i as int))),
            decreases n - i,
        {
            proof {
                assert(self@.rows[i as int] == self.rows@[i as int]@);
            }
            let text = self.rows[i].text();
            let ghost base = out@;
            let m = text.len();
            let mut j: usize = 0;
            while j < m
                invariant
                    m == text@.len(),
                    0 <= j <= m,
                    out@ == base + text@.subrange(0, j as int),
                decreases m - j,
            {
                out.push(text[j]);
                proof {
                    assert(out@ =~= base + text@.subrange(0, j + 1));
                }
                j += 1;
            }
            out.push('\n');
            proof {
                lemma_join_push(row_texts(self@.rows.take(i as int)), text@);
                assert(self@.rows.take(i as int + 1) =~= self@.rows.take(i as int).push(
                    self@.rows[i as int],
                ));
                assert(row_texts(self@.rows.take(i as int).push(self@.rows[i as int])) =~=
                    row_texts(self@.rows.take(i as int)).push(text@));
                assert(text@.subrange(0, m as int) =~= text@);
                assert(out@ =~= join_lines(row_texts(self@.rows.take(i as int + 1))));
            }
            i += 1;
        }
        proof {
            assert(self@.rows.take(n as int) =~= self@.rows);
        }
        out
    }

    /// Record that the document matches what was just persisted.
    pub fn mark_saved(&mut self)
        ensures
            final(self)@.rows == old(self)@.rows,
            final(self)@.filetype == old(self)@.filetype,
            final(self)@.filename == old(self)@.filename,
            final(self)@.search_string == old(self)@.search_string,
            !final(self)@.dirty,
    {
        self.is_dirty = false;
    }
}

impl Default for Document {
    /// A new, unsaved, empty document with no recognised file type.
    fn default() -> (r: Document)
        ensures
            r@.rows == Seq::<RowView>::empty(),
            r@.filetype == FileType::PlainText,
            r@.filename is None,
            r@.search_string is None,
            !r@.dirty,
    {
        let rows: Vec<Row> = Vec::new();
        let r = Document {
            rows,
            filetype: FileType::PlainText,
            filename: None,
            search_string: None,
            is_dirty: false,
        };
        proof {
            assert(r@.rows =~= Seq::<RowView>::empty());
        }
        r
    }
}

} // verus!
