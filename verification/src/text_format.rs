use vstd::prelude::*;

verus! {

// The text encoding renders each row of the grid as a debug-style list of
// single-character tokens followed by a newline, e.g. a three-wide row of
// alive/dead/dead cells becomes the line `['O', '.', '.']`. Everything here
// works on the UTF-8 bytes of that text; every byte the format emits is
// ASCII.
/// The byte of `'O'`, the alive marker.
pub const ALIVE_BYTE: u8 = 79;

/// The byte of `'.'`, the dead marker.
pub const DEAD_BYTE: u8 = 46;

/// The byte of `'\''`, the quote around each marker.
pub const QUOTE_BYTE: u8 = 39;

/// The byte of `','`, the separator between tokens.
pub const COMMA_BYTE: u8 = 44;

/// The byte of `' '`, the space after each separator.
pub const SPACE_BYTE: u8 = 32;

/// The byte of `'['`, opening a row.
pub const LBRACKET_BYTE: u8 = 91;

/// The byte of `']'`, closing a row.
pub const RBRACKET_BYTE: u8 = 93;

/// The byte of `'\n'`, ending each row's line.
pub const NEWLINE_BYTE: u8 = 10;

/// The marker byte of one cell.
pub open spec fn cell_byte(alive: bool) -> u8 {
    if alive {
        ALIVE_BYTE
    } else {
        DEAD_BYTE
    }
}

/// The quoted, comma-separated tokens of one row, without the brackets.
pub open spec fn row_tokens(row: Seq<bool>) -> Seq<u8>
    decreases row.len(),
{
    if row.len() == 0 {
        Seq::empty()
    } else if row.len() == 1 {
        seq![QUOTE_BYTE, cell_byte(row[0]), QUOTE_BYTE]
    } else {
        seq![QUOTE_BYTE, cell_byte(row[0]), QUOTE_BYTE, COMMA_BYTE, SPACE_BYTE] + row_tokens(
            row.drop_first(),
        )
    }
}

/// One row's line, without its newline.
pub open spec fn encode_line(row: Seq<bool>) -> Seq<u8> {
    seq![LBRACKET_BYTE] + row_tokens(row) + seq![RBRACKET_BYTE]
}

/// One row's line, newline included.
pub open spec fn encode_row(row: Seq<bool>) -> Seq<u8> {
    encode_line(row) + seq![NEWLINE_BYTE]
}

/// The full text encoding of a grid's rows.
pub open spec fn encode_rows(rows: Seq<Seq<bool>>) -> Seq<u8>
    decreases rows.len(),
{
    if rows.len() == 0 {
        Seq::empty()
    } else {
        encode_row(rows.first()) + encode_rows(rows.drop_first())
    }
}

/// Splitting on newline bytes: `n` newlines give `n + 1` pieces, so a text
/// that ends in a newline ends in an empty piece.
pub open spec fn split_lines(s: Seq<u8>) -> Seq<Seq<u8>>
    decreases s.len(),
{
    if s.len() == 0 {
        seq![Seq::<u8>::empty()]
    } else if s.first() == NEWLINE_BYTE {
        seq![Seq::<u8>::empty()] + split_lines(s.drop_first())
    } else {
        let rest = split_lines(s.drop_first());
        seq![seq![s.first()] + rest.first()] + rest.drop_first()
    }
}

/// The rows of the text: every piece of the newline split except the
/// trailing empty ones, which a final newline (or several) leaves behind
/// and which do not count toward the height. An empty line anywhere else
/// is a row like any other — it denotes no cells, so it can never match
/// the grid's width and decoding fails on it.
pub open spec fn trim_trailing_empty(ls: Seq<Seq<u8>>) -> Seq<Seq<u8>>
    decreases ls.len(),
{
    if ls.len() == 0 {
        ls
    } else if ls.last().len() == 0 {
        trim_trailing_empty(ls.drop_last())
    } else {
        ls
    }
}

/// The first non-empty row, from which the grid width is inferred.
pub open spec fn first_nonempty(rows: Seq<Seq<u8>>) -> Seq<u8>
    decreases rows.len(),
{
    if rows.len() == 0 {
        Seq::empty()
    } else if rows.first().len() > 0 {
        rows.first()
    } else {
        first_nonempty(rows.drop_first())
    }
}

/// The cells a line denotes: only the two marker bytes count, every other
/// byte (quotes, brackets, commas, spaces, anything else) is structural
/// noise and is skipped.
pub open spec fn line_cells(l: Seq<u8>) -> Seq<bool>
    decreases l.len(),
{
    if l.len() == 0 {
        Seq::empty()
    } else if l.first() == ALIVE_BYTE {
        seq![true] + line_cells(l.drop_first())
    } else if l.first() == DEAD_BYTE {
        seq![false] + line_cells(l.drop_first())
    } else {
        line_cells(l.drop_first())
    }
}

/// The number of comma bytes in a line. The decoder infers the grid width
/// from the first non-empty line as this count plus one.
pub open spec fn comma_count(l: Seq<u8>) -> int
    decreases l.len(),
{
    if l.len() == 0 {
        0
    } else {
        (if l.first() == COMMA_BYTE {
            1int
        } else {
            0int
        }) + comma_count(l.drop_first())
    }
}

/// Whether every row denotes exactly `w` cells.
pub open spec fn rows_ok(rows: Seq<Seq<u8>>, w: int) -> bool {
    forall|i: int| 0 <= i < rows.len() ==> line_cells(#[trigger] rows[i]).len() == w
}

/// The index of the first row whose cell count is not `w`.
pub open spec fn first_bad_row(rows: Seq<Seq<u8>>, w: int) -> int
    decreases rows.len(),
{
    if rows.len() == 0 {
        0
    } else if line_cells(rows.first()).len() != w {
        0
    } else {
        1 + first_bad_row(rows.drop_first(), w)
    }
}

/// What the text decoder makes of the bytes `s`: on success the inferred
/// width, the height and the row-by-row aliveness; on failure the index of
/// the first offending row. The rows are the newline-split pieces minus the
/// trailing empty ones; the width comes from the first non-empty row. A
/// text with no row at all — empty, or nothing but newlines — decodes to a
/// grid of height zero, whose width is one (the comma count of the first,
/// empty line plus one).
pub open spec fn decoded_grid(s: Seq<u8>) -> Result<(int, int, Seq<Seq<bool>>), int> {
    let rows = trim_trailing_empty(split_lines(s));
    if rows.len() == 0 {
        Ok((1, 0, Seq::empty()))
    } else {
        let w = comma_count(first_nonempty(rows)) + 1;
        if rows_ok(rows, w) {
            Ok((w, rows.len() as int, rows.map_values(|l: Seq<u8>| line_cells(l))))
        } else {
            Err(first_bad_row(rows, w))
        }
    }
}

pub proof fn lemma_split_lines_len(s: Seq<u8>)
    ensures
        1 <= split_lines(s).len() <= s.len() + 1,
    decreases s.len(),
{
    if s.len() > 0 {
        lemma_split_lines_len(s.drop_first());
    }
}

/// Splitting a text that starts with a newline-free line and its newline
/// peels that line off the front.
pub proof fn lemma_split_prefix_line(l: Seq<u8>, s: Seq<u8>)
    requires
        forall|i: int| 0 <= i < l.len() ==> l[i] != NEWLINE_BYTE,
    ensures
        split_lines(l + seq![NEWLINE_BYTE] + s) == seq![l] + split_lines(s),
    decreases l.len(),
{
    if l.len() == 0 {
        assert(l + seq![NEWLINE_BYTE] + s =~= seq![NEWLINE_BYTE] + s);
        let t = seq![NEWLINE_BYTE] + s;
        assert(t.drop_first() =~= s);
        assert(l =~= Seq::<u8>::empty());
        assert(split_lines(t) == seq![Seq::<u8>::empty()] + split_lines(s));
        assert(split_lines(l + seq![NEWLINE_BYTE] + s) =~= seq![l] + split_lines(s));
    } else {
        let t = l + seq![NEWLINE_BYTE] + s;
        assert(l[0] != NEWLINE_BYTE);
        assert(t.first() == l[0]);
        assert(t.drop_first() =~= l.drop_first() + seq![NEWLINE_BYTE] + s);
        lemma_split_prefix_line(l.drop_first(), s);
        let rest = split_lines(t.drop_first());
        assert(rest == seq![l.drop_first()] + split_lines(s));
        assert(rest.first() == l.drop_first());
        assert(seq![t.first()] + rest.first() =~= l);
        assert(rest.drop_first() =~= split_lines(s));
        assert(split_lines(t) == seq![seq![t.first()] + rest.first()] + rest.drop_first());
        assert(split_lines(t) =~= seq![l] + split_lines(s));
    }
}

/// Every byte of a row's tokens is one of the five token bytes; in
/// particular none is a newline.
pub open spec fn is_token_byte(b: u8) -> bool {
    b == QUOTE_BYTE || b == COMMA_BYTE || b == SPACE_BYTE || b == ALIVE_BYTE || b == DEAD_BYTE
}

pub proof fn lemma_row_tokens_bytes(row: Seq<bool>)
    ensures
        forall|i: int| 0 <= i < row_tokens(row).len() ==> is_token_byte(#[trigger] row_tokens(row)[i]),
    decreases row.len(),
{
    if row.len() == 0 {
    } else if row.len() == 1 {
        assert forall|i: int| 0 <= i < row_tokens(row).len() implies is_token_byte(
            #[trigger] row_tokens(row)[i],
        ) by {
            assert(row_tokens(row) == seq![QUOTE_BYTE, cell_byte(row[0]), QUOTE_BYTE]);
        }
    } else {
        lemma_row_tokens_bytes(row.drop_first());
        let pre = seq![QUOTE_BYTE, cell_byte(row[0]), QUOTE_BYTE, COMMA_BYTE, SPACE_BYTE];
        let t = row_tokens(row.drop_first());
        assert forall|i: int| 0 <= i < row_tokens(row).len() implies is_token_byte(
            #[trigger] row_tokens(row)[i],
        ) by {
            assert(row_tokens(row) == pre + t);
            if i < 5 {
                assert(row_tokens(row)[i] == pre[i]);
            } else {
                assert(row_tokens(row)[i] == t[i - 5]);
            }
        }
    }
}

/// Splitting an encoded grid gives one piece per row — the row's line,
/// brackets included — and a final empty piece from the last newline.
pub proof fn lemma_encode_rows_split(rows: Seq<Seq<bool>>)
    ensures
        split_lines(encode_rows(rows)) == rows.map_values(|r: Seq<bool>| encode_line(r)) + seq![
            Seq::<u8>::empty(),
        ],
    decreases rows.len(),
{
    if rows.len() == 0 {
        assert(split_lines(encode_rows(rows)) =~= rows.map_values(|r: Seq<bool>| encode_line(r))
            + seq![Seq::<u8>::empty()]);
    } else {
        let r0 = rows.first();
        lemma_row_tokens_bytes(r0);
        assert(forall|i: int| 0 <= i < encode_line(r0).len() ==> encode_line(r0)[i] != NEWLINE_BYTE);
        lemma_encode_rows_split(rows.drop_first());
        assert(encode_rows(rows) =~= encode_line(r0) + seq![NEWLINE_BYTE] + encode_rows(
            rows.drop_first(),
        ));
        lemma_split_prefix_line(encode_line(r0), encode_rows(rows.drop_first()));
        assert(split_lines(encode_rows(rows)) =~= rows.map_values(|r: Seq<bool>| encode_line(r))
            + seq![Seq::<u8>::empty()]);
    }
}

/// The first non-empty row is what its name says: everything before `j` is
/// empty and `j` itself is not.
pub proof fn lemma_first_nonempty(rows: Seq<Seq<u8>>, j: int)
    requires
        0 <= j < rows.len(),
        forall|k: int| 0 <= k < j ==> (#[trigger] rows[k]).len() == 0,
        rows[j].len() > 0,
    ensures
        first_nonempty(rows) == rows[j],
    decreases j,
{
    if j > 0 {
        lemma_first_nonempty(rows.drop_first(), j - 1);
    }
}

pub proof fn lemma_line_cells_cons(b: u8, t: Seq<u8>)
    ensures
        line_cells(seq![b] + t) == (if b == ALIVE_BYTE {
            seq![true] + line_cells(t)
        } else if b == DEAD_BYTE {
            seq![false] + line_cells(t)
        } else {
            line_cells(t)
        }),
{
    assert((seq![b] + t).drop_first() =~= t);
}

pub proof fn lemma_comma_count_cons(b: u8, t: Seq<u8>)
    ensures
        comma_count(seq![b] + t) == (if b == COMMA_BYTE {
            1int
        } else {
            0int
        }) + comma_count(t),
{
    assert((seq![b] + t).drop_first() =~= t);
}

pub proof fn lemma_line_cells_append(t: Seq<u8>, b: u8)
    requires
        b != ALIVE_BYTE,
        b != DEAD_BYTE,
        b != COMMA_BYTE,
    ensures
        line_cells(t.push(b)) == line_cells(t),
        comma_count(t.push(b)) == comma_count(t),
    decreases t.len(),
{
    if t.len() == 0 {
        assert(t.push(b) =~= seq![b] + Seq::<u8>::empty());
        lemma_line_cells_cons(b, Seq::<u8>::empty());
        lemma_comma_count_cons(b, Seq::<u8>::empty());
    } else {
        assert(t.push(b) =~= seq![t.first()] + t.drop_first().push(b));
        assert(t =~= seq![t.first()] + t.drop_first());
        lemma_line_cells_append(t.drop_first(), b);
        lemma_line_cells_cons(t.first(), t.drop_first().push(b));
        lemma_line_cells_cons(t.first(), t.drop_first());
        lemma_comma_count_cons(t.first(), t.drop_first().push(b));
        lemma_comma_count_cons(t.first(), t.drop_first());
    }
}

/// The tokens of a row decode back to the row, and hold one comma fewer
/// than the row has cells.
pub proof fn lemma_tokens_decode(row: Seq<bool>)
    ensures
        line_cells(row_tokens(row)) == row,
        comma_count(row_tokens(row)) == if row.len() == 0 {
            0int
        } else {
            row.len() - 1
        },
    decreases row.len(),
{
    if row.len() == 0 {
        assert(line_cells(row_tokens(row)) =~= row);
    } else if row.len() == 1 {
        let c = cell_byte(row[0]);
        assert(row_tokens(row) =~= seq![QUOTE_BYTE] + (seq![c] + (seq![QUOTE_BYTE]
            + Seq::<u8>::empty())));
        lemma_line_cells_cons(QUOTE_BYTE, seq![c] + (seq![QUOTE_BYTE] + Seq::<u8>::empty()));
        lemma_line_cells_cons(c, seq![QUOTE_BYTE] + Seq::<u8>::empty());
        lemma_line_cells_cons(QUOTE_BYTE, Seq::<u8>::empty());
        lemma_comma_count_cons(QUOTE_BYTE, seq![c] + (seq![QUOTE_BYTE] + Seq::<u8>::empty()));
        lemma_comma_count_cons(c, seq![QUOTE_BYTE] + Seq::<u8>::empty());
        lemma_comma_count_cons(QUOTE_BYTE, Seq::<u8>::empty());
        assert(line_cells(row_tokens(row)) =~= row);
    } else {
        let c = cell_byte(row[0]);
        let t = row_tokens(row.drop_first());
        lemma_tokens_decode(row.drop_first());
        assert(row_tokens(row) =~= seq![QUOTE_BYTE] + (seq![c] + (seq![QUOTE_BYTE] + (seq![
            COMMA_BYTE,
        ] + (seq![SPACE_BYTE] + t)))));
        lemma_line_cells_cons(QUOTE_BYTE, seq![c] + (seq![QUOTE_BYTE] + (seq![COMMA_BYTE] + (seq![
            SPACE_BYTE,
        ] + t))));
        lemma_line_cells_cons(c, seq![QUOTE_BYTE] + (seq![COMMA_BYTE] + (seq![SPACE_BYTE] + t)));
        lemma_line_cells_cons(QUOTE_BYTE, seq![COMMA_BYTE] + (seq![SPACE_BYTE] + t));
        lemma_line_cells_cons(COMMA_BYTE, seq![SPACE_BYTE] + t);
        lemma_line_cells_cons(SPACE_BYTE, t);
        lemma_comma_count_cons(QUOTE_BYTE, seq![c] + (seq![QUOTE_BYTE] + (seq![COMMA_BYTE] + (seq![
            SPACE_BYTE,
        ] + t))));
        lemma_comma_count_cons(c, seq![QUOTE_BYTE] + (seq![COMMA_BYTE] + (seq![SPACE_BYTE] + t)));
        lemma_comma_count_cons(QUOTE_BYTE, seq![COMMA_BYTE] + (seq![SPACE_BYTE] + t));
        lemma_comma_count_cons(COMMA_BYTE, seq![SPACE_BYTE] + t);
        lemma_comma_count_cons(SPACE_BYTE, t);
        assert(line_cells(row_tokens(row)) =~= row);
    }
}

/// A row's full line — brackets included — decodes back to the row.
pub proof fn lemma_encode_line_decode(row: Seq<bool>)
    ensures
        line_cells(encode_line(row)) == row,
        comma_count(encode_line(row)) == if row.len() == 0 {
            0int
        } else {
            row.len() - 1
        },
{
    lemma_tokens_decode(row);
    assert(encode_line(row) =~= (seq![LBRACKET_BYTE] + row_tokens(row)).push(RBRACKET_BYTE));
    lemma_line_cells_append(seq![LBRACKET_BYTE] + row_tokens(row), RBRACKET_BYTE);
    lemma_line_cells_cons(LBRACKET_BYTE, row_tokens(row));
    lemma_comma_count_cons(LBRACKET_BYTE, row_tokens(row));
}

/// The first offending row is what its name says: everything before `k` is
/// fine and `k` itself is not.
pub proof fn lemma_first_bad_row(rows: Seq<Seq<u8>>, w: int, k: int)
    requires
        0 <= k < rows.len(),
        forall|j: int| 0 <= j < k ==> line_cells(#[trigger] rows[j]).len() == w,
        line_cells(rows[k]).len() != w,
    ensures
        first_bad_row(rows, w) == k,
    decreases k,
{
    if k == 0 {
    } else {
        lemma_first_bad_row(rows.drop_first(), w, k - 1);
    }
}

/// Appending one row to an encoding appends that row's line.
pub proof fn lemma_encode_rows_push(rows: Seq<Seq<bool>>, r: Seq<bool>)
    ensures
        encode_rows(rows.push(r)) == encode_rows(rows) + encode_row(r),
    decreases rows.len(),
{
    if rows.len() == 0 {
        assert(rows.push(r).drop_first() =~= rows);
        assert(encode_rows(rows.push(r)) =~= encode_rows(rows) + encode_row(r));
    } else {
        assert(rows.push(r).drop_first() =~= rows.drop_first().push(r));
        assert(rows.push(r).first() == rows.first());
        lemma_encode_rows_push(rows.drop_first(), r);
        assert(encode_rows(rows.push(r)) =~= encode_rows(rows) + encode_row(r));
    }
}

/// Appending one cell to a row appends its token (and a separator, unless
/// the row was empty).
pub proof fn lemma_row_tokens_push(row: Seq<bool>, a: bool)
    ensures
        row_tokens(row.push(a)) == if row.len() == 0 {
            seq![QUOTE_BYTE, cell_byte(a), QUOTE_BYTE]
        } else {
            row_tokens(row) + seq![COMMA_BYTE, SPACE_BYTE, QUOTE_BYTE, cell_byte(a), QUOTE_BYTE]
        },
    decreases row.len(),
{
    if row.len() == 0 {
        assert(row_tokens(row.push(a)) =~= seq![QUOTE_BYTE, cell_byte(a), QUOTE_BYTE]);
    } else if row.len() == 1 {
        assert(row.push(a).drop_first() =~= row.drop_first().push(a));
        assert(row.push(a)[0] == row[0]);
        lemma_row_tokens_push(row.drop_first(), a);
        assert(row_tokens(row.push(a)) =~= row_tokens(row) + seq![
            COMMA_BYTE,
            SPACE_BYTE,
            QUOTE_BYTE,
            cell_byte(a),
            QUOTE_BYTE,
        ]);
    } else {
        assert(row.push(a).drop_first() =~= row.drop_first().push(a));
        assert(row.push(a)[0] == row[0]);
        lemma_row_tokens_push(row.drop_first(), a);
        assert(row_tokens(row.push(a)) =~= row_tokens(row) + seq![
            COMMA_BYTE,
            SPACE_BYTE,
            QUOTE_BYTE,
            cell_byte(a),
            QUOTE_BYTE,
        ]);
    }
}

pub proof fn lemma_counts_bounds(l: Seq<u8>)
    ensures
        0 <= comma_count(l) <= l.len(),
        line_cells(l).len() <= l.len(),
    decreases l.len(),
{
    if l.len() > 0 {
        lemma_counts_bounds(l.drop_first());
    }
}

/// Law: decoding the encoding of any non-degenerate rectangle of rows —
/// at least one row, each at least one cell wide and all of one width —
/// reproduces its width, its height and every cell exactly.
pub proof fn lemma_text_round_trip_rows(rows: Seq<Seq<bool>>, w: int)
    requires
        w >= 1,
        rows.len() >= 1,
        forall|i: int| 0 <= i < rows.len() ==> (#[trigger] rows[i]).len() == w,
    ensures
        decoded_grid(encode_rows(rows)) == Ok::<(int, int, Seq<Seq<bool>>), int>(
            (w, rows.len() as int, rows),
        ),
{
    let lines = rows.map_values(|r: Seq<bool>| encode_line(r));
    lemma_encode_rows_split(rows);
    assert(split_lines(encode_rows(rows)) == lines + seq![Seq::<u8>::empty()]);
    assert forall|i: int| 0 <= i < lines.len() implies (#[trigger] lines[i]).len() > 0 by {
        assert(lines[i] == encode_line(rows[i]));
    }
    // the one trailing empty piece from the final newline goes; the last
    // line itself is non-empty, so nothing else does
    assert((lines + seq![Seq::<u8>::empty()]).drop_last() =~= lines);
    assert((lines + seq![Seq::<u8>::empty()]).last() =~= Seq::<u8>::empty());
    assert((lines + seq![Seq::<u8>::empty()]).last().len() == 0);
    assert(trim_trailing_empty(lines + seq![Seq::<u8>::empty()]) == trim_trailing_empty(lines));
    assert(lines.last().len() > 0);
    assert(trim_trailing_empty(lines) == lines);
    let trimmed = trim_trailing_empty(split_lines(encode_rows(rows)));
    assert(trimmed == lines);
    assert(trimmed[0] == encode_line(rows[0]));
    lemma_first_nonempty(trimmed, 0);
    lemma_encode_line_decode(rows[0]);
    assert(comma_count(first_nonempty(trimmed)) + 1 == w);
    assert forall|i: int| 0 <= i < trimmed.len() implies line_cells(#[trigger] trimmed[i]).len()
        == w by {
        assert(trimmed[i] == encode_line(rows[i]));
        lemma_encode_line_decode(rows[i]);
    }
    assert(rows_ok(trimmed, w));
    assert forall|i: int| 0 <= i < trimmed.len() implies line_cells(#[trigger] trimmed[i])
        == rows[i] by {
        assert(trimmed[i] == encode_line(rows[i]));
        lemma_encode_line_decode(rows[i]);
    }
    assert(trimmed.map_values(|l: Seq<u8>| line_cells(l)) =~= rows);
}

/// The pieces of a split whose first piece still grows: `pre` is the part
/// of the current line already consumed.
pub open spec fn cons_prefix(pieces: Seq<Seq<u8>>, pre: Seq<u8>) -> Seq<Seq<u8>> {
    seq![pre + pieces.first()] + pieces.drop_first()
}

/// Splits a byte text on newlines, one `Vec` per piece; `n` newlines give
/// `n + 1` pieces.
pub fn split_lines_exec(bytes: &[u8]) -> (r: Vec<Vec<u8>>)
    ensures
        r@.map_values(|v: Vec<u8>| v@) == split_lines(bytes@),
        forall|j: int| 0 <= j < r@.len() ==> (#[trigger] r@[j])@.len() <= bytes@.len(),
{
    let mut acc: Vec<Vec<u8>> = Vec::new();
    let mut cur: Vec<u8> = Vec::new();
    let mut i: usize = 0;
    proof {
        lemma_split_lines_len(bytes@);
        assert(bytes@.skip(0) =~= bytes@);
        assert(cur@ + split_lines(bytes@).first() =~= split_lines(bytes@).first());
        assert(split_lines(bytes@) =~= acc@.map_values(|v: Vec<u8>| v@) + cons_prefix(
            split_lines(bytes@.skip(0)),
            cur@,
        ));
    }
    while i < bytes.len()
        invariant
            i <= bytes@.len(),
            cur@.len() <= i,
            forall|j: int| 0 <= j < acc@.len() ==> (#[trigger] acc@[j])@.len() <= bytes@.len(),
            split_lines(bytes@) == acc@.map_values(|v: Vec<u8>| v@) + cons_prefix(
                split_lines(bytes@.skip(i as int)),
                cur@,
            ),
        decreases bytes@.len() - i,
    {
        let ghost suffix = bytes@.skip(i as int);
        let ghost suffix2 = bytes@.skip(i as int + 1);
        proof {
            assert(suffix.first() == bytes@[i as int]);
            assert(suffix.drop_first() =~= suffix2);
            lemma_split_lines_len(suffix2);
        }
        let b = bytes[i];
        if b == NEWLINE_BYTE {
            proof {
                assert(split_lines(suffix) == seq![Seq::<u8>::empty()] + split_lines(suffix2));
                assert(cur@ + split_lines(suffix).first() =~= cur@);
                assert(cons_prefix(split_lines(suffix), cur@) =~= seq![cur@] + split_lines(
                    suffix2,
                ));
            }
            let ghost acc0 = acc@;
            let ghost cur0 = cur@;
            acc.push(cur);
            cur = Vec::new();
            proof {
                assert(acc@.map_values(|v: Vec<u8>| v@) =~= acc0.map_values(|v: Vec<u8>| v@).push(
                    cur0,
                ));
                assert(cur@ + split_lines(suffix2).first() =~= split_lines(suffix2).first());
                assert(cons_prefix(split_lines(suffix2), cur@) =~= split_lines(suffix2));
                assert(split_lines(bytes@) =~= acc@.map_values(|v: Vec<u8>| v@) + cons_prefix(
                    split_lines(suffix2),
                    cur@,
                ));
            }
        } else {
            proof {
                assert(split_lines(suffix) == seq![seq![suffix.first()] + split_lines(
                    suffix2,
                ).first()] + split_lines(suffix2).drop_first());
            }
            let ghost cur0 = cur@;
            cur.push(b);
            proof {
                assert(cur0 + split_lines(suffix).first() =~= cur@ + split_lines(suffix2).first());
                assert(cons_prefix(split_lines(suffix), cur0) =~= cons_prefix(
                    split_lines(suffix2),
                    cur@,
                ));
            }
        }
        i = i + 1;
    }
    proof {
        assert(bytes@.skip(bytes@.len() as int) =~= Seq::<u8>::empty());
        assert(split_lines(Seq::<u8>::empty()) == seq![Seq::<u8>::empty()]);
        assert(cur@ + Seq::<u8>::empty() =~= cur@);
        assert(cons_prefix(split_lines(Seq::<u8>::empty()), cur@) =~= seq![cur@]);
    }
    let ghost acc0 = acc@;
    acc.push(cur);
    proof {
        assert(acc@.map_values(|v: Vec<u8>| v@) =~= acc0.map_values(|v: Vec<u8>| v@).push(
            acc@[acc@.len() - 1]@,
        ));
        assert(acc@.map_values(|v: Vec<u8>| v@) =~= split_lines(bytes@));
    }
    acc
}

/// Counts the comma bytes of one line.
pub fn comma_count_exec(l: &Vec<u8>) -> (r: usize)
    ensures
        r as int == comma_count(l@),
{
    let mut count: usize = 0;
    let mut i: usize = 0;
    proof {
        assert(l@.skip(0) =~= l@);
        lemma_counts_bounds(l@);
    }
    while i < l.len()
        invariant
            i <= l@.len(),
            count <= i,
            comma_count(l@) == count + comma_count(l@.skip(i as int)),
        decreases l@.len() - i,
    {
        proof {
            assert(l@.skip(i as int).first() == l@[i as int]);
            assert(l@.skip(i as int).drop_first() =~= l@.skip(i as int + 1));
        }
        if l[i] == COMMA_BYTE {
            count = count + 1;
        }
        i = i + 1;
    }
    proof {
        assert(l@.skip(l@.len() as int) =~= Seq::<u8>::empty());
    }
    count
}

/// The cells one line denotes, marker bytes only, in order.
pub fn line_cells_exec(l: &Vec<u8>) -> (r: Vec<bool>)
    ensures
        r@ == line_cells(l@),
{
    let mut out: Vec<bool> = Vec::new();
    let mut i: usize = 0;
    proof {
        assert(l@.skip(0) =~= l@);
        assert(out@ + line_cells(l@) =~= line_cells(l@));
    }
    while i < l.len()
        invariant
            i <= l@.len(),
            line_cells(l@) == out@ + line_cells(l@.skip(i as int)),
        decreases l@.len() - i,
    {
        proof {
            assert(l@.skip(i as int).first() == l@[i as int]);
            assert(l@.skip(i as int).drop_first() =~= l@.skip(i as int + 1));
        }
        let b = l[i];
        let ghost out0 = out@;
        if b == ALIVE_BYTE {
            out.push(true);
        } else if b == DEAD_BYTE {
            out.push(false);
        }
        proof {
            assert(out0 + line_cells(l@.skip(i as int)) =~= out@ + line_cells(
                l@.skip(i as int + 1),
            ));
        }
        i = i + 1;
    }
    proof {
        assert(l@.skip(l@.len() as int) =~= Seq::<u8>::empty());
        assert(out@ + line_cells(Seq::<u8>::empty()) =~= out@);
    }
    out
}

/// Relies on `String::from_utf8`: a vector of ASCII bytes (each below 128)
/// is valid UTF-8, and the string it converts to consists of exactly those
/// bytes.
#[verifier::external_body]
pub(crate) fn string_from_ascii_bytes(bytes: Vec<u8>) -> (r: String)
    requires
        forall|i: int| 0 <= i < bytes@.len() ==> bytes@[i] < 128,
    ensures
        vstd::utf8::encode_utf8(r@) == bytes@,
{
    String::from_utf8(bytes).unwrap()
}

} // verus!
