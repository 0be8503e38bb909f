//! Box-drawing layout: bordered rectangles around one column of lines (code
//! blocks) or a grid of cells (tables).
//!
//! Widths count characters, not UTF-8 bytes. This is deliberate: padding counts
//! characters too, so measuring in characters keeps the right border of every
//! line in one column when cells hold non-ASCII text. For ASCII text the two
//! measures agree.
use vstd::prelude::*;
use crate::text::{lines, lines_of, push_char, push_repeat, repeat_char, views};

verus! {

/// `s` padded with spaces on the right up to `w` characters.
pub open spec fn pad(s: Seq<char>, w: nat) -> Seq<char> {
    if s.len() < w {
        s + repeat_char(' ', (w - s.len()) as nat)
    } else {
        s
    }
}

/// A horizontal run of `w + 2` box-drawing dashes.
pub open spec fn dashes(w: nat) -> Seq<char> {
    repeat_char('─', w + 2)
}

/// The longest length among `ls`, 0 when there is none.
pub open spec fn max_len(ls: Seq<Seq<char>>) -> nat
    decreases ls.len(),
{
    if ls.len() == 0 {
        0
    } else {
        let m = max_len(ls.drop_last());
        if ls.last().len() > m {
            ls.last().len()
        } else {
            m
        }
    }
}

/// Lines framed in a box whose inner width is the longest line plus a space each side.
pub open spec fn boxed_lines(ls: Seq<Seq<char>>, w: nat) -> Seq<char>
    decreases ls.len(),
{
    if ls.len() == 0 {
        Seq::empty()
    } else {
        boxed_lines(ls.drop_last(), w) + seq!['│', ' '] + pad(ls.last(), w) + seq![' ', '│', '\n']
    }
}

/// A code block drawn in a box: nothing when it has no lines.
pub open spec fn code_box_text(code: Seq<char>) -> Seq<char> {
    let ls = lines_of(code);
    let w = max_len(ls);
    if ls.len() == 0 {
        Seq::empty()
    } else {
        seq!['┌'] + dashes(w) + seq!['┐', '\n'] + boxed_lines(ls, w) + seq!['└'] + dashes(w) + seq![
            '┘',
        ]
    }
}

/// A table as the nested views of its rows and cells.
pub open spec fn grid(rows: Seq<Vec<String>>) -> Seq<Seq<Seq<char>>> {
    rows.map_values(|r: Vec<String>| views(r@))
}

/// The number of columns: the length of the longest row.
pub open spec fn num_cols(rows: Seq<Seq<Seq<char>>>) -> nat
    decreases rows.len(),
{
    if rows.len() == 0 {
        0
    } else {
        let m = num_cols(rows.drop_last());
        if rows.last().len() > m {
            rows.last().len()
        } else {
            m
        }
    }
}

/// The widest cell of column `i`, over the rows that reach it.
pub open spec fn col_width(rows: Seq<Seq<Seq<char>>>, i: int) -> nat
    decreases rows.len(),
{
    if rows.len() == 0 {
        0
    } else {
        let m = col_width(rows.drop_last(), i);
        if 0 <= i < rows.last().len() && rows.last()[i].len() > m {
            rows.last()[i].len()
        } else {
            m
        }
    }
}

/// The width of every column.
pub open spec fn col_widths(rows: Seq<Seq<Seq<char>>>) -> Seq<nat> {
    Seq::new(num_cols(rows), |i: int| col_width(rows, i))
}

/// The dash runs of a border, one per column, `mid` between each two.
pub open spec fn border_runs(ws: Seq<nat>, mid: char) -> Seq<char>
    decreases ws.len(),
{
    if ws.len() == 0 {
        Seq::empty()
    } else if ws.len() == 1 {
        dashes(ws[0])
    } else {
        border_runs(ws.drop_last(), mid) + seq![mid] + dashes(ws.last())
    }
}

/// A horizontal border.
pub open spec fn border(ws: Seq<nat>, left: char, mid: char, right: char) -> Seq<char> {
    seq![left] + border_runs(ws, mid) + seq![right]
}

/// The cells of a row, each padded to its column and followed by a bar.
pub open spec fn row_cells(row: Seq<Seq<char>>, ws: Seq<nat>) -> Seq<char>
    decreases row.len(),
{
    if row.len() == 0 {
        Seq::empty()
    } else {
        row_cells(row.drop_last(), ws) + seq![' '] + pad(row.last(), ws[row.len() - 1]) + seq![
            ' ',
            '│',
        ]
    }
}

/// The rows, each on its own line, a separator border after every row but the last.
pub open spec fn table_body(rows: Seq<Seq<Seq<char>>>, ws: Seq<nat>, n: nat) -> Seq<char>
    decreases rows.len(),
{
    if rows.len() == 0 {
        Seq::empty()
    } else {
        table_body(rows.drop_last(), ws, n) + seq!['│'] + row_cells(rows.last(), ws) + seq!['\n']
            + if rows.len() < n {
            border(ws, '├', '┼', '┤') + seq!['\n']
        } else {
            Seq::empty()
        }
    }
}

/// A table drawn as a grid: nothing when it has no rows.
pub open spec fn table_text(rows: Seq<Seq<Seq<char>>>) -> Seq<char> {
    let ws = col_widths(rows);
    if rows.len() == 0 {
        Seq::empty()
    } else {
        border(ws, '┌', '┬', '┐') + seq!['\n'] + table_body(rows, ws, rows.len()) + border(
            ws,
            '└',
            '┴',
            '┘',
        )
    }
}

/// The characters of `s` as a count.
fn char_count(s: &str) -> (r: usize)
    ensures
        r == s@.len(),
{
    s.unicode_len()
}

/// Appends `s` padded with spaces up to `w` characters.
fn push_padded(out: &mut String, s: &str, w: usize)
    ensures
        final(out)@ == old(out)@ + pad(s@, w as nat),
{
    out.append(s);
    let n = char_count(s);
    if n < w {
        push_repeat(out, ' ', w - n);
    }
}

/// Appends `w + 2` dashes.
fn push_dashes(out: &mut String, w: usize)
    ensures
        final(out)@ == old(out)@ + dashes(w as nat),
{
    push_repeat(out, '─', w);
    push_char(out, '─');
    push_char(out, '─');
    assert(final(out)@ =~= old(out)@ + dashes(w as nat));
}

/// A code block drawn in a box, every line padded to the longest.
pub fn code_box(code: &str) -> (r: String)
    ensures
        r@ == code_box_text(code@),
{
    let ls = lines(code);
    let ghost lv = views(ls@);
    if ls.len() == 0 {
        return String::new();
    }
    let mut w: usize = 0;
    let mut i: usize = 0;
    while i < ls.len()
        invariant
            lv == views(ls@),
            i <= ls@.len(),
            w == max_len(lv.subrange(0, i as int)),
        decreases ls@.len() - i,
    {
        let n = char_count(ls[i].as_str());
        assert(lv.subrange(0, i + 1).drop_last() =~= lv.subrange(0, i as int));
        if n > w {
            w = n;
        }
        i = i + 1;
    }
    assert(lv.subrange(0, lv.len() as int) =~= lv);
    let mut out = String::new();
    push_char(&mut out, '┌');
    push_dashes(&mut out, w);
    push_char(&mut out, '┐');
    push_char(&mut out, '\n');
    let ghost top = out@;
    let mut j: usize = 0;
    while j < ls.len()
        invariant
            lv == views(ls@),
            j <= ls@.len(),
            out@ == top + boxed_lines(lv.subrange(0, j as int), w as nat),
        decreases ls@.len() - j,
    {
        push_char(&mut out, '│');
        push_char(&mut out, ' ');
        push_padded(&mut out, ls[j].as_str(), w);
        push_char(&mut out, ' ');
        push_char(&mut out, '│');
        push_char(&mut out, '\n');
        proof {
            let q = lv.subrange(0, j + 1);
            assert(q.drop_last() =~= lv.subrange(0, j as int));
            assert(q.last() == ls@[j as int]@);
            assert(out@ =~= top + boxed_lines(q, w as nat));
        }
        j = j + 1;
    }
    push_char(&mut out, '└');
    push_dashes(&mut out, w);
    push_char(&mut out, '┘');
    assert(out@ =~= code_box_text(code@));
    out
}

/// The width of every column: as many as the longest row has cells, each the
/// length of the longest cell of its column.
pub fn column_widths(rows: &[Vec<String>]) -> (r: Vec<usize>)
    ensures
        r@.len() == num_cols(grid(rows@)),
        forall|i: int| 0 <= i < r@.len() ==> r@[i] == col_width(grid(rows@), i),
{
    let ghost g = grid(rows@);
    let mut r: Vec<usize> = Vec::new();
    let mut k: usize = 0;
    while k < rows.len()
        invariant
            g == grid(rows@),
            k <= rows@.len(),
            r@.len() == num_cols(g.subrange(0, k as int)),
            forall|i: int| 0 <= i < r@.len() ==> r@[i] == col_width(g.subrange(0, k as int), i),
        decreases rows@.len() - k,
    {
        let row = &rows[k];
        let ghost prev = g.subrange(0, k as int);
        let ghost next = g.subrange(0, k + 1);
        assert(next.drop_last() =~= prev);
        assert(next.last() == views(row@));
        let mut c: usize = 0;
        while c < row.len()
            invariant
                g == grid(rows@),
                prev == g.subrange(0, k as int),
                next == g.subrange(0, k + 1),
                next.drop_last() == prev,
                next.last() == views(row@),
                next.len() == k + 1,
                c <= row@.len(),
                r@.len() == if c > num_cols(prev) {
                    c as nat
                } else {
                    num_cols(prev)
                },
                forall|i: int|
                    0 <= i < r@.len() ==> r@[i] == if i < c {
                        col_width(next, i)
                    } else {
                        col_width(prev, i)
                    },
            decreases row@.len() - c,
        {
            let n = char_count(row[c].as_str());
            assert(next.last()[c as int] == row@[c as int]@);
            let ghost old_r = r@;
            if c < r.len() {
                if n > r[c] {
                    r.set(c, n);
                }
            } else {
                assert(col_width(prev, c as int) == 0) by {
                    lemma_col_width_beyond(prev, c as int);
                }
                r.push(n);
            }
            proof {
                assert forall|i: int| 0 <= i < r@.len() implies r@[i] == if i < c + 1 {
                    col_width(next, i)
                } else {
                    col_width(prev, i)
                } by {
                    if i == c {
                        assert(col_width(next, i) == if 0 <= i < next.last().len()
                            && next.last()[i].len() > col_width(prev, i) {
                            next.last()[i].len()
                        } else {
                            col_width(prev, i)
                        });
                    } else {
                        assert(r@[i] == old_r[i]);
                    }
                }
            }
            c = c + 1;
        }
        proof {
            assert forall|i: int| 0 <= i < r@.len() implies r@[i] == col_width(next, i) by {
                if i >= c {
                    assert(col_width(next, i) == col_width(prev, i));
                }
            }
        }
        k = k + 1;
    }
    assert(g.subrange(0, rows@.len() as int) =~= g);
    r
}

/// A column that no row reaches has width 0.
proof fn lemma_col_width_beyond(rows: Seq<Seq<Seq<char>>>, i: int)
    requires
        i >= num_cols(rows),
    ensures
        col_width(rows, i) == 0,
    decreases rows.len(),
{
    if rows.len() > 0 {
        lemma_col_width_beyond(rows.drop_last(), i);
    }
}

/// Appends a border over the given widths.
fn push_border(out: &mut String, ws: &Vec<usize>, left: char, mid: char, right: char)
    ensures
        final(out)@ == old(out)@ + border(ws@.map_values(|w: usize| w as nat), left, mid, right),
{
    let ghost wn = ws@.map_values(|w: usize| w as nat);
    push_char(out, left);
    let ghost start = out@;
    let mut i: usize = 0;
    while i < ws.len()
        invariant
            wn == ws@.map_values(|w: usize| w as nat),
            i <= ws@.len(),
            out@ == start + border_runs(wn.subrange(0, i as int), mid),
        decreases ws@.len() - i,
    {
        let ghost q = wn.subrange(0, i + 1);
        assert(q.drop_last() =~= wn.subrange(0, i as int));
        if i > 0 {
            push_char(out, mid);
        }
        push_dashes(out, ws[i]);
        assert(out@ =~= start + border_runs(q, mid));
        i = i + 1;
    }
    assert(wn.subrange(0, ws@.len() as int) =~= wn);
    push_char(out, right);
    assert(final(out)@ =~= old(out)@ + border(wn, left, mid, right));
}

/// A table drawn as a grid of boxes, every cell padded to its column's width.
/// Rows shorter than the longest draw only the cells they have.
pub fn table_grid(rows: &[Vec<String>]) -> (r: String)
    ensures
        r@ == table_text(grid(rows@)),
{
    let ghost g = grid(rows@);
    if rows.len() == 0 {
        return String::new();
    }
    let ws = column_widths(rows);
    let ghost wn = ws@.map_values(|w: usize| w as nat);
    assert(wn =~= col_widths(g));
    let mut out = String::new();
    push_border(&mut out, &ws, '┌', '┬', '┐');
    push_char(&mut out, '\n');
    let ghost top = out@;
    let mut k: usize = 0;
    while k < rows.len()
        invariant
            g == grid(rows@),
            wn == ws@.map_values(|w: usize| w as nat),
            wn == col_widths(g),
            k <= rows@.len(),
            out@ == top + table_body(g.subrange(0, k as int), wn, rows@.len() as nat),
        decreases rows@.len() - k,
    {
        let row = &rows[k];
        let ghost rv = views(row@);
        assert(g[k as int] == rv);
        push_char(&mut out, '│');
        let ghost line_start = out@;
        let mut c: usize = 0;
        while c < row.len()
            invariant
                g == grid(rows@),
                rv == views(row@),
                g[k as int] == rv,
                k < rows@.len(),
                wn == ws@.map_values(|w: usize| w as nat),
                wn == col_widths(g),
                ws@.len() == num_cols(g),
                c <= row@.len(),
                out@ == line_start + row_cells(rv.subrange(0, c as int), wn),
            decreases row@.len() - c,
        {
            proof {
                lemma_row_within(g, k as int);
            }
            push_char(&mut out, ' ');
            assert(wn[c as int] == ws@[c as int] as nat);
            push_padded(&mut out, row[c].as_str(), ws[c]);
            push_char(&mut out, ' ');
            push_char(&mut out, '│');
            proof {
                let q = rv.subrange(0, c + 1);
                assert(q.drop_last() =~= rv.subrange(0, c as int));
                assert(q.last() == row@[c as int]@);
                assert(out@ =~= line_start + row_cells(q, wn));
            }
            c = c + 1;
        }
        assert(rv.subrange(0, row@.len() as int) =~= rv);
        push_char(&mut out, '\n');
        if k + 1 < rows.len() {
            push_border(&mut out, &ws, '├', '┼', '┤');
            push_char(&mut out, '\n');
        }
        proof {
            let q = g.subrange(0, k + 1);
            assert(q.drop_last() =~= g.subrange(0, k as int));
            assert(q.last() == rv);
            assert(out@ =~= top + table_body(q, wn, rows@.len() as nat));
        }
        k = k + 1;
    }
    assert(g.subrange(0, rows@.len() as int) =~= g);
    push_border(&mut out, &ws, '└', '┴', '┘');
    assert(out@ =~= table_text(g));
    out
}

/// Every row fits within the column count.
proof fn lemma_row_within(rows: Seq<Seq<Seq<char>>>, k: int)
    requires
        0 <= k < rows.len(),
    ensures
        rows[k].len() <= num_cols(rows),
    decreases rows.len(),
{
    if k < rows.len() - 1 {
        lemma_row_within(rows.drop_last(), k);
    }
}

/// A column's width is the maximum length of its cells: no cell of the column
/// is longer, and a column of nonzero width has a cell exactly that long.
pub proof fn lemma_col_width_is_max(rows: Seq<Seq<Seq<char>>>, i: int)
    ensures
        forall|k: int|
            0 <= k < rows.len() && 0 <= i < rows[k].len() ==> #[trigger] rows[k][i].len()
                <= col_width(rows, i),
        col_width(rows, i) > 0 ==> exists|k: int|
            0 <= k < rows.len() && 0 <= i < rows[k].len() && #[trigger] rows[k][i].len()
                == col_width(rows, i),
    decreases rows.len(),
{
    if rows.len() > 0 {
        let prev = rows.drop_last();
        lemma_col_width_is_max(prev, i);
        assert forall|k: int|
            0 <= k < rows.len() && 0 <= i < rows[k].len() implies #[trigger] rows[k][i].len()
            <= col_width(rows, i) by {
            if k < rows.len() - 1 {
                assert(rows[k] == prev[k]);
            }
        }
        if col_width(rows, i) > 0 && col_width(rows, i) == col_width(prev, i) {
            let k = choose|k: int|
                0 <= k < prev.len() && 0 <= i < prev[k].len() && #[trigger] prev[k][i].len()
                    == col_width(prev, i);
            assert(rows[k] == prev[k]);
        }
    }
}


/// No line is longer than the longest.
pub proof fn lemma_max_len_bounds(ls: Seq<Seq<char>>)
    ensures
        forall|i: int| 0 <= i < ls.len() ==> (#[trigger] ls[i]).len() <= max_len(ls),
    decreases ls.len(),
{
    if ls.len() > 0 {
        lemma_max_len_bounds(ls.drop_last());
        assert forall|i: int| 0 <= i < ls.len() implies (#[trigger] ls[i]).len() <= max_len(ls) by {
            if i < ls.len() - 1 {
                assert(ls[i] == ls.drop_last()[i]);
            }
        }
    }
}

/// A code block's box: the top border is `max_len + 2` dashes between its
/// corners, where `max_len` is the longest line, and every line is padded to
/// exactly `max_len` characters.
pub proof fn lemma_code_box_shape(code: Seq<char>)
    requires
        lines_of(code).len() > 0,
    ensures
        ({
            let ls = lines_of(code);
            let w = max_len(ls);
            &&& code_box_text(code).subrange(0, w + 5 as int) == seq!['┌'] + repeat_char('─', w + 2)
                + seq!['┐', '\n']
            &&& forall|i: int| 0 <= i < ls.len() ==> (#[trigger] pad(ls[i], w)).len() == w
        }),
{
    let ls = lines_of(code);
    let w = max_len(ls);
    lemma_max_len_bounds(ls);
    let top = seq!['┌'] + dashes(w) + seq!['┐', '\n'];
    assert(top.len() == w + 5);
    assert(code_box_text(code).subrange(0, w + 5 as int) =~= top);
}

} // verus!
