//! With colours off the renderer writes no escape character of its own: every
//! character of its output comes from the events' text or from its fixed
//! glyphs, spaces, digits and newlines.
use vstd::prelude::*;
use crate::layout::{
    border, border_runs, boxed_lines, code_box_text, col_widths, dashes, max_len, pad, row_cells,
    table_body, table_text,
};
use crate::terminal_renderer::{
    barred, item_marker, quote_text, rendered, run, event_step, EventView, ListView, StateView,
};
use crate::text::{decimal, digit_char, join_seq, lines_of, repeat_char, split_nl, strip_cr, trim_end_seq};

verus! {

/// `s` holds no escape character (`\x1b`), so no escape sequence.
pub open spec fn no_esc(s: Seq<char>) -> bool {
    forall|i: int| 0 <= i < s.len() ==> s[i] != '\x1b'
}

/// Every element of `ls` is free of escape characters.
pub open spec fn all_no_esc(ls: Seq<Seq<char>>) -> bool {
    forall|k: int| 0 <= k < ls.len() ==> no_esc(#[trigger] ls[k])
}

/// The text an event carries holds no escape character.
pub open spec fn event_no_esc(e: EventView) -> bool {
    match e {
        EventView::Text(t) => no_esc(t),
        EventView::Code(c) => no_esc(c),
        _ => true,
    }
}

proof fn lemma_concat(a: Seq<char>, b: Seq<char>)
    requires
        no_esc(a),
        no_esc(b),
    ensures
        no_esc(a + b),
{
    assert forall|i: int| 0 <= i < (a + b).len() implies (a + b)[i] != '\x1b' by {
        if i >= a.len() {
            assert((a + b)[i] == b[i - a.len()]);
        }
    }
}

proof fn lemma_decimal(n: nat)
    ensures
        no_esc(decimal(n)),
    decreases n,
{
    if n >= 10 {
        lemma_decimal(n / 10);
        lemma_concat(decimal(n / 10), seq![digit_char(n % 10)]);
        assert(decimal(n) =~= decimal(n / 10) + seq![digit_char(n % 10)]);
    }
}

proof fn lemma_trim_end(s: Seq<char>)
    requires
        no_esc(s),
    ensures
        no_esc(trim_end_seq(s)),
    decreases s.len(),
{
    if s.len() > 0 && crate::text::is_ws(s.last()) {
        lemma_trim_end(s.drop_last());
    }
}

proof fn lemma_split(s: Seq<char>)
    requires
        no_esc(s),
    ensures
        all_no_esc(split_nl(s)),
    decreases s.len(),
{
    if s.len() > 0 {
        lemma_split(s.drop_last());
        crate::text::lemma_split_nl_nonempty(s.drop_last());
        let p = split_nl(s.drop_last());
        if s.last() != '\n' {
            lemma_concat(p.last(), seq![s.last()]);
            assert(p.last().push(s.last()) =~= p.last() + seq![s.last()]);
        }
        assert forall|k: int| 0 <= k < split_nl(s).len() implies no_esc(#[trigger] split_nl(s)[k]) by {
            if k < p.len() - 1 {
                assert(split_nl(s)[k] == p[k]);
            }
        }
    }
}

proof fn lemma_lines(s: Seq<char>)
    requires
        no_esc(s),
    ensures
        all_no_esc(lines_of(s)),
{
    lemma_split(s);
    crate::text::lemma_split_nl_nonempty(s);
    let p = split_nl(s);
    assert forall|k: int| 0 <= k < lines_of(s).len() implies no_esc(#[trigger] lines_of(s)[k]) by {
        assert(k < p.len());
        assert(no_esc(p[k]));
        if p[k].len() > 0 && p[k].last() == '\r' {
            assert(strip_cr(p[k]) =~= p[k].drop_last());
        }
    }
}

proof fn lemma_join(ls: Seq<Seq<char>>, sep: Seq<char>)
    requires
        all_no_esc(ls),
        no_esc(sep),
    ensures
        no_esc(join_seq(ls, sep)),
    decreases ls.len(),
{
    if ls.len() > 1 {
        let init = ls.drop_last();
        assert forall|k: int| 0 <= k < init.len() implies no_esc(#[trigger] init[k]) by {
            assert(init[k] == ls[k]);
        }
        lemma_join(init, sep);
        lemma_concat(join_seq(init, sep), sep);
        lemma_concat(join_seq(init, sep) + sep, ls.last());
    } else if ls.len() == 1 {
        assert(no_esc(ls[0]));
    }
}

proof fn lemma_pad(s: Seq<char>, w: nat)
    requires
        no_esc(s),
    ensures
        no_esc(pad(s, w)),
{
    if s.len() < w {
        lemma_concat(s, repeat_char(' ', (w - s.len()) as nat));
    }
}

proof fn lemma_border(ws: Seq<nat>, left: char, mid: char, right: char)
    requires
        left != '\x1b',
        mid != '\x1b',
        right != '\x1b',
    ensures
        no_esc(border(ws, left, mid, right)),
{
    lemma_border_runs(ws, mid);
    lemma_concat(seq![left], border_runs(ws, mid));
    lemma_concat(seq![left] + border_runs(ws, mid), seq![right]);
}

proof fn lemma_border_runs(ws: Seq<nat>, mid: char)
    requires
        mid != '\x1b',
    ensures
        no_esc(border_runs(ws, mid)),
    decreases ws.len(),
{
    if ws.len() > 1 {
        lemma_border_runs(ws.drop_last(), mid);
        lemma_concat(border_runs(ws.drop_last(), mid), seq![mid]);
        lemma_concat(border_runs(ws.drop_last(), mid) + seq![mid], dashes(ws.last()));
    }
}

proof fn lemma_row_cells(row: Seq<Seq<char>>, ws: Seq<nat>)
    requires
        all_no_esc(row),
    ensures
        no_esc(row_cells(row, ws)),
    decreases row.len(),
{
    if row.len() > 0 {
        let init = row.drop_last();
        assert forall|k: int| 0 <= k < init.len() implies no_esc(#[trigger] init[k]) by {
            assert(init[k] == row[k]);
        }
        lemma_row_cells(init, ws);
        assert(no_esc(row.last()));
        lemma_pad(row.last(), ws[row.len() - 1]);
        let a = row_cells(init, ws) + seq![' '];
        lemma_concat(row_cells(init, ws), seq![' ']);
        lemma_concat(a, pad(row.last(), ws[row.len() - 1]));
        lemma_concat(a + pad(row.last(), ws[row.len() - 1]), seq![' ', '│']);
    }
}

/// Every cell of every row is free of escape characters.
pub open spec fn grid_no_esc(rows: Seq<Seq<Seq<char>>>) -> bool {
    forall|k: int| 0 <= k < rows.len() ==> all_no_esc(#[trigger] rows[k])
}

proof fn lemma_table_body(rows: Seq<Seq<Seq<char>>>, ws: Seq<nat>, n: nat)
    requires
        grid_no_esc(rows),
    ensures
        no_esc(table_body(rows, ws, n)),
    decreases rows.len(),
{
    if rows.len() > 0 {
        let init = rows.drop_last();
        assert forall|k: int| 0 <= k < init.len() implies all_no_esc(#[trigger] init[k]) by {
            assert(init[k] == rows[k]);
        }
        lemma_table_body(init, ws, n);
        assert(all_no_esc(rows.last()));
        lemma_row_cells(rows.last(), ws);
        let a = table_body(init, ws, n) + seq!['│'];
        lemma_concat(table_body(init, ws, n), seq!['│']);
        lemma_concat(a, row_cells(rows.last(), ws));
        lemma_concat(a + row_cells(rows.last(), ws), seq!['\n']);
        lemma_border(ws, '├', '┼', '┤');
        lemma_concat(border(ws, '├', '┼', '┤'), seq!['\n']);
        let tail = if rows.len() < n {
            border(ws, '├', '┼', '┤') + seq!['\n']
        } else {
            Seq::empty()
        };
        lemma_concat(a + row_cells(rows.last(), ws) + seq!['\n'], tail);
    }
}

proof fn lemma_table(rows: Seq<Seq<Seq<char>>>)
    requires
        grid_no_esc(rows),
    ensures
        no_esc(table_text(rows)),
{
    if rows.len() > 0 {
        let ws = col_widths(rows);
        lemma_border(ws, '┌', '┬', '┐');
        lemma_border(ws, '└', '┴', '┘');
        lemma_table_body(rows, ws, rows.len());
        let a = border(ws, '┌', '┬', '┐') + seq!['\n'];
        lemma_concat(border(ws, '┌', '┬', '┐'), seq!['\n']);
        lemma_concat(a, table_body(rows, ws, rows.len()));
        lemma_concat(a + table_body(rows, ws, rows.len()), border(ws, '└', '┴', '┘'));
    }
}

proof fn lemma_boxed(ls: Seq<Seq<char>>, w: nat)
    requires
        all_no_esc(ls),
    ensures
        no_esc(boxed_lines(ls, w)),
    decreases ls.len(),
{
    if ls.len() > 0 {
        let init = ls.drop_last();
        assert forall|k: int| 0 <= k < init.len() implies no_esc(#[trigger] init[k]) by {
            assert(init[k] == ls[k]);
        }
        lemma_boxed(init, w);
        assert(no_esc(ls.last()));
        lemma_pad(ls.last(), w);
        let a = boxed_lines(init, w) + seq!['│', ' '];
        lemma_concat(boxed_lines(init, w), seq!['│', ' ']);
        lemma_concat(a, pad(ls.last(), w));
        lemma_concat(a + pad(ls.last(), w), seq![' ', '│', '\n']);
    }
}

proof fn lemma_code_box(code: Seq<char>)
    requires
        no_esc(code),
    ensures
        no_esc(code_box_text(code)),
{
    let ls = lines_of(code);
    if ls.len() > 0 {
        let w = max_len(ls);
        lemma_lines(code);
        lemma_boxed(ls, w);
        let a = seq!['┌'] + dashes(w);
        lemma_concat(seq!['┌'], dashes(w));
        lemma_concat(a, seq!['┐', '\n']);
        lemma_concat(a + seq!['┐', '\n'], boxed_lines(ls, w));
        lemma_concat(a + seq!['┐', '\n'] + boxed_lines(ls, w), seq!['└']);
        lemma_concat(a + seq!['┐', '\n'] + boxed_lines(ls, w) + seq!['└'], dashes(w));
        lemma_concat(
            a + seq!['┐', '\n'] + boxed_lines(ls, w) + seq!['└'] + dashes(w),
            seq!['┘'],
        );
    }
}

proof fn lemma_barred(s: Seq<char>)
    requires
        no_esc(s),
    ensures
        no_esc(barred(s)),
{
    lemma_lines(s);
    let ls = lines_of(s).map_values(|l: Seq<char>| seq!['▌', ' '] + l);
    assert forall|k: int| 0 <= k < ls.len() implies no_esc(#[trigger] ls[k]) by {
        lemma_concat(seq!['▌', ' '], lines_of(s)[k]);
    }
    lemma_join(ls, seq!['\n']);
}

/// Everything the driver holds is free of escape characters.
pub open spec fn state_no_esc(st: StateView) -> bool {
    &&& no_esc(st.out)
    &&& st.code is Some ==> no_esc(st.code->0)
    &&& st.table is Some ==> grid_no_esc(st.table->0.rows) && all_no_esc(st.table->0.row)
        && no_esc(st.table->0.cell)
    &&& st.quote is Some ==> all_no_esc(st.quote->0.lines) && no_esc(st.quote->0.current)
}

proof fn lemma_push(s: Seq<char>, c: char)
    requires
        no_esc(s),
        c != '\x1b',
    ensures
        no_esc(s.push(c)),
{
    lemma_concat(s, seq![c]);
    assert(s.push(c) =~= s + seq![c]);
}

proof fn lemma_all_push(ls: Seq<Seq<char>>, l: Seq<char>)
    requires
        all_no_esc(ls),
        no_esc(l),
    ensures
        all_no_esc(ls.push(l)),
{
    assert forall|k: int| 0 <= k < ls.push(l).len() implies no_esc(#[trigger] ls.push(l)[k]) by {
        if k < ls.len() {
            assert(ls.push(l)[k] == ls[k]);
        }
    }
}

proof fn lemma_grid_push(rows: Seq<Seq<Seq<char>>>, r: Seq<Seq<char>>)
    requires
        grid_no_esc(rows),
        all_no_esc(r),
    ensures
        grid_no_esc(rows.push(r)),
{
    assert forall|k: int| 0 <= k < rows.push(r).len() implies all_no_esc(
        #[trigger] rows.push(r)[k],
    ) by {
        if k < rows.len() {
            assert(rows.push(r)[k] == rows[k]);
        }
    }
}

proof fn lemma_marker(l: ListView, depth: nat)
    ensures
        no_esc(item_marker(l, depth)),
{
    let ind = repeat_char(' ', 2 * (depth - 1) as nat);
    if l.ordered && l.indices.len() > 0 {
        lemma_decimal(l.indices.last() + 1);
        lemma_concat(decimal(l.indices.last() + 1), seq!['.', ' ']);
        lemma_concat(ind, decimal(l.indices.last() + 1) + seq!['.', ' ']);
    } else if l.ordered {
        lemma_concat(ind, Seq::empty());
    } else {
        lemma_concat(ind, seq!['•', ' ']);
    }
}

proof fn lemma_quote(q: crate::terminal_renderer::QuoteView)
    requires
        all_no_esc(q.lines),
        no_esc(q.current),
    ensures
        no_esc(quote_text(q)),
{
    let ls = if q.current.len() > 0 {
        q.lines.push(q.current)
    } else {
        q.lines
    };
    if q.current.len() > 0 {
        lemma_all_push(q.lines, q.current);
    }
    lemma_join(ls, seq!['\n']);
    lemma_barred(join_seq(ls, seq!['\n']));
}

proof fn lemma_step(st: StateView, e: EventView)
    requires
        state_no_esc(st),
        event_no_esc(e),
    ensures
        state_no_esc(event_step(st, e)),
{
    lemma_push(st.out, '\n');
    lemma_push(st.out.push('\n'), '\n');
    match e {
        EventView::Start(tag) => {
            match tag {
                crate::terminal_renderer::MdTag::Item => {
                    if st.list is Some {
                        lemma_marker(st.list->0, st.depth);
                        lemma_concat(st.out, item_marker(st.list->0, st.depth));
                    }
                },
                _ => {
                    assert(no_esc(Seq::<char>::empty()));
                },
            }
        },
        EventView::End(tag) => {
            match tag {
                crate::terminal_renderer::MdTag::CodeBlock => {
                    if st.code is Some {
                        lemma_code_box(st.code->0);
                        let o = st.out + code_box_text(st.code->0);
                        lemma_concat(st.out, code_box_text(st.code->0));
                        lemma_push(o, '\n');
                    }
                },
                crate::terminal_renderer::MdTag::BlockQuote => {
                    if st.quote is Some {
                        lemma_quote(st.quote->0);
                        let o = st.out + quote_text(st.quote->0);
                        lemma_concat(st.out, quote_text(st.quote->0));
                        lemma_push(o, '\n');
                    }
                },
                crate::terminal_renderer::MdTag::Table => {
                    if st.table is Some {
                        lemma_table(st.table->0.rows);
                        let o = st.out + table_text(st.table->0.rows);
                        lemma_concat(st.out, table_text(st.table->0.rows));
                        lemma_push(o, '\n');
                    }
                },
                crate::terminal_renderer::MdTag::TableHead | crate::terminal_renderer::MdTag::TableRow => {
                    if st.table is Some && st.table->0.row.len() > 0 {
                        lemma_grid_push(st.table->0.rows, st.table->0.row);
                    }
                    assert(all_no_esc(Seq::<Seq<char>>::empty()));
                },
                crate::terminal_renderer::MdTag::TableCell => {
                    if st.table is Some {
                        lemma_all_push(st.table->0.row, st.table->0.cell);
                    }
                    assert(no_esc(Seq::<char>::empty()));
                },
                _ => {},
            }
        },
        EventView::Text(t) => {
            if st.code is Some {
                lemma_concat(st.code->0, t);
            } else if st.table is Some {
                lemma_concat(st.table->0.cell, t);
            } else if st.quote is Some {
                lemma_concat(st.quote->0.current, t);
            } else {
                lemma_concat(st.out, t);
            }
        },
        EventView::Code(c) => {
            lemma_concat(st.out, c);
        },
        EventView::SoftBreak | EventView::HardBreak => {
            if st.code is Some {
                lemma_push(st.code->0, '\n');
            } else if st.table is Some {
                lemma_push(st.table->0.cell, '\n');
                lemma_push(st.table->0.cell, ' ');
            } else if st.quote is Some {
                lemma_all_push(st.quote->0.lines, st.quote->0.current);
                assert(no_esc(Seq::<char>::empty()));
            } else {
                lemma_push(st.out, ' ');
                assert(st.out.push(' ') =~= st.out + seq![' ']);
                lemma_concat(st.out.push('\n'), repeat_char(' ', 2 * st.depth));
            }
        },
        EventView::TaskListMarker(_) => {
            lemma_concat(st.out, seq!['☑', ' ']);
            lemma_concat(st.out, seq!['☐', ' ']);
        },
        _ => {},
    }
}

proof fn lemma_run(es: Seq<EventView>)
    requires
        forall|i: int| 0 <= i < es.len() ==> event_no_esc(#[trigger] es[i]),
    ensures
        state_no_esc(run(es)),
    decreases es.len(),
{
    if es.len() > 0 {
        let init = es.drop_last();
        assert forall|i: int| 0 <= i < init.len() implies event_no_esc(#[trigger] init[i]) by {
            assert(init[i] == es[i]);
        }
        lemma_run(init);
        lemma_step(run(init), es.last());
    } else {
        assert(no_esc(Seq::<char>::empty()));
    }
}

/// With colours off, rendering adds no escape sequence: when no text or code
/// span of the events holds an escape character, neither does the output.
pub proof fn lemma_plain_output_has_no_escapes(es: Seq<EventView>)
    requires
        forall|i: int| 0 <= i < es.len() ==> event_no_esc(#[trigger] es[i]),
    ensures
        no_esc(rendered(es)),
{
    lemma_run(es);
    lemma_trim_end(run(es).out);
    lemma_push(trim_end_seq(run(es).out), '\n');
}

} // verus!
