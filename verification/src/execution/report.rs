//! The text shown for a result: one line for a message, or a table with a
//! header line, a separator line, one line per row and a row count.
//!
//! Column widths are byte lengths of the widest cell; cells are padded
//! with spaces to that many characters.

use vstd::prelude::*;
use vstd::utf8::encode_utf8;

use super::execution::{texts, ExecuteResult, ResultV};
use crate::text::{char_to_string, decimal, push_str, to_owned_string, usize_to_string};

verus! {

/// The number of bytes of the UTF-8 form of `s`.
pub open spec fn byte_len(s: Seq<char>) -> nat {
    encode_utf8(s).len()
}

/// `n` copies of `c`.
pub open spec fn repeat(c: char, n: nat) -> Seq<char> {
    Seq::new(n, |i: int| c)
}

/// `s` padded on the right with spaces to `w` characters.
pub open spec fn pad_right(s: Seq<char>, w: nat) -> Seq<char> {
    if s.len() < w {
        s + repeat(' ', (w - s.len()) as nat)
    } else {
        s
    }
}

/// The parts joined, with `sep` between neighbours.
pub open spec fn join(parts: Seq<Seq<char>>, sep: Seq<char>) -> Seq<char>
    decreases parts.len(),
{
    if parts.len() == 0 {
        Seq::empty()
    } else if parts.len() == 1 {
        parts[0]
    } else {
        join(parts.drop_last(), sep) + sep + parts.last()
    }
}

/// The cells of a line: each value padded to its column's width, with a
/// space on each side; as many as there are both values and widths.
pub open spec fn cells(cols: Seq<Seq<char>>, widths: Seq<nat>) -> Seq<Seq<char>> {
    let n = if cols.len() < widths.len() {
        cols.len()
    } else {
        widths.len()
    };
    Seq::new(n, |i: int| seq![' '] + pad_right(cols[i], widths[i]) + seq![' '])
}

/// A line of a table.
pub open spec fn table_line(cols: Seq<Seq<char>>, widths: Seq<nat>) -> Seq<char> {
    join(cells(cols, widths), "|"@)
}

/// The widest byte length among column `i` of the first `n` rows and the
/// header of that column.
pub open spec fn width_upto(headers: Seq<Seq<char>>, rows: Seq<Seq<Seq<char>>>, i: int, n: nat) -> nat
    decreases n,
{
    if n == 0 {
        byte_len(headers[i])
    } else {
        let w = width_upto(headers, rows, i, (n - 1) as nat);
        let b = byte_len(rows[n - 1][i]);
        if b > w {
            b
        } else {
            w
        }
    }
}

/// The widths of the columns of a table.
pub open spec fn widths(headers: Seq<Seq<char>>, rows: Seq<Seq<Seq<char>>>) -> Seq<nat> {
    Seq::new(headers.len(), |i: int| width_upto(headers, rows, i, rows.len()))
}

/// The line under the header: a run of `-` two longer than each width,
/// joined by `+`.
pub open spec fn separator(ws: Seq<nat>) -> Seq<char> {
    join(Seq::new(ws.len(), |i: int| repeat('-', ws[i] + 2)), "+"@)
}

/// The line counting the rows.
pub open spec fn count_line(n: nat) -> Seq<char> {
    "("@ + decimal(n) + if n == 1 {
        " row)"@
    } else {
        " rows)"@
    }
}

/// The lines shown for a result.
pub open spec fn spec_result_lines(r: ResultV) -> Seq<Seq<char>> {
    match r {
        ResultV::Created(name) => seq!["table \""@ + name + "\" created."@],
        ResultV::Inserted => seq!["1 row inserted."@],
        ResultV::Message(m) => seq![m],
        ResultV::Rows(headers, rows) => if rows.len() == 0 {
            seq!["(0 rows)"@]
        } else {
            let ws = widths(headers, rows);
            seq![table_line(headers, ws), separator(ws)] + rows.map_values(
                |r: Seq<Seq<char>>| table_line(r, ws),
            ) + seq![count_line(rows.len())]
        },
    }
}

/// Every row has a value for each header, and no cell is so long that its
/// width and the padding around it would not fit in a `usize`.
pub open spec fn printable_table(headers: Seq<Seq<char>>, rows: Seq<Seq<Seq<char>>>) -> bool {
    &&& forall|k: int| 0 <= k < rows.len() ==> (#[trigger] rows[k]).len() >= headers.len()
    &&& forall|i: int| 0 <= i < headers.len() ==> byte_len(#[trigger] headers[i]) + 2 < usize::MAX
    &&& forall|k: int, i: int| 0 <= k < rows.len() && 0 <= i < rows[k].len() ==> byte_len(
        #[trigger] rows[k][i],
    ) + 2 < usize::MAX
}

/// A result can be shown: a table's rows fit its header.
pub open spec fn printable(r: ResultV) -> bool {
    match r {
        ResultV::Rows(headers, rows) => printable_table(headers, rows),
        _ => true,
    }
}

/// `n` copies of `c`.
fn repeat_string(c: char, n: usize) -> (s: String)
    ensures
        s@ == repeat(c, n as nat),
{
    let mut s = String::new();
    let mut i: usize = 0;
    while i < n
        invariant
            0 <= i <= n,
            s@ == repeat(c, i as nat),
        decreases n - i,
    {
        let cs = char_to_string(c);
        push_str(&mut s, cs.as_str());
        i += 1;
        assert(s@ =~= repeat(c, i as nat));
    }
    s
}

/// The parts joined, with `sep` between neighbours.
fn join_strings(parts: &Vec<String>, sep: &str) -> (s: String)
    ensures
        s@ == join(texts(parts@), sep@),
{
    let ghost ps = texts(parts@);
    let mut s = String::new();
    let mut i: usize = 0;
    while i < parts.len()
        invariant
            ps == texts(parts@),
            0 <= i <= parts@.len(),
            s@ == join(ps.subrange(0, i as int), sep@),
        decreases parts@.len() - i,
    {
        proof {
            let pre = ps.subrange(0, i + 1);
            assert(pre.drop_last() =~= ps.subrange(0, i as int));
            assert(pre.last() == parts@[i as int]@);
        }
        if i > 0 {
            push_str(&mut s, sep);
        } else {
            assert(s@ =~= Seq::<char>::empty());
        }
        push_str(&mut s, parts[i].as_str());
        i += 1;
    }
    assert(ps.subrange(0, parts@.len() as int) =~= ps);
    s
}

/// A line of a table for the values `cols`.
fn print_row_line(cols: &Vec<String>, widths: &Vec<usize>) -> (s: String)
    ensures
        s@ == table_line(texts(cols@), widths@.map_values(|w: usize| w as nat)),
{
    let ghost ws = widths@.map_values(|w: usize| w as nat);
    let n = if cols.len() < widths.len() {
        cols.len()
    } else {
        widths.len()
    };
    let mut parts: Vec<String> = Vec::new();
    let mut i: usize = 0;
    while i < n
        invariant
            n <= cols@.len(),
            n <= widths@.len(),
            ws == widths@.map_values(|w: usize| w as nat),
            0 <= i <= n,
            parts@.len() == i,
            forall|j: int| 0 <= j < i ==> #[trigger] parts@[j]@ == cells(texts(cols@), ws)[j],
        decreases n - i,
    {
        let v = cols[i].as_str();
        let w = widths[i];
        let len = v.unicode_len();
        let mut cell = to_owned_string(" ");
        push_str(&mut cell, v);
        if len < w {
            let pad = repeat_string(' ', w - len);
            push_str(&mut cell, pad.as_str());
        }
        push_str(&mut cell, " ");
        proof {
            reveal_strlit(" ");
            assert(cell@ =~= cells(texts(cols@), ws)[i as int]);
        }
        parts.push(cell);
        i += 1;
    }
    proof {
        reveal_strlit("|");
        assert(texts(parts@) =~= cells(texts(cols@), ws));
    }
    join_strings(&parts, "|")
}

/// The widths of the columns of a table.
fn column_widths(headers: &Vec<String>, rows: &Vec<Vec<String>>) -> (ws: Vec<usize>)
    requires
        printable_table(texts(headers@), rows@.map_values(|r: Vec<String>| texts(r@))),
    ensures
        ws@.map_values(|w: usize| w as nat) == widths(texts(headers@), rows@.map_values(|r: Vec<String>| texts(r@))),
        forall|i: int| 0 <= i < ws@.len() ==> #[trigger] ws@[i] + 2 < usize::MAX,
{
    let ghost hs = texts(headers@);
    let ghost rs = rows@.map_values(|r: Vec<String>| texts(r@));
    let mut ws: Vec<usize> = Vec::new();
    let mut i: usize = 0;
    while i < headers.len()
        invariant
            hs == texts(headers@),
            rs == rows@.map_values(|r: Vec<String>| texts(r@)),
            printable_table(hs, rs),
            0 <= i <= headers@.len(),
            ws@.len() == i,
            forall|j: int| 0 <= j < i ==> #[trigger] ws@[j] == width_upto(hs, rs, j, rs.len()),
            forall|j: int| 0 <= j < i ==> #[trigger] ws@[j] + 2 < usize::MAX,
        decreases headers@.len() - i,
    {
        assert(hs[i as int] == headers@[i as int]@);
        assert(byte_len(hs[i as int]) + 2 < usize::MAX);
        let mut w = headers[i].as_str().len();
        assert(w == byte_len(hs[i as int]));
        let mut k: usize = 0;
        while k < rows.len()
            invariant
                hs == texts(headers@),
                rs == rows@.map_values(|r: Vec<String>| texts(r@)),
                printable_table(hs, rs),
                0 <= i < headers@.len(),
                0 <= k <= rows@.len(),
                w == width_upto(hs, rs, i as int, k as nat),
                w + 2 < usize::MAX,
            decreases rows@.len() - k,
        {
            assert(rs[k as int] == texts(rows@[k as int]@));
            assert(rs[k as int].len() >= hs.len());
            assert(rs[k as int][i as int] == rows@[k as int]@[i as int]@);
            assert(byte_len(rs[k as int][i as int]) + 2 < usize::MAX);
            let b = rows[k][i].as_str().len();
            assert(b == byte_len(rs[k as int][i as int]));
            if b > w {
                w = b;
            }
            k += 1;
        }
        ws.push(w);
        i += 1;
    }
    assert(ws@.map_values(|w: usize| w as nat) =~= widths(hs, rs));
    ws
}

/// The lines shown for `result`.
pub fn result_lines(result: &ExecuteResult) -> (lines: Vec<String>)
    requires
        printable(result@),
    ensures
        texts(lines@) == spec_result_lines(result@),
{
    let mut lines: Vec<String> = Vec::new();
    match result {
        ExecuteResult::Created(name) => {
            let mut l = to_owned_string("table \"");
            push_str(&mut l, name.as_str());
            push_str(&mut l, "\" created.");
            lines.push(l);
        },
        ExecuteResult::Inserted => {
            lines.push(to_owned_string("1 row inserted."));
        },
        ExecuteResult::Message(msg) => {
            lines.push(msg.clone());
        },
        ExecuteResult::Rows { headers, rows } => {
            if rows.len() == 0 {
                lines.push(to_owned_string("(0 rows)"));
                assert(texts(lines@) =~= spec_result_lines(result@));
                return lines;
            }
            let ghost rs = rows@.map_values(|r: Vec<String>| texts(r@));
            let ws = column_widths(headers, rows);
            let ghost wsn = ws@.map_values(|w: usize| w as nat);
            lines.push(print_row_line(headers, &ws));
            let mut dashes: Vec<String> = Vec::new();
            let mut i: usize = 0;
            while i < ws.len()
                invariant
                    0 <= i <= ws@.len(),
                    forall|j: int| 0 <= j < ws@.len() ==> #[trigger] ws@[j] + 2 < usize::MAX,
                    dashes@.len() == i,
                    forall|j: int| 0 <= j < i ==> #[trigger] dashes@[j]@ == repeat('-', (ws@[j] + 2) as nat),
                decreases ws@.len() - i,
            {
                dashes.push(repeat_string('-', ws[i] + 2));
                i += 1;
            }
            proof {
                reveal_strlit("+");
                assert(texts(dashes@) =~= Seq::new(wsn.len(), |j: int| repeat('-', wsn[j] + 2)));
            }
            lines.push(join_strings(&dashes, "+"));
            let mut k: usize = 0;
            while k < rows.len()
                invariant
                    rs == rows@.map_values(|r: Vec<String>| texts(r@)),
                    wsn == ws@.map_values(|w: usize| w as nat),
                    wsn == widths(texts(headers@), rs),
                    0 <= k <= rows@.len(),
                    lines@.len() == 2 + k,
                    texts(lines@) == seq![table_line(texts(headers@), wsn), separator(wsn)] + rs.subrange(
                        0,
                        k as int,
                    ).map_values(|r: Seq<Seq<char>>| table_line(r, wsn)),
                decreases rows@.len() - k,
            {
                let ghost before = texts(lines@);
                lines.push(print_row_line(&rows[k], &ws));
                proof {
                    assert(rs[k as int] == texts(rows@[k as int]@));
                    assert(texts(lines@) =~= before.push(table_line(rs[k as int], wsn)));
                    assert(rs.subrange(0, k + 1).map_values(|r: Seq<Seq<char>>| table_line(r, wsn)) =~= rs.subrange(
                        0,
                        k as int,
                    ).map_values(|r: Seq<Seq<char>>| table_line(r, wsn)).push(table_line(rs[k as int], wsn)));
                    assert(texts(lines@) =~= seq![table_line(texts(headers@), wsn), separator(wsn)] + rs.subrange(
                        0,
                        k + 1,
                    ).map_values(|r: Seq<Seq<char>>| table_line(r, wsn)));
                }
                k += 1;
            }
            let n = rows.len();
            let mut l = to_owned_string("(");
            push_str(&mut l, usize_to_string(n).as_str());
            if n == 1 {
                push_str(&mut l, " row)");
            } else {
                push_str(&mut l, " rows)");
            }
            lines.push(l);
            proof {
                assert(rs.subrange(0, rows@.len() as int) =~= rs);
            }
        },
    }
    assert(texts(lines@) =~= spec_result_lines(result@));
    lines
}


/// A column is as wide as its widest entry: its width is at least the byte
/// length of its header and of its cell in every row, and equals one of
/// them.
pub proof fn lemma_widths_fit_every_cell(headers: Seq<Seq<char>>, rows: Seq<Seq<Seq<char>>>, i: int)
    requires
        0 <= i < headers.len(),
    ensures
        byte_len(headers[i]) <= widths(headers, rows)[i],
        forall|k: int| 0 <= k < rows.len() ==> byte_len(#[trigger] rows[k][i]) <= widths(headers, rows)[i],
        widths(headers, rows)[i] == byte_len(headers[i]) || exists|k: int|
            0 <= k < rows.len() && widths(headers, rows)[i] == byte_len(#[trigger] rows[k][i]),
{
    lemma_width_upto_max(headers, rows, i, rows.len());
}

proof fn lemma_width_upto_max(headers: Seq<Seq<char>>, rows: Seq<Seq<Seq<char>>>, i: int, n: nat)
    requires
        n <= rows.len(),
    ensures
        byte_len(headers[i]) <= width_upto(headers, rows, i, n),
        forall|k: int| 0 <= k < n ==> byte_len(#[trigger] rows[k][i]) <= width_upto(headers, rows, i, n),
        width_upto(headers, rows, i, n) == byte_len(headers[i]) || exists|k: int|
            0 <= k < n && width_upto(headers, rows, i, n) == byte_len(#[trigger] rows[k][i]),
    decreases n,
{
    if n > 0 {
        lemma_width_upto_max(headers, rows, i, (n - 1) as nat);
        let w = width_upto(headers, rows, i, (n - 1) as nat);
        let b = byte_len(rows[n - 1][i]);
        if b > w {
            assert(width_upto(headers, rows, i, n) == byte_len(rows[n - 1][i]));
        }
    }
}


/// The length of a line whose cells are the widths `ws` plus a space on
/// each side, with one separator character between neighbours.
pub open spec fn line_length(ws: Seq<nat>) -> nat
    decreases ws.len(),
{
    if ws.len() == 0 {
        0
    } else if ws.len() == 1 {
        ws[0] + 2
    } else {
        line_length(ws.drop_last()) + 1 + ws.last() + 2
    }
}

proof fn lemma_join_length(parts: Seq<Seq<char>>, sep: Seq<char>, ws: Seq<nat>)
    requires
        sep.len() == 1,
        parts.len() == ws.len(),
        forall|i: int| 0 <= i < parts.len() ==> (#[trigger] parts[i]).len() == ws[i] + 2,
    ensures
        join(parts, sep).len() == line_length(ws),
    decreases parts.len(),
{
    if parts.len() > 1 {
        lemma_join_length(parts.drop_last(), sep, ws.drop_last());
    }
}

/// A line of cells that each fit their width is as long as the
/// separator line: every cell takes exactly its width plus two spaces.
pub proof fn lemma_line_length(cols: Seq<Seq<char>>, ws: Seq<nat>)
    requires
        cols.len() >= ws.len(),
        forall|i: int| 0 <= i < ws.len() ==> (#[trigger] cols[i]).len() <= ws[i],
    ensures
        table_line(cols, ws).len() == line_length(ws),
        separator(ws).len() == line_length(ws),
{
    reveal_strlit("|");
    reveal_strlit("+");
    let cs = cells(cols, ws);
    assert forall|i: int| 0 <= i < cs.len() implies (#[trigger] cs[i]).len() == ws[i] + 2 by {
        if cols[i].len() < ws[i] {
            assert(pad_right(cols[i], ws[i]).len() == ws[i]);
        }
    }
    lemma_join_length(cs, "|"@, ws);
    let dashes = Seq::new(ws.len(), |i: int| repeat('-', ws[i] + 2));
    lemma_join_length(dashes, "+"@, ws);
}

/// In a result table whose headers and cells are ASCII (one byte per
/// character), the header line, the separator and every row line have the
/// same length, so the columns line up.
pub proof fn lemma_table_lines_align(headers: Seq<Seq<char>>, rows: Seq<Seq<Seq<char>>>, k: int)
    requires
        0 <= k < rows.len(),
        rows[k].len() >= headers.len(),
        forall|i: int| 0 <= i < headers.len() ==> byte_len(#[trigger] headers[i]) == headers[i].len(),
        forall|i: int| 0 <= i < headers.len() ==> byte_len(#[trigger] rows[k][i]) == rows[k][i].len(),
    ensures
        table_line(rows[k], widths(headers, rows)).len() == separator(widths(headers, rows)).len(),
        table_line(headers, widths(headers, rows)).len() == separator(widths(headers, rows)).len(),
{
    let ws = widths(headers, rows);
    assert forall|i: int| 0 <= i < ws.len() implies (#[trigger] rows[k][i]).len() <= ws[i] by {
        lemma_widths_fit_every_cell(headers, rows, i);
    }
    assert forall|i: int| 0 <= i < ws.len() implies (#[trigger] headers[i]).len() <= ws[i] by {
        lemma_widths_fit_every_cell(headers, rows, i);
    }
    lemma_line_length(rows[k], ws);
    lemma_line_length(headers, ws);
}

} // verus!
