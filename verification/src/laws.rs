use vstd::prelude::*;

use crate::table::{
    all_values_empty, cells_of, cells_text, has_key, is_table_line, keys_of, parse_lines,
    parse_table, row_line, table_lines, table_only, table_rows, value_of, with_newline, zip_prefix,
    zip_row, Entries,
};
use crate::text::{
    ascii_lower, ascii_lower_seq, contains_seq, decimal, digit_char, is_ws, lemma_split_nonempty, lines,
    lowercase, split_char, strip_both, strip_cr, strip_end, strip_start, trim, trim_end,
    trim_start, word_end,
};
use crate::validate::{
    cap_findings, heading_findings, heading_set, heading_token, inbox_after_add, inbox_findings,
    inbox_row_findings, inbox_rows_findings, is_open_row, is_secret_name, key_text_findings,
    link_matches,
    ledger_after_add, ledger_findings, ledger_row_findings, missing_findings, norm_keeps,
    normalized, open_count, place, proposal_findings, proposal_headings, required_inbox,
    required_ledger, secret_findings, secret_names, tokens_upto, Finding, MAX_OPEN_INBOX,
};

verus! {

broadcast use vstd::string::group_string_axioms;

// ---------------------------------------------------------------------------
// Splitting and lines
// ---------------------------------------------------------------------------

proof fn lemma_split_append(a: Seq<char>, b: Seq<char>, sep: char)
    requires
        a.len() > 0,
        a.last() == sep,
    ensures
        split_char(a + b, sep) == split_char(a, sep).drop_last() + split_char(b, sep),
    decreases b.len(),
{
    lemma_split_nonempty(a, sep);
    assert(a.drop_last().push(a.last()) =~= a);
    if b.len() == 0 {
        assert(a + b =~= a);
        lemma_split_nonempty(a.drop_last(), sep);
        assert(split_char(a, sep) =~= split_char(a, sep).drop_last() + split_char(b, sep));
    } else {
        lemma_split_append(a, b.drop_last(), sep);
        assert((a + b).drop_last() =~= a + b.drop_last());
        assert((a + b).last() == b.last());
        lemma_split_nonempty(b.drop_last(), sep);
        let p = split_char(a, sep).drop_last();
        let q = split_char(b.drop_last(), sep);
        if b.last() == sep {
            assert((p + q).push(Seq::<char>::empty()) =~= p + q.push(Seq::<char>::empty()));
        } else {
            assert((p + q).update((p + q).len() - 1, (p + q).last().push(b.last())) =~= p
                + q.update(q.len() - 1, q.last().push(b.last())));
        }
    }
}

proof fn lemma_split_no_sep(s: Seq<char>, sep: char)
    requires
        forall|i: int| 0 <= i < s.len() ==> s[i] != sep,
    ensures
        split_char(s, sep) == seq![s],
    decreases s.len(),
{
    if s.len() > 0 {
        lemma_split_no_sep(s.drop_last(), sep);
        assert(s.drop_last().push(s.last()) =~= s);
        assert(s[s.len() - 1] != sep);
        assert(seq![s.drop_last()].update(0, s.drop_last().push(s.last())) =~= seq![s]);
    } else {
        assert(s =~= Seq::<char>::empty());
        assert(split_char(s, sep) =~= seq![s]);
    }
}

/// Splitting `x | y` where `y` holds no separator gives the pieces of `x`, then `y`.
proof fn lemma_split_then_piece(x: Seq<char>, y: Seq<char>, sep: char)
    requires
        forall|i: int| 0 <= i < y.len() ==> y[i] != sep,
    ensures
        split_char(x.push(sep) + y, sep) == split_char(x, sep).push(y),
{
    lemma_split_append(x.push(sep), y, sep);
    assert(x.push(sep).drop_last() =~= x);
    lemma_split_no_sep(y, sep);
    assert(split_char(x, sep).push(Seq::<char>::empty()).drop_last() =~= split_char(x, sep));
    assert(split_char(x, sep) + seq![y] =~= split_char(x, sep).push(y));
}

/// Appending a line feed-ended line to a text that ends with a line feed adds that line.
proof fn lemma_lines_append(a: Seq<char>, body: Seq<char>)
    requires
        a.len() > 0,
        a.last() == '\n',
        forall|i: int| 0 <= i < body.len() ==> body[i] != '\n',
    ensures
        lines(a + body.push('\n')) == lines(a).push(strip_cr(body)),
{
    lemma_split_append(a, body.push('\n'), '\n');
    lemma_split_no_sep(body, '\n');
    assert(body.push('\n').drop_last() =~= body);
    let p = split_char(a, '\n');
    lemma_split_nonempty(a, '\n');
    assert(a.drop_last().push(a.last()) =~= a);
    lemma_split_nonempty(a.drop_last(), '\n');
    assert(p.last() == Seq::<char>::empty());
    let parts = split_char(a + body.push('\n'), '\n');
    assert(split_char(body.push('\n'), '\n') =~= seq![body, Seq::<char>::empty()]);
    assert(parts =~= p.drop_last() + seq![body, Seq::<char>::empty()]);
    assert(parts.drop_last() =~= p.drop_last().push(body));
    assert(parts.drop_last().map_values(|l: Seq<char>| strip_cr(l)) =~= p.drop_last().map_values(
        |l: Seq<char>| strip_cr(l),
    ).push(strip_cr(body)));
}

// ---------------------------------------------------------------------------
// Trimming
// ---------------------------------------------------------------------------

proof fn lemma_trim_start_first(s: Seq<char>)
    ensures
        trim_start(s).len() > 0 ==> !is_ws(trim_start(s)[0]),
        trim_start(s).len() <= s.len(),
    decreases s.len(),
{
    if s.len() > 0 && is_ws(s[0]) {
        lemma_trim_start_first(s.drop_first());
    }
}

/// `trim_end` keeps a prefix, and keeps the first character when it is not blank.
proof fn lemma_trim_end_prefix(s: Seq<char>)
    ensures
        trim_end(s).len() <= s.len(),
        trim_end(s) == s.take(trim_end(s).len() as int),
        s.len() > 0 && !is_ws(s[0]) ==> trim_end(s).len() > 0,
    decreases s.len(),
{
    if s.len() > 0 && is_ws(s.last()) {
        lemma_trim_end_prefix(s.drop_last());
        assert(s.drop_last().take(trim_end(s.drop_last()).len() as int) =~= s.take(
            trim_end(s.drop_last()).len() as int,
        ));
    } else {
        assert(s.take(s.len() as int) =~= s);
    }
}

/// A line is a table line exactly when its trimmed form starts with a pipe.
proof fn lemma_table_line_by_trim(l: Seq<char>)
    ensures
        is_table_line(l) == (trim(l).len() > 0 && trim(l)[0] == '|'),
{
    lemma_trim_start_first(l);
    lemma_trim_end_prefix(trim_start(l));
    if trim_start(l).len() > 0 {
        assert(trim(l)[0] == trim_start(l)[0]);
    }
}

proof fn lemma_trim_start_drop_ws(s: Seq<char>)
    requires
        s.len() > 0,
        is_ws(s.last()),
    ensures
        (trim_start(s).len() == 0 && trim_start(s.drop_last()).len() == 0) || (trim_start(s).len()
            > 0 && trim_start(s.drop_last()) == trim_start(s).drop_last() && trim_start(s).last()
            == s.last()),
    decreases s.len(),
{
    if is_ws(s[0]) {
        if s.len() == 1 {
            assert(s.drop_first() =~= Seq::<char>::empty());
            assert(s.drop_last() =~= Seq::<char>::empty());
        } else {
            lemma_trim_start_drop_ws(s.drop_first());
            assert(s.drop_last().drop_first() =~= s.drop_first().drop_last());
            assert(s.drop_last()[0] == s[0]);
        }
    } else {
        assert(s.len() >= 2);
        assert(s.drop_last()[0] == s[0]);
    }
}

/// A blank at the end does not change the trimmed form.
proof fn lemma_trim_drop_ws(s: Seq<char>)
    requires
        s.len() > 0,
        is_ws(s.last()),
    ensures
        trim(s) == trim(s.drop_last()),
{
    lemma_trim_start_drop_ws(s);
}

/// `\r` before the line feed does not change the trimmed form.
proof fn lemma_trim_strip_cr(l: Seq<char>)
    ensures
        trim(strip_cr(l)) == trim(l),
{
    if l.len() > 0 && l.last() == '\r' {
        lemma_trim_drop_ws(l);
    }
}

// ---------------------------------------------------------------------------
// Lines that trim alike parse alike
// ---------------------------------------------------------------------------

spec fn trim_equiv(x: Seq<Seq<char>>, y: Seq<Seq<char>>) -> bool {
    x.len() == y.len() && forall|i: int| 0 <= i < x.len() ==> trim(#[trigger] x[i]) == trim(y[i])
}

proof fn lemma_table_only_equiv(x: Seq<Seq<char>>, y: Seq<Seq<char>>)
    requires
        trim_equiv(x, y),
    ensures
        trim_equiv(table_only(x), table_only(y)),
    decreases x.len(),
{
    reveal_with_fuel(Seq::<_>::filter, 1);
    if x.len() > 0 {
        assert(trim_equiv(x.drop_last(), y.drop_last())) by {
            assert forall|i: int| 0 <= i < x.drop_last().len() implies trim(
                #[trigger] x.drop_last()[i],
            ) == trim(y.drop_last()[i]) by {
                assert(trim(x[i]) == trim(y[i]));
            }
        }
        lemma_table_only_equiv(x.drop_last(), y.drop_last());
        lemma_table_line_by_trim(x.last());
        lemma_table_line_by_trim(y.last());
        assert(trim(x[x.len() - 1]) == trim(y[y.len() - 1]));
        let tx = table_only(x.drop_last());
        let ty = table_only(y.drop_last());
        if is_table_line(x.last()) {
            assert forall|i: int| 0 <= i < tx.push(x.last()).len() implies trim(
                #[trigger] tx.push(x.last())[i],
            ) == trim(ty.push(y.last())[i]) by {
                if i < tx.len() {
                    assert(trim(tx[i]) == trim(ty[i]));
                }
            }
        }
    }
}

proof fn lemma_table_rows_equiv(h: Seq<Seq<char>>, x: Seq<Seq<char>>, y: Seq<Seq<char>>)
    requires
        trim_equiv(x, y),
    ensures
        table_rows(h, x) == table_rows(h, y),
    decreases x.len(),
{
    if x.len() > 0 {
        assert(trim_equiv(x.drop_last(), y.drop_last())) by {
            assert forall|i: int| 0 <= i < x.drop_last().len() implies trim(
                #[trigger] x.drop_last()[i],
            ) == trim(y.drop_last()[i]) by {
                assert(trim(x[i]) == trim(y[i]));
            }
        }
        lemma_table_rows_equiv(h, x.drop_last(), y.drop_last());
        assert(trim(x[x.len() - 1]) == trim(y[y.len() - 1]));
        assert(cells_of(x.last()) == cells_of(y.last()));
    }
}

proof fn lemma_parse_lines_equiv(x: Seq<Seq<char>>, y: Seq<Seq<char>>)
    requires
        trim_equiv(x, y),
    ensures
        parse_lines(x) == parse_lines(y),
        trim_equiv(table_only(x), table_only(y)),
{
    lemma_table_only_equiv(x, y);
    let tx = table_only(x);
    let ty = table_only(y);
    if tx.len() >= 2 {
        assert(trim(tx[0]) == trim(ty[0]));
        assert(cells_of(tx[0]) == cells_of(ty[0]));
        assert(trim_equiv(tx.skip(2), ty.skip(2))) by {
            assert forall|i: int| 0 <= i < tx.skip(2).len() implies trim(#[trigger] tx.skip(2)[i])
                == trim(ty.skip(2)[i]) by {
                assert(trim(tx[i + 2]) == trim(ty[i + 2]));
            }
        }
        lemma_table_rows_equiv(cells_of(tx[0]), tx.skip(2), ty.skip(2));
    }
}

/// Ending a non-empty text with a line feed changes none of its lines' trimmed forms.
proof fn lemma_lines_with_newline(text: Seq<char>)
    requires
        text.len() > 0,
    ensures
        trim_equiv(lines(with_newline(text)), lines(text)),
{
    if text.last() == '\n' {
        assert(with_newline(text) == text);
        assert(trim_equiv(lines(text), lines(text)));
    } else {
        let t2 = text.push('\n');
        assert(t2.drop_last() =~= text);
        let p = split_char(text, '\n');
        lemma_split_nonempty(text, '\n');
        lemma_split_nonempty(text.drop_last(), '\n');
        assert(split_char(t2, '\n') == p.push(Seq::<char>::empty()));
        assert(p.push(Seq::<char>::empty()).drop_last() =~= p);
        assert(text.drop_last().push(text.last()) =~= text);
        assert(p.last().len() > 0);
        let l2 = lines(t2);
        let l1 = lines(text);
        assert(l2 == p.map_values(|l: Seq<char>| strip_cr(l)));
        assert(l1 == p.drop_last().map_values(|l: Seq<char>| strip_cr(l)).push(p.last()));
        assert forall|i: int| 0 <= i < l2.len() implies trim(#[trigger] l2[i]) == trim(l1[i]) by {
            lemma_trim_strip_cr(p[i]);
            if i < l2.len() - 1 {
                assert(l1[i] == strip_cr(p[i]));
            }
        }
    }
}

// ---------------------------------------------------------------------------
// The table line of a row
// ---------------------------------------------------------------------------

/// A cell that a table line carries unchanged: no pipe, no line feed, and no blank at
/// either end.
pub open spec fn plain_cell(c: Seq<char>) -> bool {
    &&& forall|i: int| 0 <= i < c.len() ==> c[i] != '|' && c[i] != '\n'
    &&& c.len() == 0 || (!is_ws(c[0]) && !is_ws(c.last()))
}

spec fn padded(c: Seq<char>) -> Seq<char> {
    seq![' '] + c + seq![' ']
}

proof fn lemma_literals()
    ensures
        "|"@ == seq!['|'],
        " "@ == seq![' '],
        " |"@ == seq![' ', '|'],
        "\n"@ == seq!['\n'],
{
    reveal_strlit("|");
    reveal_strlit(" ");
    reveal_strlit(" |");
    reveal_strlit("\n");
}

proof fn lemma_cells_text_shape(cells: Seq<Seq<char>>)
    requires
        cells.len() >= 1,
        forall|i: int| 0 <= i < cells.len() ==> plain_cell(#[trigger] cells[i]),
    ensures
        cells_text(cells).len() >= 2,
        cells_text(cells)[0] == ' ',
        cells_text(cells).last() == '|',
        cells_text(cells).drop_last().last() == ' ',
        forall|i: int| 0 <= i < cells_text(cells).len() ==> #[trigger] cells_text(cells)[i] != '\n',
        split_char(cells_text(cells).drop_last(), '|') == cells.map_values(|c: Seq<char>| padded(c)),
    decreases cells.len(),
{
    lemma_literals();
    let prev = cells.drop_last();
    let c = cells.last();
    assert(plain_cell(cells[cells.len() - 1]));
    let ct = cells_text(cells);
    assert(ct == cells_text(prev) + seq![' '] + c + seq![' ', '|']);
    assert(ct.drop_last() =~= cells_text(prev) + padded(c));
    if cells.len() == 1 {
        assert(cells_text(prev) =~= Seq::<char>::empty());
        assert(ct.drop_last() =~= padded(c));
        assert forall|i: int| 0 <= i < padded(c).len() implies padded(c)[i] != '|' by {
            if 1 <= i < padded(c).len() - 1 {
                assert(padded(c)[i] == c[i - 1]);
            }
        }
        lemma_split_no_sep(padded(c), '|');
        assert(cells.map_values(|c: Seq<char>| padded(c)) =~= seq![padded(c)]);
        assert forall|i: int| 0 <= i < ct.len() implies #[trigger] ct[i] != '\n' by {
            if 1 <= i < ct.len() - 2 {
                assert(ct[i] == c[i - 1]);
            }
        }
    } else {
        assert forall|i: int| 0 <= i < prev.len() implies plain_cell(#[trigger] prev[i]) by {
            assert(prev[i] == cells[i]);
        }
        lemma_cells_text_shape(prev);
        let pt = cells_text(prev);
        assert(pt =~= pt.drop_last().push('|'));
        assert(ct.drop_last() =~= pt.drop_last().push('|') + padded(c));
        assert forall|i: int| 0 <= i < padded(c).len() implies padded(c)[i] != '|' by {
            if 1 <= i < padded(c).len() - 1 {
                assert(padded(c)[i] == c[i - 1]);
            }
        }
        lemma_split_then_piece(pt.drop_last(), padded(c), '|');
        assert(cells.map_values(|c: Seq<char>| padded(c)) =~= prev.map_values(
            |c: Seq<char>| padded(c),
        ).push(padded(c)));
        assert forall|i: int| 0 <= i < ct.len() implies #[trigger] ct[i] != '\n' by {
            if i < pt.len() {
                assert(ct[i] == pt[i]);
            } else if pt.len() + 1 <= i < pt.len() + 1 + c.len() {
                assert(ct[i] == c[i - pt.len() - 1]);
            }
        }
    }
}

proof fn lemma_trim_padded(c: Seq<char>)
    requires
        plain_cell(c),
    ensures
        trim(padded(c)) == c,
{
    let p = padded(c);
    let q = c.push(' ');
    assert(p.drop_first() =~= q);
    assert(is_ws(p[0]));
    assert(trim_start(p) == trim_start(q));
    assert(q.drop_last() =~= c);
    if c.len() == 0 {
        assert(q.drop_first() =~= Seq::<char>::empty());
        assert(q.len() == 1);
        assert(q[0] == ' ');
        assert(is_ws(q[0]));
        assert(trim_start(q) == trim_start(q.drop_first()));
        assert(trim_start(q.drop_first()) == q.drop_first());
        assert(trim_start(q) =~= Seq::<char>::empty());
        assert(trim_end(Seq::<char>::empty()) == Seq::<char>::empty());
        assert(c =~= Seq::<char>::empty());
    } else {
        assert(q[0] == c[0]);
        assert(trim_start(q) == q);
        assert(is_ws(q.last()));
        assert(trim_end(q) == trim_end(c));
        assert(trim_end(c) == c);
    }
}

/// The body of the table line for `cells` (the line without its line feed) is a table
/// line whose cells are `cells`.
proof fn lemma_row_line_cells(cells: Seq<Seq<char>>)
    requires
        cells.len() >= 1,
        forall|i: int| 0 <= i < cells.len() ==> plain_cell(#[trigger] cells[i]),
    ensures
        row_line(cells) == (seq!['|'] + cells_text(cells)).push('\n'),
        is_table_line(seq!['|'] + cells_text(cells)),
        cells_of(seq!['|'] + cells_text(cells)) == cells,
        (seq!['|'] + cells_text(cells)).last() == '|',
        forall|i: int|
            0 <= i < (seq!['|'] + cells_text(cells)).len() ==> #[trigger] (seq!['|'] + cells_text(
                cells,
            ))[i] != '\n',
{
    lemma_literals();
    lemma_cells_text_shape(cells);
    let ct = cells_text(cells);
    let body = seq!['|'] + ct;
    assert(row_line(cells) =~= body.push('\n'));
    assert(body[0] == '|');
    assert(body.last() == '|');
    assert(trim_start(body) == body);
    assert(trim_end(body) == body);
    assert(trim(body) == body);
    assert(body.drop_first() =~= ct);
    assert(ct[0] == ' ');
    assert(strip_start(ct, '|') == ct);
    assert(strip_start(body, '|') == strip_start(ct, '|'));
    assert(ct.drop_last().last() == ' ');
    assert(strip_end(ct, '|') == strip_end(ct.drop_last(), '|'));
    assert(strip_end(ct.drop_last(), '|') == ct.drop_last());
    assert(strip_both(body, '|') == ct.drop_last());
    let pieces = cells.map_values(|c: Seq<char>| padded(c));
    assert forall|i: int| 0 <= i < cells.len() implies #[trigger] trim(pieces[i]) == cells[i] by {
        lemma_trim_padded(cells[i]);
    }
    assert(cells_of(body) =~= cells);
    assert forall|i: int| 0 <= i < body.len() implies #[trigger] body[i] != '\n' by {
        if i > 0 {
            assert(body[i] == ct[i - 1]);
        }
    }
}

// ---------------------------------------------------------------------------
// Laws
// ---------------------------------------------------------------------------

/// What is added is read back: appending a table line `ln` (a line whose first non-blank
/// character is a pipe) to a text whose table has its header and separator lines (after a
/// line feed, when the text does not end with one) adds exactly the row of the header's
/// columns and the line's cells to the rows that the text gives, and leaves those rows as
/// they were, when the line has as many cells as there are columns and the row they make
/// is not all empty (a line with another cell count, or an all-empty row, is never read).
pub proof fn law_added_table_line_is_read_back(text: Seq<char>, ln: Seq<char>)
    requires
        table_lines(text).len() >= 2,
        forall|i: int| 0 <= i < ln.len() ==> ln[i] != '\n',
        is_table_line(ln),
        cells_of(ln).len() == cells_of(table_lines(text)[0]).len(),
        !all_values_empty(zip_row(cells_of(table_lines(text)[0]), cells_of(ln))),
    ensures
        parse_table(with_newline(text) + ln.push('\n')) == parse_table(text).push(
            zip_row(cells_of(table_lines(text)[0]), cells_of(ln)),
        ),
{
    let t = table_lines(text);
    let h = cells_of(t[0]);
    if text.len() == 0 {
        assert(split_char(text, '\n') =~= seq![Seq::<char>::empty()]);
        assert(lines(text) =~= Seq::<Seq<char>>::empty());
        assert(table_only(lines(text)) =~= Seq::<Seq<char>>::empty());
    }
    assert(text.len() > 0);
    let a = with_newline(text);
    assert(a.len() > 0 && a.last() == '\n');
    lemma_trim_start_first(ln);
    let body = strip_cr(ln);
    lemma_trim_strip_cr(ln);
    lemma_table_line_by_trim(ln);
    lemma_table_line_by_trim(body);
    assert(is_table_line(body));
    assert(cells_of(body) == cells_of(ln));
    lemma_lines_append(a, ln);
    let la = lines(a);
    lemma_lines_with_newline(text);
    lemma_parse_lines_equiv(la, lines(text));
    let ta = table_only(la);
    reveal_with_fuel(Seq::<_>::filter, 1);
    assert(la.push(body).drop_last() =~= la);
    assert(table_only(la.push(body)) == ta.push(body));
    let tl = ta.push(body);
    assert(ta.len() == t.len());
    assert(tl[0] == ta[0]);
    assert(trim(ta[0]) == trim(t[0]));
    assert(cells_of(tl[0]) == h);
    assert(tl.skip(2) =~= ta.skip(2).push(body));
    assert(ta.skip(2).push(body).drop_last() =~= ta.skip(2));
    assert(parse_lines(la) == table_rows(h, ta.skip(2)));
    assert(table_rows(h, tl.skip(2)) == table_rows(h, ta.skip(2)).push(zip_row(h, cells_of(ln))));
}

/// What is added is read back, for the table line the library writes: appending the
/// table line of `cells` to a text whose table has its header and separator lines adds
/// exactly the row of the header's columns and `cells`. The cells hold no pipe, no line
/// feed and no blank at either end, there are as many as columns, and the row they make
/// is not all empty.
pub proof fn law_added_row_is_read_back(text: Seq<char>, cells: Seq<Seq<char>>)
    requires
        table_lines(text).len() >= 2,
        cells_of(table_lines(text)[0]).len() == cells.len(),
        forall|i: int| 0 <= i < cells.len() ==> plain_cell(#[trigger] cells[i]),
        !all_values_empty(zip_row(cells_of(table_lines(text)[0]), cells)),
    ensures
        parse_table(with_newline(text) + row_line(cells)) == parse_table(text).push(
            zip_row(cells_of(table_lines(text)[0]), cells),
        ),
{
    let t = table_lines(text);
    lemma_split_nonempty(strip_both(trim(t[0]), '|'), '|');
    assert(cells.len() >= 1);
    lemma_row_line_cells(cells);
    let body = seq!['|'] + cells_text(cells);
    law_added_table_line_is_read_back(text, body);
}

/// What `add_inbox_row` writes is what `parse_md_table` reads back: on an inbox whose
/// table has the inbox columns, the rows of the new text are the rows that were validated,
/// the old rows and then the new one.
pub proof fn law_added_inbox_row_is_listed(text: Seq<char>, cells: Seq<Seq<char>>)
    requires
        table_lines(text).len() >= 2,
        cells_of(table_lines(text)[0]) == required_inbox(),
        cells.len() == required_inbox().len(),
        forall|i: int| 0 <= i < cells.len() ==> plain_cell(#[trigger] cells[i]),
        !all_values_empty(zip_row(required_inbox(), cells)),
    ensures
        parse_table(with_newline(text) + row_line(cells)) == inbox_after_add(text, cells),
{
    law_added_row_is_read_back(text, cells);
}

/// What `add_ledger_row` writes is what `parse_md_table` reads back: on a ledger whose
/// table has the ledger columns, the rows of the new text are the rows that were
/// validated, the old rows and then the new one.
pub proof fn law_added_ledger_row_is_listed(text: Seq<char>, cells: Seq<Seq<char>>)
    requires
        table_lines(text).len() >= 2,
        cells_of(table_lines(text)[0]) == required_ledger(),
        cells.len() == required_ledger().len(),
        forall|i: int| 0 <= i < cells.len() ==> plain_cell(#[trigger] cells[i]),
        !all_values_empty(zip_row(required_ledger(), cells)),
    ensures
        parse_table(with_newline(text) + row_line(cells)) == ledger_after_add(text, cells),
{
    law_added_row_is_read_back(text, cells);
}

proof fn lemma_open_count_push(rows: Seq<Entries>, r: Entries)
    ensures
        open_count(rows.push(r)) == open_count(rows) + if is_open_row(r) {
            1nat
        } else {
            0nat
        },
{
    assert(rows.push(r).drop_last() =~= rows);
}

/// At most `MAX_OPEN_INBOX` rows are open: an open row added to an inbox that already has
/// that many open rows draws the cap finding, whatever the link checks give, so
/// `add_inbox_row` refuses it.
pub proof fn law_open_row_over_cap_is_refused(text: Seq<char>, cells: Seq<Seq<char>>, oks: Seq<bool>)
    requires
        open_count(parse_table(text)) >= MAX_OPEN_INBOX,
        is_open_row(zip_row(required_inbox(), cells)),
    ensures
        inbox_findings(inbox_after_add(text, cells), oks).contains(
            (
                "inbox"@,
                "max "@ + decimal(MAX_OPEN_INBOX as nat) + " open rows, have "@ + decimal(
                    open_count(parse_table(text)) + 1,
                ),
            ),
        ),
        inbox_findings(inbox_after_add(text, cells), oks).len() > 0,
{
    let rows = inbox_after_add(text, cells);
    lemma_open_count_push(parse_table(text), zip_row(required_inbox(), cells));
    let pre = inbox_rows_findings(rows, oks);
    let cap = cap_findings(open_count(rows));
    assert((pre + cap)[pre.len() as int] == cap[0]);
}

proof fn lemma_word_end(t: Seq<char>, w: Seq<char>, rest: Seq<char>, i: int)
    requires
        t == w + rest,
        0 <= i <= w.len(),
        forall|j: int| 0 <= j < w.len() ==> !is_ws(w[j]),
        rest.len() == 0 || is_ws(rest[0]),
    ensures
        word_end(t, i) == w.len(),
    decreases w.len() - i,
{
    if i < w.len() {
        assert(t[i] == w[i]);
        lemma_word_end(t, w, rest, i + 1);
    } else if rest.len() > 0 {
        assert(t[i] == rest[0]);
    }
}

/// A heading's token is its title's whole first word: when the trimmed, lower-cased title
/// of a heading line starts with the word `w` (not empty, no blank in it) followed by a
/// blank or the end, the token is `w`. So `## dont` gives `dont`, never `do`.
pub proof fn law_heading_token_is_whole_word(line: Seq<char>, w: Seq<char>, rest: Seq<char>)
    requires
        trim(line).len() > 0,
        trim(line)[0] == '#',
        trim_start(lowercase(trim(strip_start(trim(line), '#')))) == w + rest,
        w.len() > 0,
        forall|i: int| 0 <= i < w.len() ==> !is_ws(w[i]),
        rest.len() == 0 || is_ws(rest[0]),
    ensures
        heading_token(line) == Some(w),
{
    let t = w + rest;
    lemma_word_end(t, w, rest, 0);
    assert(t.take(w.len() as int) =~= w);
}

proof fn lemma_contains_concat(a: Seq<Finding>, b: Seq<Finding>, x: Finding)
    requires
        a.contains(x) || b.contains(x),
    ensures
        (a + b).contains(x),
{
    if a.contains(x) {
        let k = choose|k: int| 0 <= k < a.len() && a[k] == x;
        assert((a + b)[k] == x);
    } else {
        let k = choose|k: int| 0 <= k < b.len() && b[k] == x;
        assert((a + b)[a.len() + k] == x);
    }
}

proof fn lemma_secret_names_contains(keys: Seq<Seq<char>>, j: int)
    requires
        0 <= j < keys.len(),
        is_secret_name(keys[j]),
    ensures
        secret_names(keys).contains(keys[j]),
    decreases keys.len(),
{
    let prev = secret_names(keys.drop_last());
    if j == keys.len() - 1 {
        assert(secret_names(keys) == prev.push(keys[j]));
        assert(prev.push(keys[j])[prev.len() as int] == keys[j]);
    } else {
        assert(keys.drop_last()[j] == keys[j]);
        lemma_secret_names_contains(keys.drop_last(), j);
        let k = choose|k: int| 0 <= k < prev.len() && prev[k] == keys[j];
        if is_secret_name(keys.last()) {
            assert(prev.push(keys.last())[k] == keys[j]);
        }
    }
}

proof fn lemma_secret_findings_contains(w: Seq<char>, names: Seq<Seq<char>>, k: Seq<char>)
    requires
        names.contains(k),
    ensures
        secret_findings(w, names).contains((w, "forbidden field "@ + k)),
    decreases names.len(),
{
    let prev = secret_findings(w, names.drop_last());
    if names.last() == k {
        assert(prev.push((w, "forbidden field "@ + k))[prev.len() as int] == (w, "forbidden field "@
            + k));
    } else {
        let j = choose|j: int| 0 <= j < names.len() && names[j] == k;
        assert(names.drop_last()[j] == k);
        lemma_secret_findings_contains(w, names.drop_last(), k);
        let i = choose|i: int| 0 <= i < prev.len() && prev[i] == (w, "forbidden field "@ + k);
        assert(prev.push((w, "forbidden field "@ + names.last()))[i] == (w, "forbidden field "@ + k));
    }
}

proof fn lemma_secret_row(w: Seq<char>, e: Entries, k: Seq<char>)
    requires
        has_key(e, k),
        is_secret_name(k),
    ensures
        secret_findings(w, secret_names(keys_of(e))).contains((w, "forbidden field "@ + k)),
{
    let i = choose|i: int| 0 <= i < e.len() && (#[trigger] e[i]).0 == k;
    assert(keys_of(e)[i] == k);
    lemma_secret_names_contains(keys_of(e), i);
    lemma_secret_findings_contains(w, secret_names(keys_of(e)), k);
}

proof fn lemma_missing_contains(w: Seq<char>, e: Entries, req: Seq<Seq<char>>, j: int)
    requires
        0 <= j < req.len(),
        !has_key(e, req[j]),
    ensures
        missing_findings(w, e, req).contains((w, "missing "@ + req[j])),
    decreases req.len(),
{
    let prev = missing_findings(w, e, req.drop_last());
    let x = (w, "missing "@ + req[j]);
    if j == req.len() - 1 {
        assert(prev.push(x)[prev.len() as int] == x);
    } else {
        assert(req.drop_last()[j] == req[j]);
        lemma_missing_contains(w, e, req.drop_last(), j);
        let i = choose|i: int| 0 <= i < prev.len() && prev[i] == x;
        if !has_key(e, req.last()) {
            assert(prev.push((w, "missing "@ + req.last()))[i] == x);
        }
    }
}

proof fn lemma_ledger_contains(rows: Seq<Entries>, i: int, x: Finding)
    requires
        0 <= i < rows.len(),
        ledger_row_findings((i + 1) as nat, rows[i]).contains(x),
    ensures
        ledger_findings(rows).contains(x),
    decreases rows.len(),
{
    let pre = ledger_findings(rows.drop_last());
    let r = ledger_row_findings(rows.len(), rows.last());
    if i == rows.len() - 1 {
        lemma_contains_concat(pre, r, x);
    } else {
        assert(rows.drop_last()[i] == rows[i]);
        lemma_ledger_contains(rows.drop_last(), i, x);
        lemma_contains_concat(pre, r, x);
    }
}

proof fn lemma_inbox_contains(rows: Seq<Entries>, oks: Seq<bool>, i: int, x: Finding)
    requires
        0 <= i < rows.len(),
        inbox_row_findings((i + 1) as nat, rows[i], oks[i]).contains(x),
    ensures
        inbox_rows_findings(rows, oks).contains(x),
    decreases rows.len(),
{
    let pre = inbox_rows_findings(rows.drop_last(), oks);
    let r = inbox_row_findings(rows.len(), rows.last(), oks[rows.len() - 1]);
    if i == rows.len() - 1 {
        lemma_contains_concat(pre, r, x);
    } else {
        assert(rows.drop_last()[i] == rows[i]);
        lemma_inbox_contains(rows.drop_last(), oks, i, x);
        lemma_contains_concat(pre, r, x);
    }
}

/// No secret goes unreported: a ledger row with a column whose normalised name contains a
/// forbidden word draws a `forbidden field` finding for that column, at that row.
pub proof fn law_secret_column_is_reported_in_ledger(rows: Seq<Entries>, i: int, k: Seq<char>)
    requires
        0 <= i < rows.len(),
        has_key(rows[i], k),
        is_secret_name(k),
    ensures
        ledger_findings(rows).contains((place("ledger"@, (i + 1) as nat), "forbidden field "@ + k)),
{
    let w = place("ledger"@, (i + 1) as nat);
    let x = (w, "forbidden field "@ + k);
    let e = rows[i];
    lemma_secret_row(w, e, k);
    let a = secret_findings(w, secret_names(keys_of(e)));
    let b = missing_findings(w, e, required_ledger());
    lemma_contains_concat(a, b, x);
    lemma_contains_concat(a + b, crate::validate::status_findings(w, e), x);
    lemma_ledger_contains(rows, i, x);
}

/// No secret goes unreported: an inbox row with a column whose normalised name contains a
/// forbidden word draws a `forbidden field` finding for that column, at that row, whatever
/// the link checks give.
pub proof fn law_secret_column_is_reported_in_inbox(
    rows: Seq<Entries>,
    oks: Seq<bool>,
    i: int,
    k: Seq<char>,
)
    requires
        0 <= i < rows.len(),
        has_key(rows[i], k),
        is_secret_name(k),
    ensures
        inbox_findings(rows, oks).contains((place("inbox"@, (i + 1) as nat), "forbidden field "@ + k)),
{
    let w = place("inbox"@, (i + 1) as nat);
    let x = (w, "forbidden field "@ + k);
    let e = rows[i];
    lemma_secret_row(w, e, k);
    let a = secret_findings(w, secret_names(keys_of(e)));
    let b = missing_findings(w, e, required_inbox());
    lemma_contains_concat(a, b, x);
    lemma_contains_concat(a + b, crate::validate::link_findings(w, e, oks[i]), x);
    lemma_inbox_contains(rows, oks, i, x);
    lemma_contains_concat(inbox_rows_findings(rows, oks), cap_findings(open_count(rows)), x);
}

/// Every row is checked: an inbox row that lacks a required column draws a `missing`
/// finding for it, at that row, whatever the link checks give.
pub proof fn law_missing_column_is_reported_in_inbox(
    rows: Seq<Entries>,
    oks: Seq<bool>,
    i: int,
    j: int,
)
    requires
        0 <= i < rows.len(),
        0 <= j < required_inbox().len(),
        !has_key(rows[i], required_inbox()[j]),
    ensures
        inbox_findings(rows, oks).contains(
            (place("inbox"@, (i + 1) as nat), "missing "@ + required_inbox()[j]),
        ),
{
    let w = place("inbox"@, (i + 1) as nat);
    let x = (w, "missing "@ + required_inbox()[j]);
    let e = rows[i];
    lemma_missing_contains(w, e, required_inbox(), j);
    let a = secret_findings(w, secret_names(keys_of(e)));
    let b = missing_findings(w, e, required_inbox());
    lemma_contains_concat(a, b, x);
    lemma_contains_concat(a + b, crate::validate::link_findings(w, e, oks[i]), x);
    lemma_inbox_contains(rows, oks, i, x);
    lemma_contains_concat(inbox_rows_findings(rows, oks), cap_findings(open_count(rows)), x);
}

/// Every row is checked: a ledger row that lacks a required column draws a `missing`
/// finding for it, at that row.
pub proof fn law_missing_column_is_reported_in_ledger(rows: Seq<Entries>, i: int, j: int)
    requires
        0 <= i < rows.len(),
        0 <= j < required_ledger().len(),
        !has_key(rows[i], required_ledger()[j]),
    ensures
        ledger_findings(rows).contains(
            (place("ledger"@, (i + 1) as nat), "missing "@ + required_ledger()[j]),
        ),
{
    let w = place("ledger"@, (i + 1) as nat);
    let x = (w, "missing "@ + required_ledger()[j]);
    let e = rows[i];
    lemma_missing_contains(w, e, required_ledger(), j);
    let a = secret_findings(w, secret_names(keys_of(e)));
    let b = missing_findings(w, e, required_ledger());
    lemma_contains_concat(a, b, x);
    lemma_contains_concat(a + b, crate::validate::status_findings(w, e), x);
    lemma_ledger_contains(rows, i, x);
}

// ---------------------------------------------------------------------------
// Lines outside the table
// ---------------------------------------------------------------------------

proof fn lemma_table_only_skip_front(l: Seq<char>, ls: Seq<Seq<char>>)
    requires
        !is_table_line(l),
    ensures
        table_only(seq![l] + ls) == table_only(ls),
    decreases ls.len(),
{
    reveal_with_fuel(Seq::<_>::filter, 2);
    if ls.len() == 0 {
        assert(seq![l] + ls =~= seq![l]);
        assert(seq![l].drop_last() =~= Seq::<Seq<char>>::empty());
    } else {
        lemma_table_only_skip_front(l, ls.drop_last());
        assert((seq![l] + ls).drop_last() =~= seq![l] + ls.drop_last());
        assert((seq![l] + ls).last() == ls.last());
    }
}

/// A line in front of a text: its lines are that line (without a `\r` before the line
/// feed) and then the text's lines.
proof fn lemma_lines_prepend(x: Seq<char>, text: Seq<char>)
    requires
        forall|i: int| 0 <= i < x.len() ==> x[i] != '\n',
    ensures
        lines(x.push('\n') + text) == seq![strip_cr(x)] + lines(text),
{
    lemma_split_append(x.push('\n'), text, '\n');
    lemma_split_no_sep(x, '\n');
    assert(x.push('\n').drop_last() =~= x);
    assert(split_char(x.push('\n'), '\n') == seq![x].push(Seq::<char>::empty()));
    assert(seq![x].push(Seq::<char>::empty()).drop_last() =~= seq![x]);
    let q = split_char(text, '\n');
    lemma_split_nonempty(text, '\n');
    let parts = split_char(x.push('\n') + text, '\n');
    assert(parts == seq![x] + q);
    assert(parts.last() == q.last());
    assert(parts.drop_last() =~= seq![x] + q.drop_last());
    assert((seq![x] + q.drop_last()).map_values(|l: Seq<char>| strip_cr(l)) =~= seq![strip_cr(x)]
        + q.drop_last().map_values(|l: Seq<char>| strip_cr(l)));
    let d = q.drop_last().map_values(|l: Seq<char>| strip_cr(l));
    assert((seq![strip_cr(x)] + d).push(q.last()) =~= seq![strip_cr(x)] + d.push(q.last()));
}

/// A line that is not a table line changes nothing when put in front of a text: the text
/// gives the same rows with it as without it.
pub proof fn law_line_before_table_changes_nothing(x: Seq<char>, text: Seq<char>)
    requires
        forall|i: int| 0 <= i < x.len() ==> x[i] != '\n',
        !is_table_line(x),
    ensures
        parse_table(x.push('\n') + text) == parse_table(text),
{
    lemma_lines_prepend(x, text);
    lemma_trim_strip_cr(x);
    lemma_table_line_by_trim(x);
    lemma_table_line_by_trim(strip_cr(x));
    lemma_table_only_skip_front(strip_cr(x), lines(text));
}

// ---------------------------------------------------------------------------
// Rows that draw no finding
// ---------------------------------------------------------------------------

proof fn lemma_inbox_rows_same_oks(rows: Seq<Entries>, a: Seq<bool>, b: Seq<bool>)
    requires
        a.len() >= rows.len(),
        b.len() >= rows.len(),
        forall|i: int| 0 <= i < rows.len() ==> a[i] == b[i],
    ensures
        inbox_rows_findings(rows, a) == inbox_rows_findings(rows, b),
    decreases rows.len(),
{
    if rows.len() > 0 {
        lemma_inbox_rows_same_oks(rows.drop_last(), a, b);
    }
}

proof fn lemma_no_secret_names(keys: Seq<Seq<char>>)
    requires
        forall|i: int| 0 <= i < keys.len() ==> !is_secret_name(#[trigger] keys[i]),
    ensures
        secret_names(keys) == Seq::<Seq<char>>::empty(),
    decreases keys.len(),
{
    if keys.len() > 0 {
        assert(!is_secret_name(keys[keys.len() - 1]));
        lemma_no_secret_names(keys.drop_last());
    }
}

proof fn lemma_none_missing(w: Seq<char>, e: Entries, req: Seq<Seq<char>>)
    requires
        forall|j: int| 0 <= j < req.len() ==> has_key(e, #[trigger] req[j]),
    ensures
        missing_findings(w, e, req) == Seq::<Finding>::empty(),
    decreases req.len(),
{
    if req.len() > 0 {
        assert(has_key(e, req[req.len() - 1]));
        lemma_none_missing(w, e, req.drop_last());
    }
}

/// A complete, closed, clean row adds nothing to an inbox's findings: a row that has every
/// inbox column, no secret column name, a link that is empty or matched, and a decision
/// that is not open draws no finding and does not count toward the cap.
pub proof fn law_clean_closed_row_adds_nothing(
    rows: Seq<Entries>,
    oks: Seq<bool>,
    c: Entries,
    ok: bool,
)
    requires
        oks.len() == rows.len(),
        forall|j: int| 0 <= j < required_inbox().len() ==> has_key(c, #[trigger] required_inbox()[j]),
        forall|i: int| 0 <= i < c.len() ==> !is_secret_name((#[trigger] c[i]).0),
        match value_of(c, "link"@) {
            Some(l) => l.len() == 0 || ok,
            None => true,
        },
        !is_open_row(c),
    ensures
        inbox_findings(rows.push(c), oks.push(ok)) == inbox_findings(rows, oks),
{
    let all = rows.push(c);
    let oks2 = oks.push(ok);
    assert(all.drop_last() =~= rows);
    lemma_inbox_rows_same_oks(rows, oks2, oks);
    let w = place("inbox"@, all.len());
    assert forall|i: int| 0 <= i < keys_of(c).len() implies !is_secret_name(#[trigger] keys_of(c)[i]) by {
        assert(keys_of(c)[i] == c[i].0);
    }
    lemma_no_secret_names(keys_of(c));
    lemma_none_missing(w, c, required_inbox());
    assert(secret_findings(w, Seq::<Seq<char>>::empty()) == Seq::<Finding>::empty());
    assert(crate::validate::link_findings(w, c, ok) == Seq::<Finding>::empty());
    assert(inbox_row_findings(all.len(), c, ok) =~= Seq::<Finding>::empty());
    assert(inbox_rows_findings(all, oks2) =~= inbox_rows_findings(rows, oks));
    lemma_open_count_push(rows, c);
}

// ---------------------------------------------------------------------------
// Joined ledgers
// ---------------------------------------------------------------------------

/// The findings on ledger rows numbered from `first + 1` on, row by row.
pub open spec fn ledger_findings_from(rows: Seq<Entries>, first: nat) -> Seq<Finding>
    decreases rows.len(),
{
    if rows.len() == 0 {
        Seq::empty()
    } else {
        ledger_findings_from(rows.drop_last(), first) + ledger_row_findings(
            first + rows.len(),
            rows.last(),
        )
    }
}

proof fn lemma_ledger_from_zero(rows: Seq<Entries>)
    ensures
        ledger_findings(rows) == ledger_findings_from(rows, 0),
    decreases rows.len(),
{
    if rows.len() > 0 {
        lemma_ledger_from_zero(rows.drop_last());
    }
}

proof fn lemma_ledger_from_concat(a: Seq<Entries>, b: Seq<Entries>, k: nat)
    ensures
        ledger_findings_from(a + b, k) == ledger_findings_from(a, k) + ledger_findings_from(
            b,
            k + a.len(),
        ),
    decreases b.len(),
{
    if b.len() == 0 {
        assert(a + b =~= a);
        assert(ledger_findings_from(a, k) + Seq::<Finding>::empty() =~= ledger_findings_from(a, k));
    } else {
        lemma_ledger_from_concat(a, b.drop_last(), k);
        assert((a + b).drop_last() =~= a + b.drop_last());
        assert((a + b).last() == b.last());
        let x = ledger_findings_from(a, k);
        let y = ledger_findings_from(b.drop_last(), (k + a.len()) as nat);
        let z = ledger_row_findings((k + a.len() + b.len()) as nat, b.last());
        assert((x + y) + z =~= x + (y + z));
    }
}

/// The findings on two joined ledgers are those of the first, then those of the second
/// with its rows numbered on after the first's.
pub proof fn law_joined_ledgers(a: Seq<Entries>, b: Seq<Entries>)
    ensures
        ledger_findings(a + b) == ledger_findings(a) + ledger_findings_from(b, a.len()),
{
    lemma_ledger_from_zero(a + b);
    lemma_ledger_from_zero(a);
    lemma_ledger_from_concat(a, b, 0);
}

// ---------------------------------------------------------------------------
// Headings of joined texts
// ---------------------------------------------------------------------------

/// The split of a text followed by a line feed and another text.
proof fn lemma_split_join(a: Seq<char>, b: Seq<char>)
    ensures
        split_char(a.push('\n') + b, '\n') == split_char(a, '\n') + split_char(b, '\n'),
{
    lemma_split_append(a.push('\n'), b, '\n');
    assert(a.push('\n').drop_last() =~= a);
    lemma_split_nonempty(a, '\n');
    assert(split_char(a.push('\n'), '\n') == split_char(a, '\n').push(Seq::<char>::empty()));
    assert(split_char(a, '\n').push(Seq::<char>::empty()).drop_last() =~= split_char(a, '\n'));
}

/// The lines of `a`, a line feed and `b`: the pieces of `a` (the last one too) and then
/// the lines of `b`.
proof fn lemma_lines_join(a: Seq<char>, b: Seq<char>)
    ensures
        lines(a.push('\n') + b) == split_char(a, '\n').map_values(|l: Seq<char>| strip_cr(l)) + lines(
            b,
        ),
{
    lemma_split_join(a, b);
    let p = split_char(a, '\n');
    let q = split_char(b, '\n');
    lemma_split_nonempty(b, '\n');
    let parts = p + q;
    assert(parts.last() == q.last());
    assert(parts.drop_last() =~= p + q.drop_last());
    let mp = p.map_values(|l: Seq<char>| strip_cr(l));
    let mq = q.drop_last().map_values(|l: Seq<char>| strip_cr(l));
    assert((p + q.drop_last()).map_values(|l: Seq<char>| strip_cr(l)) =~= mp + mq);
    assert((mp + mq).push(q.last()) =~= mp + mq.push(q.last()));
}

/// The tokens of the headings among all of `ls`.
pub open spec fn tokens_of(ls: Seq<Seq<char>>) -> Set<Seq<char>> {
    tokens_upto(ls, ls.len() as int)
}

proof fn lemma_tokens_concat(x: Seq<Seq<char>>, y: Seq<Seq<char>>)
    ensures
        tokens_of(x + y) == tokens_of(x).union(tokens_of(y)),
{
    assert forall|t: Seq<char>| tokens_of(x + y).contains(t) == tokens_of(x).union(tokens_of(y)).contains(t) by {
        if tokens_of(x + y).contains(t) {
            let i = choose|i: int| 0 <= i < (x + y).len() && heading_token((x + y)[i]) == Some(t);
            if i < x.len() {
                assert((x + y)[i] == x[i]);
                assert(tokens_of(x).contains(t));
            } else {
                assert((x + y)[i] == y[i - x.len()]);
                assert(tokens_of(y).contains(t));
            }
        }
        if tokens_of(x).contains(t) {
            let i = choose|i: int| 0 <= i < x.len() && heading_token(x[i]) == Some(t);
            assert((x + y)[i] == x[i]);
        }
        if tokens_of(y).contains(t) {
            let i = choose|i: int| 0 <= i < y.len() && heading_token(y[i]) == Some(t);
            assert((x + y)[x.len() + i] == y[i]);
        }
    }
    assert(tokens_of(x + y) =~= tokens_of(x).union(tokens_of(y)));
}

/// The pieces of a text, each without its `\r`, have the headings of the text's lines.
proof fn lemma_tokens_pieces(a: Seq<char>)
    ensures
        tokens_of(split_char(a, '\n').map_values(|l: Seq<char>| strip_cr(l))) == heading_set(a),
{
    let p = split_char(a, '\n');
    lemma_split_nonempty(a, '\n');
    let mp = p.map_values(|l: Seq<char>| strip_cr(l));
    let la = lines(a);
    let n = p.len() - 1;
    lemma_trim_strip_cr(p[n]);
    assert(trim(mp[n]) == trim(p[n]));
    assert(heading_token(mp[n]) == heading_token(p[n]));
    if p[n].len() == 0 {
        assert(trim_start(p[n]) == p[n]);
        assert(heading_token(p[n]) is None);
    }
    assert forall|t: Seq<char>| tokens_of(mp).contains(t) == heading_set(a).contains(t) by {
        if tokens_of(mp).contains(t) {
            let i = choose|i: int| 0 <= i < mp.len() && heading_token(mp[i]) == Some(t);
            if i < n {
                assert(la[i] == mp[i]);
            } else {
                assert(la[n] == p[n]);
            }
        }
        if heading_set(a).contains(t) {
            let i = choose|i: int| 0 <= i < la.len() && heading_token(la[i]) == Some(t);
            if i < n {
                assert(la[i] == mp[i]);
            } else {
                assert(la[i] == p[n]);
            }
        }
    }
    assert(tokens_of(mp) =~= heading_set(a));
}

/// The heading tokens of two texts joined by a line feed are those of the one and of the
/// other.
pub proof fn law_joined_heading_tokens(a: Seq<char>, b: Seq<char>)
    ensures
        heading_set(a.push('\n') + b) == heading_set(a).union(heading_set(b)),
{
    lemma_lines_join(a, b);
    let mp = split_char(a, '\n').map_values(|l: Seq<char>| strip_cr(l));
    lemma_tokens_concat(mp, lines(b));
    lemma_tokens_pieces(a);
}

// ---------------------------------------------------------------------------
// Proposal lines in another order
// ---------------------------------------------------------------------------

/// The text made of the lines `ls` joined by line feeds (`join("\n")`).
pub open spec fn join_lines(ls: Seq<Seq<char>>) -> Seq<char>
    decreases ls.len(),
{
    if ls.len() == 0 {
        Seq::empty()
    } else if ls.len() == 1 {
        ls[0]
    } else {
        join_lines(ls.drop_last()).push('\n') + ls.last()
    }
}

spec fn no_newline(l: Seq<char>) -> bool {
    forall|j: int| 0 <= j < l.len() ==> l[j] != '\n'
}

proof fn lemma_split_pieces(s: Seq<char>, sep: char)
    ensures
        forall|i: int, j: int|
            0 <= i < split_char(s, sep).len() && 0 <= j < split_char(s, sep)[i].len()
                ==> split_char(s, sep)[i][j] != sep,
    decreases s.len(),
{
    if s.len() > 0 {
        lemma_split_pieces(s.drop_last(), sep);
        lemma_split_nonempty(s.drop_last(), sep);
        let prev = split_char(s.drop_last(), sep);
        if s.last() != sep {
            assert forall|i: int, j: int|
                0 <= i < split_char(s, sep).len() && 0 <= j < split_char(s, sep)[i].len()
                    implies split_char(s, sep)[i][j] != sep by {
                if i == prev.len() - 1 && j == prev.last().len() {
                    assert(split_char(s, sep)[i][j] == s.last());
                } else if i == prev.len() - 1 {
                    assert(split_char(s, sep)[i][j] == prev[i][j]);
                } else {
                    assert(split_char(s, sep)[i] == prev[i]);
                }
            }
        } else {
            assert forall|i: int, j: int|
                0 <= i < split_char(s, sep).len() && 0 <= j < split_char(s, sep)[i].len()
                    implies split_char(s, sep)[i][j] != sep by {
                if i < prev.len() {
                    assert(split_char(s, sep)[i] == prev[i]);
                }
            }
        }
    }
}

proof fn lemma_lines_no_newline(text: Seq<char>)
    ensures
        forall|i: int| 0 <= i < lines(text).len() ==> no_newline(#[trigger] lines(text)[i]),
{
    let p = split_char(text, '\n');
    lemma_split_pieces(text, '\n');
    lemma_split_nonempty(text, '\n');
    assert forall|i: int| 0 <= i < lines(text).len() implies no_newline(#[trigger] lines(text)[i]) by {
        if i < p.len() - 1 {
            assert(lines(text)[i] == strip_cr(p[i]));
            assert forall|j: int| 0 <= j < strip_cr(p[i]).len() implies strip_cr(p[i])[j] != '\n' by {
                assert(strip_cr(p[i])[j] == p[i][j]);
            }
        } else {
            assert(lines(text)[i] == p[i]);
        }
    }
}

proof fn lemma_heading_set_line(l: Seq<char>)
    requires
        no_newline(l),
    ensures
        heading_set(l) == tokens_of(seq![l]),
{
    lemma_split_no_sep(l, '\n');
    if l.len() == 0 {
        assert(lines(l) =~= Seq::<Seq<char>>::empty());
        assert(trim_start(l) == l);
        assert(heading_token(l) is None);
        assert forall|t: Seq<char>| !tokens_of(seq![l]).contains(t) by {}
        assert(heading_set(l) =~= tokens_of(seq![l]));
    } else {
        assert(lines(l) =~= seq![l]);
    }
}

proof fn lemma_heading_set_join(ls: Seq<Seq<char>>)
    requires
        forall|i: int| 0 <= i < ls.len() ==> no_newline(#[trigger] ls[i]),
    ensures
        heading_set(join_lines(ls)) == tokens_of(ls),
    decreases ls.len(),
{
    if ls.len() == 0 {
        assert(split_char(Seq::<char>::empty(), '\n') =~= seq![Seq::<char>::empty()]);
        assert(lines(Seq::<char>::empty()) =~= Seq::<Seq<char>>::empty());
        assert(heading_set(join_lines(ls)) =~= tokens_of(ls));
    } else if ls.len() == 1 {
        assert(no_newline(ls[0]));
        lemma_heading_set_line(ls[0]);
        assert(seq![ls[0]] =~= ls);
    } else {
        let d = ls.drop_last();
        assert forall|i: int| 0 <= i < d.len() implies no_newline(#[trigger] d[i]) by {
            assert(d[i] == ls[i]);
        }
        lemma_heading_set_join(d);
        assert(no_newline(ls[ls.len() - 1]));
        lemma_heading_set_line(ls.last());
        law_joined_heading_tokens(join_lines(d), ls.last());
        lemma_tokens_concat(d, seq![ls.last()]);
        assert(d + seq![ls.last()] =~= ls);
    }
}

proof fn lemma_tokens_same_elements(x: Seq<Seq<char>>, y: Seq<Seq<char>>)
    requires
        x.to_multiset() == y.to_multiset(),
    ensures
        tokens_of(x) == tokens_of(y),
{
    broadcast use vstd::seq_lib::to_multiset_contains;

    assert forall|t: Seq<char>| tokens_of(x).contains(t) implies tokens_of(y).contains(t) by {
        let i = choose|i: int| 0 <= i < x.len() && heading_token(x[i]) == Some(t);
        assert(x.to_multiset().count(x[i]) > 0);
        assert(y.contains(x[i]));
        let j = choose|j: int| 0 <= j < y.len() && y[j] == x[i];
        assert(heading_token(y[j]) == Some(t));
    }
    assert forall|t: Seq<char>| tokens_of(y).contains(t) implies tokens_of(x).contains(t) by {
        let i = choose|i: int| 0 <= i < y.len() && heading_token(y[i]) == Some(t);
        assert(y.to_multiset().count(y[i]) > 0);
        assert(x.contains(y[i]));
        let j = choose|j: int| 0 <= j < x.len() && x[j] == y[i];
        assert(heading_token(x[j]) == Some(t));
    }
    assert(tokens_of(x) =~= tokens_of(y));
}

/// The headings of a proposal may come in any order: the lines of a text, put in any
/// order and joined by line feeds, have the text's heading tokens, and so draw the same
/// missing-heading findings.
pub proof fn law_heading_order_does_not_matter(text: Seq<char>, p: Seq<Seq<char>>)
    requires
        p.to_multiset() == lines(text).to_multiset(),
    ensures
        heading_set(join_lines(p)) == heading_set(text),
        heading_findings(heading_set(join_lines(p)), proposal_headings()) == heading_findings(
            heading_set(text),
            proposal_headings(),
        ),
{
    broadcast use vstd::seq_lib::to_multiset_contains;

    lemma_lines_no_newline(text);
    assert forall|i: int| 0 <= i < p.len() implies no_newline(#[trigger] p[i]) by {
        assert(p.to_multiset().count(p[i]) > 0);
        assert(lines(text).contains(p[i]));
        let j = choose|j: int| 0 <= j < lines(text).len() && lines(text)[j] == p[i];
        assert(no_newline(lines(text)[j]));
    }
    lemma_heading_set_join(p);
    lemma_tokens_same_elements(p, lines(text));
}

proof fn lemma_ascii_lower_concat(x: Seq<char>, y: Seq<char>)
    ensures
        ascii_lower_seq(x + y) == ascii_lower_seq(x) + ascii_lower_seq(y),
{
    assert(ascii_lower_seq(x + y) =~= ascii_lower_seq(x) + ascii_lower_seq(y));
}

/// A needle without a line feed occurs in `a`, a line feed, `b` exactly when it occurs
/// in `a` or in `b`.
proof fn lemma_contains_join(a: Seq<char>, b: Seq<char>, n: Seq<char>)
    requires
        no_newline(n),
    ensures
        contains_seq(a.push('\n') + b, n) == (contains_seq(a, n) || contains_seq(b, n)),
{
    let s = a.push('\n') + b;
    if contains_seq(s, n) {
        let i = choose|i: int|
            0 <= i && i + n.len() <= s.len() && #[trigger] s.subrange(i, i + n.len()) == n;
        if i + n.len() <= a.len() {
            assert(a.subrange(i, i + n.len()) =~= s.subrange(i, i + n.len()));
        } else if i > a.len() {
            let k = i - a.len() - 1;
            assert(b.subrange(k, k + n.len()) =~= s.subrange(i, i + n.len()));
        } else {
            assert(s.subrange(i, i + n.len())[a.len() - i] == s[a.len() as int]);
            assert(n[a.len() - i] != '\n');
        }
    }
    if contains_seq(a, n) {
        let i = choose|i: int|
            0 <= i && i + n.len() <= a.len() && #[trigger] a.subrange(i, i + n.len()) == n;
        assert(s.subrange(i, i + n.len()) =~= a.subrange(i, i + n.len()));
    }
    if contains_seq(b, n) {
        let i = choose|i: int|
            0 <= i && i + n.len() <= b.len() && #[trigger] b.subrange(i, i + n.len()) == n;
        let k = i + a.len() + 1;
        assert(s.subrange(k, k + n.len()) =~= b.subrange(i, i + n.len()));
    }
}

/// A needle without `\r` occurs in a line exactly when it occurs in the line without a
/// final `\r`.
proof fn lemma_contains_strip_cr(l: Seq<char>, n: Seq<char>)
    requires
        forall|j: int| 0 <= j < n.len() ==> n[j] != '\r',
    ensures
        contains_seq(ascii_lower_seq(strip_cr(l)), n) == contains_seq(ascii_lower_seq(l), n),
{
    if l.len() > 0 && l.last() == '\r' {
        let x = ascii_lower_seq(l);
        let y = ascii_lower_seq(l.drop_last());
        assert(y =~= x.drop_last());
        assert(x.last() == '\r');
        if n.len() == 0 {
            assert(x.subrange(0int, 0int + n.len()) =~= n);
            assert(y.subrange(0int, 0int + n.len()) =~= n);
        } else if contains_seq(x, n) {
            let i = choose|i: int|
                0 <= i && i + n.len() <= x.len() && #[trigger] x.subrange(i, i + n.len()) == n;
            if i + n.len() == x.len() {
                assert(x.subrange(i, i + n.len())[n.len() - 1] == x.last());
            } else {
                assert(y.subrange(i, i + n.len()) =~= x.subrange(i, i + n.len()));
            }
        }
        if contains_seq(y, n) {
            let i = choose|i: int|
                0 <= i && i + n.len() <= y.len() && #[trigger] y.subrange(i, i + n.len()) == n;
            assert(x.subrange(i, i + n.len()) =~= y.subrange(i, i + n.len()));
        }
    }
}

/// Some line of `ls`, ASCII-lower-cased, holds `n`.
spec fn some_line_has(ls: Seq<Seq<char>>, n: Seq<char>) -> bool {
    exists|i: int| 0 <= i < ls.len() && contains_seq(ascii_lower_seq(#[trigger] ls[i]), n)
}

proof fn lemma_join_contains(ls: Seq<Seq<char>>, n: Seq<char>)
    requires
        no_newline(n),
        n.len() > 0,
    ensures
        contains_seq(ascii_lower_seq(join_lines(ls)), n) == some_line_has(ls, n),
    decreases ls.len(),
{
    if ls.len() == 0 {
        if contains_seq(ascii_lower_seq(join_lines(ls)), n) {
            let i = choose|i: int|
                0 <= i && i + n.len() <= ascii_lower_seq(join_lines(ls)).len()
                    && #[trigger] ascii_lower_seq(join_lines(ls)).subrange(i, i + n.len()) == n;
        }
    } else if ls.len() == 1 {
        if some_line_has(ls, n) {
            let i = choose|i: int| 0 <= i < ls.len() && contains_seq(ascii_lower_seq(#[trigger] ls[i]), n);
            assert(i == 0);
        }
        if contains_seq(ascii_lower_seq(join_lines(ls)), n) {
            assert(contains_seq(ascii_lower_seq(ls[0]), n));
        }
    } else {
        let d = ls.drop_last();
        lemma_join_contains(d, n);
        let a = join_lines(d);
        lemma_ascii_lower_concat(a.push('\n'), ls.last());
        assert(ascii_lower_seq(a.push('\n')) =~= ascii_lower_seq(a).push('\n'));
        lemma_contains_join(ascii_lower_seq(a), ascii_lower_seq(ls.last()), n);
        if some_line_has(ls, n) {
            let i = choose|i: int| 0 <= i < ls.len() && contains_seq(ascii_lower_seq(#[trigger] ls[i]), n);
            if i < d.len() {
                assert(d[i] == ls[i]);
            }
        }
        if some_line_has(d, n) {
            let i = choose|i: int| 0 <= i < d.len() && contains_seq(ascii_lower_seq(#[trigger] d[i]), n);
            assert(d[i] == ls[i]);
        }
        if contains_seq(ascii_lower_seq(ls.last()), n) {
            assert(contains_seq(ascii_lower_seq(ls[ls.len() - 1]), n));
        }
    }
}

/// A text is its pieces between line feeds, joined by line feeds.
proof fn lemma_join_split(s: Seq<char>)
    ensures
        join_lines(split_char(s, '\n')) == s,
    decreases s.len(),
{
    if s.len() == 0 {
        assert(split_char(s, '\n') =~= seq![Seq::<char>::empty()]);
        assert(s =~= Seq::<char>::empty());
    } else {
        let s0 = s.drop_last();
        lemma_join_split(s0);
        lemma_split_nonempty(s0, '\n');
        let prev = split_char(s0, '\n');
        assert(s0.push(s.last()) =~= s);
        if s.last() == '\n' {
            let now = prev.push(Seq::<char>::empty());
            assert(now.drop_last() =~= prev);
            assert(join_lines(now) == join_lines(prev).push('\n') + Seq::<char>::empty());
            assert(join_lines(prev).push('\n') + Seq::<char>::empty() =~= s);
        } else {
            let now = prev.update(prev.len() - 1, prev.last().push(s.last()));
            if prev.len() == 1 {
                assert(join_lines(now) == now[0]);
                assert(join_lines(prev) == prev[0]);
            } else {
                assert(now.drop_last() =~= prev.drop_last());
                let j = join_lines(prev.drop_last());
                assert(join_lines(now) == j.push('\n') + prev.last().push(s.last()));
                assert(j.push('\n') + prev.last().push(s.last()) =~= (j.push('\n') + prev.last()).push(
                    s.last(),
                ));
            }
        }
    }
}

/// The needle occurs in a text, ASCII-lower-cased, exactly when it occurs in one of its
/// lines.
proof fn lemma_text_contains(text: Seq<char>, n: Seq<char>)
    requires
        no_newline(n),
        n.len() > 0,
        forall|j: int| 0 <= j < n.len() ==> n[j] != '\r',
    ensures
        contains_seq(ascii_lower_seq(text), n) == some_line_has(lines(text), n),
{
    let p = split_char(text, '\n');
    lemma_split_nonempty(text, '\n');
    lemma_join_split(text);
    lemma_join_contains(p, n);
    let la = lines(text);
    let k = p.len() - 1;
    if some_line_has(p, n) {
        let i = choose|i: int| 0 <= i < p.len() && contains_seq(ascii_lower_seq(#[trigger] p[i]), n);
        lemma_contains_strip_cr(p[i], n);
        if i < k {
            assert(la[i] == strip_cr(p[i]));
        } else if p[k].len() == 0 {
            let q = ascii_lower_seq(p[k]);
            let j = choose|j: int| 0 <= j && j + n.len() <= q.len() && #[trigger] q.subrange(j, j + n.len()) == n;
        } else {
            assert(la[k] == p[k]);
        }
    }
    if some_line_has(la, n) {
        let i = choose|i: int| 0 <= i < la.len() && contains_seq(ascii_lower_seq(#[trigger] la[i]), n);
        lemma_contains_strip_cr(p[i], n);
        if i < k {
            assert(la[i] == strip_cr(p[i]));
            assert(contains_seq(ascii_lower_seq(p[i]), n));
        } else {
            assert(la[i] == p[k]);
        }
    }
}

/// A proposal's lines may come in any order: put in any order and joined by line feeds,
/// they draw the same findings as the text, when `to_lowercase` acts on both texts as on
/// ASCII text (as it does on every ASCII text).
pub proof fn law_proposal_line_order_does_not_matter(text: Seq<char>, p: Seq<Seq<char>>)
    requires
        p.to_multiset() == lines(text).to_multiset(),
        lowercase(text) == ascii_lower_seq(text),
        lowercase(join_lines(p)) == ascii_lower_seq(join_lines(p)),
    ensures
        proposal_findings(join_lines(p)) == proposal_findings(text),
{
    broadcast use vstd::seq_lib::to_multiset_contains;

    law_heading_order_does_not_matter(text, p);
    let n = "private_key"@;
    reveal_strlit("private_key");
    assert(no_newline(n));
    lemma_text_contains(text, n);
    lemma_join_contains(p, n);
    let la = lines(text);
    if some_line_has(p, n) {
        let i = choose|i: int| 0 <= i < p.len() && contains_seq(ascii_lower_seq(#[trigger] p[i]), n);
        assert(p.to_multiset().count(p[i]) > 0);
        assert(la.contains(p[i]));
        let j = choose|j: int| 0 <= j < la.len() && la[j] == p[i];
        assert(contains_seq(ascii_lower_seq(la[j]), n));
    }
    if some_line_has(la, n) {
        let i = choose|i: int| 0 <= i < la.len() && contains_seq(ascii_lower_seq(#[trigger] la[i]), n);
        assert(la.to_multiset().count(la[i]) > 0);
        assert(p.contains(la[i]));
        let j = choose|j: int| 0 <= j < p.len() && p[j] == la[i];
        assert(contains_seq(ascii_lower_seq(p[j]), n));
    }
    assert(key_text_findings(join_lines(p)) == key_text_findings(text));
}

// ---------------------------------------------------------------------------
// Normalised column names
// ---------------------------------------------------------------------------

proof fn lemma_lower_keeps(c: char)
    requires
        norm_keeps(c),
    ensures
        norm_keeps(ascii_lower(c)),
        ascii_lower(ascii_lower(c)) == ascii_lower(c),
{
    if 'A' <= c && c <= 'Z' {
        assert(65 <= (c as u32) <= 90);
        assert(97 <= (ascii_lower(c) as u32) <= 122);
    }
}

proof fn lemma_normalized_chars(s: Seq<char>)
    ensures
        forall|i: int|
            0 <= i < normalized(s).len() ==> norm_keeps(#[trigger] normalized(s)[i]) && ascii_lower(
                normalized(s)[i],
            ) == normalized(s)[i],
    decreases s.len(),
{
    if s.len() > 0 {
        lemma_normalized_chars(s.drop_last());
        if norm_keeps(s.last()) {
            lemma_lower_keeps(s.last());
            let p = normalized(s.drop_last());
            assert forall|i: int| 0 <= i < normalized(s).len() implies norm_keeps(
                #[trigger] normalized(s)[i],
            ) && ascii_lower(normalized(s)[i]) == normalized(s)[i] by {
                if i < p.len() {
                    assert(normalized(s)[i] == p[i]);
                }
            }
        }
    }
}

proof fn lemma_normalized_fixed(t: Seq<char>)
    requires
        forall|i: int| 0 <= i < t.len() ==> norm_keeps(#[trigger] t[i]) && ascii_lower(t[i]) == t[i],
    ensures
        normalized(t) == t,
    decreases t.len(),
{
    if t.len() > 0 {
        assert(norm_keeps(t[t.len() - 1]));
        lemma_normalized_fixed(t.drop_last());
        assert(t.drop_last().push(t.last()) =~= t);
    } else {
        assert(t =~= Seq::<char>::empty());
    }
}

/// Normalising a column name twice changes nothing: the normal form is made of lower-case
/// ASCII letters, digits and underscores only.
pub proof fn law_normalizing_twice_changes_nothing(s: Seq<char>)
    ensures
        normalized(normalized(s)) == normalized(s),
{
    lemma_normalized_chars(s);
    lemma_normalized_fixed(normalized(s));
}

// ---------------------------------------------------------------------------
// What each rule reports, and of what
// ---------------------------------------------------------------------------

proof fn lemma_concat_member(a: Seq<Finding>, b: Seq<Finding>, x: Finding)
    requires
        (a + b).contains(x),
    ensures
        a.contains(x) || b.contains(x),
{
    let k = choose|k: int| 0 <= k < (a + b).len() && (a + b)[k] == x;
    if k < a.len() {
        assert(a[k] == x);
    } else {
        assert(b[k - a.len()] == x);
    }
}

proof fn lemma_cancel_prefix(p: Seq<char>, a: Seq<char>, b: Seq<char>)
    requires
        p + a == p + b,
    ensures
        a == b,
{
    assert((p + a).skip(p.len() as int) =~= a);
    assert((p + b).skip(p.len() as int) =~= b);
}

/// Two texts whose first characters differ differ, whatever follows.
proof fn lemma_first_char_differs(p: Seq<char>, a: Seq<char>, q: Seq<char>, b: Seq<char>)
    requires
        p.len() > 0,
        q.len() > 0,
        p[0] != q[0],
    ensures
        p + a != q + b,
{
    assert((p + a)[0] == p[0]);
    assert((q + b)[0] == q[0]);
}

proof fn lemma_message_literals()
    ensures
        "forbidden field "@[0] == 'f',
        "missing "@[0] == 'm',
        "bad status "@[0] == 'b',
        "link must be http(s)"@[0] == 'l',
        "missing heading "@[0] == 'm',
        "looks like it contains a private_key"@[0] == 'l',
        "forbidden field "@.len() > 0,
        "missing "@.len() > 0,
        "bad status "@.len() > 0,
        "link must be http(s)"@ == "link must be http(s)"@ + Seq::<char>::empty(),
        "link must be http(s)"@.len() > 0,
        "missing heading "@.len() > 0,
        "looks like it contains a private_key"@ == "looks like it contains a private_key"@
            + Seq::<char>::empty(),
        "looks like it contains a private_key"@.len() > 0,
        "["@ == seq!['['],
        "]"@ == seq![']'],
        "inbox"@.len() == 5,
        "3"@ == seq!['3'],
        "max 3 open rows, have "@ == "max "@ + "3"@ + " open rows, have "@,
{
    reveal_strlit("forbidden field ");
    reveal_strlit("missing ");
    reveal_strlit("bad status ");
    reveal_strlit("link must be http(s)");
    reveal_strlit("missing heading ");
    reveal_strlit("looks like it contains a private_key");
    reveal_strlit("[");
    reveal_strlit("]");
    reveal_strlit("inbox");
    reveal_strlit("3");
    reveal_strlit("max 3 open rows, have ");
    reveal_strlit("max ");
    reveal_strlit(" open rows, have ");
    assert("link must be http(s)"@ + Seq::<char>::empty() =~= "link must be http(s)"@);
    assert("looks like it contains a private_key"@ + Seq::<char>::empty()
        =~= "looks like it contains a private_key"@);
    assert("max 3 open rows, have "@ =~= "max "@ + "3"@ + " open rows, have "@);
}

proof fn lemma_secret_findings_member(w: Seq<char>, names: Seq<Seq<char>>, x: Finding)
    requires
        secret_findings(w, names).contains(x),
    ensures
        exists|k: Seq<char>| x == (w, "forbidden field "@ + k),
    decreases names.len(),
{
    let prev = secret_findings(w, names.drop_last());
    let y = (w, "forbidden field "@ + names.last());
    let i = choose|i: int| 0 <= i < prev.push(y).len() && prev.push(y)[i] == x;
    if i < prev.len() {
        assert(prev[i] == x);
        lemma_secret_findings_member(w, names.drop_last(), x);
    } else {
        assert(x == (w, "forbidden field "@ + names.last()));
    }
}

proof fn lemma_missing_findings_member(w: Seq<char>, e: Entries, req: Seq<Seq<char>>, x: Finding)
    requires
        missing_findings(w, e, req).contains(x),
    ensures
        exists|c: Seq<char>| req.contains(c) && !has_key(e, c) && x == (w, "missing "@ + c),
    decreases req.len(),
{
    let prev = missing_findings(w, e, req.drop_last());
    if has_key(e, req.last()) {
        lemma_missing_findings_member(w, e, req.drop_last(), x);
        let c = choose|c: Seq<char>| req.drop_last().contains(c) && !has_key(e, c) && x == (w, "missing "@ + c);
        let j = choose|j: int| 0 <= j < req.drop_last().len() && req.drop_last()[j] == c;
        assert(req[j] == c);
    } else {
        let y = (w, "missing "@ + req.last());
        let i = choose|i: int| 0 <= i < prev.push(y).len() && prev.push(y)[i] == x;
        if i < prev.len() {
            assert(prev[i] == x);
            lemma_missing_findings_member(w, e, req.drop_last(), x);
            let c = choose|c: Seq<char>| req.drop_last().contains(c) && !has_key(e, c) && x == (w, "missing "@ + c);
            let j = choose|j: int| 0 <= j < req.drop_last().len() && req.drop_last()[j] == c;
            assert(req[j] == c);
        } else {
            assert(x == y);
            assert(req[req.len() - 1] == req.last());
        }
    }
}

proof fn lemma_ledger_member(rows: Seq<Entries>, x: Finding)
    requires
        ledger_findings(rows).contains(x),
    ensures
        exists|i: int| 0 <= i < rows.len() && #[trigger] ledger_row_findings((i + 1) as nat, rows[i]).contains(x),
    decreases rows.len(),
{
    let pre = ledger_findings(rows.drop_last());
    let r = ledger_row_findings(rows.len(), rows.last());
    lemma_concat_member(pre, r, x);
    if pre.contains(x) {
        lemma_ledger_member(rows.drop_last(), x);
        let i = choose|i: int| 0 <= i < rows.drop_last().len() && #[trigger] ledger_row_findings((i + 1) as nat, rows.drop_last()[i]).contains(x);
        assert(rows.drop_last()[i] == rows[i]);
        assert(ledger_row_findings((i + 1) as nat, rows[i]).contains(x));
    } else {
        let i = rows.len() - 1;
        assert(ledger_row_findings((i + 1) as nat, rows[i]).contains(x));
    }
}

/// The statuses `submitted`, `paid` and `rejected` are accepted: no ledger finding, on
/// any row, says `bad status` of one of them.
pub proof fn law_known_statuses_are_accepted(rows: Seq<Entries>, x: Finding)
    requires
        ledger_findings(rows).contains(x),
    ensures
        x.1 != "bad status "@ + "submitted"@,
        x.1 != "bad status "@ + "paid"@,
        x.1 != "bad status "@ + "rejected"@,
{
    lemma_message_literals();
    lemma_ledger_member(rows, x);
    let i = choose|i: int| 0 <= i < rows.len() && #[trigger] ledger_row_findings((i + 1) as nat, rows[i]).contains(x);
    let e = rows[i];
    let w = place("ledger"@, (i + 1) as nat);
    let a = secret_findings(w, secret_names(keys_of(e)));
    let b = missing_findings(w, e, required_ledger());
    let c = crate::validate::status_findings(w, e);
    lemma_concat_member(a + b, c, x);
    if (a + b).contains(x) {
        lemma_concat_member(a, b, x);
        if a.contains(x) {
            lemma_secret_findings_member(w, secret_names(keys_of(e)), x);
            let k = choose|k: Seq<char>| x == (w, "forbidden field "@ + k);
            lemma_first_char_differs("forbidden field "@, k, "bad status "@, "submitted"@);
            lemma_first_char_differs("forbidden field "@, k, "bad status "@, "paid"@);
            lemma_first_char_differs("forbidden field "@, k, "bad status "@, "rejected"@);
        } else {
            lemma_missing_findings_member(w, e, required_ledger(), x);
            let k = choose|k: Seq<char>| required_ledger().contains(k) && !has_key(e, k) && x == (w, "missing "@ + k);
            lemma_first_char_differs("missing "@, k, "bad status "@, "submitted"@);
            lemma_first_char_differs("missing "@, k, "bad status "@, "paid"@);
            lemma_first_char_differs("missing "@, k, "bad status "@, "rejected"@);
        }
    } else {
        let st = value_of(e, "status"@)->Some_0;
        assert(x == (w, "bad status "@ + st));
        if x.1 == "bad status "@ + "submitted"@ {
            lemma_cancel_prefix("bad status "@, st, "submitted"@);
        }
        if x.1 == "bad status "@ + "paid"@ {
            lemma_cancel_prefix("bad status "@, st, "paid"@);
        }
        if x.1 == "bad status "@ + "rejected"@ {
            lemma_cancel_prefix("bad status "@, st, "rejected"@);
        }
    }
}

/// Any other non-empty status is reported, at its row.
pub proof fn law_unknown_status_is_reported(rows: Seq<Entries>, i: int, st: Seq<char>)
    requires
        0 <= i < rows.len(),
        value_of(rows[i], "status"@) == Some(st),
        st.len() > 0,
        st != "submitted"@,
        st != "paid"@,
        st != "rejected"@,
    ensures
        ledger_findings(rows).contains((place("ledger"@, (i + 1) as nat), "bad status "@ + st)),
{
    let w = place("ledger"@, (i + 1) as nat);
    let x = (w, "bad status "@ + st);
    let e = rows[i];
    let a = secret_findings(w, secret_names(keys_of(e)));
    let b = missing_findings(w, e, required_ledger());
    let c = crate::validate::status_findings(w, e);
    assert(c[0] == x);
    lemma_contains_concat(a + b, c, x);
    lemma_ledger_contains(rows, i, x);
}

/// A decision that keeps an inbox row open: none at all, or one that lower-cases to
/// empty, `considering`, `accepted` or `in-progress`.
pub open spec fn keeps_open(e: Entries) -> bool {
    match value_of(e, "decision"@) {
        None => true,
        Some(d) => lowercase(d) == ""@ || lowercase(d) == "considering"@ || lowercase(d)
            == "accepted"@ || lowercase(d) == "in-progress"@,
    }
}

/// Each row takes an open slot exactly when its decision is missing or, lower-cased, is
/// empty, `considering`, `accepted` or `in-progress`: adding a row adds one open row
/// then, and none otherwise.
pub proof fn law_open_count_step(rows: Seq<Entries>, e: Entries)
    ensures
        open_count(rows.push(e)) == open_count(rows) + if keeps_open(e) {
            1nat
        } else {
            0nat
        },
{
    lemma_open_count_push(rows, e);
}

/// Rows whose decisions all keep them open all count toward the cap: with more than three
/// of them the inbox draws the cap finding, which gives their number.
pub proof fn law_open_rows_over_three_draw_the_cap(rows: Seq<Entries>, oks: Seq<bool>)
    requires
        rows.len() > 3,
        forall|i: int| 0 <= i < rows.len() ==> keeps_open(#[trigger] rows[i]),
    ensures
        inbox_findings(rows, oks).contains(
            ("inbox"@, "max 3 open rows, have "@ + decimal(rows.len())),
        ),
{
    lemma_all_open(rows);
    lemma_message_literals();
    assert(decimal(MAX_OPEN_INBOX as nat) == seq!['3']);
    let pre = inbox_rows_findings(rows, oks);
    let cap = cap_findings(open_count(rows));
    assert("max "@ + decimal(MAX_OPEN_INBOX as nat) + " open rows, have "@ + decimal(rows.len())
        == "max 3 open rows, have "@ + decimal(rows.len()));
    assert((pre + cap)[pre.len() as int] == cap[0]);
}

proof fn lemma_all_open(rows: Seq<Entries>)
    requires
        forall|i: int| 0 <= i < rows.len() ==> keeps_open(#[trigger] rows[i]),
    ensures
        open_count(rows) == rows.len(),
    decreases rows.len(),
{
    if rows.len() > 0 {
        let d = rows.drop_last();
        assert forall|i: int| 0 <= i < d.len() implies keeps_open(#[trigger] d[i]) by {
            assert(d[i] == rows[i]);
        }
        lemma_all_open(d);
        assert(keeps_open(rows[rows.len() - 1]));
        law_open_count_step(d, rows.last());
        assert(d.push(rows.last()) =~= rows);
    }
}

proof fn lemma_decimal_len(n: nat)
    ensures
        decimal(n).len() >= 1,
        n < 10 ==> decimal(n).len() == 1,
        n >= 10 ==> decimal(n).len() >= 2,
    decreases n,
{
    if n >= 10 {
        lemma_decimal_len(n / 10);
    }
}

proof fn lemma_decimal_injective(a: nat, b: nat)
    requires
        decimal(a) == decimal(b),
    ensures
        a == b,
    decreases a,
{
    lemma_decimal_len(a);
    lemma_decimal_len(b);
    if a < 10 && b < 10 {
        assert(decimal(a) == seq![digit_char(a)]);
        assert(decimal(b) == seq![digit_char(b)]);
        assert(seq![digit_char(a)][0] == digit_char(a));
        assert(seq![digit_char(b)][0] == digit_char(b));
        assert(digit_char(a) == digit_char(b));
        lemma_digit_injective(a, b);
    } else if a >= 10 && b >= 10 {
        assert(decimal(a).last() == decimal(b).last());
        assert(decimal(a).last() == digit_char(a % 10));
        assert(decimal(b).last() == digit_char(b % 10));
        lemma_digit_injective(a % 10, b % 10);
        assert(decimal(a).drop_last() =~= decimal(a / 10));
        assert(decimal(b).drop_last() =~= decimal(b / 10));
        lemma_decimal_injective(a / 10, b / 10);
        assert(a == 10 * (a / 10) + a % 10);
        assert(b == 10 * (b / 10) + b % 10);
    }
}

proof fn lemma_digit_injective(x: nat, y: nat)
    requires
        x < 10,
        y < 10,
        digit_char(x) == digit_char(y),
    ensures
        x == y,
{
}

/// Two rows' places differ when their numbers do.
proof fn lemma_place_injective(kind: Seq<char>, a: nat, b: nat)
    requires
        place(kind, a) == place(kind, b),
    ensures
        a == b,
{
    lemma_message_literals();
    let pa = place(kind, a);
    let pb = place(kind, b);
    assert(pa.len() == kind.len() + 2 + decimal(a).len());
    assert(pb.len() == kind.len() + 2 + decimal(b).len());
    let k = kind.len() + 1;
    assert(pa.subrange(k as int, pa.len() - 1) =~= decimal(a));
    assert(pb.subrange(k as int, pb.len() - 1) =~= decimal(b));
    lemma_decimal_injective(a, b);
}

proof fn lemma_inbox_member(rows: Seq<Entries>, oks: Seq<bool>, x: Finding)
    requires
        inbox_rows_findings(rows, oks).contains(x),
    ensures
        exists|i: int|
            0 <= i < rows.len() && #[trigger] inbox_row_findings((i + 1) as nat, rows[i], oks[i]).contains(x),
    decreases rows.len(),
{
    let pre = inbox_rows_findings(rows.drop_last(), oks);
    let r = inbox_row_findings(rows.len(), rows.last(), oks[rows.len() - 1]);
    lemma_concat_member(pre, r, x);
    if pre.contains(x) {
        lemma_inbox_member(rows.drop_last(), oks, x);
        let i = choose|i: int|
            0 <= i < rows.drop_last().len() && #[trigger] inbox_row_findings((i + 1) as nat, rows.drop_last()[i], oks[i]).contains(x);
        assert(rows.drop_last()[i] == rows[i]);
        assert(inbox_row_findings((i + 1) as nat, rows[i], oks[i]).contains(x));
    } else {
        let i = rows.len() - 1;
        assert(inbox_row_findings((i + 1) as nat, rows[i], oks[i]).contains(x));
    }
}

/// A link that starts with `http://` or `https://`.
pub open spec fn http_link(l: Seq<char>) -> bool {
    ||| (l.len() >= 7 && l.take(7) == "http://"@)
    ||| (l.len() >= 8 && l.take(8) == "https://"@)
}

/// The link check of each row holds exactly when the row has a link that starts with
/// `http://` or `https://`.
pub proof fn law_link_check(rows: Seq<Entries>, i: int)
    requires
        0 <= i < rows.len(),
    ensures
        link_matches(rows)[i] == match value_of(rows[i], "link"@) {
            Some(l) => http_link(l),
            None => false,
        },
{
}

/// The inbox draws `link must be http(s)` at a row exactly when the row's link is not
/// empty and starts with neither `http://` nor `https://`.
pub proof fn law_link_finding_exactly_for_other_links(rows: Seq<Entries>, i: int, l: Seq<char>)
    requires
        0 <= i < rows.len(),
        value_of(rows[i], "link"@) == Some(l),
    ensures
        inbox_findings(rows, link_matches(rows)).contains(
            (place("inbox"@, (i + 1) as nat), "link must be http(s)"@),
        ) <==> (l.len() > 0 && !http_link(l)),
{
    lemma_message_literals();
    let oks = link_matches(rows);
    let w = place("inbox"@, (i + 1) as nat);
    let x = (w, "link must be http(s)"@);
    let pre = inbox_rows_findings(rows, oks);
    let cap = cap_findings(open_count(rows));
    if l.len() > 0 && !http_link(l) {
        let e = rows[i];
        let a = secret_findings(w, secret_names(keys_of(e)));
        let b = missing_findings(w, e, required_inbox());
        let c = crate::validate::link_findings(w, e, oks[i]);
        assert(c[0] == x);
        lemma_contains_concat(a + b, c, x);
        lemma_inbox_contains(rows, oks, i, x);
        lemma_contains_concat(pre, cap, x);
    }
    if (pre + cap).contains(x) {
        lemma_concat_member(pre, cap, x);
        if cap.contains(x) {
            assert(cap[0] == x);
            assert(w.len() > 5);
        } else {
            lemma_inbox_member(rows, oks, x);
            let j = choose|j: int|
                0 <= j < rows.len() && #[trigger] inbox_row_findings((j + 1) as nat, rows[j], oks[j]).contains(x);
            let e = rows[j];
            let wj = place("inbox"@, (j + 1) as nat);
            let a = secret_findings(wj, secret_names(keys_of(e)));
            let b = missing_findings(wj, e, required_inbox());
            let c = crate::validate::link_findings(wj, e, oks[j]);
            lemma_concat_member(a + b, c, x);
            if (a + b).contains(x) {
                lemma_concat_member(a, b, x);
                if a.contains(x) {
                    lemma_secret_findings_member(wj, secret_names(keys_of(e)), x);
                    let k = choose|k: Seq<char>| x == (wj, "forbidden field "@ + k);
                    lemma_first_char_differs(
                        "forbidden field "@,
                        k,
                        "link must be http(s)"@,
                        Seq::<char>::empty(),
                    );
                } else {
                    lemma_missing_findings_member(wj, e, required_inbox(), x);
                    let k = choose|k: Seq<char>|
                        required_inbox().contains(k) && !has_key(e, k) && x == (wj, "missing "@ + k);
                    lemma_first_char_differs(
                        "missing "@,
                        k,
                        "link must be http(s)"@,
                        Seq::<char>::empty(),
                    );
                }
            } else {
                assert(c.contains(x));
                assert(wj == w);
                lemma_place_injective("inbox"@, (j + 1) as nat, (i + 1) as nat);
                assert(j == i);
            }
        }
    }
}

proof fn lemma_zip_all_empty(h: Seq<Seq<char>>, c: Seq<Seq<char>>, n: nat)
    requires
        n <= c.len(),
        forall|k: int| 0 <= k < c.len() ==> (#[trigger] c[k]).len() == 0,
    ensures
        all_values_empty(zip_prefix(h, c, n)),
    decreases n,
{
    if n > 0 {
        lemma_zip_all_empty(h, c, (n - 1) as nat);
        assert(c[n - 1].len() == 0);
    }
}

/// Appending a line that the table does not read leaves the rows as they were: a line
/// with another cell count than the header's, or one whose cells are all empty.
proof fn lemma_unread_line_is_skipped(text: Seq<char>, ln: Seq<char>)
    requires
        table_lines(text).len() >= 2,
        forall|i: int| 0 <= i < ln.len() ==> ln[i] != '\n',
        cells_of(ln).len() != cells_of(table_lines(text)[0]).len() || forall|k: int|
            0 <= k < cells_of(ln).len() ==> (#[trigger] cells_of(ln)[k]).len() == 0,
    ensures
        parse_table(with_newline(text) + ln.push('\n')) == parse_table(text),
{
    let t = table_lines(text);
    let h = cells_of(t[0]);
    if text.len() == 0 {
        assert(split_char(text, '\n') =~= seq![Seq::<char>::empty()]);
        assert(lines(text) =~= Seq::<Seq<char>>::empty());
        assert(table_only(lines(text)) =~= Seq::<Seq<char>>::empty());
    }
    assert(text.len() > 0);
    let a = with_newline(text);
    assert(a.len() > 0 && a.last() == '\n');
    let body = strip_cr(ln);
    lemma_trim_strip_cr(ln);
    assert(cells_of(body) == cells_of(ln));
    lemma_lines_append(a, ln);
    let la = lines(a);
    lemma_lines_with_newline(text);
    lemma_parse_lines_equiv(la, lines(text));
    let ta = table_only(la);
    assert(ta.len() == t.len());
    assert(trim(ta[0]) == trim(t[0]));
    assert(cells_of(ta[0]) == h);
    reveal_with_fuel(Seq::<_>::filter, 1);
    assert(la.push(body).drop_last() =~= la);
    assert(parse_lines(la) == table_rows(h, ta.skip(2)));
    if cells_of(ln).len() == h.len() {
        lemma_zip_all_empty(h, cells_of(ln), h.len());
    }
    if is_table_line(body) {
        assert(table_only(la.push(body)) == ta.push(body));
        let tl = ta.push(body);
        assert(tl[0] == ta[0]);
        assert(tl.skip(2) =~= ta.skip(2).push(body));
        assert(ta.skip(2).push(body).drop_last() =~= ta.skip(2));
        assert(table_rows(h, tl.skip(2)) == table_rows(h, ta.skip(2)));
        assert(parse_lines(la.push(body)) == parse_lines(la));
    } else {
        assert(table_only(la.push(body)) == ta);
        assert(parse_lines(la.push(body)) == parse_lines(la));
    }
}

/// A line with another cell count than the header's is skipped: appending it to a text
/// whose table has its header and separator lines (after a line feed, when the text does
/// not end with one) leaves the rows that the text gives as they were, whether it has
/// more cells or fewer.
pub proof fn law_line_with_other_cell_count_is_skipped(text: Seq<char>, ln: Seq<char>)
    requires
        table_lines(text).len() >= 2,
        forall|i: int| 0 <= i < ln.len() ==> ln[i] != '\n',
        cells_of(ln).len() != cells_of(table_lines(text)[0]).len(),
    ensures
        parse_table(with_newline(text) + ln.push('\n')) == parse_table(text),
{
    lemma_unread_line_is_skipped(text, ln);
}

/// A line whose cells are all empty is skipped: appending it leaves the rows as they were.
pub proof fn law_empty_line_is_skipped(text: Seq<char>, ln: Seq<char>)
    requires
        table_lines(text).len() >= 2,
        forall|i: int| 0 <= i < ln.len() ==> ln[i] != '\n',
        forall|k: int| 0 <= k < cells_of(ln).len() ==> (#[trigger] cells_of(ln)[k]).len() == 0,
    ensures
        parse_table(with_newline(text) + ln.push('\n')) == parse_table(text),
{
    lemma_unread_line_is_skipped(text, ln);
}

proof fn lemma_heading_findings_member(present: Set<Seq<char>>, hs: Seq<Seq<char>>, x: Finding)
    requires
        heading_findings(present, hs).contains(x),
    ensures
        exists|h: Seq<char>|
            hs.contains(h) && !present.contains(h) && x == ("proposal"@, "missing heading "@ + h),
    decreases hs.len(),
{
    let prev = heading_findings(present, hs.drop_last());
    let y = ("proposal"@, "missing heading "@ + hs.last());
    let in_prev = if present.contains(hs.last()) {
        true
    } else {
        let i = choose|i: int| 0 <= i < prev.push(y).len() && prev.push(y)[i] == x;
        if i < prev.len() {
            assert(prev[i] == x);
        }
        i < prev.len()
    };
    if in_prev {
        lemma_heading_findings_member(present, hs.drop_last(), x);
        let h = choose|h: Seq<char>|
            hs.drop_last().contains(h) && !present.contains(h) && x == ("proposal"@, "missing heading "@ + h);
        let j = choose|j: int| 0 <= j < hs.drop_last().len() && hs.drop_last()[j] == h;
        assert(hs[j] == h);
    } else {
        assert(x == y);
        assert(hs[hs.len() - 1] == hs.last());
    }
}

proof fn lemma_heading_findings_has(present: Set<Seq<char>>, hs: Seq<Seq<char>>, j: int)
    requires
        0 <= j < hs.len(),
        !present.contains(hs[j]),
    ensures
        heading_findings(present, hs).contains(("proposal"@, "missing heading "@ + hs[j])),
    decreases hs.len(),
{
    let prev = heading_findings(present, hs.drop_last());
    let x = ("proposal"@, "missing heading "@ + hs[j]);
    if j == hs.len() - 1 {
        assert(prev.push(x)[prev.len() as int] == x);
    } else {
        assert(hs.drop_last()[j] == hs[j]);
        lemma_heading_findings_has(present, hs.drop_last(), j);
        let i = choose|i: int| 0 <= i < prev.len() && prev[i] == x;
        if !present.contains(hs.last()) {
            assert(prev.push(("proposal"@, "missing heading "@ + hs.last()))[i] == x);
        }
    }
}

/// A required heading is reported missing exactly when it is not itself a heading token
/// of the text, whatever other tokens (a longer word that starts with it, say) are there.
pub proof fn law_missing_heading_exactly_when_absent(text: Seq<char>, h: Seq<char>)
    requires
        proposal_headings().contains(h),
    ensures
        proposal_findings(text).contains(("proposal"@, "missing heading "@ + h)) <==> !heading_set(
            text,
        ).contains(h),
{
    lemma_message_literals();
    let present = heading_set(text);
    let hs = proposal_headings();
    let x = ("proposal"@, "missing heading "@ + h);
    let a = heading_findings(present, hs);
    let b = key_text_findings(text);
    if !present.contains(h) {
        let j = choose|j: int| 0 <= j < hs.len() && hs[j] == h;
        lemma_heading_findings_has(present, hs, j);
        lemma_contains_concat(a, b, x);
    }
    if (a + b).contains(x) {
        lemma_concat_member(a, b, x);
        if a.contains(x) {
            lemma_heading_findings_member(present, hs, x);
            let g = choose|g: Seq<char>|
                hs.contains(g) && !present.contains(g) && x == ("proposal"@, "missing heading "@ + g);
            lemma_cancel_prefix("missing heading "@, h, g);
        } else {
            assert(b[0] == x);
            lemma_first_char_differs(
                "missing heading "@,
                h,
                "looks like it contains a private_key"@,
                Seq::<char>::empty(),
            );
        }
    }
}

/// The one finding on the inbox as a whole is the cap finding, drawn only when more than
/// three rows are open, and it gives their number: every other finding is at a row.
pub proof fn law_inbox_finding_is_the_cap(rows: Seq<Entries>, oks: Seq<bool>, x: Finding)
    requires
        inbox_findings(rows, oks).contains(x),
        x.0 == "inbox"@,
    ensures
        open_count(rows) > 3,
        x.1 == "max 3 open rows, have "@ + decimal(open_count(rows)),
{
    lemma_message_literals();
    let pre = inbox_rows_findings(rows, oks);
    let cap = cap_findings(open_count(rows));
    lemma_concat_member(pre, cap, x);
    if pre.contains(x) {
        lemma_inbox_member(rows, oks, x);
        let j = choose|j: int|
            0 <= j < rows.len() && #[trigger] inbox_row_findings((j + 1) as nat, rows[j], oks[j]).contains(x);
        let e = rows[j];
        let w = place("inbox"@, (j + 1) as nat);
        assert(w.len() > 5);
        let a = secret_findings(w, secret_names(keys_of(e)));
        let b = missing_findings(w, e, required_inbox());
        let c = crate::validate::link_findings(w, e, oks[j]);
        lemma_concat_member(a + b, c, x);
        if (a + b).contains(x) {
            lemma_concat_member(a, b, x);
            if a.contains(x) {
                lemma_secret_findings_member(w, secret_names(keys_of(e)), x);
            } else {
                lemma_missing_findings_member(w, e, required_inbox(), x);
            }
        }
        assert(x.0 == w);
    } else {
        assert(cap[0] == x);
        assert(decimal(MAX_OPEN_INBOX as nat) == seq!['3']);
    }
}

} // verus!
