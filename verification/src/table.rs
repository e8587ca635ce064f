use vstd::prelude::*;

use crate::text::{
    chars_of, line_spans, lines, span_in, span_of, split_char, split_spans, string_from_chars,
    strip_both, strip_span, trim, trim_span, trim_start, trim_start_span,
};

verus! {

broadcast use vstd::string::group_string_axioms;

// ---------------------------------------------------------------------------
// A row: named cells, each name once
// ---------------------------------------------------------------------------

/// The model of a row: its (name, value) pairs in the order the names first came.
pub type Entries = Seq<(Seq<char>, Seq<char>)>;

/// No name occurs twice.
pub open spec fn keys_unique(e: Entries) -> bool {
    forall|i: int, j: int| 0 <= i < j < e.len() ==> (#[trigger] e[i]).0 != (#[trigger] e[j]).0
}

/// The row has a cell named `k`.
pub open spec fn has_key(e: Entries, k: Seq<char>) -> bool {
    exists|i: int| 0 <= i < e.len() && (#[trigger] e[i]).0 == k
}

/// The position of the cell named `k` (meaningful when `has_key(e, k)`).
pub open spec fn key_pos(e: Entries, k: Seq<char>) -> int {
    choose|i: int| 0 <= i < e.len() && (#[trigger] e[i]).0 == k
}

/// The value of the cell named `k`, as a map lookup.
pub open spec fn value_of(e: Entries, k: Seq<char>) -> Option<Seq<char>> {
    if has_key(e, k) {
        Some(e[key_pos(e, k)].1)
    } else {
        None
    }
}

/// A map insert: an existing cell named `k` gets the value `v` in its place, otherwise
/// the cell is added at the end.
pub open spec fn insert_entry(e: Entries, k: Seq<char>, v: Seq<char>) -> Entries {
    if has_key(e, k) {
        e.update(key_pos(e, k), (k, v))
    } else {
        e.push((k, v))
    }
}

/// The names of the row's cells, in order.
pub open spec fn keys_of(e: Entries) -> Seq<Seq<char>> {
    e.map_values(|p: (Seq<char>, Seq<char>)| p.0)
}

/// Every value of the row is empty.
pub open spec fn all_values_empty(e: Entries) -> bool {
    forall|i: int| 0 <= i < e.len() ==> (#[trigger] e[i]).1.len() == 0
}

/// The names of a row with unique names have no duplicates.
pub proof fn lemma_keys_no_duplicates(e: Entries)
    requires
        keys_unique(e),
    ensures
        keys_of(e).no_duplicates(),
{
    assert forall|i: int, j: int|
        0 <= i < keys_of(e).len() && 0 <= j < keys_of(e).len() && i != j implies keys_of(e)[i]
        != keys_of(e)[j] by {
        if i < j {
            assert(e[i].0 != e[j].0);
        } else {
            assert(e[j].0 != e[i].0);
        }
    }
}

pub proof fn lemma_insert_unique(e: Entries, k: Seq<char>, v: Seq<char>)
    requires
        keys_unique(e),
    ensures
        keys_unique(insert_entry(e, k, v)),
{
}

/// A table row: a map from column name to cell, kept as (name, cell) pairs in the order
/// the names first came. No name occurs twice.
pub struct Row {
    entries: Vec<(String, String)>,
}

impl View for Row {
    type V = Entries;

    closed spec fn view(&self) -> Entries {
        self.entries@.map_values(|p: (String, String)| (p.0@, p.1@))
    }
}

impl Row {
    #[verifier::type_invariant]
    closed spec fn inv(self) -> bool {
        keys_unique(self@)
    }

    /// An empty row.
    pub fn new() -> (r: Row)
        ensures
            r@ == Seq::<(Seq<char>, Seq<char>)>::empty(),
    {
        let r = Row { entries: Vec::new() };
        assert(r@ =~= Seq::<(Seq<char>, Seq<char>)>::empty());
        r
    }

    /// Sets the cell named `key` to `value`, as `HashMap::insert`.
    pub fn insert(&mut self, key: String, value: String)
        ensures
            final(self)@ == insert_entry(old(self)@, key@, value@),
            keys_unique(final(self)@),
    {
        proof {
            use_type_invariant(&*self);
        }
        let ghost e = self@;
        let mut entries = Vec::new();
        std::mem::swap(&mut entries, &mut self.entries);
        let mut i: usize = 0;
        while i < entries.len()
            invariant
                e == old(self)@,
                e == entries@.map_values(|p: (String, String)| (p.0@, p.1@)),
                keys_unique(e),
                i <= entries.len(),
                forall|j: int| 0 <= j < i ==> (#[trigger] e[j]).0 != key@,
            decreases entries.len() - i,
        {
            if entries[i].0 == key {
                proof {
                    assert(e[i as int].0 == key@);
                    assert(has_key(e, key@));
                    assert(key_pos(e, key@) == i);
                }
                entries.set(i, (key, value));
                proof {
                    assert(entries@.map_values(|p: (String, String)| (p.0@, p.1@)) =~= insert_entry(
                        e,
                        key@,
                        value@,
                    ));
                    lemma_insert_unique(e, key@, value@);
                }
                self.entries = entries;
                return;
            }
            i = i + 1;
        }
        entries.push((key, value));
        proof {
            assert(entries@.map_values(|p: (String, String)| (p.0@, p.1@)) =~= insert_entry(
                e,
                key@,
                value@,
            ));
            lemma_insert_unique(e, key@, value@);
        }
        self.entries = entries;
    }

    /// The number of cells.
    pub fn len(&self) -> (n: usize)
        ensures
            n == self@.len(),
            keys_unique(self@),
    {
        proof {
            use_type_invariant(self);
        }
        self.entries.len()
    }

    /// The name and value of the `i`-th cell.
    pub fn entry(&self, i: usize) -> (r: (&String, &String))
        requires
            i < self@.len(),
        ensures
            (r.0@, r.1@) == self@[i as int],
    {
        (&self.entries[i].0, &self.entries[i].1)
    }

    /// The value of the cell named `key`, as `HashMap::get`.
    pub fn get(&self, key: &str) -> (r: Option<&String>)
        ensures
            match r {
                Some(v) => value_of(self@, key@) == Some(v@),
                None => value_of(self@, key@) is None,
            },
    {
        proof {
            use_type_invariant(self);
        }
        let k = String::from_str(key);
        let mut i: usize = 0;
        while i < self.entries.len()
            invariant
                k@ == key@,
                i <= self@.len(),
                self@.len() == self.entries@.len(),
                keys_unique(self@),
                forall|j: int| 0 <= j < i ==> (#[trigger] self@[j]).0 != key@,
            decreases self.entries.len() - i,
        {
            if self.entries[i].0 == k {
                assert(self@[i as int].0 == key@);
                assert(key_pos(self@, key@) == i);
                return Some(&self.entries[i].1);
            }
            i = i + 1;
        }
        None
    }

    /// Whether the row has a cell named `key`, as `HashMap::contains_key`.
    pub fn contains_key(&self, key: &str) -> (b: bool)
        ensures
            b == has_key(self@, key@),
    {
        match self.get(key) {
            Some(_) => true,
            None => false,
        }
    }

    /// Whether every value is empty.
    pub fn all_empty(&self) -> (b: bool)
        ensures
            b == all_values_empty(self@),
    {
        let mut i: usize = 0;
        while i < self.entries.len()
            invariant
                i <= self@.len(),
                self@.len() == self.entries@.len(),
                forall|j: int| 0 <= j < i ==> (#[trigger] self@[j]).1.len() == 0,
            decreases self.entries.len() - i,
        {
            if !self.entries[i].1.as_str().is_empty() {
                assert(self@[i as int].1.len() != 0);
                return false;
            }
            i = i + 1;
        }
        true
    }
}

// ---------------------------------------------------------------------------
// Markdown tables
// ---------------------------------------------------------------------------

/// The cells of a table line: the trimmed line without its outer pipes, split at
/// each pipe, each piece trimmed.
pub open spec fn cells_of(line: Seq<char>) -> Seq<Seq<char>> {
    split_char(strip_both(trim(line), '|'), '|').map_values(|c: Seq<char>| trim(c))
}

/// A line that belongs to a table: its first non-blank character is a pipe.
pub open spec fn is_table_line(l: Seq<char>) -> bool {
    trim_start(l).len() > 0 && trim_start(l)[0] == '|'
}

/// The table lines among `ls`, in order.
pub open spec fn table_only(ls: Seq<Seq<char>>) -> Seq<Seq<char>> {
    ls.filter(|l: Seq<char>| is_table_line(l))
}

/// The table lines of a text, in order.
pub open spec fn table_lines(text: Seq<char>) -> Seq<Seq<char>> {
    table_only(lines(text))
}

/// The row made of the first `n` headers and cells, inserted in order (a later
/// cell under a repeated header replaces the earlier one).
pub open spec fn zip_prefix(headers: Seq<Seq<char>>, cells: Seq<Seq<char>>, n: nat) -> Entries
    decreases n,
{
    if n == 0 {
        Seq::empty()
    } else {
        insert_entry(
            zip_prefix(headers, cells, (n - 1) as nat),
            headers[n - 1],
            cells[n - 1],
        )
    }
}

/// The row made of `headers` and `cells`.
pub open spec fn zip_row(headers: Seq<Seq<char>>, cells: Seq<Seq<char>>) -> Entries {
    zip_prefix(headers, cells, headers.len())
}

/// The rows of the body lines `ls` under `headers`: a line whose cell count differs
/// from the header count is skipped, and so is a row whose values are all empty.
pub open spec fn table_rows(headers: Seq<Seq<char>>, ls: Seq<Seq<char>>) -> Seq<Entries>
    decreases ls.len(),
{
    if ls.len() == 0 {
        Seq::empty()
    } else {
        let prev = table_rows(headers, ls.drop_last());
        let cells = cells_of(ls.last());
        if cells.len() != headers.len() {
            prev
        } else if all_values_empty(zip_row(headers, cells)) {
            prev
        } else {
            prev.push(zip_row(headers, cells))
        }
    }
}

/// The rows of the table among the lines `ls`: its first table line names the columns,
/// its second is the separator, the rest are rows. Fewer than two table lines give no row.
pub open spec fn parse_lines(ls: Seq<Seq<char>>) -> Seq<Entries> {
    let tl = table_only(ls);
    if tl.len() < 2 {
        Seq::empty()
    } else {
        table_rows(cells_of(tl[0]), tl.skip(2))
    }
}

/// The rows of the table of a text (see `parse_lines`).
pub open spec fn parse_table(text: Seq<char>) -> Seq<Entries> {
    parse_lines(lines(text))
}

pub open spec fn rows_view(rows: Seq<Row>) -> Seq<Entries> {
    rows.map_values(|r: Row| r@)
}

pub open spec fn strings_view(v: Seq<String>) -> Seq<Seq<char>> {
    v.map_values(|s: String| s@)
}

/// The cells of the line `v[sp]`, as strings.
fn line_cells(v: &Vec<char>, sp: (usize, usize)) -> (cells: Vec<String>)
    requires
        span_in(sp, 0, v.len() as int),
    ensures
        strings_view(cells@) == cells_of(span_of(v@, sp)),
{
    let (a, b) = trim_span(v, sp.0, sp.1);
    let (c, d) = strip_span(v, a, b, '|');
    let pieces = split_spans(v, c, d, '|');
    let ghost line = span_of(v@, sp);
    assert(v@.subrange(a as int, b as int) == trim(line));
    assert(v@.subrange(c as int, d as int) == strip_both(trim(line), '|'));
    let ghost parts = split_char(strip_both(trim(line), '|'), '|');
    let mut out: Vec<String> = Vec::new();
    let mut k: usize = 0;
    while k < pieces.len()
        invariant
            k <= pieces.len(),
            pieces.len() == parts.len(),
            c <= d <= v.len(),
            forall|j: int|
                0 <= j < pieces.len() ==> span_in(#[trigger] pieces@[j], c as int, d as int)
                    && span_of(v@, pieces@[j]) == parts[j],
            out.len() == k,
            forall|j: int| 0 <= j < k ==> (#[trigger] out@[j])@ == trim(parts[j]),
        decreases pieces.len() - k,
    {
        let (x, y) = pieces[k];
        let (x2, y2) = trim_span(v, x, y);
        let s = string_from_chars(vstd::slice::slice_subrange(v.as_slice(), x2, y2));
        out.push(s);
        k = k + 1;
    }
    assert(strings_view(out@) =~= cells_of(line));
    out
}

/// The row of `headers` and `cells` (a later cell under a repeated header wins).
pub fn row_from_cells(headers: &Vec<String>, cells: &Vec<String>) -> (r: Row)
    requires
        headers.len() == cells.len(),
    ensures
        r@ == zip_row(strings_view(headers@), strings_view(cells@)),
{
    let mut row = Row::new();
    let mut j: usize = 0;
    while j < headers.len()
        invariant
            headers.len() == cells.len(),
            j <= headers.len(),
            row@ == zip_prefix(strings_view(headers@), strings_view(cells@), j as nat),
        decreases headers.len() - j,
    {
        row.insert(headers[j].clone(), cells[j].clone());
        j = j + 1;
    }
    row
}

/// The rows of the first markdown table in `text`. The first line that starts with
/// `|` (after blanks) gives the column names, the next one is the separator, and each
/// further table line is a row, unless its cell count differs from the column count
/// or all its cells are empty.
pub fn parse_md_table(text: &str) -> (rows: Vec<Row>)
    ensures
        rows_view(rows@) == parse_table(text@),
{
    let v = chars_of(text);
    let spans = line_spans(&v);
    let ghost all = lines(v@);
    let mut tl: Vec<(usize, usize)> = Vec::new();
    let mut k: usize = 0;
    while k < spans.len()
        invariant
            k <= spans.len(),
            spans.len() == all.len(),
            all == lines(v@),
            forall|j: int|
                0 <= j < spans.len() ==> span_in(#[trigger] spans@[j], 0, v.len() as int)
                    && span_of(v@, spans@[j]) == all[j],
            forall|j: int| 0 <= j < tl.len() ==> span_in(#[trigger] tl@[j], 0, v.len() as int),
            tl@.map_values(|sp: (usize, usize)| span_of(v@, sp)) == table_only(all.take(k as int)),
        decreases spans.len() - k,
    {
        let (a, b) = spans[k];
        let (s, _) = trim_start_span(&v, a, b);
        proof {
            reveal_with_fuel(Seq::<_>::filter, 1);
            assert(all.take(k + 1).drop_last() =~= all.take(k as int));
        }
        if s < b && v[s] == '|' {
            tl.push((a, b));
        }
        assert(tl@.map_values(|sp: (usize, usize)| span_of(v@, sp)) =~= table_only(all.take(k + 1)));
        k = k + 1;
    }
    assert(all.take(spans.len() as int) =~= all);
    let ghost ls = table_lines(v@);
    assert(ls.len() == tl.len());
    if tl.len() < 2 {
        return Vec::new();
    }
    let headers = line_cells(&v, tl[0]);
    let ghost hv = strings_view(headers@);
    assert(span_of(v@, tl@[0]) == ls[0]);
    let mut rows: Vec<Row> = Vec::new();
    let mut k: usize = 2;
    while k < tl.len()
        invariant
            2 <= k <= tl.len(),
            ls == table_lines(v@),
            ls.len() == tl.len(),
            hv == strings_view(headers@),
            hv == cells_of(ls[0]),
            forall|j: int| 0 <= j < tl.len() ==> span_in(#[trigger] tl@[j], 0, v.len() as int),
            forall|j: int| 0 <= j < tl.len() ==> span_of(v@, #[trigger] tl@[j]) == ls[j],
            rows_view(rows@) == table_rows(hv, ls.skip(2).take(k - 2)),
        decreases tl.len() - k,
    {
        let cells = line_cells(&v, tl[k]);
        proof {
            assert(ls.skip(2).take(k - 1).drop_last() =~= ls.skip(2).take(k - 2));
            assert(ls.skip(2).take(k - 1).last() == ls[k as int]);
        }
        if cells.len() == headers.len() {
            let row = row_from_cells(&headers, &cells);
            if !row.all_empty() {
                rows.push(row);
            }
        }
        assert(rows_view(rows@) =~= table_rows(hv, ls.skip(2).take(k - 1)));
        k = k + 1;
    }
    assert(ls.skip(2).take(tl.len() - 2) =~= ls.skip(2));
    rows
}

// ---------------------------------------------------------------------------
// Writing tables
// ---------------------------------------------------------------------------

/// The text of a new, empty inbox: a title and the inbox table's header and separator.
pub fn empty_inbox() -> (s: &'static str)
    ensures
        s@ == "# Inbox\n\n| opened | platform | title | link | amount | due | isomorphic | decision |\n|---|---|---|---|---|---|---|---|\n"@,
{
    "# Inbox\n\n| opened | platform | title | link | amount | due | isomorphic | decision |\n|---|---|---|---|---|---|---|---|\n"
}

/// The text of a new, empty ledger: a title and the ledger table's header and separator.
pub fn empty_ledger() -> (s: &'static str)
    ensures
        s@ == "# Ledger\n\n| date | platform | title | link | status | amount |\n|---|---|---|---|---|---|\n"@,
{
    "# Ledger\n\n| date | platform | title | link | status | amount |\n|---|---|---|---|---|---|\n"
}

/// The cells of a table line after its opening pipe: ` c |` for each cell.
pub open spec fn cells_text(cells: Seq<Seq<char>>) -> Seq<char>
    decreases cells.len(),
{
    if cells.len() == 0 {
        Seq::empty()
    } else {
        cells_text(cells.drop_last()) + " "@ + cells.last() + " |"@
    }
}

/// The table line for `cells`: `| c1 | c2 | ... |` and a line feed.
pub open spec fn row_line(cells: Seq<Seq<char>>) -> Seq<char> {
    "|"@ + cells_text(cells) + "\n"@
}

/// `text` ending with a line feed: one is added unless it is there.
pub open spec fn with_newline(text: Seq<char>) -> Seq<char> {
    if text.len() > 0 && text.last() == '\n' {
        text
    } else {
        text.push('\n')
    }
}

/// The table line for `cells`.
pub fn table_line(cells: &Vec<String>) -> (s: String)
    ensures
        s@ == row_line(strings_view(cells@)),
{
    let ghost cv = strings_view(cells@);
    let mut s = String::from_str("|");
    let mut i: usize = 0;
    while i < cells.len()
        invariant
            cv == strings_view(cells@),
            i <= cells.len(),
            s@ == "|"@ + cells_text(cv.take(i as int)),
        decreases cells.len() - i,
    {
        s.append(" ");
        s.append(cells[i].as_str());
        s.append(" |");
        assert(cv.take(i + 1).drop_last() =~= cv.take(i as int));
        assert(s@ =~= "|"@ + cells_text(cv.take(i + 1)));
        i = i + 1;
    }
    assert(cv.take(cells.len() as int) =~= cv);
    s.append("\n");
    s
}

/// `text` with the table line for `cells` appended, after a line feed if `text` does not
/// end with one.
pub fn append_row(text: &str, cells: &Vec<String>) -> (s: String)
    ensures
        s@ == with_newline(text@) + row_line(strings_view(cells@)),
{
    let v = chars_of(text);
    let mut s = String::from_str(text);
    let ghost t = text@;
    if !(v.len() > 0 && v[v.len() - 1] == '\n') {
        s.append("\n");
        proof {
            reveal_strlit("\n");
        }
        assert(s@ =~= t.push('\n'));
    }
    assert(s@ == with_newline(t));
    let line = table_line(cells);
    s.append(line.as_str());
    s
}

} // verus!
