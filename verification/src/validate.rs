use vstd::prelude::*;

pub use crate::table::{empty_inbox, empty_ledger, parse_md_table, Row};

use crate::table::{
    append_row, has_key, lemma_keys_no_duplicates, keys_of, parse_table, row_from_cells, row_line, rows_view,
    strings_view, value_of, with_newline, zip_row, Entries,
};
use crate::pattern::{compile, http_pattern, is_match, starts_http};
use crate::text::{
    ascii_lower, ascii_lower_exec, chars_eq, chars_of, contains_chars, contains_seq, decimal,
    decimal_string, first_word, is_ascii_alnum, is_ws_exec, line_spans, lines,
    lowercase, span_in, span_of, string_from_chars, strip_start, strip_start_span, to_lowercase,
    trim, trim_span, trim_start_span, word_end,
};

verus! {

broadcast use vstd::string::group_string_axioms;

/// The most inbox rows that may be open at once.
pub const MAX_OPEN_INBOX: usize = 3;

/// One finding of a validator: where it is and what is wrong.
#[derive(Debug, Clone, PartialEq, Eq)]
pub struct RowError {
    pub where_: String,
    pub message: String,
}

/// The model of a finding: (where, message).
pub type Finding = (Seq<char>, Seq<char>);

impl View for RowError {
    type V = Finding;

    open spec fn view(&self) -> Finding {
        (self.where_@, self.message@)
    }
}

impl RowError {
    /// The finding as one line, `where: message`.
    pub fn describe(&self) -> (s: String)
        ensures
            s@ == self.where_@ + ": "@ + self.message@,
    {
        let mut s = self.where_.clone();
        s.append(": ");
        s.append(self.message.as_str());
        s
    }
}

pub open spec fn findings(v: Seq<RowError>) -> Seq<Finding> {
    v.map_values(|e: RowError| e@)
}

pub open spec fn strs_view(v: Seq<&str>) -> Seq<Seq<char>> {
    v.map_values(|s: &str| s@)
}

// ---------------------------------------------------------------------------
// Fixed names
// ---------------------------------------------------------------------------

/// The columns every inbox row must have.
pub open spec fn required_inbox() -> Seq<Seq<char>> {
    seq![
        "opened"@,
        "platform"@,
        "title"@,
        "link"@,
        "amount"@,
        "due"@,
        "isomorphic"@,
        "decision"@,
    ]
}

/// The columns every ledger row must have.
pub open spec fn required_ledger() -> Seq<Seq<char>> {
    seq!["date"@, "platform"@, "title"@, "link"@, "status"@, "amount"@]
}

/// The headings every proposal must have, in the order they are reported.
pub open spec fn proposal_headings() -> Seq<Seq<char>> {
    seq!["problem"@, "do"@, "dont"@, "demo"@, "milestones"@]
}

/// Words that mark a column name as holding a secret.
pub open spec fn forbidden_words() -> Seq<Seq<char>> {
    seq!["private_key"@, "privkey"@, "mnemonic"@, "seed"@, "wif"@, "secret_key"@]
}

fn required_inbox_names() -> (v: Vec<&'static str>)
    ensures
        strs_view(v@) == required_inbox(),
{
    let v = vec!["opened", "platform", "title", "link", "amount", "due", "isomorphic", "decision"];
    assert(strs_view(v@) =~= required_inbox());
    v
}

fn required_ledger_names() -> (v: Vec<&'static str>)
    ensures
        strs_view(v@) == required_ledger(),
{
    let v = vec!["date", "platform", "title", "link", "status", "amount"];
    assert(strs_view(v@) =~= required_ledger());
    v
}

fn proposal_heading_names() -> (v: Vec<&'static str>)
    ensures
        strs_view(v@) == proposal_headings(),
{
    let v = vec!["problem", "do", "dont", "demo", "milestones"];
    assert(strs_view(v@) =~= proposal_headings());
    v
}

fn forbidden_word_names() -> (v: Vec<&'static str>)
    ensures
        strs_view(v@) == forbidden_words(),
{
    let v = vec!["private_key", "privkey", "mnemonic", "seed", "wif", "secret_key"];
    assert(strs_view(v@) =~= forbidden_words());
    v
}

// ---------------------------------------------------------------------------
// Secret column names
// ---------------------------------------------------------------------------

/// A character that survives normalisation: an ASCII letter or digit, or `_`.
pub open spec fn norm_keeps(c: char) -> bool {
    is_ascii_alnum(c) || c == '_'
}

/// A column name reduced to its ASCII letters, digits and underscores, lower-cased.
pub open spec fn normalized(s: Seq<char>) -> Seq<char>
    decreases s.len(),
{
    if s.len() == 0 {
        Seq::empty()
    } else if norm_keeps(s.last()) {
        normalized(s.drop_last()).push(ascii_lower(s.last()))
    } else {
        normalized(s.drop_last())
    }
}

/// A column name that names a secret: its normalised form contains a forbidden word.
pub open spec fn is_secret_name(k: Seq<char>) -> bool {
    exists|i: int| 0 <= i < forbidden_words().len() && contains_seq(normalized(k), #[trigger] forbidden_words()[i])
}

/// The secret column names among `keys`, in order.
pub open spec fn secret_names(keys: Seq<Seq<char>>) -> Seq<Seq<char>>
    decreases keys.len(),
{
    if keys.len() == 0 {
        Seq::empty()
    } else if is_secret_name(keys.last()) {
        secret_names(keys.drop_last()).push(keys.last())
    } else {
        secret_names(keys.drop_last())
    }
}

/// The secret names of `keys` are some of `keys`; when `keys` has no duplicates, neither
/// do they.
pub proof fn lemma_secret_names_sub(keys: Seq<Seq<char>>)
    ensures
        forall|x: Seq<char>| secret_names(keys).contains(x) ==> keys.contains(x),
        keys.no_duplicates() ==> secret_names(keys).no_duplicates(),
    decreases keys.len(),
{
    if keys.len() > 0 {
        let prev = keys.drop_last();
        lemma_secret_names_sub(prev);
        assert forall|x: Seq<char>| secret_names(keys).contains(x) implies keys.contains(x) by {
            if prev.contains(x) {
                let j = choose|j: int| 0 <= j < prev.len() && prev[j] == x;
                assert(keys[j] == x);
            } else if secret_names(prev).contains(x) {
            } else {
                assert(keys[keys.len() - 1] == x);
            }
        }
        if keys.no_duplicates() {
            assert(prev.no_duplicates()) by {
                assert forall|i: int, j: int|
                    0 <= i < prev.len() && 0 <= j < prev.len() && i != j implies prev[i] != prev[j] by {
                    assert(keys[i] != keys[j]);
                }
            }
            if is_secret_name(keys.last()) {
                let s = secret_names(prev);
                assert(!s.contains(keys.last())) by {
                    if s.contains(keys.last()) {
                        assert(prev.contains(keys.last()));
                        let j = choose|j: int| 0 <= j < prev.len() && prev[j] == keys.last();
                        assert(keys[j] == keys[keys.len() - 1]);
                    }
                }
                assert forall|i: int, j: int|
                    0 <= i < s.push(keys.last()).len() && 0 <= j < s.push(keys.last()).len() && i
                        != j implies s.push(keys.last())[i] != s.push(keys.last())[j] by {
                    if i == s.len() {
                        assert(s[j] != keys.last());
                    } else if j == s.len() {
                        assert(s[i] != keys.last());
                    }
                }
            }
        }
    }
}

/// `name` reduced to its ASCII letters, digits and underscores, lower-cased.
pub fn norm(name: &str) -> (r: String)
    ensures
        r@ == normalized(name@),
{
    let v = chars_of(name);
    let mut out: Vec<char> = Vec::new();
    let mut i: usize = 0;
    while i < v.len()
        invariant
            i <= v.len(),
            out@ == normalized(v@.take(i as int)),
        decreases v.len() - i,
    {
        let c = v[i];
        assert(v@.take(i + 1).drop_last() =~= v@.take(i as int));
        if ('a' <= c && c <= 'z') || ('A' <= c && c <= 'Z') || ('0' <= c && c <= '9') || c == '_' {
            out.push(ascii_lower_exec(c));
        }
        i = i + 1;
    }
    assert(v@.take(v.len() as int) =~= v@);
    string_from_chars(out.as_slice())
}

/// Whether the column name `key` names a secret.
fn is_secret(key: &String, words: &Vec<&'static str>) -> (b: bool)
    requires
        strs_view(words@) == forbidden_words(),
    ensures
        b == is_secret_name(key@),
{
    let n = norm(key.as_str());
    let nv = chars_of(n.as_str());
    let mut i: usize = 0;
    while i < words.len()
        invariant
            strs_view(words@) == forbidden_words(),
            i <= words.len(),
            nv@ == normalized(key@),
            forall|j: int| 0 <= j < i ==> !contains_seq(normalized(key@), #[trigger] forbidden_words()[j]),
        decreases words.len() - i,
    {
        let w = chars_of(words[i]);
        assert(w@ == forbidden_words()[i as int]);
        if contains_chars(nv.as_slice(), w.as_slice()) {
            return true;
        }
        i = i + 1;
    }
    false
}

/// The names of the row's columns that hold a secret, in the row's order.
pub fn secret_keys(row: &Row) -> (r: Vec<String>)
    ensures
        r@.map_values(|s: String| s@) == secret_names(keys_of(row@)),
        r@.map_values(|s: String| s@).no_duplicates(),
{
    let count = row.len();
    proof {
        lemma_keys_no_duplicates(row@);
        lemma_secret_names_sub(keys_of(row@));
    }
    let words = forbidden_word_names();
    let mut out: Vec<String> = Vec::new();
    let mut i: usize = 0;
    while i < count
        invariant
            count == row@.len(),
            strs_view(words@) == forbidden_words(),
            i <= row@.len(),
            out@.map_values(|s: String| s@) == secret_names(keys_of(row@).take(i as int)),
        decreases row@.len() - i,
    {
        let (k, _) = row.entry(i);
        assert(keys_of(row@).take(i + 1).drop_last() =~= keys_of(row@).take(i as int));
        if is_secret(k, &words) {
            out.push(k.clone());
        }
        assert(out@.map_values(|s: String| s@) =~= secret_names(keys_of(row@).take(i + 1)));
        i = i + 1;
    }
    assert(keys_of(row@).take(row@.len() as int) =~= keys_of(row@));
    out
}

// ---------------------------------------------------------------------------
// Findings shared by the inbox and the ledger
// ---------------------------------------------------------------------------

/// Where row `n` (counted from 1) of a table named `kind` is: `kind[n]`.
pub open spec fn place(kind: Seq<char>, n: nat) -> Seq<char> {
    kind + "["@ + decimal(n) + "]"@
}

fn place_string(kind: &str, n: usize) -> (s: String)
    ensures
        s@ == place(kind@, n as nat),
{
    let mut s = String::from_str(kind);
    s.append("[");
    let d = decimal_string(n);
    s.append(d.as_str());
    s.append("]");
    s
}

/// One finding per secret column name of the row.
pub open spec fn secret_findings(w: Seq<char>, names: Seq<Seq<char>>) -> Seq<Finding>
    decreases names.len(),
{
    if names.len() == 0 {
        Seq::empty()
    } else {
        secret_findings(w, names.drop_last()).push((w, "forbidden field "@ + names.last()))
    }
}

/// One finding per required column that the row lacks, in the order of `req`.
pub open spec fn missing_findings(w: Seq<char>, e: Entries, req: Seq<Seq<char>>) -> Seq<Finding>
    decreases req.len(),
{
    if req.len() == 0 {
        Seq::empty()
    } else if has_key(e, req.last()) {
        missing_findings(w, e, req.drop_last())
    } else {
        missing_findings(w, e, req.drop_last()).push((w, "missing "@ + req.last()))
    }
}

fn push_secret_findings(errs: &mut Vec<RowError>, w: &String, row: &Row)
    ensures
        findings(final(errs)@) == findings(old(errs)@) + secret_findings(
            w@,
            secret_names(keys_of(row@)),
        ),
{
    let keys = secret_keys(row);
    let ghost names = secret_names(keys_of(row@));
    let mut i: usize = 0;
    while i < keys.len()
        invariant
            keys@.map_values(|s: String| s@) == names,
            i <= keys.len(),
            findings(errs@) == findings(old(errs)@) + secret_findings(w@, names.take(i as int)),
        decreases keys.len() - i,
    {
        let ghost prev = errs@;
        let mut m = String::from_str("forbidden field ");
        m.append(keys[i].as_str());
        errs.push(RowError { where_: w.clone(), message: m });
        assert(names.take(i + 1).drop_last() =~= names.take(i as int));
        assert(names.take(i + 1).last() == keys@[i as int]@);
        assert(findings(errs@) =~= findings(prev).push((w@, "forbidden field "@ + keys@[i as int]@)));
        assert(findings(errs@) =~= findings(old(errs)@) + secret_findings(w@, names.take(i + 1)));
        i = i + 1;
    }
    assert(names.take(keys.len() as int) =~= names);
}

fn push_missing_findings(errs: &mut Vec<RowError>, w: &String, row: &Row, req: &Vec<&'static str>)
    ensures
        findings(final(errs)@) == findings(old(errs)@) + missing_findings(w@, row@, strs_view(req@)),
{
    let ghost rv = strs_view(req@);
    let mut i: usize = 0;
    while i < req.len()
        invariant
            rv == strs_view(req@),
            i <= req.len(),
            findings(errs@) == findings(old(errs)@) + missing_findings(w@, row@, rv.take(i as int)),
        decreases req.len() - i,
    {
        assert(rv.take(i + 1).drop_last() =~= rv.take(i as int));
        assert(rv.take(i + 1).last() == req[i as int]@);
        let ghost prev = errs@;
        if !row.contains_key(req[i]) {
            let mut m = String::from_str("missing ");
            m.append(req[i]);
            errs.push(RowError { where_: w.clone(), message: m });
            assert(findings(errs@) =~= findings(prev).push((w@, "missing "@ + req@[i as int]@)));
        }
        assert(findings(errs@) =~= findings(old(errs)@) + missing_findings(w@, row@, rv.take(i + 1)));
        i = i + 1;
    }
    assert(rv.take(req.len() as int) =~= rv);
}

// ---------------------------------------------------------------------------
// Ledger
// ---------------------------------------------------------------------------

/// The statuses a ledger row may have.
pub open spec fn known_status(st: Seq<char>) -> bool {
    st == "submitted"@ || st == "paid"@ || st == "rejected"@
}

/// The finding on a ledger row's status: a status that is present, not empty and unknown.
pub open spec fn status_findings(w: Seq<char>, e: Entries) -> Seq<Finding> {
    match value_of(e, "status"@) {
        Some(st) => if st.len() > 0 && !known_status(st) {
            seq![(w, "bad status "@ + st)]
        } else {
            Seq::empty()
        },
        None => Seq::empty(),
    }
}

/// The findings on ledger row `n` (counted from 1): its secret columns, its missing
/// columns, then its status.
pub open spec fn ledger_row_findings(n: nat, e: Entries) -> Seq<Finding> {
    let w = place("ledger"@, n);
    secret_findings(w, secret_names(keys_of(e))) + missing_findings(w, e, required_ledger())
        + status_findings(w, e)
}

/// The findings on a ledger, row by row.
pub open spec fn ledger_findings(rows: Seq<Entries>) -> Seq<Finding>
    decreases rows.len(),
{
    if rows.len() == 0 {
        Seq::empty()
    } else {
        ledger_findings(rows.drop_last()) + ledger_row_findings(rows.len(), rows.last())
    }
}

/// Every finding on the ledger rows: secret column names, missing columns and unknown
/// statuses, row by row.
pub fn validate_ledger(rows: &[Row]) -> (errs: Vec<RowError>)
    ensures
        findings(errs@) == ledger_findings(rows@.map_values(|r: Row| r@)),
{
    let req = required_ledger_names();
    let ghost rv = rows@.map_values(|r: Row| r@);
    let mut errs: Vec<RowError> = Vec::new();
    let mut i: usize = 0;
    while i < rows.len()
        invariant
            strs_view(req@) == required_ledger(),
            rv == rows@.map_values(|r: Row| r@),
            i <= rows.len(),
            findings(errs@) == ledger_findings(rv.take(i as int)),
        decreases rows.len() - i,
    {
        let row = &rows[i];
        let w = place_string("ledger", i + 1);
        let ghost before = findings(errs@);
        push_secret_findings(&mut errs, &w, row);
        push_missing_findings(&mut errs, &w, row, &req);
        let ghost mid = findings(errs@);
        let ghost wv = w@;
        match row.get("status") {
            Some(st) => {
                if !st.as_str().is_empty() {
                    let s = st.clone();
                    let known = s == String::from_str("submitted") || s == String::from_str("paid")
                        || s == String::from_str("rejected");
                    if !known {
                        let mut m = String::from_str("bad status ");
                        m.append(st.as_str());
                        errs.push(RowError { where_: w, message: m });
                    }
                }
            },
            None => {},
        }
        assert(findings(errs@) =~= mid + status_findings(wv, row@));
        proof {
            assert(rv.take(i + 1).drop_last() =~= rv.take(i as int));
            assert(rv.take(i + 1).last() == row@);
        }
        assert(findings(errs@) =~= ledger_findings(rv.take(i + 1)));
        i = i + 1;
    }
    assert(rv.take(rows.len() as int) =~= rv);
    errs
}

// ---------------------------------------------------------------------------
// Inbox
// ---------------------------------------------------------------------------

/// A lower-cased decision that keeps a row open.
pub open spec fn open_decision(d: Seq<char>) -> bool {
    d == ""@ || d == "considering"@ || d == "accepted"@ || d == "in-progress"@
}

/// An open inbox row: it has no decision, or its decision, lower-cased, is empty,
/// `considering`, `accepted` or `in-progress`.
pub open spec fn is_open_row(e: Entries) -> bool {
    match value_of(e, "decision"@) {
        None => true,
        Some(d) => open_decision(lowercase(d)),
    }
}

/// The number of open rows.
pub open spec fn open_count(rows: Seq<Entries>) -> nat
    decreases rows.len(),
{
    if rows.len() == 0 {
        0
    } else {
        open_count(rows.drop_last()) + if is_open_row(rows.last()) {
            1nat
        } else {
            0nat
        }
    }
}

/// The finding on an inbox row's link: a link that is present, not empty, and did not
/// match the link pattern (`link_ok` says whether it matched).
pub open spec fn link_findings(w: Seq<char>, e: Entries, link_ok: bool) -> Seq<Finding> {
    match value_of(e, "link"@) {
        Some(l) => if l.len() > 0 && !link_ok {
            seq![(w, "link must be http(s)"@)]
        } else {
            Seq::empty()
        },
        None => Seq::empty(),
    }
}

/// The findings on inbox row `n` (counted from 1): its secret columns, its missing
/// columns, then its link.
pub open spec fn inbox_row_findings(n: nat, e: Entries, link_ok: bool) -> Seq<Finding> {
    let w = place("inbox"@, n);
    secret_findings(w, secret_names(keys_of(e))) + missing_findings(w, e, required_inbox())
        + link_findings(w, e, link_ok)
}

/// The findings on the inbox rows, row by row; `oks[i]` says whether row `i`'s link matched.
pub open spec fn inbox_rows_findings(rows: Seq<Entries>, oks: Seq<bool>) -> Seq<Finding>
    decreases rows.len(),
{
    if rows.len() == 0 {
        Seq::empty()
    } else {
        inbox_rows_findings(rows.drop_last(), oks) + inbox_row_findings(
            rows.len(),
            rows.last(),
            oks[rows.len() - 1],
        )
    }
}

/// The finding on the whole inbox: more open rows than the cap allows.
pub open spec fn cap_findings(count: nat) -> Seq<Finding> {
    if count > MAX_OPEN_INBOX {
        seq![
            (
                "inbox"@,
                "max "@ + decimal(MAX_OPEN_INBOX as nat) + " open rows, have "@ + decimal(count),
            ),
        ]
    } else {
        Seq::empty()
    }
}

/// Every finding on an inbox whose link checks came out as `oks`.
pub open spec fn inbox_findings(rows: Seq<Entries>, oks: Seq<bool>) -> Seq<Finding> {
    inbox_rows_findings(rows, oks) + cap_findings(open_count(rows))
}

/// Whether each row's link starts with `http://` or `https://`, the links that the
/// pattern `^https?://` matches (a row without a link: no).
pub open spec fn link_matches(rows: Seq<Entries>) -> Seq<bool> {
    Seq::new(
        rows.len(),
        |i: int|
            match value_of(rows[i], "link"@) {
                Some(l) => starts_http(l),
                None => false,
            },
    )
}

fn is_open(row: &Row) -> (b: bool)
    ensures
        b == is_open_row(row@),
{
    match row.get("decision") {
        None => true,
        Some(d) => {
            let lower = to_lowercase(d.as_str());
            let lv = chars_of(lower.as_str());
            let l = lv.as_slice();
            chars_eq(l, chars_of("").as_slice()) || chars_eq(l, chars_of("considering").as_slice())
                || chars_eq(l, chars_of("accepted").as_slice()) || chars_eq(
                l,
                chars_of("in-progress").as_slice(),
            )
        },
    }
}

/// The inbox findings, given for each row whether its link matched the link pattern:
/// for each row its secret column names, its missing columns and a non-empty link that
/// did not match; then, when more than `MAX_OPEN_INBOX` rows are open, one finding on
/// the whole inbox.
pub fn inbox_errors(rows: &[Row], link_ok: &[bool]) -> (errs: Vec<RowError>)
    requires
        link_ok.len() == rows.len(),
    ensures
        findings(errs@) == inbox_findings(rows@.map_values(|r: Row| r@), link_ok@),
{
    let req = required_inbox_names();
    let ghost rv = rows@.map_values(|r: Row| r@);
    let mut errs: Vec<RowError> = Vec::new();
    let mut open: usize = 0;
    let mut i: usize = 0;
    while i < rows.len()
        invariant
            strs_view(req@) == required_inbox(),
            rv == rows@.map_values(|r: Row| r@),
            link_ok.len() == rows.len(),
            i <= rows.len(),
            open <= i,
            open == open_count(rv.take(i as int)),
            findings(errs@) == inbox_rows_findings(rv.take(i as int), link_ok@),
        decreases rows.len() - i,
    {
        let row = &rows[i];
        let w = place_string("inbox", i + 1);
        push_secret_findings(&mut errs, &w, row);
        push_missing_findings(&mut errs, &w, row, &req);
        let ghost mid = findings(errs@);
        let ghost wv = w@;
        match row.get("link") {
            Some(l) => {
                if !l.as_str().is_empty() && !link_ok[i] {
                    errs.push(
                        RowError { where_: w, message: String::from_str("link must be http(s)") },
                    );
                }
            },
            None => {},
        }
        assert(findings(errs@) =~= mid + link_findings(wv, row@, link_ok@[i as int]));
        if is_open(row) {
            open = open + 1;
        }
        proof {
            assert(rv.take(i + 1).drop_last() =~= rv.take(i as int));
            assert(rv.take(i + 1).last() == row@);
        }
        assert(findings(errs@) =~= inbox_rows_findings(rv.take(i + 1), link_ok@));
        i = i + 1;
    }
    assert(rv.take(rows.len() as int) =~= rv);
    if open > MAX_OPEN_INBOX {
        let mut m = String::from_str("max ");
        let cap = decimal_string(MAX_OPEN_INBOX);
        m.append(cap.as_str());
        m.append(" open rows, have ");
        let have = decimal_string(open);
        m.append(have.as_str());
        errs.push(RowError { where_: String::from_str("inbox"), message: m });
    }
    assert(findings(errs@) =~= inbox_findings(rv, link_ok@));
    errs
}

/// Every finding on the inbox rows: secret column names, missing columns, links that are
/// not http(s), and more than `MAX_OPEN_INBOX` open rows. Links are checked with the
/// regular expression `^https?://`, which matches the links that start with `http://` or
/// `https://`.
pub fn validate_inbox(rows: &[Row]) -> (errs: Vec<RowError>)
    ensures
        findings(errs@) == inbox_findings(
            rows@.map_values(|r: Row| r@),
            link_matches(rows@.map_values(|r: Row| r@)),
        ),
{
    let http = match compile("^https?://") {
        Ok(m) => m,
        Err(_) => {
            assert(false);
            return Vec::new();
        },
    };
    let ghost rv = rows@.map_values(|r: Row| r@);
    let mut oks: Vec<bool> = Vec::new();
    let mut i: usize = 0;
    while i < rows.len()
        invariant
            http@ == http_pattern(),
            rv == rows@.map_values(|r: Row| r@),
            i <= rows.len(),
            oks.len() == i,
            forall|j: int| 0 <= j < i ==> oks@[j] == #[trigger] link_matches(rv)[j],
        decreases rows.len() - i,
    {
        let ok = match rows[i].get("link") {
            Some(l) => is_match(&http, l.as_str()),
            None => false,
        };
        oks.push(ok);
        i = i + 1;
    }
    assert(oks@ =~= link_matches(rv));
    inbox_errors(rows, oks.as_slice())
}

// ---------------------------------------------------------------------------
// Proposal
// ---------------------------------------------------------------------------

/// The token of a heading line: for a line that, trimmed, starts with `#`, the first
/// whitespace-separated word of its title (the rest after the leading `#`s, trimmed and
/// lower-cased). Other lines, and headings with an empty title, have none.
pub open spec fn heading_token(line: Seq<char>) -> Option<Seq<char>> {
    let l = trim(line);
    if l.len() > 0 && l[0] == '#' {
        first_word(lowercase(trim(strip_start(l, '#'))))
    } else {
        None
    }
}

/// The tokens of the headings among the first `k` lines.
pub open spec fn tokens_upto(ls: Seq<Seq<char>>, k: int) -> Set<Seq<char>> {
    Set::new(|t: Seq<char>| exists|i: int| 0 <= i < k && heading_token(ls[i]) == Some(t))
}

/// The tokens of all the headings of a text.
pub open spec fn heading_set(text: Seq<char>) -> Set<Seq<char>> {
    tokens_upto(lines(text), lines(text).len() as int)
}

/// One finding per heading of `hs` whose token is not present, in the order of `hs`.
pub open spec fn heading_findings(present: Set<Seq<char>>, hs: Seq<Seq<char>>) -> Seq<Finding>
    decreases hs.len(),
{
    if hs.len() == 0 {
        Seq::empty()
    } else if present.contains(hs.last()) {
        heading_findings(present, hs.drop_last())
    } else {
        heading_findings(present, hs.drop_last()).push(("proposal"@, "missing heading "@ + hs.last()))
    }
}

/// The finding on a proposal that mentions `private_key`, in any case.
pub open spec fn key_text_findings(text: Seq<char>) -> Seq<Finding> {
    if contains_seq(lowercase(text), "private_key"@) {
        seq![("proposal"@, "looks like it contains a private_key"@)]
    } else {
        Seq::empty()
    }
}

/// Every finding on a proposal.
pub open spec fn proposal_findings(text: Seq<char>) -> Seq<Finding> {
    heading_findings(heading_set(text), proposal_headings()) + key_text_findings(text)
}

/// The first whitespace-separated word of `w`.
fn first_word_of(w: &Vec<char>) -> (r: Option<String>)
    ensures
        match r {
            Some(s) => first_word(w@) == Some(s@),
            None => first_word(w@) is None,
        },
{
    let (a, n) = trim_start_span(w, 0, w.len());
    assert(w@.subrange(0, w.len() as int) =~= w@);
    let ghost t = w@.subrange(a as int, n as int);
    if a == n {
        return None;
    }
    let mut j = a;
    while j < n && !is_ws_exec(w[j])
        invariant
            a <= j <= n <= w.len(),
            t == w@.subrange(a as int, n as int),
            word_end(t, 0) == word_end(t, j - a),
        decreases n - j,
    {
        assert(t[j - a] == w@[j as int]);
        j = j + 1;
    }
    proof {
        if j < n {
            assert(t[j - a] == w@[j as int]);
        }
        assert(t.take(j - a) =~= w@.subrange(a as int, j as int));
    }
    Some(string_from_chars(vstd::slice::slice_subrange(w.as_slice(), a, j)))
}

/// Whether `v` holds a string equal to `s`.
fn has_string(v: &Vec<String>, s: &String) -> (b: bool)
    ensures
        b == strings_view(v@).contains(s@),
{
    let mut i: usize = 0;
    while i < v.len()
        invariant
            i <= v.len(),
            forall|j: int| 0 <= j < i ==> (#[trigger] v@[j])@ != s@,
        decreases v.len() - i,
    {
        if v[i] == *s {
            assert(strings_view(v@)[i as int] == s@);
            return true;
        }
        i = i + 1;
    }
    proof {
        if strings_view(v@).contains(s@) {
            let j = choose|j: int| 0 <= j < strings_view(v@).len() && strings_view(v@)[j] == s@;
            assert(v@[j]@ == s@);
        }
    }
    false
}

/// The heading token of the line `v[sp]`.
fn line_heading_token(v: &Vec<char>, sp: (usize, usize)) -> (r: Option<String>)
    requires
        span_in(sp, 0, v.len() as int),
    ensures
        match r {
            Some(s) => heading_token(span_of(v@, sp)) == Some(s@),
            None => heading_token(span_of(v@, sp)) is None,
        },
{
    let (a, b) = trim_span(v, sp.0, sp.1);
    if a < b && v[a] == '#' {
        let (c, _) = strip_start_span(v, a, b, '#');
        let (x, y) = trim_span(v, c, b);
        assert(v@.subrange(a as int, b as int)[0] == v@[a as int]);
        let title = string_from_chars(vstd::slice::slice_subrange(v.as_slice(), x, y));
        let lower = to_lowercase(title.as_str());
        let lv = chars_of(lower.as_str());
        first_word_of(&lv)
    } else {
        None
    }
}

/// The set of heading tokens of `text`: for each line that, trimmed, starts with `#`, the
/// first word of its lower-cased title. Each token occurs once, so `## dont` gives `dont`
/// and never `do`.
pub fn heading_tokens(text: &str) -> (found: Vec<String>)
    ensures
        strings_view(found@).to_set() == heading_set(text@),
        strings_view(found@).no_duplicates(),
{
    let v = chars_of(text);
    let spans = line_spans(&v);
    let ghost all = lines(v@);
    let mut found: Vec<String> = Vec::new();
    let mut k: usize = 0;
    assert(strings_view(found@).to_set() =~= tokens_upto(all, 0));
    while k < spans.len()
        invariant
            k <= spans.len(),
            spans.len() == all.len(),
            all == lines(v@),
            forall|j: int|
                0 <= j < spans.len() ==> span_in(#[trigger] spans@[j], 0, v.len() as int)
                    && span_of(v@, spans@[j]) == all[j],
            strings_view(found@).to_set() == tokens_upto(all, k as int),
            strings_view(found@).no_duplicates(),
        decreases spans.len() - k,
    {
        let ghost before = strings_view(found@);
        match line_heading_token(&v, spans[k]) {
            Some(t) => {
                let ghost tv = t@;
                proof {
                    assert(span_of(v@, spans@[k as int]) == all[k as int]);
                    assert forall|x: Seq<char>|
                        tokens_upto(all, k + 1).contains(x) == (tokens_upto(all, k as int).contains(x)
                            || x == tv) by {
                        if x == tv {
                            assert(heading_token(all[k as int]) == Some(x));
                        }
                        if tokens_upto(all, k + 1).contains(x) {
                            let i = choose|i: int| 0 <= i < k + 1 && heading_token(all[i]) == Some(x);
                            if i < k {
                                assert(tokens_upto(all, k as int).contains(x));
                            }
                        }
                    }
                }
                if !has_string(&found, &t) {
                    found.push(t);
                    proof {
                        assert(strings_view(found@) =~= before.push(tv));
                        assert forall|x: int, y: int|
                            0 <= x < y < strings_view(found@).len() implies strings_view(found@)[x]
                            != strings_view(found@)[y] by {
                            if y == before.len() {
                                assert(before[x] == strings_view(found@)[x]);
                                assert(before.contains(before[x]));
                            }
                        }
                        assert forall|x: Seq<char>|
                            strings_view(found@).contains(x) == (before.contains(x) || x == tv) by {
                            if strings_view(found@).contains(x) && x != tv {
                                let j = choose|j: int|
                                    0 <= j < strings_view(found@).len() && strings_view(found@)[j] == x;
                                assert(before[j] == x);
                            }
                            if before.contains(x) {
                                let j = choose|j: int| 0 <= j < before.len() && before[j] == x;
                                assert(strings_view(found@)[j] == x);
                            }
                            if x == tv {
                                assert(strings_view(found@)[before.len() as int] == x);
                            }
                        }
                    }
                } else {
                    assert(before.contains(tv));
                }
                assert forall|x: Seq<char>|
                    strings_view(found@).to_set().contains(x) == tokens_upto(all, k + 1).contains(x) by {
                    assert(before.to_set().contains(x) == tokens_upto(all, k as int).contains(x));
                    assert(before.to_set().contains(x) == before.contains(x));
                }
                assert(strings_view(found@).to_set() =~= tokens_upto(all, k + 1));
            },
            None => {
                assert(strings_view(found@).to_set() =~= tokens_upto(all, k + 1));
            },
        }
        k = k + 1;
    }
    found
}

/// A new proposal: a title and the five required headings, each with an empty section.
pub fn proposal_template() -> (s: &'static str)
    ensures
        s@ == "# proposal\n\n## problem\n\n## do\n\n## dont\n\n## demo\n\n## milestones\n\n"@,
{
    "# proposal\n\n## problem\n\n## do\n\n## dont\n\n## demo\n\n## milestones\n\n"
}

/// Every finding on a proposal: one per required heading (`problem`, `do`, `dont`,
/// `demo`, `milestones`) that is not a heading token of the text, then one when the text
/// mentions `private_key` in any case.
pub fn validate_proposal(text: &str) -> (errs: Vec<RowError>)
    ensures
        findings(errs@) == proposal_findings(text@),
{
    let present = heading_tokens(text);
    let hs = proposal_heading_names();
    let ghost hv = strs_view(hs@);
    let ghost pset = heading_set(text@);
    let mut errs: Vec<RowError> = Vec::new();
    let mut i: usize = 0;
    while i < hs.len()
        invariant
            hv == strs_view(hs@),
            hv == proposal_headings(),
            strings_view(present@).to_set() == pset,
            i <= hs.len(),
            findings(errs@) == heading_findings(pset, hv.take(i as int)),
        decreases hs.len() - i,
    {
        let h = String::from_str(hs[i]);
        assert(hv.take(i + 1).drop_last() =~= hv.take(i as int));
        assert(hv.take(i + 1).last() == h@);
        let there = has_string(&present, &h);
        assert(there == pset.contains(h@));
        if !there {
            let mut m = String::from_str("missing heading ");
            m.append(hs[i]);
            errs.push(RowError { where_: String::from_str("proposal"), message: m });
        }
        assert(findings(errs@) =~= heading_findings(pset, hv.take(i + 1)));
        i = i + 1;
    }
    assert(hv.take(hs.len() as int) =~= hv);
    let lower = to_lowercase(text);
    let lv = chars_of(lower.as_str());
    let needle = chars_of("private_key");
    if contains_chars(lv.as_slice(), needle.as_slice()) {
        errs.push(
            RowError {
                where_: String::from_str("proposal"),
                message: String::from_str("looks like it contains a private_key"),
            },
        );
    }
    assert(findings(errs@) =~= proposal_findings(text@));
    errs
}

// ---------------------------------------------------------------------------
// Adding rows
// ---------------------------------------------------------------------------

/// What came of adding a row to a table text.
pub enum AddOutcome {
    /// The rows, the new one included, have no finding: the new text.
    Added(String),
    /// The findings on the rows, the new one included; the text stays as it was.
    Refused(Vec<RowError>),
}

fn names_to_strings(v: &Vec<&'static str>) -> (r: Vec<String>)
    ensures
        strings_view(r@) == strs_view(v@),
{
    let mut r: Vec<String> = Vec::new();
    let mut i: usize = 0;
    while i < v.len()
        invariant
            i <= v.len(),
            r.len() == i,
            forall|j: int| 0 <= j < i ==> (#[trigger] r@[j])@ == v@[j]@,
        decreases v.len() - i,
    {
        r.push(String::from_str(v[i]));
        i = i + 1;
    }
    assert(strings_view(r@) =~= strs_view(v@));
    r
}

/// The inbox rows of `text` with the row of `cells` under the inbox columns added.
pub open spec fn inbox_after_add(text: Seq<char>, cells: Seq<Seq<char>>) -> Seq<Entries> {
    parse_table(text).push(zip_row(required_inbox(), cells))
}

/// The ledger rows of `text` with the row of `cells` under the ledger columns added.
pub open spec fn ledger_after_add(text: Seq<char>, cells: Seq<Seq<char>>) -> Seq<Entries> {
    parse_table(text).push(zip_row(required_ledger(), cells))
}

/// Adds an inbox row whose cells are `cells`, in the order of the inbox columns
/// (opened, platform, title, link, amount, due, isomorphic, decision), to the inbox text
/// `text`. The rows of the text with the new row are validated; without a finding the
/// new text is `text`, ended by a line feed, with the row's table line appended.
pub fn add_inbox_row(text: &str, cells: &Vec<String>) -> (res: AddOutcome)
    requires
        cells.len() == 8,
    ensures
        ({
            let rows = inbox_after_add(text@, strings_view(cells@));
            let f = inbox_findings(rows, link_matches(rows));
            match res {
                AddOutcome::Added(s) => f.len() == 0 && s@ == with_newline(text@) + row_line(
                    strings_view(cells@),
                ),
                AddOutcome::Refused(errs) => f.len() > 0 && findings(errs@) == f,
            }
        }),
{
    let mut rows = parse_md_table(text);
    let headers = names_to_strings(&required_inbox_names());
    let row = row_from_cells(&headers, cells);
    rows.push(row);
    assert(rows_view(rows@) =~= inbox_after_add(text@, strings_view(cells@)));
    let errs = validate_inbox(rows.as_slice());
    if errs.len() == 0 {
        AddOutcome::Added(append_row(text, cells))
    } else {
        AddOutcome::Refused(errs)
    }
}

/// Adds a ledger row whose cells are `cells`, in the order of the ledger columns
/// (date, platform, title, link, status, amount), to the ledger text `text`. The rows
/// of the text with the new row are validated; without a finding the new text is
/// `text`, ended by a line feed, with the row's table line appended.
pub fn add_ledger_row(text: &str, cells: &Vec<String>) -> (res: AddOutcome)
    requires
        cells.len() == 6,
    ensures
        ({
            let f = ledger_findings(ledger_after_add(text@, strings_view(cells@)));
            match res {
                AddOutcome::Added(s) => f.len() == 0 && s@ == with_newline(text@) + row_line(
                    strings_view(cells@),
                ),
                AddOutcome::Refused(errs) => f.len() > 0 && findings(errs@) == f,
            }
        }),
{
    let mut rows = parse_md_table(text);
    let headers = names_to_strings(&required_ledger_names());
    let row = row_from_cells(&headers, cells);
    rows.push(row);
    assert(rows_view(rows@) =~= ledger_after_add(text@, strings_view(cells@)));
    let errs = validate_ledger(rows.as_slice());
    if errs.len() == 0 {
        AddOutcome::Added(append_row(text, cells))
    } else {
        AddOutcome::Refused(errs)
    }
}

} // verus!
