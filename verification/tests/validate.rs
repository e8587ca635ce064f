use bountydesk::table::{append_row, row_from_cells, table_line};
use bountydesk::validate::{
    norm,
    add_inbox_row, add_ledger_row, empty_inbox, empty_ledger, heading_tokens, inbox_errors,
    parse_md_table, proposal_template, secret_keys, validate_inbox, validate_ledger,
    validate_proposal, AddOutcome, RowError, Row, MAX_OPEN_INBOX,
};

fn row(pairs: &[(&str, &str)]) -> Row {
    let mut r = Row::new();
    for (k, v) in pairs {
        r.insert(k.to_string(), v.to_string());
    }
    r
}

fn inbox_row(title: &str, decision: &str) -> Row {
    row(&[
        ("opened", "2026-08-18"),
        ("platform", "gitcoin"),
        ("title", title),
        ("link", "https://example.com"),
        ("amount", "1"),
        ("due", "x"),
        ("isomorphic", "yes"),
        ("decision", decision),
    ])
}

fn messages(errs: &[RowError]) -> Vec<String> {
    errs.iter().map(|e| e.message.clone()).collect()
}

fn strings(v: &[&str]) -> Vec<String> {
    v.iter().map(|s| s.to_string()).collect()
}

#[test]
fn max_three_open() {
    let mut rows = Vec::new();
    for i in 0..4 {
        let mut r = Row::new();
        r.insert("opened".into(), "2026-08-18".into());
        r.insert("platform".into(), "gitcoin".into());
        r.insert("title".into(), format!("t{i}"));
        r.insert("link".into(), "https://example.com".into());
        r.insert("amount".into(), "1".into());
        r.insert("due".into(), "x".into());
        r.insert("isomorphic".into(), "yes".into());
        r.insert("decision".into(), "considering".into());
        rows.push(r);
    }
    let errs = validate_inbox(&rows);
    assert!(errs.iter().any(|e| e.message.contains("max 3")));
}

#[test]
fn missing_do_not_satisfied_by_dont() {
    let text = "## problem\nbody\n## dont\nno keys\n## demo\nlink\n## milestones\none\n";
    let errs = validate_proposal(text);
    assert!(errs.iter().any(|e| e.message == "missing heading do"));
    assert!(!errs.iter().any(|e| e.message.contains("missing heading dont")));
}

#[test]
fn full_proposal_has_no_finding() {
    let text = "# proposal\n\n## problem\nx\n\n## do\ny\n\n## dont\nz\n\n## demo\nd\n\n## milestones\nm\n";
    assert!(validate_proposal(text).is_empty());
}

#[test]
fn cap_message_is_exact() {
    let rows: Vec<Row> = (0..5).map(|i| inbox_row(&format!("t{i}"), "considering")).collect();
    let errs = validate_inbox(&rows);
    assert_eq!(errs.len(), 1);
    assert_eq!(errs[0].where_, "inbox");
    assert_eq!(errs[0].message, "max 3 open rows, have 5");
    assert_eq!(MAX_OPEN_INBOX, 3);
}

#[test]
fn three_open_rows_are_allowed() {
    let mut rows: Vec<Row> = (0..3).map(|i| inbox_row(&format!("t{i}"), "accepted")).collect();
    rows.push(inbox_row("done", "declined"));
    rows.push(inbox_row("closed", "Rejected"));
    assert!(validate_inbox(&rows).is_empty());
}

#[test]
fn decision_is_compared_lowercased_and_missing_counts_open() {
    let mut rows: Vec<Row> = vec![
        inbox_row("a", "IN-PROGRESS"),
        inbox_row("b", ""),
        inbox_row("c", "Considering"),
    ];
    let mut no_decision = Row::new();
    for (k, v) in [("opened", "o"), ("platform", "p"), ("title", "t"), ("link", ""), ("amount", "1"), ("due", "d"), ("isomorphic", "yes")] {
        no_decision.insert(k.to_string(), v.to_string());
    }
    rows.push(no_decision);
    let errs = validate_inbox(&rows);
    assert_eq!(
        messages(&errs),
        vec!["missing decision".to_string(), "max 3 open rows, have 4".to_string()]
    );
    assert_eq!(errs[0].where_, "inbox[4]");
}

#[test]
fn inbox_link_must_be_http() {
    let mut r = inbox_row("t", "passed");
    r.insert("link".into(), "ftp://example.com".into());
    let rows = vec![r, inbox_row("u", "passed")];
    let errs = validate_inbox(&rows);
    assert_eq!(errs.len(), 1);
    assert_eq!(errs[0].where_, "inbox[1]");
    assert_eq!(errs[0].message, "link must be http(s)");
    assert_eq!(errs[0].describe(), "inbox[1]: link must be http(s)");
}

#[test]
fn inbox_errors_follow_the_given_link_checks() {
    let rows = vec![inbox_row("a", "no"), inbox_row("b", "no")];
    let errs = inbox_errors(&rows, &[true, false]);
    assert_eq!(errs.len(), 1);
    assert_eq!(errs[0].where_, "inbox[2]");
    assert_eq!(errs[0].message, "link must be http(s)");
}

#[test]
fn inbox_missing_columns_in_order() {
    let rows = vec![row(&[("title", "x"), ("decision", "no")])];
    let errs = validate_inbox(&rows);
    assert_eq!(
        messages(&errs),
        strings(&["missing opened", "missing platform", "missing link", "missing amount", "missing due", "missing isomorphic"])
    );
    assert!(errs.iter().all(|e| e.where_ == "inbox[1]"));
}

#[test]
fn forbidden_fields_are_reported() {
    let mut r = inbox_row("t", "no");
    r.insert("Private-Key".into(), "".into());
    r.insert("my SEED".into(), "x".into());
    r.insert("wifi".into(), "y".into());
    r.insert("notes".into(), "z".into());
    let errs = validate_inbox(&[r]);
    assert_eq!(
        messages(&errs),
        strings(&["forbidden field my SEED", "forbidden field wifi"])
    );
    let mut l = row(&[("date", "d"), ("platform", "p"), ("title", "t"), ("link", "l"), ("status", "paid"), ("amount", "1")]);
    l.insert("secret_key".into(), "k".into());
    l.insert("privkey2".into(), "k".into());
    let errs = validate_ledger(&[l]);
    assert_eq!(
        messages(&errs),
        strings(&["forbidden field secret_key", "forbidden field privkey2"])
    );
    assert_eq!(errs[0].where_, "ledger[1]");
}

#[test]
fn ledger_status_rules() {
    let ok = row(&[("date", "d"), ("platform", "p"), ("title", "t"), ("link", "l"), ("status", "submitted"), ("amount", "1")]);
    let empty = row(&[("date", "d"), ("platform", "p"), ("title", "t"), ("link", "l"), ("status", ""), ("amount", "1")]);
    let bad = row(&[("date", "d"), ("platform", "p"), ("title", "t"), ("link", "l"), ("status", "Paid"), ("amount", "1")]);
    let missing = row(&[("date", "d"), ("title", "t")]);
    let errs = validate_ledger(&[ok, empty, bad, missing]);
    assert_eq!(
        errs,
        vec![
            RowError { where_: "ledger[3]".into(), message: "bad status Paid".into() },
            RowError { where_: "ledger[4]".into(), message: "missing platform".into() },
            RowError { where_: "ledger[4]".into(), message: "missing link".into() },
            RowError { where_: "ledger[4]".into(), message: "missing status".into() },
            RowError { where_: "ledger[4]".into(), message: "missing amount".into() },
        ]
    );
}

#[test]
fn row_numbers_past_nine() {
    let rows: Vec<Row> = (0..12).map(|_| row(&[("date", "d"), ("platform", "p"), ("title", "t"), ("link", "l"), ("status", "paid")])).collect();
    let errs = validate_ledger(&rows);
    assert_eq!(errs.len(), 12);
    assert_eq!(errs[11].where_, "ledger[12]");
    assert_eq!(errs[9].message, "missing amount");
}

#[test]
fn parse_table_basic() {
    let text = "# T\n\nintro\n| a | b |\n|---|---|\n| 1 | 2 |\n|  |  |\n| only |\n  | x |  y |\r\ntrailing\n";
    let rows = parse_md_table(text);
    assert_eq!(rows.len(), 2);
    assert_eq!(rows[0].get("a").map(|s| s.as_str()), Some("1"));
    assert_eq!(rows[0].get("b").map(|s| s.as_str()), Some("2"));
    assert_eq!(rows[1].get("a").map(|s| s.as_str()), Some("x"));
    assert_eq!(rows[1].get("b").map(|s| s.as_str()), Some("y"));
    assert_eq!(rows[1].get("c"), None);
    assert!(rows[0].contains_key("a"));
    assert!(!rows[0].contains_key("c"));
}

#[test]
fn parse_table_needs_two_lines() {
    assert!(parse_md_table("").is_empty());
    assert!(parse_md_table("| a | b |\n").is_empty());
    assert!(parse_md_table("| a | b |\n|---|---|\n").is_empty());
    assert!(parse_md_table(empty_inbox()).is_empty());
    assert!(parse_md_table(empty_ledger()).is_empty());
}

#[test]
fn parse_table_repeated_header_keeps_last_cell() {
    let rows = parse_md_table("|k|k|j|\n|-|-|-|\n|1|2|3|\n");
    assert_eq!(rows.len(), 1);
    assert_eq!(rows[0].len(), 2);
    assert_eq!(rows[0].get("k").map(|s| s.as_str()), Some("2"));
    let (k0, v0) = rows[0].entry(0);
    assert_eq!((k0.as_str(), v0.as_str()), ("k", "2"));
    let (k1, v1) = rows[0].entry(1);
    assert_eq!((k1.as_str(), v1.as_str()), ("j", "3"));
}

#[test]
fn parse_table_without_final_newline_and_empty_cells() {
    assert!(parse_md_table("| a | b | c |\n|---|---|---|\n|| x ||").is_empty());
    let rows = parse_md_table("| a | b | c |\n|---|---|---|\n|  | x |  |");
    assert_eq!(rows.len(), 1);
    assert_eq!(rows[0].get("b").map(|s| s.as_str()), Some("x"));
    assert_eq!(rows[0].get("a").map(|s| s.as_str()), Some(""));
}

#[test]
fn heading_tokens_are_first_words() {
    let mut t = heading_tokens("# Proposal Draft\n## DO this\n### dont\n#\n#   \nnot # heading\n  ## Demo  \n## do\n");
    t.sort();
    assert_eq!(t, strings(&["demo", "do", "dont", "proposal"]));
}

#[test]
fn proposal_private_key_any_case() {
    let text = "## problem\n## do\n## dont\n## demo\n## milestones\nmy PRIVATE_KEY is here\n";
    let errs = validate_proposal(text);
    assert_eq!(errs.len(), 1);
    assert_eq!(errs[0].where_, "proposal");
    assert_eq!(errs[0].message, "looks like it contains a private_key");
}

#[test]
fn proposal_reports_every_missing_heading() {
    let errs = validate_proposal("no headings at all\n");
    assert_eq!(
        messages(&errs),
        strings(&[
            "missing heading problem",
            "missing heading do",
            "missing heading dont",
            "missing heading demo",
            "missing heading milestones"
        ])
    );
}

fn added(out: AddOutcome) -> String {
    match out {
        AddOutcome::Added(s) => s,
        AddOutcome::Refused(errs) => panic!("refused: {:?}", errs),
    }
}

#[test]
fn add_rows_until_cap() {
    let first = strings(&["2026-08-18", "gitcoin", "chaintail-docs", "https://gitcoin.co/x", "500", "2026-09-01", "yes", "considering"]);
    let mut text = added(add_inbox_row(empty_inbox(), &first));
    assert!(text.ends_with("| 2026-08-18 | gitcoin | chaintail-docs | https://gitcoin.co/x | 500 | 2026-09-01 | yes | considering |\n"));
    let rows = parse_md_table(&text);
    assert_eq!(rows.len(), 1);
    assert_eq!(rows[0].get("title").map(|s| s.as_str()), Some("chaintail-docs"));
    for i in 0..2 {
        let cells = strings(&["2026-08-18", "x", &format!("extra{i}"), "https://x.test", "1", "d", "yes", "considering"]);
        text = added(add_inbox_row(&text, &cells));
    }
    assert_eq!(parse_md_table(&text).len(), 3);
    let cells = strings(&["2026-08-18", "x", "too-many", "https://x.test", "1", "d", "yes", "considering"]);
    match add_inbox_row(&text, &cells) {
        AddOutcome::Added(_) => panic!("a fourth open row was accepted"),
        AddOutcome::Refused(errs) => {
            assert!(errs.iter().any(|e| e.message.contains("max 3")));
        }
    }
}

#[test]
fn add_ledger_rows() {
    let text = added(add_ledger_row("no newline", &strings(&["d", "p", "t", "l", "paid", "5"])));
    assert_eq!(text, "no newline\n| d | p | t | l | paid | 5 |\n");
    let text = added(add_ledger_row(empty_ledger(), &strings(&["d", "p", "t", "l", "paid", "5"])));
    let rows = parse_md_table(&text);
    assert_eq!(rows.len(), 1);
    assert_eq!(rows[0].get("amount").map(|s| s.as_str()), Some("5"));
    match add_ledger_row(&text, &strings(&["d", "p", "t", "l", "lost", "5"])) {
        AddOutcome::Added(_) => panic!("bad status accepted"),
        AddOutcome::Refused(errs) => assert_eq!(messages(&errs), strings(&["bad status lost"])),
    }
}

#[test]
fn template_proposal_has_no_finding() {
    assert!(validate_proposal(proposal_template()).is_empty());
}

#[test]
fn appended_row_is_read_back_after_a_bare_carriage_return() {
    let text = "| a | b |\n|---|---|\n| 1 | 2 |\r";
    let cells = strings(&["x", "y"]);
    let new_text = append_row(text, &cells);
    assert_eq!(new_text, "| a | b |\n|---|---|\n| 1 | 2 |\r\n| x | y |\n");
    let rows = parse_md_table(&new_text);
    assert_eq!(rows.len(), 2);
    assert_eq!(rows[0].get("b").map(|s| s.as_str()), Some("2"));
    assert_eq!(rows[1].get("a").map(|s| s.as_str()), Some("x"));
    assert_eq!(table_line(&strings(&["", "q"])), "|  | q |\n");
}

#[test]
fn row_helpers() {
    let r = row_from_cells(&strings(&["a", "b", "a"]), &strings(&["1", "", "3"]));
    assert_eq!(r.len(), 2);
    assert_eq!(r.get("a").map(|s| s.as_str()), Some("3"));
    assert!(!r.all_empty());
    assert!(row_from_cells(&strings(&["a"]), &strings(&[""])).all_empty());
    let s = row(&[("Mnemonic", "w"), ("ok", "x"), ("SEED_phrase", "y")]);
    assert_eq!(secret_keys(&s), strings(&["Mnemonic", "SEED_phrase"]));
}

#[test]
fn heading_tokens_lowercase_beyond_ascii() {
    let t = heading_tokens("## ÄRGER\u{3000}und mehr\n");
    assert_eq!(t, strings(&["ärger"]));
}

fn entries(rows: &[Row]) -> Vec<Vec<(String, String)>> {
    rows.iter()
        .map(|r| (0..r.len()).map(|i| { let (k, v) = r.entry(i); (k.clone(), v.clone()) }).collect())
        .collect()
}

#[test]
fn line_before_table_changes_nothing() {
    let text = "| a | b |\n|---|---|\n| 1 | 2 |\n";
    let with = format!("no pipe here | at all\r\n{text}");
    assert_eq!(entries(&parse_md_table(&with)), entries(&parse_md_table(text)));
}

#[test]
fn any_table_line_is_read_back() {
    let text = "| a | b |\n|---|---|\n| 1 | 2 |";
    let with = format!("{text}\n   |x|  y  |\r\n");
    let rows = parse_md_table(&with);
    assert_eq!(
        entries(&rows),
        vec![
            vec![("a".to_string(), "1".to_string()), ("b".to_string(), "2".to_string())],
            vec![("a".to_string(), "x".to_string()), ("b".to_string(), "y".to_string())],
        ]
    );
}

#[test]
fn clean_closed_row_adds_no_finding() {
    let rows: Vec<Row> = (0..4).map(|i| inbox_row(&format!("t{i}"), "considering")).collect();
    let before = validate_inbox(&rows);
    let mut more = rows.clone_rows();
    more.push(inbox_row("done", "declined"));
    assert_eq!(validate_inbox(&more), before);
}

trait CloneRows {
    fn clone_rows(&self) -> Vec<Row>;
}

impl CloneRows for Vec<Row> {
    fn clone_rows(&self) -> Vec<Row> {
        self.iter()
            .map(|r| {
                let mut c = Row::new();
                for i in 0..r.len() {
                    let (k, v) = r.entry(i);
                    c.insert(k.clone(), v.clone());
                }
                c
            })
            .collect()
    }
}

#[test]
fn joined_ledgers_are_renumbered() {
    let a = vec![row(&[("date", "d")]), row(&[("status", "odd")])];
    let b = vec![row(&[("pri-vate_KEY", "x"), ("date", "d"), ("platform", "p"), ("title", "t"), ("link", "l"), ("status", "paid"), ("amount", "1")])];
    let mut ab = a.clone_rows();
    ab.extend(b.clone_rows());
    let mut expected = validate_ledger(&a);
    for e in validate_ledger(&b) {
        assert_eq!(e.where_, "ledger[1]");
        expected.push(RowError { where_: "ledger[3]".into(), message: e.message });
    }
    assert_eq!(validate_ledger(&ab), expected);
    assert_eq!(expected.last().unwrap().message, "forbidden field pri-vate_KEY");
}

#[test]
fn joined_texts_have_both_heading_sets() {
    let a = "# One\ntext\n## two words";
    let b = "## Three\r\n#\n";
    let mut joined = heading_tokens(&format!("{a}\n{b}"));
    joined.sort();
    let mut both = heading_tokens(a);
    both.extend(heading_tokens(b));
    both.sort();
    assert_eq!(joined, both);
    assert_eq!(joined, strings(&["one", "three", "two"]));
}

#[test]
fn proposal_line_order_does_not_matter() {
    let text = "## milestones\nm\n## demo\nhas a Private_Key\n## do\n## problem\n";
    let mut lines: Vec<&str> = text.lines().collect();
    lines.reverse();
    let reordered = lines.join("\n");
    assert_eq!(validate_proposal(&reordered), validate_proposal(text));
    assert_eq!(
        messages(&validate_proposal(text)),
        strings(&["missing heading dont", "looks like it contains a private_key"])
    );
}

#[test]
fn link_pattern_cases() {
    let check = |link: &str| {
        let mut r = inbox_row("t", "closed");
        r.insert("link".into(), link.into());
        validate_inbox(&[r]).len()
    };
    assert_eq!(check("http://a"), 0);
    assert_eq!(check("https://"), 0);
    assert_eq!(check(""), 0);
    assert_eq!(check("httpx://a"), 1);
    assert_eq!(check("HTTP://a"), 1);
    assert_eq!(check(" https://a"), 1);
    assert_eq!(check("see https://a"), 1);
}

#[test]
fn normalizing_twice_changes_nothing() {
    for name in ["Private-Key", "my SEED ä_1", "", "__X__"] {
        let once = norm(name);
        assert_eq!(norm(&once), once);
    }
    assert_eq!(norm("Private-Key ä_1"), "privatekey_1");
}
