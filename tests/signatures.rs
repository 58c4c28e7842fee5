use magic_check::classify::{classify, is_file_mismatched, magic_number_match, Verdict};
use magic_check::report::{file_extension, FileCheckResult, Outcome, Probe};
use magic_check::signature::{ParseError, ParseErrorKind, Signature};

fn table(text: &str) -> Vec<Signature> {
    Signature::load(text).expect("table loads")
}

fn scan(sigs: &Vec<Signature>, entries: Vec<(&str, &str, Probe)>) -> FileCheckResult {
    let mut report = FileCheckResult::new();
    for (path, name, probe) in entries {
        report.scan_entry(sigs, path.to_string(), name, probe);
    }
    report
}

#[test]
fn load_parses_bytes_and_extensions() {
    let t = table("89 50 4E 47 : png\nFF D8 FF:jpg,jpeg\n");
    assert_eq!(t.len(), 2);
    assert_eq!(t[0].magic_number, vec![0x89, 0x50, 0x4E, 0x47]);
    assert_eq!(t[0].name, vec![" png".to_string()]);
    assert_eq!(t[1].magic_number, vec![0xFF, 0xD8, 0xFF]);
    assert_eq!(t[1].name, vec!["jpg".to_string(), "jpeg".to_string()]);
}

#[test]
fn load_keeps_spaces_and_later_colons_in_extensions() {
    let t = table("25 50 44 46 :pdf, ai:x");
    assert_eq!(t[0].name, vec!["pdf".to_string(), " ai:x".to_string()]);
}

#[test]
fn load_accepts_crlf_and_missing_final_newline() {
    let t = table("47 49 46:gif\r\n42 4D:bmp");
    assert_eq!(t.len(), 2);
    assert_eq!(t[0].name, vec!["gif".to_string()]);
    assert_eq!(t[1].name, vec!["bmp".to_string()]);
}

#[test]
fn load_accepts_variable_length_and_signed_hex_tokens() {
    let t = table("a 0B +c 00ff\t7:x");
    assert_eq!(t[0].magic_number, vec![0x0A, 0x0B, 0x0C, 0xFF, 0x07]);
}

#[test]
fn load_is_idempotent_on_same_text() {
    let text = "89 50 4E 47 : png\n00 01:a,b";
    let a = table(text);
    let b = table(text);
    assert_eq!(a.len(), b.len());
    for i in 0..a.len() {
        assert_eq!(a[i].magic_number, b[i].magic_number);
        assert_eq!(a[i].name, b[i].name);
    }
    assert_eq!(Signature::load("zz:q").unwrap_err(), Signature::load("zz:q").unwrap_err());
}

#[test]
fn load_refuses_line_without_separator() {
    let e = Signature::load("89 50 : png\n89 50 png\n").unwrap_err();
    assert_eq!(e, ParseError { line: 2, kind: ParseErrorKind::MissingSeparator });
}

#[test]
fn load_refuses_bad_hex_token() {
    let e = Signature::load("89 G0 : png").unwrap_err();
    assert_eq!(e, ParseError { line: 1, kind: ParseErrorKind::InvalidByte });
    let e = Signature::load("100 : big").unwrap_err();
    assert_eq!(e.kind, ParseErrorKind::InvalidByte);
    let e = Signature::load("+ : sign").unwrap_err();
    assert_eq!(e.kind, ParseErrorKind::InvalidByte);
    let e = Signature::load("-1 : neg").unwrap_err();
    assert_eq!(e.kind, ParseErrorKind::InvalidByte);
}

#[test]
fn load_refuses_empty_magic_number_and_blank_line() {
    let e = Signature::load("  : png").unwrap_err();
    assert_eq!(e, ParseError { line: 1, kind: ParseErrorKind::EmptyMagicNumber });
    let e = Signature::load("89 50 : png\n\n").unwrap_err();
    assert_eq!(e, ParseError { line: 2, kind: ParseErrorKind::MissingSeparator });
}

#[test]
fn parse_line_gives_one_signature() {
    let s = Signature::parse_line("50 4B 03 04:zip,docx").unwrap();
    assert_eq!(s.magic_number, vec![0x50, 0x4B, 0x03, 0x04]);
    assert_eq!(s.name, vec!["zip".to_string(), "docx".to_string()]);
    assert_eq!(Signature::parse_line("50 4B").unwrap_err(), ParseErrorKind::MissingSeparator);
}

#[test]
fn magic_number_match_compares_prefix() {
    let m = vec![0x89, 0x50];
    assert!(magic_number_match(&m, &[0x89, 0x50, 0x00]));
    assert!(magic_number_match(&m, &[0x89, 0x50]));
    assert!(!magic_number_match(&m, &[0x89, 0x51, 0x00]));
    assert!(!magic_number_match(&m, &[0x89]));
    assert!(magic_number_match(&vec![], &[]));
}

#[test]
fn exact_header_is_matched() {
    let t = table("89 50 4E 47:png");
    assert_eq!(classify(&t, &[0x89, 0x50, 0x4E, 0x47], "png"), Verdict::Matched);
    assert!(!is_file_mismatched(&t, &[0x89, 0x50, 0x4E, 0x47, 0x0D], "png"));
}

#[test]
fn differing_header_is_mismatched() {
    let t = table("89 50 4E 47:png");
    assert_eq!(classify(&t, &[0x89, 0x50, 0x4E, 0x48], "png"), Verdict::Mismatched);
    assert_eq!(classify(&t, &[0x00, 0x50, 0x4E, 0x47], "png"), Verdict::Mismatched);
    assert!(is_file_mismatched(&t, &[0x89, 0x50], "png"));
}

#[test]
fn unlisted_extension_is_matched() {
    let t = table("89 50 4E 47:png");
    assert_eq!(classify(&t, &[0x00], "txt"), Verdict::Matched);
    assert_eq!(classify(&t, &[], "PNG"), Verdict::Matched);
}

#[test]
fn first_entry_for_extension_wins() {
    let t = table("01 02:foo\n03 04:bar,foo");
    assert_eq!(classify(&t, &[0x01, 0x02], "foo"), Verdict::Matched);
    assert_eq!(classify(&t, &[0x03, 0x04], "foo"), Verdict::Mismatched);
    assert_eq!(classify(&t, &[0x03, 0x04], "bar"), Verdict::Matched);
}

#[test]
fn empty_table_matches_every_file() {
    let t = table("");
    assert_eq!(t.len(), 0);
    assert_eq!(classify(&t, &[0x00, 0x01], "png"), Verdict::Matched);
    assert_eq!(classify(&t, &[], "exe"), Verdict::Matched);
}

#[test]
fn file_extension_follows_last_dot() {
    assert_eq!(file_extension("a.png"), Some("png".to_string()));
    assert_eq!(file_extension("archive.tar.gz"), Some("gz".to_string()));
    assert_eq!(file_extension("noext"), None);
    assert_eq!(file_extension(".bashrc"), None);
    assert_eq!(file_extension("trailing."), Some("".to_string()));
    assert_eq!(file_extension(".."), None);
}

fn png_entries() -> Vec<(&'static str, &'static str, Probe)> {
    vec![
        ("./example/a.png", "a.png", Probe::Header(vec![0x89, 0x50, 0x4E, 0x47, 0x0D, 0x0A])),
        ("./example/b.png", "b.png", Probe::Header(vec![0x00, 0x00, 0x00, 0x00])),
    ]
}

#[test]
fn round_trip_png_scenario() {
    let t = table("89 50 4E 47 : png");
    let t2 = table("89 50 4E 47 :png");
    // The rule as written names the extension " png", so no file is flagged.
    let report = scan(&t, png_entries());
    assert!(report.mismatching_extensions.is_empty());
    let report = scan(&t2, png_entries());
    assert_eq!(report.mismatching_extensions, vec!["./example/b.png".to_string()]);
    assert!(report.failed_to_open.is_empty());
    assert_eq!(report.render(), "Mismatching extensions\n./example/b.png\n");
}

#[test]
fn unreadable_file_goes_to_second_section() {
    let t = table("89 50 4E 47:png");
    let report = scan(
        &t,
        vec![
            ("./example/locked.png", "locked.png", Probe::Unreadable),
            ("./example/b.png", "b.png", Probe::Header(vec![0x00])),
        ],
    );
    assert_eq!(report.failed_to_open, vec!["./example/locked.png".to_string()]);
    assert_eq!(report.mismatching_extensions, vec!["./example/b.png".to_string()]);
    assert_eq!(
        report.render(),
        "Mismatching extensions\n./example/b.png\n\n----------\nFailed to open\n./example/locked.png\n"
    );
}

#[test]
fn extensionless_file_is_in_no_section() {
    let t = table("89 50 4E 47:png");
    let report = scan(
        &t,
        vec![
            ("./example/noext", "noext", Probe::Header(vec![0x00, 0x00])),
            ("./example", "example", Probe::NotAFile),
        ],
    );
    assert!(report.mismatching_extensions.is_empty());
    assert!(report.failed_to_open.is_empty());
    assert_eq!(report.render(), "Mismatching extensions\n");
}

#[test]
fn assess_reports_each_outcome() {
    let t = table("4D 5A:exe");
    assert_eq!(
        magic_check::report::assess(&t, "x.exe".to_string(), "x.exe", &Probe::Header(vec![0x4D, 0x5A])),
        Some(Outcome::Matched)
    );
    assert_eq!(
        magic_check::report::assess(&t, "y.exe".to_string(), "y.exe", &Probe::Header(vec![0x4D])),
        Some(Outcome::Mismatched("y.exe".to_string()))
    );
    assert_eq!(
        magic_check::report::assess(&t, "z.exe".to_string(), "z.exe", &Probe::Unreadable),
        Some(Outcome::Unreadable("z.exe".to_string()))
    );
    assert_eq!(magic_check::report::assess(&t, "d".to_string(), "d", &Probe::NotAFile), None);
}

#[test]
fn record_appends_in_order() {
    let mut r = FileCheckResult::new();
    r.record(Outcome::Mismatched("p1".to_string()));
    r.record(Outcome::Matched);
    r.record(Outcome::Mismatched("p2".to_string()));
    r.record(Outcome::Unreadable("u1".to_string()));
    assert_eq!(r.mismatching_extensions, vec!["p1".to_string(), "p2".to_string()]);
    assert_eq!(r.failed_to_open, vec!["u1".to_string()]);
}
