use file_guardian::baseline::{build_baseline_text, parse_baseline, split_lines, Baseline, BASELINE_HEADER};
use file_guardian::errors::GuardianError;

fn pair(path: &str, hash: &str) -> (String, String) {
    (path.to_string(), hash.to_string())
}

fn digest_of(b: &Baseline, path: &str) -> Option<String> {
    b.get(path.as_bytes()).map(|h| String::from_utf8(h.clone()).unwrap())
}

#[test]
fn baseline_text_has_header_and_one_line_per_file() {
    let records = vec![pair("config.txt", "aa11"), pair("sub/data.txt", "bb22")];
    assert_eq!(
        build_baseline_text(&records),
        "FILE_GUARDIAN_BASELINE_V1\nconfig.txt|aa11\nsub/data.txt|bb22\n"
    );
    assert_eq!(build_baseline_text(&Vec::new()), format!("{}\n", BASELINE_HEADER));
}

#[test]
fn lines_split_like_str_lines() {
    let text = "a\r\nb\n\nc\rd\ne\r";
    let lines: Vec<Vec<u8>> = split_lines(text.as_bytes());
    let expected: Vec<Vec<u8>> = text.lines().map(|l| l.as_bytes().to_vec()).collect();
    assert_eq!(lines, expected);
    assert_eq!(split_lines(b"x\n"), vec![b"x".to_vec()]);
    assert_eq!(split_lines(b""), Vec::<Vec<u8>>::new());
    assert_eq!(split_lines(b"\n"), vec![Vec::<u8>::new()]);
}

#[test]
fn parse_reads_back_what_was_built() {
    let records = vec![pair("config.txt", "aa11"), pair("notes.txt", "cc33"), pair("é/x", "dd44")];
    let text = build_baseline_text(&records);
    let baseline = parse_baseline(&text).unwrap();
    assert_eq!(baseline.len(), 3);
    assert_eq!(digest_of(&baseline, "config.txt"), Some("aa11".to_string()));
    assert_eq!(digest_of(&baseline, "notes.txt"), Some("cc33".to_string()));
    assert_eq!(digest_of(&baseline, "é/x"), Some("dd44".to_string()));
    assert_eq!(digest_of(&baseline, "missing"), None);
}

#[test]
fn parse_refuses_a_wrong_header() {
    assert!(matches!(parse_baseline(""), Err(GuardianError::InvalidBaseline)));
    assert!(matches!(parse_baseline("HELLO\na|b\n"), Err(GuardianError::InvalidBaseline)));
    assert!(matches!(
        parse_baseline("\nFILE_GUARDIAN_BASELINE_V1\n"),
        Err(GuardianError::InvalidBaseline)
    ));
}

#[test]
fn parse_accepts_crlf_and_skips_lines_without_bar() {
    let text = "FILE_GUARDIAN_BASELINE_V1\r\nno bar here\r\na.txt|11\r\n\r\nb.txt|22";
    let baseline = parse_baseline(text).unwrap();
    assert_eq!(baseline.len(), 2);
    assert_eq!(digest_of(&baseline, "a.txt"), Some("11".to_string()));
    assert_eq!(digest_of(&baseline, "b.txt"), Some("22".to_string()));
}

#[test]
fn parse_splits_at_the_first_bar_and_later_lines_win() {
    let text = "FILE_GUARDIAN_BASELINE_V1\na|1|2\nb|\n|c\na|3\n";
    let baseline = parse_baseline(text).unwrap();
    assert_eq!(baseline.len(), 3);
    assert_eq!(digest_of(&baseline, "a"), Some("3".to_string()));
    assert_eq!(digest_of(&baseline, "b"), Some(String::new()));
    assert_eq!(digest_of(&baseline, ""), Some("c".to_string()));
}

#[test]
fn parse_of_header_only_is_empty() {
    let baseline = parse_baseline("FILE_GUARDIAN_BASELINE_V1").unwrap();
    assert_eq!(baseline.len(), 0);
}

#[test]
fn insert_replaces_the_digest_of_a_known_path() {
    let mut b = Baseline::new();
    b.insert(b"x".to_vec(), b"1".to_vec());
    b.insert(b"y".to_vec(), b"2".to_vec());
    b.insert(b"x".to_vec(), b"3".to_vec());
    assert_eq!(b.len(), 2);
    assert_eq!(b.record(0), (&b"x".to_vec(), &b"3".to_vec()));
    assert_eq!(b.record(1), (&b"y".to_vec(), &b"2".to_vec()));
}
