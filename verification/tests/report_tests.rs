use file_guardian::baseline::{build_baseline_text, parse_baseline, Baseline};
use file_guardian::crypto::{calculate_file_hash, decrypt_text, encrypt_text};
use file_guardian::bytes::decimal_bytes;
use file_guardian::report::{compare_baselines, render_finding, render_report, summarize, FileStatus, Finding};

fn baseline(pairs: &[(&str, &str)]) -> Baseline {
    let mut b = Baseline::new();
    for (p, h) in pairs {
        b.insert(p.as_bytes().to_vec(), h.as_bytes().to_vec());
    }
    b
}

fn view(findings: &[Finding]) -> Vec<(FileStatus, String)> {
    findings.iter().map(|f| (f.status, String::from_utf8(f.path.clone()).unwrap())).collect()
}

#[test]
fn compare_finds_every_kind_of_change() {
    let old = baseline(&[("same.txt", "aa"), ("changed.txt", "bb"), ("gone.txt", "cc")]);
    let current = baseline(&[("added.txt", "dd"), ("changed.txt", "b2"), ("same.txt", "aa")]);
    let findings = compare_baselines(&old, &current);
    assert_eq!(
        view(&findings),
        vec![
            (FileStatus::Unchanged, "same.txt".to_string()),
            (FileStatus::Modified, "changed.txt".to_string()),
            (FileStatus::Deleted, "gone.txt".to_string()),
            (FileStatus::New, "added.txt".to_string()),
        ]
    );
}

#[test]
fn compare_of_equal_maps_is_all_unchanged() {
    let old = baseline(&[("a", "1"), ("b", "2"), ("c", "3")]);
    let current = baseline(&[("c", "3"), ("a", "1"), ("b", "2")]);
    let findings = compare_baselines(&old, &current);
    assert_eq!(findings.len(), 3);
    assert!(findings.iter().all(|f| f.status == FileStatus::Unchanged));
}

#[test]
fn compare_of_empty_baselines_finds_nothing() {
    let findings = compare_baselines(&Baseline::new(), &Baseline::new());
    assert!(findings.is_empty());
    let report = render_report(&findings);
    assert_eq!(
        String::from_utf8(report).unwrap(),
        "===== File Guardian Report =====\n\n\n===== Summary =====\nUnchanged: 0\nModified: 0\nNew: 0\nDeleted: 0\n"
    );
}

#[test]
fn scanned_text_checked_against_same_folder_is_unchanged() {
    let text = "FILE_GUARDIAN_BASELINE_V1\nx.txt|01\ny/z.txt|02\n";
    let old = parse_baseline(text).unwrap();
    let current = baseline(&[("y/z.txt", "02"), ("x.txt", "01")]);
    let findings = compare_baselines(&old, &current);
    assert_eq!(
        view(&findings),
        vec![
            (FileStatus::Unchanged, "x.txt".to_string()),
            (FileStatus::Unchanged, "y/z.txt".to_string()),
        ]
    );
}

#[test]
fn report_lists_findings_then_summary() {
    let old = baseline(&[("same.txt", "aa"), ("changed.txt", "bb"), ("gone.txt", "cc")]);
    let current = baseline(&[("added.txt", "dd"), ("changed.txt", "b2"), ("same.txt", "aa")]);
    let findings = compare_baselines(&old, &current);
    let report = String::from_utf8(render_report(&findings)).unwrap();
    assert_eq!(
        report,
        "===== File Guardian Report =====\n\n\
         [UNCHANGED] same.txt\n\
         [MODIFIED] changed.txt\n\
         [DELETED] gone.txt\n\
         [NEW] added.txt\n\
         \n===== Summary =====\n\
         Unchanged: 1\n\
         Modified: 1\n\
         New: 1\n\
         Deleted: 1\n"
    );
}

#[test]
fn finding_lines_carry_their_label() {
    let f = Finding { status: FileStatus::Deleted, path: b"old/file".to_vec() };
    assert_eq!(render_finding(&f), b"[DELETED] old/file\n".to_vec());
    let f = Finding { status: FileStatus::New, path: b"n".to_vec() };
    assert_eq!(render_finding(&f), b"[NEW] n\n".to_vec());
}

#[test]
fn summary_counts_each_status() {
    let mut findings = Vec::new();
    for i in 0..12u8 {
        let status = match i % 4 {
            0 => FileStatus::Unchanged,
            1 => FileStatus::Unchanged,
            2 => FileStatus::New,
            _ => FileStatus::Deleted,
        };
        findings.push(Finding { status, path: vec![b'a' + i] });
    }
    let s = summarize(&findings);
    assert_eq!((s.unchanged, s.modified, s.new, s.deleted), (6, 0, 3, 3));
    let report = String::from_utf8(render_report(&findings)).unwrap();
    assert!(report.ends_with("Unchanged: 6\nModified: 0\nNew: 3\nDeleted: 3\n"));
}

#[test]
fn decimal_digits() {
    assert_eq!(decimal_bytes(0), b"0".to_vec());
    assert_eq!(decimal_bytes(7), b"7".to_vec());
    assert_eq!(decimal_bytes(10), b"10".to_vec());
    assert_eq!(decimal_bytes(1234567), b"1234567".to_vec());
}

#[test]
fn scan_encrypt_decrypt_check_reports_unchanged() {
    let files: Vec<(&str, &[u8])> = vec![("config.txt", b"debug=true\n"), ("notes.txt", b"hello"), ("data.txt", b"")];
    let records: Vec<(String, String)> =
        files.iter().map(|(p, d)| (p.to_string(), calculate_file_hash(d))).collect();
    let encrypted = encrypt_text(&build_baseline_text(&records), "pw");
    let text = decrypt_text(&encrypted, "pw").unwrap();
    let old = parse_baseline(&text).unwrap();
    let mut current = Baseline::new();
    for (p, h) in records.iter().rev() {
        current.insert(p.clone().into_bytes(), h.clone().into_bytes());
    }
    let findings = compare_baselines(&old, &current);
    assert_eq!(findings.len(), 3);
    assert!(findings.iter().all(|f| f.status == FileStatus::Unchanged));

    // The same folder after an edit, a deletion and an addition.
    let mut edited = Baseline::new();
    edited.insert(b"config.txt".to_vec(), calculate_file_hash(b"debug=false\n").into_bytes());
    edited.insert(b"notes.txt".to_vec(), calculate_file_hash(b"hello").into_bytes());
    edited.insert(b"new.txt".to_vec(), calculate_file_hash(b"x").into_bytes());
    let report = String::from_utf8(render_report(&compare_baselines(&old, &edited))).unwrap();
    assert_eq!(
        report,
        "===== File Guardian Report =====\n\n\
         [MODIFIED] config.txt\n\
         [UNCHANGED] notes.txt\n\
         [DELETED] data.txt\n\
         [NEW] new.txt\n\
         \n===== Summary =====\n\
         Unchanged: 1\n\
         Modified: 1\n\
         New: 1\n\
         Deleted: 1\n"
    );
}
