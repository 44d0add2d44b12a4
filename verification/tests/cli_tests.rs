use file_guardian::cli::{parse_invocation, password_from_line, CommandKind, Invocation};
use file_guardian::errors::GuardianError;

fn args(words: &[&str]) -> Vec<String> {
    words.iter().map(|w| w.to_string()).collect()
}

#[test]
fn scan_and_check_are_recognised() {
    assert_eq!(
        parse_invocation(&args(&["guardian", "scan", "./test_folder"])),
        Ok(Invocation { command: CommandKind::Scan, folder: "./test_folder".to_string() })
    );
    assert_eq!(
        parse_invocation(&args(&["guardian", "check", "dir", "extra"])),
        Ok(Invocation { command: CommandKind::Check, folder: "dir".to_string() })
    );
}

#[test]
fn other_words_are_unknown_commands() {
    assert_eq!(
        parse_invocation(&args(&["guardian", "Scan", "dir"])),
        Ok(Invocation { command: CommandKind::Unknown("Scan".to_string()), folder: "dir".to_string() })
    );
}

#[test]
fn too_few_arguments_are_refused() {
    assert_eq!(parse_invocation(&args(&["guardian", "scan"])), Err(GuardianError::MissingArguments));
    assert_eq!(parse_invocation(&args(&[])), Err(GuardianError::MissingArguments));
}

#[test]
fn password_is_trimmed() {
    assert_eq!(password_from_line("  hunter2 \r\n"), Ok("hunter2".to_string()));
    assert_eq!(password_from_line("\u{3000}pass word\u{a0}"), Ok("pass word".to_string()));
}

#[test]
fn blank_password_is_refused() {
    assert_eq!(password_from_line("\n"), Err(GuardianError::EmptyPassword));
    assert_eq!(password_from_line(""), Err(GuardianError::EmptyPassword));
    assert_eq!(password_from_line(" \t\u{2003}\n"), Err(GuardianError::EmptyPassword));
}

#[test]
fn error_messages() {
    assert_eq!(GuardianError::MissingArguments.message(), "Missing command or folder path");
    assert_eq!(GuardianError::UnknownCommand("x".to_string()).message(), "Unknown command: x");
    assert_eq!(GuardianError::RelativePath.message(), "Cannot create relative path");
    assert_eq!(
        GuardianError::CorruptedBaseline.message(),
        "Wrong password or corrupted baseline file"
    );
    assert_eq!(GuardianError::InvalidBaseline.message(), "Wrong password or invalid baseline file");
    assert_eq!(GuardianError::EmptyPassword.message(), "Password cannot be empty");
}

#[test]
fn password_trim_matches_std_trim() {
    let samples = [
        "a", " a ", "\u{85}x\u{2028}", "\u{1680}\u{200a}mid dle\u{205f}\u{202f}", "é ü\u{2029}",
        "\u{200b}zero-width stays\u{200b}", "\u{180e}x", "\t\u{b}\u{c}x\r", "日本 語\u{3000}",
    ];
    for line in samples {
        let expected = line.trim();
        let got = password_from_line(line);
        if expected.is_empty() {
            assert_eq!(got, Err(GuardianError::EmptyPassword));
        } else {
            assert_eq!(got, Ok(expected.to_string()), "{:?}", line);
        }
    }
}
