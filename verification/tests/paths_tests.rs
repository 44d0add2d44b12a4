use std::path::{Component, Path};

use file_guardian::errors::GuardianError;
use file_guardian::paths::{get_all_files, get_relative_path, is_tracked_file, path_less, PathPart};
use file_guardian::unix_path::{path_components, strip_components};

fn std_parts(p: &str) -> Vec<PathPart> {
    Path::new(p)
        .components()
        .map(|c| match c {
            Component::RootDir => PathPart::RootDir,
            Component::CurDir => PathPart::CurDir,
            Component::ParentDir => PathPart::ParentDir,
            Component::Normal(n) => PathPart::Normal(n.to_str().unwrap().as_bytes().to_vec()),
            Component::Prefix(_) => unreachable!(),
        })
        .collect()
}

const SAMPLES: &[&str] = &[
    "", ".", "..", "/", "//", "./", ".//", "./.", "a", "a/", "a//", "a/.", "a/./", "./a", ".//a",
    "/a", "//a", "/./a", "a/b", "a//b", "a/./b", "a/../b", "./test_folder", "./test_folder/",
    "./test_folder/config.txt", "./test_folder/sub//a.txt", "./test_folder/./sub/a.txt/",
    "test_folder//", "test_folder/x/.", "..a/b", ".a", "a\\b/c", "/data/sub/deep/x.bin",
    "/data", "/data/", "data/sub", ".../x",
];

#[test]
fn components_match_std_path() {
    for p in SAMPLES {
        assert_eq!(path_components(p.as_bytes()), std_parts(p), "components of {:?}", p);
    }
}

#[test]
fn relative_path_matches_std_strip_prefix() {
    for base in SAMPLES {
        for file in SAMPLES {
            let expected = Path::new(file)
                .strip_prefix(base)
                .map(|rest| rest.to_string_lossy().replace("\\", "/"))
                .map_err(|_| GuardianError::RelativePath);
            assert_eq!(
                get_relative_path(base.as_bytes(), file.as_bytes()),
                expected,
                "{:?} relative to {:?}",
                file,
                base
            );
        }
    }
}

#[test]
fn relative_path_keeps_the_rest_as_written() {
    assert_eq!(
        get_relative_path(b"./test_folder", b"./test_folder/sub//a.txt"),
        Ok("sub//a.txt".to_string())
    );
    assert_eq!(get_relative_path(b"./test_folder", b"./test_folder/config.txt"), Ok("config.txt".to_string()));
    assert_eq!(get_relative_path(b"f", b"f/a\\b.txt"), Ok("a/b.txt".to_string()));
    assert_eq!(get_relative_path(b"f", b"f/./x/"), Ok("x".to_string()));
    assert_eq!(get_relative_path(b"", b"/a//"), Ok("/a".to_string()));
}

#[test]
fn relative_path_replaces_invalid_utf8() {
    assert_eq!(get_relative_path(b"f", &[b'f', b'/', b'a', 0xff, b'b']), Ok("a\u{FFFD}b".to_string()));
}

#[test]
fn relative_path_outside_the_folder_fails() {
    assert_eq!(get_relative_path(b"f", b"g/x"), Err(GuardianError::RelativePath));
    assert_eq!(get_relative_path(b"f", b"fa/x"), Err(GuardianError::RelativePath));
    assert_eq!(get_relative_path(b"f/x", b"f"), Err(GuardianError::RelativePath));
    assert_eq!(get_relative_path(b"/f", b"f/x"), Err(GuardianError::RelativePath));
}

#[test]
fn strip_components_keeps_raw_bytes() {
    assert_eq!(strip_components(b"./f/sub//a.txt", 2), b"sub//a.txt".to_vec());
    assert_eq!(strip_components(b"./f/sub//a.txt//", 2), b"sub//a.txt".to_vec());
    assert_eq!(strip_components(b"/a//", 0), b"/a".to_vec());
}

#[test]
fn files_sort_like_pathbuf() {
    let files: Vec<&str> = vec!["f/b.txt", "f/a.txt", "f/a/z", "f/A", "f//a.txt", "/f", "./f"];
    let sorted = get_all_files(files.iter().map(|f| f.as_bytes().to_vec()).collect());
    let mut expected: Vec<&Path> = files.iter().map(|f| Path::new(*f)).collect();
    expected.sort();
    let expected: Vec<Vec<u8>> = expected.iter().map(|p| p.to_str().unwrap().as_bytes().to_vec()).collect();
    assert_eq!(sorted, expected);
    assert_eq!(
        get_all_files(vec![b"f/b".to_vec(), b"f/a.txt".to_vec(), b"f/a/z".to_vec()]),
        vec![b"f/a/z".to_vec(), b"f/a.txt".to_vec(), b"f/b".to_vec()]
    );
}

#[test]
fn files_sort_keeps_every_file() {
    let sorted = get_all_files(vec![b"x".to_vec(), b"x".to_vec(), b"w".to_vec()]);
    assert_eq!(sorted, vec![b"w".to_vec(), b"x".to_vec(), b"x".to_vec()]);
    assert_eq!(get_all_files(Vec::new()), Vec::<Vec<u8>>::new());
}

#[test]
fn component_kinds_order_before_names() {
    let n = |s: &str| PathPart::Normal(s.as_bytes().to_vec());
    let root = vec![PathPart::RootDir, n("a")];
    let cur = vec![PathPart::CurDir, n("a")];
    let parent = vec![PathPart::ParentDir, n("a")];
    let plain = vec![n("a")];
    assert!(path_less(&root, &cur));
    assert!(path_less(&cur, &parent));
    assert!(path_less(&parent, &plain));
    assert!(!path_less(&plain, &root));
    assert!(!path_less(&plain, &plain));
    assert!(path_less(&vec![n("a")], &vec![n("a"), n("b")]));
}

#[test]
fn program_files_are_not_tracked() {
    assert!(!is_tracked_file(b"baseline.enc"));
    assert!(!is_tracked_file(b"report.txt"));
    assert!(is_tracked_file(b"baseline.enc.bak"));
    assert!(is_tracked_file(b"notes.txt"));
    assert!(is_tracked_file(b""));
}

#[test]
fn relative_path_joined_to_the_folder_gives_the_file() {
    for base in SAMPLES {
        for file in SAMPLES {
            if file.contains('\\') {
                continue;
            }
            if let Ok(rel) = get_relative_path(base.as_bytes(), file.as_bytes()) {
                assert!(!rel.contains('\\'));
                assert_eq!(Path::new(base).join(&rel), Path::new(file), "{:?} in {:?}", file, base);
            }
        }
    }
    let rel = get_relative_path(b"./test_folder", b"./test_folder/sub//a.txt").unwrap();
    assert_eq!(Path::new("./test_folder").join(rel), Path::new("./test_folder/sub/a.txt"));
}

#[test]
fn files_sort_the_same_whatever_order_they_come_in() {
    let files: Vec<Vec<u8>> = ["f/b.txt", "f/a.txt", "f/a/z", "f/A", "g", "f/a"]
        .iter()
        .map(|f| f.as_bytes().to_vec())
        .collect();
    let expected = get_all_files(files.clone());
    let mut reversed = files.clone();
    reversed.reverse();
    assert_eq!(get_all_files(reversed), expected);
    let mut rotated = files.clone();
    rotated.rotate_left(2);
    assert_eq!(get_all_files(rotated), expected);
}
