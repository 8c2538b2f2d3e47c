use serve_dir::path::{
    components, is_cur_dir, join, leading_separators, names, push, same_bytes, starts_with, DOT,
    SEPARATOR,
};

fn list(parts: &[&str]) -> Vec<Vec<u8>> {
    parts.iter().map(|part| part.as_bytes().to_vec()).collect()
}

#[test]
fn separator_and_dot_are_the_ascii_bytes() {
    assert_eq!(SEPARATOR, b'/');
    assert_eq!(DOT, b'.');
}

#[test]
fn leading_separators_are_counted() {
    assert_eq!(leading_separators(b""), 0);
    assert_eq!(leading_separators(b"a/b"), 0);
    assert_eq!(leading_separators(b"/a/b"), 1);
    assert_eq!(leading_separators(b"///a//b"), 3);
    assert_eq!(leading_separators(b"//"), 2);
}

#[test]
fn names_are_the_runs_between_separators() {
    assert_eq!(names(b""), list(&[]));
    assert_eq!(names(b"/"), list(&[]));
    assert_eq!(names(b"a"), list(&["a"]));
    assert_eq!(names(b"a//b/"), list(&["a", "b"]));
    assert_eq!(names(b"/srv/www/index.html"), list(&["srv", "www", "index.html"]));
    assert_eq!(names(b"./a/../b/."), list(&[".", "a", "..", "b", "."]));
}

#[test]
fn components_of_an_absolute_path_start_with_the_root() {
    assert_eq!(components(b"/"), list(&["/"]));
    assert_eq!(components(b"//"), list(&["/"]));
    assert_eq!(components(b"/srv/www"), list(&["/", "srv", "www"]));
    assert_eq!(components(b"//srv///www/"), list(&["/", "srv", "www"]));
    assert_eq!(components(b"/./srv/."), list(&["/", "srv"]));
}

#[test]
fn components_keep_a_dot_only_in_front() {
    assert_eq!(components(b""), list(&[]));
    assert_eq!(components(b"."), list(&["."]));
    assert_eq!(components(b"./"), list(&["."]));
    assert_eq!(components(b"./a"), list(&[".", "a"]));
    assert_eq!(components(b".//./a/./b/."), list(&[".", "a", "b"]));
    assert_eq!(components(b"a/./b"), list(&["a", "b"]));
    assert_eq!(components(b".a/b."), list(&[".a", "b."]));
    assert_eq!(components(b"..."), list(&["..."]));
}

#[test]
fn components_leave_parent_names_alone() {
    assert_eq!(components(b".."), list(&[".."]));
    assert_eq!(components(b"a/b/../c"), list(&["a", "b", "..", "c"]));
    assert_eq!(
        components(b"/srv/www/../../../etc/passwd"),
        list(&["/", "srv", "www", "..", "..", "..", "etc", "passwd"])
    );
}

#[test]
fn components_agree_with_the_standard_library() {
    let samples: [&str; 14] = [
        "",
        "/",
        ".",
        "./",
        "./a",
        "a/./b",
        "a//b/",
        "/a/b/.",
        "//a",
        "..",
        "../a/..",
        ".hidden/..x/y.",
        "/srv/www/../../../etc/passwd",
        "a/b/c/d/e/f",
    ];
    for sample in samples {
        let expected: Vec<Vec<u8>> = std::path::Path::new(sample)
            .iter()
            .map(|part| part.to_str().unwrap().as_bytes().to_vec())
            .collect();
        assert_eq!(components(sample.as_bytes()), expected, "components of {:?}", sample);
    }
}

#[test]
fn cur_dir_is_the_single_dot() {
    assert!(is_cur_dir(b"."));
    assert!(!is_cur_dir(b""));
    assert!(!is_cur_dir(b".."));
    assert!(!is_cur_dir(b"a"));
    assert!(!is_cur_dir(b"./"));
}

#[test]
fn same_bytes_compares_length_and_content() {
    assert!(same_bytes(b"", b""));
    assert!(same_bytes(b"www", b"www"));
    assert!(!same_bytes(b"www", b"ww"));
    assert!(!same_bytes(b"www", b"wwv"));
    assert!(!same_bytes(b"", b"/"));
}

#[test]
fn push_adds_one_separator_where_none_ends_the_path() {
    let mut path = b"/srv/www".to_vec();
    push(&mut path, b"index.html");
    assert_eq!(path, b"/srv/www/index.html".to_vec());

    let mut path = b"/srv/www/".to_vec();
    push(&mut path, b"index.html");
    assert_eq!(path, b"/srv/www/index.html".to_vec());

    let mut path = b"/".to_vec();
    push(&mut path, b"etc");
    assert_eq!(path, b"/etc".to_vec());
}

#[test]
fn push_onto_the_empty_path_adds_no_separator() {
    let mut path: Vec<u8> = Vec::new();
    push(&mut path, b"a");
    assert_eq!(path, b"a".to_vec());
}

#[test]
fn push_of_an_absolute_path_replaces() {
    let mut path = b"/srv/www".to_vec();
    push(&mut path, b"/etc/passwd");
    assert_eq!(path, b"/etc/passwd".to_vec());
}

#[test]
fn push_of_the_empty_part_ends_the_path_with_a_separator() {
    let mut path = b"a".to_vec();
    push(&mut path, b"");
    assert_eq!(path, b"a/".to_vec());
}

#[test]
fn push_agrees_with_the_standard_library() {
    let bases: [&str; 6] = ["", "/", "a", "a/", "/srv/www", "."];
    let parts: [&str; 6] = ["x", ".", "..", "/abs", "", "x/y"];
    for base in bases {
        for part in parts {
            let mut expected = std::path::PathBuf::from(base);
            expected.push(part);
            let mut path = base.as_bytes().to_vec();
            push(&mut path, part.as_bytes());
            assert_eq!(path, expected.to_str().unwrap().as_bytes().to_vec(), "{:?} + {:?}", base, part);
        }
    }
}

#[test]
fn join_pushes_each_part_in_turn() {
    assert_eq!(join(b"/srv/www", &list(&[])), b"/srv/www".to_vec());
    assert_eq!(join(b"/srv/www", &list(&["a", "b"])), b"/srv/www/a/b".to_vec());
    assert_eq!(join(b"/srv/www", &list(&[".", "a"])), b"/srv/www/./a".to_vec());
    assert_eq!(join(b"", &list(&["..", "a"])), b"../a".to_vec());
}

#[test]
fn joined_components_are_those_of_the_base_then_the_parts() {
    let joined = join(b"/srv/www", &components(b"./a/../b"));
    assert_eq!(components(&joined), list(&["/", "srv", "www", "a", "..", "b"]));
    let joined = join(b"", &components(b"./a"));
    assert_eq!(components(&joined), list(&[".", "a"]));
}

#[test]
fn starts_with_compares_whole_components() {
    assert!(starts_with(b"/srv/www/index.html", b"/srv/www"));
    assert!(starts_with(b"/srv/www/index.html", b"/srv/www/index.html"));
    assert!(starts_with(b"/srv/www", b"/srv//www/"));
    assert!(starts_with(b"/srv/www", b""));
    assert!(!starts_with(b"/srv/www", b"/srv/www/index.html"));
    assert!(!starts_with(b"/srv/wwwx", b"/srv/www"));
    assert!(!starts_with(b"/etc/passwd", b"/srv/www"));
    assert!(!starts_with(b"srv/www", b"/srv/www"));
}

#[test]
fn starts_with_agrees_with_the_standard_library() {
    let samples: [&str; 8] =
        ["", "/", "/srv", "/srv/www", "/srv/www/a", "/srv/wwwa", "srv/www", "/srv/www/../a"];
    for path in samples {
        for base in samples {
            assert_eq!(
                starts_with(path.as_bytes(), base.as_bytes()),
                std::path::Path::new(path).starts_with(base),
                "{:?} starts with {:?}",
                path,
                base
            );
        }
    }
}
