use std::path::Path;

use gix_norm::norm::ref_dir_valid;
use gix_norm::normalize;

fn norm(input: &str, cwd: &str) -> Option<String> {
    normalize(input.as_bytes(), cwd.as_bytes()).map(|v| String::from_utf8(v).unwrap())
}

/// Compares like paths: segments count, spelling of `.` markers beyond a
/// leading one does not.
fn assert_path_eq(got: Option<String>, expected: Option<&str>, input: &str) {
    match (got, expected) {
        (None, None) => {}
        (Some(g), Some(e)) => {
            assert_eq!(
                Path::new(&g),
                Path::new(e),
                "'{input}' got an unexpected result: {g}"
            );
        }
        (g, e) => panic!("'{input}': got {g:?}, expected {e:?}"),
    }
}

#[test]
fn no_change_if_there_are_no_trailing_relative_components() {
    for input in ["./a/b/c/d", "/absolute/path", r"C:\hello\world"] {
        assert_eq!(norm(input, "/users/name").unwrap(), input);
    }
}

#[test]
fn special_cases_around_cwd() {
    let cwd = "/users/name";
    assert_eq!(
        norm("./../../.git/modules/src/llvm-project", cwd).unwrap(),
        "/.git/modules/src/llvm-project",
        "'.' is handled specifically to not fail to swap in the CWD"
    );
    assert_eq!(
        norm(cwd, cwd).unwrap(),
        cwd,
        "absolute inputs yield absolute outputs"
    );
    assert_eq!(
        norm("a/../..", cwd).unwrap(),
        "/users",
        "it automatically extends the pop-able items by using the current working dir"
    );
    assert_eq!(norm("a/..", cwd).unwrap(), ".", "absolute CWDs are always shortened…");
    assert_eq!(norm("./a/..", cwd).unwrap(), ".", "…like this as well…");
    assert_eq!(norm(".", cwd).unwrap(), ".", "and this means that `.`. stays `.`");
    assert_eq!(
        norm("/users/name/../name", cwd).unwrap(),
        cwd,
        "absolute input paths stay absolute"
    );
}

#[test]
fn parent_dirs_cause_the_cwd_to_be_used() {
    assert_path_eq(
        norm("./a/b/../../..", "/users/name"),
        Some("/users"),
        "./a/b/../../..",
    );
}

#[test]
fn multiple_parent_dir_movements_eat_into_the_current_dir() {
    assert_path_eq(
        norm("../../../d/e", "/users/name/a/b/c"),
        Some("/users/name/d/e"),
        "../../../d/e",
    );
    assert_path_eq(
        norm("c/../../../d/e", "/users/name/a/b"),
        Some("/users/name/d/e"),
        "c/../../../d/e",
    );
}

#[test]
fn walking_up_too_much_yield_none() {
    let cwd = "/users/name";
    assert_eq!(norm("./a/b/../../../../../.", cwd), None);
    assert_eq!(norm("./a/../../../..", cwd), None);
}

#[test]
fn trailing_directories_after_too_numerous_parent_dirs_yield_none() {
    assert_eq!(norm("./a/b/../../../../../actually-invalid", "/users"), None);
    assert_eq!(norm("/a/b/../../..", "/does-not/matter"), None);
}

#[test]
fn trailing_relative_components_are_resolved() {
    let cwd = "/a/b/c";
    for (input, expected) in [
        ("./a/b/./c/../d/..", "./a/b"),
        ("a/./b/c/.././..", "a"),
        ("/a/b/c/.././../.", "/a"),
        ("./a/..", "."),
        ("a/..", "."),
        ("./a", "./a"),
        ("./a/./b", "./a/./b"),
        ("./a/./b/..", "./a/."),
        ("/a/./b/c/.././../.", "/a"),
        ("/a/./b", "/a/./b"),
        ("././/a/./b", "././/a/./b"),
        ("/a/././c/.././../.", "/"),
        ("/a/b/../c/../..", "/"),
        ("C:/hello/../a", "C:/a"),
        ("./a/../b/..", "./"),
        ("/a/../b", "/b"),
    ] {
        assert_path_eq(norm(input, cwd), Some(expected), input);
    }
}

#[test]
fn fast_path_is_byte_identical() {
    // Duplicate separators, interior dots and trailing separators survive when
    // no parent reference forces a rewrite.
    for input in ["././/a/./b", "a//b/", ".", "a/./", "//x"] {
        assert_eq!(norm(input, "/users/name").unwrap(), input);
    }
}

#[test]
fn fast_path_does_not_depend_on_the_reference_dir() {
    for cwd in ["/users/name", "/x", "/"] {
        assert_eq!(norm("./a/./b", cwd).unwrap(), "./a/./b");
    }
}

#[test]
fn renormalizing_a_fast_path_result_is_a_noop() {
    let first = norm("./a/./b", "/users/name").unwrap();
    assert_eq!(norm(&first, "/x").unwrap(), first);
}

#[test]
fn rewritten_results_are_spelled_canonically() {
    let cwd = "/a/b/c";
    assert_eq!(norm("./a/b/./c/../d/..", cwd).unwrap(), "./a/b");
    assert_eq!(norm("a/./b/c/.././..", cwd).unwrap(), "a");
    assert_eq!(norm("/a/./b/c/.././../.", cwd).unwrap(), "/a");
    assert_eq!(norm("./a/./b/..", cwd).unwrap(), "./a");
    assert_eq!(norm("./a/../b/..", cwd).unwrap(), ".");
    assert_eq!(norm("C:/hello/../a", cwd).unwrap(), "C:/a");
}

#[test]
fn absolute_results_stay_absolute_whatever_the_reference_dir() {
    for cwd in ["/users/name", "/", "/one"] {
        assert_eq!(norm("/a/b/../c", cwd).unwrap(), "/a/c");
        assert_eq!(norm("C:/hello/../a", cwd).unwrap(), "C:/a");
    }
}

#[test]
fn each_extra_parent_reference_pops_one_more_level() {
    let cwd = "/users/name/a/b";
    assert_eq!(norm("../x", cwd).unwrap(), "/users/name/a/x");
    assert_eq!(norm("../../x", cwd).unwrap(), "/users/name/x");
    assert_eq!(norm("../../../x", cwd).unwrap(), "/users/x");
    assert_eq!(norm("../../../../x", cwd).unwrap(), "/x");
    assert_eq!(norm("../../../../../x", cwd), None);
}

#[test]
fn popping_the_whole_reference_dir_lands_on_the_root() {
    assert_eq!(norm("../..", "/a/b").unwrap(), "/");
    assert_eq!(norm("../../..", "/a/b"), None);
}

#[test]
fn a_drive_prefix_cannot_be_walked_above() {
    assert_eq!(norm("C:/..", "/users/name"), None);
    assert_eq!(norm("C:/hello/../..", "/users/name"), None);
    assert_eq!(norm("C:/hello/..", "/users/name").unwrap(), "C:/");
}

#[test]
fn the_root_cannot_be_walked_above() {
    assert_eq!(norm("/..", "/users/name"), None);
    assert_eq!(norm("/a/../..", "/users/name"), None);
    assert_eq!(norm("/a/../b/..", "/users/name").unwrap(), "/");
}

#[test]
fn renormalizing_any_successful_result_is_a_noop() {
    let cwd = "/a/b/c";
    for input in [
        "./a/b/./c/../d/..",
        "a/./b/c/.././..",
        "/a/b/c/.././../.",
        "../../x",
        "C:/hello/../a",
        "./a/../b/..",
        "a/..",
        "/a/b/../c/../..",
    ] {
        let result = norm(input, cwd).unwrap();
        assert_eq!(norm(&result, "/somewhere/else").unwrap(), result, "for input '{input}'");
    }
}

#[test]
fn reference_dir_validity_is_checkable() {
    assert!(ref_dir_valid(b"/users/name"));
    assert!(ref_dir_valid(b"/"));
    assert!(!ref_dir_valid(b"users/name"));
    assert!(!ref_dir_valid(b""));
    assert!(!ref_dir_valid(b"/users/../name"));
    assert!(!ref_dir_valid(b"/users/./name"));
}
