use wheelhoss::error::Error;
use wheelhoss::pysource::{
    is_python_bytecode, python_source_for, rooted_path, source_components, source_file_name,
};

#[test]
fn derived_source_of_a_cached_module() {
    assert_eq!(
        python_source_for("a/__pycache__/mod.cpython-311.pyc").unwrap(),
        "/a/mod.py"
    );
}

#[test]
fn derived_source_of_an_absolute_entry() {
    assert_eq!(
        python_source_for("/usr/lib/__pycache__/os.cpython-39.opt-1.pyc").unwrap(),
        "/usr/lib/os.py"
    );
}

#[test]
fn derived_source_skips_empty_and_dot_pieces() {
    assert_eq!(
        python_source_for("a//b/./__pycache__/m.cpython-3.pyc").unwrap(),
        "/a/b/m.py"
    );
    assert_eq!(python_source_for("a/../b").unwrap(), "/a/../b");
    assert_eq!(python_source_for("a/b/").unwrap(), "/a/b");
}

#[test]
fn derived_source_of_nothing_is_the_root() {
    assert_eq!(python_source_for("").unwrap(), "/");
    assert_eq!(python_source_for("__pycache__").unwrap(), "/");
    assert_eq!(python_source_for("./.").unwrap(), "/");
}

#[test]
fn name_is_cut_at_the_first_marker() {
    assert_eq!(
        source_file_name("m.cpython-3.cpython-4.pyc").unwrap(),
        "m.py"
    );
    assert_eq!(source_file_name(".cpython-311.pyc").unwrap(), ".py");
    assert_eq!(source_file_name("mod.cpython-").unwrap(), "mod.py");
}

#[test]
fn name_without_marker_cannot_be_split() {
    match source_file_name("mod.pyc") {
        Err(Error::FailedToSplitFilename(name)) => assert_eq!(name, "mod.pyc"),
        other => panic!("unexpected: {:?}", other),
    }
    assert!(matches!(
        source_file_name(""),
        Err(Error::FailedToSplitFilename(_))
    ));
}

#[test]
fn tagged_name_without_extension_is_kept() {
    assert_eq!(
        python_source_for("d/mod.cpython-311.txt").unwrap(),
        "/d/mod.cpython-311.txt"
    );
}

#[test]
fn only_a_whole_component_is_the_cache_directory() {
    assert_eq!(
        source_components("x/my__pycache__/__pycache__/y").unwrap(),
        vec!["x".to_string(), "my__pycache__".to_string(), "y".to_string()]
    );
}

#[test]
fn bytecode_entries_are_recognised() {
    assert!(is_python_bytecode("a/__pycache__/mod.cpython-311.pyc"));
    assert!(is_python_bytecode("__pycache__/x.pyc"));
    assert!(!is_python_bytecode("a/mod.cpython-311.pyc"));
    assert!(!is_python_bytecode("a/__pycache__/mod.py"));
    assert!(!is_python_bytecode("a/x__pycache__/mod.cpython-311.pyc"));
    assert!(!is_python_bytecode("a/__pycache__/mod.pyc/"));
    assert!(!is_python_bytecode(""));
}

#[test]
fn rooted_path_puts_a_separator_before_each_part() {
    assert_eq!(rooted_path(&Vec::new()), "");
    assert_eq!(rooted_path(&vec!["a".to_string()]), "/a");
    assert_eq!(rooted_path(&vec!["a".to_string(), "b.py".to_string()]), "/a/b.py");
}

#[test]
fn derived_source_keeps_characters_that_are_not_ascii() {
    assert_eq!(
        python_source_for("d\u{e9}p/__pycache__/\u{e9}t\u{e9}.cpython-312.pyc").unwrap(),
        "/d\u{e9}p/\u{e9}t\u{e9}.py"
    );
}
