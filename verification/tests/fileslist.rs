use wheelhoss::error::Error;
use wheelhoss::fileslist::FilesList;

fn strings(items: &[&str]) -> Vec<String> {
    items.iter().map(|s| s.to_string()).collect()
}

fn written(list: &FilesList) -> String {
    list.write_plan().concat()
}

#[test]
fn fileslist_include_python_source_files() {
    let input = "# Header line\n\
                 # Second header\n\
                 usr/lib/python3/site-packages/pkg/__pycache__/__init__.cpython-39.pyc\n\
                 usr/lib/python3/site-packages/pkg/__pycache__/util.cpython-39.pyc\n\
                 usr/bin/python3\n\
                 opt/app/__pycache__/main.cpython-39.pyc\n\
                 opt/app/data.txt\n";
    let expected = "# Header line\n\
                    # Second header\n\
                    opt/app/__pycache__/main.cpython-39.pyc\n\
                    opt/app/data.txt\n\
                    opt/app/main.py\n\
                    usr/bin/python3\n\
                    usr/lib/python3/site-packages/pkg/__init__.py\n\
                    usr/lib/python3/site-packages/pkg/__pycache__/__init__.cpython-39.pyc\n\
                    usr/lib/python3/site-packages/pkg/__pycache__/util.cpython-39.pyc\n";
    let existing = strings(&[
        "/opt/app/main.py",
        "/usr/lib/python3/site-packages/pkg/__init__.py",
    ]);
    let mut fileslist = FilesList::new("sandstorm-files.list");
    let added = fileslist
        .include_python_source_files(input, &existing)
        .unwrap();
    assert_eq!(
        added,
        strings(&[
            "opt/app/main.py",
            "usr/lib/python3/site-packages/pkg/__init__.py"
        ])
    );
    assert_eq!(written(&fileslist), expected);
}

#[test]
fn new_list_is_empty() {
    let list = FilesList::new("some/where.list");
    assert_eq!(list.filepath(), "some/where.list");
    assert!(list.headers().is_empty());
    assert!(list.listed_files().is_empty());
    assert!(list.write_plan().is_empty());
}

#[test]
fn ingest_splits_header_and_body() {
    let mut list = FilesList::new("l");
    list.ingest("#one\n#two\nb\na\n");
    assert_eq!(list.headers(), &strings(&["#one", "#two"]));
    assert_eq!(list.listed_files(), &strings(&["a", "b"]));
}

#[test]
fn ingest_without_final_newline() {
    let mut list = FilesList::new("l");
    list.ingest("#one\nb\na");
    assert_eq!(list.headers(), &strings(&["#one"]));
    assert_eq!(list.listed_files(), &strings(&["a", "b"]));
}

#[test]
fn ingest_empty_content() {
    let mut list = FilesList::new("l");
    list.ingest("");
    assert!(list.headers().is_empty());
    assert!(list.listed_files().is_empty());
}

#[test]
fn ingest_keeps_empty_lines_as_entries() {
    let mut list = FilesList::new("l");
    list.ingest("a\n\nb\n");
    assert_eq!(list.listed_files(), &strings(&["", "a", "b"]));
    let mut only_newline = FilesList::new("l");
    only_newline.ingest("\n");
    assert_eq!(only_newline.listed_files(), &strings(&[""]));
}

#[test]
fn ingest_only_headers() {
    let mut list = FilesList::new("l");
    list.ingest("#a\n#b\n");
    assert_eq!(list.headers(), &strings(&["#a", "#b"]));
    assert!(list.listed_files().is_empty());
}

#[test]
fn comment_after_first_entry_is_an_entry() {
    let mut list = FilesList::new("l");
    list.ingest("# head\nzeta\n# not a header\nalpha\n");
    assert_eq!(list.headers(), &strings(&["# head"]));
    assert_eq!(
        list.listed_files(),
        &strings(&["# not a header", "alpha", "zeta"])
    );
}

#[test]
fn header_lines_are_preserved_verbatim() {
    let input = "#  spaced  \n#\n#third\nfile\n";
    let mut list = FilesList::new("l");
    list.include_python_source_files(input, &Vec::new()).unwrap();
    assert_eq!(list.headers(), &strings(&["#  spaced  ", "#", "#third"]));
    assert!(written(&list).starts_with("#  spaced  \n#\n#third\n"));
}

#[test]
fn body_is_sorted_and_deduplicated() {
    let mut list = FilesList::new("l");
    list.ingest("b\na\nc\na\nb\nab\nB\n");
    assert_eq!(list.listed_files(), &strings(&["B", "a", "ab", "b", "c"]));
    assert_eq!(written(&list), "B\na\nab\nb\nc\n");
}

#[test]
fn body_order_is_by_character_code() {
    let mut list = FilesList::new("l");
    list.ingest("\u{e9}\nz\n\u{1F600}\n~\nZ\n");
    let mut expected = strings(&["\u{e9}", "z", "\u{1F600}", "~", "Z"]);
    expected.sort();
    assert_eq!(list.listed_files(), &expected);
}

#[test]
fn source_is_added_only_when_it_exists() {
    let content = "a/__pycache__/mod.cpython-311.pyc\n";
    let mut absent = FilesList::new("l");
    let added = absent
        .include_python_source_files(content, &Vec::new())
        .unwrap();
    assert!(added.is_empty());
    assert_eq!(written(&absent), content);

    let mut present = FilesList::new("l");
    let added = present
        .include_python_source_files(content, &strings(&["/a/mod.py"]))
        .unwrap();
    assert_eq!(added, strings(&["a/mod.py"]));
    assert_eq!(
        written(&present),
        "a/__pycache__/mod.cpython-311.pyc\na/mod.py\n"
    );
}

#[test]
fn existing_paths_that_no_entry_leads_to_are_ignored() {
    let mut list = FilesList::new("l");
    let added = list
        .include_python_source_files("a/b.txt\n", &strings(&["/a/b.py", "/a/b.txt"]))
        .unwrap();
    assert!(added.is_empty());
    assert_eq!(list.listed_files(), &strings(&["a/b.txt"]));
}

#[test]
fn entries_that_are_no_bytecode_stay_as_they_are() {
    let content = "x/__pycache__/readme.txt\nx/mod.cpython-311.pyc\nx/my__pycache__/m.cpython-311.pyc\n";
    let existing = strings(&["/x/readme.txt", "/x/mod.py", "/x/my__pycache__/m.py", "/x/m.py"]);
    let mut list = FilesList::new("l");
    list.ingest(content);
    assert_eq!(list.python_source_candidates().unwrap(), Vec::<String>::new());
    let added = list.add_missing_python_source_files(&existing).unwrap();
    assert!(added.is_empty());
    assert_eq!(written(&list), "x/__pycache__/readme.txt\nx/mod.cpython-311.pyc\nx/my__pycache__/m.cpython-311.pyc\n");
}

#[test]
fn candidates_follow_the_order_of_the_list() {
    let mut list = FilesList::new("l");
    list.ingest("z/__pycache__/b.cpython-3.pyc\nplain\na/__pycache__/c.cpython-3.pyc\n");
    assert_eq!(
        list.python_source_candidates().unwrap(),
        strings(&["/a/c.py", "/z/b.py"])
    );
}

#[test]
fn two_entries_with_one_source_add_it_once() {
    let mut list = FilesList::new("l");
    let added = list
        .include_python_source_files(
            "p/__pycache__/m.cpython-310.pyc\np/__pycache__/m.cpython-311.pyc\n",
            &strings(&["/p/m.py"]),
        )
        .unwrap();
    assert_eq!(added, strings(&["p/m.py"]));
    assert_eq!(list.listed_files().len(), 3);
}

#[test]
fn second_run_leaves_the_content_unchanged() {
    let content = "# h\nq/__pycache__/m.cpython-311.pyc\nq/other\n";
    let existing = strings(&["/q/m.py"]);
    let mut first = FilesList::new("l");
    first.include_python_source_files(content, &existing).unwrap();
    let once = written(&first);
    let mut second = FilesList::new("l");
    second.include_python_source_files(&once, &existing).unwrap();
    assert_eq!(written(&second), once);
}

#[test]
fn second_run_without_sources_on_disk_adds_nothing() {
    let content = "# h\nq/__pycache__/m.cpython-311.pyc\nq/other\n";
    let mut first = FilesList::new("l");
    let added = first.include_python_source_files(content, &Vec::new()).unwrap();
    assert!(added.is_empty());
    let once = written(&first);
    let mut second = FilesList::new("l");
    let added = second.include_python_source_files(&once, &Vec::new()).unwrap();
    assert!(added.is_empty());
    assert_eq!(written(&second), once);
}

#[test]
fn written_text_reads_back_as_the_same_list() {
    let mut list = FilesList::new("l");
    list.include_python_source_files(
        "#a\n#b\nm/__pycache__/x.cpython-38.pyc\nk\n\n",
        &strings(&["/m/x.py"]),
    )
    .unwrap();
    let mut again = FilesList::new("l");
    again.ingest(&written(&list));
    assert_eq!(again.headers(), list.headers());
    assert_eq!(again.listed_files(), list.listed_files());
}

#[test]
fn write_plan_has_one_newline_chunk_after_each_line() {
    let mut list = FilesList::new("l");
    list.ingest("#h\nb\na\n");
    assert_eq!(
        list.write_plan(),
        strings(&["#h", "\n", "a", "\n", "b", "\n"])
    );
}

#[test]
fn check_write_reports_a_short_write() {
    let list = FilesList::new("dir/files.list");
    assert!(list.check_write("hello", 5).is_ok());
    assert!(list.check_write("", 0).is_ok());
    assert!(list.check_write("\n", 1).is_ok());
    assert!(list.check_write("a", 2).is_ok());
    match list.check_write("hello", 4) {
        Err(Error::FilesListWriteIncomplete(path)) => assert_eq!(path, "dir/files.list"),
        other => panic!("unexpected: {:?}", other),
    }
    assert!(matches!(
        list.check_write("\n", 0),
        Err(Error::FilesListWriteIncomplete(_))
    ));
}

#[test]
fn check_write_counts_bytes() {
    let list = FilesList::new("l");
    assert!(list.check_write("\u{e9}", 2).is_ok());
    assert!(list.check_write("\u{e9}", 1).is_err());
    assert!(list.check_write("\u{1F600}", 3).is_err());
    assert!(list.check_write("\u{1F600}", 4).is_ok());
}

#[test]
fn suggestion_for_a_cached_module() {
    assert_eq!(
        FilesList::suggest_python_sources_for("a/__pycache__/mod.cpython-311.pyc").unwrap(),
        strings(&["/a/mod.py"])
    );
}

#[test]
fn listed_comment_line_that_sorts_first_reads_back_as_header() {
    let mut list = FilesList::new("l");
    list.ingest("a\n#b\n");
    assert!(list.headers().is_empty());
    assert_eq!(list.listed_files(), &strings(&["#b", "a"]));
    let mut again = FilesList::new("l");
    again.ingest(&written(&list));
    assert_eq!(again.headers(), &strings(&["#b"]));
    assert_eq!(again.listed_files(), &strings(&["a"]));
}

#[test]
fn second_run_finds_the_same_sources_again() {
    let content = "a/__pycache__/mod.cpython-311.pyc\n";
    let existing = strings(&["/a/mod.py"]);
    let mut first = FilesList::new("l");
    let added = first.include_python_source_files(content, &existing).unwrap();
    assert_eq!(added, strings(&["a/mod.py"]));
    let mut second = FilesList::new("l");
    let again = second
        .include_python_source_files(&written(&first), &existing)
        .unwrap();
    assert_eq!(again, added);
    assert_eq!(second.listed_files(), first.listed_files());
}

#[test]
fn carriage_return_stays_in_the_line() {
    let mut list = FilesList::new("l");
    list.ingest("#h\r\nfile\r\n");
    assert_eq!(list.headers(), &strings(&["#h\r"]));
    assert_eq!(list.listed_files(), &strings(&["file\r"]));
}

#[test]
fn ingest_adds_to_what_the_list_holds() {
    let mut list = FilesList::new("l");
    list.ingest("#a\nx\n");
    list.ingest("#b\ny\nx\n");
    assert_eq!(list.headers(), &strings(&["#a", "#b"]));
    assert_eq!(list.listed_files(), &strings(&["x", "y"]));
}
