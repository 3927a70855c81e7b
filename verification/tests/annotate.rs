use path_comment::annotate::{annotate, comment_line, decide, rewrite, AnnotationDecision};

#[test]
fn rust_file_under_root_gets_slash_comment() {
    let out = annotate("/proj", "/proj/src/lib.rs", Some("fn main() {}\n"));
    assert_eq!(out, Some(String::from("// src/lib.rs\n")));
}

#[test]
fn rust_file_keeps_lines_after_the_first() {
    let out = annotate("/proj", "/proj/src/lib.rs", Some("fn main() {}\nfn other() {}\n// end\n"));
    assert_eq!(out, Some(String::from("// src/lib.rs\nfn other() {}\n// end")));
}

#[test]
fn annotated_notes_are_left_alone() {
    let out = annotate("/proj", "/proj/notes.txt", Some("# notes.txt\nhello\n"));
    assert_eq!(out, None);
}

#[test]
fn annotated_notes_at_relative_root_are_left_alone() {
    let out = annotate("", "notes.txt", Some("# notes.txt\nhello\n"));
    assert_eq!(out, None);
}

#[test]
fn missing_file_is_skipped() {
    assert_eq!(annotate("/proj", "/proj/src", None), None);
    assert_eq!(annotate("/proj", "/proj/absent.rs", None), None);
    assert_eq!(annotate("", "", None), None);
}

#[test]
fn second_pass_writes_nothing() {
    let first = annotate("/proj", "/proj/a/b.py", Some("import os\r\nprint(1)\r\n"));
    assert_eq!(first, Some(String::from("# a/b.py\nprint(1)")));
    let text = first.unwrap();
    assert_eq!(annotate("/proj", "/proj/a/b.py", Some(text.as_str())), None);
}

#[test]
fn second_pass_writes_nothing_for_empty_file() {
    let first = annotate("/w", "/w/x.yaml", Some(""));
    assert_eq!(first, Some(String::from("# x.yaml\n")));
    let text = first.unwrap();
    assert_eq!(annotate("/w", "/w/x.yaml", Some(text.as_str())), None);
}

#[test]
fn empty_file_becomes_the_comment() {
    assert_eq!(annotate("/w", "/w/run.sh", Some("")), Some(String::from("# run.sh\n")));
}

#[test]
fn blank_first_line_is_replaced() {
    assert_eq!(annotate("/w", "/w/a.c", Some("\n")), Some(String::from("// a.c\n")));
    assert_eq!(annotate("/w", "/w/a.c", Some("\r\n")), Some(String::from("// a.c\n")));
    assert_eq!(annotate("/w", "/w/a.c", Some("\nint x;\n")), Some(String::from("// a.c\nint x;")));
}

#[test]
fn comment_with_other_prefix_is_not_accepted() {
    let out = annotate("/w", "/w/a.rs", Some("# a.rs\nfn f() {}\n"));
    assert_eq!(out, Some(String::from("// a.rs\nfn f() {}")));
}

#[test]
fn first_line_is_compared_without_outer_white_space() {
    assert_eq!(annotate("/w", "/w/a.rs", Some("  // a.rs \t\r\nfn f() {}\n")), None);
    assert_eq!(annotate("/w", "/w/a.rs", Some("// a.rs")), None);
    assert_eq!(annotate("/w", "/w/a.rs", Some("\u{a0}// a.rs\u{3000}\n")), None);
    assert_eq!(
        annotate("/w", "/w/a.rs", Some("//  a.rs\n")),
        Some(String::from("// a.rs\n"))
    );
}

#[test]
fn path_outside_root_is_written_whole() {
    let out = annotate("/proj", "/other/m.ts", Some("x\ny"));
    assert_eq!(out, Some(String::from("// /other/m.ts\ny")));
}

#[test]
fn comment_line_has_prefix_space_path_newline() {
    assert_eq!(comment_line("/proj", "/proj/src/lib.rs"), "// src/lib.rs\n");
    assert_eq!(comment_line("/proj", "/proj/notes.txt"), "# notes.txt\n");
    assert_eq!(comment_line("/proj", "/proj/Makefile"), "# Makefile\n");
    assert_eq!(comment_line("/proj/", "/proj/a/B.JAVA"), "// a/B.JAVA\n");
    assert_eq!(comment_line("/proj", "/elsewhere/x.cpp"), "// /elsewhere/x.cpp\n");
    assert_eq!(comment_line("", "rel/x.js"), "// rel/x.js\n");
}

#[test]
fn decide_reports_comment_and_presence() {
    let d = decide("/proj", "/proj/a.yml", "# a.yml\nk: v\n");
    assert_eq!(d.comment_text, "# a.yml\n");
    assert!(d.already_present);
    let d = decide("/proj", "/proj/a.yml", "k: v\n");
    assert_eq!(d.comment_text, "# a.yml\n");
    assert!(!d.already_present);
    let d: AnnotationDecision = decide("/proj", "/proj/a.yml", "");
    assert!(!d.already_present);
}

#[test]
fn rewrite_joins_later_lines_with_newline() {
    assert_eq!(rewrite("# c\n", "one\ntwo\nthree\n"), "# c\ntwo\nthree");
    assert_eq!(rewrite("# c\n", "one\r\ntwo\r\nthree"), "# c\ntwo\nthree");
    assert_eq!(rewrite("# c\n", "one\ntwo\n\n"), "# c\ntwo\n");
    assert_eq!(rewrite("# c\n", "one\n\n\n"), "# c\n\n");
    assert_eq!(rewrite("# c\n", "one\ntwo\r"), "# c\ntwo\r");
    assert_eq!(rewrite("# c\n", "one\ntwo\r\r\n"), "# c\ntwo\r");
    assert_eq!(rewrite("# c\n", "one"), "# c\n");
    assert_eq!(rewrite("# c\n", ""), "# c\n");
    assert_eq!(rewrite("", "a\nb\nc"), "b\nc");
}

#[test]
fn rewrite_keeps_text_outside_ascii() {
    assert_eq!(rewrite("# \u{e9}\n", "x\n\u{4e16}\u{754c}\n\u{1f600}"), "# \u{e9}\n\u{4e16}\u{754c}\n\u{1f600}");
}
