use inscope::markers::{
    apply_scope_marker, has_scope_marker, is_system_file, line_is_scope_marker, marker_for_file,
    remove_scope_marker,
};

#[test]
fn marker_lines_are_recognised_after_trimming() {
    for line in [
        "// @scope", "//@scope", "# @scope", "#@scope", "-- @scope", "--@scope", "/* @scope */",
        "/*@scope*/", "<!-- @scope -->", "<!--@scope-->", "   // @scope\t", "# @scope\r",
    ] {
        assert!(line_is_scope_marker(line), "{line:?}");
    }
    for line in ["// @scope!", "// scope", "", "//  @scope", "#!/bin/sh"] {
        assert!(!line_is_scope_marker(line), "{line:?}");
    }
}

#[test]
fn has_scope_marker_looks_at_first_line_or_after_shebang() {
    assert!(has_scope_marker("// @scope\nfn main() {}\n"));
    assert!(has_scope_marker("#!/bin/sh\n# @scope\necho\n"));
    assert!(has_scope_marker("#!/bin/sh\r\n# @scope\r\n"));
    assert!(!has_scope_marker("fn main() {}\n// @scope\n"));
    assert!(!has_scope_marker("#!/bin/sh\necho\n# @scope\n"));
    assert!(!has_scope_marker(""));
    assert!(!has_scope_marker("#!/bin/sh"));
}

#[test]
fn apply_puts_marker_on_top() {
    assert_eq!(
        apply_scope_marker("fn main() {}\n", "// @scope"),
        ("// @scope\nfn main() {}\n".to_string(), true)
    );
    assert_eq!(apply_scope_marker("", "# @scope"), ("# @scope\n".to_string(), true));
}

#[test]
fn apply_puts_marker_after_shebang() {
    assert_eq!(
        apply_scope_marker("#!/bin/sh\necho hi\n", "# @scope"),
        ("#!/bin/sh\n# @scope\necho hi\n".to_string(), true)
    );
    assert_eq!(
        apply_scope_marker("#!/bin/sh", "# @scope"),
        ("#!/bin/sh\n# @scope\n".to_string(), true)
    );
}

#[test]
fn apply_leaves_marked_text_alone() {
    let text = "// @scope\nfn main() {}\n";
    assert_eq!(apply_scope_marker(text, "// @scope"), (text.to_string(), false));
    let (once, _) = apply_scope_marker("x = 1\n", "# @scope");
    assert_eq!(apply_scope_marker(&once, "# @scope"), (once.clone(), false));
}

#[test]
fn remove_takes_marker_out() {
    assert_eq!(
        remove_scope_marker("// @scope\nfn main() {}\n"),
        ("fn main() {}\n".to_string(), true)
    );
    assert_eq!(
        remove_scope_marker("#!/bin/sh\n# @scope\necho\n"),
        ("#!/bin/sh\necho\n".to_string(), true)
    );
    assert_eq!(remove_scope_marker("// @scope\n"), (String::new(), true));
    assert_eq!(remove_scope_marker("// @scope"), (String::new(), true));
}

#[test]
fn remove_rejoins_lines_with_newline() {
    assert_eq!(
        remove_scope_marker("// @scope\r\na\r\nb\r\n"),
        ("a\nb\n".to_string(), true)
    );
    assert_eq!(remove_scope_marker("// @scope\na\nb"), ("a\nb".to_string(), true));
}

#[test]
fn remove_without_marker_changes_nothing() {
    assert_eq!(remove_scope_marker("a\nb\n"), ("a\nb\n".to_string(), false));
    assert_eq!(remove_scope_marker(""), (String::new(), false));
    assert_eq!(
        remove_scope_marker("#!/bin/sh\necho\n"),
        ("#!/bin/sh\necho\n".to_string(), false)
    );
}

#[test]
fn remove_undoes_apply() {
    for text in ["fn main() {}\n", "", "a", "a\n\nb", "#!/bin/sh\necho\n", "\n\n"] {
        let (marked, changed) = apply_scope_marker(text, "// @scope");
        assert!(changed);
        assert_eq!(remove_scope_marker(&marked), (text.to_string(), true));
    }
}

#[test]
fn remove_does_not_undo_apply_on_a_lone_newline() {
    let (marked, _) = apply_scope_marker("\n", "// @scope");
    assert_eq!(remove_scope_marker(&marked), (String::new(), true));
}

#[test]
fn marker_for_file_follows_extension_table() {
    let slash = ["rs", "js", "ts", "jsx", "tsx", "sol", "c", "cpp", "h", "hpp", "java", "go", "swift", "kt"];
    for ext in slash {
        assert_eq!(marker_for_file(&format!("dir/file.{ext}"), ""), Some("// @scope"), "{ext}");
    }
    for ext in ["py", "sh", "bash", "zsh", "rb", "yml", "yaml", "toml"] {
        assert_eq!(marker_for_file(&format!("file.{ext}"), ""), Some("# @scope"), "{ext}");
    }
    assert_eq!(marker_for_file("q.sql", ""), Some("-- @scope"));
    assert_eq!(marker_for_file("init.lua", ""), Some("-- @scope"));
    assert_eq!(marker_for_file("site.css", ""), Some("/* @scope */"));
    for ext in ["html", "xml", "md"] {
        assert_eq!(marker_for_file(&format!("page.{ext}"), ""), Some("<!-- @scope -->"));
    }
}

#[test]
fn marker_for_file_ignores_case_and_skips_json() {
    assert_eq!(marker_for_file("Main.RS", ""), Some("// @scope"));
    assert_eq!(marker_for_file("README.Md", ""), Some("<!-- @scope -->"));
    assert_eq!(marker_for_file("data.json", "#!/usr/bin/env node"), None);
    assert_eq!(marker_for_file("data.txt", ""), None);
}

#[test]
fn marker_for_file_falls_back_to_shebang() {
    assert_eq!(marker_for_file("bin/run", "#!/bin/sh\necho"), Some("# @scope"));
    assert_eq!(marker_for_file("notes.txt", "#!x"), Some("# @scope"));
    assert_eq!(marker_for_file(".bashrc", "#!/bin/bash"), Some("# @scope"));
    assert_eq!(marker_for_file(".bashrc", "echo"), None);
    assert_eq!(marker_for_file("bin/run", "echo"), None);
}

#[test]
fn system_files_are_not_read() {
    assert!(is_system_file(".DS_Store"));
    assert!(is_system_file("a/b/.DS_Store"));
    assert!(!is_system_file("a/.DS_Store/x.rs"));
    assert!(!is_system_file("a/b.rs"));
}

#[test]
fn apply_marks_with_a_marker_ending_in_carriage_return() {
    for text in ["x = 1\n", "#!/bin/sh\necho\n", "#!/bin/sh", ""] {
        let (marked, changed) = apply_scope_marker(text, "# @scope\r");
        assert!(changed);
        assert!(has_scope_marker(&marked), "{text:?}");
        assert_eq!(apply_scope_marker(&marked, "# @scope\r"), (marked.clone(), false));
    }
}
