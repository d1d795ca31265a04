use fudiff::message::decimal_of;
use fudiff::parser::white_space;
use fudiff::text::{assemble_text, join, lines_of};
use fudiff::{Error, FuDiff, Hunk};

fn lines(items: &[&str]) -> Vec<String> {
    items.iter().map(|s| s.to_string()).collect()
}

fn hunk(before: &[&str], deletions: &[&str], additions: &[&str], after: &[&str]) -> Hunk {
    Hunk {
        context_before: lines(before),
        deletions: lines(deletions),
        additions: lines(additions),
        context_after: lines(after),
    }
}

fn apply_message(result: Result<String, Error>) -> String {
    match result {
        Err(Error::Apply(message)) => message,
        other => panic!("expected an apply error, got {:?}", other),
    }
}

fn parse_message(result: Result<FuDiff, Error>) -> String {
    match result {
        Err(Error::Parse(message)) => message,
        other => panic!("expected a parse error, got {:?}", other),
    }
}

// ---- lines of a text ----

#[test]
fn lines_end_at_line_feeds() {
    assert_eq!(lines_of("a\nb\nc"), lines(&["a", "b", "c"]));
    assert_eq!(lines_of("a\nb\nc\n"), lines(&["a", "b", "c"]));
    assert_eq!(lines_of(""), Vec::<String>::new());
    assert_eq!(lines_of("\n"), lines(&[""]));
    assert_eq!(lines_of("\n\na\n\n"), lines(&["", "", "a", ""]));
}

#[test]
fn lines_drop_a_carriage_return_before_a_line_feed() {
    assert_eq!(lines_of("a\r\nb\r\n"), lines(&["a", "b"]));
    assert_eq!(lines_of("a\r\r\nb"), lines(&["a\r", "b"]));
    assert_eq!(lines_of("a\rb\n"), lines(&["a\rb"]));
    assert_eq!(lines_of("foo\nbar\n\r\nbaz\r"), lines(&["foo", "bar", "", "baz\r"]));
}

#[test]
fn lines_agree_with_the_standard_library() {
    let texts = [
        "",
        "\n",
        "\r",
        "\r\n",
        "a",
        "a\n",
        "a\r\n",
        "a\n\nb",
        "a\r\n\r\nb\r",
        "x\ry\r\rz\r\r\n\n",
        "héllo\nwörld\n",
    ];
    for text in texts {
        let expected: Vec<String> = text.lines().map(|l| l.to_string()).collect();
        assert_eq!(lines_of(text), expected, "lines of {:?}", text);
    }
}

#[test]
fn joined_lines_have_line_feeds_between_them() {
    assert_eq!(join(&lines(&[])), "");
    assert_eq!(join(&lines(&["a"])), "a");
    assert_eq!(join(&lines(&["a", "", "b"])), "a\n\nb");
    assert_eq!(assemble_text(&lines(&[]), true), "");
    assert_eq!(assemble_text(&lines(&["a", "b"]), true), "a\nb\n");
    assert_eq!(assemble_text(&lines(&["a", "b"]), false), "a\nb");
}

#[test]
fn numbers_are_written_in_decimal() {
    assert_eq!(decimal_of(0), "0");
    assert_eq!(decimal_of(7), "7");
    assert_eq!(decimal_of(10), "10");
    assert_eq!(decimal_of(1234567890), "1234567890");
    assert_eq!(decimal_of(usize::MAX), usize::MAX.to_string());
}

#[test]
fn white_space_is_what_the_standard_library_says() {
    let mut code: u32 = 0;
    while code <= 0x10FFFF {
        if let Some(c) = char::from_u32(code) {
            assert_eq!(white_space(c), c.is_whitespace(), "character {:#x}", code);
        }
        code += 1;
    }
    assert!(white_space(' ') && white_space('\n') && white_space('\u{3000}'));
    assert!(!white_space('@') && !white_space('\u{180E}') && !white_space('\u{FEFF}'));
}

// ---- the differ ----

#[test]
fn equal_texts_have_no_hunks() {
    for text in ["", "a", "a\nb\nc", "a\nb\nc\n", "\n\n"] {
        let diff = FuDiff::diff(text, text);
        assert!(diff.hunks.is_empty());
        assert_eq!(diff.patch(text).unwrap(), text);
    }
}

#[test]
fn texts_with_the_same_lines_have_no_hunks() {
    let diff = FuDiff::diff("a\nb\n", "a\r\nb");
    assert!(diff.hunks.is_empty());
    assert_eq!(diff.patch("a\nb\n").unwrap(), "a\nb\n");
}

#[test]
fn diff_from_an_empty_text_only_adds() {
    let diff = FuDiff::diff("", "a\nb");
    assert_eq!(diff.hunks, vec![hunk(&[], &[], &["a", "b"], &[])]);
}

#[test]
fn diff_to_an_empty_text_only_deletes() {
    let diff = FuDiff::diff("x\ny", "");
    assert_eq!(diff.hunks, vec![hunk(&[], &["x", "y"], &[], &[])]);
}

#[test]
fn diff_takes_the_whole_shared_start_as_context() {
    let diff = FuDiff::diff("1\n2\n3\n4\n5\nold", "1\n2\n3\n4\n5\nnew");
    assert_eq!(diff.hunks, vec![hunk(&["1", "2", "3", "4", "5"], &["old"], &["new"], &[])]);
}

#[test]
fn diff_hands_at_most_three_lines_on_as_context() {
    let diff = FuDiff::diff("a\n1\n2\n3\n4\nb", "x\n1\n2\n3\n4\ny");
    assert_eq!(
        diff.hunks,
        vec![hunk(&[], &["a"], &["x"], &[]), hunk(&["1", "2", "3"], &["4", "b"], &["4", "y"], &[])]
    );
}

#[test]
fn diff_prefers_the_smaller_sum_of_offsets() {
    // The texts meet at offsets (0, 2) and (1, 1): the sums are equal, and
    // the smaller offset into the old text wins.
    let diff = FuDiff::diff("p\nq", "x\nq\np");
    assert_eq!(
        diff.hunks,
        vec![hunk(&[], &[], &["x", "q"], &[]), hunk(&["p"], &["q"], &[], &[])]
    );
    // Offsets (0, 3) have the sum 3, offsets (2, 2) the sum 4.
    let diff = FuDiff::diff("p\na\nq", "x\ny\nq\np");
    assert_eq!(diff.hunks[0], hunk(&[], &[], &["x", "y", "q"], &[]));
}

#[test]
fn diff_looks_three_lines_ahead_and_no_further() {
    let diff = FuDiff::diff("a\nb\nc\nz", "z");
    assert_eq!(diff.hunks, vec![hunk(&[], &["a", "b", "c"], &[], &[])]);
    assert_eq!(diff.patch("a\nb\nc\nz").unwrap(), "z");
    let diff = FuDiff::diff("a\nb\nc\nd\nz", "z");
    assert_eq!(diff.hunks, vec![hunk(&[], &["a", "b", "c", "d", "z"], &["z"], &[])]);
}

#[test]
fn diff_hunks_always_change_something() {
    let pairs = [
        ("a\nb\nc\nd\ne", "a\nx\nc\ny\ne"),
        ("one\ntwo", "two\none"),
        ("", "x"),
        ("a\nb\nc\nd\ne\nf\ng", "g\nf\ne\nd\nc\nb\na"),
    ];
    for (old, new) in pairs {
        for hunk in FuDiff::diff(old, new).hunks {
            assert!(!hunk.deletions.is_empty() || !hunk.additions.is_empty());
            assert!(hunk.context_after.is_empty());
        }
    }
}

#[test]
fn the_free_function_is_the_method() {
    assert_eq!(fudiff::diff("a\nb", "a\nc").hunks, FuDiff::diff("a\nb", "a\nc").hunks);
    assert_eq!(fudiff::parse("@@ @@\n-a\n").unwrap().hunks, vec![hunk(&[], &["a"], &[], &[])]);
}

// ---- diff, patch and revert together ----

#[test]
fn patch_undoes_diff() {
    let pairs = [
        ("a\nb\nc\n", "a\nx\nc\n"),
        ("a\nb\nc\n", "a\nc\n"),
        ("a\nc\n", "a\nb\nc\n"),
        ("", "one\ntwo"),
        ("x", "y"),
        ("a\nb\nc\nd\ne\nf\ng\nh", "a\nb\nX\nd\ne\nf\nY\nh"),
        ("p\nq", "x\nq\np"),
    ];
    for (old, new) in pairs {
        let diff = FuDiff::diff(old, new);
        assert_eq!(diff.patch(old).unwrap(), new, "from {:?} to {:?}", old, new);
    }
}

#[test]
fn revert_undoes_patch() {
    let pairs = [
        ("a\nb\nc\n", "a\nx\nc\n"),
        ("a\nb\nc\n", "a\nc\n"),
        ("a\nc\n", "a\nb\nc\n"),
        ("x", "y"),
        ("a\nb\nc\nd\ne\nf\ng\nh", "a\nb\nX\nd\ne\nf\nY\nh"),
    ];
    for (old, new) in pairs {
        let diff = FuDiff::diff(old, new);
        let patched = diff.patch(old).unwrap();
        assert_eq!(diff.revert(&patched).unwrap(), old, "from {:?} to {:?}", old, new);
    }
}

#[test]
fn a_diff_whose_context_repeats_does_not_apply() {
    let old = "a\nb\na\nc";
    let new = "a\nc\na\nc";
    let diff = FuDiff::diff(old, new);
    assert_eq!(diff.hunks, vec![hunk(&["a"], &["b"], &["c"], &[])]);
    match diff.patch(old) {
        Err(Error::AmbiguousMatch(message)) => {
            assert_eq!(message, "Multiple matches for context: [\"a\"]");
        }
        other => panic!("expected an ambiguous match, got {:?}", other),
    }
}

#[test]
fn the_patched_text_ends_as_the_input_does() {
    let diff = FuDiff::diff("", "one\ntwo\n");
    assert_eq!(diff.patch("").unwrap(), "one\ntwo");
    let diff = FuDiff::diff("a\n", "b");
    assert_eq!(diff.patch("a\n").unwrap(), "b\n");
}

#[test]
fn a_deleted_last_line_takes_the_line_feed_with_it() {
    let diff = FuDiff::diff("a\nb\n", "a\n");
    assert_eq!(diff.hunks, vec![hunk(&["a"], &["b"], &[], &[])]);
    assert_eq!(diff.patch("a\nb\n").unwrap(), "a");
}

#[test]
fn revert_of_a_line_added_at_the_end_takes_the_line_feed_with_it() {
    let diff = FuDiff::diff("a\n", "a\nb\n");
    let patched = diff.patch("a\n").unwrap();
    assert_eq!(patched, "a\nb\n");
    assert_eq!(diff.revert(&patched).unwrap(), "a");
}

#[test]
fn revert_cannot_bring_back_a_line_feed_that_patch_dropped() {
    let diff = FuDiff::diff("a\nb\n", "a\n");
    let patched = diff.patch("a\nb\n").unwrap();
    assert_eq!(patched, "a");
    assert_eq!(diff.revert(&patched).unwrap(), "a\nb");
}

// ---- the patcher ----

#[test]
fn ambiguity_detection() {
    let diff = FuDiff { hunks: vec![hunk(&["a", "b"], &[], &[], &[])] };
    match diff.patch("a\nb\na\nb\nc") {
        Err(Error::AmbiguousMatch(message)) => {
            assert_eq!(message, "Multiple matches for context: [\"a\", \"b\"]");
        }
        other => panic!("expected an ambiguous match, got {:?}", other),
    }
}

#[test]
fn ambiguity_counts_from_the_cursor_on() {
    // The second hunk's context occurs twice in the text, but only once
    // after the first hunk.
    let diff = FuDiff {
        hunks: vec![hunk(&["a", "b"], &[], &["B"], &[]), hunk(&["a"], &["c"], &["C"], &[])],
    };
    assert_eq!(diff.patch("a\nb\na\nc").unwrap(), "a\nb\nB\na\nC");
}

#[test]
fn deletion_mismatch() {
    let diff = FuDiff { hunks: vec![hunk(&["a"], &["b"], &[], &[])] };
    assert_eq!(
        apply_message(diff.patch("a\nx")),
        "Deletion mismatch at line 2 - expected 'b', found 'x'"
    );
}

#[test]
fn deletion_mismatch_names_the_first_line_that_differs() {
    let text = "1\n2\n3\n4\n5\n6\n7\n8\n9\n10\n11\n12\n13";
    let diff = FuDiff { hunks: vec![hunk(&["9"], &["10", "11", "x", "y"], &[], &[])] };
    assert_eq!(
        apply_message(diff.patch(text)),
        "Deletion mismatch at line 12 - expected 'x', found '12'"
    );
}

#[test]
fn deletion_past_the_end() {
    let diff = FuDiff { hunks: vec![hunk(&["a"], &["x", "y"], &[], &[])] };
    assert_eq!(apply_message(diff.patch("a\nb")), "Deletion extends past end of file");
}

#[test]
fn missing_context() {
    let diff = FuDiff { hunks: vec![hunk(&["gone", "too"], &["b"], &[], &[])] };
    assert_eq!(
        apply_message(diff.patch("a\nb")),
        "Could not find context: [\"gone\", \"too\"]"
    );
    let diff = FuDiff { hunks: vec![hunk(&["say \"hi\"\t"], &[], &[], &[])] };
    assert_eq!(
        apply_message(diff.patch("a")),
        "Could not find context: [\"say \\\"hi\\\"\\t\"]"
    );
}

#[test]
fn context_before_the_cursor_is_not_found() {
    let diff = FuDiff {
        hunks: vec![hunk(&["b"], &["c"], &[], &[]), hunk(&["a"], &[], &["x"], &[])],
    };
    assert_eq!(apply_message(diff.patch("a\nb\nc\nd")), "Could not find context: [\"a\"]");
}

#[test]
fn newline_fidelity() {
    let diff = FuDiff { hunks: vec![hunk(&[], &["start"], &["start"], &[])] };
    assert_eq!(diff.patch("start\n").unwrap(), "start\n");
    assert_eq!(diff.patch("start").unwrap(), "start");
}

#[test]
fn a_line_deleted_in_the_middle_leaves_the_line_feed() {
    let diff = FuDiff { hunks: vec![hunk(&["a"], &["b"], &[], &[])] };
    assert_eq!(diff.patch("a\nb\nc\n").unwrap(), "a\nc\n");
    assert_eq!(diff.patch("a\nb\nc").unwrap(), "a\nc");
    assert_eq!(diff.patch("a\nb\n").unwrap(), "a");
}

#[test]
fn a_hunk_without_changes_leaves_the_text() {
    let diff = FuDiff { hunks: vec![hunk(&["a"], &[], &[], &[])] };
    assert_eq!(diff.patch("a\nb\n").unwrap(), "a\nb\n");
    assert_eq!(diff.patch("a\nb").unwrap(), "a\nb");
}

#[test]
fn empty_input_addition() {
    let diff = FuDiff { hunks: vec![hunk(&[], &[], &["new"], &[])] };
    assert_eq!(diff.patch("").unwrap(), "new");
    let diff = FuDiff { hunks: vec![hunk(&[], &["old"], &["new"], &[])] };
    assert_eq!(apply_message(diff.patch("")), "Cannot apply patch to empty input");
    let diff = FuDiff {
        hunks: vec![hunk(&[], &[], &["new"], &[]), hunk(&[], &["old"], &[], &[])],
    };
    assert_eq!(apply_message(diff.patch("")), "Cannot apply patch to empty input");
}

#[test]
fn no_hunks_leave_the_input_unchanged() {
    let diff = FuDiff { hunks: vec![] };
    assert_eq!(diff.patch("a\r\nb\n\n").unwrap(), "a\r\nb\n\n");
    assert_eq!(diff.revert("a\r\nb\n\n").unwrap(), "a\r\nb\n\n");
    assert_eq!(diff.patch("").unwrap(), "");
}

#[test]
fn lines_skipped_before_the_context_are_copied() {
    let diff = FuDiff { hunks: vec![hunk(&["c"], &["d"], &["D"], &["e"])] };
    assert_eq!(diff.patch("a\nb\nc\nd\ne\nf").unwrap(), "a\nb\nc\nD\ne\nf");
}

#[test]
fn patching_everything_away_gives_the_empty_text() {
    let diff = FuDiff { hunks: vec![hunk(&[], &["a", "b"], &[], &[])] };
    assert_eq!(diff.patch("a\nb\n").unwrap(), "");
}

#[test]
fn revert_exchanges_additions_and_deletions() {
    let diff = FuDiff { hunks: vec![hunk(&["a"], &["b"], &["x", "y"], &["c"])] };
    assert_eq!(diff.patch("a\nb\nc").unwrap(), "a\nx\ny\nc");
    assert_eq!(diff.revert("a\nx\ny\nc").unwrap(), "a\nb\nc");
    assert_eq!(
        apply_message(diff.revert("a\nb\nc")),
        "Deletion mismatch at line 2 - expected 'x', found 'b'"
    );
}

// ---- the renderer and the parser ----

#[test]
fn render_writes_each_kind_of_line_behind_its_marker() {
    let diff = FuDiff {
        hunks: vec![
            hunk(&["a"], &["b"], &["c"], &["d"]),
            hunk(&["e"], &["f"], &["g"], &["h", "i"]),
        ],
    };
    assert_eq!(diff.render(), "@@ @@\n a\n-b\n+c\n d\n@@ @@\n e\n-f\n+g\n h\n i");
}

#[test]
fn render_ends_with_a_line_feed_without_context_after() {
    let diff = FuDiff { hunks: vec![hunk(&[], &["b"], &["c"], &[])] };
    assert_eq!(diff.render(), "@@ @@\n-b\n+c\n");
    let diff = FuDiff { hunks: vec![hunk(&[], &[], &[], &[])] };
    assert_eq!(diff.render(), "@@ @@\n");
    let diff = FuDiff { hunks: vec![] };
    assert_eq!(diff.render(), "");
}

#[test]
fn parse_undoes_render() {
    let diffs = [
        vec![],
        vec![hunk(&[], &[], &[], &[])],
        vec![hunk(&["a"], &["b"], &["c"], &["d"])],
        vec![hunk(&["a", ""], &["", "b"], &[], &["d", ""]), hunk(&[], &[], &["-x", "+"], &["y\r"])],
        vec![hunk(&["@@ @@"], &["+++"], &["---"], &[" "]), hunk(&["é"], &["-"], &["+"], &[])],
    ];
    for hunks in diffs {
        let text = FuDiff { hunks: hunks.clone() }.render();
        assert_eq!(FuDiff::parse(&text).unwrap().hunks, hunks, "read from {:?}", text);
    }
}

#[test]
fn a_deletion_that_looks_like_a_file_header_is_not_read_back() {
    let diff = FuDiff { hunks: vec![hunk(&["a"], &["-- b", "c"], &[], &[])] };
    assert_eq!(diff.render(), "@@ @@\n a\n--- b\n-c\n");
    assert_eq!(FuDiff::parse(&diff.render()).unwrap().hunks, vec![hunk(&["a"], &["c"], &[], &[])]);
}

#[test]
fn context_after_no_change_is_read_back_as_context_before() {
    let diff = FuDiff { hunks: vec![hunk(&["a"], &[], &[], &["b"])] };
    assert_eq!(diff.render(), "@@ @@\n a\n b");
    assert_eq!(
        FuDiff::parse(&diff.render()).unwrap().hunks,
        vec![hunk(&["a", "b"], &[], &[], &[])]
    );
}

#[test]
fn a_carriage_return_before_a_line_feed_is_not_read_back() {
    let diff = FuDiff { hunks: vec![hunk(&["a\r"], &["b"], &[], &["c\r", "d\r"])] };
    assert_eq!(diff.render(), "@@ @@\n a\r\n-b\n c\r\n d\r");
    assert_eq!(
        FuDiff::parse(&diff.render()).unwrap().hunks,
        vec![hunk(&["a"], &["b"], &[], &["c", "d\r"])]
    );
}

#[test]
fn parse_reads_white_space_as_the_empty_diff() {
    for text in ["", " ", "\n\n", " \t\r\n \u{A0}\u{3000}"] {
        assert!(FuDiff::parse(text).unwrap().hunks.is_empty());
    }
}

#[test]
fn parse_wants_a_marker() {
    assert_eq!(parse_message(FuDiff::parse("--- a\n+++ b\n")), "No hunks found in diff");
    assert_eq!(parse_message(FuDiff::parse("@ @")), "No hunks found in diff");
}

#[test]
fn parse_wants_lines_to_stand_in_a_hunk() {
    assert_eq!(parse_message(FuDiff::parse("a @@ b")), "Line found outside of hunk");
    assert_eq!(parse_message(FuDiff::parse("@@ only once\n a")), "Line found outside of hunk");
    assert_eq!(parse_message(FuDiff::parse("  \n@@ @@\n")), "Line found outside of hunk");
}

#[test]
fn parse_wants_one_of_three_markers() {
    assert_eq!(parse_message(FuDiff::parse("@@ @@\n a\n# b")), "Invalid line prefix: #");
    assert_eq!(parse_message(FuDiff::parse("@@ @@\n@@ again")), "Invalid line prefix: @");
    assert_eq!(parse_message(FuDiff::parse("@@ @@\nétude")), "Invalid line prefix: é");
}

#[test]
fn parse_skips_empty_lines_and_file_headers() {
    let text = "--- a/file\n+++ b/file\n\n@@ -1,2 +1,2 @@ fn main()\n a\n\n\
                --- inside\n-b\n+++ also\n+c\n";
    assert_eq!(FuDiff::parse(text).unwrap().hunks, vec![hunk(&["a"], &["b"], &["c"], &[])]);
}

#[test]
fn parse_tells_context_before_from_context_after() {
    let text = "@@ @@\n a\n b\n+c\n d\n-e\n f\n@@@@\n g\n";
    assert_eq!(
        FuDiff::parse(text).unwrap().hunks,
        vec![hunk(&["a", "b"], &["e"], &["c"], &["d", "f"]), hunk(&["g"], &[], &[], &[])]
    );
}

#[test]
fn parse_reads_lines_that_end_with_a_carriage_return() {
    let text = "@@ @@\r\n a\r\n-b\r\n+c\r\n";
    assert_eq!(FuDiff::parse(text).unwrap().hunks, vec![hunk(&["a"], &["b"], &["c"], &[])]);
}

// ---- all of it together ----

#[test]
fn long_texts_with_many_changes() {
    let mut old = String::new();
    let mut new = String::new();
    for k in 0..4000 {
        old.push_str(&format!("line {}\n", k));
        if k % 10 == 3 {
            new.push_str(&format!("changed {}\n", k));
        } else if k % 10 != 7 {
            new.push_str(&format!("line {}\n", k));
        }
        if k % 10 == 9 && k < 3990 {
            new.push_str(&format!("added {}\n", k));
        }
    }
    let diff = FuDiff::diff(&old, &new);
    assert_eq!(diff.hunks.len(), 1199);
    let read = FuDiff::parse(&diff.render()).unwrap();
    assert!(read.hunks == diff.hunks, "the diff is not read back");
    let patched = read.patch(&old).unwrap();
    assert!(patched == new, "the patch does not give the new text");
    assert!(read.revert(&patched).unwrap() == old, "the revert does not give the old text");
}

#[test]
fn end_to_end_scenario() {
    let old = "fn main() {\n    println!(\"Hello\");\n}";
    let new = "fn main() {\n    println!(\"Goodbye\");\n}";
    let diff = FuDiff::diff(old, new);
    assert_eq!(diff.hunks.len(), 1);
    assert_eq!(diff.hunks[0].context_before, lines(&["fn main() {"]));
    assert_eq!(diff.hunks[0].deletions, lines(&["    println!(\"Hello\");"]));
    assert_eq!(diff.hunks[0].additions, lines(&["    println!(\"Goodbye\");"]));
    // The line after the change is handed on as the context of a next
    // hunk; none follows, since nothing changes after it.
    assert_eq!(diff.hunks[0].context_after, lines(&[]));
    assert_eq!(
        diff.render(),
        "@@ @@\n fn main() {\n-    println!(\"Hello\");\n+    println!(\"Goodbye\");\n"
    );
    assert_eq!(diff.patch(old).unwrap(), new);
    assert_eq!(diff.revert(new).unwrap(), old);

    let written = FuDiff {
        hunks: vec![hunk(
            &["fn main() {"],
            &["    println!(\"Hello\");"],
            &["    println!(\"Goodbye\");"],
            &["}"],
        )],
    };
    assert_eq!(
        written.render(),
        "@@ @@\n fn main() {\n-    println!(\"Hello\");\n+    println!(\"Goodbye\");\n }"
    );
    assert_eq!(written.patch(old).unwrap(), new);
    let read = FuDiff::parse(&written.render()).unwrap();
    assert_eq!(read.hunks, written.hunks);
    assert_eq!(read.patch(old).unwrap(), new);
}
