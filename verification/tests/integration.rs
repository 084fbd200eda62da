use prose::Width;
use prose::{reformat, FormatMode, FormatOpts, Input};

#[test]
fn test_blank_string() {
    let opts = FormatOpts::default();
    let data = "";
    let result = reformat(&opts, data);
    assert_eq!(result, "");
}

#[test]
fn test_basic_wrap() {
    let data = "Lot's of string data... to be reformatted";
    let opts = FormatOpts::with_max_length(25);
    let new_data = reformat(&opts, data);
    assert_eq!(new_data, "Lot's of string data...\nto be reformatted");
}

#[test]
fn test_width_30() {
    let opts = FormatOpts::with_max_length(30);
    let data = "We the people of the United States, in order to form a more perfect union.";
    let result = reformat(&opts, data);
    assert_eq!(
        result,
        "We the people of the United\nStates, in order to form a\nmore perfect union."
    );
}

#[test]
fn test_idempotent_on_wrapped_text() {
    let opts = FormatOpts::with_max_length(30);
    let data = "We the people of the United States, in order to form a more perfect union.";
    let once = reformat(&opts, data);
    let twice = reformat(&opts, &once);
    assert_eq!(twice, once);
}

#[test]
fn test_quote_preservation() {
    let opts = FormatOpts::with_max_length(40);
    let data = "> We the people of the United States, in order\n> to form a more perfect union.";
    let result = reformat(&opts, data);
    assert!(!result.is_empty());
    for line in result.lines() {
        assert!(line.starts_with("> "), "line {:?} lost its quote", line);
    }
}

#[test]
fn test_quote_blank_line_preserved() {
    let opts = FormatOpts::with_max_length(40);
    let data = "> alpha\n>\n> beta";
    let result = reformat(&opts, data);
    assert_eq!(result, "> alpha\n>\n> beta");
}

#[test]
fn test_mixed_quote_levels() {
    let opts = FormatOpts::with_max_length(40);
    let data = ">> inner words here\n> outer words here";
    let result = reformat(&opts, data);
    let lines: Vec<&str> = result.lines().collect();
    assert!(lines[0].starts_with(">> "));
    assert!(lines[lines.len() - 1].starts_with("> "));
}

#[test]
fn test_code_comment_preservation() {
    let opts = FormatOpts::new(40, false, false, FormatMode::Code, 4);
    let data =
        "// This is a long comment that should be reformatted to fit within the target width.";
    let result = reformat(&opts, data);
    assert!(result.contains('\n'));
    for line in result.lines() {
        assert!(line.starts_with("// "), "line {:?} lost its comment prefix", line);
    }
}

#[test]
fn test_markdown_gate_rejects_heading() {
    let opts = FormatOpts::new(40, false, false, FormatMode::Markdown, 4);
    let heading = "# Heading";
    assert_eq!(reformat(&opts, heading), "# Heading");
}

#[test]
fn test_markdown_gate_accepts_paragraph() {
    let opts = FormatOpts::new(40, false, false, FormatMode::Markdown, 4);
    let para = "This is a long paragraph that should be reformatted to fit within the target width.";
    let result = reformat(&opts, para);
    assert!(result.contains('\n'));
    for line in result.lines() {
        assert!(line.len() <= 40);
    }
}

#[test]
fn test_tab_expansion() {
    let opts = FormatOpts::with_max_length(40);
    let data = "col\tone two\ncol\tthree four";
    let result = reformat(&opts, data);
    assert!(!result.contains('\t'));
}

#[test]
fn test_tab_expansion_exact() {
    // tabs expand to tab_width spaces before analysis, so the common
    // prefix "col     " (with the expanded spaces) is recognized
    let opts = FormatOpts::new(12, false, false, FormatMode::PlainText, 4);
    let data = "col\tone\ncol\ttwo";
    let result = reformat(&opts, data);
    assert!(!result.contains('\t'));
    for line in result.lines() {
        assert!(line.starts_with("col    "), "line {:?}", line);
    }
}

#[test]
fn test_box_comment_alignment() {
    let opts = FormatOpts::with_max_length(20);
    let data = "* the quick brown *\n* fox jumps over  *\n* the lazy dog    *";
    let result = reformat(&opts, data);
    let cols: Vec<usize> = result
        .lines()
        .map(|l| {
            assert!(l.starts_with("* "), "line {:?}", l);
            assert!(l.ends_with(" *"), "line {:?}", l);
            l.chars().count()
        })
        .collect();
    assert!(cols.windows(2).all(|w| w[0] == w[1]), "suffix columns differ: {:?}", cols);
}

#[test]
fn test_overage_single_word_lines() {
    // nothing fits in 4 cells, so the long word stands alone on its line
    let opts = FormatOpts::with_max_length(4);
    let data = "abcdefgh ij";
    let result = reformat(&opts, data);
    assert_eq!(result, "abcdefgh\nij");
}

#[test]
fn test_wide_characters_wrap_by_cells() {
    // each CJK glyph is two cells wide: four glyphs and a space need nine
    // cells, more than eight, so the words go on separate lines
    let opts = FormatOpts::with_max_length(8);
    let data = "\u{6c49}\u{5b57} \u{6c49}\u{5b57}";
    let result = reformat(&opts, data);
    assert_eq!(result, "\u{6c49}\u{5b57}\n\u{6c49}\u{5b57}");
}

#[test]
fn test_last_line_flag_penalizes_short_tail() {
    let loose = FormatOpts::new(30, false, false, FormatMode::PlainText, 4);
    let tight = FormatOpts::new(30, true, false, FormatMode::PlainText, 4);
    let data = "aaaa bbbb cccc dddd eeee ffff gggg hhhh x";
    let a = reformat(&loose, data);
    let b = reformat(&tight, data);
    // both wrap, and every word survives in order in both
    let norm_a: Vec<&str> = a.split_whitespace().collect();
    let norm_b: Vec<&str> = b.split_whitespace().collect();
    let orig: Vec<&str> = data.split_whitespace().collect();
    assert_eq!(norm_a, orig);
    assert_eq!(norm_b, orig);
}

#[test]
fn test_reduce_jaggedness_keeps_content() {
    let opts = FormatOpts::new(50, false, true, FormatMode::PlainText, 4);
    let data = "We the people of the United States, in order to form a more perfect union, establish justice.";
    let result = reformat(&opts, data);
    assert!(result.contains('\n'));
    let norm: Vec<&str> = result.split_whitespace().collect();
    let orig: Vec<&str> = data.split_whitespace().collect();
    assert_eq!(norm, orig);
}

#[test]
fn test_indentation_glued_to_first_word() {
    let opts = FormatOpts::with_max_length(30);
    let data = "    An indented paragraph of words that wraps around nicely.";
    let result = reformat(&opts, data);
    assert!(result.starts_with("    An"), "result {:?}", result);
    let lines: Vec<&str> = result.lines().collect();
    assert!(lines.len() > 1);
}

#[test]
fn test_analyze_quotes_applicability() {
    let quoted = Input::with_input("> a\n> b");
    assert!(quoted.analyze_quotes().is_some());
    let plain = Input::with_input("a\nb");
    assert!(plain.analyze_quotes().is_none());
}

#[test]
fn test_analyze_quotes_prefix() {
    let input = Input::with_input("> alpha beta\n> gamma");
    let blocks = input.analyze_quotes().unwrap();
    assert_eq!(blocks.len(), 1);
    let expected: Vec<char> = "> ".chars().collect();
    assert_eq!(blocks[0].prefix, expected);
    assert!(blocks[0].suffix.is_empty());
    let words: Vec<String> = blocks[0].words.iter().map(|w| w.iter().collect()).collect();
    assert_eq!(words, vec!["alpha", "beta", "gamma"]);
}

#[test]
fn test_analyze_code_comments_prefix() {
    let input = Input::with_input("// one two\n// three");
    let blocks = input.analyze_code_comments().unwrap();
    assert_eq!(blocks.len(), 1);
    let expected: Vec<char> = "// ".chars().collect();
    assert_eq!(blocks[0].prefix, expected);
}

#[test]
fn test_analyze_code_comments_rejects_mixed() {
    let input = Input::with_input("// one\nplain line");
    assert!(input.analyze_code_comments().is_none());
}

#[test]
fn test_analyze_surround_box() {
    let input = Input::with_input("* aa *\n* bb *");
    let blocks = input.analyze_surround().unwrap();
    assert_eq!(blocks.len(), 1);
    let p: Vec<char> = "* ".chars().collect();
    let s: Vec<char> = " *".chars().collect();
    assert_eq!(blocks[0].prefix, p);
    assert_eq!(blocks[0].suffix, s);
}

#[test]
fn test_analyze_surround_identical_affixes_discarded() {
    // a single line is its own common prefix and suffix; both are dropped
    let input = Input::with_input("same");
    let blocks = input.analyze_surround().unwrap();
    assert_eq!(blocks.len(), 1);
    assert!(blocks[0].prefix.is_empty());
    assert!(blocks[0].suffix.is_empty());
    let words: Vec<String> = blocks[0].words.iter().map(|w| w.iter().collect()).collect();
    assert_eq!(words, vec!["same"]);
}

#[test]
fn test_quote_runs_with_plain_text_between() {
    let opts = FormatOpts::with_max_length(40);
    let data = "> first quote\nplain words here\n> second quote";
    let result = reformat(&opts, data);
    assert_eq!(result, "> first quote\nplain words here\n> second quote");
}

#[test]
fn test_indented_quotes_keep_indentation() {
    let opts = FormatOpts::with_max_length(40);
    let data = "  > alpha beta\n  > gamma";
    let result = reformat(&opts, data);
    for line in result.lines() {
        assert!(line.starts_with("  > "), "line {:?}", line);
    }
}

#[test]
fn test_crlf_line_endings() {
    let opts = FormatOpts::with_max_length(5);
    let data = "a b c\r\nd e f";
    let result = reformat(&opts, data);
    assert_eq!(result, "a b c\nd e f");
}

#[test]
fn test_whitespace_only_input() {
    let opts = FormatOpts::default();
    let result = reformat(&opts, "\n\n");
    assert_eq!(result, "");
}

#[test]
fn test_format_opts_accessors() {
    let opts = FormatOpts::new(99, true, true, FormatMode::Code, 2);
    assert_eq!(opts.max_length, 99);
    assert!(opts.last_line);
    assert!(opts.reduce_jaggedness);
    assert_eq!(opts.tab_width, 2);
    assert_eq!(opts.format_mode, FormatMode::Code);
    let d = FormatOpts::with_max_length(10);
    assert_eq!(d.max_length, 10);
    assert_eq!(d.tab_width, 4);
    assert!(!d.last_line);
    assert!(!d.reduce_jaggedness);
    assert_eq!(d.format_mode, FormatMode::PlainText);
}

#[test]
fn test_reformatter_staged() {
    let opts = FormatOpts::with_max_length(25);
    let rfmt = prose::Reformatter::new(&opts, "Lot's of string data... to be reformatted");
    assert_eq!(rfmt.reformatted(), "Lot's of string data...\nto be reformatted");
}

#[test]
fn test_width_trait() {
    let v: Vec<char> = "abc".chars().collect();
    assert_eq!(v.width(), 3);
    let wide: Vec<char> = "\u{6c49}".chars().collect();
    assert_eq!(wide.width(), 2);
}
