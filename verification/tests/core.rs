use editorconfig_core::{
    candidate_files, glob_match, parse_error_of, parse_ini, resolve_with_contents, ParseError,
    ResolutionError, Version,
};

fn resolve(
    target: &[u8],
    version: Version,
    contents: Vec<Option<&[u8]>>,
) -> Result<editorconfig_core::ResolvedRuleSet, ResolutionError> {
    let owned: Vec<Option<Vec<u8>>> = contents
        .into_iter()
        .map(|o| o.map(|b| b.to_vec()))
        .collect();
    resolve_with_contents(target, &version, &owned)
}

fn current() -> Version {
    editorconfig_core::get_version()
}

#[test]
fn parse_sections_and_preamble() {
    let text = b"root = true\n[*]\ncharset = utf-8\n; note\n# note\nkey: value\n[ *.py ]\nindent_style =\n";
    let secs = parse_ini(text).unwrap();
    assert_eq!(secs.len(), 3);
    assert_eq!(secs[0].pattern, b"");
    assert_eq!(secs[0].props.len(), 1);
    assert_eq!(secs[0].props[0].0, b"root");
    assert_eq!(secs[0].props[0].1, b"true");
    assert_eq!(secs[1].pattern, b"*");
    assert_eq!(secs[1].props.len(), 2);
    assert_eq!(secs[1].props[0].0, b"charset");
    assert_eq!(secs[1].props[0].1, b"utf-8");
    assert_eq!(secs[1].props[1].0, b"key");
    assert_eq!(secs[1].props[1].1, b"value");
    assert_eq!(secs[2].pattern, b"*.py");
    assert_eq!(secs[2].props.len(), 1);
    assert_eq!(secs[2].props[0].0, b"indent_style");
    assert_eq!(secs[2].props[0].1, b"");
}

#[test]
fn parse_reports_first_bad_line() {
    let text = b"a = b\n; fine\nnot_a_valid_line\nc = d\n";
    match parse_ini(text) {
        Err(line) => assert_eq!(line, 3),
        Ok(_) => panic!("expected a parse error"),
    }
}

#[test]
fn parse_handles_crlf() {
    let text = b"[*]\r\ncharset = utf-8\r\n";
    let secs = parse_ini(text).unwrap();
    assert_eq!(secs.len(), 1);
    assert_eq!(secs[0].pattern, b"*");
    assert_eq!(secs[0].props[0].1, b"utf-8");
}

#[test]
fn parse_unterminated_header_is_error() {
    match parse_ini(b"[*.rs\ncharset=utf-8\n") {
        Err(line) => assert_eq!(line, 1),
        Ok(_) => panic!("expected a parse error"),
    }
}

#[test]
fn glob_star_stays_within_segment() {
    assert!(glob_match(b"*.rs", b"lib.rs"));
    assert!(!glob_match(b"*.rs", b"lib.txt"));
    assert!(!glob_match(b"src/*.rs", b"src/a/b.rs"));
}

#[test]
fn glob_star_against_basename() {
    assert!(glob_match(b"*.rs", b"src/lib.rs"));
    assert!(glob_match(b"*", b"a/lib.rs"));
}

#[test]
fn glob_double_star_crosses_segments() {
    assert!(glob_match(b"**.rs", b"src/lib.rs"));
    assert!(glob_match(b"src/**/c.rs", b"src/a/b/c.rs"));
    assert!(!glob_match(b"src/**/c.rs", b"other/c.rs"));
}

#[test]
fn glob_braces_alternate() {
    assert!(glob_match(b"file{1,2}.txt", b"file1.txt"));
    assert!(glob_match(b"file{1,2}.txt", b"file2.txt"));
    assert!(!glob_match(b"file{1,2}.txt", b"file3.txt"));
    assert!(glob_match(b"a{b,{c,d}}e", b"ade"));
}

#[test]
fn glob_brace_without_comma_is_literal() {
    assert!(glob_match(b"{single}.txt", b"{single}.txt"));
    assert!(!glob_match(b"{single}.txt", b"single.txt"));
}

#[test]
fn glob_classes() {
    assert!(glob_match(b"[0-9].txt", b"5.txt"));
    assert!(!glob_match(b"[0-9].txt", b"a.txt"));
    assert!(glob_match(b"[!0-9].txt", b"a.txt"));
    assert!(!glob_match(b"[!0-9].txt", b"5.txt"));
    assert!(glob_match(b"[]x].txt", b"].txt"));
    assert!(glob_match(b"[-a].txt", b"-.txt"));
}

#[test]
fn glob_malformed_class_matches_nothing() {
    assert!(!glob_match(b"[abc", b"a"));
    assert!(!glob_match(b"[abc", b"[abc"));
}

#[test]
fn glob_question_mark() {
    assert!(glob_match(b"?.rs", b"a.rs"));
    assert!(!glob_match(b"?.rs", b"ab.rs"));
    assert!(!glob_match(b"a?c", b"a/c"));
}

#[test]
fn glob_escape_makes_literal() {
    assert!(glob_match(b"\\*.rs", b"*.rs"));
    assert!(!glob_match(b"\\*.rs", b"a.rs"));
}

#[test]
fn glob_numeric_ranges() {
    assert!(glob_match(b"{8..11}.txt", b"9.txt"));
    assert!(glob_match(b"{8..11}.txt", b"10.txt"));
    assert!(!glob_match(b"{8..11}.txt", b"12.txt"));
    assert!(glob_match(b"{-3..2}.txt", b"-1.txt"));
    assert!(glob_match(b"{1..10}.txt", b"007.txt"));
    assert!(!glob_match(b"{1..10}.txt", b"x.txt"));
}

#[test]
fn glob_leading_slash_anchors() {
    assert!(glob_match(b"/lib.rs", b"lib.rs"));
    assert!(!glob_match(b"/lib.rs", b"src/lib.rs"));
}

#[test]
fn glob_empty_pattern_matches_everything() {
    assert!(glob_match(b"", b"anything/at.all"));
    assert!(glob_match(b"", b""));
}

#[test]
fn glob_is_case_sensitive() {
    assert!(!glob_match(b"lib.RS", b"lib.rs"));
}

#[test]
fn walker_lists_every_ancestor_to_the_root() {
    let cands = candidate_files(b"/a/b/c.rs", b".editorconfig").unwrap();
    assert_eq!(cands.len(), 3);
    assert_eq!(cands[0].dir, b"/a/b");
    assert_eq!(cands[0].file_path, b"/a/b/.editorconfig");
    assert_eq!(cands[1].dir, b"/a");
    assert_eq!(cands[1].file_path, b"/a/.editorconfig");
    assert_eq!(cands[2].dir, b"/");
    assert_eq!(cands[2].file_path, b"/.editorconfig");
}

#[test]
fn walker_rejects_relative_paths() {
    let r = candidate_files(b"a/b.rs", b".editorconfig");
    match r {
        Err(e) => assert_eq!(e, ParseError::NotFullPathError),
        Ok(_) => panic!("a relative path must be rejected"),
    }
}

#[test]
fn resolve_end_to_end() {
    // `/.editorconfig` is root and applies charset to everything;
    // `/a/.editorconfig` applies indent_style to Rust files.
    let near: &[u8] = b"[*.rs]\nindent_style = space\n";
    let far: &[u8] = b"root = true\n[*]\ncharset = utf-8\n";

    let rules = resolve(b"/a/lib.rs", current(), vec![Some(near), Some(far)]).unwrap();
    assert_eq!(rules.len(), 2);
    assert_eq!(rules.get(b"charset").unwrap().as_slice(), b"utf-8");
    assert_eq!(rules.get(b"indent_style").unwrap().as_slice(), b"space");

    let rules = resolve(b"/a/lib.txt", current(), vec![Some(near), Some(far)]).unwrap();
    assert_eq!(rules.len(), 1);
    assert_eq!(rules.get(b"charset").unwrap().as_slice(), b"utf-8");
    assert!(rules.get(b"indent_style").is_none());
}

#[test]
fn resolve_root_stops_the_walk() {
    // Target /a/b/f.txt has three candidate directories. The nearest file
    // declares root = true (inside a section, not first), so the farther
    // files must contribute nothing.
    let near: &[u8] = b"[*]\nx = 1\nroot = TRUE\n";
    let mid: &[u8] = b"[*]\ny = 2\n";
    let rules = resolve(
        b"/a/b/f.txt",
        current(),
        vec![Some(near), Some(mid), None],
    )
    .unwrap();
    assert_eq!(rules.get(b"x").unwrap().as_slice(), b"1");
    assert!(rules.get(b"y").is_none());
    assert_eq!(rules.len(), 1);
}

#[test]
fn resolve_nearer_file_wins() {
    let near: &[u8] = b"[*]\nindent_size = 2\n";
    let far: &[u8] = b"[*]\nindent_size = 4\ncharset = utf-8\n";
    let rules = resolve(b"/a/f.txt", current(), vec![Some(near), Some(far)]).unwrap();
    assert_eq!(rules.get(b"indent_size").unwrap().as_slice(), b"2");
    assert_eq!(rules.get(b"charset").unwrap().as_slice(), b"utf-8");
}

#[test]
fn resolve_unset_removes_property() {
    let near: &[u8] = b"[*]\nindent_size = unset\n";
    let far: &[u8] = b"[*]\nindent_size = 4\n";
    let rules = resolve(b"/a/f.txt", current(), vec![Some(near), Some(far)]).unwrap();
    assert!(rules.get(b"indent_size").is_none());
    assert_eq!(rules.len(), 0);
}

#[test]
fn resolve_syntax_error_aborts() {
    let bad: &[u8] = b"a = 1\n; fine\nnot_a_valid_line\n";
    let err = match resolve(b"/a/f.txt", current(), vec![Some(bad), None]) {
        Err(e) => e,
        Ok(_) => panic!("expected a syntax error"),
    };
    assert_eq!(
        err,
        ResolutionError::SyntaxError {
            file_index: 0,
            line: 3
        }
    );
}

#[test]
fn resolve_version_gates_value_lowercasing() {
    let near: &[u8] = b"[*]\nindent_style = SPACE\ncustom = MiXeD\n";
    let old = resolve(b"/a/f.txt", Version::new(0, 8, 0), vec![Some(near)]).unwrap();
    assert_eq!(old.get(b"indent_style").unwrap().as_slice(), b"SPACE");
    assert_eq!(old.get(b"custom").unwrap().as_slice(), b"MiXeD");

    let new = resolve(b"/a/f.txt", current(), vec![Some(near)]).unwrap();
    assert_eq!(new.get(b"indent_style").unwrap().as_slice(), b"space");
    assert_eq!(new.get(b"custom").unwrap().as_slice(), b"MiXeD");
}

#[test]
fn resolve_names_are_lowercased() {
    let near: &[u8] = b"[*]\nChArSeT = utf-8\n";
    let rules = resolve(b"/a/f.txt", current(), vec![Some(near)]).unwrap();
    assert_eq!(rules.get(b"charset").unwrap().as_slice(), b"utf-8");
    assert!(rules.get(b"ChArSeT").is_none());
}

#[test]
fn resolve_version_too_new() {
    let err = match resolve(b"/a/f.txt", Version::new(99, 0, 0), vec![None]) {
        Err(e) => e,
        Ok(_) => panic!("expected a version error"),
    };
    assert_eq!(err, ResolutionError::VersionTooNew);
}

#[test]
fn resolve_relative_target_rejected() {
    let err = match resolve(b"a/f.txt", current(), vec![]) {
        Err(e) => e,
        Ok(_) => panic!("expected a path error"),
    };
    assert_eq!(err, ResolutionError::RelativePathError);
}

#[test]
fn resolve_missing_files_give_no_rules() {
    let rules = resolve(b"/a/b/f.txt", current(), vec![None]).unwrap();
    assert_eq!(rules.len(), 0);
}

#[test]
fn parse_error_of_keeps_the_line() {
    assert_eq!(
        parse_error_of(&ResolutionError::SyntaxError {
            file_index: 2,
            line: 7
        }),
        ParseError::LineError(7)
    );
    assert_eq!(
        parse_error_of(&ResolutionError::RelativePathError),
        ParseError::NotFullPathError
    );
    assert_eq!(
        parse_error_of(&ResolutionError::VersionTooNew),
        ParseError::VersionTooNewError
    );
}

#[test]
fn default_filename_and_rule_listing() {
    assert_eq!(
        editorconfig_core::default_config_filename(),
        b".editorconfig"
    );
    let text: &[u8] = b"[*]\ncharset = utf-8\n";
    let rules = resolve(b"/a/f.txt", current(), vec![Some(text)]).unwrap();
    assert_eq!(rules.len(), 1);
    let (name, value) = rules.entry_at(0);
    assert_eq!(name, b"charset");
    assert_eq!(value, b"utf-8");
}

#[test]
fn resolve_unset_is_case_insensitive() {
    let near: &[u8] = b"[*]\ncharset = UnSeT\n";
    let far: &[u8] = b"[*]\ncharset = utf-8\n";
    let rules = resolve(b"/a/f.txt", current(), vec![Some(near), Some(far)]).unwrap();
    assert!(rules.get(b"charset").is_none());
}
