//! Finding requests in sources, and editing sources.

use require_by_string::edits::{apply_edits, Edit};
use require_by_string::error::{ConfigStage, Error};
use require_by_string::expression::format_relative_instance_path;
use require_by_string::files::{FileQuery, QueryKind};
use require_by_string::literals::decode_lua_string;
use require_by_string::luau::{
    find_require_calls, has_static_require_candidate, require_calls, require_candidate,
    string_expression_token, Argument, Arguments, CallToken, Quotes, RequireCall, SourceCall,
    SourceToken, TokenShape,
};

fn edit(start: usize, end: usize, replacement: &str) -> Edit<String> {
    Edit { range: start..end, replacement: replacement.to_owned() }
}

#[test]
fn edits_replace_their_ranges_in_any_order() {
    let text = "local a, b = x, y";
    let edited = "local a, b = first, 2";
    assert_eq!(
        apply_edits(text, vec![edit(13, 14, "first"), edit(16, 17, "2")]),
        Ok(edited.to_owned())
    );
    assert_eq!(
        apply_edits(text, vec![edit(16, 17, "2"), edit(13, 14, "first")]),
        Ok(edited.to_owned())
    );
    assert_eq!(apply_edits(text, Vec::new()), Ok(text.to_owned()));
}

#[test]
fn edits_count_bytes() {
    assert_eq!(apply_edits("äöü😀x", vec![edit(2, 4, "o"), edit(10, 11, "y")]), Ok("äoü😀y".to_owned()));
    assert_eq!(apply_edits("😀", vec![edit(0, 4, "")]), Ok(String::new()));
    assert_eq!(apply_edits("ab", vec![edit(2, 2, "c")]), Ok("abc".to_owned()));
}

#[test]
fn edits_of_one_place_are_made_in_their_order() {
    assert_eq!(apply_edits("x", vec![edit(0, 0, "a"), edit(0, 0, "b")]), Ok("bax".to_owned()));
}

#[test]
fn ranges_lie_between_characters() {
    assert_eq!(apply_edits("ä", vec![edit(1, 2, "")]), Err(Error::Range { start: 1, end: 2 }));
    assert_eq!(apply_edits("ä", vec![edit(0, 1, "")]), Err(Error::Range { start: 0, end: 1 }));
    assert_eq!(apply_edits("a", vec![edit(0, 2, "")]), Err(Error::Range { start: 0, end: 2 }));
    assert_eq!(apply_edits("abc", vec![edit(2, 1, "")]), Err(Error::Range { start: 2, end: 1 }));
}

fn names(path: &[&str]) -> Vec<String> {
    path.iter().map(|name| name.to_string()).collect()
}

fn expression(importer: &[&str], target: &[&str]) -> Result<String, Error<String>> {
    format_relative_instance_path(&names(importer), &names(target))
}

#[test]
fn expressions_go_up_and_down() {
    assert_eq!(
        expression(&["P", "a", "main"], &["P", "b", "dep"]),
        Ok("script.Parent.Parent:WaitForChild(\"b\"):WaitForChild(\"dep\")".to_owned())
    );
    assert_eq!(
        expression(&["P", "a"], &["P", "a", "child"]),
        Ok("script:WaitForChild(\"child\")".to_owned())
    );
    assert_eq!(expression(&["P", "a", "b"], &["P"]), Ok("script.Parent.Parent".to_owned()));
    assert_eq!(expression(&["P"], &["P"]), Ok("script".to_owned()));
}

#[test]
fn instances_without_a_common_root_have_no_expression() {
    assert_eq!(expression(&["P", "a"], &["Q", "a"]), Err(Error::NoSharedRoot));
    assert_eq!(expression(&[], &["P"]), Err(Error::NoSharedRoot));
    assert_eq!(expression(&["P"], &[]), Err(Error::NoSharedRoot));
}

#[test]
fn names_are_written_as_json_strings() {
    for name in [
        "plain", "a\"b\\c", "tab\tline\nreturn\rback\u{8}feed\u{c}", "\u{0}\u{1f}\u{7f}é/😀", "end",
    ] {
        let json = serde_json::to_string(name).unwrap();
        assert_eq!(
            expression(&["P"], &["P", name]),
            Ok(format!("script:WaitForChild({json})"))
        );
    }
    let written = expression(&["P"], &["P", "a\nb\u{1f}"]).unwrap();
    assert_eq!(written, "script:WaitForChild(\"a\\nb\\u001f\")");
    assert_eq!(written.lines().count(), 1);
}

#[test]
fn luau_reads_names_back() {
    for name in ["plain", "a\"b\\c", "tab\tline\nreturn\rback\u{8}feed\u{c}", "\u{7f}é/😀 end"] {
        let written = expression(&["P"], &["P", name]).unwrap();
        let literal = &written["script:WaitForChild(\"".len()..written.len() - 2];
        assert_eq!(decode_lua_string(literal), Ok(name.to_owned()));
    }
}

fn candidate(source: &str) -> bool {
    has_static_require_candidate(source).unwrap()
}

#[test]
fn candidates_are_names_before_literals() {
    assert!(candidate("require('a')"));
    assert!(candidate("require 'a'"));
    assert!(candidate("require [[a]]"));
    assert!(candidate("require --[[ comment ]] ( ( \n 'a'))"));
    assert!(!candidate("require(name)"));
    assert!(!candidate("-- require('a')"));
    assert!(!candidate("print('require', 'a')"));
    assert!(!candidate("require"));
    assert!(!candidate("requires('a')"));
    assert!(candidate("require(require('a'))"));
}

#[test]
fn trivia_do_not_count_between_tokens() {
    let token = |trivia, shape| SourceToken { trivia, shape };
    let require = || token(false, TokenShape::Identifier("require".to_owned()));
    let row = vec![
        require(),
        token(true, TokenShape::Other),
        token(false, TokenShape::LeftParen),
        token(true, TokenShape::Other),
        token(false, TokenShape::StringLiteral),
    ];
    assert!(require_candidate(&row));
    let row = vec![require(), token(false, TokenShape::Other), token(false, TokenShape::StringLiteral)];
    assert!(!require_candidate(&row));
    let row = vec![token(false, TokenShape::StringLiteral), require()];
    assert!(!require_candidate(&row));
    assert!(!require_candidate(&Vec::new()));
}

#[test]
fn requests_are_found_with_their_place() {
    let source = "local a = require((('@x/y')))\nrequire\"@z\":foo()";
    let calls = find_require_calls(source).unwrap();
    assert_eq!(
        calls,
        vec![
            RequireCall { request: "@x/y".to_owned(), source_range: 20..26, bare_string: false },
            RequireCall { request: "@z".to_owned(), source_range: 37..41, bare_string: true },
        ]
    );
    assert_eq!(&source[20..26], "'@x/y'");
    assert_eq!(&source[37..41], "\"@z\"");
}

#[test]
fn other_calls_are_no_requests() {
    for source in [
        "foo('a')", "require:call('a')", "require['x']('a')", "(require)('a')", "require()",
        "require(`a`)", "require('a' .. 'b')", "a.require('b')",
    ] {
        assert_eq!(find_require_calls(source), Ok(Vec::new()), "{source}");
    }
}

#[test]
fn sources_that_do_not_parse_are_an_error() {
    match find_require_calls("local = require('a')") {
        Err(Error::Syntax { detail }) => assert!(!detail.is_empty()),
        other => panic!("expected a syntax error, got {other:?}"),
    }
}

#[test]
fn sources_that_the_lexer_refuses_are_an_error() {
    for source in ["@$", "type A = A.$", "local a = 'open", "--[[ open", "return $", "a ~ b"] {
        match find_require_calls(source) {
            Err(Error::Syntax { detail }) => {
                assert!(detail.starts_with("[TokenizerError("), "{source}: {detail}")
            }
            other => panic!("expected a syntax error in {source}, got {other:?}"),
        }
    }
    assert!(candidate("require('a') $"));
    match find_require_calls("$ 'open") {
        Err(Error::Syntax { detail }) => {
            assert!(detail.contains("UnexpectedToken('$')") && detail.contains("), TokenizerError("))
        }
        other => panic!("expected a syntax error, got {other:?}"),
    }
    match find_require_calls("local = 'open") {
        Err(Error::Syntax { detail }) => {
            assert!(detail.contains("AstError(") && detail.contains("UnclosedString"))
        }
        other => panic!("expected a syntax error, got {other:?}"),
    }
}

#[test]
fn sources_without_tokens_are_an_error() {
    for source in ["#!\n--[[", "#! luau\n \n-- a\n--[==[ open ]=]"] {
        assert_eq!(
            find_require_calls(source),
            Err(Error::Syntax { detail: "the source has no tokens".to_owned() })
        );
        assert!(!candidate(source));
    }
    for source in ["", "#!", "#!\n", "#!\n-- a", "#!\n'open", "#!\n$"] {
        assert_eq!(find_require_calls(source), Ok(Vec::new()), "{source}");
    }
}

#[test]
fn a_quick_look_misses_no_request() {
    for source in [
        "require('a')", "require 'a'", "require[[a]]", "local x = typeof(require(\"a\"))",
        "return { [require('a')] = `{require 'b'}` }", "f(function() require((('a'))) end)",
        "#!/bin/luau\nrequire('ä')", "type T = typeof(require('a'))", "if x then require('a') end",
    ] {
        assert!(!find_require_calls(source).unwrap().is_empty(), "{source}");
        assert!(candidate(source), "{source}");
    }
}

#[test]
fn literals_of_requests_do_not_overlap() {
    let source = "local a --[[ä]] = require('ö')(require \"a\")\nrequire([[\n\nlong]], 1)\nrequire[=[ß]=] 'x'";
    let calls = find_require_calls(source).unwrap();
    let mut texts = Vec::new();
    for (i, call) in calls.iter().enumerate() {
        texts.push(source.get(call.source_range.clone()).unwrap());
        for other in &calls[..i] {
            assert!(
                call.source_range.end <= other.source_range.start
                    || other.source_range.end <= call.source_range.start
            );
        }
    }
    texts.sort();
    assert_eq!(texts, ["\"a\"", "'ö'", "[=[ß]=]"]);
    for call in &calls {
        let text = &source[call.source_range.clone()];
        let quotes = if text.starts_with('[') { 3 } else { 1 };
        assert_eq!(call.request, text[quotes..text.len() - quotes]);
    }
}

#[test]
fn errors_of_literals_come_together() {
    assert_eq!(
        find_require_calls("require('\\300')\nrequire('fine')\nrequire(\"\\u{}\")"),
        Err(Error::Literals {
            detail: "invalid decimal escape in string literal; empty unicode escape in string literal"
                .to_owned()
        })
    );
}

fn literal(text: &str, start: Option<usize>, end: Option<usize>) -> CallToken<String> {
    CallToken { literal: Some((text.to_owned(), Quotes::Double)), start, end }
}

fn call(
    name: Option<&str>,
    arguments: Option<Arguments<String, Vec<Argument<String>>>>,
) -> SourceCall<String, Vec<Argument<String>>> {
    SourceCall { name: name.map(str::to_owned), arguments }
}

#[test]
fn calls_without_a_place_are_left_out() {
    let row = vec![
        call(Some("require"), Some(Arguments::Bare(literal("a", None, Some(3))))),
        call(Some("require"), Some(Arguments::Bare(literal("b", Some(1), None)))),
        call(Some("require"), Some(Arguments::Bare(literal("c", Some(1), Some(3))))),
        call(None, Some(Arguments::Bare(literal("d", Some(1), Some(3))))),
        call(Some("require"), None),
        call(Some("require"), Some(Arguments::Other)),
        call(Some("require"), Some(Arguments::List(Vec::new()))),
    ];
    assert_eq!(
        require_calls(&row),
        Ok(vec![RequireCall { request: "c".to_owned(), source_range: 1..3, bare_string: true }])
    );
}

#[test]
fn parentheses_around_a_literal_do_not_count() {
    let inner = Argument::Literal(literal("a", Some(0), Some(3)));
    let wrapped = Argument::Parentheses(Box::new(Argument::Parentheses(Box::new(inner))));
    assert_eq!(
        string_expression_token(&wrapped),
        Some(&literal("a", Some(0), Some(3)))
    );
    assert_eq!(string_expression_token(&Argument::Parentheses(Box::new(Argument::Other))), None);
}

#[test]
fn every_error_has_a_sentence() {
    let text = |text: &str| text.to_owned();
    let query = |kind| Error::Unanswered(FileQuery { kind, path: "/p".to_owned() });
    let config = |stage| Error::Config { path: text("/c"), stage, detail: text("d") };
    let sentences = vec![
        (query(QueryKind::Metadata), "unanswered question about the metadata of /p"),
        (query(QueryKind::Aliases), "unanswered question about the aliases in /p"),
        (query(QueryKind::Contents), "unanswered question about the contents of /p"),
        (query(QueryKind::Canonical), "unanswered question about the canonical path of /p"),
        (Error::Io { detail: text("no disk") }, "no disk"),
        (Error::NoParentDirectory, "source path had no parent directory"),
        (
            Error::TwoConfigurations { directory: text("/p") },
            "both .luaurc and .config.luau exist in /p; Luau requires only one configuration file",
        ),
        (
            Error::InvalidAliasName { name: text("a b"), path: text("/p/.luaurc") },
            "invalid Luau alias name `a b` in /p/.luaurc",
        ),
        (Error::CyclicAlias { chain: text("a -> a") }, "cyclic Luau alias resolution: a -> a"),
        (Error::UnknownAlias { name: text("a") }, "Luau alias `@a` is not declared"),
        (
            Error::NativeAlias { name: text("a"), source: text("/p/.luaurc") },
            "alias `a` in /p/.luaurc cannot target native alias @game",
        ),
        (
            Error::AmbiguousModule { module: text("/m"), first: text("/a"), second: text("/b") },
            "ambiguous Luau module path `/m`: /a and /b",
        ),
        (
            Error::MissingModule { request: text("@a"), source_path: text("/s"), module: text("/m") },
            "cannot resolve require(\"@a\") from /s: module path /m is not present in the Rojo tree",
        ),
        (Error::NoSharedRoot, "Luau module paths do not share a Roblox instance root"),
        (Error::Tokens { detail: text("d") }, "failed to tokenize Luau source: d"),
        (Error::Syntax { detail: text("d") }, "failed to parse Luau source: d"),
        (Error::Literals { detail: text("d") }, "d"),
        (Error::Range { start: 1, end: 2 }, "a replaced range does not lie between characters"),
        (config(ConfigStage::Sandbox), "/c: cannot sandbox Luau VM: d"),
        (config(ConfigStage::Execution), "/c: configuration execution failed: d"),
        (config(ConfigStage::Result), "/c: expected the configuration to return a tabled"),
        (config(ConfigStage::LuauField), "/c: invalid `luau` field: d"),
        (config(ConfigStage::AliasesField), "/c: invalid `luau.aliases` field: d"),
        (
            config(ConfigStage::Alias),
            "/c: `luau.aliases` must contain string keys and values: d",
        ),
        (Error::Other { detail: text("d") }, "d"),
    ];
    for (error, sentence) in sentences {
        assert_eq!(error.message(), sentence);
    }
}

/// Pseudo-random numbers below `bound`.
fn next_below(state: &mut u64, bound: usize) -> usize {
    *state = state.wrapping_mul(6364136223846793005).wrapping_add(1442695040888963407);
    (*state >> 33) as usize % bound
}

#[test]
fn any_row_of_fragments_is_searched() {
    let fragments = [
        "require", "(", ")", "'a'", "\"b\"", "[[c]]", "[=[", "]=]", "{", "}", "[", "]", "`", "`{",
        "}`", "local", "function", "end", "if", "then", "else", "elseif", "while", "do", "for",
        "in", "repeat", "until", "return", "break", "continue", "type", "export", "typeof", "const",
        "not", "-", "#", "..", "...", "=", "==", "+=", "~=", "<", ">", "<<", ">>", "::", ":", ";",
        ",", ".", "->", "?", "|", "&", "@", "@native", "@[", "x", "read", "write", "nil", "true",
        "1", "0x", "0b", "1e", "--", "--[[", "--[==[", "]]", "\n", " ", "\\", "$", "~", "é", "'",
        "\"", "#!", "\u{feff}", "and", "or", "^", "//", "%", "*", "goto", "attribute", "\r\n",
    ];
    let mut state: u64 = 7;
    for round in 0..60_000 {
        let mut source = String::new();
        if round % 5 == 0 {
            source.push_str("#!\n");
        }
        for _ in 0..1 + next_below(&mut state, 14) {
            source.push_str(fragments[next_below(&mut state, fragments.len())]);
            if next_below(&mut state, 3) > 0 {
                source.push(' ');
            }
        }
        let Ok(calls) = find_require_calls(&source) else {
            continue;
        };
        assert!(calls.is_empty() || candidate(&source), "{source}");
        for (i, call) in calls.iter().enumerate() {
            let text = &source[call.source_range.clone()];
            let quotes = match text.chars().next().unwrap() {
                '[' => text.find(|c| c != '[' && c != '=').unwrap_or(2),
                _ => 1,
            };
            assert!(text.len() >= 2 * quotes, "{source}");
            for other in &calls[..i] {
                assert!(
                    call.source_range.end <= other.source_range.start
                        || other.source_range.end <= call.source_range.start,
                    "{source}"
                );
            }
        }
    }
}
