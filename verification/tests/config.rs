//! Aliases and configuration files.

use require_by_string::alias_cache::AliasCache;
use require_by_string::config::{
    alias_base_path, append_module_components, is_valid_alias_name, join_suffixes,
    source_directory, split_alias, AliasConfig, AliasDefinition,
};
use require_by_string::config_luau::{
    config_aliases, interruption, parse_config_luau, run_config_luau, ConfigRun,
};
use require_by_string::error::{ConfigStage, Error};
use require_by_string::files::{FileAnswer, FileKind, FileQuery, Files, QueryKind};

fn files(
    home: Option<&str>,
    metadata: &[(&str, Option<FileKind>)],
    aliases: &[(&str, &[(&str, &str)])],
) -> Files {
    let mut files = Files::new(home.map(str::to_owned), false);
    for (path, kind) in metadata {
        files.record(&FileAnswer::Metadata { path: path.to_string(), kind: Ok(*kind) });
    }
    for (path, declared) in aliases {
        if path.ends_with(".config.luau") {
            let mut contents = "return { luau = { aliases = {".to_owned();
            for (name, value) in *declared {
                contents.push_str(&format!(" [{name:?}] = {value:?},"));
            }
            contents.push_str(" } } }");
            files.record(&FileAnswer::Contents { path: path.to_string(), contents: Ok(contents) });
            continue;
        }
        files.record(&FileAnswer::Aliases {
            path: path.to_string(),
            aliases: Ok(declared
                .iter()
                .map(|(name, value)| (name.to_string(), value.to_string()))
                .collect()),
        });
    }
    files
}

/// `/p/a/main.luau` with a `.luaurc` in `/p` and a `.config.luau` in `/p/a`.
fn nested(outer: &[(&str, &str)], inner: &[(&str, &str)], home: Option<&str>) -> Files {
    files(
        home,
        &[
            ("/p/a/main.luau", Some(FileKind::File)),
            ("/.luaurc", None),
            ("/.config.luau", None),
            ("/p/.luaurc", Some(FileKind::File)),
            ("/p/.config.luau", None),
            ("/p/a/.luaurc", None),
            ("/p/a/.config.luau", Some(FileKind::File)),
        ],
        &[("/p/.luaurc", outer), ("/p/a/.config.luau", inner)],
    )
}

fn resolve(
    outer: &[(&str, &str)],
    inner: &[(&str, &str)],
    name: &str,
    suffix: &str,
) -> Result<String, Error<String>> {
    let config = AliasConfig::load(&nested(outer, inner, None), "/p/a/main.luau").unwrap();
    config.resolve(name, suffix, "/p/a", &None)
}

fn load_error(files: &Files, path: &str) -> Error<String> {
    match AliasConfig::load(files, path) {
        Ok(_) => panic!("expected an error"),
        Err(error) => error,
    }
}

#[test]
fn alias_names_are_letters_digits_and_a_few_signs() {
    for name in ["a", "Z9", "a.b-c_d", ".", "0"] {
        assert!(is_valid_alias_name(name), "{name:?}");
    }
    for name in ["", "a b", "a/b", "@a", "ä", "a+"] {
        assert!(!is_valid_alias_name(name), "{name:?}");
    }
}

#[test]
fn requests_split_at_the_first_separator() {
    let split = |request| split_alias(request);
    let parts = |name: &str, rest: &str| Some((name.to_owned(), rest.to_owned()));
    assert_eq!(split("@a"), parts("a", ""));
    assert_eq!(split("@a/"), parts("a", ""));
    assert_eq!(split("@a/b/c"), parts("a", "b/c"));
    assert_eq!(split("@a\\b/c"), parts("a", "b/c"));
    assert_eq!(split("@"), parts("", ""));
    assert_eq!(split("@/a"), parts("", "a"));
    assert_eq!(split("./a"), None);
    assert_eq!(split(""), None);
}

#[test]
fn suffixes_are_joined_by_one_slash() {
    assert_eq!(join_suffixes("", ""), "");
    assert_eq!(join_suffixes("", "b"), "b");
    assert_eq!(join_suffixes("a", ""), "a");
    assert_eq!(join_suffixes("a", "b/c"), "a/b/c");
}

#[test]
fn module_components_are_steps() {
    let walk = |start: &str, value: &str| {
        let mut path = start.to_owned();
        append_module_components(&mut path, value, false);
        path
    };
    assert_eq!(walk("/p", "./a//b\\c"), "/p/a/b/c");
    assert_eq!(walk("/p/q", "../a/../b"), "/p/b");
    assert_eq!(walk("/p", "../../../x"), "/x");
    assert_eq!(walk("/p", ""), "/p");
}

#[test]
fn alias_values_start_at_home_at_the_root_or_at_their_file() {
    let base = |value: &str, home: Option<&str>| {
        alias_base_path(
            &AliasDefinition {
                value: value.to_owned(),
                base_directory: "/p".to_owned(),
                source: "/p/.luaurc".to_owned(),
            },
            &home.map(str::to_owned),
            false,
        )
    };
    assert_eq!(base("~/lib", Some("/home/me")), "/home/me/lib");
    assert_eq!(base("~\\lib", Some("/home/me")), "/home/me/lib");
    assert_eq!(base("~/lib", None), "/p/~/lib");
    assert_eq!(base("~", Some("/home/me")), "/p/~");
    assert_eq!(base("/opt/lib/../x", Some("/home/me")), "/opt/lib/../x");
    assert_eq!(base("../lib", None), "/lib");
}

#[test]
fn a_source_stands_in_its_directory() {
    let files = files(
        None,
        &[
            ("/p/a", Some(FileKind::Directory)),
            ("/p/a.luau", Some(FileKind::File)),
            ("/p/gone.luau", None),
            ("/", None),
        ],
        &[],
    );
    assert_eq!(source_directory(&files, "/p/a"), Ok("/p/a".to_owned()));
    assert_eq!(source_directory(&files, "/p/a.luau"), Ok("/p".to_owned()));
    assert_eq!(source_directory(&files, "/p/gone.luau"), Ok("/p".to_owned()));
    assert_eq!(source_directory(&files, "/"), Err(Error::NoParentDirectory));
    assert_eq!(
        source_directory(&files, "/q"),
        Err(Error::Unanswered(FileQuery { kind: QueryKind::Metadata, path: "/q".to_owned() }))
    );
}

#[test]
fn inner_files_hide_outer_aliases_whatever_the_case() {
    let outer = [("Shared", "./outer"), ("only", "./only")];
    let inner = [("shared", "./inner")];
    assert_eq!(resolve(&outer, &inner, "SHARED", "x"), Ok("/p/a/inner/x".to_owned()));
    assert_eq!(resolve(&outer, &inner, "only", ""), Ok("/p/only".to_owned()));
    assert_eq!(resolve(&outer, &inner, "Only", ""), resolve(&outer, &inner, "oNLY", ""));
}

#[test]
fn aliases_lead_through_other_aliases() {
    let outer = [("lib", "./lib"), ("json", "@lib/json"), ("deep", "@JSON\\a")];
    assert_eq!(resolve(&outer, &[], "deep", "b"), Ok("/p/lib/json/a/b".to_owned()));
    let inner = [("here", "@self/x"), ("alias", "@Here")];
    assert_eq!(resolve(&[], &inner, "alias", "y"), Ok("/p/a/x/y".to_owned()));
}

#[test]
fn aliases_that_lead_nowhere_are_errors() {
    let outer = [("a", "@b"), ("b", "@C/x"), ("c", "@A"), ("g", "@game/Workspace"), ("u", "@no")];
    assert_eq!(
        resolve(&outer, &[], "A", ""),
        Err(Error::CyclicAlias { chain: "a -> b -> c -> a".to_owned() })
    );
    assert_eq!(
        resolve(&outer, &[], "G", ""),
        Err(Error::NativeAlias { name: "G".to_owned(), source: "/p/.luaurc".to_owned() })
    );
    assert_eq!(
        resolve(&outer, &[], "u", ""),
        Err(Error::UnknownAlias { name: "no".to_owned() })
    );
}

#[test]
fn both_files_of_every_directory_matter() {
    let config = AliasConfig::load(&nested(&[], &[], None), "/p/a/main.luau").unwrap();
    assert_eq!(
        *config.relevant_paths(),
        [
            "/.luaurc",
            "/.config.luau",
            "/p/.luaurc",
            "/p/.config.luau",
            "/p/a/.luaurc",
            "/p/a/.config.luau",
        ]
    );
}

#[test]
fn two_files_in_one_directory_are_an_error() {
    let files = files(
        None,
        &[
            ("/main.luau", Some(FileKind::File)),
            ("/.luaurc", Some(FileKind::File)),
            ("/.config.luau", Some(FileKind::File)),
        ],
        &[],
    );
    assert_eq!(
        load_error(&files, "/main.luau"),
        Error::TwoConfigurations { directory: "/".to_owned() }
    );
}

#[test]
fn invalid_alias_names_are_an_error() {
    let files = nested(&[("ok", "."), ("not ok", "."), ("also bad!", ".")], &[], None);
    assert_eq!(
        load_error(&files, "/p/a/main.luau"),
        Error::InvalidAliasName { name: "not ok".to_owned(), path: "/p/.luaurc".to_owned() }
    );
}

#[test]
fn loading_asks_for_what_it_needs_and_passes_failures_on() {
    let mut known = files(None, &[("/main.luau", Some(FileKind::File)), ("/.luaurc", None)], &[]);
    assert_eq!(
        load_error(&known, "/main.luau"),
        Error::Unanswered(FileQuery {
            kind: QueryKind::Metadata,
            path: "/.config.luau".to_owned()
        })
    );
    known.record(&FileAnswer::Metadata {
        path: "/.config.luau".to_owned(),
        kind: Ok(Some(FileKind::File)),
    });
    assert_eq!(
        load_error(&known, "/main.luau"),
        Error::Unanswered(FileQuery {
            kind: QueryKind::Contents,
            path: "/.config.luau".to_owned()
        })
    );
    known.record(&FileAnswer::Contents {
        path: "/.config.luau".to_owned(),
        contents: Err("broken".to_owned()),
    });
    assert_eq!(load_error(&known, "/main.luau"), Error::Io { detail: "broken".to_owned() });
    known.record(&FileAnswer::Contents {
        path: "/.config.luau".to_owned(),
        contents: Ok("return 1".to_owned()),
    });
    assert_eq!(
        load_error(&known, "/main.luau"),
        Error::Config {
            path: "/.config.luau".to_owned(),
            stage: ConfigStage::Result,
            detail: String::new()
        }
    );
    known.record(&FileAnswer::Contents {
        path: "/.config.luau".to_owned(),
        contents: Ok("return { luau = { aliases = { ['b ad'] = '.' } } }".to_owned()),
    });
    assert_eq!(
        load_error(&known, "/main.luau"),
        Error::InvalidAliasName { name: "b ad".to_owned(), path: "/.config.luau".to_owned() }
    );
    known.record(&FileAnswer::Metadata { path: "/.config.luau".to_owned(), kind: Ok(None) });
    known.record(&FileAnswer::Metadata {
        path: "/.luaurc".to_owned(),
        kind: Ok(Some(FileKind::File)),
    });
    assert_eq!(
        load_error(&known, "/main.luau"),
        Error::Unanswered(FileQuery {
            kind: QueryKind::Aliases,
            path: "/.luaurc".to_owned()
        })
    );
    known.record(&FileAnswer::Aliases {
        path: "/.luaurc".to_owned(),
        aliases: Err("torn".to_owned()),
    });
    assert_eq!(load_error(&known, "/main.luau"), Error::Io { detail: "torn".to_owned() });
    known.forget();
    assert!(!known.knows_metadata("/main.luau"));
}

#[test]
fn a_cache_keeps_what_a_change_does_not_touch() {
    let mut cache = AliasCache::new();
    let config = || AliasConfig::load(&nested(&[], &[], None), "/p/a/main.luau").unwrap();
    cache.insert("/p/a", config());
    assert!(cache.get("/p/a/.").is_some());
    assert!(cache.get("/p").is_none());
    cache.drop_dependents("/p/a/main.luau");
    assert_eq!(cache.len(), 1);
    cache.drop_dependents("/p/.luaurc");
    assert_eq!(cache.len(), 0);
    cache.insert("/p/a", config());
    cache.insert("/p/b", config());
    cache.truncate(1);
    assert!(cache.get("/p/a").is_some() && cache.get("/p/b").is_none());
    cache.drop_dependents("/p");
    assert!(cache.get("/p/a").is_none());
}

fn pairs(row: &[(&str, &str)]) -> Vec<(String, String)> {
    row.iter()
        .map(|(name, value)| (name.to_string(), value.to_string()))
        .collect()
}

#[test]
fn a_configuration_may_compute_its_aliases() {
    let contents = "local t = { b = './b' }\nt['a' .. 1] = './a'\nreturn { luau = { aliases = t } }";
    assert_eq!(
        parse_config_luau("/p/.config.luau", contents),
        Ok(pairs(&[("a1", "./a"), ("b", "./b")]))
    );
    assert_eq!(parse_config_luau("/p/.config.luau", "return {}"), Ok(Vec::new()));
    assert_eq!(
        parse_config_luau("/p/.config.luau", "return { luau = { aliases = { [2] = 'a', b = 1 } } }"),
        Ok(pairs(&[("2", "a"), ("b", "1")]))
    );
    assert_eq!(parse_config_luau("/p/.config.luau", "return { luau = {} }"), Ok(Vec::new()));
}

fn config_error(contents: &str) -> (ConfigStage, String) {
    match parse_config_luau("/p/.config.luau", contents) {
        Err(Error::Config { path, stage, detail }) => {
            assert_eq!(path, "/p/.config.luau");
            (stage, detail)
        }
        other => panic!("expected a configuration error, got {other:?}"),
    }
}

#[test]
fn a_configuration_that_fails_is_an_error() {
    let (stage, detail) = config_error("error('no way')");
    assert_eq!(stage, ConfigStage::Execution);
    assert!(detail.contains("no way") && detail.contains("/p/.config.luau"));
    assert_eq!(config_error("return {").0, ConfigStage::Execution);
    assert_eq!(config_error("\u{6}\u{3}\u{1}\u{4}luau").0, ConfigStage::Execution);
    assert_eq!(config_error("return 1"), (ConfigStage::Result, String::new()));
    assert_eq!(config_error("return { luau = 1 }").0, ConfigStage::LuauField);
    assert_eq!(config_error("return { luau = { aliases = 1 } }").0, ConfigStage::AliasesField);
    assert_eq!(
        config_error("return { luau = { aliases = { a = {} } } }").0,
        ConfigStage::Alias
    );
}

#[test]
fn a_configuration_runs_in_a_sandbox() {
    let (stage, _) = config_error("string.format = nil return {}");
    assert_eq!(stage, ConfigStage::Execution);
}

#[test]
fn a_table_that_runs_code_may_not_run_forever() {
    let (stage, detail) = config_error(
        "return setmetatable({}, { __index = function() while true do end end })",
    );
    assert_eq!(stage, ConfigStage::LuauField);
    assert!(detail.contains("configuration execution timed out"));
}

#[test]
fn the_contents_of_a_configuration_are_run_when_they_are_recorded() {
    let mut known = Files::new(None, false);
    let path = "/.config.luau";
    assert_eq!(
        known.run(path),
        Err(Error::Unanswered(FileQuery { kind: QueryKind::Contents, path: path.to_owned() }))
    );
    for (contents, run) in [
        ("return { luau = { aliases = { x = 'y' } } }", ConfigRun::Pairs(pairs(&[("x", "y")]))),
        ("return nil", ConfigRun::NoTable),
        ("return {}", ConfigRun::NoLuau),
        ("return { luau = {} }", ConfigRun::NoAliases),
    ] {
        known.record(&FileAnswer::Contents {
            path: path.to_owned(),
            contents: Ok(contents.to_owned()),
        });
        assert_eq!(known.run(path), Ok(run));
    }
    assert!(known.run("/other/.config.luau").is_err());
    assert!(!known.knows_metadata(path));
}

#[test]
fn a_configuration_may_not_run_forever() {
    let (stage, detail) = config_error("while true do end");
    assert_eq!(stage, ConfigStage::Execution);
    assert!(detail.contains("configuration execution timed out"));
}

#[test]
fn time_runs_out_after_two_seconds() {
    assert_eq!(interruption(0), None);
    assert_eq!(interruption(1999), None);
    assert_eq!(interruption(2000), Some("configuration execution timed out".to_owned()));
    assert_eq!(interruption(u128::MAX), Some("configuration execution timed out".to_owned()));
}

#[test]
fn every_way_a_run_ends_has_its_result() {
    let end = |run| config_aliases("/c", run);
    let error = |stage, detail: &str| {
        Err(Error::Config { path: "/c".to_owned(), stage, detail: detail.to_owned() })
    };
    assert_eq!(end(ConfigRun::NoSandbox("x".to_owned())), error(ConfigStage::Sandbox, "x"));
    assert_eq!(end(ConfigRun::Failed("x".to_owned())), error(ConfigStage::Execution, "x"));
    assert_eq!(end(ConfigRun::NoTable), error(ConfigStage::Result, ""));
    assert_eq!(end(ConfigRun::BadLuau("x".to_owned())), error(ConfigStage::LuauField, "x"));
    assert_eq!(end(ConfigRun::BadAliases("x".to_owned())), error(ConfigStage::AliasesField, "x"));
    assert_eq!(end(ConfigRun::BadPair("x".to_owned())), error(ConfigStage::Alias, "x"));
    assert_eq!(end(ConfigRun::NoLuau), Ok(Vec::new()));
    assert_eq!(end(ConfigRun::NoAliases), Ok(Vec::new()));
    assert_eq!(
        end(ConfigRun::Pairs(pairs(&[("b", "1"), ("a", "2"), ("c", "3"), ("b", "4")]))),
        Ok(pairs(&[("a", "2"), ("b", "4"), ("c", "3")]))
    );
}

#[test]
fn a_run_keeps_the_pairs_as_they_come() {
    let run = run_config_luau("/c", "return { luau = { aliases = { x = 'y' } } }");
    assert_eq!(run, ConfigRun::Pairs(pairs(&[("x", "y")])));
    assert_eq!(run_config_luau("/c", "return nil"), ConfigRun::NoTable);
}
