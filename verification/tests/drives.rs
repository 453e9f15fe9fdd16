//! Paths of hosts with drives.

use require_by_string::config::{append_module_components, AliasConfig};
use require_by_string::config_luau::ConfigRun;
use require_by_string::drives::{
    has_place, host_error, host_join, host_parent, path_from_host, path_to_host, text_on_host,
};
use require_by_string::error::{ConfigStage, Error};
use require_by_string::files::{FileAnswer, FileKind, FileQuery, Files, QueryKind};

#[test]
fn paths_of_hosts_become_paths_of_the_library() {
    assert_eq!(path_from_host("C:\\project\\dep"), "/C:/project/dep");
    assert_eq!(path_from_host("z:/mixed\\Path"), "/Z:/mixed/Path");
    assert_eq!(path_from_host("\\\\server\\share\\a"), "//server/share/a");
    assert_eq!(path_from_host("a\\b"), "a/b");
    assert_eq!(path_from_host("c:dep"), "C:dep");
    assert_eq!(path_from_host(""), "");
}

#[test]
fn the_case_of_a_drive_makes_no_difference() {
    assert_eq!(path_from_host("c:\\x"), path_from_host("C:\\x"));
    assert_ne!(path_from_host("c:\\x"), path_from_host("C:\\X"));
}

#[test]
fn paths_of_the_library_become_paths_of_hosts() {
    let host = |path| path_to_host(path);
    assert_eq!(host("/C:/project/dep"), Some("C:\\project\\dep".to_owned()));
    assert_eq!(host("/C:/"), Some("C:\\".to_owned()));
    assert_eq!(host("/C:"), Some("C:\\".to_owned()));
    assert_eq!(host("//server/share"), Some("\\\\server\\share".to_owned()));
    assert_eq!(host("a/b"), Some("a\\b".to_owned()));
    assert_eq!(host(""), Some(String::new()));
    for path in ["/", "/.luaurc", "/usr/lib", "//server", "//server/"] {
        assert_eq!(host(path), None);
        assert!(!has_place(path));
        assert_eq!(text_on_host(path, true), path);
    }
    assert_eq!(text_on_host("/C:/a", true), "C:\\a");
    assert_eq!(text_on_host("/C:/a", false), "/C:/a");
}

#[test]
fn paths_of_hosts_come_back() {
    for path in ["C:\\a\\b.luau", "X:\\", "\\\\server\\share\\a", "a\\b", "", "C:a"] {
        assert_eq!(path_to_host(&path_from_host(path)), Some(path.to_owned()));
    }
    assert_eq!(path_to_host(&path_from_host("c:/a")), Some("C:\\a".to_owned()));
}

#[test]
fn nothing_stands_above_a_drive() {
    let above = |path: &str, drives| host_parent(path, drives);
    assert_eq!(above("/C:/a", true), Some("/C:".to_owned()));
    assert_eq!(above("/C:", true), None);
    assert_eq!(above("/C:/", true), None);
    assert_eq!(above("/C:", false), Some("/".to_owned()));
    assert_eq!(above("//server/share/a", true), Some("//server/share".to_owned()));
    assert_eq!(above("//server/share", true), None);
    assert_eq!(above("C:a/b", true), Some("C:a".to_owned()));
    assert_eq!(above("C:a", true), Some("C:".to_owned()));
    assert_eq!(above("C:", true), None);
    assert_eq!(above("C:a", false), Some(String::new()));
}

#[test]
fn names_below_a_path_may_be_those_of_drives() {
    assert_eq!(host_join("/C:/a", "b", true), "/C:/a/b");
    assert_eq!(host_join("/C:/a", "d:lib", true), "D:lib");
    assert_eq!(host_join("D:", "lib", true), "D:lib");
    assert_eq!(host_join("/C:/a", "d:lib", false), "/C:/a/d:lib");
    let walk = |start: &str, value: &str| {
        let mut path = start.to_owned();
        append_module_components(&mut path, value, true);
        path
    };
    assert_eq!(walk("/C:/p", "..\\..\\../x"), "/C:/x");
    assert_eq!(walk("/C:/p", "d:lib/x"), "D:lib/x");
    assert_eq!(walk("/C:/p", "d:/x"), "D:x");
    assert_eq!(walk("/C:/p", "d:lib/../.."), "D:");
}

#[test]
fn errors_show_paths_as_the_host_writes_them() {
    let text = |text: &str| text.to_owned();
    let error = || Error::MissingModule {
        request: text("@a/b"),
        source_path: text("/C:/p/main.luau"),
        module: text("/D:/b"),
    };
    assert_eq!(
        host_error(error(), true),
        Error::MissingModule {
            request: text("@a/b"),
            source_path: text("C:\\p\\main.luau"),
            module: text("D:\\b"),
        }
    );
    assert_eq!(host_error(error(), false), error());
    let query = |path| Error::Unanswered(FileQuery { kind: QueryKind::Metadata, path: text(path) });
    assert_eq!(host_error(query("/C:/p"), true), query("C:\\p"));
    let two = |directory| Error::TwoConfigurations { directory: text(directory) };
    assert_eq!(host_error(two("/C:"), true), two("C:\\"));
    let name = |path| Error::InvalidAliasName { name: text("/C:/n"), path: text(path) };
    assert_eq!(host_error(name("/C:/p"), true), name("C:\\p"));
    let native = |source| Error::NativeAlias { name: text("n"), source: text(source) };
    assert_eq!(host_error(native("/C:/p"), true), native("C:\\p"));
    let both = |a, b, c| Error::AmbiguousModule { module: text(a), first: text(b), second: text(c) };
    assert_eq!(host_error(both("/C:/m", "/C:/a", "/C:/b"), true), both("C:\\m", "C:\\a", "C:\\b"));
    let config = |path| Error::Config {
        path: text(path),
        stage: ConfigStage::Result,
        detail: text("/C:/d"),
    };
    assert_eq!(host_error(config("/C:/p"), true), config("C:\\p"));
    let other = || Error::Other { detail: text("/C:/p") };
    assert_eq!(host_error(other(), true), other());
}

#[test]
fn configurations_run_under_their_path_on_the_host() {
    for (drives, shown) in [(true, "C:\\p\\.config.luau"), (false, "/C:/p/.config.luau")] {
        let mut files = Files::new(None, drives);
        let path = "/C:/p/.config.luau";
        files.record(&FileAnswer::Contents {
            path: path.to_owned(),
            contents: Ok("error('here')".to_owned()),
        });
        match files.run(path) {
            Ok(ConfigRun::Failed(detail)) => assert!(detail.contains(shown), "{detail}"),
            other => panic!("expected a failure, got {other:?}"),
        }
    }
}

fn resolve(value: &str, drives: bool) -> String {
    let mut files = Files::new(None, drives);
    assert_eq!(files.drives(), drives);
    let text = |text: &str| text.to_owned();
    let main = text("/C:/p/main.luau");
    files.record(&FileAnswer::Metadata { path: main.clone(), kind: Ok(Some(FileKind::File)) });
    let directories: &[&str] = if drives { &["/C:/p", "/C:"] } else { &["/C:/p", "/C:", ""] };
    for directory in directories {
        for name in [".luaurc", ".config.luau"] {
            let path = format!("{directory}/{name}");
            let there = path == "/C:/p/.luaurc" || path == "/C:/.config.luau";
            files.record(&FileAnswer::Metadata {
                path,
                kind: Ok(if there { Some(FileKind::File) } else { None }),
            });
        }
    }
    files.record(&FileAnswer::Aliases {
        path: text("/C:/p/.luaurc"),
        aliases: Ok(vec![(text("inner"), text(value))]),
    });
    files.record(&FileAnswer::Contents {
        path: text("/C:/.config.luau"),
        contents: Ok(format!("return {{ luau = {{ aliases = {{ outer = {value:?} }} }} }}")),
    });
    let config = AliasConfig::load(&files, &main).unwrap();
    assert_eq!(config.relevant_paths().len(), 2 * directories.len());
    let inner = config.resolve("inner", "x", "/C:/p", &None).unwrap();
    let outer = config.resolve("outer", "x", "/C:/p", &None).unwrap();
    if inner.starts_with("/C:/p/") {
        assert_eq!(outer, inner.replace("/C:/p/", "/C:/"));
    } else {
        assert_eq!(outer, inner);
    }
    inner
}

#[test]
fn values_of_aliases_may_start_at_a_drive() {
    assert_eq!(resolve("D:\\libs", true), "/D:/libs/x");
    assert_eq!(resolve("D:/libs", true), "/D:/libs/x");
    assert_eq!(resolve("\\\\server\\libs", true), "//server/libs/x");
    assert_eq!(resolve("/libs", true), "/C:/p/libs/x");
    assert_eq!(resolve("libs", true), "/C:/p/libs/x");
    assert_eq!(resolve("/libs", false), "/libs/x");
    assert_eq!(resolve("D:/libs", false), "/C:/p/D:/libs/x");
}
