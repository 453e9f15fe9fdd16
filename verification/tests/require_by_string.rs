//! Requests and the transformer that rewrites them, on in-memory projects.

use memofs::{InMemoryFs, IoResultExt, Vfs, VfsSnapshot};
use require_by_string::error::Error;
use require_by_string::files::{FileAnswer, FileKind, FileQuery, Files, QueryKind};
use require_by_string::luau::find_require_calls;
use require_by_string::questions::open_questions;
use require_by_string::require_by_string::RequireByStringTransformer;
use require_by_string::rewrite::script_text;
use require_by_string::snapshot::{
    InstanceMetadata, InstanceSnapshot, InstigatingSource, PropertyValue,
};
use require_by_string::text_map::TextMap;
use require_by_string::transformer::{TransformChange, TransformContext, Transformer};

fn instance(name: &str, class_name: &str, children: Vec<InstanceSnapshot>) -> InstanceSnapshot {
    InstanceSnapshot {
        snapshot_id: 0,
        name: name.to_owned(),
        class_name: class_name.to_owned(),
        properties: TextMap::new(),
        metadata: InstanceMetadata { instigating_source: None, relevant_paths: Vec::new() },
        children,
    }
}

fn source_instance(path: &str, name: &str, class_name: &str, source: &str) -> InstanceSnapshot {
    let mut snapshot = instance(name, class_name, Vec::new());
    snapshot
        .properties
        .insert("Source".to_owned(), PropertyValue::Text(source.to_owned()));
    snapshot.metadata = InstanceMetadata {
        instigating_source: Some(InstigatingSource::Path(path.to_owned())),
        relevant_paths: vec![path.to_owned()],
    };
    snapshot
}

fn project_vfs<const N: usize>(files: [(&'static str, VfsSnapshot); N]) -> Vfs {
    let mut filesystem = InMemoryFs::new();
    filesystem
        .load_snapshot("/project", VfsSnapshot::dir(files))
        .unwrap();
    Vfs::new(filesystem)
}

fn module_context<'a>(root: &'a InstanceSnapshot, name: &str) -> TransformContext<'a> {
    TransformContext::with_instance_path(root, vec!["Project".to_owned(), name.to_owned()])
}

fn read_aliases(vfs: &Vfs, path: &str) -> Result<Vec<(String, String)>, String> {
    let contents = vfs
        .read_to_string_lf_normalized(path)
        .map_err(|error| error.to_string())?;
    let parsed: serde_json::Value =
        serde_json::from_str(contents.as_str()).map_err(|error| error.to_string())?;
    let mut aliases = Vec::new();
    if let Some(declared) = parsed.get("aliases").and_then(|value| value.as_object()) {
        for (name, value) in declared {
            aliases.push((name.clone(), value.as_str().unwrap().to_owned()));
        }
    }
    aliases.sort();
    Ok(aliases)
}

fn answer(vfs: &Vfs, query: &FileQuery<String>) -> FileAnswer {
    let path = query.path.clone();
    match query.kind {
        QueryKind::Metadata => {
            let kind = vfs
                .metadata(&path)
                .with_not_found()
                .map(|metadata| {
                    metadata.map(|metadata| {
                        if metadata.is_dir() {
                            FileKind::Directory
                        } else {
                            FileKind::File
                        }
                    })
                })
                .map_err(|error| error.to_string());
            FileAnswer::Metadata { path, kind }
        }
        QueryKind::Aliases => {
            let aliases = read_aliases(vfs, &path);
            FileAnswer::Aliases { path, aliases }
        }
        QueryKind::Contents => {
            let contents = vfs
                .read_to_string_lf_normalized(&path)
                .map(|contents| contents.to_string())
                .map_err(|error| error.to_string());
            FileAnswer::Contents { path, contents }
        }
        QueryKind::Canonical => {
            let canonical = vfs
                .canonicalize(&path)
                .with_not_found()
                .map(|path| path.map(|path| path.to_str().unwrap().to_owned()))
                .map_err(|error| error.to_string());
            FileAnswer::Canonical { path, canonical }
        }
    }
}

fn transform(
    transformer: &mut RequireByStringTransformer,
    vfs: &Vfs,
    snapshot: InstanceSnapshot,
    context: &TransformContext<'_>,
) -> Result<InstanceSnapshot, Error<String>> {
    loop {
        match transformer.transform(snapshot.clone(), context) {
            Err(Error::Unanswered(query)) => transformer.handle_answer(&answer(vfs, &query)),
            done => return done,
        }
    }
}

fn source_of(snapshot: &InstanceSnapshot) -> String {
    script_text(snapshot).expect("expected Source to be a string")
}

#[test]
fn finds_parenthesized_string_requires() {
    let calls =
        find_require_calls("local one = require(\"@shared/one\")\nlocal two = require('two')")
            .unwrap();

    assert_eq!(calls.len(), 2);
    assert_eq!(calls[0].request, "@shared/one");
    assert!(!calls[0].bare_string);
    assert_eq!(calls[1].request, "two");
    assert!(!calls[1].bare_string);
}

#[test]
fn finds_bare_string_requires() {
    let source = "local module = require \"./module\"";
    let calls = find_require_calls(source).unwrap();

    assert_eq!(calls.len(), 1);
    assert_eq!(calls[0].request, "./module");
    assert!(calls[0].bare_string);
    assert_eq!(&source[calls[0].source_range.clone()], "\"./module\"");
}

#[test]
fn finds_bracket_string_requires() {
    let source = "local module = require [[\n@shared/module]]";
    let calls = find_require_calls(source).unwrap();

    assert_eq!(calls.len(), 1);
    assert_eq!(calls[0].request, "@shared/module");
    assert!(calls[0].bare_string);
}

#[test]
fn ignores_non_static_or_multi_argument_requires() {
    let calls = find_require_calls(
        "require(moduleName)\nrequire(\"one\", \"two\")\nrequire({})\nrequire.foo(\"not a require\")",
    )
    .unwrap();

    assert!(calls.is_empty());
}

#[test]
fn preserves_source_offsets_after_comments_and_unicode() {
    let source = "-- comentário\nlocal module = require(\"./module\")";
    let calls = find_require_calls(source).unwrap();

    assert_eq!(&source[calls[0].source_range.clone()], "\"./module\"");
}

#[test]
fn leaves_native_require_paths_unchanged() {
    let vfs = project_vfs([
        (
            "main.luau",
            VfsSnapshot::file("local dep = require(\"./dep\")"),
        ),
        ("dep.luau", VfsSnapshot::file("return {}")),
    ]);
    let main = source_instance(
        "/project/main.luau",
        "main",
        "ModuleScript",
        "local dep = require(\"./dep\")",
    );
    let root = instance(
        "Project",
        "Folder",
        vec![
            main.clone(),
            source_instance("/project/dep.luau", "dep", "ModuleScript", "return {}"),
        ],
    );
    let mut transformer = RequireByStringTransformer::new(None, false);

    let transformed =
        transform(&mut transformer, &vfs, main, &module_context(&root, "main")).unwrap();

    assert_eq!(source_of(&transformed), "local dep = require(\"./dep\")");
}

#[test]
fn transforms_luaurc_aliases() {
    let vfs = project_vfs([
        (
            ".luaurc",
            VfsSnapshot::file(r#"{ "aliases": { "src": "./src" } }"#),
        ),
        (
            "main.luau",
            VfsSnapshot::file("return require(\"@SRC/dep\")"),
        ),
        (
            "src",
            VfsSnapshot::dir([("dep.luau", VfsSnapshot::file("return {}"))]),
        ),
    ]);
    let main = source_instance(
        "/project/main.luau",
        "main",
        "ModuleScript",
        "return require(\"@SRC/dep\")",
    );
    let root = instance(
        "Project",
        "Folder",
        vec![
            main.clone(),
            instance(
                "src",
                "Folder",
                vec![source_instance(
                    "/project/src/dep.luau",
                    "dep",
                    "ModuleScript",
                    "return {}",
                )],
            ),
        ],
    );
    let mut transformer = RequireByStringTransformer::new(None, false);

    let transformed =
        transform(&mut transformer, &vfs, main, &module_context(&root, "main")).unwrap();

    assert_eq!(
        source_of(&transformed),
        "return require(script.Parent:WaitForChild(\"src\"):WaitForChild(\"dep\"))"
    );
}

#[test]
fn keeps_transformed_require_inline_and_preserves_source_lines() {
    let vfs = project_vfs([
        (
            ".luaurc",
            VfsSnapshot::file(r#"{ "aliases": { "src": "./src" } }"#),
        ),
        (
            "main.luau",
            VfsSnapshot::file(
                "local before = true\nlocal dep = require(\"@src/dep\") -- keep this line\nreturn dep",
            ),
        ),
        (
            "src",
            VfsSnapshot::dir([("dep.luau", VfsSnapshot::file("return {}"))]),
        ),
    ]);
    let main = source_instance(
        "/project/main.luau",
        "main",
        "ModuleScript",
        "local before = true\nlocal dep = require(\"@src/dep\") -- keep this line\nreturn dep",
    );
    let root = instance(
        "Project",
        "Folder",
        vec![
            main.clone(),
            instance(
                "src",
                "Folder",
                vec![source_instance(
                    "/project/src/dep.luau",
                    "dep",
                    "ModuleScript",
                    "return {}",
                )],
            ),
        ],
    );

    let transformed = transform(
        &mut RequireByStringTransformer::new(None, false),
        &vfs,
        main,
        &module_context(&root, "main"),
    )
    .unwrap();
    let source = source_of(&transformed);

    assert_eq!(source.lines().count(), 3);
    assert_eq!(
        source.as_str(),
        "local before = true\nlocal dep = require(script.Parent:WaitForChild(\"src\"):WaitForChild(\"dep\")) -- keep this line\nreturn dep"
    );
}

#[test]
fn follows_luau_file_extension_precedence() {
    let vfs = project_vfs([
        (
            ".luaurc",
            VfsSnapshot::file(
                r#"{ "aliases": { "preferred": "./dep.v1", "legacy": "./dep.v1.lua" } }"#,
            ),
        ),
        (
            "main.luau",
            VfsSnapshot::file("return { require(\"@preferred\"), require(\"@legacy\") }"),
        ),
        ("dep.v1.luau", VfsSnapshot::file("return {}")),
        ("dep.v1.lua", VfsSnapshot::file("return {}")),
    ]);
    let main = source_instance(
        "/project/main.luau",
        "main",
        "ModuleScript",
        "return { require(\"@preferred\"), require(\"@legacy\") }",
    );
    let root = instance(
        "Project",
        "Folder",
        vec![
            main.clone(),
            source_instance(
                "/project/dep.v1.luau",
                "Preferred",
                "ModuleScript",
                "return {}",
            ),
            source_instance("/project/dep.v1.lua", "Legacy", "ModuleScript", "return {}"),
        ],
    );
    let mut transformer = RequireByStringTransformer::new(None, false);

    let transformed =
        transform(&mut transformer, &vfs, main, &module_context(&root, "main")).unwrap();

    assert_eq!(
        source_of(&transformed),
        "return { require(script.Parent:WaitForChild(\"Preferred\")), require(script.Parent:WaitForChild(\"Legacy\")) }"
    );
}

#[test]
fn resolves_aliases_chained_to_self_from_the_importer_directory() {
    let vfs = project_vfs([
        (
            ".luaurc",
            VfsSnapshot::file(r#"{ "aliases": { "local": "@self" } }"#),
        ),
        (
            "main.luau",
            VfsSnapshot::file("return require(\"@local/dep\")"),
        ),
        ("dep.luau", VfsSnapshot::file("return {}")),
    ]);
    let main = source_instance(
        "/project/main.luau",
        "main",
        "ModuleScript",
        "return require(\"@local/dep\")",
    );
    let root = instance(
        "Project",
        "Folder",
        vec![
            main.clone(),
            source_instance("/project/dep.luau", "dep", "ModuleScript", "return {}"),
        ],
    );
    let mut transformer = RequireByStringTransformer::new(None, false);

    let transformed =
        transform(&mut transformer, &vfs, main, &module_context(&root, "main")).unwrap();

    assert_eq!(
        source_of(&transformed),
        "return require(script.Parent:WaitForChild(\"dep\"))"
    );
}

#[test]
fn resolves_duplicate_mounts_to_the_nearest_module_instance() {
    let vfs = project_vfs([
        (
            ".luaurc",
            VfsSnapshot::file(r#"{ "aliases": { "dep": "./dep" } }"#),
        ),
        ("main.luau", VfsSnapshot::file("return require(\"@dep\")")),
        ("dep.luau", VfsSnapshot::file("return {}")),
    ]);
    let main = source_instance(
        "/project/main.luau",
        "main",
        "ModuleScript",
        "return require(\"@dep\")",
    );
    let dep = source_instance("/project/dep.luau", "dep", "ModuleScript", "return {}");
    let mount = |name: &str| instance(name, "Folder", vec![main.clone(), dep.clone()]);
    let root = instance("Project", "Folder", vec![mount("First"), mount("Second")]);
    let context_root = root.clone();
    let transformed = transform(
        &mut RequireByStringTransformer::new(None, false),
        &vfs,
        root,
        &TransformContext::new(&context_root),
    )
    .unwrap();

    for mount in &transformed.children {
        let main = &mount.children[0];
        assert_eq!(
            source_of(main),
            "return require(script.Parent:WaitForChild(\"dep\"))"
        );
    }
}

#[test]
fn rejects_modules_removed_from_an_incremental_snapshot() {
    let vfs = project_vfs([
        (
            ".luaurc",
            VfsSnapshot::file(r#"{ "aliases": { "dep": "./dep" } }"#),
        ),
        ("main.luau", VfsSnapshot::file("return require(\"@dep\")")),
        ("dep.luau", VfsSnapshot::file("return {}")),
    ]);
    let main = source_instance(
        "/project/main.luau",
        "main",
        "ModuleScript",
        "return require(\"@dep\")",
    );
    let dep = source_instance("/project/dep.luau", "dep", "ModuleScript", "return {}");
    let old_root = instance("Project", "Folder", vec![main.clone(), dep]);
    let new_root = instance("Project", "Folder", vec![main]);
    let mut transformer = RequireByStringTransformer::new(None, false);
    transform(
        &mut transformer,
        &vfs,
        old_root.clone(),
        &TransformContext::new(&old_root),
    )
    .unwrap();

    let context = TransformContext::with_optional_root(None, vec!["Project".to_owned()]);
    let error = transform(&mut transformer, &vfs, new_root, &context).unwrap_err();

    assert!(error
        .message()
        .contains("is not present in the Rojo tree"));
}

#[test]
fn transforms_dynamic_config_luau_aliases() {
    let vfs = project_vfs([
        (
            ".config.luau",
            VfsSnapshot::file(
                "local aliases = {}\nfor _, name in ipairs({\"source\"}) do\n    aliases[name] = \"./source\"\nend\nreturn { luau = { aliases = aliases } }",
            ),
        ),
        (
            "main.luau",
            VfsSnapshot::file("return require(\"@source/dep\")"),
        ),
        (
            "source",
            VfsSnapshot::dir([("dep.luau", VfsSnapshot::file("return {}"))]),
        ),
    ]);
    let main = source_instance(
        "/project/main.luau",
        "main",
        "ModuleScript",
        "return require(\"@source/dep\")",
    );
    let root = instance(
        "Project",
        "Folder",
        vec![
            main.clone(),
            instance(
                "source",
                "Folder",
                vec![source_instance(
                    "/project/source/dep.luau",
                    "dep",
                    "ModuleScript",
                    "return {}",
                )],
            ),
        ],
    );
    let mut transformer = RequireByStringTransformer::new(None, false);

    let transformed =
        transform(&mut transformer, &vfs, main, &module_context(&root, "main")).unwrap();

    assert_eq!(
        source_of(&transformed),
        "return require(script.Parent:WaitForChild(\"source\"):WaitForChild(\"dep\"))"
    );
}

#[test]
fn leaves_native_require_paths_unchanged_in_nested_init_modules() {
    let vfs = project_vfs([
        ("foo.luau", VfsSnapshot::file("return {}")),
        (
            "package",
            VfsSnapshot::dir([
                (
                    "init.luau",
                    VfsSnapshot::file(
                        "local outer = require(\"./foo\")\nlocal parent = require(\"../foo\")\nlocal inner = require(\"@self/foo\")\nlocal game = require(\"@game/foo\")",
                    ),
                ),
                ("foo.luau", VfsSnapshot::file("return {}")),
            ]),
        ),
    ]);
    let mut package = source_instance(
        "/project/package",
        "package",
        "ModuleScript",
        "local outer = require(\"./foo\")\nlocal parent = require(\"../foo\")\nlocal inner = require(\"@self/foo\")\nlocal game = require(\"@game/foo\")",
    );
    package.children = vec![source_instance(
        "/project/package/foo.luau",
        "foo",
        "ModuleScript",
        "return {}",
    )];
    let root = instance(
        "Project",
        "Folder",
        vec![
            source_instance("/project/foo.luau", "foo", "ModuleScript", "return {}"),
            package,
        ],
    );
    let mut transformer = RequireByStringTransformer::new(None, false);

    let context_root = root.clone();
    let transformed = transform(
        &mut transformer,
        &vfs,
        root,
        &TransformContext::new(&context_root),
    )
    .unwrap();
    let package = transformed
        .children
        .iter()
        .find(|child| child.name == "package")
        .unwrap();

    assert_eq!(
        source_of(package),
        "local outer = require(\"./foo\")\nlocal parent = require(\"../foo\")\nlocal inner = require(\"@self/foo\")\nlocal game = require(\"@game/foo\")"
    );
}

fn alias_project() -> (Vfs, InstanceSnapshot, InstanceSnapshot) {
    let vfs = project_vfs([
        (
            ".luaurc",
            VfsSnapshot::file(r#"{ "aliases": { "dep": "./dep" } }"#),
        ),
        ("main.luau", VfsSnapshot::file("return require(\"@dep\")")),
        ("dep.luau", VfsSnapshot::file("return {}")),
    ]);
    let main = source_instance(
        "/project/main.luau",
        "main",
        "ModuleScript",
        "return require(\"@dep\")",
    );
    let dep = source_instance("/project/dep.luau", "dep", "ModuleScript", "return {}");
    (vfs, main.clone(), instance("Project", "Folder", vec![main, dep]))
}

#[test]
fn rewritten_scripts_watch_modules_and_configurations() {
    let (vfs, main, root) = alias_project();
    let mut transformer = RequireByStringTransformer::new(None, false);
    let transformed =
        transform(&mut transformer, &vfs, main.clone(), &module_context(&root, "main")).unwrap();

    assert_eq!(
        transformed.metadata.relevant_paths,
        [
            "/.config.luau",
            "/.luaurc",
            "/project/.config.luau",
            "/project/.luaurc",
            "/project/dep.luau",
            "/project/main.luau",
        ]
    );
    assert_eq!(transformed.name, main.name);
    assert_eq!(transformed.class_name, main.class_name);
    assert_eq!(transformed.metadata.instigating_source, main.metadata.instigating_source);
}

#[test]
fn a_run_waits_for_one_answer_after_the_other() {
    let (vfs, _, root) = alias_project();
    let mut transformer = RequireByStringTransformer::new(None, false);
    let context = TransformContext::without_root();
    let mut asked = Vec::new();
    let transformed = loop {
        match transformer.transform(root.clone(), &context) {
            Err(Error::Unanswered(query)) => {
                let again = transformer.transform(root.clone(), &context).unwrap_err();
                transformer.handle_answer(&answer(&vfs, &query));
                asked.push(query.path.clone());
                assert_eq!(again, Error::Unanswered(query));
            }
            done => break done.unwrap(),
        }
    };
    assert_eq!(
        asked,
        [
            "/project/main.luau",
            "/project/dep.luau",
            "/.luaurc",
            "/.config.luau",
            "/project/.luaurc",
            "/project/.config.luau",
            "/project/.luaurc",
        ]
    );
    assert_eq!(
        source_of(&transformed.children[0]),
        "return require(script.Parent:WaitForChild(\"dep\"))"
    );
    let error = transformer.transform(root, &context).unwrap_err();
    assert!(matches!(error, Error::Unanswered(_)));
}

#[test]
fn questions_can_be_answered_in_advance() {
    let (vfs, _, root) = alias_project();
    let mut known = Files::new(None, false);
    let mut transformer = RequireByStringTransformer::new(None, false);
    let mut rounds = Vec::new();
    loop {
        let questions = open_questions(&known, &root);
        if questions.is_empty() {
            break;
        }
        rounds.push(questions.len());
        for question in &questions {
            assert!(!known.knows_metadata(&question.path));
            let answer = answer(&vfs, question);
            known.record(&answer);
            transformer.handle_answer(&answer);
        }
    }
    assert_eq!(rounds, [2, 4]);

    let context = TransformContext::without_root();
    let error = transformer.transform(root, &context).unwrap_err();
    assert_eq!(
        error,
        Error::Unanswered(FileQuery {
            kind: QueryKind::Aliases,
            path: "/project/.luaurc".to_owned()
        })
    );
}

#[test]
fn changed_configurations_are_loaded_anew() {
    let (vfs, _, root) = alias_project();
    let mut transformer = RequireByStringTransformer::new(None, false);
    let context = TransformContext::without_root();
    transform(&mut transformer, &vfs, root.clone(), &context).unwrap();

    let other = project_vfs([
        (
            ".luaurc",
            VfsSnapshot::file(r#"{ "aliases": { "dep": "./main" } }"#),
        ),
        ("main.luau", VfsSnapshot::file("return require(\"@dep\")")),
        ("dep.luau", VfsSnapshot::file("return {}")),
    ]);
    let again = transform(&mut transformer, &other, root.clone(), &context).unwrap();
    assert_eq!(
        source_of(&again.children[0]),
        "return require(script.Parent:WaitForChild(\"dep\"))"
    );

    transformer.handle_change(&TransformChange::Written("/project/.luaurc".to_owned()));
    let changed = transform(&mut transformer, &other, root, &context).unwrap();
    assert_eq!(source_of(&changed.children[0]), "return require(script)");
}

#[test]
fn removed_sources_and_instances_stand_for_no_module() {
    let (vfs, main, root) = alias_project();
    let part = TransformContext::with_optional_root(
        None,
        vec!["Project".to_owned(), "main".to_owned()],
    );
    let missing = Error::MissingModule {
        request: "@dep".to_owned(),
        source_path: "/project/main.luau".to_owned(),
        module: "/project/dep".to_owned(),
    };

    let mut transformer = RequireByStringTransformer::new(None, false);
    transform(&mut transformer, &vfs, root.clone(), &TransformContext::without_root()).unwrap();
    transform(&mut transformer, &vfs, main.clone(), &part).unwrap();
    transformer.handle_change(&TransformChange::Removed("/project/dep.luau".to_owned()));
    assert_eq!(transform(&mut transformer, &vfs, main.clone(), &part), Err(missing));

    let mut transformer = RequireByStringTransformer::new(None, false);
    transform(&mut transformer, &vfs, root, &TransformContext::without_root()).unwrap();
    transformer.remove_instance(&TransformContext::with_optional_root(
        None,
        vec!["Project".to_owned(), "dep".to_owned()],
    ));
    let error = transform(&mut transformer, &vfs, main, &part).unwrap_err();
    assert!(matches!(error, Error::MissingModule { .. }));
}

#[test]
fn project_nodes_take_their_source_from_the_project_file() {
    let vfs = project_vfs([
        (
            ".luaurc",
            VfsSnapshot::file(r#"{ "aliases": { "lib": "./lib" } }"#),
        ),
        (
            "lib",
            VfsSnapshot::dir([("init.luau", VfsSnapshot::file("return {}"))]),
        ),
        ("main.luau", VfsSnapshot::file("")),
    ]);
    let node = |node_path: Option<&str>| {
        let mut lib = source_instance("/unused", "Lib", "ModuleScript", "return {}");
        lib.metadata.instigating_source = Some(InstigatingSource::ProjectNode {
            path: "/project/default.project.json".to_owned(),
            node_path: node_path.map(str::to_owned),
        });
        lib
    };
    let main = source_instance("/project/main.luau", "main", "Script", "require '@lib'");
    let run = |node_path: Option<&str>| {
        let root = instance("Project", "Folder", vec![main.clone(), node(node_path)]);
        transform(
            &mut RequireByStringTransformer::new(None, false),
            &vfs,
            root,
            &TransformContext::without_root(),
        )
        .map(|root| source_of(&root.children[0]))
    };
    let expected = "require (script.Parent:WaitForChild(\"Lib\"))".to_owned();
    assert_eq!(run(Some("lib")), Ok(expected.clone()));
    assert_eq!(run(Some("/project/lib")), Ok(expected));
    assert!(matches!(run(None), Err(Error::MissingModule { .. })));
}

#[test]
fn modules_are_found_by_their_canonical_path() {
    let vfs = project_vfs([
        (
            ".luaurc",
            VfsSnapshot::file(r#"{ "aliases": { "up": "/project/x/../dep.luau" } }"#),
        ),
        ("main.luau", VfsSnapshot::file("")),
        ("dep.luau", VfsSnapshot::file("return {}")),
    ]);
    let main = source_instance("/project/main.luau", "main", "Script", "require('@up')");
    let dep = source_instance("/project/dep.luau", "dep", "ModuleScript", "return {}");
    let root = instance("Project", "Folder", vec![main, dep]);
    let transformed = transform(
        &mut RequireByStringTransformer::new(None, false),
        &vfs,
        root,
        &TransformContext::without_root(),
    )
    .unwrap();
    assert_eq!(
        source_of(&transformed.children[0]),
        "require(script.Parent:WaitForChild(\"dep\"))"
    );
}

#[test]
fn requests_of_both_kinds_can_stand_in_one_script() {
    let (vfs, _, _) = alias_project();
    let main = source_instance(
        "/project/main.luau",
        "main",
        "ModuleScript",
        "local a = require('./x')\nlocal b = require '@Dep'\nlocal c = require('@SELF/y')\nreturn require('@/z')",
    );
    let dep = source_instance("/project/dep.luau", "dep", "ModuleScript", "return {}");
    let root = instance("Project", "Folder", vec![main, dep]);
    let transformed = transform(
        &mut RequireByStringTransformer::new(None, false),
        &vfs,
        root.clone(),
        &TransformContext::without_root(),
    )
    .unwrap();
    assert_eq!(
        source_of(&transformed.children[0]),
        "local a = require('./x')\nlocal b = require (script.Parent:WaitForChild(\"dep\"))\nlocal c = require('@SELF/y')\nreturn require('@/z')"
    );
    assert_eq!(transformed.children[1], root.children[1]);
}

#[test]
fn other_instances_stay_as_they_are() {
    let (vfs, _, _) = alias_project();
    let text = source_instance("/project/notes.txt", "notes", "StringValue", "require('@dep')");
    let mut sourceless = instance("plain", "ModuleScript", Vec::new());
    sourceless
        .properties
        .insert("Source".to_owned(), PropertyValue::Text("require('@dep')".to_owned()));
    let mut binary = source_instance("/project/main.luau", "odd", "Script", "");
    binary
        .properties
        .insert("Source".to_owned(), PropertyValue::Other(7));
    let quiet = source_instance("/project/dep.luau", "quiet", "Script", "return 1");
    let root = instance("Project", "Folder", vec![text, sourceless, binary, quiet]);
    let transformed = transform(
        &mut RequireByStringTransformer::new(None, false),
        &vfs,
        root.clone(),
        &TransformContext::without_root(),
    )
    .unwrap();
    assert_eq!(transformed, root);
}

#[test]
fn failures_of_the_file_system_end_a_run() {
    let (_, _, root) = alias_project();
    let mut transformer = RequireByStringTransformer::new(None, false);
    transformer.handle_answer(&FileAnswer::Metadata {
        path: "/project/main.luau".to_owned(),
        kind: Err("permission denied".to_owned()),
    });
    let error = transformer
        .transform(root, &TransformContext::without_root())
        .unwrap_err();
    assert_eq!(error, Error::Io { detail: "permission denied".to_owned() });
}

#[test]
fn home_aliases_lead_to_the_home_directory() {
    let vfs = project_vfs([
        (
            ".luaurc",
            VfsSnapshot::file(r#"{ "aliases": { "mine": "~/lib" } }"#),
        ),
        ("main.luau", VfsSnapshot::file("")),
        (
            "lib",
            VfsSnapshot::dir([("dep.luau", VfsSnapshot::file("return {}"))]),
        ),
    ]);
    let main = source_instance("/project/main.luau", "main", "Script", "require('@mine/dep')");
    let dep = source_instance("/project/lib/dep.luau", "dep", "ModuleScript", "return {}");
    let root = instance("Project", "Folder", vec![main, dep]);
    let transformed = transform(
        &mut RequireByStringTransformer::new(Some("/project".to_owned()), false),
        &vfs,
        root,
        &TransformContext::without_root(),
    )
    .unwrap();
    assert_eq!(
        source_of(&transformed.children[0]),
        "require(script.Parent:WaitForChild(\"dep\"))"
    );
}
