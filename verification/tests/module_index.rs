//! The index of modules.

use require_by_string::error::Error;
use require_by_string::files::{FileAnswer, FileKind, FileQuery, Files, QueryKind};
use require_by_string::module_index::{luau_module_path, source_path, ModuleIndex};
use require_by_string::snapshot::{InstanceMetadata, InstanceSnapshot, InstigatingSource};
use require_by_string::text_map::TextMap;

fn module(name: &str, path: &str, children: Vec<InstanceSnapshot>) -> InstanceSnapshot {
    InstanceSnapshot {
        snapshot_id: 0,
        name: name.to_owned(),
        class_name: "ModuleScript".to_owned(),
        properties: TextMap::new(),
        metadata: InstanceMetadata {
            instigating_source: Some(InstigatingSource::Path(path.to_owned())),
            relevant_paths: vec![path.to_owned()],
        },
        children,
    }
}

fn folder(name: &str, children: Vec<InstanceSnapshot>) -> InstanceSnapshot {
    InstanceSnapshot {
        snapshot_id: 0,
        name: name.to_owned(),
        class_name: "Folder".to_owned(),
        properties: TextMap::new(),
        metadata: InstanceMetadata { instigating_source: None, relevant_paths: Vec::new() },
        children,
    }
}

fn known(paths: &[&str]) -> Files {
    let mut files = Files::new(None, false);
    for path in paths {
        let kind = if path.contains('.') {
            FileKind::File
        } else {
            FileKind::Directory
        };
        files.record(&FileAnswer::Metadata { path: path.to_string(), kind: Ok(Some(kind)) });
    }
    files
}

fn canonical(files: &mut Files, path: &str, canonical: Option<&str>) {
    files.record(&FileAnswer::Canonical {
        path: path.to_owned(),
        canonical: Ok(canonical.map(str::to_owned)),
    });
}

fn names(path: &[&str]) -> Vec<String> {
    path.iter().map(|name| name.to_string()).collect()
}

fn found(index: &ModuleIndex, files: &Files, path: &str, importer: &[&str]) -> Option<Vec<String>> {
    index
        .target(path, files, &names(importer))
        .unwrap()
        .map(|target| target.instance_path.clone())
}

#[test]
fn the_nearest_instance_is_found_and_the_last_of_equals() {
    let files = known(&["/p/dep.luau"]);
    let dep = |name: &str| module(name, "/p/dep.luau", Vec::new());
    let root = folder(
        "P",
        vec![
            folder("a", vec![dep("one"), dep("two")]),
            folder("b", vec![dep("three")]),
            dep("four"),
        ],
    );
    let index = ModuleIndex::from_snapshot(&root, &files).unwrap_or_else(|_| panic!("no index"));

    let at = |importer: &[&str]| found(&index, &files, "/p/dep.luau", importer);
    assert_eq!(at(&["P", "a", "main"]), Some(names(&["P", "a", "two"])));
    assert_eq!(at(&["P", "b", "main"]), Some(names(&["P", "b", "three"])));
    assert_eq!(at(&["P", "main"]), Some(names(&["P", "four"])));
    assert_eq!(at(&["Q"]), Some(names(&["P", "four"])));
}

#[test]
fn extensions_are_tried_in_order() {
    let mut files = known(&["/p/a.luau", "/p/a.lua", "/p/a", "/p/b"]);
    for path in ["/p/b.luau", "/p/b.lua", "/p/c.luau", "/p/c.lua", "/p/c", "/p/c.txt.luau", "/p/c.txt.lua", "/p/c.txt"] {
        canonical(&mut files, path, None);
    }
    let root = folder(
        "P",
        vec![
            module("directory", "/p/a", Vec::new()),
            module("lua", "/p/a.lua", Vec::new()),
            module("luau", "/p/a.luau", Vec::new()),
            module("b", "/p/b", Vec::new()),
        ],
    );
    let index = ModuleIndex::from_snapshot(&root, &files).unwrap_or_else(|_| panic!("no index"));

    let at = |path: &str| found(&index, &files, path, &["P", "main"]);
    assert_eq!(at("/p/a"), Some(names(&["P", "luau"])));
    assert_eq!(at("/p/a.lua"), Some(names(&["P", "lua"])));
    assert_eq!(at("/p/./a.luau"), Some(names(&["P", "luau"])));
    assert_eq!(at("/p/b"), Some(names(&["P", "b"])));
    assert_eq!(at("/p/c"), None);
    assert_eq!(at("/p/c.txt"), None);
}

#[test]
fn lookups_ask_for_canonical_paths() {
    let mut files = known(&["/p/dep.luau"]);
    let root = module("dep", "/p/dep.luau", Vec::new());
    let index = ModuleIndex::from_snapshot(&root, &files).unwrap_or_else(|_| panic!("no index"));
    assert_eq!(
        index.target("/q/dep.luau", &files, &names(&["dep"])),
        Err(Error::Unanswered(FileQuery {
            kind: QueryKind::Canonical,
            path: "/q/dep.luau".to_owned()
        }))
    );
    canonical(&mut files, "/q/dep.luau", Some("/p/dep.luau"));
    assert_eq!(found(&index, &files, "/q/dep.luau", &["dep"]), Some(names(&["dep"])));
}

#[test]
fn replacing_a_part_leaves_the_rest() {
    let files = {
        let mut files = known(&["/p/a.luau", "/p/b.luau", "/p/c.luau"]);
        for path in ["/p/a.luau", "/p/b.luau", "/p/c.luau"] {
            canonical(&mut files, path, None);
        }
        files
    };
    let root = folder(
        "P",
        vec![
            folder("x", vec![module("a", "/p/a.luau", Vec::new())]),
            module("b", "/p/b.luau", Vec::new()),
        ],
    );
    let mut index = ModuleIndex::from_snapshot(&root, &files).unwrap_or_else(|_| panic!("no index"));
    let part = folder("x", vec![module("c", "/p/c.luau", Vec::new())]);
    index
        .replace_snapshot(&part, &files, &Some(names(&["P", "x"])))
        .unwrap();

    let at = |index: &ModuleIndex, path: &str| found(index, &files, path, &["P"]);
    assert_eq!(at(&index, "/p/a.luau"), None);
    assert_eq!(at(&index, "/p/b.luau"), Some(names(&["P", "b"])));
    assert_eq!(at(&index, "/p/c.luau"), Some(names(&["P", "x", "c"])));

    index.replace_snapshot(&folder("P", Vec::new()), &files, &None).unwrap();
    assert_eq!(at(&index, "/p/b.luau"), None);
    assert_eq!(at(&index, "/p/c.luau"), None);
}

#[test]
fn removing_takes_out_what_is_below() {
    let files = {
        let mut files = known(&["/p/a/x.luau", "/p/ab.luau"]);
        canonical(&mut files, "/p/a/x.luau", None);
        files
    };
    let root = folder(
        "P",
        vec![
            module("one", "/p/a/x.luau", Vec::new()),
            module("two", "/p/ab.luau", Vec::new()),
        ],
    );
    let mut index = ModuleIndex::new();
    index.visit_snapshot(&root, &files, Vec::new()).unwrap();
    index.remove_source_subtree("/p/a");
    assert_eq!(found(&index, &files, "/p/a/x.luau", &["P"]), None);
    assert_eq!(found(&index, &files, "/p/ab.luau", &["P"]), Some(names(&["P", "two"])));

    index.remove_instance_subtree(&names(&["P", "on"]));
    assert_eq!(found(&index, &files, "/p/ab.luau", &["P"]), Some(names(&["P", "two"])));
}

#[test]
fn indexing_asks_for_metadata() {
    let root = module("dep", "/p/dep.luau", Vec::new());
    match ModuleIndex::from_snapshot(&root, &Files::new(None, false)) {
        Err(error) => assert_eq!(
            error,
            Error::Unanswered(FileQuery {
                kind: QueryKind::Metadata,
                path: "/p/dep.luau".to_owned()
            })
        ),
        Ok(_) => panic!("expected a question"),
    }
}

#[test]
fn one_module_may_stand_in_many_places_under_many_spellings() {
    let files = known(&["/p/dep.luau", "/p/./dep.luau", "/p//dep.luau"]);
    let root = folder(
        "P",
        vec![
            module("a", "/p/dep.luau", Vec::new()),
            module("b", "/p/./dep.luau", Vec::new()),
            module("c", "/p//dep.luau", Vec::new()),
        ],
    );
    let index = ModuleIndex::from_snapshot(&root, &files).unwrap_or_else(|_| panic!("ambiguous"));
    assert_eq!(found(&index, &files, "/p/dep.luau", &["P"]), Some(names(&["P", "c"])));
}

#[test]
fn modules_are_directories_and_luau_files() {
    let files = known(&["/p/a", "/p/a.luau", "/p/a.lua", "/p/a.txt"]);
    assert_eq!(luau_module_path(&files, "/p/a"), Ok(Some("/p/a".to_owned())));
    assert_eq!(luau_module_path(&files, "/p/a.luau"), Ok(Some("/p/a.luau".to_owned())));
    assert_eq!(luau_module_path(&files, "/p/a.lua"), Ok(Some("/p/a.lua".to_owned())));
    assert_eq!(luau_module_path(&files, "/p/a.txt"), Ok(None));
}

#[test]
fn sources_of_project_nodes_start_at_the_project_file() {
    let node = |path: &str, node_path: Option<&str>| {
        let mut snapshot = module("m", "/unused", Vec::new());
        snapshot.metadata.instigating_source = Some(InstigatingSource::ProjectNode {
            path: path.to_owned(),
            node_path: node_path.map(str::to_owned),
        });
        source_path(&snapshot)
    };
    assert_eq!(node("/p/x.project.json", Some("src")), Some("/p/src".to_owned()));
    assert_eq!(node("/p/x.project.json", Some("/abs")), Some("/abs".to_owned()));
    assert_eq!(node("/p/x.project.json", None), None);
    assert_eq!(node("/", Some("src")), None);
    assert_eq!(source_path(&folder("f", Vec::new())), None);
}
