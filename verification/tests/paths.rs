//! Paths as text, held against the paths of the standard library.

use std::path::{Component, Path, PathBuf};

use require_by_string::paths::{
    absolute, extension, join, luau_file, parent, path_components, path_less, path_starts_with,
    path_with_extension, same_path, sort_paths, PathComponent,
};

const SAMPLES: [&str; 44] = [
    "", "/", "//", "///", ".", "./", "./.", "..", "../", "../..", "/..", "/.", "a", "a/", "a//",
    "a/.", "a/./", "./a", "././a", "a/b", "a//b", "a/./b", "a/../b", "a/b/", "a/b/.", "a/b/..",
    "/a", "/a/", "//a", "/./a", "/a/b", "/a//b/", "/a/b/c.luau", "/a/b/c.v1.lua", "/a/.luaurc",
    "/a/.config.luau", "a.", "a..", "a.b.", ".a.b", "...", "/project/ä/ö.luau", " ", "a b/c d",
];

fn std_components(path: &str) -> Vec<String> {
    Path::new(path)
        .components()
        .map(|component| match component {
            Component::RootDir => "root".to_owned(),
            Component::CurDir => "current".to_owned(),
            Component::ParentDir => "parent".to_owned(),
            Component::Normal(name) => format!("name {}", name.to_str().unwrap()),
            Component::Prefix(_) => unreachable!(),
        })
        .collect()
}

fn own_components(path: &str) -> Vec<String> {
    path_components(path)
        .iter()
        .map(|component| match component {
            PathComponent::Root => "root".to_owned(),
            PathComponent::Current => "current".to_owned(),
            PathComponent::Parent => "parent".to_owned(),
            PathComponent::Normal(name) => format!("name {name}"),
        })
        .collect()
}

#[test]
fn components_are_those_of_std() {
    for path in SAMPLES {
        assert_eq!(own_components(path), std_components(path), "{path:?}");
        assert_eq!(absolute(path), Path::new(path).is_absolute(), "{path:?}");
    }
}

#[test]
fn parents_are_those_of_std() {
    for path in SAMPLES {
        let expected = Path::new(path).parent().map(|parent| parent.to_str().unwrap().to_owned());
        assert_eq!(parent(path), expected, "{path:?}");
    }
}

#[test]
fn a_parent_drops_the_last_component() {
    for path in SAMPLES {
        if let Some(above) = parent(path) {
            let mut components = own_components(path);
            components.pop();
            assert_eq!(own_components(&above), components, "{path:?}");
            assert!(above.len() < path.len());
        }
    }
}

#[test]
fn joined_paths_are_those_of_std() {
    for base in SAMPLES {
        for tail in SAMPLES {
            let expected = Path::new(base).join(tail);
            assert_eq!(join(base, tail), expected.to_str().unwrap(), "{base:?} {tail:?}");
        }
    }
}

#[test]
fn extensions_are_those_of_std() {
    for path in SAMPLES {
        let expected = Path::new(path)
            .extension()
            .map(|extension| extension.to_str().unwrap().to_owned());
        let luau = matches!(expected.as_deref(), Some("lua" | "luau"));
        assert_eq!(extension(path), expected, "{path:?}");
        assert_eq!(luau_file(path), luau, "{path:?}");
    }
}

#[test]
fn comparisons_are_those_of_std() {
    for a in SAMPLES {
        for b in SAMPLES {
            let (left, right) = (Path::new(a), Path::new(b));
            assert_eq!(same_path(a, b), left == right, "{a:?} {b:?}");
            assert_eq!(path_starts_with(a, b), left.starts_with(right), "{a:?} {b:?}");
            assert_eq!(path_less(a, b), left < right, "{a:?} {b:?}");
        }
    }
}

#[test]
fn sorting_drops_repeated_paths_as_std_does() {
    let rows: [Vec<&str>; 4] = [
        Vec::new(),
        vec!["/b", "/a", "/b/", "/a/./"],
        SAMPLES.to_vec(),
        SAMPLES.iter().rev().copied().collect(),
    ];
    for row in rows {
        let mut expected: Vec<PathBuf> = row.iter().map(PathBuf::from).collect();
        expected.sort();
        expected.dedup();
        let expected: Vec<String> = expected
            .iter()
            .map(|path| path.to_str().unwrap().to_owned())
            .collect();
        let sorted = sort_paths(row.iter().map(|path| path.to_string()).collect());
        assert_eq!(sorted, expected);
    }
}

#[test]
fn an_added_extension_keeps_the_old_one() {
    assert_eq!(path_with_extension("/a/dep.v1", "luau"), "/a/dep.v1.luau");
    assert_eq!(path_with_extension("/a/dep", "lua"), "/a/dep.lua");
}
