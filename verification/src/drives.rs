//! Paths of hosts with drives.
//!
//! Everywhere else in this library a path is absolute where it starts with `/`, and `/`
//! alone separates names. A host with drives writes `C:\project` for what is `/C:/project`
//! here, and `\\server\share` for `//server/share`.

use vstd::prelude::*;

use crate::error::Error;
use crate::files::FileQuery;
use crate::paths::{
    components, is_separator, join, joined, parent, parent_drops_last_component, parent_of,
    path_components,
};
use crate::text::{chars_of, text_between};

verus! {

/// Whether a character is an ASCII letter.
pub open spec fn is_letter(c: char) -> bool {
    'a' <= c <= 'z' || 'A' <= c <= 'Z'
}

/// The character in upper case where it is an ASCII letter.
pub open spec fn upper(c: char) -> char {
    if 'a' <= c <= 'z' {
        ((c as u8) - 32) as char
    } else {
        c
    }
}

/// Whether a text starts with the name of a drive.
pub open spec fn names_drive(text: Seq<char>) -> bool {
    text.len() >= 2 && is_letter(text[0]) && text[1] == ':'
}

/// Whether a text starts at the root of a drive.
pub open spec fn on_drive(text: Seq<char>) -> bool {
    names_drive(text) && text.len() >= 3 && is_separator(text[2], true)
}

/// Whether a text starts with the name of a server.
pub open spec fn on_server(text: Seq<char>) -> bool {
    &&& text.len() >= 3
    &&& is_separator(text[0], true)
    &&& is_separator(text[1], true)
    &&& !is_separator(text[2], true)
}

/// A text with one character in place of another.
pub open spec fn with_separator(text: Seq<char>, from: char, to: char) -> Seq<char> {
    text.map_values(
        |c: char|
            if c == from {
                to
            } else {
                c
            },
    )
}

/// A text with the letter of its drive, where it starts with one, in upper case: the case
/// of the letter makes no difference.
pub open spec fn with_upper_drive(text: Seq<char>) -> Seq<char> {
    if names_drive(text) {
        text.update(0, upper(text[0]))
    } else {
        text
    }
}

/// The path of a host as this library writes it.
pub open spec fn inward(text: Seq<char>) -> Seq<char> {
    let slashed = with_separator(with_upper_drive(text), '\\', '/');
    if on_drive(text) {
        seq!['/'] + slashed
    } else {
        slashed
    }
}

/// Whether a path is the root of a drive.
pub open spec fn is_drive_root(path: Seq<char>) -> bool {
    path.len() == 3 && path[0] == '/' && is_letter(path[1]) && path[2] == ':'
}

/// Whether a path is a place on a host with drives: on a drive, on a share of a server, or
/// relative to some other place. Nothing stands above those.
pub open spec fn is_place(path: Seq<char>) -> bool {
    ||| path.len() == 0 || path[0] != '/'
    ||| is_drive_root(path)
    ||| on_drive(path.skip(1))
    ||| on_server(path) && components(path).len() >= 3
}

/// The path of this library as the host writes it, where it is a place there.
pub open spec fn outward(path: Seq<char>) -> Option<Seq<char>> {
    if !is_place(path) {
        None
    } else if is_drive_root(path) {
        Some(path.skip(1).push('\\'))
    } else if path.len() > 0 && path[0] == '/' && on_drive(path.skip(1)) {
        Some(with_separator(path.skip(1), '/', '\\'))
    } else {
        Some(with_separator(path, '/', '\\'))
    }
}

/// A path as the host writes it, or as it is where it is no place there or the host has no
/// drives.
pub open spec fn host_text(path: Seq<char>, drives: bool) -> Seq<char> {
    if drives {
        match outward(path) {
            Some(text) => text,
            None => path,
        }
    } else {
        path
    }
}

/// The path without its last component. On a host with drives a path that is as far up as
/// it goes has no parent, and one that starts from wherever a drive stands has the drive as
/// its last.
pub open spec fn parent_on(path: Seq<char>, drives: bool) -> Option<Seq<char>> {
    if drives && names_drive(path) && components(path).len() == 1 {
        if path.len() > 2 {
            Some(path.take(2))
        } else {
            None
        }
    } else {
        match parent_of(path) {
            Some(parent) => if drives && !is_place(parent) {
                None
            } else {
                Some(parent)
            },
            None => None,
        }
    }
}

/// A path with one more name below it. On a host with drives a name that starts with that
/// of a drive is a path of its own, and one below a bare drive starts from wherever the
/// drive stands.
pub open spec fn joined_on(path: Seq<char>, name: Seq<char>, drives: bool) -> Seq<char> {
    if drives && names_drive(name) {
        with_upper_drive(name)
    } else if drives && path.len() == 2 && names_drive(path) {
        path + name
    } else {
        joined(path, name)
    }
}

/// A parent is shorter.
pub proof fn parents_are_shorter(path: Seq<char>, drives: bool)
    ensures
        parent_on(path, drives) matches Some(parent) ==> parent.len() < path.len(),
{
    parent_drops_last_component(path);
}

/// The value of an alias as this library writes it: a value that starts at a drive or a
/// server is absolute on a host with drives, and one that only starts with `/` is not.
pub open spec fn local_value(value: Seq<char>, drives: bool) -> Seq<char> {
    if !drives {
        value
    } else if on_drive(value) || on_server(value) {
        inward(value)
    } else if value.len() > 0 && value[0] == '/' {
        seq!['.'] + value
    } else {
        value
    }
}

/// Declarations with their values as this library writes them.
pub open spec fn local_values(
    declared: Seq<(Seq<char>, Seq<char>)>,
    drives: bool,
) -> Seq<(Seq<char>, Seq<char>)> {
    declared.map_values(|pair: (Seq<char>, Seq<char>)| (pair.0, local_value(pair.1, drives)))
}

fn has_drive_name(chars: &Vec<char>, from: usize) -> (yes: bool)
    requires
        from <= chars@.len(),
    ensures
        yes == names_drive(chars@.skip(from as int)),
{
    if chars.len() - from < 2 {
        return false;
    }
    let (letter, colon) = (chars[from], chars[from + 1]);
    (('a' <= letter && letter <= 'z') || ('A' <= letter && letter <= 'Z')) && colon == ':'
}

fn is_on_drive(chars: &Vec<char>, from: usize) -> (yes: bool)
    requires
        from <= chars@.len(),
    ensures
        yes == on_drive(chars@.skip(from as int)),
{
    has_drive_name(chars, from) && chars.len() - from >= 3 && (chars[from + 2] == '/'
        || chars[from + 2] == '\\')
}

fn raise_drive(chars: &mut Vec<char>)
    ensures
        final(chars)@ == with_upper_drive(old(chars)@),
{
    assert(chars@.skip(0) == chars@);
    if has_drive_name(chars, 0) {
        let letter: char = chars[0];
        if 'a' <= letter && letter <= 'z' {
            let code: u8 = letter as u8;
            chars.set(0, (code - 32) as char);
        } else {
            assert(chars@.update(0, letter) == chars@);
        }
    }
}

fn is_on_server(chars: &Vec<char>) -> (yes: bool)
    ensures
        yes == on_server(chars@),
{
    chars.len() >= 3 && (chars[0] == '/' || chars[0] == '\\') && (chars[1] == '/' || chars[1]
        == '\\') && chars[2] != '/' && chars[2] != '\\'
}

fn replace_separator(chars: &Vec<char>, start: usize, from: char, to: char) -> (text: String)
    requires
        start <= chars@.len(),
    ensures
        text@ == with_separator(chars@.skip(start as int), from, to),
{
    let mut text = String::new();
    let mut i: usize = start;
    while i < chars.len()
        invariant
            start <= i <= chars@.len(),
            text@ == with_separator(chars@.subrange(start as int, i as int), from, to),
        decreases chars@.len() - i,
    {
        let ghost before = text@;
        let c = if chars[i] == from {
            to
        } else {
            chars[i]
        };
        text.push(c);
        assert(text@ == before.push(c));
        assert(chars@.subrange(start as int, i + 1) == chars@.subrange(
            start as int,
            i as int,
        ).push(chars@[i as int]));
        i += 1;
    }
    assert(chars@.subrange(start as int, i as int) == chars@.skip(start as int));
    text
}

/// The path of a host with drives as this library writes it.
pub fn path_from_host(text: &str) -> (path: String)
    ensures
        path@ == inward(text@),
{
    let mut chars = chars_of(text);
    assert(chars@.skip(0) == chars@);
    let rooted = is_on_drive(&chars, 0);
    raise_drive(&mut chars);
    assert(chars@.skip(0) == chars@);
    let slashed = replace_separator(&chars, 0, '\\', '/');
    if rooted {
        let mut path = String::new();
        path.push('/');
        path.append(slashed.as_str());
        assert(path@ == inward(text@));
        path
    } else {
        slashed
    }
}

fn is_root_of_drive(chars: &Vec<char>) -> (yes: bool)
    ensures
        yes == is_drive_root(chars@),
{
    chars.len() == 3 && chars[0] == '/' && has_drive_name(chars, 1)
}

/// Whether a path is a place on a host with drives.
pub fn has_place(path: &str) -> (yes: bool)
    ensures
        yes == is_place(path@),
{
    let chars = chars_of(path);
    chars.len() == 0 || chars[0] != '/' || is_root_of_drive(&chars) || is_on_drive(&chars, 1) || (
    is_on_server(&chars) && path_components(path).len() >= 3)
}

/// The path of this library as a host with drives writes it, `None` where the host has no
/// such place.
pub fn path_to_host(path: &str) -> (text: Option<String>)
    ensures
        text.deep_view() == outward(path@),
{
    let chars = chars_of(path);
    assert(chars@.skip(0) == chars@);
    if !has_place(path) {
        None
    } else if is_root_of_drive(&chars) {
        let mut text = text_between(&chars, 1, 3);
        text.push('\\');
        assert(text@ == path@.skip(1).push('\\'));
        Some(text)
    } else if chars.len() > 0 && chars[0] == '/' && is_on_drive(&chars, 1) {
        Some(replace_separator(&chars, 1, '/', '\\'))
    } else {
        Some(replace_separator(&chars, 0, '/', '\\'))
    }
}

/// A path as the host writes it, or as it is where it is no place there or the host has no
/// drives.
pub fn text_on_host(path: &str, drives: bool) -> (text: String)
    ensures
        text@ == host_text(path@, drives),
{
    if !drives {
        return path.to_owned();
    }
    match path_to_host(path) {
        Some(text) => text,
        None => path.to_owned(),
    }
}

/// The parent of `path` on a host with drives or without them, where it has one.
pub fn host_parent(path: &str, drives: bool) -> (above: Option<String>)
    ensures
        above.deep_view() == parent_on(path@, drives),
{
    if drives {
        let chars = chars_of(path);
        assert(chars@.skip(0) == chars@);
        if has_drive_name(&chars, 0) && path_components(path).len() == 1 {
            if chars.len() > 2 {
                let drive = text_between(&chars, 0, 2);
                assert(drive@ == path@.take(2));
                return Some(drive);
            }
            return None;
        }
    }
    match parent(path) {
        Some(above) => if drives && !has_place(above.as_str()) {
            None
        } else {
            Some(above)
        },
        None => None,
    }
}

/// Puts a name below `path`, on a host with drives or without them.
pub fn host_join(path: &str, name: &str, drives: bool) -> (longer: String)
    ensures
        longer@ == joined_on(path@, name@, drives),
{
    if drives {
        let mut name_chars = chars_of(name);
        assert(name_chars@.skip(0) == name_chars@);
        if has_drive_name(&name_chars, 0) {
            raise_drive(&mut name_chars);
            let raised = text_between(&name_chars, 0, name_chars.len());
            assert(raised@ == name_chars@);
            return raised;
        }
        let chars = chars_of(path);
        assert(chars@.skip(0) == chars@);
        if chars.len() == 2 && has_drive_name(&chars, 0) {
            let mut longer = path.to_owned();
            longer.append(name);
            return longer;
        }
    }
    join(path, name)
}

fn localize(value: &str, drives: bool) -> (local: String)
    ensures
        local@ == local_value(value@, drives),
{
    if !drives {
        return value.to_owned();
    }
    let chars = chars_of(value);
    assert(chars@.skip(0) == chars@);
    if is_on_drive(&chars, 0) || is_on_server(&chars) {
        path_from_host(value)
    } else if chars.len() > 0 && chars[0] == '/' {
        let mut local = String::new();
        local.push('.');
        local.append(value);
        assert(local@ == seq!['.'] + value@);
        local
    } else {
        value.to_owned()
    }
}

/// Writes the values of declarations as this library does.
pub(crate) fn localize_all(declared: Vec<(String, String)>, drives: bool) -> (local: Vec<
    (String, String),
>)
    ensures
        local.deep_view() == local_values(declared.deep_view(), drives),
{
    let mut local: Vec<(String, String)> = Vec::new();
    let mut i: usize = 0;
    while i < declared.len()
        invariant
            i <= declared@.len(),
            local.deep_view() == local_values(declared.deep_view().take(i as int), drives),
        decreases declared@.len() - i,
    {
        let ghost before = local.deep_view();
        let ghost done = declared.deep_view().take(i as int);
        local.push((declared[i].0.clone(), localize(declared[i].1.as_str(), drives)));
        assert(declared.deep_view().take(i + 1) == done.push(declared@[i as int].deep_view()));
        assert(local.deep_view() == before.push(local@[i as int].deep_view()));
        assert(local.deep_view() == local_values(declared.deep_view().take(i + 1), drives));
        i += 1;
    }
    assert(declared.deep_view().take(i as int) == declared.deep_view());
    local
}

/// A path of a host comes back as the host writes it, its drive in upper case: from a
/// drive, from a share of a server, or from no root at all.
pub proof fn host_paths_come_back(text: Seq<char>)
    requires
        on_drive(text) || (on_server(text) && components(inward(text)).len() >= 3) || text.len()
            == 0 || !is_separator(text[0], true),
    ensures
        outward(inward(text)) == Some(with_separator(with_upper_drive(text), '/', '\\')),
{
    let raised = with_upper_drive(text);
    let slashed = with_separator(raised, '\\', '/');
    assert(with_separator(slashed, '/', '\\') == with_separator(raised, '/', '\\'));
    if on_drive(text) {
        assert(inward(text).skip(1) == slashed);
        assert(on_drive(slashed));
    }
}

/// The case of the letter of a drive makes no difference.
pub proof fn drives_have_no_case(text: Seq<char>, other: Seq<char>)
    requires
        names_drive(text),
        names_drive(other),
        upper(text[0]) == upper(other[0]),
        text.skip(1) == other.skip(1),
    ensures
        inward(text) == inward(other),
{
    assert(text.skip(1).len() == text.len() - 1 && other.skip(1).len() == other.len() - 1);
    assert forall|i: int| 1 <= i < text.len() implies text[i] == other[i] by {
        assert(text[i] == text.skip(1)[i - 1]);
        assert(other[i] == other.skip(1)[i - 1]);
    }
    assert(with_upper_drive(text) == with_upper_drive(other));
}

/// An error with its paths as the host writes them.
pub open spec fn error_on_host(error: Error<Seq<char>>, drives: bool) -> Error<Seq<char>> {
    match error {
        Error::Unanswered(query) => Error::Unanswered(
            FileQuery { kind: query.kind, path: host_text(query.path, drives) },
        ),
        Error::TwoConfigurations { directory } => Error::TwoConfigurations {
            directory: host_text(directory, drives),
        },
        Error::InvalidAliasName { name, path } => Error::InvalidAliasName {
            name,
            path: host_text(path, drives),
        },
        Error::NativeAlias { name, source } => Error::NativeAlias {
            name,
            source: host_text(source, drives),
        },
        Error::AmbiguousModule { module, first, second } => Error::AmbiguousModule {
            module: host_text(module, drives),
            first: host_text(first, drives),
            second: host_text(second, drives),
        },
        Error::MissingModule { request, source_path, module } => Error::MissingModule {
            request,
            source_path: host_text(source_path, drives),
            module: host_text(module, drives),
        },
        Error::Config { path, stage, detail } => Error::Config {
            path: host_text(path, drives),
            stage,
            detail,
        },
        other => other,
    }
}

/// Writes the paths of an error as the host does.
pub fn host_error(error: Error<String>, drives: bool) -> (written: Error<String>)
    ensures
        written.deep_view() == error_on_host(error.deep_view(), drives),
{
    match error {
        Error::Unanswered(query) => Error::Unanswered(
            FileQuery { kind: query.kind, path: text_on_host(query.path.as_str(), drives) },
        ),
        Error::TwoConfigurations { directory } => Error::TwoConfigurations {
            directory: text_on_host(directory.as_str(), drives),
        },
        Error::InvalidAliasName { name, path } => Error::InvalidAliasName {
            name,
            path: text_on_host(path.as_str(), drives),
        },
        Error::NativeAlias { name, source } => Error::NativeAlias {
            name,
            source: text_on_host(source.as_str(), drives),
        },
        Error::AmbiguousModule { module, first, second } => Error::AmbiguousModule {
            module: text_on_host(module.as_str(), drives),
            first: text_on_host(first.as_str(), drives),
            second: text_on_host(second.as_str(), drives),
        },
        Error::MissingModule { request, source_path, module } => Error::MissingModule {
            request,
            source_path: text_on_host(source_path.as_str(), drives),
            module: text_on_host(module.as_str(), drives),
        },
        Error::Config { path, stage, detail } => Error::Config {
            path: text_on_host(path.as_str(), drives),
            stage,
            detail,
        },
        other => other,
    }
}

} // verus!
