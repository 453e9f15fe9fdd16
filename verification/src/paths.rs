//! Paths with `/` between their components, kept as text.
//!
//! Two texts can be the same path: repeated slashes, a slash at the end and `.`
//! inside a path do not count. [`components`] is what a path is; its text is what
//! is shown, asked of the file system and extended.

use vstd::prelude::*;

use crate::text::{
    chars_of, is_text_less, same_text, text_between, text_less, text_less_total,
    text_less_transitive,
};
use crate::duplicate::Duplicate;

verus! {

/// One step of a path.
#[derive(Debug)]
pub enum PathComponent<S> {
    /// The `/` that an absolute path starts with.
    Root,
    /// A `.` that a relative path starts with.
    Current,
    /// A `..`.
    Parent,
    /// A name.
    Normal(S),
}

impl Duplicate for PathComponent<String> {
    fn duplicate(&self) -> (copy: Self) {
        match self {
            PathComponent::Root => PathComponent::Root,
            PathComponent::Current => PathComponent::Current,
            PathComponent::Parent => PathComponent::Parent,
            PathComponent::Normal(name) => PathComponent::Normal(name.clone()),
        }
    }
}

impl DeepView for PathComponent<String> {
    type V = PathComponent<Seq<char>>;

    open spec fn deep_view(&self) -> PathComponent<Seq<char>> {
        match self {
            PathComponent::Root => PathComponent::Root,
            PathComponent::Current => PathComponent::Current,
            PathComponent::Parent => PathComponent::Parent,
            PathComponent::Normal(name) => PathComponent::Normal(name@),
        }
    }
}

/// Whether `c` separates pieces: `/` does, and `\` where `backslash` says so.
pub open spec fn is_separator(c: char, backslash: bool) -> bool {
    c == '/' || (backslash && c == '\\')
}

/// The pieces of `text` between its separators.
pub open spec fn pieces(text: Seq<char>, backslash: bool) -> Seq<Seq<char>>
    decreases text.len(),
{
    if text.len() == 0 {
        seq![Seq::empty()]
    } else {
        let before = pieces(text.drop_last(), backslash);
        if is_separator(text.last(), backslash) {
            before.push(Seq::empty())
        } else {
            before.update(before.len() - 1, before.last().push(text.last()))
        }
    }
}

/// There is always a piece, if only an empty one.
pub proof fn pieces_not_empty(text: Seq<char>, backslash: bool)
    ensures
        pieces(text, backslash).len() > 0,
    decreases text.len(),
{
    if text.len() > 0 {
        pieces_not_empty(text.drop_last(), backslash);
    }
}

/// Splits `text` at its separators.
pub(crate) fn split_pieces(text: &str, backslash: bool) -> (split: Vec<String>)
    ensures
        split.deep_view() == pieces(text@, backslash),
{
    let chars = chars_of(text);
    let mut split: Vec<String> = Vec::new();
    let mut piece = String::new();
    let mut i: usize = 0;
    assert(pieces(text@.take(0), backslash) == split.deep_view().push(piece@));
    while i < chars.len()
        invariant
            i <= chars@.len(),
            chars@ == text@,
            pieces(text@.take(i as int), backslash) == split.deep_view().push(piece@),
        decreases chars@.len() - i,
    {
        let ghost done = split.deep_view();
        let ghost begun = piece@;
        assert(text@.take(i + 1).drop_last() == text@.take(i as int));
        if chars[i] == '/' || (backslash && chars[i] == '\\') {
            split.push(piece);
            piece = String::new();
            assert(split.deep_view() == done.push(begun));
        } else {
            piece.push(chars[i]);
            assert(done.push(begun).update(done.len() as int, begun.push(chars@[i as int]))
                == done.push(piece@));
        }
        i += 1;
        assert(pieces(text@.take(i as int), backslash) == split.deep_view().push(piece@));
    }
    let ghost done = split.deep_view();
    let ghost last = piece@;
    assert(text@.take(i as int) == text@);
    split.push(piece);
    assert(split.deep_view() == done.push(last));
    split
}

/// The component that a piece names, none for an empty piece and for `.`.
pub open spec fn piece_component(piece: Seq<char>) -> Option<PathComponent<Seq<char>>> {
    if piece == Seq::<char>::empty() || piece == seq!['.'] {
        None
    } else if piece == seq!['.', '.'] {
        Some(PathComponent::Parent)
    } else {
        Some(PathComponent::Normal(piece))
    }
}

/// The components that a row of pieces names.
pub open spec fn named_components(row: Seq<Seq<char>>) -> Seq<PathComponent<Seq<char>>>
    decreases row.len(),
{
    if row.len() == 0 {
        seq![]
    } else {
        match piece_component(row.last()) {
            None => named_components(row.drop_last()),
            Some(component) => named_components(row.drop_last()).push(component),
        }
    }
}

/// Whether the path starts at the root.
pub open spec fn is_absolute(path: Seq<char>) -> bool {
    path.len() > 0 && path[0] == '/'
}

/// The components of a path. Two texts are the same path where these are equal.
pub open spec fn components(path: Seq<char>) -> Seq<PathComponent<Seq<char>>> {
    let row = pieces(path, false);
    let start = if is_absolute(path) {
        seq![PathComponent::Root]
    } else if row[0] == seq!['.'] {
        seq![PathComponent::Current]
    } else {
        seq![]
    };
    start + named_components(row)
}

fn is_dots(piece: &String, count: usize) -> (dots: bool)
    requires
        count <= 2,
    ensures
        dots == (piece@ == seq!['.', '.'].take(count as int)),
{
    proof {
        reveal_strlit("");
        reveal_strlit(".");
        reveal_strlit("..");
        assert(seq!['.', '.'].take(0) =~= ""@);
        assert(seq!['.', '.'].take(1) =~= "."@);
        assert(seq!['.', '.'].take(2) =~= ".."@);
    }
    if count == 0 {
        same_text(piece.as_str(), "")
    } else if count == 1 {
        same_text(piece.as_str(), ".")
    } else {
        same_text(piece.as_str(), "..")
    }
}

/// Whether `path` starts at the root.
pub fn absolute(path: &str) -> (yes: bool)
    ensures
        yes == is_absolute(path@),
{
    let chars = chars_of(path);
    chars.len() > 0 && chars[0] == '/'
}

/// Splits a path into its components.
pub fn path_components(path: &str) -> (split: Vec<PathComponent<String>>)
    ensures
        split.deep_view() == components(path@),
{
    let row = split_pieces(path, false);
    let mut split: Vec<PathComponent<String>> = Vec::new();
    proof {
        pieces_not_empty(path@, false);
        assert(seq!['.', '.'].take(0) =~= Seq::<char>::empty());
        assert(seq!['.', '.'].take(1) =~= seq!['.']);
        assert(seq!['.', '.'].take(2) =~= seq!['.', '.']);
    }
    assert(row.deep_view()[0] == row@[0]@);
    if absolute(path) {
        split.push(PathComponent::Root);
    } else if is_dots(&row[0], 1) {
        split.push(PathComponent::Current);
    }
    let ghost start = split.deep_view();
    let mut i: usize = 0;
    assert(start + named_components(row.deep_view().take(0)) == split.deep_view());
    while i < row.len()
        invariant
            i <= row@.len(),
            split.deep_view() == start + named_components(row.deep_view().take(i as int)),
            seq!['.', '.'].take(0) == Seq::<char>::empty(),
            seq!['.', '.'].take(1) == seq!['.'],
            seq!['.', '.'].take(2) == seq!['.', '.'],
        decreases row@.len() - i,
    {
        let ghost before = split.deep_view();
        let ghost named = named_components(row.deep_view().take(i as int));
        assert(row.deep_view().take(i + 1).drop_last() == row.deep_view().take(i as int));
        assert(row.deep_view().take(i + 1).last() == row@[i as int]@);
        if !is_dots(&row[i], 0) && !is_dots(&row[i], 1) {
            let component = if is_dots(&row[i], 2) {
                PathComponent::Parent
            } else {
                PathComponent::Normal(row[i].clone())
            };
            let ghost found = component.deep_view();
            split.push(component);
            assert(split.deep_view() == before.push(found));
            assert(start + named.push(found) == before.push(found));
        }
        i += 1;
    }
    assert(row.deep_view().take(i as int) == row.deep_view());
    split
}

fn same_component(a: &PathComponent<String>, b: &PathComponent<String>) -> (same: bool)
    ensures
        same == (a.deep_view() == b.deep_view()),
{
    match (a, b) {
        (PathComponent::Root, PathComponent::Root) => true,
        (PathComponent::Current, PathComponent::Current) => true,
        (PathComponent::Parent, PathComponent::Parent) => true,
        (PathComponent::Normal(left), PathComponent::Normal(right)) => *left == *right,
        _ => false,
    }
}

/// Whether `a` starts with all of `b`.
fn components_start_with(a: &Vec<PathComponent<String>>, b: &Vec<PathComponent<String>>) -> (yes:
    bool)
    ensures
        yes == b.deep_view().is_prefix_of(a.deep_view()),
{
    if b.len() > a.len() {
        return false;
    }
    let mut i: usize = 0;
    while i < b.len()
        invariant
            i <= b@.len() <= a@.len(),
            forall|j: int| 0 <= j < i ==> a.deep_view()[j] == b.deep_view()[j],
        decreases b@.len() - i,
    {
        if !same_component(&a[i], &b[i]) {
            assert(a.deep_view()[i as int] != b.deep_view()[i as int]);
            return false;
        }
        i += 1;
    }
    assert(b.deep_view() == a.deep_view().take(b@.len() as int));
    true
}

/// Whether two texts are the same path.
pub fn same_path(a: &str, b: &str) -> (same: bool)
    ensures
        same == (components(a@) == components(b@)),
{
    same_components(&path_components(a), &path_components(b))
}

/// Whether two rows of components are equal.
pub(crate) fn same_components(
    a: &Vec<PathComponent<String>>,
    b: &Vec<PathComponent<String>>,
) -> (same: bool)
    ensures
        same == (a.deep_view() == b.deep_view()),
{
    assert(a.deep_view().subrange(0, a@.len() as int) == a.deep_view());
    a.len() == b.len() && components_start_with(a, b)
}

/// Whether `path` is `base` or stands below it.
pub open spec fn path_within(path: Seq<char>, base: Seq<char>) -> bool {
    components(base).is_prefix_of(components(path))
}

/// Whether `path` is `base` or stands below it.
pub fn path_starts_with(path: &str, base: &str) -> (within: bool)
    ensures
        within == path_within(path@, base@),
{
    components_start_with(&path_components(path), &path_components(base))
}

/// The least length, `from` or more, of a prefix of `path` with the components
/// `target`.
pub open spec fn shortest_prefix(
    path: Seq<char>,
    target: Seq<PathComponent<Seq<char>>>,
    from: nat,
) -> nat
    decreases path.len() - from,
{
    if from >= path.len() || components(path.take(from as int)) == target {
        from
    } else {
        shortest_prefix(path, target, from + 1)
    }
}

/// The path without its last component: the shortest text at the start of `path`
/// that has the other components. The root and the empty path have no parent.
pub open spec fn parent_of(path: Seq<char>) -> Option<Seq<char>> {
    let all = components(path);
    if all.len() == 0 || all.last() is Root {
        None
    } else {
        Some(path.take(shortest_prefix(path, all.drop_last(), 0) as int))
    }
}

/// Any prefix with the wanted components is at least as long as the shortest one.
proof fn lemma_shortest_prefix(
    path: Seq<char>,
    target: Seq<PathComponent<Seq<char>>>,
    from: nat,
    length: nat,
)
    requires
        from <= length <= path.len(),
        components(path.take(length as int)) == target,
    ensures
        from <= shortest_prefix(path, target, from) <= length,
        components(path.take(shortest_prefix(path, target, from) as int)) == target,
    decreases length - from,
{
    if from < length && components(path.take(from as int)) != target {
        lemma_shortest_prefix(path, target, from + 1, length);
    }
}

/// What stands before the last piece ends in a separator, or is empty.
proof fn lemma_before_last_piece(path: Seq<char>)
    ensures
        pieces(path, false).len() > 0,
        pieces(path, false).last().len() <= path.len(),
        pieces(path.take(path.len() - pieces(path, false).last().len()), false) == pieces(
            path,
            false,
        ).drop_last().push(Seq::empty()),
    decreases path.len(),
{
    let row = pieces(path, false);
    pieces_not_empty(path, false);
    if path.len() == 0 {
        assert(path.take(0) == path);
        assert(row.drop_last().push(Seq::empty()) == row);
    } else {
        let shorter = path.drop_last();
        let before = pieces(shorter, false);
        lemma_before_last_piece(shorter);
        if is_separator(path.last(), false) {
            assert(path.take(path.len() as int) == path);
            assert(row.drop_last().push(Seq::empty()) == row);
        } else {
            let end = path.len() - row.last().len();
            assert(path.take(end) == shorter.take(end));
            assert(row.drop_last() == before.drop_last());
        }
    }
}

/// The text before the last component has the components before it.
proof fn lemma_prefix_for_parent(path: Seq<char>) -> (length: nat)
    requires
        components(path).len() > 0,
        !(components(path).last() is Root),
    ensures
        length < path.len(),
        components(path.take(length as int)) == components(path).drop_last(),
    decreases path.len(),
{
    let row = pieces(path, false);
    pieces_not_empty(path, false);
    lemma_before_last_piece(path);
    if path.len() == 0 {
        assert(row.drop_last() == Seq::<Seq<char>>::empty());
        assert(named_components(row.drop_last()) == Seq::<PathComponent<Seq<char>>>::empty());
        assert(components(path) == Seq::<PathComponent<Seq<char>>>::empty());
    }
    let end = (path.len() - row.last().len()) as nat;
    let head = path.take(end as int);
    let head_row = pieces(head, false);
    assert(head_row == row.drop_last().push(Seq::empty()));
    assert(head_row.drop_last() == row.drop_last());
    assert(named_components(head_row) == named_components(row.drop_last()));
    if path.len() > 0 && is_separator(path.last(), false) {
        let shorter = path.drop_last();
        pieces_not_empty(shorter, false);
        assert(row.drop_last() == pieces(shorter, false));
        if shorter.len() == 0 {
            assert(shorter == Seq::<char>::empty());
            assert(row.drop_last() == seq![Seq::<char>::empty()]);
            assert(row.drop_last().drop_last() == Seq::<Seq<char>>::empty());
            assert(named_components(row.drop_last().drop_last()) == Seq::<
                PathComponent<Seq<char>>,
            >::empty());
            assert(named_components(row.drop_last()) == Seq::<PathComponent<Seq<char>>>::empty());
            assert(components(path) == seq![PathComponent::<Seq<char>>::Root]);
        } else {
            assert(row[0] == pieces(shorter, false)[0]);
            assert(components(shorter) == components(path));
        }
        let length = lemma_prefix_for_parent(shorter);
        assert(path.take(length as int) == shorter.take(length as int));
        length
    } else {
        let before = pieces(path.drop_last(), false);
        pieces_not_empty(path.drop_last(), false);
        assert(row.last() == before.last().push(path.last()));
        assert(row.last().len() > 0);
        if row.len() == 1 {
            assert(row.drop_last() == Seq::<Seq<char>>::empty());
            assert(named_components(row.drop_last()) == Seq::<PathComponent<Seq<char>>>::empty());
            assert(end == 0) by {
                lemma_single_piece(path);
            }
            assert(head_row[0] == Seq::<char>::empty());
            assert(head_row[0] != seq!['.']) by {
                assert(seq!['.'].len() == 1);
            }
            assert(components(head) == Seq::<PathComponent<Seq<char>>>::empty());
            assert(!is_absolute(path)) by {
                lemma_single_piece(path);
            }
            assert(components(path).drop_last() == Seq::<PathComponent<Seq<char>>>::empty());
            end
        } else {
            assert(head.len() > 0) by {
                if head.len() == 0 {
                    assert(head_row.len() == 1);
                }
            }
            assert(row[0] == head_row[0]);
            if row.last() == seq!['.'] {
                assert(components(head) == components(path));
                let length = lemma_prefix_for_parent(head);
                assert(path.take(length as int) == head.take(length as int));
                length
            } else {
                assert(components(path).drop_last() == components(head));
                end
            }
        }
    }
}

/// A text without a separator is its only piece.
proof fn lemma_single_piece(text: Seq<char>)
    requires
        pieces(text, false).len() == 1,
    ensures
        pieces(text, false)[0] == text,
        forall|i: int| 0 <= i < text.len() ==> text[i] != '/',
    decreases text.len(),
{
    if text.len() > 0 {
        pieces_not_empty(text.drop_last(), false);
        lemma_single_piece(text.drop_last());
        assert(text.drop_last().push(text.last()) == text);
        assert forall|i: int| 0 <= i < text.len() implies text[i] != '/' by {
            if i < text.len() - 1 {
                assert(text.drop_last()[i] == text[i]);
            }
        }
    }
}

/// The parent of a path is a shorter text with all its components but the last.
pub proof fn parent_drops_last_component(path: Seq<char>)
    ensures
        parent_of(path) is Some <==> components(path).len() > 0 && !(components(path).last()
            is Root),
        parent_of(path) matches Some(parent) ==> {
            &&& parent.len() < path.len()
            &&& parent.is_prefix_of(path)
            &&& components(parent) == components(path).drop_last()
        },
{
    if parent_of(path) is Some {
        let length = lemma_prefix_for_parent(path);
        lemma_shortest_prefix(path, components(path).drop_last(), 0, length);
    }
}

/// The parent of `path`, where it has one.
pub fn parent(path: &str) -> (parent: Option<String>)
    ensures
        parent.deep_view() == parent_of(path@),
{
    let all = path_components(path);
    assert(all@.len() > 0 ==> all.deep_view().last() == all@.last().deep_view());
    if all.len() == 0 || is_root(&all[all.len() - 1]) {
        return None;
    }
    let chars = chars_of(path);
    let count: usize = all.len() - 1;
    let ghost target = components(path@).drop_last();
    let mut end: usize = 0;
    proof {
        let length = lemma_prefix_for_parent(path@);
        lemma_shortest_prefix(path@, target, 0, length);
    }
    while end < chars.len()
        invariant
            end <= chars@.len(),
            chars@ == path@,
            count == all@.len() - 1,
            all.deep_view() == components(path@),
            target == components(path@).drop_last(),
            shortest_prefix(path@, target, 0) == shortest_prefix(path@, target, end as nat),
            shortest_prefix(path@, target, 0) < path@.len(),
            parent_of(path@) is Some,
        decreases chars@.len() - end,
    {
        let prefix = text_between(&chars, 0, end);
        assert(prefix@ == path@.take(end as int));
        let split = path_components(&prefix);
        let same = split.len() == count && components_start_with(&all, &split);
        assert(same == (split.deep_view() == target)) by {
            assert(target == all.deep_view().subrange(0, count as int));
        }
        if same {
            return Some(prefix);
        }
        end += 1;
    }
    None
}

fn is_root(component: &PathComponent<String>) -> (root: bool)
    ensures
        root == (component.deep_view() is Root),
{
    match component {
        PathComponent::Root => true,
        _ => false,
    }
}

/// `base` with `tail` below it; `tail` alone where it is absolute.
pub open spec fn joined(base: Seq<char>, tail: Seq<char>) -> Seq<char> {
    if is_absolute(tail) {
        tail
    } else if base.len() == 0 || base.last() == '/' {
        base + tail
    } else {
        base.push('/') + tail
    }
}

/// Puts `tail` below `base`.
pub fn join(base: &str, tail: &str) -> (path: String)
    ensures
        path@ == joined(base@, tail@),
{
    if absolute(tail) {
        return tail.to_owned();
    }
    let chars = chars_of(base);
    let mut path = base.to_owned();
    if chars.len() > 0 && chars[chars.len() - 1] != '/' {
        path.push('/');
    }
    path.append(tail);
    path
}

/// The position of the last `.` in `name`, -1 where there is none.
pub open spec fn last_dot(name: Seq<char>) -> int
    decreases name.len(),
{
    if name.len() == 0 {
        -1
    } else if name.last() == '.' {
        name.len() - 1
    } else {
        last_dot(name.drop_last())
    }
}

/// What follows the last `.` of the name that a path ends in. A name whose only
/// `.` stands at its start has no extension.
pub open spec fn extension_of(path: Seq<char>) -> Option<Seq<char>> {
    let all = components(path);
    if all.len() > 0 && all.last() is Normal && last_dot(all.last()->Normal_0) > 0 {
        let name = all.last()->Normal_0;
        Some(name.skip(last_dot(name) + 1))
    } else {
        None
    }
}

/// The extension of `path`, where it has one.
pub fn extension(path: &str) -> (extension: Option<String>)
    ensures
        extension.deep_view() == extension_of(path@),
{
    let all = path_components(path);
    if all.len() == 0 {
        return None;
    }
    assert(all.deep_view().last() == all@.last().deep_view());
    match &all[all.len() - 1] {
        PathComponent::Normal(name) => {
            let chars = chars_of(name.as_str());
            let mut end: usize = chars.len();
            assert(name@.take(end as int) == name@);
            while end > 0 && chars[end - 1] != '.'
                invariant
                    end <= chars@.len(),
                    chars@ == name@,
                    last_dot(name@) == last_dot(name@.take(end as int)),
                decreases end,
            {
                assert(name@.take(end as int).drop_last() == name@.take(end - 1));
                end -= 1;
            }
            if end < 2 {
                None
            } else {
                let tail = text_between(&chars, end, chars.len());
                assert(tail@ == name@.skip(end as int));
                Some(tail)
            }
        },
        _ => None,
    }
}

/// The text of `path`, a `.` and `extension`.
pub fn path_with_extension(path: &str, extension: &str) -> (extended: String)
    ensures
        extended@ == path@.push('.') + extension@,
{
    let mut extended = path.to_owned();
    extended.push('.');
    extended.append(extension);
    extended
}

/// Whether the extension is one of Luau source files.
pub open spec fn is_luau_file(path: Seq<char>) -> bool {
    extension_of(path) == Some("lua"@) || extension_of(path) == Some("luau"@)
}

/// Whether the extension of `path` is one of Luau source files.
pub fn luau_file(path: &str) -> (yes: bool)
    ensures
        yes == is_luau_file(path@),
{
    match extension(path) {
        Some(extension) => same_text(extension.as_str(), "lua") || same_text(
            extension.as_str(),
            "luau",
        ),
        None => false,
    }
}

/// The rank of a kind of component in the order of paths.
pub open spec fn component_rank(component: PathComponent<Seq<char>>) -> int {
    match component {
        PathComponent::Root => 0,
        PathComponent::Current => 1,
        PathComponent::Parent => 2,
        PathComponent::Normal(_) => 3,
    }
}

/// The order of components: by kind, and names by their text.
pub open spec fn component_less(
    a: PathComponent<Seq<char>>,
    b: PathComponent<Seq<char>>,
) -> bool {
    match (a, b) {
        (PathComponent::Normal(left), PathComponent::Normal(right)) => text_less(left, right),
        _ => component_rank(a) < component_rank(b),
    }
}

/// The order of paths: lexicographic, component by component.
pub open spec fn components_less(
    a: Seq<PathComponent<Seq<char>>>,
    b: Seq<PathComponent<Seq<char>>>,
) -> bool
    decreases a.len(),
{
    if b.len() == 0 {
        false
    } else if a.len() == 0 {
        true
    } else if a[0] == b[0] {
        components_less(a.drop_first(), b.drop_first())
    } else {
        component_less(a[0], b[0])
    }
}

fn rank(component: &PathComponent<String>) -> (rank: u8)
    ensures
        rank == component_rank(component.deep_view()),
{
    match component {
        PathComponent::Root => 0,
        PathComponent::Current => 1,
        PathComponent::Parent => 2,
        PathComponent::Normal(_) => 3,
    }
}

/// Whether path `a` comes before path `b`.
pub fn path_less(a: &str, b: &str) -> (less: bool)
    ensures
        less == components_less(components(a@), components(b@)),
{
    let left = path_components(a);
    let right = path_components(b);
    let mut i: usize = 0;
    assert(left.deep_view().skip(0) == components(a@));
    assert(right.deep_view().skip(0) == components(b@));
    while i < left.len() && i < right.len() && same_component(&left[i], &right[i])
        invariant
            i <= left@.len(),
            i <= right@.len(),
            components_less(components(a@), components(b@)) == components_less(
                left.deep_view().skip(i as int),
                right.deep_view().skip(i as int),
            ),
        decreases left@.len() - i,
    {
        assert(left.deep_view().skip(i as int).drop_first() == left.deep_view().skip(i + 1));
        assert(right.deep_view().skip(i as int).drop_first() == right.deep_view().skip(i + 1));
        i += 1;
    }
    if i >= right.len() {
        false
    } else if i >= left.len() {
        true
    } else {
        match (&left[i], &right[i]) {
            (PathComponent::Normal(x), PathComponent::Normal(y)) => is_text_less(
                x.as_str(),
                y.as_str(),
            ),
            _ => rank(&left[i]) < rank(&right[i]),
        }
    }
}

/// `sorted` with `path` put where it belongs in the order of paths, unless a text
/// of the same path is there already.
pub open spec fn with_path(sorted: Seq<Seq<char>>, path: Seq<char>) -> Seq<Seq<char>>
    decreases sorted.len(),
{
    if sorted.len() == 0 {
        seq![path]
    } else if components(sorted[0]) == components(path) {
        sorted
    } else if components_less(components(path), components(sorted[0])) {
        seq![path] + sorted
    } else {
        seq![sorted[0]] + with_path(sorted.drop_first(), path)
    }
}

/// The paths of a row, each once and in order.
pub open spec fn path_set(row: Seq<Seq<char>>) -> Seq<Seq<char>>
    decreases row.len(),
{
    if row.len() == 0 {
        seq![]
    } else {
        with_path(path_set(row.drop_last()), row.last())
    }
}

fn insert_path(sorted: &mut Vec<String>, path: String)
    ensures
        final(sorted).deep_view() == with_path(old(sorted).deep_view(), path@),
{
    let mut i: usize = 0;
    let ghost start = sorted.deep_view();
    assert(start.skip(0) == start);
    assert(start.take(0) + with_path(start, path@) == with_path(start, path@));
    while i < sorted.len()
        invariant
            i <= sorted@.len(),
            sorted.deep_view() == start,
            start == old(sorted).deep_view(),
            with_path(start, path@) == start.take(i as int) + with_path(
                start.skip(i as int),
                path@,
            ),
        decreases sorted@.len() - i,
    {
        let ghost rest = start.skip(i as int);
        assert(rest[0] == sorted@[i as int]@);
        if same_path(&sorted[i], &path) {
            assert(start.take(i as int) + rest == start);
            return;
        }
        if path_less(&path, &sorted[i]) {
            let ghost text = path@;
            sorted.insert(i, path);
            assert(sorted.deep_view() == start.take(i as int) + (seq![text] + rest));
            return;
        }
        assert(rest.drop_first() == start.skip(i + 1));
        assert(start.take(i as int) + (seq![rest[0]] + with_path(start.skip(i + 1), path@))
            == start.take(i + 1) + with_path(start.skip(i + 1), path@));
        i += 1;
    }
    let ghost text = path@;
    sorted.push(path);
    assert(sorted.deep_view() == start.push(text));
    assert(start.take(i as int) + seq![text] == start.push(text));
}

/// Sorts paths and keeps the first text of each.
pub fn sort_paths(row: Vec<String>) -> (sorted: Vec<String>)
    ensures
        sorted.deep_view() == path_set(row.deep_view()),
{
    let mut sorted: Vec<String> = Vec::new();
    let mut i: usize = 0;
    assert(sorted.deep_view() == path_set(row.deep_view().take(0)));
    while i < row.len()
        invariant
            i <= row@.len(),
            sorted.deep_view() == path_set(row.deep_view().take(i as int)),
        decreases row@.len() - i,
    {
        assert(row.deep_view().take(i + 1).drop_last() == row.deep_view().take(i as int));
        insert_path(&mut sorted, row[i].clone());
        i += 1;
    }
    assert(row.deep_view().take(i as int) == row.deep_view());
    sorted
}

/// Of two different rows of components exactly one comes first.
proof fn components_less_total(
    a: Seq<PathComponent<Seq<char>>>,
    b: Seq<PathComponent<Seq<char>>>,
)
    ensures
        components_less(a, b) ==> !components_less(b, a) && a != b,
        a != b ==> components_less(a, b) || components_less(b, a),
    decreases a.len(),
{
    if a.len() > 0 && b.len() > 0 {
        components_less_total(a.drop_first(), b.drop_first());
        match (a[0], b[0]) {
            (PathComponent::Normal(left), PathComponent::Normal(right)) => text_less_total(
                left,
                right,
            ),
            _ => {},
        }
        if a[0] == b[0] && a.drop_first() == b.drop_first() {
            assert(a =~= seq![a[0]] + a.drop_first());
            assert(b =~= seq![b[0]] + b.drop_first());
        }
    } else if a.len() == 0 && b.len() == 0 {
        assert(a =~= b);
    }
}

proof fn components_less_transitive(
    a: Seq<PathComponent<Seq<char>>>,
    b: Seq<PathComponent<Seq<char>>>,
    c: Seq<PathComponent<Seq<char>>>,
)
    requires
        components_less(a, b),
        components_less(b, c),
    ensures
        components_less(a, c),
    decreases a.len(),
{
    if a.len() > 0 {
        if a[0] == b[0] && b[0] == c[0] {
            components_less_transitive(a.drop_first(), b.drop_first(), c.drop_first());
        } else {
            match (a[0], b[0], c[0]) {
                (
                    PathComponent::Normal(x),
                    PathComponent::Normal(y),
                    PathComponent::Normal(z),
                ) => {
                    text_less_total(x, y);
                    text_less_total(y, z);
                    text_less_total(x, z);
                    if text_less(x, y) && text_less(y, z) {
                        text_less_transitive(x, y, z);
                    }
                },
                _ => {},
            }
        }
    }
}

/// Whether each path comes before all that follow.
pub open spec fn strictly_increasing(row: Seq<Seq<char>>) -> bool {
    forall|i: int, j: int|
        0 <= i < j < row.len() ==> components_less(
            components(#[trigger] row[i]),
            components(#[trigger] row[j]),
        )
}

/// Whether a row holds `path` in some spelling.
pub open spec fn holds_path(row: Seq<Seq<char>>, path: Seq<char>) -> bool {
    exists|i: int| 0 <= i < row.len() && components(#[trigger] row[i]) == components(path)
}

proof fn lemma_with_path(sorted: Seq<Seq<char>>, path: Seq<char>)
    requires
        strictly_increasing(sorted),
    ensures
        strictly_increasing(with_path(sorted, path)),
        forall|q: Seq<char>| #[trigger]
            with_path(sorted, path).contains(q) <==> sorted.contains(q) || (q == path
                && !holds_path(sorted, path)),
    decreases sorted.len(),
{
    let longer = with_path(sorted, path);
    if sorted.len() == 0 {
        assert(longer[0] == path);
    } else if components(sorted[0]) == components(path) {
        assert(holds_path(sorted, path));
    } else if components_less(components(path), components(sorted[0])) {
        assert forall|j: int| 0 <= j < sorted.len() implies components_less(
            components(path),
            components(#[trigger] sorted[j]),
        ) by {
            if j > 0 {
                components_less_transitive(
                    components(path),
                    components(sorted[0]),
                    components(sorted[j]),
                );
            }
        }
        assert forall|i: int, j: int| 0 <= i < j < longer.len() implies components_less(
            components(#[trigger] longer[i]),
            components(#[trigger] longer[j]),
        ) by {
            assert(longer[j] == sorted[j - 1]);
            if i > 0 {
                assert(longer[i] == sorted[i - 1]);
            }
        }
        assert(!holds_path(sorted, path)) by {
            if holds_path(sorted, path) {
                let j = choose|j: int|
                    0 <= j < sorted.len() && components(#[trigger] sorted[j]) == components(path);
                components_less_total(components(path), components(sorted[j]));
            }
        }
        assert forall|q: Seq<char>| #[trigger] longer.contains(q) <==> sorted.contains(q) || q
            == path by {
            if sorted.contains(q) {
                let j = choose|j: int| 0 <= j < sorted.len() && sorted[j] == q;
                assert(longer[j + 1] == q);
            }
            assert(longer[0] == path);
        }
    } else {
        let first = sorted[0];
        let rest = sorted.drop_first();
        let tail = with_path(rest, path);
        components_less_total(components(first), components(path));
        assert(strictly_increasing(rest)) by {
            assert forall|i: int, j: int| 0 <= i < j < rest.len() implies components_less(
                components(#[trigger] rest[i]),
                components(#[trigger] rest[j]),
            ) by {
                assert(rest[i] == sorted[i + 1] && rest[j] == sorted[j + 1]);
            }
        }
        lemma_with_path(rest, path);
        assert(holds_path(sorted, path) == holds_path(rest, path)) by {
            if holds_path(sorted, path) {
                let j = choose|j: int|
                    0 <= j < sorted.len() && components(#[trigger] sorted[j]) == components(path);
                assert(rest[j - 1] == sorted[j]);
            }
            if holds_path(rest, path) {
                let j = choose|j: int|
                    0 <= j < rest.len() && components(#[trigger] rest[j]) == components(path);
                assert(sorted[j + 1] == rest[j]);
            }
        }
        assert forall|j: int| 0 <= j < tail.len() implies components_less(
            components(first),
            components(#[trigger] tail[j]),
        ) by {
            assert(tail.contains(tail[j]));
            if rest.contains(tail[j]) {
                let k = choose|k: int| 0 <= k < rest.len() && rest[k] == tail[j];
                assert(sorted[k + 1] == tail[j]);
            }
        }
        assert forall|i: int, j: int| 0 <= i < j < longer.len() implies components_less(
            components(#[trigger] longer[i]),
            components(#[trigger] longer[j]),
        ) by {
            assert(longer[j] == tail[j - 1]);
            if i > 0 {
                assert(longer[i] == tail[i - 1]);
            }
        }
        assert forall|q: Seq<char>| #[trigger] longer.contains(q) <==> sorted.contains(q) || (q
            == path && !holds_path(sorted, path)) by {
            if longer.contains(q) {
                let j = choose|j: int| 0 <= j < longer.len() && longer[j] == q;
                if j > 0 {
                    assert(tail[j - 1] == q);
                    assert(tail.contains(q));
                    if rest.contains(q) {
                        let k = choose|k: int| 0 <= k < rest.len() && rest[k] == q;
                        assert(sorted[k + 1] == q);
                    }
                }
            }
            if sorted.contains(q) {
                let j = choose|j: int| 0 <= j < sorted.len() && sorted[j] == q;
                if j == 0 {
                    assert(longer[0] == q);
                } else {
                    assert(rest[j - 1] == q);
                    assert(rest.contains(q));
                    assert(tail.contains(q));
                    let k = choose|k: int| 0 <= k < tail.len() && tail[k] == q;
                    assert(longer[k + 1] == q);
                }
            }
            if q == path && !holds_path(sorted, path) {
                assert(tail.contains(q));
                let k = choose|k: int| 0 <= k < tail.len() && tail[k] == q;
                assert(longer[k + 1] == q);
            }
        }
    }
}

/// Sorting paths keeps the first spelling of each path and puts them in order, so that
/// no path comes twice and none is lost.
pub proof fn sorted_paths_are_a_set(row: Seq<Seq<char>>)
    ensures
        strictly_increasing(path_set(row)),
        forall|path: Seq<char>| #[trigger]
            holds_path(path_set(row), path) <==> holds_path(row, path),
        forall|path: Seq<char>| #[trigger]
            path_set(row).contains(path) ==> row.contains(path),
    decreases row.len(),
{
    if row.len() > 0 {
        let before = row.drop_last();
        let last = row.last();
        sorted_paths_are_a_set(before);
        lemma_with_path(path_set(before), last);
        assert(row[row.len() - 1] == last);
        assert(forall|i: int| 0 <= i < before.len() ==> before[i] == row[i]);
        assert forall|path: Seq<char>| #[trigger] path_set(row).contains(path) implies row.contains(
            path,
        ) by {
            if path_set(before).contains(path) {
                let i = choose|i: int| 0 <= i < before.len() && before[i] == path;
                assert(row[i] == path);
            }
        }
        assert forall|path: Seq<char>| #[trigger] holds_path(path_set(row), path) <==> holds_path(
            row,
            path,
        ) by {
            if holds_path(path_set(row), path) {
                let i = choose|i: int|
                    0 <= i < path_set(row).len() && components(#[trigger] path_set(row)[i])
                        == components(path);
                let spelled = path_set(row)[i];
                assert(path_set(row).contains(spelled));
                let j = choose|j: int| 0 <= j < row.len() && row[j] == spelled;
                assert(components(row[j]) == components(path));
            }
            if holds_path(row, path) {
                let j = choose|j: int|
                    0 <= j < row.len() && components(#[trigger] row[j]) == components(path);
                if j < before.len() {
                    assert(components(before[j]) == components(path));
                    assert(holds_path(path_set(before), path));
                    lemma_holds_more(path_set(before), last, path);
                } else if holds_path(path_set(before), last) {
                    let k = choose|k: int|
                        0 <= k < path_set(before).len() && components(
                            #[trigger] path_set(before)[k],
                        ) == components(last);
                    assert(holds_path(path_set(before), path));
                    lemma_holds_more(path_set(before), last, path);
                } else {
                    assert(path_set(row).contains(last));
                    let k = choose|k: int| 0 <= k < path_set(row).len() && path_set(row)[k] == last;
                    assert(components(path_set(row)[k]) == components(path));
                }
            }
        }
    }
}

/// Of the spellings of a path the first is kept.
pub proof fn the_first_spelling_is_kept(row: Seq<Seq<char>>, i: int)
    requires
        0 <= i < row.len(),
        forall|j: int| 0 <= j < i ==> components(#[trigger] row[j]) != components(row[i]),
    ensures
        path_set(row).contains(row[i]),
    decreases row.len(),
{
    let before = row.drop_last();
    let last = row.len() - 1;
    sorted_paths_are_a_set(before);
    lemma_with_path(path_set(before), row.last());
    assert(forall|j: int| 0 <= j < before.len() ==> before[j] == row[j]);
    if i < last {
        the_first_spelling_is_kept(before, i);
    } else if holds_path(path_set(before), row[i]) {
        assert(holds_path(before, row[i]));
        let j = choose|j: int|
            0 <= j < before.len() && components(#[trigger] before[j]) == components(row[i]);
        assert(components(row[j]) == components(row[i]));
    }
}

proof fn lemma_holds_more(sorted: Seq<Seq<char>>, added: Seq<char>, path: Seq<char>)
    requires
        strictly_increasing(sorted),
        holds_path(sorted, path),
    ensures
        holds_path(with_path(sorted, added), path),
{
    lemma_with_path(sorted, added);
    let i = choose|i: int|
        0 <= i < sorted.len() && components(#[trigger] sorted[i]) == components(path);
    assert(sorted.contains(sorted[i]));
    assert(with_path(sorted, added).contains(sorted[i]));
    let k = choose|k: int|
        0 <= k < with_path(sorted, added).len() && with_path(sorted, added)[k] == sorted[i];
    assert(components(with_path(sorted, added)[k]) == components(path));
}

} // verus!
