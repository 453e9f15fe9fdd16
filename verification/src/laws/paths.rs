//! What paths are made of.

use vstd::prelude::*;

use crate::paths::{
    component_less, components, components_less, extension_of, is_luau_file, joined, last_dot,
    named_components, parent_of, path_within, pieces, pieces_not_empty, shortest_prefix,
    PathComponent,
};
use crate::text::text_less;

verus! {

/// The texts of a row with `/` between them.
pub open spec fn glued(row: Seq<Seq<char>>) -> Seq<char>
    decreases row.len(),
{
    if row.len() == 0 {
        seq![]
    } else if row.len() == 1 {
        row[0]
    } else {
        glued(row.drop_last()) + seq!['/'] + row.last()
    }
}

/// A text with `/` for every `\` where that is a separator too.
pub open spec fn slashed(text: Seq<char>, backslash: bool) -> Seq<char> {
    text.map_values(
        |c: char|
            if backslash && c == '\\' {
                '/'
            } else {
                c
            },
    )
}

/// The pieces of a text hold no separator, and with separators between them they are the
/// text.
pub proof fn pieces_make_up_their_text(text: Seq<char>, backslash: bool)
    ensures
        pieces(text, backslash).len() > 0,
        glued(pieces(text, backslash)) == slashed(text, backslash),
        forall|i: int|
            0 <= i < pieces(text, backslash).len() ==> !(#[trigger] pieces(
                text,
                backslash,
            )[i]).contains('/') && (backslash ==> !pieces(text, backslash)[i].contains('\\')),
    decreases text.len(),
{
    let row = pieces(text, backslash);
    pieces_not_empty(text, backslash);
    if text.len() == 0 {
        assert(glued(row) == slashed(text, backslash));
    } else {
        let start = text.drop_last();
        let before = pieces(start, backslash);
        let c = text.last();
        pieces_make_up_their_text(start, backslash);
        assert(slashed(text, backslash) == slashed(start, backslash) + slashed(
            seq![c],
            backslash,
        ));
        if c == '/' || (backslash && c == '\\') {
            assert(row.drop_last() == before);
            assert(row.last() == Seq::<char>::empty());
            assert(glued(row) == glued(before) + seq!['/']);
            assert(slashed(seq![c], backslash) == seq!['/']);
        } else {
            assert(slashed(seq![c], backslash) == seq![c]);
            assert(row.last() == before.last() + seq![c]);
            assert(row.drop_last() == before.drop_last());
            assert(glued(row) == glued(before) + seq![c]);
            assert forall|i: int| 0 <= i < row.len() implies !(#[trigger] row[i]).contains('/') && (
            backslash ==> !row[i].contains('\\')) by {
                if i == row.len() - 1 {
                    let last = before[i];
                    assert(!last.contains('/'));
                    if row[i].contains('/') {
                        let k = choose|k: int| 0 <= k < row[i].len() && row[i][k] == '/';
                        assert(last[k] == '/');
                    }
                    if backslash && row[i].contains('\\') {
                        let k = choose|k: int| 0 <= k < row[i].len() && row[i][k] == '\\';
                        assert(last[k] == '\\');
                    }
                } else {
                    assert(row[i] == before[i]);
                }
            }
        }
    }
}

/// Whether a piece stands for a component.
pub open spec fn counts(piece: Seq<char>) -> bool {
    piece.len() > 0 && piece != seq!['.']
}

/// What a piece stands for.
pub open spec fn component_for(piece: Seq<char>) -> PathComponent<Seq<char>> {
    if piece == seq!['.', '.'] {
        PathComponent::Parent
    } else {
        PathComponent::Normal(piece)
    }
}

/// The components below the start of a path: its pieces but for the empty ones and `.`.
pub open spec fn below_start(row: Seq<Seq<char>>) -> Seq<PathComponent<Seq<char>>> {
    row.filter(|piece: Seq<char>| counts(piece)).map_values(
        |piece: Seq<char>| component_for(piece),
    )
}

proof fn lemma_named_components(row: Seq<Seq<char>>)
    ensures
        named_components(row) == below_start(row),
    decreases row.len(),
{
    reveal(Seq::filter);
    if row.len() > 0 {
        let before = row.drop_last();
        let piece = row.last();
        lemma_named_components(before);
        assert(piece.len() == 0 ==> piece == Seq::<char>::empty());
        assert(below_start(row) == if counts(piece) {
            below_start(before).push(component_for(piece))
        } else {
            below_start(before)
        });
    } else {
        assert(below_start(row) == Seq::<PathComponent<Seq<char>>>::empty());
    }
}

/// A path starts at the root where its text starts with `/`, at the current directory where
/// its first piece is `.`, and goes on with its pieces but for the empty ones and `.`.
pub proof fn components_are_the_names_on_the_way(path: Seq<char>)
    ensures
        components(path) == (if path.len() > 0 && path[0] == '/' {
            seq![PathComponent::<Seq<char>>::Root]
        } else if pieces(path, false)[0] == seq!['.'] {
            seq![PathComponent::<Seq<char>>::Current]
        } else {
            seq![]
        }) + below_start(pieces(path, false)),
{
    lemma_named_components(pieces(path, false));
}

/// The pieces of two texts with a `/` between them are those of the one and those of the
/// other.
pub proof fn pieces_of_glued_texts(a: Seq<char>, b: Seq<char>, backslash: bool)
    ensures
        pieces(a.push('/') + b, backslash) == pieces(a, backslash) + pieces(b, backslash),
    decreases b.len(),
{
    let whole = a.push('/') + b;
    if b.len() == 0 {
        assert(whole == a.push('/'));
        assert(whole.drop_last() == a);
        assert(pieces(whole, backslash) == pieces(a, backslash) + seq![Seq::<char>::empty()]);
    } else {
        let start = b.drop_last();
        pieces_of_glued_texts(a, start, backslash);
        pieces_not_empty(start, backslash);
        assert(whole.drop_last() == a.push('/') + start);
        assert(whole.last() == b.last());
        let left = pieces(a, backslash);
        let right = pieces(start, backslash);
        let all = left + right;
        assert(all.last() == right.last());
        assert(pieces(whole, backslash) == left + pieces(b, backslash));
    }
}

/// The path that a relative text leads to below another path: the components of that path,
/// then the components of the text.
pub proof fn joined_paths_go_below(base: Seq<char>, tail: Seq<char>)
    ensures
        tail.len() > 0 && tail[0] == '/' ==> joined(base, tail) == tail,
        !(tail.len() > 0 && tail[0] == '/') && base.len() == 0 ==> joined(base, tail) == tail,
        !(tail.len() > 0 && tail[0] == '/') && base.len() > 0 ==> components(joined(base, tail))
            == components(base) + below_start(pieces(tail, false)) && base.is_prefix_of(
            joined(base, tail),
        ),
{
    if !(tail.len() > 0 && tail[0] == '/') {
        if base.len() == 0 {
            assert(joined(base, tail) == tail);
        } else {
            let trunk = if base.last() == '/' {
                base.drop_last()
            } else {
                base
            };
            let whole = joined(base, tail);
            assert(whole == trunk.push('/') + tail);
            pieces_of_glued_texts(trunk, tail, false);
            lemma_named_components(pieces(whole, false));
            lemma_named_components(pieces(base, false));
            lemma_below_start(pieces(trunk, false), pieces(tail, false));
            pieces_not_empty(trunk, false);
            if base.last() == '/' {
                assert(pieces(base, false) == pieces(trunk, false) + seq![Seq::<char>::empty()]);
                lemma_below_start(pieces(trunk, false), seq![Seq::<char>::empty()]);
                lemma_below_one(Seq::empty());
            }
            assert(pieces(base, false)[0] == pieces(trunk, false)[0]);
            assert(pieces(whole, false)[0] == pieces(trunk, false)[0]);
            assert(whole[0] == base[0]);
            let start = if base[0] == '/' {
                seq![PathComponent::<Seq<char>>::Root]
            } else if pieces(base, false)[0] == seq!['.'] {
                seq![PathComponent::<Seq<char>>::Current]
            } else {
                seq![]
            };
            assert(components(whole) == start + (below_start(pieces(trunk, false)) + below_start(
                pieces(tail, false),
            )));
            assert(components(base) == start + below_start(pieces(trunk, false)));
            assert(components(whole) == components(base) + below_start(pieces(tail, false)));
        }
    }
}

proof fn lemma_below_one(piece: Seq<char>)
    ensures
        below_start(seq![piece]) == if counts(piece) {
            seq![component_for(piece)]
        } else {
            seq![]
        },
{
    lemma_named_components(seq![piece]);
    assert(seq![piece].drop_last() == Seq::<Seq<char>>::empty());
    assert(named_components(Seq::<Seq<char>>::empty()) == Seq::<
        PathComponent<Seq<char>>,
    >::empty());
    assert(piece.len() == 0 ==> piece == Seq::<char>::empty());
    assert(below_start(seq![piece]) =~= if counts(piece) {
        seq![component_for(piece)]
    } else {
        seq![]
    });
}

/// Components of rows of pieces add up.
pub proof fn lemma_below_start(a: Seq<Seq<char>>, b: Seq<Seq<char>>)
    ensures
        below_start(a + b) == below_start(a) + below_start(b),
{
    let wanted = |piece: Seq<char>| counts(piece);
    Seq::filter_distributes_over_add(a, b, wanted);
    assert((a + b).filter(wanted) == a.filter(wanted) + b.filter(wanted));
    assert(below_start(a + b) =~= below_start(a) + below_start(b));
}

/// Whether a text is one name: no separator, not empty, neither `.` nor `..`.
pub open spec fn is_name(text: Seq<char>) -> bool {
    &&& text.len() > 0
    &&& text != seq!['.']
    &&& text != seq!['.', '.']
    &&& !text.contains('/')
    &&& !text.contains('\\')
}

/// A text without a separator is its only piece.
pub proof fn lemma_one_piece(text: Seq<char>, backslash: bool)
    requires
        !text.contains('/'),
        backslash ==> !text.contains('\\'),
    ensures
        pieces(text, backslash) == seq![text],
    decreases text.len(),
{
    if text.len() > 0 {
        let start = text.drop_last();
        assert forall|c: char| start.contains(c) implies text.contains(c) by {
            let k = choose|k: int| 0 <= k < start.len() && start[k] == c;
            assert(text[k] == c);
        }
        assert(text[text.len() - 1] == text.last());
        assert(text.contains(text.last()));
        lemma_one_piece(start, backslash);
        assert(start.push(text.last()) == text);
        assert(seq![start].update(0, text) == seq![text]);
    } else {
        assert(text == Seq::<char>::empty());
    }
}

/// A name below a path is one more component.
pub proof fn names_are_one_component(path: Seq<char>, name: Seq<char>)
    requires
        is_name(name),
    ensures
        components(joined(path, name)) == components(path).push(PathComponent::Normal(name)),
{
    assert(name[0] != '/') by {
        assert(name.contains(name[0]));
    }
    joined_paths_go_below(path, name);
    lemma_one_piece(name, false);
    lemma_below_one(name);
    if path.len() == 0 {
        components_are_the_names_on_the_way(name);
        components_are_the_names_on_the_way(path);
        lemma_below_one(Seq::empty());
        assert(path == Seq::<char>::empty());
        assert(pieces(path, false) == seq![Seq::<char>::empty()]);
        assert(components(path) == Seq::<PathComponent<Seq<char>>>::empty());
        assert(components(name) == seq![PathComponent::Normal(name)]);
    }
    assert(components(joined(path, name)) == components(path).push(PathComponent::Normal(name)));
}

/// The parent of a path is the shortest text at its start that leads to all but its last
/// component. The root and the empty path have none.
pub proof fn parents_are_shortest(path: Seq<char>, length: nat)
    requires
        length <= path.len(),
        components(path).len() > 0,
        components(path.take(length as int)) == components(path).drop_last(),
    ensures
        parent_of(path) matches Some(parent) ==> parent.len() <= length,
{
    lemma_shortest(path, components(path).drop_last(), 0, length);
}

proof fn lemma_shortest(
    path: Seq<char>,
    target: Seq<PathComponent<Seq<char>>>,
    from: nat,
    length: nat,
)
    requires
        from <= length <= path.len(),
        components(path.take(length as int)) == target,
    ensures
        shortest_prefix(path, target, from) <= length,
    decreases length - from,
{
    if from < length && components(path.take(from as int)) != target {
        lemma_shortest(path, target, from + 1, length);
    }
}

/// Whether a path ends in a name with an extension, and the name has something before it.
pub open spec fn ends_in(path: Seq<char>, stem: Seq<char>, extension: Seq<char>) -> bool {
    &&& stem.len() > 0
    &&& !extension.contains('.')
    &&& components(path).len() > 0
    &&& components(path).last() == PathComponent::Normal(stem + seq!['.'] + extension)
}

/// The extension of a path is what follows the last `.` of its name, where something stands
/// before that.
pub proof fn extensions_follow_the_last_dot(
    path: Seq<char>,
    stem: Seq<char>,
    extension: Seq<char>,
)
    ensures
        ends_in(path, stem, extension) ==> extension_of(path) == Some(extension),
        extension_of(path) matches Some(found) ==> exists|stem: Seq<char>| #[trigger]
            ends_in(path, stem, found),
{
    if ends_in(path, stem, extension) {
        let name = stem + seq!['.'] + extension;
        assert forall|i: int| stem.len() < i < name.len() implies name[i] != '.' by {
            assert(name[i] == extension[i - stem.len() - 1]);
            assert(extension.contains(name[i]));
        }
        lemma_last_dot(name, stem.len() as int);
        assert(name.skip(stem.len() as int + 1) == extension);
    }
    match extension_of(path) {
        Some(found) => {
            let name = components(path).last()->Normal_0;
            let dot = last_dot(name);
            lemma_is_last_dot(name);
            let front = name.take(dot);
            assert(name == front + seq!['.'] + found);
            if found.contains('.') {
                let k = choose|k: int| 0 <= k < found.len() && found[k] == '.';
                assert(name[dot + 1 + k] == '.');
            }
            assert(ends_in(path, front, found));
        },
        None => {},
    }
}

proof fn lemma_last_dot(name: Seq<char>, dot: int)
    requires
        0 <= dot < name.len(),
        name[dot] == '.',
        forall|i: int| dot < i < name.len() ==> name[i] != '.',
    ensures
        last_dot(name) == dot,
    decreases name.len(),
{
    if dot < name.len() - 1 {
        lemma_last_dot(name.drop_last(), dot);
    }
}

proof fn lemma_is_last_dot(name: Seq<char>)
    ensures
        -1 <= last_dot(name) < name.len(),
        last_dot(name) >= 0 ==> name[last_dot(name)] == '.',
        forall|i: int| last_dot(name) < i < name.len() ==> name[i] != '.',
    decreases name.len(),
{
    if name.len() > 0 && name.last() != '.' {
        lemma_is_last_dot(name.drop_last());
        assert forall|i: int| last_dot(name) < i < name.len() implies name[i] != '.' by {
            if i < name.len() - 1 {
                assert(name.drop_last()[i] == name[i]);
            }
        }
    }
}

/// A Luau source ends in `.lua` or `.luau`, after something else.
pub proof fn luau_files_end_in_lua_or_luau(path: Seq<char>, stem: Seq<char>)
    ensures
        ends_in(path, stem, seq!['l', 'u', 'a']) ==> is_luau_file(path),
        ends_in(path, stem, seq!['l', 'u', 'a', 'u']) ==> is_luau_file(path),
        is_luau_file(path) ==> exists|stem: Seq<char>, extension: Seq<char>| #[trigger]
            ends_in(path, stem, extension) && (extension == seq!['l', 'u', 'a'] || extension
                == seq!['l', 'u', 'a', 'u']),
{
    reveal_strlit("lua");
    reveal_strlit("luau");
    let lua = seq!['l', 'u', 'a'];
    let luau = seq!['l', 'u', 'a', 'u'];
    assert("lua"@ =~= lua);
    assert("luau"@ =~= luau);
    extensions_follow_the_last_dot(path, stem, lua);
    extensions_follow_the_last_dot(path, stem, luau);
    if is_luau_file(path) {
        let found = extension_of(path)->0;
        let front = choose|front: Seq<char>| #[trigger] ends_in(path, front, found);
        assert(ends_in(path, front, found) && (found == lua || found == luau));
    }
}

/// A path stands at or below another where it has the components of the other and then
/// maybe more.
pub proof fn paths_within_go_on(path: Seq<char>, base: Seq<char>)
    ensures
        path_within(path, base) <==> exists|rest: Seq<PathComponent<Seq<char>>>|
            components(path) == #[trigger] (components(base) + rest),
{
    let all = components(path);
    let start = components(base);
    if path_within(path, base) {
        let rest = all.skip(start.len() as int);
        assert(all == start + rest);
    }
    if exists|rest: Seq<PathComponent<Seq<char>>>| all == #[trigger] (start + rest) {
        let rest = choose|rest: Seq<PathComponent<Seq<char>>>| all == #[trigger] (start + rest);
        assert(all.take(start.len() as int) == start);
    }
}

/// The rank of a component among components of other kinds.
pub open spec fn kind_of(component: PathComponent<Seq<char>>) -> int {
    match component {
        PathComponent::Root => 0,
        PathComponent::Current => 1,
        PathComponent::Parent => 2,
        PathComponent::Normal(_) => 3,
    }
}

/// Whether two texts agree up to a place where the one ends or has the lesser character.
pub open spec fn texts_part_at(a: Seq<char>, b: Seq<char>, at: int) -> bool {
    &&& 0 <= at <= a.len()
    &&& at < b.len()
    &&& a.take(at) == b.take(at)
    &&& at < a.len() ==> a[at] < b[at]
}

/// Texts are ordered by the first character in which they differ.
pub proof fn texts_part_once(a: Seq<char>, b: Seq<char>)
    ensures
        text_less(a, b) <==> exists|at: int| #[trigger] texts_part_at(a, b, at),
    decreases a.len(),
{
    if text_less(a, b) {
        if a.len() == 0 {
            assert(a.take(0) == b.take(0));
            assert(texts_part_at(a, b, 0));
        } else if a[0] == b[0] {
            texts_part_once(a.drop_first(), b.drop_first());
            let at = choose|at: int| #[trigger]
                texts_part_at(a.drop_first(), b.drop_first(), at);
            assert(a.take(at + 1) == seq![a[0]] + a.drop_first().take(at));
            assert(b.take(at + 1) == seq![b[0]] + b.drop_first().take(at));
            assert(texts_part_at(a, b, at + 1));
        } else {
            assert(a.take(0) == b.take(0));
            assert(texts_part_at(a, b, 0));
        }
    }
    if exists|at: int| #[trigger] texts_part_at(a, b, at) {
        let at = choose|at: int| #[trigger] texts_part_at(a, b, at);
        if at > 0 {
            assert(a.take(at)[0] == a[0] && b.take(at)[0] == b[0]);
            assert(a.drop_first().take(at - 1) == a.take(at).drop_first());
            assert(b.drop_first().take(at - 1) == b.take(at).drop_first());
            assert(texts_part_at(a.drop_first(), b.drop_first(), at - 1));
            texts_part_once(a.drop_first(), b.drop_first());
        }
    }
}

/// Whether one component comes before another: by its kind, and a name by its text.
pub open spec fn comes_first(a: PathComponent<Seq<char>>, b: PathComponent<Seq<char>>) -> bool {
    match (a, b) {
        (PathComponent::Normal(left), PathComponent::Normal(right)) => exists|at: int| #[trigger]
            texts_part_at(left, right, at),
        _ => kind_of(a) < kind_of(b),
    }
}

/// Whether two rows of components agree up to a place where the one ends or has the
/// component that comes first.
pub open spec fn paths_part_at(
    a: Seq<PathComponent<Seq<char>>>,
    b: Seq<PathComponent<Seq<char>>>,
    at: int,
) -> bool {
    &&& 0 <= at <= a.len()
    &&& at < b.len()
    &&& a.take(at) == b.take(at)
    &&& at < a.len() ==> a[at] != b[at] && comes_first(a[at], b[at])
}

/// Paths are ordered by the first component in which they differ, a path before those
/// below it.
pub proof fn paths_part_once(
    a: Seq<PathComponent<Seq<char>>>,
    b: Seq<PathComponent<Seq<char>>>,
)
    ensures
        components_less(a, b) <==> exists|at: int| #[trigger] paths_part_at(a, b, at),
    decreases a.len(),
{
    if a.len() > 0 && b.len() > 0 {
        match (a[0], b[0]) {
            (PathComponent::Normal(left), PathComponent::Normal(right)) => {
                texts_part_once(left, right);
            },
            _ => {},
        }
        assert(component_less(a[0], b[0]) == comes_first(a[0], b[0]));
    }
    if components_less(a, b) {
        if a.len() == 0 {
            assert(a.take(0) == b.take(0));
            assert(paths_part_at(a, b, 0));
        } else if a[0] == b[0] {
            paths_part_once(a.drop_first(), b.drop_first());
            let at = choose|at: int| #[trigger]
                paths_part_at(a.drop_first(), b.drop_first(), at);
            assert(a.take(at + 1) == seq![a[0]] + a.drop_first().take(at));
            assert(b.take(at + 1) == seq![b[0]] + b.drop_first().take(at));
            assert(paths_part_at(a, b, at + 1));
        } else {
            assert(a.take(0) == b.take(0));
            assert(paths_part_at(a, b, 0));
        }
    }
    if exists|at: int| #[trigger] paths_part_at(a, b, at) {
        let at = choose|at: int| #[trigger] paths_part_at(a, b, at);
        if at > 0 {
            assert(a.take(at)[0] == a[0] && b.take(at)[0] == b[0]);
            assert(a.drop_first().take(at - 1) == a.take(at).drop_first());
            assert(b.drop_first().take(at - 1) == b.take(at).drop_first());
            assert(paths_part_at(a.drop_first(), b.drop_first(), at - 1));
            paths_part_once(a.drop_first(), b.drop_first());
        }
    }
}

} // verus!
