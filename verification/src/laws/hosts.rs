//! Paths on hosts with drives, and runs of configuration files.

use vstd::prelude::*;

use crate::config::{
    alias_base, ancestors, extended, lemma_fewer_left, lower_text, resolved, stepped, walked,
    AliasConfigModel, AliasDefinition,
};
use crate::config_luau::{
    is_limited, is_sandboxed, may_declare, may_evaluate, may_find, may_list, may_configure,
    may_return, may_return_table, may_run, may_sandbox, table_in, ConfigRun,
};
use crate::drives::{
    error_on_host, host_text, inward, is_drive_root, is_letter, is_place, joined_on, local_value,
    names_drive, on_drive, on_server, outward, parent_on, parents_are_shorter, upper,
    with_separator, with_upper_drive,
};
use crate::edits::{chars_before, edited, last_first, replaced_each, with_edit, Edit};
use crate::error::Error;
use crate::files::FileQuery;
use crate::laws::aliases::{
    is_split, key_of, lemma_split_once, requests_split_at_the_first_separator, starts_at_home,
};
use crate::laws::paths::{
    below_start, components_are_the_names_on_the_way, is_name, joined_paths_go_below,
    names_are_one_component, pieces_make_up_their_text, pieces_of_glued_texts,
};
use crate::paths::{
    components, joined, parent_drops_last_component, parent_of, pieces, PathComponent,
};

verus! {

/// Whether a character is a letter from A to Z.
pub open spec fn is_capital(c: char) -> bool {
    let code = c as u32;
    0x41 <= code <= 0x5a
}

/// Whether a character is a letter from a to z.
pub open spec fn is_small(c: char) -> bool {
    let code = c as u32;
    0x61 <= code <= 0x7a
}

/// Whether a text starts with a letter and a colon.
pub open spec fn starts_with_drive(text: Seq<char>) -> bool {
    text.len() >= 2 && (is_capital(text[0]) || is_small(text[0])) && text[1] == ':'
}

/// A drive is named by a letter and a colon.
pub proof fn drives_are_letters_and_colons(text: Seq<char>)
    ensures
        names_drive(text) == starts_with_drive(text),
        on_drive(text) == (starts_with_drive(text) && text.len() >= 3 && (text[2] == '/' || text[2]
            == '\\')),
        on_server(text) == (text.len() >= 3 && (text[0] == '/' || text[0] == '\\') && (text[1]
            == '/' || text[1] == '\\') && text[2] != '/' && text[2] != '\\'),
{
    if text.len() >= 2 {
        let c = text[0];
        lemma_letter(c);
    }
}

/// The letters of drives are those of ASCII.
proof fn lemma_letter(c: char)
    ensures
        is_letter(c) == (is_capital(c) || is_small(c)),
        is_small(c) ==> upper(c) as u32 == c as u32 - 32,
        !is_small(c) ==> upper(c) == c,
{
}

/// The character of a path of the host as this library writes it.
pub open spec fn inner_char(c: char) -> char {
    if c == '\\' {
        '/'
    } else {
        c
    }
}

/// A path of the host is written with `/`, its drive in upper case and with a `/` before
/// it where it starts at its root.
pub proof fn host_paths_are_written_with_slashes(text: Seq<char>)
    ensures
        ({
            let rooted = starts_with_drive(text) && text.len() >= 3 && (text[2] == '/' || text[2]
                == '\\');
            let start = if rooted {
                1int
            } else {
                0int
            };
            &&& inward(text).len() == text.len() + start
            &&& rooted ==> inward(text)[0] == '/'
            &&& forall|i: int|
                0 <= i < text.len() && !(i == 0 && starts_with_drive(text)) ==> inward(text)[start
                    + i] == inner_char(#[trigger] text[i])
            &&& starts_with_drive(text) ==> inward(text)[start] as u32 == if is_small(text[0]) {
                (text[0] as u32 - 32) as u32
            } else {
                text[0] as u32
            }
        }),
{
    drives_are_letters_and_colons(text);
    let raised = with_upper_drive(text);
    let slashed = with_separator(raised, '\\', '/');
    let rooted = on_drive(text);
    let start = if rooted {
        1int
    } else {
        0int
    };
    assert forall|i: int|
        0 <= i < text.len() && !(i == 0 && starts_with_drive(text)) implies inward(text)[start + i]
        == inner_char(#[trigger] text[i]) by {
        assert(raised[i] == text[i]);
        assert(inward(text)[start + i] == slashed[i]);
    }
    if starts_with_drive(text) {
        lemma_letter(text[0]);
        assert(inward(text)[start] == slashed[0]);
    }
}

/// A path of this library is shown as it is on a host without drives, and as the host
/// writes it on one with drives.
pub proof fn paths_are_shown_as_the_host_writes_them(path: Seq<char>)
    ensures
        host_text(path, false) == path,
        outward(path) matches Some(text) ==> host_text(path, true) == text,
        outward(path) is None ==> host_text(path, true) == path,
        outward(path) is Some <==> is_place(path),
        is_place(path) && path.len() == 3 && path[0] == '/' && path[1] != '/' && path[1] != '\\'
            ==> outward(path) == Some(seq![path[1], path[2], '\\']),
{
    if is_place(path) && path.len() == 3 && path[0] == '/' && path[1] != '/' && path[1] != '\\' {
        assert(path.skip(1).push('\\') =~= seq![path[1], path[2], '\\']);
    }
}

/// An error shows its paths as the host writes them, and nothing else of it changes.
pub proof fn errors_show_paths_of_the_host(
    a: Seq<char>,
    b: Seq<char>,
    c: Seq<char>,
    error: Error<Seq<char>>,
    drives: bool,
)
    ensures
        error_on_host(error, false) == error,
        error_on_host(Error::TwoConfigurations { directory: a }, drives)
            == (Error::TwoConfigurations { directory: host_text(a, drives) }),
        error_on_host(Error::InvalidAliasName { name: a, path: b }, drives)
            == (Error::InvalidAliasName { name: a, path: host_text(b, drives) }),
        error_on_host(Error::NativeAlias { name: a, source: b }, drives) == (Error::NativeAlias {
            name: a,
            source: host_text(b, drives),
        }),
        error_on_host(Error::AmbiguousModule { module: a, first: b, second: c }, drives)
            == (Error::AmbiguousModule {
            module: host_text(a, drives),
            first: host_text(b, drives),
            second: host_text(c, drives),
        }),
        error_on_host(Error::MissingModule { request: a, source_path: b, module: c }, drives)
            == (Error::MissingModule {
            request: a,
            source_path: host_text(b, drives),
            module: host_text(c, drives),
        }),
        error matches Error::Config { path, stage, detail } ==> error_on_host(error, drives) == (
        Error::Config { path: host_text(path, drives), stage, detail }),
        error matches Error::Unanswered(query) ==> error_on_host(error, drives)
            == Error::Unanswered(
            FileQuery { kind: query.kind, path: host_text(query.path, drives) },
        ),
        !(error is Unanswered) && !(error is TwoConfigurations) && !(error is InvalidAliasName)
            && !(error is NativeAlias) && !(error is AmbiguousModule) && !(error is MissingModule)
            && !(error is Config) ==> error_on_host(error, drives) == error,
{
}

/// A place on a host with drives is relative, on a drive, or on a share of a server.
pub proof fn places_are_on_drives_or_servers(path: Seq<char>)
    ensures
        is_place(path) <==> {
            ||| path.len() == 0 || path[0] != '/'
            ||| path.len() == 3 && starts_with_drive(path.skip(1))
            ||| starts_with_drive(path.skip(1)) && path.len() > 3 && (path[3] == '/' || path[3]
                == '\\')
            ||| path.len() >= 3 && (path[1] == '/' || path[1] == '\\') && path[2] != '/' && path[2]
                != '\\' && components(path).len() >= 3
        },
{
    if path.len() > 0 {
        drives_are_letters_and_colons(path.skip(1));
        drives_are_letters_and_colons(path);
        if path.len() >= 3 {
            assert(path.skip(1)[0] == path[1] && path.skip(1)[1] == path[2]);
            lemma_letter(path[1]);
        }
        if path.len() > 3 {
            assert(path.skip(1)[2] == path[3]);
        }
    }
}

/// On a host with drives the parent of a path is its parent where that is a place, and
/// there is none else. The parent of a name on a drive that does not start at its root is
/// the bare drive.
pub proof fn parents_are_places(path: Seq<char>)
    ensures
        !starts_with_drive(path) ==> parent_on(path, true) == match parent_of(path) {
            Some(above) => if is_place(above) {
                Some(above)
            } else {
                None
            },
            None => None,
        },
        starts_with_drive(path) && components(path).len() == 1 ==> parent_on(path, true)
            == if path.len() > 2 {
            Some(path.take(2))
        } else {
            None
        },
{
    drives_are_letters_and_colons(path);
}

/// Whether a path starts at the root of a drive, as this library writes it.
pub open spec fn stands_on_drive(path: Seq<char>) -> bool {
    &&& path.len() >= 3
    &&& path[0] == '/'
    &&& starts_with_drive(path.skip(1))
    &&& path.len() > 3 ==> path[3] == '/'
}

/// The first components of a path on a drive are the root and the drive.
proof fn lemma_on_drive(path: Seq<char>)
    requires
        stands_on_drive(path),
    ensures
        components(path).len() >= 2,
        components(path)[0] is Root,
        components(path)[1] == PathComponent::Normal(path.subrange(1, 3)),
        is_place(path),
        !names_drive(path),
{
    drives_are_letters_and_colons(path.skip(1));
    let drive = path.subrange(1, 3);
    let root = path.take(1);
    let head = path.take(3);
    assert(drive[0] == path.skip(1)[0] && drive[1] == path.skip(1)[1]);
    assert(!drive.contains('/')) by {
        if drive.contains('/') {
            let k = choose|k: int| 0 <= k < drive.len() && drive[k] == '/';
        }
    }
    assert(!drive.contains('\\')) by {
        if drive.contains('\\') {
            let k = choose|k: int| 0 <= k < drive.len() && drive[k] == '\\';
        }
    }
    assert(is_name(drive));
    names_are_one_component(root, drive);
    assert(root =~= seq!['/']);
    assert(joined(root, drive) =~= head);
    lemma_root();
    assert(components(head) =~= seq![PathComponent::Root, PathComponent::Normal(drive)]);
    if path.len() > 3 {
        let tail = path.skip(4);
        assert(path =~= head.push('/') + tail);
        pieces_of_glued_texts(head, tail, false);
        components_are_the_names_on_the_way(path);
        components_are_the_names_on_the_way(head);
        crate::laws::paths::lemma_below_start(pieces(head, false), pieces(tail, false));
        crate::paths::pieces_not_empty(head, false);
        assert(components(path) =~= components(head) + below_start(pieces(tail, false)));
        assert(on_drive(path.skip(1)));
    } else {
        assert(path =~= head);
        assert(is_drive_root(path));
    }
    assert(path[0] == '/');
}

proof fn lemma_root()
    ensures
        components(seq!['/']) == seq![PathComponent::<Seq<char>>::Root],
{
    let root = seq!['/'];
    let none = Seq::<char>::empty();
    components_are_the_names_on_the_way(root);
    assert(root =~= none.push('/') + none);
    pieces_of_glued_texts(none, none, false);
    assert(pieces(none, false) =~= seq![none]);
    assert(pieces(root, false) =~= seq![none, none]);
    reveal(Seq::filter);
    reveal_with_fuel(Seq::filter, 3);
    assert(seq![none, none].drop_last() =~= seq![none]);
    assert(seq![none].drop_last() =~= Seq::<Seq<char>>::empty());
    assert(below_start(seq![none, none]) =~= Seq::<PathComponent<Seq<char>>>::empty());
}

/// On a host with drives one cannot go up from the root of a drive; from below it one goes
/// up to the parent, which is on the same drive. Without drives the parent is the parent.
pub proof fn drives_have_no_parent(path: Seq<char>)
    ensures
        parent_on(path, false) == parent_of(path),
        stands_on_drive(path) && components(path).len() == 2 ==> parent_on(path, true) is None,
        stands_on_drive(path) && components(path).len() > 2 ==> (parent_on(path, true) matches Some(
            above,
        ) && parent_of(path) == Some(above) && stands_on_drive(above) && above.take(3)
            == path.take(3)),
{
    parent_drops_last_component(path);
    if stands_on_drive(path) {
        lemma_on_drive(path);
        let above = parent_of(path)->0;
        crate::laws::configurations::lemma_one_root(path);
        assert(!(components(path)[components(path).len() - 1] is Root));
        assert(parent_of(path) is Some);
        assert(components(above) == components(path).drop_last());
        assert(above =~= path.take(above.len() as int));
        if components(path).len() == 2 {
            assert(components(above) =~= seq![PathComponent::<Seq<char>>::Root]);
            lemma_root_is_no_place(above);
        } else {
            assert(components(above)[1] == PathComponent::Normal(path.subrange(1, 3)));
            lemma_long_enough(path, above);
            assert(above.take(3) =~= path.take(3));
            assert(above.skip(1)[0] == path.skip(1)[0] && above.skip(1)[1] == path.skip(1)[1]);
            assert(stands_on_drive(above));
            lemma_on_drive(above);
        }
    }
}

/// The root alone is no place.
proof fn lemma_root_is_no_place(path: Seq<char>)
    requires
        components(path).len() == 1,
        components(path)[0] is Root,
    ensures
        !is_place(path),
{
    components_are_the_names_on_the_way(path);
    if path.len() == 0 || path[0] != '/' {
        let below = below_start(pieces(path, false));
        if components(path).len() == below.len() {
            assert(below[0] is Root);
        }
    } else if is_drive_root(path) || on_drive(path.skip(1)) {
        drives_are_letters_and_colons(path.skip(1));
        assert(path.skip(1)[0] == path[1] && path.skip(1)[1] == path[2]);
        if path.len() > 3 {
            assert(path.skip(1)[2] == path[3]);
        }
        if path.len() > 3 && path[3] == '\\' {
            lemma_drive_and_backslash(path);
        } else {
            assert(stands_on_drive(path));
            lemma_on_drive(path);
        }
    }
}

/// A path whose drive is followed by `\` has a name as its second component.
proof fn lemma_drive_and_backslash(path: Seq<char>)
    requires
        path.len() > 3,
        path[0] == '/',
        path[1] != '/',
        path[1] != '.',
    ensures
        components(path).len() >= 2,
{
    let none = Seq::<char>::empty();
    let tail = path.skip(1);
    assert(path =~= none.push('/') + tail);
    pieces_of_glued_texts(none, tail, false);
    components_are_the_names_on_the_way(path);
    pieces_make_up_their_text(tail, false);
    let row = pieces(tail, false);
    let first = row[0];
    assert(pieces(none, false) =~= seq![none]);
    let all = seq![none] + row;
    assert(pieces(path, false) == all);
    lemma_first_piece(tail);
    assert(first.len() > 0 && first[0] == path[1]);
    assert(all[1] == first);
    let wanted = |piece: Seq<char>| crate::laws::paths::counts(piece);
    assert(wanted(all[1]));
    all.lemma_filter_contains(wanted, 1);
    assert(all.filter(wanted).len() > 0);
    assert(below_start(all).len() > 0);
}

/// The first piece of a text that starts with no separator starts as the text does.
proof fn lemma_first_piece(text: Seq<char>)
    requires
        text.len() > 0,
        text[0] != '/',
    ensures
        pieces(text, false)[0].len() > 0,
        pieces(text, false)[0][0] == text[0],
    decreases text.len(),
{
    crate::paths::pieces_not_empty(text.drop_last(), false);
    if text.len() == 1 {
        assert(text.drop_last() =~= Seq::<char>::empty());
        assert(pieces(text, false)[0] =~= seq![text[0]]);
    } else {
        lemma_first_piece(text.drop_last());
    }
}

/// A text at the start of a path on a drive that has the drive as a component holds it.
proof fn lemma_long_enough(path: Seq<char>, above: Seq<char>)
    requires
        stands_on_drive(path),
        above.is_prefix_of(path),
        components(above).len() >= 2,
        components(above)[1] == PathComponent::Normal(path.subrange(1, 3)),
    ensures
        above.len() >= 3,
{
    if above.len() < 3 {
        components_are_the_names_on_the_way(above);
        drives_are_letters_and_colons(path.skip(1));
        assert(path.skip(1)[0] == path[1]);
        if above.len() == 0 {
            assert(above =~= Seq::<char>::empty());
            let none = Seq::<char>::empty();
            assert(pieces(none, false) =~= seq![none]);
            reveal(Seq::filter);
            reveal_with_fuel(Seq::filter, 2);
            assert(seq![none].drop_last() =~= Seq::<Seq<char>>::empty());
            assert(below_start(seq![none]) =~= Seq::<PathComponent<Seq<char>>>::empty());
        } else if above.len() == 1 {
            assert(above =~= seq!['/']);
            lemma_root();
        } else {
            let letter = seq![path[1]];
            assert(above =~= seq!['/'] + letter);
            assert(!letter.contains('/')) by {
                if letter.contains('/') {
                    let k = choose|k: int| 0 <= k < letter.len() && letter[k] == '/';
                }
            }
            assert(!letter.contains('\\')) by {
                if letter.contains('\\') {
                    let k = choose|k: int| 0 <= k < letter.len() && letter[k] == '\\';
                }
            }
            assert(letter != seq!['.']) by {
                if letter == seq!['.'] {
                    assert(letter[0] == '.');
                }
            }
            assert(letter.len() == 1);
            assert(letter != seq!['.', '.']) by {
                assert(seq!['.', '.'].len() == 2);
            }
            assert(is_name(letter));
            names_are_one_component(seq!['/'], letter);
            lemma_root();
            assert(joined(seq!['/'], letter) =~= above);
            assert(components(above)[1] == PathComponent::Normal(letter));
            assert(letter.len() == 1 && path.subrange(1, 3).len() == 2);
        }
    }
}

/// A name below a path goes below it on every host, unless it names a drive on a host with
/// drives: that is a path of its own.
pub proof fn names_of_drives_are_paths_of_their_own(path: Seq<char>, name: Seq<char>)
    ensures
        joined_on(path, name, false) == joined(path, name),
        !starts_with_drive(name) && !(path.len() == 2 && starts_with_drive(path)) ==> joined_on(
            path,
            name,
            true,
        ) == joined(path, name),
        starts_with_drive(name) ==> joined_on(path, name, true).skip(1) == name.skip(1),
{
    drives_are_letters_and_colons(path);
    drives_are_letters_and_colons(name);
    if starts_with_drive(name) {
        assert(with_upper_drive(name).skip(1) =~= name.skip(1));
    }
}

/// The components that a step along a drive leads to. It does not lead off the drive.
pub open spec fn after_step_on_drive(
    at: Seq<PathComponent<Seq<char>>>,
    step: Seq<char>,
) -> Seq<PathComponent<Seq<char>>> {
    if step.len() == 0 || step == seq!['.'] {
        at
    } else if step == seq!['.', '.'] {
        if at.len() <= 2 {
            at
        } else {
            at.drop_last()
        }
    } else {
        at.push(PathComponent::Normal(step))
    }
}

/// Along a drive a text leads to where its steps lead, and stays on the drive.
pub proof fn texts_lead_along_a_drive(path: Seq<char>, steps: Seq<Seq<char>>)
    requires
        stands_on_drive(path),
        forall|i: int|
            0 <= i < steps.len() ==> !(#[trigger] steps[i]).contains('/') && !steps[i].contains(
                '\\',
            ) && !starts_with_drive(steps[i]),
    ensures
        stands_on_drive(walked(path, steps, true)),
        components(walked(path, steps, true)) == steps.fold_left(
            components(path),
            |at: Seq<PathComponent<Seq<char>>>, step: Seq<char>| after_step_on_drive(at, step),
        ),
    decreases steps.len(),
{
    if steps.len() > 0 {
        let before = steps.drop_last();
        let last = steps.last();
        assert forall|i: int| 0 <= i < before.len() implies !(#[trigger] before[i]).contains('/')
            && !before[i].contains('\\') && !starts_with_drive(before[i]) by {
            assert(before[i] == steps[i]);
        }
        texts_lead_along_a_drive(path, before);
        assert(last == steps[steps.len() - 1]);
        let at = walked(path, before, true);
        lemma_on_drive(at);
        drives_have_no_parent(at);
        parent_drops_last_component(at);
        names_of_drives_are_paths_of_their_own(at, last);
        assert(last.len() == 0 ==> last == Seq::<char>::empty());
        if is_name(last) {
            names_are_one_component(at, last);
            joined_paths_go_below(at, last);
            assert(last[0] != '/') by {
                assert(last.contains(last[0]));
            }
            let next = joined(at, last);
            assert(at.is_prefix_of(next));
            assert(next.take(at.len() as int) =~= at);
            assert(next.skip(1)[0] == at.skip(1)[0] && next.skip(1)[1] == at.skip(1)[1]) by {
                assert(next[1] == next.take(at.len() as int)[1]);
                assert(next[2] == next.take(at.len() as int)[2]);
            }
            assert(next[0] == next.take(at.len() as int)[0]);
            if next.len() > 3 {
                if at.len() > 3 {
                    assert(next[3] == next.take(at.len() as int)[3]);
                } else {
                    assert(at.last() == ':');
                    assert(next =~= at.push('/') + last);
                }
            }
        }
    }
}

/// The value of an alias is taken as it is on a host without drives. On one with drives a
/// value at a drive or a server is absolute, and one that only starts with `/` is not.
pub proof fn values_are_written_for_the_host(value: Seq<char>)
    ensures
        local_value(value, false) == value,
        ({
            let at_drive = starts_with_drive(value) && value.len() >= 3 && (value[2] == '/'
                || value[2] == '\\');
            let at_server = value.len() >= 3 && (value[0] == '/' || value[0] == '\\') && (value[1]
                == '/' || value[1] == '\\') && value[2] != '/' && value[2] != '\\';
            local_value(value, true) == if at_drive || at_server {
                inward(value)
            } else if value.len() > 0 && value[0] == '/' {
                seq!['.'] + value
            } else {
                value
            }
        }),
{
    drives_are_letters_and_colons(value);
}

/// On a host with drives a value starts at the home directory, as it is where it is
/// absolute, or at the directory of its file, along the drive.
pub proof fn values_start_where_they_say_on_drives(
    alias: AliasDefinition<Seq<char>>,
    home_directory: Option<Seq<char>>,
)
    ensures
        alias_base(alias, home_directory, true) == if starts_at_home(alias.value)
            && home_directory is Some {
            walked(home_directory->0, pieces(alias.value.skip(2), true), true)
        } else if alias.value.len() > 0 && alias.value[0] == '/' {
            alias.value
        } else {
            walked(alias.base_directory, pieces(alias.value, true), true)
        },
{
}

/// A text below a path is a row of steps: none for an empty step and `.`, up for `..` where
/// there is a parent, down for a name.
pub proof fn steps_are_taken_one_by_one(
    path: Seq<char>,
    text: Seq<char>,
    step: Seq<char>,
    drives: bool,
)
    ensures
        extended(path, text, drives) == pieces(text, true).fold_left(
            path,
            |at: Seq<char>, step: Seq<char>| stepped(at, step, drives),
        ),
        step.len() == 0 || step == seq!['.'] ==> stepped(path, step, drives) == path,
        step == seq!['.', '.'] ==> stepped(path, step, drives) == match parent_on(path, drives) {
            Some(above) => above,
            None => path,
        },
        step.len() > 0 && step != seq!['.'] && step != seq!['.', '.'] ==> stepped(
            path,
            step,
            drives,
        ) == joined_on(path, step, drives),
{
    lemma_fold(path, pieces(text, true), drives);
    assert(step.len() == 0 ==> step == Seq::<char>::empty());
}

proof fn lemma_fold(path: Seq<char>, steps: Seq<Seq<char>>, drives: bool)
    ensures
        walked(path, steps, drives) == steps.fold_left(
            path,
            |at: Seq<char>, step: Seq<char>| stepped(at, step, drives),
        ),
    decreases steps.len(),
{
    if steps.len() > 0 {
        lemma_fold(path, steps.drop_last(), drives);
    }
}

/// On every host an alias leads to its value and on along the rest of the request, one for
/// `@self` from the directory of the script on, and one for another alias to where that one
/// leads with both rests.
pub proof fn aliases_lead_on_every_host(
    config: AliasConfigModel,
    home_directory: Option<Seq<char>>,
    name: Seq<char>,
    suffix: Seq<char>,
    importer: Seq<char>,
    followed: Seq<Seq<char>>,
    nested: Seq<char>,
    rest: Seq<char>,
)
    requires
        config.aliases.dom().finite(),
        config.aliases.contains_key(key_of(name)),
        !followed.contains(key_of(name)),
    ensures
        ({
            let alias = config.aliases[key_of(name)];
            let result = resolved(config, home_directory, name, suffix, importer, followed);
            &&& alias.value.len() == 0 || alias.value[0] != '@' ==> result == Ok::<
                _,
                Error<Seq<char>>,
            >(
                extended(
                    alias_base(alias, home_directory, config.drives),
                    suffix,
                    config.drives,
                ),
            )
            &&& is_split(alias.value, nested, rest) && key_of(nested) == seq!['s', 'e', 'l', 'f']
                ==> result == Ok::<_, Error<Seq<char>>>(
                extended(
                    extended(importer, rest, config.drives),
                    suffix,
                    config.drives,
                ),
            )
            &&& is_split(alias.value, nested, rest) && key_of(nested) == seq!['g', 'a', 'm', 'e']
                ==> result == Err::<Seq<char>, _>(
                Error::NativeAlias { name, source: alias.source },
            )
            &&& is_split(alias.value, nested, rest) && key_of(nested) != seq!['s', 'e', 'l', 'f']
                && key_of(nested) != seq!['g', 'a', 'm', 'e'] ==> result == resolved(
                config,
                home_directory,
                nested,
                if rest.len() == 0 {
                    suffix
                } else if suffix.len() == 0 {
                    rest
                } else {
                    rest + seq!['/'] + suffix
                },
                importer,
                followed.push(key_of(name)),
            )
        }),
{
    let alias = config.aliases[key_of(name)];
    assert(lower_text(name) =~= key_of(name));
    assert(lower_text(nested) =~= key_of(nested));
    reveal_strlit("self");
    reveal_strlit("game");
    assert(lower_text("self"@) =~= seq!['s', 'e', 'l', 'f']);
    assert(lower_text("game"@) =~= seq!['g', 'a', 'm', 'e']);
    requests_split_at_the_first_separator(alias.value);
    lemma_fewer_left(config.aliases.dom(), followed, key_of(name));
    if is_split(alias.value, nested, rest) {
        lemma_split_once(alias.value, nested, rest);
        assert(rest.push('/') + suffix =~= rest + seq!['/'] + suffix);
    }
}

/// The directories above one on a drive go up to the root of the drive and no further.
pub proof fn ancestors_stay_on_their_drive(directory: Seq<char>)
    requires
        stands_on_drive(directory),
    ensures
        ({
            let row = ancestors(directory, true);
            let all = components(directory);
            &&& row.len() == all.len() - 1
            &&& row.last() == directory
            &&& forall|i: int|
                0 <= i < row.len() ==> components(#[trigger] row[i]) == all.take(2 + i)
        }),
    decreases directory.len(),
{
    lemma_on_drive(directory);
    drives_have_no_parent(directory);
    parents_are_shorter(directory, true);
    parent_drops_last_component(directory);
    let row = ancestors(directory, true);
    let all = components(directory);
    if all.len() == 2 {
        assert(row =~= seq![directory]);
        assert(all.take(2) =~= all);
    } else {
        let above = parent_on(directory, true)->0;
        ancestors_stay_on_their_drive(above);
        let outer = ancestors(above, true);
        assert(row == outer.push(directory));
        assert forall|i: int| 0 <= i < row.len() implies components(#[trigger] row[i]) == all.take(
            2 + i,
        ) by {
            if i < outer.len() {
                assert(row[i] == outer[i]);
                assert(all.drop_last().take(2 + i) =~= all.take(2 + i));
            } else {
                assert(all.take(2 + i) =~= all);
            }
        }
    }
}

/// Edits are made from the last place to the first; those of one place in their order.
pub proof fn edits_are_made_from_the_last_place_on(edits: Seq<Edit<Seq<char>>>, place: usize)
    ensures
        forall|i: int, j: int|
            0 <= i < j < last_first(edits).len() ==> (#[trigger] last_first(edits)[i]).range.start
                >= (#[trigger] last_first(edits)[j]).range.start,
        last_first(edits).filter(|edit: Edit<Seq<char>>| edit.range.start == place)
            == edits.filter(|edit: Edit<Seq<char>>| edit.range.start == place),
        last_first(edits).len() == edits.len(),
    decreases edits.len(),
{
    let here = |edit: Edit<Seq<char>>| edit.range.start == place;
    if edits.len() == 0 {
        assert(last_first(edits) =~= edits);
    } else {
        let before = edits.drop_last();
        let last = edits.last();
        edits_are_made_from_the_last_place_on(before, place);
        lemma_with_edit(last_first(before), last, place);
        assert(edits =~= before.push(last));
        before.lemma_filter_push(last, here);
    }
}

/// Whether no edit of a row starts after a place.
pub open spec fn start_up_to(row: Seq<Edit<Seq<char>>>, bound: usize) -> bool {
    forall|i: int| 0 <= i < row.len() ==> (#[trigger] row[i]).range.start <= bound
}

proof fn lemma_with_edit(sorted: Seq<Edit<Seq<char>>>, edit: Edit<Seq<char>>, place: usize)
    requires
        forall|i: int, j: int|
            0 <= i < j < sorted.len() ==> (#[trigger] sorted[i]).range.start >= (
            #[trigger] sorted[j]).range.start,
    ensures
        with_edit(sorted, edit).len() == sorted.len() + 1,
        forall|i: int, j: int|
            0 <= i < j < with_edit(sorted, edit).len() ==> (#[trigger] with_edit(
                sorted,
                edit,
            )[i]).range.start >= (#[trigger] with_edit(sorted, edit)[j]).range.start,
        with_edit(sorted, edit).len() > 0 && (sorted.len() > 0 ==> with_edit(
            sorted,
            edit,
        )[0].range.start >= sorted[0].range.start),
        forall|bound: usize|
            edit.range.start <= bound && #[trigger] start_up_to(sorted, bound) ==> start_up_to(
                with_edit(sorted, edit),
                bound,
            ),
        with_edit(sorted, edit).filter(|edit: Edit<Seq<char>>| edit.range.start == place) == if
        edit.range.start == place {
            sorted.filter(|edit: Edit<Seq<char>>| edit.range.start == place).push(edit)
        } else {
            sorted.filter(|edit: Edit<Seq<char>>| edit.range.start == place)
        },
    decreases sorted.len(),
{
    let here = |edit: Edit<Seq<char>>| edit.range.start == place;
    let longer = with_edit(sorted, edit);
    if sorted.len() == 0 {
        let none = Seq::<Edit<Seq<char>>>::empty();
        assert(sorted =~= none);
        assert(longer =~= none.push(edit));
        none.lemma_filter_push(edit, here);
    } else if sorted[0].range.start < edit.range.start {
        assert(longer =~= seq![edit] + sorted);
        sorted.lemma_filter_prepend(edit, here);
        assert forall|i: int, j: int| 0 <= i < j < longer.len() implies (
        #[trigger] longer[i]).range.start >= (#[trigger] longer[j]).range.start by {
            assert(longer[j] == sorted[j - 1]);
            if i > 0 {
                assert(longer[i] == sorted[i - 1]);
            }
        }
        if edit.range.start == place {
            lemma_none_here(sorted, place);
            assert(sorted.filter(here) =~= Seq::<Edit<Seq<char>>>::empty());
            assert(seq![edit] + Seq::<Edit<Seq<char>>>::empty() =~= Seq::<
                Edit<Seq<char>>,
            >::empty().push(edit));
        }
    } else {
        let rest = sorted.drop_first();
        assert forall|i: int, j: int| 0 <= i < j < rest.len() implies (
        #[trigger] rest[i]).range.start >= (#[trigger] rest[j]).range.start by {
            assert(rest[i] == sorted[i + 1] && rest[j] == sorted[j + 1]);
        }
        lemma_with_edit(rest, edit, place);
        let tail = with_edit(rest, edit);
        assert(longer =~= seq![sorted[0]] + tail);
        assert(sorted =~= seq![sorted[0]] + rest);
        tail.lemma_filter_prepend(sorted[0], here);
        rest.lemma_filter_prepend(sorted[0], here);
        let bound = sorted[0].range.start;
        assert forall|i: int| 0 <= i < rest.len() implies (#[trigger] rest[i]).range.start
            <= bound by {
            assert(rest[i] == sorted[i + 1]);
        }
        assert(start_up_to(rest, bound));
        assert(start_up_to(tail, bound));
        assert forall|i: int, j: int| 0 <= i < j < longer.len() implies (
        #[trigger] longer[i]).range.start >= (#[trigger] longer[j]).range.start by {
            assert(longer[j] == tail[j - 1]);
            if i > 0 {
                assert(longer[i] == tail[i - 1]);
            }
        }
        assert forall|bound: usize|
            edit.range.start <= bound && #[trigger] start_up_to(sorted, bound) implies start_up_to(
            longer,
            bound,
        ) by {
            assert forall|i: int| 0 <= i < rest.len() implies (#[trigger] rest[i]).range.start
                <= bound by {
                assert(rest[i] == sorted[i + 1]);
            }
            assert(start_up_to(rest, bound));
            assert(start_up_to(tail, bound));
            assert forall|i: int| 0 <= i < longer.len() implies (
            #[trigger] longer[i]).range.start <= bound by {
                if i > 0 {
                    assert(longer[i] == tail[i - 1]);
                }
            }
        }
        if edit.range.start == place {
            let kept = rest.filter(here);
            if here(sorted[0]) {
                assert(seq![sorted[0]] + kept.push(edit) =~= (seq![sorted[0]] + kept).push(edit));
            }
        }
    }
}

proof fn lemma_none_here(sorted: Seq<Edit<Seq<char>>>, place: usize)
    requires
        sorted.len() > 0 ==> sorted[0].range.start < place,
        forall|i: int, j: int|
            0 <= i < j < sorted.len() ==> (#[trigger] sorted[i]).range.start >= (
            #[trigger] sorted[j]).range.start,
    ensures
        sorted.filter(|edit: Edit<Seq<char>>| edit.range.start == place).len() == 0,
{
    let here = |edit: Edit<Seq<char>>| edit.range.start == place;
    let kept = sorted.filter(here);
    if kept.len() > 0 {
        sorted.lemma_filter_pred(here, 0);
        sorted.lemma_filter_contains_rev(here, kept[0]);
        let k = choose|k: int| 0 <= k < sorted.len() && sorted[k] == kept[0];
        if k > 0 {
            assert(sorted[0].range.start >= sorted[k].range.start);
        }
    }
}

/// An edit whose range does not start and end between characters, or ends before it
/// starts, is refused.
pub proof fn edits_within_characters_are_refused(text: Seq<char>, edit: Edit<Seq<char>>)
    ensures
        ({
            let from = chars_before(text, edit.range.start as nat);
            let to = chars_before(text, edit.range.end as nat);
            edited(text, seq![edit]) == if from is Some && to is Some && from->0 <= to->0 {
                Ok::<_, Error<Seq<char>>>(
                    text.take(from->0 as int) + edit.replacement + text.skip(to->0 as int),
                )
            } else {
                Err(Error::Range { start: edit.range.start, end: edit.range.end })
            }
        }),
{
    let none = Seq::<Edit<Seq<char>>>::empty();
    assert(seq![edit].drop_last() =~= none);
    assert(last_first(none) =~= none);
    assert(last_first(seq![edit]) =~= seq![edit]);
    assert(seq![edit].drop_first() =~= none);
    reveal_with_fuel(replaced_each, 2);
}

/// Whether a file may have returned a table on a machine with a sandbox and a limit.
pub open spec fn returned(
    path: Seq<char>,
    contents: Seq<char>,
    lua: mlua::Lua,
    value: mlua::Value,
) -> bool {
    is_sandboxed(lua, true) && is_limited(lua) && may_evaluate(lua, path, contents, Ok(value))
}

/// Whether a file may have returned a table with these tables under `luau` and under
/// `luau.aliases`.
pub open spec fn declared_in(
    path: Seq<char>,
    contents: Seq<char>,
    lua: mlua::Lua,
    value: mlua::Value,
    root: mlua::Table,
    luau: mlua::Table,
    aliases: mlua::Table,
) -> bool {
    &&& returned(path, contents, lua, value)
    &&& table_in(value) == Some(root)
    &&& may_find(root, seq!['l', 'u', 'a', 'u'], Ok(Some(luau)))
    &&& may_find(luau, seq!['a', 'l', 'i', 'a', 's', 'e', 's'], Ok(Some(aliases)))
}

/// The pairs of a file are those of the table under `luau.aliases` in the table that it
/// returns when it runs under its own name, with its own contents, in a sandbox and for a
/// limited time. A file that fails in such a run fails.
pub proof fn pairs_come_from_the_aliases_of_the_file(
    path: Seq<char>,
    contents: Seq<char>,
    pairs: Seq<(Seq<char>, Seq<char>)>,
    detail: Seq<char>,
)
    ensures
        may_run(path, contents, ConfigRun::Pairs(pairs)) ==> exists|
            lua: mlua::Lua,
            value: mlua::Value,
            root: mlua::Table,
            luau: mlua::Table,
            aliases: mlua::Table,
        | #[trigger]
            declared_in(path, contents, lua, value, root, luau, aliases) && may_list(
                aliases,
                Ok(pairs),
            ),
        may_run(path, contents, ConfigRun::BadPair(detail)) ==> exists|
            lua: mlua::Lua,
            value: mlua::Value,
            root: mlua::Table,
            luau: mlua::Table,
            aliases: mlua::Table,
        | #[trigger]
            declared_in(path, contents, lua, value, root, luau, aliases) && may_list(
                aliases,
                Err(detail),
            ),
        may_run(path, contents, ConfigRun::Failed(detail)) ==> exists|lua: mlua::Lua|
            is_sandboxed(lua, true) && is_limited(lua) && #[trigger] may_evaluate(
                lua,
                path,
                contents,
                Err(detail),
            ),
        may_run(path, contents, ConfigRun::NoTable) ==> exists|lua: mlua::Lua, value: mlua::Value|
            #[trigger] returned(path, contents, lua, value) && table_in(value) is None,
        may_run(path, contents, ConfigRun::NoLuau) ==> exists|
            lua: mlua::Lua,
            value: mlua::Value,
        | #[trigger]
            returned(path, contents, lua, value) && table_in(value) is Some && may_find(
                table_in(value)->0,
                seq!['l', 'u', 'a', 'u'],
                Ok(None),
            ),
        may_run(path, contents, ConfigRun::BadLuau(detail)) ==> exists|
            lua: mlua::Lua,
            value: mlua::Value,
        | #[trigger]
            returned(path, contents, lua, value) && table_in(value) is Some && may_find(
                table_in(value)->0,
                seq!['l', 'u', 'a', 'u'],
                Err(detail),
            ),
        may_run(path, contents, ConfigRun::NoAliases) ==> exists|
            lua: mlua::Lua,
            value: mlua::Value,
            root: mlua::Table,
            luau: mlua::Table,
        | #[trigger]
            configured_in(path, contents, lua, value, root, luau) && may_find(
                luau,
                seq!['a', 'l', 'i', 'a', 's', 'e', 's'],
                Ok(None),
            ),
        may_run(path, contents, ConfigRun::BadAliases(detail)) ==> exists|
            lua: mlua::Lua,
            value: mlua::Value,
            root: mlua::Table,
            luau: mlua::Table,
        | #[trigger]
            configured_in(path, contents, lua, value, root, luau) && may_find(
                luau,
                seq!['a', 'l', 'i', 'a', 's', 'e', 's'],
                Err(detail),
            ),
        may_run(path, contents, ConfigRun::NoSandbox(detail)) ==> exists|lua: mlua::Lua| #[trigger]
            may_sandbox(lua, true, detail),
{
    reveal_strlit("luau");
    reveal_strlit("aliases");
    assert("luau"@ =~= seq!['l', 'u', 'a', 'u']);
    assert("aliases"@ =~= seq!['a', 'l', 'i', 'a', 's', 'e', 's']);
    if may_run(path, contents, ConfigRun::Pairs(pairs)) {
        let aliases = choose|aliases: mlua::Table| #[trigger]
            may_declare(path, contents, aliases) && may_list(aliases, Ok(pairs));
        lemma_declared(path, contents, aliases);
    }
    if may_run(path, contents, ConfigRun::BadPair(detail)) {
        let aliases = choose|aliases: mlua::Table| #[trigger]
            may_declare(path, contents, aliases) && may_list(aliases, Err(detail));
        lemma_declared(path, contents, aliases);
    }
    if may_run(path, contents, ConfigRun::NoAliases) {
        let luau = choose|luau: mlua::Table| #[trigger]
            may_configure(path, contents, luau) && may_find(luau, "aliases"@, Ok(None));
        lemma_configured(path, contents, luau);
    }
    if may_run(path, contents, ConfigRun::BadAliases(detail)) {
        let luau = choose|luau: mlua::Table| #[trigger]
            may_configure(path, contents, luau) && may_find(luau, "aliases"@, Err(detail));
        lemma_configured(path, contents, luau);
    }
    if may_run(path, contents, ConfigRun::NoTable) {
        let value = choose|value: mlua::Value| #[trigger]
            may_return(path, contents, value) && table_in(value) is None;
        lemma_returned(path, contents, value);
    }
    if may_run(path, contents, ConfigRun::NoLuau) {
        let root = choose|root: mlua::Table| #[trigger]
            may_return_table(path, contents, root) && may_find(root, "luau"@, Ok(None));
        let value = choose|value: mlua::Value| #[trigger]
            may_return(path, contents, value) && table_in(value) == Some(root);
        lemma_returned(path, contents, value);
    }
    if may_run(path, contents, ConfigRun::BadLuau(detail)) {
        let root = choose|root: mlua::Table| #[trigger]
            may_return_table(path, contents, root) && may_find(root, "luau"@, Err(detail));
        let value = choose|value: mlua::Value| #[trigger]
            may_return(path, contents, value) && table_in(value) == Some(root);
        lemma_returned(path, contents, value);
    }
}

proof fn lemma_returned(path: Seq<char>, contents: Seq<char>, value: mlua::Value)
    requires
        may_return(path, contents, value),
    ensures
        exists|lua: mlua::Lua| #[trigger] returned(path, contents, lua, value),
{
    let lua = choose|lua: mlua::Lua|
        {
            &&& is_sandboxed(lua, true)
            &&& is_limited(lua)
            &&& #[trigger] may_evaluate(lua, path, contents, Ok(value))
        };
    assert(returned(path, contents, lua, value));
}

/// Whether a file may have returned a table with this table under `luau`.
pub open spec fn configured_in(
    path: Seq<char>,
    contents: Seq<char>,
    lua: mlua::Lua,
    value: mlua::Value,
    root: mlua::Table,
    luau: mlua::Table,
) -> bool {
    &&& returned(path, contents, lua, value)
    &&& table_in(value) == Some(root)
    &&& may_find(root, seq!['l', 'u', 'a', 'u'], Ok(Some(luau)))
}

proof fn lemma_configured(path: Seq<char>, contents: Seq<char>, luau: mlua::Table)
    requires
        may_configure(path, contents, luau),
    ensures
        exists|lua: mlua::Lua, value: mlua::Value, root: mlua::Table| #[trigger]
            configured_in(path, contents, lua, value, root, luau),
{
    reveal_strlit("luau");
    assert("luau"@ =~= seq!['l', 'u', 'a', 'u']);
    let root = choose|root: mlua::Table| #[trigger]
        may_return_table(path, contents, root) && may_find(root, "luau"@, Ok(Some(luau)));
    let value = choose|value: mlua::Value| #[trigger]
        may_return(path, contents, value) && table_in(value) == Some(root);
    lemma_returned(path, contents, value);
    let lua = choose|lua: mlua::Lua| #[trigger] returned(path, contents, lua, value);
    assert(configured_in(path, contents, lua, value, root, luau));
}

proof fn lemma_declared(path: Seq<char>, contents: Seq<char>, aliases: mlua::Table)
    requires
        may_declare(path, contents, aliases),
    ensures
        exists|lua: mlua::Lua, value: mlua::Value, root: mlua::Table, luau: mlua::Table|
            #[trigger] declared_in(path, contents, lua, value, root, luau, aliases),
{
    reveal_strlit("luau");
    reveal_strlit("aliases");
    assert("luau"@ =~= seq!['l', 'u', 'a', 'u']);
    assert("aliases"@ =~= seq!['a', 'l', 'i', 'a', 's', 'e', 's']);
    let luau = choose|luau: mlua::Table| #[trigger]
        may_configure(path, contents, luau) && may_find(luau, "aliases"@, Ok(Some(aliases)));
    let root = choose|root: mlua::Table| #[trigger]
        may_return_table(path, contents, root) && may_find(root, "luau"@, Ok(Some(luau)));
    let value = choose|value: mlua::Value| #[trigger]
        may_return(path, contents, value) && table_in(value) == Some(root);
    lemma_returned(path, contents, value);
    let lua = choose|lua: mlua::Lua| #[trigger] returned(path, contents, lua, value);
    assert(declared_in(path, contents, lua, value, root, luau, aliases));
}

} // verus!
