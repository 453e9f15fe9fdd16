//! Where aliases lead.

use vstd::prelude::*;

use crate::config::{
    alias_base, alias_parts, before_separator, chain_text, extended, is_alias_char,
    joined_suffixes, lemma_fewer_left, lower, lower_text, resolved, same_but_case, stepped,
    valid_alias_name, walked, AliasConfigModel, AliasDefinition,
};
use crate::error::Error;
use crate::laws::paths::{
    glued, is_name, lemma_one_piece, names_are_one_component, pieces_make_up_their_text,
    pieces_of_glued_texts,
};
use crate::paths::{components, is_separator, parent_drops_last_component, pieces, PathComponent};

verus! {

/// The components that one step leads to: nothing changes for an empty step and `.`, `..`
/// goes up as far as there is anything to go up from, a name goes down.
pub open spec fn after_step(
    at: Seq<PathComponent<Seq<char>>>,
    step: Seq<char>,
) -> Seq<PathComponent<Seq<char>>> {
    if step.len() == 0 || step == seq!['.'] {
        at
    } else if step == seq!['.', '.'] {
        if at.len() == 0 || at.last() is Root {
            at
        } else {
            at.drop_last()
        }
    } else {
        at.push(PathComponent::Normal(step))
    }
}

/// The components that the steps of a text lead to, `/` or `\` between them.
pub open spec fn after_steps(
    at: Seq<PathComponent<Seq<char>>>,
    text: Seq<char>,
) -> Seq<PathComponent<Seq<char>>> {
    pieces(text, true).fold_left(
        at,
        |at: Seq<PathComponent<Seq<char>>>, step: Seq<char>| after_step(at, step),
    )
}

/// One step from a path leads to the components after that step.
pub proof fn steps_lead_on(path: Seq<char>, step: Seq<char>)
    requires
        !step.contains('/'),
        !step.contains('\\'),
    ensures
        components(stepped(path, step, false)) == after_step(components(path), step),
{
    assert(step.len() == 0 ==> step == Seq::<char>::empty());
    parent_drops_last_component(path);
    if is_name(step) {
        names_are_one_component(path, step);
    }
}

proof fn lemma_walked(path: Seq<char>, steps: Seq<Seq<char>>)
    requires
        forall|i: int|
            0 <= i < steps.len() ==> !(#[trigger] steps[i]).contains('/') && !steps[i].contains(
                '\\',
            ),
    ensures
        components(walked(path, steps, false)) == steps.fold_left(
            components(path),
            |at: Seq<PathComponent<Seq<char>>>, step: Seq<char>| after_step(at, step),
        ),
    decreases steps.len(),
{
    if steps.len() > 0 {
        let before = steps.drop_last();
        assert forall|i: int| 0 <= i < before.len() implies !(#[trigger] before[i]).contains('/')
            && !before[i].contains('\\') by {
            assert(before[i] == steps[i]);
        }
        lemma_walked(path, before);
        assert(steps.last() == steps[steps.len() - 1]);
        steps_lead_on(walked(path, before, false), steps.last());
    }
}

/// A text below a path leads to where its steps lead from there.
pub proof fn texts_lead_on(path: Seq<char>, text: Seq<char>)
    ensures
        components(extended(path, text, false)) == after_steps(components(path), text),
{
    pieces_make_up_their_text(text, true);
    lemma_walked(path, pieces(text, true));
}

/// A text without separators that is a name is one more component.
pub proof fn names_lead_down(at: Seq<PathComponent<Seq<char>>>, name: Seq<char>)
    requires
        is_name(name),
    ensures
        after_steps(at, name) == at.push(PathComponent::Normal(name)),
{
    lemma_one_piece(name, true);
    lemma_fold_one(at, name);
}

proof fn lemma_fold_one(at: Seq<PathComponent<Seq<char>>>, step: Seq<char>)
    ensures
        seq![step].fold_left(
            at,
            |at: Seq<PathComponent<Seq<char>>>, step: Seq<char>| after_step(at, step),
        ) == after_step(at, step),
{
    reveal_with_fuel(Seq::fold_left, 2);
    assert(seq![step].drop_last() == Seq::<Seq<char>>::empty());
}

/// Two texts with a `/` between them lead to where the second leads from where the first
/// leads.
pub proof fn glued_texts_lead_on(
    at: Seq<PathComponent<Seq<char>>>,
    first: Seq<char>,
    second: Seq<char>,
)
    ensures
        after_steps(at, first.push('/') + second) == after_steps(after_steps(at, first), second),
{
    let go = |at: Seq<PathComponent<Seq<char>>>, step: Seq<char>| after_step(at, step);
    let a = pieces(first, true);
    let b = pieces(second, true);
    pieces_of_glued_texts(first, second, true);
    (a + b).lemma_fold_left_split(at, go, a.len() as int);
    assert((a + b).subrange(0, a.len() as int) == a);
    assert((a + b).subrange(a.len() as int, (a + b).len() as int) == b);
}

/// Joined suffixes lead to where the second leads from where the first leads.
pub proof fn joined_suffixes_lead_on(
    at: Seq<PathComponent<Seq<char>>>,
    first: Seq<char>,
    second: Seq<char>,
)
    ensures
        after_steps(at, joined_suffixes(first, second)) == after_steps(
            after_steps(at, first),
            second,
        ),
{
    lemma_no_steps(at);
    lemma_no_steps(after_steps(at, first));
    glued_texts_lead_on(at, first, second);
    if first.len() == 0 {
        assert(first == Seq::<char>::empty());
    }
    if second.len() == 0 {
        assert(second == Seq::<char>::empty());
    }
}

proof fn lemma_no_steps(at: Seq<PathComponent<Seq<char>>>)
    ensures
        after_steps(at, Seq::empty()) == at,
{
    lemma_fold_one(at, Seq::empty());
    assert(pieces(Seq::empty(), true) == seq![Seq::<char>::empty()]);
}

/// Whether a value starts at the home directory.
pub open spec fn starts_at_home(value: Seq<char>) -> bool {
    value.len() >= 2 && value[0] == '~' && (value[1] == '/' || value[1] == '\\')
}

/// The components that the value of an alias leads to: from the home directory on, as it
/// is where it is absolute, or from the directory of its configuration file on.
pub open spec fn value_leads_to(
    alias: AliasDefinition<Seq<char>>,
    home_directory: Option<Seq<char>>,
) -> Seq<PathComponent<Seq<char>>> {
    if starts_at_home(alias.value) && home_directory is Some {
        after_steps(components(home_directory->0), alias.value.skip(2))
    } else if alias.value.len() > 0 && alias.value[0] == '/' {
        components(alias.value)
    } else {
        after_steps(components(alias.base_directory), alias.value)
    }
}

/// The value of an alias starts at the home directory, at the root, or at the directory of
/// the file that declares it.
pub proof fn values_start_where_they_say(
    alias: AliasDefinition<Seq<char>>,
    home_directory: Option<Seq<char>>,
)
    ensures
        components(alias_base(alias, home_directory, false)) == value_leads_to(
            alias,
            home_directory,
        ),
        alias.value.len() > 0 && alias.value[0] == '/' ==> alias_base(alias, home_directory, false)
            == alias.value,
{
    if home_directory is Some {
        texts_lead_on(home_directory->0, alias.value.skip(2));
    }
    texts_lead_on(alias.base_directory, alias.value);
}

/// The components of a row of names.
pub open spec fn named(names: Seq<Seq<char>>) -> Seq<PathComponent<Seq<char>>> {
    names.map_values(|name: Seq<char>| PathComponent::Normal(name))
}

/// Names with `/` between them lead down by these names, and so they do after a `./`.
pub proof fn rows_of_names_lead_down(
    at: Seq<PathComponent<Seq<char>>>,
    names: Seq<Seq<char>>,
)
    requires
        names.len() > 0,
        forall|i: int| 0 <= i < names.len() ==> is_name(#[trigger] names[i]),
    ensures
        after_steps(at, glued(names)) == at + named(names),
        after_steps(at, seq!['.', '/'] + glued(names)) == at + named(names),
    decreases names.len(),
{
    let before = names.drop_last();
    let last = names.last();
    assert(is_name(names[names.len() - 1]));
    if names.len() == 1 {
        names_lead_down(at, last);
        assert(glued(names) == last);
        assert(at.push(PathComponent::Normal(last)) =~= at + named(names));
    } else {
        assert forall|i: int| 0 <= i < before.len() implies is_name(#[trigger] before[i]) by {
            assert(before[i] == names[i]);
        }
        rows_of_names_lead_down(at, before);
        glued_texts_lead_on(at, glued(before), last);
        assert(glued(before).push('/') + last =~= glued(names));
        names_lead_down(at + named(before), last);
        assert((at + named(before)).push(PathComponent::Normal(last)) =~= at + named(names));
    }
    let dot = seq!['.'];
    glued_texts_lead_on(at, dot, glued(names));
    assert(dot.push('/') + glued(names) =~= seq!['.', '/'] + glued(names));
    assert(!dot.contains('/') && !dot.contains('\\')) by {
        if dot.contains('/') {
            let k = choose|k: int| 0 <= k < dot.len() && dot[k] == '/';
        }
        if dot.contains('\\') {
            let k = choose|k: int| 0 <= k < dot.len() && dot[k] == '\\';
        }
    }
    lemma_one_piece(dot, true);
    lemma_fold_one(at, dot);
}

/// A value that is a row of names, with or without a `./` before it, leads below the
/// directory of the file that declares it, by these names and then by those of the rest of
/// the request.
pub proof fn relative_values_go_below_their_directory(
    config: AliasConfigModel,
    home_directory: Option<Seq<char>>,
    name: Seq<char>,
    importer: Seq<char>,
    names: Seq<Seq<char>>,
    more: Seq<Seq<char>>,
)
    requires
        config.aliases.dom().finite(),
        !config.drives,
        config.aliases.contains_key(key_of(name)),
        names.len() > 0,
        more.len() > 0,
        forall|i: int| 0 <= i < names.len() ==> is_name(#[trigger] names[i]),
        forall|i: int| 0 <= i < more.len() ==> is_name(#[trigger] more[i]),
        names[0][0] != '@',
        names[0] != seq!['~'],
        config.aliases[key_of(name)].value == glued(names) || config.aliases[key_of(name)].value
            == seq!['.', '/'] + glued(names),
    ensures
        resolved(config, home_directory, name, glued(more), importer, Seq::empty()) matches Ok(path)
            && components(path) == components(config.aliases[key_of(name)].base_directory) + named(
            names,
        ) + named(more),
{
    let alias = config.aliases[key_of(name)];
    let at = components(alias.base_directory);
    rows_of_names_lead_down(at, names);
    rows_of_names_lead_down(at + named(names), more);
    lemma_glued_starts(names);
    let text = glued(names);
    assert(is_name(names[0]));
    assert(names[0][0] != '/') by {
        assert(names[0].contains(names[0][0]));
    }
    if names[0].len() == 1 {
        assert(names[0] =~= seq![names[0][0]]);
    }
    assert(alias.value[0] == '.' || alias.value[0] == names[0][0]);
    assert(!starts_at_home(alias.value));
    aliases_lead_to_their_value(
        config,
        home_directory,
        name,
        glued(more),
        importer,
        Seq::empty(),
    );
}

/// A row of names starts as its first name does.
proof fn lemma_glued_starts(names: Seq<Seq<char>>)
    requires
        names.len() > 0,
        forall|i: int| 0 <= i < names.len() ==> is_name(#[trigger] names[i]),
    ensures
        glued(names).len() > 0,
        glued(names)[0] == names[0][0],
        glued(names).len() >= 2 && names[0].len() >= 2 ==> glued(names)[1] == names[0][1]
            && glued(names)[1] != '/' && glued(names)[1] != '\\',
    decreases names.len(),
{
    assert(is_name(names[0]));
    if names.len() > 1 {
        let before = names.drop_last();
        assert forall|i: int| 0 <= i < before.len() implies is_name(#[trigger] before[i]) by {
            assert(before[i] == names[i]);
        }
        lemma_glued_starts(before);
        assert(before[0] == names[0]);
        lemma_at_least(before);
    }
    if names[0].len() >= 2 {
        assert(names[0].contains(names[0][1]));
    }
}

proof fn lemma_at_least(names: Seq<Seq<char>>)
    requires
        names.len() > 0,
    ensures
        glued(names).len() >= names[0].len(),
    decreases names.len(),
{
    if names.len() > 1 {
        lemma_at_least(names.drop_last());
        assert(names.drop_last()[0] == names[0]);
    }
}

/// Only the part of ASCII that is upper case letters changes its case.
pub proof fn letters_change_their_case(c: char)
    ensures
        'A' <= c <= 'Z' ==> lower(c) as u32 == c as u32 + 32,
        !('A' <= c <= 'Z') ==> lower(c) == c,
{
}

/// Texts are the same but for case where they are as long and their characters are the
/// same or one is the upper case of the other.
pub proof fn case_is_that_of_letters(a: Seq<char>, b: Seq<char>)
    ensures
        same_but_case(a, b) <==> a.len() == b.len() && forall|i: int|
            0 <= i < a.len() ==> {
                let (x, y) = (#[trigger] a[i], b[i]);
                ||| x == y
                ||| ('A' <= x <= 'Z' && y as u32 == x as u32 + 32)
                ||| ('A' <= y <= 'Z' && x as u32 == y as u32 + 32)
            },
        same_but_case(a, b) <==> lower_text(a) == lower_text(b),
{
    if same_but_case(a, b) {
        assert(lower_text(a).len() == lower_text(b).len());
        assert forall|i: int| 0 <= i < a.len() implies ({
            let (x, y) = (#[trigger] a[i], b[i]);
            ||| x == y
            ||| ('A' <= x <= 'Z' && y as u32 == x as u32 + 32)
            ||| ('A' <= y <= 'Z' && x as u32 == y as u32 + 32)
        }) by {
            assert(lower_text(a)[i] == lower_text(b)[i]);
            letters_change_their_case(a[i]);
            letters_change_their_case(b[i]);
        }
    }
    if a.len() == b.len() && (forall|i: int|
        0 <= i < a.len() ==> {
            let (x, y) = (#[trigger] a[i], b[i]);
            ||| x == y
            ||| ('A' <= x <= 'Z' && y as u32 == x as u32 + 32)
            ||| ('A' <= y <= 'Z' && x as u32 == y as u32 + 32)
        }) {
        assert forall|i: int| 0 <= i < a.len() implies lower_text(a)[i] == lower_text(b)[i] by {
            let (x, y) = (a[i], b[i]);
            letters_change_their_case(x);
            letters_change_their_case(y);
            assert(lower(x) as u32 == lower(y) as u32);
        }
        assert(lower_text(a) == lower_text(b));
    }
}

/// An alias is called by letters, digits, `.`, `-` and `_`.
pub proof fn alias_names_are_plain(name: Seq<char>)
    ensures
        valid_alias_name(name) <==> name.len() > 0 && forall|i: int|
            0 <= i < name.len() ==> {
                let c = #[trigger] name[i];
                ||| 'a' <= c <= 'z'
                ||| 'A' <= c <= 'Z'
                ||| '0' <= c <= '9'
                ||| c == '.'
                ||| c == '-'
                ||| c == '_'
            },
{
    if valid_alias_name(name) {
        assert forall|i: int| 0 <= i < name.len() implies ({
            let c = #[trigger] name[i];
            ||| 'a' <= c <= 'z'
            ||| 'A' <= c <= 'Z'
            ||| '0' <= c <= '9'
            ||| c == '.'
            ||| c == '-'
            ||| c == '_'
        }) by {
            assert(is_alias_char(name[i]));
        }
    }
}

/// Whether a request is an alias and what follows it: nothing, or a separator and the rest.
pub open spec fn is_split(value: Seq<char>, name: Seq<char>, rest: Seq<char>) -> bool {
    &&& !name.contains('/')
    &&& !name.contains('\\')
    &&& {
        ||| value == seq!['@'] + name && rest.len() == 0
        ||| value == seq!['@'] + name + seq!['/'] + rest
        ||| value == seq!['@'] + name + seq!['\\'] + rest
    }
}

/// A request that starts with `@` is split at its first separator, and no other is.
pub proof fn requests_split_at_the_first_separator(value: Seq<char>)
    ensures
        alias_parts(value) is Some <==> value.len() > 0 && value[0] == '@',
        alias_parts(value) matches Some((name, rest)) ==> is_split(value, name, rest),
{
    if value.len() > 0 && value[0] == '@' {
        let body = value.skip(1);
        lemma_before_separator(body);
        let end = before_separator(body) as int;
        let name = body.take(end);
        assert forall|c: char| name.contains(c) implies c != '/' && c != '\\' by {
            let k = choose|k: int| 0 <= k < name.len() && name[k] == c;
            assert(body[k] == c);
        }
        assert(value == seq!['@'] + body);
        if end < body.len() {
            let rest = body.skip(end + 1);
            assert(body == name + seq![body[end]] + rest);
            assert(value == seq!['@'] + name + seq![body[end]] + rest);
        } else {
            assert(name == body);
        }
    }
}

proof fn lemma_before_separator(text: Seq<char>)
    ensures
        before_separator(text) <= text.len(),
        forall|i: int|
            0 <= i < before_separator(text) ==> (#[trigger] text[i]) != '/' && text[i] != '\\',
        before_separator(text) < text.len() ==> is_separator(
            text[before_separator(text) as int],
            true,
        ),
    decreases text.len(),
{
    if text.len() > 0 && !is_separator(text[0], true) {
        let rest = text.drop_first();
        lemma_before_separator(rest);
        assert forall|i: int| 0 <= i < before_separator(text) implies (#[trigger] text[i]) != '/'
            && text[i] != '\\' by {
            if i > 0 {
                assert(rest[i - 1] == text[i]);
            }
        }
    }
}

/// The texts of a row with ` -> ` between them.
pub open spec fn arrowed(row: Seq<Seq<char>>) -> Seq<char>
    decreases row.len(),
{
    if row.len() == 0 {
        seq![]
    } else if row.len() == 1 {
        row[0]
    } else {
        row[0] + seq![' ', '-', '>', ' '] + arrowed(row.drop_first())
    }
}

/// A chain of aliases is written with arrows between its names.
pub proof fn chains_are_arrowed(row: Seq<Seq<char>>)
    ensures
        chain_text(row) == arrowed(row),
    decreases row.len(),
{
    reveal_strlit(" -> ");
    assert(" -> "@ =~= seq![' ', '-', '>', ' ']);
    if row.len() == 0 {
        assert(chain_text(row) == arrowed(row));
    } else if row.len() > 1 {
        let before = row.drop_last();
        let after = row.drop_first();
        chains_are_arrowed(before);
        chains_are_arrowed(after);
        let arrow = seq![' ', '-', '>', ' '];
        if row.len() == 2 {
            assert(before[0] == row[0]);
            assert(after[0] == row.last());
            assert(chain_text(row) == row[0] + arrow + row.last());
        } else {
            assert(before.drop_first() == after.drop_last());
            chains_are_arrowed(before.drop_first());
            let middle = arrowed(before.drop_first());
            assert(before[0] == row[0]);
            assert(after.last() == row.last());
            assert(chain_text(after) == middle + arrow + row.last());
            assert(chain_text(row) == (row[0] + arrow + middle) + arrow + row.last());
            assert(arrowed(row) == row[0] + arrow + (middle + arrow + row.last()));
            assert(chain_text(row) == arrowed(row));
        }
    }
}

/// The name in lower case, as it stands in the declarations.
pub open spec fn key_of(name: Seq<char>) -> Seq<char> {
    name.map_values(
        |c: char|
            if 'A' <= c <= 'Z' {
                (c as u32 + 32) as char
            } else {
                c
            },
    )
}

proof fn lemma_key(name: Seq<char>)
    ensures
        lower_text(name) == key_of(name),
{
    assert(lower_text(name) =~= key_of(name));
}

/// An alias that is declared nowhere leads nowhere.
pub proof fn undeclared_aliases_are_unknown(
    config: AliasConfigModel,
    home_directory: Option<Seq<char>>,
    name: Seq<char>,
    suffix: Seq<char>,
    importer: Seq<char>,
    followed: Seq<Seq<char>>,
)
    requires
        config.aliases.dom().finite(),
        !config.aliases.contains_key(key_of(name)),
        !followed.contains(key_of(name)),
    ensures
        resolved(config, home_directory, name, suffix, importer, followed) == Err::<
            Seq<char>,
            Error<Seq<char>>,
        >(Error::UnknownAlias { name }),
{
    lemma_key(name);
}

/// An alias that leads back to one that was followed is refused, with the way there.
pub proof fn aliases_do_not_go_round(
    config: AliasConfigModel,
    home_directory: Option<Seq<char>>,
    name: Seq<char>,
    suffix: Seq<char>,
    importer: Seq<char>,
    followed: Seq<Seq<char>>,
)
    requires
        config.aliases.dom().finite(),
        followed.contains(key_of(name)),
    ensures
        resolved(config, home_directory, name, suffix, importer, followed) == Err::<
            Seq<char>,
            Error<Seq<char>>,
        >(Error::CyclicAlias { chain: arrowed(followed.push(key_of(name))) }),
{
    lemma_key(name);
    chains_are_arrowed(followed.push(key_of(name)));
}

/// An alias for a path leads to that path and from there on along the rest of the request.
pub proof fn aliases_lead_to_their_value(
    config: AliasConfigModel,
    home_directory: Option<Seq<char>>,
    name: Seq<char>,
    suffix: Seq<char>,
    importer: Seq<char>,
    followed: Seq<Seq<char>>,
)
    requires
        config.aliases.dom().finite(),
        !config.drives,
        config.aliases.contains_key(key_of(name)),
        !followed.contains(key_of(name)),
        ({
            let value = config.aliases[key_of(name)].value;
            value.len() == 0 || value[0] != '@'
        }),
    ensures
        resolved(config, home_directory, name, suffix, importer, followed) matches Ok(path)
            && components(path) == after_steps(
            value_leads_to(config.aliases[key_of(name)], home_directory),
            suffix,
        ),
{
    lemma_key(name);
    let alias = config.aliases[key_of(name)];
    requests_split_at_the_first_separator(alias.value);
    values_start_where_they_say(alias, home_directory);
    texts_lead_on(alias_base(alias, home_directory, false), suffix);
}

/// An alias for `@self` leads to the directory of the script, on along the rest of its
/// value and on along the rest of the request. One for `@game` is refused. One for another
/// alias leads to where that one leads, with both rests.
pub proof fn aliases_of_aliases_lead_on(
    config: AliasConfigModel,
    home_directory: Option<Seq<char>>,
    name: Seq<char>,
    suffix: Seq<char>,
    importer: Seq<char>,
    followed: Seq<Seq<char>>,
    nested: Seq<char>,
    rest: Seq<char>,
)
    requires
        config.aliases.dom().finite(),
        !config.drives,
        config.aliases.contains_key(key_of(name)),
        !followed.contains(key_of(name)),
        is_split(config.aliases[key_of(name)].value, nested, rest),
    ensures
        key_of(nested) == seq!['s', 'e', 'l', 'f'] ==> (resolved(
            config,
            home_directory,
            name,
            suffix,
            importer,
            followed,
        ) matches Ok(path) && components(path) == after_steps(
            after_steps(components(importer), rest),
            suffix,
        )),
        key_of(nested) == seq!['g', 'a', 'm', 'e'] ==> resolved(
            config,
            home_directory,
            name,
            suffix,
            importer,
            followed,
        ) == Err::<Seq<char>, Error<Seq<char>>>(
            Error::NativeAlias { name, source: config.aliases[key_of(name)].source },
        ),
        key_of(nested) != seq!['s', 'e', 'l', 'f'] && key_of(nested) != seq!['g', 'a', 'm', 'e']
            ==> exists|both: Seq<char>|
            {
                &&& resolved(config, home_directory, name, suffix, importer, followed)
                    == #[trigger] resolved(
                    config,
                    home_directory,
                    nested,
                    both,
                    importer,
                    followed.push(key_of(name)),
                )
                &&& forall|at: Seq<PathComponent<Seq<char>>>| #[trigger]
                    after_steps(at, both) == after_steps(after_steps(at, rest), suffix)
            },
{
    lemma_key(name);
    lemma_key(nested);
    let alias = config.aliases[key_of(name)];
    lemma_split_once(alias.value, nested, rest);
    reveal_strlit("self");
    reveal_strlit("game");
    assert("self"@ =~= seq!['s', 'e', 'l', 'f']);
    assert("game"@ =~= seq!['g', 'a', 'm', 'e']);
    assert(lower_text("self"@) =~= seq!['s', 'e', 'l', 'f']);
    assert(lower_text("game"@) =~= seq!['g', 'a', 'm', 'e']);
    lemma_fewer_left(config.aliases.dom(), followed, key_of(name));
    texts_lead_on(importer, rest);
    texts_lead_on(extended(importer, rest, false), suffix);
    assert forall|at: Seq<PathComponent<Seq<char>>>| #[trigger]
        after_steps(at, joined_suffixes(rest, suffix)) == after_steps(
            after_steps(at, rest),
            suffix,
        ) by {
        joined_suffixes_lead_on(at, rest, suffix);
    }
    let both = joined_suffixes(rest, suffix);
    assert(key_of(nested) != "self"@ && key_of(nested) != "game"@ ==> resolved(
        config,
        home_directory,
        name,
        suffix,
        importer,
        followed,
    ) == resolved(config, home_directory, nested, both, importer, followed.push(key_of(name))));
}

/// A value is split in one way only.
pub proof fn lemma_split_once(value: Seq<char>, name: Seq<char>, rest: Seq<char>)
    requires
        is_split(value, name, rest),
    ensures
        alias_parts(value) == Some((name, rest)),
{
    requests_split_at_the_first_separator(value);
    assert(value[0] == '@');
    let (found, other) = alias_parts(value)->0;
    assert(is_split(value, found, other));
    let body = value.skip(1);
    assert(forall|i: int| 0 <= i < name.len() ==> body[i] == name[i]);
    assert(forall|i: int| 0 <= i < found.len() ==> body[i] == found[i]);
    if name.len() < found.len() {
        let k = name.len() as int;
        assert(value[k + 1] == '/' || value[k + 1] == '\\');
        assert(found[k] == body[k]);
        assert(found.contains(found[k]));
    }
    if found.len() < name.len() {
        let k = found.len() as int;
        assert(value[k + 1] == '/' || value[k + 1] == '\\');
        assert(name[k] == body[k]);
        assert(name.contains(name[k]));
    }
    assert(name == found);
    if value.len() == 1 + name.len() {
        assert(rest == other);
    } else {
        assert(rest == value.skip(name.len() as int + 2));
        assert(other == value.skip(name.len() as int + 2));
    }
}

/// What has been followed before does not matter to where an alias leads, as long as it
/// leads somewhere.
pub proof fn aliases_lead_where_they_lead_from_the_start(
    config: AliasConfigModel,
    home_directory: Option<Seq<char>>,
    name: Seq<char>,
    suffix: Seq<char>,
    importer: Seq<char>,
    followed: Seq<Seq<char>>,
    fewer: Seq<Seq<char>>,
)
    requires
        config.aliases.dom().finite(),
        forall|key: Seq<char>| #[trigger] fewer.contains(key) ==> followed.contains(key),
        resolved(config, home_directory, name, suffix, importer, followed) is Ok,
    ensures
        resolved(config, home_directory, name, suffix, importer, fewer) == resolved(
            config,
            home_directory,
            name,
            suffix,
            importer,
            followed,
        ),
    decreases config.aliases.dom().difference(followed.to_set()).len(),
{
    let key = lower_text(name);
    assert(!fewer.contains(key));
    lemma_fewer_left(config.aliases.dom(), followed, key);
    match alias_parts(config.aliases[key].value) {
        Some((nested, rest)) => if !same_but_case(nested, "self"@) && !same_but_case(
            nested,
            "game"@,
        ) {
            assert forall|k: Seq<char>| #[trigger]
                fewer.push(key).contains(k) implies followed.push(key).contains(k) by {
                let i = choose|i: int| 0 <= i < fewer.push(key).len() && fewer.push(key)[i] == k;
                if i < fewer.len() {
                    assert(fewer[i] == k);
                    assert(fewer.contains(k));
                    let j = choose|j: int| 0 <= j < followed.len() && followed[j] == k;
                    assert(followed.push(key)[j] == k);
                } else {
                    assert(followed.push(key)[followed.len() as int] == key);
                }
            }
            aliases_lead_where_they_lead_from_the_start(
                config,
                home_directory,
                nested,
                joined_suffixes(rest, suffix),
                importer,
                followed.push(key),
                fewer.push(key),
            );
            lemma_fewer_left(config.aliases.dom(), fewer, key);
        },
        None => {},
    }
}

} // verus!
