//! What becomes of the requests of a script.

use vstd::prelude::*;

use crate::alias_cache::{cached_config, CachedModel};
use crate::config::{directory_of, loaded, lower_text, resolved, AliasConfigModel};
use crate::edits::{by_place, in_order, spliced, Edit};
use crate::error::Error;
use crate::files::{metadata_of, FileKind, FilesModel};
use crate::laws::aliases::{is_split, key_of, requests_split_at_the_first_separator};
use crate::laws::configurations::known_kind;
use crate::laws::routes::{expressions_are_routes, leads_to, route};
use crate::luau::{requests_lie_apart, source_candidate, source_requests, RequireCall};
use crate::module_index::{source_of, target_of_module, IndexedModel, TargetModel};
use crate::paths::{components, is_luau_file, PathComponent};
use crate::rewrite::{
    mentions, need_config, needs_config, planned, request_edit, reserved_alias, resolved_request,
    rewriting_keeps_the_rest_of_the_source, rewritten, source_text, with_plan, with_requests,
    with_source, PlanModel, SceneModel, SourceRun,
};
use crate::snapshot::{PropertyValue, SnapshotModel};

verus! {

/// Whether a name is `self` or `game`, whatever its case.
pub open spec fn is_built_in(name: Seq<char>) -> bool {
    key_of(name) == seq!['s', 'e', 'l', 'f'] || key_of(name) == seq!['g', 'a', 'm', 'e']
}

/// Whether a request starts with an alias that a configuration declares.
pub open spec fn is_alias_request(request: Seq<char>) -> bool {
    exists|name: Seq<char>, rest: Seq<char>| #[trigger]
        is_split(request, name, rest) && !is_built_in(name)
}

/// Whether a request is left to the Luau runtime: it is no alias, or one without a name, or
/// `@self` or `@game`.
pub open spec fn is_left(request: Seq<char>) -> bool {
    !exists|name: Seq<char>, rest: Seq<char>| #[trigger]
        is_split(request, name, rest) && name.len() > 0 && !is_built_in(name)
}

pub proof fn lemma_built_in(name: Seq<char>)
    ensures
        reserved_alias(name) == is_built_in(name),
{
    reveal_strlit("self");
    reveal_strlit("game");
    assert(lower_text(name) =~= key_of(name));
    assert(lower_text("self"@) =~= seq!['s', 'e', 'l', 'f']);
    assert(lower_text("game"@) =~= seq!['g', 'a', 'm', 'e']);
}

/// A request is split in one way.
pub proof fn requests_are_split_once(
    request: Seq<char>,
    name: Seq<char>,
    rest: Seq<char>,
    other: Seq<char>,
    remainder: Seq<char>,
)
    requires
        is_split(request, name, rest),
        is_split(request, other, remainder),
    ensures
        name == other,
        rest == remainder,
{
    assert(request.len() >= 1 + name.len() && request.len() >= 1 + other.len());
    if name.len() < other.len() {
        let k = name.len() as int;
        assert(request[k + 1] == '/' || request[k + 1] == '\\');
        assert(other[k] == request[k + 1]);
        assert(other.contains(other[k]));
    }
    if other.len() < name.len() {
        let k = other.len() as int;
        assert(request[k + 1] == '/' || request[k + 1] == '\\');
        assert(name[k] == request[k + 1]);
        assert(name.contains(name[k]));
    }
    assert forall|i: int| 0 <= i < name.len() implies name[i] == other[i] by {
        assert(name[i] == request[i + 1]);
        assert(other[i] == request[i + 1]);
    }
    assert(name =~= other);
    if request.len() > name.len() + 1 {
        assert(rest =~= request.skip(name.len() as int + 2));
        assert(remainder =~= request.skip(name.len() as int + 2));
    } else {
        assert(rest =~= remainder);
    }
}

/// A request that starts with a declared alias leads to where the alias leads; any other is
/// left as it is.
pub proof fn requests_are_resolved_or_left(
    config: AliasConfigModel,
    home_directory: Option<Seq<char>>,
    request: Seq<char>,
    directory: Seq<char>,
)
    ensures
        is_left(request) ==> resolved_request(config, home_directory, request, directory) == Ok::<
            Option<Seq<char>>,
            Error<Seq<char>>,
        >(None),
        forall|name: Seq<char>, rest: Seq<char>| #[trigger]
            is_split(request, name, rest) && name.len() > 0 && !is_built_in(name)
                ==> resolved_request(config, home_directory, request, directory) == match resolved(
                config,
                home_directory,
                name,
                rest,
                directory,
                Seq::empty(),
            ) {
                Ok(path) => Ok(Some(path)),
                Err(e) => Err(e),
            },
{
    requests_split_at_the_first_separator(request);
    if request.len() > 0 && request[0] == '@' {
        let (found, remainder) = crate::config::alias_parts(request)->0;
        lemma_built_in(found);
        assert forall|name: Seq<char>, rest: Seq<char>| #[trigger]
            is_split(request, name, rest) implies name == found && rest == remainder by {
            requests_are_split_once(request, name, rest, found, remainder);
        }
        assert(is_split(request, found, remainder));
    } else {
        assert forall|name: Seq<char>, rest: Seq<char>| #[trigger]
            is_split(request, name, rest) implies false by {
            assert(request[0] == '@');
        }
    }
}

/// Whether an edit takes the place of the literal of a request, with the way from the script
/// to an instance that stands for the module of the request, in parentheses of its own where
/// the literal has none.
pub open spec fn replaces(
    scene: SceneModel,
    call: RequireCall<Seq<char>>,
    edit: Edit<Seq<char>>,
    target: TargetModel,
    module: Seq<char>,
    ups: nat,
    names: Seq<Seq<char>>,
) -> bool {
    &&& resolved_request(
        scene.config,
        scene.files.home_directory,
        call.request,
        scene.directory,
    ) == Ok::<_, Error<Seq<char>>>(Some(module))
    &&& target_of_module(scene.index, scene.files, module, scene.importer) == Ok::<
        _,
        Error<Seq<char>>,
    >(Some(target))
    &&& leads_to(scene.importer, ups, names, target.instance_path)
    &&& edit.range == call.source_range
    &&& edit.replacement == if call.bare_string {
        seq!['('] + route(ups, names) + seq![')']
    } else {
        route(ups, names)
    }
}

/// What one request comes to. Where it leads to an instance, the edit takes the place of
/// its literal, with the way from the script to that instance, in parentheses of its own
/// where the literal has none. An edit comes only from a request that is not left.
pub proof fn edits_lead_to_their_instance(scene: SceneModel, call: RequireCall<Seq<char>>)
    ensures
        is_left(call.request) ==> request_edit(scene, call) == Ok::<
            Option<(Edit<Seq<char>>, TargetModel)>,
            Error<Seq<char>>,
        >(None),
        request_edit(scene, call) == Ok::<
            Option<(Edit<Seq<char>>, TargetModel)>,
            Error<Seq<char>>,
        >(None) ==> is_left(call.request),
        request_edit(scene, call) matches Ok(Some((edit, target))) ==> exists|
            module: Seq<char>,
            ups: nat,
            names: Seq<Seq<char>>,
        | #[trigger]
            replaces(scene, call, edit, target, module, ups, names),
{
    requests_are_resolved_or_left(
        scene.config,
        scene.files.home_directory,
        call.request,
        scene.directory,
    );
    reveal_strlit("(");
    reveal_strlit(")");
    assert("("@ =~= seq!['(']);
    assert(")"@ =~= seq![')']);
    match resolved_request(
        scene.config,
        scene.files.home_directory,
        call.request,
        scene.directory,
    ) {
        Ok(Some(module)) => match target_of_module(
            scene.index,
            scene.files,
            module,
            scene.importer,
        ) {
            Ok(Some(target)) => {
                expressions_are_routes(scene.importer, target.instance_path);
                if request_edit(scene, call) is Ok {
                    let (ups, names) = choose|ups: nat, names: Seq<Seq<char>>|
                        #![trigger leads_to(scene.importer, ups, names, target.instance_path)]
                        leads_to(scene.importer, ups, names, target.instance_path)
                            && crate::expression::relative_expression(
                            scene.importer,
                            target.instance_path,
                        ) == Ok::<_, Error<Seq<char>>>(route(ups, names));
                    let (edit, found) = request_edit(scene, call)->Ok_0->Some_0;
                    assert(replaces(scene, call, edit, found, module, ups, names));
                }
            },
            _ => {},
        },
        _ => {},
    }
}

/// A request whose module stands nowhere in the tree is an error that says so, and so is
/// one to an instance of another tree.
pub proof fn requests_without_an_instance_are_refused(
    scene: SceneModel,
    call: RequireCall<Seq<char>>,
    module: Seq<char>,
)
    requires
        resolved_request(
            scene.config,
            scene.files.home_directory,
            call.request,
            scene.directory,
        ) == Ok::<_, Error<Seq<char>>>(Some(module)),
    ensures
        target_of_module(scene.index, scene.files, module, scene.importer) == Ok::<
            Option<TargetModel>,
            Error<Seq<char>>,
        >(None) ==> request_edit(scene, call) == Err::<
            Option<(Edit<Seq<char>>, TargetModel)>,
            Error<Seq<char>>,
        >(
            Error::MissingModule {
                request: call.request,
                source_path: scene.source_path,
                module,
            },
        ),
        target_of_module(scene.index, scene.files, module, scene.importer) matches Err(e)
            ==> request_edit(scene, call) == Err::<
            Option<(Edit<Seq<char>>, TargetModel)>,
            Error<Seq<char>>,
        >(e),
        target_of_module(scene.index, scene.files, module, scene.importer) matches Ok(Some(target))
            ==> {
            let shared = scene.importer.len() > 0 && target.instance_path.len() > 0
                && scene.importer[0] == target.instance_path[0];
            &&& shared ==> request_edit(scene, call) is Ok
            &&& !shared ==> request_edit(scene, call) == Err::<
                Option<(Edit<Seq<char>>, TargetModel)>,
                Error<Seq<char>>,
            >(Error::NoSharedRoot)
        },
{
    match target_of_module(scene.index, scene.files, module, scene.importer) {
        Ok(Some(target)) => expressions_are_routes(scene.importer, target.instance_path),
        _ => {},
    }
}

/// Whether a request gets an edit.
pub open spec fn gets_edit(scene: SceneModel, call: RequireCall<Seq<char>>) -> bool {
    request_edit(scene, call) matches Ok(Some(_))
}

/// The calls that get an edit, in order.
pub open spec fn edited_calls(
    scene: SceneModel,
    calls: Seq<RequireCall<Seq<char>>>,
) -> Seq<RequireCall<Seq<char>>> {
    calls.filter(|call: RequireCall<Seq<char>>| gets_edit(scene, call))
}

/// The edit of a call, where it gets one.
pub open spec fn edit_of(scene: SceneModel, call: RequireCall<Seq<char>>) -> Edit<Seq<char>> {
    match request_edit(scene, call) {
        Ok(Some((edit, _))) => edit,
        _ => arbitrary(),
    }
}

/// The paths that the edit of a call depends on, where it gets one.
pub open spec fn paths_of(scene: SceneModel, call: RequireCall<Seq<char>>) -> Seq<Seq<char>> {
    match request_edit(scene, call) {
        Ok(Some((_, target))) => seq![target.source_path] + target.relevant_paths,
        _ => arbitrary(),
    }
}

/// There is a plan where no request fails; else the first failure is that of the plan.
pub proof fn the_first_failure_ends_a_plan(scene: SceneModel, calls: Seq<RequireCall<Seq<char>>>)
    ensures
        planned(scene, calls) is Ok <==> forall|j: int|
            0 <= j < calls.len() ==> request_edit(scene, #[trigger] calls[j]) is Ok,
        forall|j: int| #[trigger]
            is_first_failure(scene, calls, j) ==> planned(scene, calls) == Err::<
                PlanModel,
                Error<Seq<char>>,
            >(request_edit(scene, calls[j])->Err_0),
    decreases calls.len(),
{
    if calls.len() > 0 {
        let before = calls.drop_last();
        let last = calls.len() - 1;
        the_first_failure_ends_a_plan(scene, before);
        assert(forall|j: int| 0 <= j < before.len() ==> before[j] == calls[j]);
        assert(calls.last() == calls[last]);
        if planned(scene, before) is Ok {
            assert forall|j: int| 0 <= j < last implies request_edit(
                scene,
                #[trigger] calls[j],
            ) is Ok by {
                assert(before[j] == calls[j]);
            }
        } else {
            let j = choose|j: int|
                0 <= j < before.len() && request_edit(scene, #[trigger] before[j]) is Err;
            assert(request_edit(scene, calls[j]) is Err);
        }
        assert forall|j: int| #[trigger] is_first_failure(scene, calls, j) implies planned(
            scene,
            calls,
        ) == Err::<PlanModel, Error<Seq<char>>>(request_edit(scene, calls[j])->Err_0) by {
            if j < last {
                assert(before[j] == calls[j]);
                assert forall|k: int| 0 <= k < j implies request_edit(
                    scene,
                    #[trigger] before[k],
                ) is Ok by {
                    assert(before[k] == calls[k]);
                }
                assert(is_first_failure(scene, before, j));
            } else {
                assert forall|k: int| 0 <= k < before.len() implies request_edit(
                    scene,
                    #[trigger] before[k],
                ) is Ok by {
                    assert(before[k] == calls[k]);
                }
            }
        }
    }
}

/// Whether request number `j` is the first that fails.
pub open spec fn is_first_failure(
    scene: SceneModel,
    calls: Seq<RequireCall<Seq<char>>>,
    j: int,
) -> bool {
    &&& 0 <= j < calls.len()
    &&& request_edit(scene, calls[j]) is Err
    &&& forall|k: int| 0 <= k < j ==> request_edit(scene, #[trigger] calls[k]) is Ok
}

/// A plan holds the edit of every request that gets one, in order, and the paths that each
/// of them depends on.
pub proof fn plans_are_complete(scene: SceneModel, calls: Seq<RequireCall<Seq<char>>>)
    ensures
        planned(scene, calls) matches Ok(plan) ==> {
            &&& plan.edits == edited_calls(scene, calls).map_values(
                |call: RequireCall<Seq<char>>| edit_of(scene, call),
            )
            &&& plan.relevant_paths == edited_calls(scene, calls).map_values(
                |call: RequireCall<Seq<char>>| paths_of(scene, call),
            ).flatten()
        },
    decreases calls.len(),
{
    let wanted = |call: RequireCall<Seq<char>>| gets_edit(scene, call);
    let to_edit = |call: RequireCall<Seq<char>>| edit_of(scene, call);
    let to_paths = |call: RequireCall<Seq<char>>| paths_of(scene, call);
    if calls.len() == 0 {
        reveal(Seq::filter);
        let none = edited_calls(scene, calls);
        assert(none =~= Seq::<RequireCall<Seq<char>>>::empty());
        assert(none.map_values(to_edit) =~= Seq::<Edit<Seq<char>>>::empty());
        assert(none.map_values(to_paths) =~= Seq::<Seq<Seq<char>>>::empty());
    } else if planned(scene, calls) is Ok {
        let before = calls.drop_last();
        let call = calls.last();
        plans_are_complete(scene, before);
        assert(calls == before.push(call));
        before.lemma_filter_push(call, wanted);
        let earlier = edited_calls(scene, before);
        if gets_edit(scene, call) {
            assert(edited_calls(scene, calls) == earlier.push(call));
            assert(earlier.push(call).map_values(to_edit) =~= earlier.map_values(to_edit).push(
                edit_of(scene, call),
            ));
            assert(earlier.push(call).map_values(to_paths) =~= earlier.map_values(to_paths).push(
                paths_of(scene, call),
            ));
            earlier.map_values(to_paths).lemma_flatten_push(paths_of(scene, call));
            let plan = planned(scene, before)->Ok_0;
            let (_, target) = request_edit(scene, call)->Ok_0->Some_0;
            assert(plan.relevant_paths.push(target.source_path) + target.relevant_paths
                =~= plan.relevant_paths + paths_of(scene, call));
        } else {
            assert(edited_calls(scene, calls) == earlier);
        }
    }
}

/// Every request that is not left gets its edit, and the module that it leads to is among
/// the paths that matter. No other request gets one.
pub proof fn every_alias_request_gets_its_edit(
    scene: SceneModel,
    calls: Seq<RequireCall<Seq<char>>>,
    j: int,
)
    requires
        0 <= j < calls.len(),
    ensures
        planned(scene, calls) matches Ok(plan) ==> {
            &&& !is_left(calls[j].request) ==> (request_edit(scene, calls[j]) matches Ok(
                Some((edit, target)),
            ) && plan.edits.contains(edit) && plan.relevant_paths.contains(target.source_path)
                && forall|path: Seq<char>| #[trigger]
                target.relevant_paths.contains(path) ==> plan.relevant_paths.contains(path))
            &&& plan.edits.len() == calls.filter(
                |call: RequireCall<Seq<char>>| !is_left(call.request),
            ).len()
        },
{
    plans_are_complete(scene, calls);
    the_first_failure_ends_a_plan(scene, calls);
    edits_lead_to_their_instance(scene, calls[j]);
    if planned(scene, calls) is Ok {
        let plan = planned(scene, calls)->Ok_0;
        let wanted = |call: RequireCall<Seq<char>>| gets_edit(scene, call);
        let kept = edited_calls(scene, calls);
        let to_edit = |call: RequireCall<Seq<char>>| edit_of(scene, call);
        let to_paths = |call: RequireCall<Seq<char>>| paths_of(scene, call);
        if !is_left(calls[j].request) {
            assert(request_edit(scene, calls[j]) is Ok);
            calls.lemma_filter_contains(wanted, j);
            let k = choose|k: int| 0 <= k < kept.len() && kept[k] == calls[j];
            let (edit, target) = request_edit(scene, calls[j])->Ok_0->Some_0;
            assert(kept.map_values(to_edit)[k] == edit);
            let rows = kept.map_values(to_paths);
            assert(rows[k] == paths_of(scene, calls[j]));
            assert(rows[k][0] == target.source_path);
            assert(rows[k].contains(target.source_path));
            lemma_flattened(rows, k, target.source_path);
            assert forall|path: Seq<char>| #[trigger] target.relevant_paths.contains(path) implies
                plan.relevant_paths.contains(path) by {
                let i = choose|i: int|
                    0 <= i < target.relevant_paths.len() && target.relevant_paths[i] == path;
                assert(rows[k][i + 1] == path);
                assert(rows[k].contains(path));
                lemma_flattened(rows, k, path);
            }
        }
        assert forall|i: int| 0 <= i < calls.len() implies wanted(#[trigger] calls[i]) == (|
            call: RequireCall<Seq<char>>,
        | !is_left(call.request))(calls[i]) by {
            edits_lead_to_their_instance(scene, calls[i]);
            assert(request_edit(scene, calls[i]) is Ok);
        }
        lemma_same_filter(
            calls,
            wanted,
            |call: RequireCall<Seq<char>>| !is_left(call.request),
        );
    }
}

proof fn lemma_same_filter<T>(row: Seq<T>, a: spec_fn(T) -> bool, b: spec_fn(T) -> bool)
    requires
        forall|i: int| 0 <= i < row.len() ==> a(#[trigger] row[i]) == b(row[i]),
    ensures
        row.filter(a) == row.filter(b),
    decreases row.len(),
{
    reveal(Seq::filter);
    if row.len() > 0 {
        let before = row.drop_last();
        assert forall|i: int| 0 <= i < before.len() implies a(#[trigger] before[i]) == b(
            before[i],
        ) by {
            assert(before[i] == row[i]);
        }
        lemma_same_filter(before, a, b);
        assert(a(row[row.len() - 1]) == b(row[row.len() - 1]));
    }
}

/// What one of several rows holds, all of them together hold.
pub proof fn lemma_flattened<T>(rows: Seq<Seq<T>>, k: int, item: T)
    requires
        0 <= k < rows.len(),
        rows[k].contains(item),
    ensures
        rows.flatten().contains(item),
    decreases rows.len(),
{
    let before = rows.drop_last();
    let last = rows.last();
    assert(rows == before.push(last));
    before.lemma_flatten_push(last);
    let all = before.flatten() + last;
    if k < before.len() {
        assert(before[k] == rows[k]);
        lemma_flattened(before, k, item);
        let i = choose|i: int| 0 <= i < before.flatten().len() && before.flatten()[i] == item;
        assert(all[i] == item);
    } else {
        let i = choose|i: int| 0 <= i < last.len() && last[i] == item;
        assert(all[before.flatten().len() + i] == item);
    }
}

/// In the source of a rewritten script the literal of every request that is not left is
/// replaced by the way to its instance, and everything else is as it was.
pub proof fn every_alias_request_is_rewritten(
    scene: SceneModel,
    snapshot: SnapshotModel,
    source: Seq<char>,
    calls: Seq<RequireCall<Seq<char>>>,
)
    requires
        source_text(snapshot) == Some(source),
        requests_lie_apart(source, calls),
    ensures
        rewritten(scene, snapshot, source, calls) matches Ok(node) ==> exists|
            edits: Seq<Edit<Seq<char>>>,
        |
            {
                &&& #[trigger] in_order(source, edits)
                &&& source_text(node) == Some(spliced(source, edits))
                &&& edits.len() == calls.filter(
                    |call: RequireCall<Seq<char>>| !is_left(call.request),
                ).len()
                &&& forall|j: int|
                    0 <= j < calls.len() && !is_left((#[trigger] calls[j]).request)
                        ==> edits.contains(edit_of(scene, calls[j]))
            },
{
    if rewritten(scene, snapshot, source, calls) is Ok {
        let plan = planned(scene, calls)->Ok_0;
        rewriting_keeps_the_rest_of_the_source(scene, snapshot, source, calls, plan);
        let edits = by_place(plan.edits);
        assert(edits.len() == plan.edits.len()) by {
            broadcast use vstd::seq_lib::group_to_multiset_ensures;

            assert(edits.to_multiset().len() == plan.edits.to_multiset().len());
        }
        plans_are_complete(scene, calls);
        if calls.len() > 0 {
            every_alias_request_gets_its_edit(scene, calls, 0);
        } else {
            reveal(Seq::filter);
        }
        assert forall|j: int|
            0 <= j < calls.len() && !is_left((#[trigger] calls[j]).request) implies edits.contains(
            edit_of(scene, calls[j]),
        ) by {
            broadcast use vstd::seq_lib::group_to_multiset_ensures;

            every_alias_request_gets_its_edit(scene, calls, j);
            let edit = edit_of(scene, calls[j]);
            assert(plan.edits.contains(edit));
            assert(plan.edits.to_multiset().count(edit) > 0);
            assert(edits.to_multiset().count(edit) > 0);
        }
        assert(in_order(source, edits));
    }
}

/// The source of an instance is its `Source` property, where that is a text.
pub proof fn sources_are_texts(snapshot: SnapshotModel)
    ensures
        ({
            let name = seq!['S', 'o', 'u', 'r', 'c', 'e'];
            source_text(snapshot) == if snapshot.properties.contains_key(name) {
                match snapshot.properties[name] {
                    PropertyValue::Text(text) => Some(text),
                    PropertyValue::Other(_) => None,
                }
            } else {
                None
            }
        }),
{
    reveal_strlit("Source");
    assert("Source"@ =~= seq!['S', 'o', 'u', 'r', 'c', 'e']);
}

/// A text mentions a word where the word stands somewhere in it.
pub proof fn words_stand_in_texts(text: Seq<char>, word: Seq<char>)
    ensures
        mentions(text, word) <==> exists|before: Seq<char>, after: Seq<char>|
            text == #[trigger] (before + word + after),
{
    if mentions(text, word) {
        let i = choose|i: int|
            0 <= i <= text.len() - word.len() && #[trigger] text.subrange(i, i + word.len())
                == word;
        let before = text.take(i);
        let after = text.skip(i + word.len());
        assert(text == before + word + after);
    }
    if exists|before: Seq<char>, after: Seq<char>| text == #[trigger] (before + word + after) {
        let (before, after) = choose|before: Seq<char>, after: Seq<char>|
            text == #[trigger] (before + word + after);
        let i = before.len() as int;
        assert(text.subrange(i, i + word.len()) == word);
    }
}

/// The configuration that was loaded first for a directory is the one that counts.
pub proof fn the_first_loaded_configuration_counts(
    cache: Seq<CachedModel>,
    directory: Seq<PathComponent<Seq<char>>>,
)
    ensures
        cached_config(cache, directory) is None <==> forall|i: int|
            0 <= i < cache.len() ==> (#[trigger] cache[i]).directory != directory,
        cached_config(cache, directory) matches Some(config) ==> exists|i: int|
            {
                &&& 0 <= i < cache.len()
                &&& (#[trigger] cache[i]).directory == directory
                &&& cache[i].config == config
                &&& forall|j: int| 0 <= j < i ==> (#[trigger] cache[j]).directory != directory
            },
    decreases cache.len(),
{
    if cache.len() > 0 && cache[0].directory != directory {
        let rest = cache.drop_first();
        the_first_loaded_configuration_counts(rest, directory);
        assert(forall|i: int| 0 <= i < rest.len() ==> rest[i] == cache[i + 1]);
        if cached_config(cache, directory) is None {
            assert forall|i: int| 0 <= i < cache.len() implies (#[trigger] cache[i]).directory
                != directory by {
                if i > 0 {
                    assert(rest[i - 1] == cache[i]);
                }
            }
        } else {
            let i = choose|i: int|
                {
                    &&& 0 <= i < rest.len()
                    &&& (#[trigger] rest[i]).directory == directory
                    &&& rest[i].config == cached_config(rest, directory)->0
                    &&& forall|j: int| 0 <= j < i ==> (#[trigger] rest[j]).directory != directory
                };
            assert(cache[i + 1] == rest[i]);
            assert forall|j: int| 0 <= j < i + 1 implies (#[trigger] cache[j]).directory
                != directory by {
                if j > 0 {
                    assert(rest[j - 1] == cache[j]);
                }
            }
        }
    }
}

/// A script whose requests are all left, or are aliases without a name, needs nothing;
/// any other is rewritten with the configuration of its directory, which is loaded where it
/// was not loaded before and kept.
pub proof fn configurations_are_loaded_once(
    files: FilesModel,
    index: Seq<IndexedModel>,
    configs: Seq<CachedModel>,
    snapshot: SnapshotModel,
    source: Seq<char>,
    source_path: Seq<char>,
    importer: Seq<Seq<char>>,
    calls: Seq<RequireCall<Seq<char>>>,
)
    ensures
        ({
            let run = with_requests(
                files,
                index,
                configs,
                snapshot,
                source,
                source_path,
                importer,
                calls,
            );
            let asks = exists|j: int|
                0 <= j < calls.len() && is_alias_request((#[trigger] calls[j]).request);
            &&& !asks ==> run == (SourceRun { configs, result: Ok(snapshot) })
            &&& asks ==> match directory_of(files, source_path) {
                Err(e) => run == (SourceRun { configs, result: Err(e) }),
                Ok(directory) => {
                    let key = components(directory);
                    match cached_config(configs, key) {
                        Some(config) => run.configs == configs && run.result == rewritten(
                            SceneModel { files, index, config, directory, source_path, importer },
                            snapshot,
                            source,
                            calls,
                        ),
                        None => match loaded(files, source_path) {
                            Err(e) => run == (SourceRun { configs, result: Err(e) }),
                            Ok(config) => run.configs == configs.push(
                                CachedModel { directory: key, config },
                            ) && run.result == rewritten(
                                SceneModel {
                                    files,
                                    index,
                                    config,
                                    directory,
                                    source_path,
                                    importer,
                                },
                                snapshot,
                                source,
                                calls,
                            ),
                        },
                    }
                },
            }
        }),
{
    assert forall|j: int| 0 <= j < calls.len() implies needs_config(#[trigger] calls[j])
        == is_alias_request(calls[j].request) by {
        lemma_needs_config(calls[j]);
    }
    let asks = exists|j: int|
        0 <= j < calls.len() && is_alias_request((#[trigger] calls[j]).request);
    if asks {
        let j = choose|j: int|
            0 <= j < calls.len() && is_alias_request((#[trigger] calls[j]).request);
        assert(needs_config(calls[j]));
        assert(need_config(calls));
    } else {
        assert(!need_config(calls));
    }
}

proof fn lemma_needs_config(call: RequireCall<Seq<char>>)
    ensures
        needs_config(call) == is_alias_request(call.request),
{
    let request = call.request;
    requests_split_at_the_first_separator(request);
    if request.len() > 0 && request[0] == '@' {
        let (found, remainder) = crate::config::alias_parts(request)->0;
        lemma_built_in(found);
        assert(is_split(request, found, remainder));
        assert forall|name: Seq<char>, rest: Seq<char>| #[trigger]
            is_split(request, name, rest) implies name == found by {
            requests_are_split_once(request, name, rest, found, remainder);
        }
    } else {
        assert forall|name: Seq<char>, rest: Seq<char>| #[trigger]
            is_split(request, name, rest) implies false by {
            assert(request[0] == '@');
        }
    }
}

/// Whether a source is a module: a directory, or a file with the extension of one.
pub open spec fn is_module(files: FilesModel, path: Seq<char>) -> bool {
    known_kind(files, path) == Some(Some(FileKind::Directory)) || is_luau_file(path)
}

/// A script that comes from a module is rewritten; any other instance is left as it is.
pub proof fn scripts_of_modules_are_rewritten(
    files: FilesModel,
    index: Seq<IndexedModel>,
    configs: Seq<CachedModel>,
    snapshot: SnapshotModel,
    instance_path: Seq<Seq<char>>,
)
    ensures
        ({
            let run = with_source(files, index, configs, snapshot, instance_path);
            match (source_text(snapshot), source_of(snapshot.metadata)) {
                (Some(source), Some(path)) => match known_kind(files, path) {
                    None => run.configs == configs && run.result == Err::<
                        SnapshotModel,
                        Error<Seq<char>>,
                    >(metadata_of(files, path)->Err_0),
                    Some(_) => if !is_module(files, path) || !mentions(
                        source,
                        seq!['r', 'e', 'q', 'u', 'i', 'r', 'e'],
                    ) {
                        run == (SourceRun { configs, result: Ok(snapshot) })
                    } else {
                        match (source_candidate(source), source_requests(source)) {
                            (Err(e), _) => run == (SourceRun { configs, result: Err(e) }),
                            (Ok(false), _) => run == (SourceRun { configs, result: Ok(snapshot) }),
                            (Ok(true), Err(e)) => run == (SourceRun { configs, result: Err(e) }),
                            (Ok(true), Ok(calls)) => run == with_requests(
                                files,
                                index,
                                configs,
                                snapshot,
                                source,
                                path,
                                instance_path,
                                calls,
                            ),
                        }
                    },
                },
                _ => run == (SourceRun { configs, result: Ok(snapshot) }),
            }
        }),
{
    reveal_strlit("require");
    assert("require"@ =~= seq!['r', 'e', 'q', 'u', 'i', 'r', 'e']);
}

/// A script without edits stays as it is, one with edits is changed.
pub proof fn plans_without_edits_change_nothing(
    snapshot: SnapshotModel,
    source: Seq<char>,
    plan: PlanModel,
    config: AliasConfigModel,
)
    ensures
        plan.edits.len() == 0 ==> with_plan(snapshot, source, plan, config) == Ok::<
            SnapshotModel,
            Error<Seq<char>>,
        >(snapshot),
{
}

} // verus!
