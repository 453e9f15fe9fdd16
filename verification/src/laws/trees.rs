//! What becomes of a tree, and how a transformer keeps up with changes.

use vstd::prelude::*;

use crate::alias_cache::{depends_on, without_dependents, CachedModel};
use crate::error::Error;
use crate::files::FilesModel;
use crate::laws::modules::{
    comes_from_elsewhere, names_at, node_at, place_above, places_above_drop_a_name,
    removals_take_out_what_is_gone, stands_elsewhere,
};
use crate::module_index::{placed, with_instances, with_snapshot, IndexedModel};
use crate::paths::components;
use crate::require_by_string::{
    after_change, after_removal, row_rewritten, transform_run, tree_rewritten, TransformerModel,
};
use crate::rewrite::with_source;
use crate::snapshot::SnapshotModel;
use crate::transformer::{ContextModel, TransformChange};

verus! {

/// Whether `node` is what becomes of an instance at a path, but for what is below it.
pub open spec fn becomes(
    files: FilesModel,
    index: Seq<IndexedModel>,
    configs: Seq<CachedModel>,
    instance: SnapshotModel,
    path: Seq<Seq<char>>,
    node: SnapshotModel,
) -> bool {
    with_source(files, index, configs, instance, path).result matches Ok(own) && node == (
    SnapshotModel { children: node.children, ..own })
}

/// Every instance of a tree becomes what its own requests make of it, in its place.
pub proof fn every_instance_is_rewritten(
    files: FilesModel,
    index: Seq<IndexedModel>,
    configs: Seq<CachedModel>,
    root: SnapshotModel,
    parent: Seq<Seq<char>>,
    way: Seq<int>,
    instance: SnapshotModel,
)
    requires
        node_at(root, way) == Some(instance),
    ensures
        tree_rewritten(files, index, configs, root, parent).result matches Ok(tree) ==> exists|
            loaded: Seq<CachedModel>,
        |
            node_at(tree, way) is Some && #[trigger] becomes(
                files,
                index,
                loaded,
                instance,
                parent + names_at(root, way),
                node_at(tree, way)->0,
            ),
    decreases way.len(),
{
    let path = parent.push(root.name);
    let own = with_source(files, index, configs, root, path);
    if tree_rewritten(files, index, configs, root, parent).result is Ok {
        let tree = tree_rewritten(files, index, configs, root, parent).result->Ok_0;
        if way.len() == 0 {
            assert(parent + names_at(root, way) =~= path);
            assert(node_at(tree, way) == Some(tree));
            assert(becomes(
                files,
                index,
                configs,
                instance,
                parent + names_at(root, way),
                node_at(tree, way)->0,
            ));
        } else {
            let k = way[0];
            let rest = way.drop_first();
            let later = lemma_row(files, index, own.configs, root.children, path, k);
            every_instance_is_rewritten(
                files,
                index,
                later,
                root.children[k],
                path,
                rest,
                instance,
            );
            assert(path + names_at(root.children[k], rest) =~= parent + names_at(root, way));
            let child = tree.children[k];
            assert(node_at(tree, way) == node_at(child, rest));
            assert(tree_rewritten(files, index, later, root.children[k], path).result == Ok::<
                _,
                Error<Seq<char>>,
            >(child));
            let loaded = choose|loaded: Seq<CachedModel>|
                node_at(child, rest) is Some && #[trigger] becomes(
                    files,
                    index,
                    loaded,
                    instance,
                    path + names_at(root.children[k], rest),
                    node_at(child, rest)->0,
                );
            assert(becomes(
                files,
                index,
                loaded,
                instance,
                parent + names_at(root, way),
                node_at(tree, way)->0,
            ));
        }
    }
}

/// Each tree of a row becomes what it becomes with the configurations that are loaded by
/// then.
proof fn lemma_row(
    files: FilesModel,
    index: Seq<IndexedModel>,
    configs: Seq<CachedModel>,
    row: Seq<SnapshotModel>,
    parent: Seq<Seq<char>>,
    k: int,
) -> (later: Seq<CachedModel>)
    requires
        0 <= k < row.len(),
    ensures
        row_rewritten(files, index, configs, row, parent).result matches Ok(nodes) ==> nodes.len()
            == row.len() && tree_rewritten(files, index, later, row[k], parent).result == Ok::<
            _,
            Error<Seq<char>>,
        >(nodes[k]),
    decreases row.len(),
{
    let first = tree_rewritten(files, index, configs, row[0], parent);
    let rest = row.drop_first();
    lemma_row_len(files, index, first.configs, rest, parent);
    if k == 0 {
        configs
    } else {
        let later = lemma_row(files, index, first.configs, rest, parent, k - 1);
        assert(rest[k - 1] == row[k]);
        later
    }
}

proof fn lemma_row_len(
    files: FilesModel,
    index: Seq<IndexedModel>,
    configs: Seq<CachedModel>,
    row: Seq<SnapshotModel>,
    parent: Seq<Seq<char>>,
)
    ensures
        row_rewritten(files, index, configs, row, parent).result matches Ok(nodes) ==> nodes.len()
            == row.len(),
    decreases row.len(),
{
    if row.len() > 0 {
        let first = tree_rewritten(files, index, configs, row[0], parent);
        lemma_row_len(files, index, first.configs, row.drop_first(), parent);
    }
}

/// What becomes of a row of trees is what becomes of its first part, and then of its second
/// with the configurations that are loaded by then. A row of one does what its tree does,
/// and an empty one nothing.
pub proof fn rows_of_trees_may_be_cut(
    files: FilesModel,
    index: Seq<IndexedModel>,
    configs: Seq<CachedModel>,
    first: Seq<SnapshotModel>,
    second: Seq<SnapshotModel>,
    parent: Seq<Seq<char>>,
)
    ensures
        ({
            let whole = row_rewritten(files, index, configs, first + second, parent);
            let start = row_rewritten(files, index, configs, first, parent);
            match start.result {
                Err(_) => whole == start,
                Ok(nodes) => {
                    let end = row_rewritten(files, index, start.configs, second, parent);
                    &&& whole.configs == end.configs
                    &&& whole.result == match end.result {
                        Err(e) => Err(e),
                        Ok(others) => Ok(nodes + others),
                    }
                },
            }
        }),
        first.len() == 1 ==> {
            let row = row_rewritten(files, index, configs, first, parent);
            let tree = tree_rewritten(files, index, configs, first[0], parent);
            &&& row.configs == tree.configs
            &&& row.result == match tree.result {
                Err(e) => Err(e),
                Ok(node) => Ok(seq![node]),
            }
        },
        first.len() == 0 ==> row_rewritten(files, index, configs, first, parent).configs == configs,
    decreases first.len(),
{
    let all = first + second;
    if first.len() == 0 {
        assert(all =~= second);
        match row_rewritten(files, index, configs, second, parent).result {
            Ok(others) => {
                assert(Seq::<SnapshotModel>::empty() + others =~= others);
            },
            Err(_) => {},
        }
    } else {
        let own = tree_rewritten(files, index, configs, first[0], parent);
        let rest = first.drop_first();
        assert(all[0] == first[0]);
        assert(all.drop_first() =~= rest + second);
        rows_of_trees_may_be_cut(files, index, own.configs, rest, second, parent);
        let start = row_rewritten(files, index, own.configs, rest, parent);
        if own.result is Ok && start.result is Ok {
            let node = own.result->Ok_0;
            let nodes = start.result->Ok_0;
            let end = row_rewritten(files, index, start.configs, second, parent);
            match end.result {
                Ok(others) => {
                    assert(seq![node] + (nodes + others) =~= (seq![node] + nodes) + others);
                },
                Err(_) => {},
            }
        }
        if first.len() == 1 {
            assert(rest =~= Seq::<SnapshotModel>::empty());
            if own.result is Ok {
                assert(seq![own.result->Ok_0] + Seq::<SnapshotModel>::empty() =~= seq![
                    own.result->Ok_0,
                ]);
            }
        }
    }
}

/// What becomes of a tree is what its own requests make of its root, and then what becomes
/// of its children.
pub proof fn children_follow_their_parent(
    files: FilesModel,
    index: Seq<IndexedModel>,
    configs: Seq<CachedModel>,
    root: SnapshotModel,
    parent: Seq<Seq<char>>,
)
    ensures
        ({
            let tree = tree_rewritten(files, index, configs, root, parent);
            let own = with_source(files, index, configs, root, parent + seq![root.name]);
            match own.result {
                Err(_) => tree == own,
                Ok(node) => {
                    let below = row_rewritten(
                        files,
                        index,
                        own.configs,
                        root.children,
                        parent + seq![root.name],
                    );
                    &&& tree.configs == below.configs
                    &&& tree.result == match below.result {
                        Err(e) => Err(e),
                        Ok(children) => Ok(SnapshotModel { children, ..node }),
                    }
                },
            }
        }),
{
    assert(parent.push(root.name) =~= parent + seq![root.name]);
}

/// A tree fails with the error of one of its instances.
pub proof fn trees_fail_with_an_instance(
    files: FilesModel,
    index: Seq<IndexedModel>,
    configs: Seq<CachedModel>,
    root: SnapshotModel,
    parent: Seq<Seq<char>>,
)
    ensures
        tree_rewritten(files, index, configs, root, parent).result matches Err(e) ==> exists|
            way: Seq<int>,
            loaded: Seq<CachedModel>,
        |
            #![trigger fails(files, index, loaded, root, parent, way, e)]
            fails(files, index, loaded, root, parent, way, e),
    decreases root,
{
    let path = parent.push(root.name);
    let own = with_source(files, index, configs, root, path);
    let run = tree_rewritten(files, index, configs, root, parent);
    if run.result is Err {
        let e = run.result->Err_0;
        if own.result is Err {
            let way = Seq::<int>::empty();
            assert(parent + names_at(root, way) =~= path);
            assert(fails(files, index, configs, root, parent, way, e));
        } else {
            let (k, way, loaded) = lemma_row_fails(
                files,
                index,
                own.configs,
                root.children,
                path,
            );
            let longer = seq![k] + way;
            assert(longer.drop_first() =~= way);
            assert(node_at(root, longer) == node_at(root.children[k], way));
            assert(parent + names_at(root, longer) =~= path + names_at(root.children[k], way));
            assert(fails(files, index, loaded, root, parent, longer, e));
        }
    }
}

/// Whether the instance on a way fails so.
pub open spec fn fails(
    files: FilesModel,
    index: Seq<IndexedModel>,
    configs: Seq<CachedModel>,
    root: SnapshotModel,
    parent: Seq<Seq<char>>,
    way: Seq<int>,
    error: Error<Seq<char>>,
) -> bool {
    node_at(root, way) matches Some(instance) && with_source(
        files,
        index,
        configs,
        instance,
        parent + names_at(root, way),
    ).result == Err::<SnapshotModel, Error<Seq<char>>>(error)
}

proof fn lemma_row_fails(
    files: FilesModel,
    index: Seq<IndexedModel>,
    configs: Seq<CachedModel>,
    row: Seq<SnapshotModel>,
    parent: Seq<Seq<char>>,
) -> (found: (int, Seq<int>, Seq<CachedModel>))
    requires
        row_rewritten(files, index, configs, row, parent).result is Err,
    ensures
        0 <= found.0 < row.len(),
        fails(
            files,
            index,
            found.2,
            row[found.0],
            parent,
            found.1,
            row_rewritten(files, index, configs, row, parent).result->Err_0,
        ),
    decreases row,
{
    let first = tree_rewritten(files, index, configs, row[0], parent);
    if first.result is Err {
        let e = first.result->Err_0;
        trees_fail_with_an_instance(files, index, configs, row[0], parent);
        let (way, loaded) = choose|way: Seq<int>, loaded: Seq<CachedModel>|
            #![trigger fails(files, index, loaded, row[0], parent, way, e)]
            fails(files, index, loaded, row[0], parent, way, e);
        (0, way, loaded)
    } else {
        let rest = row.drop_first();
        let (k, way, loaded) = lemma_row_fails(files, index, first.configs, rest, parent);
        assert(rest[k] == row[k + 1]);
        (k + 1, way, loaded)
    }
}

/// Whether a path is one of those that a configuration depends on, or stands above one.
pub open spec fn matters_to(config: CachedModel, path: Seq<char>) -> bool {
    exists|i: int|
        {
            let base = components(path);
            let own = components(#[trigger] config.config.relevant_paths[i]);
            &&& 0 <= i < config.config.relevant_paths.len()
            &&& base.len() <= own.len()
            &&& own.take(base.len() as int) == base
        }
}

proof fn lemma_matters(config: CachedModel, path: Seq<char>)
    ensures
        depends_on(config.config, path) == matters_to(config, path),
{
    let row = config.config.relevant_paths;
    let base = components(path);
    if depends_on(config.config, path) {
        let i = choose|i: int|
            0 <= i < row.len() && crate::paths::path_within(#[trigger] row[i], path);
        assert(components(row[i]).take(base.len() as int) =~= base);
    }
    if matters_to(config, path) {
        let i = choose|i: int|
            {
                let own = components(#[trigger] row[i]);
                &&& 0 <= i < row.len()
                &&& base.len() <= own.len()
                &&& own.take(base.len() as int) == base
            };
        assert(crate::paths::path_within(row[i], path));
    }
}

/// The configurations that depend on a path, or on something below it, are dropped; the
/// others stay, in their order.
pub proof fn dependents_are_dropped(configs: Seq<CachedModel>, path: Seq<char>)
    ensures
        without_dependents(configs, path) == configs.filter(
            |config: CachedModel| !matters_to(config, path),
        ),
    decreases configs.len(),
{
    reveal(Seq::filter);
    if configs.len() > 0 {
        dependents_are_dropped(configs.drop_last(), path);
        lemma_matters(configs.last(), path);
    }
}

/// The path of a change.
pub open spec fn path_of(change: TransformChange) -> Seq<char> {
    match change {
        TransformChange::Created(path) => path@,
        TransformChange::Written(path) => path@,
        TransformChange::Removed(path) => path@,
    }
}

/// After a change of whatever kind no configuration is left that depends on its path, and
/// every other one is. What was known of the file system is forgotten. The modules of a path
/// that is removed are gone with it; no other change takes a module out.
pub proof fn changes_leave_nothing_stale(state: TransformerModel, change: TransformChange)
    ensures
        ({
            let after = after_change(state, change);
            &&& after.configs == state.configs.filter(
                |config: CachedModel| !matters_to(config, path_of(change)),
            )
            &&& after.files.metadata == Map::<
                Seq<char>,
                Result<Option<crate::files::FileKind>, Seq<char>>,
            >::empty()
            &&& after.files.aliases.dom() == Set::<Seq<char>>::empty()
            &&& after.files.runs.dom() == Set::<Seq<char>>::empty()
            &&& after.files.canonical.dom() == Set::<Seq<char>>::empty()
            &&& after.files.home_directory == state.files.home_directory
            &&& after.files.drives == state.files.drives
            &&& after.index == match (state.index, change) {
                (Some(index), TransformChange::Removed(path)) => Some(
                    index.filter(|entry: IndexedModel| comes_from_elsewhere(entry, path@)),
                ),
                (index, _) => index,
            }
        }),
        forall|i: int|
            0 <= i < after_change(state, change).configs.len() ==> !matters_to(
                #[trigger] after_change(state, change).configs[i],
                path_of(change),
            ),
        forall|i: int|
            0 <= i < state.configs.len() && !matters_to(
                #[trigger] state.configs[i],
                path_of(change),
            ) ==> after_change(state, change).configs.contains(state.configs[i]),
{
    dependents_are_dropped(state.configs, path_of(change));
    let keep = |config: CachedModel| !matters_to(config, path_of(change));
    let after = after_change(state, change);
    assert(after.configs == state.configs.filter(keep));
    assert(after.files.aliases.dom() =~= Set::<Seq<char>>::empty());
    assert(after.files.runs.dom() =~= Set::<Seq<char>>::empty());
    assert(after.files.canonical.dom() =~= Set::<Seq<char>>::empty());
    match state.index {
        Some(index) => removals_take_out_what_is_gone(index, Seq::empty(), path_of(change)),
        None => {},
    }
    assert forall|i: int| 0 <= i < after.configs.len() implies !matters_to(
        #[trigger] after.configs[i],
        path_of(change),
    ) by {
        state.configs.lemma_filter_pred(keep, i);
    }
    assert forall|i: int|
        0 <= i < state.configs.len() && !matters_to(
            #[trigger] state.configs[i],
            path_of(change),
        ) implies after.configs.contains(state.configs[i]) by {
        state.configs.lemma_filter_contains(keep, i);
    }
}

/// After an instance is removed neither it nor anything below it stands for a module; all
/// else is as it was.
pub proof fn removed_instances_stand_for_nothing(state: TransformerModel, context: ContextModel)
    ensures
        after_removal(state, context) == (TransformerModel {
            index: match (state.index, context.instance_path) {
                (Some(index), Some(path)) => Some(
                    index.filter(|entry: IndexedModel| stands_elsewhere(entry, path)),
                ),
                (index, _) => index,
            },
            ..state
        }),
{
    match (state.index, context.instance_path) {
        (Some(index), Some(path)) => removals_take_out_what_is_gone(index, path, Seq::empty()),
        _ => {},
    }
}

/// The project that a first run indexes: that of the context, or the snapshot itself.
pub open spec fn project_of(snapshot: SnapshotModel, context: ContextModel) -> SnapshotModel {
    match context.root {
        Some(root) => root,
        None => snapshot,
    }
}

/// A run indexes the project where that was not done before, then the snapshot in its
/// place, and then rewrites the snapshot by that index. The first failure ends it.
pub proof fn runs_index_before_they_rewrite(
    state: TransformerModel,
    snapshot: SnapshotModel,
    context: ContextModel,
)
    ensures
        ({
            let run = transform_run(state, snapshot, context);
            let first = match state.index {
                Some(index) => Ok::<_, Error<Seq<char>>>(index),
                None => {
                    let made = with_instances(
                        Seq::empty(),
                        state.files,
                        placed(project_of(snapshot, context), Seq::empty()),
                    );
                    match made.error {
                        Some(e) => Err(e),
                        None => Ok(made.index),
                    }
                },
            };
            match first {
                Err(e) => run.result == Err::<SnapshotModel, Error<Seq<char>>>(e)
                    && run.state.index == state.index && run.state.configs == state.configs,
                Ok(index) => {
                    let replaced = with_snapshot(
                        index,
                        state.files,
                        snapshot,
                        context.instance_path,
                    );
                    match replaced.error {
                        Some(e) => run.result == Err::<SnapshotModel, Error<Seq<char>>>(e) && (
                        !(e is Unanswered) ==> run.state.index == Some(replaced.index)
                            && run.state.configs == state.configs),
                        None => {
                            let tree = tree_rewritten(
                                state.files,
                                replaced.index,
                                state.configs,
                                snapshot,
                                place_above(context.instance_path),
                            );
                            &&& run.result == tree.result
                            &&& !(tree.result matches Err(Error::Unanswered(_)))
                                ==> run.state.index == Some(replaced.index) && run.state.configs
                                == tree.configs
                        },
                    }
                },
            }
        }),
{
    places_above_drop_a_name(context.instance_path);
}

/// A run that waits for an answer changes nothing; any other forgets what was known of the
/// file system.
pub proof fn runs_forget_or_change_nothing(
    state: TransformerModel,
    snapshot: SnapshotModel,
    context: ContextModel,
)
    ensures
        ({
            let run = transform_run(state, snapshot, context);
            if run.result matches Err(Error::Unanswered(_)) {
                run.state == state
            } else {
                &&& run.state.files.metadata.dom() == Set::<Seq<char>>::empty()
                &&& run.state.files.aliases.dom() == Set::<Seq<char>>::empty()
                &&& run.state.files.runs.dom() == Set::<Seq<char>>::empty()
                &&& run.state.files.canonical.dom() == Set::<Seq<char>>::empty()
                &&& run.state.files.home_directory == state.files.home_directory
                &&& run.state.files.drives == state.files.drives
            }
        }),
{
    let run = transform_run(state, snapshot, context);
    if !(run.result matches Err(Error::Unanswered(_))) {
        assert(run.state.files.metadata.dom() =~= Set::<Seq<char>>::empty());
        assert(run.state.files.aliases.dom() =~= Set::<Seq<char>>::empty());
        assert(run.state.files.runs.dom() =~= Set::<Seq<char>>::empty());
        assert(run.state.files.canonical.dom() =~= Set::<Seq<char>>::empty());
    }
}

} // verus!
