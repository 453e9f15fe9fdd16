//! The transformer that turns alias-based requests into instance expressions and leaves
//! the path prefixes that Roblox knows untouched.

use vstd::prelude::*;

use crate::alias_cache::{without_dependents, AliasCache, CachedModel};
use crate::config_luau::RunModel;
use crate::error::{outcome, Error};
use crate::files::{may_answer, no_answers, with_answer, FileAnswer, Files, FilesModel};
use crate::module_index::{
    instance_parent_path, parent_instance, placed, with_instances, with_snapshot,
    without_instances, without_sources, IndexedModel, ModuleIndex,
};
use crate::rewrite::{transform_source, with_source, SourceRun};
use crate::snapshot::{children_models, size, size_of_each, InstanceSnapshot, SnapshotModel};
use crate::duplicate::Duplicate;
use crate::transformer::{
    transformation, ContextModel, Event, TransformChange, TransformContext, Transformer,
};

verus! {

/// What becomes of a row of trees, and the configurations that are loaded by then.
pub struct RowRun {
    pub configs: Seq<CachedModel>,
    pub result: Result<Seq<SnapshotModel>, Error<Seq<char>>>,
}

/// A tree with the requests of every script rewritten, each instance before its
/// children, up to the first error.
pub open spec fn tree_rewritten(
    files: FilesModel,
    index: Seq<IndexedModel>,
    configs: Seq<CachedModel>,
    snapshot: SnapshotModel,
    parent: Seq<Seq<char>>,
) -> SourceRun
    decreases snapshot,
{
    let path = parent.push(snapshot.name);
    let own = with_source(files, index, configs, snapshot, path);
    match own.result {
        Err(_) => own,
        Ok(node) => {
            let below = row_rewritten(files, index, own.configs, snapshot.children, path);
            SourceRun {
                configs: below.configs,
                result: match below.result {
                    Err(e) => Err(e),
                    Ok(children) => Ok(SnapshotModel { children, ..node }),
                },
            }
        },
    }
}

/// A row of trees with the requests of every script rewritten.
pub open spec fn row_rewritten(
    files: FilesModel,
    index: Seq<IndexedModel>,
    configs: Seq<CachedModel>,
    row: Seq<SnapshotModel>,
    parent: Seq<Seq<char>>,
) -> RowRun
    decreases row,
{
    if row.len() == 0 {
        RowRun { configs, result: Ok(seq![]) }
    } else {
        let first = tree_rewritten(files, index, configs, row[0], parent);
        match first.result {
            Err(e) => RowRun { configs: first.configs, result: Err(e) },
            Ok(node) => {
                let rest = row_rewritten(
                    files,
                    index,
                    first.configs,
                    row.drop_first(),
                    parent,
                );
                RowRun {
                    configs: rest.configs,
                    result: match rest.result {
                        Err(e) => Err(e),
                        Ok(nodes) => Ok(seq![node] + nodes),
                    },
                }
            },
        }
    }
}

enum Task {
    Visit(InstanceSnapshot, Vec<String>),
    Assemble(InstanceSnapshot, usize),
}

enum TaskModel {
    Visit(SnapshotModel, Seq<Seq<char>>),
    Assemble(SnapshotModel, nat),
}

impl DeepView for Task {
    type V = TaskModel;

    closed spec fn deep_view(&self) -> TaskModel {
        match self {
            Task::Visit(snapshot, parent) => TaskModel::Visit(
                snapshot.deep_view(),
                parent.deep_view(),
            ),
            Task::Assemble(snapshot, count) => TaskModel::Assemble(
                snapshot.deep_view(),
                *count as nat,
            ),
        }
    }
}

/// What comes out once all tasks are done, the last one first.
spec fn finished(
    files: FilesModel,
    index: Seq<IndexedModel>,
    configs: Seq<CachedModel>,
    tasks: Seq<TaskModel>,
    results: Seq<SnapshotModel>,
) -> RowRun
    decreases tasks.len(),
{
    if tasks.len() == 0 {
        RowRun { configs, result: Ok(results) }
    } else {
        match tasks.last() {
            TaskModel::Visit(snapshot, parent) => {
                let run = tree_rewritten(files, index, configs, snapshot, parent);
                match run.result {
                    Err(e) => RowRun { configs: run.configs, result: Err(e) },
                    Ok(node) => finished(
                        files,
                        index,
                        run.configs,
                        tasks.drop_last(),
                        results.push(node),
                    ),
                }
            },
            TaskModel::Assemble(snapshot, count) => {
                let start = results.len() - count;
                finished(
                    files,
                    index,
                    configs,
                    tasks.drop_last(),
                    results.take(start).push(
                        SnapshotModel { children: results.skip(start), ..snapshot },
                    ),
                )
            },
        }
    }
}

/// Whether the tasks leave one result, starting from `count` results.
spec fn balanced(tasks: Seq<TaskModel>, count: int) -> bool
    decreases tasks.len(),
{
    if tasks.len() == 0 {
        count == 1
    } else {
        match tasks.last() {
            TaskModel::Visit(..) => balanced(tasks.drop_last(), count + 1),
            TaskModel::Assemble(_, children) => children <= count && balanced(
                tasks.drop_last(),
                count - children + 1,
            ),
        }
    }
}

/// How much is left to do.
spec fn effort(tasks: Seq<TaskModel>) -> nat
    decreases tasks.len(),
{
    if tasks.len() == 0 {
        0
    } else {
        effort(tasks.drop_last()) + match tasks.last() {
            TaskModel::Visit(snapshot, _) => 2 * size(snapshot),
            TaskModel::Assemble(..) => 1,
        }
    }
}

/// The tasks to visit a row of trees, the first tree last.
spec fn visits(row: Seq<SnapshotModel>, parent: Seq<Seq<char>>) -> Seq<TaskModel>
    decreases row.len(),
{
    if row.len() == 0 {
        seq![]
    } else {
        visits(row.drop_first(), parent).push(TaskModel::Visit(row[0], parent))
    }
}

proof fn lemma_finished_visits(
    files: FilesModel,
    index: Seq<IndexedModel>,
    configs: Seq<CachedModel>,
    tasks: Seq<TaskModel>,
    results: Seq<SnapshotModel>,
    row: Seq<SnapshotModel>,
    parent: Seq<Seq<char>>,
)
    ensures
        ({
            let run = row_rewritten(files, index, configs, row, parent);
            finished(files, index, configs, tasks + visits(row, parent), results)
                == match run.result {
                Err(e) => RowRun { configs: run.configs, result: Err(e) },
                Ok(nodes) => finished(files, index, run.configs, tasks, results + nodes),
            }
        }),
    decreases row.len(),
{
    if row.len() == 0 {
        assert(tasks + visits(row, parent) == tasks);
        assert(results + Seq::<SnapshotModel>::empty() == results);
    } else {
        let rest = row.drop_first();
        let all = tasks + visits(row, parent);
        assert(all.last() == TaskModel::Visit(row[0], parent));
        assert(all.drop_last() == tasks + visits(rest, parent));
        let first = tree_rewritten(files, index, configs, row[0], parent);
        match first.result {
            Err(_) => {},
            Ok(node) => {
                lemma_finished_visits(
                    files,
                    index,
                    first.configs,
                    tasks,
                    results.push(node),
                    rest,
                    parent,
                );
                match row_rewritten(files, index, first.configs, rest, parent).result {
                    Ok(nodes) => {
                        assert(results.push(node) + nodes == results + (seq![node] + nodes));
                    },
                    Err(_) => {},
                }
            },
        }
    }
}

proof fn lemma_row_length(
    files: FilesModel,
    index: Seq<IndexedModel>,
    configs: Seq<CachedModel>,
    row: Seq<SnapshotModel>,
    parent: Seq<Seq<char>>,
)
    ensures
        row_rewritten(files, index, configs, row, parent).result matches Ok(nodes)
            ==> nodes.len() == row.len(),
    decreases row.len(),
{
    if row.len() > 0 {
        let first = tree_rewritten(files, index, configs, row[0], parent);
        lemma_row_length(files, index, first.configs, row.drop_first(), parent);
    }
}

proof fn lemma_balanced_visits(
    tasks: Seq<TaskModel>,
    row: Seq<SnapshotModel>,
    parent: Seq<Seq<char>>,
    count: int,
)
    ensures
        balanced(tasks + visits(row, parent), count) == balanced(tasks, count + row.len()),
    decreases row.len(),
{
    let all = tasks + visits(row, parent);
    if row.len() == 0 {
        assert(all == tasks);
    } else {
        assert(all.last() == TaskModel::Visit(row[0], parent));
        assert(all.drop_last() == tasks + visits(row.drop_first(), parent));
        lemma_balanced_visits(tasks, row.drop_first(), parent, count + 1);
    }
}

proof fn lemma_effort_visits(
    tasks: Seq<TaskModel>,
    row: Seq<SnapshotModel>,
    parent: Seq<Seq<char>>,
)
    ensures
        effort(tasks + visits(row, parent)) == effort(tasks) + 2 * size_of_each(row),
    decreases row.len(),
{
    let all = tasks + visits(row, parent);
    if row.len() == 0 {
        assert(all == tasks);
    } else {
        assert(all.last() == TaskModel::Visit(row[0], parent));
        assert(all.drop_last() == tasks + visits(row.drop_first(), parent));
        lemma_effort_visits(tasks, row.drop_first(), parent);
    }
}

/// A rewritten script stays the instance that it was: only its source and the paths that
/// matter to it change.
pub proof fn scripts_stay_in_place(
    files: FilesModel,
    index: Seq<IndexedModel>,
    configs: Seq<CachedModel>,
    snapshot: SnapshotModel,
    instance_path: Seq<Seq<char>>,
)
    ensures
        with_source(files, index, configs, snapshot, instance_path).result matches Ok(node) ==> {
            &&& node.snapshot_id == snapshot.snapshot_id
            &&& node.name == snapshot.name
            &&& node.class_name == snapshot.class_name
            &&& node.metadata.instigating_source == snapshot.metadata.instigating_source
            &&& node.children == snapshot.children
            &&& node.properties.dom() == snapshot.properties.dom()
            &&& forall|name: Seq<char>| #[trigger]
                snapshot.properties.contains_key(name) && name != "Source"@
                    ==> node.properties[name] == snapshot.properties[name]
        },
{
    match with_source(files, index, configs, snapshot, instance_path).result {
        Ok(node) => {
            assert(node.properties.dom() =~= snapshot.properties.dom());
        },
        Err(_) => {},
    }
}

/// What a tree comes to, as the only tree of a row.
spec fn as_row(run: SourceRun) -> RowRun {
    RowRun {
        configs: run.configs,
        result: match run.result {
            Err(e) => Err(e),
            Ok(node) => Ok(seq![node]),
        },
    }
}

proof fn lemma_first_task(
    files: FilesModel,
    index: Seq<IndexedModel>,
    configs: Seq<CachedModel>,
    snapshot: SnapshotModel,
    parent: Seq<Seq<char>>,
)
    ensures
        finished(files, index, configs, seq![TaskModel::Visit(snapshot, parent)], seq![])
            == as_row(tree_rewritten(files, index, configs, snapshot, parent)),
        balanced(seq![TaskModel::Visit(snapshot, parent)], 0),
{
    let tasks = seq![TaskModel::Visit(snapshot, parent)];
    let none = Seq::<TaskModel>::empty();
    let run = tree_rewritten(files, index, configs, snapshot, parent);
    assert(tasks.drop_last() == none);
    assert(balanced(none, 1));
    match run.result {
        Ok(node) => {
            assert(Seq::<SnapshotModel>::empty().push(node) == seq![node]);
            assert(finished(files, index, run.configs, none, seq![node]).result == Ok::<
                Seq<SnapshotModel>,
                Error<Seq<char>>,
            >(seq![node]));
        },
        Err(_) => {},
    }
}

/// A visit comes to the same as rewriting the instance and then visiting its children
/// and putting them together.
proof fn lemma_visit(
    files: FilesModel,
    index: Seq<IndexedModel>,
    configs: Seq<CachedModel>,
    tasks: Seq<TaskModel>,
    results: Seq<SnapshotModel>,
    snapshot: SnapshotModel,
    parent: Seq<Seq<char>>,
    bare: SnapshotModel,
)
    requires
        tasks.len() > 0,
        tasks.last() == TaskModel::Visit(snapshot, parent),
        ({
            let own = with_source(files, index, configs, snapshot, parent.push(snapshot.name));
            own.result matches Ok(node) && bare == (SnapshotModel { children: seq![], ..node })
        }),
    ensures
        ({
            let path = parent.push(snapshot.name);
            let own = with_source(files, index, configs, snapshot, path);
            let next = tasks.drop_last().push(
                TaskModel::Assemble(bare, snapshot.children.len()),
            ) + visits(snapshot.children, path);
            &&& finished(files, index, configs, tasks, results) == finished(
                files,
                index,
                own.configs,
                next,
                results,
            )
            &&& balanced(tasks, results.len() as int) ==> balanced(next, results.len() as int)
            &&& effort(next) < effort(tasks)
        }),
{
    let path = parent.push(snapshot.name);
    let own = with_source(files, index, configs, snapshot, path);
    let row = snapshot.children;
    let base = tasks.drop_last();
    let middle = base.push(TaskModel::Assemble(bare, row.len()));
    let count = results.len() as int;
    assert(middle.drop_last() == base);
    lemma_finished_visits(files, index, own.configs, middle, results, row, path);
    lemma_row_length(files, index, own.configs, row, path);
    lemma_balanced_visits(middle, row, path, count);
    lemma_effort_visits(middle, row, path);
    let below = row_rewritten(files, index, own.configs, row, path);
    match below.result {
        Ok(nodes) => {
            assert((results + nodes).take(count) == results);
            assert((results + nodes).skip(count) == nodes);
        },
        Err(_) => {},
    }
}

fn visit_instance(
    files: &Files,
    module_index: &ModuleIndex,
    alias_configs: &mut AliasCache,
    tasks: &mut Vec<Task>,
    snapshot: InstanceSnapshot,
    parent: Vec<String>,
) -> (done: Result<(), Error<String>>)
    ensures
        ({
            let model = snapshot.deep_view();
            let path = parent.deep_view().push(model.name);
            let own = with_source(
                files.deep_view(),
                module_index.deep_view(),
                old(alias_configs).deep_view(),
                model,
                path,
            );
            &&& final(alias_configs).deep_view() == own.configs
            &&& match (done, own.result) {
                (Err(e), Err(error)) => e.deep_view() == error,
                (Ok(_), Ok(node)) => final(tasks).deep_view() == old(tasks).deep_view().push(
                    TaskModel::Assemble(
                        SnapshotModel { children: seq![], ..node },
                        model.children.len(),
                    ),
                ) + visits(model.children, path),
                _ => false,
            }
        }),
{
    let ghost model = snapshot.deep_view();
    let ghost base = tasks.deep_view();
    let mut path = parent;
    path.push(snapshot.name.clone());
    let ghost p = parent.deep_view().push(model.name);
    assert(path.deep_view() == p);
    proof {
        scripts_stay_in_place(
            files.deep_view(),
            module_index.deep_view(),
            alias_configs.deep_view(),
            model,
            p,
        );
    }
    let mut snapshot = transform_source(files, module_index, alias_configs, snapshot, &path)?;
    let ghost node = snapshot.deep_view();
    proof {
        children_models(snapshot);
    }
    let mut children = snapshot.children;
    snapshot.children = Vec::new();
    let ghost row = model.children;
    let ghost bare = SnapshotModel { children: seq![], ..node };
    assert(snapshot.deep_view().children =~= bare.children);
    let ghost middle = base.push(TaskModel::Assemble(bare, row.len()));
    let assemble = Task::Assemble(snapshot, children.len());
    assert(assemble.deep_view() == TaskModel::Assemble(bare, row.len()));
    tasks.push(assemble);
    assert(tasks.deep_view() == middle);
    proof {
        let none = row.skip(row.len() as int);
        assert(none == Seq::<SnapshotModel>::empty());
        assert(visits(none, p) == Seq::<TaskModel>::empty());
        assert(middle + visits(none, p) == middle);
        assert(row.take(row.len() as int) == row);
    }
    while children.len() > 0
        invariant
            path.deep_view() == p,
            children@.len() <= row.len(),
            children.deep_view() == row.take(children@.len() as int),
            tasks.deep_view() == middle + visits(row.skip(children@.len() as int), p),
        decreases children@.len(),
    {
        let ghost count = children@.len() as int;
        let ghost earlier = tasks.deep_view();
        let ghost left = children.deep_view();
        let child = children.pop().unwrap();
        assert(children.deep_view() == left.drop_last());
        assert(left.last() == child.deep_view());
        assert(row[count - 1] == child.deep_view());
        assert(children.deep_view() == row.take(count - 1));
        let visit = Task::Visit(child, path.clone());
        assert(visit.deep_view() == TaskModel::Visit(row[count - 1], p));
        tasks.push(visit);
        assert(tasks.deep_view() == earlier.push(TaskModel::Visit(row[count - 1], p)));
        proof {
            let rest = row.skip(count - 1);
            assert(rest.drop_first() == row.skip(count));
            assert(rest[0] == row[count - 1]);
            assert(tasks.deep_view() == middle + visits(rest, p));
        }
    }
    assert(row.skip(0) == row);
    Ok(())
}

fn assemble_instance(
    results: &mut Vec<InstanceSnapshot>,
    snapshot: InstanceSnapshot,
    child_count: usize,
)
    requires
        child_count <= old(results)@.len(),
    ensures
        ({
            let done = old(results).deep_view();
            let start = done.len() - child_count;
            final(results).deep_view() == done.take(start).push(
                SnapshotModel { children: done.skip(start), ..snapshot.deep_view() },
            )
        }),
{
    let ghost done = results.deep_view();
    let ghost node = snapshot.deep_view();
    let mut snapshot = snapshot;
    let start: usize = results.len() - child_count;
    let children = results.split_off(start);
    assert(children.deep_view() == done.skip(start as int));
    assert(results.deep_view() == done.take(start as int));
    snapshot.children = children;
    proof {
        children_models(snapshot);
    }
    let ghost built = SnapshotModel { children: done.skip(start as int), ..node };
    assert(snapshot.deep_view() == built);
    results.push(snapshot);
    assert(results.deep_view() == done.take(start as int).push(built));
}

fn transform_snapshot(
    files: &Files,
    module_index: &ModuleIndex,
    alias_configs: &mut AliasCache,
    snapshot: InstanceSnapshot,
    instance_path: Vec<String>,
) -> (result: Result<InstanceSnapshot, Error<String>>)
    ensures
        (SourceRun { configs: final(alias_configs).deep_view(), result: outcome(result) })
            == tree_rewritten(
            files.deep_view(),
            module_index.deep_view(),
            old(alias_configs).deep_view(),
            snapshot.deep_view(),
            instance_path.deep_view(),
        ),
{
    let ghost f = files.deep_view();
    let ghost x = module_index.deep_view();
    let ghost whole = tree_rewritten(
        f,
        x,
        alias_configs.deep_view(),
        snapshot.deep_view(),
        instance_path.deep_view(),
    );
    let mut tasks: Vec<Task> = Vec::new();
    let mut results: Vec<InstanceSnapshot> = Vec::new();
    tasks.push(Task::Visit(snapshot, instance_path));
    proof {
        let first = TaskModel::Visit(snapshot.deep_view(), instance_path.deep_view());
        assert(tasks.deep_view() == seq![first]);
        assert(results.deep_view() == Seq::<SnapshotModel>::empty());
        lemma_first_task(
            f,
            x,
            alias_configs.deep_view(),
            snapshot.deep_view(),
            instance_path.deep_view(),
        );
    }
    while tasks.len() > 0
        invariant
            f == files.deep_view(),
            x == module_index.deep_view(),
            whole == tree_rewritten(
                f,
                x,
                old(alias_configs).deep_view(),
                snapshot.deep_view(),
                instance_path.deep_view(),
            ),
            finished(
                f,
                x,
                alias_configs.deep_view(),
                tasks.deep_view(),
                results.deep_view(),
            ) == as_row(whole),
            balanced(tasks.deep_view(), results@.len() as int),
        decreases effort(tasks.deep_view()),
    {
        let ghost before = tasks.deep_view();
        let ghost configs = alias_configs.deep_view();
        let ghost done = results.deep_view();
        let task = tasks.pop().unwrap();
        assert(before.last() == task.deep_view());
        assert(tasks.deep_view() == before.drop_last());
        match task {
            Task::Visit(current, parent) => {
                visit_instance(files, module_index, alias_configs, &mut tasks, current, parent)?;
                proof {
                    let model = current.deep_view();
                    let above = parent.deep_view();
                    let own = with_source(f, x, configs, model, above.push(model.name));
                    let node = own.result->Ok_0;
                    lemma_visit(
                        f,
                        x,
                        configs,
                        before,
                        done,
                        model,
                        above,
                        SnapshotModel { children: seq![], ..node },
                    );
                }
            },
            Task::Assemble(current, child_count) => {
                assemble_instance(&mut results, current, child_count);
            },
        }
    }
    assert(results.deep_view().len() == 1);
    assert(results.deep_view()[0] == results@[0].deep_view());
    Ok(results.remove(0))
}

/// [`RequireByStringTransformer`] in contracts.
pub struct TransformerModel {
    /// What is known of the file system.
    pub files: FilesModel,
    /// The modules of the project, once it was seen.
    pub index: Option<Seq<IndexedModel>>,
    /// The alias configurations that were loaded.
    pub configs: Seq<CachedModel>,
}

/// Rewrites the alias-based requests of scripts.
pub struct RequireByStringTransformer {
    files: Files,
    module_index: Option<ModuleIndex>,
    alias_configs: AliasCache,
}

impl DeepView for RequireByStringTransformer {
    type V = TransformerModel;

    closed spec fn deep_view(&self) -> TransformerModel {
        TransformerModel {
            files: self.files.deep_view(),
            index: self.module_index.deep_view(),
            configs: self.alias_configs.deep_view(),
        }
    }
}

/// A transformer and what a call of it returned.
pub struct TransformRun {
    pub state: TransformerModel,
    pub result: Result<SnapshotModel, Error<Seq<char>>>,
}

/// The index that a run starts from: the one that is there, or that of the project.
pub open spec fn starting_index(
    state: TransformerModel,
    snapshot: SnapshotModel,
    context: ContextModel,
) -> Result<Seq<IndexedModel>, Error<Seq<char>>> {
    match state.index {
        Some(index) => Ok(index),
        None => {
            let root = match context.root {
                Some(root) => root,
                None => snapshot,
            };
            let run = with_instances(Seq::empty(), state.files, placed(root, Seq::empty()));
            match run.error {
                Some(e) => Err(e),
                None => Ok(run.index),
            }
        },
    }
}

/// The steps of a run: the modules of the snapshot take their place in the index, and the
/// requests of its scripts are rewritten.
pub open spec fn transform_steps(
    state: TransformerModel,
    snapshot: SnapshotModel,
    context: ContextModel,
) -> TransformRun {
    match starting_index(state, snapshot, context) {
        Err(e) => TransformRun { state, result: Err(e) },
        Ok(index) => {
            let replaced = with_snapshot(index, state.files, snapshot, context.instance_path);
            let indexed = TransformerModel { index: Some(replaced.index), ..state };
            match replaced.error {
                Some(e) => TransformRun { state: indexed, result: Err(e) },
                None => {
                    let run = tree_rewritten(
                        state.files,
                        replaced.index,
                        state.configs,
                        snapshot,
                        parent_instance(context.instance_path),
                    );
                    TransformRun {
                        state: TransformerModel { configs: run.configs, ..indexed },
                        result: run.result,
                    }
                },
            }
        },
    }
}

/// What a run comes to. A run that waits for an answer leaves the transformer as it was,
/// so that it can be started again; any other run forgets what it knew of the file
/// system, since files change between runs.
pub open spec fn transform_run(
    state: TransformerModel,
    snapshot: SnapshotModel,
    context: ContextModel,
) -> TransformRun {
    let run = transform_steps(state, snapshot, context);
    if run.result matches Err(Error::Unanswered(_)) {
        TransformRun { state, result: run.result }
    } else {
        TransformRun {
            state: TransformerModel {
                files: no_answers(state.files.home_directory, state.files.drives),
                ..run.state
            },
            result: run.result,
        }
    }
}

/// The transformer after a change of the file system: configurations that depend on the
/// path are loaded anew when they are needed, and what came from a removed path stands
/// for no module any more.
pub open spec fn after_change(
    state: TransformerModel,
    change: TransformChange,
) -> TransformerModel {
    let path = change.changed_path();
    TransformerModel {
        files: no_answers(state.files.home_directory, state.files.drives),
        index: match state.index {
            Some(index) => if change is Removed {
                Some(without_sources(index, path))
            } else {
                Some(index)
            },
            None => None,
        },
        configs: without_dependents(state.configs, path),
    }
}

/// The transformer after an answer, where `run` is how a file whose contents it holds ran.
pub open spec fn after_answer(
    state: TransformerModel,
    answer: FileAnswer,
    run: RunModel,
) -> TransformerModel {
    TransformerModel { files: with_answer(state.files, answer, run), ..state }
}

/// The transformer after the removal of the instance that a context points to.
pub open spec fn after_removal(state: TransformerModel, context: ContextModel) -> TransformerModel {
    TransformerModel {
        index: match (state.index, context.instance_path) {
            (Some(index), Some(path)) => Some(without_instances(index, path)),
            (index, _) => index,
        },
        ..state
    }
}

/// Whether all this may happen to the transformer, in this order.
pub open spec fn lives(state: TransformerModel, events: Seq<Event>) -> bool
    decreases events.len(),
{
    if events.len() == 0 {
        true
    } else {
        let later = events.drop_first();
        match events[0] {
            Event::Transformed { snapshot, context, result } => {
                let run = transform_run(state, snapshot, context);
                result == run.result && lives(run.state, later)
            },
            Event::Changed(change) => lives(after_change(state, change), later),
            Event::Removed(context) => lives(after_removal(state, context), later),
            Event::Answered(answer) => exists|run: RunModel| #[trigger]
                may_answer(answer, state.files.drives, run) && lives(
                    after_answer(state, answer, run),
                    later,
                ),
        }
    }
}

impl RequireByStringTransformer {
    /// The transformer for a user with the given home directory, on a host with drives or
    /// without them.
    pub fn new(home_directory: Option<String>, drives: bool) -> (transformer: Self)
        ensures
            transformer.deep_view() == (TransformerModel {
                files: no_answers(home_directory.deep_view(), drives),
                index: None,
                configs: Seq::empty(),
            }),
    {
        RequireByStringTransformer {
            files: Files::new(home_directory, drives),
            module_index: None,
            alias_configs: AliasCache::new(),
        }
    }

    fn start_index(&mut self, snapshot: &InstanceSnapshot, context: &TransformContext<'_>) -> (
        index: Result<ModuleIndex, Error<String>>)
        ensures
            outcome(index) == starting_index(
                old(self).deep_view(),
                snapshot.deep_view(),
                context.deep_view(),
            ),
            final(self).deep_view() == (TransformerModel { index: None, ..old(self).deep_view() }),
    {
        match self.module_index.take() {
            Some(index) => Ok(index),
            None => {
                let root = match context.root {
                    Some(root) => root,
                    None => snapshot,
                };
                ModuleIndex::from_snapshot(root, &self.files)
            },
        }
    }

    fn run(&mut self, snapshot: InstanceSnapshot, context: &TransformContext<'_>) -> (result: Result<
        InstanceSnapshot,
        Error<String>,
    >)
        ensures
            (TransformRun { state: final(self).deep_view(), result: outcome(result) })
                == transform_steps(
                old(self).deep_view(),
                snapshot.deep_view(),
                context.deep_view(),
            ),
    {
        let mut index = self.start_index(&snapshot, context)?;
        let replaced = index.replace_snapshot(&snapshot, &self.files, &context.instance_path);
        if let Err(e) = replaced {
            self.module_index = Some(index);
            return Err(e);
        }
        let result = transform_snapshot(
            &self.files,
            &index,
            &mut self.alias_configs,
            snapshot,
            instance_parent_path(&context.instance_path),
        );
        self.module_index = Some(index);
        result
    }
}

/// Whether the transformer may come from one state to another by one event.
spec fn comes_to(state: TransformerModel, event: Event, next: TransformerModel) -> bool {
    match event {
        Event::Transformed { snapshot, context, result } => (TransformRun { state: next, result })
            == transform_run(state, snapshot, context),
        Event::Changed(change) => next == after_change(state, change),
        Event::Removed(context) => next == after_removal(state, context),
        Event::Answered(answer) => exists|run: RunModel| #[trigger]
            may_answer(answer, state.files.drives, run) && next == after_answer(
                state,
                answer,
                run,
            ),
    }
}

proof fn lemma_lives(state: TransformerModel, event: Event, next: TransformerModel)
    requires
        comes_to(state, event, next),
    ensures
        forall|later: Seq<Event>| #[trigger] lives(next, later) ==> lives(
            state,
            seq![event] + later,
        ),
{
    assert forall|later: Seq<Event>| #[trigger] lives(next, later) implies lives(
        state,
        seq![event] + later,
    ) by {
        assert((seq![event] + later).drop_first() == later);
    }
}

impl Transformer for RequireByStringTransformer {
    open spec fn may_live(&self, events: Seq<Event>) -> bool {
        lives(self.deep_view(), events)
    }

    open spec fn may_ask(&self) -> bool {
        false
    }

    fn transform(
        &mut self,
        snapshot: InstanceSnapshot,
        context: &TransformContext<'_>,
    ) -> (transformed: Result<InstanceSnapshot, Error<String>>)
        ensures
            (TransformRun { state: final(self).deep_view(), result: outcome(transformed) })
                == transform_run(
                old(self).deep_view(),
                snapshot.deep_view(),
                context.deep_view(),
            ),
    {
        let ghost state = self.deep_view();
        let index = match &self.module_index {
            Some(index) => Some(index.duplicate()),
            None => None,
        };
        let config_count: usize = self.alias_configs.len();
        proof {
            lemma_steps_keep_configs(state, snapshot.deep_view(), context.deep_view());
        }
        let transformed = self.run(snapshot, context);
        match &transformed {
            Err(Error::Unanswered(_)) => {
                self.module_index = index;
                self.alias_configs.truncate(config_count);
                assert(self.deep_view().configs == state.configs);
            },
            _ => self.files.forget(),
        }
        proof {
            let event = transformation(
                snapshot.deep_view(),
                context.deep_view(),
                outcome(transformed),
            );
            lemma_lives(state, event, self.deep_view());
        }
        transformed
    }

    fn handle_change(&mut self, change: &TransformChange)
        ensures
            final(self).deep_view() == after_change(old(self).deep_view(), *change),
    {
        self.files.forget();
        self.alias_configs.drop_dependents(change.path());
        if change.is_removed() {
            if let Some(mut index) = self.module_index.take() {
                index.remove_source_subtree(change.path());
                self.module_index = Some(index);
            }
        }
        proof {
            lemma_lives(old(self).deep_view(), Event::Changed(*change), self.deep_view());
        }
    }

    fn remove_instance(&mut self, context: &TransformContext<'_>)
        ensures
            final(self).deep_view() == after_removal(old(self).deep_view(), context.deep_view()),
    {
        if let Some(path) = &context.instance_path {
            if let Some(mut index) = self.module_index.take() {
                index.remove_instance_subtree(path);
                self.module_index = Some(index);
            }
        }
        proof {
            let event = Event::Removed(context.deep_view());
            lemma_lives(old(self).deep_view(), event, self.deep_view());
        }
    }

    fn handle_answer(&mut self, answer: &FileAnswer)
        ensures
            exists|run: RunModel| #[trigger]
                may_answer(*answer, old(self).deep_view().files.drives, run)
                    && final(self).deep_view() == after_answer(
                    old(self).deep_view(),
                    *answer,
                    run,
                ),
    {
        self.files.record(answer);
        proof {
            lemma_lives(old(self).deep_view(), Event::Answered(*answer), self.deep_view());
        }
    }

    fn needs_project_snapshot(&self) -> (needs: bool)
        ensures
            !needs,
    {
        false
    }
}

/// A run drops no configuration that was loaded before.
pub proof fn loaded_configs_are_kept(
    files: FilesModel,
    index: Seq<IndexedModel>,
    configs: Seq<CachedModel>,
    snapshot: SnapshotModel,
    parent: Seq<Seq<char>>,
)
    ensures
        configs.is_prefix_of(tree_rewritten(files, index, configs, snapshot, parent).configs),
    decreases snapshot,
{
    let path = parent.push(snapshot.name);
    let own = with_source(files, index, configs, snapshot, path);
    lemma_rows_keep_configs(files, index, own.configs, snapshot.children, path);
}

proof fn lemma_rows_keep_configs(
    files: FilesModel,
    index: Seq<IndexedModel>,
    configs: Seq<CachedModel>,
    row: Seq<SnapshotModel>,
    parent: Seq<Seq<char>>,
)
    ensures
        configs.is_prefix_of(row_rewritten(files, index, configs, row, parent).configs),
    decreases row,
{
    if row.len() > 0 {
        let first = tree_rewritten(files, index, configs, row[0], parent);
        loaded_configs_are_kept(files, index, configs, row[0], parent);
        lemma_rows_keep_configs(files, index, first.configs, row.drop_first(), parent);
    }
}

proof fn lemma_steps_keep_configs(
    state: TransformerModel,
    snapshot: SnapshotModel,
    context: ContextModel,
)
    ensures
        state.configs.is_prefix_of(transform_steps(state, snapshot, context).state.configs),
        transform_steps(state, snapshot, context).state.files == state.files,
{
    match starting_index(state, snapshot, context) {
        Ok(index) => {
            let replaced = with_snapshot(index, state.files, snapshot, context.instance_path);
            loaded_configs_are_kept(
                state.files,
                replaced.index,
                state.configs,
                snapshot,
                parent_instance(context.instance_path),
            );
        },
        Err(_) => {},
    }
}

/// Whether two trees hold the same instances: the same names, classes and numbers in the
/// same places.
pub open spec fn same_shape(a: SnapshotModel, b: SnapshotModel) -> bool
    decreases a,
{
    &&& a.snapshot_id == b.snapshot_id
    &&& a.name == b.name
    &&& a.class_name == b.class_name
    &&& same_shapes(a.children, b.children)
}

/// Whether two rows of trees hold the same instances.
pub open spec fn same_shapes(a: Seq<SnapshotModel>, b: Seq<SnapshotModel>) -> bool
    decreases a,
{
    if a.len() == 0 {
        b.len() == 0
    } else {
        &&& b.len() > 0
        &&& same_shape(a[0], b[0])
        &&& same_shapes(a.drop_first(), b.drop_first())
    }
}

/// A transformed tree holds the instances that it held before.
pub proof fn trees_keep_their_shape(
    files: FilesModel,
    index: Seq<IndexedModel>,
    configs: Seq<CachedModel>,
    snapshot: SnapshotModel,
    parent: Seq<Seq<char>>,
)
    ensures
        tree_rewritten(files, index, configs, snapshot, parent).result matches Ok(node)
            ==> same_shape(snapshot, node),
    decreases snapshot,
{
    let path = parent.push(snapshot.name);
    let own = with_source(files, index, configs, snapshot, path);
    scripts_stay_in_place(files, index, configs, snapshot, path);
    lemma_rows_keep_their_shape(files, index, own.configs, snapshot.children, path);
}

proof fn lemma_rows_keep_their_shape(
    files: FilesModel,
    index: Seq<IndexedModel>,
    configs: Seq<CachedModel>,
    row: Seq<SnapshotModel>,
    parent: Seq<Seq<char>>,
)
    ensures
        row_rewritten(files, index, configs, row, parent).result matches Ok(nodes) ==> same_shapes(
            row,
            nodes,
        ),
    decreases row,
{
    if row.len() > 0 {
        let first = tree_rewritten(files, index, configs, row[0], parent);
        let rest = row_rewritten(files, index, first.configs, row.drop_first(), parent);
        trees_keep_their_shape(files, index, configs, row[0], parent);
        lemma_rows_keep_their_shape(files, index, first.configs, row.drop_first(), parent);
        match (first.result, rest.result) {
            (Ok(node), Ok(nodes)) => {
                assert((seq![node] + nodes).drop_first() == nodes);
            },
            _ => {},
        }
    }
}

} // verus!
