//! What holds of every run: it keeps the transformer valid, it waits only for open
//! questions, and an answer settles a question and changes nothing else.

use vstd::prelude::*;

use crate::alias_cache::{
    cached_config, change_drops_dependents, finite_configs, lemma_cached, without_dependents,
    CachedModel,
};
use crate::config::{
    alias_parts, ancestors, computed_aliases_of, directory_of, joined_suffixes,
    lemma_fewer_left, loaded, loaded_aliases_are_finite, lower_text, resolved, with_aliases,
    with_directories, with_directory, written_aliases_of, AliasConfigModel,
};
use crate::config_luau::RunModel;
use crate::edits::{last_first, replaced, replaced_each, Edit};
use crate::error::Error;
use crate::files::{
    canonical_of, metadata_of, with_answer, FileAnswer, FileQuery, FilesModel, QueryKind,
};
use crate::luau::{source_requests, RequireCall};
use crate::module_index::{
    keyed_by_source, module_of, modules_are_never_ambiguous, parent_instance, placed,
    removal_keeps_keys, script_source, source_of, target_of_module, target_of_path,
    with_instance, with_instances, with_snapshot, without_instances, IndexRun, IndexedModel,
};
use crate::paths::{components, joined};
use crate::require_by_string::{
    after_answer, after_change, after_removal, row_rewritten, starting_index, transform_run,
    tree_rewritten, TransformerModel,
};
use crate::rewrite::{
    planned, request_edit, resolved_request, rewritten, source_text, with_requests, with_source,
    SceneModel, SourceRun,
};
use crate::snapshot::SnapshotModel;
use crate::transformer::{ContextModel, TransformChange};

verus! {

/// Whether `more` holds every answer that `files` holds.
pub open spec fn knows_at_least(more: FilesModel, files: FilesModel) -> bool {
    &&& more.home_directory == files.home_directory
    &&& more.drives == files.drives
    &&& files.metadata.submap_of(more.metadata)
    &&& files.aliases.submap_of(more.aliases)
    &&& files.runs.submap_of(more.runs)
    &&& files.canonical.submap_of(more.canonical)
}

/// Whether a result waits for an answer.
pub open spec fn waits<T>(result: Result<T, Error<Seq<char>>>) -> bool {
    result matches Err(Error::Unanswered(_))
}

/// Whether a question has no answer yet.
pub open spec fn is_open(files: FilesModel, question: FileQuery<Seq<char>>) -> bool {
    match question.kind {
        QueryKind::Metadata => !files.metadata.contains_key(question.path),
        QueryKind::Aliases => !files.aliases.contains_key(question.path),
        QueryKind::Contents => !files.runs.contains_key(question.path),
        QueryKind::Canonical => !files.canonical.contains_key(question.path),
    }
}

/// What holds of a result under fewer and under more answers: it waits for an open
/// question, or more answers leave it as it is.
pub open spec fn settled<T>(
    files: FilesModel,
    few: Result<T, Error<Seq<char>>>,
    many: Result<T, Error<Seq<char>>>,
) -> bool {
    match few {
        Err(Error::Unanswered(question)) => is_open(files, question),
        _ => many == few,
    }
}

proof fn lemma_answers(files: FilesModel, more: FilesModel, path: Seq<char>)
    requires
        knows_at_least(more, files),
    ensures
        settled(files, metadata_of(files, path), metadata_of(more, path)),
        settled(files, written_aliases_of(files, path), written_aliases_of(more, path)),
        settled(files, computed_aliases_of(files, path), computed_aliases_of(more, path)),
        settled(files, canonical_of(files, path), canonical_of(more, path)),
        settled(files, directory_of(files, path), directory_of(more, path)),
        settled(files, module_of(files, path), module_of(more, path)),
{
}

proof fn lemma_directory(
    files: FilesModel,
    more: FilesModel,
    config: AliasConfigModel,
    directory: Seq<char>,
)
    requires
        knows_at_least(more, files),
    ensures
        settled(
            files,
            with_directory(files, config, directory),
            with_directory(more, config, directory),
        ),
{
    let luaurc = joined(directory, ".luaurc"@);
    let config_luau = joined(directory, ".config.luau"@);
    lemma_answers(files, more, luaurc);
    lemma_answers(files, more, config_luau);
    let watching = AliasConfigModel {
        relevant_paths: config.relevant_paths.push(luaurc).push(config_luau),
        ..config
    };
    match written_aliases_of(files, luaurc) {
        Ok(declared) => lemma_aliases(watching, declared, directory, luaurc),
        Err(_) => {},
    }
    match computed_aliases_of(files, config_luau) {
        Ok(declared) => lemma_aliases(watching, declared, directory, config_luau),
        Err(_) => {},
    }
}

proof fn lemma_aliases(
    config: AliasConfigModel,
    declared: Seq<(Seq<char>, Seq<char>)>,
    directory: Seq<char>,
    path: Seq<char>,
)
    ensures
        !waits(with_aliases(config, declared, directory, path)),
    decreases declared.len(),
{
    if declared.len() > 0 {
        lemma_aliases(config, declared.drop_last(), directory, path);
    }
}

proof fn lemma_directories(files: FilesModel, more: FilesModel, directories: Seq<Seq<char>>)
    requires
        knows_at_least(more, files),
    ensures
        settled(files, with_directories(files, directories), with_directories(more, directories)),
    decreases directories.len(),
{
    if directories.len() > 0 {
        lemma_directories(files, more, directories.drop_last());
        match with_directories(files, directories.drop_last()) {
            Ok(before) => lemma_directory(files, more, before, directories.last()),
            Err(_) => {},
        }
    }
}

proof fn lemma_loaded(files: FilesModel, more: FilesModel, source_path: Seq<char>)
    requires
        knows_at_least(more, files),
    ensures
        settled(files, loaded(files, source_path), loaded(more, source_path)),
{
    lemma_answers(files, more, source_path);
    match directory_of(files, source_path) {
        Ok(directory) => lemma_directories(files, more, ancestors(directory, files.drives)),
        Err(_) => {},
    }
}

proof fn lemma_target(
    index: Seq<IndexedModel>,
    files: FilesModel,
    more: FilesModel,
    path: Seq<char>,
    importer: Seq<Seq<char>>,
)
    requires
        knows_at_least(more, files),
    ensures
        settled(
            files,
            target_of_module(index, files, path, importer),
            target_of_module(index, more, path, importer),
        ),
{
    lemma_target_of_path(index, files, more, path.push('.') + "luau"@, importer);
    lemma_target_of_path(index, files, more, path.push('.') + "lua"@, importer);
    lemma_target_of_path(index, files, more, path, importer);
}

proof fn lemma_target_of_path(
    index: Seq<IndexedModel>,
    files: FilesModel,
    more: FilesModel,
    path: Seq<char>,
    importer: Seq<Seq<char>>,
)
    requires
        knows_at_least(more, files),
    ensures
        settled(
            files,
            target_of_path(index, files, path, importer),
            target_of_path(index, more, path, importer),
        ),
{
    lemma_answers(files, more, path);
}

proof fn lemma_resolved(
    config: AliasConfigModel,
    home_directory: Option<Seq<char>>,
    name: Seq<char>,
    suffix: Seq<char>,
    importer: Seq<char>,
    followed: Seq<Seq<char>>,
)
    requires
        config.aliases.dom().finite(),
    ensures
        !waits(resolved(config, home_directory, name, suffix, importer, followed)),
    decreases config.aliases.dom().difference(followed.to_set()).len(),
{
    let key = lower_text(name);
    if !followed.contains(key) && config.aliases.contains_key(key) {
        lemma_fewer_left(config.aliases.dom(), followed, key);
        match alias_parts(config.aliases[key].value) {
            Some((nested, nested_suffix)) => lemma_resolved(
                config,
                home_directory,
                nested,
                joined_suffixes(nested_suffix, suffix),
                importer,
                followed.push(key),
            ),
            None => {},
        }
    }
}

proof fn lemma_request(scene: SceneModel, more: FilesModel, call: RequireCall<Seq<char>>)
    requires
        knows_at_least(more, scene.files),
        scene.config.aliases.dom().finite(),
    ensures
        settled(
            scene.files,
            request_edit(scene, call),
            request_edit(SceneModel { files: more, ..scene }, call),
        ),
{
    match alias_parts(call.request) {
        Some((name, suffix)) => lemma_resolved(
            scene.config,
            scene.files.home_directory,
            name,
            suffix,
            scene.directory,
            Seq::empty(),
        ),
        None => {},
    }
    match resolved_request(
        scene.config,
        scene.files.home_directory,
        call.request,
        scene.directory,
    ) {
        Ok(Some(module)) => lemma_target(
            scene.index,
            scene.files,
            more,
            module,
            scene.importer,
        ),
        _ => {},
    }
}

proof fn lemma_planned(scene: SceneModel, more: FilesModel, calls: Seq<RequireCall<Seq<char>>>)
    requires
        knows_at_least(more, scene.files),
        scene.config.aliases.dom().finite(),
    ensures
        settled(
            scene.files,
            planned(scene, calls),
            planned(SceneModel { files: more, ..scene }, calls),
        ),
    decreases calls.len(),
{
    if calls.len() > 0 {
        lemma_planned(scene, more, calls.drop_last());
        lemma_request(scene, more, calls.last());
    }
}

proof fn lemma_edited(text: Seq<char>, edits: Seq<Edit<Seq<char>>>)
    ensures
        !waits(replaced_each(text, edits)),
    decreases edits.len(),
{
    if edits.len() > 0 {
        match replaced(text, edits[0]) {
            Some(next) => lemma_edited(next, edits.drop_first()),
            None => {},
        }
    }
}

proof fn lemma_rewritten(
    scene: SceneModel,
    more: FilesModel,
    snapshot: SnapshotModel,
    source: Seq<char>,
    calls: Seq<RequireCall<Seq<char>>>,
)
    requires
        knows_at_least(more, scene.files),
        scene.config.aliases.dom().finite(),
    ensures
        settled(
            scene.files,
            rewritten(scene, snapshot, source, calls),
            rewritten(SceneModel { files: more, ..scene }, snapshot, source, calls),
        ),
{
    lemma_planned(scene, more, calls);
    match planned(scene, calls) {
        Ok(plan) => lemma_edited(source, last_first(plan.edits)),
        Err(_) => {},
    }
}

/// What holds of a script under fewer and under more answers.
pub open spec fn script_settled(files: FilesModel, few: SourceRun, many: SourceRun) -> bool {
    &&& settled(files, few.result, many.result)
    &&& !waits(few.result) ==> many.configs == few.configs
    &&& finite_configs(few.configs)
}

proof fn lemma_requests(
    files: FilesModel,
    more: FilesModel,
    index: Seq<IndexedModel>,
    configs: Seq<CachedModel>,
    snapshot: SnapshotModel,
    source: Seq<char>,
    source_path: Seq<char>,
    importer: Seq<Seq<char>>,
    calls: Seq<RequireCall<Seq<char>>>,
)
    requires
        knows_at_least(more, files),
        finite_configs(configs),
    ensures
        script_settled(
            files,
            with_requests(
                files,
                index,
                configs,
                snapshot,
                source,
                source_path,
                importer,
                calls,
            ),
            with_requests(more, index, configs, snapshot, source, source_path, importer, calls),
        ),
{
    lemma_answers(files, more, source_path);
    lemma_loaded(files, more, source_path);
    loaded_aliases_are_finite(files, source_path);
    match directory_of(files, source_path) {
        Ok(directory) => {
            let key = components(directory);
            lemma_cached(configs, key);
            let config = match cached_config(configs, key) {
                Some(config) => config,
                None => loaded(files, source_path)->Ok_0,
            };
            if cached_config(configs, key) is Some || loaded(files, source_path) is Ok {
                let scene = SceneModel { files, index, config, directory, source_path, importer };
                lemma_rewritten(scene, more, snapshot, source, calls);
            }
        },
        Err(_) => {},
    }
}

proof fn lemma_script(
    files: FilesModel,
    more: FilesModel,
    index: Seq<IndexedModel>,
    configs: Seq<CachedModel>,
    snapshot: SnapshotModel,
    instance_path: Seq<Seq<char>>,
)
    requires
        knows_at_least(more, files),
        finite_configs(configs),
    ensures
        script_settled(
            files,
            with_source(files, index, configs, snapshot, instance_path),
            with_source(more, index, configs, snapshot, instance_path),
        ),
{
    match (source_text(snapshot), source_of(snapshot.metadata)) {
        (Some(source), Some(source_path)) => {
            lemma_answers(files, more, source_path);
            match source_requests(source) {
                Ok(calls) => lemma_requests(
                    files,
                    more,
                    index,
                    configs,
                    snapshot,
                    source,
                    source_path,
                    instance_path,
                    calls,
                ),
                Err(_) => {},
            }
        },
        _ => {},
    }
}

proof fn lemma_tree(
    files: FilesModel,
    more: FilesModel,
    index: Seq<IndexedModel>,
    configs: Seq<CachedModel>,
    snapshot: SnapshotModel,
    parent: Seq<Seq<char>>,
)
    requires
        knows_at_least(more, files),
        finite_configs(configs),
    ensures
        script_settled(
            files,
            tree_rewritten(files, index, configs, snapshot, parent),
            tree_rewritten(more, index, configs, snapshot, parent),
        ),
    decreases snapshot,
{
    let path = parent.push(snapshot.name);
    lemma_script(files, more, index, configs, snapshot, path);
    let own = with_source(files, index, configs, snapshot, path);
    lemma_row(files, more, index, own.configs, snapshot.children, path);
}

proof fn lemma_row(
    files: FilesModel,
    more: FilesModel,
    index: Seq<IndexedModel>,
    configs: Seq<CachedModel>,
    row: Seq<SnapshotModel>,
    parent: Seq<Seq<char>>,
)
    requires
        knows_at_least(more, files),
        finite_configs(configs),
    ensures
        ({
            let few = row_rewritten(files, index, configs, row, parent);
            let many = row_rewritten(more, index, configs, row, parent);
            &&& settled(files, few.result, many.result)
            &&& !waits(few.result) ==> many.configs == few.configs
            &&& finite_configs(few.configs)
        }),
    decreases row,
{
    if row.len() > 0 {
        lemma_tree(files, more, index, configs, row[0], parent);
        let first = tree_rewritten(files, index, configs, row[0], parent);
        lemma_row(files, more, index, first.configs, row.drop_first(), parent);
    }
}

/// The result of making an index.
pub open spec fn index_result(run: IndexRun) -> Result<Seq<IndexedModel>, Error<Seq<char>>> {
    match run.error {
        Some(e) => Err(e),
        None => Ok(run.index),
    }
}

proof fn lemma_instances(
    index: Seq<IndexedModel>,
    files: FilesModel,
    more: FilesModel,
    row: Seq<(SnapshotModel, Seq<Seq<char>>)>,
)
    requires
        knows_at_least(more, files),
    ensures
        ({
            let few = with_instances(index, files, row);
            let many = with_instances(index, more, row);
            &&& settled(files, index_result(few), index_result(many))
            &&& !waits(index_result(few)) ==> many == few
        }),
    decreases row.len(),
{
    if row.len() > 0 {
        match script_source(row[0].0) {
            Some(source) => lemma_answers(files, more, source),
            None => {},
        }
        let run = with_instance(index, files, row[0].0, row[0].1);
        lemma_instances(run.index, files, more, row.drop_first());
    }
}

/// A run waits only for a question that has no answer yet. Once it does not wait, more
/// answers change neither what it returns nor what becomes of the transformer: the
/// answers may come in any order and all at once.
pub proof fn answers_settle_runs(
    state: TransformerModel,
    more: FilesModel,
    snapshot: SnapshotModel,
    context: ContextModel,
)
    requires
        knows_at_least(more, state.files),
        finite_configs(state.configs),
    ensures
        ({
            let few = transform_run(state, snapshot, context);
            let many = transform_run(
                TransformerModel { files: more, ..state },
                snapshot,
                context,
            );
            &&& settled(state.files, few.result, many.result)
            &&& !waits(few.result) ==> many.state == few.state
            &&& finite_configs(few.state.configs)
        }),
{
    let files = state.files;
    let root = match context.root {
        Some(root) => root,
        None => snapshot,
    };
    lemma_instances(Seq::empty(), files, more, placed(root, Seq::empty()));
    match starting_index(state, snapshot, context) {
        Ok(index) => {
            let removed = match context.instance_path {
                Some(path) => path,
                None => seq![snapshot.name],
            };
            let parent = parent_instance(context.instance_path);
            lemma_instances(
                without_instances(index, removed),
                files,
                more,
                placed(snapshot, parent),
            );
            let replaced = with_snapshot(index, files, snapshot, context.instance_path);
            lemma_tree(files, more, replaced.index, state.configs, snapshot, parent);
        },
        Err(_) => {},
    }
}

/// The question that an answer is for.
pub open spec fn question_of(answer: FileAnswer) -> FileQuery<Seq<char>> {
    match answer {
        FileAnswer::Metadata { path, .. } => FileQuery { kind: QueryKind::Metadata, path: path@ },
        FileAnswer::Aliases { path, .. } => FileQuery { kind: QueryKind::Aliases, path: path@ },
        FileAnswer::Contents { path, .. } => FileQuery { kind: QueryKind::Contents, path: path@ },
        FileAnswer::Canonical { path, .. } => FileQuery { kind: QueryKind::Canonical, path: path@ },
    }
}

/// The answer to an open question closes it and takes no other answer away, however a file
/// whose contents it holds ran.
pub proof fn answers_add_up(files: FilesModel, answer: FileAnswer, run: RunModel)
    requires
        is_open(files, question_of(answer)),
    ensures
        knows_at_least(with_answer(files, answer, run), files),
        !is_open(with_answer(files, answer, run), question_of(answer)),
        forall|question: FileQuery<Seq<char>>|
            question != question_of(answer) ==> #[trigger] is_open(
                with_answer(files, answer, run),
                question,
            ) == is_open(files, question),
{
}

/// A run that waits leaves the transformer as it was: started again with the answer, it
/// is as if the answer had been there from the start.
pub proof fn waiting_runs_change_nothing(
    state: TransformerModel,
    snapshot: SnapshotModel,
    context: ContextModel,
)
    ensures
        waits(transform_run(state, snapshot, context).result) ==> transform_run(
            state,
            snapshot,
            context,
        ).state == state,
{
}

/// What holds of a transformer at all times: every module stands under the path that it
/// comes from, and every configuration declares finitely many aliases.
pub open spec fn valid(state: TransformerModel) -> bool {
    &&& state.index matches Some(index) ==> keyed_by_source(index)
    &&& finite_configs(state.configs)
}

/// A transformer stays valid, whatever happens to it, and while it is valid no two sources
/// claim one module.
pub proof fn transformers_stay_valid(
    state: TransformerModel,
    snapshot: SnapshotModel,
    context: ContextModel,
    change: TransformChange,
    answer: FileAnswer,
    run: RunModel,
)
    requires
        valid(state),
    ensures
        valid(transform_run(state, snapshot, context).state),
        valid(after_change(state, change)),
        valid(after_removal(state, context)),
        valid(after_answer(state, answer, run)),
        match starting_index(state, snapshot, context) {
            Err(error) => !(error is AmbiguousModule),
            Ok(index) => !(with_snapshot(
                index,
                state.files,
                snapshot,
                context.instance_path,
            ).error matches Some(Error::AmbiguousModule { .. })),
        },
{
    answers_settle_runs(state, state.files, snapshot, context);
    let root = match context.root {
        Some(root) => root,
        None => snapshot,
    };
    modules_are_never_ambiguous(Seq::empty(), state.files, placed(root, Seq::empty()));
    match starting_index(state, snapshot, context) {
        Ok(index) => {
            let removed = match context.instance_path {
                Some(path) => path,
                None => seq![snapshot.name],
            };
            let parent = parent_instance(context.instance_path);
            removal_keeps_keys(index, removed, Seq::empty());
            modules_are_never_ambiguous(
                without_instances(index, removed),
                state.files,
                placed(snapshot, parent),
            );
        },
        Err(_) => {},
    }
    match state.index {
        Some(index) => {
            removal_keeps_keys(index, Seq::empty(), change.changed_path());
            match context.instance_path {
                Some(path) => removal_keeps_keys(index, path, Seq::empty()),
                None => {},
            }
        },
        None => {},
    }
    let kept = without_dependents(state.configs, change.changed_path());
    assert forall|i: int| 0 <= i < kept.len() implies (
    #[trigger] kept[i]).config.aliases.dom().finite() by {
        assert(kept.contains(kept[i]));
        change_drops_dependents(state.configs, change.changed_path(), kept[i]);
        let j = choose|j: int| 0 <= j < state.configs.len() && state.configs[j] == kept[i];
        assert(state.configs[j].config.aliases.dom().finite());
    }
}

} // verus!
