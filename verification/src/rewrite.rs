//! Rewriting the requests of one script.

use std::ops::Range;

use vstd::prelude::*;

use crate::alias_cache::{cached_config, AliasCache, CachedModel};
use crate::config::{
    alias_parts, directory_of, is_same_but_case, loaded, resolved, same_but_case,
    source_directory, split_alias, AliasConfig, AliasConfigModel,
};
use crate::edits::{
    apart, apply_edits, by_place, chars_before, edited, edited_text, edits_keep_lines,
    edits_leave_the_rest_alone, in_order, lemma_line_breaks, line_breaks, spliced, Edit,
};
use crate::error::{outcome, Error};
use crate::expression::{
    expressions_hold_no_line_break, format_relative_instance_path, relative_expression,
};
use crate::files::{Files, FilesModel};
use crate::luau::{
    find_require_calls, has_static_require_candidate, requests_lie_apart, source_candidate,
    source_requests, RequireCall,
};
use crate::module_index::{
    luau_module_path, module_of, source_of, source_path, target_of_module, IndexedModel,
    ModuleIndex, ModuleTarget, TargetModel,
};
use crate::paths::{
    components, holds_path, path_set, sort_paths, sorted_paths_are_a_set, strictly_increasing,
};
use crate::snapshot::{InstanceSnapshot, MetadataModel, PropertyValue, SnapshotModel};
use crate::text::chars_of;

verus! {

/// Whether an alias has a meaning of its own that no configuration changes.
pub open spec fn reserved_alias(name: Seq<char>) -> bool {
    same_but_case(name, "self"@) || same_but_case(name, "game"@)
}

/// Whether an alias is `self` or `game`, whatever its case.
pub fn is_reserved_alias(alias_name: &str) -> (reserved: bool)
    ensures
        reserved == reserved_alias(alias_name@),
{
    is_same_but_case(alias_name, "self") || is_same_but_case(alias_name, "game")
}

/// Whether a request starts with a reserved alias.
pub open spec fn reserved_request(request: Seq<char>) -> bool {
    match alias_parts(request) {
        Some((name, _)) => reserved_alias(name),
        None => false,
    }
}

/// Whether a request starts with a reserved alias.
pub fn is_reserved_request(request: &str) -> (reserved: bool)
    ensures
        reserved == reserved_request(request@),
{
    match split_alias(request) {
        Some((alias_name, _)) => is_reserved_alias(alias_name.as_str()),
        None => false,
    }
}

/// The module path that a request leads to. A request that does not start with an alias,
/// or starts with a reserved one, is left to the Luau runtime.
pub open spec fn resolved_request(
    config: AliasConfigModel,
    home_directory: Option<Seq<char>>,
    request: Seq<char>,
    directory: Seq<char>,
) -> Result<Option<Seq<char>>, Error<Seq<char>>> {
    match alias_parts(request) {
        None => Ok(None),
        Some((name, suffix)) => if name.len() == 0 || reserved_alias(name) {
            Ok(None)
        } else {
            match resolved(config, home_directory, name, suffix, directory, Seq::empty()) {
                Ok(path) => Ok(Some(path)),
                Err(e) => Err(e),
            }
        },
    }
}

/// The module path that a request leads to, `None` where it is left as it is.
pub fn resolve_request(
    alias_config: &AliasConfig,
    home_directory: &Option<String>,
    request: &str,
    importer_directory: &str,
) -> (path: Result<Option<String>, Error<String>>)
    ensures
        outcome(path) == resolved_request(
            alias_config.deep_view(),
            home_directory.deep_view(),
            request@,
            importer_directory@,
        ),
{
    match split_alias(request) {
        None => Ok(None),
        Some((alias_name, suffix)) => {
            if alias_name.as_str().is_empty() || is_reserved_alias(alias_name.as_str()) {
                return Ok(None);
            }
            let path = alias_config.resolve(
                alias_name.as_str(),
                suffix.as_str(),
                importer_directory,
                home_directory,
            )?;
            Ok(Some(path))
        },
    }
}

/// What the requests of a script are resolved against.
pub struct SceneModel {
    pub files: FilesModel,
    pub index: Seq<IndexedModel>,
    pub config: AliasConfigModel,
    /// The directory of the script.
    pub directory: Seq<char>,
    /// The source of the script.
    pub source_path: Seq<char>,
    /// The path of the script in the tree.
    pub importer: Seq<Seq<char>>,
}

/// The instance that a request leads to and the edit that puts the way there in place of
/// the request; nothing where the request is left as it is.
pub open spec fn request_edit(scene: SceneModel, call: RequireCall<Seq<char>>) -> Result<
    Option<(Edit<Seq<char>>, TargetModel)>,
    Error<Seq<char>>,
> {
    match resolved_request(
        scene.config,
        scene.files.home_directory,
        call.request,
        scene.directory,
    ) {
        Err(e) => Err(e),
        Ok(None) => Ok(None),
        Ok(Some(module)) => match target_of_module(
            scene.index,
            scene.files,
            module,
            scene.importer,
        ) {
            Err(e) => Err(e),
            Ok(None) => Err(
                Error::MissingModule {
                    request: call.request,
                    source_path: scene.source_path,
                    module,
                },
            ),
            Ok(Some(target)) => match relative_expression(scene.importer, target.instance_path) {
                Err(e) => Err(e),
                Ok(expression) => Ok(
                    Some(
                        (
                            Edit {
                                range: call.source_range,
                                replacement: if call.bare_string {
                                    "("@ + expression + ")"@
                                } else {
                                    expression
                                },
                            },
                            target,
                        ),
                    ),
                ),
            },
        },
    }
}

/// The edits of a script and the paths that they depend on.
pub struct PlanModel {
    pub edits: Seq<Edit<Seq<char>>>,
    pub relevant_paths: Seq<Seq<char>>,
}

/// The edits for a row of requests, or the first error.
pub open spec fn planned(scene: SceneModel, calls: Seq<RequireCall<Seq<char>>>) -> Result<
    PlanModel,
    Error<Seq<char>>,
>
    decreases calls.len(),
{
    if calls.len() == 0 {
        Ok(PlanModel { edits: seq![], relevant_paths: seq![] })
    } else {
        match planned(scene, calls.drop_last()) {
            Err(e) => Err(e),
            Ok(plan) => match request_edit(scene, calls.last()) {
                Err(e) => Err(e),
                Ok(None) => Ok(plan),
                Ok(Some((edit, target))) => Ok(
                    PlanModel {
                        edits: plan.edits.push(edit),
                        relevant_paths: plan.relevant_paths.push(target.source_path)
                            + target.relevant_paths,
                    },
                ),
            },
        }
    }
}

/// A snapshot with the edits of a plan in its source, and with the paths that matter to
/// them among its own.
pub open spec fn with_plan(
    snapshot: SnapshotModel,
    source: Seq<char>,
    plan: PlanModel,
    config: AliasConfigModel,
) -> Result<SnapshotModel, Error<Seq<char>>> {
    if plan.edits.len() == 0 {
        Ok(snapshot)
    } else {
        match edited(source, plan.edits) {
            Err(e) => Err(e),
            Ok(text) => Ok(
                SnapshotModel {
                    properties: snapshot.properties.insert(
                        "Source"@,
                        PropertyValue::Text(text),
                    ),
                    metadata: MetadataModel {
                        relevant_paths: path_set(
                            snapshot.metadata.relevant_paths + plan.relevant_paths
                                + config.relevant_paths,
                        ),
                        ..snapshot.metadata
                    },
                    ..snapshot
                },
            ),
        }
    }
}

/// A snapshot with its requests rewritten.
pub open spec fn rewritten(
    scene: SceneModel,
    snapshot: SnapshotModel,
    source: Seq<char>,
    calls: Seq<RequireCall<Seq<char>>>,
) -> Result<SnapshotModel, Error<Seq<char>>> {
    match planned(scene, calls) {
        Err(e) => Err(e),
        Ok(plan) => with_plan(snapshot, source, plan, scene.config),
    }
}

/// What becomes of a script, and the configurations that are loaded by then.
pub struct SourceRun {
    pub configs: Seq<CachedModel>,
    pub result: Result<SnapshotModel, Error<Seq<char>>>,
}

/// Whether a request needs an alias of a configuration.
pub open spec fn needs_config(call: RequireCall<Seq<char>>) -> bool {
    alias_parts(call.request) is Some && !reserved_request(call.request)
}

/// Whether a row of requests needs an alias of a configuration.
pub open spec fn need_config(calls: Seq<RequireCall<Seq<char>>>) -> bool {
    exists|i: int| 0 <= i < calls.len() && needs_config(#[trigger] calls[i])
}

/// A script with its requests rewritten. Its configuration is loaded where a request
/// needs it and it was not loaded before.
pub open spec fn with_requests(
    files: FilesModel,
    index: Seq<IndexedModel>,
    configs: Seq<CachedModel>,
    snapshot: SnapshotModel,
    source: Seq<char>,
    source_path: Seq<char>,
    importer: Seq<Seq<char>>,
    calls: Seq<RequireCall<Seq<char>>>,
) -> SourceRun {
    if !need_config(calls) {
        SourceRun { configs, result: Ok(snapshot) }
    } else {
        match directory_of(files, source_path) {
            Err(e) => SourceRun { configs, result: Err(e) },
            Ok(directory) => match cached_config(configs, components(directory)) {
                Some(config) => SourceRun {
                    configs,
                    result: rewritten(
                        SceneModel { files, index, config, directory, source_path, importer },
                        snapshot,
                        source,
                        calls,
                    ),
                },
                None => match loaded(files, source_path) {
                    Err(e) => SourceRun { configs, result: Err(e) },
                    Ok(config) => SourceRun {
                        configs: configs.push(
                            CachedModel { directory: components(directory), config },
                        ),
                        result: rewritten(
                            SceneModel { files, index, config, directory, source_path, importer },
                            snapshot,
                            source,
                            calls,
                        ),
                    },
                },
            },
        }
    }
}

/// Whether `text` holds `word`.
pub open spec fn mentions(text: Seq<char>, word: Seq<char>) -> bool {
    exists|i: int|
        0 <= i <= text.len() - word.len() && #[trigger] text.subrange(i, i + word.len()) == word
}

/// The text of the `Source` property, where it is a text.
pub open spec fn source_text(snapshot: SnapshotModel) -> Option<Seq<char>> {
    if !snapshot.properties.contains_key("Source"@) {
        None
    } else {
        match snapshot.properties["Source"@] {
            PropertyValue::Text(text) => Some(text),
            PropertyValue::Other(_) => None,
        }
    }
}

/// What becomes of one instance: a script that comes from a module has its requests
/// rewritten, anything else stays as it is.
pub open spec fn with_source(
    files: FilesModel,
    index: Seq<IndexedModel>,
    configs: Seq<CachedModel>,
    snapshot: SnapshotModel,
    instance_path: Seq<Seq<char>>,
) -> SourceRun {
    match (source_text(snapshot), source_of(snapshot.metadata)) {
        (Some(source), Some(source_path)) => match module_of(files, source_path) {
            Err(e) => SourceRun { configs, result: Err(e) },
            Ok(None) => SourceRun { configs, result: Ok(snapshot) },
            Ok(Some(_)) => if !mentions(source, "require"@) {
                SourceRun { configs, result: Ok(snapshot) }
            } else {
                match source_candidate(source) {
                    Err(e) => SourceRun { configs, result: Err(e) },
                    Ok(false) => SourceRun { configs, result: Ok(snapshot) },
                    Ok(true) => match source_requests(source) {
                        Err(e) => SourceRun { configs, result: Err(e) },
                        Ok(calls) => with_requests(
                            files,
                            index,
                            configs,
                            snapshot,
                            source,
                            source_path,
                            instance_path,
                            calls,
                        ),
                    },
                }
            },
        },
        _ => SourceRun { configs, result: Ok(snapshot) },
    }
}

struct Plan {
    edits: Vec<Edit<String>>,
    relevant_paths: Vec<String>,
}

impl DeepView for Plan {
    type V = PlanModel;

    closed spec fn deep_view(&self) -> PlanModel {
        PlanModel {
            edits: self.edits.deep_view(),
            relevant_paths: self.relevant_paths.deep_view(),
        }
    }
}

struct Scene<'a> {
    files: &'a Files,
    index: &'a ModuleIndex,
    config: &'a AliasConfig,
    directory: &'a str,
    source_path: &'a str,
    importer: &'a Vec<String>,
}

impl<'a> Scene<'a> {
    spec fn model(&self) -> SceneModel {
        SceneModel {
            files: self.files.deep_view(),
            index: self.index.deep_view(),
            config: self.config.deep_view(),
            directory: self.directory@,
            source_path: self.source_path@,
            importer: self.importer.deep_view(),
        }
    }

    fn request_edit(&self, call: &RequireCall<String>) -> (edit: Result<
        Option<(Edit<String>, &'a ModuleTarget)>,
        Error<String>,
    >)
        ensures
            outcome(edit) == request_edit(self.model(), call.deep_view()),
    {
        let home_directory = self.files.home_directory();
        let module = match resolve_request(
            self.config,
            &home_directory,
            call.request.as_str(),
            self.directory,
        )? {
            None => {
                return Ok(None);
            },
            Some(module) => module,
        };
        let target = match self.index.target(module.as_str(), self.files, self.importer)? {
            None => {
                return Err(
                    Error::MissingModule {
                        request: call.request.clone(),
                        source_path: self.source_path.to_owned(),
                        module,
                    },
                );
            },
            Some(target) => target,
        };
        let expression = format_relative_instance_path(self.importer, &target.instance_path)?;
        let replacement = if call.bare_string {
            let mut wrapped = "(".to_owned();
            wrapped.append(expression.as_str());
            wrapped.append(")");
            wrapped
        } else {
            expression
        };
        let range = Range { start: call.source_range.start, end: call.source_range.end };
        Ok(Some((Edit { range, replacement }, target)))
    }

    fn plan(&self, calls: &Vec<RequireCall<String>>) -> (plan: Result<Plan, Error<String>>)
        ensures
            outcome(plan) == planned(self.model(), calls.deep_view()),
    {
        let ghost scene = self.model();
        let mut edits: Vec<Edit<String>> = Vec::new();
        let mut relevant_paths: Vec<String> = Vec::new();
        let mut i: usize = 0;
        assert(edits.deep_view() == Seq::<Edit<Seq<char>>>::empty());
        assert(relevant_paths.deep_view() == Seq::<Seq<char>>::empty());
        while i < calls.len()
            invariant
                i <= calls@.len(),
                scene == self.model(),
                planned(scene, calls.deep_view().take(i as int)) == Ok::<
                    PlanModel,
                    Error<Seq<char>>,
                >(
                    PlanModel {
                        edits: edits.deep_view(),
                        relevant_paths: relevant_paths.deep_view(),
                    },
                ),
            decreases calls@.len() - i,
        {
            let ghost done = calls.deep_view().take(i + 1);
            assert(done.drop_last() == calls.deep_view().take(i as int));
            assert(done.last() == calls@[i as int].deep_view());
            match self.request_edit(&calls[i]) {
                Err(e) => {
                    proof {
                        lemma_first_error(scene, calls.deep_view(), (i + 1) as nat);
                    }
                    return Err(e);
                },
                Ok(None) => {},
                Ok(Some((edit, target))) => {
                    let ghost before = edits.deep_view();
                    let ghost paths = relevant_paths.deep_view();
                    let ghost new = edit.deep_view();
                    edits.push(edit);
                    assert(edits.deep_view() == before.push(new));
                    relevant_paths.push(target.source_path.clone());
                    append_paths(&mut relevant_paths, &target.relevant_paths);
                    assert(relevant_paths.deep_view() == paths.push(target.source_path@)
                        + target.relevant_paths.deep_view());
                },
            }
            i += 1;
        }
        assert(calls.deep_view().take(i as int) == calls.deep_view());
        Ok(Plan { edits, relevant_paths })
    }

    fn rewrite(
        &self,
        snapshot: InstanceSnapshot,
        source: &str,
        calls: &Vec<RequireCall<String>>,
    ) -> (result: Result<InstanceSnapshot, Error<String>>)
        ensures
            outcome(result) == rewritten(
                self.model(),
                snapshot.deep_view(),
                source@,
                calls.deep_view(),
            ),
    {
        let plan = self.plan(calls)?;
        if plan.edits.len() == 0 {
            return Ok(snapshot);
        }
        let text = apply_edits(source, plan.edits)?;
        let mut snapshot = snapshot;
        let ghost before = snapshot.deep_view();
        let mut paths = snapshot.metadata.relevant_paths;
        append_paths(&mut paths, &plan.relevant_paths);
        append_paths(&mut paths, self.config.relevant_paths());
        snapshot.metadata.relevant_paths = sort_paths(paths);
        snapshot.properties.insert("Source".to_owned(), PropertyValue::Text(text));
        assert(snapshot.deep_view().children =~= before.children);
        Ok(snapshot)
    }
}

fn append_paths(paths: &mut Vec<String>, more: &Vec<String>)
    ensures
        final(paths).deep_view() == old(paths).deep_view() + more.deep_view(),
{
    let ghost start = paths.deep_view();
    let mut i: usize = 0;
    assert(start + more.deep_view().take(0) == start);
    while i < more.len()
        invariant
            i <= more@.len(),
            paths.deep_view() == start + more.deep_view().take(i as int),
            start == old(paths).deep_view(),
        decreases more@.len() - i,
    {
        let ghost before = paths.deep_view();
        paths.push(more[i].clone());
        assert(paths.deep_view() == before.push(more@[i as int]@));
        i += 1;
        assert(paths.deep_view() == start + more.deep_view().take(i as int));
    }
    assert(more.deep_view().take(i as int) == more.deep_view());
}

/// The error of a request is the error of the whole row.
proof fn lemma_first_error(scene: SceneModel, calls: Seq<RequireCall<Seq<char>>>, count: nat)
    requires
        count <= calls.len(),
        planned(scene, calls.take(count as int)) is Err,
    ensures
        planned(scene, calls) == planned(scene, calls.take(count as int)),
    decreases calls.len(),
{
    if count == calls.len() {
        assert(calls.take(count as int) == calls);
    } else {
        assert(calls.drop_last().take(count as int) == calls.take(count as int));
        lemma_first_error(scene, calls.drop_last(), count);
    }
}

fn calls_need_config(calls: &Vec<RequireCall<String>>) -> (need: bool)
    ensures
        need == need_config(calls.deep_view()),
{
    let mut i: usize = 0;
    while i < calls.len()
        invariant
            i <= calls@.len(),
            forall|j: int| 0 <= j < i ==> !needs_config(#[trigger] calls.deep_view()[j]),
        decreases calls@.len() - i,
    {
        assert(calls.deep_view()[i as int] == calls@[i as int].deep_view());
        let request = calls[i].request.as_str();
        if split_alias(request).is_some() && !is_reserved_request(request) {
            return true;
        }
        i += 1;
    }
    false
}

/// Rewrites the requests of a script. The configuration of its directory is loaded
/// where a request needs it and it was not loaded before.
pub fn rewrite_requests(
    files: &Files,
    module_index: &ModuleIndex,
    alias_configs: &mut AliasCache,
    snapshot: InstanceSnapshot,
    source: &str,
    source_path: &str,
    importer_instance_path: &Vec<String>,
    calls: &Vec<RequireCall<String>>,
) -> (result: Result<InstanceSnapshot, Error<String>>)
    ensures
        (SourceRun { configs: final(alias_configs).deep_view(), result: outcome(result) })
            == with_requests(
            files.deep_view(),
            module_index.deep_view(),
            old(alias_configs).deep_view(),
            snapshot.deep_view(),
            source@,
            source_path@,
            importer_instance_path.deep_view(),
            calls.deep_view(),
        ),
{
    if !calls_need_config(calls) {
        return Ok(snapshot);
    }
    let directory = source_directory(files, source_path)?;
    if let Some(config) = alias_configs.get(directory.as_str()) {
        let scene = Scene {
            files,
            index: module_index,
            config,
            directory: directory.as_str(),
            source_path,
            importer: importer_instance_path,
        };
        return scene.rewrite(snapshot, source, calls);
    }
    let config = AliasConfig::load(files, source_path)?;
    let scene = Scene {
        files,
        index: module_index,
        config: &config,
        directory: directory.as_str(),
        source_path,
        importer: importer_instance_path,
    };
    let result = scene.rewrite(snapshot, source, calls);
    alias_configs.insert(directory.as_str(), config);
    result
}

pub(crate) fn holds_word(text: &str, word: &str) -> (holds: bool)
    ensures
        holds == mentions(text@, word@),
{
    let chars = chars_of(text);
    let wanted = chars_of(word);
    if wanted.len() > chars.len() {
        return false;
    }
    let last: usize = chars.len() - wanted.len();
    let mut i: usize = 0;
    loop
        invariant
            i <= last,
            last == chars.len() - wanted.len(),
            chars@ == text@,
            wanted@ == word@,
            forall|j: int| 0 <= j < i ==> #[trigger] text@.subrange(j, j + word@.len()) != word@,
        decreases last - i,
    {
        let mut k: usize = 0;
        while k < wanted.len() && chars[i + k] == wanted[k]
            invariant
                k <= wanted@.len(),
                i <= last,
                last == chars.len() - wanted.len(),
                forall|j: int| 0 <= j < k ==> chars@[i + j] == #[trigger] wanted@[j],
            decreases wanted@.len() - k,
        {
            k += 1;
        }
        if k == wanted.len() {
            assert(text@.subrange(i as int, i + word@.len()) == word@);
            return true;
        }
        assert(text@.subrange(i as int, i + word@.len())[k as int] != word@[k as int]);
        if i == last {
            return false;
        }
        i += 1;
    }
}

/// The text of the `Source` property, where it is a text.
pub fn script_text(snapshot: &InstanceSnapshot) -> (text: Option<String>)
    ensures
        text.deep_view() == source_text(snapshot.deep_view()),
{
    match snapshot.properties.get("Source") {
        Some(PropertyValue::Text(source)) => Some(source.clone()),
        _ => None,
    }
}

/// Whether a range is that of the literal of a request.
pub open spec fn is_request_range(
    calls: Seq<RequireCall<Seq<char>>>,
    range: Range<usize>,
) -> bool {
    exists|j: int| 0 <= j < calls.len() && (#[trigger] calls[j]).source_range == range
}

/// Whether `text` is `source` with something in place of literals of its requests, and with
/// the rest of it as it was.
pub open spec fn differs_in_requests(source: Seq<char>, text: Seq<char>) -> bool {
    text == source || exists|edits: Seq<Edit<Seq<char>>>|
        {
            &&& #[trigger] in_order(source, edits)
            &&& text == spliced(source, edits)
            &&& source_requests(source) matches Ok(calls) && forall|i: int|
                0 <= i < edits.len() ==> is_request_range(calls, (#[trigger] edits[i]).range)
        }
}

/// Whether an instance has no source before and after, or one that differs in its requests
/// at most.
pub open spec fn keeps_the_rest(before: SnapshotModel, after: SnapshotModel) -> bool {
    match (source_text(before), source_text(after)) {
        (Some(source), Some(text)) => differs_in_requests(source, text),
        (None, None) => true,
        _ => false,
    }
}

/// Rewrites the requests of an instance, where it is a script that comes from a module.
/// The rest of its source stays as it is.
pub fn transform_source(
    files: &Files,
    module_index: &ModuleIndex,
    alias_configs: &mut AliasCache,
    snapshot: InstanceSnapshot,
    instance_path: &Vec<String>,
) -> (result: Result<InstanceSnapshot, Error<String>>)
    ensures
        (SourceRun { configs: final(alias_configs).deep_view(), result: outcome(result) })
            == with_source(
            files.deep_view(),
            module_index.deep_view(),
            old(alias_configs).deep_view(),
            snapshot.deep_view(),
            instance_path.deep_view(),
        ),
        result matches Ok(node) ==> keeps_the_rest(snapshot.deep_view(), node.deep_view()),
{
    let source = match script_text(&snapshot) {
        Some(source) => source,
        None => {
            return Ok(snapshot);
        },
    };
    let source_path = match source_path(&snapshot) {
        Some(source_path) => source_path,
        None => {
            return Ok(snapshot);
        },
    };
    if luau_module_path(files, source_path.as_str())?.is_none() {
        return Ok(snapshot);
    }
    if !holds_word(source.as_str(), "require") {
        return Ok(snapshot);
    }
    if !has_static_require_candidate(source.as_str())? {
        return Ok(snapshot);
    }
    let calls = find_require_calls(source.as_str())?;
    proof {
        requests_are_all_that_changes(
            files.deep_view(),
            module_index.deep_view(),
            alias_configs.deep_view(),
            snapshot.deep_view(),
            instance_path.deep_view(),
        );
    }
    rewrite_requests(
        files,
        module_index,
        alias_configs,
        snapshot,
        source.as_str(),
        source_path.as_str(),
        instance_path,
        &calls,
    )
}

/// Whether Roblox resolves a request by itself: it does not start with `@`, or it starts
/// with `@self` or `@game`.
pub open spec fn is_native(request: Seq<char>) -> bool {
    request.len() == 0 || request[0] != '@' || reserved_request(request)
}

/// A script with native requests only stays as it is, and no configuration is loaded for
/// it.
pub proof fn native_scripts_stay(
    files: FilesModel,
    index: Seq<IndexedModel>,
    configs: Seq<CachedModel>,
    snapshot: SnapshotModel,
    source: Seq<char>,
    source_path: Seq<char>,
    importer: Seq<Seq<char>>,
    calls: Seq<RequireCall<Seq<char>>>,
)
    requires
        forall|i: int| 0 <= i < calls.len() ==> is_native((#[trigger] calls[i]).request),
    ensures
        with_requests(
            files,
            index,
            configs,
            snapshot,
            source,
            source_path,
            importer,
            calls,
        ) == (SourceRun { configs, result: Ok(snapshot) }),
{
    if need_config(calls) {
        let i = choose|i: int| 0 <= i < calls.len() && needs_config(#[trigger] calls[i]);
        assert(is_native(calls[i].request));
    }
}

/// Whether an edit is the one for a request, and the request is not a native one.
pub open spec fn is_edit_for(
    scene: SceneModel,
    call: RequireCall<Seq<char>>,
    edit: Edit<Seq<char>>,
) -> bool {
    &&& !is_native(call.request)
    &&& request_edit(scene, call) matches Ok(Some((found, _))) && found == edit
}

/// Every edit stands for a request, and none of them for a native one.
pub proof fn edits_stand_for_requests(scene: SceneModel, calls: Seq<RequireCall<Seq<char>>>)
    ensures
        planned(scene, calls) matches Ok(plan) ==> forall|i: int|
            0 <= i < plan.edits.len() ==> exists|j: int|
                0 <= j < calls.len() && is_edit_for(
                    scene,
                    #[trigger] calls[j],
                    #[trigger] plan.edits[i],
                ),
    decreases calls.len(),
{
    if calls.len() > 0 && planned(scene, calls) is Ok {
        let before = calls.drop_last();
        let last = calls.len() - 1;
        edits_stand_for_requests(scene, before);
        let plan = planned(scene, calls)->Ok_0;
        let earlier = planned(scene, before)->Ok_0;
        assert forall|i: int| 0 <= i < plan.edits.len() implies exists|j: int|
            0 <= j < calls.len() && is_edit_for(
                scene,
                #[trigger] calls[j],
                #[trigger] plan.edits[i],
            ) by {
            if i < earlier.edits.len() {
                assert(plan.edits[i] == earlier.edits[i]);
                let j = choose|j: int|
                    0 <= j < before.len() && is_edit_for(
                        scene,
                        #[trigger] before[j],
                        earlier.edits[i],
                    );
                assert(is_edit_for(scene, calls[j], plan.edits[i]));
            } else {
                assert(is_edit_for(scene, calls[last], plan.edits[i]));
            }
        }
    }
}

/// Where the literals of requests do not overlap, neither do the edits for them.
proof fn lemma_edits_apart(
    scene: SceneModel,
    source: Seq<char>,
    calls: Seq<RequireCall<Seq<char>>>,
)
    requires
        requests_lie_apart(source, calls),
    ensures
        planned(scene, calls) matches Ok(plan) ==> apart(source, plan.edits),
    decreases calls.len(),
{
    if calls.len() > 0 && planned(scene, calls) is Ok {
        let before = calls.drop_last();
        let last = calls.len() - 1;
        assert(forall|i: int| 0 <= i < before.len() ==> before[i] == calls[i]);
        assert(requests_lie_apart(source, before)) by {
            assert forall|i: int, j: int| 0 <= i < j < before.len() implies {
                ||| (#[trigger] before[i]).source_range.end <= (
                #[trigger] before[j]).source_range.start
                ||| before[j].source_range.end <= before[i].source_range.start
            } by {
                assert(before[i] == calls[i] && before[j] == calls[j]);
            }
        }
        lemma_edits_apart(scene, source, before);
        edits_stand_for_requests(scene, before);
        let plan = planned(scene, calls)->Ok_0;
        let earlier = planned(scene, before)->Ok_0;
        if plan.edits.len() > earlier.edits.len() {
            let edit = plan.edits.last();
            assert(plan.edits == earlier.edits.push(edit));
            assert(edit.range == calls[last].source_range);
            assert forall|i: int| 0 <= i < earlier.edits.len() implies {
                let range = (#[trigger] earlier.edits[i]).range;
                range.end <= edit.range.start || edit.range.end <= range.start
            } by {
                let j = choose|j: int|
                    0 <= j < before.len() && is_edit_for(
                        scene,
                        #[trigger] before[j],
                        earlier.edits[i],
                    );
                assert(before[j] == calls[j]);
            }
            assert forall|i: int| 0 <= i < plan.edits.len() implies {
                let range = (#[trigger] plan.edits[i]).range;
                &&& range.start < range.end
                &&& chars_before(source, range.start as nat) is Some
                &&& chars_before(source, range.end as nat) is Some
            } by {
                if i < earlier.edits.len() {
                    assert(plan.edits[i] == earlier.edits[i]);
                }
            }
            assert forall|i: int, j: int| 0 <= i < j < plan.edits.len() implies {
                ||| (#[trigger] plan.edits[i]).range.end <= (#[trigger] plan.edits[j]).range.start
                ||| plan.edits[j].range.end <= plan.edits[i].range.start
            } by {
                assert(plan.edits[i] == earlier.edits[i]);
                if j < earlier.edits.len() {
                    assert(plan.edits[j] == earlier.edits[j]);
                }
            }
        }
    }
}

proof fn lemma_replacements(scene: SceneModel, call: RequireCall<Seq<char>>)
    ensures
        request_edit(scene, call) matches Ok(Some((edit, _))) ==> line_breaks(edit.replacement)
            == 0,
{
    match request_edit(scene, call) {
        Ok(Some((edit, target))) => {
            expressions_hold_no_line_break(scene.importer, target.instance_path);
            let expression = relative_expression(scene.importer, target.instance_path)->Ok_0;
            reveal_strlit("(");
            reveal_strlit(")");
            reveal_with_fuel(line_breaks, 2);
            lemma_line_breaks("("@ + expression, ")"@);
            lemma_line_breaks("("@, expression);
        },
        _ => {},
    }
}

/// Rewriting replaces the literals of the requests and leaves the rest of the source
/// alone. Where no such literal spans lines, every line stays on its number.
pub proof fn rewriting_keeps_the_rest_of_the_source(
    scene: SceneModel,
    snapshot: SnapshotModel,
    source: Seq<char>,
    calls: Seq<RequireCall<Seq<char>>>,
    plan: PlanModel,
)
    requires
        source_text(snapshot) == Some(source),
        planned(scene, calls) == Ok::<PlanModel, Error<Seq<char>>>(plan),
        requests_lie_apart(source, calls),
    ensures
        in_order(source, by_place(plan.edits)),
        by_place(plan.edits).to_multiset() == plan.edits.to_multiset(),
        rewritten(scene, snapshot, source, calls) matches Ok(node) && source_text(node) == Some(
            spliced(source, by_place(plan.edits)),
        ),
        (forall|i: int|
            0 <= i < plan.edits.len() ==> line_breaks(
                edited_text(source, #[trigger] plan.edits[i]),
            ) == 0) ==> line_breaks(spliced(source, by_place(plan.edits))) == line_breaks(source),
{
    lemma_edits_apart(scene, source, calls);
    edits_leave_the_rest_alone(source, plan.edits);
    if forall|i: int|
        0 <= i < plan.edits.len() ==> line_breaks(edited_text(source, #[trigger] plan.edits[i]))
            == 0 {
        edits_stand_for_requests(scene, calls);
        assert forall|i: int| 0 <= i < plan.edits.len() implies line_breaks(
            (#[trigger] plan.edits[i]).replacement,
        ) == 0 by {
            let j = choose|j: int|
                0 <= j < calls.len() && is_edit_for(scene, #[trigger] calls[j], plan.edits[i]);
            lemma_replacements(scene, calls[j]);
        }
        edits_keep_lines(source, plan.edits);
    }
}

/// A script whose requests do not overlap keeps the rest of its source.
pub proof fn requests_are_all_that_changes(
    files: FilesModel,
    index: Seq<IndexedModel>,
    configs: Seq<CachedModel>,
    snapshot: SnapshotModel,
    instance_path: Seq<Seq<char>>,
)
    requires
        source_text(snapshot) matches Some(source) ==> (source_requests(source) matches Ok(calls)
            ==> requests_lie_apart(source, calls)),
    ensures
        with_source(files, index, configs, snapshot, instance_path).result matches Ok(node)
            ==> keeps_the_rest(snapshot, node),
{
    match (source_text(snapshot), source_of(snapshot.metadata)) {
        (Some(source), Some(source_path)) => match (
            source_requests(source),
            directory_of(files, source_path),
        ) {
            (Ok(calls), Ok(directory)) => {
                let config = match cached_config(configs, components(directory)) {
                    Some(config) => config,
                    None => loaded(files, source_path)->Ok_0,
                };
                let scene = SceneModel {
                    files,
                    index,
                    config,
                    directory,
                    source_path,
                    importer: instance_path,
                };
                if planned(scene, calls) is Ok {
                    lemma_requests_change(scene, snapshot, source, calls);
                }
            },
            _ => {},
        },
        _ => {},
    }
}

proof fn lemma_requests_change(
    scene: SceneModel,
    snapshot: SnapshotModel,
    source: Seq<char>,
    calls: Seq<RequireCall<Seq<char>>>,
)
    requires
        source_text(snapshot) == Some(source),
        source_requests(source) == Ok::<Seq<RequireCall<Seq<char>>>, Error<Seq<char>>>(calls),
        requests_lie_apart(source, calls),
        planned(scene, calls) is Ok,
    ensures
        rewritten(scene, snapshot, source, calls) matches Ok(node) && keeps_the_rest(
            snapshot,
            node,
        ),
{
    broadcast use vstd::seq_lib::group_to_multiset_ensures;

    let plan = planned(scene, calls)->Ok_0;
    let edits = by_place(plan.edits);
    rewriting_keeps_the_rest_of_the_source(scene, snapshot, source, calls, plan);
    edits_stand_for_requests(scene, calls);
    assert forall|i: int| 0 <= i < edits.len() implies is_request_range(
        calls,
        (#[trigger] edits[i]).range,
    ) by {
        assert(edits.contains(edits[i]));
        assert(plan.edits.to_multiset().count(edits[i]) > 0);
        assert(plan.edits.contains(edits[i]));
        let k = choose|k: int| 0 <= k < plan.edits.len() && plan.edits[k] == edits[i];
        let j = choose|j: int|
            0 <= j < calls.len() && is_edit_for(scene, #[trigger] calls[j], plan.edits[k]);
        assert(calls[j].source_range == edits[i].range);
    }
    assert(differs_in_requests(source, spliced(source, edits)));
}

/// The paths that matter to a rewritten script are those that mattered before, those of
/// the modules that it requires and those of its configuration, in order and each once.
pub proof fn rewritten_scripts_watch_what_they_use(
    snapshot: SnapshotModel,
    source: Seq<char>,
    plan: PlanModel,
    config: AliasConfigModel,
    path: Seq<char>,
)
    requires
        plan.edits.len() > 0,
    ensures
        with_plan(snapshot, source, plan, config) matches Ok(node) ==> {
            &&& strictly_increasing(node.metadata.relevant_paths)
            &&& holds_path(node.metadata.relevant_paths, path) <==> holds_path(
                snapshot.metadata.relevant_paths,
                path,
            ) || holds_path(plan.relevant_paths, path) || holds_path(config.relevant_paths, path)
        },
{
    let own = snapshot.metadata.relevant_paths;
    let all = own + plan.relevant_paths + config.relevant_paths;
    sorted_paths_are_a_set(all);
    if holds_path(all, path) {
        let i = choose|i: int|
            0 <= i < all.len() && components(#[trigger] all[i]) == components(path);
        if i < own.len() {
            assert(own[i] == all[i]);
        } else if i < own.len() + plan.relevant_paths.len() {
            assert(plan.relevant_paths[i - own.len()] == all[i]);
        } else {
            assert(config.relevant_paths[i - own.len() - plan.relevant_paths.len()] == all[i]);
        }
    }
    if holds_path(own, path) {
        let i = choose|i: int|
            0 <= i < own.len() && components(#[trigger] own[i]) == components(path);
        assert(all[i] == own[i]);
    }
    if holds_path(plan.relevant_paths, path) {
        let i = choose|i: int|
            0 <= i < plan.relevant_paths.len() && components(#[trigger] plan.relevant_paths[i])
                == components(path);
        assert(all[own.len() + i] == plan.relevant_paths[i]);
    }
    if holds_path(config.relevant_paths, path) {
        let i = choose|i: int|
            0 <= i < config.relevant_paths.len() && components(
                #[trigger] config.relevant_paths[i],
            ) == components(path);
        assert(all[own.len() + plan.relevant_paths.len() + i] == config.relevant_paths[i]);
    }
}

} // verus!
