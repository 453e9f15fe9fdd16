//! Which instance stands for which module.

use vstd::prelude::*;

use crate::config::is_directory;
use crate::error::{outcome, Error};
use crate::files::{canonical_of, metadata_of, FileKind, Files, FilesModel};
use crate::paths::{
    absolute, components, is_absolute, is_luau_file, join, joined, luau_file, parent, parent_of,
    path_components, path_starts_with, path_with_extension, path_within, same_components,
    same_path, PathComponent,
};
use crate::snapshot::{
    children_models, InstanceSnapshot, InstigatingSource, MetadataModel, SnapshotModel,
};
use crate::text::same_text;
use crate::duplicate::Duplicate;

verus! {

/// An instance that stands for a module.
#[derive(Debug, PartialEq, Eq)]
pub struct ModuleTarget {
    pub source_path: String,
    pub instance_path: Vec<String>,
    pub relevant_paths: Vec<String>,
}

/// [`ModuleTarget`] in contracts.
pub struct TargetModel {
    pub source_path: Seq<char>,
    pub instance_path: Seq<Seq<char>>,
    pub relevant_paths: Seq<Seq<char>>,
}

impl DeepView for ModuleTarget {
    type V = TargetModel;

    open spec fn deep_view(&self) -> TargetModel {
        TargetModel {
            source_path: self.source_path@,
            instance_path: self.instance_path.deep_view(),
            relevant_paths: self.relevant_paths.deep_view(),
        }
    }
}

struct IndexedModule {
    module: Vec<PathComponent<String>>,
    target: ModuleTarget,
}

/// A module, by the components of its path, and an instance that stands for it.
pub struct IndexedModel {
    pub module: Seq<PathComponent<Seq<char>>>,
    pub target: TargetModel,
}

impl DeepView for IndexedModule {
    type V = IndexedModel;

    closed spec fn deep_view(&self) -> IndexedModel {
        IndexedModel { module: self.module.deep_view(), target: self.target.deep_view() }
    }
}

/// The instances that stand for modules, in the order in which they were met.
pub struct ModuleIndex {
    modules: Vec<IndexedModule>,
}

impl DeepView for ModuleIndex {
    type V = Seq<IndexedModel>;

    closed spec fn deep_view(&self) -> Seq<IndexedModel> {
        self.modules.deep_view()
    }
}

impl Duplicate for ModuleTarget {
    fn duplicate(&self) -> (copy: Self) {
        ModuleTarget {
            source_path: self.source_path.clone(),
            instance_path: self.instance_path.clone(),
            relevant_paths: self.relevant_paths.clone(),
        }
    }
}

impl Duplicate for IndexedModule {
    fn duplicate(&self) -> (copy: Self) {
        IndexedModule { module: self.module.duplicate(), target: self.target.duplicate() }
    }
}

impl Duplicate for ModuleIndex {
    fn duplicate(&self) -> (copy: Self) {
        ModuleIndex { modules: self.modules.duplicate() }
    }
}

/// How many components two instance paths have in common from the root on.
pub open spec fn common_length(a: Seq<Seq<char>>, b: Seq<Seq<char>>) -> nat
    decreases a.len(),
{
    if a.len() == 0 || b.len() == 0 || a[0] != b[0] {
        0
    } else {
        1 + common_length(a.drop_first(), b.drop_first())
    }
}

pub(crate) fn count_common(a: &Vec<String>, b: &Vec<String>) -> (count: usize)
    ensures
        count == common_length(a.deep_view(), b.deep_view()),
        count <= a@.len(),
        count <= b@.len(),
{
    let ghost left = a.deep_view();
    let ghost right = b.deep_view();
    let mut count: usize = 0;
    assert(left.skip(0) == left && right.skip(0) == right);
    while count < a.len() && count < b.len() && a[count] == b[count]
        invariant
            count <= a@.len(),
            count <= b@.len(),
            left == a.deep_view(),
            right == b.deep_view(),
            common_length(left, right) == count + common_length(
                left.skip(count as int),
                right.skip(count as int),
            ),
        decreases a@.len() - count,
    {
        assert(left.skip(count as int)[0] == a@[count as int]@);
        assert(right.skip(count as int)[0] == b@[count as int]@);
        assert(left.skip(count as int).drop_first() == left.skip(count + 1));
        assert(right.skip(count as int).drop_first() == right.skip(count + 1));
        count += 1;
    }
    assert(count < a@.len() ==> left.skip(count as int)[0] == a@[count as int]@);
    assert(count < b@.len() ==> right.skip(count as int)[0] == b@[count as int]@);
    count
}

/// The entries for one module.
pub open spec fn entries_at(
    index: Seq<IndexedModel>,
    module: Seq<PathComponent<Seq<char>>>,
) -> Seq<IndexedModel> {
    index.filter(|entry: IndexedModel| entry.module == module)
}

/// The entry that shares the most components with the importer; of several such
/// entries the last.
pub open spec fn nearest(entries: Seq<IndexedModel>, importer: Seq<Seq<char>>) -> Option<
    TargetModel,
>
    decreases entries.len(),
{
    if entries.len() == 0 {
        None
    } else {
        let last = entries.last().target;
        match nearest(entries.drop_last(), importer) {
            Some(best) => if common_length(importer, best.instance_path) > common_length(
                importer,
                last.instance_path,
            ) {
                Some(best)
            } else {
                Some(last)
            },
            None => Some(last),
        }
    }
}

/// The instance that stands for the module at `path`, the nearest to the importer.
pub open spec fn target_of(
    index: Seq<IndexedModel>,
    path: Seq<char>,
    importer: Seq<Seq<char>>,
) -> Option<TargetModel> {
    nearest(entries_at(index, components(path)), importer)
}

/// The instance that stands for the module at `path` or at the canonical form of
/// `path`.
pub open spec fn target_of_path(
    index: Seq<IndexedModel>,
    files: FilesModel,
    path: Seq<char>,
    importer: Seq<Seq<char>>,
) -> Result<Option<TargetModel>, Error<Seq<char>>> {
    match target_of(index, path, importer) {
        Some(target) => Ok(Some(target)),
        None => match canonical_of(files, path) {
            Err(e) => Err(e),
            Ok(None) => Ok(None),
            Ok(Some(canonical)) => Ok(target_of(index, canonical, importer)),
        },
    }
}

/// The instance that a module path leads to: with a Luau extension the path itself,
/// without one the path with `.luau`, with `.lua`, or as it is, whichever leads to an
/// instance first.
pub open spec fn target_of_module(
    index: Seq<IndexedModel>,
    files: FilesModel,
    path: Seq<char>,
    importer: Seq<Seq<char>>,
) -> Result<Option<TargetModel>, Error<Seq<char>>> {
    if is_luau_file(path) {
        target_of_path(index, files, path, importer)
    } else {
        match target_of_path(index, files, path.push('.') + "luau"@, importer) {
            Err(e) => Err(e),
            Ok(Some(target)) => Ok(Some(target)),
            Ok(None) => match target_of_path(index, files, path.push('.') + "lua"@, importer) {
                Err(e) => Err(e),
                Ok(Some(target)) => Ok(Some(target)),
                Ok(None) => target_of_path(index, files, path, importer),
            },
        }
    }
}

proof fn lemma_entries_push(
    index: Seq<IndexedModel>,
    entry: IndexedModel,
    module: Seq<PathComponent<Seq<char>>>,
)
    ensures
        entries_at(index.push(entry), module) == if entry.module == module {
            entries_at(index, module).push(entry)
        } else {
            entries_at(index, module)
        },
{
    index.lemma_filter_push(entry, |entry: IndexedModel| entry.module == module);
}

impl ModuleIndex {
    /// The index without modules.
    pub fn new() -> (index: ModuleIndex)
        ensures
            index.deep_view() == Seq::<IndexedModel>::empty(),
    {
        let index = ModuleIndex { modules: Vec::new() };
        assert(index.deep_view() =~= Seq::<IndexedModel>::empty());
        index
    }

    /// The instance that the module at `module` stands for, seen from
    /// `importer_instance_path`.
    pub fn target(
        &self,
        module: &str,
        files: &Files,
        importer_instance_path: &Vec<String>,
    ) -> (target: Result<Option<&ModuleTarget>, Error<String>>)
        ensures
            outcome(target) == target_of_module(
                self.deep_view(),
                files.deep_view(),
                module@,
                importer_instance_path.deep_view(),
            ),
    {
        if luau_file(module) {
            return self.target_at_path(module, files, importer_instance_path);
        }
        let luau_path = path_with_extension(module, "luau");
        if let Some(target) = self.target_at_path(
            luau_path.as_str(),
            files,
            importer_instance_path,
        )? {
            return Ok(Some(target));
        }
        let lua_path = path_with_extension(module, "lua");
        if let Some(target) = self.target_at_path(
            lua_path.as_str(),
            files,
            importer_instance_path,
        )? {
            return Ok(Some(target));
        }
        self.target_at_path(module, files, importer_instance_path)
    }

    fn target_at_path(
        &self,
        module: &str,
        files: &Files,
        importer_instance_path: &Vec<String>,
    ) -> (target: Result<Option<&ModuleTarget>, Error<String>>)
        ensures
            outcome(target) == target_of_path(
                self.deep_view(),
                files.deep_view(),
                module@,
                importer_instance_path.deep_view(),
            ),
    {
        if let Some(target) = self.target_at(module, importer_instance_path) {
            return Ok(Some(target));
        }
        match files.canonicalize(module)? {
            None => Ok(None),
            Some(canonical) => Ok(self.target_at(canonical.as_str(), importer_instance_path)),
        }
    }

    fn target_at(&self, module: &str, importer_instance_path: &Vec<String>) -> (target: Option<
        &ModuleTarget,
    >)
        ensures
            target.deep_view() == target_of(
                self.deep_view(),
                module@,
                importer_instance_path.deep_view(),
            ),
    {
        let wanted = path_components(module);
        let ghost index = self.deep_view();
        let ghost key = components(module@);
        let ghost importer = importer_instance_path.deep_view();
        let mut best: Option<&ModuleTarget> = None;
        let mut best_length: usize = 0;
        let mut i: usize = 0;
        proof {
            reveal(Seq::filter);
        }
        while i < self.modules.len()
            invariant
                i <= self.modules@.len(),
                index == self.deep_view(),
                wanted.deep_view() == key,
                importer == importer_instance_path.deep_view(),
                best.deep_view() == nearest(entries_at(index.take(i as int), key), importer),
                best matches Some(best) ==> best_length == common_length(
                    importer,
                    best.deep_view().instance_path,
                ),
            decreases self.modules@.len() - i,
        {
            let ghost before = index.take(i as int);
            let ghost entry = self.modules@[i as int].deep_view();
            proof {
                assert(index.take(i + 1) == before.push(entry));
                lemma_entries_push(before, entry, key);
            }
            if same_components(&self.modules[i].module, &wanted) {
                let target = &self.modules[i].target;
                let length: usize = count_common(importer_instance_path, &target.instance_path);
                assert(entries_at(before, key).push(entry).drop_last() == entries_at(before, key));
                match best {
                    Some(_) if best_length > length => {},
                    _ => {
                        best = Some(target);
                        best_length = length;
                    },
                }
            }
            i += 1;
        }
        assert(index.take(i as int) == index);
        best
    }
}

/// The path that an instance comes from. A project node comes from the path that it
/// names, taken from the directory of the project file on.
pub open spec fn source_of(metadata: MetadataModel) -> Option<Seq<char>> {
    match metadata.instigating_source {
        None => None,
        Some(InstigatingSource::Path(path)) => Some(path),
        Some(InstigatingSource::ProjectNode { path, node_path }) => match node_path {
            None => None,
            Some(node_path) => if is_absolute(node_path) {
                Some(node_path)
            } else {
                match parent_of(path) {
                    None => None,
                    Some(directory) => Some(joined(directory, node_path)),
                }
            },
        },
    }
}

/// The path that an instance comes from.
pub fn source_path(snapshot: &InstanceSnapshot) -> (path: Option<String>)
    ensures
        path.deep_view() == source_of(snapshot.deep_view().metadata),
{
    match &snapshot.metadata.instigating_source {
        None => None,
        Some(InstigatingSource::Path(path)) => Some(path.clone()),
        Some(InstigatingSource::ProjectNode { path, node_path }) => match node_path {
            None => None,
            Some(node_path) => if absolute(node_path.as_str()) {
                Some(node_path.clone())
            } else {
                match parent(path.as_str()) {
                    None => None,
                    Some(directory) => Some(join(directory.as_str(), node_path.as_str())),
                }
            },
        },
    }
}

/// The module path of a source: the source itself where it is a directory or has a
/// Luau extension.
pub open spec fn module_of(files: FilesModel, source: Seq<char>) -> Result<
    Option<Seq<char>>,
    Error<Seq<char>>,
> {
    match metadata_of(files, source) {
        Err(e) => Err(e),
        Ok(kind) => if kind == Some(FileKind::Directory) || is_luau_file(source) {
            Ok(Some(source))
        } else {
            Ok(None)
        },
    }
}

/// The module path of a source, where it can be a module.
pub fn luau_module_path(files: &Files, source: &str) -> (module: Result<
    Option<String>,
    Error<String>,
>)
    ensures
        outcome(module) == module_of(files.deep_view(), source@),
{
    let kind = files.metadata(source)?;
    if is_directory(kind) || luau_file(source) {
        Ok(Some(source.to_owned()))
    } else {
        Ok(None)
    }
}

/// Whether a snapshot is a module script, and the path that it comes from.
pub open spec fn script_source(snapshot: SnapshotModel) -> Option<Seq<char>> {
    if snapshot.class_name == "ModuleScript"@ {
        source_of(snapshot.metadata)
    } else {
        None
    }
}

pub(crate) fn module_script_source(snapshot: &InstanceSnapshot) -> (source: Option<String>)
    ensures
        source.deep_view() == script_source(snapshot.deep_view()),
{
    if same_text(snapshot.class_name.as_str(), "ModuleScript") {
        source_path(snapshot)
    } else {
        None
    }
}

/// An index and the error that ended its making, where one did.
pub struct IndexRun {
    pub index: Seq<IndexedModel>,
    pub error: Option<Error<Seq<char>>>,
}

/// The first entry with another source.
pub open spec fn other_source(entries: Seq<IndexedModel>, source: Seq<char>) -> Option<Seq<char>>
    decreases entries.len(),
{
    if entries.len() == 0 {
        None
    } else if components(entries[0].target.source_path) != components(source) {
        Some(entries[0].target.source_path)
    } else {
        other_source(entries.drop_first(), source)
    }
}

/// The index with one more instance for a module. All instances that stand for a module
/// come from one source.
pub open spec fn with_target(
    index: Seq<IndexedModel>,
    module: Seq<char>,
    target: TargetModel,
) -> IndexRun {
    match other_source(entries_at(index, components(module)), target.source_path) {
        Some(first) => IndexRun {
            index,
            error: Some(Error::AmbiguousModule { module, first, second: target.source_path }),
        },
        None => IndexRun {
            index: index.push(IndexedModel { module: components(module), target }),
            error: None,
        },
    }
}

/// The index with an instance, where it is a module script that comes from a module.
pub open spec fn with_instance(
    index: Seq<IndexedModel>,
    files: FilesModel,
    snapshot: SnapshotModel,
    instance_path: Seq<Seq<char>>,
) -> IndexRun {
    match script_source(snapshot) {
        None => IndexRun { index, error: None },
        Some(source) => match module_of(files, source) {
            Err(e) => IndexRun { index, error: Some(e) },
            Ok(None) => IndexRun { index, error: None },
            Ok(Some(module)) => with_target(
                index,
                module,
                TargetModel {
                    source_path: source,
                    instance_path,
                    relevant_paths: snapshot.metadata.relevant_paths,
                },
            ),
        },
    }
}

/// An instance and everything below it, each before its children, with their paths.
pub open spec fn placed(snapshot: SnapshotModel, parent: Seq<Seq<char>>) -> Seq<
    (SnapshotModel, Seq<Seq<char>>),
>
    decreases snapshot,
{
    let path = parent.push(snapshot.name);
    seq![(snapshot, path)] + placed_each(snapshot.children, path)
}

/// Instances with one parent and everything below them, with their paths.
pub open spec fn placed_each(row: Seq<SnapshotModel>, parent: Seq<Seq<char>>) -> Seq<
    (SnapshotModel, Seq<Seq<char>>),
>
    decreases row,
{
    if row.len() == 0 {
        seq![]
    } else {
        placed(row[0], parent) + placed_each(row.drop_first(), parent)
    }
}

/// The index with a row of instances, up to the first error.
pub open spec fn with_instances(
    index: Seq<IndexedModel>,
    files: FilesModel,
    row: Seq<(SnapshotModel, Seq<Seq<char>>)>,
) -> IndexRun
    decreases row.len(),
{
    if row.len() == 0 {
        IndexRun { index, error: None }
    } else {
        let run = with_instance(index, files, row[0].0, row[0].1);
        if run.error is Some {
            run
        } else {
            with_instances(run.index, files, row.drop_first())
        }
    }
}

spec fn placed_pending(pending: Seq<(&InstanceSnapshot, Vec<String>)>) -> Seq<
    (SnapshotModel, Seq<Seq<char>>),
>
    decreases pending.len(),
{
    if pending.len() == 0 {
        seq![]
    } else {
        placed(pending.last().0.deep_view(), pending.last().1.deep_view()) + placed_pending(
            pending.drop_last(),
        )
    }
}

impl ModuleIndex {
    /// The index of a tree.
    pub fn from_snapshot(root: &InstanceSnapshot, files: &Files) -> (index: Result<
        ModuleIndex,
        Error<String>,
    >)
        ensures
            ({
                let run = with_instances(
                    Seq::empty(),
                    files.deep_view(),
                    placed(root.deep_view(), Seq::empty()),
                );
                outcome(index) == match run.error {
                    Some(e) => Err(e),
                    None => Ok(run.index),
                }
            }),
    {
        let mut index = ModuleIndex::new();
        let path: Vec<String> = Vec::new();
        assert(path.deep_view() == Seq::<Seq<char>>::empty());
        index.visit_snapshot(root, files, path)?;
        Ok(index)
    }

    /// Adds the modules of a tree whose root has the parent at `instance_path`. What was
    /// added before an error stays.
    pub fn visit_snapshot(
        &mut self,
        snapshot: &InstanceSnapshot,
        files: &Files,
        instance_path: Vec<String>,
    ) -> (done: Result<(), Error<String>>)
        ensures
            ({
                let run = with_instances(
                    old(self).deep_view(),
                    files.deep_view(),
                    placed(snapshot.deep_view(), instance_path.deep_view()),
                );
                &&& final(self).deep_view() == run.index
                &&& match done {
                    Ok(_) => run.error is None,
                    Err(e) => run.error == Some(e.deep_view()),
                }
            }),
    {
        let ghost all = placed(snapshot.deep_view(), instance_path.deep_view());
        let ghost start = self.deep_view();
        let mut pending: Vec<(&InstanceSnapshot, Vec<String>)> = Vec::new();
        pending.push((snapshot, instance_path));
        assert(placed_pending(pending@.drop_last()) == Seq::<
            (SnapshotModel, Seq<Seq<char>>),
        >::empty());
        assert(placed_pending(pending@) == all);
        while pending.len() > 0
            invariant
                with_instances(self.deep_view(), files.deep_view(), placed_pending(pending@))
                    == with_instances(start, files.deep_view(), all),
                start == old(self).deep_view(),
                all == placed(snapshot.deep_view(), instance_path.deep_view()),
            decreases placed_pending(pending@).len(),
        {
            let ghost row = placed_pending(pending@);
            let ghost below = pending@.drop_last();
            let (current, path) = match pending.pop() {
                Some(task) => task,
                None => {
                    return Ok(());
                },
            };
            let mut path = path;
            let ghost parent = path.deep_view();
            path.push(current.name.clone());
            assert(path.deep_view() == parent.push(current.name@));
            assert(row[0] == (current.deep_view(), path.deep_view()));
            assert(row.drop_first() == placed_each(current.deep_view().children, path.deep_view())
                + placed_pending(below));
            self.insert_instance(current, files, &path)?;
            let mut i: usize = current.children.len();
            proof {
                children_models(*current);
                let models = current.children.deep_view();
                assert(models.skip(i as int) == Seq::<SnapshotModel>::empty());
                assert(placed_each(models.skip(i as int), path.deep_view()) + placed_pending(below)
                    == placed_pending(below));
            }
            while i > 0
                invariant
                    i <= current.children@.len(),
                    placed_pending(pending@) == placed_each(
                        current.children.deep_view().skip(i as int),
                        path.deep_view(),
                    ) + placed_pending(below),
                decreases i,
            {
                i -= 1;
                let ghost models = current.children.deep_view();
                let ghost before = pending@;
                pending.push((&current.children[i], path.clone()));
                assert(pending@.drop_last() == before);
                assert(models.skip(i as int)[0] == current.children@[i as int].deep_view());
                assert(models.skip(i as int).drop_first() == models.skip(i + 1));
            }
            assert(current.children.deep_view().skip(0) == current.children.deep_view());
        }
        Ok(())
    }

    fn insert_instance(
        &mut self,
        snapshot: &InstanceSnapshot,
        files: &Files,
        instance_path: &Vec<String>,
    ) -> (done: Result<(), Error<String>>)
        ensures
            ({
                let run = with_instance(
                    old(self).deep_view(),
                    files.deep_view(),
                    snapshot.deep_view(),
                    instance_path.deep_view(),
                );
                &&& final(self).deep_view() == run.index
                &&& match done {
                    Ok(_) => run.error is None,
                    Err(e) => run.error == Some(e.deep_view()),
                }
            }),
    {
        let source = match module_script_source(snapshot) {
            None => {
                return Ok(());
            },
            Some(source) => source,
        };
        match luau_module_path(files, source.as_str())? {
            None => Ok(()),
            Some(module) => self.insert_target(
                module.as_str(),
                ModuleTarget {
                    source_path: source,
                    instance_path: instance_path.clone(),
                    relevant_paths: snapshot.metadata.relevant_paths.clone(),
                },
            ),
        }
    }

    fn insert_target(&mut self, module: &str, target: ModuleTarget) -> (done: Result<
        (),
        Error<String>,
    >)
        ensures
            ({
                let run = with_target(old(self).deep_view(), module@, target.deep_view());
                &&& final(self).deep_view() == run.index
                &&& match done {
                    Ok(_) => run.error is None,
                    Err(e) => run.error == Some(e.deep_view()),
                }
            }),
    {
        let key = path_components(module);
        let ghost index = self.deep_view();
        let ghost entries = entries_at(index, components(module@));
        let mut i: usize = 0;
        proof {
            lemma_rest_of_entries(index, components(module@), 0);
            assert(index.skip(0) == index);
        }
        while i < self.modules.len()
            invariant
                i <= self.modules@.len(),
                index == self.deep_view(),
                index == old(self).deep_view(),
                key.deep_view() == components(module@),
                entries == entries_at(index, components(module@)),
                other_source(entries, target.source_path@) == other_source(
                    entries_at(index.skip(i as int), components(module@)),
                    target.source_path@,
                ),
            decreases self.modules@.len() - i,
        {
            proof {
                lemma_rest_of_entries(index, components(module@), i as int);
                assert(index[i as int] == self.modules@[i as int].deep_view());
            }
            if same_components(&self.modules[i].module, &key) {
                let existing = self.modules[i].target.source_path.as_str();
                if !same_path(existing, target.source_path.as_str()) {
                    return Err(
                        Error::AmbiguousModule {
                            module: module.to_owned(),
                            first: existing.to_owned(),
                            second: target.source_path,
                        },
                    );
                }
            }
            i += 1;
        }
        proof {
            reveal(Seq::filter);
            assert(index.skip(i as int).len() == 0);
        }
        self.modules.push(IndexedModule { module: key, target });
        assert(self.deep_view() == index.push(
            IndexedModel { module: components(module@), target: target.deep_view() },
        ));
        Ok(())
    }
}

/// The entries for a module among the last entries of an index.
proof fn lemma_rest_of_entries(
    index: Seq<IndexedModel>,
    module: Seq<PathComponent<Seq<char>>>,
    i: int,
)
    requires
        0 <= i <= index.len(),
    ensures
        i < index.len() ==> {
            let rest = entries_at(index.skip(i + 1), module);
            if index[i].module == module {
                &&& entries_at(index.skip(i), module).len() > 0
                &&& entries_at(index.skip(i), module)[0] == index[i]
                &&& entries_at(index.skip(i), module).drop_first() == rest
            } else {
                entries_at(index.skip(i), module) == rest
            }
        },
{
    if i < index.len() {
        let wanted = |entry: IndexedModel| entry.module == module;
        let rest = index.skip(i + 1);
        assert(index.skip(i) == seq![index[i]] + rest);
        rest.lemma_filter_prepend(index[i], wanted);
        if index[i].module == module {
            assert((seq![index[i]] + rest.filter(wanted)).drop_first() == rest.filter(wanted));
        } else {
            assert(Seq::<IndexedModel>::empty() + rest.filter(wanted) == rest.filter(wanted));
        }
    }
}

/// The index without the instances at `path` and below.
pub open spec fn without_instances(index: Seq<IndexedModel>, path: Seq<Seq<char>>) -> Seq<
    IndexedModel,
> {
    index.filter(|entry: IndexedModel| !path.is_prefix_of(entry.target.instance_path))
}

/// The index without the instances that come from `path` or from below it.
pub open spec fn without_sources(index: Seq<IndexedModel>, path: Seq<char>) -> Seq<IndexedModel> {
    index.filter(|entry: IndexedModel| !path_within(entry.target.source_path, path))
}

/// The path of the parent of an instance; the root has the empty path.
pub open spec fn parent_instance(instance_path: Option<Seq<Seq<char>>>) -> Seq<Seq<char>> {
    match instance_path {
        Some(path) => if path.len() == 0 {
            path
        } else {
            path.drop_last()
        },
        None => Seq::empty(),
    }
}

/// The index with the modules of `snapshot` in place of those at `instance_path` and
/// below. Without such a path the snapshot is a root of its own.
pub open spec fn with_snapshot(
    index: Seq<IndexedModel>,
    files: FilesModel,
    snapshot: SnapshotModel,
    instance_path: Option<Seq<Seq<char>>>,
) -> IndexRun {
    let removed = match instance_path {
        Some(path) => path,
        None => seq![snapshot.name],
    };
    with_instances(
        without_instances(index, removed),
        files,
        placed(snapshot, parent_instance(instance_path)),
    )
}

/// The path of the parent of an instance.
pub(crate) fn instance_parent_path(instance_path: &Option<Vec<String>>) -> (path: Vec<String>)
    ensures
        path.deep_view() == parent_instance(instance_path.deep_view()),
{
    match instance_path {
        Some(path) => {
            let mut path = path.clone();
            let ghost whole = path.deep_view();
            path.pop();
            assert(path.deep_view() == if whole.len() == 0 {
                whole
            } else {
                whole.drop_last()
            });
            path
        },
        None => {
            let path: Vec<String> = Vec::new();
            assert(path.deep_view() == Seq::<Seq<char>>::empty());
            path
        },
    }
}

fn starts_with(path: &Vec<String>, start: &Vec<String>) -> (yes: bool)
    ensures
        yes == start.deep_view().is_prefix_of(path.deep_view()),
{
    if start.len() > path.len() {
        return false;
    }
    let mut i: usize = 0;
    while i < start.len()
        invariant
            i <= start@.len() <= path@.len(),
            forall|j: int| 0 <= j < i ==> start@[j]@ == #[trigger] path@[j]@,
        decreases start@.len() - i,
    {
        if start[i] != path[i] {
            assert(start.deep_view()[i as int] != path.deep_view()[i as int]);
            return false;
        }
        i += 1;
    }
    assert(start.deep_view() == path.deep_view().subrange(0, start@.len() as int));
    true
}

impl ModuleIndex {
    /// Takes out the instances at `instance_path` and below.
    pub fn remove_instance_subtree(&mut self, instance_path: &Vec<String>)
        ensures
            final(self).deep_view() == without_instances(
                old(self).deep_view(),
                instance_path.deep_view(),
            ),
    {
        let ghost outside = |entry: IndexedModel|
            !instance_path.deep_view().is_prefix_of(entry.target.instance_path);
        let ghost index = self.deep_view();
        let mut modules: Vec<IndexedModule> = Vec::new();
        std::mem::swap(&mut modules, &mut self.modules);
        proof {
            reveal(Seq::filter);
            assert(self.deep_view() == index.take(0).filter(outside));
        }
        for module in iter: modules
            invariant
                index == modules.deep_view(),
                iter.seq() == modules@,
                outside == (|entry: IndexedModel|
                    !instance_path.deep_view().is_prefix_of(entry.target.instance_path)),
                self.deep_view() == index.take(iter.index()).filter(outside),
        {
            let ghost before = index.take(iter.index());
            let ghost kept = self.deep_view();
            let ghost entry = module.deep_view();
            proof {
                assert(index.take(iter.index() + 1) == before.push(entry));
                before.lemma_filter_push(entry, outside);
            }
            if !starts_with(&module.target.instance_path, instance_path) {
                self.modules.push(module);
                assert(self.deep_view() == kept.push(entry));
            }
        }
        assert(index.take(index.len() as int) == index);
    }

    /// Takes out the instances that come from `source_path` or from below it.
    pub fn remove_source_subtree(&mut self, source_path: &str)
        ensures
            final(self).deep_view() == without_sources(old(self).deep_view(), source_path@),
    {
        let ghost outside = |entry: IndexedModel|
            !path_within(entry.target.source_path, source_path@);
        let ghost index = self.deep_view();
        let mut modules: Vec<IndexedModule> = Vec::new();
        std::mem::swap(&mut modules, &mut self.modules);
        proof {
            reveal(Seq::filter);
            assert(self.deep_view() == index.take(0).filter(outside));
        }
        for module in iter: modules
            invariant
                index == modules.deep_view(),
                iter.seq() == modules@,
                outside == (|entry: IndexedModel|
                    !path_within(entry.target.source_path, source_path@)),
                self.deep_view() == index.take(iter.index()).filter(outside),
        {
            let ghost before = index.take(iter.index());
            let ghost kept = self.deep_view();
            let ghost entry = module.deep_view();
            proof {
                assert(index.take(iter.index() + 1) == before.push(entry));
                before.lemma_filter_push(entry, outside);
            }
            if !path_starts_with(module.target.source_path.as_str(), source_path) {
                self.modules.push(module);
                assert(self.deep_view() == kept.push(entry));
            }
        }
        assert(index.take(index.len() as int) == index);
    }

    /// Puts the modules of `snapshot` in place of those at `instance_path` and below.
    /// What was changed before an error stays changed.
    pub fn replace_snapshot(
        &mut self,
        snapshot: &InstanceSnapshot,
        files: &Files,
        instance_path: &Option<Vec<String>>,
    ) -> (done: Result<(), Error<String>>)
        ensures
            ({
                let run = with_snapshot(
                    old(self).deep_view(),
                    files.deep_view(),
                    snapshot.deep_view(),
                    instance_path.deep_view(),
                );
                &&& final(self).deep_view() == run.index
                &&& match done {
                    Ok(_) => run.error is None,
                    Err(e) => run.error == Some(e.deep_view()),
                }
            }),
    {
        match instance_path {
            Some(path) => self.remove_instance_subtree(path),
            None => {
                let mut path: Vec<String> = Vec::new();
                path.push(snapshot.name.clone());
                assert(path.deep_view() == seq![snapshot.name@]);
                self.remove_instance_subtree(&path);
            },
        }
        self.visit_snapshot(snapshot, files, instance_parent_path(instance_path))
    }
}

/// Whether the entry number `i` shares at least as many components with the importer as
/// every other entry, and more than every later one.
pub open spec fn is_nearest(entries: Seq<IndexedModel>, importer: Seq<Seq<char>>, i: int) -> bool {
    let shared = common_length(importer, entries[i].target.instance_path);
    &&& 0 <= i < entries.len()
    &&& forall|j: int|
        0 <= j < entries.len() ==> common_length(
            importer,
            (#[trigger] entries[j]).target.instance_path,
        ) <= shared
    &&& forall|j: int|
        i < j < entries.len() ==> common_length(
            importer,
            (#[trigger] entries[j]).target.instance_path,
        ) < shared
}

/// Of the instances that stand for a module an importer gets the one that shares the
/// most ancestors with it, the last one where several do, and one whenever there is one.
pub proof fn nearest_instance_is_chosen(entries: Seq<IndexedModel>, importer: Seq<Seq<char>>)
    ensures
        match nearest(entries, importer) {
            None => entries.len() == 0,
            Some(target) => exists|i: int| #[trigger]
                is_nearest(entries, importer, i) && entries[i].target == target,
        },
    decreases entries.len(),
{
    if entries.len() > 0 {
        let before = entries.drop_last();
        let last = entries.len() - 1;
        nearest_instance_is_chosen(before, importer);
        assert(forall|j: int| 0 <= j < last ==> before[j] == entries[j]);
        assert(entries.last() == entries[last]);
        match nearest(before, importer) {
            None => {
                assert(is_nearest(entries, importer, last));
            },
            Some(best) => {
                let i = choose|i: int| #[trigger]
                    is_nearest(before, importer, i) && before[i].target == best;
                if common_length(importer, best.instance_path) > common_length(
                    importer,
                    entries[last].target.instance_path,
                ) {
                    assert forall|j: int| 0 <= j < entries.len() implies common_length(
                        importer,
                        (#[trigger] entries[j]).target.instance_path,
                    ) <= common_length(importer, entries[i].target.instance_path) by {
                        if j < last {
                            assert(before[j] == entries[j]);
                        }
                    }
                    assert forall|j: int| i < j < entries.len() implies common_length(
                        importer,
                        (#[trigger] entries[j]).target.instance_path,
                    ) < common_length(importer, entries[i].target.instance_path) by {
                        if j < last {
                            assert(before[j] == entries[j]);
                        }
                    }
                    assert(is_nearest(entries, importer, i));
                } else {
                    assert forall|j: int| 0 <= j < entries.len() implies common_length(
                        importer,
                        (#[trigger] entries[j]).target.instance_path,
                    ) <= common_length(importer, entries[last].target.instance_path) by {
                        if j < last {
                            assert(before[j] == entries[j]);
                        }
                    }
                    assert(is_nearest(entries, importer, last));
                }
            },
        }
    }
}

/// Removing an instance takes out what stood there and below, and nothing else.
pub proof fn removed_instances_are_gone(
    index: Seq<IndexedModel>,
    path: Seq<Seq<char>>,
    entry: IndexedModel,
)
    ensures
        without_instances(index, path).contains(entry) <==> index.contains(entry)
            && !path.is_prefix_of(entry.target.instance_path),
{
    lemma_filtered(
        index,
        |entry: IndexedModel| !path.is_prefix_of(entry.target.instance_path),
        entry,
    );
}

/// Removing a source takes out what came from it and from below it, and nothing else.
pub proof fn removed_sources_are_gone(
    index: Seq<IndexedModel>,
    path: Seq<char>,
    entry: IndexedModel,
)
    ensures
        without_sources(index, path).contains(entry) <==> index.contains(entry) && !path_within(
            entry.target.source_path,
            path,
        ),
{
    lemma_filtered(
        index,
        |entry: IndexedModel| !path_within(entry.target.source_path, path),
        entry,
    );
}

proof fn lemma_filtered(
    index: Seq<IndexedModel>,
    keep: spec_fn(IndexedModel) -> bool,
    entry: IndexedModel,
)
    ensures
        index.filter(keep).contains(entry) <==> index.contains(entry) && keep(entry),
{
    let kept = index.filter(keep);
    if kept.contains(entry) {
        let i = choose|i: int| 0 <= i < kept.len() && kept[i] == entry;
        index.lemma_filter_pred(keep, i);
        index.lemma_filter_contains_rev(keep, entry);
    }
    if index.contains(entry) && keep(entry) {
        let i = choose|i: int| 0 <= i < index.len() && index[i] == entry;
        index.lemma_filter_contains(keep, i);
    }
}

/// Whether every entry stands under the path that it comes from.
pub open spec fn keyed_by_source(index: Seq<IndexedModel>) -> bool {
    forall|i: int|
        0 <= i < index.len() ==> (#[trigger] index[i]).module == components(
            index[i].target.source_path,
        )
}

/// Every entry stands under the path that it comes from, whatever is added, so that no
/// two sources ever claim one module.
pub proof fn modules_are_never_ambiguous(
    index: Seq<IndexedModel>,
    files: FilesModel,
    row: Seq<(SnapshotModel, Seq<Seq<char>>)>,
)
    requires
        keyed_by_source(index),
    ensures
        keyed_by_source(with_instances(index, files, row).index),
        !(with_instances(index, files, row).error matches Some(Error::AmbiguousModule { .. })),
    decreases row.len(),
{
    if row.len() > 0 {
        match script_source(row[0].0) {
            Some(source) => {
                let entries = entries_at(index, components(source));
                assert forall|i: int| 0 <= i < entries.len() implies components(
                    (#[trigger] entries[i]).target.source_path,
                ) == components(source) by {
                    let wanted = |entry: IndexedModel| entry.module == components(source);
                    index.lemma_filter_pred(wanted, i);
                    index.lemma_filter_contains_rev(wanted, entries[i]);
                }
                lemma_no_other_source(entries, source);
            },
            None => {},
        }
        let run = with_instance(index, files, row[0].0, row[0].1);
        if run.error is None {
            modules_are_never_ambiguous(run.index, files, row.drop_first());
        }
    }
}

proof fn lemma_no_other_source(entries: Seq<IndexedModel>, source: Seq<char>)
    requires
        forall|i: int|
            0 <= i < entries.len() ==> components((#[trigger] entries[i]).target.source_path)
                == components(source),
    ensures
        other_source(entries, source) is None,
    decreases entries.len(),
{
    if entries.len() > 0 {
        assert forall|i: int| 0 <= i < entries.drop_first().len() implies components(
            (#[trigger] entries.drop_first()[i]).target.source_path,
        ) == components(source) by {
            assert(entries.drop_first()[i] == entries[i + 1]);
        }
        lemma_no_other_source(entries.drop_first(), source);
    }
}

/// Removing entries keeps every other one under the path that it comes from.
pub proof fn removal_keeps_keys(
    index: Seq<IndexedModel>,
    instance_path: Seq<Seq<char>>,
    source_path: Seq<char>,
)
    requires
        keyed_by_source(index),
    ensures
        keyed_by_source(without_instances(index, instance_path)),
        keyed_by_source(without_sources(index, source_path)),
{
    let kept = without_instances(index, instance_path);
    assert forall|i: int| 0 <= i < kept.len() implies (#[trigger] kept[i]).module == components(
        kept[i].target.source_path,
    ) by {
        assert(kept.contains(kept[i]));
        removed_instances_are_gone(index, instance_path, kept[i]);
    }
    let kept = without_sources(index, source_path);
    assert forall|i: int| 0 <= i < kept.len() implies (#[trigger] kept[i]).module == components(
        kept[i].target.source_path,
    ) by {
        assert(kept.contains(kept[i]));
        removed_sources_are_gone(index, source_path, kept[i]);
    }
}

/// The entry for an instance that is a module script from `source`.
pub open spec fn entry_for(
    instance: (SnapshotModel, Seq<Seq<char>>),
    source: Seq<char>,
) -> IndexedModel {
    IndexedModel {
        module: components(source),
        target: TargetModel {
            source_path: source,
            instance_path: instance.1,
            relevant_paths: instance.0.metadata.relevant_paths,
        },
    }
}

/// Whether an instance is a module script from a module, and `entry` is its entry.
pub open spec fn is_entry_for(
    files: FilesModel,
    instance: (SnapshotModel, Seq<Seq<char>>),
    entry: IndexedModel,
) -> bool {
    &&& script_source(instance.0) is Some
    &&& module_of(files, script_source(instance.0)->0) == Ok::<
        Option<Seq<char>>,
        Error<Seq<char>>,
    >(script_source(instance.0))
    &&& entry == entry_for(instance, script_source(instance.0)->0)
}

/// Without an error an index gains exactly the module scripts of what is added.
pub proof fn index_holds_the_module_scripts(
    index: Seq<IndexedModel>,
    files: FilesModel,
    row: Seq<(SnapshotModel, Seq<Seq<char>>)>,
    entry: IndexedModel,
)
    requires
        with_instances(index, files, row).error is None,
    ensures
        with_instances(index, files, row).index.contains(entry) <==> index.contains(entry)
            || exists|i: int|
            0 <= i < row.len() && #[trigger] is_entry_for(files, row[i], entry),
    decreases row.len(),
{
    if row.len() > 0 {
        let run = with_instance(index, files, row[0].0, row[0].1);
        let rest = row.drop_first();
        index_holds_the_module_scripts(run.index, files, rest, entry);
        assert(forall|i: int| 0 <= i < rest.len() ==> rest[i] == row[i + 1]);
        match script_source(row[0].0) {
            Some(source) if module_of(files, source) == Ok::<Option<Seq<char>>, Error<Seq<char>>>(
                Some(source),
            ) => {
                let added = entry_for(row[0], source);
                assert(run.index == index.push(added));
                assert(is_entry_for(files, row[0], added));
                assert(index.push(added).contains(entry) <==> index.contains(entry) || entry
                    == added) by {
                    if index.contains(entry) {
                        let i = choose|i: int| 0 <= i < index.len() && index[i] == entry;
                        assert(index.push(added)[i] == entry);
                    }
                    assert(index.push(added)[index.len() as int] == added);
                }
            },
            _ => {
                assert(run.index == index);
            },
        }
        if exists|i: int| 0 <= i < row.len() && #[trigger] is_entry_for(files, row[i], entry) {
            let i = choose|i: int|
                0 <= i < row.len() && #[trigger] is_entry_for(files, row[i], entry);
            if i > 0 {
                assert(rest[i - 1] == row[i]);
                assert(is_entry_for(files, rest[i - 1], entry));
            }
        }
        if exists|i: int| 0 <= i < rest.len() && #[trigger] is_entry_for(files, rest[i], entry) {
            let i = choose|i: int|
                0 <= i < rest.len() && #[trigger] is_entry_for(files, rest[i], entry);
            assert(is_entry_for(files, row[i + 1], entry));
        }
    }
}

/// After a part of the tree is replaced, an instance at that place or below stands for a
/// module only where it is a module script of the new part.
pub proof fn replaced_snapshot_leaves_no_stale_module(
    index: Seq<IndexedModel>,
    files: FilesModel,
    snapshot: SnapshotModel,
    instance_path: Seq<Seq<char>>,
    entry: IndexedModel,
)
    requires
        with_snapshot(index, files, snapshot, Some(instance_path)).error is None,
        with_snapshot(index, files, snapshot, Some(instance_path)).index.contains(entry),
        instance_path.is_prefix_of(entry.target.instance_path),
    ensures
        exists|i: int|
            0 <= i < placed(snapshot, parent_instance(Some(instance_path))).len()
                && #[trigger] is_entry_for(
                files,
                placed(snapshot, parent_instance(Some(instance_path)))[i],
                entry,
            ),
{
    index_holds_the_module_scripts(
        without_instances(index, instance_path),
        files,
        placed(snapshot, parent_instance(Some(instance_path))),
        entry,
    );
    removed_instances_are_gone(index, instance_path, entry);
}

/// A module that was removed is no target any more: neither one at a removed instance or
/// below, nor one from a removed source or from below it.
pub proof fn removed_modules_are_no_targets(
    index: Seq<IndexedModel>,
    instance_path: Seq<Seq<char>>,
    source_path: Seq<char>,
    module: Seq<char>,
    importer: Seq<Seq<char>>,
)
    ensures
        target_of(without_instances(index, instance_path), module, importer) matches Some(target)
            ==> !instance_path.is_prefix_of(target.instance_path),
        target_of(without_sources(index, source_path), module, importer) matches Some(target)
            ==> !path_within(target.source_path, source_path),
{
    lemma_target_is_entry(without_instances(index, instance_path), module, importer);
    match target_of(without_instances(index, instance_path), module, importer) {
        Some(target) => {
            let entry = choose|entry: IndexedModel| #[trigger]
                without_instances(index, instance_path).contains(entry) && entry.target == target;
            removed_instances_are_gone(index, instance_path, entry);
        },
        None => {},
    }
    lemma_target_is_entry(without_sources(index, source_path), module, importer);
    match target_of(without_sources(index, source_path), module, importer) {
        Some(target) => {
            let entry = choose|entry: IndexedModel| #[trigger]
                without_sources(index, source_path).contains(entry) && entry.target == target;
            removed_sources_are_gone(index, source_path, entry);
        },
        None => {},
    }
}

proof fn lemma_target_is_entry(
    index: Seq<IndexedModel>,
    module: Seq<char>,
    importer: Seq<Seq<char>>,
)
    ensures
        target_of(index, module, importer) matches Some(target) ==> exists|entry: IndexedModel|
            #[trigger] index.contains(entry) && entry.target == target && entry.module
                == components(module),
{
    let entries = entries_at(index, components(module));
    nearest_instance_is_chosen(entries, importer);
    match target_of(index, module, importer) {
        Some(target) => {
            let wanted = |entry: IndexedModel| entry.module == components(module);
            let i = choose|i: int| #[trigger]
                is_nearest(entries, importer, i) && entries[i].target == target;
            assert(entries.contains(entries[i]));
            index.lemma_filter_contains_rev(wanted, entries[i]);
            index.lemma_filter_pred(wanted, i);
            assert(index.contains(entries[i]));
        },
        None => {},
    }
}

/// Whether `file` is a file that a module path stands for: with a Luau extension the path
/// itself, without one also the path with an extension.
pub open spec fn stands_for(path: Seq<char>, file: Seq<char>) -> bool {
    ||| file == path
    ||| !is_luau_file(path) && file == path.push('.') + "luau"@
    ||| !is_luau_file(path) && file == path.push('.') + "lua"@
}

/// Whether an entry is for `file` or for its canonical form.
pub open spec fn is_entry_of(files: FilesModel, file: Seq<char>, entry: IndexedModel) -> bool {
    ||| entry.module == components(file)
    ||| canonical_of(files, file) matches Ok(Some(canonical)) && entry.module == components(
        canonical,
    )
}

/// A module path leads only to an instance of the index, under a file that the path stands
/// for or under the canonical form of such a file.
pub proof fn targets_are_indexed(
    index: Seq<IndexedModel>,
    files: FilesModel,
    path: Seq<char>,
    importer: Seq<Seq<char>>,
)
    ensures
        target_of_module(index, files, path, importer) matches Ok(Some(target)) ==> exists|
            file: Seq<char>,
            entry: IndexedModel,
        |
            {
                &&& #[trigger] index.contains(entry)
                &&& entry.target == target
                &&& stands_for(path, file)
                &&& #[trigger] is_entry_of(files, file, entry)
            },
{
    lemma_target_of_path_is_indexed(index, files, path.push('.') + "luau"@, importer);
    lemma_target_of_path_is_indexed(index, files, path.push('.') + "lua"@, importer);
    lemma_target_of_path_is_indexed(index, files, path, importer);
    let luau = path.push('.') + "luau"@;
    let lua = path.push('.') + "lua"@;
    match target_of_module(index, files, path, importer) {
        Ok(Some(target)) => {
            let file = if is_luau_file(path) {
                path
            } else if target_of_path(index, files, luau, importer) == Ok::<
                Option<TargetModel>,
                Error<Seq<char>>,
            >(Some(target)) {
                luau
            } else if target_of_path(index, files, lua, importer) == Ok::<
                Option<TargetModel>,
                Error<Seq<char>>,
            >(Some(target)) {
                lua
            } else {
                path
            };
            assert(stands_for(path, file));
            assert(target_of_path(index, files, file, importer) == Ok::<
                Option<TargetModel>,
                Error<Seq<char>>,
            >(Some(target)));
        },
        _ => {},
    }
}

proof fn lemma_target_of_path_is_indexed(
    index: Seq<IndexedModel>,
    files: FilesModel,
    file: Seq<char>,
    importer: Seq<Seq<char>>,
)
    ensures
        target_of_path(index, files, file, importer) matches Ok(Some(target)) ==> exists|
            entry: IndexedModel,
        |
            {
                &&& #[trigger] index.contains(entry)
                &&& entry.target == target
                &&& #[trigger] is_entry_of(files, file, entry)
            },
{
    lemma_target_is_entry(index, file, importer);
    match target_of(index, file, importer) {
        Some(target) => {
            let entry = choose|entry: IndexedModel| #[trigger]
                index.contains(entry) && entry.target == target && entry.module == components(
                    file,
                );
            assert(is_entry_of(files, file, entry));
        },
        None => match canonical_of(files, file) {
            Ok(Some(canonical)) => {
                lemma_target_is_entry(index, canonical, importer);
                match target_of(index, canonical, importer) {
                    Some(target) => {
                        let entry = choose|entry: IndexedModel| #[trigger]
                            index.contains(entry) && entry.target == target && entry.module
                                == components(canonical);
                        assert(is_entry_of(files, file, entry));
                    },
                    None => {},
                }
            },
            _ => {},
        },
    }
}

} // verus!
