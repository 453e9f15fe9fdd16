//! Snapshots of instance trees.

use vstd::prelude::*;

use crate::duplicate::Duplicate;
use crate::text_map::TextMap;

verus! {

/// The value of a property, over the type of its text.
#[derive(Debug, PartialEq, Eq)]
pub enum PropertyValue<S> {
    /// A text.
    Text(S),
    /// A value of some other type, by a number under which its owner keeps it.
    Other(u64),
}

impl DeepView for PropertyValue<String> {
    type V = PropertyValue<Seq<char>>;

    open spec fn deep_view(&self) -> PropertyValue<Seq<char>> {
        match self {
            PropertyValue::Text(text) => PropertyValue::Text(text@),
            PropertyValue::Other(id) => PropertyValue::Other(*id),
        }
    }
}

/// Where an instance comes from, over the type of its texts.
#[derive(Debug, PartialEq, Eq)]
pub enum InstigatingSource<S> {
    /// A file or a directory.
    Path(S),
    /// A node of the project file at `path`, which may name a path of its own.
    ProjectNode { path: S, node_path: Option<S> },
}

impl DeepView for InstigatingSource<String> {
    type V = InstigatingSource<Seq<char>>;

    open spec fn deep_view(&self) -> InstigatingSource<Seq<char>> {
        match self {
            InstigatingSource::Path(path) => InstigatingSource::Path(path@),
            InstigatingSource::ProjectNode { path, node_path } => InstigatingSource::ProjectNode {
                path: path@,
                node_path: node_path.deep_view(),
            },
        }
    }
}

/// Where an instance comes from and which paths matter to it.
#[derive(Debug, PartialEq, Eq)]
pub struct InstanceMetadata {
    pub instigating_source: Option<InstigatingSource<String>>,
    pub relevant_paths: Vec<String>,
}

/// [`InstanceMetadata`] in contracts.
pub struct MetadataModel {
    pub instigating_source: Option<InstigatingSource<Seq<char>>>,
    pub relevant_paths: Seq<Seq<char>>,
}

impl DeepView for InstanceMetadata {
    type V = MetadataModel;

    open spec fn deep_view(&self) -> MetadataModel {
        MetadataModel {
            instigating_source: self.instigating_source.deep_view(),
            relevant_paths: self.relevant_paths.deep_view(),
        }
    }
}

/// An instance and everything below it.
#[derive(Debug, PartialEq, Eq)]
pub struct InstanceSnapshot {
    /// A number under which the owner keeps what is not here.
    pub snapshot_id: u64,
    pub name: String,
    pub class_name: String,
    pub properties: TextMap<PropertyValue<String>>,
    pub metadata: InstanceMetadata,
    pub children: Vec<InstanceSnapshot>,
}

/// [`InstanceSnapshot`] in contracts.
pub struct SnapshotModel {
    pub snapshot_id: u64,
    pub name: Seq<char>,
    pub class_name: Seq<char>,
    pub properties: Map<Seq<char>, PropertyValue<Seq<char>>>,
    pub metadata: MetadataModel,
    pub children: Seq<SnapshotModel>,
}

impl InstanceSnapshot {
    /// This snapshot in contracts.
    pub open spec fn model(&self) -> SnapshotModel
        decreases self,
    {
        SnapshotModel {
            snapshot_id: self.snapshot_id,
            name: self.name@,
            class_name: self.class_name@,
            properties: self.properties.deep_view(),
            metadata: self.metadata.deep_view(),
            children: Seq::new(
                self.children@.len(),
                |i: int|
                    if 0 <= i < self.children@.len() {
                        self.children@[i].model()
                    } else {
                        arbitrary()
                    },
            ),
        }
    }
}

impl DeepView for InstanceSnapshot {
    type V = SnapshotModel;

    open spec fn deep_view(&self) -> SnapshotModel {
        self.model()
    }
}

/// How many instances a tree holds.
pub open spec fn size(snapshot: SnapshotModel) -> nat
    decreases snapshot,
{
    1 + size_of_each(snapshot.children)
}

/// How many instances a row of trees holds.
pub open spec fn size_of_each(row: Seq<SnapshotModel>) -> nat
    decreases row,
{
    if row.len() == 0 {
        0
    } else {
        size(row[0]) + size_of_each(row.drop_first())
    }
}

impl Duplicate for PropertyValue<String> {
    fn duplicate(&self) -> (copy: Self) {
        match self {
            PropertyValue::Text(text) => PropertyValue::Text(text.clone()),
            PropertyValue::Other(id) => PropertyValue::Other(*id),
        }
    }
}

impl Duplicate for InstigatingSource<String> {
    fn duplicate(&self) -> (copy: Self) {
        match self {
            InstigatingSource::Path(path) => InstigatingSource::Path(path.clone()),
            InstigatingSource::ProjectNode { path, node_path } => InstigatingSource::ProjectNode {
                path: path.clone(),
                node_path: node_path.clone(),
            },
        }
    }
}

impl Duplicate for InstanceMetadata {
    fn duplicate(&self) -> (copy: Self) {
        InstanceMetadata {
            instigating_source: match &self.instigating_source {
                Some(source) => Some(source.duplicate()),
                None => None,
            },
            relevant_paths: self.relevant_paths.clone(),
        }
    }
}

/// The children in the model are the models of the children.
pub proof fn children_models(snapshot: InstanceSnapshot)
    ensures
        snapshot.deep_view().children == snapshot.children.deep_view(),
{
    assert(snapshot.deep_view().children =~= snapshot.children.deep_view());
}

enum CopyTask<'a> {
    Copy(&'a InstanceSnapshot),
    Assemble(&'a InstanceSnapshot),
}

/// What comes out once all tasks are done, the last one first.
spec fn copied(tasks: Seq<CopyTask<'_>>, results: Seq<SnapshotModel>) -> Seq<SnapshotModel>
    decreases tasks.len(),
{
    if tasks.len() == 0 {
        results
    } else {
        match tasks.last() {
            CopyTask::Copy(snapshot) => copied(tasks.drop_last(), results.push(snapshot.model())),
            CopyTask::Assemble(snapshot) => {
                let start = results.len() - snapshot.children@.len();
                copied(
                    tasks.drop_last(),
                    results.take(start).push(
                        SnapshotModel { children: results.skip(start), ..snapshot.model() },
                    ),
                )
            },
        }
    }
}

/// Whether there are always enough results to assemble, starting from `count`.
spec fn enough(tasks: Seq<CopyTask<'_>>, count: int) -> bool
    decreases tasks.len(),
{
    if tasks.len() == 0 {
        true
    } else {
        match tasks.last() {
            CopyTask::Copy(_) => enough(tasks.drop_last(), count + 1),
            CopyTask::Assemble(snapshot) => snapshot.children@.len() <= count && enough(
                tasks.drop_last(),
                count - snapshot.children@.len() + 1,
            ),
        }
    }
}

/// How much is left to copy.
spec fn to_copy(tasks: Seq<CopyTask<'_>>) -> nat
    decreases tasks.len(),
{
    if tasks.len() == 0 {
        0
    } else {
        to_copy(tasks.drop_last()) + match tasks.last() {
            CopyTask::Copy(snapshot) => 2 * size(snapshot.model()),
            CopyTask::Assemble(_) => 1,
        }
    }
}

/// The tasks to copy the children of a snapshot from one on, the first child last.
spec fn copies<'a>(snapshot: &'a InstanceSnapshot, from: int) -> Seq<CopyTask<'a>> {
    Seq::new(
        (snapshot.children@.len() - from) as nat,
        |i: int| CopyTask::Copy(&snapshot.children@[snapshot.children@.len() - 1 - i]),
    )
}

/// Copying the children of a snapshot leaves their models.
proof fn lemma_copies<'a>(
    tasks: Seq<CopyTask<'a>>,
    results: Seq<SnapshotModel>,
    snapshot: &'a InstanceSnapshot,
    from: int,
)
    requires
        0 <= from <= snapshot.children@.len(),
    ensures
        copied(tasks + copies(snapshot, from), results) == copied(
            tasks,
            results + snapshot.model().children.skip(from),
        ),
        enough(tasks + copies(snapshot, from), results.len() as int) == enough(
            tasks,
            results.len() + snapshot.children@.len() - from,
        ),
        to_copy(tasks + copies(snapshot, from)) == to_copy(tasks) + 2 * size_of_each(
            snapshot.model().children.skip(from),
        ),
    decreases snapshot.children@.len() - from,
{
    let all = tasks + copies(snapshot, from);
    let models = snapshot.model().children;
    if from == snapshot.children@.len() {
        assert(all == tasks);
        assert(results + models.skip(from) == results);
    } else {
        let first = snapshot.children@[from];
        assert(all.last() == CopyTask::Copy(&first));
        assert(all.drop_last() == tasks + copies(snapshot, from + 1));
        assert(models.skip(from)[0] == first.model());
        assert(models.skip(from).drop_first() == models.skip(from + 1));
        lemma_copies(tasks, results.push(first.model()), snapshot, from + 1);
        assert(results.push(first.model()) + models.skip(from + 1) == results + models.skip(from));
    }
}

impl Duplicate for InstanceSnapshot {
    fn duplicate(&self) -> (copy: Self) {
        let mut tasks: Vec<CopyTask<'_>> = Vec::new();
        let mut results: Vec<InstanceSnapshot> = Vec::new();
        tasks.push(CopyTask::Copy(self));
        proof {
            let none = tasks@.drop_last();
            assert(none.len() == 0);
            assert(copied(none, seq![self.model()]) == seq![self.model()]);
            assert(enough(none, 1));
            assert(results.deep_view().push(self.model()) == seq![self.model()]);
        }
        while tasks.len() > 0
            invariant
                copied(tasks@, results.deep_view()) == seq![self.model()],
                enough(tasks@, results@.len() as int),
            decreases to_copy(tasks@),
        {
            let ghost before = tasks@;
            let ghost done = results.deep_view();
            let task = tasks.pop().unwrap();
            let ghost rest = tasks@;
            match task {
                CopyTask::Copy(snapshot) => {
                    tasks.push(CopyTask::Assemble(snapshot));
                    let ghost base = tasks@;
                    let mut i: usize = snapshot.children.len();
                    assert(base + copies(snapshot, i as int) == base);
                    while i > 0
                        invariant
                            i <= snapshot.children@.len(),
                            tasks@ == base + copies(snapshot, i as int),
                        decreases i,
                    {
                        i -= 1;
                        tasks.push(CopyTask::Copy(&snapshot.children[i]));
                        assert(tasks@ == base + copies(snapshot, i as int));
                    }
                    proof {
                        let models = snapshot.model().children;
                        lemma_copies(base, done, snapshot, 0);
                        assert(models.skip(0) == models);
                        assert(base.drop_last() == rest);
                        let all = done + models;
                        assert(all.take(done.len() as int) == done);
                        assert(all.skip(done.len() as int) == models);
                        assert((SnapshotModel { children: models, ..snapshot.model() })
                            == snapshot.model());
                    }
                },
                CopyTask::Assemble(snapshot) => {
                    let start: usize = results.len() - snapshot.children.len();
                    let children = results.split_off(start);
                    let copy = InstanceSnapshot {
                        snapshot_id: snapshot.snapshot_id,
                        name: snapshot.name.clone(),
                        class_name: snapshot.class_name.clone(),
                        properties: snapshot.properties.duplicate(),
                        metadata: snapshot.metadata.duplicate(),
                        children,
                    };
                    proof {
                        children_models(copy);
                        assert(children.deep_view() == done.skip(start as int));
                    }
                    results.push(copy);
                    assert(results.deep_view() == done.take(start as int).push(copy.model()));
                },
            }
        }
        assert(results.deep_view()[0] == self.model());
        results.pop().unwrap()
    }
}

impl Clone for InstanceSnapshot {
    fn clone(&self) -> (copy: InstanceSnapshot)
        ensures
            copy.deep_view() == self.deep_view(),
    {
        self.duplicate()
    }
}

} // verus!
