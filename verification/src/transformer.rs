//! The extension point for changing snapshots before they are compared and
//! synchronized.

use vstd::prelude::*;

use crate::duplicate::Duplicate;
use crate::error::{outcome, Error};
use crate::files::FileAnswer;
use crate::snapshot::{InstanceSnapshot, SnapshotModel};

verus! {

/// What a transformer may look at while it transforms a snapshot.
pub struct TransformContext<'a> {
    /// The snapshot of the project, where a transformer asked for one.
    pub root: Option<&'a InstanceSnapshot>,
    /// The path of the transformed snapshot within the project, its own name last.
    pub instance_path: Option<Vec<String>>,
}

/// [`TransformContext`] in contracts.
pub struct ContextModel {
    pub root: Option<SnapshotModel>,
    pub instance_path: Option<Seq<Seq<char>>>,
}

impl<'a> DeepView for TransformContext<'a> {
    type V = ContextModel;

    open spec fn deep_view(&self) -> ContextModel {
        ContextModel {
            root: match self.root {
                Some(root) => Some(root.deep_view()),
                None => None,
            },
            instance_path: self.instance_path.deep_view(),
        }
    }
}

impl<'a> TransformContext<'a> {
    /// The context with a project snapshot.
    pub fn new(root: &'a InstanceSnapshot) -> (context: Self)
        ensures
            context.root == Some(root),
            context.instance_path is None,
    {
        TransformContext { root: Some(root), instance_path: None }
    }

    /// The context of a snapshot at `instance_path` in `root`.
    pub fn with_instance_path(root: &'a InstanceSnapshot, instance_path: Vec<String>) -> (context:
        Self)
        ensures
            context.root == Some(root),
            context.instance_path == Some(instance_path),
    {
        TransformContext { root: Some(root), instance_path: Some(instance_path) }
    }

    /// The context of a snapshot at `instance_path`, with a project snapshot or
    /// without one.
    pub fn with_optional_root(
        root: Option<&'a InstanceSnapshot>,
        instance_path: Vec<String>,
    ) -> (context: Self)
        ensures
            context.root == root,
            context.instance_path == Some(instance_path),
    {
        TransformContext { root, instance_path: Some(instance_path) }
    }

    /// The context without a project snapshot.
    pub fn without_root() -> (context: Self)
        ensures
            context.root is None,
            context.instance_path is None,
    {
        TransformContext { root: None, instance_path: None }
    }
}

/// A change of the file system.
#[derive(Clone, Debug)]
pub enum TransformChange {
    Created(String),
    Written(String),
    Removed(String),
}

impl TransformChange {
    /// The path that changed.
    pub open spec fn changed_path(&self) -> Seq<char> {
        match self {
            TransformChange::Created(path) => path@,
            TransformChange::Written(path) => path@,
            TransformChange::Removed(path) => path@,
        }
    }

    /// The path that changed.
    pub fn path(&self) -> (path: &str)
        ensures
            path@ == self.changed_path(),
    {
        match self {
            TransformChange::Created(path) => path.as_str(),
            TransformChange::Written(path) => path.as_str(),
            TransformChange::Removed(path) => path.as_str(),
        }
    }

    /// Whether the path is gone.
    pub fn is_removed(&self) -> (removed: bool)
        ensures
            removed == (self is Removed),
    {
        match self {
            TransformChange::Removed(_) => true,
            _ => false,
        }
    }
}

/// Something that happens to a transformer.
pub enum Event {
    /// It is given a snapshot and returns `result`.
    Transformed {
        snapshot: SnapshotModel,
        context: ContextModel,
        result: Result<SnapshotModel, Error<Seq<char>>>,
    },
    /// It hears of a change of the file system.
    Changed(TransformChange),
    /// It hears of an instance that was removed.
    Removed(ContextModel),
    /// It hears an answer.
    Answered(FileAnswer),
}

/// A transformation of snapshots.
pub trait Transformer: Send {
    /// Whether all this may happen to this transformer, as it stands, in this order. To one
    /// that does not say otherwise anything may.
    open spec fn may_live(&self, events: Seq<Event>) -> bool {
        true
    }

    /// Whether this transformer, as it stands, may ask for the project snapshot.
    open spec fn may_ask(&self) -> bool {
        true
    }

    /// Transforms a snapshot.
    fn transform(
        &mut self,
        snapshot: InstanceSnapshot,
        context: &TransformContext<'_>,
    ) -> (transformed: Result<InstanceSnapshot, Error<String>>)
        ensures
            final(self).may_live(seq![]),
            forall|later: Seq<Event>| #[trigger]
                final(self).may_live(later) ==> old(self).may_live(
                    seq![
                        transformation(
                            snapshot.deep_view(),
                            context.deep_view(),
                            outcome(transformed),
                        ),
                    ] + later,
                ),
    ;

    /// Hears of a change of the file system before the snapshots that it touches are
    /// transformed. A transformer may let this pass, as it may what follows.
    fn handle_change(&mut self, _change: &TransformChange)
        ensures
            forall|later: Seq<Event>| #[trigger]
                final(self).may_live(later) ==> old(self).may_live(
                    seq![Event::Changed(*_change)] + later,
                ) || old(self).may_live(later),
    {
    }

    /// Hears of an instance that was removed from the tree.
    fn remove_instance(&mut self, _context: &TransformContext<'_>)
        ensures
            forall|later: Seq<Event>| #[trigger]
                final(self).may_live(later) ==> old(self).may_live(
                    seq![Event::Removed(_context.deep_view())] + later,
                ) || old(self).may_live(later),
    {
    }

    /// Hears the answer to a question about the file system.
    fn handle_answer(&mut self, _answer: &FileAnswer)
        ensures
            forall|later: Seq<Event>| #[trigger]
                final(self).may_live(later) ==> old(self).may_live(
                    seq![Event::Answered(*_answer)] + later,
                ) || old(self).may_live(later),
    {
    }

    /// Whether the context of a part of the tree must hold the project snapshot. A
    /// transformer that does not say otherwise needs none.
    fn needs_project_snapshot(&self) -> (needs: bool)
        ensures
            needs ==> self.may_ask(),
        default_ensures
            !needs,
    {
        false
    }
}

/// A transformer is given a snapshot and returns `result`.
pub open spec fn transformation(
    snapshot: SnapshotModel,
    context: ContextModel,
    result: Result<SnapshotModel, Error<Seq<char>>>,
) -> Event {
    Event::Transformed { snapshot, context, result }
}

/// Whether `transformer` may end so after it heard of `change`.
pub open spec fn may_handle_change<T: Transformer + ?Sized>(
    transformer: &mut T,
    change: &TransformChange,
) -> bool {
    call_ensures(T::handle_change, (transformer, change), ())
}

/// Whether `transformer` may end so after it heard of the removal of an instance.
pub open spec fn may_remove_instance<T: Transformer + ?Sized>(
    transformer: &mut T,
    context: &TransformContext<'_>,
) -> bool {
    call_ensures(T::remove_instance, (transformer, context), ())
}

/// Whether `transformer` may end so after it heard `answer`.
pub open spec fn may_handle_answer<T: Transformer + ?Sized>(
    transformer: &mut T,
    answer: &FileAnswer,
) -> bool {
    call_ensures(T::handle_answer, (transformer, answer), ())
}

/// Whether `transformer` may say so of its need for the project snapshot.
pub open spec fn may_need_project_snapshot<T: Transformer + ?Sized>(
    transformer: &T,
    needs: bool,
) -> bool {
    call_ensures(T::needs_project_snapshot, (transformer,), needs)
}

fn change_step<T: Transformer + ?Sized>(transformer: &mut T, change: &TransformChange)
    ensures
        forall|later: Seq<Event>| #[trigger]
            final(transformer).may_live(later) ==> old(transformer).may_live(
                seq![Event::Changed(*change)] + later,
            ) || old(transformer).may_live(later),
        exists|t: &mut T|
            &*t == &*old(transformer) && &*final(t) == &*final(transformer)
                && #[trigger] may_handle_change(t, change),
{
    transformer.handle_change(change);
    proof {
        let t = choose|t: &mut T|
            &*t == &*old(transformer) && &*final(t) == &*final(transformer)
                && #[trigger] call_ensures(T::handle_change, (t, change), ());
        assert(may_handle_change(t, change));
    }
}

fn removal_step<T: Transformer + ?Sized>(transformer: &mut T, context: &TransformContext<'_>)
    ensures
        forall|later: Seq<Event>| #[trigger]
            final(transformer).may_live(later) ==> old(transformer).may_live(
                seq![Event::Removed(context.deep_view())] + later,
            ) || old(transformer).may_live(later),
        exists|t: &mut T|
            &*t == &*old(transformer) && &*final(t) == &*final(transformer)
                && #[trigger] may_remove_instance(t, context),
{
    transformer.remove_instance(context);
    proof {
        let t = choose|t: &mut T|
            &*t == &*old(transformer) && &*final(t) == &*final(transformer)
                && #[trigger] call_ensures(T::remove_instance, (t, context), ());
        assert(may_remove_instance(t, context));
    }
}

fn answer_step<T: Transformer + ?Sized>(transformer: &mut T, answer: &FileAnswer)
    ensures
        forall|later: Seq<Event>| #[trigger]
            final(transformer).may_live(later) ==> old(transformer).may_live(
                seq![Event::Answered(*answer)] + later,
            ) || old(transformer).may_live(later),
        exists|t: &mut T|
            &*t == &*old(transformer) && &*final(t) == &*final(transformer)
                && #[trigger] may_handle_answer(t, answer),
{
    transformer.handle_answer(answer);
    proof {
        let t = choose|t: &mut T|
            &*t == &*old(transformer) && &*final(t) == &*final(transformer)
                && #[trigger] call_ensures(T::handle_answer, (t, answer), ());
        assert(may_handle_answer(t, answer));
    }
}

fn need_step<T: Transformer + ?Sized>(transformer: &T) -> (needs: bool)
    ensures
        may_need_project_snapshot(transformer, needs),
        needs ==> transformer.may_ask(),
{
    transformer.needs_project_snapshot()
}

/// A transformer of a pipeline.
pub struct Member {
    pub transformer: Box<dyn Transformer>,
}

/// Transformers in the order in which they were added.
pub struct TransformerPipeline {
    transformers: Vec<Member>,
}

/// Whether a transformer that lived through `event` may have become another: whatever may
/// happen to that one may happen to the first after the event.
pub open spec fn lives_on(before: Member, event: Event, after: Member) -> bool {
    &&& after.transformer.may_live(seq![])
    &&& forall|later: Seq<Event>| #[trigger]
        after.transformer.may_live(later) ==> before.transformer.may_live(seq![event] + later)
}

/// Whether a transformer that heard of `event`, or let it pass, may have become another.
pub open spec fn heard(before: Member, event: Event, after: Member) -> bool {
    forall|later: Seq<Event>| #[trigger]
        after.transformer.may_live(later) ==> before.transformer.may_live(seq![event] + later)
            || before.transformer.may_live(later)
}

/// Whether a transformer, as it stands, may turn `snapshot` into `transformed`.
pub open spec fn turns(
    member: Member,
    snapshot: SnapshotModel,
    context: ContextModel,
    transformed: Result<SnapshotModel, Error<Seq<char>>>,
) -> bool {
    member.transformer.may_live(seq![transformation(snapshot, context, transformed)])
}

/// Whether a row of snapshots starts with `snapshot`.
pub open spec fn goes_from(steps: Seq<SnapshotModel>, snapshot: SnapshotModel) -> bool {
    steps.len() > 0 && steps[0] == snapshot
}

/// Whether there is a step number `i`, from one snapshot of a row to the next.
pub open spec fn is_step(steps: Seq<SnapshotModel>, i: int) -> bool {
    0 <= i < steps.len() - 1
}

/// Whether a row of transformers, from number `first` on, may have become another as each
/// turned one snapshot of `steps` into the next, and the one after them ended the run with
/// `result` or there was none. The others are the same.
pub open spec fn stepped(
    before: Seq<Member>,
    after: Seq<Member>,
    first: int,
    steps: Seq<SnapshotModel>,
    context: ContextModel,
    result: Result<SnapshotModel, Error<Seq<char>>>,
) -> bool {
    let last = first + steps.len() - 1;
    &&& after.len() == before.len()
    &&& 0 < steps.len()
    &&& last <= before.len()
    &&& forall|i: int| #[trigger]
        is_step(steps, i) ==> lives_on(
            before[first + i],
            transformation(steps[i], context, Ok(steps[i + 1])),
            after[first + i],
        )
    &&& match result {
        Ok(end) => last == before.len() && end == steps.last(),
        Err(_) => last < before.len() && lives_on(
            before[last],
            transformation(steps.last(), context, result),
            after[last],
        ),
    }
    &&& forall|i: int|
        #![trigger after[i]]
        0 <= i < first || last < i < before.len() ==> after[i] == before[i]
}

/// Whether there is a transformer number `i`.
pub open spec fn is_member(row: Seq<Member>, i: int) -> bool {
    0 <= i < row.len()
}

/// Whether `member` is `transformer`, in its box.
#[verifier::inline]
pub open spec fn is_transformer<T: Transformer + 'static>(
    member: Member,
    transformer: T,
) -> bool {
    let boxed: Box<dyn Transformer> = Box::new(transformer);
    &*member.transformer == &*boxed
}

fn append<M>(row: &mut Vec<M>, member: M)
    ensures
        final(row)@.len() == old(row)@.len() + 1,
        final(row)@.drop_last() == old(row)@,
        final(row)@.last() == member,
{
    row.push(member);
    assert(row@.drop_last() == old(row)@);
}

/// Whether `needs` is what a row of transformers says of the project snapshot: one of
/// them asks for it, or none does.
pub open spec fn row_needs(row: Seq<Member>, needs: bool) -> bool {
    if needs {
        exists|i: int| #[trigger]
            is_member(row, i) && row[i].transformer.may_ask() && may_need_project_snapshot(
                &*row[i].transformer,
                true,
            )
    } else {
        forall|i: int| #[trigger]
            is_member(row, i) ==> may_need_project_snapshot(&*row[i].transformer, false)
    }
}

/// Whether a row of transformers, each as it stands, may turn `snapshot` into
/// `transformed`: each gets what the one before it returned, and the first error ends the
/// run.
pub open spec fn chained(
    row: Seq<Member>,
    snapshot: SnapshotModel,
    context: ContextModel,
    transformed: Result<SnapshotModel, Error<Seq<char>>>,
) -> bool
    decreases row.len(),
{
    if row.len() == 0 {
        transformed == Ok::<SnapshotModel, Error<Seq<char>>>(snapshot)
    } else {
        exists|first: Result<SnapshotModel, Error<Seq<char>>>| #[trigger]
            turns(row[0], snapshot, context, first) && match first {
                Ok(next) => chained(row.drop_first(), next, context, transformed),
                Err(_) => transformed == first,
            }
    }
}

/// A row of transformers may be cut in two: it does what its first part does, followed by
/// what its second part does to the result, where there is one.
pub proof fn rows_may_be_cut(
    first: Seq<Member>,
    second: Seq<Member>,
    snapshot: SnapshotModel,
    context: ContextModel,
    transformed: Result<SnapshotModel, Error<Seq<char>>>,
)
    ensures
        chained(first + second, snapshot, context, transformed) <==> exists|
            middle: Result<SnapshotModel, Error<Seq<char>>>,
        | #[trigger]
            chained(first, snapshot, context, middle) && match middle {
                Ok(next) => chained(second, next, context, transformed),
                Err(_) => transformed == middle,
            },
    decreases first.len(),
{
    let whole = first + second;
    if first.len() == 0 {
        assert(whole == second);
        assert(chained(first, snapshot, context, Ok(snapshot)));
    } else {
        let rest = first.drop_first();
        assert(whole[0] == first[0]);
        assert(whole.drop_first() == rest + second);
        if chained(whole, snapshot, context, transformed) {
            let step = choose|step: Result<SnapshotModel, Error<Seq<char>>>| #[trigger]
                turns(whole[0], snapshot, context, step) && match step {
                    Ok(next) => chained(whole.drop_first(), next, context, transformed),
                    Err(_) => transformed == step,
                };
            assert(turns(first[0], snapshot, context, step));
            match step {
                Ok(next) => {
                    rows_may_be_cut(rest, second, next, context, transformed);
                    let middle = choose|middle: Result<SnapshotModel, Error<Seq<char>>>| #[trigger]
                        chained(rest, next, context, middle) && match middle {
                            Ok(last) => chained(second, last, context, transformed),
                            Err(_) => transformed == middle,
                        };
                    assert(chained(first, snapshot, context, middle));
                },
                Err(_) => {
                    assert(chained(first, snapshot, context, step));
                },
            }
        }
        if exists|middle: Result<SnapshotModel, Error<Seq<char>>>| #[trigger]
            chained(first, snapshot, context, middle) && match middle {
                Ok(next) => chained(second, next, context, transformed),
                Err(_) => transformed == middle,
            } {
            let middle = choose|middle: Result<SnapshotModel, Error<Seq<char>>>| #[trigger]
                chained(first, snapshot, context, middle) && match middle {
                    Ok(next) => chained(second, next, context, transformed),
                    Err(_) => transformed == middle,
                };
            let step = choose|step: Result<SnapshotModel, Error<Seq<char>>>| #[trigger]
                turns(first[0], snapshot, context, step) && match step {
                    Ok(next) => chained(rest, next, context, middle),
                    Err(_) => middle == step,
                };
            assert(turns(whole[0], snapshot, context, step));
            match step {
                Ok(next) => {
                    rows_may_be_cut(rest, second, next, context, transformed);
                },
                Err(_) => {},
            }
        }
    }
}

/// Whether a row of transformers may have become another as it turned `snapshot` into
/// `transformed`.
pub open spec fn is_run(
    before: Seq<Member>,
    after: Seq<Member>,
    snapshot: SnapshotModel,
    context: ContextModel,
    transformed: Result<SnapshotModel, Error<Seq<char>>>,
) -> bool {
    &&& chained(before, snapshot, context, transformed)
    &&& exists|steps: Seq<SnapshotModel>| #[trigger]
        goes_from(steps, snapshot) && stepped(before, after, 0, steps, context, transformed)
}

/// The context of a snapshot that is a whole project: the snapshot itself where it is
/// needed, and nothing else.
pub open spec fn whole_context(snapshot: SnapshotModel, needs: bool) -> ContextModel {
    ContextModel {
        root: if needs {
            Some(snapshot)
        } else {
            None
        },
        instance_path: None,
    }
}

impl Default for TransformerPipeline {
    fn default() -> (pipeline: Self)
        ensures
            pipeline.row().len() == 0,
    {
        TransformerPipeline { transformers: Vec::new() }
    }
}

impl TransformerPipeline {
    /// The transformers, in order.
    pub closed spec fn row(&self) -> Seq<Member> {
        self.transformers@
    }

    /// The pipeline that leaves every snapshot as it is.
    pub fn new() -> (pipeline: Self)
        ensures
            pipeline.row().len() == 0,
    {
        Self::default()
    }

    /// Adds a transformer at the end.
    pub fn add<T: Transformer + 'static>(&mut self, transformer: T)
        ensures
            final(self).row().len() == old(self).row().len() + 1,
            final(self).row().drop_last() == old(self).row(),
            is_transformer(final(self).row().last(), transformer),
    {
        append(&mut self.transformers, Member { transformer: Box::new(transformer) });
    }

    /// The pipeline with one more transformer at the end.
    pub fn with<T: Transformer + 'static>(self, transformer: T) -> (longer: Self)
        ensures
            longer.row().len() == self.row().len() + 1,
            longer.row().drop_last() == self.row(),
            is_transformer(longer.row().last(), transformer),
    {
        let mut longer = self;
        longer.add(transformer);
        longer
    }

    /// Applies every transformer in order. A project is its own context.
    pub fn transform(&mut self, snapshot: InstanceSnapshot) -> (transformed: Result<
        InstanceSnapshot,
        Error<String>,
    >)
        ensures
            exists|needs: bool| #[trigger]
                row_needs(old(self).row(), needs) && is_run(
                    old(self).row(),
                    final(self).row(),
                    snapshot.deep_view(),
                    whole_context(snapshot.deep_view(), needs),
                    outcome(transformed),
                ),
    {
        let needs = self.needs_project_snapshot();
        if needs {
            let whole = snapshot.duplicate();
            let context = TransformContext::new(&whole);
            self.transform_with_context(snapshot, &context)
        } else {
            let context = TransformContext::without_root();
            self.transform_with_context(snapshot, &context)
        }
    }

    /// Applies every transformer in order, each to what the one before it returned and
    /// all with the same context. The first error ends the run: the transformers after
    /// it are not asked.
    pub fn transform_with_context(
        &mut self,
        snapshot: InstanceSnapshot,
        context: &TransformContext<'_>,
    ) -> (transformed: Result<InstanceSnapshot, Error<String>>)
        ensures
            is_run(
                old(self).row(),
                final(self).row(),
                snapshot.deep_view(),
                context.deep_view(),
                outcome(transformed),
            ),
    {
        let ghost row = self.row();
        let ghost start = snapshot.deep_view();
        let ghost scene = context.deep_view();
        let ghost mut steps: Seq<SnapshotModel> = seq![start];
        let mut current = snapshot;
        let mut i: usize = 0;
        assert(row.skip(0) == row);
        while i < self.transformers.len()
            invariant
                i <= row.len(),
                row == old(self).row(),
                start == snapshot.deep_view(),
                scene == context.deep_view(),
                self.row().len() == row.len(),
                steps.len() == i + 1,
                goes_from(steps, start),
                steps.last() == current.deep_view(),
                forall|j: int| i <= j < row.len() ==> #[trigger] self.row()[j] == row[j],
                forall|j: int| #[trigger]
                    is_step(steps, j) ==> lives_on(
                        row[j],
                        transformation(steps[j], scene, Ok(steps[j + 1])),
                        self.row()[j],
                    ),
                forall|result: Result<SnapshotModel, Error<Seq<char>>>|
                    chained(row.skip(i as int), current.deep_view(), scene, result)
                        ==> #[trigger] chained(row, start, scene, result),
            decreases row.len() - i,
        {
            let ghost before = self.row();
            let ghost given = current.deep_view();
            let result = self.transform_member(i, current, context);
            assert(before[i as int] == row[i as int]);
            proof {
                let rest = row.skip(i as int);
                assert(rest[0] == row[i as int]);
                assert(rest.drop_first() == row.skip(i + 1));
                assert(turns(rest[0], given, scene, outcome(result)));
            }
            match result {
                Ok(next) => {
                    current = next;
                    proof {
                        let longer = steps.push(next.deep_view());
                        assert forall|j: int| #[trigger] is_step(longer, j) implies lives_on(
                            row[j],
                            transformation(longer[j], scene, Ok(longer[j + 1])),
                            self.row()[j],
                        ) by {
                            if j < i {
                                assert(is_step(steps, j));
                                assert(longer[j] == steps[j]);
                                assert(longer[j + 1] == steps[j + 1]);
                                assert(self.row()[j] == before[j]);
                            }
                        }
                        steps = longer;
                    }
                },
                Err(e) => {
                    proof {
                        assert forall|j: int| #[trigger] is_step(steps, j) implies lives_on(
                            row[j],
                            transformation(steps[j], scene, Ok(steps[j + 1])),
                            self.row()[j],
                        ) by {
                            assert(self.row()[j] == before[j]);
                        }
                        assert(stepped(row, self.row(), 0, steps, scene, Err(e.deep_view())));
                    }
                    return Err(e);
                },
            }
            i += 1;
        }
        proof {
            assert(row.skip(i as int).len() == 0);
            assert(stepped(row, self.row(), 0, steps, scene, Ok(current.deep_view())));
        }
        Ok(current)
    }

    /// How many transformers there are.
    pub fn len(&self) -> (count: usize)
        ensures
            count == self.row().len(),
    {
        self.transformers.len()
    }

    /// Applies one of the transformers.
    pub(crate) fn transform_member(
        &mut self,
        i: usize,
        snapshot: InstanceSnapshot,
        context: &TransformContext<'_>,
    ) -> (transformed: Result<InstanceSnapshot, Error<String>>)
        requires
            i < old(self).row().len(),
        ensures
            final(self).row().len() == old(self).row().len(),
            turns(
                old(self).row()[i as int],
                snapshot.deep_view(),
                context.deep_view(),
                outcome(transformed),
            ),
            lives_on(
                old(self).row()[i as int],
                transformation(
                    snapshot.deep_view(),
                    context.deep_view(),
                    outcome(transformed),
                ),
                final(self).row()[i as int],
            ),
            forall|j: int|
                0 <= j < old(self).row().len() && j != i ==> #[trigger] final(self).row()[j] == old(
                    self,
                ).row()[j],
    {
        let transformed = self.transformers[i].transformer.transform(snapshot, context);
        proof {
            let event = transformation(
                snapshot.deep_view(),
                context.deep_view(),
                outcome(transformed),
            );
            let later: Seq<Event> = seq![];
            assert(self.row()[i as int].transformer.may_live(later));
            assert(seq![event] + later == seq![event]);
        }
        transformed
    }

    /// Tells every transformer of a change of the file system.
    pub fn handle_change(&mut self, change: &TransformChange)
        ensures
            final(self).row().len() == old(self).row().len(),
            forall|i: int| #[trigger]
                is_member(old(self).row(), i) ==> exists|t: &mut dyn Transformer|
                    &*t == &*old(self).row()[i].transformer
                        && &*final(t) == &*final(self).row()[i].transformer
                        && #[trigger] may_handle_change(t, change),
            forall|i: int| #[trigger]
                is_member(old(self).row(), i) ==> heard(
                    old(self).row()[i],
                    Event::Changed(*change),
                    final(self).row()[i],
                ),
    {
        let mut i: usize = 0;
        while i < self.transformers.len()
            invariant
                forall|j: int| #[trigger]
                    is_member(old(self).row(), j) && j < i ==> heard(
                        old(self).row()[j],
                        Event::Changed(*change),
                        self.row()[j],
                    ),
                i <= self.row().len(),
                self.row().len() == old(self).row().len(),
                forall|j: int| i <= j < self.row().len() ==> self.row()[j] == old(self).row()[j],
                forall|j: int| #[trigger]
                    is_member(old(self).row(), j) && j < i ==> exists|t: &mut dyn Transformer|
                        &*t == &*old(self).row()[j].transformer
                            && &*final(t) == &*self.row()[j].transformer
                            && #[trigger] may_handle_change(t, change),
            decreases self.row().len() - i,
        {
            let ghost before = self.row();
            change_step(&mut *self.transformers[i].transformer, change);
            assert(forall|j: int| 0 <= j < before.len() && j != i ==> self.row()[j] == before[j]);
            assert(before[i as int] == old(self).row()[i as int]);
            i += 1;
        }
    }

    /// Tells every transformer of an instance that was removed from the tree.
    pub fn remove_instance(&mut self, context: &TransformContext<'_>)
        ensures
            final(self).row().len() == old(self).row().len(),
            forall|i: int| #[trigger]
                is_member(old(self).row(), i) ==> exists|t: &mut dyn Transformer|
                    &*t == &*old(self).row()[i].transformer
                        && &*final(t) == &*final(self).row()[i].transformer
                        && #[trigger] may_remove_instance(t, context),
            forall|i: int| #[trigger]
                is_member(old(self).row(), i) ==> heard(
                    old(self).row()[i],
                    Event::Removed(context.deep_view()),
                    final(self).row()[i],
                ),
    {
        let mut i: usize = 0;
        while i < self.transformers.len()
            invariant
                forall|j: int| #[trigger]
                    is_member(old(self).row(), j) && j < i ==> heard(
                        old(self).row()[j],
                        Event::Removed(context.deep_view()),
                        self.row()[j],
                    ),
                i <= self.row().len(),
                self.row().len() == old(self).row().len(),
                forall|j: int| i <= j < self.row().len() ==> self.row()[j] == old(self).row()[j],
                forall|j: int| #[trigger]
                    is_member(old(self).row(), j) && j < i ==> exists|t: &mut dyn Transformer|
                        &*t == &*old(self).row()[j].transformer
                            && &*final(t) == &*self.row()[j].transformer
                            && #[trigger] may_remove_instance(t, context),
            decreases self.row().len() - i,
        {
            let ghost before = self.row();
            removal_step(&mut *self.transformers[i].transformer, context);
            assert(forall|j: int| 0 <= j < before.len() && j != i ==> self.row()[j] == before[j]);
            assert(before[i as int] == old(self).row()[i as int]);
            i += 1;
        }
    }

    /// Tells every transformer the answer to a question about the file system.
    pub fn handle_answer(&mut self, answer: &FileAnswer)
        ensures
            final(self).row().len() == old(self).row().len(),
            forall|i: int| #[trigger]
                is_member(old(self).row(), i) ==> exists|t: &mut dyn Transformer|
                    &*t == &*old(self).row()[i].transformer
                        && &*final(t) == &*final(self).row()[i].transformer
                        && #[trigger] may_handle_answer(t, answer),
            forall|i: int| #[trigger]
                is_member(old(self).row(), i) ==> heard(
                    old(self).row()[i],
                    Event::Answered(*answer),
                    final(self).row()[i],
                ),
    {
        let mut i: usize = 0;
        while i < self.transformers.len()
            invariant
                forall|j: int| #[trigger]
                    is_member(old(self).row(), j) && j < i ==> heard(
                        old(self).row()[j],
                        Event::Answered(*answer),
                        self.row()[j],
                    ),
                i <= self.row().len(),
                self.row().len() == old(self).row().len(),
                forall|j: int| i <= j < self.row().len() ==> self.row()[j] == old(self).row()[j],
                forall|j: int| #[trigger]
                    is_member(old(self).row(), j) && j < i ==> exists|t: &mut dyn Transformer|
                        &*t == &*old(self).row()[j].transformer
                            && &*final(t) == &*self.row()[j].transformer
                            && #[trigger] may_handle_answer(t, answer),
            decreases self.row().len() - i,
        {
            let ghost before = self.row();
            answer_step(&mut *self.transformers[i].transformer, answer);
            assert(forall|j: int| 0 <= j < before.len() && j != i ==> self.row()[j] == before[j]);
            assert(before[i as int] == old(self).row()[i as int]);
            i += 1;
        }
    }

    /// Whether a transformer asks for the project snapshot.
    pub fn needs_project_snapshot(&self) -> (needs: bool)
        ensures
            row_needs(self.row(), needs),
    {
        let mut i: usize = 0;
        while i < self.transformers.len()
            invariant
                i <= self.row().len(),
                forall|j: int| #[trigger]
                    is_member(self.row(), j) && j < i ==> may_need_project_snapshot(
                        &*self.row()[j].transformer,
                        false,
                    ),
            decreases self.row().len() - i,
        {
            if need_step(&*self.transformers[i].transformer) {
                assert(is_member(self.row(), i as int));
                return true;
            }
            i += 1;
        }
        false
    }
}

} // verus!
