//! Runs of a pipeline that wait for answers.
//!
//! A transformer that needs to know something of the file system ends its part of a run
//! with a question. The run keeps what the transformers before it returned, so that they
//! do not run again once the answer is there.

use vstd::prelude::*;

use crate::duplicate::Duplicate;
use crate::error::{outcome, Error};
use crate::snapshot::{InstanceSnapshot, SnapshotModel};
use crate::transformer::{
    chained, goes_from, is_step, lives_on, row_needs, rows_may_be_cut, stepped, transformation,
    turns, whole_context, ContextModel, Member, TransformContext, TransformerPipeline,
};

verus! {

/// A run of a pipeline, as far as it has come.
pub struct PipelineRun {
    snapshot: InstanceSnapshot,
    done: usize,
    root: Option<InstanceSnapshot>,
    instance_path: Option<Vec<String>>,
}

/// [`PipelineRun`] in contracts.
pub struct ProgressModel {
    /// What the transformers so far have made of the snapshot.
    pub snapshot: SnapshotModel,
    /// How many transformers that are.
    pub done: nat,
    /// What the transformers may look at.
    pub context: ContextModel,
}

impl DeepView for PipelineRun {
    type V = ProgressModel;

    closed spec fn deep_view(&self) -> ProgressModel {
        ProgressModel {
            snapshot: self.snapshot.deep_view(),
            done: self.done as nat,
            context: ContextModel {
                root: self.root.deep_view(),
                instance_path: self.instance_path.deep_view(),
            },
        }
    }
}

impl PipelineRun {
    /// A run over the part of a project at `instance_path`, with a view of the project or
    /// without one.
    pub fn of_part(
        snapshot: InstanceSnapshot,
        root: Option<InstanceSnapshot>,
        instance_path: Vec<String>,
    ) -> (run: PipelineRun)
        ensures
            run.deep_view() == (ProgressModel {
                snapshot: snapshot.deep_view(),
                done: 0,
                context: ContextModel {
                    root: root.deep_view(),
                    instance_path: Some(instance_path.deep_view()),
                },
            }),
    {
        PipelineRun { snapshot, done: 0, root, instance_path: Some(instance_path) }
    }
}

/// Whether a run that has come as far as `before` may come as far as `after` and return
/// `result`: the transformers in between have turned the one snapshot into the other, and
/// either none is left or the next one ends the run.
pub open spec fn advances(
    row: Seq<Member>,
    before: ProgressModel,
    after: ProgressModel,
    result: Result<SnapshotModel, Error<Seq<char>>>,
) -> bool {
    &&& before.done <= after.done <= row.len()
    &&& after.context == before.context
    &&& chained(
        row.subrange(before.done as int, after.done as int),
        before.snapshot,
        before.context,
        Ok(after.snapshot),
    )
    &&& match result {
        Ok(last) => after.done == row.len() && last == after.snapshot,
        Err(_) => after.done < row.len() && turns(
            row[after.done as int],
            after.snapshot,
            before.context,
            result,
        ),
    }
}

/// A run that is started again where it stopped comes to what all its transformers come
/// to, one after the other.
pub proof fn runs_come_to_what_their_rows_do(
    row: Seq<Member>,
    before: ProgressModel,
    after: ProgressModel,
    result: Result<SnapshotModel, Error<Seq<char>>>,
)
    requires
        advances(row, before, after, result),
    ensures
        chained(row.skip(before.done as int), before.snapshot, before.context, result),
{
    let passed = row.subrange(before.done as int, after.done as int);
    let rest = row.skip(after.done as int);
    rows_may_be_cut(passed, rest, before.snapshot, before.context, result);
    assert(passed + rest == row.skip(before.done as int));
    assert(chained(passed, before.snapshot, before.context, Ok(after.snapshot)));
    if after.done < row.len() {
        assert(rest[0] == row[after.done as int]);
        assert(turns(rest[0], after.snapshot, before.context, result));
    }
    assert(chained(rest, after.snapshot, before.context, result));
}

impl TransformerPipeline {
    /// A run over a whole project, which is its own context where a transformer asks for
    /// one.
    pub fn start(&self, snapshot: InstanceSnapshot) -> (run: PipelineRun)
        ensures
            exists|needs: bool| #[trigger]
                row_needs(self.row(), needs) && run.deep_view() == (ProgressModel {
                    snapshot: snapshot.deep_view(),
                    done: 0,
                    context: whole_context(snapshot.deep_view(), needs),
                }),
    {
        let needs = self.needs_project_snapshot();
        let root = if needs {
            Some(snapshot.duplicate())
        } else {
            None
        };
        PipelineRun { snapshot, done: 0, root, instance_path: None }
    }

    /// Takes a run on, up to its end or to the first error. Where the error is a question,
    /// the run can be taken on again once the answer is there.
    pub fn advance(&mut self, run: &mut PipelineRun) -> (result: Result<
        InstanceSnapshot,
        Error<String>,
    >)
        requires
            old(run).deep_view().done <= old(self).row().len(),
        ensures
            advances(
                old(self).row(),
                old(run).deep_view(),
                final(run).deep_view(),
                outcome(result),
            ),
            exists|steps: Seq<SnapshotModel>| #[trigger]
                goes_from(steps, old(run).deep_view().snapshot) && stepped(
                    old(self).row(),
                    final(self).row(),
                    old(run).deep_view().done as int,
                    steps,
                    old(run).deep_view().context,
                    outcome(result),
                ),
    {
        let ghost row = self.row();
        let ghost start = run.deep_view();
        let ghost mut steps: Seq<SnapshotModel> = seq![start.snapshot];
        assert(row.subrange(start.done as int, start.done as int).len() == 0);
        while run.done < self.len()
            invariant
                row == old(self).row(),
                start == old(run).deep_view(),
                start.done <= run.deep_view().done <= row.len(),
                run.deep_view().context == start.context,
                self.row().len() == row.len(),
                chained(
                    row.subrange(start.done as int, run.deep_view().done as int),
                    start.snapshot,
                    start.context,
                    Ok(run.deep_view().snapshot),
                ),
                forall|i: int|
                    #![trigger self.row()[i]]
                    0 <= i < start.done || run.deep_view().done <= i < row.len() ==> self.row()[i]
                        == row[i],
                steps.len() == run.deep_view().done - start.done + 1,
                goes_from(steps, start.snapshot),
                steps.last() == run.deep_view().snapshot,
                forall|i: int| #[trigger]
                    is_step(steps, i) ==> lives_on(
                        row[start.done + i],
                        transformation(steps[i], start.context, Ok(steps[i + 1])),
                        self.row()[start.done + i],
                    ),
            decreases row.len() - run.deep_view().done,
        {
            let ghost here = run.deep_view();
            let snapshot = run.snapshot.duplicate();
            let context = TransformContext {
                root: run.root.as_ref(),
                instance_path: run.instance_path.clone(),
            };
            let ghost before = self.row();
            let result = self.transform_member(run.done, snapshot, &context);
            proof {
                assert(before[here.done as int] == row[here.done as int]);
                assert forall|i: int| #[trigger] is_step(steps, i) implies lives_on(
                    row[start.done + i],
                    transformation(steps[i], start.context, Ok(steps[i + 1])),
                    self.row()[start.done + i],
                ) by {
                    assert(self.row()[start.done + i] == before[start.done + i]);
                }
            }
            let next = match result {
                Err(e) => {
                    assert(stepped(
                        row,
                        self.row(),
                        start.done as int,
                        steps,
                        start.context,
                        Err(e.deep_view()),
                    ));
                    return Err(e);
                },
                Ok(next) => next,
            };
            proof {
                let longer = steps.push(next.deep_view());
                assert forall|i: int| #[trigger] is_step(longer, i) implies lives_on(
                    row[start.done + i],
                    transformation(longer[i], start.context, Ok(longer[i + 1])),
                    self.row()[start.done + i],
                ) by {
                    assert(longer[i] == steps[i]);
                    if i + 1 < steps.len() {
                        assert(is_step(steps, i));
                        assert(longer[i + 1] == steps[i + 1]);
                    }
                }
                steps = longer;
                let passed = row.subrange(start.done as int, here.done as int);
                let member = seq![row[here.done as int]];
                let step = Ok::<SnapshotModel, Error<Seq<char>>>(next.deep_view());
                rows_may_be_cut(passed, member, start.snapshot, start.context, step);
                assert(turns(member[0], here.snapshot, start.context, step));
                assert(member.drop_first().len() == 0);
                reveal_with_fuel(chained, 2);
                assert(chained(member, here.snapshot, start.context, step));
                assert(passed + member == row.subrange(start.done as int, here.done as int + 1));
            }
            run.snapshot = next;
            run.done += 1;
        }
        let last = run.snapshot.duplicate();
        assert(stepped(
            row,
            self.row(),
            start.done as int,
            steps,
            start.context,
            Ok(last.deep_view()),
        ));
        Ok(last)
    }
}

} // verus!
