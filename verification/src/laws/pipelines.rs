//! What rows of transformers do.

use vstd::prelude::*;

use crate::error::Error;
use crate::snapshot::SnapshotModel;
use crate::transformer::{
    chained, goes_from, heard, is_member, is_step, lives_on, stepped, transformation, turns,
    whole_context, ContextModel, Event, Member,
};

verus! {

/// A row without transformers leaves every snapshot as it is.
pub proof fn empty_rows_change_nothing(
    snapshot: SnapshotModel,
    context: ContextModel,
    result: Result<SnapshotModel, Error<Seq<char>>>,
)
    ensures
        chained(Seq::empty(), snapshot, context, result) <==> result == Ok::<
            SnapshotModel,
            Error<Seq<char>>,
        >(snapshot),
{
}

/// A row of one transformer does what that one does.
pub proof fn rows_of_one_do_what_it_does(
    member: Member,
    snapshot: SnapshotModel,
    context: ContextModel,
    result: Result<SnapshotModel, Error<Seq<char>>>,
)
    ensures
        chained(seq![member], snapshot, context, result) <==> member.transformer.may_live(
            seq![Event::Transformed { snapshot, context, result }],
        ),
{
    reveal_with_fuel(chained, 2);
    assert(seq![member].drop_first() =~= Seq::<Member>::empty());
    if turns(member, snapshot, context, result) {
        assert(turns(seq![member][0], snapshot, context, result));
    }
}

/// The context of a whole project is the project itself where it is needed, and nothing
/// else.
pub proof fn projects_are_their_own_context(snapshot: SnapshotModel, needs: bool)
    ensures
        whole_context(snapshot, needs).instance_path is None,
        needs ==> whole_context(snapshot, needs).root == Some(snapshot),
        !needs ==> whole_context(snapshot, needs).root is None,
{
}

/// Every transformer of a row is a member of it, and nothing else is.
pub proof fn all_transformers_are_members(row: Seq<Member>, i: int)
    ensures
        is_member(row, i) <==> 0 <= i < row.len(),
{
}

/// A run takes its transformers one after the other, from the first that is left on: each
/// turns the snapshot that the one before it made into the next, until one fails or all are
/// done. All others are as they were.
pub proof fn runs_take_their_transformers_in_order(
    before: Seq<Member>,
    after: Seq<Member>,
    first: int,
    steps: Seq<SnapshotModel>,
    snapshot: SnapshotModel,
    context: ContextModel,
    result: Result<SnapshotModel, Error<Seq<char>>>,
    i: int,
)
    requires
        0 <= first,
        goes_from(steps, snapshot),
        stepped(before, after, first, steps, context, result),
    ensures
        steps[0] == snapshot,
        after.len() == before.len(),
        result matches Ok(last) ==> first + steps.len() == before.len() + 1 && steps.last() == last,
        result is Err ==> first + steps.len() <= before.len() && turns(
            before[first + steps.len() - 1],
            steps.last(),
            context,
            result,
        ),
        0 <= i < steps.len() - 1 ==> turns(
            before[first + i],
            steps[i],
            context,
            Ok(steps[i + 1]),
        ),
        0 <= i < first || first + steps.len() <= i < before.len() ==> after[i] == before[i],
{
    if 0 <= i < steps.len() - 1 {
        assert(is_step(steps, i));
        lemma_lives_on(
            before[first + i],
            transformation(steps[i], context, Ok(steps[i + 1])),
            after[first + i],
        );
    }
    if result is Err {
        let last = first + steps.len() - 1;
        lemma_lives_on(
            before[last],
            transformation(steps.last(), context, result),
            after[last],
        );
    }
    if 0 <= i < first || first + steps.len() <= i < before.len() {
        assert(after[i] == before[i]);
    }
}

proof fn lemma_lives_on(before: Member, event: Event, after: Member)
    requires
        lives_on(before, event, after),
    ensures
        before.transformer.may_live(seq![event]),
{
    let none = Seq::<Event>::empty();
    assert(after.transformer.may_live(none));
    assert(seq![event] + none =~= seq![event]);
}

/// What happens to a transformer after an event happens to it after that event.
pub proof fn transformers_live_on(
    before: Member,
    event: Event,
    after: Member,
    later: Seq<Event>,
)
    ensures
        lives_on(before, event, after) && after.transformer.may_live(later)
            ==> before.transformer.may_live(seq![event] + later),
        heard(before, event, after) && after.transformer.may_live(later)
            ==> before.transformer.may_live(seq![event] + later) || before.transformer.may_live(
            later,
        ),
{
}

/// A transformer of the standard pipeline starts with what it is told of the host, and with
/// nothing else.
pub proof fn standard_transformers_know_their_host(
    home_directory: Option<Seq<char>>,
    drives: bool,
    path: Seq<char>,
)
    ensures
        ({
            let state = crate::personal::fresh(home_directory, drives);
            &&& state.files.home_directory == home_directory
            &&& state.files.drives == drives
            &&& !state.files.metadata.contains_key(path)
            &&& !state.files.aliases.contains_key(path)
            &&& !state.files.runs.contains_key(path)
            &&& !state.files.canonical.contains_key(path)
            &&& state.index is None
            &&& state.configs.len() == 0
        }),
{
}

} // verus!
