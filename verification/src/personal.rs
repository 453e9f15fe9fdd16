//! The pipeline of the standard commands.

use vstd::prelude::*;

use crate::error::Error;
use crate::files::no_answers;
use crate::require_by_string::{lives, transform_run, RequireByStringTransformer, TransformerModel};
use crate::snapshot::SnapshotModel;
use crate::transformer::{
    chained, is_transformer, row_needs, transformation, turns, ContextModel, Event, Transformer,
    TransformerPipeline,
};

verus! {

/// The state of a transformer that has seen nothing yet.
pub open spec fn fresh(home_directory: Option<Seq<char>>, drives: bool) -> TransformerModel {
    TransformerModel {
        files: no_answers(home_directory, drives),
        index: None,
        configs: Seq::empty(),
    }
}

/// The pipeline that rewrites the requests of scripts, for a user with the given home
/// directory, on a host with drives or without them. More transformers are to be added
/// here.
pub fn transformer_pipeline(home_directory: Option<String>, drives: bool) -> (pipeline:
    TransformerPipeline)
    ensures
        pipeline.row().len() == 1,
        exists|transformer: RequireByStringTransformer|
            #[trigger] transformer.deep_view() == fresh(home_directory.deep_view(), drives)
                && is_transformer(pipeline.row()[0], transformer),
        forall|
            snapshot: SnapshotModel,
            context: ContextModel,
            transformed: Result<SnapshotModel, Error<Seq<char>>>,
        | #[trigger]
            chained(pipeline.row(), snapshot, context, transformed) <==> transformed
                == transform_run(
                fresh(home_directory.deep_view(), drives),
                snapshot,
                context,
            ).result,
        forall|events: Seq<Event>| #[trigger]
            pipeline.row()[0].transformer.may_live(events) == lives(
                fresh(home_directory.deep_view(), drives),
                events,
            ),
        !row_needs(pipeline.row(), true),
{
    let transformer = RequireByStringTransformer::new(home_directory, drives);
    let pipeline = TransformerPipeline::new().with(transformer);
    proof {
        let row = pipeline.row();
        assert(row[0] == row.last());
        assert forall|
            snapshot: SnapshotModel,
            context: ContextModel,
            transformed: Result<SnapshotModel, Error<Seq<char>>>,
        | #[trigger]
            chained(row, snapshot, context, transformed) <==> transformed == transform_run(
                fresh(home_directory.deep_view(), drives),
                snapshot,
                context,
            ).result by {
            let only = transform_run(transformer.deep_view(), snapshot, context).result;
            let event = transformation(snapshot, context, transformed);
            assert(seq![event].drop_first().len() == 0);
            reveal_with_fuel(lives, 2);
            reveal_with_fuel(chained, 2);
            let first = transformation(snapshot, context, only);
            assert(seq![first].drop_first().len() == 0);
            assert(turns(row[0], snapshot, context, only));
        }
    }
    pipeline
}

} // verus!
