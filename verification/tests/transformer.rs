//! The transformer pipeline.

use std::sync::{Arc, Mutex};

use require_by_string::error::Error;
use require_by_string::files::{FileAnswer, FileQuery, QueryKind};
use require_by_string::personal::transformer_pipeline;
use require_by_string::resume::PipelineRun;
use require_by_string::snapshot::{InstanceMetadata, InstanceSnapshot};
use require_by_string::text_map::TextMap;
use require_by_string::transformer::{
    TransformChange, TransformContext, Transformer, TransformerPipeline,
};

fn folder() -> InstanceSnapshot {
    InstanceSnapshot {
        snapshot_id: 0,
        name: "DEFAULT".to_owned(),
        class_name: "Folder".to_owned(),
        properties: TextMap::new(),
        metadata: InstanceMetadata { instigating_source: None, relevant_paths: Vec::new() },
        children: Vec::new(),
    }
}

struct RenameTransformer(&'static str);

impl Transformer for RenameTransformer {
    fn transform(
        &mut self,
        mut snapshot: InstanceSnapshot,
        _context: &TransformContext<'_>,
    ) -> Result<InstanceSnapshot, Error<String>> {
        snapshot.name = self.0.to_owned();
        Ok(snapshot)
    }
}

struct FailingTransformer;

impl Transformer for FailingTransformer {
    fn transform(
        &mut self,
        _snapshot: InstanceSnapshot,
        _context: &TransformContext<'_>,
    ) -> Result<InstanceSnapshot, Error<String>> {
        Err(Error::Other { detail: "refused".to_owned() })
    }
}

struct RecordingTransformer {
    events: Arc<Mutex<Vec<String>>>,
    label: &'static str,
    needs: bool,
}

impl RecordingTransformer {
    fn record(&self, what: &str) {
        let event = format!("{} {}", self.label, what);
        self.events.lock().unwrap().push(event);
    }
}

impl Transformer for RecordingTransformer {
    fn transform(
        &mut self,
        snapshot: InstanceSnapshot,
        context: &TransformContext<'_>,
    ) -> Result<InstanceSnapshot, Error<String>> {
        match context.root {
            Some(root) => self.record(&format!("transform {} in {}", snapshot.name, root.name)),
            None => self.record(&format!("transform {}", snapshot.name)),
        }
        Ok(snapshot)
    }

    fn handle_change(&mut self, change: &TransformChange) {
        self.record(&format!("change {} {}", change.path(), change.is_removed()));
    }

    fn remove_instance(&mut self, context: &TransformContext<'_>) {
        let path = context.instance_path.as_ref().unwrap().join(".");
        self.record(&format!("remove {path}"));
    }

    fn handle_answer(&mut self, _answer: &FileAnswer) {
        self.record("answer");
    }

    fn needs_project_snapshot(&self) -> bool {
        self.needs
    }
}

#[test]
fn transforms_are_applied_in_registration_order() {
    let snapshot = folder();
    let mut pipeline = TransformerPipeline::new()
        .with(RenameTransformer("first"))
        .with(RenameTransformer("second"));

    let transformed = pipeline.transform(snapshot).unwrap();

    assert_eq!(transformed.name, "second");
}

#[test]
fn empty_pipeline_preserves_snapshot() {
    let snapshot = folder();

    let mut pipeline = TransformerPipeline::new();
    let transformed = pipeline.transform(snapshot.clone()).unwrap();

    assert_eq!(transformed, snapshot);
}

#[test]
fn an_error_keeps_later_transformers_from_running() {
    let events = Arc::new(Mutex::new(Vec::new()));
    let mut pipeline = TransformerPipeline::new()
        .with(RecordingTransformer { events: events.clone(), label: "a", needs: false })
        .with(FailingTransformer)
        .with(RecordingTransformer { events: events.clone(), label: "b", needs: false });

    let error = pipeline.transform(folder()).unwrap_err();

    assert_eq!(error, Error::Other { detail: "refused".to_owned() });
    assert_eq!(error.message(), "refused");
    assert_eq!(*events.lock().unwrap(), vec!["a transform DEFAULT".to_owned()]);
}

#[test]
fn a_project_is_its_own_context_where_a_transformer_asks_for_it() {
    let events = Arc::new(Mutex::new(Vec::new()));
    let mut pipeline = TransformerPipeline::new();
    assert!(!pipeline.needs_project_snapshot());
    pipeline.add(RenameTransformer("renamed"));
    assert!(!pipeline.needs_project_snapshot());
    pipeline.add(RecordingTransformer { events: events.clone(), label: "a", needs: true });
    assert!(pipeline.needs_project_snapshot());

    pipeline.transform(folder()).unwrap();

    assert_eq!(
        *events.lock().unwrap(),
        vec!["a transform renamed in DEFAULT".to_owned()]
    );
}

#[test]
fn every_transformer_hears_of_changes_removals_and_answers() {
    let events = Arc::new(Mutex::new(Vec::new()));
    let mut pipeline = TransformerPipeline::new()
        .with(RecordingTransformer { events: events.clone(), label: "a", needs: false })
        .with(RenameTransformer("silent"))
        .with(RecordingTransformer { events: events.clone(), label: "b", needs: false });

    pipeline.handle_change(&TransformChange::Removed("/x".to_owned()));
    pipeline.handle_change(&TransformChange::Created("/y".to_owned()));
    let root = folder();
    let context = TransformContext::with_instance_path(
        &root,
        vec!["Project".to_owned(), "child".to_owned()],
    );
    pipeline.remove_instance(&context);
    pipeline.handle_answer(&FileAnswer::Canonical {
        path: "/x".to_owned(),
        canonical: Ok(None),
    });

    let expected = [
        "a change /x true",
        "b change /x true",
        "a change /y false",
        "b change /y false",
        "a remove Project.child",
        "b remove Project.child",
        "a answer",
        "b answer",
    ];
    assert_eq!(*events.lock().unwrap(), expected);
}

struct AskingTransformer {
    answers: usize,
}

impl Transformer for AskingTransformer {
    fn transform(
        &mut self,
        mut snapshot: InstanceSnapshot,
        _context: &TransformContext<'_>,
    ) -> Result<InstanceSnapshot, Error<String>> {
        if self.answers < 2 {
            let path = format!("/{}", self.answers);
            return Err(Error::Unanswered(FileQuery { kind: QueryKind::Canonical, path }));
        }
        snapshot.name.push('!');
        Ok(snapshot)
    }

    fn handle_answer(&mut self, _answer: &FileAnswer) {
        self.answers += 1;
    }
}

#[test]
fn a_run_that_waited_goes_on_where_it_stopped() {
    let events = Arc::new(Mutex::new(Vec::new()));
    let mut pipeline = TransformerPipeline::new()
        .with(RecordingTransformer { events: events.clone(), label: "a", needs: true })
        .with(RenameTransformer("middle"))
        .with(AskingTransformer { answers: 0 })
        .with(RecordingTransformer { events: events.clone(), label: "b", needs: false });
    assert_eq!(pipeline.len(), 4);

    let mut run = pipeline.start(folder());
    let mut asked = Vec::new();
    let transformed = loop {
        match pipeline.advance(&mut run) {
            Err(Error::Unanswered(query)) => {
                pipeline.handle_answer(&FileAnswer::Canonical {
                    path: query.path.clone(),
                    canonical: Ok(None),
                });
                asked.push(query.path);
            }
            done => break done.unwrap(),
        }
    };

    assert_eq!(transformed.name, "middle!");
    assert_eq!(asked, ["/0", "/1"]);
    let expected = [
        "a transform DEFAULT in DEFAULT",
        "a answer",
        "b answer",
        "a answer",
        "b answer",
        "b transform middle! in DEFAULT",
    ];
    assert_eq!(*events.lock().unwrap(), expected);
    assert_eq!(pipeline.advance(&mut run).unwrap().name, "middle!");
}

#[test]
fn a_run_over_a_part_keeps_its_error() {
    let mut pipeline = TransformerPipeline::new()
        .with(RenameTransformer("part"))
        .with(FailingTransformer);
    let mut run = PipelineRun::of_part(folder(), Some(folder()), vec!["Project".to_owned()]);
    for _ in 0..2 {
        assert_eq!(
            pipeline.advance(&mut run).unwrap_err(),
            Error::Other { detail: "refused".to_owned() }
        );
    }
    let mut empty = TransformerPipeline::new();
    let mut run = PipelineRun::of_part(folder(), None, Vec::new());
    assert_eq!(empty.advance(&mut run).unwrap(), folder());
}

#[test]
fn a_row_of_transformers_may_be_cut_in_two() {
    let mut whole = TransformerPipeline::new()
        .with(RenameTransformer("one"))
        .with(AskingTransformer { answers: 2 })
        .with(AskingTransformer { answers: 2 });
    let mut first = TransformerPipeline::new().with(RenameTransformer("one"));
    let mut second = TransformerPipeline::new()
        .with(AskingTransformer { answers: 2 })
        .with(AskingTransformer { answers: 2 });
    let context = TransformContext::without_root();
    let middle = first.transform_with_context(folder(), &context).unwrap();
    let last = second.transform_with_context(middle, &context).unwrap();
    assert_eq!(last.name, "one!!");
    assert_eq!(whole.transform_with_context(folder(), &context).unwrap(), last);
}

#[test]
fn copies_of_deep_trees_need_no_deep_stack() {
    let depth = 20_000;
    let mut tree = folder();
    for i in 0..depth {
        let mut above = folder();
        above.name = i.to_string();
        above.children.push(tree);
        above.children.push(folder());
        tree = above;
    }
    let copy = tree.clone();
    for mut node in [tree, copy] {
        for i in (0..depth).rev() {
            assert_eq!(node.name, i.to_string());
            assert_eq!(node.children.len(), 2);
            assert_eq!(node.children.pop().unwrap(), folder());
            node = node.children.pop().unwrap();
        }
        assert_eq!(node, folder());
    }
}

#[test]
fn contexts_hold_what_they_are_made_of() {
    let root = folder();
    let path = vec!["Project".to_owned()];

    let whole = TransformContext::new(&root);
    assert!(whole.root.is_some() && whole.instance_path.is_none());
    let part = TransformContext::with_instance_path(&root, path.clone());
    assert!(part.root.is_some());
    assert_eq!(part.instance_path, Some(path.clone()));
    let rootless = TransformContext::with_optional_root(None, path.clone());
    assert!(rootless.root.is_none());
    assert_eq!(rootless.instance_path, Some(path));
    let bare = TransformContext::without_root();
    assert!(bare.root.is_none() && bare.instance_path.is_none());
}

#[test]
fn changes_give_their_path() {
    let created = TransformChange::Created("/a".to_owned());
    let written = TransformChange::Written("/b".to_owned());
    let removed = TransformChange::Removed("/c".to_owned());

    assert_eq!((created.path(), created.is_removed()), ("/a", false));
    assert_eq!((written.path(), written.is_removed()), ("/b", false));
    assert_eq!((removed.path(), removed.is_removed()), ("/c", true));
}

#[test]
fn the_standard_pipeline_leaves_other_instances_alone() {
    let mut pipeline = transformer_pipeline(None, false);
    assert!(!pipeline.needs_project_snapshot());
    assert_eq!(pipeline.transform(folder()).unwrap(), folder());
}
