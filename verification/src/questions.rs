//! What a run over a tree is going to ask of the file system, as far as it can be told in
//! advance.

use vstd::prelude::*;

use crate::config::{ancestors, directories_above, directory_of, source_directory};
use crate::files::{FileQuery, Files, FilesModel, QueryKind};
use crate::module_index::{script_source, source_of, source_path};
use crate::paths::{join, joined};
use crate::rewrite::{holds_word, mentions, script_text, source_text};
use crate::runs::is_open;
use crate::snapshot::{children_models, size, size_of_each, InstanceSnapshot, SnapshotModel};
use crate::text::same_text;

verus! {

/// The question what stands at `path`, where it has no answer yet.
pub open spec fn metadata_question(files: FilesModel, path: Seq<char>) -> Seq<
    FileQuery<Seq<char>>,
> {
    if files.metadata.contains_key(path) {
        seq![]
    } else {
        seq![FileQuery { kind: QueryKind::Metadata, path }]
    }
}

/// The open questions about the configuration files of a row of directories, the last
/// directory first.
pub open spec fn config_questions(files: FilesModel, directories: Seq<Seq<char>>) -> Seq<
    FileQuery<Seq<char>>,
>
    decreases directories.len(),
{
    if directories.len() == 0 {
        seq![]
    } else {
        metadata_question(files, joined(directories.last(), ".luaurc"@)) + metadata_question(
            files,
            joined(directories.last(), ".config.luau"@),
        ) + config_questions(files, directories.drop_last())
    }
}

/// The open questions about one instance: what its source is, and, where it is known and
/// the script may hold requests, which configuration files there are.
pub open spec fn instance_questions(files: FilesModel, snapshot: SnapshotModel) -> Seq<
    FileQuery<Seq<char>>,
> {
    match source_of(snapshot.metadata) {
        None => seq![],
        Some(path) => if script_source(snapshot) is None && source_text(snapshot) is None {
            seq![]
        } else if !files.metadata.contains_key(path) {
            metadata_question(files, path)
        } else {
            match (source_text(snapshot), directory_of(files, path)) {
                (Some(text), Ok(directory)) => if mentions(text, "require"@) {
                    config_questions(files, ancestors(directory, files.drives))
                } else {
                    seq![]
                },
                _ => seq![],
            }
        },
    }
}

/// The open questions about a tree, each instance before its children.
pub open spec fn tree_questions(files: FilesModel, snapshot: SnapshotModel) -> Seq<
    FileQuery<Seq<char>>,
>
    decreases snapshot,
{
    instance_questions(files, snapshot) + row_questions(files, snapshot.children)
}

/// The open questions about a row of trees.
pub open spec fn row_questions(files: FilesModel, row: Seq<SnapshotModel>) -> Seq<
    FileQuery<Seq<char>>,
>
    decreases row,
{
    if row.len() == 0 {
        seq![]
    } else {
        tree_questions(files, row[0]) + row_questions(files, row.drop_first())
    }
}

spec fn pending_questions(files: FilesModel, pending: Seq<&InstanceSnapshot>) -> Seq<
    FileQuery<Seq<char>>,
>
    decreases pending.len(),
{
    if pending.len() == 0 {
        seq![]
    } else {
        tree_questions(files, pending.last().deep_view()) + pending_questions(
            files,
            pending.drop_last(),
        )
    }
}

spec fn pending_size(pending: Seq<&InstanceSnapshot>) -> nat
    decreases pending.len(),
{
    if pending.len() == 0 {
        0
    } else {
        size(pending.last().deep_view()) + pending_size(pending.drop_last())
    }
}

fn ask_metadata(questions: &mut Vec<FileQuery<String>>, files: &Files, path: String)
    ensures
        final(questions).deep_view() == old(questions).deep_view() + metadata_question(
            files.deep_view(),
            path@,
        ),
{
    let ghost before = questions.deep_view();
    if files.knows_metadata(path.as_str()) {
        assert(before + Seq::<FileQuery<Seq<char>>>::empty() == before);
    } else {
        questions.push(FileQuery { kind: QueryKind::Metadata, path });
        assert(questions.deep_view() == before + metadata_question(files.deep_view(), path@));
    }
}

fn ask_configs(questions: &mut Vec<FileQuery<String>>, files: &Files, directory: String)
    ensures
        final(questions).deep_view() == old(questions).deep_view() + config_questions(
            files.deep_view(),
            ancestors(directory@, files.deep_view().drives),
        ),
{
    let ghost f = files.deep_view();
    let ghost start = questions.deep_view();
    let directories = directories_above(directory, files.drives());
    let ghost innermost_last = directories.deep_view().reverse();
    let mut i: usize = 0;
    assert(innermost_last.take(innermost_last.len() as int) == innermost_last);
    while i < directories.len()
        invariant
            i <= directories@.len(),
            f == files.deep_view(),
            innermost_last == directories.deep_view().reverse(),
            questions.deep_view() + config_questions(
                f,
                innermost_last.take(innermost_last.len() - i),
            ) == start + config_questions(f, innermost_last),
        decreases directories@.len() - i,
    {
        let ghost left = innermost_last.take(innermost_last.len() - i);
        let ghost before = questions.deep_view();
        assert(left.last() == directories@[i as int]@);
        assert(left.drop_last() == innermost_last.take(innermost_last.len() - i - 1));
        let directory = directories[i].as_str();
        ask_metadata(questions, files, join(directory, ".luaurc"));
        ask_metadata(questions, files, join(directory, ".config.luau"));
        assert(before + config_questions(f, left) == questions.deep_view() + config_questions(
            f,
            left.drop_last(),
        ));
        i += 1;
    }
    assert(innermost_last.take(0) == Seq::<Seq<char>>::empty());
    assert(questions.deep_view() + config_questions(f, innermost_last.take(0))
        == questions.deep_view());
}

fn ask_instance(
    questions: &mut Vec<FileQuery<String>>,
    files: &Files,
    snapshot: &InstanceSnapshot,
)
    ensures
        final(questions).deep_view() == old(questions).deep_view() + instance_questions(
            files.deep_view(),
            snapshot.deep_view(),
        ),
{
    let ghost none = Seq::<FileQuery<Seq<char>>>::empty();
    assert(questions.deep_view() + none == questions.deep_view());
    let path = match source_path(snapshot) {
        None => {
            return;
        },
        Some(path) => path,
    };
    let text = script_text(snapshot);
    if text.is_none() && !same_text(snapshot.class_name.as_str(), "ModuleScript") {
        return;
    }
    if !files.knows_metadata(path.as_str()) {
        ask_metadata(questions, files, path);
        return;
    }
    if let Some(text) = text {
        if holds_word(text.as_str(), "require") {
            if let Ok(directory) = source_directory(files, path.as_str()) {
                ask_configs(questions, files, directory);
            }
        }
    }
}

/// The questions that a run over a tree is going to ask about files and directories and
/// that have no answer yet.
pub fn open_questions(files: &Files, snapshot: &InstanceSnapshot) -> (questions: Vec<
    FileQuery<String>,
>)
    ensures
        questions.deep_view() == tree_questions(files.deep_view(), snapshot.deep_view()),
{
    let ghost f = files.deep_view();
    let ghost all = tree_questions(f, snapshot.deep_view());
    let mut questions: Vec<FileQuery<String>> = Vec::new();
    let mut pending: Vec<&InstanceSnapshot> = Vec::new();
    pending.push(snapshot);
    proof {
        let none = Seq::<FileQuery<Seq<char>>>::empty();
        assert(pending_questions(f, pending@.drop_last()) == none);
        assert(all + none == all);
        assert(questions.deep_view() + all == all);
    }
    while pending.len() > 0
        invariant
            f == files.deep_view(),
            all == tree_questions(f, snapshot.deep_view()),
            questions.deep_view() + pending_questions(f, pending@) == all,
        decreases pending_size(pending@),
    {
        let ghost before = pending@;
        let ghost asked = questions.deep_view();
        let current = pending.pop().unwrap();
        let ghost below = pending@;
        assert(before.drop_last() == below);
        ask_instance(&mut questions, files, current);
        let ghost models = current.children.deep_view();
        let mut i: usize = current.children.len();
        proof {
            children_models(*current);
            let none = Seq::<FileQuery<Seq<char>>>::empty();
            assert(models.skip(i as int) == Seq::<SnapshotModel>::empty());
            assert(row_questions(f, models.skip(i as int)) + pending_questions(f, below)
                == pending_questions(f, below));
        }
        while i > 0
            invariant
                i <= current.children@.len(),
                models == current.children.deep_view(),
                pending_questions(f, pending@) == row_questions(f, models.skip(i as int))
                    + pending_questions(f, below),
                pending_size(pending@) == size_of_each(models.skip(i as int)) + pending_size(
                    below,
                ),
            decreases i,
        {
            i -= 1;
            let ghost earlier = pending@;
            pending.push(&current.children[i]);
            assert(pending@.drop_last() == earlier);
            assert(models.skip(i as int)[0] == current.children@[i as int].deep_view());
            assert(models.skip(i as int).drop_first() == models.skip(i + 1));
        }
        assert(models.skip(0) == models);
        assert(questions.deep_view() + (row_questions(f, models) + pending_questions(f, below))
            == asked + (instance_questions(f, current.deep_view()) + row_questions(f, models)
            + pending_questions(f, below)));
    }
    assert(questions.deep_view() + pending_questions(f, pending@) == questions.deep_view());
    questions
}

/// Only questions without an answer are asked.
pub proof fn asked_questions_are_open(files: FilesModel, snapshot: SnapshotModel)
    ensures
        forall|i: int|
            0 <= i < tree_questions(files, snapshot).len() ==> is_open(
                files,
                #[trigger] tree_questions(files, snapshot)[i],
            ),
    decreases snapshot,
{
    let own = instance_questions(files, snapshot);
    let below = row_questions(files, snapshot.children);
    lemma_row_open(files, snapshot.children);
    match directory_of(files, source_of(snapshot.metadata)->0) {
        Ok(directory) => lemma_config_open(files, ancestors(directory, files.drives)),
        Err(_) => {},
    }
    assert forall|i: int| 0 <= i < (own + below).len() implies is_open(
        files,
        #[trigger] (own + below)[i],
    ) by {
        if i < own.len() {
            assert((own + below)[i] == own[i]);
        } else {
            assert((own + below)[i] == below[i - own.len()]);
        }
    }
}

proof fn lemma_row_open(files: FilesModel, row: Seq<SnapshotModel>)
    ensures
        forall|i: int|
            0 <= i < row_questions(files, row).len() ==> is_open(
                files,
                #[trigger] row_questions(files, row)[i],
            ),
    decreases row,
{
    if row.len() > 0 {
        asked_questions_are_open(files, row[0]);
        lemma_row_open(files, row.drop_first());
        let first = tree_questions(files, row[0]);
        let rest = row_questions(files, row.drop_first());
        assert forall|i: int| 0 <= i < (first + rest).len() implies is_open(
            files,
            #[trigger] (first + rest)[i],
        ) by {
            if i < first.len() {
                assert((first + rest)[i] == first[i]);
            } else {
                assert((first + rest)[i] == rest[i - first.len()]);
            }
        }
    }
}

proof fn lemma_config_open(files: FilesModel, directories: Seq<Seq<char>>)
    ensures
        forall|i: int|
            0 <= i < config_questions(files, directories).len() ==> is_open(
                files,
                #[trigger] config_questions(files, directories)[i],
            ),
    decreases directories.len(),
{
    if directories.len() > 0 {
        lemma_config_open(files, directories.drop_last());
        let own = metadata_question(files, joined(directories.last(), ".luaurc"@))
            + metadata_question(files, joined(directories.last(), ".config.luau"@));
        let rest = config_questions(files, directories.drop_last());
        assert forall|i: int| 0 <= i < (own + rest).len() implies is_open(
            files,
            #[trigger] (own + rest)[i],
        ) by {
            if i >= own.len() {
                assert((own + rest)[i] == rest[i - own.len()]);
            }
        }
    }
}

} // verus!
