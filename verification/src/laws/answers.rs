//! What is known of the file system, and what is asked.

use vstd::prelude::*;

use crate::config::{ancestors, directory_of};
use crate::config_luau::RunModel;
use crate::error::Error;
use crate::files::{
    aliases_of, canonical_of, metadata_of, no_answers, run_of, with_answer, FileAnswer, FileQuery,
    FilesModel, QueryKind,
};
use crate::laws::configurations::{config_luau_in, luaurc_in};
use crate::laws::modules::node_at;
use crate::module_index::source_of;
use crate::questions::{
    config_questions, instance_questions, metadata_question, row_questions, tree_questions,
};
use crate::require_by_string::{after_answer, TransformerModel};
use crate::rewrite::{mentions, source_text};
use crate::snapshot::SnapshotModel;

verus! {

/// What an answer says, with its failure as an error.
pub open spec fn said<T>(reply: Result<T, Seq<char>>) -> Result<T, Error<Seq<char>>> {
    match reply {
        Ok(value) => Ok(value),
        Err(detail) => Err(Error::Io { detail }),
    }
}

/// What is asked before it is answered is an open question, and after that it is what the
/// answer says.
pub proof fn questions_are_open_until_they_are_answered(files: FilesModel, path: Seq<char>)
    ensures
        metadata_of(files, path) == if files.metadata.contains_key(path) {
            said(files.metadata[path])
        } else {
            Err(Error::Unanswered(FileQuery { kind: QueryKind::Metadata, path }))
        },
        aliases_of(files, path) == if files.aliases.contains_key(path) {
            said(files.aliases[path])
        } else {
            Err(Error::Unanswered(FileQuery { kind: QueryKind::Aliases, path }))
        },
        run_of(files, path) == if files.runs.contains_key(path) {
            said(files.runs[path])
        } else {
            Err(Error::Unanswered(FileQuery { kind: QueryKind::Contents, path }))
        },
        canonical_of(files, path) == if files.canonical.contains_key(path) {
            said(files.canonical[path])
        } else {
            Err(Error::Unanswered(FileQuery { kind: QueryKind::Canonical, path }))
        },
{
}

/// A text that may stand for a failure.
pub open spec fn reply_text<T>(reply: Result<T, String>) -> Result<T, Seq<char>> {
    match reply {
        Ok(value) => Ok(value),
        Err(detail) => Err(detail@),
    }
}

/// What was answered is read back, and all other answers are as they were.
pub proof fn answers_are_read_back(
    files: FilesModel,
    answer: FileAnswer,
    run: RunModel,
    other: Seq<char>,
)
    ensures
        ({
            let after = with_answer(files, answer, run);
            let same_metadata = metadata_of(after, other) == metadata_of(files, other);
            let same_aliases = aliases_of(after, other) == aliases_of(files, other);
            let same_run = run_of(after, other) == run_of(files, other);
            let same_canonical = canonical_of(after, other) == canonical_of(files, other);
            &&& after.home_directory == files.home_directory
            &&& after.drives == files.drives
            &&& match answer {
                FileAnswer::Metadata { path, kind } => {
                    &&& metadata_of(after, path@) == said(reply_text(kind))
                    &&& other != path@ ==> same_metadata
                    &&& same_aliases && same_run && same_canonical
                },
                FileAnswer::Aliases { path, aliases } => {
                    &&& match aliases {
                        Ok(pairs) => aliases_of(after, path@) == Ok::<_, Error<Seq<char>>>(
                            pairs.deep_view(),
                        ),
                        Err(detail) => aliases_of(after, path@) == Err::<
                            Seq<(Seq<char>, Seq<char>)>,
                            _,
                        >(Error::Io { detail: detail@ }),
                    }
                    &&& other != path@ ==> same_aliases
                    &&& same_metadata && same_run && same_canonical
                },
                FileAnswer::Contents { path, contents } => {
                    &&& match contents {
                        Ok(_) => run_of(after, path@) == Ok::<_, Error<Seq<char>>>(run),
                        Err(detail) => run_of(after, path@) == Err::<RunModel, _>(
                            Error::Io { detail: detail@ },
                        ),
                    }
                    &&& other != path@ ==> same_run
                    &&& same_metadata && same_aliases && same_canonical
                },
                FileAnswer::Canonical { path, canonical } => {
                    &&& match canonical {
                        Ok(Some(text)) => canonical_of(after, path@) == Ok::<_, Error<Seq<char>>>(
                            Some(text@),
                        ),
                        Ok(None) => canonical_of(after, path@) == Ok::<
                            Option<Seq<char>>,
                            Error<Seq<char>>,
                        >(None),
                        Err(detail) => canonical_of(after, path@) == Err::<Option<Seq<char>>, _>(
                            Error::Io { detail: detail@ },
                        ),
                    }
                    &&& other != path@ ==> same_canonical
                    &&& same_metadata && same_aliases && same_run
                },
            }
        }),
{
}

/// Without answers nothing is known of any path, but the home directory and whether the
/// host has drives.
pub proof fn nothing_is_known_without_answers(
    home_directory: Option<Seq<char>>,
    drives: bool,
    path: Seq<char>,
)
    ensures
        ({
            let files = no_answers(home_directory, drives);
            &&& files.home_directory == home_directory
            &&& files.drives == drives
            &&& !files.metadata.contains_key(path)
            &&& !files.aliases.contains_key(path)
            &&& !files.runs.contains_key(path)
            &&& !files.canonical.contains_key(path)
        }),
{
}

/// An answer changes what a transformer knows of the file system and nothing else of it.
pub proof fn answers_change_what_is_known(
    state: TransformerModel,
    answer: FileAnswer,
    run: RunModel,
)
    ensures
        after_answer(state, answer, run).files == with_answer(state.files, answer, run),
        after_answer(state, answer, run).index == state.index,
        after_answer(state, answer, run).configs == state.configs,
{
}

/// The question what stands at a path.
pub open spec fn asks(path: Seq<char>) -> FileQuery<Seq<char>> {
    FileQuery { kind: QueryKind::Metadata, path }
}

/// Whether an instance is a module script or has a source text.
pub open spec fn may_be_script(snapshot: SnapshotModel) -> bool {
    snapshot.class_name == seq!['M', 'o', 'd', 'u', 'l', 'e', 'S', 'c', 'r', 'i', 'p', 't']
        || source_text(snapshot) is Some
}

/// Of every script in a tree it is asked what its source is. Where that is known and the
/// script speaks of `require`, it is asked which configuration files there are above it.
pub proof fn scripts_are_asked_about(
    files: FilesModel,
    root: SnapshotModel,
    way: Seq<int>,
    node: SnapshotModel,
    path: Seq<char>,
)
    requires
        node_at(root, way) == Some(node),
        may_be_script(node),
        source_of(node.metadata) == Some(path),
    ensures
        !files.metadata.contains_key(path) ==> tree_questions(files, root).contains(asks(path)),
        files.metadata.contains_key(path) && source_text(node) is Some && mentions(
            source_text(node)->0,
            seq!['r', 'e', 'q', 'u', 'i', 'r', 'e'],
        ) ==> (directory_of(files, path) matches Ok(directory) ==> forall|i: int|
            #![trigger ancestors(directory, files.drives)[i]]
            0 <= i < ancestors(directory, files.drives).len() ==> {
                let above = ancestors(directory, files.drives)[i];
                &&& !files.metadata.contains_key(luaurc_in(above)) ==> tree_questions(
                    files,
                    root,
                ).contains(asks(luaurc_in(above)))
                &&& !files.metadata.contains_key(config_luau_in(above)) ==> tree_questions(
                    files,
                    root,
                ).contains(asks(config_luau_in(above)))
            }),
{
    reveal_strlit("ModuleScript");
    reveal_strlit("require");
    assert("ModuleScript"@ =~= seq![
        'M',
        'o',
        'd',
        'u',
        'l',
        'e',
        'S',
        'c',
        'r',
        'i',
        'p',
        't',
    ]);
    assert("require"@ =~= seq!['r', 'e', 'q', 'u', 'i', 'r', 'e']);
    let own = instance_questions(files, node);
    lemma_questions_go_up(files, root, way, node);
    if !files.metadata.contains_key(path) {
        assert(own[0] == asks(path));
        assert(instance_questions(files, node).contains(asks(path)));
    } else if source_text(node) is Some && mentions(
        source_text(node)->0,
        seq!['r', 'e', 'q', 'u', 'i', 'r', 'e'],
    ) && directory_of(files, path) is Ok {
        let directory = directory_of(files, path)->Ok_0;
        let row = ancestors(directory, files.drives);
        assert forall|i: int|
            #![trigger row[i]]
            0 <= i < row.len() implies ({
            &&& !files.metadata.contains_key(luaurc_in(row[i])) ==> tree_questions(
                files,
                root,
            ).contains(asks(luaurc_in(row[i])))
            &&& !files.metadata.contains_key(config_luau_in(row[i])) ==> tree_questions(
                files,
                root,
            ).contains(asks(config_luau_in(row[i])))
        }) by {
            lemma_config_questions(files, row, i);
        }
    }
}

proof fn lemma_config_questions(files: FilesModel, row: Seq<Seq<char>>, i: int)
    requires
        0 <= i < row.len(),
    ensures
        !files.metadata.contains_key(luaurc_in(row[i])) ==> config_questions(files, row).contains(
            asks(luaurc_in(row[i])),
        ),
        !files.metadata.contains_key(config_luau_in(row[i])) ==> config_questions(
            files,
            row,
        ).contains(asks(config_luau_in(row[i]))),
    decreases row.len(),
{
    reveal_strlit(".luaurc");
    reveal_strlit(".config.luau");
    assert(".luaurc"@ =~= seq!['.', 'l', 'u', 'a', 'u', 'r', 'c']);
    assert(".config.luau"@ =~= seq!['.', 'c', 'o', 'n', 'f', 'i', 'g', '.', 'l', 'u', 'a', 'u']);
    let a = metadata_question(files, luaurc_in(row.last()));
    let b = metadata_question(files, config_luau_in(row.last()));
    let before = row.drop_last();
    let rest = config_questions(files, before);
    let all = a + b + rest;
    assert(config_questions(files, row) == all);
    if i == row.len() - 1 {
        if a.len() > 0 {
            assert(all[0] == asks(luaurc_in(row[i])));
        }
        if b.len() > 0 {
            assert(all[a.len() as int] == asks(config_luau_in(row[i])));
        }
    } else {
        assert(before[i] == row[i]);
        lemma_config_questions(files, before, i);
        assert forall|q: FileQuery<Seq<char>>| #[trigger] rest.contains(q) implies all.contains(
            q,
        ) by {
            let k = choose|k: int| 0 <= k < rest.len() && rest[k] == q;
            assert(all[a.len() + b.len() + k] == q);
        }
    }
}

proof fn lemma_questions_go_up(
    files: FilesModel,
    root: SnapshotModel,
    way: Seq<int>,
    node: SnapshotModel,
)
    requires
        node_at(root, way) == Some(node),
    ensures
        forall|q: FileQuery<Seq<char>>| #[trigger]
            instance_questions(files, node).contains(q) ==> tree_questions(files, root).contains(q),
    decreases way.len(),
{
    let own = instance_questions(files, root);
    let below = row_questions(files, root.children);
    let all = own + below;
    if way.len() == 0 {
        assert forall|q: FileQuery<Seq<char>>| #[trigger]
            instance_questions(files, node).contains(q) implies tree_questions(
            files,
            root,
        ).contains(q) by {
            let k = choose|k: int| 0 <= k < own.len() && own[k] == q;
            assert(all[k] == q);
        }
    } else {
        let child = root.children[way[0]];
        lemma_questions_go_up(files, child, way.drop_first(), node);
        lemma_row_questions(files, root.children, way[0]);
        assert forall|q: FileQuery<Seq<char>>| #[trigger]
            instance_questions(files, node).contains(q) implies tree_questions(
            files,
            root,
        ).contains(q) by {
            assert(tree_questions(files, child).contains(q));
            assert(below.contains(q));
            let k = choose|k: int| 0 <= k < below.len() && below[k] == q;
            assert(all[own.len() + k] == q);
        }
    }
}

proof fn lemma_row_questions(files: FilesModel, row: Seq<SnapshotModel>, i: int)
    requires
        0 <= i < row.len(),
    ensures
        forall|q: FileQuery<Seq<char>>| #[trigger]
            tree_questions(files, row[i]).contains(q) ==> row_questions(files, row).contains(q),
    decreases row.len(),
{
    let first = tree_questions(files, row[0]);
    let rest = row_questions(files, row.drop_first());
    let all = first + rest;
    if i > 0 {
        assert(row.drop_first()[i - 1] == row[i]);
        lemma_row_questions(files, row.drop_first(), i - 1);
    }
    assert forall|q: FileQuery<Seq<char>>| #[trigger]
        tree_questions(files, row[i]).contains(q) implies row_questions(files, row).contains(q) by {
        if i == 0 {
            let k = choose|k: int| 0 <= k < first.len() && first[k] == q;
            assert(all[k] == q);
        } else {
            let k = choose|k: int| 0 <= k < rest.len() && rest[k] == q;
            assert(all[first.len() + k] == q);
        }
    }
}

} // verus!
