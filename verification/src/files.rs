//! What is known of the file system.
//!
//! Nothing here reads a file. Whoever runs a transformation records the answers to
//! its questions; a question without an answer ends the run with
//! [`Error::Unanswered`], to be started again once the answer is there.

use vstd::hash_map::StringHashMap;
use vstd::prelude::*;

use crate::config_luau::{may_run, run_config_luau, ConfigRun, RunModel};
use crate::drives::{host_text, text_on_host};
use crate::duplicate::Duplicate;
use crate::error::{outcome, Error};

verus! {

/// What stands at a path.
#[derive(Clone, Copy, Debug, PartialEq, Eq, Structural)]
pub enum FileKind {
    /// A file.
    File,
    /// A directory.
    Directory,
}

impl DeepView for FileKind {
    type V = FileKind;

    open spec fn deep_view(&self) -> FileKind {
        *self
    }
}

/// What is asked of a path.
#[derive(Clone, Copy, Debug, PartialEq, Eq, Structural)]
pub enum QueryKind {
    /// What stands there.
    Metadata,
    /// The aliases that the `.luaurc` file there declares.
    Aliases,
    /// The contents of the `.config.luau` file there.
    Contents,
    /// Its canonical form.
    Canonical,
}

/// A question about the file system.
#[derive(Debug, PartialEq, Eq)]
pub struct FileQuery<S> {
    pub kind: QueryKind,
    pub path: S,
}

impl DeepView for FileQuery<String> {
    type V = FileQuery<Seq<char>>;

    open spec fn deep_view(&self) -> FileQuery<Seq<char>> {
        FileQuery { kind: self.kind, path: self.path@ }
    }
}

/// The answer to a question. The error of an answer is the sentence to report.
#[derive(Debug)]
pub enum FileAnswer {
    /// What stands at the path, `None` where nothing does.
    Metadata { path: String, kind: Result<Option<FileKind>, String> },
    /// The names and values of the aliases, in the order of the names.
    Aliases { path: String, aliases: Result<Vec<(String, String)>, String> },
    /// The contents of the file, its line breaks as `\n`.
    Contents { path: String, contents: Result<String, String> },
    /// The canonical path, `None` where nothing stands at the path.
    Canonical { path: String, canonical: Result<Option<String>, String> },
}

/// An answer in contracts.
pub open spec fn reply_of<T: DeepView>(reply: Result<T, String>) -> Result<T::V, Seq<char>> {
    match reply {
        Ok(value) => Ok(value.deep_view()),
        Err(detail) => Err(detail@),
    }
}

/// What is known of the file system, in contracts.
pub struct FilesModel {
    pub metadata: Map<Seq<char>, Result<Option<FileKind>, Seq<char>>>,
    pub aliases: Map<Seq<char>, Result<Seq<(Seq<char>, Seq<char>)>, Seq<char>>>,
    pub runs: Map<Seq<char>, Result<RunModel, Seq<char>>>,
    pub canonical: Map<Seq<char>, Result<Option<Seq<char>>, Seq<char>>>,
    pub home_directory: Option<Seq<char>>,
    /// Whether the host has drives.
    pub drives: bool,
}

/// The answers recorded so far, the home directory of the user, and whether the host has
/// drives.
pub struct Files {
    metadata: StringHashMap<Result<Option<FileKind>, String>>,
    aliases: StringHashMap<Result<Vec<(String, String)>, String>>,
    runs: StringHashMap<Result<ConfigRun<String, Vec<(String, String)>>, String>>,
    canonical: StringHashMap<Result<Option<String>, String>>,
    home_directory: Option<String>,
    drives: bool,
}

impl DeepView for Files {
    type V = FilesModel;

    closed spec fn deep_view(&self) -> FilesModel {
        FilesModel {
            metadata: self.metadata@.map_values(
                |reply: Result<Option<FileKind>, String>| reply_of(reply),
            ),
            aliases: self.aliases@.map_values(
                |reply: Result<Vec<(String, String)>, String>| reply_of(reply),
            ),
            runs: self.runs@.map_values(
                |reply: Result<ConfigRun<String, Vec<(String, String)>>, String>| reply_of(reply),
            ),
            canonical: self.canonical@.map_values(
                |reply: Result<Option<String>, String>| reply_of(reply),
            ),
            home_directory: self.home_directory.deep_view(),
            drives: self.drives,
        }
    }
}

/// What is known when nothing was asked.
pub open spec fn no_answers(home_directory: Option<Seq<char>>, drives: bool) -> FilesModel {
    FilesModel {
        metadata: Map::empty(),
        aliases: Map::empty(),
        runs: Map::empty(),
        canonical: Map::empty(),
        home_directory,
        drives,
    }
}

/// Whether the file whose contents an answer holds, where it holds any, may run so. It runs
/// under its path as the host writes it.
pub open spec fn may_answer(answer: FileAnswer, drives: bool, run: RunModel) -> bool {
    answer matches FileAnswer::Contents { path, contents: Ok(text) } ==> may_run(
        host_text(path@, drives),
        text@,
        run,
    )
}

/// What is known once an answer is recorded, where `run` is how a file whose contents it
/// holds ran. A later answer replaces an earlier one to the same question.
pub open spec fn with_answer(files: FilesModel, answer: FileAnswer, run: RunModel) -> FilesModel {
    match answer {
        FileAnswer::Metadata { path, kind } => FilesModel {
            metadata: files.metadata.insert(path@, reply_of(kind)),
            ..files
        },
        FileAnswer::Aliases { path, aliases } => FilesModel {
            aliases: files.aliases.insert(path@, reply_of(aliases)),
            ..files
        },
        FileAnswer::Contents { path, contents } => FilesModel {
            runs: files.runs.insert(
                path@,
                match contents {
                    Ok(_) => Ok(run),
                    Err(detail) => Err(detail@),
                },
            ),
            ..files
        },
        FileAnswer::Canonical { path, canonical } => FilesModel {
            canonical: files.canonical.insert(path@, reply_of(canonical)),
            ..files
        },
    }
}

/// What the answers of one kind say of a path.
pub open spec fn answer_to<T>(
    answers: Map<Seq<char>, Result<T, Seq<char>>>,
    kind: QueryKind,
    path: Seq<char>,
) -> Result<T, Error<Seq<char>>> {
    if !answers.contains_key(path) {
        Err(Error::Unanswered(FileQuery { kind, path }))
    } else {
        match answers[path] {
            Ok(value) => Ok(value),
            Err(detail) => Err(Error::Io { detail }),
        }
    }
}

/// What stands at `path`.
pub open spec fn metadata_of(files: FilesModel, path: Seq<char>) -> Result<
    Option<FileKind>,
    Error<Seq<char>>,
> {
    answer_to(files.metadata, QueryKind::Metadata, path)
}

/// The aliases that the `.luaurc` file at `path` declares.
pub open spec fn aliases_of(files: FilesModel, path: Seq<char>) -> Result<
    Seq<(Seq<char>, Seq<char>)>,
    Error<Seq<char>>,
> {
    answer_to(files.aliases, QueryKind::Aliases, path)
}

/// How the `.config.luau` file at `path` ran.
pub open spec fn run_of(files: FilesModel, path: Seq<char>) -> Result<RunModel, Error<Seq<char>>> {
    answer_to(files.runs, QueryKind::Contents, path)
}

/// The canonical form of `path`.
pub open spec fn canonical_of(files: FilesModel, path: Seq<char>) -> Result<
    Option<Seq<char>>,
    Error<Seq<char>>,
> {
    answer_to(files.canonical, QueryKind::Canonical, path)
}

impl Files {
    /// Nothing but the home directory is known, and whether the host has drives.
    pub fn new(home_directory: Option<String>, drives: bool) -> (files: Files)
        ensures
            files.deep_view() == no_answers(home_directory.deep_view(), drives),
    {
        let files = Files {
            metadata: StringHashMap::new(),
            aliases: StringHashMap::new(),
            runs: StringHashMap::new(),
            canonical: StringHashMap::new(),
            home_directory,
            drives,
        };
        assert(files.deep_view().metadata =~= Map::empty());
        assert(files.deep_view().aliases =~= Map::empty());
        assert(files.deep_view().runs =~= Map::empty());
        assert(files.deep_view().canonical =~= Map::empty());
        files
    }

    /// Records an answer. A file whose contents it holds is run.
    pub fn record(&mut self, answer: &FileAnswer)
        ensures
            exists|run: RunModel| #[trigger]
                may_answer(*answer, old(self).deep_view().drives, run)
                    && final(self).deep_view() == with_answer(
                    old(self).deep_view(),
                    *answer,
                    run,
                ),
    {
        let ghost mut run: RunModel = ConfigRun::NoTable;
        match answer {
            FileAnswer::Metadata { path, kind } => {
                let reply: Result<Option<FileKind>, String> = match kind {
                    Ok(kind) => Ok(*kind),
                    Err(detail) => Err(detail.clone()),
                };
                self.metadata.insert(path.clone(), reply);
                assert(self.deep_view().metadata =~= old(self).deep_view().metadata.insert(
                    path@,
                    reply_of(*kind),
                ));
            },
            FileAnswer::Aliases { path, aliases } => {
                let reply = match aliases {
                    Ok(aliases) => Ok(clone_pairs(aliases)),
                    Err(detail) => Err(detail.clone()),
                };
                self.aliases.insert(path.clone(), reply);
                assert(self.deep_view().aliases =~= old(self).deep_view().aliases.insert(
                    path@,
                    reply_of(*aliases),
                ));
            },
            FileAnswer::Contents { path, contents } => {
                let reply = match contents {
                    Ok(text) => {
                        let name = text_on_host(path.as_str(), self.drives);
                        let ran = run_config_luau(name.as_str(), text.as_str());
                        proof {
                            run = ran.deep_view();
                        }
                        Ok(ran)
                    },
                    Err(detail) => Err(detail.clone()),
                };
                self.runs.insert(path.clone(), reply);
                assert(self.deep_view().runs =~= old(self).deep_view().runs.insert(
                    path@,
                    reply_of(reply),
                ));
            },
            FileAnswer::Canonical { path, canonical } => {
                let reply = match canonical {
                    Ok(canonical) => Ok(canonical.clone()),
                    Err(detail) => Err(detail.clone()),
                };
                self.canonical.insert(path.clone(), reply);
                assert(self.deep_view().canonical =~= old(self).deep_view().canonical.insert(
                    path@,
                    reply_of(*canonical),
                ));
            },
        }
        assert(may_answer(*answer, old(self).deep_view().drives, run));
    }

    /// Forgets every answer, but neither the home directory nor whether the host has
    /// drives.
    pub fn forget(&mut self)
        ensures
            final(self).deep_view() == no_answers(
                old(self).deep_view().home_directory,
                old(self).deep_view().drives,
            ),
    {
        self.metadata.clear();
        self.aliases.clear();
        self.runs.clear();
        self.canonical.clear();
        assert(self.deep_view().metadata =~= Map::empty());
        assert(self.deep_view().aliases =~= Map::empty());
        assert(self.deep_view().runs =~= Map::empty());
        assert(self.deep_view().canonical =~= Map::empty());
    }

    /// The home directory of the user.
    pub fn home_directory(&self) -> (home: Option<String>)
        ensures
            home.deep_view() == self.deep_view().home_directory,
    {
        self.home_directory.clone()
    }

    /// Whether the host has drives.
    pub fn drives(&self) -> (drives: bool)
        ensures
            drives == self.deep_view().drives,
    {
        self.drives
    }

    /// What stands at `path`, `None` where nothing does.
    pub fn metadata(&self, path: &str) -> (kind: Result<Option<FileKind>, Error<String>>)
        ensures
            outcome(kind) == metadata_of(self.deep_view(), path@),
    {
        match self.metadata.get(path) {
            None => Err(
                Error::Unanswered(FileQuery { kind: QueryKind::Metadata, path: path.to_owned() }),
            ),
            Some(Ok(kind)) => Ok(*kind),
            Some(Err(detail)) => Err(Error::Io { detail: detail.clone() }),
        }
    }

    /// Whether it is known what stands at `path`, or that it cannot be known.
    pub fn knows_metadata(&self, path: &str) -> (known: bool)
        ensures
            known == self.deep_view().metadata.contains_key(path@),
    {
        self.metadata.get(path).is_some()
    }

    /// The aliases that the `.luaurc` file at `path` declares.
    pub fn aliases(&self, path: &str) -> (aliases: Result<Vec<(String, String)>, Error<String>>)
        ensures
            outcome(aliases) == aliases_of(self.deep_view(), path@),
    {
        match self.aliases.get(path) {
            None => Err(
                Error::Unanswered(FileQuery { kind: QueryKind::Aliases, path: path.to_owned() }),
            ),
            Some(Ok(aliases)) => Ok(clone_pairs(aliases)),
            Some(Err(detail)) => Err(Error::Io { detail: detail.clone() }),
        }
    }

    /// How the `.config.luau` file at `path` ran.
    pub fn run(&self, path: &str) -> (run: Result<
        ConfigRun<String, Vec<(String, String)>>,
        Error<String>,
    >)
        ensures
            outcome(run) == run_of(self.deep_view(), path@),
    {
        match self.runs.get(path) {
            None => Err(
                Error::Unanswered(FileQuery { kind: QueryKind::Contents, path: path.to_owned() }),
            ),
            Some(Ok(run)) => Ok(run.duplicate()),
            Some(Err(detail)) => Err(Error::Io { detail: detail.clone() }),
        }
    }

    /// The canonical form of `path`, `None` where nothing stands there.
    pub fn canonicalize(&self, path: &str) -> (canonical: Result<Option<String>, Error<String>>)
        ensures
            outcome(canonical) == canonical_of(self.deep_view(), path@),
    {
        match self.canonical.get(path) {
            None => Err(
                Error::Unanswered(FileQuery { kind: QueryKind::Canonical, path: path.to_owned() }),
            ),
            Some(Ok(Some(canonical))) => Ok(Some(canonical.clone())),
            Some(Ok(None)) => Ok(None),
            Some(Err(detail)) => Err(Error::Io { detail: detail.clone() }),
        }
    }
}

pub(crate) fn clone_pairs(pairs: &Vec<(String, String)>) -> (cloned: Vec<(String, String)>)
    ensures
        cloned.deep_view() == pairs.deep_view(),
{
    let mut cloned: Vec<(String, String)> = Vec::new();
    let mut i: usize = 0;
    while i < pairs.len()
        invariant
            i <= pairs@.len(),
            cloned.deep_view() == pairs.deep_view().take(i as int),
        decreases pairs@.len() - i,
    {
        let ghost before = cloned.deep_view();
        cloned.push((pairs[i].0.clone(), pairs[i].1.clone()));
        assert(cloned.deep_view() == before.push(pairs@[i as int].deep_view()));
        i += 1;
        assert(cloned.deep_view() == pairs.deep_view().take(i as int));
    }
    assert(pairs.deep_view().take(i as int) == pairs.deep_view());
    cloned
}

} // verus!
