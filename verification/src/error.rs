//! What can keep a snapshot from being transformed.

use vstd::prelude::*;

use crate::files::{FileQuery, QueryKind};

verus! {

/// Where the run of a `.config.luau` file went wrong.
#[derive(Clone, Copy, Debug, PartialEq, Eq, Structural)]
pub enum ConfigStage {
    /// The virtual machine could not be sandboxed.
    Sandbox,
    /// The file failed to compile or to run, or ran out of time.
    Execution,
    /// The file returned something other than a table.
    Result,
    /// The `luau` field is not a table.
    LuauField,
    /// The `luau.aliases` field is not a table.
    AliasesField,
    /// A key or a value of `luau.aliases` is neither a string in UTF-8 nor a number.
    Alias,
}

/// An error, over the type of its texts: `Error<String>` at run time,
/// `Error<Seq<char>>` in contracts.
#[derive(Debug, PartialEq, Eq)]
pub enum Error<S> {
    /// The answer to a question about the file system is needed first.
    Unanswered(FileQuery<S>),
    /// The file system failed.
    Io { detail: S },
    /// A source path has no parent directory.
    NoParentDirectory,
    /// A directory holds both configuration files.
    TwoConfigurations { directory: S },
    /// A configuration file declares a name that no alias can have.
    InvalidAliasName { name: S, path: S },
    /// An alias leads back to itself.
    CyclicAlias { chain: S },
    /// An alias is declared nowhere.
    UnknownAlias { name: S },
    /// An alias leads to `@game`.
    NativeAlias { name: S, source: S },
    /// Two source files claim one module path.
    AmbiguousModule { module: S, first: S, second: S },
    /// A requested module is not in the tree.
    MissingModule { request: S, source_path: S, module: S },
    /// Two instances have no common ancestor.
    NoSharedRoot,
    /// A source could not be split into tokens.
    Tokens { detail: S },
    /// A source could not be parsed.
    Syntax { detail: S },
    /// String literals of a source have no text.
    Literals { detail: S },
    /// A range to be replaced does not lie between characters of the source.
    Range { start: usize, end: usize },
    /// A `.config.luau` file gave no aliases.
    Config { path: S, stage: ConfigStage, detail: S },
    /// An error of some other transformer.
    Other { detail: S },
}

impl DeepView for Error<String> {
    type V = Error<Seq<char>>;

    open spec fn deep_view(&self) -> Error<Seq<char>> {
        match self {
            Error::Unanswered(query) => Error::Unanswered(query.deep_view()),
            Error::Io { detail } => Error::Io { detail: detail@ },
            Error::NoParentDirectory => Error::NoParentDirectory,
            Error::TwoConfigurations { directory } => Error::TwoConfigurations {
                directory: directory@,
            },
            Error::InvalidAliasName { name, path } => Error::InvalidAliasName {
                name: name@,
                path: path@,
            },
            Error::CyclicAlias { chain } => Error::CyclicAlias { chain: chain@ },
            Error::UnknownAlias { name } => Error::UnknownAlias { name: name@ },
            Error::NativeAlias { name, source } => Error::NativeAlias {
                name: name@,
                source: source@,
            },
            Error::AmbiguousModule { module, first, second } => Error::AmbiguousModule {
                module: module@,
                first: first@,
                second: second@,
            },
            Error::MissingModule { request, source_path, module } => Error::MissingModule {
                request: request@,
                source_path: source_path@,
                module: module@,
            },
            Error::NoSharedRoot => Error::NoSharedRoot,
            Error::Tokens { detail } => Error::Tokens { detail: detail@ },
            Error::Syntax { detail } => Error::Syntax { detail: detail@ },
            Error::Literals { detail } => Error::Literals { detail: detail@ },
            Error::Range { start, end } => Error::Range { start: *start, end: *end },
            Error::Config { path, stage, detail } => Error::Config {
                path: path@,
                stage: *stage,
                detail: detail@,
            },
            Error::Other { detail } => Error::Other { detail: detail@ },
        }
    }
}

/// A result in contracts: the error and the value by what they hold.
pub open spec fn outcome<T: DeepView>(result: Result<T, Error<String>>) -> Result<
    T::V,
    Error<Seq<char>>,
> {
    match result {
        Ok(value) => Ok(value.deep_view()),
        Err(e) => Err(e.deep_view()),
    }
}

/// The sentence for an error.
pub open spec fn message_of(error: Error<Seq<char>>) -> Seq<char> {
    match error {
        Error::Unanswered(query) => query_text(query.kind) + query.path,
        Error::Io { detail } => detail,
        Error::NoParentDirectory => "source path had no parent directory"@,
        Error::TwoConfigurations { directory } => "both .luaurc and .config.luau exist in "@
            + directory + "; Luau requires only one configuration file"@,
        Error::InvalidAliasName { name, path } => "invalid Luau alias name `"@ + name + "` in "@
            + path,
        Error::CyclicAlias { chain } => "cyclic Luau alias resolution: "@ + chain,
        Error::UnknownAlias { name } => "Luau alias `@"@ + name + "` is not declared"@,
        Error::NativeAlias { name, source } => "alias `"@ + name + "` in "@ + source
            + " cannot target native alias @game"@,
        Error::AmbiguousModule { module, first, second } => "ambiguous Luau module path `"@
            + module + "`: "@ + first + " and "@ + second,
        Error::MissingModule { request, source_path, module } =>
            "cannot resolve require(\""@ + request + "\") from "@ + source_path
            + ": module path "@ + module + " is not present in the Rojo tree"@,
        Error::NoSharedRoot => "Luau module paths do not share a Roblox instance root"@,
        Error::Tokens { detail } => "failed to tokenize Luau source: "@ + detail,
        Error::Syntax { detail } => "failed to parse Luau source: "@ + detail,
        Error::Literals { detail } => detail,
        Error::Range { start, end } => "a replaced range does not lie between characters"@,
        Error::Config { path, stage, detail } => path + stage_text(stage) + detail,
        Error::Other { detail } => detail,
    }
}

/// The words before the path of a query.
pub open spec fn query_text(kind: QueryKind) -> Seq<char> {
    match kind {
        QueryKind::Metadata => "unanswered question about the metadata of "@,
        QueryKind::Aliases => "unanswered question about the aliases in "@,
        QueryKind::Contents => "unanswered question about the contents of "@,
        QueryKind::Canonical => "unanswered question about the canonical path of "@,
    }
}

/// The words between the path and the detail of a configuration error.
pub open spec fn stage_text(stage: ConfigStage) -> Seq<char> {
    match stage {
        ConfigStage::Sandbox => ": cannot sandbox Luau VM: "@,
        ConfigStage::Execution => ": configuration execution failed: "@,
        ConfigStage::Result => ": expected the configuration to return a table"@,
        ConfigStage::LuauField => ": invalid `luau` field: "@,
        ConfigStage::AliasesField => ": invalid `luau.aliases` field: "@,
        ConfigStage::Alias => ": `luau.aliases` must contain string keys and values: "@,
    }
}

fn text_of_query(kind: QueryKind) -> (text: &'static str)
    ensures
        text@ == query_text(kind),
{
    match kind {
        QueryKind::Metadata => "unanswered question about the metadata of ",
        QueryKind::Aliases => "unanswered question about the aliases in ",
        QueryKind::Contents => "unanswered question about the contents of ",
        QueryKind::Canonical => "unanswered question about the canonical path of ",
    }
}

fn text_of_stage(stage: ConfigStage) -> (text: &'static str)
    ensures
        text@ == stage_text(stage),
{
    match stage {
        ConfigStage::Sandbox => ": cannot sandbox Luau VM: ",
        ConfigStage::Execution => ": configuration execution failed: ",
        ConfigStage::Result => ": expected the configuration to return a table",
        ConfigStage::LuauField => ": invalid `luau` field: ",
        ConfigStage::AliasesField => ": invalid `luau.aliases` field: ",
        ConfigStage::Alias => ": `luau.aliases` must contain string keys and values: ",
    }
}

impl Error<String> {
    /// The sentence for this error.
    pub fn message(&self) -> (message: String)
        ensures
            message@ == message_of(self.deep_view()),
    {
        let mut message = String::new();
        assert(forall|text: Seq<char>| #[trigger] (message@ + text) == text);
        match self {
            Error::Unanswered(query) => {
                message.append(text_of_query(query.kind));
                message.append(query.path.as_str());
            },
            Error::Io { detail } => message.append(detail.as_str()),
            Error::NoParentDirectory => message.append("source path had no parent directory"),
            Error::TwoConfigurations { directory } => {
                message.append("both .luaurc and .config.luau exist in ");
                message.append(directory.as_str());
                message.append("; Luau requires only one configuration file");
            },
            Error::InvalidAliasName { name, path } => {
                message.append("invalid Luau alias name `");
                message.append(name.as_str());
                message.append("` in ");
                message.append(path.as_str());
            },
            Error::CyclicAlias { chain } => {
                message.append("cyclic Luau alias resolution: ");
                message.append(chain.as_str());
            },
            Error::UnknownAlias { name } => {
                message.append("Luau alias `@");
                message.append(name.as_str());
                message.append("` is not declared");
            },
            Error::NativeAlias { name, source } => {
                message.append("alias `");
                message.append(name.as_str());
                message.append("` in ");
                message.append(source.as_str());
                message.append(" cannot target native alias @game");
            },
            Error::AmbiguousModule { module, first, second } => {
                message.append("ambiguous Luau module path `");
                message.append(module.as_str());
                message.append("`: ");
                message.append(first.as_str());
                message.append(" and ");
                message.append(second.as_str());
            },
            Error::MissingModule { request, source_path, module } => {
                message.append("cannot resolve require(\"");
                message.append(request.as_str());
                message.append("\") from ");
                message.append(source_path.as_str());
                message.append(": module path ");
                message.append(module.as_str());
                message.append(" is not present in the Rojo tree");
            },
            Error::NoSharedRoot => message.append(
                "Luau module paths do not share a Roblox instance root",
            ),
            Error::Tokens { detail } => {
                message.append("failed to tokenize Luau source: ");
                message.append(detail.as_str());
            },
            Error::Syntax { detail } => {
                message.append("failed to parse Luau source: ");
                message.append(detail.as_str());
            },
            Error::Literals { detail } => message.append(detail.as_str()),
            Error::Range { .. } => message.append(
                "a replaced range does not lie between characters",
            ),
            Error::Config { path, stage, detail } => {
                message.append(path.as_str());
                message.append(text_of_stage(*stage));
                message.append(detail.as_str());
            },
            Error::Other { detail } => message.append(detail.as_str()),
        }
        message
    }
}

/// A result with the text of its error.
pub open spec fn with_text<T>(result: Result<T, String>) -> Result<T, Seq<char>> {
    match result {
        Ok(value) => Ok(value),
        Err(detail) => Err(detail@),
    }
}

} // verus!
