//! What errors say.

use vstd::prelude::*;

use crate::error::{message_of, query_text, stage_text, ConfigStage, Error};
use crate::laws::aliases::is_split;
use crate::laws::plans::{is_built_in, requests_are_split_once};
use crate::literals::{literal_message, LiteralError};
use crate::config::joined_suffixes;
use crate::rewrite::{reserved_alias, reserved_request};
use crate::transformer::{may_need_project_snapshot, row_needs, Member, TransformChange};

verus! {

/// Whether a text stands in another.
pub open spec fn stands_in(word: Seq<char>, text: Seq<char>) -> bool {
    exists|before: Seq<char>, after: Seq<char>| text == #[trigger] (before + word + after)
}

proof fn lemma_stands_in(before: Seq<char>, word: Seq<char>, after: Seq<char>, text: Seq<char>)
    requires
        text =~= before + word + after,
    ensures
        stands_in(word, text),
{
    assert(text == before + word + after);
}

/// An error says which names, paths and details it is about.
pub proof fn messages_name_what_they_are_about(error: Error<Seq<char>>)
    ensures
        match error {
            Error::Unanswered(query) => stands_in(query.path, message_of(error)),
            Error::Io { detail } => message_of(error) == detail,
            Error::TwoConfigurations { directory } => stands_in(directory, message_of(error)),
            Error::InvalidAliasName { name, path } => stands_in(name, message_of(error))
                && stands_in(path, message_of(error)),
            Error::CyclicAlias { chain } => stands_in(chain, message_of(error)),
            Error::UnknownAlias { name } => stands_in(name, message_of(error)),
            Error::NativeAlias { name, source } => stands_in(name, message_of(error)) && stands_in(
                source,
                message_of(error),
            ),
            Error::AmbiguousModule { module, first, second } => stands_in(
                module,
                message_of(error),
            ) && stands_in(first, message_of(error)) && stands_in(second, message_of(error)),
            Error::MissingModule { request, source_path, module } => stands_in(
                request,
                message_of(error),
            ) && stands_in(source_path, message_of(error)) && stands_in(module, message_of(error)),
            Error::Tokens { detail } => stands_in(detail, message_of(error)),
            Error::Syntax { detail } => stands_in(detail, message_of(error)),
            Error::Literals { detail } => message_of(error) == detail,
            Error::Config { path, detail, .. } => stands_in(path, message_of(error)) && stands_in(
                detail,
                message_of(error),
            ),
            Error::Other { detail } => message_of(error) == detail,
            _ => true,
        },
{
    let none = Seq::<char>::empty();
    let text = message_of(error);
    match error {
        Error::Unanswered(query) => {
            lemma_stands_in(query_text(query.kind), query.path, none, text);
        },
        Error::TwoConfigurations { directory } => {
            lemma_stands_in(
                "both .luaurc and .config.luau exist in "@,
                directory,
                "; Luau requires only one configuration file"@,
                text,
            );
        },
        Error::InvalidAliasName { name, path } => {
            let start = "invalid Luau alias name `"@;
            lemma_stands_in(start, name, "` in "@ + path, text);
            lemma_stands_in(start + name + "` in "@, path, none, text);
        },
        Error::CyclicAlias { chain } => {
            lemma_stands_in("cyclic Luau alias resolution: "@, chain, none, text);
        },
        Error::UnknownAlias { name } => {
            lemma_stands_in("Luau alias `@"@, name, "` is not declared"@, text);
        },
        Error::NativeAlias { name, source } => {
            let end = " cannot target native alias @game"@;
            lemma_stands_in("alias `"@, name, "` in "@ + source + end, text);
            lemma_stands_in("alias `"@ + name + "` in "@, source, end, text);
        },
        Error::AmbiguousModule { module, first, second } => {
            let start = "ambiguous Luau module path `"@;
            lemma_stands_in(start, module, "`: "@ + first + " and "@ + second, text);
            lemma_stands_in(start + module + "`: "@, first, " and "@ + second, text);
            lemma_stands_in(start + module + "`: "@ + first + " and "@, second, none, text);
        },
        Error::MissingModule { request, source_path, module } => {
            let start = "cannot resolve require(\""@;
            let from = "\") from "@;
            let at = ": module path "@;
            let end = " is not present in the Rojo tree"@;
            lemma_stands_in(start, request, from + source_path + at + module + end, text);
            lemma_stands_in(start + request + from, source_path, at + module + end, text);
            lemma_stands_in(start + request + from + source_path + at, module, end, text);
        },
        Error::Tokens { detail } => {
            lemma_stands_in("failed to tokenize Luau source: "@, detail, none, text);
        },
        Error::Syntax { detail } => {
            lemma_stands_in("failed to parse Luau source: "@, detail, none, text);
        },
        Error::Config { path, stage, detail } => {
            lemma_stands_in(none, path, stage_text(stage) + detail, text);
            lemma_stands_in(path + stage_text(stage), detail, none, text);
        },
        _ => {},
    }
}

/// An error says what happened around the names, paths and details it is about.
pub proof fn messages_say_what_happened(
    a: Seq<char>,
    b: Seq<char>,
    c: Seq<char>,
    start: usize,
    end: usize,
)
    ensures
        message_of(Error::NoParentDirectory) == "source path had no parent directory"@,
        message_of(Error::TwoConfigurations { directory: a })
            == "both .luaurc and .config.luau exist in "@ + a
            + "; Luau requires only one configuration file"@,
        message_of(Error::InvalidAliasName { name: a, path: b }) == "invalid Luau alias name `"@
            + a + "` in "@ + b,
        message_of(Error::CyclicAlias { chain: a }) == "cyclic Luau alias resolution: "@ + a,
        message_of(Error::UnknownAlias { name: a }) == "Luau alias `@"@ + a
            + "` is not declared"@,
        message_of(Error::NativeAlias { name: a, source: b }) == "alias `"@ + a + "` in "@ + b
            + " cannot target native alias @game"@,
        message_of(Error::AmbiguousModule { module: a, first: b, second: c })
            == "ambiguous Luau module path `"@ + a + "`: "@ + b + " and "@ + c,
        message_of(Error::MissingModule { request: a, source_path: b, module: c })
            == "cannot resolve require(\""@ + a + "\") from "@ + b + ": module path "@ + c
            + " is not present in the Rojo tree"@,
        message_of(Error::NoSharedRoot)
            == "Luau module paths do not share a Roblox instance root"@,
        message_of(Error::Tokens { detail: a }) == "failed to tokenize Luau source: "@ + a,
        message_of(Error::Syntax { detail: a }) == "failed to parse Luau source: "@ + a,
        message_of(Error::Range { start, end })
            == "a replaced range does not lie between characters"@,
        message_of(Error::Config { path: a, stage: ConfigStage::Sandbox, detail: b }) == a
            + ": cannot sandbox Luau VM: "@ + b,
        message_of(Error::Config { path: a, stage: ConfigStage::Execution, detail: b }) == a
            + ": configuration execution failed: "@ + b,
        message_of(Error::Config { path: a, stage: ConfigStage::Result, detail: b }) == a
            + ": expected the configuration to return a table"@ + b,
        message_of(Error::Config { path: a, stage: ConfigStage::LuauField, detail: b }) == a
            + ": invalid `luau` field: "@ + b,
        message_of(Error::Config { path: a, stage: ConfigStage::AliasesField, detail: b }) == a
            + ": invalid `luau.aliases` field: "@ + b,
        message_of(Error::Config { path: a, stage: ConfigStage::Alias, detail: b }) == a
            + ": `luau.aliases` must contain string keys and values: "@ + b,
        literal_message(LiteralError::NotAString) == "expected a string literal token"@,
        literal_message(LiteralError::UnsupportedQuotes)
            == "unsupported string literal quote type"@,
        literal_message(LiteralError::UnfinishedEscape)
            == "string literal ended with an escape character"@,
        literal_message(LiteralError::InvalidHexadecimal)
            == "invalid hexadecimal escape in string literal"@,
        literal_message(LiteralError::InvalidDecimal)
            == "invalid decimal escape in string literal"@,
        literal_message(LiteralError::InvalidUnicode)
            == "invalid unicode escape in string literal"@,
        literal_message(LiteralError::UnterminatedUnicode)
            == "unterminated unicode escape in string literal"@,
        literal_message(LiteralError::LongUnicode)
            == "unicode escape is too long in string literal"@,
        literal_message(LiteralError::EmptyUnicode) == "empty unicode escape in string literal"@,
{
}

/// The built-in aliases are `@self` and `@game`, whatever their case, and a request is one
/// of them where it starts with one.
pub proof fn built_in_aliases_are_self_and_game(request: Seq<char>, name: Seq<char>)
    ensures
        reserved_alias(name) == is_built_in(name),
        reserved_request(request) <==> exists|name: Seq<char>, rest: Seq<char>| #[trigger]
            is_split(request, name, rest) && is_built_in(name),
{
    crate::laws::plans::lemma_built_in(name);
    crate::laws::aliases::requests_split_at_the_first_separator(request);
    if request.len() > 0 && request[0] == '@' {
        let (found, remainder) = crate::config::alias_parts(request)->0;
        crate::laws::plans::lemma_built_in(found);
        assert(is_split(request, found, remainder));
        assert forall|name: Seq<char>, rest: Seq<char>| #[trigger]
            is_split(request, name, rest) implies name == found by {
            requests_are_split_once(request, name, rest, found, remainder);
        }
    } else {
        assert forall|name: Seq<char>, rest: Seq<char>| #[trigger]
            is_split(request, name, rest) implies false by {
            assert(request[0] == '@');
        }
    }
}

/// Suffixes are joined by a `/`, and an empty one adds nothing.
pub proof fn suffixes_are_joined_by_a_slash(first: Seq<char>, second: Seq<char>)
    ensures
        first.len() > 0 && second.len() > 0 ==> joined_suffixes(first, second) == first + seq!['/']
            + second,
        first.len() == 0 ==> joined_suffixes(first, second) == second,
        second.len() == 0 ==> joined_suffixes(first, second) == first,
{
    if first.len() > 0 && second.len() > 0 {
        assert(first.push('/') + second =~= first + seq!['/'] + second);
    }
    if first.len() == 0 && second.len() == 0 {
        assert(first =~= second);
    }
}

/// A change is one of its path, whatever its kind.
pub proof fn changes_have_a_path(change: TransformChange, path: String)
    ensures
        TransformChange::Created(path).changed_path() == path@,
        TransformChange::Written(path).changed_path() == path@,
        TransformChange::Removed(path).changed_path() == path@,
{
}

/// A row of transformers asks for the project where one of them does, whichever.
pub proof fn one_transformer_that_asks_is_enough(row: Seq<Member>, i: int)
    ensures
        row_needs(row, true) ==> exists|i: int|
            0 <= i < row.len() && (#[trigger] row[i]).transformer.may_ask(),
        row_needs(row, false) && 0 <= i < row.len() ==> may_need_project_snapshot(
            &*row[i].transformer,
            false,
        ),
{
    if row_needs(row, true) {
        let k = choose|k: int| #[trigger]
            crate::transformer::is_member(row, k) && row[k].transformer.may_ask()
                && may_need_project_snapshot(&*row[k].transformer, true);
        assert(row[k].transformer.may_ask());
    }
    if row_needs(row, false) && 0 <= i < row.len() {
        assert(crate::transformer::is_member(row, i));
    }
}

} // verus!
