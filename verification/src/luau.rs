//! Calls of `require` in Luau sources.

use std::ops::Range;

use full_moon::ast::{Ast, Call, Expression, FunctionArgs, FunctionCall, Prefix, Suffix};
use full_moon::node::Node;
use full_moon::tokenizer::{
    Lexer, LexerResult, StringLiteralQuoteType, Symbol, Token, TokenReference, TokenType,
    TokenizerError, TokenizerErrorType,
};
use full_moon::visitors::Visitor;
use vstd::prelude::*;

use crate::edits::{chars_before, text_at};
use crate::error::{outcome, with_text, Error};
use crate::files::reply_of;
use crate::literals::{
    decode_long_string, decode_lua_string, literal_message, long_text, quoted_text, LiteralError,
};
use crate::text::same_text;

verus! {

/// `full_moon::tokenizer::Token`: a token.
#[verifier::external_type_specification]
#[verifier::external_body]
pub struct ExToken(Token);

/// `full_moon::tokenizer::TokenReference`: a token of a syntax tree.
#[verifier::external_type_specification]
#[verifier::external_body]
pub struct ExTokenReference(TokenReference);

/// `full_moon::tokenizer::TokenizerError`: an error of the lexer.
#[verifier::external_type_specification]
#[verifier::external_body]
pub struct ExTokenizerError(TokenizerError);

/// `full_moon::ast::Ast`: a syntax tree.
#[verifier::external_type_specification]
#[verifier::external_body]
pub struct ExAst(Ast);

/// `full_moon::ast::Expression`: an expression of a syntax tree.
#[verifier::external_type_specification]
#[verifier::external_body]
pub struct ExExpression(Expression);

/// `full_moon::ast::FunctionCall`: a call in a syntax tree.
#[verifier::external_type_specification]
#[verifier::external_body]
pub struct ExFunctionCall(FunctionCall);

/// `full_moon::ast::FunctionArgs`: the arguments of a call in a syntax tree.
#[verifier::external_type_specification]
#[verifier::external_body]
pub struct ExFunctionArgs(FunctionArgs);

/// The kind of a token, as far as the search for requests looks, over the type of its
/// text.
#[derive(Debug, PartialEq, Eq)]
pub enum TokenShape<S> {
    /// An identifier.
    Identifier(S),
    /// `(`.
    LeftParen,
    /// A string literal.
    StringLiteral,
    /// Anything else.
    Other,
}

impl DeepView for TokenShape<String> {
    type V = TokenShape<Seq<char>>;

    open spec fn deep_view(&self) -> TokenShape<Seq<char>> {
        match self {
            TokenShape::Identifier(name) => TokenShape::Identifier(name@),
            TokenShape::LeftParen => TokenShape::LeftParen,
            TokenShape::StringLiteral => TokenShape::StringLiteral,
            TokenShape::Other => TokenShape::Other,
        }
    }
}

/// A token, over the type of its text.
#[derive(Debug, PartialEq, Eq)]
pub struct SourceToken<S> {
    /// Whether it is a comment or white space.
    pub trivia: bool,
    pub shape: TokenShape<S>,
}

impl DeepView for SourceToken<String> {
    type V = SourceToken<Seq<char>>;

    open spec fn deep_view(&self) -> SourceToken<Seq<char>> {
        SourceToken { trivia: self.trivia, shape: self.shape.deep_view() }
    }
}

/// The tokens of a Luau source, or the text of the errors that leave none.
pub uninterp spec fn luau_tokens(source: Seq<char>) -> Result<
    Seq<SourceToken<Seq<char>>>,
    Seq<char>,
>;

/// What is wrong with a part of a source.
#[derive(Clone, Copy, Debug, PartialEq, Eq, Structural)]
pub enum LexerFault {
    UnclosedComment,
    UnclosedString,
    InvalidNumber,
    UnexpectedCharacter,
    InvalidSymbol,
}

/// An error of the lexer, over the type of its text.
#[derive(Debug, PartialEq, Eq)]
pub struct LexerError<S> {
    pub fault: LexerFault,
    pub text: S,
}

impl DeepView for LexerError<String> {
    type V = LexerError<Seq<char>>;

    open spec fn deep_view(&self) -> LexerError<Seq<char>> {
        LexerError { fault: self.fault, text: self.text@ }
    }
}

/// The errors that the lexer meets in a Luau source.
pub uninterp spec fn luau_lexer_errors(source: Seq<char>) -> Seq<LexerError<Seq<char>>>;

/// `full_moon::tokenizer::Token::token_type`, by its variants and by whether it is
/// trivia. A token is opaque, so nothing is claimed of which it is.
#[verifier::external_body]
fn source_token(token: &Token) -> SourceToken<String> {
    SourceToken {
        trivia: token.token_type().is_trivia(),
        shape: match token.token_type() {
            TokenType::Identifier { identifier } => TokenShape::Identifier(identifier.to_string()),
            TokenType::Symbol { symbol: Symbol::LeftParen } => TokenShape::LeftParen,
            TokenType::StringLiteral { .. } => TokenShape::StringLiteral,
            _ => TokenShape::Other,
        },
    }
}

/// `full_moon::tokenizer::TokenizerError`, by its variants and by its text as a
/// `full_moon::Error`. It is opaque, so nothing is claimed of which it is.
#[verifier::external_body]
fn lexer_error(error: &TokenizerError) -> LexerError<String> {
    LexerError {
        fault: match error.error() {
            TokenizerErrorType::UnclosedComment => LexerFault::UnclosedComment,
            TokenizerErrorType::UnclosedString => LexerFault::UnclosedString,
            TokenizerErrorType::InvalidNumber => LexerFault::InvalidNumber,
            TokenizerErrorType::UnexpectedToken(_) => LexerFault::UnexpectedCharacter,
            TokenizerErrorType::InvalidSymbol(_) => LexerFault::InvalidSymbol,
        },
        text: format!("{:?}", full_moon::Error::TokenizerError(error.clone())),
    }
}

/// `full_moon::tokenizer::Lexer::collect` on a Luau source. The contract names what it
/// returns, which rests on the source alone: the tokens, also where some could not be
/// read, or the text of the errors that leave none; and the errors.
#[verifier::external_body]
fn tokenize(source: &str) -> (lexed: (
    Result<Vec<SourceToken<String>>, String>,
    Vec<LexerError<String>>,
))
    ensures
        reply_of(lexed.0) == luau_tokens(source@),
        lexed.1.deep_view() == luau_lexer_errors(source@),
{
    match Lexer::new(source, full_moon::LuaVersion::luau()).collect() {
        LexerResult::Ok(tokens) => (Ok(tokens.iter().map(source_token).collect()), Vec::new()),
        LexerResult::Recovered(tokens, errors) => (
            Ok(tokens.iter().map(source_token).collect()),
            errors.iter().map(lexer_error).collect(),
        ),
        LexerResult::Fatal(errors) => (
            Err(format!("{errors:?}")),
            errors.iter().map(lexer_error).collect(),
        ),
    }
}

/// Whether a fault leaves a gap in the tokens: nothing stands for that part of the source.
pub open spec fn leaves_gap(fault: LexerFault) -> bool {
    fault is UnexpectedCharacter || fault is InvalidSymbol
}

/// Whether one of the errors of the lexer leaves a gap in the tokens.
pub open spec fn leave_gap(errors: Seq<LexerError<Seq<char>>>) -> bool {
    exists|i: int| 0 <= i < errors.len() && leaves_gap((#[trigger] errors[i]).fault)
}

/// The texts of errors, with `, ` between them.
pub open spec fn error_texts(errors: Seq<LexerError<Seq<char>>>) -> Seq<char>
    decreases errors.len(),
{
    if errors.len() == 0 {
        Seq::empty()
    } else if errors.len() == 1 {
        errors[0].text
    } else {
        error_texts(errors.drop_last()) + ", "@ + errors.last().text
    }
}

/// The text of a row of errors.
pub open spec fn errors_text(errors: Seq<LexerError<Seq<char>>>) -> Seq<char> {
    "["@ + error_texts(errors) + "]"@
}

/// The text of a row of errors, where one of them leaves a gap in the tokens.
fn gap_text(errors: &Vec<LexerError<String>>) -> (text: Option<String>)
    ensures
        text.deep_view() == if leave_gap(errors.deep_view()) {
            Some(errors_text(errors.deep_view()))
        } else {
            None
        },
{
    let ghost row = errors.deep_view();
    let mut gap: bool = false;
    let mut texts = String::new();
    let mut i: usize = 0;
    assert(row.take(0) == Seq::<LexerError<Seq<char>>>::empty());
    while i < errors.len()
        invariant
            i <= errors@.len(),
            row == errors.deep_view(),
            texts@ == error_texts(row.take(i as int)),
            gap == exists|j: int| 0 <= j < i && leaves_gap((#[trigger] row[j]).fault),
        decreases errors@.len() - i,
    {
        let ghost done = row.take(i + 1);
        assert(done.drop_last() == row.take(i as int));
        assert(done.last() == errors@[i as int].deep_view());
        assert(row[i as int].fault == errors@[i as int].fault);
        if i > 0 {
            texts.append(", ");
        }
        texts.append(errors[i].text.as_str());
        assert(i == 0 ==> texts@ == done[0].text);
        match errors[i].fault {
            LexerFault::UnexpectedCharacter | LexerFault::InvalidSymbol => {
                gap = true;
            },
            _ => {},
        }
        i += 1;
    }
    assert(row.take(i as int) == row);
    if !gap {
        return None;
    }
    let mut text = "[".to_owned();
    text.append(texts.as_str());
    text.append("]");
    Some(text)
}

/// The shapes of a row of tokens, without the trivia.
pub open spec fn significant(tokens: Seq<SourceToken<Seq<char>>>) -> Seq<TokenShape<Seq<char>>>
    decreases tokens.len(),
{
    if tokens.len() == 0 {
        seq![]
    } else if tokens.last().trivia {
        significant(tokens.drop_last())
    } else {
        significant(tokens.drop_last()).push(tokens.last().shape)
    }
}

/// Whether a name at `from` is followed by a string literal at `to`, with nothing but
/// opening parentheses between them.
pub open spec fn literal_after(
    tokens: Seq<TokenShape<Seq<char>>>,
    name: Seq<char>,
    from: int,
    to: int,
) -> bool {
    &&& 0 <= from < to < tokens.len()
    &&& tokens[from] == TokenShape::Identifier(name)
    &&& tokens[to] is StringLiteral
    &&& forall|i: int| from < i < to ==> #[trigger] tokens[i] is LeftParen
}

/// Whether the name `require` at `from` is followed by a string literal at `to`, with
/// nothing but opening parentheses between them.
pub open spec fn candidate_at(tokens: Seq<TokenShape<Seq<char>>>, from: int, to: int) -> bool {
    literal_after(tokens, "require"@, from, to)
}

/// Whether a row of tokens may hold a request: trivia apart, `require` is followed by a
/// string literal with nothing but opening parentheses between them.
pub open spec fn has_candidate(tokens: Seq<SourceToken<Seq<char>>>) -> bool {
    exists|from: int, to: int| candidate_at(significant(tokens), from, to)
}

fn is_require_name(token: &SourceToken<String>) -> (yes: bool)
    ensures
        yes == (token.deep_view().shape == TokenShape::Identifier("require"@)),
{
    match &token.shape {
        TokenShape::Identifier(name) => same_text(name.as_str(), "require"),
        _ => false,
    }
}

fn is_left_paren(token: &SourceToken<String>) -> (yes: bool)
    ensures
        yes == (token.deep_view().shape is LeftParen),
{
    match &token.shape {
        TokenShape::LeftParen => true,
        _ => false,
    }
}

fn is_string_literal(token: &SourceToken<String>) -> (yes: bool)
    ensures
        yes == (token.deep_view().shape is StringLiteral),
{
    match &token.shape {
        TokenShape::StringLiteral => true,
        _ => false,
    }
}

spec fn shapes(tokens: Seq<&SourceToken<String>>) -> Seq<TokenShape<Seq<char>>> {
    Seq::new(tokens.len(), |i: int| tokens[i].deep_view().shape)
}

/// Whether a row of tokens may hold a request.
pub fn require_candidate(tokens: &Vec<SourceToken<String>>) -> (candidate: bool)
    ensures
        candidate == has_candidate(tokens.deep_view()),
{
    let mut kept: Vec<&SourceToken<String>> = Vec::new();
    let mut i: usize = 0;
    assert(shapes(kept@) == significant(tokens.deep_view().take(0)));
    while i < tokens.len()
        invariant
            i <= tokens@.len(),
            shapes(kept@) == significant(tokens.deep_view().take(i as int)),
        decreases tokens@.len() - i,
    {
        let ghost before = shapes(kept@);
        let ghost done = tokens.deep_view().take(i + 1);
        assert(done.drop_last() == tokens.deep_view().take(i as int));
        assert(done.last() == tokens@[i as int].deep_view());
        if !tokens[i].trivia {
            kept.push(&tokens[i]);
            assert(shapes(kept@) == before.push(tokens@[i as int].deep_view().shape));
        }
        i += 1;
    }
    assert(tokens.deep_view().take(i as int) == tokens.deep_view());
    let ghost row = significant(tokens.deep_view());
    let mut from: usize = 0;
    while from < kept.len()
        invariant
            row == shapes(kept@),
            row == significant(tokens.deep_view()),
            from <= kept@.len(),
            forall|f: int, t: int| 0 <= f < from ==> !#[trigger] candidate_at(row, f, t),
        decreases kept@.len() - from,
    {
        if is_require_name(kept[from]) {
            assert(row[from as int] == kept@[from as int].deep_view().shape);
            let mut to: usize = from + 1;
            while to < kept.len() && is_left_paren(kept[to])
                invariant
                    row == shapes(kept@),
                    from < to <= kept@.len(),
                    forall|i: int| from < i < to ==> #[trigger] row[i] is LeftParen,
                decreases kept@.len() - to,
            {
                assert(row[to as int] == kept@[to as int].deep_view().shape);
                to += 1;
            }
            if to < kept.len() && is_string_literal(kept[to]) {
                assert(row[to as int] == kept@[to as int].deep_view().shape);
                assert(candidate_at(row, from as int, to as int));
                return true;
            }
            assert forall|t: int| !candidate_at(row, from as int, t) by {
                if candidate_at(row, from as int, t) {
                    if t < to {
                        assert(row[t] is LeftParen);
                    } else {
                        assert(to < kept@.len());
                        assert(row[to as int] == kept@[to as int].deep_view().shape);
                        if to < t {
                            assert(row[to as int] is LeftParen);
                        }
                    }
                }
            }
        } else {
            assert(row[from as int] == kept@[from as int].deep_view().shape);
        }
        from += 1;
    }
    assert forall|f: int, t: int| !candidate_at(row, f, t) by {
        if candidate_at(row, f, t) {
            assert(0 <= f < from);
        }
    }
    false
}

/// Whether a source may hold a request.
pub open spec fn source_candidate(source: Seq<char>) -> Result<bool, Error<Seq<char>>> {
    match luau_tokens(source) {
        Ok(tokens) => Ok(has_candidate(tokens)),
        Err(detail) => Err(Error::Tokens { detail }),
    }
}

/// Whether a source may hold a request: a quick look at its tokens.
pub fn has_static_require_candidate(source: &str) -> (candidate: Result<bool, Error<String>>)
    ensures
        outcome(candidate) == source_candidate(source@),
{
    match tokenize(source).0 {
        Ok(tokens) => Ok(require_candidate(&tokens)),
        Err(detail) => Err(Error::Tokens { detail }),
    }
}

/// The quotes of a string literal.
#[derive(Clone, Copy, Debug, PartialEq, Eq, Structural)]
pub enum Quotes {
    /// `[[...]]`.
    Brackets,
    /// `"..."`.
    Double,
    /// `'...'`.
    Single,
    /// Anything else.
    Other,
}

/// A token of a call, over the type of its text.
#[derive(Debug, PartialEq, Eq)]
pub struct CallToken<S> {
    /// What stands between the quotes, where it is a string literal.
    pub literal: Option<(S, Quotes)>,
    /// The byte at which it starts, where it has a place in the source.
    pub start: Option<usize>,
    /// The byte before which it ends.
    pub end: Option<usize>,
}

impl DeepView for CallToken<String> {
    type V = CallToken<Seq<char>>;

    open spec fn deep_view(&self) -> CallToken<Seq<char>> {
        CallToken {
            literal: match self.literal {
                Some((text, quotes)) => Some((text@, quotes)),
                None => None,
            },
            start: self.start,
            end: self.end,
        }
    }
}

/// An argument of a call, over the type of its texts.
#[derive(Debug, PartialEq, Eq)]
pub enum Argument<S> {
    /// A string literal.
    Literal(CallToken<S>),
    /// An expression in parentheses.
    Parentheses(Box<Argument<S>>),
    /// Anything else.
    Other,
}

impl Argument<String> {
    /// This argument in contracts.
    pub open spec fn model(&self) -> Argument<Seq<char>>
        decreases self,
    {
        match self {
            Argument::Literal(token) => Argument::Literal(token.deep_view()),
            Argument::Parentheses(inner) => Argument::Parentheses(Box::new(inner.model())),
            Argument::Other => Argument::Other,
        }
    }
}

impl DeepView for Argument<String> {
    type V = Argument<Seq<char>>;

    open spec fn deep_view(&self) -> Argument<Seq<char>> {
        self.model()
    }
}

/// The arguments of a call, over the type of its texts and of its row of arguments.
#[derive(Debug, PartialEq, Eq)]
pub enum Arguments<S, L> {
    /// One string literal without parentheses.
    Bare(CallToken<S>),
    /// Arguments between parentheses.
    List(L),
    /// A table, or anything else.
    Other,
}

/// A call, over the type of its texts and of its row of arguments.
#[derive(Debug, PartialEq, Eq)]
pub struct SourceCall<S, L> {
    /// The name that is called, where it is a name.
    pub name: Option<S>,
    /// The arguments, where the name is called at once and not as a method.
    pub arguments: Option<Arguments<S, L>>,
}

/// [`SourceCall`] in contracts.
pub type CallModel = SourceCall<Seq<char>, Seq<Argument<Seq<char>>>>;

impl DeepView for SourceCall<String, Vec<Argument<String>>> {
    type V = CallModel;

    open spec fn deep_view(&self) -> CallModel {
        SourceCall {
            name: self.name.deep_view(),
            arguments: match self.arguments {
                None => None,
                Some(Arguments::Bare(token)) => Some(Arguments::Bare(token.deep_view())),
                Some(Arguments::List(list)) => Some(Arguments::List(list.deep_view())),
                Some(Arguments::Other) => Some(Arguments::Other),
            },
        }
    }
}

/// `full_moon::tokenizer::TokenReference`: its type by its variants, and the bytes at
/// which it starts and ends. It is opaque, so nothing is claimed of them.
#[verifier::external_body]
fn call_token(token: &TokenReference) -> CallToken<String> {
    let literal = match token.token_type() {
        TokenType::StringLiteral { literal, quote_type, .. } => Some(
            (literal.to_string(), match quote_type {
                StringLiteralQuoteType::Brackets => Quotes::Brackets,
                StringLiteralQuoteType::Double => Quotes::Double,
                StringLiteralQuoteType::Single => Quotes::Single,
                _ => Quotes::Other,
            }),
        ),
        _ => None,
    };
    let start = token.start_position().map(|position| position.bytes());
    CallToken { literal, start, end: token.end_position().map(|position| position.bytes()) }
}

/// `full_moon::ast::Expression`, by its variants. It is opaque, so nothing is claimed
/// of which it is.
#[verifier::external_body]
fn call_argument(expression: &Expression) -> Argument<String> {
    match expression {
        Expression::String(token) => Argument::Literal(call_token(token)),
        Expression::Parentheses { expression, .. } => Argument::Parentheses(
            Box::new(call_argument(expression)),
        ),
        _ => Argument::Other,
    }
}

/// `full_moon::ast::FunctionArgs`, by its variants. It is opaque, so nothing is claimed
/// of which it is.
#[verifier::external_body]
fn call_arguments(arguments: &FunctionArgs) -> Arguments<String, Vec<Argument<String>>> {
    match arguments {
        FunctionArgs::String(token) => Arguments::Bare(call_token(token)),
        FunctionArgs::Parentheses { arguments, .. } => Arguments::List(
            arguments.iter().map(call_argument).collect(),
        ),
        _ => Arguments::Other,
    }
}

/// What a call of a syntax tree holds, as far as the search for requests looks.
pub uninterp spec fn call_in(call: FunctionCall) -> CallModel;

/// `full_moon::ast::FunctionCall`: its prefix and its first suffix, by their variants.
/// The contract names what they hold, which rests on the call alone.
#[verifier::external_body]
fn source_call(call: &FunctionCall) -> (read: SourceCall<String, Vec<Argument<String>>>)
    ensures
        read.deep_view() == call_in(*call),
{
    SourceCall {
        name: match call.prefix() {
            Prefix::Name(name) => match name.token_type() {
                TokenType::Identifier { identifier } => Some(identifier.to_string()),
                _ => None,
            },
            _ => None,
        },
        arguments: match call.suffixes().next() {
            Some(Suffix::Call(Call::AnonymousCall(arguments))) => Some(call_arguments(arguments)),
            _ => None,
        },
    }
}

/// Keeps the calls of a syntax tree as it is walked.
struct CallCollector {
    calls: Vec<SourceCall<String, Vec<Argument<String>>>>,
}

impl DeepView for CallCollector {
    type V = Seq<CallModel>;

    closed spec fn deep_view(&self) -> Seq<CallModel> {
        self.calls.deep_view()
    }
}

impl Visitor for CallCollector {
    fn visit_function_call(&mut self, call: &FunctionCall)
        ensures
            final(self).deep_view() == old(self).deep_view().push(call_in(*call)),
    {
        self.calls.push(source_call(call));
        assert(self.deep_view() =~= old(self).deep_view().push(call_in(*call)));
    }
}

/// The syntax tree of a Luau source, or the text of the errors that leave none.
pub uninterp spec fn luau_tree(source: Seq<char>) -> Result<Ast, Seq<char>>;

/// The calls of a syntax tree in the order in which a walk over it meets them.
pub uninterp spec fn tree_calls(tree: Ast) -> Seq<CallModel>;

/// The one string literal that a call is given, and whether it stands without
/// parentheses.
pub open spec fn literal_of(call: CallModel) -> Option<(CallToken<Seq<char>>, bool)> {
    match call.arguments {
        Some(Arguments::Bare(token)) => Some((token, true)),
        Some(Arguments::List(list)) => if list.len() != 1 {
            None
        } else {
            match argument_token(list[0]) {
                Some(token) => Some((token, false)),
                None => None,
            }
        },
        _ => None,
    }
}

/// Whether a range is not empty and starts and ends between characters of a text.
pub open spec fn is_placed(text: Seq<char>, start: usize, end: usize) -> bool {
    &&& start < end
    &&& chars_before(text, start as nat) is Some
    &&& chars_before(text, end as nat) is Some
}

/// Whether `spelled` is `literal` between its quotes. Brackets may hold any number of `=`,
/// the same on both sides.
pub open spec fn spells(spelled: Seq<char>, literal: Seq<char>, quotes: Quotes) -> bool {
    match quotes {
        Quotes::Double => spelled == seq!['"'] + literal + seq!['"'],
        Quotes::Single => spelled == seq!['\''] + literal + seq!['\''],
        Quotes::Brackets => exists|level: nat| #[trigger]
            is_bracketed(spelled, literal, level),
        Quotes::Other => true,
    }
}

/// Whether `spelled` is `literal` between brackets with `level` times `=`.
pub open spec fn is_bracketed(spelled: Seq<char>, literal: Seq<char>, level: nat) -> bool {
    let signs = Seq::new(level, |i: int| '=');
    spelled == seq!['['] + signs + seq!['['] + literal + seq![']'] + signs + seq![']']
}

/// Whether the literals that calls are given each have a place in the source, where they
/// are spelled, and no two share a byte.
pub open spec fn literals_lie_apart(source: Seq<char>, calls: Seq<CallModel>) -> bool {
    &&& forall|i: int|
        0 <= i < calls.len() ==> (literal_of(#[trigger] calls[i]) matches Some((token, _)) ==> {
            &&& token.start is Some && token.end is Some
            &&& is_placed(source, token.start->0, token.end->0)
            &&& token.literal matches Some((literal, quotes)) && spells(
                text_at(source, token.start->0, token.end->0),
                literal,
                quotes,
            )
        })
    &&& forall|i: int, j: int|
        0 <= i < calls.len() && 0 <= j < calls.len() && i != j ==> (literal_of(
            #[trigger] calls[i],
        ) matches Some((one, _)) ==> (literal_of(#[trigger] calls[j]) matches Some((other, _)) ==> {
            ||| one.end->0 <= other.start->0
            ||| other.end->0 <= one.start->0
        }))
}

/// Whether each call of a name with a literal is spelled in a row of tokens: the name,
/// opening parentheses, the literal.
pub open spec fn calls_are_spelled(
    tokens: Seq<TokenShape<Seq<char>>>,
    calls: Seq<CallModel>,
) -> bool {
    forall|i: int|
        0 <= i < calls.len() && literal_of(#[trigger] calls[i]) is Some && calls[i].name is Some
            ==> exists|from: int, to: int|
            #[trigger] literal_after(tokens, calls[i].name->0, from, to)
}

/// `full_moon::parse_fallible` on a Luau source whose tokens have no gap and whose end is
/// one of them: on others the parser can panic. The deeper the source is nested, the more
/// stack it takes; how deep the stack is rests on the machine, and nothing is stated of it.
/// The contract names what comes out, which rests on the source alone. Of the calls in a
/// tree it says what follows from a tree being made of the tokens of the source, each in
/// one place of the tree and of the source.
#[verifier::external_body]
fn parse(source: &str) -> (tree: Result<Ast, String>)
    requires
        luau_tokens(source@) matches Ok(tokens) && tokens.len() > 0,
        !leave_gap(luau_lexer_errors(source@)),
    ensures
        with_text(tree) == luau_tree(source@),
        tree matches Ok(tree) ==> literals_lie_apart(source@, tree_calls(tree)),
        tree matches Ok(tree) ==> (luau_tokens(source@) matches Ok(tokens) ==> calls_are_spelled(
            significant(tokens),
            tree_calls(tree),
        )),
{
    full_moon::parse_fallible(
        source,
        full_moon::LuaVersion::luau(),
    ).into_result().map_err(|errors| format!("{errors:?}"))
}

/// `full_moon::visitors::Visitor::visit_ast`, which hands over each call of a tree. The
/// contract names what comes out, which rests on the tree alone.
#[verifier::external_body]
fn function_calls(tree: &Ast) -> (calls: Vec<SourceCall<String, Vec<Argument<String>>>>)
    ensures
        calls.deep_view() == tree_calls(*tree),
{
    let mut collector = CallCollector { calls: Vec::new() };
    collector.visit_ast(tree);
    collector.calls
}

/// The calls of a Luau source in the order in which a walk over its syntax tree meets
/// them, or the text of the errors that leave no tree.
pub open spec fn luau_calls(source: Seq<char>) -> Result<Seq<CallModel>, Seq<char>> {
    match luau_tokens(source) {
        Err(detail) => Err(detail),
        Ok(tokens) => if tokens.len() == 0 {
            Err("the source has no tokens"@)
        } else if leave_gap(luau_lexer_errors(source)) {
            Err(errors_text(luau_lexer_errors(source)))
        } else {
            match luau_tree(source) {
                Ok(tree) => Ok(tree_calls(tree)),
                Err(detail) => Err(detail),
            }
        },
    }
}

/// A call of `require` with one string literal, over the type of its text.
#[derive(Debug, PartialEq, Eq)]
pub struct RequireCall<S> {
    /// The text of the literal.
    pub request: S,
    /// The bytes of the source that the literal takes up, its quotes included.
    pub source_range: Range<usize>,
    /// Whether the literal stands without parentheses.
    pub bare_string: bool,
}

impl DeepView for RequireCall<String> {
    type V = RequireCall<Seq<char>>;

    open spec fn deep_view(&self) -> RequireCall<Seq<char>> {
        RequireCall {
            request: self.request@,
            source_range: self.source_range,
            bare_string: self.bare_string,
        }
    }
}

/// The string literal that an argument is, whatever parentheses stand around it.
pub open spec fn argument_token(argument: Argument<Seq<char>>) -> Option<CallToken<Seq<char>>>
    decreases argument,
{
    match argument {
        Argument::Literal(token) => Some(token),
        Argument::Parentheses(inner) => argument_token(*inner),
        Argument::Other => None,
    }
}

/// The string literal that an argument is, whatever parentheses stand around it.
pub fn string_expression_token(argument: &Argument<String>) -> (token: Option<&CallToken<String>>)
    ensures
        token.deep_view() == argument_token(argument.deep_view()),
    decreases argument,
{
    match argument {
        Argument::Literal(token) => Some(token),
        Argument::Parentheses(inner) => string_expression_token(inner),
        Argument::Other => None,
    }
}

/// The text that a token stands for.
pub open spec fn token_text(token: CallToken<Seq<char>>) -> Result<Seq<char>, LiteralError> {
    match token.literal {
        None => Err(LiteralError::NotAString),
        Some((literal, quotes)) => literal_text(literal, quotes),
    }
}

/// The text that a literal stands for.
pub open spec fn literal_text(literal: Seq<char>, quotes: Quotes) -> Result<
    Seq<char>,
    LiteralError,
> {
    match quotes {
        Quotes::Brackets => Ok(long_text(literal)),
        Quotes::Double | Quotes::Single => quoted_text(literal),
        Quotes::Other => Err(LiteralError::UnsupportedQuotes),
    }
}

/// The text that a token stands for.
pub fn string_literal_value(token: &CallToken<String>) -> (value: Result<String, LiteralError>)
    ensures
        match value {
            Ok(text) => token_text(token.deep_view()) == Ok::<Seq<char>, LiteralError>(text@),
            Err(error) => token_text(token.deep_view()) == Err::<Seq<char>, LiteralError>(error),
        },
{
    match &token.literal {
        None => Err(LiteralError::NotAString),
        Some((literal, quotes)) => match quotes {
            Quotes::Brackets => Ok(decode_long_string(literal.as_str())),
            Quotes::Double | Quotes::Single => decode_lua_string(literal.as_str()),
            Quotes::Other => Err(LiteralError::UnsupportedQuotes),
        },
    }
}

/// The token with the request of a call, and whether it stands without parentheses.
pub open spec fn request_token(call: CallModel) -> Option<(CallToken<Seq<char>>, bool)> {
    if call.name != Some("require"@) {
        None
    } else {
        literal_of(call)
    }
}

/// What a call adds to the requests of a source: a request, an error, or nothing.
pub enum Finding {
    Request(RequireCall<Seq<char>>),
    Problem(LiteralError),
    Nothing,
}

/// What a call adds to the requests of a source.
pub open spec fn finding_of(call: CallModel) -> Finding {
    match request_token(call) {
        None => Finding::Nothing,
        Some((token, bare_string)) => match token_text(token) {
            Err(error) => Finding::Problem(error),
            Ok(request) => match (token.start, token.end) {
                (Some(start), Some(end)) => Finding::Request(
                    RequireCall { request, source_range: Range { start, end }, bare_string },
                ),
                _ => Finding::Nothing,
            },
        },
    }
}

/// The requests of a row of calls, in order.
pub open spec fn requests_in(calls: Seq<CallModel>) -> Seq<RequireCall<Seq<char>>>
    decreases calls.len(),
{
    if calls.len() == 0 {
        seq![]
    } else {
        match finding_of(calls.last()) {
            Finding::Request(request) => requests_in(calls.drop_last()).push(request),
            _ => requests_in(calls.drop_last()),
        }
    }
}

/// The sentences for the errors of a row of calls, with `; ` between them.
pub open spec fn problems_in(calls: Seq<CallModel>) -> Option<Seq<char>>
    decreases calls.len(),
{
    if calls.len() == 0 {
        None
    } else {
        let before = problems_in(calls.drop_last());
        match (finding_of(calls.last()), before) {
            (Finding::Problem(error), None) => Some(literal_message(error)),
            (Finding::Problem(error), Some(text)) => Some(text + "; "@ + literal_message(error)),
            _ => before,
        }
    }
}

/// The requests of a row of calls, or the errors of their literals.
pub open spec fn requests_of(calls: Seq<CallModel>) -> Result<
    Seq<RequireCall<Seq<char>>>,
    Error<Seq<char>>,
> {
    match problems_in(calls) {
        Some(detail) => Err(Error::Literals { detail }),
        None => Ok(requests_in(calls)),
    }
}

/// The token with the request of a call, and whether it stands without parentheses.
pub fn require_token(call: &SourceCall<String, Vec<Argument<String>>>) -> (found: Option<
    (&CallToken<String>, bool),
>)
    ensures
        found.deep_view() == request_token(call.deep_view()),
{
    match &call.name {
        Some(name) => {
            if !same_text(name.as_str(), "require") {
                return None;
            }
        },
        None => {
            return None;
        },
    }
    match &call.arguments {
        Some(Arguments::Bare(token)) => Some((token, true)),
        Some(Arguments::List(list)) => {
            if list.len() != 1 {
                return None;
            }
            assert(list.deep_view()[0] == list@[0].deep_view());
            match string_expression_token(&list[0]) {
                Some(token) => Some((token, false)),
                None => None,
            }
        },
        _ => None,
    }
}

/// The requests of a row of calls, or the errors of their literals.
pub fn require_calls(calls: &Vec<SourceCall<String, Vec<Argument<String>>>>) -> (requests: Result<
    Vec<RequireCall<String>>,
    Error<String>,
>)
    ensures
        outcome(requests) == requests_of(calls.deep_view()),
{
    let mut requests: Vec<RequireCall<String>> = Vec::new();
    let mut problems: Option<String> = None;
    let mut i: usize = 0;
    assert(requests.deep_view() == requests_in(calls.deep_view().take(0)));
    while i < calls.len()
        invariant
            i <= calls@.len(),
            requests.deep_view() == requests_in(calls.deep_view().take(i as int)),
            problems.deep_view() == problems_in(calls.deep_view().take(i as int)),
        decreases calls@.len() - i,
    {
        let ghost done = calls.deep_view().take(i + 1);
        assert(done.drop_last() == calls.deep_view().take(i as int));
        assert(done.last() == calls@[i as int].deep_view());
        let ghost before = requests.deep_view();
        match require_token(&calls[i]) {
            Some((token, bare_string)) => match string_literal_value(token) {
                Err(error) => {
                    problems = match problems {
                        None => Some(error.message().to_owned()),
                        Some(text) => {
                            let mut text = text;
                            text.append("; ");
                            text.append(error.message());
                            Some(text)
                        },
                    };
                },
                Ok(request) => match (token.start, token.end) {
                    (Some(start), Some(end)) => {
                        requests.push(
                            RequireCall { request, source_range: Range { start, end }, bare_string },
                        );
                        assert(requests.deep_view() == before.push(
                            requests@.last().deep_view(),
                        ));
                    },
                    _ => {},
                },
            },
            None => {},
        }
        i += 1;
    }
    assert(calls.deep_view().take(i as int) == calls.deep_view());
    match problems {
        Some(detail) => Err(Error::Literals { detail }),
        None => Ok(requests),
    }
}

/// The requests of a source, in order.
pub open spec fn source_requests(source: Seq<char>) -> Result<
    Seq<RequireCall<Seq<char>>>,
    Error<Seq<char>>,
> {
    match luau_calls(source) {
        Ok(calls) => requests_of(calls),
        Err(detail) => Err(Error::Syntax { detail }),
    }
}

/// Whether the literals of requests each have a place in the source, and no two share a
/// byte.
pub open spec fn requests_lie_apart(
    source: Seq<char>,
    requests: Seq<RequireCall<Seq<char>>>,
) -> bool {
    &&& forall|i: int|
        0 <= i < requests.len() ==> is_placed(
            source,
            (#[trigger] requests[i]).source_range.start,
            requests[i].source_range.end,
        )
    &&& forall|i: int, j: int|
        0 <= i < j < requests.len() ==> {
            ||| (#[trigger] requests[i]).source_range.end <= (
            #[trigger] requests[j]).source_range.start
            ||| requests[j].source_range.end <= requests[i].source_range.start
        }
}

/// Whether the literal of a request is spelled where the request stands.
pub open spec fn request_is_spelled(source: Seq<char>, request: RequireCall<Seq<char>>) -> bool {
    exists|literal: Seq<char>, quotes: Quotes|
        {
            &&& #[trigger] spells(
                text_at(source, request.source_range.start, request.source_range.end),
                literal,
                quotes,
            )
            &&& literal_text(literal, quotes) == Ok::<Seq<char>, LiteralError>(request.request)
        }
}

/// Each request is that of one call, and requests come in the order of their calls.
proof fn lemma_requests_of_calls(source: Seq<char>, calls: Seq<CallModel>)
    requires
        literals_lie_apart(source, calls),
    ensures
        requests_lie_apart(source, requests_in(calls)),
        forall|i: int|
            0 <= i < requests_in(calls).len() ==> exists|j: int|
                0 <= j < calls.len() && finding_of(#[trigger] calls[j]) == Finding::Request(
                    #[trigger] requests_in(calls)[i],
                ),
    decreases calls.len(),
{
    if calls.len() > 0 {
        let before = calls.drop_last();
        let last = calls.last();
        assert(forall|i: int| 0 <= i < before.len() ==> before[i] == calls[i]);
        assert(last == calls[calls.len() - 1]);
        assert(literals_lie_apart(source, before)) by {
            assert forall|i: int, j: int|
                0 <= i < before.len() && 0 <= j < before.len() && i != j implies (literal_of(
                #[trigger] before[i],
            ) matches Some((one, _)) ==> (literal_of(#[trigger] before[j]) matches Some(
                (other, _),
            ) ==> {
                ||| one.end->0 <= other.start->0
                ||| other.end->0 <= one.start->0
            })) by {
                assert(before[i] == calls[i] && before[j] == calls[j]);
            }
        }
        lemma_requests_of_calls(source, before);
        let earlier = requests_in(before);
        let requests = requests_in(calls);
        assert forall|i: int| 0 <= i < requests.len() implies exists|j: int|
            0 <= j < calls.len() && finding_of(#[trigger] calls[j]) == Finding::Request(
                #[trigger] requests[i],
            ) by {
            if i < earlier.len() {
                assert(requests[i] == earlier[i]);
                let j = choose|j: int|
                    0 <= j < before.len() && finding_of(#[trigger] before[j]) == Finding::Request(
                        earlier[i],
                    );
                assert(calls[j] == before[j]);
            } else {
                assert(finding_of(calls[calls.len() - 1]) == Finding::Request(requests[i]));
            }
        }
        assert forall|i: int, j: int| 0 <= i < j < requests.len() implies {
            ||| (#[trigger] requests[i]).source_range.end <= (
            #[trigger] requests[j]).source_range.start
            ||| requests[j].source_range.end <= requests[i].source_range.start
        } by {
            assert(requests[i] == earlier[i]);
            if j < earlier.len() {
                assert(requests[j] == earlier[j]);
            } else {
                let from = choose|from: int|
                    0 <= from < before.len() && finding_of(#[trigger] before[from])
                        == Finding::Request(earlier[i]);
                assert(calls[from] == before[from]);
                assert(finding_of(calls[calls.len() - 1]) == Finding::Request(requests[j]));
            }
        }
        assert forall|i: int| 0 <= i < requests.len() implies is_placed(
            source,
            (#[trigger] requests[i]).source_range.start,
            requests[i].source_range.end,
        ) by {
            if i < earlier.len() {
                assert(requests[i] == earlier[i]);
            } else {
                assert(finding_of(calls[calls.len() - 1]) == Finding::Request(requests[i]));
            }
        }
    }
}

/// Finds the calls of `require` with one string literal. Their literals are spelled where
/// they stand and do not overlap. A quick look at the tokens misses none of them, and does
/// not fail where this succeeds.
pub fn find_require_calls(source: &str) -> (requests: Result<
    Vec<RequireCall<String>>,
    Error<String>,
>)
    ensures
        outcome(requests) == source_requests(source@),
        requests matches Ok(requests) ==> requests_lie_apart(source@, requests.deep_view()),
        requests matches Ok(requests) ==> forall|i: int|
            0 <= i < requests@.len() ==> request_is_spelled(
                source@,
                #[trigger] requests.deep_view()[i],
            ),
        requests is Ok ==> source_candidate(source@) is Ok,
        requests matches Ok(requests) ==> requests@.len() > 0 ==> source_candidate(source@) == Ok::<
            bool,
            Error<Seq<char>>,
        >(true),
{
    let (tokens, errors) = tokenize(source);
    let tokens = match tokens {
        Ok(tokens) => tokens,
        Err(detail) => {
            return Err(Error::Syntax { detail });
        },
    };
    if tokens.len() == 0 {
        return Err(Error::Syntax { detail: "the source has no tokens".to_owned() });
    }
    if let Some(detail) = gap_text(&errors) {
        return Err(Error::Syntax { detail });
    }
    let tree = match parse(source) {
        Ok(tree) => tree,
        Err(detail) => {
            return Err(Error::Syntax { detail });
        },
    };
    let calls = function_calls(&tree);
    let requests = require_calls(&calls);
    proof {
        let calls = calls.deep_view();
        lemma_requests_of_calls(source@, calls);
        if requests is Ok {
            let found = requests->Ok_0.deep_view();
            assert(found == requests_in(calls));
            assert forall|i: int| 0 <= i < found.len() implies request_is_spelled(
                source@,
                #[trigger] found[i],
            ) by {
                let j = choose|j: int|
                    0 <= j < calls.len() && finding_of(#[trigger] calls[j]) == Finding::Request(
                        requests_in(calls)[i],
                    );
                let (token, _) = literal_of(calls[j])->0;
                let (literal, quotes) = token.literal->0;
                assert(spells(text_at(source@, token.start->0, token.end->0), literal, quotes));
            }
            if found.len() > 0 {
                let row = significant(tokens.deep_view());
                let j = choose|j: int|
                    0 <= j < calls.len() && finding_of(#[trigger] calls[j]) == Finding::Request(
                        requests_in(calls)[0],
                    );
                assert(literal_of(calls[j]) is Some);
                let (from, to) = choose|from: int, to: int|
                    #[trigger] literal_after(row, calls[j].name->0, from, to);
                assert(candidate_at(row, from, to));
            }
        }
    }
    requests
}

} // verus!
