//! Which requests a source holds.

use vstd::prelude::*;

use crate::error::Error;
use crate::literals::{literal_message, long_text, quoted_text, LiteralError};
use crate::luau::{
    argument_token, error_texts, errors_text, finding_of, has_candidate, luau_lexer_errors,
    luau_tokens, luau_tree, problems_in, request_token, requests_in, requests_of, significant,
    source_candidate, source_requests, token_text, tree_calls, Argument, Arguments, CallModel,
    CallToken, Finding, LexerError, LexerFault, Quotes, RequireCall, SourceToken, TokenShape,
};

verus! {

/// The word that a request starts with.
pub open spec fn require_name() -> Seq<char> {
    seq!['r', 'e', 'q', 'u', 'i', 'r', 'e']
}

proof fn lemma_require_name()
    ensures
        "require"@ == require_name(),
{
    reveal_strlit("require");
    assert("require"@ =~= require_name());
}

/// Comments and white space do not count among tokens; all others do, in their order.
pub proof fn only_trivia_do_not_count(tokens: Seq<SourceToken<Seq<char>>>)
    ensures
        significant(tokens) == tokens.filter(
            |token: SourceToken<Seq<char>>| !token.trivia,
        ).map_values(|token: SourceToken<Seq<char>>| token.shape),
    decreases tokens.len(),
{
    let counts = |token: SourceToken<Seq<char>>| !token.trivia;
    let to_shape = |token: SourceToken<Seq<char>>| token.shape;
    if tokens.len() == 0 {
        reveal(Seq::filter);
        assert(tokens.filter(counts).map_values(to_shape) =~= Seq::<
            TokenShape<Seq<char>>,
        >::empty());
    } else {
        let before = tokens.drop_last();
        let last = tokens.last();
        only_trivia_do_not_count(before);
        assert(tokens =~= before.push(last));
        before.lemma_filter_push(last, counts);
        if counts(last) {
            assert(before.filter(counts).push(last).map_values(to_shape) =~= before.filter(
                counts,
            ).map_values(to_shape).push(last.shape));
        }
    }
}

/// Whether the name `require` stands at a place, then opening parentheses only, then a
/// string literal.
pub open spec fn starts_request(
    shapes: Seq<TokenShape<Seq<char>>>,
    from: int,
    parens: nat,
) -> bool {
    &&& 0 <= from
    &&& from + parens + 1 < shapes.len()
    &&& shapes[from] == TokenShape::Identifier(require_name())
    &&& shapes[from + parens + 1] == TokenShape::<Seq<char>>::StringLiteral
    &&& shapes.subrange(from + 1, from + parens + 1) == Seq::new(
        parens,
        |i: int| TokenShape::<Seq<char>>::LeftParen,
    )
}

/// A quick look finds that a source may hold a request exactly where `require`, opening
/// parentheses and a string literal follow each other.
pub proof fn candidates_are_names_before_literals(tokens: Seq<SourceToken<Seq<char>>>)
    ensures
        has_candidate(tokens) <==> exists|from: int, parens: nat| #[trigger]
            starts_request(significant(tokens), from, parens),
{
    lemma_require_name();
    let shapes = significant(tokens);
    if has_candidate(tokens) {
        let (from, to) = choose|from: int, to: int|
            crate::luau::candidate_at(shapes, from, to);
        let parens = (to - from - 1) as nat;
        assert forall|i: int| 0 <= i < parens implies #[trigger] shapes.subrange(
            from + 1,
            from + parens + 1,
        )[i] == TokenShape::<Seq<char>>::LeftParen by {
            assert(shapes[from + 1 + i] is LeftParen);
        }
        assert(shapes.subrange(from + 1, from + parens + 1) =~= Seq::new(
            parens,
            |i: int| TokenShape::<Seq<char>>::LeftParen,
        ));
        assert(starts_request(shapes, from, parens));
    }
    if exists|from: int, parens: nat| #[trigger] starts_request(shapes, from, parens) {
        let (from, parens) = choose|from: int, parens: nat| #[trigger]
            starts_request(shapes, from, parens);
        let to = from + parens + 1;
        assert forall|i: int| from < i < to implies #[trigger] shapes[i] is LeftParen by {
            assert(shapes.subrange(from + 1, to)[i - from - 1] == shapes[i]);
        }
        assert(crate::luau::candidate_at(shapes, from, to));
    }
}

/// A quick look fails only where there are no tokens, with the errors of the lexer.
pub proof fn quick_looks_look_at_tokens(source: Seq<char>)
    ensures
        luau_tokens(source) matches Ok(tokens) ==> source_candidate(source) == Ok::<
            _,
            Error<Seq<char>>,
        >(has_candidate(tokens)),
        luau_tokens(source) matches Err(detail) ==> source_candidate(source) == Err::<bool, _>(
            Error::Tokens { detail },
        ),
{
}

/// A literal in parentheses.
pub open spec fn wrapped(token: CallToken<Seq<char>>, parens: nat) -> Argument<Seq<char>>
    decreases parens,
{
    if parens == 0 {
        Argument::Literal(token)
    } else {
        Argument::Parentheses(Box::new(wrapped(token, (parens - 1) as nat)))
    }
}

/// An argument is a literal exactly where it is one within parentheses, however many.
pub proof fn parentheses_do_not_hide_a_literal(
    argument: Argument<Seq<char>>,
    token: CallToken<Seq<char>>,
)
    ensures
        argument_token(argument) == Some(token) <==> exists|parens: nat|
            argument == #[trigger] wrapped(token, parens),
    decreases argument,
{
    match argument {
        Argument::Literal(own) => {
            if own == token {
                assert(argument == wrapped(token, 0));
            }
            if exists|parens: nat| argument == #[trigger] wrapped(token, parens) {
                let parens = choose|parens: nat| argument == #[trigger] wrapped(token, parens);
                assert(parens == 0);
            }
        },
        Argument::Parentheses(inner) => {
            parentheses_do_not_hide_a_literal(*inner, token);
            if argument_token(*inner) == Some(token) {
                let parens = choose|parens: nat| *inner == #[trigger] wrapped(token, parens);
                assert(wrapped(token, parens + 1) == Argument::Parentheses(
                    Box::new(wrapped(token, parens)),
                ));
                assert(argument == wrapped(token, parens + 1));
            }
            if exists|parens: nat| argument == #[trigger] wrapped(token, parens) {
                let parens = choose|parens: nat| argument == #[trigger] wrapped(token, parens);
                assert(parens > 0);
                assert(*inner == wrapped(token, (parens - 1) as nat));
            }
        },
        Argument::Other => {
            if exists|parens: nat| argument == #[trigger] wrapped(token, parens) {
                let parens = choose|parens: nat| argument == #[trigger] wrapped(token, parens);
                assert(wrapped(token, parens) is Other);
            }
        },
    }
}

/// Whether a call is one of `require` with one string literal, with or without
/// parentheses.
pub open spec fn is_request(
    call: CallModel,
    token: CallToken<Seq<char>>,
    bare_string: bool,
) -> bool {
    &&& call.name == Some(require_name())
    &&& match call.arguments {
        Some(Arguments::Bare(own)) => bare_string && own == token,
        Some(Arguments::List(list)) => !bare_string && list.len() == 1 && argument_token(list[0])
            == Some(token),
        _ => false,
    }
}

/// A call is a request exactly where `require` is called with one string literal.
pub proof fn requests_call_require_with_one_literal(
    call: CallModel,
    token: CallToken<Seq<char>>,
    bare_string: bool,
)
    ensures
        request_token(call) == Some((token, bare_string)) <==> is_request(
            call,
            token,
            bare_string,
        ),
{
    lemma_require_name();
}

/// The text of a literal is read by its quotes.
pub proof fn quotes_decide_how_a_literal_is_read(token: CallToken<Seq<char>>)
    ensures
        token_text(token) == match token.literal {
            None => Err(LiteralError::NotAString),
            Some((literal, quotes)) => match quotes {
                Quotes::Brackets => Ok(long_text(literal)),
                Quotes::Double => quoted_text(literal),
                Quotes::Single => quoted_text(literal),
                Quotes::Other => Err(LiteralError::UnsupportedQuotes),
            },
        },
{
}

/// Whether a call is a request with a text and a place.
pub open spec fn gives_request(call: CallModel, request: RequireCall<Seq<char>>) -> bool {
    exists|token: CallToken<Seq<char>>| #[trigger]
        is_request(call, token, request.bare_string) && token_text(token) == Ok::<_, LiteralError>(
            request.request,
        ) && token.start == Some(request.source_range.start) && token.end == Some(
            request.source_range.end,
        )
}

/// Whether the literal of a request has no text.
pub open spec fn gives_problem(call: CallModel, problem: LiteralError) -> bool {
    exists|token: CallToken<Seq<char>>, bare_string: bool| #[trigger]
        is_request(call, token, bare_string) && token_text(token) == Err::<Seq<char>, _>(problem)
}

/// A call gives a request, a problem or nothing, by what it is.
pub proof fn calls_give_what_they_are(call: CallModel)
    ensures
        forall|request: RequireCall<Seq<char>>| #[trigger]
            gives_request(call, request) <==> finding_of(call) == Finding::Request(request),
        forall|problem: LiteralError| #[trigger]
            gives_problem(call, problem) <==> finding_of(call) == Finding::Problem(problem),
{
    assert forall|token: CallToken<Seq<char>>, bare_string: bool| #[trigger]
        is_request(call, token, bare_string) <==> request_token(call) == Some(
            (token, bare_string),
        ) by {
        requests_call_require_with_one_literal(call, token, bare_string);
    }
    assert forall|request: RequireCall<Seq<char>>| #[trigger]
        gives_request(call, request) <==> finding_of(call) == Finding::Request(request) by {
        if finding_of(call) == Finding::Request(request) {
            let (token, bare_string) = request_token(call)->0;
            assert(is_request(call, token, request.bare_string));
        }
    }
    assert forall|problem: LiteralError| #[trigger]
        gives_problem(call, problem) <==> finding_of(call) == Finding::Problem(problem) by {
        if finding_of(call) == Finding::Problem(problem) {
            let (token, bare_string) = request_token(call)->0;
            assert(is_request(call, token, bare_string));
        }
    }
}

/// The request of a call, where it gives one.
pub open spec fn request_of(call: CallModel) -> RequireCall<Seq<char>> {
    choose|request: RequireCall<Seq<char>>| gives_request(call, request)
}

/// Whether a call gives a request.
pub open spec fn has_request(call: CallModel) -> bool {
    exists|request: RequireCall<Seq<char>>| gives_request(call, request)
}

/// Every call that gives a request is found, in order, and no other.
pub proof fn every_request_is_found(calls: Seq<CallModel>)
    ensures
        requests_in(calls) == calls.filter(|call: CallModel| has_request(call)).map_values(
            |call: CallModel| request_of(call),
        ),
    decreases calls.len(),
{
    let wanted = |call: CallModel| has_request(call);
    let to_request = |call: CallModel| request_of(call);
    if calls.len() == 0 {
        reveal(Seq::filter);
        assert(calls.filter(wanted).map_values(to_request) =~= Seq::<
            RequireCall<Seq<char>>,
        >::empty());
    } else {
        let before = calls.drop_last();
        let last = calls.last();
        every_request_is_found(before);
        assert(calls =~= before.push(last));
        before.lemma_filter_push(last, wanted);
        calls_give_what_they_are(last);
        match finding_of(last) {
            Finding::Request(request) => {
                assert(gives_request(last, request));
                assert(request_of(last) == request);
                assert(before.filter(wanted).push(last).map_values(to_request) =~= before.filter(
                    wanted,
                ).map_values(to_request).push(request));
            },
            _ => {
                assert(!has_request(last));
            },
        }
    }
}

/// The requests of a row of calls are given where no literal among them fails; else the
/// sentences of all failures are, with `; ` between them.
pub proof fn failing_literals_are_reported(calls: Seq<CallModel>)
    ensures
        requests_of(calls) is Ok <==> forall|i: int|
            0 <= i < calls.len() ==> !(finding_of(#[trigger] calls[i]) is Problem),
        requests_of(calls) matches Ok(requests) ==> requests == requests_in(calls),
        requests_of(calls) matches Err(e) ==> e == (Error::Literals {
            detail: semicolons(
                calls.filter(|call: CallModel| finding_of(call) is Problem).map_values(
                    |call: CallModel| literal_message(finding_of(call)->Problem_0),
                ),
            ),
        }),
{
    lemma_problems(calls);
}

/// The texts of a row with `; ` between them.
pub open spec fn semicolons(row: Seq<Seq<char>>) -> Seq<char>
    decreases row.len(),
{
    if row.len() == 0 {
        seq![]
    } else if row.len() == 1 {
        row[0]
    } else {
        semicolons(row.drop_last()) + seq![';', ' '] + row.last()
    }
}

proof fn lemma_problems(calls: Seq<CallModel>)
    ensures
        problems_in(calls) is None <==> forall|i: int|
            0 <= i < calls.len() ==> !(finding_of(#[trigger] calls[i]) is Problem),
        ({
            let texts = calls.filter(|call: CallModel| finding_of(call) is Problem).map_values(
                |call: CallModel| literal_message(finding_of(call)->Problem_0),
            );
            &&& problems_in(calls) is None <==> texts.len() == 0
            &&& problems_in(calls) is Some ==> problems_in(calls) == Some(semicolons(texts))
        }),
    decreases calls.len(),
{
    let wanted = |call: CallModel| finding_of(call) is Problem;
    let to_text = |call: CallModel| literal_message(finding_of(call)->Problem_0);
    let texts = calls.filter(wanted).map_values(to_text);
    reveal_strlit("; ");
    assert("; "@ =~= seq![';', ' ']);
    if calls.len() == 0 {
        reveal(Seq::filter);
        assert(texts =~= Seq::<Seq<char>>::empty());
    } else {
        let before = calls.drop_last();
        let last = calls.len() - 1;
        let call = calls[last];
        lemma_problems(before);
        assert(forall|i: int| 0 <= i < before.len() ==> before[i] == calls[i]);
        assert(calls =~= before.push(call));
        before.lemma_filter_push(call, wanted);
        let earlier = before.filter(wanted).map_values(to_text);
        if wanted(call) {
            assert(texts =~= earlier.push(to_text(call)));
            assert(texts.drop_last() =~= earlier);
        } else {
            assert(texts =~= earlier);
            if problems_in(before) is None {
                assert forall|i: int| 0 <= i < calls.len() implies !(finding_of(
                    #[trigger] calls[i],
                ) is Problem) by {
                    if i < last {
                        assert(before[i] == calls[i]);
                    }
                }
            } else {
                let i = choose|i: int|
                    0 <= i < before.len() && finding_of(#[trigger] before[i]) is Problem;
                assert(finding_of(calls[i]) is Problem);
            }
        }
    }
}

/// The texts of a row with `, ` between them.
pub open spec fn commas(row: Seq<Seq<char>>) -> Seq<char>
    decreases row.len(),
{
    if row.len() == 0 {
        seq![]
    } else if row.len() == 1 {
        row[0]
    } else {
        commas(row.drop_last()) + seq![',', ' '] + row.last()
    }
}

/// Errors of the lexer are shown in brackets, with commas between them.
pub proof fn lexer_errors_are_listed(errors: Seq<LexerError<Seq<char>>>)
    ensures
        errors_text(errors) == seq!['['] + commas(
            errors.map_values(|error: LexerError<Seq<char>>| error.text),
        ) + seq![']'],
{
    reveal_strlit("[");
    reveal_strlit("]");
    assert("["@ =~= seq!['[']);
    assert("]"@ =~= seq![']']);
    lemma_commas(errors);
}

proof fn lemma_commas(errors: Seq<LexerError<Seq<char>>>)
    ensures
        error_texts(errors) == commas(
            errors.map_values(|error: LexerError<Seq<char>>| error.text),
        ),
    decreases errors.len(),
{
    reveal_strlit(", ");
    assert(", "@ =~= seq![',', ' ']);
    let to_text = |error: LexerError<Seq<char>>| error.text;
    let texts = errors.map_values(to_text);
    if errors.len() > 1 {
        lemma_commas(errors.drop_last());
        assert(texts.drop_last() =~= errors.drop_last().map_values(to_text));
    } else if errors.len() == 1 {
        assert(texts =~= seq![errors[0].text]);
    } else {
        assert(error_texts(errors) =~= Seq::<char>::empty());
    }
}

/// Whether a token is missing where the lexer met an error.
pub open spec fn is_gap(fault: LexerFault) -> bool {
    match fault {
        LexerFault::UnexpectedCharacter => true,
        LexerFault::InvalidSymbol => true,
        LexerFault::UnclosedComment => false,
        LexerFault::UnclosedString => false,
        LexerFault::InvalidNumber => false,
    }
}

/// The requests of a source are those of the calls in its tree. A source without a tree is
/// an error of syntax.
pub proof fn requests_are_those_of_the_tree(source: Seq<char>)
    ensures
        luau_tokens(source) is Ok && luau_tokens(source)->Ok_0.len() > 0 && (forall|i: int|
            0 <= i < luau_lexer_errors(source).len() ==> !is_gap(
                (#[trigger] luau_lexer_errors(source)[i]).fault,
            )) ==> source_requests(source) == match luau_tree(source) {
            Ok(tree) => requests_of(tree_calls(tree)),
            Err(detail) => Err(Error::Syntax { detail }),
        },
        luau_tokens(source) is Err || luau_tokens(source)->Ok_0.len() == 0 || (exists|i: int|
            0 <= i < luau_lexer_errors(source).len() && is_gap(
                (#[trigger] luau_lexer_errors(source)[i]).fault,
            )) ==> (source_requests(source) matches Err(Error::Syntax { .. })),
{
    if exists|i: int|
        0 <= i < luau_lexer_errors(source).len() && is_gap(
            (#[trigger] luau_lexer_errors(source)[i]).fault,
        ) {
        let i = choose|i: int|
            0 <= i < luau_lexer_errors(source).len() && is_gap(
                (#[trigger] luau_lexer_errors(source)[i]).fault,
            );
        assert(crate::luau::leaves_gap(luau_lexer_errors(source)[i].fault));
    }
}

} // verus!
