use vstd::prelude::*;

use crate::ast::{asts_view, Ast, AstV};
use crate::token::{tokens_view, Token, TokenV};

verus! {

/// The grammatical category that the parser expected at the point of a
/// mismatch.
#[derive(Debug, Clone, Copy, PartialEq, Eq, Structural)]
pub enum Expected {
    Literal,
    Interpolation,
    SectionOpener,
    SectionCloser,
    Eof,
}

impl Expected {
    /// The fixed description of this category.
    pub open spec fn spec_description(&self) -> Seq<char> {
        match self {
            Expected::Literal => "literal"@,
            Expected::Interpolation => "interpolation"@,
            Expected::SectionOpener => "section opener"@,
            Expected::SectionCloser => "section closer"@,
            Expected::Eof => "EOF"@,
        }
    }

    /// What the parser says it expected, for diagnostics.
    pub fn description(&self) -> (r: &'static str)
        ensures
            r@ == self.spec_description(),
    {
        match self {
            Expected::Literal => "literal",
            Expected::Interpolation => "interpolation",
            Expected::SectionOpener => "section opener",
            Expected::SectionCloser => "section closer",
            Expected::Eof => "EOF",
        }
    }
}

/// A parse failure: what was structurally expected, and the token actually
/// found there, or `None` at end of input.
#[derive(Debug, PartialEq, Eq)]
pub enum Error {
    Mismatch { expected: Expected, found: Option<Token> },
}

/// The mathematical value of an `Error`.
pub enum ErrorV {
    Mismatch { expected: Expected, found: Option<TokenV> },
}

impl View for Error {
    type V = ErrorV;

    open spec fn view(&self) -> ErrorV {
        match self {
            Error::Mismatch { expected, found } => ErrorV::Mismatch {
                expected: *expected,
                found: match found {
                    Some(t) => Some(t@),
                    None => None,
                },
            },
        }
    }
}

/// The view of a whole parse result.
pub open spec fn res_view(r: Result<Ast, Error>) -> Result<AstV, ErrorV> {
    match r {
        Ok(a) => Ok(a@),
        Err(e) => Err(e@),
    }
}

/// The token at position `i`, or `None` when the input is exhausted:
/// single-token lookahead over the stream.
pub open spec fn peeked(tokens: Seq<TokenV>, i: int) -> Option<TokenV> {
    if 0 <= i < tokens.len() {
        Some(tokens[i])
    } else {
        None
    }
}

/// One suspended section while parsing: the opener's name and the items
/// gathered at the enclosing level before the opener.
pub struct Frame {
    pub name: Seq<char>,
    pub items: Seq<AstV>,
}

/// The meaning of the grammar, written as a single left-to-right pass:
/// `stack` holds the sections still open, `items` the nodes gathered at
/// the current level. Each token either extends the current level, opens a
/// section, or closes the innermost open section; the result is the root
/// `Sequence`, or the first mismatch together with its position.
pub open spec fn run(tokens: Seq<TokenV>, i: int, stack: Seq<Frame>, items: Seq<AstV>) -> (Result<
    AstV,
    ErrorV,
>, int)
    decreases tokens.len() - i,
{
    if i < 0 || i >= tokens.len() {
        if stack.len() == 0 {
            (Ok(AstV::Sequence(items)), i)
        } else {
            (Err(ErrorV::Mismatch { expected: Expected::SectionCloser, found: None }), i)
        }
    } else {
        match tokens[i] {
            TokenV::Literal(s) => run(tokens, i + 1, stack, items.push(AstV::Literal(s))),
            TokenV::Interpolation(s) => run(
                tokens,
                i + 1,
                stack,
                items.push(AstV::Interpolation(s)),
            ),
            TokenV::SectionOpener(s) => run(
                tokens,
                i + 1,
                stack.push(Frame { name: s, items }),
                Seq::empty(),
            ),
            TokenV::SectionCloser(s) => {
                if stack.len() == 0 {
                    (
                        Err(ErrorV::Mismatch { expected: Expected::Eof, found: Some(tokens[i]) }),
                        i,
                    )
                } else if stack.last().name == s {
                    run(
                        tokens,
                        i + 1,
                        stack.drop_last(),
                        stack.last().items.push(
                            AstV::Section { name: s, nested: Box::new(AstV::Sequence(items)) },
                        ),
                    )
                } else {
                    (
                        Err(
                            ErrorV::Mismatch {
                                expected: Expected::SectionCloser,
                                found: Some(tokens[i]),
                            },
                        ),
                        i,
                    )
                }
            },
        }
    }
}

/// What parsing a whole token sequence yields.
pub open spec fn spec_parse(tokens: Seq<TokenV>) -> Result<AstV, ErrorV> {
    run(tokens, 0, Seq::empty(), Seq::empty()).0
}

/// Consumes one token, which must be a literal. Reached only after the
/// caller's lookahead saw a literal, so the mismatch arm is a defensive
/// check.
fn literal(tokens: &Vec<Token>, i: usize) -> (r: (Result<Ast, Error>, usize))
    requires
        i <= tokens@.len(),
    ensures
        r.1 == if i < tokens@.len() {
            i + 1
        } else {
            i as int
        },
        match peeked(tokens_view(tokens@), i as int) {
            Some(TokenV::Literal(s)) => r.0 matches Ok(a) && a@ == AstV::Literal(s),
            x => r.0 matches Err(e) && e@ == (ErrorV::Mismatch {
                expected: Expected::Literal,
                found: x,
            }),
        },
{
    if i < tokens.len() {
        match &tokens[i] {
            Token::Literal(s) => (Ok(Ast::Literal(s.clone())), i + 1),
            _ => {
                let found = tokens[i].duplicate();
                (Err(Error::Mismatch { expected: Expected::Literal, found: Some(found) }), i + 1)
            },
        }
    } else {
        (Err(Error::Mismatch { expected: Expected::Literal, found: None }), i)
    }
}

/// Consumes one token, which must be an interpolation. Reached only after
/// the caller's lookahead saw one, so the mismatch arm is a defensive
/// check.
fn interpolation(tokens: &Vec<Token>, i: usize) -> (r: (Result<Ast, Error>, usize))
    requires
        i <= tokens@.len(),
    ensures
        r.1 == if i < tokens@.len() {
            i + 1
        } else {
            i as int
        },
        match peeked(tokens_view(tokens@), i as int) {
            Some(TokenV::Interpolation(s)) => r.0 matches Ok(a) && a@ == AstV::Interpolation(s),
            x => r.0 matches Err(e) && e@ == (ErrorV::Mismatch {
                expected: Expected::Interpolation,
                found: x,
            }),
        },
{
    if i < tokens.len() {
        match &tokens[i] {
            Token::Interpolation(s) => (Ok(Ast::Interpolation(s.clone())), i + 1),
            _ => {
                let found = tokens[i].duplicate();
                (
                    Err(Error::Mismatch { expected: Expected::Interpolation, found: Some(found) }),
                    i + 1,
                )
            },
        }
    } else {
        (Err(Error::Mismatch { expected: Expected::Interpolation, found: None }), i)
    }
}

/// Consumes an opener, the nested sequence, and the matching closer.
/// Reached only after the caller's lookahead saw an opener, so the
/// missing-opener arm is a defensive check.
fn section(tokens: &Vec<Token>, i: usize) -> (r: (Result<Ast, Error>, usize))
    requires
        i <= tokens@.len(),
    ensures
        i <= r.1 <= tokens@.len(),
        match peeked(tokens_view(tokens@), i as int) {
            Some(TokenV::SectionOpener(_)) => {
                &&& r.0 matches Ok(a) ==> i < r.1 && (forall|stack: Seq<Frame>, cur: Seq<AstV>|
                    #[trigger] run(tokens_view(tokens@), i as int, stack, cur) == run(
                        tokens_view(tokens@),
                        r.1 as int,
                        stack,
                        cur.push(a@),
                    ))
                &&& r.0 matches Err(e) ==> forall|stack: Seq<Frame>, cur: Seq<AstV>| (#[trigger] run(
                    tokens_view(tokens@),
                    i as int,
                    stack,
                    cur,
                )).0 == Err::<AstV, ErrorV>(e@)
            },
            x => r.0 matches Err(e) && e@ == (ErrorV::Mismatch {
                expected: Expected::SectionOpener,
                found: x,
            }) && r.1 == if i < tokens@.len() {
                i + 1
            } else {
                i as int
            },
        },
    decreases tokens@.len() - i, 0int,
{
    let ghost tv = tokens_view(tokens@);
    let name = if i < tokens.len() {
        match &tokens[i] {
            Token::SectionOpener(s) => s.clone(),
            _ => {
                let found = tokens[i].duplicate();
                return (
                    Err(Error::Mismatch { expected: Expected::SectionOpener, found: Some(found) }),
                    i + 1,
                );
            },
        }
    } else {
        return (Err(Error::Mismatch { expected: Expected::SectionOpener, found: None }), i);
    };

    let (nested_res, j) = sequence(tokens, i + 1);
    let nested = match nested_res {
        Ok(a) => a,
        Err(e) => {
            proof {
                assert forall|stack: Seq<Frame>, cur: Seq<AstV>| (#[trigger] run(
                    tv,
                    i as int,
                    stack,
                    cur,
                )).0 == Err::<AstV, ErrorV>(e@) by {
                    let opened = stack.push(Frame { name: name@, items: cur });
                    assert(run(tv, i as int, stack, cur) == run(
                        tv,
                        i + 1,
                        opened,
                        Seq::<AstV>::empty(),
                    ));
                    assert(run(tv, i + 1, opened, Seq::<AstV>::empty()).0 == Err::<
                        AstV,
                        ErrorV,
                    >(e@));
                }
            }
            return (Err(e), j);
        },
    };
    let ghost items = nested@->Sequence_0;
    proof {
        assert forall|stack: Seq<Frame>, cur: Seq<AstV>| #[trigger] run(tv, i as int, stack, cur)
            == run(tv, j as int, stack.push(Frame { name: name@, items: cur }), items) by {
            let opened = stack.push(Frame { name: name@, items: cur });
            assert(run(tv, i as int, stack, cur) == run(tv, i + 1, opened, Seq::<AstV>::empty()));
            assert(run(tv, i + 1, opened, Seq::<AstV>::empty()) == run(
                tv,
                j as int,
                opened,
                Seq::<AstV>::empty() + items,
            ));
            assert(Seq::<AstV>::empty() + items =~= items);
        }
    }

    if j < tokens.len() {
        match &tokens[j] {
            Token::SectionCloser(close_name) => {
                if *close_name == name {
                    proof {
                        assert forall|stack: Seq<Frame>, cur: Seq<AstV>| #[trigger] run(
                            tv,
                            i as int,
                            stack,
                            cur,
                        ) == run(
                            tv,
                            j + 1,
                            stack,
                            cur.push(
                                AstV::Section {
                                    name: name@,
                                    nested: Box::new(AstV::Sequence(items)),
                                },
                            ),
                        ) by {
                            let opened = stack.push(Frame { name: name@, items: cur });
                            assert(run(tv, i as int, stack, cur) == run(tv, j as int, opened, items));
                            assert(opened.drop_last() =~= stack);
                        }
                    }
                    return (Ok(Ast::Section { name, nested: Box::new(nested) }), j + 1);
                } else {
                    let found = tokens[j].duplicate();
                    proof {
                        assert forall|stack: Seq<Frame>, cur: Seq<AstV>| (#[trigger] run(
                            tv,
                            i as int,
                            stack,
                            cur,
                        )).0 == Err::<AstV, ErrorV>(
                            ErrorV::Mismatch {
                                expected: Expected::SectionCloser,
                                found: Some(tv[j as int]),
                            },
                        ) by {
                            let opened = stack.push(Frame { name: name@, items: cur });
                            assert(run(tv, i as int, stack, cur) == run(tv, j as int, opened, items));
                        }
                    }
                    return (
                        Err(
                            Error::Mismatch {
                                expected: Expected::SectionCloser,
                                found: Some(found),
                            },
                        ),
                        j + 1,
                    );
                }
            },
            _ => {
                let found = tokens[j].duplicate();
                return (
                    Err(Error::Mismatch { expected: Expected::SectionCloser, found: Some(found) }),
                    j + 1,
                );
            },
        }
    } else {
        proof {
            assert forall|stack: Seq<Frame>, cur: Seq<AstV>| (#[trigger] run(
                tv,
                i as int,
                stack,
                cur,
            )).0 == Err::<AstV, ErrorV>(
                ErrorV::Mismatch { expected: Expected::SectionCloser, found: None },
            ) by {
                let opened = stack.push(Frame { name: name@, items: cur });
                assert(run(tv, i as int, stack, cur) == run(tv, j as int, opened, items));
            }
        }
        return (Err(Error::Mismatch { expected: Expected::SectionCloser, found: None }), j);
    }
}

/// Gathers nodes at one nesting level: literals, interpolations and
/// sections, until the lookahead sees a closer or the input ends. The
/// lookahead-based stop is how a level knows it is done without an
/// explicit end marker.
fn sequence(tokens: &Vec<Token>, i: usize) -> (r: (Result<Ast, Error>, usize))
    requires
        i <= tokens@.len(),
    ensures
        i <= r.1 <= tokens@.len(),
        r.0 matches Ok(a) ==> a@ matches AstV::Sequence(items) && (forall|
            stack: Seq<Frame>,
            cur: Seq<AstV>,
        |
            #[trigger] run(tokens_view(tokens@), i as int, stack, cur) == run(
                tokens_view(tokens@),
                r.1 as int,
                stack,
                cur + items,
            )) && (peeked(tokens_view(tokens@), r.1 as int) matches Some(t)
            ==> t is SectionCloser),
        r.0 matches Err(e) ==> forall|stack: Seq<Frame>, cur: Seq<AstV>| (#[trigger] run(
            tokens_view(tokens@),
            i as int,
            stack,
            cur,
        )).0 == Err::<AstV, ErrorV>(e@),
    decreases tokens@.len() - i, 1int,
{
    let ghost tv = tokens_view(tokens@);
    let mut items: Vec<Ast> = Vec::new();
    let mut j: usize = i;

    loop
        invariant
            i <= j <= tokens@.len(),
            tv == tokens_view(tokens@),
            forall|stack: Seq<Frame>, cur: Seq<AstV>| #[trigger] run(tv, i as int, stack, cur)
                == run(tv, j as int, stack, cur + asts_view(items@)),
        ensures
            i <= j <= tokens@.len(),
            forall|stack: Seq<Frame>, cur: Seq<AstV>| #[trigger] run(tv, i as int, stack, cur)
                == run(tv, j as int, stack, cur + asts_view(items@)),
            peeked(tv, j as int) matches Some(t) ==> t is SectionCloser,
        decreases tokens@.len() - j,
    {
        if j >= tokens.len() {
            break;
        }
        let step = match &tokens[j] {
            Token::Literal(_) => literal(tokens, j),
            Token::Interpolation(_) => interpolation(tokens, j),
            Token::SectionOpener(_) => section(tokens, j),
            Token::SectionCloser(_) => {
                break;
            },
        };
        let j2 = step.1;
        match step.0 {
            Ok(a) => {
                proof {
                    let old_items = asts_view(items@);
                    assert forall|stack: Seq<Frame>, cur: Seq<AstV>| #[trigger] run(
                        tv,
                        i as int,
                        stack,
                        cur,
                    ) == run(tv, j2 as int, stack, cur + asts_view(items@.push(a))) by {
                        assert(run(tv, i as int, stack, cur) == run(
                            tv,
                            j as int,
                            stack,
                            cur + old_items,
                        ));
                        assert(run(tv, j as int, stack, cur + old_items) == run(
                            tv,
                            j2 as int,
                            stack,
                            (cur + old_items).push(a@),
                        ));
                        assert(items@.push(a).drop_last() =~= items@);
                        assert(items@.push(a).last() == a);
                        assert(asts_view(items@.push(a)) =~= old_items.push(a@));
                        assert((cur + old_items).push(a@) =~= cur + old_items.push(a@));
                    }
                }
                items.push(a);
                j = j2;
            },
            Err(e) => {
                proof {
                    assert forall|stack: Seq<Frame>, cur: Seq<AstV>| (#[trigger] run(
                        tv,
                        i as int,
                        stack,
                        cur,
                    )).0 == Err::<AstV, ErrorV>(e@) by {
                        assert(run(tv, i as int, stack, cur) == run(
                            tv,
                            j as int,
                            stack,
                            cur + asts_view(items@),
                        ));
                    }
                }
                return (Err(e), j2);
            },
        }
    }

    (Ok(Ast::Sequence(items)), j)
}

/// Parses the whole stream: a top-level sequence, which must exhaust the
/// input. Any token left over is necessarily a stray closer and is
/// reported against an expected end of input.
fn parse_impl(tokens: &Vec<Token>) -> (r: Result<Ast, Error>)
    ensures
        res_view(r) == spec_parse(tokens_view(tokens@)),
{
    let ghost tv = tokens_view(tokens@);
    let (seq_res, j) = sequence(tokens, 0);
    let node = match seq_res {
        Ok(a) => a,
        Err(e) => {
            proof {
                assert(run(tv, 0, Seq::<Frame>::empty(), Seq::<AstV>::empty()).0 == Err::<
                    AstV,
                    ErrorV,
                >(e@));
            }
            return Err(e);
        },
    };
    proof {
        let items = node@->Sequence_0;
        assert(run(tv, 0, Seq::<Frame>::empty(), Seq::<AstV>::empty()) == run(
            tv,
            j as int,
            Seq::<Frame>::empty(),
            Seq::<AstV>::empty() + items,
        ));
        assert(Seq::<AstV>::empty() + items =~= items);
    }
    if j < tokens.len() {
        let found = tokens[j].duplicate();
        return Err(Error::Mismatch { expected: Expected::Eof, found: Some(found) });
    }
    Ok(node)
}

/// Parses a finite, ordered token stream into the root `Sequence` of its
/// abstract syntax tree, or reports the first structural mismatch. The
/// result is exactly what the grammar's meaning, `spec_parse`, assigns to
/// the input.
pub fn parse(tokens: Vec<Token>) -> (r: Result<Ast, Error>)
    ensures
        res_view(r) == spec_parse(tokens_view(tokens@)),
{
    parse_impl(&tokens)
}

} // verus!
