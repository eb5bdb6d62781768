//! The laws of the grammar: a successful parse consumes every input token
//! exactly once into a well-formed tree, every well-formed tree parses
//! back from its own tokens, parsing is deterministic, and a failure
//! reports the first unexpected token.

use vstd::prelude::*;

use crate::ast::{toks_of_item, toks_of_items, wf_item, wf_items, AstV};
use crate::parser::{run, spec_parse, ErrorV, Expected, Frame};
use crate::token::TokenV;

verus! {

/// The tokens already consumed when parsing stands at some intermediate
/// state: each open section contributes the items gathered before it and
/// its opener, and the current level contributes its items.
pub open spec fn ctx_toks(stack: Seq<Frame>, items: Seq<AstV>) -> Seq<TokenV>
    decreases stack.len(),
{
    if stack.len() == 0 {
        toks_of_items(items)
    } else {
        ctx_toks(stack.drop_last(), stack.last().items) + seq![
            TokenV::SectionOpener(stack.last().name),
        ] + toks_of_items(items)
    }
}

proof fn lemma_wf_items_push(items: Seq<AstV>, x: AstV)
    requires
        wf_items(items),
        wf_item(x),
    ensures
        wf_items(items.push(x)),
    decreases items.len(),
{
    if items.len() == 0 {
        assert(items.push(x).first() == x);
        assert(items.push(x).drop_first() =~= Seq::<AstV>::empty());
        assert(wf_items(Seq::<AstV>::empty()));
    } else {
        assert(items.push(x).first() == items.first());
        assert(items.push(x).drop_first() =~= items.drop_first().push(x));
        lemma_wf_items_push(items.drop_first(), x);
    }
}

proof fn lemma_toks_of_items_push(items: Seq<AstV>, x: AstV)
    ensures
        toks_of_items(items.push(x)) == toks_of_items(items) + toks_of_item(x),
    decreases items.len(),
{
    if items.len() == 0 {
        assert(items.push(x).first() == x);
        assert(items.push(x).drop_first() =~= Seq::<AstV>::empty());
        assert(toks_of_items(Seq::<AstV>::empty()) =~= Seq::<TokenV>::empty());
        assert(toks_of_items(items.push(x)) =~= toks_of_items(items) + toks_of_item(x));
    } else {
        assert(items.push(x).first() == items.first());
        assert(items.push(x).drop_first() =~= items.drop_first().push(x));
        lemma_toks_of_items_push(items.drop_first(), x);
        assert(toks_of_items(items.push(x)) =~= toks_of_items(items) + toks_of_item(x));
    }
}

proof fn lemma_ctx_toks_push(stack: Seq<Frame>, items: Seq<AstV>, x: AstV)
    ensures
        ctx_toks(stack, items.push(x)) == ctx_toks(stack, items) + toks_of_item(x),
{
    lemma_toks_of_items_push(items, x);
    if stack.len() > 0 {
        assert(ctx_toks(stack, items.push(x)) =~= ctx_toks(stack, items) + toks_of_item(x));
    }
}

proof fn lemma_run_sound(tokens: Seq<TokenV>, i: int, stack: Seq<Frame>, items: Seq<AstV>, a: AstV)
    requires
        0 <= i <= tokens.len(),
        wf_items(items),
        forall|k: int| 0 <= k < stack.len() ==> wf_items(#[trigger] stack[k].items),
        run(tokens, i, stack, items).0 == Ok::<AstV, ErrorV>(a),
    ensures
        a matches AstV::Sequence(out) && wf_items(out) && toks_of_items(out) == ctx_toks(
            stack,
            items,
        ) + tokens.skip(i),
    decreases tokens.len() - i,
{
    if i >= tokens.len() {
        assert(a == AstV::Sequence(items));
        assert(tokens.skip(i) =~= Seq::<TokenV>::empty());
        assert(toks_of_items(items) =~= ctx_toks(stack, items) + tokens.skip(i));
    } else {
        assert(tokens.skip(i) =~= seq![tokens[i]] + tokens.skip(i + 1));
        match tokens[i] {
            TokenV::Literal(s) => {
                lemma_wf_items_push(items, AstV::Literal(s));
                lemma_run_sound(tokens, i + 1, stack, items.push(AstV::Literal(s)), a);
                lemma_ctx_toks_push(stack, items, AstV::Literal(s));
                assert(ctx_toks(stack, items) + seq![tokens[i]] + tokens.skip(i + 1) =~= ctx_toks(
                    stack,
                    items,
                ) + tokens.skip(i));
            },
            TokenV::Interpolation(s) => {
                lemma_wf_items_push(items, AstV::Interpolation(s));
                lemma_run_sound(tokens, i + 1, stack, items.push(AstV::Interpolation(s)), a);
                lemma_ctx_toks_push(stack, items, AstV::Interpolation(s));
                assert(ctx_toks(stack, items) + seq![tokens[i]] + tokens.skip(i + 1) =~= ctx_toks(
                    stack,
                    items,
                ) + tokens.skip(i));
            },
            TokenV::SectionOpener(s) => {
                let opened = stack.push(Frame { name: s, items });
                assert(forall|k: int|
                    0 <= k < opened.len() ==> wf_items(#[trigger] opened[k].items));
                lemma_run_sound(tokens, i + 1, opened, Seq::empty(), a);
                assert(opened.drop_last() =~= stack);
                assert(ctx_toks(opened, Seq::empty()) =~= ctx_toks(stack, items) + seq![tokens[i]]);
                assert(ctx_toks(stack, items) + seq![tokens[i]] + tokens.skip(i + 1) =~= ctx_toks(
                    stack,
                    items,
                ) + tokens.skip(i));
            },
            TokenV::SectionCloser(s) => {
                if stack.len() > 0 && stack.last().name == s {
                    let sec = AstV::Section { name: s, nested: Box::new(AstV::Sequence(items)) };
                    let popped = stack.drop_last();
                    assert(wf_items(stack.last().items));
                    assert(wf_item(sec));
                    lemma_wf_items_push(stack.last().items, sec);
                    lemma_run_sound(tokens, i + 1, popped, stack.last().items.push(sec), a);
                    lemma_ctx_toks_push(popped, stack.last().items, sec);
                    assert(toks_of_item(sec) == seq![TokenV::SectionOpener(s)] + toks_of_items(
                        items,
                    ) + seq![TokenV::SectionCloser(s)]);
                    assert(ctx_toks(popped, stack.last().items.push(sec)) =~= ctx_toks(
                        stack,
                        items,
                    ) + seq![tokens[i]]);
                    assert(ctx_toks(stack, items) + seq![tokens[i]] + tokens.skip(i + 1)
                        =~= ctx_toks(stack, items) + tokens.skip(i));
                }
            },
        }
    }
}

/// Exhaustiveness of a successful parse: the result is the root
/// `Sequence`, it is well formed, and flattening it back to tokens gives
/// exactly the input — every input token was consumed once, in order, and
/// stands in exactly one node.
pub proof fn lemma_parse_sound(tokens: Seq<TokenV>, a: AstV)
    requires
        spec_parse(tokens) == Ok::<AstV, ErrorV>(a),
    ensures
        a matches AstV::Sequence(out) && wf_items(out) && toks_of_items(out) == tokens,
    decreases tokens.len(),
{
    lemma_run_sound(tokens, 0, Seq::empty(), Seq::empty(), a);
    assert(ctx_toks(Seq::empty(), Seq::empty()) + tokens.skip(0) =~= tokens);
}

proof fn lemma_toks_of_item_len(a: AstV)
    requires
        wf_item(a),
    ensures
        toks_of_item(a).len() >= 1,
{
}

proof fn lemma_run_consume_item(
    tokens: Seq<TokenV>,
    i: int,
    stack: Seq<Frame>,
    cur: Seq<AstV>,
    item: AstV,
)
    requires
        0 <= i,
        i + toks_of_item(item).len() <= tokens.len(),
        tokens.subrange(i, i + toks_of_item(item).len() as int) == toks_of_item(item),
        wf_item(item),
    ensures
        run(tokens, i, stack, cur) == run(
            tokens,
            i + toks_of_item(item).len(),
            stack,
            cur.push(item),
        ),
    decreases toks_of_item(item).len(), 0int,
{
    let full = toks_of_item(item);
    match item {
        AstV::Literal(s) => {
            assert(tokens[i] == full[0]);
        },
        AstV::Interpolation(s) => {
            assert(tokens[i] == full[0]);
        },
        AstV::Section { name, nested } => {
            let items = (*nested)->Sequence_0;
            let m = toks_of_items(items).len() as int;
            assert(tokens[i] == full[0]);
            assert(tokens[i] == TokenV::SectionOpener(name));
            let opened = stack.push(Frame { name, items: cur });
            assert(run(tokens, i, stack, cur) == run(tokens, i + 1, opened, Seq::empty()));
            assert forall|k: int| 0 <= k < m implies tokens[i + 1 + k] == toks_of_items(items)[k] by {
                assert(full[1 + k] == tokens.subrange(i, i + full.len() as int)[1 + k]);
            }
            assert(tokens.subrange(i + 1, i + 1 + m) =~= toks_of_items(items));
            lemma_run_consume_items(tokens, i + 1, opened, Seq::empty(), items);
            assert(Seq::<AstV>::empty() + items =~= items);
            assert(tokens[i + 1 + m] == full[full.len() - 1]);
            assert(tokens[i + 1 + m] == TokenV::SectionCloser(name));
            assert(opened.drop_last() =~= stack);
            assert(run(tokens, i + 1 + m, opened, items) == run(
                tokens,
                i + toks_of_item(item).len(),
                stack,
                cur.push(AstV::Section { name, nested: Box::new(AstV::Sequence(items)) }),
            ));
            assert(AstV::Section { name, nested: Box::new(AstV::Sequence(items)) } == item);
        },
        AstV::Sequence(_) => {
        },
    }
}

proof fn lemma_run_consume_items(
    tokens: Seq<TokenV>,
    i: int,
    stack: Seq<Frame>,
    cur: Seq<AstV>,
    items: Seq<AstV>,
)
    requires
        0 <= i,
        i + toks_of_items(items).len() <= tokens.len(),
        tokens.subrange(i, i + toks_of_items(items).len() as int) == toks_of_items(items),
        wf_items(items),
    ensures
        run(tokens, i, stack, cur) == run(
            tokens,
            i + toks_of_items(items).len(),
            stack,
            cur + items,
        ),
    decreases toks_of_items(items).len(), 1int,
{
    if items.len() == 0 {
        assert(cur + items =~= cur);
    } else {
        let first = items.first();
        let rest = items.drop_first();
        let m1 = toks_of_item(first).len() as int;
        let m = toks_of_items(items).len() as int;
        lemma_toks_of_item_len(first);
        assert(toks_of_items(items) == toks_of_item(first) + toks_of_items(rest));
        assert forall|k: int| 0 <= k < m1 implies tokens[i + k] == toks_of_item(first)[k] by {
            assert(toks_of_items(items)[k] == tokens.subrange(i, i + m)[k]);
        }
        assert(tokens.subrange(i, i + m1) =~= toks_of_item(first));
        lemma_run_consume_item(tokens, i, stack, cur, first);
        assert forall|k: int| 0 <= k < m - m1 implies tokens[i + m1 + k] == toks_of_items(rest)[k] by {
            assert(toks_of_items(items)[m1 + k] == tokens.subrange(i, i + m)[m1 + k]);
        }
        assert(tokens.subrange(i + m1, i + m1 + (m - m1)) =~= toks_of_items(rest));
        lemma_run_consume_items(tokens, i + m1, stack, cur.push(first), rest);
        assert(cur.push(first) + rest =~= cur + items);
    }
}

/// Completeness of the grammar: flattening any well-formed list of nodes
/// back to tokens and parsing it returns exactly that list as the root
/// `Sequence`. Together with `lemma_parse_sound` this makes parsing a
/// bijection between well-formed trees and the token sequences they stand
/// for.
pub proof fn lemma_parse_round_trip(items: Seq<AstV>)
    requires
        wf_items(items),
    ensures
        spec_parse(toks_of_items(items)) == Ok::<AstV, ErrorV>(AstV::Sequence(items)),
{
    let tokens = toks_of_items(items);
    assert(tokens.subrange(0, tokens.len() as int) =~= tokens);
    lemma_run_consume_items(tokens, 0, Seq::empty(), Seq::empty(), items);
    assert(Seq::<AstV>::empty() + items =~= items);
}

/// The round-trip skeleton of one section: wrapping any parseable token
/// sequence in a matching opener and closer parses to a single `Section`
/// node whose name is the opener's and whose nested `Sequence` is exactly
/// the parse of the tokens strictly between the pair.
pub proof fn lemma_section_round_trip(name: Seq<char>, inner: Seq<TokenV>, inner_items: Seq<AstV>)
    requires
        spec_parse(inner) == Ok::<AstV, ErrorV>(AstV::Sequence(inner_items)),
    ensures
        spec_parse(seq![TokenV::SectionOpener(name)] + inner + seq![TokenV::SectionCloser(name)])
            == Ok::<AstV, ErrorV>(
            AstV::Sequence(
                seq![
                    AstV::Section { name, nested: Box::new(AstV::Sequence(inner_items)) },
                ],
            ),
        ),
{
    lemma_parse_sound(inner, AstV::Sequence(inner_items));
    let sec = AstV::Section { name, nested: Box::new(AstV::Sequence(inner_items)) };
    let items = seq![sec];
    assert(items.first() == sec);
    assert(items.drop_first() =~= Seq::<AstV>::empty());
    assert(wf_items(Seq::<AstV>::empty()));
    assert(toks_of_items(Seq::<AstV>::empty()) =~= Seq::<TokenV>::empty());
    assert(*Box::new(AstV::Sequence(inner_items)) == AstV::Sequence(inner_items));
    assert(wf_item(sec));
    assert(toks_of_item(sec) == seq![TokenV::SectionOpener(name)] + toks_of_items(inner_items)
        + seq![TokenV::SectionCloser(name)]);
    assert(toks_of_items(inner_items) == inner);
    assert(wf_items(items));
    assert(toks_of_items(items) =~= seq![TokenV::SectionOpener(name)] + inner + seq![
        TokenV::SectionCloser(name),
    ]);
    lemma_parse_round_trip(items);
}

/// Determinism: the result of a parse is a function of the token sequence
/// alone, so two parses of the same input agree in every field.
pub proof fn lemma_parse_deterministic(
    tokens: Seq<TokenV>,
    r1: Result<AstV, ErrorV>,
    r2: Result<AstV, ErrorV>,
)
    requires
        r1 == spec_parse(tokens),
        r2 == spec_parse(tokens),
    ensures
        r1 == r2,
{
}

proof fn lemma_run_position(tokens: Seq<TokenV>, i: int, stack: Seq<Frame>, items: Seq<AstV>)
    requires
        0 <= i <= tokens.len(),
    ensures
        ({
            let (r, j) = run(tokens, i, stack, items);
            &&& i <= j <= tokens.len()
            &&& r matches Ok(_) ==> j == tokens.len()
            &&& r matches Err(e) ==> e matches ErrorV::Mismatch { expected, found } && (match found {
                Some(t) => j < tokens.len() && t == tokens[j],
                None => j == tokens.len(),
            })
        }),
    decreases tokens.len() - i,
{
    if i < tokens.len() {
        match tokens[i] {
            TokenV::Literal(s) => {
                lemma_run_position(tokens, i + 1, stack, items.push(AstV::Literal(s)));
            },
            TokenV::Interpolation(s) => {
                lemma_run_position(tokens, i + 1, stack, items.push(AstV::Interpolation(s)));
            },
            TokenV::SectionOpener(s) => {
                lemma_run_position(
                    tokens,
                    i + 1,
                    stack.push(Frame { name: s, items }),
                    Seq::empty(),
                );
            },
            TokenV::SectionCloser(s) => {
                if stack.len() > 0 && stack.last().name == s {
                    lemma_run_position(
                        tokens,
                        i + 1,
                        stack.drop_last(),
                        stack.last().items.push(
                            AstV::Section { name: s, nested: Box::new(AstV::Sequence(items)) },
                        ),
                    );
                }
            },
        }
    }
}

/// A failed parse reports, as its `found` token, exactly the token at the
/// position where parsing stopped: the one immediately after all the
/// tokens consumed before the mismatch — or no token at all when the
/// mismatch is at the end of the input.
pub proof fn lemma_parse_error_position(tokens: Seq<TokenV>)
    ensures
        ({
            let (r, j) = run(tokens, 0, Seq::empty(), Seq::empty());
            r matches Err(e) ==> e matches ErrorV::Mismatch { expected, found } && (match found {
                Some(t) => 0 <= j < tokens.len() && t == tokens[j],
                None => j == tokens.len(),
            })
        }),
{
    lemma_run_position(tokens, 0, Seq::empty(), Seq::empty());
}

/// Trailing garbage is never dropped: after any well-formed prefix, a
/// section closer at top level makes the whole parse fail with an
/// expected end of input, reporting that closer — whatever follows it.
pub proof fn lemma_trailing_closer(items: Seq<AstV>, name: Seq<char>, rest: Seq<TokenV>)
    requires
        wf_items(items),
    ensures
        spec_parse(toks_of_items(items) + seq![TokenV::SectionCloser(name)] + rest) == Err::<
            AstV,
            ErrorV,
        >(
            ErrorV::Mismatch {
                expected: Expected::Eof,
                found: Some(TokenV::SectionCloser(name)),
            },
        ),
{
    let tokens = toks_of_items(items) + seq![TokenV::SectionCloser(name)] + rest;
    let m = toks_of_items(items).len() as int;
    assert(tokens.subrange(0, m) =~= toks_of_items(items));
    lemma_run_consume_items(tokens, 0, Seq::empty(), Seq::empty(), items);
    assert(tokens[m] == TokenV::SectionCloser(name));
}

} // verus!
