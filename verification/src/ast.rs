use vstd::prelude::*;

use crate::token::TokenV;

verus! {

/// The parse result: a tree of template constructs. Order within a
/// `Sequence` is significant and matches source order.
#[derive(Debug, PartialEq, Eq)]
pub enum Ast {
    /// A leaf holding raw template text.
    Literal(String),
    /// A leaf holding a placeholder name.
    Interpolation(String),
    /// A named block; its nested content is always a `Sequence`,
    /// exclusively owned by this node.
    Section { name: String, nested: Box<Ast> },
    /// An ordered collection of zero or more nodes.
    Sequence(Vec<Ast>),
}

/// The mathematical value of an `Ast` node.
pub enum AstV {
    Literal(Seq<char>),
    Interpolation(Seq<char>),
    Section { name: Seq<char>, nested: Box<AstV> },
    Sequence(Seq<AstV>),
}

/// The mathematical value of one node.
pub open spec fn ast_view(a: Ast) -> AstV
    decreases a,
{
    match a {
        Ast::Literal(s) => AstV::Literal(s@),
        Ast::Interpolation(s) => AstV::Interpolation(s@),
        Ast::Section { name, nested } => AstV::Section {
            name: name@,
            nested: Box::new(ast_view(*nested)),
        },
        Ast::Sequence(items) => AstV::Sequence(asts_view(items@)),
    }
}

/// The views of a list of nodes, in order.
pub open spec fn asts_view(s: Seq<Ast>) -> Seq<AstV>
    decreases s,
{
    if s.len() == 0 {
        Seq::empty()
    } else {
        asts_view(s.drop_last()).push(ast_view(s.last()))
    }
}

impl View for Ast {
    type V = AstV;

    open spec fn view(&self) -> AstV {
        ast_view(*self)
    }
}

/// Well-formedness of one node standing inside a sequence: leaves are
/// always well formed, a section must nest a well-formed sequence, and a
/// bare `Sequence` never stands inside another sequence.
pub open spec fn wf_item(a: AstV) -> bool
    decreases a,
{
    match a {
        AstV::Literal(_) => true,
        AstV::Interpolation(_) => true,
        AstV::Section { name: _, nested } => match *nested {
            AstV::Sequence(items) => wf_items(items),
            _ => false,
        },
        AstV::Sequence(_) => false,
    }
}

/// Well-formedness of a list of sequence items.
pub open spec fn wf_items(items: Seq<AstV>) -> bool
    decreases items,
{
    if items.len() == 0 {
        true
    } else {
        wf_item(items.first()) && wf_items(items.drop_first())
    }
}

/// The token sequence that one node stands for: a leaf is its own token,
/// and a section is its opener, its nested content, then its closer.
pub open spec fn toks_of_item(a: AstV) -> Seq<TokenV>
    decreases a,
{
    match a {
        AstV::Literal(s) => seq![TokenV::Literal(s)],
        AstV::Interpolation(s) => seq![TokenV::Interpolation(s)],
        AstV::Section { name, nested } => match *nested {
            AstV::Sequence(items) => seq![TokenV::SectionOpener(name)] + toks_of_items(items)
                + seq![TokenV::SectionCloser(name)],
            _ => Seq::empty(),
        },
        AstV::Sequence(items) => toks_of_items(items),
    }
}

/// The token sequence that a list of nodes stands for, in order.
pub open spec fn toks_of_items(items: Seq<AstV>) -> Seq<TokenV>
    decreases items,
{
    if items.len() == 0 {
        Seq::empty()
    } else {
        toks_of_item(items.first()) + toks_of_items(items.drop_first())
    }
}

} // verus!
