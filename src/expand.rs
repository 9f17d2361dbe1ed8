use vstd::prelude::*;
use crate::invocation::{anchor, parse_spec, Diagnostic, ErrorKind, Invocation, InvocationView};
use crate::marker::{
    first_marker_at, has_marker, lemma_locate_found, lemma_marker_at_depth, lemma_repeat_len,
    locate, locate_and_expand, repeat, repeat_substitute, seq_at, splice_at,
};
use crate::substitute::{concat_at, lemma_subst_len, subst_seq};
use crate::token::{views, Token, TokenView};

verus! {

/// The output of an invocation: the body with its first marker expanded if
/// it holds one, else the body repeated once per index of the range.
pub open spec fn expansion(inv: InvocationView) -> Seq<TokenView> {
    let located = locate(inv.body, inv.start, inv.end, inv.placeholder);
    if located.1 {
        located.0
    } else {
        repeat(inv.body, inv.start, inv.end, inv.placeholder)
    }
}

/// The output for the tokens of an invocation, or where and why it is malformed.
pub open spec fn seq_spec(s: Seq<TokenView>) -> Result<Seq<TokenView>, (ErrorKind, int)> {
    match parse_spec(s) {
        Ok(inv) => Ok(expansion(inv)),
        Err(e) => Err(e),
    }
}

/// Expands a parsed invocation.
pub fn expand(inv: &Invocation) -> (r: Vec<Token>)
    requires
        inv.end <= i64::MAX + 1,
    ensures
        views(r@) == expansion(inv.view()),
{
    let (located, found) = locate_and_expand(&inv.body, inv.start, inv.end, &inv.placeholder);
    if found {
        located
    } else {
        repeat_substitute(&inv.body, inv.start, inv.end, &inv.placeholder)
    }
}

/// Parses the tokens of an invocation and expands it; a malformed invocation
/// gives a diagnostic and no output.
pub fn seq(input: &Vec<Token>) -> (r: Result<Vec<Token>, Diagnostic>)
    ensures
        match seq_spec(views(input@)) {
            Ok(out) => r matches Ok(toks) && views(toks@) == out,
            Err((kind, index)) => r matches Err(d) && d.kind == kind && d.index == index
                && d.span == anchor(views(input@), index),
        },
{
    match Invocation::parse(input) {
        Ok(inv) => Ok(expand(&inv)),
        Err(d) => Err(d),
    }
}

/// Expansion depends on the tokens of the invocation alone: equal inputs give
/// equal outputs, or equal diagnostics.
pub proof fn lemma_deterministic(a: Seq<TokenView>, b: Seq<TokenView>)
    requires
        a == b,
    ensures
        seq_spec(a) == seq_spec(b),
{
}

/// Without a marker in the body, and without a concatenation at its top
/// level, the output holds `max(0, end - start)` times as many tokens as the
/// body.
pub proof fn lemma_whole_body_length(inv: InvocationView)
    requires
        !has_marker(inv.body),
        forall|i: int| !concat_at(inv.body, i, inv.placeholder),
    ensures
        expansion(inv).len() == if inv.end > inv.start {
            (inv.end - inv.start) * inv.body.len()
        } else {
            0
        },
{
    lemma_locate_found(inv.body, inv.start, inv.end, inv.placeholder);
    assert forall|i: int| #[trigger] subst_seq(inv.body, i, inv.placeholder).len() == inv.body.len() by {
        lemma_subst_len(inv.body, i, inv.placeholder);
    }
    lemma_repeat_len(inv.body, inv.start, inv.end, inv.placeholder);
}

/// Without a marker in the body, an empty or reversed range gives no output
/// at all, and no error.
pub proof fn lemma_empty_range(inv: InvocationView)
    requires
        !has_marker(inv.body),
        inv.start >= inv.end,
    ensures
        expansion(inv) == Seq::<TokenView>::empty(),
{
    lemma_locate_found(inv.body, inv.start, inv.end, inv.placeholder);
}

/// A body whose first marker `#( x )*` stands at position `i` of the
/// sequence at `path` (at the top level when `path` is empty) expands to the
/// body with that marker's three tokens replaced, inside the same enclosing
/// groups, by the copies of `x` for `start..end` in increasing order; every
/// other token, at every depth, appears once and unsubstituted, and the body
/// is not repeated.
pub proof fn lemma_marker_exclusive(inv: InvocationView, path: Seq<int>, i: int)
    requires
        first_marker_at(inv.body, path, i),
    ensures
        expansion(inv) == splice_at(
            inv.body,
            path,
            i,
            repeat(seq_at(inv.body, path)[i + 1]->Group_stream, inv.start, inv.end, inv.placeholder),
        ),
{
    lemma_marker_at_depth(inv.body, path, i, inv.start, inv.end, inv.placeholder);
}

} // verus!
