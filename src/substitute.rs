use vstd::prelude::*;
use crate::decimal::{decimal, decimal_string, push_decimal};
use crate::token::{
    group_views, lemma_views_concat, touching, views, Token, TokenView,
};

verus! {

broadcast use group_views;

/// `a # b`, written without gaps, where `a` is an identifier and `b` is the
/// placeholder.
pub open spec fn concat_triple(a: TokenView, b: TokenView, c: TokenView, ph: Seq<char>) -> bool {
    &&& a is Ident
    &&& b.is_punct('#')
    &&& c matches TokenView::Ident { text, .. } && text == ph
    &&& touching(a.span(), b.span())
    &&& touching(b.span(), c.span())
}

/// The tokens at `i`, `i + 1` and `i + 2` form a concatenation.
pub open spec fn concat_at(s: Seq<TokenView>, i: int, ph: Seq<char>) -> bool {
    0 <= i && i + 2 < s.len() && concat_triple(s[i], s[i + 1], s[i + 2], ph)
}

/// One token with the placeholder replaced by `n`, groups rewritten inside.
pub open spec fn subst_token(t: TokenView, n: int, ph: Seq<char>) -> TokenView
    decreases t,
{
    match t {
        TokenView::Group { delimiter, stream, span } => TokenView::Group {
            delimiter,
            stream: subst_seq(stream, n, ph),
            span,
        },
        TokenView::Ident { text, span } => if text == ph {
            TokenView::Literal { text: decimal(n), span }
        } else {
            t
        },
        _ => t,
    }
}

/// A sequence with the placeholder replaced by `n`, left to right: a
/// concatenation `P # N` becomes one identifier, `P` followed by the digits of
/// `n`; any other token is rewritten by `subst_token`.
pub open spec fn subst_seq(s: Seq<TokenView>, n: int, ph: Seq<char>) -> Seq<TokenView>
    decreases s,
{
    if s.len() == 0 {
        Seq::empty()
    } else if concat_at(s, 0, ph) {
        seq![TokenView::Ident { text: s[0]->Ident_text + decimal(n), span: s[0].span() }]
            + subst_seq(s.subrange(3, s.len() as int), n, ph)
    } else {
        seq![subst_token(s[0], n, ph)] + subst_seq(s.subrange(1, s.len() as int), n, ph)
    }
}

fn is_concat(a: &Token, b: &Token, c: &Token, placeholder: &String) -> (r: bool)
    ensures
        r == concat_triple(a.view(), b.view(), c.view(), placeholder@),
{
    if !b.is_punct('#') {
        return false;
    }
    match (a, c) {
        (Token::Ident { span: sa, .. }, Token::Ident { text, span: sc }) => {
            let sb = b.span();
            *text == *placeholder && sa.hi == sb.lo && sb.hi == sc.lo
        },
        _ => false,
    }
}

/// Replaces the placeholder by `n` throughout `seq`, groups included.
pub fn substitute(seq: &Vec<Token>, n: i64, placeholder: &String) -> (r: Vec<Token>)
    ensures
        views(r@) == subst_seq(views(seq@), n as int, placeholder@),
    decreases seq,
{
    let ghost whole = views(seq@);
    let ghost ph = placeholder@;
    let mut out: Vec<Token> = Vec::new();
    let mut idx: usize = 0;
    proof {
        assert(whole.subrange(0, whole.len() as int) =~= whole);
        assert(views(out@) =~= Seq::<TokenView>::empty());
        assert(views(out@) + subst_seq(whole, n as int, ph) =~= subst_seq(whole, n as int, ph));
    }
    while idx < seq.len()
        invariant
            idx <= seq.len(),
            whole == views(seq@),
            ph == placeholder@,
            views(out@) + subst_seq(whole.subrange(idx as int, whole.len() as int), n as int, ph)
                == subst_seq(whole, n as int, ph),
        decreases seq.len() - idx,
    {
        let ghost rest = whole.subrange(idx as int, whole.len() as int);
        let ghost prev = out@;
        assert(rest[0] == seq@[idx as int].view());
        if seq.len() - idx > 2 && is_concat(&seq[idx], &seq[idx + 1], &seq[idx + 2], placeholder) {
            let mut text = match &seq[idx] {
                Token::Ident { text, .. } => text.clone(),
                _ => String::new(),
            };
            push_decimal(&mut text, n);
            out.push(Token::Ident { text, span: seq[idx].span() });
            proof {
                assert(concat_at(rest, 0, ph));
                assert(rest.subrange(3, rest.len() as int) =~= whole.subrange(idx + 3, whole.len() as int));
                lemma_views_concat(prev, seq![out@.last()]);
                assert(prev.push(out@.last()) =~= out@);
            }
            idx = idx + 3;
        } else {
            let t = match &seq[idx] {
                Token::Group { delimiter, stream, span } => {
                    let inner = substitute(stream, n, placeholder);
                    Token::Group { delimiter: *delimiter, stream: inner, span: *span }
                },
                Token::Ident { text, span } => {
                    if *text == *placeholder {
                        Token::Literal { text: decimal_string(n), span: *span }
                    } else {
                        seq[idx].duplicate()
                    }
                },
                _ => seq[idx].duplicate(),
            };
            proof {
                assert(!concat_at(rest, 0, ph));
                assert(t.view() == subst_token(rest[0], n as int, ph));
                assert(rest.subrange(1, rest.len() as int) =~= whole.subrange(idx + 1, whole.len() as int));
            }
            out.push(t);
            proof {
                lemma_views_concat(prev, seq![t]);
                assert(prev.push(t) =~= out@);
            }
            idx = idx + 1;
        }
    }
    proof {
        assert(whole.subrange(idx as int, whole.len() as int) =~= Seq::<TokenView>::empty());
        assert(views(out@) + Seq::<TokenView>::empty() =~= views(out@));
    }
    out
}

/// Concatenation: an identifier `P`, `#` and the placeholder, written without
/// gaps, become one identifier whose text is `P`'s followed by the digits of
/// `n`; no separate literal is left behind.
pub proof fn lemma_concatenation(p: TokenView, hash: TokenView, name: TokenView, n: int, ph: Seq<char>)
    requires
        concat_triple(p, hash, name, ph),
    ensures
        subst_seq(seq![p, hash, name], n, ph) == seq![
            TokenView::Ident { text: p->Ident_text + decimal(n), span: p.span() },
        ],
{
    let s = seq![p, hash, name];
    assert(concat_at(s, 0, ph));
    assert(s.subrange(3, 3) =~= Seq::<TokenView>::empty());
    assert(subst_seq(s.subrange(3, 3), n, ph) == Seq::<TokenView>::empty());
    assert(subst_seq(s, n, ph) =~= seq![
        TokenView::Ident { text: p->Ident_text + decimal(n), span: p.span() },
    ]);
}

/// Without a concatenation at its top level, substitution keeps the number of
/// tokens.
pub proof fn lemma_subst_len(s: Seq<TokenView>, n: int, ph: Seq<char>)
    requires
        forall|i: int| !concat_at(s, i, ph),
    ensures
        subst_seq(s, n, ph).len() == s.len(),
    decreases s.len(),
{
    if s.len() > 0 {
        let rest = s.subrange(1, s.len() as int);
        assert(!concat_at(s, 0, ph));
        assert forall|i: int| !concat_at(rest, i, ph) by {
            if concat_at(rest, i, ph) {
                assert(concat_at(s, i + 1, ph));
            }
        }
        lemma_subst_len(rest, n, ph);
    }
}

/// Before the first concatenation, substitution rewrites token by token:
/// the first `i` tokens of the output are `subst_token` of the first `i`
/// tokens of `s`.
pub proof fn lemma_subst_prefix(s: Seq<TokenView>, i: int, n: int, ph: Seq<char>)
    requires
        0 <= i <= s.len(),
        forall|j: int| 0 <= j < i ==> !concat_at(s, j, ph),
    ensures
        subst_seq(s, n, ph) == s.subrange(0, i).map_values(|t: TokenView| subst_token(t, n, ph))
            + subst_seq(s.subrange(i, s.len() as int), n, ph),
    decreases i,
{
    let f = |t: TokenView| subst_token(t, n, ph);
    if i == 0 {
        assert(s.subrange(0, 0).map_values(f) =~= Seq::<TokenView>::empty());
        assert(s.subrange(0, s.len() as int) =~= s);
        assert(Seq::<TokenView>::empty() + subst_seq(s, n, ph) =~= subst_seq(s, n, ph));
    } else {
        let rest = s.subrange(1, s.len() as int);
        assert forall|j: int| 0 <= j < i - 1 implies !concat_at(rest, j, ph) by {
            if concat_at(rest, j, ph) {
                assert(concat_at(s, j + 1, ph));
            }
        }
        lemma_subst_prefix(rest, i - 1, n, ph);
        assert(!concat_at(s, 0, ph));
        assert(rest.subrange(i - 1, rest.len() as int) =~= s.subrange(i, s.len() as int));
        assert(seq![subst_token(s[0], n, ph)] + rest.subrange(0, i - 1).map_values(f)
            =~= s.subrange(0, i).map_values(f));
        assert(subst_seq(s, n, ph) == seq![subst_token(s[0], n, ph)] + subst_seq(rest, n, ph));
        assert(subst_seq(s, n, ph) =~= s.subrange(0, i).map_values(f) + subst_seq(
            s.subrange(i, s.len() as int),
            n,
            ph,
        ));
    }
}

/// Concatenation at any position: when `P # N` starts at `i` and no
/// concatenation comes before it, the output holds at `i` the one identifier
/// `P` followed by the digits of `n`, and then the substitution of what
/// follows the three tokens.
pub proof fn lemma_concatenation_at(s: Seq<TokenView>, i: int, n: int, ph: Seq<char>)
    requires
        concat_at(s, i, ph),
        forall|j: int| 0 <= j < i ==> !concat_at(s, j, ph),
    ensures
        subst_seq(s, n, ph).subrange(i, subst_seq(s, n, ph).len() as int) == seq![
            TokenView::Ident { text: s[i]->Ident_text + decimal(n), span: s[i].span() },
        ] + subst_seq(s.subrange(i + 3, s.len() as int), n, ph),
{
    lemma_subst_prefix(s, i, n, ph);
    let tail = s.subrange(i, s.len() as int);
    assert(concat_at(tail, 0, ph));
    assert(tail.subrange(3, tail.len() as int) =~= s.subrange(i + 3, s.len() as int));
    let out = subst_seq(s, n, ph);
    assert(out.subrange(i, out.len() as int) =~= subst_seq(tail, n, ph));
}

/// Bare substitution at any position: a placeholder at `i` that no
/// concatenation takes becomes, at `i` of the output, an integer literal
/// holding the digits of `n`, never an identifier.  Inside a group at `i` the
/// same holds one level down, since the group is rebuilt by `subst_seq`.
pub proof fn lemma_bare_placeholder_at(s: Seq<TokenView>, i: int, n: int, ph: Seq<char>)
    requires
        0 <= i < s.len(),
        s[i] matches TokenView::Ident { text, .. } && text == ph,
        forall|j: int| 0 <= j <= i ==> !concat_at(s, j, ph),
    ensures
        subst_seq(s, n, ph)[i] == (TokenView::Literal { text: decimal(n), span: s[i].span() }),
{
    lemma_subst_prefix(s, i + 1, n, ph);
    let head = s.subrange(0, i + 1).map_values(|t: TokenView| subst_token(t, n, ph));
    assert(head[i] == subst_token(s[i], n, ph));
}

} // verus!
