use vstd::prelude::*;
use crate::substitute::{subst_seq, substitute};
use crate::token::{
    copy_range, group_views, lemma_views_concat, lemma_views_subrange, views, Delimiter, Token,
    TokenView,
};

verus! {

broadcast use group_views;

/// The copies of `x` for the indices `start..end`, in increasing order, each
/// with the placeholder replaced by its index.  Empty when `start >= end`.
pub open spec fn repeat(x: Seq<TokenView>, start: int, end: int, ph: Seq<char>) -> Seq<TokenView>
    decreases end - start,
{
    if end <= start {
        Seq::empty()
    } else {
        repeat(x, start, end - 1, ph) + subst_seq(x, end - 1, ph)
    }
}

/// `#`, a parenthesized group, `*`: a marker starts at `i`.
pub open spec fn marker_at(s: Seq<TokenView>, i: int) -> bool {
    &&& 0 <= i && i + 2 < s.len()
    &&& s[i].is_punct('#')
    &&& s[i + 1] matches TokenView::Group { delimiter, .. } && delimiter == Delimiter::Parenthesis
    &&& s[i + 2].is_punct('*')
}

/// Whether a marker stands anywhere in `s`, inside groups too.
pub open spec fn has_marker(s: Seq<TokenView>) -> bool
    decreases s,
{
    if s.len() == 0 {
        false
    } else {
        ||| marker_at(s, 0)
        ||| (s[0] matches TokenView::Group { stream, .. } && has_marker(stream))
        ||| has_marker(s.subrange(1, s.len() as int))
    }
}

/// The first marker of `s` in a left-to-right, depth-first search, replaced
/// by the copies of its inner sequence for `start..end`; every other token is
/// kept once, unchanged.  The flag tells whether a marker was found; when it
/// was not, the sequence comes back as it was.
pub open spec fn locate(s: Seq<TokenView>, start: int, end: int, ph: Seq<char>) -> (Seq<TokenView>, bool)
    decreases s,
{
    if s.len() == 0 {
        (s, false)
    } else if marker_at(s, 0) {
        (repeat(s[1]->Group_stream, start, end, ph) + s.subrange(3, s.len() as int), true)
    } else {
        let rest = s.subrange(1, s.len() as int);
        match s[0] {
            TokenView::Group { delimiter, stream, span } => {
                let inner = locate(stream, start, end, ph);
                if inner.1 {
                    (seq![TokenView::Group { delimiter, stream: inner.0, span }] + rest, true)
                } else {
                    let tail = locate(rest, start, end, ph);
                    (seq![s[0]] + tail.0, tail.1)
                }
            },
            _ => {
                let tail = locate(rest, start, end, ph);
                (seq![s[0]] + tail.0, tail.1)
            },
        }
    }
}

/// Appends `more` to `out`.
fn extend(out: &mut Vec<Token>, more: Vec<Token>)
    ensures
        views(final(out)@) == views(old(out)@) + views(more@),
{
    let mut more = more;
    proof {
        lemma_views_concat(out@, more@);
    }
    out.append(&mut more);
}

/// The copies of `x` for the indices `start..end`, each with the placeholder
/// replaced by its index.
pub fn repeat_substitute(x: &Vec<Token>, start: i64, end: i128, placeholder: &String) -> (r: Vec<
    Token,
>)
    requires
        end <= i64::MAX + 1,
    ensures
        views(r@) == repeat(views(x@), start as int, end as int, placeholder@),
{
    let mut out: Vec<Token> = Vec::new();
    if end <= start as i128 {
        return out;
    }
    let mut i: i128 = start as i128;
    while i < end
        invariant
            start <= i <= end <= i64::MAX + 1,
            views(out@) == repeat(views(x@), start as int, i as int, placeholder@),
        decreases end - i,
    {
        let copy = substitute(x, i as i64, placeholder);
        extend(&mut out, copy);
        i = i + 1;
    }
    out
}

fn is_marker(s: &Vec<Token>, i: usize) -> (r: bool)
    requires
        i < s.len(),
    ensures
        r == marker_at(views(s@), i as int),
{
    if s.len() - i < 3 || !s[i].is_punct('#') || !s[i + 2].is_punct('*') {
        return false;
    }
    match &s[i + 1] {
        Token::Group { delimiter, .. } => *delimiter == Delimiter::Parenthesis,
        _ => false,
    }
}

/// Expands the first marker of `seq`, searching left to right and depth first,
/// and copies every other token once; the flag tells whether a marker was
/// found.
pub fn locate_and_expand(seq: &Vec<Token>, start: i64, end: i128, placeholder: &String) -> (r: (
    Vec<Token>,
    bool,
))
    requires
        end <= i64::MAX + 1,
    ensures
        (views(r.0@), r.1) == locate(views(seq@), start as int, end as int, placeholder@),
    decreases seq,
{
    let ghost whole = views(seq@);
    let ghost ph = placeholder@;
    let ghost len = whole.len() as int;
    let mut out: Vec<Token> = Vec::new();
    let mut idx: usize = 0;
    proof {
        assert(whole.subrange(0, len) =~= whole);
        assert(views(out@) =~= Seq::<TokenView>::empty());
        assert(views(out@) + whole =~= whole);
    }
    while idx < seq.len()
        invariant
            idx <= seq.len(),
            end <= i64::MAX + 1,
            whole == views(seq@),
            len == whole.len(),
            ph == placeholder@,
            ({
                let tail = locate(whole.subrange(idx as int, len), start as int, end as int, ph);
                locate(whole, start as int, end as int, ph) == (views(out@) + tail.0, tail.1)
            }),
        decreases seq.len() - idx,
    {
        let ghost rest = whole.subrange(idx as int, len);
        assert(rest[0] == seq@[idx as int].view());
        proof {
            assert(marker_at(rest, 0) == marker_at(whole, idx as int));
        }
        if is_marker(seq, idx) {
            let x = match &seq[idx + 1] {
                Token::Group { stream, .. } => repeat_substitute(stream, start, end, placeholder),
                _ => Vec::new(),
            };
            extend(&mut out, x);
            let after = copy_range(seq, idx + 3, seq.len());
            proof {
                assert(rest[1] == seq@[idx + 1].view());
                lemma_views_subrange(seq@, idx + 3, seq@.len() as int);
                assert(rest.subrange(3, rest.len() as int) =~= whole.subrange(idx + 3, len));
            }
            extend(&mut out, after);
            proof {
                assert(views(out@) =~= locate(whole, start as int, end as int, ph).0);
            }
            return (out, true);
        }
        let ghost next = whole.subrange(idx + 1, len);
        assert(rest.subrange(1, rest.len() as int) =~= next);
        match &seq[idx] {
            Token::Group { delimiter, stream, span } => {
                let (inner, found) = locate_and_expand(stream, start, end, placeholder);
                if found {
                    out.push(Token::Group { delimiter: *delimiter, stream: inner, span: *span });
                    let after = copy_range(seq, idx + 1, seq.len());
                    proof {
                        lemma_views_subrange(seq@, idx + 1, seq@.len() as int);
                    }
                    extend(&mut out, after);
                    proof {
                        assert(views(out@) =~= locate(whole, start as int, end as int, ph).0);
                    }
                    return (out, true);
                }
                proof {
                    lemma_locate_not_found(views(stream@), start as int, end as int, ph);
                }
                out.push(Token::Group { delimiter: *delimiter, stream: inner, span: *span });
            },
            _ => {
                out.push(seq[idx].duplicate());
            },
        }
        idx = idx + 1;
        proof {
            assert(views(out@) =~= views(out@.subrange(0, out@.len() - 1)).push(out@.last().view()));
        }
    }
    proof {
        assert(whole.subrange(idx as int, len) =~= Seq::<TokenView>::empty());
        assert(views(out@) + Seq::<TokenView>::empty() =~= views(out@));
    }
    (out, false)
}

/// When no marker is found, the sequence comes back unchanged.
pub proof fn lemma_locate_not_found(s: Seq<TokenView>, start: int, end: int, ph: Seq<char>)
    ensures
        !locate(s, start, end, ph).1 ==> locate(s, start, end, ph).0 == s,
    decreases s,
{
    if s.len() > 0 && !marker_at(s, 0) {
        let rest = s.subrange(1, s.len() as int);
        lemma_locate_not_found(rest, start, end, ph);
        if let TokenView::Group { stream, .. } = s[0] {
            lemma_locate_not_found(stream, start, end, ph);
        }
        assert(seq![s[0]] + rest =~= s);
    }
}

/// The search finds a marker exactly when one stands somewhere in `s`.
pub proof fn lemma_locate_found(s: Seq<TokenView>, start: int, end: int, ph: Seq<char>)
    ensures
        locate(s, start, end, ph).1 == has_marker(s),
    decreases s,
{
    if s.len() > 0 && !marker_at(s, 0) {
        lemma_locate_found(s.subrange(1, s.len() as int), start, end, ph);
        if let TokenView::Group { stream, .. } = s[0] {
            lemma_locate_found(stream, start, end, ph);
        }
    }
}

/// The copies for `start..end` number `max(0, end - start)` times `|x|`
/// tokens when substitution keeps the length of `x`.
pub proof fn lemma_repeat_len(x: Seq<TokenView>, start: int, end: int, ph: Seq<char>)
    requires
        forall|i: int| #[trigger] subst_seq(x, i, ph).len() == x.len(),
    ensures
        repeat(x, start, end, ph).len() == if end > start { (end - start) * x.len() } else { 0 },
    decreases end - start,
{
    if end > start {
        lemma_repeat_len(x, start, end - 1, ph);
        assert(subst_seq(x, end - 1, ph).len() == x.len());
        let k = end - start;
        let l = x.len() as int;
        assert(k * l == (k - 1) * l + l) by (nonlinear_arith);
        if end - 1 <= start {
            assert(k == 1);
            assert(repeat(x, start, end - 1, ph).len() == 0);
        }
        assert(repeat(x, start, end, ph) == repeat(x, start, end - 1, ph) + subst_seq(x, end - 1, ph));
    }
}

/// A marker preceded by no other marker: the output is the tokens before it,
/// the copies of its inner sequence `x` for `start..end` in increasing order,
/// and the tokens after it, each of those once and unchanged.
pub proof fn lemma_marker_splice(
    pre: Seq<TokenView>,
    hash: TokenView,
    group: TokenView,
    star: TokenView,
    post: Seq<TokenView>,
    start: int,
    end: int,
    ph: Seq<char>,
)
    requires
        !has_marker(pre),
        hash.is_punct('#'),
        group matches TokenView::Group { delimiter, .. } && delimiter == Delimiter::Parenthesis,
        star.is_punct('*'),
    ensures
        locate(pre + seq![hash, group, star] + post, start, end, ph) == (
            pre + repeat(group->Group_stream, start, end, ph) + post,
            true,
        ),
    decreases pre.len(),
{
    let m = seq![hash, group, star];
    let s = pre + m + post;
    if pre.len() == 0 {
        assert(s =~= m + post);
        assert(marker_at(s, 0));
        assert(s.subrange(3, s.len() as int) =~= post);
        assert(pre + repeat(group->Group_stream, start, end, ph) + post =~= repeat(
            group->Group_stream,
            start,
            end,
            ph,
        ) + post);
    } else {
        let tail = pre.subrange(1, pre.len() as int);
        assert(s[0] == pre[0]);
        if pre.len() >= 3 {
            assert(marker_at(s, 0) == marker_at(pre, 0));
        }
        assert(!marker_at(s, 0));
        assert(!has_marker(tail));
        lemma_marker_splice(tail, hash, group, star, post, start, end, ph);
        assert(s.subrange(1, s.len() as int) =~= tail + m + post);
        if let TokenView::Group { stream, .. } = pre[0] {
            lemma_locate_found(stream, start, end, ph);
        }
        assert(pre + repeat(group->Group_stream, start, end, ph) + post =~= seq![pre[0]] + (tail
            + repeat(group->Group_stream, start, end, ph) + post));
    }
}

/// A marker inside a group preceded by no other marker: only that group is
/// rebuilt, around its own expansion; the tokens around it are kept once,
/// unchanged.
pub proof fn lemma_marker_in_group(
    pre: Seq<TokenView>,
    group: TokenView,
    post: Seq<TokenView>,
    start: int,
    end: int,
    ph: Seq<char>,
)
    requires
        !has_marker(pre),
        group is Group,
        has_marker(group->Group_stream),
        !marker_at(pre + seq![group] + post, pre.len() as int - 2),
        !marker_at(pre + seq![group] + post, pre.len() as int - 1),
        !marker_at(pre + seq![group] + post, pre.len() as int),
    ensures
        locate(pre + seq![group] + post, start, end, ph) == (
            pre + seq![
                TokenView::Group {
                    delimiter: group->Group_delimiter,
                    stream: locate(group->Group_stream, start, end, ph).0,
                    span: group.span(),
                },
            ] + post,
            true,
        ),
    decreases pre.len(),
{
    let s = pre + seq![group] + post;
    let rebuilt = TokenView::Group {
        delimiter: group->Group_delimiter,
        stream: locate(group->Group_stream, start, end, ph).0,
        span: group.span(),
    };
    lemma_locate_found(group->Group_stream, start, end, ph);
    if pre.len() == 0 {
        assert(s =~= seq![group] + post);
        assert(s.subrange(1, s.len() as int) =~= post);
        assert(pre + seq![rebuilt] + post =~= seq![rebuilt] + post);
    } else {
        let tail = pre.subrange(1, pre.len() as int);
        let t = tail + seq![group] + post;
        assert(s.subrange(1, s.len() as int) =~= t);
        assert(s[0] == pre[0]);
        if pre.len() >= 3 {
            assert(marker_at(s, 0) == marker_at(pre, 0));
        }
        assert(!marker_at(s, 0));
        assert(!has_marker(tail));
        assert(forall|k: int| 0 <= k < t.len() ==> t[k] == s[k + 1]);
        assert(!marker_at(t, tail.len() as int - 2) && !marker_at(t, tail.len() as int - 1)
            && !marker_at(t, tail.len() as int)) by {
            assert(marker_at(t, tail.len() as int - 2) ==> marker_at(s, pre.len() as int - 2));
            assert(marker_at(t, tail.len() as int - 1) ==> marker_at(s, pre.len() as int - 1));
            assert(marker_at(t, tail.len() as int) ==> marker_at(s, pre.len() as int));
        }
        lemma_marker_in_group(tail, group, post, start, end, ph);
        if let TokenView::Group { stream, .. } = pre[0] {
            lemma_locate_found(stream, start, end, ph);
        }
        assert(pre + seq![rebuilt] + post =~= seq![pre[0]] + (tail + seq![rebuilt] + post));
    }
}

/// The sequence reached from `s` by entering, in turn, the groups at the
/// positions listed in `path`.
pub open spec fn seq_at(s: Seq<TokenView>, path: Seq<int>) -> Seq<TokenView>
    decreases path.len(),
{
    if path.len() == 0 {
        s
    } else {
        seq_at(s[path[0]]->Group_stream, path.drop_first())
    }
}

/// `s` with the three tokens at `i` of the sequence at `path` replaced by
/// `r`; each enclosing group is rebuilt with its delimiter and span, and every
/// other token is kept as it was.
pub open spec fn splice_at(s: Seq<TokenView>, path: Seq<int>, i: int, r: Seq<TokenView>) -> Seq<
    TokenView,
>
    decreases path.len(),
{
    if path.len() == 0 {
        s.subrange(0, i) + r + s.subrange(i + 3, s.len() as int)
    } else {
        let p = path[0];
        s.subrange(0, p) + seq![
            TokenView::Group {
                delimiter: s[p]->Group_delimiter,
                stream: splice_at(s[p]->Group_stream, path.drop_first(), i, r),
                span: s[p].span(),
            },
        ] + s.subrange(p + 1, s.len() as int)
    }
}

/// A marker stands at `i` of the sequence at `path`, and it is the first one
/// that a left-to-right, depth-first search meets: no marker comes before it
/// at any level, and none takes in one of its enclosing groups.  This holds
/// in particular when it is the only marker of `s`.
pub open spec fn first_marker_at(s: Seq<TokenView>, path: Seq<int>, i: int) -> bool
    decreases path.len(),
{
    if path.len() == 0 {
        marker_at(s, i) && !has_marker(s.subrange(0, i))
    } else {
        let p = path[0];
        &&& 0 <= p < s.len()
        &&& s[p] is Group
        &&& !has_marker(s.subrange(0, p))
        &&& !marker_at(s, p - 2) && !marker_at(s, p - 1) && !marker_at(s, p)
        &&& first_marker_at(s[p]->Group_stream, path.drop_first(), i)
    }
}

/// A marker at any depth, the first one met: the output is `s` with that
/// marker's three tokens replaced, inside the same enclosing groups, by the
/// copies of its inner sequence for `start..end` in increasing order; every
/// other token, at every depth, is kept once and unsubstituted.
pub proof fn lemma_marker_at_depth(
    s: Seq<TokenView>,
    path: Seq<int>,
    i: int,
    start: int,
    end: int,
    ph: Seq<char>,
)
    requires
        first_marker_at(s, path, i),
    ensures
        locate(s, start, end, ph) == (
            splice_at(s, path, i, repeat(seq_at(s, path)[i + 1]->Group_stream, start, end, ph)),
            true,
        ),
    decreases path.len(),
{
    if path.len() == 0 {
        let pre = s.subrange(0, i);
        let post = s.subrange(i + 3, s.len() as int);
        assert(s =~= pre + seq![s[i], s[i + 1], s[i + 2]] + post);
        lemma_marker_splice(pre, s[i], s[i + 1], s[i + 2], post, start, end, ph);
    } else {
        let p = path[0];
        let g = s[p];
        let pre = s.subrange(0, p);
        let post = s.subrange(p + 1, s.len() as int);
        assert(s =~= pre + seq![g] + post);
        lemma_marker_at_depth(g->Group_stream, path.drop_first(), i, start, end, ph);
        lemma_locate_found(g->Group_stream, start, end, ph);
        lemma_marker_in_group(pre, g, post, start, end, ph);
    }
}

} // verus!
