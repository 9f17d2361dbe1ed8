use vstd::prelude::*;

verus! {

/// A position in source text.
#[derive(Clone, Copy, Debug, PartialEq, Eq, Structural)]
pub struct Pos {
    pub line: usize,
    pub column: usize,
}

/// Where a token starts and where it ends.
#[derive(Clone, Copy, Debug, PartialEq, Eq, Structural)]
pub struct Span {
    pub lo: Pos,
    pub hi: Pos,
}

/// The kind of bracket pair that delimits a group.
#[derive(Clone, Copy, Debug, PartialEq, Eq, Structural)]
pub enum Delimiter {
    Parenthesis,
    Bracket,
    Brace,
}

/// A token tree: a leaf token, or a delimited group owning its inner sequence.
#[derive(Debug)]
pub enum Token {
    Ident { text: String, span: Span },
    Punct { ch: char, span: Span },
    Literal { text: String, span: Span },
    Lifetime { text: String, span: Span },
    Group { delimiter: Delimiter, stream: Vec<Token>, span: Span },
}

/// The mathematical model of a token tree.
pub enum TokenView {
    Ident { text: Seq<char>, span: Span },
    Punct { ch: char, span: Span },
    Literal { text: Seq<char>, span: Span },
    Lifetime { text: Seq<char>, span: Span },
    Group { delimiter: Delimiter, stream: Seq<TokenView>, span: Span },
}

impl TokenView {
    pub open spec fn span(self) -> Span {
        match self {
            TokenView::Ident { span, .. } => span,
            TokenView::Punct { span, .. } => span,
            TokenView::Literal { span, .. } => span,
            TokenView::Lifetime { span, .. } => span,
            TokenView::Group { span, .. } => span,
        }
    }

    pub open spec fn is_punct(self, c: char) -> bool {
        self matches TokenView::Punct { ch, .. } && ch == c
    }
}

/// Two spans touch when the first ends exactly where the second starts.
pub open spec fn touching(a: Span, b: Span) -> bool {
    a.hi == b.lo
}

impl Token {
    pub open spec fn view(&self) -> TokenView
        decreases self,
    {
        match self {
            Token::Ident { text, span } => TokenView::Ident { text: text@, span: *span },
            Token::Punct { ch, span } => TokenView::Punct { ch: *ch, span: *span },
            Token::Literal { text, span } => TokenView::Literal { text: text@, span: *span },
            Token::Lifetime { text, span } => TokenView::Lifetime { text: text@, span: *span },
            Token::Group { delimiter, stream, span } => TokenView::Group {
                delimiter: *delimiter,
                stream: views(stream@),
                span: *span,
            },
        }
    }
}

/// The model of a sequence of token trees.
pub open spec fn views(s: Seq<Token>) -> Seq<TokenView>
    decreases s,
{
    if s.len() == 0 {
        Seq::empty()
    } else {
        views(s.subrange(0, s.len() - 1)).push(s[s.len() - 1].view())
    }
}

pub broadcast proof fn lemma_views_len(s: Seq<Token>)
    ensures
        #[trigger] views(s).len() == s.len(),
    decreases s.len(),
{
    if s.len() > 0 {
        lemma_views_len(s.subrange(0, s.len() - 1));
    }
}

pub broadcast proof fn lemma_views_index(s: Seq<Token>, i: int)
    requires
        0 <= i < s.len(),
    ensures
        #[trigger] views(s)[i] == s[i].view(),
    decreases s.len(),
{
    let init = s.subrange(0, s.len() - 1);
    lemma_views_len(init);
    if i < s.len() - 1 {
        lemma_views_index(init, i);
    }
}

pub broadcast group group_views {
    lemma_views_len,
    lemma_views_index,
}

/// The model of a sequence is the model of each of its tokens in turn.
pub proof fn lemma_views_concat(a: Seq<Token>, b: Seq<Token>)
    ensures
        views(a + b) == views(a) + views(b),
{
    broadcast use group_views;

    assert(views(a + b) =~= views(a) + views(b));
}

pub proof fn lemma_views_subrange(s: Seq<Token>, i: int, j: int)
    requires
        0 <= i <= j <= s.len(),
    ensures
        views(s.subrange(i, j)) == views(s).subrange(i, j),
{
    broadcast use group_views;

    assert(views(s.subrange(i, j)) =~= views(s).subrange(i, j));
}

impl Token {
    pub fn span(&self) -> (r: Span)
        ensures
            r == self.view().span(),
    {
        match self {
            Token::Ident { span, .. } => *span,
            Token::Punct { span, .. } => *span,
            Token::Literal { span, .. } => *span,
            Token::Lifetime { span, .. } => *span,
            Token::Group { span, .. } => *span,
        }
    }

    pub fn is_punct(&self, c: char) -> (r: bool)
        ensures
            r == self.view().is_punct(c),
    {
        match self {
            Token::Punct { ch, .. } => *ch == c,
            _ => false,
        }
    }

    /// A deep copy of the tree.
    pub fn duplicate(&self) -> (r: Token)
        ensures
            r.view() == self.view(),
        decreases self,
    {
        match self {
            Token::Ident { text, span } => Token::Ident { text: text.clone(), span: *span },
            Token::Punct { ch, span } => Token::Punct { ch: *ch, span: *span },
            Token::Literal { text, span } => Token::Literal { text: text.clone(), span: *span },
            Token::Lifetime { text, span } => Token::Lifetime { text: text.clone(), span: *span },
            Token::Group { delimiter, stream, span } => {
                let inner = copy_range(stream, 0, stream.len());
                proof {
                    assert(stream@.subrange(0, stream@.len() as int) =~= stream@);
                }
                Token::Group { delimiter: *delimiter, stream: inner, span: *span }
            },
        }
    }
}

/// A deep copy of the tokens `s[from..to]`.
pub fn copy_range(s: &Vec<Token>, from: usize, to: usize) -> (r: Vec<Token>)
    requires
        from <= to <= s.len(),
    ensures
        views(r@) == views(s@.subrange(from as int, to as int)),
    decreases s, 0nat,
{
    broadcast use group_views;

    let mut out: Vec<Token> = Vec::new();
    let mut i: usize = from;
    while i < to
        invariant
            from <= i <= to <= s.len(),
            out@.len() == i - from,
            forall|k: int| 0 <= k < out@.len() ==> (#[trigger] out@[k]).view() == s@[from + k].view(),
        decreases to - i,
    {
        let t = s[i].duplicate();
        out.push(t);
        i = i + 1;
    }
    assert(views(out@) =~= views(s@.subrange(from as int, to as int)));
    out
}

} // verus!
