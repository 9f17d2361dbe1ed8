use vstd::prelude::*;
use vstd::string::StringExecFns;
use crate::token::{copy_range, group_views, touching, views, Delimiter, Span, Token, TokenView};

verus! {

broadcast use group_views;

/// The value of an integer literal as syn reads it, when it fits in an `i64`.
pub uninterp spec fn int_literal_value(text: Seq<char>) -> Option<i64>;

/// Whether syn accepts the text as an identifier that may name a binding.
pub uninterp spec fn accepted_as_ident(text: Seq<char>) -> bool;

/// Relies on `syn::parse_str::<syn::LitInt>` and `syn::LitInt::base10_parse`:
/// the text is read as one integer literal (any base, `_` separators, a
/// suffix, a leading `-`) and its value is taken if it fits in an `i64`.
/// syn's `Lit::new` panics on a literal that it cannot classify; a text of the
/// shape `int_shaped` is always read as an integer or a float literal.
#[verifier::external_body]
fn parse_int_literal(text: &str) -> (r: Option<i64>)
    requires
        int_shaped(text@),
    ensures
        r == int_literal_value(text@),
{
    match syn::parse_str::<syn::LitInt>(text) {
        Ok(lit) => lit.base10_parse::<i64>().ok(),
        Err(_) => None,
    }
}

/// Relies on `syn::parse_str::<syn::Ident>`: whether the text is one
/// identifier other than a keyword or `_`.
#[verifier::external_body]
fn is_accepted_ident(text: &str) -> (r: bool)
    ensures
        r == accepted_as_ident(text@),
{
    syn::parse_str::<syn::Ident>(text).is_ok()
}

/// What an invocation lacked at the point where it went wrong.
#[derive(Clone, Copy, Debug, PartialEq, Eq, Structural)]
pub enum ErrorKind {
    /// The placeholder is not an identifier.
    ExpectedIdent,
    /// The keyword `in` does not follow the placeholder.
    ExpectedIn,
    /// A bound is not an integer literal that fits in an `i64`.
    ExpectedInteger,
    /// `..` or `..=` does not follow the start bound.
    ExpectedDotDot,
    /// The body is not a brace-delimited group.
    ExpectedBraces,
    /// Something follows the body.
    UnexpectedToken,
}

/// A syntax error, anchored at the offending token of the input: `index` is
/// its position, and `span` its span (`None` at the end of the input).
#[derive(Clone, Copy, Debug, PartialEq, Eq, Structural)]
pub struct Diagnostic {
    pub kind: ErrorKind,
    pub index: usize,
    pub span: Option<Span>,
}

/// A parsed invocation: the range is half-open, `start..end`.  The end is
/// one past an `i64` bound, so it may exceed `i64::MAX` by one.
#[derive(Debug)]
pub struct Invocation {
    pub placeholder: String,
    pub start: i64,
    pub end: i128,
    pub body: Vec<Token>,
}

pub struct InvocationView {
    pub placeholder: Seq<char>,
    pub start: int,
    pub end: int,
    pub body: Seq<TokenView>,
}

impl Invocation {
    pub open spec fn view(&self) -> InvocationView {
        InvocationView {
            placeholder: self.placeholder@,
            start: self.start as int,
            end: self.end as int,
            body: views(self.body@),
        }
    }
}

/// A character of an ASCII word: a letter, a digit or `_`.
pub open spec fn is_word_char(c: char) -> bool {
    ('a' <= c && c <= 'z') || ('A' <= c && c <= 'Z') || ('0' <= c && c <= '9') || c == '_'
}

/// A digit followed by word characters.
pub open spec fn digits_shaped(d: Seq<char>) -> bool {
    &&& d.len() > 0
    &&& '0' <= d[0] && d[0] <= '9'
    &&& forall|i: int| 0 <= i < d.len() ==> is_word_char(#[trigger] d[i])
}

/// The shape of the text of an integer literal, possibly negated: every
/// integer literal has it.
pub open spec fn int_shaped(t: Seq<char>) -> bool {
    if t.len() > 0 && t[0] == '-' {
        digits_shaped(t.subrange(1, t.len() as int))
    } else {
        digits_shaped(t)
    }
}

/// A bound at `i`: a literal, or `-` and a literal, whose text has the shape
/// of an integer literal; with that text and the position after the bound.
pub open spec fn bound_token(s: Seq<TokenView>, i: int) -> Option<(Seq<char>, int)> {
    if 0 <= i < s.len() && s[i] is Literal {
        if int_shaped(s[i]->Literal_text) {
            Some((s[i]->Literal_text, i + 1))
        } else {
            None
        }
    } else if 0 <= i && i + 1 < s.len() && s[i].is_punct('-') && s[i + 1] is Literal {
        let t = seq!['-'] + s[i + 1]->Literal_text;
        if int_shaped(t) {
            Some((t, i + 2))
        } else {
            None
        }
    } else {
        None
    }
}

/// The value syn reads from the bound at `i`.
pub open spec fn bound_value(s: Seq<TokenView>, i: int) -> Option<i64> {
    match bound_token(s, i) {
        Some((t, _)) => int_literal_value(t),
        None => None,
    }
}

/// `=` after the `..` at `j`.
pub open spec fn inclusive_at(s: Seq<TokenView>, j: int) -> bool {
    0 <= j && j + 2 < s.len() && s[j + 2].is_punct('=')
}

/// Where the end bound starts, when a start bound and `..` precede it.
pub open spec fn end_bound_pos(s: Seq<TokenView>) -> Option<int> {
    match bound_token(s, 2) {
        Some((_, j)) => if dot_dot_at(s, j) {
            Some(if inclusive_at(s, j) { j + 3 } else { j + 2 })
        } else {
            None
        },
        None => None,
    }
}

/// Two touching `.` at `i`.
pub open spec fn dot_dot_at(s: Seq<TokenView>, i: int) -> bool {
    &&& 0 <= i && i + 1 < s.len()
    &&& s[i].is_punct('.')
    &&& s[i + 1].is_punct('.')
    &&& touching(s[i].span(), s[i + 1].span())
}

pub open spec fn placeholder_token(t: TokenView) -> bool {
    t matches TokenView::Ident { text, .. } && accepted_as_ident(text)
}

pub open spec fn in_token(t: TokenView) -> bool {
    t matches TokenView::Ident { text, .. } && text == keyword_in()
}

pub open spec fn is_brace_group(t: TokenView) -> bool {
    t matches TokenView::Group { delimiter, .. } && delimiter == Delimiter::Brace
}

pub open spec fn keyword_in() -> Seq<char> {
    seq!['i', 'n']
}

/// The grammar `P in A .. B { body }` or `P in A ..= B { body }`, given
/// whether syn accepts the placeholder (`ident_ok`) and the values syn reads
/// from the start and end bounds (`lo`, `hi`).  The inclusive form is
/// normalized to the half-open range `A..B + 1`.  On failure: what was
/// expected, and at which position.
pub open spec fn parse_given_spec(
    s: Seq<TokenView>,
    ident_ok: bool,
    lo: Option<i64>,
    hi: Option<i64>,
) -> Result<InvocationView, (ErrorKind, int)> {
    if !(s.len() > 0 && s[0] is Ident && ident_ok) {
        Err((ErrorKind::ExpectedIdent, 0))
    } else if !(s.len() > 1 && in_token(s[1])) {
        Err((ErrorKind::ExpectedIn, 1))
    } else {
        match (bound_token(s, 2), lo) {
            (Some((_, j)), Some(lo)) => if !dot_dot_at(s, j) {
                Err((ErrorKind::ExpectedDotDot, j))
            } else {
                let inclusive = inclusive_at(s, j);
                let k = if inclusive { j + 3 } else { j + 2 };
                match (bound_token(s, k), hi) {
                    (Some((_, m)), Some(hi)) => if !(m < s.len() && is_brace_group(s[m])) {
                        Err((ErrorKind::ExpectedBraces, m))
                    } else if m + 1 < s.len() {
                        Err((ErrorKind::UnexpectedToken, m + 1))
                    } else {
                        Ok(
                            InvocationView {
                                placeholder: s[0]->Ident_text,
                                start: lo as int,
                                end: if inclusive { hi + 1 } else { hi as int },
                                body: s[m]->Group_stream,
                            },
                        )
                    },
                    _ => Err((ErrorKind::ExpectedInteger, k)),
                }
            },
            _ => Err((ErrorKind::ExpectedInteger, 2)),
        }
    }
}

/// The grammar, with syn's verdict on the placeholder and its reading of the
/// bounds.
pub open spec fn parse_spec(s: Seq<TokenView>) -> Result<InvocationView, (ErrorKind, int)> {
    let ident_ok = s.len() > 0 && placeholder_token(s[0]);
    let hi = match end_bound_pos(s) {
        Some(k) => bound_value(s, k),
        None => None,
    };
    parse_given_spec(s, ident_ok, bound_value(s, 2), hi)
}

/// The span of the token at `i`, or `None` past the end.
pub open spec fn anchor(s: Seq<TokenView>, i: int) -> Option<Span> {
    if 0 <= i < s.len() {
        Some(s[i].span())
    } else {
        None
    }
}

fn error_at(tokens: &Vec<Token>, kind: ErrorKind, index: usize) -> (r: Diagnostic)
    ensures
        r.kind == kind,
        r.index == index,
        r.span == anchor(views(tokens@), index as int),
{
    let span = if index < tokens.len() {
        Some(tokens[index].span())
    } else {
        None
    };
    Diagnostic { kind, index, span }
}

fn is_word_char_exec(c: char) -> (r: bool)
    ensures
        r == is_word_char(c),
{
    ('a' <= c && c <= 'z') || ('A' <= c && c <= 'Z') || ('0' <= c && c <= '9') || c == '_'
}

fn is_int_shaped(t: &str) -> (r: bool)
    ensures
        r == int_shaped(t@),
{
    let len = t.unicode_len();
    let from: usize = if len > 0 && t.get_char(0) == '-' {
        1
    } else {
        0
    };
    let ghost d = t@.subrange(from as int, len as int);
    assert(from == 0 ==> d =~= t@);
    assert(int_shaped(t@) == digits_shaped(d));
    if from >= len {
        return false;
    }
    let first = t.get_char(from);
    assert(d[0] == first);
    if !('0' <= first && first <= '9') {
        return false;
    }
    let mut i: usize = from;
    while i < len
        invariant
            from <= i <= len,
            len == t@.len(),
            d == t@.subrange(from as int, len as int),
            int_shaped(t@) == digits_shaped(d),
            d.len() > 0 && '0' <= d[0] && d[0] <= '9',
            forall|k: int| 0 <= k < i - from ==> is_word_char(#[trigger] d[k]),
        decreases len - i,
    {
        if !is_word_char_exec(t.get_char(i)) {
            assert(!is_word_char(d[i - from]));
            return false;
        }
        i = i + 1;
    }
    true
}

/// The text of the bound at `i` and the position after it.
fn bound_text(tokens: &Vec<Token>, i: usize) -> (r: Option<(String, usize)>)
    ensures
        match r {
            Some((t, j)) => bound_token(views(tokens@), i as int) == Some((t@, j as int)),
            None => bound_token(views(tokens@), i as int) is None,
        },
{
    if i >= tokens.len() {
        return None;
    }
    if let Token::Literal { text, .. } = &tokens[i] {
        return if is_int_shaped(text.as_str()) {
            Some((text.clone(), i + 1))
        } else {
            None
        };
    }
    if tokens.len() - i < 2 || !tokens[i].is_punct('-') {
        return None;
    }
    if let Token::Literal { text, .. } = &tokens[i + 1] {
        proof {
            reveal_strlit("-");
        }
        let mut negative = String::from_str("-");
        negative.append(text.as_str());
        assert(negative@ =~= seq!['-'] + text@);
        if is_int_shaped(negative.as_str()) {
            Some((negative, i + 2))
        } else {
            None
        }
    } else {
        None
    }
}

fn bound_value_at(tokens: &Vec<Token>, i: usize) -> (r: Option<i64>)
    ensures
        r == bound_value(views(tokens@), i as int),
{
    match bound_text(tokens, i) {
        Some((t, _)) => parse_int_literal(t.as_str()),
        None => None,
    }
}

fn end_bound_position(tokens: &Vec<Token>) -> (r: Option<usize>)
    ensures
        match r {
            Some(k) => end_bound_pos(views(tokens@)) == Some(k as int),
            None => end_bound_pos(views(tokens@)) is None,
        },
{
    match bound_text(tokens, 2) {
        Some((_, j)) => if is_dot_dot(tokens, j) {
            if is_inclusive(tokens, j) {
                Some(j + 3)
            } else {
                Some(j + 2)
            }
        } else {
            None
        },
        None => None,
    }
}

fn is_inclusive(tokens: &Vec<Token>, j: usize) -> (r: bool)
    ensures
        r == inclusive_at(views(tokens@), j as int),
{
    j < tokens.len() && tokens.len() - j > 2 && tokens[j + 2].is_punct('=')
}

fn is_dot_dot(tokens: &Vec<Token>, i: usize) -> (r: bool)
    ensures
        r == dot_dot_at(views(tokens@), i as int),
{
    i < tokens.len() && tokens.len() - i >= 2 && tokens[i].is_punct('.') && tokens[i + 1].is_punct(
        '.',
    ) && tokens[i].span().hi == tokens[i + 1].span().lo
}

/// The words that describe each kind of syntax error.
pub open spec fn message_text(kind: ErrorKind) -> Seq<char> {
    match kind {
        ErrorKind::ExpectedIdent => "expected identifier"@,
        ErrorKind::ExpectedIn => "expected `in`"@,
        ErrorKind::ExpectedInteger => "expected integer literal"@,
        ErrorKind::ExpectedDotDot => "expected `..`"@,
        ErrorKind::ExpectedBraces => "expected curly braces"@,
        ErrorKind::UnexpectedToken => "unexpected token"@,
    }
}

impl Diagnostic {
    /// What was expected, in words.
    pub fn message(&self) -> (r: &'static str)
        ensures
            r@ == message_text(self.kind),
    {
        match self.kind {
            ErrorKind::ExpectedIdent => "expected identifier",
            ErrorKind::ExpectedIn => "expected `in`",
            ErrorKind::ExpectedInteger => "expected integer literal",
            ErrorKind::ExpectedDotDot => "expected `..`",
            ErrorKind::ExpectedBraces => "expected curly braces",
            ErrorKind::UnexpectedToken => "unexpected token",
        }
    }
}

impl Invocation {
    /// Reads `P in A .. B { body }` (or `..=`) from the tokens of an
    /// invocation, given whether the placeholder is accepted as an identifier
    /// (`ident_ok`) and the values of the start and end bounds (`lo`, `hi`).
    pub fn parse_given(tokens: &Vec<Token>, ident_ok: bool, lo: Option<i64>, hi: Option<i64>) -> (r:
        Result<Invocation, Diagnostic>)
        ensures
            match parse_given_spec(views(tokens@), ident_ok, lo, hi) {
                Ok(v) => r matches Ok(inv) && inv.view() == v && inv.end <= i64::MAX + 1,
                Err((kind, index)) => r matches Err(d) && d.kind == kind && d.index == index
                    && d.span == anchor(views(tokens@), index),
            },
    {
        let ghost s = views(tokens@);
        if tokens.len() > 0 {
            assert(s[0] == tokens@[0].view());
        }
        let placeholder = match tokens.first() {
            Some(Token::Ident { text, .. }) => {
                if !ident_ok {
                    return Err(error_at(tokens, ErrorKind::ExpectedIdent, 0));
                }
                text.clone()
            },
            _ => {
                return Err(error_at(tokens, ErrorKind::ExpectedIdent, 0));
            },
        };
        proof {
            reveal_strlit("in");
        }
        let keyword = String::from_str("in");
        assert(keyword@ =~= keyword_in());
        if tokens.len() > 1 {
            assert(s[1] == tokens@[1].view());
        }
        let has_in = tokens.len() > 1 && match &tokens[1] {
            Token::Ident { text, .. } => *text == keyword,
            _ => false,
        };
        if !has_in {
            return Err(error_at(tokens, ErrorKind::ExpectedIn, 1));
        }
        let (start, j) = match (bound_text(tokens, 2), lo) {
            (Some((_, j)), Some(v)) => (v, j),
            _ => {
                return Err(error_at(tokens, ErrorKind::ExpectedInteger, 2));
            },
        };
        if !is_dot_dot(tokens, j) {
            return Err(error_at(tokens, ErrorKind::ExpectedDotDot, j));
        }
        let inclusive = is_inclusive(tokens, j);
        let k = if inclusive {
            j + 3
        } else {
            j + 2
        };
        let (last, m) = match (bound_text(tokens, k), hi) {
            (Some((_, m)), Some(v)) => (v, m),
            _ => {
                return Err(error_at(tokens, ErrorKind::ExpectedInteger, k));
            },
        };
        let body = if m < tokens.len() {
            assert(s[m as int] == tokens@[m as int].view());
            match &tokens[m] {
                Token::Group { delimiter: Delimiter::Brace, stream, .. } => {
                    let copied = copy_range(stream, 0, stream.len());
                    proof {
                        assert(stream@.subrange(0, stream@.len() as int) =~= stream@);
                    }
                    Some(copied)
                },
                _ => None,
            }
        } else {
            None
        };
        let body = match body {
            Some(b) => b,
            None => {
                return Err(error_at(tokens, ErrorKind::ExpectedBraces, m));
            },
        };
        if tokens.len() - m > 1 {
            return Err(error_at(tokens, ErrorKind::UnexpectedToken, m + 1));
        }
        let end: i128 = if inclusive {
            last as i128 + 1
        } else {
            last as i128
        };
        Ok(Invocation { placeholder, start, end, body })
    }

    /// Reads `P in A .. B { body }` (or `..=`) from the tokens of an
    /// invocation: syn decides whether the placeholder is an identifier and
    /// reads the values of the bounds.
    pub fn parse(tokens: &Vec<Token>) -> (r: Result<Invocation, Diagnostic>)
        ensures
            match parse_spec(views(tokens@)) {
                Ok(v) => r matches Ok(inv) && inv.view() == v && inv.end <= i64::MAX + 1,
                Err((kind, index)) => r matches Err(d) && d.kind == kind && d.index == index
                    && d.span == anchor(views(tokens@), index),
            },
    {
        let ghost s = views(tokens@);
        if tokens.len() > 0 {
            assert(s[0] == tokens@[0].view());
        }
        let ident_ok = match tokens.first() {
            Some(Token::Ident { text, .. }) => is_accepted_ident(text.as_str()),
            _ => false,
        };
        let lo = bound_value_at(tokens, 2);
        let hi = match end_bound_position(tokens) {
            Some(k) => bound_value_at(tokens, k),
            None => None,
        };
        Invocation::parse_given(tokens, ident_ok, lo, hi)
    }
}

} // verus!
