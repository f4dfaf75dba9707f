//! The lexer: source text → tokens, each with a `(line, column)` span.
//!
//! `Int` and `Type` lex as keywords; everything else that starts an
//! identifier is a name.  `<` `>` and `struct { }` build type-level forms
//! (the array type `Int<3>`, the tuple type `<Int, Type>`, the struct type
//! `struct { Int, Type }`); `[` `]` and `(` `)` stay value-level.  `;`
//! separates statements, `=` binds a name (`a = [1, 2]`); `=>` is still the
//! lambda.  `--` starts a line comment.  Any other character is a lex error
//! — the first one stops the pipeline.
//!
//! Lines and columns are 1-based; a column counts the UTF-8 bytes of the
//! line before the token (every token character is ASCII, so only a comment
//! can hold a wider character).

use vstd::prelude::*;

use vstd::string::StringSliceAdditionalSpecFns;

use crate::diag::{Diag, DiagView, Stage};
use crate::ir::Span;

verus! {

// ---------------------------------------------------------------------------
// Tokens

#[derive(Clone, Debug, PartialEq, Eq)]
pub enum TokenKind {
    /// An integer literal.
    Int(usize),
    /// An identifier, never `Int`/`Type` (those are keywords).
    Name(String),
    /// The `Int` type constant.
    KwInt,
    /// The `Type` type constant — the universe.
    KwType,
    /// The `struct` keyword — a nominal struct type.
    KwStruct,
    /// `->` — a function type.
    Arrow,
    /// `=>` — a lambda.
    FatArrow,
    /// `:` — an annotation.
    Colon,
    /// `=` — a statement binding.
    Equals,
    /// `;` — the statement separator.
    Semicolon,
    Comma,
    LParen,
    RParen,
    LBracket,
    RBracket,
    /// `<` — the array-type postfix after an expression, the tuple-type
    /// prefix at expression start.  Exclusively type-level.
    LAngle,
    /// `>` — closes `<`.
    RAngle,
    /// `{` — opens a struct type's field list.
    LBrace,
    /// `}` — closes `{`.
    RBrace,
    Eof,
}

/// The mathematical content of a [`TokenKind`]: a name's text as characters.
pub enum TokenKindView {
    Int(usize),
    Name(Seq<char>),
    KwInt,
    KwType,
    KwStruct,
    Arrow,
    FatArrow,
    Colon,
    Equals,
    Semicolon,
    Comma,
    LParen,
    RParen,
    LBracket,
    RBracket,
    LAngle,
    RAngle,
    LBrace,
    RBrace,
    Eof,
}

impl View for TokenKind {
    type V = TokenKindView;

    open spec fn view(&self) -> TokenKindView {
        match self {
            TokenKind::Int(n) => TokenKindView::Int(*n),
            TokenKind::Name(s) => TokenKindView::Name(s@),
            TokenKind::KwInt => TokenKindView::KwInt,
            TokenKind::KwType => TokenKindView::KwType,
            TokenKind::KwStruct => TokenKindView::KwStruct,
            TokenKind::Arrow => TokenKindView::Arrow,
            TokenKind::FatArrow => TokenKindView::FatArrow,
            TokenKind::Colon => TokenKindView::Colon,
            TokenKind::Equals => TokenKindView::Equals,
            TokenKind::Semicolon => TokenKindView::Semicolon,
            TokenKind::Comma => TokenKindView::Comma,
            TokenKind::LParen => TokenKindView::LParen,
            TokenKind::RParen => TokenKindView::RParen,
            TokenKind::LBracket => TokenKindView::LBracket,
            TokenKind::RBracket => TokenKindView::RBracket,
            TokenKind::LAngle => TokenKindView::LAngle,
            TokenKind::RAngle => TokenKindView::RAngle,
            TokenKind::LBrace => TokenKindView::LBrace,
            TokenKind::RBrace => TokenKindView::RBrace,
            TokenKind::Eof => TokenKindView::Eof,
        }
    }
}

/// The human-readable spelling of a token kind used in parse-error messages.
pub open spec fn description(kind: TokenKindView) -> Seq<char> {
    match kind {
        TokenKindView::Int(_) => "an integer literal"@,
        TokenKindView::Name(_) => "a name"@,
        TokenKindView::KwInt => "'Int'"@,
        TokenKindView::KwType => "'Type'"@,
        TokenKindView::KwStruct => "'struct'"@,
        TokenKindView::Arrow => "'->'"@,
        TokenKindView::FatArrow => "'=>'"@,
        TokenKindView::Colon => "':'"@,
        TokenKindView::Equals => "'='"@,
        TokenKindView::Semicolon => "';'"@,
        TokenKindView::Comma => "','"@,
        TokenKindView::LParen => "'('"@,
        TokenKindView::RParen => "')'"@,
        TokenKindView::LBracket => "'['"@,
        TokenKindView::RBracket => "']'"@,
        TokenKindView::LAngle => "'<'"@,
        TokenKindView::RAngle => "'>'"@,
        TokenKindView::LBrace => "'{'"@,
        TokenKindView::RBrace => "'}'"@,
        TokenKindView::Eof => "the end of the program"@,
    }
}

impl TokenKind {
    /// The human-readable spelling used in parse-error messages.
    pub fn describe(&self) -> (s: String)
        ensures
            s@ == description(self@),
    {
        match self {
            TokenKind::Int(_) => String::from_str("an integer literal"),
            TokenKind::Name(_) => String::from_str("a name"),
            TokenKind::KwInt => String::from_str("'Int'"),
            TokenKind::KwType => String::from_str("'Type'"),
            TokenKind::KwStruct => String::from_str("'struct'"),
            TokenKind::Arrow => String::from_str("'->'"),
            TokenKind::FatArrow => String::from_str("'=>'"),
            TokenKind::Colon => String::from_str("':'"),
            TokenKind::Equals => String::from_str("'='"),
            TokenKind::Semicolon => String::from_str("';'"),
            TokenKind::Comma => String::from_str("','"),
            TokenKind::LParen => String::from_str("'('"),
            TokenKind::RParen => String::from_str("')'"),
            TokenKind::LBracket => String::from_str("'['"),
            TokenKind::RBracket => String::from_str("']'"),
            TokenKind::LAngle => String::from_str("'<'"),
            TokenKind::RAngle => String::from_str("'>'"),
            TokenKind::LBrace => String::from_str("'{'"),
            TokenKind::RBrace => String::from_str("'}'"),
            TokenKind::Eof => String::from_str("the end of the program"),
        }
    }
}

#[derive(Debug)]
pub struct Token {
    pub kind: TokenKind,
    /// `(line, column)`, 1-based.
    pub span: Span,
}

impl Clone for Token {
    fn clone(&self) -> (t: Token)
        ensures
            t.span == self.span,
    {
        Token { kind: self.kind.clone(), span: (self.span.0, self.span.1) }
    }
}

/// The mathematical content of a [`Token`].
pub struct TokenView {
    pub kind: TokenKindView,
    pub span: Span,
}

impl View for Token {
    type V = TokenView;

    open spec fn view(&self) -> TokenView {
        TokenView { kind: self.kind@, span: self.span }
    }
}

/// The views of a token sequence.
pub open spec fn tokens_view(tokens: Seq<Token>) -> Seq<TokenView> {
    tokens.map_values(|t: Token| t@)
}

// ---------------------------------------------------------------------------
// The lexical grammar, as specification

pub open spec fn is_digit(c: char) -> bool {
    48 <= (c as u32) <= 57
}

pub open spec fn is_alpha(c: char) -> bool {
    (65 <= (c as u32) <= 90) || (97 <= (c as u32) <= 122)
}

/// A character that can start a name: an ASCII letter or `_`.
pub open spec fn is_name_start(c: char) -> bool {
    is_alpha(c) || c == '_'
}

/// A character that can continue a name: an ASCII letter, digit, or `_`.
pub open spec fn is_name_char(c: char) -> bool {
    is_name_start(c) || is_digit(c)
}

/// The number of UTF-8 bytes that encode `c`.
pub open spec fn char_width(c: char) -> int {
    if (c as u32) < 0x80 {
        1
    } else if (c as u32) < 0x800 {
        2
    } else if (c as u32) < 0x10000 {
        3
    } else {
        4
    }
}

/// The number of UTF-8 bytes that encode `s`.
pub open spec fn text_width(s: Seq<char>) -> int
    decreases s.len(),
{
    if s.len() == 0 {
        0
    } else {
        char_width(s[0]) + text_width(s.drop_first())
    }
}

/// Skip whitespace and `--` line comments from `pos`: the position, line and
/// column of the first character that is neither.  `in_comment` is set while
/// inside a comment (which runs up to, not including, the next newline).
pub open spec fn skip_trivia(cs: Seq<char>, pos: int, line: int, col: int, in_comment: bool) -> (
    int,
    int,
    int,
)
    decreases cs.len() - pos, if in_comment {
        1int
    } else {
        0int
    },
{
    if pos < 0 || pos >= cs.len() {
        (pos, line, col)
    } else if in_comment {
        if cs[pos] == '\n' {
            skip_trivia(cs, pos, line, col, false)
        } else {
            skip_trivia(cs, pos + 1, line, col + char_width(cs[pos]), true)
        }
    } else if cs[pos] == ' ' || cs[pos] == '\t' || cs[pos] == '\r' {
        skip_trivia(cs, pos + 1, line, col + 1, false)
    } else if cs[pos] == '\n' {
        skip_trivia(cs, pos + 1, line + 1, 1, false)
    } else if cs[pos] == '-' && pos + 1 < cs.len() && cs[pos + 1] == '-' {
        skip_trivia(cs, pos + 1, line, col + 1, true)
    } else {
        (pos, line, col)
    }
}

/// The length of the run of digits starting at `pos`.
pub open spec fn digit_run(cs: Seq<char>, pos: int) -> nat
    decreases cs.len() - pos,
{
    if 0 <= pos < cs.len() && is_digit(cs[pos]) {
        1 + digit_run(cs, pos + 1)
    } else {
        0
    }
}

/// The length of the run of name characters starting at `pos`.
pub open spec fn name_run(cs: Seq<char>, pos: int) -> nat
    decreases cs.len() - pos,
{
    if 0 <= pos < cs.len() && is_name_char(cs[pos]) {
        1 + name_run(cs, pos + 1)
    } else {
        0
    }
}

pub open spec fn digit_value(c: char) -> nat {
    ((c as u32) - 48) as nat
}

/// The decimal value of a digit string.
pub open spec fn digits_value(s: Seq<char>) -> nat
    decreases s.len(),
{
    if s.len() == 0 {
        0
    } else {
        digits_value(s.drop_last()) * 10 + digit_value(s.last())
    }
}

/// A name's token: the keywords `Int`, `Type`, `struct`, else a name.
pub open spec fn keyword_or_name(text: Seq<char>) -> TokenKindView {
    if text == "Int"@ {
        TokenKindView::KwInt
    } else if text == "Type"@ {
        TokenKindView::KwType
    } else if text == "struct"@ {
        TokenKindView::KwStruct
    } else {
        TokenKindView::Name(text)
    }
}

pub open spec fn unexpected_message(c: char) -> Seq<char> {
    "unexpected character '"@ + seq![c] + "'"@
}

pub open spec fn out_of_range_message() -> Seq<char> {
    "integer literal out of range"@
}

/// What the token starting at `pos` is: its kind and its length in
/// characters, or the message of the lex error it raises.
pub enum Scan {
    Token(TokenKindView, nat),
    Fail(Seq<char>),
}

pub open spec fn single_char_token(c: char) -> Option<TokenKindView> {
    if c == '(' {
        Some(TokenKindView::LParen)
    } else if c == ')' {
        Some(TokenKindView::RParen)
    } else if c == '[' {
        Some(TokenKindView::LBracket)
    } else if c == ']' {
        Some(TokenKindView::RBracket)
    } else if c == '<' {
        Some(TokenKindView::LAngle)
    } else if c == '>' {
        Some(TokenKindView::RAngle)
    } else if c == '{' {
        Some(TokenKindView::LBrace)
    } else if c == '}' {
        Some(TokenKindView::RBrace)
    } else if c == ',' {
        Some(TokenKindView::Comma)
    } else if c == ':' {
        Some(TokenKindView::Colon)
    } else if c == ';' {
        Some(TokenKindView::Semicolon)
    } else {
        None
    }
}

pub open spec fn scan_token(cs: Seq<char>, pos: int) -> Scan {
    let c = cs[pos];
    if is_digit(c) {
        let n = digit_run(cs, pos);
        let v = digits_value(cs.subrange(pos, pos + n));
        if v > usize::MAX {
            Scan::Fail(out_of_range_message())
        } else {
            Scan::Token(TokenKindView::Int(v as usize), n)
        }
    } else if is_name_start(c) {
        let n = name_run(cs, pos);
        Scan::Token(keyword_or_name(cs.subrange(pos, pos + n)), n)
    } else if single_char_token(c) is Some {
        Scan::Token(single_char_token(c)->0, 1)
    } else if c == '-' && pos + 1 < cs.len() && cs[pos + 1] == '>' {
        Scan::Token(TokenKindView::Arrow, 2)
    } else if c == '=' && pos + 1 < cs.len() && cs[pos + 1] == '>' {
        Scan::Token(TokenKindView::FatArrow, 2)
    } else if c == '=' {
        Scan::Token(TokenKindView::Equals, 1)
    } else {
        Scan::Fail(unexpected_message(c))
    }
}

pub open spec fn lex_error(line: int, col: int, message: Seq<char>) -> DiagView {
    DiagView { stage: Stage::Lex, span: Some((line as u32, col as u32)), message }
}

/// Put `prefix` in front of the tokens of a successful lex; an error stays.
pub open spec fn prepend(prefix: Seq<TokenView>, rest: Result<Seq<TokenView>, DiagView>) -> Result<
    Seq<TokenView>,
    DiagView,
> {
    match rest {
        Ok(tokens) => Ok(prefix + tokens),
        Err(d) => Err(d),
    }
}

proof fn lemma_prepend_assoc(a: Seq<TokenView>, b: Seq<TokenView>, rest: Result<Seq<TokenView>, DiagView>)
    ensures
        prepend(a, prepend(b, rest)) == prepend(a + b, rest),
{
    if let Ok(tokens) = rest {
        assert(a + (b + tokens) =~= (a + b) + tokens);
    }
}

/// Lex `cs` from `pos`, at `(line, col)`: the tokens up to and including the
/// final `Eof`, or the first lex error.
pub open spec fn lex_from(cs: Seq<char>, pos: int, line: int, col: int) -> Result<
    Seq<TokenView>,
    DiagView,
>
    decreases cs.len() - pos,
{
    let (p, l, c) = skip_trivia(cs, pos, line, col, false);
    if p < pos || p >= cs.len() {
        Ok(seq![TokenView { kind: TokenKindView::Eof, span: (l as u32, c as u32) }])
    } else {
        match scan_token(cs, p) {
            Scan::Fail(message) => Err(lex_error(l, c, message)),
            Scan::Token(kind, n) => {
                if n == 0 || p + n > cs.len() {
                    Ok(seq![TokenView { kind: TokenKindView::Eof, span: (l as u32, c as u32) }])
                } else {
                    prepend(
                        seq![TokenView { kind, span: (l as u32, c as u32) }],
                        lex_from(cs, p + n, l, c + n),
                    )
                }
            },
        }
    }
}

/// The tokens of a whole source text, or its first lex error.
pub open spec fn spec_lex(cs: Seq<char>) -> Result<Seq<TokenView>, DiagView> {
    lex_from(cs, 0, 1, 1)
}


// ---------------------------------------------------------------------------
// Facts about the grammar

pub(crate) proof fn lemma_char_width_bounds(c: char)
    ensures
        1 <= char_width(c) <= 4,
{
}

pub(crate) proof fn lemma_text_width_concat(a: Seq<char>, b: Seq<char>)
    ensures
        text_width(a + b) == text_width(a) + text_width(b),
    decreases a.len(),
{
    if a.len() == 0 {
        assert(a + b =~= b);
    } else {
        assert((a + b).drop_first() =~= a.drop_first() + b);
        lemma_text_width_concat(a.drop_first(), b);
    }
}

pub(crate) proof fn lemma_text_width_nonneg(s: Seq<char>)
    ensures
        text_width(s) >= 0,
    decreases s.len(),
{
    if s.len() > 0 {
        lemma_text_width_nonneg(s.drop_first());
    }
}

/// Taking one more character adds its width.
pub(crate) proof fn lemma_text_width_step(s: Seq<char>, k: int)
    requires
        0 <= k < s.len(),
    ensures
        text_width(s.take(k + 1)) == text_width(s.take(k)) + char_width(s[k]),
        text_width(s.take(k)) <= text_width(s.take(k + 1)),
{
    assert(s.take(k + 1) =~= s.take(k) + seq![s[k]]);
    lemma_text_width_concat(s.take(k), seq![s[k]]);
    assert(seq![s[k]].drop_first() =~= Seq::<char>::empty());
    assert(text_width(Seq::<char>::empty()) == 0);
    assert(text_width(seq![s[k]]) == char_width(s[k]));
    lemma_char_width_bounds(s[k]);
}

/// A prefix is no wider than the whole.
pub(crate) proof fn lemma_text_width_prefix(s: Seq<char>, k: int)
    requires
        0 <= k <= s.len(),
    ensures
        text_width(s.take(k)) <= text_width(s),
{
    assert(s =~= s.take(k) + s.skip(k));
    lemma_text_width_concat(s.take(k), s.skip(k));
    lemma_text_width_nonneg(s.skip(k));
}

/// The width of a text is the length of its UTF-8 encoding.
pub(crate) proof fn lemma_text_width_utf8(s: Seq<char>)
    ensures
        text_width(s) == vstd::utf8::encode_utf8(s).len(),
    decreases s.len(),
{
    if s.len() > 0 {
        vstd::utf8::char_is_scalar(s[0]);
        lemma_text_width_utf8(s.drop_first());
    }
}

proof fn lemma_skip_trivia_bounds(cs: Seq<char>, pos: int, line: int, col: int, in_comment: bool)
    requires
        0 <= pos <= cs.len(),
    ensures
        ({
            let (p, l, c) = skip_trivia(cs, pos, line, col, in_comment);
            &&& pos <= p <= cs.len()
            &&& line <= l
            &&& l == line ==> col <= c
        }),
    decreases cs.len() - pos, if in_comment {
        1int
    } else {
        0int
    },
{
    if pos >= cs.len() {
    } else if in_comment {
        if cs[pos] == '\n' {
            lemma_skip_trivia_bounds(cs, pos, line, col, false);
        } else {
            lemma_char_width_bounds(cs[pos]);
            lemma_skip_trivia_bounds(cs, pos + 1, line, col + char_width(cs[pos]), true);
        }
    } else if cs[pos] == ' ' || cs[pos] == '\t' || cs[pos] == '\r' {
        lemma_skip_trivia_bounds(cs, pos + 1, line, col + 1, false);
    } else if cs[pos] == '\n' {
        lemma_skip_trivia_bounds(cs, pos + 1, line + 1, 1, false);
    } else if cs[pos] == '-' && pos + 1 < cs.len() && cs[pos + 1] == '-' {
        lemma_skip_trivia_bounds(cs, pos + 1, line, col + 1, true);
    }
}

proof fn lemma_digit_run(cs: Seq<char>, pos: int)
    requires
        0 <= pos <= cs.len(),
    ensures
        pos + digit_run(cs, pos) <= cs.len(),
        forall|i: int| pos <= i < pos + digit_run(cs, pos) ==> is_digit(#[trigger] cs[i]),
        pos < cs.len() && is_digit(cs[pos]) ==> digit_run(cs, pos) >= 1,
        pos + digit_run(cs, pos) < cs.len() ==> !is_digit(cs[pos + digit_run(cs, pos)]),
    decreases cs.len() - pos,
{
    if pos < cs.len() && is_digit(cs[pos]) {
        lemma_digit_run(cs, pos + 1);
    }
}

proof fn lemma_name_run(cs: Seq<char>, pos: int)
    requires
        0 <= pos <= cs.len(),
    ensures
        pos + name_run(cs, pos) <= cs.len(),
        forall|i: int| pos <= i < pos + name_run(cs, pos) ==> is_name_char(#[trigger] cs[i]),
        pos < cs.len() && is_name_char(cs[pos]) ==> name_run(cs, pos) >= 1,
        pos + name_run(cs, pos) < cs.len() ==> !is_name_char(cs[pos + name_run(cs, pos)]),
    decreases cs.len() - pos,
{
    if pos < cs.len() && is_name_char(cs[pos]) {
        lemma_name_run(cs, pos + 1);
    }
}

/// A scanned token is at least one character long and lies within the text.
proof fn lemma_scan_bounds(cs: Seq<char>, pos: int)
    requires
        0 <= pos < cs.len(),
    ensures
        scan_token(cs, pos) matches Scan::Token(_, n) ==> 1 <= n && pos + n <= cs.len(),
{
    lemma_digit_run(cs, pos);
    lemma_name_run(cs, pos);
}

/// Extending a digit string never lowers its value.
proof fn lemma_digits_value_prefix(s: Seq<char>, k: int)
    requires
        0 <= k <= s.len(),
    ensures
        digits_value(s.take(k)) <= digits_value(s),
    decreases s.len() - k,
{
    if k < s.len() {
        lemma_digits_value_prefix(s, k + 1);
        assert(s.take(k + 1).drop_last() =~= s.take(k));
    } else {
        assert(s.take(k) =~= s);
    }
}


// ---------------------------------------------------------------------------
// The lexer

fn is_digit_char(c: char) -> (b: bool)
    ensures
        b == is_digit(c),
{
    let u = c as u32;
    48 <= u && u <= 57
}

fn is_name_start_char(c: char) -> (b: bool)
    ensures
        b == is_name_start(c),
{
    let u = c as u32;
    (65 <= u && u <= 90) || (97 <= u && u <= 122) || c == '_'
}

fn is_name_continue_char(c: char) -> (b: bool)
    ensures
        b == is_name_char(c),
{
    is_name_start_char(c) || is_digit_char(c)
}

fn char_width_of(c: char) -> (w: u32)
    ensures
        w == char_width(c),
{
    let u = c as u32;
    if u < 0x80 {
        1
    } else if u < 0x800 {
        2
    } else if u < 0x10000 {
        3
    } else {
        4
    }
}

/// The characters of `source`, in order.
pub(crate) fn chars_of(source: &str) -> (v: Vec<char>)
    ensures
        v@ == source@,
{
    broadcast use vstd::string::axiom_spec_iter;

    let mut v: Vec<char> = Vec::new();
    for c in it: source.chars()
        invariant
            it.seq() == source@,
            v@ == source@.take(it.index() as int),
    {
        v.push(c);
    }
    assert(v@ =~= source@);
    v
}

/// The byte offsets just past each newline of `cs`, in order.
pub open spec fn line_ends(cs: Seq<char>) -> Seq<usize>
    decreases cs.len(),
{
    if cs.len() == 0 {
        Seq::empty()
    } else if cs.last() == '\n' {
        line_ends(cs.drop_last()).push(text_width(cs) as usize)
    } else {
        line_ends(cs.drop_last())
    }
}

/// The byte offset at which each line of `cs` starts: 0, then just past each
/// newline.
pub open spec fn line_table(cs: Seq<char>) -> Seq<usize> {
    seq![0usize] + line_ends(cs)
}

/// The byte offsets at which the lines of `source` start.
pub fn line_starts(source: &str) -> (r: Vec<usize>)
    requires
        source.spec_bytes().len() <= usize::MAX,
    ensures
        r@ == line_table(source@),
{
    proof {
        lemma_text_width_utf8(source@);
    }
    let cs = chars_of(source);
    let mut starts: Vec<usize> = Vec::new();
    starts.push(0);
    let mut byte: usize = 0;
    let mut i: usize = 0;
    assert(cs@.take(0) =~= Seq::<char>::empty());
    while i < cs.len()
        invariant
            i <= cs@.len(),
            text_width(cs@) <= usize::MAX,
            byte == text_width(cs@.take(i as int)),
            starts@ == seq![0usize] + line_ends(cs@.take(i as int)),
        decreases cs@.len() - i,
    {
        proof {
            lemma_text_width_step(cs@, i as int);
            lemma_text_width_prefix(cs@, i + 1);
            assert(cs@.take(i + 1).drop_last() =~= cs@.take(i as int));
        }
        byte = byte + char_width_of(cs[i]) as usize;
        if cs[i] == '\n' {
            starts.push(byte);
        }
        i += 1;
    }
    assert(cs@.take(i as int) =~= cs@);
    starts
}

struct Lexer<'a> {
    source: &'a str,
    chars: Vec<char>,
    pos: usize,
    line: u32,
    col: u32,
    tokens: Vec<Token>,
}

impl Lexer<'_> {
    /// The lexer's position invariant: the line and column never outrun the
    /// bytes consumed so far, and the whole text fits a `u32` column.
    spec fn wf(&self) -> bool {
        &&& self.chars@ == self.source@
        &&& self.pos <= self.chars@.len()
        &&& self.chars@.len() <= usize::MAX
        &&& text_width(self.chars@) < u32::MAX
        &&& 1 <= self.line <= 1 + text_width(self.chars@.take(self.pos as int))
        &&& 1 <= self.col <= 1 + text_width(self.chars@.take(self.pos as int))
    }

    /// Advance over `len` single-byte characters on the current line.
    fn step(&mut self, len: usize)
        requires
            old(self).wf(),
            old(self).pos + len <= old(self).chars@.len(),
            forall|i: int|
                old(self).pos <= i < old(self).pos + len ==> char_width(
                    #[trigger] old(self).chars@[i],
                ) == 1,
        ensures
            final(self).wf(),
            final(self).source == old(self).source,
            final(self).chars@ == old(self).chars@,
            final(self).tokens@ == old(self).tokens@,
            final(self).line == old(self).line,
            final(self).pos == old(self).pos + len,
            final(self).col == old(self).col + len,
    {
        let start = self.pos;
        let start_col = self.col;
        for i in 0..len
            invariant
                self.wf(),
                self.source == old(self).source,
                self.chars@ == old(self).chars@,
                self.tokens@ == old(self).tokens@,
                self.line == old(self).line,
                start == old(self).pos,
                start_col == old(self).col,
                start + len <= self.chars@.len(),
                forall|j: int|
                    start <= j < start + len ==> char_width(#[trigger] self.chars@[j]) == 1,
                self.pos == start + i,
                self.col == start_col + i,
        {
            proof {
                lemma_text_width_step(self.chars@, self.pos as int);
                lemma_text_width_prefix(self.chars@, self.pos as int + 1);
            }
            self.pos += 1;
            self.col += 1;
        }
    }

    /// Advance over one character of any width (inside a comment).
    fn step_char(&mut self)
        requires
            old(self).wf(),
            old(self).pos < old(self).chars@.len(),
        ensures
            final(self).wf(),
            final(self).source == old(self).source,
            final(self).chars@ == old(self).chars@,
            final(self).tokens@ == old(self).tokens@,
            final(self).line == old(self).line,
            final(self).pos == old(self).pos + 1,
            final(self).col == old(self).col + char_width(old(self).chars@[old(self).pos as int]),
    {
        let w = char_width_of(self.chars[self.pos]);
        proof {
            lemma_text_width_step(self.chars@, self.pos as int);
            lemma_text_width_prefix(self.chars@, self.pos as int + 1);
        }
        self.pos += 1;
        self.col += w;
    }

    /// Whitespace and `--` line comments.
    fn skip_trivia(&mut self)
        requires
            old(self).wf(),
        ensures
            final(self).wf(),
            final(self).source == old(self).source,
            final(self).chars@ == old(self).chars@,
            final(self).tokens@ == old(self).tokens@,
            (final(self).pos as int, final(self).line as int, final(self).col as int) == skip_trivia(
                old(self).chars@,
                old(self).pos as int,
                old(self).line as int,
                old(self).col as int,
                false,
            ),
    {
        let ghost target = skip_trivia(
            self.chars@,
            self.pos as int,
            self.line as int,
            self.col as int,
            false,
        );
        loop
            invariant
                self.wf(),
                self.source == old(self).source,
                self.chars@ == old(self).chars@,
                self.tokens@ == old(self).tokens@,
                skip_trivia(self.chars@, self.pos as int, self.line as int, self.col as int, false)
                    == target,
                target == skip_trivia(
                    old(self).chars@,
                    old(self).pos as int,
                    old(self).line as int,
                    old(self).col as int,
                    false,
                ),
            decreases self.chars@.len() - self.pos,
        {
            if self.pos >= self.chars.len() {
                return;
            }
            let c = self.chars[self.pos];
            if c == ' ' || c == '\t' || c == '\r' {
                self.step(1);
            } else if c == '\n' {
                proof {
                    lemma_text_width_step(self.chars@, self.pos as int);
                    lemma_text_width_prefix(self.chars@, self.pos as int + 1);
                }
                self.step_char();
                self.line += 1;
                self.col = 1;
            } else if c == '-' && self.pos + 1 < self.chars.len() && self.chars[self.pos + 1]
                == '-' {
                let ghost entry = self.pos;
                self.step(1);
                while self.pos < self.chars.len() && self.chars[self.pos] != '\n'
                    invariant
                        self.wf(),
                        self.source == old(self).source,
                        self.chars@ == old(self).chars@,
                        self.tokens@ == old(self).tokens@,
                        skip_trivia(
                            self.chars@,
                            self.pos as int,
                            self.line as int,
                            self.col as int,
                            true,
                        ) == target,
                        target == skip_trivia(
                            old(self).chars@,
                            old(self).pos as int,
                            old(self).line as int,
                            old(self).col as int,
                            false,
                        ),
                        self.pos > entry,
                    decreases self.chars@.len() - self.pos,
                {
                    self.step_char();
                }
            } else {
                return;
            }
        }
    }

    fn error(&self, line: u32, col: u32, message: String) -> (d: Diag)
        ensures
            d@ == lex_error(line as int, col as int, message@),
    {
        Diag::new(Stage::Lex, (line, col), message)
    }

    fn push(&mut self, line: u32, col: u32, len: usize, kind: TokenKind)
        requires
            old(self).wf(),
            old(self).pos + len <= old(self).chars@.len(),
            forall|i: int|
                old(self).pos <= i < old(self).pos + len ==> char_width(
                    #[trigger] old(self).chars@[i],
                ) == 1,
        ensures
            final(self).wf(),
            final(self).source == old(self).source,
            final(self).chars@ == old(self).chars@,
            final(self).tokens@ == old(self).tokens@.push(Token { kind, span: (line, col) }),
            final(self).line == old(self).line,
            final(self).pos == old(self).pos + len,
            final(self).col == old(self).col + len,
    {
        self.step(len);
        self.tokens.push(Token { kind, span: (line, col) });
    }

    fn int_literal(&mut self, line: u32, col: u32) -> (r: Result<(), Diag>)
        requires
            old(self).wf(),
            old(self).pos < old(self).chars@.len(),
            is_digit(old(self).chars@[old(self).pos as int]),
            line == old(self).line,
            col == old(self).col,
        ensures
            final(self).source == old(self).source,
            final(self).chars@ == old(self).chars@,
            match scan_token(old(self).chars@, old(self).pos as int) {
                Scan::Fail(message) => r matches Err(d) && d@ == lex_error(
                    line as int,
                    col as int,
                    message,
                ),
                Scan::Token(kind, n) => {
                    &&& r is Ok
                    &&& final(self).wf()
                    &&& final(self).pos == old(self).pos + n
                    &&& final(self).line == line
                    &&& final(self).col == col + n
                    &&& tokens_view(final(self).tokens@) == tokens_view(old(self).tokens@).push(
                        TokenView { kind, span: (line, col) },
                    )
                },
            },
    {
        let ghost cs = self.chars@;
        let start = self.pos;
        proof {
            lemma_digit_run(cs, start as int);
        }
        let mut value: usize = 0;
        while self.pos < self.chars.len() && is_digit_char(self.chars[self.pos])
            invariant
                self.wf(),
                self.source == old(self).source,
                self.chars@ == cs,
                cs == old(self).chars@,
                self.tokens@ == old(self).tokens@,
                self.line == line,
                start == old(self).pos,
                start <= self.pos <= start + digit_run(cs, start as int),
                start + digit_run(cs, start as int) <= cs.len(),
                forall|i: int|
                    start <= i < start + digit_run(cs, start as int) ==> is_digit(#[trigger] cs[i]),
                start + digit_run(cs, start as int) < cs.len() ==> !is_digit(
                    cs[start + digit_run(cs, start as int)],
                ),
                self.col == col + (self.pos - start),
                value == digits_value(cs.subrange(start as int, self.pos as int)),
            decreases self.chars@.len() - self.pos,
        {
            let c = self.chars[self.pos];
            let digit = (c as u32 - 48) as usize;
            let ghost prefix = cs.subrange(start as int, self.pos as int + 1);
            assert(prefix.drop_last() =~= cs.subrange(start as int, self.pos as int));
            assert(prefix.last() == c);
            let next = match value.checked_mul(10) {
                Some(v) => v.checked_add(digit),
                None => None,
            };
            match next {
                Some(v) => {
                    value = v;
                },
                None => {
                    proof {
                        let run = cs.subrange(
                            start as int,
                            start + digit_run(cs, start as int),
                        );
                        assert(run.take(self.pos - start + 1) =~= prefix);
                        lemma_digits_value_prefix(run, self.pos - start + 1);
                    }
                    return Err(self.error(line, col, String::from_str("integer literal out of range")));
                },
            }
            self.step(1);
        }
        proof {
            assert(self.pos == start + digit_run(cs, start as int));
        }
        self.tokens.push(Token { kind: TokenKind::Int(value), span: (line, col) });
        proof {
            assert(tokens_view(self.tokens@) =~= tokens_view(old(self).tokens@).push(
                TokenView { kind: TokenKindView::Int(value), span: (line, col) },
            ));
        }
        Ok(())
    }

    fn name_or_keyword(&mut self, line: u32, col: u32)
        requires
            old(self).wf(),
            old(self).pos < old(self).chars@.len(),
            is_name_start(old(self).chars@[old(self).pos as int]),
            line == old(self).line,
            col == old(self).col,
        ensures
            final(self).wf(),
            final(self).source == old(self).source,
            final(self).chars@ == old(self).chars@,
            scan_token(old(self).chars@, old(self).pos as int) matches Scan::Token(kind, n) && {
                &&& final(self).pos == old(self).pos + n
                &&& final(self).line == line
                &&& final(self).col == col + n
                &&& tokens_view(final(self).tokens@) == tokens_view(old(self).tokens@).push(
                    TokenView { kind, span: (line, col) },
                )
            },
    {
        let ghost cs = self.chars@;
        let start = self.pos;
        proof {
            lemma_name_run(cs, start as int);
        }
        while self.pos < self.chars.len() && is_name_continue_char(self.chars[self.pos])
            invariant
                self.wf(),
                self.source == old(self).source,
                self.chars@ == cs,
                cs == old(self).chars@,
                self.tokens@ == old(self).tokens@,
                self.line == line,
                start == old(self).pos,
                start <= self.pos <= start + name_run(cs, start as int),
                start + name_run(cs, start as int) <= cs.len(),
                forall|i: int|
                    start <= i < start + name_run(cs, start as int) ==> is_name_char(
                        #[trigger] cs[i],
                    ),
                start + name_run(cs, start as int) < cs.len() ==> !is_name_char(
                    cs[start + name_run(cs, start as int)],
                ),
                self.col == col + (self.pos - start),
            decreases self.chars@.len() - self.pos,
        {
            self.step(1);
        }
        assert(self.pos == start + name_run(cs, start as int));
        let len = self.pos - start;
        let ghost text = cs.subrange(start as int, self.pos as int);
        proof {
            reveal_strlit("Int");
            reveal_strlit("Type");
            reveal_strlit("struct");
        }
        let c0 = self.chars[start];
        let kind = if len == 3 && c0 == 'I' && self.chars[start + 1] == 'n' && self.chars[start
            + 2] == 't' {
            assert(text =~= "Int"@);
            TokenKind::KwInt
        } else if len == 4 && c0 == 'T' && self.chars[start + 1] == 'y' && self.chars[start + 2]
            == 'p' && self.chars[start + 3] == 'e' {
            assert(text =~= "Type"@);
            TokenKind::KwType
        } else if len == 6 && c0 == 's' && self.chars[start + 1] == 't' && self.chars[start + 2]
            == 'r' && self.chars[start + 3] == 'u' && self.chars[start + 4] == 'c'
            && self.chars[start + 5] == 't' {
            assert(text =~= "struct"@);
            TokenKind::KwStruct
        } else {
            proof {
                assert(text.len() == len);
                assert(forall|i: int| 0 <= i < len ==> text[i] == self.chars@[start + i]);
                if text == "Int"@ {
                    assert(text[0] == 'I' && text[1] == 'n' && text[2] == 't');
                    assert(false);
                }
                if text == "Type"@ {
                    assert(text[0] == 'T' && text[1] == 'y' && text[2] == 'p' && text[3] == 'e');
                    assert(false);
                }
                if text == "struct"@ {
                    assert(text[0] == 's' && text[1] == 't' && text[2] == 'r' && text[3] == 'u'
                        && text[4] == 'c' && text[5] == 't');
                    assert(false);
                }
            }
            let word = self.source.substring_char(start, self.pos);
            TokenKind::Name(String::from_str(word))
        };
        assert(kind@ == keyword_or_name(text));
        assert(scan_token(cs, start as int) == Scan::Token(kind@, len as nat));
        self.tokens.push(Token { kind, span: (line, col) });
        proof {
            assert(tokens_view(self.tokens@) =~= tokens_view(old(self).tokens@).push(
                TokenView { kind: kind@, span: (line, col) },
            ));
        }
    }

    /// Lex the rest of the text: every token up to (not including) `Eof`,
    /// which the caller appends at the final position.
    #[verifier::spinoff_prover]
    fn run(&mut self) -> (r: Result<(), Diag>)
        requires
            old(self).wf(),
        ensures
            match r {
                Ok(()) => lex_from(
                    old(self).chars@,
                    old(self).pos as int,
                    old(self).line as int,
                    old(self).col as int,
                ) == Ok::<Seq<TokenView>, DiagView>(
                    tokens_view(final(self).tokens@).subrange(
                        old(self).tokens@.len() as int,
                        final(self).tokens@.len() as int,
                    ).push(TokenView { kind: TokenKindView::Eof, span: (final(self).line, final(self).col) }),
                ) && tokens_view(final(self).tokens@).subrange(0, old(self).tokens@.len() as int)
                    == tokens_view(old(self).tokens@),
                Err(d) => lex_from(
                    old(self).chars@,
                    old(self).pos as int,
                    old(self).line as int,
                    old(self).col as int,
                ) == Err::<Seq<TokenView>, DiagView>(d@),
            },
    {
        let ghost cs = self.chars@;
        let ghost base = tokens_view(self.tokens@);
        let ghost whole = lex_from(cs, self.pos as int, self.line as int, self.col as int);
        loop
            invariant
                self.wf(),
                self.source == old(self).source,
                self.chars@ == cs,
                cs == old(self).chars@,
                base == tokens_view(old(self).tokens@),
                whole == lex_from(
                    cs,
                    old(self).pos as int,
                    old(self).line as int,
                    old(self).col as int,
                ),
                base.len() <= self.tokens@.len(),
                tokens_view(self.tokens@).subrange(0, base.len() as int) == base,
                whole == prepend(
                    tokens_view(self.tokens@).subrange(base.len() as int, self.tokens@.len() as int),
                    lex_from(cs, self.pos as int, self.line as int, self.col as int),
                ),
            decreases self.chars@.len() - self.pos,
        {
            let ghost (pos0, line0, col0) = (self.pos as int, self.line as int, self.col as int);
            let ghost done = tokens_view(self.tokens@).subrange(
                base.len() as int,
                self.tokens@.len() as int,
            );
            proof {
                lemma_skip_trivia_bounds(cs, pos0, line0, col0, false);
            }
            self.skip_trivia();
            let line = self.line;
            let col = self.col;
            if self.pos >= self.chars.len() {
                proof {
                    let eof = TokenView { kind: TokenKindView::Eof, span: (self.line, self.col) };
                    assert(done + seq![eof] =~= done.push(eof));
                }
                return Ok(());
            }
            proof {
                lemma_scan_bounds(cs, self.pos as int);
            }
            let ghost p = self.pos as int;
            let c = self.chars[self.pos];
            let ghost before = self.tokens@;
            if is_digit_char(c) {
                match self.int_literal(line, col) {
                    Ok(()) => {},
                    Err(d) => {
                        return Err(d);
                    },
                }
            } else if is_name_start_char(c) {
                self.name_or_keyword(line, col);
            } else {
                let single = if c == '(' {
                    Some(TokenKind::LParen)
                } else if c == ')' {
                    Some(TokenKind::RParen)
                } else if c == '[' {
                    Some(TokenKind::LBracket)
                } else if c == ']' {
                    Some(TokenKind::RBracket)
                } else if c == '<' {
                    Some(TokenKind::LAngle)
                } else if c == '>' {
                    Some(TokenKind::RAngle)
                } else if c == '{' {
                    Some(TokenKind::LBrace)
                } else if c == '}' {
                    Some(TokenKind::RBrace)
                } else if c == ',' {
                    Some(TokenKind::Comma)
                } else if c == ':' {
                    Some(TokenKind::Colon)
                } else if c == ';' {
                    Some(TokenKind::Semicolon)
                } else {
                    None
                };
                match single {
                    Some(kind) => {
                        self.push(line, col, 1, kind);
                    },
                    None => {
                        let followed_by_angle = self.pos + 1 < self.chars.len() && self.chars[self.pos
                            + 1] == '>';
                        if c == '-' && followed_by_angle {
                            self.push(line, col, 2, TokenKind::Arrow);
                        } else if c == '=' && followed_by_angle {
                            self.push(line, col, 2, TokenKind::FatArrow);
                        } else if c == '=' {
                            self.push(line, col, 1, TokenKind::Equals);
                        } else {
                            let mut message = String::from_str("unexpected character '");
                            message.append(self.source.substring_char(self.pos, self.pos + 1));
                            message.append("'");
                            assert(cs.subrange(p, p + 1) =~= seq![c]);
                            return Err(self.error(line, col, message));
                        }
                    },
                }
                proof {
                    assert(tokens_view(self.tokens@) =~= tokens_view(before).push(
                        self.tokens@.last()@,
                    ));
                    assert(self.tokens@.last()@ == TokenView {
                        kind: scan_token(cs, p)->Token_0,
                        span: (line, col),
                    });
                }
            }
            proof {
                let t = TokenView { kind: scan_token(cs, p)->Token_0, span: (line, col) };
                let n = scan_token(cs, p)->Token_1;
                assert(lex_from(cs, pos0, line0, col0) == prepend(
                    seq![t],
                    lex_from(cs, p + n, line as int, col as int + n),
                ));
                lemma_prepend_assoc(done, seq![t], lex_from(cs, p + n, line as int, col as int + n));
                assert(tokens_view(self.tokens@).subrange(0, base.len() as int) =~= base);
                assert(tokens_view(self.tokens@).subrange(
                    base.len() as int,
                    self.tokens@.len() as int,
                ) =~= done.push(t));
                assert(done.push(t) =~= done + seq![t]);
            }
        }
    }
}

pub fn lex(source: &str) -> (r: Result<Vec<Token>, Diag>)
    requires
        source.spec_bytes().len() < u32::MAX,
    ensures
        match r {
            Ok(tokens) => spec_lex(source@) == Ok::<Seq<TokenView>, DiagView>(tokens_view(tokens@)),
            Err(d) => spec_lex(source@) == Err::<Seq<TokenView>, DiagView>(d@),
        },
{
    proof {
        lemma_text_width_utf8(source@);
        assert(source@.take(0) =~= Seq::<char>::empty());
        assert(text_width(Seq::<char>::empty()) == 0);
        assert(source.spec_bytes() == vstd::utf8::encode_utf8(source@));
        assert(text_width(source@) < u32::MAX);
    }
    let chars = chars_of(source);
    let _ = chars.len();
    let mut lexer = Lexer {
        source,
        chars,
        pos: 0,
        line: 1,
        col: 1,
        tokens: Vec::new(),
    };
    lexer.run()?;
    let ghost before = lexer.tokens@;
    let eof = Token { kind: TokenKind::Eof, span: (lexer.line, lexer.col) };
    lexer.tokens.push(eof);
    proof {
        assert(tokens_view(before).subrange(0, before.len() as int) =~= tokens_view(before));
        assert(tokens_view(lexer.tokens@) =~= tokens_view(before).push(eof@));
    }
    Ok(lexer.tokens)
}


// ---------------------------------------------------------------------------
// Laws of the lexer

/// `(line, col)` comes strictly before `(line2, col2)` in the text.
pub open spec fn span_before(a: Span, b: Span) -> bool {
    a.0 < b.0 || (a.0 == b.0 && a.1 < b.1)
}

/// A name token's text is an identifier and never a keyword.
pub open spec fn is_identifier(text: Seq<char>) -> bool {
    &&& text.len() >= 1
    &&& is_name_start(text[0])
    &&& forall|i: int| 0 <= i < text.len() ==> is_name_char(#[trigger] text[i])
    &&& text != "Int"@
    &&& text != "Type"@
    &&& text != "struct"@
}

proof fn lemma_lex_from_shape(cs: Seq<char>, pos: int, line: int, col: int)
    requires
        0 <= pos <= cs.len(),
    ensures
        lex_from(cs, pos, line, col) matches Ok(ts) ==> {
            &&& ts.len() >= 1
            &&& ts.last().kind is Eof
            &&& forall|i: int| 0 <= i < ts.len() - 1 ==> !(#[trigger] ts[i].kind is Eof)
            &&& forall|i: int|
                0 <= i < ts.len() ==> (#[trigger] ts[i].kind matches TokenKindView::Name(t)
                    ==> is_identifier(t))
        },
        lex_from(cs, pos, line, col) matches Err(d) ==> d.stage == Stage::Lex && d.span is Some,
    decreases cs.len() - pos,
{
    let (p, l, c) = skip_trivia(cs, pos, line, col, false);
    lemma_skip_trivia_bounds(cs, pos, line, col, false);
    if p < cs.len() {
        lemma_scan_bounds(cs, p);
        if let Scan::Token(kind, n) = scan_token(cs, p) {
            lemma_lex_from_shape(cs, p + n, l, c + n);
            let t = TokenView { kind, span: (l as u32, c as u32) };
            if let Ok(rest) = lex_from(cs, p + n, l, c + n) {
                let ts = seq![t] + rest;
                assert(lex_from(cs, pos, line, col) == Ok::<Seq<TokenView>, DiagView>(ts));
                assert(ts.last() == rest.last());
                assert forall|i: int| 0 <= i < ts.len() - 1 implies !(#[trigger] ts[i].kind is Eof) by {
                    if i > 0 {
                        assert(ts[i] == rest[i - 1]);
                    }
                }
                assert forall|i: int| 0 <= i < ts.len() implies (#[trigger] ts[i].kind matches TokenKindView::Name(
                    tx,
                ) ==> is_identifier(tx)) by {
                    if i > 0 {
                        assert(ts[i] == rest[i - 1]);
                    } else {
                        lemma_scan_name(cs, p);
                    }
                }
            }
        }
    }
}

/// A scanned name is an identifier that is not a keyword.
proof fn lemma_scan_name(cs: Seq<char>, p: int)
    requires
        0 <= p < cs.len(),
    ensures
        scan_token(cs, p) matches Scan::Token(TokenKindView::Name(t), _) ==> is_identifier(t),
{
    lemma_name_run(cs, p);
    if !is_digit(cs[p]) && is_name_start(cs[p]) {
        let n = name_run(cs, p);
        let text = cs.subrange(p, p + n);
        assert(text[0] == cs[p]);
        assert forall|i: int| 0 <= i < text.len() implies is_name_char(#[trigger] text[i]) by {
            assert(text[i] == cs[p + i]);
        }
    }
}

/// Every successful lex ends in exactly one `Eof`, its last token; every
/// name token is an identifier that is not a keyword (`Int`, `Type` and
/// `struct` lex as keywords, never as names); and every lex error is a
/// lex-stage diagnostic with a span.
pub proof fn law_lex_shape(cs: Seq<char>)
    ensures
        spec_lex(cs) matches Ok(ts) ==> {
            &&& ts.len() >= 1
            &&& ts.last().kind is Eof
            &&& forall|i: int| 0 <= i < ts.len() - 1 ==> !(#[trigger] ts[i].kind is Eof)
            &&& forall|i: int|
                0 <= i < ts.len() ==> (#[trigger] ts[i].kind matches TokenKindView::Name(t)
                    ==> is_identifier(t))
        },
        spec_lex(cs) matches Err(d) ==> d.stage == Stage::Lex && d.span is Some,
{
    lemma_lex_from_shape(cs, 0, 1, 1);
}

/// The position bound: a line and column never outrun the bytes before them.
pub open spec fn within_width(cs: Seq<char>, pos: int, line: int, col: int) -> bool {
    &&& 1 <= line <= 1 + text_width(cs.take(pos))
    &&& 1 <= col <= 1 + text_width(cs.take(pos))
}

proof fn lemma_skip_trivia_width(cs: Seq<char>, pos: int, line: int, col: int, in_comment: bool)
    requires
        0 <= pos <= cs.len(),
        within_width(cs, pos, line, col),
    ensures
        ({
            let (p, l, c) = skip_trivia(cs, pos, line, col, in_comment);
            within_width(cs, p, l, c)
        }),
    decreases cs.len() - pos, if in_comment {
        1int
    } else {
        0int
    },
{
    if pos >= cs.len() {
    } else {
        lemma_text_width_step(cs, pos);
        lemma_char_width_bounds(cs[pos]);
        if in_comment {
            if cs[pos] == '\n' {
                lemma_skip_trivia_width(cs, pos, line, col, false);
            } else {
                lemma_skip_trivia_width(cs, pos + 1, line, col + char_width(cs[pos]), true);
            }
        } else if cs[pos] == ' ' || cs[pos] == '\t' || cs[pos] == '\r' {
            lemma_skip_trivia_width(cs, pos + 1, line, col + 1, false);
        } else if cs[pos] == '\n' {
            lemma_skip_trivia_width(cs, pos + 1, line + 1, 1, false);
        } else if cs[pos] == '-' && pos + 1 < cs.len() && cs[pos + 1] == '-' {
            lemma_skip_trivia_width(cs, pos + 1, line, col + 1, true);
        }
    }
}

/// Advancing over `n` single-byte characters keeps the position bound.
proof fn lemma_ascii_advance(cs: Seq<char>, p: int, n: int, line: int, col: int)
    requires
        0 <= p,
        p + n <= cs.len(),
        0 <= n,
        within_width(cs, p, line, col),
    ensures
        within_width(cs, p + n, line, col + n),
    decreases n,
{
    if n > 0 {
        lemma_ascii_advance(cs, p, n - 1, line, col);
        lemma_text_width_step(cs, p + n - 1);
        lemma_char_width_bounds(cs[p + n - 1]);
    }
}

proof fn lemma_lex_from_ascending(cs: Seq<char>, pos: int, line: int, col: int)
    requires
        0 <= pos <= cs.len(),
        text_width(cs) < u32::MAX,
        within_width(cs, pos, line, col),
    ensures
        lex_from(cs, pos, line, col) matches Ok(ts) ==> {
            &&& forall|i: int, j: int|
                0 <= i < j < ts.len() ==> span_before(#[trigger] ts[i].span, #[trigger] ts[j].span)
            &&& (line as u32, col as u32) == ts[0].span || span_before(
                (line as u32, col as u32),
                ts[0].span,
            )
        },
    decreases cs.len() - pos,
{
    let (p, l, c) = skip_trivia(cs, pos, line, col, false);
    lemma_skip_trivia_bounds(cs, pos, line, col, false);
    lemma_skip_trivia_width(cs, pos, line, col, false);
    lemma_text_width_prefix(cs, p);
    lemma_text_width_prefix(cs, pos);
    if p < cs.len() {
        lemma_scan_bounds(cs, p);
        if let Scan::Token(kind, n) = scan_token(cs, p) {
            lemma_token_chars_narrow(cs, p);
            lemma_ascii_advance(cs, p, n as int, l, c);
            lemma_text_width_prefix(cs, p + n);
            lemma_lex_from_ascending(cs, p + n, l, c + n);
            let t = TokenView { kind, span: (l as u32, c as u32) };
            if let Ok(rest) = lex_from(cs, p + n, l, c + n) {
                let ts = seq![t] + rest;
                assert(lex_from(cs, pos, line, col) == Ok::<Seq<TokenView>, DiagView>(ts));
                assert forall|i: int, j: int|
                    0 <= i < j < ts.len() implies span_before(
                    #[trigger] ts[i].span,
                    #[trigger] ts[j].span,
                ) by {
                    assert(ts[j] == rest[j - 1]);
                    if i > 0 {
                        assert(ts[i] == rest[i - 1]);
                    } else {
                        assert(rest[0].span == ((l as u32), (c + n) as u32) || span_before(
                            (l as u32, (c + n) as u32),
                            rest[0].span,
                        ));
                        if j > 1 {
                            assert(span_before(rest[0].span, rest[j - 1].span));
                        }
                    }
                }
            }
        }
    }
}

/// Every character of a scanned token is a single byte.
proof fn lemma_token_chars_narrow(cs: Seq<char>, p: int)
    requires
        0 <= p < cs.len(),
    ensures
        scan_token(cs, p) matches Scan::Token(_, n) ==> forall|i: int|
            p <= i < p + n ==> char_width(#[trigger] cs[i]) == 1,
{
    lemma_digit_run(cs, p);
    lemma_name_run(cs, p);
}

/// Token spans strictly ascend in `(line, column)` order: every token starts
/// after the one before it.  (For a text whose byte length fits a `u32`, the
/// same bound under which [`lex`] runs.)
pub proof fn law_lex_spans_ascend(cs: Seq<char>)
    requires
        text_width(cs) < u32::MAX,
    ensures
        spec_lex(cs) matches Ok(ts) ==> forall|i: int, j: int|
            0 <= i < j < ts.len() ==> span_before(#[trigger] ts[i].span, #[trigger] ts[j].span),
{
    assert(cs.take(0) =~= Seq::<char>::empty());
    assert(text_width(Seq::<char>::empty()) == 0);
    lemma_lex_from_ascending(cs, 0, 1, 1);
}

/// A token of fixed spelling is described by its lexeme in quotes: the
/// description of the token scanned at `pos`, when it is a keyword or a
/// punctuation mark, is that token's text between single quotes.
pub proof fn law_describe_quotes_lexeme(cs: Seq<char>, pos: int)
    requires
        0 <= pos < cs.len(),
    ensures
        match scan_token(cs, pos) {
            Scan::Token(k, n) => !(k is Int || k is Name || k is Eof) ==> description(k) == "'"@
                + cs.subrange(pos, pos + n) + "'"@,
            Scan::Fail(_) => true,
        },
{
    reveal_strlit("'");
    reveal_strlit("Int");
    reveal_strlit("Type");
    reveal_strlit("struct");
    reveal_strlit("'Int'");
    reveal_strlit("'Type'");
    reveal_strlit("'struct'");
    reveal_strlit("'->'");
    reveal_strlit("'=>'");
    reveal_strlit("':'");
    reveal_strlit("'='");
    reveal_strlit("';'");
    reveal_strlit("','");
    reveal_strlit("'('");
    reveal_strlit("')'");
    reveal_strlit("'['");
    reveal_strlit("']'");
    reveal_strlit("'<'");
    reveal_strlit("'>'");
    reveal_strlit("'{'");
    reveal_strlit("'}'");
    let c = cs[pos];
    if let Scan::Token(k, n) = scan_token(cs, pos) {
        let text = cs.subrange(pos, pos + n);
        if !(k is Int || k is Name || k is Eof) {
            if is_digit(c) {
            } else if is_name_start(c) {
                if k is KwInt {
                    assert("'"@ + text + "'"@ =~= "'Int'"@);
                } else if k is KwType {
                    assert("'"@ + text + "'"@ =~= "'Type'"@);
                } else {
                    assert("'"@ + text + "'"@ =~= "'struct'"@);
                }
            } else if single_char_token(c) is Some {
                assert(text =~= seq![c]);
                assert(description(k) =~= "'"@ + text + "'"@);
            } else if c == '-' && pos + 1 < cs.len() && cs[pos + 1] == '>' {
                assert(text =~= seq!['-', '>']);
                assert(description(k) =~= "'"@ + text + "'"@);
            } else if c == '=' && pos + 1 < cs.len() && cs[pos + 1] == '>' {
                assert(text =~= seq!['=', '>']);
                assert(description(k) =~= "'"@ + text + "'"@);
            } else {
                assert(text =~= seq![c]);
                assert(description(k) =~= "'"@ + text + "'"@);
            }
        }
    }
}

/// The description of an integer literal or a name does not depend on which
/// integer or which name it is.
pub proof fn law_describe_payload_free(a: usize, b: usize, x: Seq<char>, y: Seq<char>)
    ensures
        description(TokenKindView::Int(a)) == description(TokenKindView::Int(b)),
        description(TokenKindView::Name(x)) == description(TokenKindView::Name(y)),
{
}

/// The first token of a lexed text that begins with a token (no leading
/// blank or comment) is the token scanned at its start; when that is a
/// keyword or a punctuation mark, it is described by its text in quotes.
pub proof fn law_first_token_described(cs: Seq<char>)
    requires
        cs.len() > 0,
        skip_trivia(cs, 0, 1, 1, false).0 == 0,
    ensures
        match (spec_lex(cs), scan_token(cs, 0)) {
            (Ok(ts), Scan::Token(k, n)) => ts[0].kind == k && (!(k is Int || k is Name || k is Eof)
                ==> description(ts[0].kind) == "'"@ + cs.subrange(0, n as int) + "'"@),
            _ => true,
        },
{
    lemma_scan_bounds(cs, 0);
    law_describe_quotes_lexeme(cs, 0);
    let (p, l, c) = skip_trivia(cs, 0, 1, 1, false);
    if let Scan::Token(k, n) = scan_token(cs, 0) {
        let tv = TokenView { kind: k, span: (l as u32, c as u32) };
        assert(spec_lex(cs) == prepend(seq![tv], lex_from(cs, n as int, l, c + n)));
        if let Ok(rest) = lex_from(cs, n as int, l, c + n) {
            assert((seq![tv] + rest)[0] == tv);
        }
    }
}

} // verus!
