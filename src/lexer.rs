use vstd::prelude::*;

use crate::error::{bol_at, error_at, row_at, Error, ErrorKind};
use crate::text::{chars_of, copy_chars, same_chars, string_from_chars};

verus! {

/// The kind of a token. A floating-point literal is `Number`; its value is the
/// token's text read as an `f64`.
#[derive(Debug, Clone, Copy, PartialEq, Eq, Structural)]
pub enum TokenType {
    Number,
    Integer(i32),
    String,
    Ident,
    Empty,
    If,
    Else,
    Elif,
    Proc,
    Package,
    In,
    Out,
    Loop,
    Log,
    OCurly,
    CCurly,
    OBracket,
    CBracket,
    OParen,
    CParen,
    Minus,
    Plus,
    Multi,
    Devide,
    Dollar,
    QMark,
    Colon,
    SemiColon,
    Dot,
    Comma,
    Eq,
    Not,
    Bigger,
    Smaller,
    ATSign,
    Mod,
    And,
    Or,
    DoubleEq,
    ColonEq,
    DoubleColon,
    NotEq,
    BiggerEq,
    SmallerEq,
    Lsh,
    Rsh,
    DoubleOr,
    DoubleAnd,
}

// ---------------------------------------------------------------------------
// Character classes
// ---------------------------------------------------------------------------

/// Unicode `White_Space`, the set that `char::is_whitespace` tests.
pub open spec fn whitespace(c: char) -> bool {
    c == '\t' || c == '\n' || c == '\u{0B}' || c == '\u{0C}' || c == '\r' || c == ' '
        || c == '\u{85}' || c == '\u{A0}' || c == '\u{1680}' || ('\u{2000}' <= c && c
        <= '\u{200A}') || c == '\u{2028}' || c == '\u{2029}' || c == '\u{202F}' || c
        == '\u{205F}' || c == '\u{3000}'
}

pub open spec fn ascii_digit(c: char) -> bool {
    '0' <= c && c <= '9'
}

pub open spec fn ascii_alpha(c: char) -> bool {
    ('a' <= c && c <= 'z') || ('A' <= c && c <= 'Z')
}

/// A character that may start an identifier or keyword.
pub open spec fn ident_start(c: char) -> bool {
    ascii_alpha(c) || c == '_'
}

/// A character that may continue an identifier or keyword.
pub open spec fn ident_char(c: char) -> bool {
    ascii_alpha(c) || ascii_digit(c) || c == '_'
}

/// A character that may continue a numeric literal.
pub open spec fn number_char(c: char) -> bool {
    ascii_alpha(c) || ascii_digit(c) || c == '.'
}

/// The value of `c` as a digit in bases up to 36 (as `char::to_digit` reads
/// it), or 36 where `c` is no digit at all.
pub open spec fn digit_value(c: char) -> int {
    if ascii_digit(c) {
        c as int - '0' as int
    } else if 'a' <= c && c <= 'z' {
        c as int - 'a' as int + 10
    } else if 'A' <= c && c <= 'Z' {
        c as int - 'A' as int + 10
    } else {
        36
    }
}

// ---------------------------------------------------------------------------
// Fixed tables
// ---------------------------------------------------------------------------

pub open spec fn keyword(lit: Seq<char>) -> Option<TokenType> {
    if lit == seq!['i', 'f'] {
        Some(TokenType::If)
    } else if lit == seq!['e', 'l', 's', 'e'] {
        Some(TokenType::Else)
    } else if lit == seq!['e', 'l', 'i', 'f'] {
        Some(TokenType::Elif)
    } else if lit == seq!['p', 'r', 'o', 'c'] {
        Some(TokenType::Proc)
    } else if lit == seq!['p', 'a', 'c', 'k', 'a', 'g', 'e'] {
        Some(TokenType::Package)
    } else if lit == seq!['l', 'o', 'o', 'p'] {
        Some(TokenType::Loop)
    } else if lit == seq!['l', 'o', 'g'] {
        Some(TokenType::Log)
    } else if lit == seq!['i', 'n'] {
        Some(TokenType::In)
    } else if lit == seq!['o', 'u', 't'] {
        Some(TokenType::Out)
    } else {
        None
    }
}

pub open spec fn single_token(c: char) -> Option<TokenType> {
    match c {
        '{' => Some(TokenType::OCurly),
        '}' => Some(TokenType::CCurly),
        '[' => Some(TokenType::OBracket),
        ']' => Some(TokenType::CBracket),
        '(' => Some(TokenType::OParen),
        ')' => Some(TokenType::CParen),
        '-' => Some(TokenType::Minus),
        '+' => Some(TokenType::Plus),
        '*' => Some(TokenType::Multi),
        '/' => Some(TokenType::Devide),
        '$' => Some(TokenType::Dollar),
        '?' => Some(TokenType::QMark),
        ':' => Some(TokenType::Colon),
        ';' => Some(TokenType::SemiColon),
        '.' => Some(TokenType::Dot),
        ',' => Some(TokenType::Comma),
        '=' => Some(TokenType::Eq),
        '!' => Some(TokenType::Not),
        '>' => Some(TokenType::Bigger),
        '<' => Some(TokenType::Smaller),
        '@' => Some(TokenType::ATSign),
        '%' => Some(TokenType::Mod),
        '&' => Some(TokenType::And),
        '|' => Some(TokenType::Or),
        _ => None,
    }
}

pub open spec fn double_token(first: char, next: char) -> Option<TokenType> {
    match (first, next) {
        ('=', '=') => Some(TokenType::DoubleEq),
        (':', '=') => Some(TokenType::ColonEq),
        (':', ':') => Some(TokenType::DoubleColon),
        ('!', '=') => Some(TokenType::NotEq),
        ('>', '=') => Some(TokenType::BiggerEq),
        ('<', '=') => Some(TokenType::SmallerEq),
        ('<', '<') => Some(TokenType::Lsh),
        ('>', '>') => Some(TokenType::Rsh),
        ('|', '|') => Some(TokenType::DoubleOr),
        ('&', '&') => Some(TokenType::DoubleAnd),
        _ => None,
    }
}

/// The character that a backslash followed by `c` stands for in a string.
pub open spec fn escape(c: char) -> Option<char> {
    match c {
        'n' => Some('\n'),
        '"' => Some('"'),
        't' => Some('\t'),
        'r' => Some('\r'),
        '0' => Some('\0'),
        '\\' => Some('\\'),
        _ => None,
    }
}

// ---------------------------------------------------------------------------
// Positions in the text
// ---------------------------------------------------------------------------

/// Offset just past the line break that ends the line holding `i`, or the end
/// of the text.
pub open spec fn line_end(s: Seq<char>, i: int) -> int
    decreases s.len() - i,
{
    if 0 <= i < s.len() {
        if s[i] == '\n' {
            i + 1
        } else {
            line_end(s, i + 1)
        }
    } else {
        i
    }
}

/// Offset of the first character at or after `i` that is neither white space
/// nor part of a `~` comment.
pub open spec fn skip_trivia(s: Seq<char>, i: int) -> int
    decreases s.len() - i,
    via skip_trivia_decreases
{
    if 0 <= i < s.len() {
        if whitespace(s[i]) {
            skip_trivia(s, i + 1)
        } else if s[i] == '~' {
            skip_trivia(s, line_end(s, i))
        } else {
            i
        }
    } else {
        i
    }
}

#[via_fn]
proof fn skip_trivia_decreases(s: Seq<char>, i: int) {
    if 0 <= i < s.len() {
        lemma_line_end_bounds(s, i);
    }
}

proof fn lemma_line_end_bounds(s: Seq<char>, i: int)
    requires
        0 <= i <= s.len(),
    ensures
        i <= line_end(s, i) <= s.len(),
        i < s.len() ==> i < line_end(s, i),
    decreases s.len() - i,
{
    if i < s.len() && s[i] != '\n' {
        lemma_line_end_bounds(s, i + 1);
    }
}

/// End of the run of identifier characters that starts at `i`.
pub open spec fn ident_end(s: Seq<char>, i: int) -> int
    decreases s.len() - i,
{
    if 0 <= i < s.len() && ident_char(s[i]) {
        ident_end(s, i + 1)
    } else {
        i
    }
}

/// End of the run of numeric-literal characters that starts at `i`.
pub open spec fn number_end(s: Seq<char>, i: int) -> int
    decreases s.len() - i,
{
    if 0 <= i < s.len() && number_char(s[i]) {
        number_end(s, i + 1)
    } else {
        i
    }
}

/// End of the run of decimal digits that starts at `i`.
pub open spec fn digits_end(s: Seq<char>, i: int) -> int
    decreases s.len() - i,
{
    if 0 <= i < s.len() && ascii_digit(s[i]) {
        digits_end(s, i + 1)
    } else {
        i
    }
}

// ---------------------------------------------------------------------------
// Literals
// ---------------------------------------------------------------------------

/// The body of a string literal from offset `i` on, with `acc` decoded so far:
/// the decoded text and the offset past the closing quote, or the fault.
pub open spec fn scan_string(s: Seq<char>, i: int, acc: Seq<char>) -> Result<
    (Seq<char>, int),
    (ErrorKind, int),
>
    decreases s.len() - i,
{
    if !(0 <= i < s.len()) {
        Err((ErrorKind::UnterminatedString, i))
    } else if s[i] == '"' {
        Ok((acc, i + 1))
    } else if s[i] == '\n' {
        Err((ErrorKind::UnterminatedString, i))
    } else if s[i] == '\\' {
        if i + 1 >= s.len() {
            Err((ErrorKind::UnterminatedString, i + 1))
        } else {
            match escape(s[i + 1]) {
                Some(e) => scan_string(s, i + 2, acc.push(e)),
                None => Err((ErrorKind::InvalidEscapeSequence(s[i + 1]), i + 1)),
            }
        }
    } else {
        scan_string(s, i + 1, acc.push(s[i]))
    }
}

pub open spec fn all_digits(d: Seq<char>, base: int) -> bool {
    forall|k: int| 0 <= k < d.len() ==> #[trigger] digit_value(d[k]) < base
}

/// The number that the digits `d` write in `base`, most significant first.
pub open spec fn radix_value(d: Seq<char>, base: int) -> int
    decreases d.len(),
{
    if d.len() == 0 {
        0
    } else {
        radix_value(d.drop_last(), base) * base + digit_value(d.last())
    }
}

/// `v` reduced to 32 bits and read as a two's-complement `i32`.
pub open spec fn wrap_i32(v: int) -> i32 {
    let m = v % 0x1_0000_0000;
    if m < 0x8000_0000 {
        m as i32
    } else {
        (m - 0x1_0000_0000) as i32
    }
}

/// `0` and `marker` followed by digits of `base`, as an integer token.
pub open spec fn radix_literal(lit: Seq<char>, marker: char, base: int) -> Option<TokenType> {
    if lit.len() >= 2 && lit[0] == '0' && lit[1] == marker && all_digits(lit.skip(2), base) {
        Some(TokenType::Integer(wrap_i32(radix_value(lit.skip(2), base))))
    } else {
        None
    }
}

/// Digits, a point, digits, and an optional exponent: the text that
/// `str::parse::<f64>` accepts among runs that start with a digit and hold no
/// sign.
pub open spec fn float_text(lit: Seq<char>) -> bool {
    let p = digits_end(lit, 0);
    let q = digits_end(lit, p + 1);
    &&& 0 < p < lit.len()
    &&& lit[p] == '.'
    &&& (q == lit.len() || (q + 1 < lit.len() && (lit[q] == 'e' || lit[q] == 'E')
        && digits_end(lit, q + 1) == lit.len()))
}

/// The token kind, with its value, that a numeric literal decodes to.
pub open spec fn decode_number(lit: Seq<char>) -> Option<TokenType> {
    if lit.contains('x') {
        radix_literal(lit, 'x', 16)
    } else if lit.contains('b') {
        radix_literal(lit, 'b', 2)
    } else if lit.contains('.') {
        if float_text(lit) {
            Some(TokenType::Number)
        } else {
            None
        }
    } else if all_digits(lit, 10) && radix_value(lit, 10) <= i32::MAX {
        Some(TokenType::Integer(radix_value(lit, 10) as i32))
    } else {
        None
    }
}

// ---------------------------------------------------------------------------
// One token
// ---------------------------------------------------------------------------

/// The token that scanning `s` from offset `i` produces: its kind, its text and
/// the offset after it; or the fault and the offset where it was detected.
pub open spec fn scan(s: Seq<char>, i: int) -> Result<(TokenType, Seq<char>, int), (ErrorKind, int)> {
    let p = skip_trivia(s, i);
    if !(0 <= p < s.len()) {
        Ok((TokenType::Empty, Seq::empty(), p))
    } else {
        let c = s[p];
        if ident_start(c) {
            let e = ident_end(s, p);
            let lit = s.subrange(p, e);
            match keyword(lit) {
                Some(t) => Ok((t, lit, e)),
                None => Ok((TokenType::Ident, lit, e)),
            }
        } else if ascii_digit(c) {
            let e = number_end(s, p);
            let lit = s.subrange(p, e);
            match decode_number(lit) {
                Some(t) => Ok((t, lit, e)),
                None => Err((ErrorKind::InvalidNumericLiteral, e)),
            }
        } else if c == '"' {
            match scan_string(s, p + 1, Seq::empty()) {
                Ok((lit, e)) => Ok((TokenType::String, lit, e)),
                Err(f) => Err(f),
            }
        } else if single_token(c) is Some {
            if p + 1 < s.len() && single_token(s[p + 1]) is Some && double_token(c, s[p + 1]) is Some {
                Ok((double_token(c, s[p + 1])->0, seq![c, s[p + 1]], p + 2))
            } else {
                Ok((single_token(c)->0, seq![c], p + 1))
            }
        } else {
            Err((ErrorKind::UnexpectedCharacter(c), p))
        }
    }
}

// ---------------------------------------------------------------------------
// Character tests
// ---------------------------------------------------------------------------

fn is_whitespace(c: char) -> (r: bool)
    ensures
        r == whitespace(c),
{
    c == '\t' || c == '\n' || c == '\u{0B}' || c == '\u{0C}' || c == '\r' || c == ' '
        || c == '\u{85}' || c == '\u{A0}' || c == '\u{1680}' || ('\u{2000}' <= c && c
        <= '\u{200A}') || c == '\u{2028}' || c == '\u{2029}' || c == '\u{202F}' || c
        == '\u{205F}' || c == '\u{3000}'
}

fn is_ascii_digit(c: char) -> (r: bool)
    ensures
        r == ascii_digit(c),
{
    '0' <= c && c <= '9'
}

fn is_ascii_alpha(c: char) -> (r: bool)
    ensures
        r == ascii_alpha(c),
{
    ('a' <= c && c <= 'z') || ('A' <= c && c <= 'Z')
}

fn to_digit(c: char) -> (r: u32)
    ensures
        r as int == digit_value(c),
{
    if is_ascii_digit(c) {
        c as u32 - '0' as u32
    } else if 'a' <= c && c <= 'z' {
        c as u32 - 'a' as u32 + 10
    } else if 'A' <= c && c <= 'Z' {
        c as u32 - 'A' as u32 + 10
    } else {
        36
    }
}

// ---------------------------------------------------------------------------
// Tokens
// ---------------------------------------------------------------------------

#[derive(Debug, Clone)]
pub struct Token {
    pub ttype: TokenType,
    pub literal: String,
}

impl Token {
    pub fn new(ttype: TokenType, literal: String) -> (r: Token)
        ensures
            r.ttype == ttype,
            r.literal == literal,
    {
        Token { ttype, literal }
    }

    /// The end-of-input token.
    pub fn empty() -> (r: Token)
        ensures
            r.ttype == TokenType::Empty,
            r.literal@ == Seq::<char>::empty(),
    {
        Token { ttype: TokenType::Empty, literal: String::new() }
    }
}

/// `r` is what scanning `s` from `i` gives, and `end` the offset after it.
pub open spec fn scanned_as(s: Seq<char>, i: int, r: Result<Token, Error>, end: int) -> bool {
    match scan(s, i) {
        Ok((t, lit, e)) => r is Ok && r->Ok_0.ttype == t && r->Ok_0.literal@ == lit && end == e,
        Err(f) => r is Err && error_at(r->Err_0, s, f),
    }
}

/// The scanner: the source text, a cursor into it, and the current token.
#[derive(Debug)]
pub struct Lexer {
    source: Vec<char>,
    pub token: Token,
    cur: usize,
    bol: usize,
    row: usize,
}

impl Lexer {
    /// The source text.
    pub closed spec fn text(&self) -> Seq<char> {
        self.source@
    }

    /// The cursor: offset of the next character to scan.
    pub closed spec fn pos(&self) -> int {
        self.cur as int
    }

    /// The current token.
    pub closed spec fn lookahead(&self) -> Token {
        self.token
    }

    /// The cursor lies within the text and the line counters match it.
    pub closed spec fn wf(&self) -> bool {
        &&& self.cur <= self.source.len()
        &&& self.bol <= self.cur
        &&& self.row <= self.cur
        &&& self.bol == bol_at(self.source@, self.cur as int)
        &&& self.row == row_at(self.source@, self.cur as int)
    }

    pub fn new(source: String) -> (r: Lexer)
        ensures
            r.wf(),
            r.text() == source@,
            r.pos() == 0,
            r.lookahead().ttype == TokenType::Empty,
            r.lookahead().literal@ == Seq::<char>::empty(),
    {
        Lexer { source: chars_of(source.as_str()), token: Token::empty(), cur: 0, bol: 0, row: 0 }
    }

    fn is_empty(&self) -> (r: bool)
        requires
            self.wf(),
        ensures
            r == (self.pos() >= self.text().len()),
    {
        self.cur >= self.source.len()
    }

    /// Steps over one character, if any is left.
    fn drop(&mut self)
        requires
            old(self).wf(),
        ensures
            final(self).wf(),
            final(self).text() == old(self).text(),
            final(self).token == old(self).token,
            final(self).pos() == if old(self).pos() < old(self).text().len() {
                old(self).pos() + 1
            } else {
                old(self).pos()
            },
    {
        if !self.is_empty() {
            let c = self.source[self.cur];
            self.cur = self.cur + 1;
            if c == '\n' {
                self.bol = self.cur;
                self.row = self.row + 1;
            }
        }
    }

    /// Steps through the end of the current line.
    fn drop_line(&mut self)
        requires
            old(self).wf(),
        ensures
            final(self).wf(),
            final(self).text() == old(self).text(),
            final(self).token == old(self).token,
            final(self).pos() == line_end(old(self).text(), old(self).pos()),
    {
        let ghost start = self.pos();
        while !self.is_empty()
            invariant_except_break
                line_end(self.text(), self.pos()) == line_end(self.text(), start),
            invariant
                self.wf(),
                self.text() == old(self).text(),
                self.token == old(self).token,
            ensures
                self.pos() == line_end(self.text(), start),
            decreases self.text().len() - self.pos(),
        {
            if self.source[self.cur] == '\n' {
                self.drop();
                break;
            } else {
                self.drop();
            }
        }
    }

    /// Steps over white space.
    fn trim_left(&mut self)
        requires
            old(self).wf(),
        ensures
            final(self).wf(),
            final(self).text() == old(self).text(),
            final(self).token == old(self).token,
            old(self).pos() <= final(self).pos(),
            skip_trivia(final(self).text(), final(self).pos()) == skip_trivia(
                old(self).text(),
                old(self).pos(),
            ),
            final(self).pos() < final(self).text().len() ==> !whitespace(
                final(self).text()[final(self).pos()],
            ),
    {
        while !self.is_empty() && is_whitespace(self.source[self.cur])
            invariant
                self.wf(),
                self.text() == old(self).text(),
                self.token == old(self).token,
                old(self).pos() <= self.pos(),
                skip_trivia(self.text(), self.pos()) == skip_trivia(old(self).text(), old(self).pos()),
            decreases self.text().len() - self.pos(),
        {
            self.drop();
        }
    }
}

// ---------------------------------------------------------------------------
// Table lookups
// ---------------------------------------------------------------------------

fn is_keyword(literal: &[char]) -> (r: Option<TokenType>)
    ensures
        r == keyword(literal@),
{
    let if_: [char; 2] = ['i', 'f'];
    let else_: [char; 4] = ['e', 'l', 's', 'e'];
    let elif_: [char; 4] = ['e', 'l', 'i', 'f'];
    let proc_: [char; 4] = ['p', 'r', 'o', 'c'];
    let package_: [char; 7] = ['p', 'a', 'c', 'k', 'a', 'g', 'e'];
    let loop_: [char; 4] = ['l', 'o', 'o', 'p'];
    let log_: [char; 3] = ['l', 'o', 'g'];
    let in_: [char; 2] = ['i', 'n'];
    let out_: [char; 3] = ['o', 'u', 't'];
    proof {
        assert(if_@ =~= seq!['i', 'f']);
        assert(else_@ =~= seq!['e', 'l', 's', 'e']);
        assert(elif_@ =~= seq!['e', 'l', 'i', 'f']);
        assert(proc_@ =~= seq!['p', 'r', 'o', 'c']);
        assert(package_@ =~= seq!['p', 'a', 'c', 'k', 'a', 'g', 'e']);
        assert(loop_@ =~= seq!['l', 'o', 'o', 'p']);
        assert(log_@ =~= seq!['l', 'o', 'g']);
        assert(in_@ =~= seq!['i', 'n']);
        assert(out_@ =~= seq!['o', 'u', 't']);
    }
    if same_chars(literal, &if_) {
        Some(TokenType::If)
    } else if same_chars(literal, &else_) {
        Some(TokenType::Else)
    } else if same_chars(literal, &elif_) {
        Some(TokenType::Elif)
    } else if same_chars(literal, &proc_) {
        Some(TokenType::Proc)
    } else if same_chars(literal, &package_) {
        Some(TokenType::Package)
    } else if same_chars(literal, &loop_) {
        Some(TokenType::Loop)
    } else if same_chars(literal, &log_) {
        Some(TokenType::Log)
    } else if same_chars(literal, &in_) {
        Some(TokenType::In)
    } else if same_chars(literal, &out_) {
        Some(TokenType::Out)
    } else {
        None
    }
}

fn is_single_char_token(c: char) -> (r: Option<TokenType>)
    ensures
        r == single_token(c),
{
    match c {
        '{' => Some(TokenType::OCurly),
        '}' => Some(TokenType::CCurly),
        '[' => Some(TokenType::OBracket),
        ']' => Some(TokenType::CBracket),
        '(' => Some(TokenType::OParen),
        ')' => Some(TokenType::CParen),
        '-' => Some(TokenType::Minus),
        '+' => Some(TokenType::Plus),
        '*' => Some(TokenType::Multi),
        '/' => Some(TokenType::Devide),
        '$' => Some(TokenType::Dollar),
        '?' => Some(TokenType::QMark),
        ':' => Some(TokenType::Colon),
        ';' => Some(TokenType::SemiColon),
        '.' => Some(TokenType::Dot),
        ',' => Some(TokenType::Comma),
        '=' => Some(TokenType::Eq),
        '!' => Some(TokenType::Not),
        '>' => Some(TokenType::Bigger),
        '<' => Some(TokenType::Smaller),
        '@' => Some(TokenType::ATSign),
        '%' => Some(TokenType::Mod),
        '&' => Some(TokenType::And),
        '|' => Some(TokenType::Or),
        _ => None,
    }
}

fn is_double_char_token(first: char, next: char) -> (r: Option<TokenType>)
    ensures
        r == double_token(first, next),
{
    match (first, next) {
        ('=', '=') => Some(TokenType::DoubleEq),
        (':', '=') => Some(TokenType::ColonEq),
        (':', ':') => Some(TokenType::DoubleColon),
        ('!', '=') => Some(TokenType::NotEq),
        ('>', '=') => Some(TokenType::BiggerEq),
        ('<', '=') => Some(TokenType::SmallerEq),
        ('<', '<') => Some(TokenType::Lsh),
        ('>', '>') => Some(TokenType::Rsh),
        ('|', '|') => Some(TokenType::DoubleOr),
        ('&', '&') => Some(TokenType::DoubleAnd),
        _ => None,
    }
}

fn escape_char(c: char) -> (r: Option<char>)
    ensures
        r == escape(c),
{
    match c {
        'n' => Some('\n'),
        '"' => Some('"'),
        't' => Some('\t'),
        'r' => Some('\r'),
        '0' => Some('\0'),
        '\\' => Some('\\'),
        _ => None,
    }
}

// ---------------------------------------------------------------------------
// Numeric literals
// ---------------------------------------------------------------------------

proof fn lemma_radix_nonneg(d: Seq<char>, base: int)
    requires
        base >= 0,
    ensures
        radix_value(d, base) >= 0,
    decreases d.len(),
{
    if d.len() > 0 {
        lemma_radix_nonneg(d.drop_last(), base);
        assert(radix_value(d.drop_last(), base) * base >= 0) by (nonlinear_arith)
            requires
                radix_value(d.drop_last(), base) >= 0,
                base >= 0,
        ;
    }
}

/// Appending digits never lowers the value.
proof fn lemma_radix_prefix_le(d: Seq<char>, k: int, base: int)
    requires
        0 <= k <= d.len(),
        base >= 1,
    ensures
        radix_value(d.take(k), base) <= radix_value(d, base),
    decreases d.len(),
{
    if k < d.len() {
        let front = d.drop_last();
        assert(front.take(k) =~= d.take(k));
        lemma_radix_prefix_le(front, k, base);
        lemma_radix_nonneg(front, base);
        let v = radix_value(front, base);
        assert(v * base >= v) by (nonlinear_arith)
            requires
                v >= 0,
                base >= 1,
        ;
    } else {
        assert(d.take(k) =~= d);
    }
}

proof fn lemma_step_mod(a: int, b: int, d: int)
    requires
        0 <= d < 0x1_0000_0000,
    ensures
        ((a % 0x1_0000_0000) * b + d) % 0x1_0000_0000 == (a * b + d) % 0x1_0000_0000,
{
    let m: int = 0x1_0000_0000;
    vstd::arithmetic::div_mod::lemma_mul_mod_noop_left(a, b, m);
    vstd::arithmetic::div_mod::lemma_add_mod_noop((a % m) * b, d, m);
    vstd::arithmetic::div_mod::lemma_add_mod_noop(a * b, d, m);
}

fn contains_char(lit: &Vec<char>, c: char) -> (r: bool)
    ensures
        r == lit@.contains(c),
{
    let mut k: usize = 0;
    while k < lit.len()
        invariant
            k <= lit@.len(),
            forall|j: int| 0 <= j < k ==> lit@[j] != c,
        decreases lit.len() - k,
    {
        if lit[k] == c {
            return true;
        }
        k = k + 1;
    }
    false
}

fn scan_digits(lit: &Vec<char>, i: usize) -> (r: usize)
    requires
        i <= lit.len(),
    ensures
        r as int == digits_end(lit@, i as int),
        i <= r <= lit.len(),
{
    let mut k: usize = i;
    while k < lit.len() && is_ascii_digit(lit[k])
        invariant
            i <= k <= lit.len(),
            digits_end(lit@, k as int) == digits_end(lit@, i as int),
        decreases lit.len() - k,
    {
        k = k + 1;
    }
    k
}

fn is_float_text(lit: &Vec<char>) -> (r: bool)
    ensures
        r == float_text(lit@),
{
    let p = scan_digits(lit, 0);
    if p == 0 || p >= lit.len() || lit[p] != '.' {
        return false;
    }
    let q = scan_digits(lit, p + 1);
    if q == lit.len() {
        return true;
    }
    q + 1 < lit.len() && (lit[q] == 'e' || lit[q] == 'E') && scan_digits(lit, q + 1) == lit.len()
}

/// `v` read as the bits of a two's-complement `i32`.
fn wrap_to_i32(v: u64) -> (r: i32)
    requires
        v < 0x1_0000_0000,
    ensures
        r == wrap_i32(v as int),
{
    if v < 0x8000_0000 {
        v as i32
    } else {
        (v as i64 - 0x1_0000_0000) as i32
    }
}

/// Decodes `0` `marker` digits in `base`, keeping the low 32 bits.
fn parse_radix(lit: &Vec<char>, marker: char, base: u32) -> (r: Option<TokenType>)
    requires
        2 <= base <= 16,
    ensures
        r == radix_literal(lit@, marker, base as int),
{
    if lit.len() < 2 || lit[0] != '0' || lit[1] != marker {
        return None;
    }
    let ghost digits = lit@.skip(2);
    let mut v: u64 = 0;
    let mut k: usize = 2;
    while k < lit.len()
        invariant
            2 <= k <= lit@.len(),
            digits == lit@.skip(2),
            2 <= base <= 16,
            v < 0x1_0000_0000,
            v == radix_value(lit@.subrange(2, k as int), base as int) % 0x1_0000_0000,
            all_digits(lit@.subrange(2, k as int), base as int),
        decreases lit.len() - k,
    {
        let d = to_digit(lit[k]);
        if d >= base {
            assert(digits[k - 2] == lit@[k as int]);
            return None;
        }
        let ghost prev = lit@.subrange(2, k as int);
        let ghost next = lit@.subrange(2, k + 1);
        proof {
            assert(next.drop_last() =~= prev);
            lemma_step_mod(radix_value(prev, base as int), base as int, d as int);
            assert(v * base <= 0xF_FFFF_FFFF) by (nonlinear_arith)
                requires
                    v < 0x1_0000_0000,
                    base <= 16,
            ;
        }
        v = (v * base as u64 + d as u64) % 0x1_0000_0000;
        k = k + 1;
        assert(all_digits(next, base as int)) by {
            assert forall|j: int| 0 <= j < next.len() implies #[trigger] digit_value(next[j])
                < base by {
                if j < prev.len() {
                    assert(next[j] == prev[j]);
                }
            }
        }
    }
    assert(lit@.subrange(2, lit@.len() as int) =~= digits);
    Some(TokenType::Integer(wrap_to_i32(v)))
}

/// Decodes a decimal literal that must fit in an `i32`.
fn parse_decimal(lit: &Vec<char>) -> (r: Option<TokenType>)
    ensures
        r == (if all_digits(lit@, 10) && radix_value(lit@, 10) <= i32::MAX {
            Some(TokenType::Integer(radix_value(lit@, 10) as i32))
        } else {
            None
        }),
{
    let mut v: i64 = 0;
    let mut k: usize = 0;
    while k < lit.len()
        invariant
            k <= lit@.len(),
            0 <= v <= i32::MAX,
            v == radix_value(lit@.take(k as int), 10),
            all_digits(lit@.take(k as int), 10),
        decreases lit.len() - k,
    {
        let d = to_digit(lit[k]);
        if d >= 10 {
            return None;
        }
        let ghost prev = lit@.take(k as int);
        let ghost next = lit@.take(k + 1);
        assert(next.drop_last() =~= prev);
        v = v * 10 + d as i64;
        k = k + 1;
        if v > i32::MAX as i64 {
            proof {
                lemma_radix_prefix_le(lit@, k as int, 10);
            }
            return None;
        }
        assert(all_digits(next, 10)) by {
            assert forall|j: int| 0 <= j < next.len() implies #[trigger] digit_value(next[j])
                < 10 by {
                if j < prev.len() {
                    assert(next[j] == prev[j]);
                }
            }
        }
    }
    assert(lit@.take(lit@.len() as int) =~= lit@);
    Some(TokenType::Integer(v as i32))
}

/// The token kind, with its value, that the text of a numeric literal decodes to.
fn parse_numeric_literal(lit: &Vec<char>) -> (r: Option<TokenType>)
    ensures
        r == decode_number(lit@),
{
    if contains_char(lit, 'x') {
        parse_radix(lit, 'x', 16)
    } else if contains_char(lit, 'b') {
        parse_radix(lit, 'b', 2)
    } else if contains_char(lit, '.') {
        if is_float_text(lit) {
            Some(TokenType::Number)
        } else {
            None
        }
    } else {
        parse_decimal(lit)
    }
}

// ---------------------------------------------------------------------------
// Scanning
// ---------------------------------------------------------------------------

/// What the parser sees of the scanner: the current token's kind and text,
/// and the cursor after it.
pub struct LexState {
    pub tok: TokenType,
    pub lit: Seq<char>,
    pub pos: int,
}

/// Scans the next token after `st`.
pub open spec fn advance(s: Seq<char>, st: LexState) -> Result<LexState, (ErrorKind, int)> {
    match scan(s, st.pos) {
        Ok((t, lit, e)) => Ok(LexState { tok: t, lit, pos: e }),
        Err(f) => Err(f),
    }
}

/// Checks that the current token is of kind `tt`, then scans the next one.
pub open spec fn expect(s: Seq<char>, st: LexState, tt: TokenType) -> Result<
    LexState,
    (ErrorKind, int),
> {
    if st.tok == tt {
        advance(s, st)
    } else {
        Err((ErrorKind::UnexpectedToken { expected: tt, found: st.tok }, st.pos))
    }
}

/// `after` is in the state that `outcome` gives, and `r` reports it.
pub open spec fn stepped(
    s: Seq<char>,
    outcome: Result<LexState, (ErrorKind, int)>,
    after: Lexer,
    r: Result<(), Error>,
) -> bool {
    match outcome {
        Ok(st) => r is Ok && after.state() == st,
        Err(f) => r is Err && error_at(r->Err_0, s, f),
    }
}

impl Lexer {
    pub open spec fn state(&self) -> LexState {
        LexState { tok: self.lookahead().ttype, lit: self.lookahead().literal@, pos: self.pos() }
    }

    /// Scans a string literal whose opening quote is under the cursor.
    fn tokenize_string_literal(&mut self) -> (r: Result<Token, Error>)
        requires
            old(self).wf(),
            old(self).pos() < old(self).text().len(),
            old(self).text()[old(self).pos()] == '"',
        ensures
            final(self).wf(),
            final(self).text() == old(self).text(),
            final(self).token == old(self).token,
            match scan_string(old(self).text(), old(self).pos() + 1, Seq::empty()) {
                Ok((lit, e)) => r is Ok && r->Ok_0.ttype == TokenType::String && r->Ok_0.literal@
                    == lit && final(self).pos() == e,
                Err(f) => r is Err && error_at(r->Err_0, old(self).text(), f),
            },
    {
        let ghost s = self.text();
        let ghost start = self.pos();
        self.drop();
        let mut literal: Vec<char> = Vec::new();
        while !self.is_empty()
            invariant
                self.wf(),
                self.text() == s,
                s == old(self).text(),
                start == old(self).pos(),
                self.token == old(self).token,
                scan_string(s, self.pos(), literal@) == scan_string(s, start + 1, Seq::empty()),
            decreases s.len() - self.pos(),
        {
            let c = self.source[self.cur];
            if c == '"' {
                self.drop();
                return Ok(Token::new(TokenType::String, string_from_chars(literal)));
            }
            if c == '\n' {
                return Err(self.error(ErrorKind::UnterminatedString));
            }
            if c == '\\' {
                self.drop();
                if self.is_empty() {
                    return Err(self.error(ErrorKind::UnterminatedString));
                }
                let e = self.source[self.cur];
                match escape_char(e) {
                    Some(x) => {
                        literal.push(x);
                        self.drop();
                    },
                    None => {
                        return Err(self.error(ErrorKind::InvalidEscapeSequence(e)));
                    },
                }
            } else {
                literal.push(c);
                self.drop();
            }
        }
        Err(self.error(ErrorKind::UnterminatedString))
    }

    /// Scans one token from the cursor on, leaving the current token as it is.
    fn scan_token(&mut self) -> (r: Result<Token, Error>)
        requires
            old(self).wf(),
        ensures
            final(self).wf(),
            final(self).text() == old(self).text(),
            final(self).token == old(self).token,
            scanned_as(old(self).text(), old(self).pos(), r, final(self).pos()),
    {
        let ghost s = self.text();
        let ghost start = self.pos();
        self.trim_left();
        while !self.is_empty() && self.source[self.cur] == '~'
            invariant
                self.wf(),
                self.text() == s,
                self.token == old(self).token,
                start <= self.pos(),
                skip_trivia(s, self.pos()) == skip_trivia(s, start),
                self.pos() < s.len() ==> !whitespace(s[self.pos()]),
            decreases s.len() - self.pos(),
        {
            proof {
                lemma_line_end_bounds(s, self.pos());
            }
            self.drop_line();
            self.trim_left();
        }
        let p = self.cur;
        assert(p == skip_trivia(s, start));
        if self.is_empty() {
            return Ok(Token::empty());
        }
        let first = self.source[self.cur];

        if is_ascii_alpha(first) || first == '_' {
            while !self.is_empty() && (is_ascii_alpha(self.source[self.cur]) || is_ascii_digit(
                self.source[self.cur],
            ) || self.source[self.cur] == '_')
                invariant
                    self.wf(),
                    self.text() == s,
                    self.token == old(self).token,
                    p <= self.pos(),
                    ident_end(s, self.pos()) == ident_end(s, p as int),
                decreases s.len() - self.pos(),
            {
                self.drop();
            }
            let lit = copy_chars(&self.source, p, self.cur);
            let kw = is_keyword(lit.as_slice());
            let literal = string_from_chars(lit);
            match kw {
                Some(keyword_type) => {
                    return Ok(Token::new(keyword_type, literal));
                },
                None => {
                    return Ok(Token::new(TokenType::Ident, literal));
                },
            }
        }
        if is_ascii_digit(first) {
            while !self.is_empty() && (is_ascii_alpha(self.source[self.cur]) || is_ascii_digit(
                self.source[self.cur],
            ) || self.source[self.cur] == '.')
                invariant
                    self.wf(),
                    self.text() == s,
                    self.token == old(self).token,
                    p <= self.pos(),
                    number_end(s, self.pos()) == number_end(s, p as int),
                decreases s.len() - self.pos(),
            {
                self.drop();
            }
            let lit = copy_chars(&self.source, p, self.cur);
            match parse_numeric_literal(&lit) {
                Some(ttype_and_val) => {
                    return Ok(Token::new(ttype_and_val, string_from_chars(lit)));
                },
                None => {
                    return Err(self.error(ErrorKind::InvalidNumericLiteral));
                },
            }
        }
        if first == '"' {
            return self.tokenize_string_literal();
        }
        if let Some(tt) = is_single_char_token(first) {
            self.drop();
            if !self.is_empty() {
                let next = self.source[self.cur];
                if is_single_char_token(next).is_some() {
                    if let Some(dtt) = is_double_char_token(first, next) {
                        self.drop();
                        let pair = vec![first, next];
                        assert(pair@ =~= seq![first, next]);
                        return Ok(Token::new(dtt, string_from_chars(pair)));
                    }
                }
            }
            let one = vec![first];
            assert(one@ =~= seq![first]);
            return Ok(Token::new(tt, string_from_chars(one)));
        }
        Err(self.error(ErrorKind::UnexpectedCharacter(first)))
    }

    /// Scans the next token and makes it the current one.
    pub fn next_token(&mut self) -> (r: Result<Token, Error>)
        requires
            old(self).wf(),
        ensures
            final(self).wf(),
            final(self).text() == old(self).text(),
            scanned_as(old(self).text(), old(self).pos(), r, final(self).pos()),
            r is Ok ==> final(self).lookahead() == r->Ok_0,
            r is Err ==> final(self).lookahead() == old(self).lookahead(),
            stepped(
                old(self).text(),
                advance(old(self).text(), old(self).state()),
                *final(self),
                match r {
                    Ok(_) => Ok(()),
                    Err(e) => Err(e),
                },
            ),
    {
        match self.scan_token() {
            Ok(token) => {
                self.token = Token { ttype: token.ttype, literal: token.literal.clone() };
                Ok(token)
            },
            Err(e) => Err(e),
        }
    }

    /// Moves past the current token if it is of kind `tt`; fails otherwise.
    pub fn match_token(&mut self, tt: TokenType) -> (r: Result<(), Error>)
        requires
            old(self).wf(),
        ensures
            final(self).wf(),
            final(self).text() == old(self).text(),
            stepped(old(self).text(), expect(old(self).text(), old(self).state(), tt), *final(self), r),
    {
        if self.token.ttype == tt {
            match self.next_token() {
                Ok(_) => Ok(()),
                Err(e) => Err(e),
            }
        } else {
            Err(
                self.error(
                    ErrorKind::UnexpectedToken { expected: tt, found: self.token.ttype },
                ),
            )
        }
    }
}

impl Lexer {
    /// An error of `kind` at the cursor.
    pub fn error(&self, kind: ErrorKind) -> (r: Error)
        requires
            self.wf(),
        ensures
            error_at(r, self.text(), (kind, self.pos())),
    {
        Error { kind, line: self.row, column: self.cur - self.bol }
    }

    /// The kind of the current token.
    pub fn current_type(&self) -> (r: TokenType)
        ensures
            r == self.lookahead().ttype,
    {
        self.token.ttype
    }

    /// The text of the current token.
    pub fn current_literal(&self) -> (r: String)
        ensures
            r@ == self.lookahead().literal@,
    {
        self.token.literal.clone()
    }

    pub proof fn lemma_pos_in_text(&self)
        requires
            self.wf(),
        ensures
            0 <= self.pos() <= self.text().len(),
    {
    }
}

// ---------------------------------------------------------------------------
// Progress
// ---------------------------------------------------------------------------

proof fn lemma_skip_trivia_bounds(s: Seq<char>, i: int)
    requires
        0 <= i <= s.len(),
    ensures
        i <= skip_trivia(s, i) <= s.len(),
    decreases s.len() - i,
{
    if i < s.len() {
        if whitespace(s[i]) {
            lemma_skip_trivia_bounds(s, i + 1);
        } else if s[i] == '~' {
            lemma_line_end_bounds(s, i);
            lemma_skip_trivia_bounds(s, line_end(s, i));
        }
    }
}

proof fn lemma_ident_end_bounds(s: Seq<char>, i: int)
    requires
        0 <= i <= s.len(),
    ensures
        i <= ident_end(s, i) <= s.len(),
    decreases s.len() - i,
{
    if i < s.len() && ident_char(s[i]) {
        lemma_ident_end_bounds(s, i + 1);
    }
}

proof fn lemma_number_end_bounds(s: Seq<char>, i: int)
    requires
        0 <= i <= s.len(),
    ensures
        i <= number_end(s, i) <= s.len(),
    decreases s.len() - i,
{
    if i < s.len() && number_char(s[i]) {
        lemma_number_end_bounds(s, i + 1);
    }
}

proof fn lemma_scan_string_bounds(s: Seq<char>, i: int, acc: Seq<char>)
    requires
        0 <= i,
    ensures
        scan_string(s, i, acc) matches Ok((_, e)) ==> i < e <= s.len(),
    decreases s.len() - i,
{
    if 0 <= i < s.len() && s[i] != '"' && s[i] != '\n' {
        if s[i] == '\\' {
            if i + 1 < s.len() {
                if let Some(e) = escape(s[i + 1]) {
                    lemma_scan_string_bounds(s, i + 2, acc.push(e));
                }
            }
        } else {
            lemma_scan_string_bounds(s, i + 1, acc.push(s[i]));
        }
    }
}

/// Scanning never moves backwards, stays within the text, and moves forward
/// whenever it yields a token other than the end of input.
pub proof fn lemma_scan_progress(s: Seq<char>, i: int)
    ensures
        scan(s, i) matches Ok((t, _, e)) ==> {
            &&& i <= e
            &&& 0 <= i <= s.len() ==> e <= s.len()
            &&& !(0 <= i <= s.len()) ==> e == i
            &&& t != TokenType::Empty ==> 0 <= i < e <= s.len()
        },
{
    if 0 <= i <= s.len() {
        lemma_skip_trivia_bounds(s, i);
        let p = skip_trivia(s, i);
        if p < s.len() {
            lemma_ident_end_bounds(s, p + 1);
            lemma_number_end_bounds(s, p + 1);
            lemma_scan_string_bounds(s, p + 1, Seq::empty());
        }
    }
}

// ---------------------------------------------------------------------------
// Laws
// ---------------------------------------------------------------------------

proof fn lemma_number_end_all(s: Seq<char>, i: int)
    requires
        0 <= i <= s.len(),
        forall|k: int| i <= k < s.len() ==> number_char(#[trigger] s[k]),
    ensures
        number_end(s, i) == s.len(),
    decreases s.len() - i,
{
    if i < s.len() {
        lemma_number_end_all(s, i + 1);
    }
}

/// A text made only of decimal digits, whose value fits in an `i32`, scans as
/// one integer token holding that value, with the whole text as its literal.
pub proof fn lemma_decimal_token(s: Seq<char>)
    requires
        s.len() > 0,
        forall|k: int| 0 <= k < s.len() ==> ascii_digit(#[trigger] s[k]),
        radix_value(s, 10) <= i32::MAX,
    ensures
        scan(s, 0) == Ok::<(TokenType, Seq<char>, int), (ErrorKind, int)>(
            (TokenType::Integer(radix_value(s, 10) as i32), s, s.len() as int),
        ),
{
    assert(ascii_digit(s[0]));
    assert(skip_trivia(s, 0) == 0);
    lemma_number_end_all(s, 0);
    assert(s.subrange(0, s.len() as int) =~= s);
    assert(!s.contains('x'));
    assert(!s.contains('b'));
    assert(!s.contains('.'));
    assert(all_digits(s, 10)) by {
        assert forall|k: int| 0 <= k < s.len() implies #[trigger] digit_value(s[k]) < 10 by {
            assert(ascii_digit(s[k]));
        }
    }
}

/// Scanning is a function of the text and the cursor alone: two scanners over
/// the same text with the same cursor scan the same next token, so fresh
/// scanners over one text yield the same token sequence.
pub proof fn lemma_scan_deterministic(a: Lexer, b: Lexer)
    requires
        a.wf(),
        b.wf(),
        a.text() == b.text(),
        a.pos() == b.pos(),
    ensures
        scan(a.text(), a.pos()) == scan(b.text(), b.pos()),
        advance(a.text(), a.state()) == advance(b.text(), b.state()),
{
}

} // verus!
