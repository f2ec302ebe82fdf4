//! The scanner: one left-to-right pass over the source bytes that yields the
//! tokens and the problems found, in order.

use vstd::prelude::*;
use vstd::utf8::{valid_utf8, decode_utf8, encode_utf8, decode_utf8_encode_utf8};
use crate::number::{Number, Rat, text_value, digit_text};
use crate::natural::{pow10, lemma_pow10_positive};
use crate::text::{push_char, push_text};
use crate::token::{Literal, LiteralView, Token, TokenType, TokenView, token_views};
use crate::tokenizer_error::TokenizerError;

verus! {

pub open spec fn is_digit_byte(b: u8) -> bool {
    48 <= b <= 57
}

pub open spec fn is_alpha_byte(b: u8) -> bool {
    (65 <= b <= 90) || (97 <= b <= 122) || b == 95
}

pub open spec fn is_word_byte(b: u8) -> bool {
    is_alpha_byte(b) || is_digit_byte(b)
}

pub open spec fn is_blank_byte(b: u8) -> bool {
    b == 32 || b == 9 || b == 13
}

/// The end of the run of digits that starts at `i`.
pub open spec fn digits_end(src: Seq<u8>, i: int) -> int
    decreases src.len() - i,
{
    if 0 <= i < src.len() && is_digit_byte(src[i]) {
        digits_end(src, i + 1)
    } else {
        i
    }
}

/// The end of the run of letters, digits and underscores that starts at `i`.
pub open spec fn word_end(src: Seq<u8>, i: int) -> int
    decreases src.len() - i,
{
    if 0 <= i < src.len() && is_word_byte(src[i]) {
        word_end(src, i + 1)
    } else {
        i
    }
}

/// The position of the first newline at or after `i`, or the end of input.
pub open spec fn line_end(src: Seq<u8>, i: int) -> int
    decreases src.len() - i,
{
    if 0 <= i < src.len() && src[i] != 10 {
        line_end(src, i + 1)
    } else {
        i
    }
}

/// The position of the first double quote at or after `i`, or the end of input.
pub open spec fn quote_end(src: Seq<u8>, i: int) -> int
    decreases src.len() - i,
{
    if 0 <= i < src.len() && src[i] != 34 {
        quote_end(src, i + 1)
    } else {
        i
    }
}

/// The number of newline bytes in `s`.
pub open spec fn newlines(s: Seq<u8>) -> nat
    decreases s.len(),
{
    if s.len() == 0 {
        0
    } else {
        newlines(s.drop_last()) + if s.last() == 10 {
            1nat
        } else {
            0nat
        }
    }
}

/// Bytes read as characters, one for one.
pub open spec fn ascii_text(b: Seq<u8>) -> Seq<char> {
    b.map_values(|x: u8| x as char)
}

/// The integer written by a run of decimal digits.
pub open spec fn digits_value(s: Seq<u8>) -> nat
    decreases s.len(),
{
    if s.len() == 0 {
        0
    } else {
        digits_value(s.drop_last()) * 10 + (s.last() - 48) as nat
    }
}

/// The value of a number literal whose digits, point left out, are
/// `digits` and of which `frac_len` follow the point.
pub open spec fn decimal_number(digits: Seq<u8>, frac_len: nat) -> Rat {
    Rat { num: digits_value(digits) as int, den: pow10(frac_len) as int }
}

/// The kind of a token made of one byte.
pub open spec fn single_kind(c: u8) -> Option<TokenType> {
    if c == 40 {
        Some(TokenType::Left_Paren)
    } else if c == 41 {
        Some(TokenType::Right_Paren)
    } else if c == 123 {
        Some(TokenType::Left_Brace)
    } else if c == 125 {
        Some(TokenType::Right_Brace)
    } else if c == 42 {
        Some(TokenType::Star)
    } else if c == 46 {
        Some(TokenType::Dot)
    } else if c == 44 {
        Some(TokenType::Comma)
    } else if c == 45 {
        Some(TokenType::Minus)
    } else if c == 43 {
        Some(TokenType::Plus)
    } else if c == 59 {
        Some(TokenType::Semicolon)
    } else {
        None
    }
}

/// The kinds of a token that is `c` alone or `c` followed by `=`.
pub open spec fn pair_kinds(c: u8) -> Option<(TokenType, TokenType)> {
    if c == 61 {
        Some((TokenType::Equal, TokenType::Equal_Equal))
    } else if c == 33 {
        Some((TokenType::Bang, TokenType::Bang_Equal))
    } else if c == 60 {
        Some((TokenType::Less, TokenType::Less_Equal))
    } else if c == 62 {
        Some((TokenType::Greater, TokenType::Greater_Equal))
    } else {
        None
    }
}

/// The kind of a word: its keyword, or `Identifier`.
pub open spec fn keyword_kind(w: Seq<char>) -> TokenType {
    if w == "and"@ {
        TokenType::And
    } else if w == "class"@ {
        TokenType::Class
    } else if w == "else"@ {
        TokenType::Else
    } else if w == "false"@ {
        TokenType::False
    } else if w == "for"@ {
        TokenType::For
    } else if w == "fun"@ {
        TokenType::Fun
    } else if w == "if"@ {
        TokenType::If
    } else if w == "nil"@ {
        TokenType::Nil
    } else if w == "or"@ {
        TokenType::Or
    } else if w == "print"@ {
        TokenType::Print
    } else if w == "return"@ {
        TokenType::Return
    } else if w == "super"@ {
        TokenType::Super
    } else if w == "this"@ {
        TokenType::This
    } else if w == "true"@ {
        TokenType::True
    } else if w == "var"@ {
        TokenType::Var
    } else if w == "while"@ {
        TokenType::While
    } else {
        TokenType::Identifier
    }
}

pub open spec fn plain_token(kind: TokenType, lexeme: Seq<char>, line: int) -> TokenView {
    TokenView { kind, lexeme, literal: LiteralView::Nil, line }
}

/// What one step of the scan does.
pub enum Step {
    /// Whitespace or a comment: nothing recorded.
    Skip,
    /// A token recorded.
    Emit(TokenView),
    /// A problem recorded.
    Fault(TokenizerError),
}

/// A string literal that starts at `pos`: the step, the next position, the
/// next line.
pub open spec fn string_step(src: Seq<u8>, pos: int, line: int) -> (Step, int, int) {
    let close = quote_end(src, pos + 1);
    let content = src.subrange(pos + 1, close);
    let end_line = line + newlines(content);
    if close >= src.len() {
        (Step::Fault(TokenizerError::UnterminatedString { line: line as usize }), close, end_line)
    } else if valid_utf8(content) {
        let value = decode_utf8(content);
        (
            Step::Emit(
                TokenView {
                    kind: TokenType::String,
                    lexeme: seq!['"'] + value + seq!['"'],
                    literal: LiteralView::Str(value),
                    line: end_line,
                },
            ),
            close + 1,
            end_line,
        )
    } else {
        (Step::Fault(TokenizerError::InvalidUTF8String { line: end_line as usize }), close + 1, end_line)
    }
}

/// A number literal that starts at `pos`: digits, then a point and digits
/// if a point follows.
pub open spec fn number_step(src: Seq<u8>, pos: int, line: int) -> (Step, int, int) {
    let int_end = digits_end(src, pos);
    let has_point = int_end < src.len() && src[int_end] == 46;
    let end = if has_point {
        digits_end(src, int_end + 1)
    } else {
        int_end
    };
    let digits = if has_point {
        src.subrange(pos, int_end) + src.subrange(int_end + 1, end)
    } else {
        src.subrange(pos, int_end)
    };
    let frac_len: nat = if has_point {
        (end - int_end - 1) as nat
    } else {
        0
    };
    (
        Step::Emit(
            TokenView {
                kind: TokenType::Number,
                lexeme: ascii_text(src.subrange(pos, end)),
                literal: LiteralView::Num(decimal_number(digits, frac_len)),
                line,
            },
        ),
        end,
        line,
    )
}

/// A word that starts at `pos`: a keyword or an identifier.
pub open spec fn word_step(src: Seq<u8>, pos: int, line: int) -> (Step, int, int) {
    let end = word_end(src, pos);
    let text = ascii_text(src.subrange(pos, end));
    (Step::Emit(plain_token(keyword_kind(text), text, line)), end, line)
}

/// The step of the scan at `pos` (which is inside the input), on line `line`.
pub open spec fn step(src: Seq<u8>, pos: int, line: int) -> (Step, int, int) {
    let c = src[pos];
    let next_is_eq = pos + 1 < src.len() && src[pos + 1] == 61;
    if c == 34 {
        string_step(src, pos, line)
    } else if is_digit_byte(c) {
        number_step(src, pos, line)
    } else if single_kind(c) is Some {
        (Step::Emit(plain_token(single_kind(c).unwrap(), seq![c as char], line)), pos + 1, line)
    } else if pair_kinds(c) is Some {
        let kinds = pair_kinds(c).unwrap();
        if next_is_eq {
            (Step::Emit(plain_token(kinds.1, seq![c as char, '='], line)), pos + 2, line)
        } else {
            (Step::Emit(plain_token(kinds.0, seq![c as char], line)), pos + 1, line)
        }
    } else if c == 47 {
        if pos + 1 < src.len() && src[pos + 1] == 47 {
            (Step::Skip, line_end(src, pos + 2), line)
        } else {
            (Step::Emit(plain_token(TokenType::Slash, seq!['/'], line)), pos + 1, line)
        }
    } else if is_blank_byte(c) {
        (Step::Skip, pos + 1, line)
    } else if c == 10 {
        (Step::Skip, pos + 1, line + 1)
    } else if is_alpha_byte(c) {
        word_step(src, pos, line)
    } else {
        (Step::Fault(TokenizerError::UnexpectedCharacter { line: line as usize, ch: c as char }), pos + 1, line)
    }
}

pub open spec fn eof_token(line: int) -> TokenView {
    plain_token(TokenType::EOF, seq![], line)
}

/// The tokens and problems of the scan from `pos` on, on line `line`: the
/// tokens end with one `EOF` token on the last line.
pub open spec fn scan_from(src: Seq<u8>, pos: int, line: int) -> (Seq<TokenView>, Seq<TokenizerError>)
    decreases src.len() - pos,
{
    if pos < 0 || pos >= src.len() {
        (seq![eof_token(line)], seq![])
    } else {
        let s = step(src, pos, line);
        if s.1 <= pos || s.1 > src.len() {
            // every step moves forward, and stays within the input
            (seq![eof_token(line)], seq![])
        } else {
            let rest = scan_from(src, s.1, s.2);
            match s.0 {
                Step::Skip => rest,
                Step::Emit(t) => (seq![t] + rest.0, rest.1),
                Step::Fault(e) => (rest.0, seq![e] + rest.1),
            }
        }
    }
}

/// The tokens and problems of the whole input, which starts on line 1.
pub open spec fn scan(src: Seq<u8>) -> (Seq<TokenView>, Seq<TokenizerError>) {
    scan_from(src, 0, 1)
}

/// `s` is recorded in the tokens and problems: `t1`, `e1` are `t0`, `e0`
/// after it.
pub open spec fn recorded(
    s: Step,
    t0: Seq<TokenView>,
    e0: Seq<TokenizerError>,
    t1: Seq<TokenView>,
    e1: Seq<TokenizerError>,
) -> bool {
    match s {
        Step::Skip => t1 == t0 && e1 == e0,
        Step::Emit(t) => t1 == t0.push(t) && e1 == e0,
        Step::Fault(e) => t1 == t0 && e1 == e0.push(e),
    }
}

/// The step `s` was taken from `pos` on line `line`: it is recorded, and
/// `r` is the next position and line.
pub open spec fn step_taken(
    s: (Step, int, int),
    pos: int,
    t0: Seq<Token>,
    e0: Seq<TokenizerError>,
    t1: Seq<Token>,
    e1: Seq<TokenizerError>,
    r: (usize, usize),
    len: int,
) -> bool {
    &&& recorded(s.0, token_views(t0), e0, token_views(t1), e1)
    &&& r.0 == s.1
    &&& r.1 == s.2
    &&& pos < r.0 <= len
    &&& 1 <= r.1 <= r.0 + 1
}

/// Whether `c` may start a word: an ASCII letter or `_`.
pub fn is_alpha(c: &u8) -> (r: bool)
    ensures
        r == is_alpha_byte(*c),
{
    (*c >= 65 && *c <= 90) || (*c >= 97 && *c <= 122) || *c == 95
}

/// Whether `c` may continue a word: an ASCII letter, digit or `_`.
pub fn is_alphanumeric(c: &u8) -> (r: bool)
    ensures
        r == is_word_byte(*c),
{
    is_alpha(c) || (*c >= 48 && *c <= 57)
}

fn push_token(tokens: &mut Vec<Token>, t: Token)
    requires
    ensures
        final(tokens)@ == old(tokens)@.push(t),
        token_views(final(tokens)@) == token_views(old(tokens)@).push(t@),
{
    tokens.push(t);
    assert(token_views(tokens@) =~= token_views(old(tokens)@).push(t@));
}

/// A one-byte token.
fn push_simple_token(
    token_type: TokenType,
    src: &[u8],
    pos: usize,
    line: usize,
    tokens: &mut Vec<Token>,
    errors: &mut Vec<TokenizerError>,
) -> (r: (usize, usize))
    requires
        pos < src@.len() < usize::MAX,
        1 <= line <= pos + 1,
        single_kind(src@[pos as int]) == Some(token_type),
    ensures
        step_taken(step(src@, pos as int, line as int), pos as int, old(tokens)@, old(errors)@,
            final(tokens)@, final(errors)@, r, src@.len() as int),
{
    let mut lexeme = String::new();
    push_char(&mut lexeme, src[pos] as char);
    push_token(tokens, Token::new(token_type, lexeme, Literal::Nil, line));
    (pos + 1, line)
}

/// `=`, `!`, `<` or `>`, and a following `=` if there is one.
fn parse_double_char_token(
    src: &[u8],
    pos: usize,
    line: usize,
    single_char_type: TokenType,
    double_char_type: TokenType,
    tokens: &mut Vec<Token>,
    errors: &mut Vec<TokenizerError>,
) -> (r: (usize, usize))
    requires
        pos < src@.len() < usize::MAX,
        1 <= line <= pos + 1,
        src@[pos as int] != 34,
        !is_digit_byte(src@[pos as int]),
        single_kind(src@[pos as int]) is None,
        pair_kinds(src@[pos as int]) == Some((single_char_type, double_char_type)),
    ensures
        step_taken(step(src@, pos as int, line as int), pos as int, old(tokens)@, old(errors)@,
            final(tokens)@, final(errors)@, r, src@.len() as int),
{
    let mut lexeme = String::new();
    push_char(&mut lexeme, src[pos] as char);
    if pos + 1 < src.len() && src[pos + 1] == 61 {
        push_char(&mut lexeme, '=');
        assert(lexeme@ =~= seq![src@[pos as int] as char, '=']);
        push_token(tokens, Token::new(double_char_type, lexeme, Literal::Nil, line));
        (pos + 2, line)
    } else {
        assert(lexeme@ =~= seq![src@[pos as int] as char]);
        push_token(tokens, Token::new(single_char_type, lexeme, Literal::Nil, line));
        (pos + 1, line)
    }
}

/// `/`, or a comment that runs to the end of the line.
fn parse_slash(
    src: &[u8],
    pos: usize,
    line: usize,
    tokens: &mut Vec<Token>,
    errors: &mut Vec<TokenizerError>,
) -> (r: (usize, usize))
    requires
        pos < src@.len() < usize::MAX,
        1 <= line <= pos + 1,
        src@[pos as int] == 47,
    ensures
        step_taken(step(src@, pos as int, line as int), pos as int, old(tokens)@, old(errors)@,
            final(tokens)@, final(errors)@, r, src@.len() as int),
{
    if pos + 1 < src.len() && src[pos + 1] == 47 {
        let mut i = pos + 2;
        while i < src.len() && src[i] != 10
            invariant
                pos + 2 <= i <= src@.len(),
                line_end(src@, i as int) == line_end(src@, pos + 2),
            decreases src@.len() - i,
        {
            i = i + 1;
        }
        (i, line)
    } else {
        let mut lexeme = String::new();
        push_char(&mut lexeme, '/');
        push_token(tokens, Token::new(TokenType::Slash, lexeme, Literal::Nil, line));
        (pos + 1, line)
    }
}

/// Whether the text of `text` is `w`.
fn is_word(text: &String, w: &str) -> (r: bool)
    ensures
        r == (text@ == w@),
{
    let k = String::from_str(w);
    *text == k
}

/// The kind of a scanned word.
fn word_type(text: &String) -> (k: TokenType)
    ensures
        k == keyword_kind(text@),
{
    if is_word(text, "and") {
        TokenType::And
    } else if is_word(text, "class") {
        TokenType::Class
    } else if is_word(text, "else") {
        TokenType::Else
    } else if is_word(text, "false") {
        TokenType::False
    } else if is_word(text, "for") {
        TokenType::For
    } else if is_word(text, "fun") {
        TokenType::Fun
    } else if is_word(text, "if") {
        TokenType::If
    } else if is_word(text, "nil") {
        TokenType::Nil
    } else if is_word(text, "or") {
        TokenType::Or
    } else if is_word(text, "print") {
        TokenType::Print
    } else if is_word(text, "return") {
        TokenType::Return
    } else if is_word(text, "super") {
        TokenType::Super
    } else if is_word(text, "this") {
        TokenType::This
    } else if is_word(text, "true") {
        TokenType::True
    } else if is_word(text, "var") {
        TokenType::Var
    } else if is_word(text, "while") {
        TokenType::While
    } else {
        TokenType::Identifier
    }
}

/// A keyword or an identifier.
fn parse_identifier(
    src: &[u8],
    pos: usize,
    line: usize,
    tokens: &mut Vec<Token>,
    errors: &mut Vec<TokenizerError>,
) -> (r: (usize, usize))
    requires
        pos < src@.len() < usize::MAX,
        1 <= line <= pos + 1,
        word_step(src@, pos as int, line as int) == step(src@, pos as int, line as int),
        is_alpha_byte(src@[pos as int]),
    ensures
        step_taken(step(src@, pos as int, line as int), pos as int, old(tokens)@, old(errors)@,
            final(tokens)@, final(errors)@, r, src@.len() as int),
{
    let mut text = String::new();
    let mut i = pos;
    while i < src.len() && is_alphanumeric(&src[i])
        invariant
            pos <= i <= src@.len(),
            word_end(src@, i as int) == word_end(src@, pos as int),
            text@ == ascii_text(src@.subrange(pos as int, i as int)),
            i == pos ==> is_word_byte(src@[pos as int]),
        decreases src@.len() - i,
    {
        push_char(&mut text, src[i] as char);
        assert(ascii_text(src@.subrange(pos as int, i + 1)) =~= ascii_text(
            src@.subrange(pos as int, i as int),
        ).push(src@[i as int] as char));
        i = i + 1;
    }
    let kind = word_type(&text);
    push_token(tokens, Token::new(kind, text, Literal::Nil, line));
    (i, line)
}

/// Relies on `String::from_utf8`: it accepts exactly the well-formed UTF-8
/// byte sequences, and returns the characters that they encode.
#[verifier::external_body]
fn string_from_utf8(bytes: Vec<u8>) -> (r: Option<String>)
    ensures
        r is Some <==> valid_utf8(bytes@),
        r matches Some(s) ==> s@ == decode_utf8(bytes@),
{
    String::from_utf8(bytes).ok()
}

proof fn lemma_newlines_push(s: Seq<u8>, b: u8)
    ensures
        newlines(s.push(b)) == newlines(s) + if b == 10 {
            1nat
        } else {
            0nat
        },
{
    assert(s.push(b).drop_last() =~= s);
}

proof fn lemma_digits_value_push(s: Seq<u8>, b: u8)
    ensures
        digits_value(s.push(b)) == digits_value(s) * 10 + (b - 48) as nat,
{
    assert(s.push(b).drop_last() =~= s);
}

/// Digits read as text have the value they spell.
proof fn lemma_digit_text(d: Seq<u8>)
    requires
        forall|k: int| 0 <= k < d.len() ==> is_digit_byte(#[trigger] d[k]),
    ensures
        digit_text(ascii_text(d)),
        text_value(ascii_text(d)) == digits_value(d),
    decreases d.len(),
{
    if d.len() > 0 {
        lemma_digit_text(d.drop_last());
        assert(ascii_text(d).drop_last() =~= ascii_text(d.drop_last()));
        assert(ascii_text(d).last() == d.last() as char);
        assert((d.last() as char) as nat == d.last() as nat);
    }
}

/// A string literal: the bytes up to the closing quote, decoded.
fn parse_string(
    src: &[u8],
    pos: usize,
    line: usize,
    tokens: &mut Vec<Token>,
    errors: &mut Vec<TokenizerError>,
) -> (r: (usize, usize))
    requires
        pos < src@.len() < usize::MAX,
        1 <= line <= pos + 1,
        src@[pos as int] == 34,
    ensures
        step_taken(string_step(src@, pos as int, line as int), pos as int, old(tokens)@, old(errors)@,
            final(tokens)@, final(errors)@, r, src@.len() as int),
{
    let mut content: Vec<u8> = Vec::new();
    let mut cur = line;
    let mut i = pos + 1;
    while i < src.len() && src[i] != 34
        invariant
            pos + 1 <= i <= src@.len() < usize::MAX,
            1 <= line <= pos + 1,
            quote_end(src@, i as int) == quote_end(src@, pos + 1),
            content@ == src@.subrange(pos + 1, i as int),
            cur == line + newlines(src@.subrange(pos + 1, i as int)),
            cur <= line + (i - pos - 1),
        decreases src@.len() - i,
    {
        proof {
            lemma_newlines_push(src@.subrange(pos + 1, i as int), src@[i as int]);
            assert(src@.subrange(pos + 1, i + 1) =~= src@.subrange(pos + 1, i as int).push(
                src@[i as int],
            ));
        }
        if src[i] == 10 {
            cur = cur + 1;
        }
        content.push(src[i]);
        i = i + 1;
    }
    if i >= src.len() {
        errors.push(TokenizerError::UnterminatedString { line });
        (i, cur)
    } else {
        match string_from_utf8(content) {
            Some(value) => {
                let mut lexeme = String::new();
                push_char(&mut lexeme, '"');
                push_text(&mut lexeme, &value);
                push_char(&mut lexeme, '"');
                assert(lexeme@ =~= seq!['"'] + value@ + seq!['"']);
                push_token(tokens, Token::new(TokenType::String, lexeme, Literal::Str(value), cur));
                (i + 1, cur)
            },
            None => {
                errors.push(TokenizerError::InvalidUTF8String { line: cur });
                (i + 1, cur)
            },
        }
    }
}

/// Digits, then a point and digits if a point follows.
fn parse_number(
    src: &[u8],
    pos: usize,
    line: usize,
    tokens: &mut Vec<Token>,
    errors: &mut Vec<TokenizerError>,
) -> (r: (usize, usize))
    requires
        pos < src@.len() < usize::MAX,
        1 <= line <= pos + 1,
        is_digit_byte(src@[pos as int]),
    ensures
        step_taken(number_step(src@, pos as int, line as int), pos as int, old(tokens)@, old(errors)@,
            final(tokens)@, final(errors)@, r, src@.len() as int),
{
    let mut lexeme = String::new();
    let mut digits: Vec<u8> = Vec::new();
    let mut i = pos;
    while i < src.len() && src[i] >= 48 && src[i] <= 57
        invariant
            pos <= i <= src@.len() < usize::MAX,
            digits_end(src@, i as int) == digits_end(src@, pos as int),
            i == pos ==> is_digit_byte(src@[pos as int]),
            lexeme@ == ascii_text(src@.subrange(pos as int, i as int)),
            digits@ == src@.subrange(pos as int, i as int),
        decreases src@.len() - i,
    {
        proof {
            assert(ascii_text(src@.subrange(pos as int, i + 1)) =~= ascii_text(
                src@.subrange(pos as int, i as int),
            ).push(src@[i as int] as char));
        }
        push_char(&mut lexeme, src[i] as char);
        digits.push(src[i]);
        i = i + 1;
        assert(digits@ =~= src@.subrange(pos as int, i as int));
    }
    let int_end = i;
    let mut frac_len: usize = 0;
    let mut den = String::new();
    push_char(&mut den, '1');
    proof {
        assert(den@ =~= seq!['1']);
        assert(den@.drop_last() =~= Seq::<char>::empty());
        assert(text_value(Seq::<char>::empty()) == 0);
        assert(den@.last() == '1');
        assert(('1' as nat) == 49);
        assert(text_value(den@) == text_value(den@.drop_last()) * 10 + ((den@.last() as nat) - 48) as nat);
        assert(text_value(den@) == 1);
        assert(pow10(0) == 1);
    }
    if i < src.len() && src[i] == 46 {
        proof {
            assert(ascii_text(src@.subrange(pos as int, i + 1)) =~= ascii_text(
                src@.subrange(pos as int, i as int),
            ).push(src@[i as int] as char));
        }
        push_char(&mut lexeme, src[i] as char);
        i = i + 1;
        assert(digits@ =~= src@.subrange(pos as int, int_end as int) + src@.subrange(
            int_end + 1,
            i as int,
        ));
        while i < src.len() && src[i] >= 48 && src[i] <= 57
            invariant
                int_end + 1 <= i <= src@.len() < usize::MAX,
                pos <= int_end,
                int_end < src@.len(),
                src@[int_end as int] == 46,
                digits_end(src@, i as int) == digits_end(src@, int_end + 1),
                frac_len == i - int_end - 1,
                lexeme@ == ascii_text(src@.subrange(pos as int, i as int)),
                digits@ == src@.subrange(pos as int, int_end as int) + src@.subrange(
                    int_end + 1,
                    i as int,
                ),
                digit_text(den@),
                text_value(den@) == pow10(frac_len as nat),
            decreases src@.len() - i,
        {
            proof {
                assert(ascii_text(src@.subrange(pos as int, i + 1)) =~= ascii_text(
                    src@.subrange(pos as int, i as int),
                ).push(src@[i as int] as char));
                assert(den@.push('0').drop_last() =~= den@);
            }
            push_char(&mut lexeme, src[i] as char);
            digits.push(src[i]);
            push_char(&mut den, '0');
            frac_len = frac_len + 1;
            i = i + 1;
            assert(digits@ =~= src@.subrange(pos as int, int_end as int) + src@.subrange(
                int_end + 1,
                i as int,
            ));
        }
    }
    let mut num = String::new();
    let mut k: usize = 0;
    proof {
        lemma_digits_end(src@, pos as int);
        if int_end < src@.len() {
            lemma_digits_end(src@, int_end + 1);
        }
        assert forall|j: int| 0 <= j < digits@.len() implies is_digit_byte(#[trigger] digits@[j]) by {
            if j < int_end - pos {
                assert(digits@[j] == src@[pos + j]);
            } else {
                assert(digits@[j] == src@[int_end + 1 + (j - (int_end - pos))]);
            }
        }
        lemma_digit_text(digits@);
        lemma_pow10_positive(frac_len as nat);
    }
    while k < digits.len()
        invariant
            k <= digits@.len(),
            num@ == ascii_text(digits@.subrange(0, k as int)),
        decreases digits@.len() - k,
    {
        push_char(&mut num, digits[k] as char);
        k = k + 1;
        assert(num@ =~= ascii_text(digits@.subrange(0, k as int)));
    }
    assert(digits@.subrange(0, k as int) =~= digits@);
    let n = Number::from_texts(num, den);
    push_token(tokens, Token::new(TokenType::Number, lexeme, Literal::Num(n), line));
    (i, line)
}

/// One step of the scan at `pos`.
fn scan_one(
    src: &[u8],
    pos: usize,
    line: usize,
    tokens: &mut Vec<Token>,
    errors: &mut Vec<TokenizerError>,
) -> (r: (usize, usize))
    requires
        pos < src@.len() < usize::MAX,
        1 <= line <= pos + 1,
    ensures
        step_taken(step(src@, pos as int, line as int), pos as int, old(tokens)@, old(errors)@,
            final(tokens)@, final(errors)@, r, src@.len() as int),
{
    let c = src[pos];
    if c == 34 {
        parse_string(src, pos, line, tokens, errors)
    } else if c >= 48 && c <= 57 {
        parse_number(src, pos, line, tokens, errors)
    } else if c == 40 {
        push_simple_token(TokenType::Left_Paren, src, pos, line, tokens, errors)
    } else if c == 41 {
        push_simple_token(TokenType::Right_Paren, src, pos, line, tokens, errors)
    } else if c == 123 {
        push_simple_token(TokenType::Left_Brace, src, pos, line, tokens, errors)
    } else if c == 125 {
        push_simple_token(TokenType::Right_Brace, src, pos, line, tokens, errors)
    } else if c == 42 {
        push_simple_token(TokenType::Star, src, pos, line, tokens, errors)
    } else if c == 46 {
        push_simple_token(TokenType::Dot, src, pos, line, tokens, errors)
    } else if c == 44 {
        push_simple_token(TokenType::Comma, src, pos, line, tokens, errors)
    } else if c == 45 {
        push_simple_token(TokenType::Minus, src, pos, line, tokens, errors)
    } else if c == 43 {
        push_simple_token(TokenType::Plus, src, pos, line, tokens, errors)
    } else if c == 59 {
        push_simple_token(TokenType::Semicolon, src, pos, line, tokens, errors)
    } else if c == 61 {
        parse_double_char_token(src, pos, line, TokenType::Equal, TokenType::Equal_Equal, tokens, errors)
    } else if c == 33 {
        parse_double_char_token(src, pos, line, TokenType::Bang, TokenType::Bang_Equal, tokens, errors)
    } else if c == 60 {
        parse_double_char_token(src, pos, line, TokenType::Less, TokenType::Less_Equal, tokens, errors)
    } else if c == 62 {
        parse_double_char_token(src, pos, line, TokenType::Greater, TokenType::Greater_Equal, tokens, errors)
    } else if c == 47 {
        parse_slash(src, pos, line, tokens, errors)
    } else if c == 32 || c == 9 || c == 13 {
        (pos + 1, line)
    } else if c == 10 {
        (pos + 1, line + 1)
    } else if is_alpha(&c) {
        parse_identifier(src, pos, line, tokens, errors)
    } else {
        errors.push(TokenizerError::UnexpectedCharacter { line, ch: c as char });
        (pos + 1, line)
    }
}

/// The position of the first `.` in `s` at or after `i`, or the length of
/// `s`.
pub open spec fn point_at(s: Seq<char>, i: int) -> int
    decreases s.len() - i,
{
    if 0 <= i < s.len() && s[i] != '.' {
        point_at(s, i + 1)
    } else {
        i
    }
}

/// The number that a number lexeme writes: its digits, point left out,
/// over ten to the number of digits after the point.
pub open spec fn lexeme_number(s: Seq<char>) -> Rat {
    let k = point_at(s, 0);
    if k < s.len() {
        Rat {
            num: text_value(s.subrange(0, k) + s.subrange(k + 1, s.len() as int)) as int,
            den: pow10((s.len() - k - 1) as nat) as int,
        }
    } else {
        Rat { num: text_value(s) as int, den: 1 }
    }
}

/// A token's literal agrees with its lexeme: a number token carries the
/// number its lexeme writes, and a string token's lexeme is its text
/// between two quotes.
pub open spec fn literal_matches(t: TokenView) -> bool {
    &&& t.kind == TokenType::Number ==> t.literal == LiteralView::Num(lexeme_number(t.lexeme))
    &&& t.kind == TokenType::String ==> {
        &&& t.lexeme.len() >= 2
        &&& t.lexeme[0] == '"'
        &&& t.lexeme.last() == '"'
        &&& t.literal == LiteralView::Str(t.lexeme.subrange(1, t.lexeme.len() - 1))
    }
}

proof fn lemma_point_at(s: Seq<char>, i: int, k: int)
    requires
        0 <= i <= k <= s.len(),
        forall|j: int| i <= j < k ==> #[trigger] s[j] != '.',
        k < s.len() ==> s[k] == '.',
    ensures
        point_at(s, i) == k,
    decreases k - i,
{
    if i < k {
        lemma_point_at(s, i + 1, k);
    }
}

/// A token that the scan emits has a literal that agrees with its lexeme.
proof fn lemma_step_literal_matches(src: Seq<u8>, pos: int, line: int)
    requires
        0 <= pos < src.len(),
    ensures
        step(src, pos, line).0 matches Step::Emit(t) ==> literal_matches(t),
{
    let st = step(src, pos, line);
    let c = src[pos];
    if c == 34 {
        if let Step::Emit(t) = st.0 {
            let close = quote_end(src, pos + 1);
            let value = decode_utf8(src.subrange(pos + 1, close));
            assert(t.lexeme.subrange(1, t.lexeme.len() - 1) =~= value);
        }
    } else if is_digit_byte(c) {
        let int_end = digits_end(src, pos);
        let has_point = int_end < src.len() && src[int_end] == 46;
        let end = st.1;
        lemma_digits_end(src, pos);
        if int_end < src.len() {
            lemma_digits_end(src, int_end + 1);
        }
        let span = src.subrange(pos, end);
        let text = ascii_text(span);
        let digits = if has_point {
            src.subrange(pos, int_end) + src.subrange(int_end + 1, end)
        } else {
            src.subrange(pos, int_end)
        };
        assert forall|j: int| 0 <= j < digits.len() implies is_digit_byte(#[trigger] digits[j]) by {
            if j < int_end - pos {
                assert(digits[j] == src[pos + j]);
            } else {
                assert(digits[j] == src[int_end + 1 + (j - (int_end - pos))]);
            }
        }
        lemma_digit_text(digits);
        let k = int_end - pos;
        assert forall|j: int| 0 <= j < k implies #[trigger] text[j] != '.' by {
            assert(is_digit_byte(src[pos + j]));
            assert(text[j] == src[pos + j] as char);
        }
        if has_point {
            assert(text[k] == '.');
            lemma_point_at(text, 0, k);
            assert(text.subrange(0, k) + text.subrange(k + 1, text.len() as int) =~= ascii_text(
                digits,
            ));
        } else {
            assert(end == int_end);
            lemma_point_at(text, 0, text.len() as int);
            assert(text =~= ascii_text(digits));
            assert(pow10(0) == 1);
        }
    }
}

/// Scans the whole input: the tokens, which end with one `EOF` token and
/// whose literals agree with their lexemes, and the problems found, each in
/// the order of the input.
pub fn tokenize(contents: &[u8]) -> (r: (Vec<Token>, Vec<TokenizerError>))
    requires
        contents@.len() < usize::MAX,
    ensures
        token_views(r.0@) == scan(contents@).0,
        r.1@ == scan(contents@).1,
        crate::parser::tokens_ok(r.0@),
{
    let mut tokens: Vec<Token> = Vec::new();
    let mut errors: Vec<TokenizerError> = Vec::new();
    let mut pos: usize = 0;
    let mut line: usize = 1;
    assert(token_views(tokens@) =~= seq![]);
    while pos < contents.len()
        invariant
            pos <= contents@.len() < usize::MAX,
            1 <= line <= pos + 1,
            scan(contents@).0 == token_views(tokens@) + scan_from(contents@, pos as int, line as int).0,
            scan(contents@).1 == errors@ + scan_from(contents@, pos as int, line as int).1,
            forall|i: int| 0 <= i < tokens@.len() ==> literal_matches(#[trigger] tokens@[i]@),
        decreases contents@.len() - pos,
    {
        let ghost t0 = token_views(tokens@);
        let ghost e0 = errors@;
        let ghost v0 = tokens@;
        proof {
            lemma_step_literal_matches(contents@, pos as int, line as int);
        }
        let r = scan_one(contents, pos, line, &mut tokens, &mut errors);
        proof {
            assert forall|i: int| 0 <= i < tokens@.len() implies literal_matches(
                #[trigger] tokens@[i]@,
            ) by {
                assert(token_views(tokens@)[i] == tokens@[i]@);
                assert(t0.len() == v0.len());
                if i < v0.len() {
                    assert(token_views(v0)[i] == v0[i]@);
                    assert(token_views(tokens@)[i] == token_views(v0)[i]);
                } else {
                    match step(contents@, pos as int, line as int).0 {
                        Step::Emit(t) => {
                            assert(token_views(tokens@) == t0.push(t));
                            assert(token_views(tokens@)[i] == t);
                        },
                        _ => {
                            assert(token_views(tokens@) == t0);
                        },
                    }
                }
            }
            let rest = scan_from(contents@, r.0 as int, r.1 as int);
            match step(contents@, pos as int, line as int).0 {
                Step::Skip => {},
                Step::Emit(t) => {
                    assert(t0 + (seq![t] + rest.0) =~= t0.push(t) + rest.0);
                },
                Step::Fault(e) => {
                    assert(e0 + (seq![e] + rest.1) =~= e0.push(e) + rest.1);
                },
            }
        }
        pos = r.0;
        line = r.1;
    }
    let ghost t0 = token_views(tokens@);
    let ghost v0 = tokens@;
    push_token(&mut tokens, Token::new(TokenType::EOF, String::new(), Literal::Nil, line));
    assert(token_views(tokens@) =~= t0 + seq![eof_token(line as int)]);
    assert forall|i: int| 0 <= i < tokens@.len() implies literal_matches(#[trigger] tokens@[i]@) by {
        if i < v0.len() {
            assert(tokens@[i] == v0[i]);
        }
    }
    assert(errors@ =~= errors@ + Seq::<TokenizerError>::empty());
    (tokens, errors)
}

/// A byte that is neither whitespace nor the start of a comment or a
/// string.
pub open spec fn is_plain_byte(b: u8) -> bool {
    !is_blank_byte(b) && b != 10 && b != 47 && b != 34
}

/// The source from `pos` on without its whitespace and comments; string
/// literals are kept whole, quotes included.
pub open spec fn significant(src: Seq<u8>, pos: int) -> Seq<u8>
    decreases src.len() - pos,
{
    if pos < 0 || pos >= src.len() {
        seq![]
    } else {
        let c = src[pos];
        if is_blank_byte(c) || c == 10 {
            significant(src, pos + 1)
        } else if c == 47 && pos + 1 < src.len() && src[pos + 1] == 47 {
            let e = line_end(src, pos + 2);
            if e <= pos || e > src.len() {
                seq![]
            } else {
                significant(src, e)
            }
        } else if c == 34 {
            let close = quote_end(src, pos + 1);
            if close <= pos || close >= src.len() {
                src.subrange(pos, src.len() as int)
            } else {
                src.subrange(pos, close + 1) + significant(src, close + 1)
            }
        } else {
            seq![c] + significant(src, pos + 1)
        }
    }
}

/// The lexemes of the tokens, each encoded in UTF-8, one after another.
pub open spec fn lexeme_bytes(ts: Seq<TokenView>) -> Seq<u8>
    decreases ts.len(),
{
    if ts.len() == 0 {
        seq![]
    } else {
        encode_utf8(ts[0].lexeme) + lexeme_bytes(ts.drop_first())
    }
}

proof fn lemma_digits_end(src: Seq<u8>, i: int)
    requires
        0 <= i <= src.len(),
    ensures
        i <= digits_end(src, i) <= src.len(),
        forall|k: int| i <= k < digits_end(src, i) ==> is_digit_byte(#[trigger] src[k]),
    decreases src.len() - i,
{
    if i < src.len() && is_digit_byte(src[i]) {
        lemma_digits_end(src, i + 1);
    }
}

proof fn lemma_word_end(src: Seq<u8>, i: int)
    requires
        0 <= i <= src.len(),
    ensures
        i <= word_end(src, i) <= src.len(),
        forall|k: int| i <= k < word_end(src, i) ==> is_word_byte(#[trigger] src[k]),
    decreases src.len() - i,
{
    if i < src.len() && is_word_byte(src[i]) {
        lemma_word_end(src, i + 1);
    }
}

proof fn lemma_line_end(src: Seq<u8>, i: int)
    requires
        0 <= i <= src.len(),
    ensures
        i <= line_end(src, i) <= src.len(),
    decreases src.len() - i,
{
    if i < src.len() && src[i] != 10 {
        lemma_line_end(src, i + 1);
    }
}

proof fn lemma_quote_end(src: Seq<u8>, i: int)
    requires
        0 <= i <= src.len(),
    ensures
        i <= quote_end(src, i) <= src.len(),
        quote_end(src, i) < src.len() ==> src[quote_end(src, i)] == 34,
    decreases src.len() - i,
{
    if i < src.len() && src[i] != 34 {
        lemma_quote_end(src, i + 1);
    }
}

/// Every step of the scan moves forward and stays within the input.
proof fn lemma_step_advances(src: Seq<u8>, pos: int, line: int)
    requires
        0 <= pos < src.len(),
    ensures
        pos < step(src, pos, line).1 <= src.len(),
{
    let c = src[pos];
    if c == 34 {
        lemma_quote_end(src, pos + 1);
    } else if is_digit_byte(c) {
        lemma_digits_end(src, pos + 1);
        assert(digits_end(src, pos) == digits_end(src, pos + 1));
        let int_end = digits_end(src, pos);
        if int_end < src.len() {
            lemma_digits_end(src, int_end + 1);
        }
    } else if c == 47 && pos + 1 < src.len() && src[pos + 1] == 47 {
        lemma_line_end(src, pos + 2);
    } else if is_alpha_byte(c) {
        lemma_word_end(src, pos + 1);
        assert(word_end(src, pos) == word_end(src, pos + 1));
    }
}

/// Text made of plain bytes appears in `significant` as it is.
proof fn lemma_significant_run(src: Seq<u8>, pos: int, end: int)
    requires
        0 <= pos <= end <= src.len(),
        forall|k: int| pos <= k < end ==> is_plain_byte(#[trigger] src[k]),
    ensures
        significant(src, pos) == src.subrange(pos, end) + significant(src, end),
    decreases end - pos,
{
    if pos < end {
        lemma_significant_run(src, pos + 1, end);
        assert(src.subrange(pos, end) =~= seq![src[pos]] + src.subrange(pos + 1, end));
    } else {
        assert(src.subrange(pos, end) =~= Seq::<u8>::empty());
    }
}

proof fn lemma_encode_ascii_char(b: u8)
    requires
        b < 128,
    ensures
        encode_utf8(seq![b as char]) == seq![b],
{
    let ch = b as char;
    let v = ch as u32;
    assert(v == b as u32);
    assert(((v & 0x7F) as u8) == b) by (bit_vector)
        requires
            v == b as u32,
            v < 128,
    ;
    assert(vstd::utf8::has_width_1_encoding(v));
    assert(vstd::utf8::encode_scalar(v) =~= seq![b]);
    assert(seq![ch].drop_first() =~= Seq::<char>::empty());
    assert(encode_utf8(seq![ch].drop_first()) =~= Seq::<u8>::empty());
    assert(encode_utf8(seq![ch]) == vstd::utf8::encode_scalar(v) + encode_utf8(seq![ch].drop_first()));
    assert(encode_utf8(seq![ch]) =~= seq![b]);
}

proof fn lemma_encode_ascii(b: Seq<u8>)
    requires
        forall|k: int| 0 <= k < b.len() ==> #[trigger] b[k] < 128,
    ensures
        encode_utf8(ascii_text(b)) == b,
    decreases b.len(),
{
    if b.len() > 0 {
        lemma_encode_ascii(b.drop_first());
        lemma_encode_ascii_char(b[0]);
        assert(ascii_text(b).drop_first() =~= ascii_text(b.drop_first()));
        assert(encode_utf8(seq![b[0] as char]) == encode_utf8(seq![ascii_text(b)[0]]));
        assert(b =~= seq![b[0]] + b.drop_first());
    }
}

proof fn lemma_encode_concat(a: Seq<char>, b: Seq<char>)
    ensures
        encode_utf8(a + b) == encode_utf8(a) + encode_utf8(b),
    decreases a.len(),
{
    if a.len() == 0 {
        assert(a + b =~= b);
    } else {
        lemma_encode_concat(a.drop_first(), b);
        assert((a + b).drop_first() =~= a.drop_first() + b);
        assert((a + b)[0] == a[0]);
    }
}

/// The scan from `pos` on, when it reports no problem, gives back the
/// source from `pos` on without whitespace and comments.
#[verifier::rlimit(60)]
proof fn lemma_scan_from_rebuilds(src: Seq<u8>, pos: int, line: int)
    requires
        0 <= pos,
        scan_from(src, pos, line).1.len() == 0,
    ensures
        lexeme_bytes(scan_from(src, pos, line).0) == significant(src, pos),
    decreases src.len() - pos,
{
    if pos >= src.len() {
        let ts = scan_from(src, pos, line).0;
        assert(ts =~= seq![eof_token(line)]);
        assert(ts.drop_first() =~= Seq::<TokenView>::empty());
        assert(lexeme_bytes(ts.drop_first()) =~= Seq::<u8>::empty());
        assert(ts[0].lexeme =~= Seq::<char>::empty());
        assert(encode_utf8(Seq::<char>::empty()) =~= Seq::<u8>::empty());
        assert(lexeme_bytes(ts) =~= encode_utf8(ts[0].lexeme) + lexeme_bytes(ts.drop_first()));
    } else {
        lemma_step_advances(src, pos, line);
        let st = step(src, pos, line);
        let rest = scan_from(src, st.1, st.2);
        let c = src[pos];
        match st.0 {
            Step::Fault(e) => {
                assert((seq![e] + rest.1).len() > 0);
            },
            Step::Skip => {
                lemma_scan_from_rebuilds(src, st.1, st.2);
                if c == 47 {
                    lemma_line_end(src, pos + 2);
                }
                assert(lexeme_bytes(scan_from(src, pos, line).0) == significant(src, pos));
            },
            Step::Emit(t) => {
                lemma_scan_from_rebuilds(src, st.1, st.2);
                let ts = seq![t] + rest.0;
                assert(ts.drop_first() =~= rest.0);
                assert(lexeme_bytes(ts) == encode_utf8(t.lexeme) + significant(src, st.1));
                if c == 34 {
                    let close = quote_end(src, pos + 1);
                    lemma_quote_end(src, pos + 1);
                    let content = src.subrange(pos + 1, close);
                    decode_utf8_encode_utf8(content);
                    lemma_encode_ascii_char(34);
                    lemma_encode_concat(seq!['"'] + decode_utf8(content), seq!['"']);
                    lemma_encode_concat(seq!['"'], decode_utf8(content));
                    assert(src.subrange(pos, close + 1) =~= seq![34u8] + content + seq![34u8]);
                    assert(lexeme_bytes(scan_from(src, pos, line).0) == significant(src, pos));
                } else if is_digit_byte(c) {
                    lemma_digits_end(src, pos);
                    let int_end = digits_end(src, pos);
                    let end = st.1;
                    if int_end < src.len() && src[int_end] == 46 {
                        lemma_digits_end(src, int_end + 1);
                    }
                    assert forall|k: int| pos <= k < end implies is_plain_byte(#[trigger] src[k])
                        && src[k] < 128 by {
                        if k < int_end {
                            assert(is_digit_byte(src[k]));
                        } else if k > int_end {
                            assert(is_digit_byte(src[k]));
                        }
                    }
                    lemma_significant_run(src, pos, end);
                    lemma_encode_ascii(src.subrange(pos, end));
                    assert(lexeme_bytes(scan_from(src, pos, line).0) == significant(src, pos));
                } else if is_alpha_byte(c) && single_kind(c) is None && pair_kinds(c) is None {
                    lemma_word_end(src, pos);
                    let end = st.1;
                    assert forall|k: int| pos <= k < end implies is_plain_byte(#[trigger] src[k])
                        && src[k] < 128 by {
                        assert(is_word_byte(src[k]));
                    }
                    lemma_significant_run(src, pos, end);
                    lemma_encode_ascii(src.subrange(pos, end));
                    assert(lexeme_bytes(scan_from(src, pos, line).0) == significant(src, pos));
                } else if c == 47 {
                    lemma_encode_ascii_char(47);
                    assert(lexeme_bytes(scan_from(src, pos, line).0) == significant(src, pos));
                } else if pair_kinds(c) is Some && pos + 1 < src.len() && src[pos + 1] == 61 {
                    lemma_encode_ascii(seq![c, 61u8]);
                    assert(ascii_text(seq![c, 61u8]) =~= seq![c as char, '=']);
                    lemma_significant_run(src, pos, pos + 2);
                    assert(src.subrange(pos, pos + 2) =~= seq![c, 61u8]);
                    assert(lexeme_bytes(scan_from(src, pos, line).0) == significant(src, pos));
                } else {
                    lemma_encode_ascii_char(c);
                    assert(lexeme_bytes(scan_from(src, pos, line).0) == significant(src, pos));
                }
            },
        }
    }
}

/// Scanning loses nothing but whitespace and comments: when the scan of
/// `src` reports no problem, the lexemes of its tokens, in order and
/// encoded in UTF-8, make up exactly the source without its whitespace and
/// comments (string literals kept whole).
pub proof fn lemma_lexemes_rebuild_source(src: Seq<u8>)
    requires
        scan(src).1.len() == 0,
    ensures
        lexeme_bytes(scan(src).0) == significant(src, 0),
{
    lemma_scan_from_rebuilds(src, 0, 1);
}

/// Between positions `a` and `b` the source holds only whitespace and line
/// comments; a comment runs from `//` to the end of its line.
pub open spec fn is_gap(src: Seq<u8>, a: int, b: int) -> bool
    decreases b - a,
{
    if a >= b {
        a == b
    } else if 0 <= a < src.len() && (is_blank_byte(src[a]) || src[a] == 10) {
        is_gap(src, a + 1, b)
    } else if 0 <= a && a + 1 < src.len() && src[a] == 47 && src[a + 1] == 47 {
        let e = line_end(src, a + 2);
        a < e <= b && is_gap(src, e, b)
    } else {
        false
    }
}

/// The UTF-8 length of a token's lexeme.
pub open spec fn lexeme_len(t: TokenView) -> int {
    encode_utf8(t.lexeme).len() as int
}

/// The tokens lie in the source from `pos` on, in order: token `i` starts
/// at `starts[i]`, where the source holds its lexeme encoded in UTF-8;
/// before the first token and between two tokens there are only
/// whitespace and comments; the last token ends at the end of the source.
pub open spec fn laid_out(src: Seq<u8>, pos: int, toks: Seq<TokenView>, starts: Seq<int>) -> bool {
    &&& toks.len() >= 1
    &&& starts.len() == toks.len()
    &&& forall|i: int|
        0 <= i < toks.len() ==> pos <= #[trigger] starts[i] && starts[i] + lexeme_len(toks[i])
            <= src.len() && src.subrange(starts[i], starts[i] + lexeme_len(toks[i]))
            == encode_utf8(toks[i].lexeme)
    &&& is_gap(src, pos, starts[0])
    &&& forall|i: int|
        1 <= i < toks.len() ==> is_gap(src, starts[i - 1] + lexeme_len(toks[i - 1]), #[trigger] starts[i])
    &&& starts[toks.len() - 1] + lexeme_len(toks[toks.len() - 1]) == src.len()
}

proof fn lemma_gap_ordered(src: Seq<u8>, a: int, b: int)
    requires
        is_gap(src, a, b),
    ensures
        a <= b,
    decreases b - a,
{
}

/// A token that the scan emits at `pos` is the source text up to the next
/// position.
proof fn lemma_emit_slice(src: Seq<u8>, pos: int, line: int)
    requires
        0 <= pos < src.len(),
        step(src, pos, line).0 is Emit,
    ensures
        src.subrange(pos, step(src, pos, line).1) == encode_utf8(step(src, pos, line).0->Emit_0.lexeme),
{
    lemma_step_advances(src, pos, line);
    let st = step(src, pos, line);
    let t = st.0->Emit_0;
    let c = src[pos];
    if c == 34 {
        let close = quote_end(src, pos + 1);
        lemma_quote_end(src, pos + 1);
        let content = src.subrange(pos + 1, close);
        decode_utf8_encode_utf8(content);
        lemma_encode_ascii_char(34);
        lemma_encode_concat(seq!['"'] + decode_utf8(content), seq!['"']);
        lemma_encode_concat(seq!['"'], decode_utf8(content));
        assert(src.subrange(pos, close + 1) =~= seq![34u8] + content + seq![34u8]);
    } else if is_digit_byte(c) {
        lemma_digits_end(src, pos);
        let int_end = digits_end(src, pos);
        let end = st.1;
        if int_end < src.len() && src[int_end] == 46 {
            lemma_digits_end(src, int_end + 1);
        }
        assert forall|k: int| 0 <= k < end - pos implies #[trigger] src.subrange(pos, end)[k] < 128 by {
            if pos + k < int_end {
                assert(is_digit_byte(src[pos + k]));
            } else if pos + k > int_end {
                assert(is_digit_byte(src[pos + k]));
            }
        }
        lemma_encode_ascii(src.subrange(pos, end));
    } else if is_alpha_byte(c) && single_kind(c) is None && pair_kinds(c) is None {
        lemma_word_end(src, pos);
        let end = st.1;
        assert forall|k: int| 0 <= k < end - pos implies #[trigger] src.subrange(pos, end)[k] < 128 by {
            assert(is_word_byte(src[pos + k]));
        }
        lemma_encode_ascii(src.subrange(pos, end));
    } else if c == 47 {
        lemma_encode_ascii_char(47);
        assert(src.subrange(pos, pos + 1) =~= seq![47u8]);
    } else if pair_kinds(c) is Some && pos + 1 < src.len() && src[pos + 1] == 61 {
        lemma_encode_ascii(seq![c, 61u8]);
        assert(ascii_text(seq![c, 61u8]) =~= seq![c as char, '=']);
        assert(src.subrange(pos, pos + 2) =~= seq![c, 61u8]);
    } else {
        lemma_encode_ascii_char(c);
        assert(src.subrange(pos, pos + 1) =~= seq![c]);
    }
}

/// Where the tokens of the scan from `pos` on start.
#[verifier::rlimit(60)]
proof fn lemma_layout_from(src: Seq<u8>, pos: int, line: int) -> (starts: Seq<int>)
    requires
        0 <= pos <= src.len(),
        scan_from(src, pos, line).1.len() == 0,
    ensures
        laid_out(src, pos, scan_from(src, pos, line).0, starts),
    decreases src.len() - pos,
{
    if pos >= src.len() {
        let toks = scan_from(src, pos, line).0;
        assert(toks =~= seq![eof_token(line)]);
        assert(encode_utf8(Seq::<char>::empty()) =~= Seq::<u8>::empty());
        assert(lexeme_len(toks[0]) == 0);
        assert(src.subrange(pos, pos) =~= encode_utf8(toks[0].lexeme));
        seq![pos]
    } else {
        lemma_step_advances(src, pos, line);
        let st = step(src, pos, line);
        let rest = scan_from(src, st.1, st.2);
        let c = src[pos];
        match st.0 {
            Step::Fault(e) => {
                assert((seq![e] + rest.1).len() > 0);
                seq![pos]
            },
            Step::Skip => {
                let rs = lemma_layout_from(src, st.1, st.2);
                lemma_gap_ordered(src, st.1, rs[0]);
                if c == 47 {
                    lemma_line_end(src, pos + 2);
                }
                assert(is_gap(src, pos, rs[0]));
                rs
            },
            Step::Emit(t) => {
                let rs = lemma_layout_from(src, st.1, st.2);
                lemma_emit_slice(src, pos, line);
                lemma_layout_prepend(src, pos, st.1, t, rest.0, rs);
                seq![pos] + rs
            },
        }
    }
}

/// A token whose lexeme is the source from `pos` to `next`, put before
/// tokens laid out from `next` on.
proof fn lemma_layout_prepend(
    src: Seq<u8>,
    pos: int,
    next: int,
    t: TokenView,
    rest: Seq<TokenView>,
    rs: Seq<int>,
)
    requires
        0 <= pos < next <= src.len(),
        src.subrange(pos, next) == encode_utf8(t.lexeme),
        laid_out(src, next, rest, rs),
    ensures
        laid_out(src, pos, seq![t] + rest, seq![pos] + rs),
{
    let toks = seq![t] + rest;
    let starts = seq![pos] + rs;
    assert(lexeme_len(t) == next - pos);
    assert forall|i: int| 0 <= i < toks.len() implies pos <= #[trigger] starts[i] && starts[i]
        + lexeme_len(toks[i]) <= src.len() && src.subrange(starts[i], starts[i] + lexeme_len(toks[i]))
        == encode_utf8(toks[i].lexeme) by {
        if i > 0 {
            assert(toks[i] == rest[i - 1]);
            assert(starts[i] == rs[i - 1]);
        }
    }
    assert forall|i: int| 1 <= i < toks.len() implies is_gap(
        src,
        starts[i - 1] + lexeme_len(toks[i - 1]),
        #[trigger] starts[i],
    ) by {
        assert(toks[i] == rest[i - 1]);
        assert(starts[i] == rs[i - 1]);
        if i > 1 {
            assert(toks[i - 1] == rest[i - 2]);
            assert(starts[i - 1] == rs[i - 2]);
        }
    }
    assert(toks[toks.len() - 1] == rest[rest.len() - 1]);
    assert(starts[toks.len() - 1] == rs[rs.len() - 1]);
}

/// Scanning keeps each lexeme where it stands: when the scan of `src`
/// reports no problem, each token's lexeme, encoded in UTF-8, is one
/// contiguous slice of the source; the slices come in the order of the
/// tokens; and the text before, between and after them is only whitespace
/// and comments. Joined with those gaps, the lexemes give back the source.
pub proof fn lemma_lexemes_lie_in_source(src: Seq<u8>)
    requires
        scan(src).1.len() == 0,
    ensures
        exists|starts: Seq<int>| laid_out(src, 0, scan(src).0, starts),
{
    let starts = lemma_layout_from(src, 0, 1);
    assert(laid_out(src, 0, scan(src).0, starts));
}

} // verus!
