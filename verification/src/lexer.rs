use crate::token::{Token, TokenModel};
use vstd::prelude::*;
use vstd::string::StringSliceAdditionalSpecFns;

verus! {

// ---------------------------------------------------------------------------
// Byte classification
// ---------------------------------------------------------------------------

/// Whitespace skipped between tokens: space, tab, newline, carriage return.
pub open spec fn is_ws(b: u8) -> bool {
    b == 32 || b == 9 || b == 10 || b == 13  // ' ', '\t', '\n', '\r'
}

/// Bytes that may form an identifier or keyword: ASCII letters and underscore.
pub open spec fn is_letter(b: u8) -> bool {
    (97 <= b <= 122) || (65 <= b <= 90) || b == 95  // 'a'-'z', 'A'-'Z', '_'
}

/// ASCII decimal digits.
pub open spec fn is_digit(b: u8) -> bool {
    48 <= b <= 57  // '0'-'9'
}

/// The token for a single operator or delimiter byte, if the byte is one.
pub open spec fn single_tok(b: u8) -> Option<TokenModel> {
    if b == 61 {  // '='
        Some(TokenModel::ASSIGN)
    } else if b == 59 {  // ';'
        Some(TokenModel::SEMICOLON)
    } else if b == 40 {  // '('
        Some(TokenModel::LPAREN)
    } else if b == 41 {  // ')'
        Some(TokenModel::RPAREN)
    } else if b == 44 {  // ','
        Some(TokenModel::COMMA)
    } else if b == 43 {  // '+'
        Some(TokenModel::PLUS)
    } else if b == 123 {  // '{'
        Some(TokenModel::LBRACE)
    } else if b == 125 {  // '}'
        Some(TokenModel::RBRACE)
    } else if b == 45 {  // '-'
        Some(TokenModel::MINUS)
    } else if b == 33 {  // '!'
        Some(TokenModel::BANG)
    } else if b == 47 {  // '/'
        Some(TokenModel::SLASH)
    } else if b == 42 {  // '*'
        Some(TokenModel::ASTERISK)
    } else if b == 60 {  // '<'
        Some(TokenModel::LT)
    } else if b == 62 {  // '>'
        Some(TokenModel::GT)
    } else {
        None
    }
}

// ---------------------------------------------------------------------------
// Runs of bytes
// ---------------------------------------------------------------------------

/// First index at or after `p` whose byte does not satisfy `pred`
/// (or the end of the input): the end of the run beginning at `p`.
pub open spec fn run_end(s: Seq<u8>, p: int, pred: spec_fn(u8) -> bool) -> int
    decreases s.len() - p,
{
    if 0 <= p < s.len() && pred(s[p]) {
        run_end(s, p + 1, pred)
    } else {
        p
    }
}

/// First non-whitespace index at or after `p`.
pub open spec fn skip_ws(s: Seq<u8>, p: int) -> int {
    run_end(s, p, |b: u8| is_ws(b))
}

/// End of the letter/underscore run beginning at `p`.
pub open spec fn letter_end(s: Seq<u8>, p: int) -> int {
    run_end(s, p, |b: u8| is_letter(b))
}

/// End of the digit run beginning at `p`.
pub open spec fn digit_end(s: Seq<u8>, p: int) -> int {
    run_end(s, p, |b: u8| is_digit(b))
}

pub proof fn lemma_run_end(s: Seq<u8>, p: int, pred: spec_fn(u8) -> bool)
    requires
        0 <= p <= s.len(),
    ensures
        p <= run_end(s, p, pred) <= s.len(),
        forall|j: int| p <= j < run_end(s, p, pred) ==> pred(#[trigger] s[j]),
        run_end(s, p, pred) < s.len() ==> !pred(s[run_end(s, p, pred)]),
    decreases s.len() - p,
{
    if p < s.len() && pred(s[p]) {
        lemma_run_end(s, p + 1, pred);
    }
}

pub proof fn lemma_run_end_unique(s: Seq<u8>, p: int, e: int, pred: spec_fn(u8) -> bool)
    requires
        0 <= p <= e <= s.len(),
        forall|j: int| p <= j < e ==> pred(#[trigger] s[j]),
        e < s.len() ==> !pred(s[e]),
    ensures
        run_end(s, p, pred) == e,
    decreases e - p,
{
    if p < e {
        lemma_run_end_unique(s, p + 1, e, pred);
    }
}

// ---------------------------------------------------------------------------
// Numeric value of a digit run
// ---------------------------------------------------------------------------

/// Base-10 value of a run of ASCII digit bytes.
pub open spec fn digits_val(s: Seq<u8>) -> int
    decreases s.len(),
{
    if s.len() == 0 {
        0
    } else {
        digits_val(s.drop_last()) * 10 + (s.last() - 48)
    }
}

pub proof fn lemma_digits_val_nonneg(s: Seq<u8>)
    requires
        forall|j: int| 0 <= j < s.len() ==> is_digit(#[trigger] s[j]),
    ensures
        digits_val(s) >= 0,
    decreases s.len(),
{
    if s.len() > 0 {
        lemma_digits_val_nonneg(s.drop_last());
    }
}

// ---------------------------------------------------------------------------
// The tokenization, as a mathematical function of the input bytes
// ---------------------------------------------------------------------------

/// The characters an identifier's text is made of: each byte as a character.
pub open spec fn chars_of(s: Seq<u8>) -> Seq<char> {
    s.map_values(|b: u8| b as char)
}

/// The reserved-word token for a letter run, if the run spells a keyword.
pub open spec fn kw_lookup(run: Seq<u8>) -> Option<TokenModel> {
    if run == seq![102u8, 110u8] {  // "fn"
        Some(TokenModel::FUNCTION)
    } else if run == seq![108u8, 101u8, 116u8] {  // "let"
        Some(TokenModel::LET)
    } else if run == seq![105u8, 102u8] {  // "if"
        Some(TokenModel::IF)
    } else if run == seq![101u8, 108u8, 115u8, 101u8] {  // "else"
        Some(TokenModel::ELSE)
    } else if run == seq![114u8, 101u8, 116u8, 117u8, 114u8, 110u8] {  // "return"
        Some(TokenModel::RETURN)
    } else if run == seq![116u8, 114u8, 117u8, 101u8] {  // "true"
        Some(TokenModel::TRUE)
    } else if run == seq![102u8, 97u8, 108u8, 115u8, 101u8] {  // "false"
        Some(TokenModel::FALSE)
    } else {
        None
    }
}

/// Token produced for the letter run starting at `p`: the keyword token if
/// the run spells a reserved word, else an identifier carrying the run.
pub open spec fn ident_token_model(s: Seq<u8>, p: int) -> TokenModel {
    let run = s.subrange(p, letter_end(s, p));
    match kw_lookup(run) {
        Some(t) => t,
        None => TokenModel::IDENT(chars_of(run)),
    }
}

/// Token produced for the digit run starting at `p`: its base-10 value when
/// that fits an `i64`, else an illegal-input token.
pub open spec fn number_token_model(s: Seq<u8>, p: int) -> TokenModel {
    let v = digits_val(s.subrange(p, digit_end(s, p)));
    if v <= i64::MAX {
        TokenModel::INT(v)
    } else {
        TokenModel::ILLEGAL
    }
}

/// One scanning step from position `p`: the token produced and the cursor
/// position after it. Whitespace is skipped first; the 0 byte (or the end of
/// the input) yields `EOF` without moving; a letter or digit begins a maximal
/// run; any other byte is a one-byte token.
pub open spec fn spec_next(s: Seq<u8>, p: int) -> (TokenModel, int) {
    let q = skip_ws(s, p);
    if q >= s.len() || s[q] == 0 {
        (TokenModel::EOF, q)
    } else if is_letter(s[q]) {
        (ident_token_model(s, q), letter_end(s, q))
    } else if is_digit(s[q]) {
        (number_token_model(s, q), digit_end(s, q))
    } else {
        (
            match single_tok(s[q]) {
                Some(t) => t,
                None => TokenModel::ILLEGAL,
            },
            q + 1,
        )
    }
}

pub proof fn lemma_spec_next_bounds(s: Seq<u8>, p: int)
    requires
        0 <= p <= s.len(),
    ensures
        p <= spec_next(s, p).1 <= s.len(),
        spec_next(s, p).0 != TokenModel::EOF ==> spec_next(s, p).1 > p,
        spec_next(s, p).0 == TokenModel::EOF ==> spec_next(s, p).1 == skip_ws(s, p),
{
    lemma_run_end(s, p, |b: u8| is_ws(b));
    let q = skip_ws(s, p);
    if q < s.len() && s[q] != 0 {
        if is_letter(s[q]) {
            lemma_run_end(s, q, |b: u8| is_letter(b));
            assert(letter_end(s, q) > q) by {
                if letter_end(s, q) == q {
                    assert(!is_letter(s[q]));
                }
            }
        } else if is_digit(s[q]) {
            lemma_run_end(s, q, |b: u8| is_digit(b));
            assert(digit_end(s, q) > q) by {
                if digit_end(s, q) == q {
                    assert(!is_digit(s[q]));
                }
            }
        }
    }
}

/// The whole token sequence from position `p`: ends with the first `EOF`.
pub open spec fn spec_tokens(s: Seq<u8>, p: int) -> Seq<TokenModel>
    decreases s.len() - p
        when 0 <= p <= s.len()
        via spec_tokens_decreases
{
    let step = spec_next(s, p);
    if step.0 == TokenModel::EOF {
        seq![TokenModel::EOF]
    } else {
        seq![step.0] + spec_tokens(s, step.1)
    }
}

#[via_fn]
proof fn spec_tokens_decreases(s: Seq<u8>, p: int) {
    lemma_spec_next_bounds(s, p);
}

// ---------------------------------------------------------------------------
// Executable byte classification and literal building
// ---------------------------------------------------------------------------

fn is_letter_byte(b: u8) -> (r: bool)
    ensures
        r == is_letter(b),
{
    (97 <= b && b <= 122) || (65 <= b && b <= 90) || b == 95  // 'a'-'z', 'A'-'Z', '_'
}

fn is_digit_byte(b: u8) -> (r: bool)
    ensures
        r == is_digit(b),
{
    48 <= b && b <= 57  // '0'-'9'
}

/// Relies on String::push: appends the given character to the end of the string.
#[verifier::external_body]
fn push_char(s: &mut String, c: char)
    ensures
        final(s)@ == old(s)@.push(c),
{
    s.push(c);
}

/// Builds the text of the byte range `start..end` as a string, one character
/// per byte.
fn run_string(bytes: &[u8], start: usize, end: usize) -> (r: String)
    requires
        start <= end <= bytes@.len(),
    ensures
        r@ == chars_of(bytes@.subrange(start as int, end as int)),
{
    let mut s = String::new();
    let mut i = start;
    proof {
        assert(s@ =~= chars_of(bytes@.subrange(start as int, start as int)));
    }
    while i < end
        invariant
            start <= i <= end <= bytes@.len(),
            s@ == chars_of(bytes@.subrange(start as int, i as int)),
        decreases end - i,
    {
        let b = bytes[i];
        push_char(&mut s, b as char);
        proof {
            assert(bytes@.subrange(start as int, i + 1) =~= bytes@.subrange(
                start as int,
                i as int,
            ).push(b));
            assert(s@ =~= chars_of(bytes@.subrange(start as int, i + 1)));
        }
        i = i + 1;
    }
    s
}

/// The keyword token for the byte range `start..end`, if it spells one.
fn keyword_lookup(bytes: &[u8], start: usize, end: usize) -> (r: Option<Token>)
    requires
        start <= end <= bytes@.len(),
    ensures
        (match r {
            Some(t) => kw_lookup(bytes@.subrange(start as int, end as int)) == Some(t@),
            None => kw_lookup(bytes@.subrange(start as int, end as int)) is None,
        }),
{
    let ghost run = bytes@.subrange(start as int, end as int);
    let n = end - start;
    if n == 2 {
        let b0 = bytes[start];
        let b1 = bytes[start + 1];
        // "fn"
        if b0 == 102 && b1 == 110 {
            proof {
                assert(run =~= seq![102u8, 110u8]);
            }
            Some(Token::FUNCTION)
        } else if b0 == 105 && b1 == 102 {  // "if"
            proof {
                assert(run =~= seq![105u8, 102u8]);
            }
            Some(Token::IF)
        } else {
            None
        }
    } else if n == 3 {
        let b0 = bytes[start];
        let b1 = bytes[start + 1];
        let b2 = bytes[start + 2];
        // "let"
        if b0 == 108 && b1 == 101 && b2 == 116 {
            proof {
                assert(run =~= seq![108u8, 101u8, 116u8]);
            }
            Some(Token::LET)
        } else {
            None
        }
    } else if n == 4 {
        let b0 = bytes[start];
        let b1 = bytes[start + 1];
        let b2 = bytes[start + 2];
        let b3 = bytes[start + 3];
        // "else"
        if b0 == 101 && b1 == 108 && b2 == 115 && b3 == 101 {
            proof {
                assert(run =~= seq![101u8, 108u8, 115u8, 101u8]);
            }
            Some(Token::ELSE)
        } else if b0 == 116 && b1 == 114 && b2 == 117 && b3 == 101 {  // "true"
            proof {
                assert(run =~= seq![116u8, 114u8, 117u8, 101u8]);
            }
            Some(Token::TRUE)
        } else {
            None
        }
    } else if n == 5 {
        let b0 = bytes[start];
        let b1 = bytes[start + 1];
        let b2 = bytes[start + 2];
        let b3 = bytes[start + 3];
        let b4 = bytes[start + 4];
        // "false"
        if b0 == 102 && b1 == 97 && b2 == 108 && b3 == 115 && b4 == 101 {
            proof {
                assert(run =~= seq![102u8, 97u8, 108u8, 115u8, 101u8]);
            }
            Some(Token::FALSE)
        } else {
            None
        }
    } else if n == 6 {
        let b0 = bytes[start];
        let b1 = bytes[start + 1];
        let b2 = bytes[start + 2];
        let b3 = bytes[start + 3];
        let b4 = bytes[start + 4];
        let b5 = bytes[start + 5];
        // "return"
        if b0 == 114 && b1 == 101 && b2 == 116 && b3 == 117 && b4 == 114 && b5 == 110 {
            proof {
                assert(run =~= seq![114u8, 101u8, 116u8, 117u8, 114u8, 110u8]);
            }
            Some(Token::RETURN)
        } else {
            None
        }
    } else {
        None
    }
}

// ---------------------------------------------------------------------------
// The scanner
// ---------------------------------------------------------------------------

/// A cursor over a borrowed input text. Constructed once per input, then
/// driven to exhaustion by repeated `next_token` calls.
pub struct Lexer<'a> {
    input: &'a [u8],
    position: usize,
    read_position: usize,
    ch: u8,
}

impl<'a> Lexer<'a> {
    /// The bytes being scanned.
    pub closed spec fn bytes(self) -> Seq<u8> {
        self.input@
    }

    /// Index of the byte currently under the cursor.
    pub closed spec fn pos(self) -> int {
        self.position as int
    }

    /// Cursor well-formedness: `ch` caches the byte under the cursor (or the
    /// 0 sentinel at or past the end of the input) and `read_position` is one
    /// ahead of `position`.
    pub closed spec fn wf(self) -> bool {
        &&& self.read_position == self.position + 1
        &&& self.position <= self.input@.len()
        &&& self.input@.len() < usize::MAX
        &&& self.ch == (if self.position < self.input@.len() {
            self.input@[self.position as int]
        } else {
            0u8
        })
    }

    /// The tokens that remain to be returned, final `EOF` included.
    pub open spec fn remaining_tokens(self) -> Seq<TokenModel> {
        spec_tokens(self.bytes(), self.pos())
    }

    pub proof fn lemma_wf_bounds(self)
        requires
            self.wf(),
        ensures
            0 <= self.pos() <= self.bytes().len(),
    {
    }

    /// Binds the input and primes the cursor so `ch` holds the first byte
    /// (or the sentinel for empty input). The length bound is a machine
    /// limit: the cursor must be able to step one past the end.
    pub fn new(input: &'a str) -> (l: Lexer<'a>)
        requires
            input.spec_bytes().len() < usize::MAX,
        ensures
            l.wf(),
            l.bytes() == input.spec_bytes(),
            l.pos() == 0,
    {
        let mut lexer = Lexer { input: input.as_bytes(), position: 0, read_position: 0, ch: 0 };
        lexer.read_char();
        lexer
    }

    /// Advances the cursor one byte: `ch` becomes the byte at
    /// `read_position`, or the 0 sentinel past the end of the input.
    fn read_char(&mut self)
        requires
            old(self).read_position <= old(self).input@.len(),
            old(self).input@.len() < usize::MAX,
        ensures
            final(self).input == old(self).input,
            final(self).position == old(self).read_position,
            final(self).read_position == old(self).read_position + 1,
            final(self).ch == (if old(self).read_position < old(self).input@.len() {
                old(self).input@[old(self).read_position as int]
            } else {
                0u8
            }),
    {
        self.ch = if self.read_position >= self.input.len() {
            0
        } else {
            self.input[self.read_position]
        };
        self.position = self.read_position;
        self.read_position = self.read_position + 1;
    }

    /// Advances the cursor to the first non-whitespace byte.
    fn eat_whitespace(&mut self)
        requires
            old(self).wf(),
        ensures
            final(self).wf(),
            final(self).bytes() == old(self).bytes(),
            final(self).pos() == skip_ws(old(self).bytes(), old(self).pos()),
    {
        loop
            invariant
                self.wf(),
                self.bytes() == old(self).bytes(),
                skip_ws(self.bytes(), self.pos()) == skip_ws(old(self).bytes(), old(self).pos()),
            ensures
                self.wf(),
                self.bytes() == old(self).bytes(),
                self.pos() == skip_ws(old(self).bytes(), old(self).pos()),
            decreases self.bytes().len() - self.pos(),
        {
            let c = self.ch;
            if !(c == 32 || c == 9 || c == 10 || c == 13) {  // ' ', '\t', '\n', '\r'
                proof {
                    assert(skip_ws(self.bytes(), self.pos()) == self.pos());
                }
                break;
            }
            // a whitespace byte is never the 0 sentinel, so the cursor is in bounds
            self.read_char();
        }
    }

    /// Scans the maximal letter/underscore run under the cursor and returns
    /// the keyword token it spells, or an identifier carrying its text.
    fn lookup_ident(&mut self) -> (t: Token)
        requires
            old(self).wf(),
            old(self).pos() < old(self).bytes().len(),
            is_letter(old(self).bytes()[old(self).pos()]),
        ensures
            final(self).wf(),
            final(self).bytes() == old(self).bytes(),
            final(self).pos() == letter_end(old(self).bytes(), old(self).pos()),
            t@ == ident_token_model(old(self).bytes(), old(self).pos()),
    {
        let position = self.position;
        loop
            invariant
                self.wf(),
                self.bytes() == old(self).bytes(),
                position <= self.pos() <= self.bytes().len(),
                letter_end(self.bytes(), self.pos()) == letter_end(
                    old(self).bytes(),
                    old(self).pos(),
                ),
            ensures
                self.wf(),
                self.bytes() == old(self).bytes(),
                self.pos() == letter_end(old(self).bytes(), old(self).pos()),
                position <= self.pos() <= self.bytes().len(),
            decreases self.bytes().len() - self.pos(),
        {
            let c = self.ch;
            if !is_letter_byte(c) {
                proof {
                    assert(letter_end(self.bytes(), self.pos()) == self.pos());
                }
                break;
            }
            // a letter is never the 0 sentinel, so the cursor is in bounds
            self.read_char();
        }
        match keyword_lookup(self.input, position, self.position) {
            Some(t) => t,
            None => Token::IDENT(run_string(self.input, position, self.position)),
        }
    }

    /// Scans the maximal digit run under the cursor and returns its base-10
    /// value as an integer token, or an illegal-input token if the value
    /// does not fit an `i64`.
    fn read_number(&mut self) -> (t: Token)
        requires
            old(self).wf(),
            old(self).pos() < old(self).bytes().len(),
            is_digit(old(self).bytes()[old(self).pos()]),
        ensures
            final(self).wf(),
            final(self).bytes() == old(self).bytes(),
            final(self).pos() == digit_end(old(self).bytes(), old(self).pos()),
            t@ == number_token_model(old(self).bytes(), old(self).pos()),
    {
        let ghost s = old(self).bytes();
        let ghost start = old(self).pos();
        let mut val: i64 = 0;
        let mut overflow = false;
        proof {
            assert(s.subrange(start, start) =~= Seq::<u8>::empty());
        }
        loop
            invariant
                self.wf(),
                self.bytes() == s,
                s == old(self).bytes(),
                start == old(self).pos(),
                start <= self.pos() <= s.len(),
                digit_end(s, self.pos()) == digit_end(s, start),
                0 <= val,
                !overflow ==> val == digits_val(s.subrange(start, self.pos())),
                overflow ==> digits_val(s.subrange(start, self.pos())) > i64::MAX,
            ensures
                self.wf(),
                self.bytes() == s,
                self.pos() == digit_end(s, start),
                !overflow ==> val == digits_val(s.subrange(start, self.pos())),
                overflow ==> digits_val(s.subrange(start, self.pos())) > i64::MAX,
            decreases s.len() - self.pos(),
        {
            let c = self.ch;
            if !is_digit_byte(c) {
                proof {
                    assert(digit_end(self.bytes(), self.pos()) == self.pos());
                }
                break;
            }
            let ghost pre = s.subrange(start, self.pos());
            let d = c - 48;  // the digit's value: c is '0'-'9'
            if !overflow {
                match val.checked_mul(10) {
                    Some(v10) => {
                        match v10.checked_add(d as i64) {
                            Some(v) => {
                                val = v;
                            },
                            None => {
                                overflow = true;
                            },
                        }
                    },
                    None => {
                        overflow = true;
                    },
                }
            }
            // a digit is never the 0 sentinel, so the cursor is in bounds
            self.read_char();
            proof {
                assert(s.subrange(start, self.pos()) =~= pre.push(c));
                assert(pre.push(c).drop_last() =~= pre);
                assert(digits_val(pre.push(c)) == digits_val(pre) * 10 + (c - 48));
            }
        }
        if overflow {
            // the digit run's value does not fit: reject it, keep scanning after it
            Token::ILLEGAL
        } else {
            Token::INT(val)
        }
    }

    /// Returns the next token of the input and advances past it. After the
    /// final `EOF` has been returned, every further call returns `EOF` again.
    pub fn next_token(&mut self) -> (t: Token)
        requires
            old(self).wf(),
        ensures
            final(self).wf(),
            final(self).bytes() == old(self).bytes(),
            t@ == spec_next(old(self).bytes(), old(self).pos()).0,
            final(self).pos() == spec_next(old(self).bytes(), old(self).pos()).1,
    {
        self.eat_whitespace();
        let c = self.ch;
        if c == 0 {
            // end of input (or an embedded sentinel byte): no advance
            return Token::EOF;
        }
        if is_letter_byte(c) {
            return self.lookup_ident();
        }
        if is_digit_byte(c) {
            return self.read_number();
        }
        let t = if c == 61 {  // '='
            Token::ASSIGN
        } else if c == 59 {  // ';'
            Token::SEMICOLON
        } else if c == 40 {  // '('
            Token::LPAREN
        } else if c == 41 {  // ')'
            Token::RPAREN
        } else if c == 44 {  // ','
            Token::COMMA
        } else if c == 43 {  // '+'
            Token::PLUS
        } else if c == 123 {  // '{'
            Token::LBRACE
        } else if c == 125 {  // '}'
            Token::RBRACE
        } else if c == 45 {  // '-'
            Token::MINUS
        } else if c == 33 {  // '!'
            Token::BANG
        } else if c == 47 {  // '/'
            Token::SLASH
        } else if c == 42 {  // '*'
            Token::ASTERISK
        } else if c == 60 {  // '<'
            Token::LT
        } else if c == 62 {  // '>'
            Token::GT
        } else {
            Token::ILLEGAL
        };
        self.read_char();
        t
    }
}

} // verus!
