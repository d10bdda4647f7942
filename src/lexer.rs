use vstd::prelude::*;

verus! {

/// What a token is.
#[derive(Debug, PartialEq, Eq, Clone, Copy, Structural)]
pub enum TDType {
    Dynamic64(i64),
    PLUS,
    MINUS,
    ASTERISK,
    SLASH,
    LPAREN,
    RPAREN,
    EOF,
    WS,
    Empty,
}

/// Why the lexer stopped.
#[derive(Debug, PartialEq, Eq, Clone, Copy, Structural)]
pub enum LexError {
    /// A character that starts no token, at a character offset.
    UnexpectedCharacter { position: usize, found: char },
    /// A run of digits whose value does not fit in an `i64`.
    NumberTooLarge { start: usize },
}

/// Where a token stands in the source (character offsets) and its text.
#[derive(Debug, Clone, PartialEq)]
pub struct AsciiSpan {
    pub start: usize,
    pub end: usize,
    pub literal: String,
}

impl AsciiSpan {
    pub fn new(start: usize, end: usize, literal: String) -> (r: Self)
        ensures
            r.start == start,
            r.end == end,
            r.literal == literal,
    {
        Self { start, end, literal }
    }

    pub fn len(&self) -> (r: usize)
        requires
            self.start <= self.end,
        ensures
            r == self.end - self.start,
    {
        self.end - self.start
    }
}

#[derive(Debug, Clone, PartialEq)]
pub struct TDToken {
    pub _type: TDType,
    pub lexeme: AsciiSpan,
}

impl TDToken {
    pub fn new(type_: TDType, lexeme: AsciiSpan) -> (r: Self)
        ensures
            r._type == type_,
            r.lexeme == lexeme,
    {
        Self { _type: type_, lexeme }
    }
}

pub open spec fn is_digit_char(c: char) -> bool {
    48 <= (c as u32) <= 57
}

pub open spec fn digit_value(c: char) -> int {
    (c as u32) as int - 48
}

/// The value of a string of decimal digits, most significant first.
pub open spec fn digits_value(d: Seq<char>) -> int
    decreases d.len(),
{
    if d.len() == 0 {
        0
    } else {
        digits_value(d.drop_last()) * 10 + digit_value(d.last())
    }
}

/// The offset just past the run of digits that starts at `p`.
pub open spec fn digit_run_end(s: Seq<char>, p: int) -> int
    decreases s.len() - p,
{
    if 0 <= p < s.len() && is_digit_char(s[p]) {
        digit_run_end(s, p + 1)
    } else {
        p
    }
}

/// The characters that have the Unicode White_Space property.
pub open spec fn is_whitespace_char(c: char) -> bool {
    let u = c as u32;
    (0x09 <= u <= 0x0d) || u == 0x20 || u == 0x85 || u == 0xa0 || u == 0x1680 || (0x2000 <= u
        <= 0x200a) || u == 0x2028 || u == 0x2029 || u == 0x202f || u == 0x205f || u == 0x3000
}

pub open spec fn operator_type(c: char) -> Option<TDType> {
    if c == '+' {
        Some(TDType::PLUS)
    } else if c == '-' {
        Some(TDType::MINUS)
    } else if c == '*' {
        Some(TDType::ASTERISK)
    } else if c == '/' {
        Some(TDType::SLASH)
    } else if c == '(' {
        Some(TDType::LPAREN)
    } else if c == ')' {
        Some(TDType::RPAREN)
    } else {
        None
    }
}

/// One step of the lexer on source `s` at offset `p`: the token (its type,
/// start and end) or the error it yields, and the offset after it.
/// Offset `s.len()` yields the end-of-input token; past it nothing is left.
/// An error ends the stream.
pub open spec fn lex_step(s: Seq<char>, p: int) -> (
    Option<Result<(TDType, int, int), LexError>>,
    int,
) {
    if p == s.len() {
        (Some(Ok((TDType::EOF, p, p))), p + 1)
    } else if p < 0 || p > s.len() {
        (None, p)
    } else if is_digit_char(s[p]) {
        let q = digit_run_end(s, p);
        let v = digits_value(s.subrange(p, q));
        if v <= i64::MAX {
            (Some(Ok((TDType::Dynamic64(v as i64), p, q))), q)
        } else {
            (Some(Err(LexError::NumberTooLarge { start: p as usize })), s.len() + 1 as int)
        }
    } else if is_whitespace_char(s[p]) {
        (Some(Ok((TDType::WS, p, p + 1))), p + 1)
    } else {
        match operator_type(s[p]) {
            Some(t) => (Some(Ok((t, p, p + 1))), p + 1),
            None => (
                Some(Err(LexError::UnexpectedCharacter { position: p as usize, found: s[p] })),
                s.len() + 1 as int,
            ),
        }
    }
}

/// The text a token of type `ty` spanning `a..b` of `s` carries.
pub open spec fn token_text(s: Seq<char>, ty: TDType, a: int, b: int) -> Seq<char> {
    if ty == TDType::EOF {
        seq!['\0']
    } else {
        s.subrange(a, b)
    }
}

/// `r` is what the step `step` of the lexer over `s` describes.
pub open spec fn lexed_as(
    s: Seq<char>,
    r: Option<Result<TDToken, LexError>>,
    step: Option<Result<(TDType, int, int), LexError>>,
) -> bool {
    match (r, step) {
        (None, None) => true,
        (Some(Ok(t)), Some(Ok((ty, a, b)))) => t._type == ty && t.lexeme.start == a
            && t.lexeme.end == b && t.lexeme.literal@ == token_text(s, ty, a, b),
        (Some(Err(e)), Some(Err(f))) => e == f,
        _ => false,
    }
}

pub proof fn lemma_digit_run(s: Seq<char>, p: int)
    requires
        0 <= p <= s.len(),
    ensures
        p <= digit_run_end(s, p) <= s.len(),
        forall|i: int| p <= i < digit_run_end(s, p) ==> is_digit_char(#[trigger] s[i]),
        digit_run_end(s, p) < s.len() ==> !is_digit_char(s[digit_run_end(s, p)]),
    decreases s.len() - p,
{
    if p < s.len() && is_digit_char(s[p]) {
        lemma_digit_run(s, p + 1);
    }
}

pub proof fn lemma_digits_value_nonneg(s: Seq<char>, a: int, c: int)
    requires
        0 <= a <= c <= s.len(),
        forall|i: int| a <= i < c ==> is_digit_char(#[trigger] s[i]),
    ensures
        0 <= digits_value(s.subrange(a, c)),
    decreases c - a,
{
    if c > a {
        assert(s.subrange(a, c).drop_last() =~= s.subrange(a, c - 1));
        lemma_digits_value_nonneg(s, a, c - 1);
    }
}

pub proof fn lemma_digits_value_grows(s: Seq<char>, a: int, b: int, c: int)
    requires
        0 <= a <= b <= c <= s.len(),
        forall|i: int| a <= i < c ==> is_digit_char(#[trigger] s[i]),
    ensures
        0 <= digits_value(s.subrange(a, b)) <= digits_value(s.subrange(a, c)),
    decreases c - b,
{
    lemma_digits_value_nonneg(s, a, b);
    if b < c {
        lemma_digits_value_grows(s, a, b, c - 1);
        lemma_digits_value_nonneg(s, a, c - 1);
        assert(s.subrange(a, c).drop_last() =~= s.subrange(a, c - 1));
        assert(s.subrange(a, c).last() == s[c - 1]);
    }
}

pub open spec fn pow10(n: nat) -> int
    decreases n,
{
    if n == 0 {
        1
    } else {
        10 * pow10((n - 1) as nat)
    }
}

pub proof fn lemma_digits_value_below(d: Seq<char>)
    requires
        forall|i: int| 0 <= i < d.len() ==> is_digit_char(#[trigger] d[i]),
    ensures
        0 <= digits_value(d) < pow10(d.len()),
    decreases d.len(),
{
    if d.len() > 0 {
        let e = d.drop_last();
        assert forall|i: int| 0 <= i < e.len() implies is_digit_char(#[trigger] e[i]) by {
            assert(e[i] == d[i]);
        }
        lemma_digits_value_below(e);
        assert(is_digit_char(d[d.len() - 1]));
    }
}

pub proof fn lemma_pow10_grows(a: nat, b: nat)
    requires
        a <= b,
    ensures
        1 <= pow10(a) <= pow10(b),
    decreases b,
{
    if b > a {
        lemma_pow10_grows(a, (b - 1) as nat);
    } else if a > 0 {
        lemma_pow10_grows((a - 1) as nat, (a - 1) as nat);
    }
}

/// A string of one to eighteen decimal digits lexes as exactly one number
/// token that spans the whole text and holds the digits' decimal value; the
/// next step yields the end-of-input token.
pub proof fn lemma_lex_decimal_literal(s: Seq<char>)
    requires
        1 <= s.len() <= 18,
        forall|i: int| 0 <= i < s.len() ==> is_digit_char(#[trigger] s[i]),
    ensures
        0 <= digits_value(s) <= i64::MAX,
        lex_step(s, 0) == (
            Some(Ok::<(TDType, int, int), LexError>(
                (TDType::Dynamic64(digits_value(s) as i64), 0int, s.len() as int),
            )),
            s.len() as int,
        ),
        lex_step(s, s.len() as int) == (
            Some(Ok::<(TDType, int, int), LexError>((TDType::EOF, s.len() as int, s.len() as int))),
            s.len() + 1int,
        ),
{
    lemma_digit_run(s, 0);
    assert(s.subrange(0, s.len() as int) =~= s);
    lemma_digits_value_below(s);
    lemma_pow10_grows(s.len(), 18);
    reveal_with_fuel(pow10, 19);
    assert(pow10(18) == 1000000000000000000int);
}

/// End of input is handed out once: the step at the end of the source yields
/// the end-of-input token and moves past it, and every step past the end
/// yields nothing and leaves the cursor where it is.
pub proof fn lemma_end_of_input_idempotent(s: Seq<char>)
    ensures
        lex_step(s, s.len() as int) == (
            Some(Ok::<(TDType, int, int), LexError>((TDType::EOF, s.len() as int, s.len() as int))),
            s.len() + 1int,
        ),
        forall|p: int|
            p > s.len() ==> #[trigger] lex_step(s, p) == (
                None::<Result<(TDType, int, int), LexError>>,
                p,
            ),
{
}

/// Whether a character has the Unicode White_Space property.
fn is_whitespace(c: char) -> (r: bool)
    ensures
        r == is_whitespace_char(c),
{
    let u = c as u32;
    (0x09 <= u && u <= 0x0d) || u == 0x20 || u == 0x85 || u == 0xa0 || u == 0x1680 || (0x2000 <= u
        && u <= 0x200a) || u == 0x2028 || u == 0x2029 || u == 0x202f || u == 0x205f || u == 0x3000
}

fn is_number(c: char) -> (r: bool)
    ensures
        r == is_digit_char(c),
{
    let u = c as u32;
    48 <= u && u <= 57
}

fn parse_operator(c: char) -> (r: Option<TDType>)
    ensures
        r == operator_type(c),
{
    if c == '+' {
        Some(TDType::PLUS)
    } else if c == '-' {
        Some(TDType::MINUS)
    } else if c == '*' {
        Some(TDType::ASTERISK)
    } else if c == '/' {
        Some(TDType::SLASH)
    } else if c == '(' {
        Some(TDType::LPAREN)
    } else if c == ')' {
        Some(TDType::RPAREN)
    } else {
        None
    }
}

/// Hands out the tokens of `source` one at a time.
pub struct TDLexer<'a> {
    pub source: &'a str,
    pub current_pos: usize,
}

impl<'a> TDLexer<'a> {
    pub fn new(source: &'a str) -> (r: Self)
        ensures
            r.source == source,
            r.current_pos == 0,
    {
        Self { source, current_pos: 0 }
    }

    /// The next token; after the end-of-input token (or an error), `None`.
    pub fn next_token(&mut self) -> (r: Option<Result<TDToken, LexError>>)
        requires
            old(self).source@.len() < usize::MAX,
        ensures
            final(self).source == old(self).source,
            final(self).current_pos == lex_step(
                old(self).source@,
                old(self).current_pos as int,
            ).1,
            lexed_as(
                old(self).source@,
                r,
                lex_step(old(self).source@, old(self).current_pos as int).0,
            ),
    {
        let n = self.source.unicode_len();
        if self.current_pos == n {
            self.current_pos = n + 1;
            let eof = String::from_str("\0");
            proof {
                reveal_strlit("\0");
                assert(eof@ =~= seq!['\0']);
            }
            return Some(Ok(TDToken::new(TDType::EOF, AsciiSpan::new(n, n, eof))));
        }
        if self.current_pos > n {
            return None;
        }
        let start = self.current_pos;
        let c = self.source.get_char(start);
        let type_: TDType;
        proof {
            lemma_digit_run(self.source@, start as int);
        }
        if is_number(c) {
            match self.parse_number(n) {
                Some(v) => {
                    type_ = TDType::Dynamic64(v);
                },
                None => {
                    self.current_pos = n + 1;
                    return Some(Err(LexError::NumberTooLarge { start }));
                },
            }
        } else if is_whitespace(c) {
            self.current_pos = start + 1;
            type_ = TDType::WS;
        } else {
            match parse_operator(c) {
                Some(t) => {
                    self.current_pos = start + 1;
                    type_ = t;
                },
                None => {
                    self.current_pos = n + 1;
                    return Some(Err(LexError::UnexpectedCharacter { position: start, found: c }));
                },
            }
        }
        let end = self.current_pos;
        let literal = String::from_str(self.source.substring_char(start, end));
        Some(Ok(TDToken::new(type_, AsciiSpan::new(start, end, literal))))
    }

    /// Reads the run of digits at the cursor; `None` where its value does
    /// not fit in an `i64`.
    fn parse_number(&mut self, n: usize) -> (r: Option<i64>)
        requires
            n == old(self).source@.len(),
            old(self).current_pos < n,
            is_digit_char(old(self).source@[old(self).current_pos as int]),
        ensures
            final(self).source == old(self).source,
            final(self).current_pos <= n,
            ({
                let s = old(self).source@;
                let p = old(self).current_pos as int;
                let q = digit_run_end(s, p);
                let v = digits_value(s.subrange(p, q));
                match r {
                    Some(x) => x == v && final(self).current_pos == q,
                    None => v > i64::MAX,
                }
            }),
    {
        let ghost s = self.source@;
        let start = self.current_pos;
        proof {
            lemma_digit_run(s, start as int);
        }
        let mut number: i64 = 0;
        loop
            invariant
                self.source == old(self).source,
                start == old(self).current_pos,
                self.source@ == s,
                n == s.len(),
                self.current_pos <= digit_run_end(s, start as int),
                start <= self.current_pos <= n,
                number == digits_value(s.subrange(start as int, self.current_pos as int)),
                digit_run_end(s, start as int) == digit_run_end(s, self.current_pos as int),
                forall|i: int| start <= i < digit_run_end(s, start as int) ==> is_digit_char(#[trigger] s[i]),
                digit_run_end(s, start as int) <= n,
            ensures
                start <= self.current_pos <= n,
                self.source == old(self).source,
                self.source@ == s,
                number == digits_value(s.subrange(start as int, self.current_pos as int)),
                digit_run_end(s, start as int) == self.current_pos,
            decreases n - self.current_pos,
        {
            if self.current_pos >= n {
                break;
            }
            let c = self.source.get_char(self.current_pos);
            if !is_number(c) {
                break;
            }
            let pos = self.current_pos;
            let d = (c as u32 - 48) as i64;
            proof {
                lemma_digit_run(s, pos + 1);
                assert(s.subrange(start as int, pos + 1).drop_last() =~= s.subrange(start as int, pos as int));
                assert(s.subrange(start as int, pos + 1).last() == c);
                assert(digits_value(s.subrange(start as int, pos + 1)) == number * 10 + d);
            }
            match number.checked_mul(10) {
                Some(m) => match m.checked_add(d) {
                    Some(v) => {
                        number = v;
                    },
                    None => {
                        proof {
                            lemma_digits_value_grows(s, start as int, pos as int, pos as int);
                            lemma_digits_value_grows(s, start as int, pos + 1, digit_run_end(s, start as int));
                        }
                        return None;
                    },
                },
                None => {
                    proof {
                        lemma_digits_value_grows(s, start as int, pos as int, pos as int);
                        lemma_digits_value_grows(s, start as int, pos + 1, digit_run_end(s, start as int));
                    }
                    return None;
                },
            }
            self.current_pos = pos + 1;
        }
        Some(number)
    }
}

} // verus!
