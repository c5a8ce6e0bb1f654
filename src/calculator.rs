//! The calculator's lexer: arithmetic text to tokens for the calculator's
//! tables.

use vstd::prelude::*;
use crate::grammar::{ParseError, Terminal, TerminalOrFinish, Token, str_to_string};
use crate::chars::{char_is_whitespace, col_at, in_comment, is_white, line_at, lemma_line_col_bounds};

verus! {

#[derive(Clone, Debug)]
pub struct TokenAttribute {
    pub fragment: Fragment,
    pub domain_attribute: DomainAttribute,
}

#[derive(Clone, Debug)]
pub enum DomainAttribute {
    Number(i32),
    Nothing,
}

impl DomainAttribute {
    pub fn as_number(&self) -> (r: Option<i32>)
        ensures
            match self {
                DomainAttribute::Number(n) => r == Some(*n),
                DomainAttribute::Nothing => r is None,
            },
    {
        match self {
            DomainAttribute::Number(n) => Some(*n),
            DomainAttribute::Nothing => None,
        }
    }
}

#[derive(Clone, Copy, Debug)]
pub struct Fragment {
    pub begin: Coordinate,
    pub end: Coordinate,
}

#[derive(Clone, Copy, Debug)]
pub struct Coordinate {
    pub line: i32,
    pub column: i32,
    pub index: i32,
}

#[derive(Debug)]
pub enum CalculatorError {
    /// A character that starts no token, at the given place; also a number
    /// too large for `i32`, at its first digit.
    LexerError(Coordinate),
    ParserError(ParseError<TokenAttribute>),
    ZeroDivisionError,
    /// The text has too many characters for `i32` coordinates.
    InputTooLong,
}

pub open spec fn is_digit(c: char) -> bool {
    '0' <= c <= '9'
}

pub open spec fn is_operator(c: char) -> bool {
    c == '+' || c == '-' || c == '*' || c == '/' || c == '(' || c == ')'
}

/// The value of a string of decimal digits.
pub open spec fn digits_value(s: Seq<char>) -> int
    decreases s.len(),
{
    if s.len() == 0 {
        0
    } else {
        digits_value(s.drop_last()) * 10 + (s.last() as int - '0' as int)
    }
}

/// A run of digits from `b` has a value above `i32::MAX`.
pub open spec fn too_large_at(t: Seq<char>, b: int) -> bool {
    exists|e: int| b < e <= t.len() && (forall|k: int| b <= k < e ==> is_digit(#[trigger] t[k])) && digits_value(#[trigger] t.subrange(b, e)) > i32::MAX
}

/// A character that starts no token.
pub open spec fn bad_char(c: char) -> bool {
    !is_white(c) && !is_digit(c) && !is_operator(c)
}

/// Where a lexer error points: a character that starts no token, or the
/// first digit of a number too large for `i32`; with its line and column.
pub open spec fn lexer_error_at(t: Seq<char>, c: Coordinate) -> bool {
    let k = c.index as int;
    &&& 0 <= k < t.len()
    &&& c.line == line_at(t, k) && c.column == col_at(t, k)
    &&& bad_char(t[k]) || too_large_at(t, k)
}

/// Index `k` holds white space or lies in the fragment of one of `tokens`.
pub open spec fn calc_covered(t: Seq<char>, tokens: Seq<Token<TokenAttribute>>, k: int) -> bool {
    is_white(t[k]) || exists|i: int| 0 <= i < tokens.len() && !(tokens[i].tag is Finish)
        && tokens[i].attribute.fragment.begin.index <= k < #[trigger] tokens[i].attribute.fragment.end.index
}

/// The tags of the calculator's tokens: `n` for a number, and the operators.
pub open spec fn calc_tag(s: Seq<char>) -> bool {
    ||| s == seq!['n']
    ||| (s.len() == 1 && is_operator(s[0]))
}

/// Token `tok` is what the text holds between its fragment's two indices:
/// a longest run of digits with its value, or one operator.
pub open spec fn calc_lexeme_ok(text: Seq<char>, tok: Token<TokenAttribute>) -> bool {
    let b = tok.attribute.fragment.begin.index as int;
    let e = tok.attribute.fragment.end.index as int;
    let name = tok.tag->Terminal_0@;
    let a = tok.attribute.domain_attribute;
    &&& 0 <= b < e <= text.len()
    &&& tok.attribute.fragment.begin.line == line_at(text, b) && tok.attribute.fragment.begin.column == col_at(text, b)
    &&& tok.attribute.fragment.end.line == line_at(text, e) && tok.attribute.fragment.end.column == col_at(text, e)
    &&& name == seq!['n'] ==> (forall|k: int| b <= k < e ==> is_digit(#[trigger] text[k])) && (e == text.len() || !is_digit(text[e]))
        && a is Number && a->Number_0 == digits_value(text.subrange(b, e))
    &&& name != seq!['n'] ==> e == b + 1 && name == seq![text[b]] && is_operator(text[b]) && a is Nothing
}

pub struct Lexer {
    cur: Coordinate,
    input: Vec<char>,
}

impl Lexer {
    pub closed spec fn wf(&self) -> bool {
        &&& self.input@.len() < i32::MAX
        &&& 0 <= self.cur.index <= self.input@.len()
        &&& self.cur.line == line_at(self.input@, self.cur.index as int)
        &&& self.cur.column == col_at(self.input@, self.cur.index as int)
    }

    pub closed spec fn position(&self) -> int {
        self.cur.index as int
    }

    pub closed spec fn text(&self) -> Seq<char> {
        self.input@
    }

    pub fn new(input: &str) -> (r: Lexer)
        requires
            input@.len() < i32::MAX,
        ensures
            r.wf(),
            r.position() == 0,
            r.text() == input@,
    {
        let n = input.unicode_len();
        let mut chars: Vec<char> = Vec::new();
        let mut i: usize = 0;
        while i < n
            invariant
                n == input@.len(),
                i <= n,
                chars@ == input@.subrange(0, i as int),
            decreases n - i,
        {
            chars.push(input.get_char(i));
            i += 1;
            assert(chars@ =~= input@.subrange(0, i as int));
        }
        assert(input@.subrange(0, n as int) =~= input@);
        Lexer { cur: Coordinate { line: 1, column: 1, index: 0 }, input: chars }
    }

    fn peek(&self) -> (r: Option<char>)
        requires
            self.wf(),
        ensures
            self.position() < self.text().len() ==> r == Some(self.text()[self.position()]),
            self.position() == self.text().len() ==> r is None,
    {
        let i = self.cur.index as usize;
        if i < self.input.len() {
            Some(self.input[i])
        } else {
            None
        }
    }

    fn next(&mut self)
        requires
            old(self).wf(),
        ensures
            final(self).wf(),
            final(self).text() == old(self).text(),
            old(self).position() < old(self).text().len() ==> final(self).position() == old(self).position() + 1,
            old(self).position() == old(self).text().len() ==> final(self).position() == old(self).position(),
    {
        if let Some(c) = self.peek() {
            let ghost i = self.cur.index as int;
            proof {
                lemma_line_col_bounds(self.input@, i + 1);
                assert(self.input@[i] == c);
            }
            if c == '\n' {
                self.cur.line = self.cur.line + 1;
                self.cur.column = 1;
            } else {
                self.cur.column = self.cur.column + 1;
            }
            self.cur.index = self.cur.index + 1;
        }
    }

    fn skip_spaces(&mut self)
        requires
            old(self).wf(),
        ensures
            final(self).wf(),
            final(self).text() == old(self).text(),
            final(self).position() >= old(self).position(),
            final(self).position() < final(self).text().len() ==> !is_white(final(self).text()[final(self).position()]),
            forall|k: int| old(self).position() <= k < final(self).position() ==> is_white(#[trigger] old(self).text()[k]),
    {
        loop
            invariant
                self.wf(),
                self.text() == old(self).text(),
                self.position() >= old(self).position(),
                forall|k: int| old(self).position() <= k < self.position() ==> is_white(#[trigger] old(self).text()[k]),
            ensures
                self.wf(),
                self.text() == old(self).text(),
                self.position() >= old(self).position(),
                self.position() < self.text().len() ==> !is_white(self.text()[self.position()]),
                forall|k: int| old(self).position() <= k < self.position() ==> is_white(#[trigger] old(self).text()[k]),
            decreases self.text().len() - self.position(),
        {
            match self.peek() {
                Some(c) => {
                    if !char_is_whitespace(c) {
                        break;
                    }
                    let ghost p = self.position();
                    self.next();
                    assert forall|k: int| old(self).position() <= k < self.position() implies is_white(#[trigger] old(self).text()[k]) by {
                        if k == p {
                            assert(old(self).text()[k] == c);
                        }
                    }
                },
                None => break,
            }
        }
    }

    /// Reads a run of digits; `None` when its value does not fit in `i32`.
    fn read_number(&mut self) -> (r: Option<i32>)
        requires
            old(self).wf(),
        ensures
            final(self).wf(),
            final(self).text() == old(self).text(),
            final(self).position() >= old(self).position(),
            r matches Some(v) ==> v == digits_value(old(self).text().subrange(old(self).position(), final(self).position())),
            r is Some ==> forall|k: int| old(self).position() <= k < final(self).position() ==> is_digit(#[trigger] old(self).text()[k]),
            r is Some ==> final(self).position() == final(self).text().len() || !is_digit(final(self).text()[final(self).position()]),
            old(self).position() < old(self).text().len() && is_digit(old(self).text()[old(self).position()])
                ==> final(self).position() > old(self).position(),
            r is None ==> too_large_at(old(self).text(), old(self).position()),
    {
        let ghost start = self.position();
        let mut value: i32 = 0;
        loop
            invariant
                self.wf(),
                self.text() == old(self).text(),
                self.position() >= start,
                start == old(self).position(),
                0 <= start,
                value == digits_value(self.text().subrange(start, self.position())),
                0 <= value,
                forall|k: int| start <= k < self.position() ==> is_digit(#[trigger] self.text()[k]),
                old(self).position() < old(self).text().len() && is_digit(old(self).text()[old(self).position()])
                    ==> self.position() > start || self.position() == start,
            ensures
                self.wf(),
                self.text() == old(self).text(),
                self.position() >= start,
                value == digits_value(self.text().subrange(start, self.position())),
                forall|k: int| start <= k < self.position() ==> is_digit(#[trigger] self.text()[k]),
                self.position() == self.text().len() || !is_digit(self.text()[self.position()]),
                old(self).position() < old(self).text().len() && is_digit(old(self).text()[old(self).position()])
                    ==> self.position() > start,
            decreases self.text().len() - self.position(),
        {
            match self.peek() {
                Some(c) => {
                    if !('0' <= c && c <= '9') {
                        break;
                    }
                    let d = (c as u32 - '0' as u32) as i32;
                    let ghost p = self.position();
                    proof {
                        assert(p < self.text().len());
                        assert(0 <= start <= p);
                        assert(self.text()[p] == c);
                        let s1 = self.text().subrange(start, p + 1);
                        assert(s1.drop_last() =~= self.text().subrange(start, p));
                        assert(s1.last() == c);
                        assert(d == c as int - '0' as int);
                        assert(digits_value(s1) == value * 10 + d);
                    }
                    if value > (i32::MAX - d) / 10 {
                        proof {
                            assert(value * 10 + d > i32::MAX) by (nonlinear_arith)
                                requires value > (i32::MAX - d) / 10, 0 <= d <= 9;
                            let s1 = self.text().subrange(start, p + 1);
                            assert forall|k: int| start <= k < p + 1 implies is_digit(#[trigger] old(self).text()[k]) by {
                                if k == p {
                                    assert(old(self).text()[k] == c);
                                }
                            }
                            assert(too_large_at(old(self).text(), start)) by {
                                assert(start < p + 1 <= old(self).text().len() && digits_value(s1) > i32::MAX);
                            }
                        }
                        return None;
                    }
                    proof {
                        assert(p < self.text().len());
                        assert(0 <= start <= p);
                        assert(self.text()[p] == c);
                        let s1 = self.text().subrange(start, p + 1);
                        assert(s1.drop_last() =~= self.text().subrange(start, p));
                        assert(s1.last() == c);
                        assert(d == c as int - '0' as int);
                        assert(digits_value(s1) == value * 10 + d);
                        assert(value * 10 + d <= i32::MAX) by (nonlinear_arith)
                            requires value <= (i32::MAX - d) / 10, 0 <= d <= 9, value >= 0;
                    }
                    value = value * 10 + d;
                    self.next();
                    assert forall|k: int| start <= k < self.position() implies is_digit(#[trigger] self.text()[k]) by {
                        if k == p {
                            assert(self.text()[k] == c);
                        }
                    }
                },
                None => break,
            }
        }
        Some(value)
    }

    fn get_next_token(&mut self) -> (r: Result<Token<TokenAttribute>, CalculatorError>)
        requires
            old(self).wf(),
        ensures
            final(self).wf(),
            final(self).text() == old(self).text(),
            final(self).position() >= old(self).position(),
            r is Ok && r->Ok_0.tag is Finish ==> final(self).position() == final(self).text().len(),
            r is Ok && !(r->Ok_0.tag is Finish) ==> final(self).position() > old(self).position() && calc_tag(r->Ok_0.tag->Terminal_0@),
            r is Ok && !(r->Ok_0.tag is Finish) ==> calc_lexeme_ok(final(self).text(), r->Ok_0),
            r is Ok && !(r->Ok_0.tag is Finish) ==> old(self).position() <= r->Ok_0.attribute.fragment.begin.index,
            r is Ok && !(r->Ok_0.tag is Finish) ==> r->Ok_0.attribute.fragment.end.index == final(self).position(),
            r is Ok && !(r->Ok_0.tag is Finish) ==> forall|k: int| old(self).position() <= k < r->Ok_0.attribute.fragment.begin.index ==> is_white(#[trigger] old(self).text()[k]),
            r is Ok && r->Ok_0.tag is Finish ==> forall|k: int| old(self).position() <= k < final(self).position() ==> is_white(#[trigger] old(self).text()[k]),
            r is Err ==> r->Err_0 is LexerError && lexer_error_at(old(self).text(), r->Err_0->LexerError_0),
            r is Err ==> old(self).position() <= r->Err_0->LexerError_0.index && forall|k: int| old(self).position() <= k < r->Err_0->LexerError_0.index ==> is_white(#[trigger] old(self).text()[k]),
    {
        self.skip_spaces();
        let begin = self.cur;
        match self.peek() {
            Some(c) => {
                if '0' <= c && c <= '9' {
                    match self.read_number() {
                        Some(n) => {
                            let end = self.cur;
                            assert(end.index as int == self.position());
                            assert(begin.index < end.index);
                            proof { reveal_strlit("n"); }
                            let tag = TerminalOrFinish::Terminal(Terminal(str_to_string("n")));
                            assert(tag->Terminal_0@ =~= seq!['n']);
                            Ok(Token {
                                tag,
                                attribute: TokenAttribute {
                                    fragment: Fragment { begin, end },
                                    domain_attribute: DomainAttribute::Number(n),
                                },
                            })
                        },
                        None => {
                            assert(begin.index as int == old(self).position() || begin.index >= old(self).position());
                            Err(CalculatorError::LexerError(begin))
                        },
                    }
                } else if c == '+' || c == '-' || c == '*' || c == '/' || c == '(' || c == ')' {
                    self.next();
                    let end = self.cur;
                    let name = operator_name(c);
                    assert(name@ != seq!['n']) by {
                        assert(name@[0] != 'n');
                    }
                    Ok(Token {
                        tag: TerminalOrFinish::Terminal(Terminal(name)),
                        attribute: TokenAttribute {
                            fragment: Fragment { begin, end },
                            domain_attribute: DomainAttribute::Nothing,
                        },
                    })
                } else {
                    assert(bad_char(self.text()[self.position()]));
                    Err(CalculatorError::LexerError(self.cur))
                }
            },
            None => Ok(Token {
                tag: TerminalOrFinish::Finish,
                attribute: TokenAttribute {
                    fragment: Fragment { begin, end: begin },
                    domain_attribute: DomainAttribute::Nothing,
                },
            }),
        }
    }

    /// All tokens of the text, the end marker last and only there; or the
    /// place of the first character that starts no token.
    pub fn get_tokens(&mut self) -> (r: Result<Vec<Token<TokenAttribute>>, CalculatorError>)
        requires
            old(self).wf(),
        ensures
            final(self).wf(),
            r is Ok ==> crate::driver::well_terminated(r->Ok_0@),
            r is Ok ==> forall|i: int| 0 <= i < r->Ok_0@.len() - 1 ==> calc_tag((#[trigger] r->Ok_0@[i]).tag->Terminal_0@),
            r is Ok ==> forall|i: int| 0 <= i < r->Ok_0@.len() - 1 ==> calc_lexeme_ok(old(self).text(), #[trigger] r->Ok_0@[i]),
            r is Ok ==> final(self).position() == final(self).text().len() && final(self).text() == old(self).text(),
            r is Ok ==> forall|k: int| old(self).position() <= k < old(self).text().len() ==> #[trigger] calc_covered(old(self).text(), r->Ok_0@, k),
            r is Ok ==> forall|i: int| 0 <= i < r->Ok_0@.len() - 2 ==> (#[trigger] r->Ok_0@[i]).attribute.fragment.end.index <= r->Ok_0@[i + 1].attribute.fragment.begin.index,
            r is Err ==> r->Err_0 is LexerError && lexer_error_at(old(self).text(), r->Err_0->LexerError_0),
            r is Err ==> old(self).position() <= r->Err_0->LexerError_0.index && forall|k: int|
                old(self).position() <= k < r->Err_0->LexerError_0.index ==> !bad_char(#[trigger] old(self).text()[k]),
    {
        let mut res: Vec<Token<TokenAttribute>> = Vec::new();
        loop
            invariant_except_break
                self.wf(),
                self.text() == old(self).text(),
                self.position() >= old(self).position(),
                forall|k: int| old(self).position() <= k < self.position() ==> #[trigger] calc_covered(old(self).text(), res@, k),
                forall|k: int| old(self).position() <= k < self.position() ==> !bad_char(#[trigger] old(self).text()[k]),
                forall|i: int| 0 <= i < res@.len() - 1 ==> (#[trigger] res@[i]).attribute.fragment.end.index <= res@[i + 1].attribute.fragment.begin.index,
                res@.len() > 0 ==> res@.last().attribute.fragment.end.index == self.position(),
                forall|i: int| 0 <= i < res@.len() ==> !((#[trigger] res@[i]).tag is Finish) && calc_tag(res@[i].tag->Terminal_0@),
                forall|i: int| 0 <= i < res@.len() ==> calc_lexeme_ok(old(self).text(), #[trigger] res@[i]),
            invariant
                self.wf(),
            ensures
                self.wf(),
                res@.len() > 0,
                res@.last().tag is Finish,
                forall|i: int| 0 <= i < res@.len() - 1 ==> !((#[trigger] res@[i]).tag is Finish) && calc_tag(res@[i].tag->Terminal_0@),
                forall|i: int| 0 <= i < res@.len() - 1 ==> calc_lexeme_ok(old(self).text(), #[trigger] res@[i]),
                self.position() == self.text().len(),
                self.text() == old(self).text(),
                forall|k: int| old(self).position() <= k < self.text().len() ==> #[trigger] calc_covered(old(self).text(), res@, k),
                forall|i: int| 0 <= i < res@.len() - 2 ==> (#[trigger] res@[i]).attribute.fragment.end.index <= res@[i + 1].attribute.fragment.begin.index,
            decreases self.text().len() - self.position(),
        {
            let ghost p_before = self.position();
            let token = match self.get_next_token() {
                Ok(t) => t,
                Err(e) => return Err(e),
            };
            let is_finish = match token.tag {
                TerminalOrFinish::Finish => true,
                _ => false,
            };
            let ghost before = res@;
            let ghost tok = token;
            res.push(token);
            proof {
                assert forall|k: int| old(self).position() <= k < self.position() implies #[trigger] calc_covered(old(self).text(), res@, k) by {
                    if k < p_before {
                        assert(calc_covered(old(self).text(), before, k));
                        if !is_white(old(self).text()[k]) {
                            let i = choose|i: int| 0 <= i < before.len() && !(before[i].tag is Finish) && before[i].attribute.fragment.begin.index <= k < #[trigger] before[i].attribute.fragment.end.index;
                            assert(res@[i] == before[i]);
                        }
                    } else if !(tok.tag is Finish) && k >= tok.attribute.fragment.begin.index {
                        assert(res@[before.len() as int] == tok);
                    }
                }
                assert forall|i: int| 0 <= i < res@.len() - 2 implies (#[trigger] res@[i]).attribute.fragment.end.index <= res@[i + 1].attribute.fragment.begin.index by {
                    assert(res@[i] == before[i]);
                    assert(res@[i + 1] == before[i + 1]);
                }
                assert forall|k: int| old(self).position() <= k < self.position() implies !bad_char(#[trigger] old(self).text()[k]) by {
                    if k >= p_before && !(tok.tag is Finish) && k >= tok.attribute.fragment.begin.index {
                        assert(calc_lexeme_ok(old(self).text(), tok));
                        if tok.tag->Terminal_0@ == seq!['n'] {
                            assert(is_digit(old(self).text()[k]));
                        }
                    }
                }
            }
            if is_finish {
                break;
            }
        }
        Ok(res)
    }
}

/// The one-character name of an operator.
fn operator_name(c: char) -> (r: String)
    requires
        is_operator(c),
    ensures
        r@ == seq![c],
{
    let s = if c == '+' {
        "+"
    } else if c == '-' {
        "-"
    } else if c == '*' {
        "*"
    } else if c == '/' {
        "/"
    } else if c == '(' {
        "("
    } else {
        ")"
    };
    proof {
        reveal_strlit("+");
        reveal_strlit("-");
        reveal_strlit("*");
        reveal_strlit("/");
        reveal_strlit("(");
        reveal_strlit(")");
    }
    let r = str_to_string(s);
    assert(r@ =~= seq![c]);
    r
}

} // verus!
