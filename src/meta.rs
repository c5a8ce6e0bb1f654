//! The meta-grammar: its lexer and the walk from its parse trees to grammars.

use vstd::prelude::*;
use crate::chars::{comment_start, char_is_upper, char_is_whitespace, col_at, in_comment, is_upper, is_white, line_at, lemma_line_col_bounds};
use crate::grammar::{
    Grammar, GrammarV, GeneratorError, Nonterminal, ParseTree, RuleV, SymV, Term, Terminal,
    TerminalOrFinish, Token, Rule, str_to_string, copy_string,
};

verus! {

#[derive(PartialEq, Eq, Debug, Clone)]
pub struct TokenAttribute {
    pub fragment: Fragment,
    pub domain_attribute: TokenDomainAttribute,
}

#[derive(PartialEq, Eq, Debug, Clone)]
pub enum TokenDomainAttribute {
    Nonterminal(String),
    Terminal(String),
    Nothing,
}

#[derive(PartialEq, Eq, Debug, Clone, Copy)]
pub struct Fragment {
    pub begin: Coord,
    pub end: Coord,
}

#[derive(PartialEq, Eq, Clone, Copy, Debug)]
pub struct Coord {
    pub line: i32,
    pub column: i32,
    pub index: i32,
}

/// A `'` at `p`, if there is one, begins a comment.
pub open spec fn boundary(t: Seq<char>, p: int) -> bool {
    0 <= p < t.len() && t[p] == '\'' ==> comment_start(t, p)
}

/// Index `k` of `t` holds white space or lies in a comment.
pub open spec fn blank(t: Seq<char>, k: int) -> bool {
    is_white(t[k]) || in_comment(t, k)
}

/// Index `k` of `t` is blank, or lies in the fragment of one of `tokens`
/// other than the end marker.
pub open spec fn covered(t: Seq<char>, tokens: Seq<Token<TokenAttribute>>, k: int) -> bool {
    blank(t, k) || exists|i: int| 0 <= i < tokens.len() && !(tokens[i].tag is Finish)
        && tokens[i].attribute.fragment.begin.index <= k < #[trigger] tokens[i].attribute.fragment.end.index
}

/// The tags of the meta-grammar's tokens.
pub open spec fn meta_tag(s: Seq<char>) -> bool {
    ||| s == seq!['o', 'p', 'e', 'n']
    ||| s == seq!['c', 'l', 'o', 's', 'e']
    ||| s == seq!['a', 'x']
    ||| s == seq!['n', 't', 'e', 'r', 'm']
    ||| s == seq!['t', 'e', 'r', 'm']
}

/// A character that can stand in a word.
pub open spec fn word_char(c: char) -> bool {
    !is_white(c) && c != '<' && c != '>'
}

/// The longest run of word characters from `b` ends at `e`.
pub open spec fn word_at(text: Seq<char>, b: int, e: int) -> bool {
    &&& 0 <= b < e <= text.len()
    &&& forall|k: int| b <= k < e ==> word_char(#[trigger] text[k])
    &&& (e == text.len() || !word_char(text[e]))
}

/// Token `tok` is what the text holds between its fragment's two indices.
pub open spec fn lexeme_ok(text: Seq<char>, tok: Token<TokenAttribute>) -> bool {
    let b = tok.attribute.fragment.begin.index as int;
    let e = tok.attribute.fragment.end.index as int;
    let name = tok.tag->Terminal_0@;
    let a = tok.attribute.domain_attribute;
    &&& 0 <= b < e <= text.len()
    &&& tok.attribute.fragment.begin.line == line_at(text, b) && tok.attribute.fragment.begin.column == col_at(text, b)
    &&& tok.attribute.fragment.end.line == line_at(text, e) && tok.attribute.fragment.end.column == col_at(text, e)
    &&& name == seq!['o', 'p', 'e', 'n'] ==> e == b + 1 && text[b] == '<' && a is Nothing
    &&& name == seq!['c', 'l', 'o', 's', 'e'] ==> e == b + 1 && text[b] == '>' && a is Nothing
    &&& name == seq!['n', 't', 'e', 'r', 'm'] ==> is_upper(text[b]) && word_at(text, b, e) && a is Nonterminal
        && a->Nonterminal_0@ == text.subrange(b, e)
    &&& name == seq!['a', 'x'] ==> !is_upper(text[b]) && word_at(text, b, e) && a is Terminal
        && a->Terminal_0@ == text.subrange(b, e) && text.subrange(b, e) == header_word()
    &&& name == seq!['t', 'e', 'r', 'm'] ==> !is_upper(text[b]) && word_at(text, b, e) && a is Terminal
        && a->Terminal_0@ == text.subrange(b, e) && text.subrange(b, e) != header_word()
}

/// The header keyword of the meta-grammar.
pub open spec fn header_word() -> Seq<char> {
    seq!['a', 'x', 'i', 'o', 'm']
}

fn tag_token(name: &str, fragment: Fragment, domain_attribute: TokenDomainAttribute) -> (r: Token<TokenAttribute>)
    ensures
        r.tag == TerminalOrFinish::Terminal(Terminal(r.tag->Terminal_0.0)),
        r.tag->Terminal_0@ == name@,
        r.attribute.fragment == fragment,
        r.attribute.domain_attribute == domain_attribute,
{
    Token {
        tag: TerminalOrFinish::Terminal(Terminal(str_to_string(name))),
        attribute: TokenAttribute { fragment, domain_attribute },
    }
}

/// A lexer over the characters of a meta-grammar text.
pub struct Lexer {
    cur: Coord,
    input: Vec<char>,
    text: String,
}

impl Lexer {
    pub closed spec fn wf(&self) -> bool {
        &&& self.input@ == self.text@
        &&& self.input@.len() < i32::MAX
        &&& 0 <= self.cur.index <= self.input@.len()
        &&& self.cur.line == line_at(self.input@, self.cur.index as int)
        &&& self.cur.column == col_at(self.input@, self.cur.index as int)
    }

    /// Line and column of the next character to read.
    pub closed spec fn coord(&self) -> Coord {
        self.cur
    }

    /// Characters read so far.
    pub closed spec fn position(&self) -> int {
        self.cur.index as int
    }

    /// Characters of the text.
    pub closed spec fn text(&self) -> Seq<char> {
        self.input@
    }

    pub fn new(input: &str) -> (r: Lexer)
        requires
            input@.len() < i32::MAX,
        ensures
            r.wf(),
            r.position() == 0,
            r.text() == input@,
            r.coord() == (Coord { line: 1, column: 1, index: 0 }),
    {
        let n = input.unicode_len();
        let mut chars: Vec<char> = Vec::new();
        let mut i: usize = 0;
        while i < n
            invariant
                n == input@.len(),
                i <= n,
                chars@ == input@.subrange(0, i as int),
            decreases n - i,
        {
            chars.push(input.get_char(i));
            i += 1;
            assert(chars@ =~= input@.subrange(0, i as int));
        }
        assert(input@.subrange(0, n as int) =~= input@);
        Lexer { cur: Coord { line: 1, column: 1, index: 0 }, input: chars, text: str_to_string(input) }
    }

    fn peek(&self) -> (r: Option<char>)
        requires
            self.wf(),
        ensures
            self.position() < self.text().len() ==> r == Some(self.text()[self.position()]),
            self.position() == self.text().len() ==> r is None,
    {
        let i = self.cur.index as usize;
        if i < self.input.len() {
            Some(self.input[i])
        } else {
            None
        }
    }

    /// Moves one character on, keeping line and column.
    fn next(&mut self)
        requires
            old(self).wf(),
        ensures
            final(self).wf(),
            final(self).text() == old(self).text(),
            old(self).position() < old(self).text().len() ==> final(self).position() == old(self).position() + 1,
            old(self).position() == old(self).text().len() ==> final(self).position() == old(self).position(),
    {
        if let Some(c) = self.peek() {
            let ghost i = self.cur.index as int;
            proof {
                lemma_line_col_bounds(self.input@, i + 1);
                assert(self.input@[i] == c);
            }
            if c == '\n' {
                self.cur.line = self.cur.line + 1;
                self.cur.column = 1;
            } else {
                self.cur.column = self.cur.column + 1;
            }
            self.cur.index = self.cur.index + 1;
        }
    }

    fn is_space(&self) -> (r: bool)
        requires
            self.wf(),
        ensures
            r == (self.position() < self.text().len() && is_white(self.text()[self.position()])),
    {
        match self.peek() {
            Some(c) => char_is_whitespace(c),
            None => false,
        }
    }

    /// Skips white space and comments, which run from `'` to the end of the
    /// line.
    fn skip_spaces(&mut self)
        requires
            old(self).wf(),
            boundary(old(self).text(), old(self).position()),
        ensures
            final(self).wf(),
            final(self).text() == old(self).text(),
            final(self).position() >= old(self).position(),
            final(self).position() < final(self).text().len() ==> {
                let c = final(self).text()[final(self).position()];
                !is_white(c) && c != '\''
            },
            forall|k: int| old(self).position() <= k < final(self).position() ==> #[trigger] blank(old(self).text(), k),
    {
        loop
            invariant
                self.wf(),
                self.text() == old(self).text(),
                self.position() >= old(self).position(),
                forall|k: int| old(self).position() <= k < self.position() ==> #[trigger] blank(old(self).text(), k),
                boundary(self.text(), self.position()),
            ensures
                self.wf(),
                self.text() == old(self).text(),
                self.position() >= old(self).position(),
                self.position() < self.text().len() ==> {
                    let c = self.text()[self.position()];
                    !is_white(c) && c != '\''
                },
                forall|k: int| old(self).position() <= k < self.position() ==> #[trigger] blank(old(self).text(), k),
            decreases self.text().len() - self.position(),
        {
            let ghost pos0 = self.position();
            if self.is_space() {
                self.next();
                assert forall|k: int| old(self).position() <= k < self.position() implies #[trigger] blank(old(self).text(), k) by {
                    if k == pos0 {
                        assert(is_white(self.text()[k]));
                    }
                }
                assert(is_white(self.text()[self.position() - 1]));
            } else if self.peek() == Some('\'') {
                self.next();
                let ghost pos1 = self.position();
                assert(pos1 > pos0);
                while self.peek().is_some() && self.peek() != Some('\n')
                    invariant
                        self.wf(),
                        self.text() == old(self).text(),
                        self.position() >= pos1,
                        pos1 == pos0 + 1,
                        pos0 >= old(self).position(),
                        pos0 < self.text().len(),
                        self.text()[pos0] == '\'',
                        comment_start(self.text(), pos0),
                        forall|m: int| pos0 <= m < self.position() ==> #[trigger] self.text()[m] != '\n',
                    decreases self.text().len() - self.position(),
                {
                    let ghost p = self.position();
                    self.next();
                    assert forall|m: int| pos0 <= m < self.position() implies #[trigger] self.text()[m] != '\n' by {
                        if m == p {
                            assert(self.text()[p] != '\n');
                        }
                    }
                }
                let ghost pend = self.position();
                self.next();
                assert(boundary(self.text(), self.position())) by {
                    if self.position() < self.text().len() {
                        assert(self.position() == pend + 1);
                        assert(self.text()[pend] == '\n');
                    }
                }
                assert forall|k: int| old(self).position() <= k < self.position() implies #[trigger] blank(old(self).text(), k) by {
                    if k >= pos0 {
                        assert(forall|m: int| pos0 <= m < k ==> #[trigger] self.text()[m] != '\n');
                        assert(in_comment(self.text(), k));
                    }
                }
            } else {
                break;
            }
        }
    }

    /// Reads a word: characters up to white space or an angle bracket.
    fn read_word(&mut self) -> (r: String)
        requires
            old(self).wf(),
        ensures
            final(self).wf(),
            final(self).text() == old(self).text(),
            final(self).position() >= old(self).position(),
            r@ == old(self).text().subrange(old(self).position(), final(self).position()),
            old(self).position() < old(self).text().len() && word_char(old(self).text()[old(self).position()])
                ==> word_at(old(self).text(), old(self).position(), final(self).position()),
    {
        let start = self.cur.index as usize;
        loop
            invariant
                self.wf(),
                self.text() == old(self).text(),
                self.position() >= old(self).position(),
                start == old(self).position(),
                forall|k: int| start <= k < self.position() ==> word_char(#[trigger] self.text()[k]),
            ensures
                self.wf(),
                self.text() == old(self).text(),
                self.position() >= old(self).position(),
                forall|k: int| start <= k < self.position() ==> word_char(#[trigger] self.text()[k]),
                self.position() == self.text().len() || !word_char(self.text()[self.position()]),
            decreases self.text().len() - self.position(),
        {
            match self.peek() {
                Some(c) => {
                    if char_is_whitespace(c) || c == '<' || c == '>' {
                        break;
                    }
                    let ghost p = self.position();
                    self.next();
                    assert forall|k: int| start <= k < self.position() implies word_char(#[trigger] self.text()[k]) by {
                        if k == p {
                            assert(self.text()[k] == c);
                        }
                    }
                },
                None => break,
            }
        }
        let end = self.cur.index as usize;
        let piece = self.text.as_str().substring_char(start, end);
        str_to_string(piece)
    }

    /// The next token; the end marker once the text is used up.
    fn get_next_token(&mut self) -> (r: Token<TokenAttribute>)
        requires
            old(self).wf(),
            boundary(old(self).text(), old(self).position()),
        ensures
            boundary(final(self).text(), final(self).position()),
            r.tag is Finish ==> r.attribute.fragment.begin == r.attribute.fragment.end
                && r.attribute.fragment.begin.index == final(self).position(),
            final(self).wf(),
            final(self).text() == old(self).text(),
            final(self).position() >= old(self).position(),
            r.tag is Finish ==> final(self).position() == final(self).text().len(),
            !(r.tag is Finish) ==> final(self).position() > old(self).position() && meta_tag(r.tag->Terminal_0@),
            !(r.tag is Finish) ==> lexeme_ok(final(self).text(), r),
            !(r.tag is Finish) ==> old(self).position() <= r.attribute.fragment.begin.index,
            !(r.tag is Finish) ==> r.attribute.fragment.end.index == final(self).position(),
            !(r.tag is Finish) ==> forall|k: int| old(self).position() <= k < r.attribute.fragment.begin.index ==> #[trigger] blank(old(self).text(), k),
            r.tag is Finish ==> forall|k: int| old(self).position() <= k < final(self).position() ==> #[trigger] blank(old(self).text(), k),
    {
        self.skip_spaces();
        let begin = self.cur;
        match self.peek() {
            Some(ch) => {
                if ch == '<' {
                    self.next();
                    proof { reveal_strlit("open"); }
                    let t = tag_token("open", Fragment { begin, end: self.cur }, TokenDomainAttribute::Nothing);
                    assert(t.tag->Terminal_0@ =~= seq!['o', 'p', 'e', 'n']);
                    t
                } else if ch == '>' {
                    self.next();
                    proof { reveal_strlit("close"); }
                    let t = tag_token("close", Fragment { begin, end: self.cur }, TokenDomainAttribute::Nothing);
                    assert(t.tag->Terminal_0@ =~= seq!['c', 'l', 'o', 's', 'e']);
                    t
                } else if char_is_upper(ch) {
                    let word = self.read_word();
                    proof { reveal_strlit("nterm"); }
                    let t = tag_token("nterm", Fragment { begin, end: self.cur }, TokenDomainAttribute::Nonterminal(word));
                    assert(t.tag->Terminal_0@ =~= seq!['n', 't', 'e', 'r', 'm']);
                    t
                } else {
                    let word = self.read_word();
                    if is_header_word(&word) {
                        proof { reveal_strlit("ax"); }
                        let t = tag_token("ax", Fragment { begin, end: self.cur }, TokenDomainAttribute::Terminal(word));
                        assert(t.tag->Terminal_0@ =~= seq!['a', 'x']);
                        t
                    } else {
                        proof { reveal_strlit("term"); }
                        let t = tag_token("term", Fragment { begin, end: self.cur }, TokenDomainAttribute::Terminal(word));
                        assert(t.tag->Terminal_0@ =~= seq!['t', 'e', 'r', 'm']);
                        t
                    }
                }
            },
            None => Token {
                tag: TerminalOrFinish::Finish,
                attribute: TokenAttribute {
                    fragment: Fragment { begin, end: begin },
                    domain_attribute: TokenDomainAttribute::Nothing,
                },
            },
        }
    }

    /// All tokens of the text, the end marker last and only there. Each
    /// other token is what the text holds at its fragment, and the
    /// fragments come in order.
    pub fn get_tokens(&mut self) -> (r: Vec<Token<TokenAttribute>>)
        requires
            old(self).wf(),
            boundary(old(self).text(), old(self).position()),
        ensures
            final(self).wf(),
            crate::driver::well_terminated(r@),
            forall|i: int| 0 <= i < r@.len() - 1 ==> meta_tag((#[trigger] r@[i]).tag->Terminal_0@),
            forall|i: int| 0 <= i < r@.len() - 1 ==> lexeme_ok(old(self).text(), #[trigger] r@[i]),
            forall|i: int| 0 <= i < r@.len() - 2 ==> (#[trigger] r@[i]).attribute.fragment.end.index <= r@[i + 1].attribute.fragment.begin.index,
            final(self).position() == final(self).text().len(),
            final(self).text() == old(self).text(),
            forall|k: int| old(self).position() <= k < old(self).text().len() ==> #[trigger] covered(old(self).text(), r@, k),
    {
        let mut res: Vec<Token<TokenAttribute>> = Vec::new();
        loop
            invariant_except_break
                self.wf(),
                self.text() == old(self).text(),
                forall|i: int| 0 <= i < res@.len() ==> !((#[trigger] res@[i]).tag is Finish) && meta_tag(res@[i].tag->Terminal_0@),
                forall|i: int| 0 <= i < res@.len() ==> lexeme_ok(old(self).text(), #[trigger] res@[i]),
                forall|i: int| 0 <= i < res@.len() - 1 ==> (#[trigger] res@[i]).attribute.fragment.end.index <= res@[i + 1].attribute.fragment.begin.index,
                res@.len() > 0 ==> res@.last().attribute.fragment.end.index == self.position(),
                res@.len() > 0 ==> res@[0].attribute.fragment.begin.index >= old(self).position(),
                boundary(self.text(), self.position()),
                self.position() >= old(self).position(),
                forall|k: int| old(self).position() <= k < self.position() ==> #[trigger] covered(old(self).text(), res@, k),
            invariant
                self.wf(),
            ensures
                self.wf(),
                res@.len() > 0,
                res@.last().tag is Finish,
                forall|i: int| 0 <= i < res@.len() - 1 ==> !((#[trigger] res@[i]).tag is Finish) && meta_tag(res@[i].tag->Terminal_0@),
                forall|i: int| 0 <= i < res@.len() - 1 ==> lexeme_ok(old(self).text(), #[trigger] res@[i]),
                forall|i: int| 0 <= i < res@.len() - 2 ==> (#[trigger] res@[i]).attribute.fragment.end.index <= res@[i + 1].attribute.fragment.begin.index,
                self.position() == self.text().len(),
                self.text() == old(self).text(),
                forall|k: int| old(self).position() <= k < self.text().len() ==> #[trigger] covered(old(self).text(), res@, k),
            decreases self.text().len() - self.position(),
        {
            let ghost p_before = self.position();
            let token = self.get_next_token();
            let is_finish = match token.tag {
                TerminalOrFinish::Finish => true,
                _ => false,
            };
            let ghost before = res@;
            let ghost tok = token;
            res.push(token);
            proof {
                assert forall|k: int| old(self).position() <= k < self.position() implies #[trigger] covered(old(self).text(), res@, k) by {
                    if k < p_before {
                        assert(covered(old(self).text(), before, k));
                        if !blank(old(self).text(), k) {
                            let i = choose|i: int| 0 <= i < before.len() && before[i].attribute.fragment.begin.index <= k < #[trigger] before[i].attribute.fragment.end.index;
                            assert(res@[i] == before[i]);
                        }
                    } else if !(tok.tag is Finish) && k >= tok.attribute.fragment.begin.index {
                        assert(res@[before.len() as int] == tok);
                    } else {
                        assert(blank(old(self).text(), k));
                    }
                }
                assert forall|i: int| 0 <= i < res@.len() - 2 implies (#[trigger] res@[i]).attribute.fragment.end.index <= res@[i + 1].attribute.fragment.begin.index by {
                    assert(res@[i] == before[i]);
                    assert(res@[i + 1] == before[i + 1]);
                }
            }
            if is_finish {
                break;
            }
        }
        res
    }
}

fn is_header_word(w: &String) -> (r: bool)
    ensures
        r == (w@ == header_word()),
{
    let s = w.as_str();
    if s.unicode_len() != 5 {
        return false;
    }
    let r = s.get_char(0) == 'a' && s.get_char(1) == 'x' && s.get_char(2) == 'i' && s.get_char(3) == 'o' && s.get_char(4) == 'm';
    if r {
        assert(w@ =~= header_word());
    }
    r
}

impl TokenDomainAttribute {
    /// The name of a non-terminal token.
    pub fn as_nonterminal(&self) -> (r: Option<String>)
        ensures
            match self {
                TokenDomainAttribute::Nonterminal(s) => r is Some && r->Some_0@ == s@,
                _ => r is None,
            },
    {
        match self {
            TokenDomainAttribute::Nonterminal(s) => Some(copy_string(s)),
            _ => None,
        }
    }
}

/// The name that a leaf carries as a non-terminal.
pub open spec fn nterm_name(t: ParseTree<TokenAttribute>) -> Option<Seq<char>> {
    match t {
        ParseTree::Leaf(tok) => match tok.attribute.domain_attribute {
            TokenDomainAttribute::Nonterminal(s) => Some(s@),
            _ => None,
        },
        _ => None,
    }
}

/// The symbol that a leaf carries.
pub open spec fn symbol_of(t: ParseTree<TokenAttribute>) -> Option<SymV> {
    match t {
        ParseTree::Leaf(tok) => match tok.attribute.domain_attribute {
            TokenDomainAttribute::Nonterminal(s) => Some(SymV::N(s@)),
            TokenDomainAttribute::Terminal(s) => Some(SymV::T(s@)),
            TokenDomainAttribute::Nothing => None,
        },
        _ => None,
    }
}

/// The symbols of an item list `I -> term I | nterm I | <empty>`.
pub open spec fn terms_of(t: ParseTree<TokenAttribute>) -> Option<Seq<SymV>>
    decreases t,
{
    match t {
        ParseTree::Internal(_, ch) => if ch@.len() == 0 {
            Some(Seq::empty())
        } else if ch@.len() >= 2 {
            match (symbol_of(ch@[0]), terms_of(ch@[1])) {
                (Some(x), Some(rest)) => Some(seq![x] + rest),
                _ => None,
            }
        } else {
            None
        },
        _ => None,
    }
}

/// The rules of alternatives `P -> open I close P | <empty>` for `left`.
pub open spec fn subrules_of(left: Seq<char>, t: ParseTree<TokenAttribute>) -> Option<Seq<RuleV>>
    decreases t,
{
    match t {
        ParseTree::Internal(_, ch) => if ch@.len() == 0 {
            Some(Seq::empty())
        } else if ch@.len() >= 4 {
            match (terms_of(ch@[1]), subrules_of(left, ch@[3])) {
                (Some(right), Some(rest)) => Some(seq![RuleV { left, right }] + rest),
                _ => None,
            }
        } else {
            None
        },
        _ => None,
    }
}

/// The rules of groups `R -> T R | <empty>`, `T -> open nterm P close`.
pub open spec fn rules_of(t: ParseTree<TokenAttribute>) -> Option<Seq<RuleV>>
    decreases t,
{
    match t {
        ParseTree::Internal(_, ch) => if ch@.len() == 0 {
            Some(Seq::empty())
        } else if ch@.len() >= 2 {
            match (ch@[0], rules_of(ch@[1])) {
                (ParseTree::Internal(_, c2), Some(rest)) => if c2@.len() >= 3 {
                    match (nterm_name(c2@[1]), ) {
                        (Some(name), ) => match subrules_of(name, c2@[2]) {
                            Some(sub) => Some(sub + rest),
                            None => None,
                        },
                        _ => None,
                    }
                } else {
                    None
                },
                _ => None,
            }
        } else {
            None
        },
        _ => None,
    }
}

/// The grammar of a tree `S -> A R`, `A -> open ax open nterm close close`.
pub open spec fn grammar_of(t: ParseTree<TokenAttribute>) -> Option<GrammarV> {
    match t {
        ParseTree::Internal(_, rc) => if rc@.len() >= 2 {
            match rc@[0] {
                ParseTree::Internal(_, c) => if c@.len() >= 4 {
                    match (nterm_name(c@[3]), rules_of(rc@[1])) {
                        (Some(name), Some(rules)) => Some(GrammarV { start: name, rules }),
                        _ => None,
                    }
                } else {
                    None
                },
                _ => None,
            }
        } else {
            None
        },
        _ => None,
    }
}

fn get_nterm_name(t: &ParseTree<TokenAttribute>) -> (r: Option<String>)
    ensures
        match r {
            Some(s) => nterm_name(*t) == Some(s@),
            None => nterm_name(*t) is None,
        },
{
    match t {
        ParseTree::Leaf(tok) => tok.attribute.domain_attribute.as_nonterminal(),
        _ => None,
    }
}

fn get_terms_from_subtree(root: &ParseTree<TokenAttribute>) -> (r: Option<Vec<Term>>)
    ensures
        match r {
            Some(v) => terms_of(*root) == Some(crate::grammar::terms_view(v@)),
            None => terms_of(*root) is None,
        },
    decreases root,
{
    match root {
        ParseTree::Internal(_, children) => {
            if children.len() == 0 {
                let v: Vec<Term> = Vec::new();
                assert(crate::grammar::terms_view(v@) =~= Seq::<SymV>::empty());
                return Some(v);
            }
            if children.len() < 2 {
                return None;
            }
            let first = match &children[0] {
                ParseTree::Leaf(tok) => match &tok.attribute.domain_attribute {
                    TokenDomainAttribute::Nonterminal(n) => Term::Nonterminal(Nonterminal(copy_string(n))),
                    TokenDomainAttribute::Terminal(t) => Term::Terminal(Terminal(copy_string(t))),
                    TokenDomainAttribute::Nothing => return None,
                },
                _ => return None,
            };
            assert(symbol_of(children@[0]) == Some(first@));
            let rest = get_terms_from_subtree(&children[1]);
            match rest {
                Some(mut rest) => {
                    let ghost rv = crate::grammar::terms_view(rest@);
                    let mut res = vec![first];
                    res.append(&mut rest);
                    assert(crate::grammar::terms_view(res@) =~= seq![first@] + rv);
                    Some(res)
                },
                None => None,
            }
        },
        _ => None,
    }
}

fn get_subrules_from_tree(left: &Nonterminal, root: &ParseTree<TokenAttribute>) -> (r: Option<Vec<Rule>>)
    ensures
        match r {
            Some(v) => subrules_of(left@, *root) == Some(v@.map_values(|x: Rule| x@)),
            None => subrules_of(left@, *root) is None,
        },
    decreases root,
{
    match root {
        ParseTree::Internal(_, children) => {
            if children.len() == 0 {
                let v: Vec<Rule> = Vec::new();
                assert(v@.map_values(|x: Rule| x@) =~= Seq::<RuleV>::empty());
                return Some(v);
            }
            if children.len() < 4 {
                return None;
            }
            let terms = match get_terms_from_subtree(&children[1]) {
                Some(t) => t,
                None => return None,
            };
            match get_subrules_from_tree(left, &children[3]) {
                Some(mut rest) => {
                    let ghost rv = rest@.map_values(|x: Rule| x@);
                    let rule = Rule { left: left.cloned(), right: terms };
                    let mut res = vec![rule];
                    res.append(&mut rest);
                    assert(res@.map_values(|x: Rule| x@) =~= seq![RuleV { left: left@, right: crate::grammar::terms_view(terms@) }] + rv);
                    Some(res)
                },
                None => None,
            }
        },
        _ => None,
    }
}

fn get_rules_from_tree(root: &ParseTree<TokenAttribute>) -> (r: Option<Vec<Rule>>)
    ensures
        match r {
            Some(v) => rules_of(*root) == Some(v@.map_values(|x: Rule| x@)),
            None => rules_of(*root) is None,
        },
    decreases root,
{
    match root {
        ParseTree::Internal(_, children) => {
            if children.len() == 0 {
                let v: Vec<Rule> = Vec::new();
                assert(v@.map_values(|x: Rule| x@) =~= Seq::<RuleV>::empty());
                return Some(v);
            }
            if children.len() < 2 {
                return None;
            }
            let rest = match get_rules_from_tree(&children[1]) {
                Some(r) => r,
                None => return None,
            };
            let ghost rv = rest@.map_values(|x: Rule| x@);
            match &children[0] {
                ParseTree::Internal(_, c2) => {
                    if c2.len() < 3 {
                        return None;
                    }
                    let name = match get_nterm_name(&c2[1]) {
                        Some(n) => n,
                        None => return None,
                    };
                    let left = Nonterminal(name);
                    match get_subrules_from_tree(&left, &c2[2]) {
                        Some(mut rules) => {
                            let ghost sv = rules@.map_values(|x: Rule| x@);
                            let mut rest = rest;
                            rules.append(&mut rest);
                            assert(rules@.map_values(|x: Rule| x@) =~= sv + rv);
                            Some(rules)
                        },
                        None => None,
                    }
                },
                _ => None,
            }
        },
        _ => None,
    }
}

/// The grammar that a meta-grammar parse tree describes, augmented with
/// `ROOT -> start` and checked for undeclared non-terminals.
pub fn get_grammar_from_tree(root: &ParseTree<TokenAttribute>) -> (r: Result<Grammar, GeneratorError>)
    ensures
        match grammar_of(*root) {
            None => r is Err && r->Err_0 is UnexpectedTree,
            Some(gv) => {
                let a = crate::grammar::augmented(gv);
                if crate::grammar::defines_root(gv) {
                    r is Err && r->Err_0 is RootRedefined
                } else if crate::grammar::all_declared(a) {
                    r is Ok && r->Ok_0@ == a
                } else {
                    r is Err && r->Err_0 is UndeclaredNonterminal
                        && crate::grammar::first_undeclared(a, r->Err_0->UndeclaredNonterminal_0@)
                }
            },
        },
        r is Ok ==> r->Ok_0@.rules.last().left == crate::grammar::root_name()
            && r->Ok_0@.rules.last().right == seq![crate::grammar::SymV::N(r->Ok_0@.start)]
            && forall|i: int| 0 <= i < r->Ok_0@.rules.len() && r->Ok_0@.rules[i].left == crate::grammar::root_name()
                ==> i == r->Ok_0@.rules.len() - 1,
{
    let (rc, c) = match root {
        ParseTree::Internal(_, rc) => {
            if rc.len() < 2 {
                return Err(GeneratorError::UnexpectedTree);
            }
            match &rc[0] {
                ParseTree::Internal(_, c) => {
                    if c.len() < 4 {
                        return Err(GeneratorError::UnexpectedTree);
                    }
                    (rc, c)
                },
                _ => return Err(GeneratorError::UnexpectedTree),
            }
        },
        _ => return Err(GeneratorError::UnexpectedTree),
    };
    let name = match get_nterm_name(&c[3]) {
        Some(n) => n,
        None => return Err(GeneratorError::UnexpectedTree),
    };
    let rules = match get_rules_from_tree(&rc[1]) {
        Some(r) => r,
        None => return Err(GeneratorError::UnexpectedTree),
    };
    let root_name_value = crate::grammar::root_nonterminal();
    let ghost gv = GrammarV { start: name@, rules: rules@.map_values(|x: Rule| x@) };
    assert(grammar_of(*root) == Some(gv));
    let mut i: usize = 0;
    while i < rules.len()
        invariant
            i <= rules@.len(),
            grammar_of(*root) == Some(gv),
            gv.rules == rules@.map_values(|x: Rule| x@),
            root_name_value@ == crate::grammar::root_name(),
            forall|j: int| 0 <= j < i ==> (#[trigger] rules@[j]).left@ != crate::grammar::root_name(),
        decreases rules.len() - i,
    {
        if rules[i].left.same(&root_name_value) {
            proof {
                assert(gv.rules[i as int].left == crate::grammar::root_name());
                assert(crate::grammar::defines_root(gv));
            }
            return Err(GeneratorError::RootRedefined);
        }
        i += 1;
    }
    let mut grammar = Grammar { start: Nonterminal(name), rules };
    let ghost g0 = grammar@;
    proof {
        assert(g0 == gv);
        assert(!crate::grammar::defines_root(gv));
        assert forall|j: int| 0 <= j < g0.rules.len() implies g0.rules[j].left != crate::grammar::root_name() by {
            assert(g0.rules[j] == grammar.rules@[j]@);
        }
        crate::grammar::lemma_augmentation_root_unique(g0);
    }
    crate::grammar::add_fake_root(&mut grammar);
    match crate::grammar::validate_grammar(&grammar) {
        Ok(()) => Ok(grammar),
        Err(e) => Err(e),
    }
}

} // verus!
