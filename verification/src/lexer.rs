//! The lexer: a cursor over a text that hands out one token at a time.

use vstd::prelude::*;
use vstd::utf8::*;
use crate::number::is_decimal_number;
use crate::number::is_decimal_text;
use crate::number::is_exponent_mark;
use crate::number::is_sign;
pub use crate::token::Token;
use crate::token::token_view;
use crate::token::TokenView;
use crate::unicode::bytes_from;
use crate::unicode::decode_char;
use crate::unicode::is_decimal_digit;
use crate::unicode::is_letter;
use crate::unicode::is_white_space;
use crate::unicode::lemma_encode_len;
use crate::unicode::lemma_encode_split;
use crate::unicode::lemma_encode_take_next;
use crate::unicode::same_text;
use crate::unicode::utf8_len;

verus! {

/// The classes of characters of which the lexer reads a whole run.
pub enum CharClass {
    /// White space.
    Space,
    /// The characters of a number: digits, point, signs and exponent marks.
    Numeric,
    /// Letters.
    Letter,
}

/// A character of a number: a digit, a point, a sign or an exponent mark.
pub open spec fn is_number_char(c: char) -> bool {
    is_decimal_digit(c) || c == '.' || is_sign(c) || is_exponent_mark(c)
}

/// Whether `c` belongs to `class`.
pub open spec fn in_class(c: char, class: CharClass) -> bool {
    match class {
        CharClass::Space => is_white_space(c),
        CharClass::Numeric => is_number_char(c),
        CharClass::Letter => is_letter(c),
    }
}

/// The length of the longest run of characters of `class` that `s` starts with.
pub open spec fn run_len(s: Seq<char>, class: CharClass) -> nat
    decreases s.len(),
{
    if s.len() > 0 && in_class(s[0], class) {
        1 + run_len(s.drop_first(), class)
    } else {
        0
    }
}

/// The longest run of characters of `class` that `s` starts with.
pub open spec fn run(s: Seq<char>, class: CharClass) -> Seq<char> {
    s.take(run_len(s, class) as int)
}

/// What follows the longest run of characters of `class` that `s` starts with.
pub open spec fn after_run(s: Seq<char>, class: CharClass) -> Seq<char> {
    s.skip(run_len(s, class) as int)
}

/// The text without its first `n` characters, or without all of them where
/// it has fewer.
pub open spec fn skip_up_to(s: Seq<char>, n: nat) -> Seq<char> {
    if n <= s.len() {
        s.skip(n as int)
    } else {
        Seq::empty()
    }
}

/// The character that the letter after a backslash stands for, if any.
pub open spec fn escape_value(c: char) -> Option<char> {
    if c == '"' {
        Some('"')
    } else if c == '\\' {
        Some('\\')
    } else if c == '/' {
        Some('/')
    } else if c == 'b' {
        Some('\u{8}')
    } else if c == 'f' {
        Some('\u{c}')
    } else if c == 'n' {
        Some('\n')
    } else if c == 'r' {
        Some('\r')
    } else if c == 't' {
        Some('\t')
    } else {
        None
    }
}

/// The number of characters that an escape takes, the backslash included:
/// six for `\u` and its four digits, two for any other.
pub open spec fn escape_len(c: char) -> nat {
    if c == 'u' {
        6
    } else {
        2
    }
}

/// Reads a string literal whose opening quote has been passed: the decoded
/// text, and what follows the closing quote. A literal that the end of the
/// text cuts short gives what was decoded up to there.
pub open spec fn string_literal(s: Seq<char>) -> (Seq<char>, Seq<char>)
    decreases s.len(),
{
    if s.len() == 0 {
        (Seq::empty(), s)
    } else if s[0] == '"' {
        (Seq::empty(), s.drop_first())
    } else if s[0] == '\\' {
        if s.len() == 1 {
            (Seq::empty(), Seq::empty())
        } else {
            let (text, rest) = string_literal(skip_up_to(s, escape_len(s[1])));
            match escape_value(s[1]) {
                Some(c) => (seq![c] + text, rest),
                None => (text, rest),
            }
        }
    } else {
        let (text, rest) = string_literal(s.drop_first());
        (seq![s[0]] + text, rest)
    }
}

/// The keyword that a word spells, if any.
pub open spec fn keyword(word: Seq<char>) -> Option<TokenView> {
    if word == seq!['t', 'r', 'u', 'e'] {
        Some(TokenView::True)
    } else if word == seq!['f', 'a', 'l', 's', 'e'] {
        Some(TokenView::False)
    } else if word == seq!['n', 'u', 'l', 'l'] {
        Some(TokenView::Null)
    } else {
        None
    }
}

/// The token that one of the six punctuation marks stands for.
pub open spec fn punctuation(c: char) -> Option<TokenView> {
    if c == '{' {
        Some(TokenView::LeftBrace)
    } else if c == '}' {
        Some(TokenView::RightBrace)
    } else if c == '[' {
        Some(TokenView::LeftBracket)
    } else if c == ']' {
        Some(TokenView::RightBracket)
    } else if c == ':' {
        Some(TokenView::Colon)
    } else if c == ',' {
        Some(TokenView::Comma)
    } else {
        None
    }
}

/// The number token for a run of number characters: present where the run
/// is a decimal number.
pub open spec fn number_token(lexeme: Seq<char>) -> Option<TokenView> {
    if is_decimal_number(lexeme) {
        Some(TokenView::Number(lexeme))
    } else {
        None
    }
}

/// One step of the lexer on the text `s`: the token read, if any, and the
/// text that is left. White space is passed first. No token is read at the
/// end of the text, from a run of number characters that is no number, from a
/// word that is no keyword, and from a character that starts no token.
pub open spec fn lex(s: Seq<char>) -> (Option<TokenView>, Seq<char>) {
    let t = after_run(s, CharClass::Space);
    if t.len() == 0 {
        (None, t)
    } else if punctuation(t[0]) is Some {
        (punctuation(t[0]), t.drop_first())
    } else if t[0] == '"' {
        let (text, rest) = string_literal(t.drop_first());
        (Some(TokenView::String(text)), rest)
    } else if is_decimal_digit(t[0]) || is_sign(t[0]) {
        (number_token(run(t, CharClass::Numeric)), after_run(t, CharClass::Numeric))
    } else if is_letter(t[0]) {
        (keyword(run(t, CharClass::Letter)), after_run(t, CharClass::Letter))
    } else {
        (None, t.drop_first())
    }
}

/// A run is no longer than the text it starts.
pub proof fn lemma_run_len_bound(s: Seq<char>, class: CharClass)
    ensures
        run_len(s, class) <= s.len(),
    decreases s.len(),
{
    if s.len() > 0 && in_class(s[0], class) {
        lemma_run_len_bound(s.drop_first(), class);
    }
}

/// A run goes on over the first character where that belongs to the class,
/// and is empty where it does not.
pub proof fn lemma_run_step(s: Seq<char>, class: CharClass)
    ensures
        s.len() > 0 && in_class(s[0], class) ==> {
            &&& run(s, class) == seq![s[0]] + run(s.drop_first(), class)
            &&& after_run(s, class) == after_run(s.drop_first(), class)
        },
        !(s.len() > 0 && in_class(s[0], class)) ==> {
            &&& run(s, class) == Seq::<char>::empty()
            &&& after_run(s, class) == s
        },
{
    if s.len() > 0 && in_class(s[0], class) {
        lemma_run_len_bound(s.drop_first(), class);
        assert(run(s, class) =~= seq![s[0]] + run(s.drop_first(), class));
        assert(after_run(s, class) =~= after_run(s.drop_first(), class));
    } else {
        assert(run(s, class) =~= Seq::<char>::empty());
        assert(after_run(s, class) =~= s);
    }
}

/// Leaving out `a` characters and then `b` leaves out `a + b`.
pub proof fn lemma_skip_up_to_add(s: Seq<char>, a: nat, b: nat)
    ensures
        skip_up_to(skip_up_to(s, a), b) == skip_up_to(s, a + b),
{
    assert(skip_up_to(skip_up_to(s, a), b) =~= skip_up_to(s, a + b));
}

/// What follows a string literal is no longer than what the literal was read
/// from.
pub proof fn lemma_string_literal_rest(s: Seq<char>)
    ensures
        string_literal(s).1.len() <= s.len(),
    decreases s.len(),
{
    if s.len() == 0 || s[0] == '"' {
    } else if s[0] == '\\' {
        if s.len() > 1 {
            lemma_string_literal_rest(skip_up_to(s, escape_len(s[1])));
        }
    } else {
        lemma_string_literal_rest(s.drop_first());
    }
}

/// A step of the lexer never gives back a longer text. It gives back a
/// shorter one unless the text is empty, and so whenever it reads a token.
pub proof fn lemma_lex_progress(s: Seq<char>)
    ensures
        lex(s).1.len() <= s.len(),
        s.len() > 0 ==> lex(s).1.len() < s.len(),
        lex(s).0 is Some ==> lex(s).1.len() < s.len(),
        s.len() == 0 ==> lex(s) == (None::<TokenView>, s),
{
    lemma_run_len_bound(s, CharClass::Space);
    let t = after_run(s, CharClass::Space);
    if t.len() == 0 {
        if s.len() == 0 {
            assert(t =~= s);
        }
    } else if punctuation(t[0]) is Some {
    } else if t[0] == '"' {
        lemma_string_literal_rest(t.drop_first());
    } else if is_decimal_digit(t[0]) || is_sign(t[0]) {
        lemma_run_len_bound(t, CharClass::Numeric);
    } else if is_letter(t[0]) {
        lemma_run_len_bound(t, CharClass::Letter);
    } else {
    }
}

/// What the lexer reads from a text, step by step, until the text is used
/// up: a token, or none where a step reads no token.
pub open spec fn tokens(s: Seq<char>) -> Seq<Option<TokenView>>
    decreases s.len(),
{
    if s.len() == 0 {
        Seq::empty()
    } else {
        proof {
            lemma_lex_progress(s);
        }
        seq![lex(s).0] + tokens(lex(s).1)
    }
}

/// The tokens of a text as its reader sees them: at the end of the text the
/// token is absent.
pub open spec fn token_stream(s: Seq<char>) -> Seq<Option<TokenView>> {
    if s.len() == 0 {
        seq![None]
    } else {
        tokens(s)
    }
}

/// The text that is left after `n` steps of the lexer.
pub open spec fn rest_after(s: Seq<char>, n: nat) -> Seq<char>
    decreases n,
{
    if n == 0 {
        s
    } else {
        rest_after(lex(s).1, (n - 1) as nat)
    }
}

/// Lexing ends. After as many steps as the text has characters, or more,
/// nothing of the text is left, and a step from there reads no token and
/// leaves the lexer at the end.
pub proof fn lemma_lexing_ends(s: Seq<char>, n: nat)
    requires
        n >= s.len(),
    ensures
        rest_after(s, n).len() == 0,
        lex(rest_after(s, n)) == (None::<TokenView>, rest_after(s, n)),
    decreases n,
{
    lemma_lex_progress(s);
    if n > 0 {
        lemma_lexing_ends(lex(s).1, (n - 1) as nat);
    }
    lemma_lex_progress(rest_after(s, n));
}

/// The state of a lexer as mathematical values.
pub struct LexerView {
    /// The whole text.
    pub source: Seq<char>,
    /// The number of characters before the current one.
    pub consumed: nat,
    /// The byte offset of the current character.
    pub position: nat,
    /// The byte offset of the character after the current one.
    pub read_position: nat,
    /// The current character, absent at the end of the text.
    pub ch: Option<char>,
}

impl LexerView {
    /// The text from the current character on.
    pub open spec fn rest(self) -> Seq<char> {
        self.source.skip(self.consumed as int)
    }

    /// The number of bytes that the current character takes, zero at the end.
    pub open spec fn current_len(self) -> int {
        match self.ch {
            Some(c) => utf8_len(c),
            None => 0,
        }
    }

    /// The cursors lie within the text, the current character starts at
    /// `position` and is the one after the first `consumed`, and it ends at
    /// `read_position`.
    pub open spec fn wf(self) -> bool {
        &&& self.consumed <= self.source.len()
        &&& self.position == encode_utf8(self.source.take(self.consumed as int)).len()
        &&& self.ch == if self.consumed < self.source.len() {
            Some(self.source[self.consumed as int])
        } else {
            None
        }
        &&& self.read_position == self.position + self.current_len()
        &&& self.position <= self.read_position <= encode_utf8(self.source).len()
    }

    /// The number of characters before the one that is read next.
    pub open spec fn pending(self) -> nat {
        match self.ch {
            Some(_) => self.consumed + 1,
            None => self.consumed,
        }
    }

    /// The next character to read starts at `read_position`.
    pub open spec fn ready(self) -> bool {
        &&& self.pending() <= self.source.len()
        &&& self.read_position == encode_utf8(self.source.take(self.pending() as int)).len()
    }
}

/// A well-formed state is ready for the next character.
pub proof fn lemma_wf_ready(v: LexerView)
    requires
        v.wf(),
    ensures
        v.ready(),
{
    if v.consumed < v.source.len() {
        lemma_encode_take_next(v.source, v.consumed as int);
    }
}

/// A cursor over a text, with the current character read ahead.
pub struct Lexer<'a> {
    input: &'a str,
    position: usize,
    read_position: usize,
    ch: Option<char>,
    consumed: Ghost<nat>,
}

impl<'a> View for Lexer<'a> {
    type V = LexerView;

    closed spec fn view(&self) -> LexerView {
        LexerView {
            source: self.input@,
            consumed: self.consumed@,
            position: self.position as nat,
            read_position: self.read_position as nat,
            ch: self.ch,
        }
    }
}

impl<'a> Lexer<'a> {
    /// The invariant of the lexer's state.
    pub open spec fn wf(&self) -> bool {
        self@.wf()
    }

    /// The text from the current character on.
    pub open spec fn rest(&self) -> Seq<char> {
        self@.rest()
    }

    /// A lexer at the start of `input`, with the first character read.
    pub fn new(input: &'a str) -> (lexer: Self)
        ensures
            lexer.wf(),
            lexer@.source == input@,
            lexer@.consumed == 0,
            lexer.rest() == input@,
    {
        let mut lexer = Lexer { input, position: 0, read_position: 0, ch: None, consumed: Ghost(0) };
        proof {
            assert(input@.take(0) =~= Seq::<char>::empty());
        }
        lexer.read_char();
        lexer
    }

    /// The text that the lexer reads.
    pub fn input(&self) -> (r: &'a str)
        ensures
            r@ == self@.source,
    {
        self.input
    }

    /// The byte offset of the current character.
    pub fn position(&self) -> (r: usize)
        ensures
            r == self@.position,
    {
        self.position
    }

    /// The byte offset of the character after the current one.
    pub fn read_position(&self) -> (r: usize)
        ensures
            r == self@.read_position,
    {
        self.read_position
    }

    /// The current character, absent at the end of the text.
    pub fn ch(&self) -> (r: Option<char>)
        ensures
            r == self@.ch,
    {
        self.ch
    }

    /// Reads the character at `read_position` and moves both cursors on. At
    /// the end of the text the current character becomes absent.
    fn read_char(&mut self)
        requires
            old(self)@.ready(),
        ensures
            final(self).wf(),
            final(self)@.source == old(self)@.source,
            final(self)@.consumed == old(self)@.pending(),
            old(self)@.wf() ==> final(self).rest() == skip_up_to(old(self).rest(), 1),
    {
        let ghost source = self.input@;
        let ghost n = self@.pending() as int;
        proof {
            lemma_encode_split(source, n);
            lemma_encode_len(source.skip(n));
            encode_utf8_valid_utf8(source.skip(n));
            encode_utf8_decode_utf8(source.skip(n));
            assert(bytes_from(encode_utf8(source), self.read_position as int) =~= encode_utf8(
                source.skip(n),
            ));
            if n < source.len() {
                lemma_encode_take_next(source, n);
            } else {
                assert(source.take(n) =~= source);
            }
        }
        let bytes = self.input.as_bytes();
        if self.read_position >= bytes.len() {
            self.ch = None;
            self.position = self.read_position;
        } else {
            let (c, width) = decode_char(bytes, self.read_position);
            self.ch = Some(c);
            self.position = self.read_position;
            self.read_position = self.read_position + width;
        }
        self.consumed = Ghost(n as nat);
        proof {
            if old(self)@.wf() {
                assert(self.rest() =~= skip_up_to(old(self).rest(), 1));
            }
        }
    }

    /// Passes the white space that the rest of the text starts with.
    fn skip_whitespace(&mut self)
        requires
            old(self).wf(),
        ensures
            final(self).wf(),
            final(self)@.source == old(self)@.source,
            final(self).rest() == after_run(old(self).rest(), CharClass::Space),
    {
        loop
            invariant
                self.wf(),
                self@.source == old(self)@.source,
                after_run(self.rest(), CharClass::Space) == after_run(
                    old(self).rest(),
                    CharClass::Space,
                ),
            ensures
                self.rest() == after_run(old(self).rest(), CharClass::Space),
            decreases self.rest().len(),
        {
            proof {
                lemma_run_step(self.rest(), CharClass::Space);
                lemma_wf_ready(self@);
            }
            if let Some(ch) = self.ch {
                if ch.is_whitespace() {
                    self.read_char();
                } else {
                    break ;
                }
            } else {
                break ;
            }
        }
    }

    /// Reads a string literal. The current character is the opening quote; the
    /// lexer ends behind the closing quote, or at the end of the text.
    fn read_string(&mut self) -> (text: String)
        requires
            old(self).wf(),
        ensures
            final(self).wf(),
            final(self)@.source == old(self)@.source,
            text@ == string_literal(skip_up_to(old(self).rest(), 1)).0,
            final(self).rest() == string_literal(skip_up_to(old(self).rest(), 1)).1,
    {
        let mut result = String::new();
        proof {
            lemma_wf_ready(self@);
        }
        self.read_char();
        let ghost start = self.rest();
        loop
            invariant_except_break
                self.wf(),
                self@.source == old(self)@.source,
                string_literal(start).0 == result@ + string_literal(self.rest()).0,
                string_literal(start).1 == string_literal(self.rest()).1,
            ensures
                self.wf(),
                self@.source == old(self)@.source,
                string_literal(start).0 == result@,
                string_literal(start).1 == self.rest(),
            decreases self.rest().len(),
        {
            let ghost s = self.rest();
            let ghost before = result@;
            proof {
                lemma_wf_ready(self@);
            }
            let ch = match self.ch {
                Some(c) => c,
                None => {
                    assert(result@ + Seq::<char>::empty() =~= result@);
                    break ;
                },
            };
            if ch == '"' {
                self.read_char();
                assert(result@ + Seq::<char>::empty() =~= result@);
                break ;
            }
            if ch == '\\' {
                self.read_char();
                proof {
                    lemma_wf_ready(self@);
                }
                if let Some(esc) = self.ch {
                    assert(esc == s[1]);
                    if esc == 'u' {
                        let mut k: usize = 0;
                        while k < 4
                            invariant
                                k <= 4,
                                self.wf(),
                                self@.source == old(self)@.source,
                                self.rest() == skip_up_to(s, (1 + k) as nat),
                            decreases 4 - k,
                        {
                            proof {
                                lemma_wf_ready(self@);
                                lemma_skip_up_to_add(s, (1 + k) as nat, 1);
                            }
                            self.read_char();
                            k += 1;
                        }
                    } else if let Some(c) = unescape(esc) {
                        result.push(c);
                    }
                    proof {
                        lemma_wf_ready(self@);
                        lemma_skip_up_to_add(s, (escape_len(esc) - 1) as nat, 1);
                    }
                    self.read_char();
                    proof {
                        let next = string_literal(self.rest());
                        match escape_value(esc) {
                            Some(c) => {
                                assert(before + (seq![c] + next.0) =~= before.push(c) + next.0);
                            },
                            None => {},
                        }
                    }
                } else {
                    self.read_char();
                    assert(self.rest() =~= Seq::<char>::empty());
                }
            } else {
                result.push(ch);
                self.read_char();
                proof {
                    let next = string_literal(self.rest());
                    assert(before + (seq![ch] + next.0) =~= before.push(ch) + next.0);
                }
            }
        }
        result
    }

    /// Reads the run of number characters that the rest of the text starts
    /// with.
    fn read_number(&mut self) -> (text: String)
        requires
            old(self).wf(),
        ensures
            final(self).wf(),
            final(self)@.source == old(self)@.source,
            text@ == run(old(self).rest(), CharClass::Numeric),
            final(self).rest() == after_run(old(self).rest(), CharClass::Numeric),
    {
        let mut result = String::new();
        loop
            invariant
                self.wf(),
                self@.source == old(self)@.source,
                run(old(self).rest(), CharClass::Numeric) == result@ + run(
                    self.rest(),
                    CharClass::Numeric,
                ),
                after_run(old(self).rest(), CharClass::Numeric) == after_run(
                    self.rest(),
                    CharClass::Numeric,
                ),
            ensures
                run(old(self).rest(), CharClass::Numeric) == result@,
                after_run(old(self).rest(), CharClass::Numeric) == self.rest(),
            decreases self.rest().len(),
        {
            let ghost before = result@;
            proof {
                lemma_run_step(self.rest(), CharClass::Numeric);
                lemma_wf_ready(self@);
                assert(result@ + Seq::<char>::empty() =~= result@);
            }
            if let Some(ch) = self.ch {
                if ch.is_digit(10) || ch == '.' || ch == '-' || ch == '+' || ch == 'e' || ch
                    == 'E' {
                    result.push(ch);
                    self.read_char();
                    proof {
                        let next = run(self.rest(), CharClass::Numeric);
                        assert(before + (seq![ch] + next) =~= before.push(ch) + next);
                    }
                } else {
                    break ;
                }
            } else {
                break ;
            }
        }
        result
    }

    /// Reads the run of letters that the rest of the text starts with, and
    /// gives the keyword that it spells, if any.
    fn read_literal(&mut self) -> (token: Option<Token>)
        requires
            old(self).wf(),
        ensures
            final(self).wf(),
            final(self)@.source == old(self)@.source,
            token_view(token) == keyword(run(old(self).rest(), CharClass::Letter)),
            final(self).rest() == after_run(old(self).rest(), CharClass::Letter),
    {
        let mut word = String::new();
        loop
            invariant
                self.wf(),
                self@.source == old(self)@.source,
                run(old(self).rest(), CharClass::Letter) == word@ + run(
                    self.rest(),
                    CharClass::Letter,
                ),
                after_run(old(self).rest(), CharClass::Letter) == after_run(
                    self.rest(),
                    CharClass::Letter,
                ),
            ensures
                run(old(self).rest(), CharClass::Letter) == word@,
                after_run(old(self).rest(), CharClass::Letter) == self.rest(),
            decreases self.rest().len(),
        {
            let ghost before = word@;
            proof {
                lemma_run_step(self.rest(), CharClass::Letter);
                lemma_wf_ready(self@);
                assert(word@ + Seq::<char>::empty() =~= word@);
            }
            if let Some(ch) = self.ch {
                if ch.is_alphabetic() {
                    word.push(ch);
                    self.read_char();
                    proof {
                        let next = run(self.rest(), CharClass::Letter);
                        assert(before + (seq![ch] + next) =~= before.push(ch) + next);
                    }
                } else {
                    break ;
                }
            } else {
                break ;
            }
        }
        proof {
            reveal_strlit("true");
            reveal_strlit("false");
            reveal_strlit("null");
            assert("true"@ =~= seq!['t', 'r', 'u', 'e']);
            assert("false"@ =~= seq!['f', 'a', 'l', 's', 'e']);
            assert("null"@ =~= seq!['n', 'u', 'l', 'l']);
        }
        let spelled = word.as_str();
        if same_text(spelled, "true") {
            Some(Token::True)
        } else if same_text(spelled, "false") {
            Some(Token::False)
        } else if same_text(spelled, "null") {
            Some(Token::Null)
        } else {
            None
        }
    }

    /// Reads the next token. Gives none at the end of the text, and none
    /// where what was read makes no token.
    pub fn next_token(&mut self) -> (token: Option<Token>)
        requires
            old(self).wf(),
        ensures
            final(self).wf(),
            final(self)@.source == old(self)@.source,
            token_view(token) == lex(old(self).rest()).0,
            final(self).rest() == lex(old(self).rest()).1,
            final(self).rest().len() < old(self).rest().len() || (old(self).rest().len() == 0
                && token is None && final(self).rest().len() == 0),
    {
        proof {
            lemma_lex_progress(self.rest());
        }
        self.skip_whitespace();
        proof {
            lemma_wf_ready(self@);
        }
        let c = match self.ch {
            Some(c) => c,
            None => {
                return None;
            },
        };
        assert(c == self.rest()[0]);
        if c == '{' {
            self.read_char();
            Some(Token::LeftBrace)
        } else if c == '}' {
            self.read_char();
            Some(Token::RightBrace)
        } else if c == '[' {
            self.read_char();
            Some(Token::LeftBracket)
        } else if c == ']' {
            self.read_char();
            Some(Token::RightBracket)
        } else if c == ':' {
            self.read_char();
            Some(Token::Colon)
        } else if c == ',' {
            self.read_char();
            Some(Token::Comma)
        } else if c == '"' {
            let text = self.read_string();
            Some(Token::String(text))
        } else if c.is_digit(10) || c == '-' || c == '+' {
            let text = self.read_number();
            if is_decimal_text(text.as_str()) {
                Some(Token::Number(text))
            } else {
                None
            }
        } else if c.is_alphabetic() {
            self.read_literal()
        } else {
            self.read_char();
            None
        }
    }
}

/// The character that the letter after a backslash stands for, if any.
fn unescape(c: char) -> (r: Option<char>)
    ensures
        r == escape_value(c),
{
    if c == '"' {
        Some('"')
    } else if c == '\\' {
        Some('\\')
    } else if c == '/' {
        Some('/')
    } else if c == 'b' {
        Some('\u{8}')
    } else if c == 'f' {
        Some('\u{c}')
    } else if c == 'n' {
        Some('\n')
    } else if c == 'r' {
        Some('\r')
    } else if c == 't' {
        Some('\t')
    } else {
        None
    }
}

} // verus!
