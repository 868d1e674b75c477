//! The parser: builds a value from the tokens of a lexer, with one token
//! read ahead.

use vstd::prelude::*;
use crate::json::insert_entry;
use crate::json::JsonArray;
use crate::json::JsonObject;
use crate::json::JsonValue;
use crate::json::JsonView;
use crate::json::value_view;
use crate::lexer::lemma_lex_progress;
use crate::lexer::lex;
use crate::lexer::rest_after;
use crate::lexer::Lexer;
use crate::lexer::token_stream;
use crate::lexer::tokens;
use crate::token::Token;
use crate::token::token_view;
use crate::token::TokenView;

verus! {

/// The token at the head of a stream, absent where the stream is empty.
pub open spec fn current(ts: Seq<Option<TokenView>>) -> Option<TokenView> {
    if ts.len() > 0 {
        ts[0]
    } else {
        None
    }
}

/// The stream after its head. After the last token the stream stays at an
/// absent token.
pub open spec fn advance(ts: Seq<Option<TokenView>>) -> Seq<Option<TokenView>> {
    if ts.len() > 1 {
        ts.drop_first()
    } else {
        seq![None]
    }
}

/// A measure of a stream that goes down with each step past a token.
pub open spec fn measure(ts: Seq<Option<TokenView>>) -> nat {
    if current(ts) is Some {
        ts.len() + 1
    } else {
        ts.len()
    }
}

/// Reads a value from the head of a stream: the value, or none where the
/// stream does not start with one, and the stream that is left.
pub open spec fn read_value(ts: Seq<Option<TokenView>>) -> (
    Option<JsonView>,
    Seq<Option<TokenView>>,
)
    decreases measure(ts), 1nat,
{
    match current(ts) {
        Some(TokenView::LeftBrace) => read_object(ts),
        Some(TokenView::LeftBracket) => read_array(ts),
        Some(TokenView::String(text)) => (Some(JsonView::String(text)), advance(ts)),
        Some(TokenView::Number(text)) => (Some(JsonView::Number(text)), advance(ts)),
        Some(TokenView::True) => (Some(JsonView::True), advance(ts)),
        Some(TokenView::False) => (Some(JsonView::False), advance(ts)),
        Some(TokenView::Null) => (Some(JsonView::Null), advance(ts)),
        _ => (None, ts),
    }
}

/// Reads an object: a left brace, then a right brace at once or entries up to
/// one.
pub open spec fn read_object(ts: Seq<Option<TokenView>>) -> (
    Option<JsonView>,
    Seq<Option<TokenView>>,
)
    decreases measure(ts), 0nat,
{
    if current(ts) != Some(TokenView::LeftBrace) {
        (None, ts)
    } else if current(advance(ts)) == Some(TokenView::RightBrace) {
        (Some(JsonView::Object(Seq::empty())), advance(advance(ts)))
    } else {
        read_entries(advance(ts), Seq::empty())
    }
}

/// Reads the entries of an object after `entries`: a key, a colon and a
/// value, then a comma and more entries or the right brace. An entry whose
/// value is absent is left out. The condition on the measure holds of every
/// stream (`lemma_read_value_progress`); it stands here to show that the
/// definition ends.
pub open spec fn read_entries(
    ts: Seq<Option<TokenView>>,
    entries: Seq<(Seq<char>, JsonView)>,
) -> (Option<JsonView>, Seq<Option<TokenView>>)
    decreases measure(ts), 0nat,
{
    match current(ts) {
        Some(TokenView::String(key)) => {
            if current(advance(ts)) != Some(TokenView::Colon) {
                (None, advance(ts))
            } else {
                let (value, after) = read_value(advance(advance(ts)));
                let more = match value {
                    Some(v) => insert_entry(entries, key, v),
                    None => entries,
                };
                if current(after) == Some(TokenView::Comma) && measure(advance(after)) < measure(
                    ts,
                ) {
                    read_entries(advance(after), more)
                } else if current(after) == Some(TokenView::RightBrace) {
                    (Some(JsonView::Object(more)), advance(after))
                } else {
                    (None, after)
                }
            }
        },
        _ => (None, ts),
    }
}

/// Reads an array: a left bracket, then a right bracket at once or items up
/// to one.
pub open spec fn read_array(ts: Seq<Option<TokenView>>) -> (
    Option<JsonView>,
    Seq<Option<TokenView>>,
)
    decreases measure(ts), 0nat,
{
    if current(ts) != Some(TokenView::LeftBracket) {
        (None, ts)
    } else if current(advance(ts)) == Some(TokenView::RightBracket) {
        (Some(JsonView::Array(Seq::empty())), advance(advance(ts)))
    } else {
        read_items(advance(ts), Seq::empty())
    }
}

/// Reads the items of an array after `items`: a value, then a comma and more
/// items or the right bracket. Where a value is absent there is no array.
/// The condition on the measure holds of every stream
/// (`lemma_read_value_progress`); it stands here to show that the definition
/// ends.
pub open spec fn read_items(ts: Seq<Option<TokenView>>, items: Seq<JsonView>) -> (
    Option<JsonView>,
    Seq<Option<TokenView>>,
)
    decreases measure(ts), 2nat,
{
    let (value, after) = read_value(ts);
    match value {
        Some(v) => {
            if current(after) == Some(TokenView::Comma) && measure(advance(after)) < measure(ts) {
                read_items(advance(after), items.push(v))
            } else if current(after) == Some(TokenView::RightBracket) {
                (Some(JsonView::Array(items.push(v))), advance(after))
            } else {
                (None, after)
            }
        },
        None => (None, after),
    }
}

/// Reading a value never gives back a stream of a greater measure.
pub proof fn lemma_read_value_progress(ts: Seq<Option<TokenView>>)
    ensures
        measure(read_value(ts).1) <= measure(ts),
    decreases measure(ts), 1nat,
{
    match current(ts) {
        Some(TokenView::LeftBrace) => lemma_read_object_progress(ts),
        Some(TokenView::LeftBracket) => lemma_read_array_progress(ts),
        _ => {},
    }
}

/// Reading an object never gives back a stream of a greater measure.
pub proof fn lemma_read_object_progress(ts: Seq<Option<TokenView>>)
    ensures
        measure(read_object(ts).1) <= measure(ts),
    decreases measure(ts), 0nat,
{
    if current(ts) == Some(TokenView::LeftBrace) && current(advance(ts)) != Some(
        TokenView::RightBrace,
    ) {
        lemma_read_entries_progress(advance(ts), Seq::empty());
    }
}

/// Reading entries never gives back a stream of a greater measure.
pub proof fn lemma_read_entries_progress(
    ts: Seq<Option<TokenView>>,
    entries: Seq<(Seq<char>, JsonView)>,
)
    ensures
        measure(read_entries(ts, entries).1) <= measure(ts),
    decreases measure(ts), 0nat,
{
    match current(ts) {
        Some(TokenView::String(key)) => {
            if current(advance(ts)) == Some(TokenView::Colon) {
                lemma_read_value_progress(advance(advance(ts)));
                let (value, after) = read_value(advance(advance(ts)));
                let more = match value {
                    Some(v) => insert_entry(entries, key, v),
                    None => entries,
                };
                if current(after) == Some(TokenView::Comma) {
                    lemma_read_entries_progress(advance(after), more);
                }
            }
        },
        _ => {},
    }
}

/// Reading an array never gives back a stream of a greater measure.
pub proof fn lemma_read_array_progress(ts: Seq<Option<TokenView>>)
    ensures
        measure(read_array(ts).1) <= measure(ts),
    decreases measure(ts), 0nat,
{
    if current(ts) == Some(TokenView::LeftBracket) && current(advance(ts)) != Some(
        TokenView::RightBracket,
    ) {
        lemma_read_items_progress(advance(ts), Seq::empty());
    }
}

/// Reading items never gives back a stream of a greater measure.
pub proof fn lemma_read_items_progress(ts: Seq<Option<TokenView>>, items: Seq<JsonView>)
    ensures
        measure(read_items(ts, items).1) <= measure(ts),
    decreases measure(ts), 2nat,
{
    lemma_read_value_progress(ts);
    let (value, after) = read_value(ts);
    match value {
        Some(v) => {
            if current(after) == Some(TokenView::Comma) {
                lemma_read_items_progress(advance(after), items.push(v));
            }
        },
        None => {},
    }
}

/// Whether a token opens a value.
pub open spec fn opens_value(token: Option<TokenView>) -> bool {
    match token {
        Some(TokenView::LeftBrace) => true,
        Some(TokenView::LeftBracket) => true,
        Some(TokenView::String(_)) => true,
        Some(TokenView::Number(_)) => true,
        Some(TokenView::True) => true,
        Some(TokenView::False) => true,
        Some(TokenView::Null) => true,
        _ => false,
    }
}

/// Where the lexer of a parser stands once the parser has gone from the
/// stream `stream0`, with the text `rest0` left, to the stream `stream`: the
/// stream has not grown, and the text left is what as many steps of the
/// lexer leave as tokens have gone from the stream.
pub open spec fn cursor_follows(
    rest0: Seq<char>,
    stream0: Seq<Option<TokenView>>,
    rest: Seq<char>,
    stream: Seq<Option<TokenView>>,
) -> bool {
    &&& stream.len() <= stream0.len()
    &&& rest == rest_after(rest0, (stream0.len() - stream.len()) as nat)
}

/// Steps of the lexer add up.
pub proof fn lemma_rest_after_add(s: Seq<char>, a: nat, b: nat)
    ensures
        rest_after(rest_after(s, a), b) == rest_after(s, a + b),
    decreases a,
{
    if a > 0 {
        lemma_rest_after_add(lex(s).1, (a - 1) as nat, b);
    }
}

/// The lexer follows the stream over two stretches where it does over each.
pub proof fn lemma_cursor_follows_chain(
    rest0: Seq<char>,
    stream0: Seq<Option<TokenView>>,
    rest1: Seq<char>,
    stream1: Seq<Option<TokenView>>,
    rest2: Seq<char>,
    stream2: Seq<Option<TokenView>>,
)
    requires
        cursor_follows(rest0, stream0, rest1, stream1),
        cursor_follows(rest1, stream1, rest2, stream2),
    ensures
        cursor_follows(rest0, stream0, rest2, stream2),
{
    lemma_rest_after_add(
        rest0,
        (stream0.len() - stream1.len()) as nat,
        (stream1.len() - stream2.len()) as nat,
    );
}

/// A parser: a lexer and the token read ahead from it.
pub struct Parser<'a> {
    lexer: Lexer<'a>,
    current_token: Option<Token>,
}

impl<'a> Parser<'a> {
    /// The invariant of the parser's state.
    pub closed spec fn wf(&self) -> bool {
        self.lexer.wf()
    }

    /// The tokens that the parser has before it: the one read ahead, then
    /// those of the text that the lexer has left.
    pub closed spec fn stream(&self) -> Seq<Option<TokenView>> {
        seq![token_view(self.current_token)] + tokens(self.lexer.rest())
    }

    /// The text that the lexer has left, behind the token read ahead.
    pub closed spec fn rest(&self) -> Seq<char> {
        self.lexer.rest()
    }

    /// The stream is the token read ahead and the tokens of the text left.
    pub proof fn lemma_stream(&self)
        ensures
            self.stream() == seq![current(self.stream())] + tokens(self.rest()),
    {
        assert(self.stream()[0] == token_view(self.current_token));
    }

    /// A parser over the text that `lexer` has left, with the first token
    /// read ahead.
    pub fn new(lexer: Lexer<'a>) -> (parser: Self)
        requires
            lexer.wf(),
        ensures
            parser.wf(),
            parser.stream() == token_stream(lexer.rest()),
            parser.rest() == lex(lexer.rest()).1,
    {
        let mut parser = Parser { lexer: lexer, current_token: None };
        parser.next_token();
        proof {
            let ts = seq![None::<TokenView>] + tokens(lexer.rest());
            if lexer.rest().len() > 0 {
                lemma_lex_progress(lexer.rest());
                assert(ts.drop_first() =~= tokens(lexer.rest()));
            }
        }
        parser
    }

    /// The token read ahead, absent where the last step read none.
    pub fn current_token(&self) -> (token: &Option<Token>)
        ensures
            token_view(*token) == current(self.stream()),
    {
        &self.current_token
    }

    /// Reads the value that the text starts with: none where the tokens do
    /// not start with a value. Where no token opens a value, the parser
    /// stays as it is.
    pub fn parse(&mut self) -> (value: Option<JsonValue>)
        requires
            old(self).wf(),
        ensures
            final(self).wf(),
            value_view(value) == read_value(old(self).stream()).0,
            final(self).stream() == read_value(old(self).stream()).1,
            cursor_follows(
                old(self).rest(),
                old(self).stream(),
                final(self).rest(),
                final(self).stream(),
            ),
            !opens_value(current(old(self).stream())) ==> final(self).rest() == old(self).rest(),
    {
        self.parse_value()
    }

    /// Reads a value from the token read ahead on. Where that token opens no
    /// value, the parser stays as it is.
    pub fn parse_value(&mut self) -> (value: Option<JsonValue>)
        requires
            old(self).wf(),
        ensures
            final(self).wf(),
            value_view(value) == read_value(old(self).stream()).0,
            final(self).stream() == read_value(old(self).stream()).1,
            cursor_follows(
                old(self).rest(),
                old(self).stream(),
                final(self).rest(),
                final(self).stream(),
            ),
            !opens_value(current(old(self).stream())) ==> final(self).rest() == old(self).rest(),
        decreases measure(old(self).stream()), 1nat,
    {
        match &self.current_token {
            Some(Token::LeftBrace) => self.parse_object(),
            Some(Token::LeftBracket) => self.parse_array(),
            Some(Token::String(string)) => {
                let cloned_string = string.clone();
                self.next_token();
                Some(JsonValue::String(cloned_string))
            },
            Some(Token::Number(number)) => {
                let cloned_number = number.clone();
                self.next_token();
                Some(JsonValue::Number(cloned_number))
            },
            Some(Token::True) => {
                self.next_token();
                Some(JsonValue::True)
            },
            Some(Token::False) => {
                self.next_token();
                Some(JsonValue::False)
            },
            Some(Token::Null) => {
                self.next_token();
                Some(JsonValue::Null)
            },
            _ => None,
        }
    }

    /// Reads an object. The token read ahead is its left brace; where it is
    /// not, the parser stays as it is.
    fn parse_object(&mut self) -> (value: Option<JsonValue>)
        requires
            old(self).wf(),
        ensures
            final(self).wf(),
            value_view(value) == read_object(old(self).stream()).0,
            final(self).stream() == read_object(old(self).stream()).1,
            cursor_follows(
                old(self).rest(),
                old(self).stream(),
                final(self).rest(),
                final(self).stream(),
            ),
            current(old(self).stream()) != Some(TokenView::LeftBrace) ==> final(self).rest() == old(
                self,
            ).rest(),
        decreases measure(old(self).stream()), 0nat,
    {
        let ghost rest0 = self.rest();
        let ghost stream0 = self.stream();
        let mut object = JsonObject::new();
        if !self.next_token_if_current_is(Token::LeftBrace) {
            return None;
        }
        match &self.current_token {
            Some(Token::RightBrace) => {
                let ghost rest1 = self.rest();
                let ghost stream1 = self.stream();
                self.next_token();
                proof {
                    lemma_cursor_follows_chain(
                        rest0,
                        stream0,
                        rest1,
                        stream1,
                        self.rest(),
                        self.stream(),
                    );
                }
                return Some(JsonValue::Object(object));
            },
            _ => {},
        }
        loop
            invariant_except_break
                self.wf(),
                measure(self.stream()) < measure(old(self).stream()),
                read_object(old(self).stream()) == read_entries(self.stream(), object@),
                rest0 == old(self).rest(),
                stream0 == old(self).stream(),
                cursor_follows(rest0, stream0, self.rest(), self.stream()),
            ensures
                self.wf(),
                read_object(old(self).stream()) == (
                    Some(JsonView::Object(object@)),
                    self.stream(),
                ),
                cursor_follows(rest0, stream0, self.rest(), self.stream()),
            decreases measure(self.stream()),
        {
            let key = match &self.current_token {
                Some(Token::String(s)) => s.clone(),
                _ => {
                    return None;
                },
            };
            let ghost rest1 = self.rest();
            let ghost stream1 = self.stream();
            self.next_token();
            proof {
                lemma_cursor_follows_chain(
                    rest0,
                    stream0,
                    rest1,
                    stream1,
                    self.rest(),
                    self.stream(),
                );
            }
            let ghost rest2 = self.rest();
            let ghost stream2 = self.stream();
            let colon = self.next_token_if_current_is(Token::Colon);
            proof {
                lemma_cursor_follows_chain(
                    rest0,
                    stream0,
                    rest2,
                    stream2,
                    self.rest(),
                    self.stream(),
                );
            }
            if !colon {
                return None;
            }
            proof {
                lemma_read_value_progress(self.stream());
            }
            let ghost rest3 = self.rest();
            let ghost stream3 = self.stream();
            let parsed = self.parse_value();
            proof {
                lemma_cursor_follows_chain(
                    rest0,
                    stream0,
                    rest3,
                    stream3,
                    self.rest(),
                    self.stream(),
                );
            }
            if let Some(value) = parsed {
                object.insert(key, value);
            }
            let ghost rest4 = self.rest();
            let ghost stream4 = self.stream();
            match &self.current_token {
                Some(Token::Comma) => {
                    self.next_token();
                    proof {
                        lemma_cursor_follows_chain(
                            rest0,
                            stream0,
                            rest4,
                            stream4,
                            self.rest(),
                            self.stream(),
                        );
                    }
                },
                Some(Token::RightBrace) => {
                    self.next_token();
                    proof {
                        lemma_cursor_follows_chain(
                            rest0,
                            stream0,
                            rest4,
                            stream4,
                            self.rest(),
                            self.stream(),
                        );
                    }
                    break ;
                },
                _ => {
                    return None;
                },
            }
        }
        Some(JsonValue::Object(object))
    }

    /// Reads an array. The token read ahead is its left bracket; where it is
    /// not, the parser stays as it is. An item that is absent ends the
    /// reading without an array.
    fn parse_array(&mut self) -> (value: Option<JsonValue>)
        requires
            old(self).wf(),
        ensures
            final(self).wf(),
            value_view(value) == read_array(old(self).stream()).0,
            final(self).stream() == read_array(old(self).stream()).1,
            cursor_follows(
                old(self).rest(),
                old(self).stream(),
                final(self).rest(),
                final(self).stream(),
            ),
            current(old(self).stream()) != Some(TokenView::LeftBracket) ==> final(self).rest()
                == old(self).rest(),
        decreases measure(old(self).stream()), 0nat,
    {
        let ghost rest0 = self.rest();
        let ghost stream0 = self.stream();
        let mut array: JsonArray = Vec::new();
        let ghost mut items: Seq<JsonView> = Seq::empty();
        if !self.next_token_if_current_is(Token::LeftBracket) {
            return None;
        }
        match &self.current_token {
            Some(Token::RightBracket) => {
                let ghost rest1 = self.rest();
                let ghost stream1 = self.stream();
                self.next_token();
                proof {
                    lemma_cursor_follows_chain(
                        rest0,
                        stream0,
                        rest1,
                        stream1,
                        self.rest(),
                        self.stream(),
                    );
                }
                assert(JsonValue::Array(array)@ =~= JsonView::Array(Seq::empty())) by {
                    assert(JsonValue::Array(array)@->Array_0 =~= Seq::<JsonView>::empty());
                }
                return Some(JsonValue::Array(array));
            },
            _ => {},
        }
        loop
            invariant_except_break
                self.wf(),
                measure(self.stream()) < measure(old(self).stream()),
                read_array(old(self).stream()) == read_items(self.stream(), items),
                rest0 == old(self).rest(),
                stream0 == old(self).stream(),
                cursor_follows(rest0, stream0, self.rest(), self.stream()),
                items.len() == array@.len(),
                forall|i: int| 0 <= i < items.len() ==> items[i] == array@[i]@,
            ensures
                self.wf(),
                read_array(old(self).stream()) == (Some(JsonView::Array(items)), self.stream()),
                cursor_follows(rest0, stream0, self.rest(), self.stream()),
                items.len() == array@.len(),
                forall|i: int| 0 <= i < items.len() ==> items[i] == array@[i]@,
            decreases measure(self.stream()),
        {
            proof {
                lemma_read_value_progress(self.stream());
            }
            let ghost rest1 = self.rest();
            let ghost stream1 = self.stream();
            let parsed = self.parse_value();
            proof {
                lemma_cursor_follows_chain(
                    rest0,
                    stream0,
                    rest1,
                    stream1,
                    self.rest(),
                    self.stream(),
                );
            }
            let value = match parsed {
                Some(value) => value,
                None => {
                    return None;
                },
            };
            proof {
                items = items.push(value@);
            }
            array.push(value);
            let ghost rest2 = self.rest();
            let ghost stream2 = self.stream();
            match &self.current_token {
                Some(Token::Comma) => {
                    self.next_token();
                    proof {
                        lemma_cursor_follows_chain(
                            rest0,
                            stream0,
                            rest2,
                            stream2,
                            self.rest(),
                            self.stream(),
                        );
                    }
                },
                Some(Token::RightBracket) => {
                    self.next_token();
                    proof {
                        lemma_cursor_follows_chain(
                            rest0,
                            stream0,
                            rest2,
                            stream2,
                            self.rest(),
                            self.stream(),
                        );
                    }
                    break ;
                },
                _ => {
                    return None;
                },
            }
        }
        assert(JsonValue::Array(array)@ =~= JsonView::Array(items)) by {
            assert(JsonValue::Array(array)@->Array_0 =~= items);
        }
        Some(JsonValue::Array(array))
    }

    /// Reads the next token ahead: one step of the lexer.
    pub fn next_token(&mut self)
        requires
            old(self).wf(),
        ensures
            final(self).wf(),
            final(self).stream() == advance(old(self).stream()),
            final(self).rest() == lex(old(self).rest()).1,
            cursor_follows(
                old(self).rest(),
                old(self).stream(),
                final(self).rest(),
                final(self).stream(),
            ),
    {
        proof {
            lemma_lex_progress(self.lexer.rest());
            reveal_with_fuel(rest_after, 2);
        }
        self.current_token = self.lexer.next_token();
        proof {
            if old(self).lexer.rest().len() > 0 {
                assert(old(self).stream().drop_first() =~= tokens(old(self).lexer.rest()));
            } else {
                assert(self.stream() =~= seq![None]);
            }
        }
    }

    /// Steps past the token read ahead where it is `expected_token`, and
    /// tells whether it was. Where it is not, the parser stays as it is.
    fn next_token_if_current_is(&mut self, expected_token: Token) -> (stepped: bool)
        requires
            old(self).wf(),
        ensures
            final(self).wf(),
            stepped == (current(old(self).stream()) == Some(expected_token@)),
            final(self).stream() == if stepped {
                advance(old(self).stream())
            } else {
                old(self).stream()
            },
            final(self).rest() == if stepped {
                lex(old(self).rest()).1
            } else {
                old(self).rest()
            },
            cursor_follows(
                old(self).rest(),
                old(self).stream(),
                final(self).rest(),
                final(self).stream(),
            ),
    {
        if self.current_token == Some(expected_token) {
            self.next_token();
            return true;
        } else {
            return false;
        }
    }
}

} // verus!
