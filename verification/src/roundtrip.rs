//! Reading back what was printed: the tokens of a value parse to the value,
//! and the text of a value lexes to its tokens.

use vstd::prelude::*;
use crate::json::distinct_keys;
use crate::json::insert_entry;
use crate::json::JsonView;
use crate::json::lemma_array_item;
use crate::json::lemma_key_index;
use crate::json::lemma_object_entry;
use crate::json::render;
use crate::json::render_entries;
use crate::json::render_items;
use crate::json::separator;
use crate::json::spaces;
use crate::lexer::after_run;
use crate::lexer::CharClass;
use crate::lexer::in_class;
use crate::lexer::keyword;
use crate::lexer::lemma_lex_progress;
use crate::lexer::lemma_run_step;
use crate::lexer::lex;
use crate::lexer::punctuation;
use crate::lexer::run;
use crate::lexer::string_literal;
use crate::lexer::token_stream;
use crate::lexer::tokens;
use crate::number::is_decimal_number;
use crate::number::is_sign;
use crate::parser::advance;
use crate::parser::current;
use crate::parser::lemma_read_value_progress;
use crate::parser::measure;
use crate::parser::opens_value;
use crate::parser::read_entries;
use crate::parser::read_items;
use crate::parser::read_value;
use crate::token::TokenView;
use crate::unicode::is_decimal_digit;
use crate::unicode::is_white_space;

verus! {

/// Whether no object within the value, the value included, has a key twice.
pub open spec fn keys_distinct(v: JsonView) -> bool
    decreases v,
{
    match v {
        JsonView::Object(entries) => distinct_keys(entries) && forall|i: int|
            0 <= i < entries.len() ==> keys_distinct((#[trigger] entries[i]).1),
        JsonView::Array(items) => forall|i: int|
            0 <= i < items.len() ==> keys_distinct(#[trigger] items[i]),
        _ => true,
    }
}

/// A comma where `more` items follow, nothing where none does.
pub open spec fn comma_if(more: bool) -> Seq<Option<TokenView>> {
    if more {
        seq![Some(TokenView::Comma)]
    } else {
        Seq::empty()
    }
}

/// The tokens that a value is written with.
pub open spec fn value_tokens(v: JsonView) -> Seq<Option<TokenView>>
    decreases v, 0nat,
{
    match v {
        JsonView::Object(entries) => seq![Some(TokenView::LeftBrace)] + (entries_tokens(
            entries,
            0,
        ) + seq![Some(TokenView::RightBrace)]),
        JsonView::Array(items) => seq![Some(TokenView::LeftBracket)] + (items_tokens(items, 0)
            + seq![Some(TokenView::RightBracket)]),
        JsonView::String(text) => seq![Some(TokenView::String(text))],
        JsonView::Number(text) => seq![Some(TokenView::Number(text))],
        JsonView::True => seq![Some(TokenView::True)],
        JsonView::False => seq![Some(TokenView::False)],
        JsonView::Null => seq![Some(TokenView::Null)],
    }
}

/// The tokens of the items of an array from the item `from` on, with a comma
/// between one item and the next.
pub open spec fn items_tokens(items: Seq<JsonView>, from: int) -> Seq<Option<TokenView>>
    decreases items, items.len() - from,
{
    if 0 <= from < items.len() {
        value_tokens(items[from]) + (comma_if(from < items.len() - 1) + items_tokens(
            items,
            from + 1,
        ))
    } else {
        Seq::empty()
    }
}

/// The tokens of the entries of an object from the entry `from` on: for each
/// its key, a colon and its value, with a comma between one entry and the
/// next.
pub open spec fn entries_tokens(entries: Seq<(Seq<char>, JsonView)>, from: int) -> Seq<
    Option<TokenView>,
>
    decreases entries, entries.len() - from,
{
    if 0 <= from < entries.len() {
        seq![Some(TokenView::String(entries[from].0)), Some(TokenView::Colon)] + (value_tokens(
            entries[from].1,
        ) + (comma_if(from < entries.len() - 1) + entries_tokens(entries, from + 1)))
    } else {
        Seq::empty()
    }
}

/// The stream that a parser has before it once the tokens before `tail` are
/// read: `tail`, or an absent token where `tail` is empty.
pub open spec fn ending(tail: Seq<Option<TokenView>>) -> Seq<Option<TokenView>> {
    if tail.len() == 0 {
        seq![None]
    } else {
        tail
    }
}

/// The token that a stream starts with is its current token, and the step
/// past it leads to what follows.
pub proof fn lemma_head(token: Option<TokenView>, tail: Seq<Option<TokenView>>)
    ensures
        current(seq![token] + tail) == token,
        advance(seq![token] + tail) == ending(tail),
        ending(tail).len() > 0,
        tail.len() > 0 ==> ending(tail) == tail,
        measure(ending(tail)) <= measure(seq![token] + tail),
        token is Some ==> measure(ending(tail)) < measure(seq![token] + tail),
{
    let ts = seq![token] + tail;
    assert(ts[0] == token);
    if tail.len() > 0 {
        assert(ts.drop_first() =~= tail);
        assert(ts[1] == tail[0]);
    }
}

/// The tokens of a value start with a token that opens a value.
pub proof fn lemma_value_tokens_head(v: JsonView)
    ensures
        value_tokens(v).len() > 0,
        value_tokens(v)[0] is Some,
        value_tokens(v)[0] != Some(TokenView::RightBrace),
        value_tokens(v)[0] != Some(TokenView::RightBracket),
        value_tokens(v)[0] != Some(TokenView::Comma),
        value_tokens(v)[0] != Some(TokenView::Colon),
{
}

/// The tokens of a value parse to the value, and leave what follows them.
pub proof fn lemma_read_value_tokens(v: JsonView, tail: Seq<Option<TokenView>>)
    requires
        keys_distinct(v),
    ensures
        read_value(value_tokens(v) + tail) == (Some(v), ending(tail)),
    decreases v, 0nat,
{
    let ts = value_tokens(v) + tail;
    match v {
        JsonView::Object(entries) => {
            let close = seq![Some(TokenView::RightBrace)] + tail;
            let inner = entries_tokens(entries, 0) + close;
            assert(ts =~= seq![Some(TokenView::LeftBrace)] + inner);
            lemma_head(Some(TokenView::LeftBrace), inner);
            lemma_head(Some(TokenView::RightBrace), tail);
            assert(v->Object_0 == entries);
            if entries.len() == 0 {
                assert(inner =~= close);
                assert(entries =~= Seq::<(Seq<char>, JsonView)>::empty());
            } else {
                let first = seq![Some(TokenView::String(entries[0].0)), Some(TokenView::Colon)];
                assert(inner[0] == first[0]);
                assert(entries.take(0) =~= Seq::<(Seq<char>, JsonView)>::empty());
                lemma_read_entries_tokens(entries, 0, close);
            }
        },
        JsonView::Array(items) => {
            let close = seq![Some(TokenView::RightBracket)] + tail;
            let inner = items_tokens(items, 0) + close;
            assert(ts =~= seq![Some(TokenView::LeftBracket)] + inner);
            lemma_head(Some(TokenView::LeftBracket), inner);
            lemma_head(Some(TokenView::RightBracket), tail);
            assert(v->Array_0 == items);
            if items.len() == 0 {
                assert(inner =~= close);
                assert(items =~= Seq::<JsonView>::empty());
            } else {
                lemma_value_tokens_head(items[0]);
                assert(inner[0] == value_tokens(items[0])[0]);
                assert(items.take(0) =~= Seq::<JsonView>::empty());
                lemma_read_items_tokens(items, 0, close);
            }
        },
        JsonView::String(text) => {
            lemma_head(Some(TokenView::String(text)), tail);
        },
        JsonView::Number(text) => {
            lemma_head(Some(TokenView::Number(text)), tail);
        },
        JsonView::True => {
            lemma_head(Some(TokenView::True), tail);
        },
        JsonView::False => {
            lemma_head(Some(TokenView::False), tail);
        },
        JsonView::Null => {
            lemma_head(Some(TokenView::Null), tail);
        },
    }
}

/// What reading the items of an array comes to once the tokens of the last
/// item are read, with `items` read and the stream `close` ahead: more items
/// behind a comma, the array at the right bracket, and else nothing.
pub open spec fn items_end(close: Seq<Option<TokenView>>, items: Seq<JsonView>) -> (
    Option<JsonView>,
    Seq<Option<TokenView>>,
) {
    if current(close) == Some(TokenView::Comma) {
        read_items(advance(close), items)
    } else if current(close) == Some(TokenView::RightBracket) {
        (Some(JsonView::Array(items)), advance(close))
    } else {
        (None, close)
    }
}

/// The tokens of the items of an array from `from` on add these items to
/// those before them, in their order.
pub proof fn lemma_read_items_tokens(
    items: Seq<JsonView>,
    from: int,
    close: Seq<Option<TokenView>>,
)
    requires
        0 <= from < items.len(),
        keys_distinct(JsonView::Array(items)),
        close.len() > 0,
    ensures
        read_items(items_tokens(items, from) + close, items.take(from)) == items_end(close, items),
    decreases items, items.len() - from,
{
    let v = JsonView::Array(items);
    assert(v->Array_0 == items);
    assert(decreases_to!(v => v->Array_0));
    assert(decreases_to!(items => items[from]));
    let ts = items_tokens(items, from) + close;
    let more = from < items.len() - 1;
    let after = comma_if(more) + (items_tokens(items, from + 1) + close);
    assert(ts =~= value_tokens(items[from]) + after);
    assert(keys_distinct(items[from]));
    lemma_read_value_tokens(items[from], after);
    lemma_read_value_progress(ts);
    assert(items.take(from).push(items[from]) =~= items.take(from + 1));
    if more {
        let next = items_tokens(items, from + 1) + close;
        assert(after =~= seq![Some(TokenView::Comma)] + next);
        lemma_head(Some(TokenView::Comma), next);
        lemma_read_items_tokens(items, from + 1, close);
    } else {
        assert(after =~= close);
        assert(items.take(from + 1) =~= items);
        if current(close) is Some {
            lemma_head(close[0], close.drop_first());
            assert(seq![close[0]] + close.drop_first() =~= close);
        }
    }
}

/// A key that no entry has comes last when it is given a value.
pub proof fn lemma_insert_new_key(
    entries: Seq<(Seq<char>, JsonView)>,
    key: Seq<char>,
    value: JsonView,
)
    requires
        forall|i: int| 0 <= i < entries.len() ==> (#[trigger] entries[i]).0 != key,
    ensures
        insert_entry(entries, key, value) == entries.push((key, value)),
{
    lemma_key_index(entries, key);
}

/// What reading the entries of an object comes to once the tokens of the
/// last entry are read, with `entries` read and the stream `close` ahead:
/// more entries behind a comma, the object at the right brace, and else
/// nothing.
pub open spec fn entries_end(
    close: Seq<Option<TokenView>>,
    entries: Seq<(Seq<char>, JsonView)>,
) -> (Option<JsonView>, Seq<Option<TokenView>>) {
    if current(close) == Some(TokenView::Comma) {
        read_entries(advance(close), entries)
    } else if current(close) == Some(TokenView::RightBrace) {
        (Some(JsonView::Object(entries)), advance(close))
    } else {
        (None, close)
    }
}

/// The tokens of the entries of an object from `from` on add these entries
/// to those before them, in their order.
pub proof fn lemma_read_entries_tokens(
    entries: Seq<(Seq<char>, JsonView)>,
    from: int,
    close: Seq<Option<TokenView>>,
)
    requires
        0 <= from < entries.len(),
        keys_distinct(JsonView::Object(entries)),
        close.len() > 0,
    ensures
        read_entries(entries_tokens(entries, from) + close, entries.take(from)) == entries_end(
            close,
            entries,
        ),
    decreases entries, entries.len() - from,
{
    let v = JsonView::Object(entries);
    assert(v->Object_0 == entries);
    assert(decreases_to!(v => v->Object_0));
    assert(decreases_to!(entries => entries[from]));
    assert(decreases_to!(entries[from] => entries[from].1));
    let key = entries[from].0;
    let value = entries[from].1;
    let ts = entries_tokens(entries, from) + close;
    let more = from < entries.len() - 1;
    let after = comma_if(more) + (entries_tokens(entries, from + 1) + close);
    let at_value = value_tokens(value) + after;
    let at_colon = seq![Some(TokenView::Colon)] + at_value;
    assert(ts =~= seq![Some(TokenView::String(key))] + at_colon);
    lemma_head(Some(TokenView::String(key)), at_colon);
    lemma_head(Some(TokenView::Colon), at_value);
    lemma_value_tokens_head(value);
    assert(keys_distinct(value));
    lemma_read_value_tokens(value, after);
    lemma_read_value_progress(at_value);
    let before = entries.take(from);
    assert forall|i: int| 0 <= i < before.len() implies (#[trigger] before[i]).0 != key by {
        assert(before[i] == entries[i]);
    }
    lemma_insert_new_key(before, key, value);
    assert(before.push((key, value)) =~= entries.take(from + 1));
    if more {
        let next = entries_tokens(entries, from + 1) + close;
        assert(after =~= seq![Some(TokenView::Comma)] + next);
        lemma_head(Some(TokenView::Comma), next);
        lemma_read_entries_tokens(entries, from + 1, close);
    } else {
        assert(after =~= close);
        assert(entries.take(from + 1) =~= entries);
        if current(close) is Some {
            lemma_head(close[0], close.drop_first());
            assert(seq![close[0]] + close.drop_first() =~= close);
        }
    }
}

/// Parsing keeps the order of the items of an array: the tokens of the
/// items, with a comma between one and the next and within brackets, parse
/// to the array of these items in the order of their tokens.
pub proof fn lemma_array_order(items: Seq<JsonView>, tail: Seq<Option<TokenView>>)
    requires
        forall|i: int| 0 <= i < items.len() ==> keys_distinct(#[trigger] items[i]),
    ensures
        read_value(
            seq![Some(TokenView::LeftBracket)] + (items_tokens(items, 0) + seq![
                Some(TokenView::RightBracket),
            ]) + tail,
        ) == (Some(JsonView::Array(items)), ending(tail)),
{
    lemma_read_value_tokens(JsonView::Array(items), tail);
}

/// An object with a comma behind its last entry has no value.
pub proof fn lemma_object_trailing_comma(
    entries: Seq<(Seq<char>, JsonView)>,
    tail: Seq<Option<TokenView>>,
)
    requires
        entries.len() > 0,
        keys_distinct(JsonView::Object(entries)),
    ensures
        read_value(
            seq![Some(TokenView::LeftBrace)] + (entries_tokens(entries, 0) + (seq![
                Some(TokenView::Comma),
                Some(TokenView::RightBrace),
            ] + tail)),
        ).0 is None,
{
    let brace = seq![Some(TokenView::RightBrace)] + tail;
    let close = seq![Some(TokenView::Comma), Some(TokenView::RightBrace)] + tail;
    let inner = entries_tokens(entries, 0) + close;
    assert(close =~= seq![Some(TokenView::Comma)] + brace);
    lemma_head(Some(TokenView::Comma), brace);
    lemma_head(Some(TokenView::RightBrace), tail);
    lemma_head(Some(TokenView::LeftBrace), inner);
    assert(inner[0] == Some(TokenView::String(entries[0].0))) by {
        let v = JsonView::Object(entries);
        assert(v->Object_0 == entries);
        assert(decreases_to!(v => v->Object_0));
        assert(decreases_to!(entries => entries[0]));
        assert(decreases_to!(entries[0] => entries[0].1));
        let first = seq![Some(TokenView::String(entries[0].0)), Some(TokenView::Colon)];
        assert(entries_tokens(entries, 0)[0] == first[0]);
    }
    assert(entries.take(0) =~= Seq::<(Seq<char>, JsonView)>::empty());
    lemma_read_entries_tokens(entries, 0, close);
}

/// An array with a comma behind its last item has no value.
pub proof fn lemma_array_trailing_comma(items: Seq<JsonView>, tail: Seq<Option<TokenView>>)
    requires
        items.len() > 0,
        keys_distinct(JsonView::Array(items)),
    ensures
        read_value(
            seq![Some(TokenView::LeftBracket)] + (items_tokens(items, 0) + (seq![
                Some(TokenView::Comma),
                Some(TokenView::RightBracket),
            ] + tail)),
        ).0 is None,
{
    let bracket = seq![Some(TokenView::RightBracket)] + tail;
    let close = seq![Some(TokenView::Comma), Some(TokenView::RightBracket)] + tail;
    let inner = items_tokens(items, 0) + close;
    assert(close =~= seq![Some(TokenView::Comma)] + bracket);
    lemma_head(Some(TokenView::Comma), bracket);
    lemma_head(Some(TokenView::RightBracket), tail);
    lemma_head(Some(TokenView::LeftBracket), inner);
    assert(inner[0] == value_tokens(items[0])[0] && inner[0] != Some(TokenView::RightBracket))
        by {
        let v = JsonView::Array(items);
        assert(v->Array_0 == items);
        assert(decreases_to!(v => v->Array_0));
        assert(decreases_to!(items => items[0]));
        lemma_value_tokens_head(items[0]);
    }
    assert(items.take(0) =~= Seq::<JsonView>::empty());
    lemma_read_items_tokens(items, 0, close);
    assert(read_value(bracket) == (None::<JsonView>, bracket));
    assert(read_items(bracket, items).0 is None);
}

/// Whether every character of `s` belongs to `class`.
pub open spec fn all_in(s: Seq<char>, class: CharClass) -> bool {
    forall|i: int| 0 <= i < s.len() ==> in_class(#[trigger] s[i], class)
}

/// Whether a run of characters of `class` stops before `s`: `s` is empty or
/// starts with a character of another class.
pub open spec fn stops(s: Seq<char>, class: CharClass) -> bool {
    s.len() == 0 || !in_class(s[0], class)
}

/// A text that can stand between quotes as it is: it holds no quote and no
/// backslash.
pub open spec fn plain_text(text: Seq<char>) -> bool {
    forall|i: int| 0 <= i < text.len() ==> #[trigger] text[i] != '"' && text[i] != '\\'
}

/// A text that the lexer reads as a number: a decimal number of number
/// characters that starts with a digit or a sign.
pub open spec fn number_text(text: Seq<char>) -> bool {
    &&& text.len() > 0
    &&& is_decimal_digit(text[0]) || is_sign(text[0])
    &&& all_in(text, CharClass::Numeric)
    &&& is_decimal_number(text)
}

/// The values whose text reads back as the value: strings and keys are
/// plain, numbers are number texts, and no object has a key twice.
pub open spec fn printable(v: JsonView) -> bool
    decreases v,
{
    match v {
        JsonView::Object(entries) => distinct_keys(entries) && forall|i: int|
            0 <= i < entries.len() ==> plain_text((#[trigger] entries[i]).0) && printable(
                entries[i].1,
            ),
        JsonView::Array(items) => forall|i: int|
            0 <= i < items.len() ==> printable(#[trigger] items[i]),
        JsonView::String(text) => plain_text(text),
        JsonView::Number(text) => number_text(text),
        _ => true,
    }
}

/// What may follow the text of a value: nothing, or a character that goes on
/// neither a number nor a word.
pub open spec fn ends_token(suffix: Seq<char>) -> bool {
    stops(suffix, CharClass::Numeric) && stops(suffix, CharClass::Letter)
}

/// A printable value has no key twice in any object.
pub proof fn lemma_printable_keys(v: JsonView)
    requires
        printable(v),
    ensures
        keys_distinct(v),
    decreases v,
{
    match v {
        JsonView::Object(entries) => {
            assert(v->Object_0 == entries);
            assert forall|i: int| 0 <= i < entries.len() implies keys_distinct(
                (#[trigger] entries[i]).1,
            ) by {
                assert(decreases_to!(v => v->Object_0));
                assert(decreases_to!(entries => entries[i]));
                assert(decreases_to!(entries[i] => entries[i].1));
                lemma_printable_keys(entries[i].1);
            }
        },
        JsonView::Array(items) => {
            assert(v->Array_0 == items);
            assert forall|i: int| 0 <= i < items.len() implies keys_distinct(
                #[trigger] items[i],
            ) by {
                assert(decreases_to!(v => v->Array_0));
                assert(decreases_to!(items => items[i]));
                lemma_printable_keys(items[i]);
            }
        },
        _ => {},
    }
}

/// A text of characters of one class, before a text at which the run
/// stops, is the run that the two together start with.
pub proof fn lemma_run_exact(a: Seq<char>, b: Seq<char>, class: CharClass)
    requires
        all_in(a, class),
        stops(b, class),
    ensures
        run(a + b, class) == a,
        after_run(a + b, class) == b,
    decreases a.len(),
{
    lemma_run_step(a + b, class);
    if a.len() == 0 {
        assert(a + b =~= b);
        assert(a =~= Seq::<char>::empty());
    } else {
        assert((a + b)[0] == a[0]);
        assert((a + b).drop_first() =~= a.drop_first() + b);
        assert forall|i: int| 0 <= i < a.drop_first().len() implies in_class(
            #[trigger] a.drop_first()[i],
            class,
        ) by {
            assert(a.drop_first()[i] == a[i + 1]);
        }
        lemma_run_exact(a.drop_first(), b, class);
        assert(seq![a[0]] + a.drop_first() =~= a);
    }
}

/// The tokens of a text that is not empty are what one step reads and the
/// tokens of what the step leaves.
pub proof fn lemma_tokens_step(s: Seq<char>)
    requires
        s.len() > 0,
    ensures
        tokens(s) == seq![lex(s).0] + tokens(lex(s).1),
{
    lemma_lex_progress(s);
}

/// White space and a punctuation mark lex to the mark's token.
pub proof fn lemma_tokens_punctuation(ws: Seq<char>, c: char, suffix: Seq<char>)
    requires
        all_in(ws, CharClass::Space),
        punctuation(c) is Some,
    ensures
        tokens(ws + (seq![c] + suffix)) == seq![punctuation(c)] + tokens(suffix),
{
    let t = seq![c] + suffix;
    assert(t[0] == c);
    assert(t.drop_first() =~= suffix);
    lemma_run_exact(ws, t, CharClass::Space);
    lemma_tokens_step(ws + t);
}

/// A plain text and the quote behind it are read as the text.
pub proof fn lemma_string_literal_plain(text: Seq<char>, suffix: Seq<char>)
    requires
        plain_text(text),
    ensures
        string_literal(text + (seq!['"'] + suffix)) == (text, suffix),
    decreases text.len(),
{
    let s = text + (seq!['"'] + suffix);
    if text.len() == 0 {
        assert(s[0] == '"');
        assert(s.drop_first() =~= suffix);
        assert(text =~= Seq::<char>::empty());
    } else {
        assert(s[0] == text[0]);
        assert(s.drop_first() =~= text.drop_first() + (seq!['"'] + suffix));
        assert forall|i: int| 0 <= i < text.drop_first().len() implies #[trigger] text.drop_first()[i]
            != '"' && text.drop_first()[i] != '\\' by {
            assert(text.drop_first()[i] == text[i + 1]);
        }
        lemma_string_literal_plain(text.drop_first(), suffix);
        assert(seq![text[0]] + text.drop_first() =~= text);
    }
}

/// White space and a plain text between quotes lex to a string token.
pub proof fn lemma_tokens_string(ws: Seq<char>, text: Seq<char>, suffix: Seq<char>)
    requires
        all_in(ws, CharClass::Space),
        plain_text(text),
    ensures
        tokens(ws + (seq!['"'] + (text + (seq!['"'] + suffix)))) == seq![
            Some(TokenView::String(text)),
        ] + tokens(suffix),
{
    let body = text + (seq!['"'] + suffix);
    let t = seq!['"'] + body;
    assert(t[0] == '"');
    assert(t.drop_first() =~= body);
    lemma_run_exact(ws, t, CharClass::Space);
    lemma_string_literal_plain(text, suffix);
    lemma_tokens_step(ws + t);
}

/// White space and a number text lex to a number token.
pub proof fn lemma_tokens_number(ws: Seq<char>, text: Seq<char>, suffix: Seq<char>)
    requires
        all_in(ws, CharClass::Space),
        number_text(text),
        stops(suffix, CharClass::Numeric),
    ensures
        tokens(ws + (text + suffix)) == seq![Some(TokenView::Number(text))] + tokens(suffix),
{
    let t = text + suffix;
    assert(t[0] == text[0]);
    lemma_run_exact(ws, t, CharClass::Space);
    lemma_run_exact(text, suffix, CharClass::Numeric);
    lemma_tokens_step(ws + t);
}

/// White space and a keyword lex to the keyword's token.
pub proof fn lemma_tokens_keyword(ws: Seq<char>, word: Seq<char>, suffix: Seq<char>)
    requires
        all_in(ws, CharClass::Space),
        keyword(word) is Some,
        stops(suffix, CharClass::Letter),
    ensures
        tokens(ws + (word + suffix)) == seq![keyword(word)] + tokens(suffix),
{
    let t = word + suffix;
    assert(word.len() >= 4);
    assert(t[0] == word[0]);
    assert(all_in(word, CharClass::Letter));
    lemma_run_exact(ws, t, CharClass::Space);
    lemma_run_exact(word, suffix, CharClass::Letter);
    lemma_tokens_step(ws + t);
}

/// The text of a printable value, behind white space and before a text that
/// ends a token, lexes to the tokens of the value.
pub proof fn lemma_tokens_of_value(v: JsonView, indent: nat, ws: Seq<char>, suffix: Seq<char>)
    requires
        printable(v),
        all_in(ws, CharClass::Space),
        ends_token(suffix),
    ensures
        tokens(ws + (render(v, indent) + suffix)) == value_tokens(v) + tokens(suffix),
    decreases v, 0nat,
{
    let text = ws + (render(v, indent) + suffix);
    match v {
        JsonView::Object(entries) => {
            assert(v->Object_0 == entries);
            assert(decreases_to!(v => v->Object_0));
            let gap = spaces(indent);
            let rest = seq!['\n'] + (render_entries(entries, indent + 2, 0) + (gap + (seq!['}']
                + suffix)));
            assert(text =~= ws + (seq!['{'] + rest));
            lemma_tokens_punctuation(ws, '{', rest);
            lemma_tokens_of_entries(entries, 0, indent + 2, seq!['\n'], gap, suffix);
            let closed = seq![Some(TokenView::RightBrace)] + tokens(suffix);
            assert(value_tokens(v) + tokens(suffix) =~= seq![Some(TokenView::LeftBrace)]
                + (entries_tokens(entries, 0) + closed));
        },
        JsonView::Array(items) => {
            assert(v->Array_0 == items);
            assert(decreases_to!(v => v->Array_0));
            let gap = spaces(indent);
            let rest = seq!['\n'] + (render_items(items, indent + 2, 0) + (gap + (seq![']']
                + suffix)));
            assert(text =~= ws + (seq!['['] + rest));
            lemma_tokens_punctuation(ws, '[', rest);
            lemma_tokens_of_items(items, 0, indent + 2, seq!['\n'], gap, suffix);
            let closed = seq![Some(TokenView::RightBracket)] + tokens(suffix);
            assert(value_tokens(v) + tokens(suffix) =~= seq![Some(TokenView::LeftBracket)]
                + (items_tokens(items, 0) + closed));
        },
        JsonView::String(content) => {
            assert(text =~= ws + (seq!['"'] + (content + (seq!['"'] + suffix))));
            lemma_tokens_string(ws, content, suffix);
        },
        JsonView::Number(content) => {
            lemma_tokens_number(ws, content, suffix);
        },
        JsonView::True => {
            lemma_tokens_keyword(ws, seq!['t', 'r', 'u', 'e'], suffix);
        },
        JsonView::False => {
            lemma_tokens_keyword(ws, seq!['f', 'a', 'l', 's', 'e'], suffix);
        },
        JsonView::Null => {
            lemma_tokens_keyword(ws, seq!['n', 'u', 'l', 'l'], suffix);
        },
    }
}

/// The lines of the items of an array from `from` on, up to the right
/// bracket, lex to the tokens of these items and the bracket.
pub proof fn lemma_tokens_of_items(
    items: Seq<JsonView>,
    from: int,
    indent: nat,
    ws: Seq<char>,
    gap: Seq<char>,
    suffix: Seq<char>,
)
    requires
        0 <= from <= items.len(),
        printable(JsonView::Array(items)),
        all_in(ws, CharClass::Space),
        all_in(gap, CharClass::Space),
    ensures
        tokens(ws + (render_items(items, indent, from) + (gap + (seq![']'] + suffix))))
            == items_tokens(items, from) + (seq![Some(TokenView::RightBracket)] + tokens(suffix)),
    decreases items, items.len() - from,
{
    let v = JsonView::Array(items);
    assert(v->Array_0 == items);
    assert(decreases_to!(v => v->Array_0));
    let close = gap + (seq![']'] + suffix);
    let text = ws + (render_items(items, indent, from) + close);
    let closed = seq![Some(TokenView::RightBracket)] + tokens(suffix);
    if from == items.len() {
        assert(text =~= (ws + gap) + (seq![']'] + suffix));
        lemma_tokens_punctuation(ws + gap, ']', suffix);
        assert(items_tokens(items, from) + closed =~= closed);
    } else {
        assert(decreases_to!(items => items[from]));
        lemma_array_item(items, from, indent);
        let last = from == items.len() - 1;
        let margin = ws + spaces(indent);
        let following = seq!['\n'] + (render_items(items, indent, from + 1) + close);
        let after = if last {
            following
        } else {
            seq![','] + following
        };
        assert(after[0] == separator(last)[0]);
        assert(text =~= margin + (render(items[from], indent) + after));
        lemma_tokens_of_value(items[from], indent, margin, after);
        lemma_tokens_of_items(items, from + 1, indent, seq!['\n'], gap, suffix);
        if !last {
            assert(after =~= Seq::<char>::empty() + (seq![','] + following));
            lemma_tokens_punctuation(Seq::empty(), ',', following);
        }
        let others = comma_if(!last) + (items_tokens(items, from + 1) + closed);
        assert(items_tokens(items, from) + closed =~= value_tokens(items[from]) + others);
    }
}

/// The lines of the entries of an object from `from` on, up to the right
/// brace, lex to the tokens of these entries and the brace.
pub proof fn lemma_tokens_of_entries(
    entries: Seq<(Seq<char>, JsonView)>,
    from: int,
    indent: nat,
    ws: Seq<char>,
    gap: Seq<char>,
    suffix: Seq<char>,
)
    requires
        0 <= from <= entries.len(),
        printable(JsonView::Object(entries)),
        all_in(ws, CharClass::Space),
        all_in(gap, CharClass::Space),
    ensures
        tokens(ws + (render_entries(entries, indent, from) + (gap + (seq!['}'] + suffix))))
            == entries_tokens(entries, from) + (seq![Some(TokenView::RightBrace)] + tokens(
            suffix,
        )),
    decreases entries, entries.len() - from,
{
    let v = JsonView::Object(entries);
    assert(v->Object_0 == entries);
    assert(decreases_to!(v => v->Object_0));
    let close = gap + (seq!['}'] + suffix);
    let text = ws + (render_entries(entries, indent, from) + close);
    let closed = seq![Some(TokenView::RightBrace)] + tokens(suffix);
    if from == entries.len() {
        assert(text =~= (ws + gap) + (seq!['}'] + suffix));
        lemma_tokens_punctuation(ws + gap, '}', suffix);
        assert(entries_tokens(entries, from) + closed =~= closed);
    } else {
        assert(decreases_to!(entries => entries[from]));
        assert(decreases_to!(entries[from] => entries[from].1));
        lemma_object_entry(entries, from, indent);
        let key = entries[from].0;
        let value = entries[from].1;
        let last = from == entries.len() - 1;
        let margin = ws + spaces(indent);
        let following = seq!['\n'] + (render_entries(entries, indent, from + 1) + close);
        let after = if last {
            following
        } else {
            seq![','] + following
        };
        assert(after[0] == separator(last)[0]);
        let at_value = seq![' '] + (render(value, indent) + after);
        let at_colon = seq![':'] + at_value;
        assert(text =~= margin + (seq!['"'] + (key + (seq!['"'] + at_colon))));
        lemma_tokens_string(margin, key, at_colon);
        assert(at_colon =~= Seq::<char>::empty() + (seq![':'] + at_value));
        lemma_tokens_punctuation(Seq::empty(), ':', at_value);
        lemma_tokens_of_value(value, indent, seq![' '], after);
        lemma_tokens_of_entries(entries, from + 1, indent, seq!['\n'], gap, suffix);
        if !last {
            assert(after =~= Seq::<char>::empty() + (seq![','] + following));
            lemma_tokens_punctuation(Seq::empty(), ',', following);
        }
        let others = comma_if(!last) + (entries_tokens(entries, from + 1) + closed);
        assert(entries_tokens(entries, from) + closed =~= seq![Some(TokenView::String(key))]
            + (seq![Some(TokenView::Colon)] + (value_tokens(value) + others)));
    }
}

/// Whether a text starts with a mark that follows an item of a container: a
/// comma, a right bracket or a right brace.
pub open spec fn closes(suffix: Seq<char>) -> bool {
    suffix.len() > 0 && (suffix[0] == ',' || suffix[0] == ']' || suffix[0] == '}')
}

/// Whether the text `t` reads as the value `v` wherever an item may stand:
/// before any text that starts with a mark that follows an item, the tokens
/// of the two together parse to `v` and leave the tokens of what follows.
pub open spec fn reads_as(t: Seq<char>, v: JsonView) -> bool {
    forall|suffix: Seq<char>|
        closes(suffix) ==> #[trigger] read_value(tokens(t + suffix)) == (Some(v), tokens(suffix))
}

/// The texts `parts` from `from` on, in a row, with a comma between one and
/// the next.
pub open spec fn joined(parts: Seq<Seq<char>>, from: int) -> Seq<char>
    decreases parts.len() - from,
{
    if 0 <= from < parts.len() {
        parts[from] + (if from < parts.len() - 1 {
            seq![',']
        } else {
            Seq::empty()
        } + joined(parts, from + 1))
    } else {
        Seq::empty()
    }
}

/// The text of an array whose items are written as `parts`.
pub open spec fn array_text(parts: Seq<Seq<char>>) -> Seq<char> {
    seq!['['] + (joined(parts, 0) + seq![']'])
}

/// The tokens of a text that is not empty are not empty.
pub proof fn lemma_tokens_not_empty(s: Seq<char>)
    requires
        s.len() > 0,
    ensures
        tokens(s).len() > 0,
        ending(tokens(s)) == tokens(s),
{
    lemma_tokens_step(s);
}

/// Whether every character of `s` is white space of the ASCII characters.
pub open spec fn ascii_space(s: Seq<char>) -> bool {
    forall|i: int| 0 <= i < s.len() ==> is_white_space(#[trigger] s[i]) && s[i] <= '\u{7f}'
}

/// The text of a printable value, behind white space and before ASCII white
/// space, reads as the value wherever an item may stand.
pub proof fn lemma_printed_reads_as(v: JsonView, indent: nat, ws: Seq<char>, behind: Seq<char>)
    requires
        printable(v),
        all_in(ws, CharClass::Space),
        ascii_space(behind),
    ensures
        reads_as(ws + render(v, indent) + behind, v),
{
    let none = Seq::<char>::empty();
    let t = ws + render(v, indent) + behind;
    assert forall|suffix: Seq<char>| closes(suffix) implies #[trigger] read_value(
        tokens(t + suffix),
    ) == (Some(v), tokens(suffix)) by {
        let mark = suffix[0];
        let others = suffix.drop_first();
        let spaced = behind + suffix;
        assert(suffix =~= none + (seq![mark] + others));
        assert(spaced =~= behind + (seq![mark] + others));
        assert(spaced[0] == if behind.len() > 0 {
            behind[0]
        } else {
            mark
        });
        assert(t + suffix =~= ws + (render(v, indent) + spaced));
        lemma_tokens_of_value(v, indent, ws, spaced);
        lemma_tokens_punctuation(behind, mark, others);
        lemma_tokens_punctuation(none, mark, others);
        lemma_printable_keys(v);
        lemma_read_value_tokens(v, tokens(suffix));
        lemma_tokens_not_empty(suffix);
    }
}

/// The parts of an array from `from` on, up to the right bracket, add their
/// values to those before them, in their order.
pub proof fn lemma_items_of_parts(
    parts: Seq<Seq<char>>,
    values: Seq<JsonView>,
    from: int,
    after: Seq<char>,
)
    requires
        parts.len() == values.len(),
        0 <= from < parts.len(),
        forall|i: int| 0 <= i < parts.len() ==> reads_as(#[trigger] parts[i], values[i]),
    ensures
        read_items(tokens(joined(parts, from) + (seq![']'] + after)), values.take(from)) == (
            Some(JsonView::Array(values)),
            ending(tokens(after)),
        ),
    decreases parts.len() - from,
{
    let none = Seq::<char>::empty();
    let close = seq![']'] + after;
    let text = joined(parts, from) + close;
    let more = from < parts.len() - 1;
    let next = joined(parts, from + 1) + close;
    let suffix = if more {
        seq![','] + next
    } else {
        close
    };
    assert(text =~= parts[from] + suffix);
    assert(reads_as(parts[from], values[from]));
    assert(closes(suffix));
    assert(read_value(tokens(parts[from] + suffix)) == (Some(values[from]), tokens(suffix)));
    lemma_read_value_progress(tokens(text));
    assert(values.take(from).push(values[from]) =~= values.take(from + 1));
    if more {
        assert(suffix =~= none + (seq![','] + next));
        lemma_tokens_punctuation(none, ',', next);
        lemma_tokens_not_empty(next);
        lemma_head(Some(TokenView::Comma), tokens(next));
        lemma_items_of_parts(parts, values, from + 1, after);
    } else {
        assert(suffix =~= none + (seq![']'] + after));
        lemma_tokens_punctuation(none, ']', after);
        lemma_head(Some(TokenView::RightBracket), tokens(after));
        assert(values.take(from + 1) =~= values);
    }
}

/// Parsing keeps the order of the items of an array, whatever text they are
/// written as. Where each part reads as a value wherever an item may stand,
/// the parts in a row, with commas between them and within brackets, parse to
/// the array of these values: as many as there are parts, each in the place
/// of its part.
pub proof fn lemma_array_of_parts(parts: Seq<Seq<char>>, values: Seq<JsonView>, after: Seq<char>)
    requires
        parts.len() == values.len(),
        parts.len() >= 1,
        forall|i: int| 0 <= i < parts.len() ==> reads_as(#[trigger] parts[i], values[i]),
    ensures
        read_value(tokens(array_text(parts) + after)) == (
            Some(JsonView::Array(values)),
            ending(tokens(after)),
        ),
        read_value(token_stream(array_text(parts))) == (
            Some(JsonView::Array(values)),
            seq![None::<TokenView>],
        ),
        reads_as(array_text(parts), JsonView::Array(values)),
{
    let none = Seq::<char>::empty();
    assert forall|behind: Seq<char>| true implies #[trigger] read_value(
        tokens(array_text(parts) + behind),
    ) == (Some(JsonView::Array(values)), ending(tokens(behind))) by {
        let close = seq![']'] + behind;
        let inner = joined(parts, 0) + close;
        assert(array_text(parts) + behind =~= none + (seq!['['] + inner));
        lemma_tokens_punctuation(none, '[', inner);
        lemma_tokens_not_empty(inner);
        lemma_head(Some(TokenView::LeftBracket), tokens(inner));
        let more = 0 < parts.len() - 1;
        let next = joined(parts, 1) + close;
        let suffix = if more {
            seq![','] + next
        } else {
            close
        };
        assert(inner =~= parts[0] + suffix);
        assert(reads_as(parts[0], values[0]));
        assert(closes(suffix));
        assert(read_value(tokens(parts[0] + suffix)) == (Some(values[0]), tokens(suffix)));
        assert(opens_value(current(tokens(inner))));
        assert(values.take(0) =~= Seq::<JsonView>::empty());
        lemma_items_of_parts(parts, values, 0, behind);
    }
    assert(read_value(tokens(array_text(parts) + after)) == (
        Some(JsonView::Array(values)),
        ending(tokens(after)),
    ));
    assert(array_text(parts) + none =~= array_text(parts));
    assert(read_value(tokens(array_text(parts) + none)) == (
        Some(JsonView::Array(values)),
        ending(tokens(none)),
    ));
    assert(tokens(none) =~= Seq::<Option<TokenView>>::empty());
    assert forall|suffix: Seq<char>| closes(suffix) implies #[trigger] read_value(
        tokens(array_text(parts) + suffix),
    ) == (Some(JsonView::Array(values)), tokens(suffix)) by {
        lemma_tokens_not_empty(suffix);
    }
}

/// A text of white space alone, the empty text among them, has no value.
pub proof fn lemma_blank_text_has_no_value(s: Seq<char>)
    requires
        all_in(s, CharClass::Space),
    ensures
        read_value(token_stream(s)).0 is None,
{
    if s.len() > 0 {
        let none = Seq::<char>::empty();
        assert(s + none =~= s);
        lemma_run_exact(s, none, CharClass::Space);
        lemma_tokens_step(s);
        assert(tokens(none) =~= Seq::<Option<TokenView>>::empty());
    }
}

/// Reading back what was printed gives the value: the text of a printable
/// value, at any indentation, parses to the value, and the parser ends at
/// the end of the text.
pub proof fn lemma_round_trip(v: JsonView, indent: nat)
    requires
        printable(v),
    ensures
        read_value(token_stream(render(v, indent))) == (Some(v), seq![None::<TokenView>]),
{
    let text = render(v, indent);
    let none = Seq::<char>::empty();
    assert(none + (text + none) =~= text);
    lemma_tokens_of_value(v, indent, none, none);
    lemma_value_tokens_head(v);
    assert(tokens(none) =~= Seq::<Option<TokenView>>::empty());
    assert(text.len() > 0) by {
        if text.len() == 0 {
            assert(tokens(text) =~= Seq::<Option<TokenView>>::empty());
        }
    }
    lemma_printable_keys(v);
    lemma_read_value_tokens(v, Seq::empty());
    assert(value_tokens(v) + Seq::<Option<TokenView>>::empty() =~= value_tokens(v));
}

} // verus!
