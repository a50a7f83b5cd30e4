//! Lexical analysis: a cursor over the text that hands out one token at a time.

use vstd::prelude::*;
use vstd::string::*;
use vstd::utf8::*;

verus! {

/// A lexical token. A `String` token borrows its text from the source.
#[derive(Debug)]
pub enum Token<'s> {
    Eof,
    OpenLess,
    CloseGreater,
    Slash,
    Equal,
    String(&'s str),
}

/// The mathematical value of a [`Token`].
pub ghost enum TokenView {
    Eof,
    OpenLess,
    CloseGreater,
    Slash,
    Equal,
    String(Seq<char>),
}

impl TokenView {
    /// The text that the token stands for: empty for `Eof`, the symbol itself
    /// for the four punctuation tokens, the value of a `String` token.
    pub open spec fn text(self) -> Seq<char> {
        match self {
            TokenView::Eof => Seq::empty(),
            TokenView::OpenLess => seq!['<'],
            TokenView::CloseGreater => seq!['>'],
            TokenView::Slash => seq!['/'],
            TokenView::Equal => seq!['='],
            TokenView::String(s) => s,
        }
    }
}

impl<'s> View for Token<'s> {
    type V = TokenView;

    open spec fn view(&self) -> TokenView {
        match self {
            Token::Eof => TokenView::Eof,
            Token::OpenLess => TokenView::OpenLess,
            Token::CloseGreater => TokenView::CloseGreater,
            Token::Slash => TokenView::Slash,
            Token::Equal => TokenView::Equal,
            Token::String(s) => TokenView::String(s@),
        }
    }
}

impl<'s> Token<'s> {
    pub fn as_str(&self) -> (s: &'s str)
        ensures
            s@ == self@.text(),
    {
        proof {
            reveal_strlit("");
            reveal_strlit("<");
            reveal_strlit(">");
            reveal_strlit("/");
            reveal_strlit("=");
        }
        let s = match self {
            Token::Eof => "",
            Token::OpenLess => "<",
            Token::CloseGreater => ">",
            Token::Slash => "/",
            Token::Equal => "=",
            Token::String(s) => s,
        };
        assert(s@ =~= self@.text());
        s
    }
}

/// A place in the text: line and column, both counted from 1.
#[derive(Debug, Clone, Copy)]
pub struct Position {
    pub line: usize,
    pub column: usize,
}

/// The decimal digit `digit` as a character.
pub open spec fn digit_char(digit: int) -> char {
    if digit == 0 {
        '0'
    } else if digit == 1 {
        '1'
    } else if digit == 2 {
        '2'
    } else if digit == 3 {
        '3'
    } else if digit == 4 {
        '4'
    } else if digit == 5 {
        '5'
    } else if digit == 6 {
        '6'
    } else if digit == 7 {
        '7'
    } else if digit == 8 {
        '8'
    } else {
        '9'
    }
}

/// `n` in decimal digits, without leading zeros.
pub open spec fn decimal(n: nat) -> Seq<char>
    decreases n,
{
    if n < 10 {
        seq![digit_char(n as int)]
    } else {
        decimal(n / 10).push(digit_char((n % 10) as int))
    }
}

fn digit_text(digit: usize) -> (s: &'static str)
    requires
        digit < 10,
    ensures
        s@ == seq![digit_char(digit as int)],
{
    proof {
        reveal_strlit("0");
        reveal_strlit("1");
        reveal_strlit("2");
        reveal_strlit("3");
        reveal_strlit("4");
        reveal_strlit("5");
        reveal_strlit("6");
        reveal_strlit("7");
        reveal_strlit("8");
        reveal_strlit("9");
    }
    let s = match digit {
        0 => "0",
        1 => "1",
        2 => "2",
        3 => "3",
        4 => "4",
        5 => "5",
        6 => "6",
        7 => "7",
        8 => "8",
        _ => "9",
    };
    assert(s@ =~= seq![digit_char(digit as int)]);
    s
}

/// Appends `n` in decimal digits to `w`.
pub fn write_decimal(w: &mut String, n: usize)
    ensures
        final(w)@ == old(w)@ + decimal(n as nat),
    decreases n,
{
    if n < 10 {
        w.append(digit_text(n));
    } else {
        write_decimal(w, n / 10);
        w.append(digit_text(n % 10));
        assert(w@ =~= old(w)@ + decimal(n as nat));
    }
}

impl Position {
    /// The position as text: line, `:`, column.
    pub open spec fn text(self) -> Seq<char> {
        decimal(self.line as nat) + seq![':'] + decimal(self.column as nat)
    }

    /// The position as text: line, `:`, column.
    pub fn to_string(&self) -> (s: String)
        ensures
            s@ == self.text(),
    {
        proof {
            reveal_strlit(":");
        }
        let mut s = String::new();
        write_decimal(&mut s, self.line);
        s.append(":");
        write_decimal(&mut s, self.column);
        assert(s@ =~= self.text());
        s
    }
}

/// Line of the character at `index` of `data`, counted from 1.
pub open spec fn line_at(data: Seq<char>, index: int) -> int
    decreases index,
{
    if index <= 0 {
        1
    } else if data[index - 1] == '\n' {
        line_at(data, index - 1) + 1
    } else {
        line_at(data, index - 1)
    }
}

/// Column of the character at `index` of `data`, counted from 1: one more
/// than the number of characters between the last line feed and `index`.
pub open spec fn column_at(data: Seq<char>, index: int) -> int
    decreases index,
{
    if index <= 0 || data[index - 1] == '\n' {
        1
    } else {
        column_at(data, index - 1) + 1
    }
}

pub open spec fn spec_is_whitespace(c: char) -> bool {
    c == ' ' || c == '\t' || c == '\n' || c == '\r'
}

pub open spec fn spec_is_punctuation_or_whitespace(c: char) -> bool {
    spec_is_whitespace(c) || c == '<' || c == '>' || c == '=' || c == '/'
}

#[verifier::when_used_as_spec(spec_is_whitespace)]
pub fn is_whitespace(c: char) -> (b: bool)
    ensures
        b == spec_is_whitespace(c),
{
    c == ' ' || c == '\t' || c == '\n' || c == '\r'
}

#[verifier::when_used_as_spec(spec_is_punctuation_or_whitespace)]
pub fn is_punctuation_or_whitespace(c: char) -> (b: bool)
    ensures
        b == spec_is_punctuation_or_whitespace(c),
{
    is_whitespace(c) || c == '<' || c == '>' || c == '=' || c == '/'
}

/// `pattern` stands in `data` at `index`, whole.
pub open spec fn starts_with(data: Seq<char>, index: int, pattern: Seq<char>) -> bool {
    &&& 0 <= index
    &&& index + pattern.len() <= data.len()
    &&& data.subrange(index, index + pattern.len()) == pattern
}

/// The index just behind the first occurrence of `pattern` at or after
/// `index`, or the end of `data` where there is none.
pub open spec fn skip_until(data: Seq<char>, index: int, pattern: Seq<char>) -> int
    decreases data.len() - index,
{
    if index >= data.len() || index < 0 {
        index
    } else if starts_with(data, index, pattern) {
        index + pattern.len()
    } else {
        skip_until(data, index + 1, pattern)
    }
}

pub open spec fn comment_open() -> Seq<char> {
    seq!['<', '!', '-', '-']
}

pub open spec fn comment_close() -> Seq<char> {
    seq!['-', '-', '>']
}

pub open spec fn declaration_open() -> Seq<char> {
    seq!['<', '!']
}

pub open spec fn declaration_close() -> Seq<char> {
    seq!['>']
}

pub open spec fn instruction_open() -> Seq<char> {
    seq!['<', '?']
}

pub open spec fn instruction_close() -> Seq<char> {
    seq!['?', '>']
}

pub proof fn lemma_skip_until_bounds(data: Seq<char>, index: int, pattern: Seq<char>)
    requires
        0 <= index <= data.len(),
    ensures
        index <= skip_until(data, index, pattern) <= data.len(),
    decreases data.len() - index,
{
    if index < data.len() && !starts_with(data, index, pattern) {
        lemma_skip_until_bounds(data, index + 1, pattern);
    }
}

/// The index of the first character at or after `index` that belongs to a
/// token: white space is passed over, and so are `<!-- .. -->`, `<! .. >` and
/// `<? .. ?>`, each up to its end or, where it has none, to the end of `data`.
pub open spec fn skip_blank(data: Seq<char>, index: int) -> int
    decreases data.len() - index,
{
    if index >= data.len() || index < 0 {
        index
    } else if spec_is_whitespace(data[index]) {
        skip_blank(data, index + 1)
    } else if starts_with(data, index, comment_open()) {
        proof {
            lemma_skip_until_bounds(data, index + 4, comment_close());
        }
        skip_blank(data, skip_until(data, index + 4, comment_close()))
    } else if starts_with(data, index, declaration_open()) {
        proof {
            lemma_skip_until_bounds(data, index + 2, declaration_close());
        }
        skip_blank(data, skip_until(data, index + 2, declaration_close()))
    } else if starts_with(data, index, instruction_open()) {
        proof {
            lemma_skip_until_bounds(data, index + 2, instruction_close());
        }
        skip_blank(data, skip_until(data, index + 2, instruction_close()))
    } else {
        index
    }
}

pub proof fn lemma_skip_blank_bounds(data: Seq<char>, index: int)
    requires
        0 <= index <= data.len(),
    ensures
        index <= skip_blank(data, index) <= data.len(),
    decreases data.len() - index,
{
    if index >= data.len() {
    } else if spec_is_whitespace(data[index]) {
        lemma_skip_blank_bounds(data, index + 1);
    } else if starts_with(data, index, comment_open()) {
        lemma_skip_until_bounds(data, index + 4, comment_close());
        lemma_skip_blank_bounds(data, skip_until(data, index + 4, comment_close()));
    } else if starts_with(data, index, declaration_open()) {
        lemma_skip_until_bounds(data, index + 2, declaration_close());
        lemma_skip_blank_bounds(data, skip_until(data, index + 2, declaration_close()));
    } else if starts_with(data, index, instruction_open()) {
        lemma_skip_until_bounds(data, index + 2, instruction_close());
        lemma_skip_blank_bounds(data, skip_until(data, index + 2, instruction_close()));
    }
}

/// The index of the first `"` at or after `index`, or the end of `data`.
pub open spec fn quote_end(data: Seq<char>, index: int) -> int
    decreases data.len() - index,
{
    if index >= data.len() || index < 0 || data[index] == '"' {
        index
    } else {
        quote_end(data, index + 1)
    }
}

/// The index of the first white space or punctuation at or after `index`, or
/// the end of `data`.
pub open spec fn bare_end(data: Seq<char>, index: int) -> int
    decreases data.len() - index,
{
    if index >= data.len() || index < 0 || spec_is_punctuation_or_whitespace(data[index]) {
        index
    } else {
        bare_end(data, index + 1)
    }
}

pub proof fn lemma_quote_end_bounds(data: Seq<char>, index: int)
    requires
        0 <= index <= data.len(),
    ensures
        index <= quote_end(data, index) <= data.len(),
    decreases data.len() - index,
{
    if index < data.len() && data[index] != '"' {
        lemma_quote_end_bounds(data, index + 1);
    }
}

pub proof fn lemma_bare_end_bounds(data: Seq<char>, index: int)
    requires
        0 <= index <= data.len(),
    ensures
        index <= bare_end(data, index) <= data.len(),
    decreases data.len() - index,
{
    if index < data.len() && !spec_is_punctuation_or_whitespace(data[index]) {
        lemma_bare_end_bounds(data, index + 1);
    }
}

/// The token that starts at `index`, which is the index of a character of
/// `data` that `skip_blank` stops at, and the index behind that token.
pub open spec fn token_at(data: Seq<char>, index: int) -> (TokenView, int) {
    let c = data[index];
    if c == '<' {
        (TokenView::OpenLess, index + 1)
    } else if c == '>' {
        (TokenView::CloseGreater, index + 1)
    } else if c == '/' {
        (TokenView::Slash, index + 1)
    } else if c == '=' {
        (TokenView::Equal, index + 1)
    } else if c == '"' {
        let end = quote_end(data, index + 1);
        (
            TokenView::String(data.subrange(index + 1, end)),
            if end < data.len() {
                end + 1
            } else {
                end
            },
        )
    } else {
        let end = bare_end(data, index + 1);
        (TokenView::String(data.subrange(index, end)), end)
    }
}

/// The next token of `data` for a cursor at `index`, and the index that the
/// cursor then has. At the end of `data` the token is `Eof`.
pub open spec fn next_token_at(data: Seq<char>, index: int) -> (TokenView, int) {
    let start = skip_blank(data, index);
    if start >= data.len() {
        (TokenView::Eof, start)
    } else {
        token_at(data, start)
    }
}

/// A token other than `Eof` moves the cursor forward, and none moves it back
/// or beyond the end.
pub proof fn lemma_next_token_bounds(data: Seq<char>, index: int)
    requires
        0 <= index <= data.len(),
    ensures
        index <= next_token_at(data, index).1 <= data.len(),
        !(next_token_at(data, index).0 is Eof) ==> index < next_token_at(data, index).1,
        next_token_at(data, index).0 is Eof ==> next_token_at(data, index).1 == data.len(),
{
    lemma_skip_blank_bounds(data, index);
    let start = skip_blank(data, index);
    if start < data.len() {
        lemma_quote_end_bounds(data, start + 1);
        lemma_bare_end_bounds(data, start + 1);
    }
}

/// A word: a run of characters that a bare `String` token holds whole. It
/// is not empty, holds no white space and no punctuation, and does not start
/// with `"`.
pub open spec fn is_word(s: Seq<char>) -> bool {
    &&& s.len() > 0
    &&& s[0] != '"'
    &&& forall|i: int| 0 <= i < s.len() ==> !spec_is_punctuation_or_whitespace(#[trigger] s[i])
}

/// Where `pattern` stands at `index` and is made of two parts, the first
/// stands at `index` and the second right behind it.
pub proof fn lemma_starts_with_split(
    data: Seq<char>,
    index: int,
    first: Seq<char>,
    second: Seq<char>,
)
    requires
        starts_with(data, index, first + second),
    ensures
        starts_with(data, index, first),
        starts_with(data, index + first.len(), second),
{
    let whole = data.subrange(index, index + (first + second).len());
    assert(data.subrange(index, index + first.len()) =~= first) by {
        assert forall|k: int| 0 <= k < first.len() implies data[index + k] == first[k] by {
            assert(whole[k] == (first + second)[k]);
        }
    }
    assert(data.subrange(index + first.len(), index + first.len() + second.len()) =~= second)
        by {
        assert forall|k: int| 0 <= k < second.len() implies data[index + first.len() + k]
            == second[k] by {
            assert(whole[first.len() + k] == (first + second)[first.len() + k]);
        }
    }
}

/// Where `pattern` stands at `index`, each of its characters is in its place.
pub proof fn lemma_starts_with_index(data: Seq<char>, index: int, pattern: Seq<char>, k: int)
    requires
        starts_with(data, index, pattern),
        0 <= k < pattern.len(),
    ensures
        data[index + k] == pattern[k],
{
    assert(data.subrange(index, index + pattern.len())[k] == pattern[k]);
}

/// Nothing is passed over at a character that is neither white space nor `<`.
pub proof fn lemma_skip_blank_stays(data: Seq<char>, index: int)
    requires
        0 <= index < data.len(),
        !spec_is_whitespace(data[index]),
        data[index] != '<',
    ensures
        skip_blank(data, index) == index,
{
    assert(starts_with(data, index, comment_open()) ==> data.subrange(index, index + 4)[0]
        == '<');
    assert(starts_with(data, index, declaration_open()) ==> data.subrange(index, index + 2)[0]
        == '<');
    assert(starts_with(data, index, instruction_open()) ==> data.subrange(index, index + 2)[0]
        == '<');
}

/// `>`, `/` and `=` are tokens of one character.
pub proof fn lemma_token_symbol(data: Seq<char>, index: int)
    requires
        0 <= index < data.len(),
        data[index] == '>' || data[index] == '/' || data[index] == '=',
    ensures
        next_token_at(data, index).1 == index + 1,
        data[index] == '>' ==> next_token_at(data, index).0 == TokenView::CloseGreater,
        data[index] == '/' ==> next_token_at(data, index).0 == TokenView::Slash,
        data[index] == '=' ==> next_token_at(data, index).0 == TokenView::Equal,
{
    lemma_skip_blank_stays(data, index);
}

/// `<` is a token of one character unless `!` or `?` stands behind it.
pub proof fn lemma_token_open(data: Seq<char>, index: int)
    requires
        0 <= index < data.len(),
        data[index] == '<',
        index + 1 < data.len() ==> data[index + 1] != '!' && data[index + 1] != '?',
    ensures
        next_token_at(data, index) == (TokenView::OpenLess, index + 1),
{
    assert(starts_with(data, index, comment_open()) ==> data.subrange(index, index + 4)[1]
        == '!');
    assert(starts_with(data, index, declaration_open()) ==> data.subrange(index, index + 2)[1]
        == '!');
    assert(starts_with(data, index, instruction_open()) ==> data.subrange(index, index + 2)[1]
        == '?');
}

/// A space in front of a token does not change it.
pub proof fn lemma_token_after_space(data: Seq<char>, index: int)
    requires
        0 <= index < data.len(),
        data[index] == ' ',
    ensures
        next_token_at(data, index) == next_token_at(data, index + 1),
{
}

/// White space in front of a token does not change it.
pub proof fn lemma_token_after_blank(data: Seq<char>, from: int, to: int)
    requires
        0 <= from <= to <= data.len(),
        forall|k: int| from <= k < to ==> spec_is_whitespace(#[trigger] data[k]),
    ensures
        next_token_at(data, from) == next_token_at(data, to),
    decreases to - from,
{
    if from < to {
        lemma_token_after_blank(data, from + 1, to);
    }
}

/// A run without white space and punctuation ends where the first of them,
/// or the end of the text, stands.
pub proof fn lemma_bare_end_run(data: Seq<char>, index: int, end: int)
    requires
        0 <= index <= end <= data.len(),
        forall|k: int| index <= k < end ==> !spec_is_punctuation_or_whitespace(#[trigger] data[k]),
        end < data.len() ==> spec_is_punctuation_or_whitespace(data[end]),
    ensures
        bare_end(data, index) == end,
    decreases end - index,
{
    if index < end {
        lemma_bare_end_run(data, index + 1, end);
    }
}

/// A run without `"` ends where the first `"`, or the end of the text, stands.
pub proof fn lemma_quote_end_run(data: Seq<char>, index: int, end: int)
    requires
        0 <= index <= end <= data.len(),
        forall|k: int| index <= k < end ==> #[trigger] data[k] != '"',
        end < data.len() ==> data[end] == '"',
    ensures
        quote_end(data, index) == end,
    decreases end - index,
{
    if index < end {
        lemma_quote_end_run(data, index + 1, end);
    }
}

/// A word in front of white space, punctuation or the end of the text is one
/// `String` token.
pub proof fn lemma_token_word(data: Seq<char>, index: int, word: Seq<char>)
    requires
        is_word(word),
        starts_with(data, index, word),
        index + word.len() < data.len() ==> spec_is_punctuation_or_whitespace(
            data[index + word.len()],
        ),
    ensures
        next_token_at(data, index) == (TokenView::String(word), index + word.len()),
{
    let end = index + word.len();
    assert forall|k: int| index <= k < end implies !spec_is_punctuation_or_whitespace(
        #[trigger] data[k],
    ) by {
        lemma_starts_with_index(data, index, word, k - index);
    }
    lemma_starts_with_index(data, index, word, 0);
    lemma_skip_blank_stays(data, index);
    lemma_bare_end_run(data, index + 1, end);
}

/// A run without `"` between two `"` is one `String` token.
pub proof fn lemma_token_quoted(data: Seq<char>, index: int, value: Seq<char>)
    requires
        0 <= index < data.len(),
        data[index] == '"',
        starts_with(data, index + 1, value),
        forall|k: int| 0 <= k < value.len() ==> #[trigger] value[k] != '"',
        index + 1 + value.len() < data.len(),
        data[index + 1 + value.len()] == '"',
    ensures
        next_token_at(data, index) == (TokenView::String(value), index + value.len() + 2),
{
    let end = index + 1 + value.len();
    assert forall|k: int| index + 1 <= k < end implies #[trigger] data[k] != '"' by {
        lemma_starts_with_index(data, index + 1, value, k - index - 1);
    }
    lemma_skip_blank_stays(data, index);
    lemma_quote_end_run(data, index + 1, end);
}

/// The bytes of two texts in a row are the bytes of the first and then
/// those of the second.
proof fn lemma_encode_concat(first: Seq<char>, second: Seq<char>)
    ensures
        encode_utf8(first + second) == encode_utf8(first) + encode_utf8(second),
    decreases first.len(),
{
    if first.len() == 0 {
        assert(first + second =~= second);
        assert(encode_utf8(first) + encode_utf8(second) =~= encode_utf8(second));
    } else {
        lemma_encode_concat(first.drop_first(), second);
        assert((first + second).drop_first() =~= first.drop_first() + second);
        assert(encode_utf8(first + second) =~= encode_utf8(first) + encode_utf8(second));
    }
}

/// Behind the bytes of the first of two texts in a row a character starts,
/// or the bytes end.
proof fn lemma_encode_boundary(first: Seq<char>, second: Seq<char>)
    ensures
        is_char_boundary(encode_utf8(first + second), encode_utf8(first).len() as int),
    decreases first.len(),
{
    let bytes = encode_utf8(first + second);
    encode_utf8_valid_utf8(first + second);
    lemma_encode_concat(first, second);
    if first.len() > 0 {
        let whole = first + second;
        encode_utf8_first_scalar(whole);
        assert(whole.drop_first() =~= first.drop_first() + second);
        assert(pop_first_scalar(bytes) =~= encode_utf8(whole.drop_first()));
        lemma_encode_boundary(first.drop_first(), second);
        assert(whole[0] == first[0]);
        assert(encode_utf8(first).len() == encode_scalar(first[0] as u32).len() + encode_utf8(
            first.drop_first(),
        ).len());
        assert(length_of_first_scalar(bytes) > 0);
    }
}

/// Splits `s` behind its first `count` characters, in time that grows with
/// `count` only.
fn split_chars<'s>(s: &'s str, count: usize) -> (r: (&'s str, &'s str))
    requires
        count <= s@.len(),
    ensures
        r.0@ == s@.take(count as int),
        r.1@ == s@.skip(count as int),
{
    let head = s.substring_char(0, count);
    let ghost first = s@.take(count as int);
    let ghost second = s@.skip(count as int);
    proof {
        assert(head@ =~= first);
        assert(s@ =~= first + second);
        lemma_encode_concat(first, second);
        lemma_encode_boundary(first, second);
        assert(s.spec_bytes() == encode_utf8(first + second));
        assert(head.spec_bytes() == encode_utf8(first));
    }
    let middle = head.as_bytes().len();
    let (front, back) = s.split_at(middle);
    proof {
        let bytes = encode_utf8(first + second);
        let cut = encode_utf8(first).len() as int;
        assert(bytes.subrange(0, cut) =~= encode_utf8(first));
        assert(bytes.subrange(cut, bytes.len() as int) =~= encode_utf8(second));
        assert(front.spec_bytes() == encode_utf8(front@));
        assert(back.spec_bytes() == encode_utf8(back@));
        encode_utf8_decode_utf8(front@);
        encode_utf8_decode_utf8(first);
        encode_utf8_decode_utf8(back@);
        encode_utf8_decode_utf8(second);
    }
    (front, back)
}

/// What a [`Tokenizer`] stands for: the text and the index of the next
/// character to read.
pub ghost struct TokenizerView {
    pub data: Seq<char>,
    pub index: int,
}

/// A cursor over a text.
#[derive(Debug)]
pub struct Tokenizer<'s> {
    data: &'s str,
    /// The characters of `data`, followed by one NUL.
    chars: Vec<char>,
    current_index: usize,
    position: Position,
    /// What of `data` stands from `rest_index` on; `String` tokens are cut
    /// from its front.
    rest: &'s str,
    rest_index: usize,
}

impl<'s> View for Tokenizer<'s> {
    type V = TokenizerView;

    closed spec fn view(&self) -> TokenizerView {
        TokenizerView { data: self.data@, index: self.current_index as int }
    }
}

impl<'s> Tokenizer<'s> {
    /// The cursor is inside the text or at its end, and the stored position
    /// is that of the cursor.
    pub closed spec fn wf(&self) -> bool {
        &&& self.chars@ == self.data@.push('\0')
        &&& self.current_index <= self.data@.len()
        &&& self.position.line >= 1
        &&& self.position.column >= 1
        &&& self.position.line == line_at(self.data@, self.current_index as int)
        &&& self.position.column == column_at(self.data@, self.current_index as int)
        &&& self.position.line + self.position.column <= self.current_index + 2
        &&& self.rest_index <= self.current_index
        &&& self.rest@ == self.data@.skip(self.rest_index as int)
    }

    pub proof fn lemma_index_in_bounds(&self)
        requires
            self.wf(),
        ensures
            0 <= self@.index <= self@.data.len(),
    {
    }

    pub fn new(data: &'s str) -> (t: Tokenizer<'s>)
        ensures
            t.wf(),
            t@ == (TokenizerView { data: data@, index: 0 }),
    {
        let mut chars: Vec<char> = Vec::new();
        for c in it: data.chars()
            invariant
                chars@ == it.seq().take(it.index()),
                it.seq() == data@,
        {
            chars.push(c);
        }
        assert(chars@ =~= data@);
        chars.push('\0');
        assert(data@.skip(0) =~= data@);
        Tokenizer {
            data,
            chars,
            current_index: 0,
            position: Position { line: 1, column: 1 },
            rest: data,
            rest_index: 0,
        }
    }

    /// The line and column of the cursor.
    pub fn position(&self) -> (p: Position)
        requires
            self.wf(),
        ensures
            p.line == line_at(self@.data, self@.index),
            p.column == column_at(self@.data, self@.index),
    {
        self.position
    }

    pub fn eof(&self) -> (b: bool)
        requires
            self.wf(),
        ensures
            b == (self@.index >= self@.data.len()),
    {
        self.current_index >= self.chars.len() - 1
    }

    /// The character under the cursor, NUL at the end of the text.
    pub fn cur(&self) -> (c: char)
        requires
            self.wf(),
        ensures
            c == if self@.index < self@.data.len() {
                self@.data[self@.index]
            } else {
                '\0'
            },
    {
        self.chars[self.current_index]
    }

    /// Moves the cursor over one character, if there is one.
    pub fn skip(&mut self)
        requires
            old(self).wf(),
        ensures
            final(self).wf(),
            final(self)@.data == old(self)@.data,
            final(self)@.index == if old(self)@.index < old(self)@.data.len() {
                old(self)@.index + 1
            } else {
                old(self)@.index
            },
    {
        self.advance();
    }

    /// Whether `s` stands at the cursor.
    pub fn peek_string(&self, s: &str) -> (b: bool)
        requires
            self.wf(),
        ensures
            b == starts_with(self@.data, self@.index, s@),
    {
        let n = s.unicode_len();
        let len = self.chars.len() - 1;
        if n > len - self.current_index {
            return false;
        }
        let mut k: usize = 0;
        while k < n
            invariant
                self.wf(),
                n == s@.len(),
                len == self.data@.len(),
                k <= n,
                self.current_index + n <= len,
                forall|j: int| 0 <= j < k ==> self.data@[self.current_index + j] == s@[j],
            decreases n - k,
        {
            if self.chars[self.current_index + k] != s.get_char(k) {
                proof {
                    let sub = self.data@.subrange(
                        self.current_index as int,
                        self.current_index + n,
                    );
                    assert(sub[k as int] != s@[k as int]);
                }
                return false;
            }
            k += 1;
        }
        assert(self.data@.subrange(self.current_index as int, self.current_index + n) =~= s@);
        true
    }

    /// Moves the cursor over `s` where `s` stands at the cursor.
    pub fn take_string(&mut self, s: &str) -> (b: bool)
        requires
            old(self).wf(),
        ensures
            final(self).wf(),
            final(self)@.data == old(self)@.data,
            b == starts_with(old(self)@.data, old(self)@.index, s@),
            final(self)@.index == if b {
                old(self)@.index + s@.len()
            } else {
                old(self)@.index
            },
    {
        if !self.peek_string(s) {
            return false;
        }
        let n = s.unicode_len();
        let mut k: usize = 0;
        while k < n
            invariant
                self.wf(),
                self@.data == old(self)@.data,
                k <= n,
                n == s@.len(),
                old(self)@.index + n <= self@.data.len(),
                self@.index == old(self)@.index + k,
            decreases n - k,
        {
            self.skip();
            k += 1;
        }
        true
    }

    /// Moves the cursor behind the first occurrence of `end`, or to the end
    /// of the text where there is none.
    fn skip_past(&mut self, end: &str)
        requires
            old(self).wf(),
        ensures
            final(self).wf(),
            final(self)@.data == old(self)@.data,
            final(self)@.index == skip_until(old(self)@.data, old(self)@.index, end@),
    {
        while !self.eof()
            invariant
                self.wf(),
                self@.data == old(self)@.data,
                skip_until(self@.data, self@.index, end@) == skip_until(
                    old(self)@.data,
                    old(self)@.index,
                    end@,
                ),
            decreases self@.data.len() - self@.index,
        {
            if self.take_string(end) {
                return ;
            }
            self.skip();
        }
    }

    /// Moves the cursor to the next character that belongs to a token.
    pub fn skip_whitespace(&mut self)
        requires
            old(self).wf(),
        ensures
            final(self).wf(),
            final(self)@.data == old(self)@.data,
            final(self)@.index == skip_blank(old(self)@.data, old(self)@.index),
    {
        proof {
            reveal_strlit("<!--");
            reveal_strlit("-->");
            reveal_strlit("<!");
            reveal_strlit(">");
            reveal_strlit("<?");
            reveal_strlit("?>");
            assert("<!--"@ =~= comment_open());
            assert("-->"@ =~= comment_close());
            assert("<!"@ =~= declaration_open());
            assert(">"@ =~= declaration_close());
            assert("<?"@ =~= instruction_open());
            assert("?>"@ =~= instruction_close());
        }
        while !self.eof()
            invariant
                self.wf(),
                self@.data == old(self)@.data,
                "<!--"@ == comment_open(),
                "-->"@ == comment_close(),
                "<!"@ == declaration_open(),
                ">"@ == declaration_close(),
                "<?"@ == instruction_open(),
                "?>"@ == instruction_close(),
                skip_blank(self@.data, self@.index) == skip_blank(
                    old(self)@.data,
                    old(self)@.index,
                ),
            decreases self@.data.len() - self@.index,
        {
            if is_whitespace(self.cur()) {
                self.skip();
            } else if self.take_string("<!--") {
                proof {
                    lemma_skip_until_bounds(self@.data, self@.index, comment_close());
                }
                self.skip_past("-->");
            } else if self.take_string("<!") {
                proof {
                    lemma_skip_until_bounds(self@.data, self@.index, declaration_close());
                }
                self.skip_past(">");
            } else if self.take_string("<?") {
                proof {
                    lemma_skip_until_bounds(self@.data, self@.index, instruction_close());
                }
                self.skip_past("?>");
            } else {
                return ;
            }
        }
    }

    /// Lets `rest` start at the cursor.
    fn sync(&mut self)
        requires
            old(self).wf(),
        ensures
            final(self).wf(),
            final(self)@ == old(self)@,
            final(self).rest_index == final(self).current_index,
    {
        let (_, rest) = split_chars(self.rest, self.current_index - self.rest_index);
        proof {
            assert(rest@ =~= self.data@.skip(self.current_index as int));
        }
        self.rest = rest;
        self.rest_index = self.current_index;
    }

    /// Cuts the first `count` characters from `rest`.
    fn take_front(&mut self, count: usize) -> (text: &'s str)
        requires
            old(self).wf(),
            old(self).rest_index + count <= old(self).current_index,
        ensures
            final(self).wf(),
            final(self)@ == old(self)@,
            text@ == old(self)@.data.subrange(
                old(self).rest_index as int,
                old(self).rest_index + count,
            ),
    {
        let (text, rest) = split_chars(self.rest, count);
        proof {
            assert(text@ =~= self.data@.subrange(
                self.rest_index as int,
                self.rest_index + count,
            ));
            assert(rest@ =~= self.data@.skip(self.rest_index + count));
        }
        self.rest = rest;
        self.rest_index = self.rest_index + count;
        text
    }

    /// Moves the cursor over one character, if there is one.
    fn advance(&mut self)
        requires
            old(self).wf(),
        ensures
            final(self).wf(),
            final(self)@.data == old(self)@.data,
            final(self)@.index == if old(self)@.index < old(self)@.data.len() {
                old(self)@.index + 1
            } else {
                old(self)@.index
            },
            final(self).rest_index == old(self).rest_index,
    {
        if self.current_index >= self.chars.len() - 1 {
            return ;
        }
        let ch = self.chars[self.current_index];
        self.current_index += 1;
        if ch == '\n' {
            self.position.line += 1;
            self.position.column = 1;
        } else {
            self.position.column += 1;
        }
    }

    /// Moves the cursor over one character if that character is `expect`.
    pub fn take(&mut self, expect: char) -> (b: bool)
        requires
            old(self).wf(),
        ensures
            final(self).wf(),
            final(self)@.data == old(self)@.data,
            b == (old(self)@.index < old(self)@.data.len() && old(self)@.data[old(self)@.index]
                == expect),
            final(self)@.index == if b {
                old(self)@.index + 1
            } else {
                old(self)@.index
            },
    {
        if !self.eof() && self.cur() == expect {
            self.skip();
            return true;
        }
        false
    }

    /// Reads the next token and moves the cursor behind it.
    pub fn next_token(&mut self) -> (token: Token<'s>)
        requires
            old(self).wf(),
        ensures
            final(self).wf(),
            final(self)@.data == old(self)@.data,
            token@ == next_token_at(old(self)@.data, old(self)@.index).0,
            final(self)@.index == next_token_at(old(self)@.data, old(self)@.index).1,
    {
        self.skip_whitespace();
        if self.eof() {
            return Token::Eof;
        }
        let ch = self.cur();
        let ghost start = self@.index;
        match ch {
            '<' => {
                self.advance();
                Token::OpenLess
            },
            '>' => {
                self.advance();
                Token::CloseGreater
            },
            '/' => {
                self.advance();
                Token::Slash
            },
            '=' => {
                self.advance();
                Token::Equal
            },
            '"' => {
                self.advance();
                self.sync();
                let from = self.current_index;
                while !self.eof() && self.cur() != '"'
                    invariant
                        self.wf(),
                        self@.data == old(self)@.data,
                        from <= self@.index,
                        from == self.rest_index,
                        quote_end(self@.data, self@.index) == quote_end(self@.data, from as int),
                    decreases self@.data.len() - self@.index,
                {
                    self.advance();
                }
                let text = self.take_front(self.current_index - from);
                self.advance();
                Token::String(text)
            },
            _ => {
                self.sync();
                let from = self.current_index;
                self.advance();
                while !self.eof() && !is_punctuation_or_whitespace(self.cur())
                    invariant
                        self.wf(),
                        self@.data == old(self)@.data,
                        start < self@.index,
                        from == start,
                        from == self.rest_index,
                        bare_end(self@.data, self@.index) == bare_end(self@.data, start + 1),
                    decreases self@.data.len() - self@.index,
                {
                    self.advance();
                }
                Token::String(self.take_front(self.current_index - from))
            },
        }
    }
}

} // verus!
