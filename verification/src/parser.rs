//! The parser: builds a tree of elements from the tokens of a text, either
//! stopping at the first syntax error or collecting all of them.

use crate::attributes::{distinct_keys, lemma_inserted, ref_map_insert, str_eq};
use crate::element::{ElementRef, ElementView};
use crate::tokenizer::{
    column_at, decimal, lemma_next_token_bounds, line_at, next_token_at, Position, Token,
    TokenView, Tokenizer,
};
use std::borrow::Cow;
use vstd::prelude::*;
use vstd::string::*;

verus! {

/// A kind of syntax error, with the names it is about.
#[derive(Debug)]
pub enum NxmlErr {
    NoClosingSymbolFound { element: String },
    NoOpeningSymbolFound,
    MismatchedClosingTag { expected: String, got: String },
    MissingEqualsSign { tag: String, attribute: String },
    MissingAttributeValue { tag: String, attribute: String },
    MissingElementName,
}

/// The mathematical value of an [`NxmlErr`].
pub ghost enum NxmlErrView {
    NoClosingSymbolFound { element: Seq<char> },
    NoOpeningSymbolFound,
    MismatchedClosingTag { expected: Seq<char>, got: Seq<char> },
    MissingEqualsSign { tag: Seq<char>, attribute: Seq<char> },
    MissingAttributeValue { tag: Seq<char>, attribute: Seq<char> },
    MissingElementName,
}

impl View for NxmlErr {
    type V = NxmlErrView;

    open spec fn view(&self) -> NxmlErrView {
        match self {
            NxmlErr::NoClosingSymbolFound { element } => NxmlErrView::NoClosingSymbolFound {
                element: element@,
            },
            NxmlErr::NoOpeningSymbolFound => NxmlErrView::NoOpeningSymbolFound,
            NxmlErr::MismatchedClosingTag { expected, got } => NxmlErrView::MismatchedClosingTag {
                expected: expected@,
                got: got@,
            },
            NxmlErr::MissingEqualsSign { tag, attribute } => NxmlErrView::MissingEqualsSign {
                tag: tag@,
                attribute: attribute@,
            },
            NxmlErr::MissingAttributeValue {
                tag,
                attribute,
            } => NxmlErrView::MissingAttributeValue { tag: tag@, attribute: attribute@ },
            NxmlErr::MissingElementName => NxmlErrView::MissingElementName,
        }
    }
}

impl NxmlErrView {
    /// The error in words.
    pub open spec fn message(self) -> Seq<char> {
        match self {
            NxmlErrView::NoClosingSymbolFound { element } =>
                "No closing '>' found for ending element </"@ + element + ">"@,
            NxmlErrView::NoOpeningSymbolFound => "Couldn't find a '<' to start parsing with"@,
            NxmlErrView::MismatchedClosingTag { expected, got } =>
                "Closing element is in wrong order. Expected '</"@ + expected
                    + ">', but instead got '"@ + got + "'"@,
            NxmlErrView::MissingEqualsSign { tag, attribute } => "parsing tag '"@ + tag
                + "', attribute '"@ + attribute + "' - expected '='"@,
            NxmlErrView::MissingAttributeValue { tag, attribute } => "parsing tag '"@ + tag
                + "', attribute '"@ + attribute
                + "' - expected a \"string\" after =, but none found"@,
            NxmlErrView::MissingElementName => "Expected a name of the element after <"@,
        }
    }
}

impl NxmlErr {
    /// The error in words.
    pub fn to_string(&self) -> (s: String)
        ensures
            s@ == self@.message(),
    {
        match self {
            NxmlErr::NoClosingSymbolFound { element } => {
                let mut s = "No closing '>' found for ending element </".to_owned();
                s.append(element.as_str());
                s.append(">");
                s
            },
            NxmlErr::NoOpeningSymbolFound => "Couldn't find a '<' to start parsing with".to_owned(),
            NxmlErr::MismatchedClosingTag { expected, got } => {
                let mut s = "Closing element is in wrong order. Expected '</".to_owned();
                s.append(expected.as_str());
                s.append(">', but instead got '");
                s.append(got.as_str());
                s.append("'");
                s
            },
            NxmlErr::MissingEqualsSign { tag, attribute } => {
                let mut s = "parsing tag '".to_owned();
                s.append(tag.as_str());
                s.append("', attribute '");
                s.append(attribute.as_str());
                s.append("' - expected '='");
                s
            },
            NxmlErr::MissingAttributeValue { tag, attribute } => {
                let mut s = "parsing tag '".to_owned();
                s.append(tag.as_str());
                s.append("', attribute '");
                s.append(attribute.as_str());
                s.append("' - expected a \"string\" after =, but none found");
                s
            },
            NxmlErr::MissingElementName => "Expected a name of the element after <".to_owned(),
        }
    }
}

/// A syntax error and the place of the cursor when it was found.
#[derive(Debug)]
pub struct NxmlError {
    pub err: NxmlErr,
    pub at: Position,
}

/// The mathematical value of an [`NxmlError`].
pub ghost struct NxmlErrorView {
    pub err: NxmlErrView,
    pub line: int,
    pub column: int,
}

impl View for NxmlError {
    type V = NxmlErrorView;

    open spec fn view(&self) -> NxmlErrorView {
        NxmlErrorView { err: self.err@, line: self.at.line as int, column: self.at.column as int }
    }
}

impl NxmlErrorView {
    /// The error in words, with its place: the message, ` [`, line, `:`,
    /// column, `]`.
    pub open spec fn message(self) -> Seq<char> {
        self.err.message() + " ["@ + decimal(self.line as nat) + seq![':'] + decimal(
            self.column as nat,
        ) + "]"@
    }
}

impl NxmlError {
    /// The error in words, with its place.
    pub fn to_string(&self) -> (s: String)
        ensures
            s@ == self@.message(),
    {
        let mut s = self.err.to_string();
        s.append(" [");
        let at = self.at.to_string();
        s.append(at.as_str());
        s.append("]");
        assert(s@ =~= self@.message());
        s
    }
}

/// The views of `errors`, in order.
pub open spec fn error_views(errors: Seq<NxmlError>) -> Seq<NxmlErrorView> {
    Seq::new(errors.len(), |i: int| errors[i]@)
}

/// The error `err`, found with the cursor at `index` of `data`.
pub open spec fn error_at(data: Seq<char>, index: int, err: NxmlErrView) -> NxmlErrorView {
    NxmlErrorView { err, line: line_at(data, index), column: column_at(data, index) }
}

/// What reading one element gives: the element, the index behind it, and
/// every error met on the way, in order.
pub ghost struct Parsed {
    pub element: ElementView,
    pub index: int,
    pub errors: Seq<NxmlErrorView>,
}

impl Parsed {
    /// The same outcome behind the errors `earlier`.
    pub open spec fn after(self, earlier: Seq<NxmlErrorView>) -> Parsed {
        Parsed { errors: earlier + self.errors, ..self }
    }
}

/// `element` with one more run of text: the first run is the text, a later
/// one follows the text so far behind one space.
pub open spec fn with_more_text(element: ElementView, run: Seq<char>) -> ElementView {
    if element.text_content.len() == 0 {
        element.with_text(run)
    } else {
        element.with_text(element.text_content + seq![' '] + run)
    }
}

/// Reading an element of `data` with the cursor at `index`. With `opened` the
/// `<` that starts it has been read; without, it is the next token, and any
/// other token is an error. A missing name is an error and stands for the
/// empty name.
pub open spec fn parse_element(data: Seq<char>, index: int, opened: bool) -> Parsed
    decreases data.len() - index, 2nat,
    when 0 <= index <= data.len()
{
    let first = next_token_at(data, index);
    let start = if opened {
        index
    } else {
        first.1
    };
    let unopened = if !opened && !(first.0 is OpenLess) {
        seq![error_at(data, start, NxmlErrView::NoOpeningSymbolFound)]
    } else {
        Seq::empty()
    };
    let second = next_token_at(data, start);
    let name = match second.0 {
        TokenView::String(s) => s,
        _ => Seq::empty(),
    };
    let unnamed = if second.0 is String {
        Seq::empty()
    } else {
        seq![error_at(data, second.1, NxmlErrView::MissingElementName)]
    };
    proof {
        lemma_next_token_bounds(data, index);
        lemma_next_token_bounds(data, start);
    }
    parse_attributes(data, second.1, ElementView::leaf(name)).after(unopened + unnamed)
}

/// Reading the attributes of `element` and what follows them. A name, `=`
/// and a value set an attribute. A name without `=` behind it, or without a
/// value behind the `=`, is an error, and reading goes on behind the token
/// that stood in the wrong place. `/>` ends the element, `>` and a lone `/`
/// start its content, the end of `data` ends the element as it is.
pub open spec fn parse_attributes(data: Seq<char>, index: int, element: ElementView) -> Parsed
    decreases data.len() - index, 1nat,
    when 0 <= index <= data.len()
{
    let token = next_token_at(data, index);
    proof {
        lemma_next_token_bounds(data, index);
    }
    match token.0 {
        TokenView::Eof => Parsed { element, index: token.1, errors: Seq::empty() },
        TokenView::Slash => if token.1 < data.len() && data[token.1] == '>' {
            Parsed { element, index: token.1 + 1, errors: Seq::empty() }
        } else {
            parse_content(data, token.1, element)
        },
        TokenView::CloseGreater => parse_content(data, token.1, element),
        TokenView::String(key) => {
            let equals = next_token_at(data, token.1);
            proof {
                lemma_next_token_bounds(data, token.1);
            }
            if !(equals.0 is Equal) {
                parse_attributes(data, equals.1, element).after(
                    seq![
                        error_at(
                            data,
                            equals.1,
                            NxmlErrView::MissingEqualsSign { tag: element.name, attribute: key },
                        ),
                    ],
                )
            } else {
                let value = next_token_at(data, equals.1);
                proof {
                    lemma_next_token_bounds(data, equals.1);
                }
                match value.0 {
                    TokenView::String(v) => parse_attributes(
                        data,
                        value.1,
                        element.with_attr(key, v),
                    ),
                    _ => parse_attributes(data, value.1, element).after(
                        seq![
                            error_at(
                                data,
                                value.1,
                                NxmlErrView::MissingAttributeValue {
                                    tag: element.name,
                                    attribute: key,
                                },
                            ),
                        ],
                    ),
                }
            }
        },
        _ => parse_attributes(data, token.1, element),
    }
}

/// Reading the content of `element` up to its closing tag. `<` starts a
/// child, unless `/` stands right behind it: then the name of `element` and
/// `>` must follow, and the element ends there whether they do or not. Any
/// other token is a run of text. The end of `data` ends the element as it is.
///
/// A child ends behind the `<` that started it (`lemma_content_ends`), so
/// the branch that stops where it does not is never taken; it is there to
/// show that reading ends.
pub open spec fn parse_content(data: Seq<char>, index: int, element: ElementView) -> Parsed
    decreases data.len() - index, 0nat,
    when 0 <= index <= data.len()
{
    let token = next_token_at(data, index);
    proof {
        lemma_next_token_bounds(data, index);
    }
    match token.0 {
        TokenView::Eof => Parsed { element, index: token.1, errors: Seq::empty() },
        TokenView::OpenLess => if token.1 < data.len() && data[token.1] == '/' {
            closing_tag(data, token.1 + 1, element)
        } else {
            let child = parse_element(data, token.1, true);
            if !(index < child.index <= data.len()) {
                Parsed { element, index: child.index, errors: child.errors }
            } else {
                parse_content(data, child.index, element.with_child(child.element)).after(
                    child.errors,
                )
            }
        },
        other => parse_content(data, token.1, with_more_text(element, other.text())),
    }
}

/// Reading the closing tag of `element` behind its `</`.
pub open spec fn closing_tag(data: Seq<char>, index: int, element: ElementView) -> Parsed {
    let name = next_token_at(data, index);
    if name.0 == TokenView::String(element.name) {
        let close = next_token_at(data, name.1);
        Parsed {
            element,
            index: close.1,
            errors: if close.0 is CloseGreater {
                Seq::empty()
            } else {
                seq![
                    error_at(
                        data,
                        close.1,
                        NxmlErrView::NoClosingSymbolFound { element: element.name },
                    ),
                ]
            },
        }
    } else {
        Parsed {
            element,
            index: name.1,
            errors: seq![
                error_at(
                    data,
                    name.1,
                    NxmlErrView::MismatchedClosingTag {
                        expected: element.name,
                        got: name.0.text(),
                    },
                ),
            ],
        }
    }
}

/// Reading an element ends at or behind the index where it starts, and not
/// behind the end of the text.
pub proof fn lemma_element_ends(data: Seq<char>, index: int, opened: bool)
    requires
        0 <= index <= data.len(),
    ensures
        index <= parse_element(data, index, opened).index <= data.len(),
    decreases data.len() - index, 2nat,
{
    lemma_next_token_bounds(data, index);
    let start = if opened {
        index
    } else {
        next_token_at(data, index).1
    };
    lemma_next_token_bounds(data, start);
    let second = next_token_at(data, start);
    let name = match second.0 {
        TokenView::String(s) => s,
        _ => Seq::empty(),
    };
    lemma_attributes_end(data, second.1, ElementView::leaf(name));
}

/// Reading attributes and what follows them ends at or behind the index
/// where it starts, and not behind the end of the text.
pub proof fn lemma_attributes_end(data: Seq<char>, index: int, element: ElementView)
    requires
        0 <= index <= data.len(),
    ensures
        index <= parse_attributes(data, index, element).index <= data.len(),
    decreases data.len() - index, 1nat,
{
    lemma_next_token_bounds(data, index);
    let token = next_token_at(data, index);
    match token.0 {
        TokenView::Eof => {},
        TokenView::Slash => {
            if !(token.1 < data.len() && data[token.1] == '>') {
                lemma_content_ends(data, token.1, element);
            }
        },
        TokenView::CloseGreater => {
            lemma_content_ends(data, token.1, element);
        },
        TokenView::String(key) => {
            lemma_next_token_bounds(data, token.1);
            let equals = next_token_at(data, token.1);
            if !(equals.0 is Equal) {
                lemma_attributes_end(data, equals.1, element);
            } else {
                lemma_next_token_bounds(data, equals.1);
                let value = next_token_at(data, equals.1);
                match value.0 {
                    TokenView::String(v) => {
                        lemma_attributes_end(data, value.1, element.with_attr(key, v));
                    },
                    _ => {
                        lemma_attributes_end(data, value.1, element);
                    },
                }
            }
        },
        _ => {
            lemma_attributes_end(data, token.1, element);
        },
    }
}

/// Reading content ends at or behind the index where it starts, and not
/// behind the end of the text; and a child in it ends behind the `<` that
/// started it.
pub proof fn lemma_content_ends(data: Seq<char>, index: int, element: ElementView)
    requires
        0 <= index <= data.len(),
    ensures
        index <= parse_content(data, index, element).index <= data.len(),
        next_token_at(data, index).0 is OpenLess ==> index < parse_element(
            data,
            next_token_at(data, index).1,
            true,
        ).index <= data.len(),
    decreases data.len() - index, 0nat,
{
    lemma_next_token_bounds(data, index);
    let token = next_token_at(data, index);
    match token.0 {
        TokenView::Eof => {},
        TokenView::OpenLess => {
            lemma_element_ends(data, token.1, true);
            if token.1 < data.len() && data[token.1] == '/' {
                lemma_next_token_bounds(data, token.1 + 1);
                let name = next_token_at(data, token.1 + 1);
                lemma_next_token_bounds(data, name.1);
            } else {
                let child = parse_element(data, token.1, true);
                lemma_content_ends(data, child.index, element.with_child(child.element));
            }
        },
        other => {
            lemma_content_ends(data, token.1, with_more_text(element, other.text()));
        },
    }
}

/// Reading `data` as one element, from its start.
pub open spec fn document(data: Seq<char>) -> Parsed {
    parse_element(data, 0, false)
}

/// A text whose first token is not `<` has an error, and the first error is
/// that no opening symbol was found.
pub proof fn lemma_unopened(data: Seq<char>)
    requires
        !(next_token_at(data, 0).0 is OpenLess),
    ensures
        document(data).errors.len() > 0,
        document(data).errors[0].err == NxmlErrView::NoOpeningSymbolFound,
{
    let first = next_token_at(data, 0);
    let found = error_at(data, first.1, NxmlErrView::NoOpeningSymbolFound);
    let second = next_token_at(data, first.1);
    let unnamed = if second.0 is String {
        Seq::<NxmlErrorView>::empty()
    } else {
        seq![error_at(data, second.1, NxmlErrView::MissingElementName)]
    };
    assert((seq![found] + unnamed)[0] == found);
    assert(document(data).errors[0] == (seq![found] + unnamed)[0]);
}

/// The mathematical value of what the parser hands back.
pub open spec fn result_view(r: Result<ElementRef, NxmlError>) -> Result<
    ElementView,
    NxmlErrorView,
> {
    match r {
        Ok(e) => Ok(e@),
        Err(x) => Err(x@),
    }
}

/// How a parser that was to reach the outcome `p` has ended.
///
/// A lenient one hands back the element of `p`, stands at the index of `p`
/// and has added the errors of `p` to those it had. A strict one has added
/// none: where `p` has no error it hands back the element and stands at the
/// index of `p`; where `p` has one, it fails with the first.
pub open spec fn settled(
    lenient: bool,
    reported_before: Seq<NxmlErrorView>,
    reported_after: Seq<NxmlErrorView>,
    index_after: int,
    r: Result<ElementView, NxmlErrorView>,
    p: Parsed,
) -> bool {
    if lenient {
        &&& r == Ok::<ElementView, NxmlErrorView>(p.element)
        &&& index_after == p.index
        &&& reported_after == reported_before + p.errors
    } else {
        &&& reported_after == reported_before
        &&& match r {
            Ok(e) => p.errors.len() == 0 && e == p.element && index_after == p.index,
            Err(x) => p.errors.len() > 0 && x == p.errors[0],
        }
    }
}

/// A parser that ends as `p` asks, after it has reported `earlier`, ends as
/// `p.after(earlier)` asks; a strict one gets this far only with nothing
/// reported.
proof fn lemma_settled_after(
    lenient: bool,
    reported_before: Seq<NxmlErrorView>,
    earlier: Seq<NxmlErrorView>,
    reported_after: Seq<NxmlErrorView>,
    index_after: int,
    r: Result<ElementView, NxmlErrorView>,
    p: Parsed,
)
    requires
        settled(lenient, reported_before + earlier, reported_after, index_after, r, p),
        !lenient ==> earlier.len() == 0,
    ensures
        settled(lenient, reported_before, reported_after, index_after, r, p.after(earlier)),
{
    if lenient {
        assert((reported_before + earlier) + p.errors =~= reported_before + (earlier + p.errors));
    } else {
        assert(reported_before + earlier =~= reported_before);
        assert(earlier + p.errors =~= p.errors);
    }
}

/// Whether `text` holds no character.
fn text_is_empty(text: &Cow<'_, str>) -> (b: bool)
    ensures
        b == (text@.len() == 0),
{
    match text {
        Cow::Borrowed(content) => content.is_empty(),
        Cow::Owned(content) => content.as_str().is_empty(),
    }
}

/// Adds `run` behind a space to `text`, which is not empty. A borrowed text
/// becomes an owned one, an owned one grows in place.
fn append_run(text: &mut Cow<'_, str>, run: &str)
    ensures
        final(text)@ == old(text)@ + seq![' '] + run@,
{
    proof {
        reveal_strlit(" ");
    }
    match text {
        Cow::Owned(content) => {
            content.append(" ");
            content.append(run);
            assert(content@ =~= old(text)@ + seq![' '] + run@);
        },
        Cow::Borrowed(content) => {
            let mut joined = (*content).to_owned();
            joined.append(" ");
            joined.append(run);
            assert(joined@ =~= old(text)@ + seq![' '] + run@);
            *text = Cow::Owned(joined);
        },
    }
}

/// Adds one run of text to `element`.
fn merge_text<'s>(element: &mut ElementRef<'s>, run: &'s str)
    ensures
        final(element)@ == with_more_text(old(element)@, run@),
{
    proof {
        old(element).lemma_view();
    }
    if text_is_empty(&element.text_content) {
        element.text_content = Cow::Borrowed(run);
    } else {
        append_run(&mut element.text_content, run);
    }
    proof {
        element.lemma_view();
        assert(element@.children =~= old(element)@.children);
    }
}

/// A tokenizer, the errors met so far, and the mode: a lenient parser
/// collects errors and goes on, a strict one fails with the first.
#[derive(Debug)]
pub struct Parser<'s> {
    tokenizer: Tokenizer<'s>,
    errors: Vec<NxmlError>,
    lenient: bool,
}

impl<'s> Parser<'s> {
    pub closed spec fn wf(&self) -> bool {
        self.tokenizer.wf()
    }

    /// The text that is read.
    pub closed spec fn source(&self) -> Seq<char> {
        self.tokenizer@.data
    }

    /// The index of the next character to read.
    pub closed spec fn index(&self) -> int {
        self.tokenizer@.index
    }

    /// The errors collected so far.
    pub closed spec fn reported(&self) -> Seq<NxmlErrorView> {
        error_views(self.errors@)
    }

    pub closed spec fn is_lenient(&self) -> bool {
        self.lenient
    }

    /// A strict parser at the start of `data`.
    pub fn new(data: &'s str) -> (p: Parser<'s>)
        ensures
            p.wf(),
            p.source() == data@,
            p.index() == 0,
            p.reported() == Seq::<NxmlErrorView>::empty(),
            !p.is_lenient(),
    {
        let p = Parser { tokenizer: Tokenizer::new(data), errors: Vec::new(), lenient: false };
        assert(p.reported() =~= Seq::empty());
        p
    }

    /// The same parser, lenient.
    pub fn lenient(self) -> (p: Self)
        ensures
            p.is_lenient(),
            p.wf() == self.wf(),
            p.source() == self.source(),
            p.index() == self.index(),
            p.reported() == self.reported(),
    {
        let mut p = self;
        p.lenient = true;
        p
    }

    /// Deals with an error found at the cursor: a lenient parser adds it to
    /// its errors and goes on, a strict one hands it back as its failure.
    pub fn report(&mut self, err: NxmlErr) -> (r: Result<(), NxmlError>)
        requires
            old(self).wf(),
        ensures
            final(self).wf(),
            final(self).source() == old(self).source(),
            final(self).index() == old(self).index(),
            final(self).is_lenient() == old(self).is_lenient(),
            match r {
                Ok(_) => old(self).is_lenient() && final(self).reported() == old(
                    self,
                ).reported().push(error_at(old(self).source(), old(self).index(), err@)),
                Err(e) => !old(self).is_lenient() && final(self).reported() == old(
                    self,
                ).reported() && e@ == error_at(old(self).source(), old(self).index(), err@),
            },
    {
        let error = NxmlError { err, at: self.tokenizer.position() };
        if self.lenient {
            self.errors.push(error);
            assert(self.reported() =~= old(self).reported().push(error@));
            return Ok(());
        }
        Err(error)
    }

    /// Reads one element from the start of what is left.
    pub fn parse(&mut self) -> (r: Result<ElementRef<'s>, NxmlError>)
        requires
            old(self).wf(),
        ensures
            final(self).wf(),
            final(self).source() == old(self).source(),
            final(self).is_lenient() == old(self).is_lenient(),
            settled(
                old(self).is_lenient(),
                old(self).reported(),
                final(self).reported(),
                final(self).index(),
                result_view(r),
                parse_element(old(self).source(), old(self).index(), false),
            ),
            r matches Ok(e) ==> e@.wf(),
    {
        self.parse_inner(false)
    }

    fn parse_inner(&mut self, skip_opening_tag: bool) -> (r: Result<ElementRef<'s>, NxmlError>)
        requires
            old(self).wf(),
        ensures
            final(self).wf(),
            final(self).source() == old(self).source(),
            final(self).is_lenient() == old(self).is_lenient(),
            settled(
                old(self).is_lenient(),
                old(self).reported(),
                final(self).reported(),
                final(self).index(),
                result_view(r),
                parse_element(old(self).source(), old(self).index(), skip_opening_tag),
            ),
            r matches Ok(e) ==> e@.wf() && old(self).index() <= final(self).index(),
        decreases old(self).source().len() - old(self).index(), 2nat,
    {
        let ghost data = self.source();
        let ghost begin = self.index();
        let ghost first = next_token_at(data, begin);
        let ghost start = if skip_opening_tag {
            begin
        } else {
            first.1
        };
        let ghost unopened = if !skip_opening_tag && !(first.0 is OpenLess) {
            seq![error_at(data, start, NxmlErrView::NoOpeningSymbolFound)]
        } else {
            Seq::empty()
        };
        let ghost second = next_token_at(data, start);
        let ghost unnamed = if second.0 is String {
            Seq::empty()
        } else {
            seq![error_at(data, second.1, NxmlErrView::MissingElementName)]
        };
        let ghost leaf = ElementView::leaf(
            match second.0 {
                TokenView::String(s) => s,
                _ => Seq::empty(),
            },
        );
        let ghost rest = parse_attributes(data, second.1, leaf);
        let ghost goal = parse_element(data, begin, skip_opening_tag);
        proof {
            self.tokenizer.lemma_index_in_bounds();
            lemma_next_token_bounds(data, begin);
            lemma_next_token_bounds(data, start);
            assert(goal == rest.after(unopened + unnamed));
        }
        if !skip_opening_tag {
            match self.tokenizer.next_token() {
                Token::OpenLess => {},
                _ => {
                    match self.report(NxmlErr::NoOpeningSymbolFound) {
                        Err(e) => {
                            assert(goal.errors[0] == unopened[0]);
                            return Err(e);
                        },
                        Ok(_) => {},
                    }
                },
            }
        }
        assert(self.reported() =~= old(self).reported() + unopened);
        proof {
            reveal_strlit("");
        }
        let name = match self.tokenizer.next_token() {
            Token::String(name) => name,
            _ => {
                match self.report(NxmlErr::MissingElementName) {
                    Err(e) => {
                        assert(unopened.len() == 0);
                        assert(goal.errors[0] == unnamed[0]);
                        return Err(e);
                    },
                    Ok(_) => {},
                }
                ""
            },
        };
        let element = ElementRef::new(name);
        proof {
            assert(element@.name =~= leaf.name);
            assert(self.reported() =~= old(self).reported() + (unopened + unnamed));
        }
        let r = self.attributes_loop(element);
        proof {
            lemma_settled_after(
                self.is_lenient(),
                old(self).reported(),
                unopened + unnamed,
                self.reported(),
                self.index(),
                result_view(r),
                rest,
            );
        }
        r
    }

    fn attributes_loop(&mut self, start: ElementRef<'s>) -> (r: Result<
        ElementRef<'s>,
        NxmlError,
    >)
        requires
            old(self).wf(),
            start@.wf(),
        ensures
            final(self).wf(),
            final(self).source() == old(self).source(),
            final(self).is_lenient() == old(self).is_lenient(),
            settled(
                old(self).is_lenient(),
                old(self).reported(),
                final(self).reported(),
                final(self).index(),
                result_view(r),
                parse_attributes(old(self).source(), old(self).index(), start@),
            ),
            r matches Ok(e) ==> e@.wf() && old(self).index() <= final(self).index(),
        decreases old(self).source().len() - old(self).index(), 1nat,
    {
        let mut element = start;
        let ghost data = self.source();
        let ghost goal = parse_attributes(data, self.index(), element@);
        let ghost mut earlier: Seq<NxmlErrorView> = Seq::empty();
        assert(goal == goal.after(earlier)) by {
            assert(earlier + goal.errors =~= goal.errors);
        }
        assert(self.reported() =~= old(self).reported() + earlier);
        loop
            invariant
                self.wf(),
                self.source() == data,
                data == old(self).source(),
                self.is_lenient() == old(self).is_lenient(),
                element@.wf(),
                old(self).index() <= self.index(),
                self.reported() == old(self).reported() + earlier,
                !self.is_lenient() ==> earlier.len() == 0,
                goal == parse_attributes(data, old(self).index(), start@),
                goal == parse_attributes(data, self.index(), element@).after(earlier),
            decreases data.len() - self.index(),
        {
            let ghost here = self.index();
            proof {
                self.tokenizer.lemma_index_in_bounds();
                lemma_next_token_bounds(data, here);
            }
            match self.tokenizer.next_token() {
                Token::Eof => {
                    proof {
                        assert(earlier + Seq::<NxmlErrorView>::empty() =~= earlier);
                        assert(self.reported() =~= old(self).reported() + goal.errors);
                    }
                    return Ok(element);
                },
                Token::Slash => {
                    if self.tokenizer.take('>') {
                        proof {
                            assert(earlier + Seq::<NxmlErrorView>::empty() =~= earlier);
                        }
                        return Ok(element);
                    }
                    let ghost rest = parse_content(data, self.index(), element@);
                    let r = self.content_loop(element);
                    proof {
                        lemma_settled_after(
                            self.is_lenient(),
                            old(self).reported(),
                            earlier,
                            self.reported(),
                            self.index(),
                            result_view(r),
                            rest,
                        );
                    }
                    return r;
                },
                Token::CloseGreater => {
                    let ghost rest = parse_content(data, self.index(), element@);
                    let r = self.content_loop(element);
                    proof {
                        lemma_settled_after(
                            self.is_lenient(),
                            old(self).reported(),
                            earlier,
                            self.reported(),
                            self.index(),
                            result_view(r),
                            rest,
                        );
                    }
                    return r;
                },
                Token::String(name) => {
                    proof {
                        self.tokenizer.lemma_index_in_bounds();
                        lemma_next_token_bounds(data, self.index());
                        element.lemma_view();
                    }
                    match self.tokenizer.next_token() {
                        Token::Equal => {
                            proof {
                                self.tokenizer.lemma_index_in_bounds();
                                lemma_next_token_bounds(data, self.index());
                            }
                            match self.tokenizer.next_token() {
                                Token::String(value) => {
                                    let ghost before = element@;
                                    ref_map_insert(&mut element.attributes, name, value);
                                    proof {
                                        element.lemma_view();
                                        lemma_inserted(before.attributes, name@, value@);
                                        assert(element@.children =~= before.children);
                                        assert(element@ == before.with_attr(name@, value@));
                                    }
                                },
                                _ => {
                                    let err = NxmlErr::MissingAttributeValue {
                                        tag: element.name.to_owned(),
                                        attribute: name.to_owned(),
                                    };
                                    let ghost found = error_at(data, self.index(), err@);
                                    match self.report(err) {
                                        Err(e) => {
                                            return Err(e);
                                        },
                                        Ok(_) => {},
                                    }
                                    proof {
                                        let next = parse_attributes(data, self.index(), element@);
                                        assert((earlier + seq![found]) + next.errors =~= earlier
                                            + (seq![found] + next.errors));
                                        assert(old(self).reported() + (earlier + seq![found])
                                            =~= (old(self).reported() + earlier).push(found));
                                        earlier = earlier + seq![found];
                                    }
                                },
                            }
                        },
                        _ => {
                            let err = NxmlErr::MissingEqualsSign {
                                tag: element.name.to_owned(),
                                attribute: name.to_owned(),
                            };
                            let ghost found = error_at(data, self.index(), err@);
                            match self.report(err) {
                                Err(e) => {
                                    return Err(e);
                                },
                                Ok(_) => {},
                            }
                            proof {
                                let next = parse_attributes(data, self.index(), element@);
                                assert((earlier + seq![found]) + next.errors =~= earlier + (
                                seq![found] + next.errors));
                                assert(old(self).reported() + (earlier + seq![found]) =~= (old(
                                    self,
                                ).reported() + earlier).push(found));
                                earlier = earlier + seq![found];
                            }
                        },
                    }
                },
                _ => {},
            }
        }
    }

    fn content_loop(&mut self, start: ElementRef<'s>) -> (r: Result<ElementRef<'s>, NxmlError>)
        requires
            old(self).wf(),
            start@.wf(),
        ensures
            final(self).wf(),
            final(self).source() == old(self).source(),
            final(self).is_lenient() == old(self).is_lenient(),
            settled(
                old(self).is_lenient(),
                old(self).reported(),
                final(self).reported(),
                final(self).index(),
                result_view(r),
                parse_content(old(self).source(), old(self).index(), start@),
            ),
            r matches Ok(e) ==> e@.wf() && old(self).index() <= final(self).index(),
        decreases old(self).source().len() - old(self).index(), 0nat,
    {
        let mut element = start;
        let ghost data = self.source();
        let ghost goal = parse_content(data, self.index(), element@);
        let ghost mut earlier: Seq<NxmlErrorView> = Seq::empty();
        assert(goal == goal.after(earlier)) by {
            assert(earlier + goal.errors =~= goal.errors);
        }
        assert(self.reported() =~= old(self).reported() + earlier);
        loop
            invariant
                self.wf(),
                self.source() == data,
                data == old(self).source(),
                self.is_lenient() == old(self).is_lenient(),
                element@.wf(),
                old(self).index() <= self.index(),
                self.reported() == old(self).reported() + earlier,
                !self.is_lenient() ==> earlier.len() == 0,
                goal == parse_content(data, old(self).index(), start@),
                goal == parse_content(data, self.index(), element@).after(earlier),
            decreases data.len() - self.index(),
        {
            let ghost here = self.index();
            proof {
                self.tokenizer.lemma_index_in_bounds();
                lemma_next_token_bounds(data, here);
            }
            let token = self.tokenizer.next_token();
            match token {
                Token::Eof => {
                    proof {
                        assert(earlier + Seq::<NxmlErrorView>::empty() =~= earlier);
                    }
                    return Ok(element);
                },
                Token::OpenLess => {
                    if self.tokenizer.take('/') {
                        let ghost rest = closing_tag(data, self.index(), element@);
                        let r = self.closing_tag(element);
                        proof {
                            lemma_settled_after(
                                self.is_lenient(),
                                old(self).reported(),
                                earlier,
                                self.reported(),
                                self.index(),
                                result_view(r),
                                rest,
                            );
                        }
                        return r;
                    }
                    let ghost opened = self.index();
                    let ghost outcome = parse_element(data, opened, true);
                    let ghost before = element@;
                    proof {
                        self.tokenizer.lemma_index_in_bounds();
                    }
                    match self.parse_inner(true) {
                        Err(e) => {
                            proof {
                                assert(earlier + outcome.errors =~= outcome.errors);
                                if here < outcome.index <= data.len() {
                                    let next = parse_content(
                                        data,
                                        outcome.index,
                                        before.with_child(outcome.element),
                                    );
                                    assert((earlier + (outcome.errors + next.errors))[0]
                                        == outcome.errors[0]);
                                }
                            }
                            return Err(e);
                        },
                        Ok(child) => {
                            element.children.push(child);
                            proof {
                                self.tokenizer.lemma_index_in_bounds();
                                element.lemma_view();
                                assert(element@.children =~= before.children.push(child@));
                                assert(element@ == before.with_child(outcome.element));
                                let next = parse_content(data, self.index(), element@);
                                assert((earlier + outcome.errors) + next.errors =~= earlier + (
                                outcome.errors + next.errors));
                                assert(old(self).reported() + (earlier + outcome.errors) =~= (old(
                                    self,
                                ).reported() + earlier) + outcome.errors);
                                if !self.is_lenient() {
                                    assert(earlier + outcome.errors =~= Seq::empty());
                                }
                                earlier = earlier + outcome.errors;
                            }
                        },
                    }
                },
                other => {
                    merge_text(&mut element, other.as_str());
                },
            }
        }
    }

    fn closing_tag(&mut self, element: ElementRef<'s>) -> (r: Result<ElementRef<'s>, NxmlError>)
        requires
            old(self).wf(),
            element@.wf(),
        ensures
            final(self).wf(),
            final(self).source() == old(self).source(),
            final(self).is_lenient() == old(self).is_lenient(),
            settled(
                old(self).is_lenient(),
                old(self).reported(),
                final(self).reported(),
                final(self).index(),
                result_view(r),
                closing_tag(old(self).source(), old(self).index(), element@),
            ),
            r matches Ok(e) ==> e@.wf() && old(self).index() <= final(self).index(),
    {
        let ghost data = self.source();
        proof {
            self.tokenizer.lemma_index_in_bounds();
            lemma_next_token_bounds(data, self.index());
            element.lemma_view();
            assert(old(self).reported() + Seq::<NxmlErrorView>::empty() =~= old(self).reported());
        }
        let token = self.tokenizer.next_token();
        proof {
            self.tokenizer.lemma_index_in_bounds();
            lemma_next_token_bounds(data, self.index());
        }
        let err = match token {
            Token::String(name) => {
                if str_eq(name, element.name) {
                    match self.tokenizer.next_token() {
                        Token::CloseGreater => {
                            return Ok(element);
                        },
                        _ => NxmlErr::NoClosingSymbolFound { element: name.to_owned() },
                    }
                } else {
                    NxmlErr::MismatchedClosingTag {
                        expected: element.name.to_owned(),
                        got: name.to_owned(),
                    }
                }
            },
            other => NxmlErr::MismatchedClosingTag {
                expected: element.name.to_owned(),
                got: other.as_str().to_owned(),
            },
        };
        let ghost found = error_at(data, self.index(), err@);
        match self.report(err) {
            Err(e) => Err(e),
            Ok(_) => {
                proof {
                    assert(old(self).reported().push(found) =~= old(self).reported()
                        + seq![found]);
                }
                Ok(element)
            },
        }
    }
}

/// Reads `s` as one element and fails with the first syntax error.
///
/// No limit is set on how deep elements may nest: the parser calls itself
/// once for each level, so the depth of the calls grows with the depth of
/// the text.
pub fn parse(s: &str) -> (r: Result<ElementRef<'_>, NxmlError>)
    ensures
        match r {
            Ok(e) => document(s@).errors.len() == 0 && e@ == document(s@).element && e@.wf(),
            Err(x) => document(s@).errors.len() > 0 && x@ == document(s@).errors[0],
        },
{
    let mut parser = Parser::new(s);
    parser.parse()
}

/// Reads `s` as one element and never fails: every syntax error is handed
/// back, in the order in which it was met, beside the element as far as it
/// could be read. A strict parse of the same text fails with the first of
/// these errors, or gives the same element where there is none.
///
/// No limit is set on how deep elements may nest.
pub fn parse_lenient(s: &str) -> (r: (ElementRef<'_>, Vec<NxmlError>))
    ensures
        r.0@ == document(s@).element,
        error_views(r.1@) == document(s@).errors,
        r.0@.wf(),
{
    let mut parser = Parser::new(s).lenient();
    match parser.parse() {
        Ok(element) => {
            assert(Seq::<NxmlErrorView>::empty() + document(s@).errors =~= document(s@).errors);
            (element, parser.errors)
        },
        Err(_) => vstd::pervasive::unreached(),
    }
}

} // verus!
