//! Printing and parsing agree: the text of a plain tree, read strictly, is
//! that tree again.

use crate::attributes::{distinct_keys, has_key, inserted, key_index, lemma_key_index, Entries};
use crate::display::{
    closing_tag, render, render_attributes, render_children, spaces, text_block, Layout,
};
use crate::element::ElementView;
use crate::parser::{
    closing_tag as read_closing_tag, document, parse_attributes, parse_content, parse_element,
    with_more_text, NxmlErrorView, Parsed,
};
use crate::tokenizer::{
    is_word, lemma_starts_with_index, lemma_starts_with_split, lemma_token_after_blank,
    lemma_token_after_space, lemma_token_open, lemma_token_quoted, lemma_token_symbol,
    lemma_token_word, next_token_at, spec_is_whitespace, starts_with, TokenView,
};
use vstd::prelude::*;

verus! {

/// A name that can stand behind `<`: a word that starts with neither `!` nor
/// `?`.
pub open spec fn is_tag_name(s: Seq<char>) -> bool {
    is_word(s) && s[0] != '!' && s[0] != '?'
}

/// Attributes that come back as they are: the names are words and distinct,
/// and no value holds a `"`.
pub open spec fn plain_attributes(attributes: Entries) -> bool {
    &&& distinct_keys(attributes)
    &&& forall|i: int|
        0 <= i < attributes.len() ==> {
            &&& is_word((#[trigger] attributes[i]).0)
            &&& forall|k: int| 0 <= k < attributes[i].1.len() ==> attributes[i].1[k] != '"'
        }
}

/// A run of text that one token holds: a word, or one of `>`, `/` and `=`.
pub open spec fn is_run(s: Seq<char>) -> bool {
    is_word(s) || s == seq!['>'] || s == seq!['/'] || s == seq!['=']
}

/// Every one of `runs` is a run of text.
pub open spec fn all_runs(runs: Seq<Seq<char>>) -> bool {
    forall|i: int| 0 <= i < runs.len() ==> is_run(#[trigger] runs[i])
}

/// `runs` in a row, with one space between each two.
pub open spec fn join_runs(runs: Seq<Seq<char>>) -> Seq<char>
    decreases runs.len(),
{
    if runs.len() == 0 {
        Seq::empty()
    } else if runs.len() == 1 {
        runs[0]
    } else {
        join_runs(runs.drop_last()) + seq![' '] + runs.last()
    }
}

/// A text that comes back as it is: runs with one space between each two,
/// or nothing.
pub open spec fn is_phrase(text: Seq<char>) -> bool {
    exists|runs: Seq<Seq<char>>| all_runs(runs) && join_runs(runs) == text
}

/// A tree whose names are tag names, whose texts are phrases and whose
/// attributes are plain, at every level.
pub open spec fn plain(e: ElementView) -> bool
    decreases e,
{
    &&& is_tag_name(e.name)
    &&& is_phrase(e.text_content)
    &&& plain_attributes(e.attributes)
    &&& forall|i: int| 0 <= i < e.children.len() ==> plain(#[trigger] e.children[i])
}

/// Made of white space only.
pub open spec fn is_blank(s: Seq<char>) -> bool {
    forall|i: int| 0 <= i < s.len() ==> spec_is_whitespace(#[trigger] s[i])
}

/// What the text of `e` holds behind its own text: the children, each one
/// level further to the right, and the closing tag.
pub open spec fn inside(e: ElementView, indent: nat, layout: Layout) -> Seq<char> {
    render_children(e, e.children.len(), indent + layout.indent_width, layout) + (spaces(indent)
        + closing_tag(e.name))
}

/// What the text of `e` holds behind the attributes.
pub open spec fn tail(e: ElementView, indent: nat, layout: Layout) -> Seq<char> {
    if e.children.len() == 0 && e.text_content.len() == 0 {
        if layout.autoclose {
            seq!['/', '>']
        } else {
            seq!['>'] + closing_tag(e.name)
        }
    } else {
        seq!['>'] + (layout.line_separator + (text_block(e, indent + layout.indent_width, layout)
            + inside(e, indent, layout)))
    }
}

/// The text of an element is the indentation, `<`, the name, the attributes
/// and the tail.
proof fn lemma_text_parts(e: ElementView, indent: nat, layout: Layout)
    ensures
        render(e, indent, layout) == spaces(indent) + seq!['<'] + e.name + render_attributes(
            e.attributes,
        ) + tail(e, indent, layout),
{
    assert(render(e, indent, layout) =~= spaces(indent) + seq!['<'] + e.name
        + render_attributes(e.attributes) + tail(e, indent, layout));
}

/// Where a blank text stands, every character is white space.
proof fn lemma_blank_at(data: Seq<char>, at: int, blank: Seq<char>)
    requires
        starts_with(data, at, blank),
        is_blank(blank),
    ensures
        forall|k: int| at <= k < at + blank.len() ==> spec_is_whitespace(#[trigger] data[k]),
{
    assert forall|k: int| at <= k < at + blank.len() implies spec_is_whitespace(
        #[trigger] data[k],
    ) by {
        lemma_starts_with_index(data, at, blank, k - at);
    }
}

/// `e` with only the first `count` of its attributes and without children.
pub open spec fn with_first_attributes(e: ElementView, count: int) -> ElementView {
    ElementView {
        name: e.name,
        text_content: Seq::empty(),
        attributes: e.attributes.take(count),
        children: Seq::empty(),
    }
}

/// The text of the first attributes stands where the text of all of them does.
proof fn lemma_attributes_prefix(data: Seq<char>, at: int, attributes: Entries, count: int)
    requires
        starts_with(data, at, render_attributes(attributes)),
        0 <= count <= attributes.len(),
    ensures
        starts_with(data, at, render_attributes(attributes.take(count))),
    decreases attributes.len() - count,
{
    if count == attributes.len() {
        assert(attributes.take(count) =~= attributes);
    } else {
        lemma_attributes_prefix(data, at, attributes, count + 1);
        let more = attributes.take(count + 1);
        assert(more.drop_last() =~= attributes.take(count));
        let before = render_attributes(attributes.take(count));
        let last = more.last();
        lemma_starts_with_split(
            data,
            at,
            before + seq![' '] + last.0 + seq!['=', '"'] + last.1,
            seq!['"'],
        );
        lemma_starts_with_split(data, at, before + seq![' '] + last.0 + seq!['=', '"'], last.1);
        lemma_starts_with_split(data, at, before + seq![' '] + last.0, seq!['=', '"']);
        lemma_starts_with_split(data, at, before + seq![' '], last.0);
        lemma_starts_with_split(data, at, before, seq![' ']);
    }
}

/// Reading one attribute: from behind the first `count` attributes the
/// parser gets behind the next with that attribute set.
proof fn lemma_attribute_step(data: Seq<char>, at: int, e: ElementView, count: int)
    requires
        plain_attributes(e.attributes),
        0 <= count < e.attributes.len(),
        starts_with(data, at, render_attributes(e.attributes.take(count + 1))),
        at + render_attributes(e.attributes.take(count + 1)).len() < data.len(),
    ensures
        parse_attributes(
            data,
            at + render_attributes(e.attributes.take(count)).len(),
            with_first_attributes(e, count),
        ) == parse_attributes(
            data,
            at + render_attributes(e.attributes.take(count + 1)).len(),
            with_first_attributes(e, count + 1),
        ),
{
    let more = e.attributes.take(count + 1);
    assert(more.drop_last() =~= e.attributes.take(count));
    let before = render_attributes(e.attributes.take(count));
    let key = e.attributes[count].0;
    let value = e.attributes[count].1;
    assert(more.last() == e.attributes[count]);
    lemma_starts_with_split(data, at, before + seq![' '] + key + seq!['=', '"'] + value, seq!['"']);
    lemma_starts_with_split(data, at, before + seq![' '] + key + seq!['=', '"'], value);
    lemma_starts_with_split(data, at, before + seq![' '] + key, seq!['=', '"']);
    lemma_starts_with_split(data, at, before + seq![' '], key);
    lemma_starts_with_split(data, at, before, seq![' ']);
    let space = at + before.len();
    lemma_starts_with_index(data, space, seq![' '], 0);
    let equals = space + 1 + key.len();
    lemma_starts_with_index(data, equals, seq!['=', '"'], 0);
    lemma_starts_with_index(data, equals, seq!['=', '"'], 1);
    let close = equals + 2 + value.len();
    lemma_starts_with_index(data, close, seq!['"'], 0);
    lemma_token_after_space(data, space);
    lemma_token_word(data, space + 1, key);
    lemma_token_symbol(data, equals);
    lemma_token_quoted(data, equals + 1, value);
    let acc = with_first_attributes(e, count);
    assert(next_token_at(data, space) == (TokenView::String(key), equals));
    assert(next_token_at(data, equals) == (TokenView::Equal, equals + 1));
    assert(next_token_at(data, equals + 1) == (TokenView::String(value), close + 1));
    assert(!has_key(acc.attributes, key)) by {
        lemma_key_index(acc.attributes, key);
        if has_key(acc.attributes, key) {
            let found = key_index(acc.attributes, key);
            assert(acc.attributes[found] == e.attributes[found]);
        }
    }
    assert(inserted(acc.attributes, key, value) =~= more);
    assert(acc.with_attr(key, value) == with_first_attributes(e, count + 1));
    assert(render_attributes(more).len() == before.len() + key.len() + value.len() + 4);
}

/// Reading the attributes: from behind the name the parser gets behind the
/// last attribute with all of them set.
proof fn lemma_attributes(data: Seq<char>, at: int, e: ElementView, count: int)
    requires
        plain_attributes(e.attributes),
        0 <= count <= e.attributes.len(),
        starts_with(data, at, render_attributes(e.attributes)),
        at + render_attributes(e.attributes).len() < data.len(),
    ensures
        parse_attributes(
            data,
            at + render_attributes(e.attributes.take(count)).len(),
            with_first_attributes(e, count),
        ) == parse_attributes(
            data,
            at + render_attributes(e.attributes).len(),
            with_first_attributes(e, e.attributes.len() as int),
        ),
    decreases e.attributes.len() - count,
{
    if count == e.attributes.len() {
        assert(e.attributes.take(count) =~= e.attributes);
    } else {
        lemma_attributes(data, at, e, count + 1);
        lemma_attributes_prefix(data, at, e.attributes, count + 1);
        lemma_attributes_prefix(data, at, e.attributes, e.attributes.len() as int);
        lemma_attributes_length(e.attributes, count + 1);
        lemma_attribute_step(data, at, e, count);
    }
}

/// The text of the first attributes is no longer than that of all of them.
proof fn lemma_attributes_length(attributes: Entries, count: int)
    requires
        0 <= count <= attributes.len(),
    ensures
        render_attributes(attributes.take(count)).len() <= render_attributes(attributes).len(),
    decreases attributes.len() - count,
{
    if count == attributes.len() {
        assert(attributes.take(count) =~= attributes);
    } else {
        lemma_attributes_length(attributes, count + 1);
        assert(attributes.take(count + 1).drop_last() =~= attributes.take(count));
    }
}

/// The text of attributes, where there is any, starts with a space.
proof fn lemma_attributes_start(attributes: Entries)
    ensures
        render_attributes(attributes).len() > 0 ==> render_attributes(attributes)[0] == ' ',
        attributes.len() > 0 ==> render_attributes(attributes).len() > 0,
    decreases attributes.len(),
{
    if attributes.len() > 0 {
        lemma_attributes_start(attributes.drop_last());
    }
}

/// `e` with only the first `count` of its children.
pub open spec fn with_first_children(e: ElementView, count: int) -> ElementView {
    ElementView { children: e.children.take(count), ..e }
}

/// `e` with only the first `count` of `runs` as its text and without
/// children.
pub open spec fn with_first_runs(e: ElementView, runs: Seq<Seq<char>>, count: int) -> ElementView {
    ElementView {
        name: e.name,
        text_content: join_runs(runs.take(count)),
        attributes: e.attributes,
        children: Seq::empty(),
    }
}

/// The first runs stand where all of them do.
proof fn lemma_runs_prefix(data: Seq<char>, at: int, runs: Seq<Seq<char>>, count: int)
    requires
        starts_with(data, at, join_runs(runs)),
        0 <= count <= runs.len(),
    ensures
        starts_with(data, at, join_runs(runs.take(count))),
    decreases runs.len() - count,
{
    if count == runs.len() {
        assert(runs.take(count) =~= runs);
    } else {
        lemma_runs_prefix(data, at, runs, count + 1);
        let more = runs.take(count + 1);
        assert(more.drop_last() =~= runs.take(count));
        if count == 0 {
            assert(join_runs(runs.take(0)) =~= Seq::empty());
            assert(data.subrange(at, at) =~= Seq::empty());
        } else {
            let before = join_runs(runs.take(count));
            lemma_starts_with_split(data, at, before + seq![' '], more.last());
            lemma_starts_with_split(data, at, before, seq![' ']);
        }
    }
}

/// Runs, where there are any, make a text that is not empty.
proof fn lemma_runs_length(runs: Seq<Seq<char>>)
    requires
        all_runs(runs),
        runs.len() > 0,
    ensures
        join_runs(runs).len() > 0,
{
    assert(is_run(runs.last()));
    assert(is_run(runs[0]));
}

/// The text of the first children stands where the text of all of them does.
proof fn lemma_children_prefix(
    data: Seq<char>,
    at: int,
    e: ElementView,
    count: int,
    indent: nat,
    layout: Layout,
)
    requires
        starts_with(data, at, render_children(e, e.children.len(), indent, layout)),
        0 <= count <= e.children.len(),
    ensures
        starts_with(data, at, render_children(e, count as nat, indent, layout)),
        render_children(e, count as nat, indent, layout).len() <= render_children(
            e,
            e.children.len(),
            indent,
            layout,
        ).len(),
    decreases e.children.len() - count,
{
    if count < e.children.len() {
        lemma_children_prefix(data, at, e, count + 1, indent, layout);
        let before = render_children(e, count as nat, indent, layout);
        let child = render(e.children[count], indent, layout);
        lemma_starts_with_split(data, at, before + child, layout.line_separator);
        lemma_starts_with_split(data, at, before, child);
    }
}

/// What stands behind the text of an element starts with a space or `<`.
proof fn lemma_inside_start(e: ElementView, indent: nat, layout: Layout, count: int)
    requires
        0 <= count <= e.children.len(),
    ensures
        ({
            let s = render_children(e, count as nat, indent + layout.indent_width, layout) + (
            spaces(indent) + closing_tag(e.name));
            s.len() > 0 && (s[0] == ' ' || s[0] == '<')
        }),
    decreases count,
{
    if count > 0 {
        lemma_inside_start(e, indent, layout, count - 1);
        lemma_text_parts(e.children[count - 1], indent + layout.indent_width, layout);
    }
}

/// Reading the text of `e`, which stands at `at` behind white space that
/// starts at `from`: from behind the first `count` runs, or from `from`
/// where `count` is 0, the parser reads the other runs and gets behind the
/// text with all of it set.
proof fn lemma_text(
    data: Seq<char>,
    from: int,
    at: int,
    e: ElementView,
    runs: Seq<Seq<char>>,
    count: int,
    indent: nat,
    layout: Layout,
)
    requires
        all_runs(runs),
        runs.len() > 0,
        join_runs(runs) == e.text_content,
        is_blank(layout.line_separator),
        0 <= count <= runs.len(),
        0 <= from <= at,
        forall|k: int| from <= k < at ==> spec_is_whitespace(#[trigger] data[k]),
        starts_with(data, at, e.text_content + (layout.line_separator + inside(e, indent, layout))),
    ensures
        parse_content(
            data,
            if count == 0 {
                from
            } else {
                at + join_runs(runs.take(count)).len()
            },
            with_first_runs(e, runs, count),
        ) == parse_content(data, at + e.text_content.len(), with_first_children(e, 0)),
    decreases runs.len() - count,
{
    let behind = layout.line_separator + inside(e, indent, layout);
    lemma_starts_with_split(data, at, e.text_content, behind);
    if count == runs.len() {
        assert(runs.take(count) =~= runs);
        assert(e.children.take(0) =~= Seq::empty());
        assert(with_first_runs(e, runs, count) == with_first_children(e, 0));
    } else {
        lemma_text(data, from, at, e, runs, count + 1, indent, layout);
        let acc = with_first_runs(e, runs, count);
        let run = runs[count];
        let more = runs.take(count + 1);
        assert(more.drop_last() =~= runs.take(count));
        assert(more.last() == run);
        assert(is_run(run));
        lemma_runs_prefix(data, at, runs, count + 1);
        let before = join_runs(runs.take(count));
        let here = if count == 0 {
            from
        } else {
            at + before.len()
        };
        let start = if count == 0 {
            at
        } else {
            at + before.len() + 1
        };
        if count == 0 {
            assert(before =~= Seq::empty());
            assert(more[0] == run);
            lemma_token_after_blank(data, from, at);
        } else {
            assert(all_runs(runs.take(count)));
            lemma_runs_length(runs.take(count));
            lemma_starts_with_split(data, at, before + seq![' '], run);
            lemma_starts_with_split(data, at, before, seq![' ']);
            lemma_starts_with_index(data, at + before.len(), seq![' '], 0);
            lemma_token_after_space(data, at + before.len());
        }
        assert(starts_with(data, start, run));
        let end = start + run.len();
        assert(end == at + join_runs(more).len());
        if count + 1 < runs.len() {
            lemma_runs_prefix(data, at, runs, count + 2);
            let longer = runs.take(count + 2);
            assert(longer.drop_last() =~= more);
            lemma_starts_with_split(data, at, join_runs(more) + seq![' '], longer.last());
            lemma_starts_with_split(data, at, join_runs(more), seq![' ']);
            lemma_starts_with_index(data, end, seq![' '], 0);
        } else {
            assert(more =~= runs);
            lemma_inside_start(e, indent, layout, e.children.len() as int);
            lemma_starts_with_index(data, end, behind, 0);
            if layout.line_separator.len() > 0 {
                assert(behind[0] == layout.line_separator[0]);
            }
        }
        lemma_starts_with_index(data, start, run, 0);
        if is_word(run) {
            lemma_token_word(data, start, run);
        } else {
            lemma_token_symbol(data, start);
        }
        let token = next_token_at(data, here);
        assert(token.1 == end);
        assert(token.0.text() =~= run);
        assert(!(token.0 is Eof) && !(token.0 is OpenLess));
        assert(with_more_text(acc, run) == with_first_runs(e, runs, count + 1)) by {
            assert(with_more_text(acc, run).text_content =~= join_runs(more));
        }
    }
}

/// Reading one child: where `<` is the next token, no `/` stands behind it
/// and an element without errors follows, the parser goes on behind that
/// element with the element as one more child.
proof fn lemma_child_step(
    data: Seq<char>,
    from: int,
    opened: int,
    acc: ElementView,
    child: ElementView,
    behind: int,
)
    requires
        0 <= from <= data.len(),
        next_token_at(data, from) == (TokenView::OpenLess, opened),
        0 <= opened < data.len(),
        data[opened] != '/',
        parse_element(data, opened, true) == (Parsed {
            element: child,
            index: behind,
            errors: Seq::empty(),
        }),
        from < behind <= data.len(),
    ensures
        parse_content(data, from, acc) == parse_content(data, behind, acc.with_child(child)),
{
    let read = parse_element(data, opened, true);
    let rest = parse_content(data, behind, acc.with_child(child));
    assert(rest.after(read.errors) == rest) by {
        assert(read.errors + rest.errors =~= rest.errors);
    }
}

/// Reading the content of `e` behind its text. The children and the closing
/// tag stand at `at`; the parser stands at `from`, in front of the child at
/// `count` or of the closing tag, with nothing but white space between. It
/// reads the other children and the closing tag, and ends with `e`.
proof fn lemma_content(
    data: Seq<char>,
    from: int,
    at: int,
    e: ElementView,
    count: int,
    indent: nat,
    layout: Layout,
)
    requires
        plain(e),
        is_blank(layout.line_separator),
        0 <= count <= e.children.len(),
        starts_with(data, at, inside(e, indent, layout)),
        0 <= from <= at + render_children(
            e,
            count as nat,
            indent + layout.indent_width,
            layout,
        ).len(),
        forall|k: int|
            from <= k < at + render_children(
                e,
                count as nat,
                indent + layout.indent_width,
                layout,
            ).len() ==> spec_is_whitespace(#[trigger] data[k]),
    ensures
        parse_content(data, from, with_first_children(e, count)) == (Parsed {
            element: e,
            index: at + inside(e, indent, layout).len(),
            errors: Seq::empty(),
        }),
    decreases e, e.children.len() - count,
{
    let inner = indent + layout.indent_width;
    let all = render_children(e, e.children.len(), inner, layout);
    let acc = with_first_children(e, count);
    let end = spaces(indent) + closing_tag(e.name);
    lemma_starts_with_split(data, at, all, end);
    let before = render_children(e, count as nat, inner, layout);
    lemma_children_prefix(data, at, e, count, inner, layout);
    let here = at + before.len();
    if count == e.children.len() {
        lemma_starts_with_split(data, here, spaces(indent), closing_tag(e.name));
        lemma_blank_at(data, here, spaces(indent));
        assert(e.children.take(count) =~= e.children);
        assert(acc == e);
        lemma_close(data, from, here + indent, e);
    } else {
        let child = e.children[count];
        let text = render(child, inner, layout);
        lemma_children_prefix(data, at, e, count + 1, inner, layout);
        lemma_starts_with_split(data, at, before + text, layout.line_separator);
        lemma_starts_with_split(data, at, before, text);
        lemma_element(data, here, child, inner, layout);
        lemma_token_after_blank(data, from, here);
        let behind = here + text.len();
        lemma_blank_at(data, behind, layout.line_separator);
        assert(render_children(e, (count + 1) as nat, inner, layout).len() == before.len()
            + text.len() + layout.line_separator.len());
        lemma_content(data, behind, at, e, count + 1, indent, layout);
        assert(acc.with_child(child).children =~= e.children.take(count + 1));
        assert(acc.with_child(child) == with_first_children(e, count + 1));
        lemma_child_step(data, from, here + inner + 1, acc, child, behind);
    }
}

/// Reading what stands behind the attributes of `e`: the parser ends with
/// `e`, behind its text.
proof fn lemma_tail(data: Seq<char>, at: int, e: ElementView, indent: nat, layout: Layout)
    requires
        plain(e),
        is_blank(layout.line_separator),
        starts_with(data, at, tail(e, indent, layout)),
    ensures
        parse_attributes(data, at, with_first_attributes(e, e.attributes.len() as int))
            == (Parsed {
            element: e,
            index: at + tail(e, indent, layout).len(),
            errors: Seq::empty(),
        }),
    decreases e, e.children.len() + 1,
{
    let rest = tail(e, indent, layout);
    let full = with_first_attributes(e, e.attributes.len() as int);
    assert(e.attributes.take(e.attributes.len() as int) =~= e.attributes);
    lemma_starts_with_index(data, at, rest, 0);
    lemma_token_symbol(data, at);
    if e.children.len() == 0 && e.text_content.len() == 0 {
        assert(e.children =~= Seq::empty());
        assert(e.text_content =~= Seq::empty());
        assert(full == e);
        if layout.autoclose {
            lemma_starts_with_index(data, at, rest, 1);
        } else {
            lemma_starts_with_split(data, at, seq!['>'], closing_tag(e.name));
            lemma_close(data, at + 1, at + 1, e);
            assert(next_token_at(data, at) == (TokenView::CloseGreater, at + 1));
        }
    } else {
        let inner = indent + layout.indent_width;
        let block = text_block(e, inner, layout);
        let within = inside(e, indent, layout);
        lemma_starts_with_split(data, at, seq!['>'], layout.line_separator + (block + within));
        lemma_starts_with_split(data, at + 1, layout.line_separator, block + within);
        lemma_blank_at(data, at + 1, layout.line_separator);
        let lines = at + 1 + layout.line_separator.len();
        lemma_starts_with_split(data, lines, block, within);
        assert(next_token_at(data, at) == (TokenView::CloseGreater, at + 1));
        assert(parse_attributes(data, at, full) == parse_content(data, at + 1, full));
        assert(render_children(e, 0, inner, layout).len() == 0);
        if e.text_content.len() == 0 {
            assert(e.text_content =~= Seq::empty());
            assert(e.children.take(0) =~= Seq::empty());
            assert(full == with_first_children(e, 0));
            lemma_content(data, at + 1, lines, e, 0, indent, layout);
        } else {
            let runs = choose|runs: Seq<Seq<char>>|
                all_runs(runs) && join_runs(runs) == e.text_content;
            assert(runs.len() > 0);
            assert(block =~= spaces(inner) + (e.text_content + layout.line_separator));
            lemma_starts_with_split(data, lines, spaces(inner), e.text_content
                + layout.line_separator);
            lemma_blank_at(data, lines, spaces(inner));
            let starts = lines + inner;
            lemma_starts_with_split(data, starts, e.text_content, layout.line_separator);
            let ends = starts + e.text_content.len();
            lemma_blank_at(data, ends, layout.line_separator);
            let whole = e.text_content + (layout.line_separator + within);
            assert(starts_with(data, starts, whole)) by {
                assert forall|k: int| 0 <= k < whole.len() implies data[starts + k]
                    == whole[k] by {
                    if k < e.text_content.len() {
                        lemma_starts_with_index(data, starts, e.text_content, k);
                    } else if k < e.text_content.len() + layout.line_separator.len() {
                        lemma_starts_with_index(
                            data,
                            ends,
                            layout.line_separator,
                            k - e.text_content.len(),
                        );
                    } else {
                        lemma_starts_with_index(
                            data,
                            lines + block.len(),
                            within,
                            k - e.text_content.len() - layout.line_separator.len(),
                        );
                    }
                }
                assert(data.subrange(starts, starts + whole.len()) =~= whole);
            }
            lemma_text(data, at + 1, starts, e, runs, 0, indent, layout);
            assert(runs.take(0) =~= Seq::empty());
            assert(full == with_first_runs(e, runs, 0));
            lemma_content(data, ends, lines + block.len(), e, 0, indent, layout);
        }
    }
}

/// Reading the closing tag of `e`, which stands at `at` behind white space
/// from `from` on: the parser ends with `e`.
proof fn lemma_close(data: Seq<char>, from: int, at: int, e: ElementView)
    requires
        is_tag_name(e.name),
        0 <= from <= at,
        forall|k: int| from <= k < at ==> spec_is_whitespace(#[trigger] data[k]),
        starts_with(data, at, closing_tag(e.name)),
    ensures
        parse_content(data, from, e) == (Parsed {
            element: e,
            index: at + closing_tag(e.name).len(),
            errors: Seq::empty(),
        }),
{
    lemma_token_after_blank(data, from, at);
    lemma_starts_with_split(data, at, seq!['<', '/'] + e.name, seq!['>']);
    lemma_starts_with_split(data, at, seq!['<', '/'], e.name);
    lemma_starts_with_index(data, at, seq!['<', '/'], 0);
    lemma_starts_with_index(data, at, seq!['<', '/'], 1);
    let close = at + 2 + e.name.len();
    lemma_starts_with_index(data, close, seq!['>'], 0);
    lemma_token_open(data, at);
    lemma_token_word(data, at + 2, e.name);
    lemma_token_symbol(data, close);
    assert(next_token_at(data, from) == (TokenView::OpenLess, at + 1));
    assert(read_closing_tag(data, at + 2, e) == (Parsed {
        element: e,
        index: close + 1,
        errors: Seq::empty(),
    }));
}

/// Reading the text of a plain tree gives the tree, and ends behind the
/// text, wherever in `data` the text stands and whether or not the `<` in
/// front has been read.
proof fn lemma_element(data: Seq<char>, at: int, e: ElementView, indent: nat, layout: Layout)
    requires
        plain(e),
        is_blank(layout.line_separator),
        starts_with(data, at, render(e, indent, layout)),
    ensures
        parse_element(data, at, false) == (Parsed {
            element: e,
            index: at + render(e, indent, layout).len(),
            errors: Seq::empty(),
        }),
        parse_element(data, at + indent + 1, true) == parse_element(data, at, false),
        next_token_at(data, at) == (TokenView::OpenLess, at + indent + 1),
        at + indent + 1 < data.len(),
        data[at + indent + 1] != '/',
        render(e, indent, layout).len() > indent + 1,
    decreases e, e.children.len() + 2,
{
    let attributes = render_attributes(e.attributes);
    let rest = tail(e, indent, layout);
    lemma_text_parts(e, indent, layout);
    lemma_starts_with_split(data, at, spaces(indent) + seq!['<'] + e.name + attributes, rest);
    lemma_starts_with_split(data, at, spaces(indent) + seq!['<'] + e.name, attributes);
    lemma_starts_with_split(data, at, spaces(indent) + seq!['<'], e.name);
    lemma_starts_with_split(data, at, spaces(indent), seq!['<']);
    lemma_blank_at(data, at, spaces(indent));
    let open = at + indent;
    lemma_starts_with_index(data, open, seq!['<'], 0);
    lemma_starts_with_index(data, open + 1, e.name, 0);
    let named = open + 1 + e.name.len();
    let set = named + attributes.len();
    lemma_starts_with_index(data, set, rest, 0);
    lemma_attributes_start(e.attributes);
    if attributes.len() > 0 {
        lemma_starts_with_index(data, named, attributes, 0);
    }
    lemma_token_after_blank(data, at, open);
    lemma_token_open(data, open);
    lemma_token_word(data, open + 1, e.name);
    assert(next_token_at(data, open + 1) == (TokenView::String(e.name), named));
    lemma_attributes(data, named, e, 0);
    assert(e.attributes.take(0) =~= Seq::empty());
    assert(with_first_attributes(e, 0) == ElementView::leaf(e.name));
    lemma_tail(data, set, e, indent, layout);
    let done = Parsed {
        element: e,
        index: at + render(e, indent, layout).len(),
        errors: Seq::empty(),
    };
    let read = parse_attributes(data, named, ElementView::leaf(e.name));
    assert(read == done);
    let none = Seq::<NxmlErrorView>::empty();
    assert(read.after(none + none) == done) by {
        assert((none + none) + read.errors =~= none);
    }
}

/// Strict parsing gives back a plain tree from its text, without an error,
/// and reads the text to its end, whatever the indentation and whether empty
/// elements are closed at once or not, as long as the line separator is
/// white space.
pub proof fn lemma_round_trip(e: ElementView, indent: nat, layout: Layout)
    requires
        plain(e),
        is_blank(layout.line_separator),
    ensures
        document(render(e, indent, layout)) == (Parsed {
            element: e,
            index: render(e, indent, layout).len() as int,
            errors: Seq::empty(),
        }),
{
    let text = render(e, indent, layout);
    assert(text.subrange(0, text.len() as int) =~= text);
    lemma_element(text, 0, e, indent, layout);
}

/// An element without attributes, text and children reads the same whether
/// it is written `<name/>` or `<name></name>`.
pub proof fn lemma_self_closing(name: Seq<char>)
    requires
        is_tag_name(name),
    ensures
        document(seq!['<'] + name + seq!['/', '>']).element == ElementView::leaf(name),
        document(seq!['<'] + name + seq!['/', '>']).errors.len() == 0,
        document(seq!['<'] + name + seq!['>', '<', '/'] + name + seq!['>']).element
            == ElementView::leaf(name),
        document(seq!['<'] + name + seq!['>', '<', '/'] + name + seq!['>']).errors.len() == 0,
{
    let e = ElementView::leaf(name);
    let closed = Layout { indent_width: 0, line_separator: Seq::empty(), autoclose: true };
    let open = Layout { indent_width: 0, line_separator: Seq::empty(), autoclose: false };
    assert(all_runs(Seq::empty()) && join_runs(Seq::empty()) == e.text_content);
    assert(plain(e));
    lemma_round_trip(e, 0, closed);
    lemma_round_trip(e, 0, open);
    assert(render(e, 0, closed) =~= seq!['<'] + name + seq!['/', '>']);
    assert(render(e, 0, open) =~= seq!['<'] + name + seq!['>', '<', '/'] + name + seq!['>']);
}

} // verus!
