//! The pretty-printer: an element tree as text.

use crate::attributes::{
    owned_entries, owned_map_get_index, owned_map_len, ref_entries, ref_map_get_index,
    ref_map_len, Entries,
};
use crate::element::{Element, ElementRef, ElementView};
use vstd::prelude::*;
use vstd::string::*;

verus! {

/// What the pretty-printer reads of an element, whichever form holds it.
pub trait ElementAccessor: Sized {
    /// The element as a mathematical value.
    spec fn model(&self) -> ElementView;

    fn name(&self) -> (s: &str)
        ensures
            s@ == self.model().name,
    ;

    fn attribute_count(&self) -> (n: usize)
        ensures
            n == self.model().attributes.len(),
    ;

    /// The attribute at `index`, name and value.
    fn attribute(&self, index: usize) -> (r: (&str, &str))
        requires
            index < self.model().attributes.len(),
        ensures
            (r.0@, r.1@) == self.model().attributes[index as int],
    ;

    fn children(&self) -> (c: &[Self])
        ensures
            c@.len() == self.model().children.len(),
            forall|i: int|
                0 <= i < c@.len() ==> (#[trigger] c@[i]).model() == self.model().children[i],
    ;

    fn text_content(&self) -> (s: &str)
        ensures
            s@ == self.model().text_content,
    ;
}

impl<'s> ElementAccessor for ElementRef<'s> {
    open spec fn model(&self) -> ElementView {
        self@
    }

    fn name(&self) -> (s: &str) {
        self.name
    }

    fn attribute_count(&self) -> (n: usize) {
        ref_map_len(&self.attributes)
    }

    fn attribute(&self, index: usize) -> (r: (&str, &str)) {
        match ref_map_get_index(&self.attributes, index) {
            Some(entry) => entry,
            None => vstd::pervasive::unreached(),
        }
    }

    fn children(&self) -> (c: &[Self]) {
        proof {
            self.lemma_view();
        }
        self.children.as_slice()
    }

    fn text_content(&self) -> (s: &str) {
        match &self.text_content {
            std::borrow::Cow::Borrowed(b) => b,
            std::borrow::Cow::Owned(o) => o.as_str(),
        }
    }
}

impl ElementAccessor for Element {
    open spec fn model(&self) -> ElementView {
        self@
    }

    fn name(&self) -> (s: &str) {
        self.name.as_str()
    }

    fn attribute_count(&self) -> (n: usize) {
        owned_map_len(&self.attributes)
    }

    fn attribute(&self, index: usize) -> (r: (&str, &str)) {
        match owned_map_get_index(&self.attributes, index) {
            Some(entry) => (entry.0.as_str(), entry.1.as_str()),
            None => vstd::pervasive::unreached(),
        }
    }

    fn children(&self) -> (c: &[Self]) {
        proof {
            self.lemma_view();
        }
        self.children.as_slice()
    }

    fn text_content(&self) -> (s: &str) {
        self.text_content.as_str()
    }
}

/// How the pretty-printer lays out its text.
pub ghost struct Layout {
    /// The number of spaces by which a child stands to the right of its parent.
    pub indent_width: nat,
    /// What is written behind an opening tag, a text and a child.
    pub line_separator: Seq<char>,
    /// Whether an element without text and children is written `<a/>`
    /// rather than `<a></a>`.
    pub autoclose: bool,
}

/// `count` spaces.
pub open spec fn spaces(count: nat) -> Seq<char> {
    Seq::new(count, |i: int| ' ')
}

/// The attributes as text: for each, a space, the name, `="`, the value, `"`.
pub open spec fn render_attributes(attributes: Entries) -> Seq<char>
    decreases attributes.len(),
{
    if attributes.len() == 0 {
        Seq::empty()
    } else {
        render_attributes(attributes.drop_last()) + seq![' '] + attributes.last().0
            + seq!['=', '"'] + attributes.last().1 + seq!['"']
    }
}

/// The opening tag up to its last attribute, `indent` spaces to the right.
pub open spec fn opening_tag(e: ElementView, indent: nat) -> Seq<char> {
    spaces(indent) + seq!['<'] + e.name + render_attributes(e.attributes)
}

/// The closing tag of an element named `name`.
pub open spec fn closing_tag(name: Seq<char>) -> Seq<char> {
    seq!['<', '/'] + name + seq!['>']
}

/// The text of `e` on a line of its own, or nothing where `e` has no text.
pub open spec fn text_block(e: ElementView, indent: nat, layout: Layout) -> Seq<char> {
    if e.text_content.len() == 0 {
        Seq::empty()
    } else {
        spaces(indent) + e.text_content + layout.line_separator
    }
}

/// The element as text, `indent` spaces to the right.
///
/// The opening tag holds the name and the attributes. An element without
/// text and children ends there, as `/>` or as `>` and its closing tag. Any
/// other is followed by the line separator, its text if it has one, its
/// children in order, each one level further to the right and followed by the
/// line separator, and its closing tag.
pub open spec fn render(e: ElementView, indent: nat, layout: Layout) -> Seq<char>
    decreases e, e.children.len() + 1,
{
    if e.children.len() == 0 && e.text_content.len() == 0 {
        if layout.autoclose {
            opening_tag(e, indent) + seq!['/', '>']
        } else {
            opening_tag(e, indent) + seq!['>'] + closing_tag(e.name)
        }
    } else {
        let inner = indent + layout.indent_width;
        opening_tag(e, indent) + seq!['>'] + layout.line_separator + text_block(e, inner, layout)
            + render_children(e, e.children.len(), inner, layout) + spaces(indent) + closing_tag(
            e.name,
        )
    }
}

/// The first `count` children of `e` as text, each followed by the line
/// separator.
pub open spec fn render_children(e: ElementView, count: nat, indent: nat, layout: Layout) -> Seq<
    char,
>
    decreases e, count,
{
    if count == 0 || count > e.children.len() {
        Seq::empty()
    } else {
        render_children(e, (count - 1) as nat, indent, layout) + render(
            e.children[count - 1],
            indent,
            layout,
        ) + layout.line_separator
    }
}

/// No child indents more than the deepest of those before and at it.
pub proof fn lemma_levels_of_first(e: ElementView, count: nat, i: int)
    requires
        0 <= i < count <= e.children.len(),
    ensures
        e.children[i].levels() <= e.levels_of_first(count),
        e.levels_of_first(count) <= e.levels_of_first(e.children.len()),
        e.levels() == 1 + e.levels_of_first(e.children.len()),
    decreases count,
{
    if i < count - 1 {
        lemma_levels_of_first(e, (count - 1) as nat, i);
    }
    lemma_levels_monotone(e, count, e.children.len());
}

proof fn lemma_levels_monotone(e: ElementView, low: nat, high: nat)
    requires
        low <= high <= e.children.len(),
    ensures
        e.levels_of_first(low) <= e.levels_of_first(high),
    decreases high - low,
{
    if low < high {
        lemma_levels_monotone(e, low, (high - 1) as nat);
    }
}

/// A pretty-printer for one element, with its layout.
#[derive(Debug)]
pub struct PrettyDisplay<'a, E> {
    element: &'a E,
    indent_width: usize,
    line_separator: &'a str,
    autoclose: bool,
}

fn push_spaces(w: &mut String, count: usize)
    ensures
        final(w)@ == old(w)@ + spaces(count as nat),
{
    proof {
        reveal_strlit(" ");
    }
    let mut i: usize = 0;
    assert(w@ =~= old(w)@ + spaces(0));
    while i < count
        invariant
            i <= count,
            " "@.len() == 1,
            " "@[0] == ' ',
            w@ == old(w)@ + spaces(i as nat),
        decreases count - i,
    {
        w.append(" ");
        assert(w@ =~= old(w)@ + spaces((i + 1) as nat));
        i += 1;
    }
}

impl<'a, E> PrettyDisplay<'a, E> {
    /// The element that is printed.
    pub closed spec fn element(&self) -> E {
        *self.element
    }

    pub closed spec fn layout(&self) -> Layout {
        Layout {
            indent_width: self.indent_width as nat,
            line_separator: self.line_separator@,
            autoclose: self.autoclose,
        }
    }

    /// A printer for `element` that indents by four spaces, ends lines with
    /// a line feed and closes empty elements at once.
    fn new(element: &'a E) -> (d: Self)
        ensures
            d.element() == *element,
            d.layout() == (Layout { indent_width: 4, line_separator: seq!['\n'], autoclose: true }),
    {
        proof {
            reveal_strlit("\n");
            assert("\n"@ =~= seq!['\n']);
        }
        PrettyDisplay { element, indent_width: 4, line_separator: "\n", autoclose: true }
    }

    /// Sets the number of spaces per level.
    pub fn indent_width(self, indent_width: usize) -> (d: Self)
        ensures
            d.element() == self.element(),
            d.layout() == (Layout { indent_width: indent_width as nat, ..self.layout() }),
    {
        let mut d = self;
        d.indent_width = indent_width;
        d
    }

    /// Sets the line separator.
    pub fn line_separator(self, line_separator: &'a str) -> (d: Self)
        ensures
            d.element() == self.element(),
            d.layout() == (Layout { line_separator: line_separator@, ..self.layout() }),
    {
        let mut d = self;
        d.line_separator = line_separator;
        d
    }

    /// No line separator and no indentation.
    pub fn compact(self) -> (d: Self)
        ensures
            d.element() == self.element(),
            d.layout() == (Layout {
                indent_width: 0,
                line_separator: Seq::empty(),
                ..self.layout()
            }),
    {
        proof {
            reveal_strlit("");
            assert(""@ =~= Seq::<char>::empty());
        }
        let mut d = self;
        d.line_separator = "";
        d.indent_width = 0;
        d
    }

    /// Writes an empty element as `<a></a>`.
    pub fn no_autoclose(self) -> (d: Self)
        ensures
            d.element() == self.element(),
            d.layout() == (Layout { autoclose: false, ..self.layout() }),
    {
        let mut d = self;
        d.autoclose = false;
        d
    }
}

/// Appends the attributes of `element` to `w`.
fn write_attributes<E: ElementAccessor>(w: &mut String, element: &E)
    ensures
        final(w)@ == old(w)@ + render_attributes(element.model().attributes),
{
    let ghost attributes = element.model().attributes;
    proof {
        reveal_strlit(" ");
        reveal_strlit("=\"");
        reveal_strlit("\"");
    }
    let count = element.attribute_count();
    let mut i: usize = 0;
    assert(attributes.take(0) =~= Seq::empty());
    assert(w@ =~= old(w)@ + render_attributes(attributes.take(0)));
    while i < count
        invariant
            i <= count,
            count == attributes.len(),
            attributes == element.model().attributes,
            " "@ =~= seq![' '],
            "=\""@ =~= seq!['=', '"'],
            "\""@ =~= seq!['"'],
            w@ == old(w)@ + render_attributes(attributes.take(i as int)),
        decreases count - i,
    {
        let (key, value) = element.attribute(i);
        let ghost before = w@;
        w.append(" ");
        w.append(key);
        w.append("=\"");
        w.append(value);
        w.append("\"");
        proof {
            let upto = attributes.take(i + 1);
            assert(upto.drop_last() =~= attributes.take(i as int));
            assert(upto.last() == attributes[i as int]);
            let added = seq![' '] + key@ + seq!['=', '"'] + value@ + seq!['"'];
            assert(w@ =~= before + added);
            assert(render_attributes(upto) =~= render_attributes(attributes.take(i as int))
                + added);
            assert(w@ =~= old(w)@ + render_attributes(upto));
        }
        i += 1;
    }
    assert(attributes.take(count as int) =~= attributes);
}

/// Appends the closing tag of an element named `name`.
fn write_closing_tag(w: &mut String, name: &str)
    ensures
        final(w)@ == old(w)@ + closing_tag(name@),
{
    proof {
        reveal_strlit("</");
        reveal_strlit(">");
    }
    w.append("</");
    w.append(name);
    w.append(">");
    assert(w@ =~= old(w)@ + closing_tag(name@));
}

/// Appends the opening tag of `element` up to its last attribute.
fn write_opening_tag<E: ElementAccessor>(w: &mut String, element: &E, indent: usize)
    ensures
        final(w)@ == old(w)@ + opening_tag(element.model(), indent as nat),
{
    proof {
        reveal_strlit("<");
    }
    push_spaces(w, indent);
    w.append("<");
    w.append(element.name());
    write_attributes(w, element);
    assert(w@ =~= old(w)@ + opening_tag(element.model(), indent as nat));
}

impl<'a, E: ElementAccessor> PrettyDisplay<'a, E> {
    /// Appends the text of `element` on a line of its own, if it has a text.
    fn write_text_block(&self, w: &mut String, element: &E, indent: usize)
        ensures
            final(w)@ == old(w)@ + text_block(element.model(), indent as nat, self.layout()),
    {
        let text_content = element.text_content();
        if text_content.unicode_len() != 0 {
            push_spaces(w, indent);
            w.append(text_content);
            w.append(self.line_separator);
            assert(w@ =~= old(w)@ + text_block(element.model(), indent as nat, self.layout()));
        } else {
            assert(w@ =~= old(w)@ + text_block(element.model(), indent as nat, self.layout()));
        }
    }

    /// Appends `element` to `w`, `indent` spaces to the right.
    pub fn write(&self, w: &mut String, element: &E, indent: usize)
        requires
            indent + self.layout().indent_width * element.model().levels() <= usize::MAX,
        ensures
            final(w)@ == old(w)@ + render(element.model(), indent as nat, self.layout()),
        decreases element.model(), 1nat,
    {
        let ghost e = element.model();
        let ghost layout = self.layout();
        proof {
            reveal_strlit("/>");
            reveal_strlit(">");
            assert("/>"@ =~= seq!['/', '>']);
            assert(">"@ =~= seq!['>']);
        }
        write_opening_tag(w, element, indent);
        let ghost opening = opening_tag(e, indent as nat);
        if element.children().len() == 0 && element.text_content().unicode_len() == 0 {
            if self.autoclose {
                w.append("/>");
                assert(w@ == old(w)@ + opening + seq!['/', '>']);
                assert(w@ =~= old(w)@ + (opening + seq!['/', '>']));
            } else {
                w.append(">");
                write_closing_tag(w, element.name());
                assert(w@ == old(w)@ + opening + seq!['>'] + closing_tag(e.name));
                assert(w@ =~= old(w)@ + (opening + seq!['>'] + closing_tag(e.name)));
            }
            return ;
        }
        let ghost most = e.levels_of_first(e.children.len());
        assert(indent + self.indent_width + layout.indent_width * most <= usize::MAX)
            by (nonlinear_arith)
            requires
                indent + layout.indent_width * e.levels() <= usize::MAX,
                e.levels() == 1 + most,
                layout.indent_width == self.indent_width,
        ;
        let inner = indent + self.indent_width;
        w.append(">");
        w.append(self.line_separator);
        self.write_text_block(w, element, inner);
        self.write_children(w, element, inner);
        push_spaces(w, indent);
        write_closing_tag(w, element.name());
        proof {
            let text = text_block(e, inner as nat, layout);
            let inside = render_children(e, e.children.len(), inner as nat, layout);
            assert(w@ == old(w)@ + opening + seq!['>'] + layout.line_separator + text + inside
                + spaces(indent as nat) + closing_tag(e.name));
            assert(w@ =~= old(w)@ + (opening + seq!['>'] + layout.line_separator + text + inside
                + spaces(indent as nat) + closing_tag(e.name)));
        }
    }

    /// Appends the children of `element` to `w`, each `indent` spaces to the
    /// right and followed by the line separator.
    fn write_children(&self, w: &mut String, element: &E, indent: usize)
        requires
            indent + self.layout().indent_width * element.model().levels_of_first(
                element.model().children.len(),
            ) <= usize::MAX,
        ensures
            final(w)@ == old(w)@ + render_children(
                element.model(),
                element.model().children.len(),
                indent as nat,
                self.layout(),
            ),
        decreases element.model(), 0nat,
    {
        let ghost e = element.model();
        let ghost layout = self.layout();
        let children = element.children();
        let mut j: usize = 0;
        assert(w@ =~= old(w)@ + render_children(e, 0, indent as nat, layout));
        while j < children.len()
            invariant
                j <= children.len(),
                e == element.model(),
                layout == self.layout(),
                indent + layout.indent_width * e.levels_of_first(e.children.len()) <= usize::MAX,
                children@.len() == e.children.len(),
                forall|i: int|
                    0 <= i < children@.len() ==> (#[trigger] children@[i]).model()
                        == e.children[i],
                w@ == old(w)@ + render_children(e, j as nat, indent as nat, layout),
            decreases children.len() - j,
        {
            let ghost before = w@;
            let ghost child = e.children[j as int];
            proof {
                lemma_levels_of_first(e, e.children.len(), j as int);
                let most = e.levels_of_first(e.children.len());
                assert(indent + layout.indent_width * child.levels() <= usize::MAX)
                    by (nonlinear_arith)
                    requires
                        indent + layout.indent_width * most <= usize::MAX,
                        child.levels() <= most,
                ;
            }
            self.write(w, &children[j], indent);
            w.append(self.line_separator);
            proof {
                let added = render(child, indent as nat, layout) + layout.line_separator;
                assert(w@ =~= before + added);
                assert(render_children(e, (j + 1) as nat, indent as nat, layout)
                    =~= render_children(e, j as nat, indent as nat, layout) + added);
            }
            j += 1;
        }
    }

    /// The element as text.
    pub fn to_string(&self) -> (s: String)
        requires
            self.layout().indent_width * self.element().model().levels() <= usize::MAX,
        ensures
            s@ == render(self.element().model(), 0, self.layout()),
    {
        let mut s = String::new();
        self.write(&mut s, self.element, 0);
        assert(s@ =~= render(self.element().model(), 0, self.layout()));
        s
    }
}

impl<'s> ElementRef<'s> {
    /// A pretty-printer for this element.
    pub fn display(&self) -> (d: PrettyDisplay<'_, Self>)
        ensures
            d.element() == *self,
            d.layout() == (Layout { indent_width: 4, line_separator: seq!['\n'], autoclose: true }),
    {
        PrettyDisplay::new(self)
    }

    /// The element as text on one line, without indentation.
    pub fn to_string(&self) -> (s: String)
        ensures
            s@ == render(
                self@,
                0,
                Layout { indent_width: 0, line_separator: Seq::empty(), autoclose: true },
            ),
    {
        let d = self.display().compact();
        assert(d.layout().indent_width * d.element().model().levels() == 0) by (nonlinear_arith)
            requires
                d.layout().indent_width == 0,
        ;
        d.to_string()
    }
}

impl Element {
    /// A pretty-printer for this element.
    pub fn display(&self) -> (d: PrettyDisplay<'_, Self>)
        ensures
            d.element() == *self,
            d.layout() == (Layout { indent_width: 4, line_separator: seq!['\n'], autoclose: true }),
    {
        PrettyDisplay::new(self)
    }

    /// The element as text on one line, without indentation.
    pub fn to_string(&self) -> (s: String)
        ensures
            s@ == render(
                self@,
                0,
                Layout { indent_width: 0, line_separator: Seq::empty(), autoclose: true },
            ),
    {
        let d = self.display().compact();
        assert(d.layout().indent_width * d.element().model().levels() == 0) by (nonlinear_arith)
            requires
                d.layout().indent_width == 0,
        ;
        d.to_string()
    }
}

} // verus!
