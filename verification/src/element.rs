//! The element tree, in a borrowing and in an owned form.

use crate::attributes::{
    distinct_keys, has_key, inserted, key_index, lemma_inserted, lemma_key_index, lemma_removed,
    lookup, owned_entries,
    owned_map_clone, owned_map_get, owned_map_get_index, owned_map_insert, owned_map_len, owned_map_new,
    owned_map_shift_remove, ref_entries, ref_map_clone, ref_map_get, ref_map_get_index, ref_map_insert,
    ref_map_len, ref_map_new, ref_map_shift_remove, removed, str_eq, Entries,
};
use indexmap::IndexMap;
use std::borrow::Cow;
use vstd::prelude::*;
use vstd::string::*;

verus! {

/// What an element is, whichever form holds it: a name, a text, attributes
/// in order, and children in order.
pub ghost struct ElementView {
    pub name: Seq<char>,
    pub text_content: Seq<char>,
    pub attributes: Entries,
    pub children: Seq<ElementView>,
}

impl ElementView {
    /// An element with a name and nothing else.
    pub open spec fn leaf(name: Seq<char>) -> ElementView {
        ElementView {
            name,
            text_content: Seq::empty(),
            attributes: Seq::empty(),
            children: Seq::empty(),
        }
    }

    pub open spec fn with_attr(self, key: Seq<char>, value: Seq<char>) -> ElementView {
        ElementView { attributes: inserted(self.attributes, key, value), ..self }
    }

    pub open spec fn without_attr(self, key: Seq<char>) -> ElementView {
        ElementView { attributes: removed(self.attributes, key), ..self }
    }

    pub open spec fn with_text(self, text: Seq<char>) -> ElementView {
        ElementView { text_content: text, ..self }
    }

    pub open spec fn with_child(self, child: ElementView) -> ElementView {
        ElementView { children: self.children.push(child), ..self }
    }

    /// No element of the tree has two attributes of one name.
    pub open spec fn wf(self) -> bool
        decreases self,
    {
        &&& distinct_keys(self.attributes)
        &&& forall|i: int| 0 <= i < self.children.len() ==> (#[trigger] self.children[i]).wf()
    }

    /// The children named `name`, in order.
    pub open spec fn children_named(self, name: Seq<char>) -> Seq<ElementView> {
        self.children.filter(|c: ElementView| c.name == name)
    }

    /// How many times the pretty-printer indents below this element: none
    /// for an element without text and children, else once more than below
    /// its deepest child.
    pub open spec fn levels(self) -> nat
        decreases self, self.children.len() + 1,
    {
        if self.children.len() == 0 && self.text_content.len() == 0 {
            0
        } else {
            1 + self.levels_of_first(self.children.len())
        }
    }

    /// The greatest `levels` among the first `count` children.
    pub open spec fn levels_of_first(self, count: nat) -> nat
        decreases self, count,
    {
        if count == 0 || count > self.children.len() {
            0
        } else {
            let rest = self.levels_of_first((count - 1) as nat);
            let last = self.children[count - 1].levels();
            if last > rest {
                last
            } else {
                rest
            }
        }
    }
}

/// A new element has no two attributes of one name.
pub proof fn lemma_leaf_wf(name: Seq<char>)
    ensures
        ElementView::leaf(name).wf(),
{
}

/// Setting an attribute leaves no two attributes of one name; the attribute
/// then has the value, and the number of attributes grows by one only where
/// the name is new.
pub proof fn lemma_with_attr_wf(e: ElementView, key: Seq<char>, value: Seq<char>)
    requires
        e.wf(),
    ensures
        e.with_attr(key, value).wf(),
        lookup(e.with_attr(key, value).attributes, key) == Some(value),
        e.with_attr(key, value).attributes.len() == if has_key(e.attributes, key) {
            e.attributes.len()
        } else {
            e.attributes.len() + 1
        },
{
    lemma_inserted(e.attributes, key, value);
    assert forall|i: int| 0 <= i < e.children.len() implies (#[trigger] e.with_attr(
        key,
        value,
    ).children[i]).wf() by {
        assert(e.children[i].wf());
    }
}

/// Removing an attribute leaves no two attributes of one name, and none of
/// the name removed.
pub proof fn lemma_without_attr_wf(e: ElementView, key: Seq<char>)
    requires
        e.wf(),
    ensures
        e.without_attr(key).wf(),
        lookup(e.without_attr(key).attributes, key) is None,
{
    lemma_removed(e.attributes, key);
    assert forall|i: int| 0 <= i < e.children.len() implies (#[trigger] e.without_attr(
        key,
    ).children[i]).wf() by {
        assert(e.children[i].wf());
    }
}

/// A new text and a new child leave no two attributes of one name, where
/// the child has none; the children before keep their places, and the new
/// one is last.
pub proof fn lemma_with_child_wf(e: ElementView, text: Seq<char>, child: ElementView)
    requires
        e.wf(),
        child.wf(),
    ensures
        e.with_text(text).wf(),
        e.with_child(child).wf(),
        e.with_child(child).children.len() == e.children.len() + 1,
        e.with_child(child).children.last() == child,
        forall|i: int|
            0 <= i < e.children.len() ==> e.with_child(child).children[i] == e.children[i],
{
    assert forall|i: int| 0 <= i < e.children.len() implies (#[trigger] e.with_text(
        text,
    ).children[i]).wf() by {
        assert(e.children[i].wf());
    }
    assert forall|i: int| 0 <= i < e.children.len() + 1 implies (#[trigger] e.with_child(
        child,
    ).children[i]).wf() by {
        if i < e.children.len() {
            assert(e.children[i].wf());
        }
    }
}

/// The index of the first of `children` named `name`, or their number where
/// none has that name.
pub open spec fn child_index(children: Seq<ElementView>, name: Seq<char>) -> int
    decreases children.len(),
{
    if children.len() == 0 {
        0
    } else {
        let before = child_index(children.drop_last(), name);
        if before < children.len() - 1 {
            before
        } else if children.last().name == name {
            children.len() - 1
        } else {
            children.len() as int
        }
    }
}

/// `child_index` is the least index of a child named `name`.
pub proof fn lemma_child_index(children: Seq<ElementView>, name: Seq<char>)
    ensures
        0 <= child_index(children, name) <= children.len(),
        child_index(children, name) < children.len() ==> children[child_index(
            children,
            name,
        )].name == name,
        forall|i: int|
            0 <= i < child_index(children, name) ==> (#[trigger] children[i]).name != name,
    decreases children.len(),
{
    if children.len() > 0 {
        let front = children.drop_last();
        lemma_child_index(front, name);
        assert forall|i: int| 0 <= i < child_index(children, name) implies (
        #[trigger] children[i]).name != name by {
            if i < front.len() {
                assert(front[i] == children[i]);
            }
        }
        if child_index(front, name) < front.len() {
            assert(front[child_index(front, name)] == children[child_index(front, name)]);
        }
    }
}

/// An element whose strings borrow from the text it was read from.
#[derive(Debug, PartialEq, Eq)]
pub struct ElementRef<'s> {
    /// The name of the element, `Entity` in `<Entity />`.
    pub name: &'s str,
    /// The text between the tags; empty where there is none.
    pub text_content: Cow<'s, str>,
    /// The attributes, `key="value"` in `<Entity key="value" />`.
    pub attributes: IndexMap<&'s str, &'s str>,
    /// The elements between the tags, in order.
    pub children: Vec<ElementRef<'s>>,
}

/// An element that owns its strings.
#[derive(Debug, PartialEq, Eq)]
pub struct Element {
    /// The name of the element, `Entity` in `<Entity />`.
    pub name: String,
    /// The text between the tags; empty where there is none.
    pub text_content: String,
    /// The attributes, `key="value"` in `<Entity key="value" />`.
    pub attributes: IndexMap<String, String>,
    /// The elements between the tags, in order.
    pub children: Vec<Element>,
}

/// Marks a request for the text of an element, where a name would ask for an
/// attribute.
#[derive(Debug)]
pub struct Text;

/// What a borrowing element holds, children included.
pub open spec fn ref_view(e: ElementRef) -> ElementView
    decreases e,
{
    ElementView {
        name: e.name@,
        text_content: e.text_content@,
        attributes: ref_entries(e.attributes),
        children: Seq::new(
            e.children@.len(),
            |i: int|
                if 0 <= i < e.children@.len() {
                    ref_view(e.children@[i])
                } else {
                    arbitrary()
                },
        ),
    }
}

/// What an owned element holds, children included.
pub open spec fn owned_view(e: Element) -> ElementView
    decreases e,
{
    ElementView {
        name: e.name@,
        text_content: e.text_content@,
        attributes: owned_entries(e.attributes),
        children: Seq::new(
            e.children@.len(),
            |i: int|
                if 0 <= i < e.children@.len() {
                    owned_view(e.children@[i])
                } else {
                    arbitrary()
                },
        ),
    }
}

impl<'s> View for ElementRef<'s> {
    type V = ElementView;

    open spec fn view(&self) -> ElementView {
        ref_view(*self)
    }
}

impl View for Element {
    type V = ElementView;

    open spec fn view(&self) -> ElementView {
        owned_view(*self)
    }
}

/// The views of `children`, in order.
pub open spec fn ref_views<'s>(children: Seq<&ElementRef<'s>>) -> Seq<ElementView> {
    Seq::new(children.len(), |i: int| children[i]@)
}

/// The views of `children`, in order.
pub open spec fn owned_views(children: Seq<&Element>) -> Seq<ElementView> {
    Seq::new(children.len(), |i: int| children[i]@)
}

fn cow_to_string(text: &Cow<'_, str>) -> (s: String)
    ensures
        s@ == text@,
{
    match text {
        Cow::Borrowed(b) => (*b).to_owned(),
        Cow::Owned(o) => o.clone(),
    }
}

impl<'s> ElementRef<'s> {
    /// The view of an element holds the views of its children.
    pub proof fn lemma_view(&self)
        ensures
            self@.name == self.name@,
            self@.text_content == self.text_content@,
            self@.attributes == ref_entries(self.attributes),
            self@.children.len() == self.children@.len(),
            forall|i: int|
                0 <= i < self.children@.len() ==> self@.children[i] == (
                #[trigger] self.children@[i])@,
    {
    }

    /// An element named `name`, with no text, attributes or children.
    pub fn new(name: &'s str) -> (e: Self)
        ensures
            e@ == ElementView::leaf(name@),
    {
        proof {
            reveal_strlit("");
        }
        let e = ElementRef {
            name,
            attributes: ref_map_new(),
            children: Vec::new(),
            text_content: Cow::Borrowed(""),
        };
        assert(e@.children =~= Seq::empty());
        assert(e@.text_content =~= Seq::empty());
        e
    }

    /// A copy of the tree that owns every string.
    pub fn to_owned(&self) -> (e: Element)
        requires
            self@.wf(),
        ensures
            e@ == self@,
        decreases self,
    {
        let mut attributes = owned_map_new();
        let count = ref_map_len(&self.attributes);
        let mut i: usize = 0;
        while i < count
            invariant
                i <= count,
                count == ref_entries(self.attributes).len(),
                distinct_keys(ref_entries(self.attributes)),
                owned_entries(attributes) == ref_entries(self.attributes).take(i as int),
            decreases count - i,
        {
            let ghost before = owned_entries(attributes);
            if let Some((k, v)) = ref_map_get_index(&self.attributes, i) {
                owned_map_insert(&mut attributes, k.to_owned(), v.to_owned());
                proof {
                    let all = ref_entries(self.attributes);
                    lemma_key_index(before, k@);
                    if has_key(before, k@) {
                        assert(before[key_index(before, k@)] == all[key_index(before, k@)]);
                    }
                    assert(owned_entries(attributes) =~= all.take(i + 1));
                }
            }
            i += 1;
        }
        assert(ref_entries(self.attributes).take(count as int) =~= ref_entries(self.attributes));
        let mut children: Vec<Element> = Vec::new();
        let mut j: usize = 0;
        while j < self.children.len()
            invariant
                j <= self.children.len(),
                self@.wf(),
                children@.len() == j,
                forall|k: int| 0 <= k < j ==> (#[trigger] children@[k])@ == self.children@[k]@,
            decreases self.children.len() - j,
        {
            assert(self@.children[j as int] == self.children@[j as int]@);
            assert(self@.children[j as int].wf());
            let child = self.children[j].to_owned();
            children.push(child);
            j += 1;
        }
        let e = Element {
            name: self.name.to_owned(),
            attributes,
            children,
            text_content: cow_to_string(&self.text_content),
        };
        assert(e@.children =~= self@.children);
        e
    }

    /// The value of the attribute named `key`.
    pub fn attr(&self, key: &str) -> (r: Option<&str>)
        ensures
            match r {
                Some(v) => lookup(self@.attributes, key@) == Some(v@),
                None => lookup(self@.attributes, key@) is None,
            },
    {
        ref_map_get(&self.attributes, key)
    }

    /// The first child named `name`.
    pub fn child(&self, name: &str) -> (r: Option<&Self>)
        ensures
            match r {
                Some(c) => child_index(self@.children, name@) < self@.children.len() && *c
                    == self.children@[child_index(self@.children, name@)],
                None => child_index(self@.children, name@) == self@.children.len(),
            },
    {
        proof {
            lemma_child_index(self@.children, name@);
        }
        let mut i: usize = 0;
        while i < self.children.len()
            invariant
                i <= self.children.len(),
                forall|k: int| 0 <= k < i ==> (#[trigger] self@.children[k]).name != name@,
            decreases self.children.len() - i,
        {
            if str_eq(self.children[i].name, name) {
                proof {
                    lemma_child_index(self@.children, name@);
                    let first = child_index(self@.children, name@);
                    assert(self@.children[i as int] == self.children@[i as int]@);
                    if first < i {
                        assert(self@.children[first].name != name@);
                    }
                    if first > i {
                        assert(self@.children[i as int].name != name@);
                    }
                }
                return Some(&self.children[i]);
            }
            assert(self@.children[i as int] == self.children@[i as int]@);
            i += 1;
        }
        None
    }

    /// The first child named `name`, to change it. What the child is left as
    /// stands in its place afterwards; nothing else changes.
    pub fn child_mut(&mut self, name: &str) -> (r: Option<&mut Self>)
        ensures
            match r {
                Some(c) => {
                    let at = child_index(old(self)@.children, name@);
                    &&& at < old(self).children@.len()
                    &&& *c == old(self).children@[at]
                    &&& final(self).children@ == old(self).children@.update(at, *final(c))
                    &&& final(self).name == old(self).name
                    &&& final(self).text_content == old(self).text_content
                    &&& final(self).attributes == old(self).attributes
                },
                None => child_index(old(self)@.children, name@) == old(self)@.children.len()
                    && final(self)@ == old(self)@,
            },
    {
        let mut i: usize = 0;
        while i < self.children.len()
            invariant
                i <= self.children.len(),
                *self == *old(self),
                forall|k: int| 0 <= k < i ==> (#[trigger] self@.children[k]).name != name@,
            decreases self.children.len() - i,
        {
            if str_eq(self.children[i].name, name) {
                proof {
                    lemma_child_index(self@.children, name@);
                    let first = child_index(self@.children, name@);
                    assert(self@.children[i as int] == self.children@[i as int]@);
                    if first < i {
                        assert(self@.children[first].name != name@);
                    }
                    if first > i {
                        assert(self@.children[i as int].name != name@);
                    }
                }
                return Some(&mut self.children[i]);
            }
            assert(self@.children[i as int] == self.children@[i as int]@);
            i += 1;
        }
        proof {
            lemma_child_index(self@.children, name@);
        }
        None
    }

    /// The children named `name`, in order.
    pub fn children(&self, name: &str) -> (r: Vec<&Self>)
        ensures
            ref_views(r@) == self@.children_named(name@),
    {
        let mut found: Vec<&Self> = Vec::new();
        let mut i: usize = 0;
        let ghost pred = |c: ElementView| c.name == name@;
        assert(self@.children.take(0) =~= Seq::empty());
        assert(ref_views(found@) =~= self@.children.take(0).filter(pred));
        while i < self.children.len()
            invariant
                i <= self.children.len(),
                pred == (|c: ElementView| c.name == name@),
                ref_views(found@) == self@.children.take(i as int).filter(pred),
            decreases self.children.len() - i,
        {
            let ghost before = ref_views(found@);
            assert(self@.children[i as int] == self.children@[i as int]@);
            if str_eq(self.children[i].name, name) {
                found.push(&self.children[i]);
            }
            proof {
                let head = self@.children.take(i as int);
                let one = seq![self@.children[i as int]];
                assert(self@.children.take(i + 1) =~= head + one);
                Seq::filter_distributes_over_add(head, one, pred);
                reveal_with_fuel(Seq::filter, 2);
                assert(one.drop_last() =~= Seq::empty());
                assert(one.filter(pred) =~= if pred(one[0]) {
                    one
                } else {
                    Seq::empty()
                });
                assert(ref_views(found@) =~= before + one.filter(pred));
            }
            i += 1;
        }
        assert(self@.children.take(i as int) =~= self@.children);
        found
    }

    /// Sets the attribute named `key` to `value`.
    pub fn set_attr(&mut self, key: &'s str, value: &'s str)
        ensures
            final(self)@ == old(self)@.with_attr(key@, value@),
    {
        ref_map_insert(&mut self.attributes, key, value);
        assert(final(self)@.children =~= old(self)@.children);
    }

    /// Removes the attribute named `key` and returns the value it had.
    pub fn remove_attr(&mut self, key: &str) -> (r: Option<&'s str>)
        ensures
            final(self)@ == old(self)@.without_attr(key@),
            match r {
                Some(v) => lookup(old(self)@.attributes, key@) == Some(v@),
                None => lookup(old(self)@.attributes, key@) is None,
            },
    {
        let r = ref_map_shift_remove(&mut self.attributes, key);
        assert(final(self)@.children =~= old(self)@.children);
        r
    }

    /// The element with the attribute named `key` set to `value`.
    pub fn with_attr(self, key: &'s str, value: &'s str) -> (e: Self)
        ensures
            e@ == self@.with_attr(key@, value@),
    {
        let mut e = self;
        e.set_attr(key, value);
        e
    }

    /// The element with `text` as its text.
    pub fn with_text(self, text: &'s str) -> (e: Self)
        ensures
            e@ == self@.with_text(text@),
    {
        let mut e = self;
        e.text_content = Cow::Borrowed(text);
        assert(e@.children =~= self@.children);
        e
    }

    /// The element with `element` as its last child.
    pub fn with_child(self, element: Self) -> (e: Self)
        ensures
            e@ == self@.with_child(element@),
    {
        let mut e = self;
        e.children.push(element);
        assert(e@.children =~= self@.children.push(element@));
        e
    }
}

impl Element {
    /// The view of an element holds the views of its children.
    pub proof fn lemma_view(&self)
        ensures
            self@.name == self.name@,
            self@.text_content == self.text_content@,
            self@.attributes == owned_entries(self.attributes),
            self@.children.len() == self.children@.len(),
            forall|i: int|
                0 <= i < self.children@.len() ==> self@.children[i] == (
                #[trigger] self.children@[i])@,
    {
    }

    /// An element named `name`, with no text, attributes or children.
    pub fn new(name: &str) -> (e: Self)
        ensures
            e@ == ElementView::leaf(name@),
    {
        let e = Element {
            name: name.to_owned(),
            attributes: owned_map_new(),
            children: Vec::new(),
            text_content: String::new(),
        };
        assert(e@.children =~= Seq::empty());
        assert(e@.text_content =~= Seq::empty());
        e
    }

    /// The same tree with every string borrowed from this one.
    pub fn as_ref(&self) -> (e: ElementRef<'_>)
        requires
            self@.wf(),
        ensures
            e@ == self@,
        decreases self,
    {
        let mut attributes = ref_map_new();
        let count = owned_map_len(&self.attributes);
        let mut i: usize = 0;
        while i < count
            invariant
                i <= count,
                count == owned_entries(self.attributes).len(),
                distinct_keys(owned_entries(self.attributes)),
                ref_entries(attributes) == owned_entries(self.attributes).take(i as int),
            decreases count - i,
        {
            let ghost before = ref_entries(attributes);
            if let Some((k, v)) = owned_map_get_index(&self.attributes, i) {
                ref_map_insert(&mut attributes, k.as_str(), v.as_str());
                proof {
                    let all = owned_entries(self.attributes);
                    lemma_key_index(before, k@);
                    if has_key(before, k@) {
                        assert(before[key_index(before, k@)] == all[key_index(before, k@)]);
                    }
                    assert(ref_entries(attributes) =~= all.take(i + 1));
                }
            }
            i += 1;
        }
        assert(owned_entries(self.attributes).take(count as int) =~= owned_entries(
            self.attributes,
        ));
        let mut children: Vec<ElementRef<'_>> = Vec::new();
        let mut j: usize = 0;
        while j < self.children.len()
            invariant
                j <= self.children.len(),
                self@.wf(),
                children@.len() == j,
                forall|k: int| 0 <= k < j ==> (#[trigger] children@[k])@ == self.children@[k]@,
            decreases self.children.len() - j,
        {
            assert(self@.children[j as int] == self.children@[j as int]@);
            assert(self@.children[j as int].wf());
            let child = self.children[j].as_ref();
            children.push(child);
            j += 1;
        }
        let e = ElementRef {
            name: self.name.as_str(),
            attributes,
            children,
            text_content: Cow::Borrowed(self.text_content.as_str()),
        };
        assert(e@.children =~= self@.children);
        e
    }

    /// The value of the attribute named `key`.
    pub fn attr(&self, key: &str) -> (r: Option<&str>)
        ensures
            match r {
                Some(v) => lookup(self@.attributes, key@) == Some(v@),
                None => lookup(self@.attributes, key@) is None,
            },
    {
        match owned_map_get(&self.attributes, key) {
            Some(v) => Some(v.as_str()),
            None => None,
        }
    }

    /// The first child named `name`.
    pub fn child(&self, name: &str) -> (r: Option<&Self>)
        ensures
            match r {
                Some(c) => child_index(self@.children, name@) < self@.children.len() && *c
                    == self.children@[child_index(self@.children, name@)],
                None => child_index(self@.children, name@) == self@.children.len(),
            },
    {
        proof {
            lemma_child_index(self@.children, name@);
        }
        let mut i: usize = 0;
        while i < self.children.len()
            invariant
                i <= self.children.len(),
                forall|k: int| 0 <= k < i ==> (#[trigger] self@.children[k]).name != name@,
            decreases self.children.len() - i,
        {
            if str_eq(self.children[i].name.as_str(), name) {
                proof {
                    lemma_child_index(self@.children, name@);
                    let first = child_index(self@.children, name@);
                    assert(self@.children[i as int] == self.children@[i as int]@);
                    if first < i {
                        assert(self@.children[first].name != name@);
                    }
                    if first > i {
                        assert(self@.children[i as int].name != name@);
                    }
                }
                return Some(&self.children[i]);
            }
            assert(self@.children[i as int] == self.children@[i as int]@);
            i += 1;
        }
        None
    }

    /// The first child named `name`, to change it. What the child is left as
    /// stands in its place afterwards; nothing else changes.
    pub fn child_mut(&mut self, name: &str) -> (r: Option<&mut Self>)
        ensures
            match r {
                Some(c) => {
                    let at = child_index(old(self)@.children, name@);
                    &&& at < old(self).children@.len()
                    &&& *c == old(self).children@[at]
                    &&& final(self).children@ == old(self).children@.update(at, *final(c))
                    &&& final(self).name == old(self).name
                    &&& final(self).text_content == old(self).text_content
                    &&& final(self).attributes == old(self).attributes
                },
                None => child_index(old(self)@.children, name@) == old(self)@.children.len()
                    && final(self)@ == old(self)@,
            },
    {
        let mut i: usize = 0;
        while i < self.children.len()
            invariant
                i <= self.children.len(),
                *self == *old(self),
                forall|k: int| 0 <= k < i ==> (#[trigger] self@.children[k]).name != name@,
            decreases self.children.len() - i,
        {
            if str_eq(self.children[i].name.as_str(), name) {
                proof {
                    lemma_child_index(self@.children, name@);
                    let first = child_index(self@.children, name@);
                    assert(self@.children[i as int] == self.children@[i as int]@);
                    if first < i {
                        assert(self@.children[first].name != name@);
                    }
                    if first > i {
                        assert(self@.children[i as int].name != name@);
                    }
                }
                return Some(&mut self.children[i]);
            }
            assert(self@.children[i as int] == self.children@[i as int]@);
            i += 1;
        }
        proof {
            lemma_child_index(self@.children, name@);
        }
        None
    }

    /// The children named `name`, in order.
    pub fn children(&self, name: &str) -> (r: Vec<&Self>)
        ensures
            owned_views(r@) == self@.children_named(name@),
    {
        let mut found: Vec<&Self> = Vec::new();
        let mut i: usize = 0;
        let ghost pred = |c: ElementView| c.name == name@;
        assert(self@.children.take(0) =~= Seq::empty());
        assert(owned_views(found@) =~= self@.children.take(0).filter(pred));
        while i < self.children.len()
            invariant
                i <= self.children.len(),
                pred == (|c: ElementView| c.name == name@),
                owned_views(found@) == self@.children.take(i as int).filter(pred),
            decreases self.children.len() - i,
        {
            let ghost before = owned_views(found@);
            assert(self@.children[i as int] == self.children@[i as int]@);
            if str_eq(self.children[i].name.as_str(), name) {
                found.push(&self.children[i]);
            }
            proof {
                let head = self@.children.take(i as int);
                let one = seq![self@.children[i as int]];
                assert(self@.children.take(i + 1) =~= head + one);
                Seq::filter_distributes_over_add(head, one, pred);
                reveal_with_fuel(Seq::filter, 2);
                assert(one.drop_last() =~= Seq::empty());
                assert(one.filter(pred) =~= if pred(one[0]) {
                    one
                } else {
                    Seq::empty()
                });
                assert(owned_views(found@) =~= before + one.filter(pred));
            }
            i += 1;
        }
        assert(self@.children.take(i as int) =~= self@.children);
        found
    }

    /// Sets the attribute named `key` to `value`.
    pub fn set_attr(&mut self, key: &str, value: &str)
        ensures
            final(self)@ == old(self)@.with_attr(key@, value@),
    {
        owned_map_insert(&mut self.attributes, key.to_owned(), value.to_owned());
        assert(final(self)@.children =~= old(self)@.children);
    }

    /// Removes the attribute named `key` and returns the value it had.
    pub fn remove_attr(&mut self, key: &str) -> (r: Option<String>)
        ensures
            final(self)@ == old(self)@.without_attr(key@),
            match r {
                Some(v) => lookup(old(self)@.attributes, key@) == Some(v@),
                None => lookup(old(self)@.attributes, key@) is None,
            },
    {
        let r = owned_map_shift_remove(&mut self.attributes, key);
        assert(final(self)@.children =~= old(self)@.children);
        r
    }

    /// The element with the attribute named `key` set to `value`.
    pub fn with_attr(self, key: &str, value: &str) -> (e: Self)
        ensures
            e@ == self@.with_attr(key@, value@),
    {
        let mut e = self;
        e.set_attr(key, value);
        e
    }

    /// The element with `text` as its text.
    pub fn with_text(self, text: &str) -> (e: Self)
        ensures
            e@ == self@.with_text(text@),
    {
        let mut e = self;
        e.text_content = text.to_owned();
        assert(e@.children =~= self@.children);
        e
    }

    /// The element with `element` as its last child.
    pub fn with_child(self, element: Self) -> (e: Self)
        ensures
            e@ == self@.with_child(element@),
    {
        let mut e = self;
        e.children.push(element);
        assert(e@.children =~= self@.children.push(element@));
        e
    }
}


impl<'s> Clone for ElementRef<'s> {
    fn clone(&self) -> (e: Self)
        ensures
            e@ == self@,
        decreases self,
    {
        let mut children: Vec<ElementRef<'s>> = Vec::new();
        let mut j: usize = 0;
        while j < self.children.len()
            invariant
                j <= self.children.len(),
                children@.len() == j,
                forall|k: int| 0 <= k < j ==> (#[trigger] children@[k])@ == self.children@[k]@,
            decreases self.children.len() - j,
        {
            let child = self.children[j].clone();
            children.push(child);
            j += 1;
        }
        let text_content = match &self.text_content {
            Cow::Borrowed(b) => Cow::Borrowed(*b),
            Cow::Owned(o) => Cow::Owned(o.clone()),
        };
        let e = ElementRef {
            name: self.name,
            attributes: ref_map_clone(&self.attributes),
            children,
            text_content,
        };
        assert(e@.children =~= self@.children);
        e
    }
}

impl Clone for Element {
    fn clone(&self) -> (e: Self)
        ensures
            e@ == self@,
        decreases self,
    {
        let mut children: Vec<Element> = Vec::new();
        let mut j: usize = 0;
        while j < self.children.len()
            invariant
                j <= self.children.len(),
                children@.len() == j,
                forall|k: int| 0 <= k < j ==> (#[trigger] children@[k])@ == self.children@[k]@,
            decreases self.children.len() - j,
        {
            let child = self.children[j].clone();
            children.push(child);
            j += 1;
        }
        let e = Element {
            name: self.name.clone(),
            attributes: owned_map_clone(&self.attributes),
            children,
            text_content: self.text_content.clone(),
        };
        assert(e@.children =~= self@.children);
        e
    }
}

impl<'e, 's> std::ops::Rem<Text> for &'e ElementRef<'s> {
    type Output = &'e str;

    /// The text of the element.
    fn rem(self, _rhs: Text) -> (r: &'e str)
        ensures
            r@ == self@.text_content,
    {
        match &self.text_content {
            Cow::Borrowed(b) => b,
            Cow::Owned(o) => o.as_str(),
        }
    }
}

impl<'e, 's> vstd::std_specs::ops::RemSpecImpl<Text> for &'e ElementRef<'s> {
    /// The result is stated by `rem` itself, over the characters it holds.
    open spec fn obeys_rem_spec() -> bool {
        false
    }

    open spec fn rem_req(self, rhs: Text) -> bool {
        true
    }

    open spec fn rem_spec(self, rhs: Text) -> &'e str {
        arbitrary()
    }
}

impl<'e, 's, 'a> std::ops::Rem<&'a str> for &'e ElementRef<'s> {
    type Output = &'e str;

    /// The value of the attribute named `rhs`, which the element has.
    fn rem(self, rhs: &'a str) -> (r: &'e str)
        ensures
            lookup(self@.attributes, rhs@) == Some(r@),
    {
        match self.attr(rhs) {
            Some(value) => value,
            None => vstd::pervasive::unreached(),
        }
    }
}

impl<'e, 's, 'a> vstd::std_specs::ops::RemSpecImpl<&'a str> for &'e ElementRef<'s> {
    /// The result is stated by `rem` itself, over the characters it holds.
    open spec fn obeys_rem_spec() -> bool {
        false
    }

    open spec fn rem_req(self, rhs: &'a str) -> bool {
        has_key(self@.attributes, rhs@)
    }

    open spec fn rem_spec(self, rhs: &'a str) -> &'e str {
        arbitrary()
    }
}

impl<'e, 's, 'a> std::ops::Div<&'a str> for &'e ElementRef<'s> {
    type Output = &'e ElementRef<'s>;

    /// The first child named `rhs`, which the element has.
    fn div(self, rhs: &'a str) -> (r: &'e ElementRef<'s>) {
        match self.child(rhs) {
            Some(child) => child,
            None => vstd::pervasive::unreached(),
        }
    }
}

impl<'e, 's, 'a> vstd::std_specs::ops::DivSpecImpl<&'a str> for &'e ElementRef<'s> {
    open spec fn obeys_div_spec() -> bool {
        true
    }

    open spec fn div_req(self, rhs: &'a str) -> bool {
        child_index(self@.children, rhs@) < self@.children.len()
    }

    open spec fn div_spec(self, rhs: &'a str) -> &'e ElementRef<'s> {
        &self.children@[child_index(self@.children, rhs@)]
    }
}

impl<'e> std::ops::Rem<Text> for &'e Element {
    type Output = &'e str;

    /// The text of the element.
    fn rem(self, _rhs: Text) -> (r: &'e str)
        ensures
            r@ == self@.text_content,
    {
        self.text_content.as_str()
    }
}

impl<'e> vstd::std_specs::ops::RemSpecImpl<Text> for &'e Element {
    /// The result is stated by `rem` itself, over the characters it holds.
    open spec fn obeys_rem_spec() -> bool {
        false
    }

    open spec fn rem_req(self, rhs: Text) -> bool {
        true
    }

    open spec fn rem_spec(self, rhs: Text) -> &'e str {
        arbitrary()
    }
}

impl<'e, 'a> std::ops::Rem<&'a str> for &'e Element {
    type Output = &'e str;

    /// The value of the attribute named `rhs`, which the element has.
    fn rem(self, rhs: &'a str) -> (r: &'e str)
        ensures
            lookup(self@.attributes, rhs@) == Some(r@),
    {
        match self.attr(rhs) {
            Some(value) => value,
            None => vstd::pervasive::unreached(),
        }
    }
}

impl<'e, 'a> vstd::std_specs::ops::RemSpecImpl<&'a str> for &'e Element {
    /// The result is stated by `rem` itself, over the characters it holds.
    open spec fn obeys_rem_spec() -> bool {
        false
    }

    open spec fn rem_req(self, rhs: &'a str) -> bool {
        has_key(self@.attributes, rhs@)
    }

    open spec fn rem_spec(self, rhs: &'a str) -> &'e str {
        arbitrary()
    }
}

impl<'e, 'a> std::ops::Div<&'a str> for &'e Element {
    type Output = &'e Element;

    /// The first child named `rhs`, which the element has.
    fn div(self, rhs: &'a str) -> (r: &'e Element) {
        match self.child(rhs) {
            Some(child) => child,
            None => vstd::pervasive::unreached(),
        }
    }
}

impl<'e, 'a> vstd::std_specs::ops::DivSpecImpl<&'a str> for &'e Element {
    open spec fn obeys_div_spec() -> bool {
        true
    }

    open spec fn div_req(self, rhs: &'a str) -> bool {
        child_index(self@.children, rhs@) < self@.children.len()
    }

    open spec fn div_spec(self, rhs: &'a str) -> &'e Element {
        &self.children@[child_index(self@.children, rhs@)]
    }
}

} // verus!
