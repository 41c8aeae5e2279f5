//! A tree of tags, for the parts of a document that are carried along as they
//! are: a tag has a name, attributes, and a content of texts and tags.

use crate::atom::{atom_str, atom_text, intern};
use crate::text::same_text;
use string_cache::DefaultAtom;
use vstd::prelude::*;

verus! {

/// The attributes of a tag as contracts speak of them: pairs of a name and a
/// value.
pub type Attrs = Seq<(Seq<char>, Seq<char>)>;

/// What a tag is: its name, its attributes in the order in which their names
/// came, and its content in its order.
pub struct XmlTagView {
    pub name: Seq<char>,
    pub attrs: Attrs,
    pub content: Seq<XmlContentView>,
}

/// What an item of a tag's content is.
pub enum XmlContentView {
    Text(Seq<char>),
    Tag(XmlTagView),
}

/// The tag with the given name, without attributes and content.
pub open spec fn bare_tag(name: Seq<char>) -> XmlTagView {
    XmlTagView { name, attrs: Seq::empty(), content: Seq::empty() }
}

/// No name occurs twice among the attributes.
pub open spec fn distinct_names(attrs: Attrs) -> bool {
    forall|i: int, j: int| 0 <= i < j < attrs.len() ==> attrs[i].0 != attrs[j].0
}

/// The attributes after the attribute `name` is set to `value`: the value
/// takes the place of the one that the name had, or the pair is added at the
/// end where the name was not there.
pub open spec fn with_attr(attrs: Attrs, name: Seq<char>, value: Seq<char>) -> Attrs
    decreases attrs.len(),
{
    if attrs.len() == 0 {
        seq![(name, value)]
    } else if attrs[0].0 == name {
        seq![(name, value)] + attrs.drop_first()
    } else {
        seq![attrs[0]] + with_attr(attrs.drop_first(), name, value)
    }
}

/// Setting an attribute whose name stands at `at`, and nowhere before,
/// changes the value there.
proof fn lemma_with_attr_found(attrs: Attrs, at: int, name: Seq<char>, value: Seq<char>)
    requires
        0 <= at < attrs.len(),
        attrs[at].0 == name,
        forall|i: int| 0 <= i < at ==> attrs[i].0 != name,
    ensures
        with_attr(attrs, name, value) == attrs.update(at, (name, value)),
    decreases at,
{
    if at == 0 {
        assert(seq![(name, value)] + attrs.drop_first() =~= attrs.update(0, (name, value)));
    } else {
        let rest = attrs.drop_first();
        assert forall|i: int| 0 <= i < at - 1 implies rest[i].0 != name by {
            assert(rest[i] == attrs[i + 1]);
        }
        lemma_with_attr_found(rest, at - 1, name, value);
        assert(seq![attrs[0]] + rest.update(at - 1, (name, value)) =~= attrs.update(
            at,
            (name, value),
        ));
    }
}

/// Setting an attribute whose name is not there adds it at the end.
proof fn lemma_with_attr_new(attrs: Attrs, name: Seq<char>, value: Seq<char>)
    requires
        forall|i: int| 0 <= i < attrs.len() ==> attrs[i].0 != name,
    ensures
        with_attr(attrs, name, value) == attrs.push((name, value)),
    decreases attrs.len(),
{
    if attrs.len() == 0 {
        assert(seq![(name, value)] =~= attrs.push((name, value)));
    } else {
        let rest = attrs.drop_first();
        assert forall|i: int| 0 <= i < rest.len() implies rest[i].0 != name by {
            assert(rest[i] == attrs[i + 1]);
        }
        lemma_with_attr_new(rest, name, value);
        assert(seq![attrs[0]] + rest.push((name, value)) =~= attrs.push((name, value)));
    }
}

/// Setting an attribute keeps the names distinct.
pub proof fn lemma_with_attr_distinct(attrs: Attrs, name: Seq<char>, value: Seq<char>)
    requires
        distinct_names(attrs),
    ensures
        distinct_names(with_attr(attrs, name, value)),
{
    if exists|i: int| 0 <= i < attrs.len() && attrs[i].0 == name {
        let at = choose|i: int| 0 <= i < attrs.len() && attrs[i].0 == name;
        lemma_with_attr_found(attrs, at, name, value);
    } else {
        lemma_with_attr_new(attrs, name, value);
    }
}

/// The attributes that a list of interned names and values holds.
pub open spec fn attrs_of(entries: Seq<(DefaultAtom, String)>) -> Attrs {
    Seq::new(entries.len(), |i: int| (atom_text(entries[i].0), entries[i].1@))
}

/// What a list of content items is, item by item.
pub open spec fn content_views(items: Seq<XmlContent>) -> Seq<XmlContentView> {
    Seq::new(items.len(), |i: int| items[i]@)
}

/// A tag with its attributes and its content.
#[derive(Debug)]
pub struct XmlTag {
    name: String,
    attr: Vec<(DefaultAtom, String)>,
    content: Vec<XmlContent>,
}

/// An item of a tag's content: a text or a tag.
#[derive(Debug)]
pub enum XmlContent {
    Text(String),
    Tag(XmlTag),
}

impl View for XmlContent {
    type V = XmlContentView;

    open spec fn view(&self) -> XmlContentView
        decreases self,
    {
        match self {
            XmlContent::Text(text) => XmlContentView::Text(text@),
            XmlContent::Tag(tag) => XmlContentView::Tag(tag@),
        }
    }
}

impl View for XmlTag {
    type V = XmlTagView;

    closed spec fn view(&self) -> XmlTagView
        decreases self,
    {
        XmlTagView {
            name: self.name@,
            attrs: attrs_of(self.attr@),
            content: Seq::new(
                self.content@.len(),
                |i: int|
                    if 0 <= i < self.content@.len() {
                        self.content@[i]@
                    } else {
                        XmlContentView::Text(Seq::empty())
                    },
            ),
        }
    }
}

impl Clone for XmlContent {
    fn clone(&self) -> (item: XmlContent)
        ensures
            item@ == self@,
        decreases self,
    {
        match self {
            XmlContent::Text(text) => XmlContent::Text(text.clone()),
            XmlContent::Tag(tag) => XmlContent::Tag(tag.clone()),
        }
    }
}

impl Clone for XmlTag {
    fn clone(&self) -> (tag: XmlTag)
        ensures
            tag@ == self@,
        decreases self,
    {
        proof {
            use_type_invariant(self);
        }
        let mut attr: Vec<(DefaultAtom, String)> = Vec::new();
        let mut i: usize = 0;
        while i < self.attr.len()
            invariant
                i <= self.attr@.len(),
                attr@.len() == i,
                forall|j: int|
                    0 <= j < i ==> atom_text((#[trigger] attr@[j]).0) == atom_text(
                        self.attr@[j].0,
                    ) && attr@[j].1@ == self.attr@[j].1@,
            decreases self.attr@.len() - i,
        {
            let entry = &self.attr[i];
            attr.push((intern(atom_str(&entry.0)), entry.1.clone()));
            i += 1;
        }
        proof {
            assert(attrs_of(attr@) =~= attrs_of(self.attr@));
        }
        let mut content: Vec<XmlContent> = Vec::new();
        let mut k: usize = 0;
        while k < self.content.len()
            invariant
                k <= self.content@.len(),
                content@.len() == k,
                forall|j: int| 0 <= j < k ==> content@[j]@ == self.content@[j]@,
            decreases self.content@.len() - k,
        {
            let item = (&self.content[k]).clone();
            content.push(item);
            k += 1;
        }
        let tag = XmlTag { name: self.name.clone(), attr, content };
        proof {
            assert(tag@.content =~= self@.content);
        }
        tag
    }
}

impl Default for XmlTag {
    fn default() -> (tag: XmlTag)
        ensures
            tag@ == bare_tag(Seq::empty()),
    {
        let tag = XmlTag { name: String::new(), attr: Vec::new(), content: Vec::new() };
        proof {
            assert(tag@.attrs =~= Seq::empty());
            assert(tag@.content =~= Seq::empty());
        }
        tag
    }
}

impl XmlTag {
    /// No attribute name occurs twice.
    #[verifier::type_invariant]
    closed spec fn names_are_distinct(self) -> bool {
        distinct_names(attrs_of(self.attr@))
    }

    /// A tag with the given name, without attributes and content.
    pub fn new(name: &str) -> (tag: XmlTag)
        ensures
            tag@ == bare_tag(name@),
    {
        let tag = XmlTag { name: name.to_owned(), attr: Vec::new(), content: Vec::new() };
        proof {
            assert(tag@.attrs =~= Seq::empty());
            assert(tag@.content =~= Seq::empty());
        }
        tag
    }

    /// Gives the tag another name.
    pub fn set_name(&mut self, name: &str)
        ensures
            final(self)@.name == name@,
            final(self)@.attrs == old(self)@.attrs,
            final(self)@.content == old(self)@.content,
    {
        proof {
            use_type_invariant(&*self);
        }
        self.name = name.to_owned();
        proof {
            assert(self@.content =~= old(self)@.content);
        }
    }

    /// The name of the tag.
    pub fn name(&self) -> (name: &str)
        ensures
            name@ == self@.name,
    {
        self.name.as_str()
    }

    /// Is the tag without content: without text and without tags in it?
    pub fn is_empty(&self) -> (empty: bool)
        ensures
            empty == (self@.content.len() == 0),
    {
        self.content.len() == 0
    }

    /// The attributes of the tag, each name with its value, in the order in
    /// which the names came. No name occurs twice.
    pub fn attr_iter(&self) -> (list: Vec<(&str, &str)>)
        ensures
            distinct_names(self@.attrs),
            list@.len() == self@.attrs.len(),
            forall|i: int|
                0 <= i < list@.len() ==> (#[trigger] list@[i]).0@ == self@.attrs[i].0
                    && list@[i].1@ == self@.attrs[i].1,
    {
        proof {
            use_type_invariant(self);
        }
        let mut list: Vec<(&str, &str)> = Vec::new();
        let mut i: usize = 0;
        while i < self.attr.len()
            invariant
                i <= self.attr@.len(),
                list@.len() == i,
                forall|k: int|
                    0 <= k < i ==> (#[trigger] list@[k]).0@ == self@.attrs[k].0 && list@[k].1@
                        == self@.attrs[k].1,
            decreases self.attr@.len() - i,
        {
            let entry = &self.attr[i];
            list.push((atom_str(&entry.0), entry.1.as_str()));
            i += 1;
        }
        list
    }

    /// Adds a tag at the end of the content.
    pub fn push_tag(&mut self, xmltag: XmlTag)
        ensures
            final(self)@.content == old(self)@.content.push(XmlContentView::Tag(xmltag@)),
            final(self)@.name == old(self)@.name,
            final(self)@.attrs == old(self)@.attrs,
    {
        proof {
            use_type_invariant(&*self);
        }
        let mut content: Vec<XmlContent> = Vec::new();
        std::mem::swap(&mut content, &mut self.content);
        content.push(XmlContent::Tag(xmltag));
        self.content = content;
        proof {
            assert(self@.content =~= old(self)@.content.push(XmlContentView::Tag(xmltag@)));
        }
    }

    /// Adds a text at the end of the content.
    pub fn push_text(&mut self, text: &str)
        ensures
            final(self)@.content == old(self)@.content.push(XmlContentView::Text(text@)),
            final(self)@.name == old(self)@.name,
            final(self)@.attrs == old(self)@.attrs,
    {
        proof {
            use_type_invariant(&*self);
        }
        let mut content: Vec<XmlContent> = Vec::new();
        std::mem::swap(&mut content, &mut self.content);
        content.push(XmlContent::Text(text.to_owned()));
        self.content = content;
        proof {
            assert(self@.content =~= old(self)@.content.push(XmlContentView::Text(text@)));
        }
    }

    /// The tag with the attribute `name` set to `value`.
    #[verifier::loop_isolation(false)]
    pub fn con_attr(self, name: &str, value: &str) -> (tag: XmlTag)
        ensures
            tag@.attrs == with_attr(self@.attrs, name@, value@),
            tag@.name == self@.name,
            tag@.content == self@.content,
    {
        proof {
            use_type_invariant(&self);
        }
        let ghost whole = self@;
        let XmlTag { name: tag_name, attr, content } = self;
        let mut attr = attr;
        let ghost before = attrs_of(attr@);
        proof {
            lemma_with_attr_distinct(before, name@, value@);
        }
        let mut i: usize = 0;
        while i < attr.len()
            invariant
                i <= attr@.len(),
                attrs_of(attr@) == before,
                forall|k: int| 0 <= k < i ==> before[k].0 != name@,
            decreases attr@.len() - i,
        {
            if same_text(atom_str(&attr[i].0), name) {
                attr.set(i, (intern(name), value.to_owned()));
                proof {
                    lemma_with_attr_found(before, i as int, name@, value@);
                    assert(attrs_of(attr@) =~= before.update(i as int, (name@, value@)));
                }
                let tag = XmlTag { name: tag_name, attr, content };
                proof {
                    assert(tag@.content =~= whole.content);
                }
                return tag;
            }
            i += 1;
        }
        attr.push((intern(name), value.to_owned()));
        proof {
            lemma_with_attr_new(before, name@, value@);
            assert(attrs_of(attr@) =~= before.push((name@, value@)));
        }
        let tag = XmlTag { name: tag_name, attr, content };
        proof {
            assert(tag@.content =~= whole.content);
        }
        tag
    }

    /// The tag with a tag added at the end of its content.
    pub fn con_tag(self, xmltag: XmlTag) -> (tag: XmlTag)
        ensures
            tag@.content == self@.content.push(XmlContentView::Tag(xmltag@)),
            tag@.name == self@.name,
            tag@.attrs == self@.attrs,
    {
        let mut tag = self;
        tag.push_tag(xmltag);
        tag
    }

    /// The tag with a text added at the end of its content.
    pub fn con_text(self, text: &str) -> (tag: XmlTag)
        ensures
            tag@.content == self@.content.push(XmlContentView::Text(text@)),
            tag@.name == self@.name,
            tag@.attrs == self@.attrs,
    {
        let mut tag = self;
        tag.push_text(text);
        tag
    }

    /// The content of the tag, in its order.
    pub fn content(&self) -> (content: &Vec<XmlContent>)
        ensures
            content_views(content@) == self@.content,
    {
        proof {
            assert(content_views(self.content@) =~= self@.content);
        }
        &self.content
    }
}

} // verus!
