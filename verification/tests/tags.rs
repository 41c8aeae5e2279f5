use spreadsheet_ods::text::same_text;
use spreadsheet_ods::xmltree::{XmlContent, XmlTag};

#[test]
fn new_tag_has_a_name_and_nothing_else() {
    let tag = XmlTag::new("table:shapes");
    assert_eq!(tag.name(), "table:shapes");
    assert!(tag.is_empty());
    assert!(tag.attr_iter().is_empty());
    assert!(tag.content().is_empty());
}

#[test]
fn default_tag_has_no_name() {
    let tag = XmlTag::default();
    assert_eq!(tag.name(), "");
    assert!(tag.is_empty());
    assert!(tag.attr_iter().is_empty());
}

#[test]
fn set_name_changes_the_name_only() {
    let mut tag = XmlTag::new("a").con_attr("k", "v").con_text("t");
    tag.set_name("b");
    assert_eq!(tag.name(), "b");
    assert_eq!(tag.attr_iter(), vec![("k", "v")]);
    assert_eq!(tag.content().len(), 1);
}

#[test]
fn con_attr_adds_attributes_in_order() {
    let tag = XmlTag::new("draw:frame")
        .con_attr("draw:z", "0")
        .con_attr("draw:name", "Bild 1")
        .con_attr("draw:style:name", "gr1")
        .con_attr("draw:text-style-name", "Text");
    assert_eq!(
        tag.attr_iter(),
        vec![
            ("draw:z", "0"),
            ("draw:name", "Bild 1"),
            ("draw:style:name", "gr1"),
            ("draw:text-style-name", "Text"),
        ]
    );
    assert_eq!(tag.name(), "draw:frame");
    assert!(tag.is_empty());
}

#[test]
fn con_attr_replaces_the_value_of_a_name_that_is_there() {
    let tag = XmlTag::new("t")
        .con_attr("a", "1")
        .con_attr("a-name-longer-than-an-inline-atom", "2")
        .con_attr("c", "3")
        .con_attr("a-name-longer-than-an-inline-atom", "4")
        .con_attr("a", "5");
    assert_eq!(
        tag.attr_iter(),
        vec![("a", "5"), ("a-name-longer-than-an-inline-atom", "4"), ("c", "3")]
    );
}

#[test]
fn con_attr_takes_the_empty_name() {
    let tag = XmlTag::new("t").con_attr("", "x").con_attr("", "y");
    assert_eq!(tag.attr_iter(), vec![("", "y")]);
}

#[test]
fn push_adds_at_the_end_of_the_content() {
    let mut tag = XmlTag::new("text:p");
    tag.push_text("some text");
    tag.push_tag(XmlTag::new("text:s"));
    tag.push_text("more");
    assert!(!tag.is_empty());
    let content = tag.content();
    assert_eq!(content.len(), 3);
    assert!(matches!(&content[0], XmlContent::Text(t) if t == "some text"));
    assert!(matches!(&content[1], XmlContent::Tag(t) if t.name() == "text:s"));
    assert!(matches!(&content[2], XmlContent::Text(t) if t == "more"));
    assert_eq!(tag.name(), "text:p");
}

#[test]
fn con_tag_and_con_text_build_a_tree() {
    let tag = XmlTag::new("table:shapes").con_tag(
        XmlTag::new("draw:frame").con_attr("draw:z", "0").con_tag(
            XmlTag::new("draw:image")
                .con_attr("xlink:type", "simple")
                .con_tag(XmlTag::new("text:p").con_text("sometext")),
        ),
    );
    assert_eq!(tag.content().len(), 1);
    let frame = match &tag.content()[0] {
        XmlContent::Tag(frame) => frame,
        XmlContent::Text(_) => panic!("a tag was added"),
    };
    assert_eq!(frame.name(), "draw:frame");
    assert_eq!(frame.attr_iter(), vec![("draw:z", "0")]);
    let image = match &frame.content()[0] {
        XmlContent::Tag(image) => image,
        XmlContent::Text(_) => panic!("a tag was added"),
    };
    assert_eq!(image.attr_iter(), vec![("xlink:type", "simple")]);
    let p = match &image.content()[0] {
        XmlContent::Tag(p) => p,
        XmlContent::Text(_) => panic!("a tag was added"),
    };
    assert!(matches!(&p.content()[0], XmlContent::Text(t) if t == "sometext"));
}

#[test]
fn clone_copies_the_whole_tree() {
    let tag = XmlTag::new("a")
        .con_attr("k", "v")
        .con_attr("a-name-longer-than-an-inline-atom", "w")
        .con_text("t")
        .con_tag(XmlTag::new("b").con_attr("x", "y").con_text("u"));
    let copy = tag.clone();
    assert_eq!(copy.name(), "a");
    assert_eq!(copy.attr_iter(), tag.attr_iter());
    assert_eq!(copy.content().len(), 2);
    assert!(matches!(&copy.content()[0], XmlContent::Text(t) if t == "t"));
    let inner = match &copy.content()[1] {
        XmlContent::Tag(inner) => inner,
        XmlContent::Text(_) => panic!("a tag was added"),
    };
    assert_eq!(inner.name(), "b");
    assert_eq!(inner.attr_iter(), vec![("x", "y")]);
    assert!(matches!(&inner.content()[0], XmlContent::Text(t) if t == "u"));
    let item = tag.content()[0].clone();
    assert!(matches!(item, XmlContent::Text(t) if t == "t"));
}

#[test]
fn same_text_compares_strings() {
    assert!(same_text("", ""));
    assert!(same_text("abc", "abc"));
    assert!(!same_text("abc", "abd"));
    assert!(!same_text("abc", "ab"));
    assert!(!same_text("", "a"));
    assert!(same_text("Größe€", "Größe€"));
    assert!(!same_text("Größe", "Grösse"));
}
