use vstd::prelude::*;

use crate::event::{
    copy_bytes, height_key, id_key, image_tag, is_height_key, is_id_key, is_image_tag,
    is_rect_tag, is_width_key, local_name, rect_tag, width_key, Element, ElementView, EventView, XmlEvent,
};
use crate::text::{float_text, is_float_text, utf8_string};
use vstd::utf8::{decode_utf8, valid_utf8};

verus! {

/// The three attributes that a rectangle or an image must carry.
#[derive(Debug, PartialEq, Eq)]
pub struct Identifiers {
    pub id: String,
    /// the text of the width, a finite floating-point number
    pub width: String,
    /// the text of the height, a finite floating-point number
    pub height: String,
}

pub struct IdentView {
    pub id: Seq<char>,
    pub width: Seq<char>,
    pub height: Seq<char>,
}

impl View for Identifiers {
    type V = IdentView;

    open spec fn view(&self) -> IdentView {
        IdentView { id: self.id@, width: self.width@, height: self.height@ }
    }
}

/// The attribute that classification looks for.
#[derive(Clone, Copy, Debug, PartialEq, Eq, Structural)]
pub enum Field {
    Id,
    Width,
    Height,
}

/// Why a self-closing `rect` or `image` element could not be classified.
#[derive(Debug, PartialEq, Eq)]
pub enum ObjectError {
    /// the attribute's value is not valid UTF-8
    Encoding { field: Field, element: Vec<u8> },
    /// the element lacks the attribute
    MissingRequiredAttribute { field: Field, element: Vec<u8> },
    /// the attribute's value is not the text of a finite floating-point
    /// number
    UnparseableNumber { field: Field, value: String, element: Vec<u8> },
}

pub enum ObjectErrorView {
    Encoding(Field, Seq<u8>),
    MissingRequiredAttribute(Field, Seq<u8>),
    UnparseableNumber(Field, Seq<char>, Seq<u8>),
}

impl View for ObjectError {
    type V = ObjectErrorView;

    open spec fn view(&self) -> ObjectErrorView {
        match self {
            ObjectError::Encoding { field, element } => ObjectErrorView::Encoding(*field, element@),
            ObjectError::MissingRequiredAttribute { field, element } =>
                ObjectErrorView::MissingRequiredAttribute(*field, element@),
            ObjectError::UnparseableNumber { field, value, element } =>
                ObjectErrorView::UnparseableNumber(*field, value@, element@),
        }
    }
}

#[derive(Debug, PartialEq, Eq)]
pub struct Rectangle {
    pub ident: Identifiers,
    pub element: Element,
}

/// An embedded image; its encoded content is the `xlink:href` attribute of
/// `element`.
#[derive(Debug, PartialEq, Eq)]
pub struct Image {
    pub ident: Identifiers,
    pub element: Element,
}

/// The content of a layer.
#[derive(Debug, PartialEq, Eq)]
pub enum Object {
    Rectangle(Rectangle),
    Image(Image),
    /// anything else, carried through as it was read
    Other(XmlEvent),
}

pub enum ObjectView {
    Rectangle(IdentView, ElementView),
    Image(IdentView, ElementView),
    Other(EventView),
}

impl View for Object {
    type V = ObjectView;

    open spec fn view(&self) -> ObjectView {
        match self {
            Object::Rectangle(r) => ObjectView::Rectangle(r.ident@, r.element@),
            Object::Image(i) => ObjectView::Image(i.ident@, i.element@),
            Object::Other(e) => ObjectView::Other(e@),
        }
    }
}

/// The event that an object stands for in the document.
pub open spec fn object_event(o: ObjectView) -> EventView {
    match o {
        ObjectView::Rectangle(_, e) => EventView::Empty(e),
        ObjectView::Image(_, e) => EventView::Empty(e),
        ObjectView::Other(ev) => ev,
    }
}

/// A rectangle or an image: an object that has identifiers.
pub open spec fn is_classified(o: ObjectView) -> bool {
    o is Rectangle || o is Image
}

pub open spec fn ident_of(o: ObjectView) -> IdentView
    recommends
        is_classified(o),
{
    match o {
        ObjectView::Rectangle(i, _) => i,
        ObjectView::Image(i, _) => i,
        ObjectView::Other(_) => IdentView { id: seq![], width: seq![], height: seq![] },
    }
}

/// What has been read of the identifiers so far.
pub struct Found {
    pub id: Option<Seq<char>>,
    pub width: Option<Seq<char>>,
    pub height: Option<Seq<char>>,
}

/// Reads one attribute of element `name`: a later occurrence of a key
/// replaces an earlier one.
pub open spec fn read_attribute(found: Found, a: (Seq<u8>, Seq<u8>), name: Seq<u8>) -> Result<
    Found,
    ObjectErrorView,
> {
    if a.0 == width_key() {
        if !valid_utf8(a.1) {
            Err(ObjectErrorView::Encoding(Field::Width, name))
        } else if is_float_text(decode_utf8(a.1)) {
            Ok(Found { width: Some(decode_utf8(a.1)), ..found })
        } else {
            Err(ObjectErrorView::UnparseableNumber(Field::Width, decode_utf8(a.1), name))
        }
    } else if a.0 == height_key() {
        if !valid_utf8(a.1) {
            Err(ObjectErrorView::Encoding(Field::Height, name))
        } else if is_float_text(decode_utf8(a.1)) {
            Ok(Found { height: Some(decode_utf8(a.1)), ..found })
        } else {
            Err(ObjectErrorView::UnparseableNumber(Field::Height, decode_utf8(a.1), name))
        }
    } else if a.0 == id_key() {
        if !valid_utf8(a.1) {
            Err(ObjectErrorView::Encoding(Field::Id, name))
        } else {
            Ok(Found { id: Some(decode_utf8(a.1)), ..found })
        }
    } else {
        Ok(found)
    }
}

/// Reads the first `n` attributes in order; the first failure stops it.
pub open spec fn read_attributes(attrs: Seq<(Seq<u8>, Seq<u8>)>, name: Seq<u8>, n: int) -> Result<
    Found,
    ObjectErrorView,
>
    decreases n,
{
    if n <= 0 {
        Ok(Found { id: None, width: None, height: None })
    } else {
        match read_attributes(attrs, name, n - 1) {
            Ok(found) => read_attribute(found, attrs[n - 1], name),
            Err(e) => Err(e),
        }
    }
}

/// Once reading fails, reading further attributes fails the same way.
proof fn lemma_read_stops(attrs: Seq<(Seq<u8>, Seq<u8>)>, name: Seq<u8>, k: int, n: int)
    requires
        k <= n,
        read_attributes(attrs, name, k) is Err,
    ensures
        read_attributes(attrs, name, n) == read_attributes(attrs, name, k),
    decreases n - k,
{
    if k < n {
        lemma_read_stops(attrs, name, k, n - 1);
    }
}

/// The identifiers of an element, or why it has none: width, height and a
/// non-empty id must be there.
pub open spec fn identifiers_of(e: ElementView) -> Result<IdentView, ObjectErrorView> {
    match read_attributes(e.attributes, e.name, e.attributes.len() as int) {
        Err(err) => Err(err),
        Ok(found) => if found.width is None {
            Err(ObjectErrorView::MissingRequiredAttribute(Field::Width, e.name))
        } else if found.height is None {
            Err(ObjectErrorView::MissingRequiredAttribute(Field::Height, e.name))
        } else if found.id is None || found.id->0.len() == 0 {
            Err(ObjectErrorView::MissingRequiredAttribute(Field::Id, e.name))
        } else {
            Ok(IdentView { id: found.id->0, width: found.width->0, height: found.height->0 })
        },
    }
}

/// How a self-closing element is classified, by the local part of its name.
pub open spec fn classify(e: ElementView) -> Result<ObjectView, ObjectErrorView> {
    if local_name(e.name) == image_tag() {
        match identifiers_of(e) {
            Ok(i) => Ok(ObjectView::Image(i, e)),
            Err(err) => Err(err),
        }
    } else if local_name(e.name) == rect_tag() {
        match identifiers_of(e) {
            Ok(i) => Ok(ObjectView::Rectangle(i, e)),
            Err(err) => Err(err),
        }
    } else {
        Ok(ObjectView::Other(EventView::Empty(e)))
    }
}

pub open spec fn opt_view(o: Option<String>) -> Option<Seq<char>> {
    match o {
        Some(s) => Some(s@),
        None => None,
    }
}

impl Identifiers {
    /// Reads the identifiers from an element's attributes.
    pub fn from_elem(elem: &Element) -> (r: Result<Identifiers, ObjectError>)
        ensures
            match r {
                Ok(i) => identifiers_of(elem@) == Ok::<IdentView, ObjectErrorView>(i@),
                Err(e) => identifiers_of(elem@) == Err::<IdentView, ObjectErrorView>(e@),
            },
    {
        let ghost attrs = elem@.attributes;
        let mut width: Option<String> = None;
        let mut height: Option<String> = None;
        let mut id: Option<String> = None;
        let mut i: usize = 0;
        while i < elem.attributes.len()
            invariant
                i <= elem.attributes@.len(),
                attrs == elem@.attributes,
                read_attributes(attrs, elem@.name, i as int) == Ok::<Found, ObjectErrorView>(
                    Found { id: opt_view(id), width: opt_view(width), height: opt_view(height) },
                ),
            decreases elem.attributes@.len() - i,
        {
            let att = &elem.attributes[i];
            assert(attrs[i as int] == att@);
            if is_width_key(&att.key) {
                match utf8_string(copy_bytes(&att.value)) {
                    None => {
                        proof {
                            lemma_read_stops(attrs, elem@.name, i + 1, attrs.len() as int);
                        }
                        return Err(
                            ObjectError::Encoding { field: Field::Width, element: copy_bytes(&elem.name) },
                        );
                    },
                    Some(t) => {
                        if float_text(t.as_str()) {
                            width = Some(t);
                        } else {
                            proof {
                                lemma_read_stops(attrs, elem@.name, i + 1, attrs.len() as int);
                            }
                            return Err(ObjectError::UnparseableNumber {
                                    field: Field::Width,
                                    value: t,
                                    element: copy_bytes(&elem.name),
                                });
                        }
                    },
                }
            } else if is_height_key(&att.key) {
                match utf8_string(copy_bytes(&att.value)) {
                    None => {
                        proof {
                            lemma_read_stops(attrs, elem@.name, i + 1, attrs.len() as int);
                        }
                        return Err(
                            ObjectError::Encoding { field: Field::Height, element: copy_bytes(&elem.name) },
                        );
                    },
                    Some(t) => {
                        if float_text(t.as_str()) {
                            height = Some(t);
                        } else {
                            proof {
                                lemma_read_stops(attrs, elem@.name, i + 1, attrs.len() as int);
                            }
                            return Err(ObjectError::UnparseableNumber {
                                    field: Field::Height,
                                    value: t,
                                    element: copy_bytes(&elem.name),
                                });
                        }
                    },
                }
            } else if is_id_key(&att.key) {
                match utf8_string(copy_bytes(&att.value)) {
                    None => {
                        proof {
                            lemma_read_stops(attrs, elem@.name, i + 1, attrs.len() as int);
                        }
                        return Err(
                            ObjectError::Encoding { field: Field::Id, element: copy_bytes(&elem.name) },
                        );
                    },
                    Some(t) => {
                        id = Some(t);
                    },
                }
            }
            i += 1;
        }
        match (width, height, id) {
            (Some(width), Some(height), Some(id)) => {
                if id.as_str().is_empty() {
                    Err(
                        ObjectError::MissingRequiredAttribute {
                            field: Field::Id,
                            element: copy_bytes(&elem.name),
                        },
                    )
                } else {
                    Ok(Identifiers { id, width, height })
                }
            },
            (None, _, _) => Err(
                ObjectError::MissingRequiredAttribute { field: Field::Width, element: copy_bytes(&elem.name) },
            ),
            (_, None, _) => Err(
                ObjectError::MissingRequiredAttribute { field: Field::Height, element: copy_bytes(&elem.name) },
            ),
            (_, _, None) => Err(
                ObjectError::MissingRequiredAttribute { field: Field::Id, element: copy_bytes(&elem.name) },
            ),
        }
    }
}

/// Classifies a self-closing element: `image` and `rect` must carry their
/// identifiers, any other element passes through as it is.
pub fn object(element: Element) -> (r: Result<Object, ObjectError>)
    ensures
        match r {
            Ok(o) => classify(element@) == Ok::<ObjectView, ObjectErrorView>(o@),
            Err(e) => classify(element@) == Err::<ObjectView, ObjectErrorView>(e@),
        },
{
    if is_image_tag(&element.name) {
        match Identifiers::from_elem(&element) {
            Ok(ident) => Ok(Object::Image(Image { ident, element })),
            Err(e) => Err(e),
        }
    } else if is_rect_tag(&element.name) {
        match Identifiers::from_elem(&element) {
            Ok(ident) => Ok(Object::Rectangle(Rectangle { ident, element })),
            Err(e) => Err(e),
        }
    } else {
        Ok(Object::Other(XmlEvent::Empty(element)))
    }
}

impl Object {
    /// The event that this object stands for, as it is written out.
    pub fn into_event(self) -> (r: XmlEvent)
        ensures
            r@ == object_event(self@),
    {
        match self {
            Object::Rectangle(rect) => XmlEvent::Empty(rect.element),
            Object::Image(image) => XmlEvent::Empty(image.element),
            Object::Other(event) => event,
        }
    }
}

} // verus!
