use vstd::prelude::*;

verus! {

/// One attribute of a tag, as it stands in the document: the key and the raw
/// (still escaped) value.
#[derive(Debug, PartialEq, Eq)]
pub struct Attribute {
    pub key: Vec<u8>,
    pub value: Vec<u8>,
}

/// A start tag or a self-closing tag: its qualified name and its attributes in
/// document order.
#[derive(Debug, PartialEq, Eq)]
pub struct Element {
    pub name: Vec<u8>,
    pub attributes: Vec<Attribute>,
}

/// The kinds of markup that are carried through untouched.
#[derive(Clone, Copy, Debug, PartialEq, Eq, Structural)]
pub enum MarkupKind {
    Comment,
    CData,
    Decl,
    PI,
    DocType,
}

/// One lexical token of an XML document.
#[derive(Debug, PartialEq, Eq)]
pub enum XmlEvent {
    /// `<name attr="v">`
    Start(Element),
    /// `</name>`, holding the name
    End(Vec<u8>),
    /// `<name attr="v"/>`
    Empty(Element),
    /// character data, still escaped
    Text(Vec<u8>),
    /// a comment, CDATA section, declaration, processing instruction or
    /// doctype, holding the bytes between its delimiters
    Markup(MarkupKind, Vec<u8>),
}

pub struct ElementView {
    pub name: Seq<u8>,
    pub attributes: Seq<(Seq<u8>, Seq<u8>)>,
}

pub enum EventView {
    Start(ElementView),
    End(Seq<u8>),
    Empty(ElementView),
    Text(Seq<u8>),
    Markup(MarkupKind, Seq<u8>),
}

impl View for Attribute {
    type V = (Seq<u8>, Seq<u8>);

    open spec fn view(&self) -> (Seq<u8>, Seq<u8>) {
        (self.key@, self.value@)
    }
}

impl View for Element {
    type V = ElementView;

    open spec fn view(&self) -> ElementView {
        ElementView {
            name: self.name@,
            attributes: self.attributes@.map_values(|a: Attribute| a@),
        }
    }
}

impl View for XmlEvent {
    type V = EventView;

    open spec fn view(&self) -> EventView {
        match self {
            XmlEvent::Start(e) => EventView::Start(e@),
            XmlEvent::End(n) => EventView::End(n@),
            XmlEvent::Empty(e) => EventView::Empty(e@),
            XmlEvent::Text(t) => EventView::Text(t@),
            XmlEvent::Markup(k, t) => EventView::Markup(*k, t@),
        }
    }
}

/// The views of a sequence of events.
pub open spec fn events_view(evs: Seq<XmlEvent>) -> Seq<EventView> {
    evs.map_values(|e: XmlEvent| e@)
}

/// `g`: the tag of a drawing layer.
pub open spec fn group_tag() -> Seq<u8> {
    seq![103u8]
}

/// `image`
pub open spec fn image_tag() -> Seq<u8> {
    seq![105u8, 109, 97, 103, 101]
}

/// `rect`
pub open spec fn rect_tag() -> Seq<u8> {
    seq![114u8, 101, 99, 116]
}

/// `id`
pub open spec fn id_key() -> Seq<u8> {
    seq![105u8, 100]
}

/// `width`
pub open spec fn width_key() -> Seq<u8> {
    seq![119u8, 105, 100, 116, 104]
}

/// `height`
pub open spec fn height_key() -> Seq<u8> {
    seq![104u8, 101, 105, 103, 104, 116]
}

/// `xlink:href`: the attribute that holds an image's encoded data.
pub open spec fn href_key() -> Seq<u8> {
    seq![120u8, 108, 105, 110, 107, 58, 104, 114, 101, 102]
}

/// The first index at or after `i` that holds a `:`.
pub open spec fn first_colon(n: Seq<u8>, i: int) -> int
    decreases n.len() - i,
{
    if i < 0 || i >= n.len() || n[i] == 58u8 {
        i
    } else {
        first_colon(n, i + 1)
    }
}

/// A tag name without its namespace prefix: what follows the first `:`, or
/// the whole name when it has none.
pub open spec fn local_name(n: Seq<u8>) -> Seq<u8> {
    let k = first_colon(n, 0);
    if 0 <= k < n.len() {
        n.skip(k + 1)
    } else {
        n
    }
}

/// Is this event the start tag of a drawing layer?
pub open spec fn is_group_start(e: EventView) -> bool {
    e is Start && local_name(e->Start_0.name) == group_tag()
}

/// Where the local part of a tag name starts.
fn local_start(n: &Vec<u8>) -> (r: usize)
    ensures
        r <= n@.len(),
        n@.skip(r as int) == local_name(n@),
{
    let mut i: usize = 0;
    while i < n.len() && n[i] != 58u8
        invariant
            i <= n@.len(),
            first_colon(n@, i as int) == first_colon(n@, 0),
        decreases n@.len() - i,
    {
        i += 1;
    }
    if i < n.len() {
        i + 1
    } else {
        assert(n@.skip(0) =~= n@);
        0
    }
}

/// Is the local part of tag name `n` equal to `lit`?
fn local_name_is(n: &Vec<u8>, lit: &[u8]) -> (r: bool)
    ensures
        r == (local_name(n@) == lit@),
{
    let start = local_start(n);
    let len = n.len();
    if len - start != lit.len() {
        return false;
    }
    let mut i: usize = 0;
    while i < lit.len()
        invariant
            len == n@.len(),
            start <= n@.len(),
            n@.len() == start + lit@.len(),
            i <= lit@.len(),
            forall|m: int| 0 <= m < i ==> n@[start + m] == lit@[m],
        decreases lit@.len() - i,
    {
        if n[start + i] != lit[i] {
            assert(n@.skip(start as int)[i as int] != lit@[i as int]);
            return false;
        }
        i += 1;
    }
    assert(n@.skip(start as int) =~= lit@);
    true
}

/// Compares two byte strings.
pub fn same_bytes(a: &[u8], b: &[u8]) -> (r: bool)
    ensures
        r == (a@ == b@),
{
    if a.len() != b.len() {
        return false;
    }
    let mut i: usize = 0;
    while i < a.len()
        invariant
            a@.len() == b@.len(),
            i <= a@.len(),
            a@.subrange(0, i as int) == b@.subrange(0, i as int),
        decreases a@.len() - i,
    {
        if a[i] != b[i] {
            assert(a@[i as int] != b@[i as int]);
            return false;
        }
        assert(a@.subrange(0, i + 1) == a@.subrange(0, i as int).push(a@[i as int]));
        assert(b@.subrange(0, i + 1) == b@.subrange(0, i as int).push(b@[i as int]));
        i += 1;
    }
    assert(a@ == a@.subrange(0, i as int));
    assert(b@ == b@.subrange(0, i as int));
    true
}

/// Is the local part of tag name `n` `g`?
pub fn is_group_tag(n: &Vec<u8>) -> (r: bool)
    ensures
        r == (local_name(n@) == group_tag()),
{
    let lit = [103u8];
    assert(lit@ == group_tag());
    local_name_is(n, lit.as_slice())
}

/// Is the local part of tag name `n` `image`?
pub fn is_image_tag(n: &Vec<u8>) -> (r: bool)
    ensures
        r == (local_name(n@) == image_tag()),
{
    let lit = [105u8, 109, 97, 103, 101];
    assert(lit@ == image_tag());
    local_name_is(n, lit.as_slice())
}

/// Is the local part of tag name `n` `rect`?
pub fn is_rect_tag(n: &Vec<u8>) -> (r: bool)
    ensures
        r == (local_name(n@) == rect_tag()),
{
    let lit = [114u8, 101, 99, 116];
    assert(lit@ == rect_tag());
    local_name_is(n, lit.as_slice())
}

pub fn is_id_key(n: &Vec<u8>) -> (r: bool)
    ensures
        r == (n@ == id_key()),
{
    let lit = [105u8, 100];
    assert(lit@ == id_key());
    same_bytes(n.as_slice(), lit.as_slice())
}

pub fn is_width_key(n: &Vec<u8>) -> (r: bool)
    ensures
        r == (n@ == width_key()),
{
    let lit = [119u8, 105, 100, 116, 104];
    assert(lit@ == width_key());
    same_bytes(n.as_slice(), lit.as_slice())
}

pub fn is_height_key(n: &Vec<u8>) -> (r: bool)
    ensures
        r == (n@ == height_key()),
{
    let lit = [104u8, 101, 105, 103, 104, 116];
    assert(lit@ == height_key());
    same_bytes(n.as_slice(), lit.as_slice())
}

pub fn is_href_key(n: &Vec<u8>) -> (r: bool)
    ensures
        r == (n@ == href_key()),
{
    let lit = [120u8, 108, 105, 110, 107, 58, 104, 114, 101, 102];
    assert(lit@ == href_key());
    same_bytes(n.as_slice(), lit.as_slice())
}

/// A fresh copy of the `xlink:href` key.
pub fn href_key_bytes() -> (r: Vec<u8>)
    ensures
        r@ == href_key(),
{
    vec![120u8, 108, 105, 110, 107, 58, 104, 114, 101, 102]
}

/// A copy of a byte string.
pub fn copy_bytes(b: &Vec<u8>) -> (r: Vec<u8>)
    ensures
        r@ == b@,
{
    b.clone()
}

} // verus!
