use vstd::prelude::*;

use vstd::string::StringExecFns;

use crate::event::{href_key, href_key_bytes, is_href_key, Attribute, Element, ElementView};
use crate::inkscape::{doc_events, find_attr, DocView, GroupView, Inkscape};
use crate::object::{ident_of, is_classified, Object, ObjectView};

verus! {

/// The two kinds of object that carry identifiers.
#[derive(Clone, Copy, Debug, PartialEq, Eq, Structural)]
pub enum ObjectKind {
    Rectangle,
    Image,
}

/// Why an image could not be replaced.
#[derive(Debug, PartialEq, Eq)]
pub enum LookupError {
    /// no rectangle or image has this id
    NotFound { id: String },
    /// the first object with this id is not of the kind asked for
    TypeMismatch { id: String, expected: ObjectKind, actual: ObjectKind },
}

pub enum LookupErrorView {
    NotFound(Seq<char>),
    TypeMismatch(Seq<char>, ObjectKind, ObjectKind),
}

impl View for LookupError {
    type V = LookupErrorView;

    open spec fn view(&self) -> LookupErrorView {
        match self {
            LookupError::NotFound { id } => LookupErrorView::NotFound(id@),
            LookupError::TypeMismatch { id, expected, actual } => LookupErrorView::TypeMismatch(
                id@,
                *expected,
                *actual,
            ),
        }
    }
}

/// The ids of the rectangles and images among `os`, in order.
pub open spec fn object_ids(os: Seq<ObjectView>) -> Seq<Seq<char>>
    decreases os.len(),
{
    if os.len() == 0 {
        seq![]
    } else if is_classified(os.last()) {
        object_ids(os.drop_last()).push(ident_of(os.last()).id)
    } else {
        object_ids(os.drop_last())
    }
}

/// The ids of the rectangles and images of a run of layers, in order.
pub open spec fn layer_ids(gs: Seq<GroupView>) -> Seq<Seq<char>>
    decreases gs.len(),
{
    if gs.len() == 0 {
        seq![]
    } else {
        layer_ids(gs.drop_last()) + object_ids(gs.last().content)
    }
}

/// The ids of a document's rectangles and images, in document order.
pub open spec fn ids_of(d: DocView) -> Seq<Seq<char>> {
    layer_ids(d.layers)
}

/// Holds of rectangles and images.
pub open spec fn classified() -> spec_fn(ObjectView) -> bool {
    |o: ObjectView| is_classified(o)
}

/// The number of rectangles and images in a run of layers.
pub open spec fn classified_total(gs: Seq<GroupView>) -> nat
    decreases gs.len(),
{
    if gs.len() == 0 {
        0
    } else {
        classified_total(gs.drop_last()) + gs.last().content.filter(classified()).len()
    }
}

pub open spec fn has_id(o: ObjectView, id: Seq<char>) -> bool {
    is_classified(o) && ident_of(o).id == id
}

/// The first index at or after `j` of an object with this id.
pub open spec fn find_object(os: Seq<ObjectView>, id: Seq<char>, j: int) -> int
    decreases os.len() - j,
{
    if j < 0 || j >= os.len() || has_id(os[j], id) {
        j
    } else {
        find_object(os, id, j + 1)
    }
}

/// The first index at or after `i` of a layer that holds an object with this
/// id.
pub open spec fn find_layer(gs: Seq<GroupView>, id: Seq<char>, i: int) -> int
    decreases gs.len() - i,
{
    if i < 0 || i >= gs.len() || find_object(gs[i].content, id, 0) < gs[i].content.len() {
        i
    } else {
        find_layer(gs, id, i + 1)
    }
}

/// `e` with its `xlink:href` attribute set to `p`: the first such attribute
/// takes the value, or one is added at the end when there is none.
pub open spec fn with_href(e: ElementView, p: Seq<u8>) -> ElementView {
    let k = find_attr(e.attributes, href_key(), 0);
    if 0 <= k < e.attributes.len() {
        ElementView { attributes: e.attributes.update(k, (href_key(), p)), ..e }
    } else {
        ElementView { attributes: e.attributes.push((href_key(), p)), ..e }
    }
}

/// The document after the image with id `id` takes the payload `p`, or why it
/// cannot.
pub open spec fn update_spec(d: DocView, id: Seq<char>, p: Seq<u8>) -> Result<DocView, LookupErrorView> {
    let i = find_layer(d.layers, id, 0);
    if !(0 <= i < d.layers.len()) {
        Err(LookupErrorView::NotFound(id))
    } else {
        let g = d.layers[i];
        let j = find_object(g.content, id, 0);
        match g.content[j] {
            ObjectView::Image(ident, e) => Ok(
                DocView {
                    layers: d.layers.update(
                        i,
                        GroupView {
                            content: g.content.update(j, ObjectView::Image(ident, with_href(e, p))),
                            ..g
                        },
                    ),
                    ..d
                },
            ),
            _ => Err(LookupErrorView::TypeMismatch(id, ObjectKind::Image, ObjectKind::Rectangle)),
        }
    }
}

proof fn lemma_find_attr(attrs: Seq<(Seq<u8>, Seq<u8>)>, key: Seq<u8>, i: int)
    requires
        0 <= i <= attrs.len(),
    ensures
        i <= find_attr(attrs, key, i) <= attrs.len(),
        forall|m: int| i <= m < find_attr(attrs, key, i) ==> (#[trigger] attrs[m]).0 != key,
        find_attr(attrs, key, i) < attrs.len() ==> attrs[find_attr(attrs, key, i)].0 == key,
    decreases attrs.len() - i,
{
    if i < attrs.len() && attrs[i].0 != key {
        lemma_find_attr(attrs, key, i + 1);
    }
}

proof fn lemma_find_object(os: Seq<ObjectView>, id: Seq<char>, j: int)
    requires
        0 <= j <= os.len(),
    ensures
        j <= find_object(os, id, j) <= os.len(),
        forall|m: int| j <= m < find_object(os, id, j) ==> !has_id(#[trigger] os[m], id),
        find_object(os, id, j) < os.len() ==> has_id(os[find_object(os, id, j)], id),
    decreases os.len() - j,
{
    if j < os.len() && !has_id(os[j], id) {
        lemma_find_object(os, id, j + 1);
    }
}

proof fn lemma_find_layer(gs: Seq<GroupView>, id: Seq<char>, i: int)
    requires
        0 <= i <= gs.len(),
    ensures
        i <= find_layer(gs, id, i) <= gs.len(),
        forall|m: int|
            i <= m < find_layer(gs, id, i) ==> find_object((#[trigger] gs[m]).content, id, 0)
                >= gs[m].content.len(),
        find_layer(gs, id, i) < gs.len() ==> find_object(gs[find_layer(gs, id, i)].content, id, 0)
            < gs[find_layer(gs, id, i)].content.len(),
    decreases gs.len() - i,
{
    if i < gs.len() && find_object(gs[i].content, id, 0) >= gs[i].content.len() {
        lemma_find_layer(gs, id, i + 1);
    }
}

impl Element {
    /// Sets the `xlink:href` attribute, where an image keeps its encoded
    /// data, to `payload`; the other attributes are left as they are.
    pub fn set_href(&mut self, payload: Vec<u8>)
        ensures
            final(self)@ == with_href(old(self)@, payload@),
    {
        let ghost attrs = self@.attributes;
        proof {
            lemma_find_attr(attrs, href_key(), 0);
        }
        let mut k: usize = 0;
        while k < self.attributes.len()
            invariant
                attrs == self@.attributes,
                self@ == old(self)@,
                k <= attrs.len(),
                find_attr(attrs, href_key(), k as int) == find_attr(attrs, href_key(), 0),
            decreases attrs.len() - k,
        {
            assert(attrs[k as int] == self.attributes@[k as int]@);
            if is_href_key(&self.attributes[k].key) {
                let key = href_key_bytes();
                self.attributes.set(k, Attribute { key, value: payload });
                assert(self@.attributes =~= attrs.update(k as int, (href_key(), payload@)));
                return;
            }
            k += 1;
        }
        self.attributes.push(Attribute { key: href_key_bytes(), value: payload });
        assert(self@.attributes =~= attrs.push((href_key(), payload@)));
    }
}

pub open spec fn strings_view(s: Seq<String>) -> Seq<Seq<char>> {
    s.map_values(|x: String| x@)
}

proof fn lemma_strings_view_push(s: Seq<String>, x: String)
    ensures
        strings_view(s.push(x)) == strings_view(s).push(x@),
{
    assert(strings_view(s.push(x)) =~= strings_view(s).push(x@));
}

impl Inkscape {
    /// The ids of every rectangle and image, in document order.
    pub fn ids(&self) -> (r: Vec<String>)
        ensures
            strings_view(r@) == ids_of(self@),
    {
        let ghost gs = self@.layers;
        let mut out: Vec<String> = Vec::new();
        let mut i: usize = 0;
        assert(gs.take(0) =~= seq![]);
        assert(strings_view(out@) =~= seq![]);
        while i < self.layers.len()
            invariant
                gs == self@.layers,
                i <= gs.len(),
                strings_view(out@) == layer_ids(gs.take(i as int)),
            decreases gs.len() - i,
        {
            let group = &self.layers[i];
            let ghost os = gs[i as int].content;
            assert(os == group@.content);
            let ghost base = strings_view(out@);
            let mut j: usize = 0;
            assert(os.take(0) =~= seq![]);
            assert(base =~= base + object_ids(os.take(0)));
            while j < group.content.len()
                invariant
                    os == group@.content,
                    j <= os.len(),
                    strings_view(out@) == base + object_ids(os.take(j as int)),
                decreases os.len() - j,
            {
                assert(os.take(j + 1).drop_last() =~= os.take(j as int));
                assert(os[j as int] == group.content@[j as int]@);
                let ghost prev = out@;
                match &group.content[j] {
                    Object::Rectangle(rect) => {
                        out.push(rect.ident.id.clone());
                        proof {
                            lemma_strings_view_push(prev, out@.last());
                        }
                    },
                    Object::Image(image) => {
                        out.push(image.ident.id.clone());
                        proof {
                            lemma_strings_view_push(prev, out@.last());
                        }
                    },
                    Object::Other(_) => {},
                }
                assert(strings_view(out@) =~= base + object_ids(os.take(j + 1)));
                j += 1;
            }
            assert(os.take(j as int) =~= os);
            assert(gs.take(i + 1).drop_last() =~= gs.take(i as int));
            assert(gs.take(i + 1).last() == gs[i as int]);
            i += 1;
        }
        assert(gs.take(i as int) =~= gs);
        out
    }

    /// Where the first rectangle or image with id `key` stands: its layer and
    /// its place in that layer.
    fn locate(&self, key: &String) -> (r: Option<(usize, usize)>)
        ensures
            ({
                let gs = self@.layers;
                let i = find_layer(gs, key@, 0);
                match r {
                    None => i >= gs.len(),
                    Some((a, b)) => {
                        &&& a == i
                        &&& i < gs.len()
                        &&& b == find_object(gs[i].content, key@, 0)
                    },
                }
            }),
    {
        let ghost gs = self@.layers;
        let mut i: usize = 0;
        while i < self.layers.len()
            invariant
                gs == self@.layers,
                i <= gs.len(),
                find_layer(gs, key@, i as int) == find_layer(gs, key@, 0),
            decreases gs.len() - i,
        {
            let group = &self.layers[i];
            let ghost os = gs[i as int].content;
            assert(os == group@.content);
            let mut j: usize = 0;
            while j < group.content.len()
                invariant
                    gs == self@.layers,
                    i < gs.len(),
                    find_layer(gs, key@, i as int) == find_layer(gs, key@, 0),
                    os == gs[i as int].content,
                    os == group@.content,
                    j <= os.len(),
                    find_object(os, key@, j as int) == find_object(os, key@, 0),
                decreases os.len() - j,
            {
                assert(os[j as int] == group.content@[j as int]@);
                let hit = match &group.content[j] {
                    Object::Rectangle(rect) => rect.ident.id == *key,
                    Object::Image(image) => image.ident.id == *key,
                    Object::Other(_) => false,
                };
                if hit {
                    assert(has_id(os[j as int], key@));
                    assert(find_object(os, key@, j as int) == j);
                    proof {
                        lemma_find_object(os, key@, 0);
                    }
                    assert(find_layer(gs, key@, i as int) == i);
                    return Some((i, j));
                }
                j += 1;
            }
            i += 1;
        }
        None
    }

    /// Replaces the encoded data of the image with id `id` by `payload`.
    /// The first rectangle or image with that id is the one meant: when there
    /// is none, or it is a rectangle, the document is left as it is.
    pub fn id_to_image(&mut self, id: &str, payload: Vec<u8>) -> (r: Result<(), LookupError>)
        ensures
            match r {
                Ok(_) => update_spec(old(self)@, id@, payload@) == Ok::<DocView, LookupErrorView>(
                    final(self)@,
                ),
                Err(e) => {
                    &&& update_spec(old(self)@, id@, payload@) == Err::<DocView, LookupErrorView>(
                        e@,
                    )
                    &&& final(self)@ == old(self)@
                },
            },
    {
        let key = String::from_str(id);
        let ghost d = self@;
        proof {
            lemma_find_layer(d.layers, id@, 0);
        }
        match self.locate(&key) {
            None => Err(LookupError::NotFound { id: key }),
            Some((i, j)) => {
                proof {
                    lemma_find_object(d.layers[i as int].content, id@, 0);
                }
                let ghost g = d.layers[i as int];
                assert(g == self.layers@[i as int]@);
                assert(g.content[j as int] == self.layers@[i as int].content@[j as int]@);
                let is_image = match &self.layers[i].content[j] {
                    Object::Image(_) => true,
                    _ => false,
                };
                if is_image {
                    match &mut self.layers[i].content[j] {
                        Object::Image(image) => {
                            image.element.set_href(payload);
                        },
                        _ => {},
                    }
                    assert(g.content[j as int] is Image);
                    assert(self@.leading == d.leading);
                    assert(self@.trailing == d.trailing);
                    assert(self@.layers[i as int].content =~= g.content.update(
                        j as int,
                        ObjectView::Image(
                            g.content[j as int]->Image_0,
                            with_href(g.content[j as int]->Image_1, payload@),
                        ),
                    ));
                    assert(self@.layers =~= d.layers.update(
                        i as int,
                        GroupView { content: self@.layers[i as int].content, ..g },
                    ));
                    assert(self@ =~= update_spec(d, id@, payload@)->Ok_0);
                    Ok(())
                } else {
                    Err(
                        LookupError::TypeMismatch {
                            id: key,
                            expected: ObjectKind::Image,
                            actual: ObjectKind::Rectangle,
                        },
                    )
                }
            },
        }
    }
}

// ----- laws -----

/// The ids of a layer's objects are those of its rectangles and images, in
/// order.
pub proof fn lemma_object_ids_filter(os: Seq<ObjectView>)
    ensures
        object_ids(os) == os.filter(classified()).map_values(|o: ObjectView| ident_of(o).id),
    decreases os.len(),
{
    reveal(Seq::filter);
    if os.len() > 0 {
        lemma_object_ids_filter(os.drop_last());
        let f = os.drop_last().filter(classified());
        if is_classified(os.last()) {
            assert(f.push(os.last()).map_values(|o: ObjectView| ident_of(o).id) =~= f.map_values(
                |o: ObjectView| ident_of(o).id,
            ).push(ident_of(os.last()).id));
        }
    } else {
        assert(os.filter(classified()).map_values(|o: ObjectView| ident_of(o).id) =~= seq![]);
    }
}

/// `ids` yields one entry for each rectangle and image of each layer: as many
/// as the layers hold together.
pub proof fn lemma_ids_complete(d: DocView)
    ensures
        ids_of(d).len() == classified_total(d.layers),
{
    lemma_layer_ids_len(d.layers);
}

proof fn lemma_layer_ids_len(gs: Seq<GroupView>)
    ensures
        layer_ids(gs).len() == classified_total(gs),
    decreases gs.len(),
{
    if gs.len() > 0 {
        lemma_layer_ids_len(gs.drop_last());
        lemma_object_ids_filter(gs.last().content);
    }
}

proof fn lemma_find_attr_at(attrs: Seq<(Seq<u8>, Seq<u8>)>, key: Seq<u8>, i: int, k: int)
    requires
        0 <= i <= k <= attrs.len(),
        forall|m: int| i <= m < k ==> (#[trigger] attrs[m]).0 != key,
        k < attrs.len() ==> attrs[k].0 == key,
    ensures
        find_attr(attrs, key, i) == k,
    decreases k - i,
{
    if i < k {
        lemma_find_attr_at(attrs, key, i + 1, k);
    }
}

proof fn lemma_with_href_twice(e: ElementView, p: Seq<u8>)
    ensures
        with_href(with_href(e, p), p) == with_href(e, p),
{
    let attrs = e.attributes;
    let k = find_attr(attrs, href_key(), 0);
    lemma_find_attr(attrs, href_key(), 0);
    let a1 = with_href(e, p).attributes;
    if 0 <= k < attrs.len() {
        assert forall|m: int| 0 <= m < k implies (#[trigger] a1[m]).0 != href_key() by {
            assert(a1[m] == attrs[m]);
        }
        lemma_find_attr_at(a1, href_key(), 0, k);
        assert(a1.update(k, (href_key(), p)) =~= a1);
    } else {
        assert forall|m: int| 0 <= m < attrs.len() implies (#[trigger] a1[m]).0 != href_key() by {
            assert(a1[m] == attrs[m]);
        }
        lemma_find_attr_at(a1, href_key(), 0, attrs.len() as int);
        assert(a1.update(attrs.len() as int, (href_key(), p)) =~= a1);
    }
}

proof fn lemma_find_object_same(os1: Seq<ObjectView>, os2: Seq<ObjectView>, id: Seq<char>, j: int)
    requires
        0 <= j <= os1.len(),
        os1.len() == os2.len(),
        forall|m: int| 0 <= m < os1.len() ==> has_id(#[trigger] os1[m], id) == has_id(os2[m], id),
    ensures
        find_object(os1, id, j) == find_object(os2, id, j),
    decreases os1.len() - j,
{
    if j < os1.len() {
        lemma_find_object_same(os1, os2, id, j + 1);
    }
}

proof fn lemma_find_layer_same(gs1: Seq<GroupView>, gs2: Seq<GroupView>, id: Seq<char>, i: int)
    requires
        0 <= i <= gs1.len(),
        gs1.len() == gs2.len(),
        forall|m: int|
            0 <= m < gs1.len() ==> (#[trigger] gs1[m]).content.len() == gs2[m].content.len()
                && find_object(gs1[m].content, id, 0) == find_object(gs2[m].content, id, 0),
    ensures
        find_layer(gs1, id, i) == find_layer(gs2, id, i),
    decreases gs1.len() - i,
{
    if i < gs1.len() {
        lemma_find_layer_same(gs1, gs2, id, i + 1);
    }
}

/// Giving an image the same payload a second time changes nothing: the
/// document, and so what it is written as, is the one that the first call
/// left.
pub proof fn lemma_id_to_image_idempotent(d: DocView, id: Seq<char>, p: Seq<u8>)
    requires
        update_spec(d, id, p) is Ok,
    ensures
        update_spec(update_spec(d, id, p)->Ok_0, id, p) == update_spec(d, id, p),
        doc_events(update_spec(update_spec(d, id, p)->Ok_0, id, p)->Ok_0) == doc_events(
            update_spec(d, id, p)->Ok_0,
        ),
{
    let d1 = update_spec(d, id, p)->Ok_0;
    let i = find_layer(d.layers, id, 0);
    lemma_find_layer(d.layers, id, 0);
    let g = d.layers[i];
    let j = find_object(g.content, id, 0);
    lemma_find_object(g.content, id, 0);
    let ident = g.content[j]->Image_0;
    let e = g.content[j]->Image_1;
    let g1 = d1.layers[i];
    assert(g1.content == g.content.update(j, ObjectView::Image(ident, with_href(e, p))));
    assert forall|m: int| 0 <= m < g.content.len() implies has_id(#[trigger] g.content[m], id)
        == has_id(g1.content[m], id) by {}
    lemma_find_object_same(g.content, g1.content, id, 0);
    assert forall|m: int| 0 <= m < d.layers.len() implies (#[trigger] d.layers[m]).content.len()
        == d1.layers[m].content.len() && find_object(d.layers[m].content, id, 0) == find_object(
        d1.layers[m].content,
        id,
        0,
    ) by {}
    lemma_find_layer_same(d.layers, d1.layers, id, 0);
    lemma_with_href_twice(e, p);
    let d2 = update_spec(d1, id, p)->Ok_0;
    assert(d2.layers[i].content =~= g1.content);
    assert(d2.layers =~= d1.layers);
    assert(d2 == d1);
}

} // verus!
