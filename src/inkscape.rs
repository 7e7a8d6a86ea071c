use vstd::prelude::*;

use std::collections::VecDeque;

use crate::event::{
    copy_bytes, id_key, is_group_start, is_group_tag, is_id_key, Element, ElementView,
    EventView, XmlEvent, events_view,
};
use crate::text::utf8_string;
use vstd::utf8::{decode_utf8, valid_utf8};
use crate::object::{classify, object, object_event, Object, ObjectError, ObjectErrorView, ObjectView};

verus! {

/// A drawing layer: its start tag, its content and its end tag's name.
#[derive(Debug, PartialEq, Eq)]
pub struct Group {
    pub header: Element,
    pub content: Vec<Object>,
    pub footer: Vec<u8>,
}

/// A parsed document: what comes before the first layer, the layers, and what
/// follows the last one.
#[derive(Debug, PartialEq, Eq)]
pub struct Inkscape {
    pub leading_events: Vec<XmlEvent>,
    pub layers: Vec<Group>,
    pub trailing_events: Vec<XmlEvent>,
}

pub struct GroupView {
    pub header: ElementView,
    pub content: Seq<ObjectView>,
    pub footer: Seq<u8>,
}

pub struct DocView {
    pub leading: Seq<EventView>,
    pub layers: Seq<GroupView>,
    pub trailing: Seq<EventView>,
}

impl View for Group {
    type V = GroupView;

    open spec fn view(&self) -> GroupView {
        GroupView {
            header: self.header@,
            content: self.content@.map_values(|o: Object| o@),
            footer: self.footer@,
        }
    }
}

pub open spec fn groups_view(gs: Seq<Group>) -> Seq<GroupView> {
    gs.map_values(|g: Group| g@)
}

impl View for Inkscape {
    type V = DocView;

    open spec fn view(&self) -> DocView {
        DocView {
            leading: events_view(self.leading_events@),
            layers: groups_view(self.layers@),
            trailing: events_view(self.trailing_events@),
        }
    }
}

/// Why a document could not be parsed; `group_id` is the `id` attribute of the
/// layer where it happened, if it has one.
#[derive(Debug, PartialEq, Eq)]
pub enum ParseError {
    /// the input ended inside a layer
    MissingGroupFooter { group_id: Option<Vec<u8>> },
    /// a `rect` or `image` of the layer could not be classified
    InvalidObject { group_id: Option<Vec<u8>>, error: ObjectError },
}

pub enum ParseErrorView {
    MissingGroupFooter(Option<Seq<u8>>),
    InvalidObject(Option<Seq<u8>>, ObjectErrorView),
}

pub open spec fn bytes_opt_view(o: Option<Vec<u8>>) -> Option<Seq<u8>> {
    match o {
        Some(b) => Some(b@),
        None => None,
    }
}

impl View for ParseError {
    type V = ParseErrorView;

    open spec fn view(&self) -> ParseErrorView {
        match self {
            ParseError::MissingGroupFooter { group_id } => ParseErrorView::MissingGroupFooter(
                bytes_opt_view(*group_id),
            ),
            ParseError::InvalidObject { group_id, error } => ParseErrorView::InvalidObject(
                bytes_opt_view(*group_id),
                error@,
            ),
        }
    }
}

// ----- the document's structure, stated over event sequences -----

/// The first index at or after `i` that holds a layer's start tag.
pub open spec fn first_group_start(v: Seq<EventView>, i: int) -> int
    decreases v.len() - i,
{
    if i < 0 || i >= v.len() || is_group_start(v[i]) {
        i
    } else {
        first_group_start(v, i + 1)
    }
}

/// The first index at or after `i` that holds an end tag.
pub open spec fn first_end(v: Seq<EventView>, i: int) -> int
    decreases v.len() - i,
{
    if i < 0 || i >= v.len() || v[i] is End {
        i
    } else {
        first_end(v, i + 1)
    }
}

/// The first index at or after `i` of an attribute with key `key`.
pub open spec fn find_attr(attrs: Seq<(Seq<u8>, Seq<u8>)>, key: Seq<u8>, i: int) -> int
    decreases attrs.len() - i,
{
    if i < 0 || i >= attrs.len() || attrs[i].0 == key {
        i
    } else {
        find_attr(attrs, key, i + 1)
    }
}

/// The value of the first attribute of `e` with key `key`.
pub open spec fn attr_value(e: ElementView, key: Seq<u8>) -> Option<Seq<u8>> {
    let k = find_attr(e.attributes, key, 0);
    if 0 <= k < e.attributes.len() {
        Some(e.attributes[k].1)
    } else {
        None
    }
}

/// How an event inside a layer becomes an object.
pub open spec fn classify_event(e: EventView) -> Result<ObjectView, ObjectErrorView> {
    match e {
        EventView::Empty(el) => classify(el),
        _ => Ok(ObjectView::Other(e)),
    }
}

/// The objects of a layer's content, or the first failure among them.
pub open spec fn classify_all(v: Seq<EventView>) -> Result<Seq<ObjectView>, ObjectErrorView>
    decreases v.len(),
{
    if v.len() == 0 {
        Ok(seq![])
    } else {
        match classify_all(v.drop_last()) {
            Err(e) => Err(e),
            Ok(os) => match classify_event(v.last()) {
                Ok(o) => Ok(os.push(o)),
                Err(e) => Err(e),
            },
        }
    }
}

/// One layer, read from the events `v` that follow its start tag `header`:
/// the layer and the events after its end tag.
pub open spec fn group_spec(header: ElementView, v: Seq<EventView>) -> Result<
    (GroupView, Seq<EventView>),
    ParseErrorView,
> {
    let f = first_end(v, 0);
    match classify_all(v.take(f)) {
        Err(e) => Err(ParseErrorView::InvalidObject(attr_value(header, id_key()), e)),
        Ok(content) => if f >= v.len() {
            Err(ParseErrorView::MissingGroupFooter(attr_value(header, id_key())))
        } else {
            Ok((GroupView { header, content, footer: v[f]->End_0 }, v.skip(f + 1)))
        },
    }
}

/// A run of sibling layers, the first opened by `header`: the layers and the
/// events after the last one.
pub open spec fn groups_spec(header: ElementView, v: Seq<EventView>) -> Result<
    (Seq<GroupView>, Seq<EventView>),
    ParseErrorView,
>
    decreases v.len(),
{
    match group_spec(header, v) {
        Err(e) => Err(e),
        Ok((g, rest)) => if 0 < rest.len() < v.len() && is_group_start(rest[0]) {
            match groups_spec(rest[0]->Start_0, rest.skip(1)) {
                Ok((gs, t)) => Ok((seq![g] + gs, t)),
                Err(e) => Err(e),
            }
        } else {
            Ok((seq![g], rest))
        },
    }
}

/// The document that a sequence of events parses to.
pub open spec fn parse_spec(v: Seq<EventView>) -> Result<DocView, ParseErrorView> {
    let s = first_group_start(v, 0);
    if s >= v.len() {
        Ok(DocView { leading: v, layers: seq![], trailing: seq![] })
    } else {
        match groups_spec(v[s]->Start_0, v.skip(s + 1)) {
            Ok((gs, t)) => Ok(DocView { leading: v.take(s), layers: gs, trailing: t }),
            Err(e) => Err(e),
        }
    }
}

pub open spec fn opt_event(e: Option<XmlEvent>) -> Seq<EventView> {
    match e {
        Some(ev) => seq![ev@],
        None => seq![],
    }
}

// ----- lemmas on the structure -----

proof fn lemma_first_end(v: Seq<EventView>, i: int)
    requires
        0 <= i <= v.len(),
    ensures
        i <= first_end(v, i) <= v.len(),
        forall|j: int| i <= j < first_end(v, i) ==> !(#[trigger] v[j] is End),
        first_end(v, i) < v.len() ==> v[first_end(v, i)] is End,
    decreases v.len() - i,
{
    if i < v.len() && !(v[i] is End) {
        lemma_first_end(v, i + 1);
    }
}

proof fn lemma_first_group_start(v: Seq<EventView>, i: int)
    requires
        0 <= i <= v.len(),
    ensures
        i <= first_group_start(v, i) <= v.len(),
        forall|j: int| i <= j < first_group_start(v, i) ==> !is_group_start(#[trigger] v[j]),
        first_group_start(v, i) < v.len() ==> is_group_start(v[first_group_start(v, i)]),
    decreases v.len() - i,
{
    if i < v.len() && !is_group_start(v[i]) {
        lemma_first_group_start(v, i + 1);
    }
}

proof fn lemma_group_rest_shorter(header: ElementView, v: Seq<EventView>)
    requires
        group_spec(header, v) is Ok,
    ensures
        group_spec(header, v)->Ok_0.1.len() < v.len(),
{
    lemma_first_end(v, 0);
}

/// Once a layer's content fails to classify, more content fails the same way.
proof fn lemma_classify_stops(w: Seq<EventView>, k: int, n: int)
    requires
        0 <= k <= n <= w.len(),
        classify_all(w.take(k)) is Err,
    ensures
        classify_all(w.take(n)) == classify_all(w.take(k)),
    decreases n - k,
{
    if k < n {
        lemma_classify_stops(w, k, n - 1);
        assert(w.take(n).drop_last() == w.take(n - 1));
    }
}

proof fn lemma_events_view_push(s: Seq<XmlEvent>, e: XmlEvent)
    ensures
        events_view(s.push(e)) == events_view(s).push(e@),
{
    assert(events_view(s.push(e)) =~= events_view(s).push(e@));
}

proof fn lemma_objects_view_push(s: Seq<Object>, o: Object)
    ensures
        s.push(o).map_values(|x: Object| x@) == s.map_values(|x: Object| x@).push(o@),
{
    assert(s.push(o).map_values(|x: Object| x@) =~= s.map_values(|x: Object| x@).push(o@));
}

proof fn lemma_groups_view_push(s: Seq<Group>, g: Group)
    ensures
        groups_view(s.push(g)) == groups_view(s).push(g@),
{
    assert(groups_view(s.push(g)) =~= groups_view(s).push(g@));
}

// ----- parsing -----

/// The events of `v`, in order, as a queue.
fn into_queue<T>(v: Vec<T>) -> (r: VecDeque<T>)
    ensures
        r@ == v@,
{
    let ghost all = v@;
    let mut v = v;
    let mut r: VecDeque<T> = VecDeque::new();
    while v.len() > 0
        invariant
            all == v@ + r@,
        decreases v@.len(),
    {
        let x = v.pop().unwrap();
        r.push_front(x);
        assert(all == v@ + r@);
    }
    assert(all == r@);
    r
}

/// Takes the next event of the input.
fn next_event(stream: &mut VecDeque<XmlEvent>) -> (r: Option<XmlEvent>)
    ensures
        match r {
            Some(e) => {
                &&& events_view(old(stream)@).len() > 0
                &&& e@ == events_view(old(stream)@)[0]
                &&& events_view(final(stream)@) == events_view(old(stream)@).skip(1)
            },
            None => {
                &&& events_view(old(stream)@).len() == 0
                &&& final(stream)@ == old(stream)@
            },
        },
{
    let r = stream.pop_front();
    proof {
        if r is Some {
            assert(events_view(stream@) =~= events_view(old(stream)@).skip(1));
        }
    }
    r
}

/// The value of the `id` attribute of a layer's start tag.
pub fn layer_name(header: &Element) -> (r: Option<Vec<u8>>)
    ensures
        bytes_opt_view(r) == attr_value(header@, id_key()),
{
    let ghost attrs = header@.attributes;
    let mut i: usize = 0;
    while i < header.attributes.len()
        invariant
            i <= attrs.len(),
            attrs == header@.attributes,
            find_attr(attrs, id_key(), i as int) == find_attr(attrs, id_key(), 0),
        decreases attrs.len() - i,
    {
        assert(attrs[i as int] == header.attributes@[i as int]@);
        if is_id_key(&header.attributes[i].key) {
            return Some(copy_bytes(&header.attributes[i].value));
        }
        i += 1;
    }
    None
}

/// The name of an element as text, when it is valid UTF-8.
pub fn utf8_name(element: &Element) -> (r: Option<String>)
    ensures
        r is Some == valid_utf8(element.name@),
        r is Some ==> r->0@ == decode_utf8(element.name@),
{
    utf8_string(copy_bytes(&element.name))
}

/// Reads the events before the first layer, and that layer's start tag if
/// there is one.
fn leading_events(stream: &mut VecDeque<XmlEvent>) -> (r: (Vec<XmlEvent>, Option<Element>))
    ensures
        ({
            let v = events_view(old(stream)@);
            let s = first_group_start(v, 0);
            if s >= v.len() {
                &&& events_view(r.0@) == v
                &&& r.1 is None
            } else {
                &&& events_view(r.0@) == v.take(s)
                &&& r.1 is Some
                &&& EventView::Start(r.1->0@) == v[s]
                &&& events_view(final(stream)@) == v.skip(s + 1)
            }
        }),
{
    let ghost v = events_view(stream@);
    let mut out: Vec<XmlEvent> = Vec::new();
    let ghost mut k: int = 0;
    proof {
        lemma_first_group_start(v, 0);
    }
    loop
        invariant
            v == events_view(old(stream)@),
            0 <= k <= first_group_start(v, 0) <= v.len(),
            forall|j: int| 0 <= j < first_group_start(v, 0) ==> !is_group_start(#[trigger] v[j]),
            first_group_start(v, 0) < v.len() ==> is_group_start(v[first_group_start(v, 0)]),
            events_view(stream@) == v.skip(k),
            events_view(out@) == v.take(k),
        decreases v.len() - k,
    {
        match next_event(stream) {
            None => {
                assert(k == v.len());
                assert(v.take(k) =~= v);
                return (out, None);
            },
            Some(ev) => {
                assert(v.skip(k)[0] == v[k]);
                assert(v.skip(k).skip(1) =~= v.skip(k + 1));
                let ghost prev = out@;
                match ev {
                    XmlEvent::Start(el) => {
                        if is_group_tag(&el.name) {
                            assert(first_group_start(v, 0) == k);
                            return (out, Some(el));
                        }
                        out.push(XmlEvent::Start(el));
                    },
                    other => {
                        out.push(other);
                    },
                }
                assert(out@ == prev.push(out@.last()));
                assert(out@.last()@ == v[k]);
                proof {
                    lemma_events_view_push(prev, out@.last());
                }
                assert(events_view(out@) =~= v.take(k + 1));
                proof {
                    k = k + 1;
                }
            },
        }
    }
}

/// Reads one layer's content and end tag, its start tag `header` having been
/// read already.
fn group(header: Element, stream: &mut VecDeque<XmlEvent>) -> (r: Result<Group, ParseError>)
    ensures
        ({
            let v = events_view(old(stream)@);
            match r {
                Ok(g) => group_spec(header@, v) == Ok::<(GroupView, Seq<EventView>), ParseErrorView>(
                    (g@, events_view(final(stream)@)),
                ),
                Err(e) => group_spec(header@, v) == Err::<(GroupView, Seq<EventView>), ParseErrorView>(
                    e@,
                ),
            }
        }),
{
    let ghost v = events_view(stream@);
    let ghost f = first_end(v, 0);
    proof {
        lemma_first_end(v, 0);
    }
    let mut content: Vec<Object> = Vec::new();
    let ghost mut k: int = 0;
    assert(v.take(0) =~= seq![]);
    assert(content@.map_values(|o: Object| o@) =~= seq![]);
    loop
        invariant
            v == events_view(old(stream)@),
            f == first_end(v, 0),
            0 <= k <= f <= v.len(),
            forall|j: int| 0 <= j < f ==> !(#[trigger] v[j] is End),
            f < v.len() ==> v[f] is End,
            events_view(stream@) == v.skip(k),
            classify_all(v.take(k)) == Ok::<Seq<ObjectView>, ObjectErrorView>(
                content@.map_values(|o: Object| o@),
            ),
        decreases v.len() - k,
    {
        match next_event(stream) {
            None => {
                assert(k == v.len());
                return Err(ParseError::MissingGroupFooter { group_id: layer_name(&header) });
            },
            Some(ev) => {
                assert(v.skip(k)[0] == v[k]);
                assert(v.skip(k).skip(1) =~= v.skip(k + 1));
                assert(v.take(k + 1).drop_last() =~= v.take(k));
                let ghost prev = content@;
                match ev {
                    XmlEvent::End(name) => {
                        assert(k == f);
                        return Ok(Group { header, content, footer: name });
                    },
                    XmlEvent::Empty(el) => {
                        match object(el) {
                            Ok(o) => {
                                content.push(o);
                            },
                            Err(e) => {
                                proof {
                                    lemma_classify_stops(v, k + 1, f);
                                }
                                return Err(
                                    ParseError::InvalidObject { group_id: layer_name(&header), error: e },
                                );
                            },
                        }
                    },
                    other => {
                        content.push(Object::Other(other));
                    },
                }
                proof {
                    lemma_objects_view_push(prev, content@.last());
                    assert(content@ == prev.push(content@.last()));
                    k = k + 1;
                }
            },
        }
    }
}

/// Reads a run of sibling layers, the first opened by `first`: the layers,
/// and the event that follows the last one, if any.
fn layers(stream: &mut VecDeque<XmlEvent>, first: Element) -> (r: Result<
    (Vec<Group>, Option<XmlEvent>),
    ParseError,
>)
    ensures
        ({
            let v = events_view(old(stream)@);
            match r {
                Ok((gs, next)) => groups_spec(first@, v) == Ok::<
                    (Seq<GroupView>, Seq<EventView>),
                    ParseErrorView,
                >((groups_view(gs@), opt_event(next) + events_view(final(stream)@))),
                Err(e) => groups_spec(first@, v) == Err::<
                    (Seq<GroupView>, Seq<EventView>),
                    ParseErrorView,
                >(e@),
            }
        }),
{
    let ghost v = events_view(stream@);
    let mut out: Vec<Group> = Vec::new();
    let mut header = first;
    loop
        invariant
            v == events_view(old(stream)@),
            match groups_spec(header@, events_view(stream@)) {
                Ok((gs, t)) => groups_spec(first@, v) == Ok::<
                    (Seq<GroupView>, Seq<EventView>),
                    ParseErrorView,
                >((groups_view(out@) + gs, t)),
                Err(e) => groups_spec(first@, v) == Err::<
                    (Seq<GroupView>, Seq<EventView>),
                    ParseErrorView,
                >(e),
            },
        decreases stream@.len(),
    {
        let ghost cur = events_view(stream@);
        let ghost h = header@;
        let g = match group(header, stream) {
            Ok(g) => g,
            Err(e) => {
                return Err(e);
            },
        };
        let ghost rest = events_view(stream@);
        proof {
            lemma_group_rest_shorter(h, cur);
            lemma_groups_view_push(out@, g);
        }
        let ghost prev = out@;
        out.push(g);
        match next_event(stream) {
            None => {
                assert(groups_view(out@) =~= groups_view(prev) + seq![g@]);
                assert(rest.len() == 0);
                return Ok((out, None));
            },
            Some(ev) => {
                match ev {
                    XmlEvent::Start(el) => {
                        if is_group_tag(&el.name) {
                            assert(is_group_start(rest[0]));
                            assert(rest[0]->Start_0 == el@);
                            assert(groups_view(out@) =~= groups_view(prev) + seq![g@]);
                            proof {
                                match groups_spec(el@, rest.skip(1)) {
                                    Ok((gs, t)) => {
                                        assert(groups_view(out@) + gs =~= groups_view(prev) + (
                                        seq![g@] + gs));
                                    },
                                    Err(e) => {},
                                }
                            }
                            header = el;
                        } else {
                            assert(!is_group_start(rest[0]));
                            assert(groups_view(out@) =~= groups_view(prev) + seq![g@]);
                            assert(opt_event(Some(XmlEvent::Start(el))) + events_view(stream@) =~= rest);
                            return Ok((out, Some(XmlEvent::Start(el))));
                        }
                    },
                    other => {
                        assert(!is_group_start(rest[0]));
                        assert(groups_view(out@) =~= groups_view(prev) + seq![g@]);
                        assert(opt_event(Some(other)) + events_view(stream@) =~= rest);
                        return Ok((out, Some(other)));
                    },
                }
            },
        }
    }
}

/// Reads what follows the last layer: `first`, then the rest of the input.
fn trailing_events(stream: &mut VecDeque<XmlEvent>, first: Option<XmlEvent>) -> (r: Vec<XmlEvent>)
    ensures
        events_view(r@) == opt_event(first) + events_view(old(stream)@),
{
    let ghost all = opt_event(first) + events_view(stream@);
    assert(all == opt_event(first) + events_view(old(stream)@));
    let mut out: Vec<XmlEvent> = Vec::new();
    match first {
        Some(e) => {
            out.push(e);
        },
        None => {},
    }
    assert(events_view(out@) + events_view(stream@) =~= all);
    loop
        invariant
            all == opt_event(first) + events_view(old(stream)@),
            events_view(out@) + events_view(stream@) == all,
        decreases stream@.len(),
    {
        let ghost prev = out@;
        match next_event(stream) {
            None => {
                assert(events_view(out@) =~= all);
                return out;
            },
            Some(e) => {
                out.push(e);
                proof {
                    lemma_events_view_push(prev, e);
                }
                assert(events_view(out@) + events_view(stream@) =~= all);
            },
        }
    }
}

/// Parses a document: the events before the first layer, the run of
/// sibling layers, and the events after it.
pub fn parse_svg(events: Vec<XmlEvent>) -> (r: Result<Inkscape, ParseError>)
    ensures
        match r {
            Ok(d) => parse_spec(events_view(events@)) == Ok::<DocView, ParseErrorView>(d@),
            Err(e) => parse_spec(events_view(events@)) == Err::<DocView, ParseErrorView>(e@),
        },
{
    let ghost v = events_view(events@);
    let mut stream = into_queue(events);
    let (leading_events, first_group) = leading_events(&mut stream);
    proof {
        lemma_first_group_start(v, 0);
    }
    match first_group {
        None => {
            let d = Inkscape { leading_events, layers: Vec::new(), trailing_events: Vec::new() };
            assert(groups_view(d.layers@) =~= seq![]);
            assert(events_view(d.trailing_events@) =~= seq![]);
            Ok(d)
        },
        Some(first) => {
            match layers(&mut stream, first) {
                Err(e) => Err(e),
                Ok((layers, next)) => {
                    let trailing_events = trailing_events(&mut stream, next);
                    Ok(Inkscape { leading_events, layers, trailing_events })
                },
            }
        },
    }
}

// ----- writing -----

/// The events that a layer is written as.
pub open spec fn group_events(g: GroupView) -> Seq<EventView> {
    seq![EventView::Start(g.header)] + g.content.map_values(|o: ObjectView| object_event(o))
        + seq![EventView::End(g.footer)]
}

/// The events that a run of layers is written as.
pub open spec fn groups_events(gs: Seq<GroupView>) -> Seq<EventView>
    decreases gs.len(),
{
    if gs.len() == 0 {
        seq![]
    } else {
        groups_events(gs.drop_last()) + group_events(gs.last())
    }
}

/// The events that a document is written as.
pub open spec fn doc_events(d: DocView) -> Seq<EventView> {
    d.leading + groups_events(d.layers) + d.trailing
}

/// Writes a document out as events: the leading events, each layer's start
/// tag, content and end tag, then the trailing events.
pub fn write_svg(doc: Inkscape) -> (r: Vec<XmlEvent>)
    ensures
        events_view(r@) == doc_events(doc@),
{
    let ghost d = doc@;
    let Inkscape { leading_events, layers, trailing_events } = doc;
    let ghost all = layers@;
    let mut out = leading_events;
    let mut queue = into_queue(layers);
    let ghost mut i: int = 0;
    assert(groups_view(all).take(0) =~= seq![]);
    assert(events_view(out@) =~= d.leading + groups_events(groups_view(all).take(0)));
    while queue.len() > 0
        invariant
            0 <= i <= all.len(),
            groups_view(all) == d.layers,
            queue@ == all.skip(i),
            events_view(out@) == d.leading + groups_events(groups_view(all).take(i)),
        decreases queue@.len(),
    {
        let g = queue.pop_front().unwrap();
        assert(g == all[i]);
        assert(queue@ =~= all.skip(i + 1));
        let ghost gv = g@;
        let ghost base = events_view(out@);
        let Group { header, content, footer } = g;
        let ghost objs = content@;
        let ghost prev = out@;
        out.push(XmlEvent::Start(header));
        proof {
            lemma_events_view_push(prev, out@.last());
        }
        let mut items = into_queue(content);
        let ghost mut j: int = 0;
        assert(objs.take(0).map_values(|o: Object| object_event(o@)) =~= seq![]);
        while items.len() > 0
            invariant
                0 <= j <= objs.len(),
                items@ == objs.skip(j),
                events_view(out@) == base + seq![EventView::Start(gv.header)] + objs.take(j).map_values(
                    |o: Object| object_event(o@),
                ),
            decreases items@.len(),
        {
            let o = items.pop_front().unwrap();
            assert(o == objs[j]);
            assert(items@ =~= objs.skip(j + 1));
            let ghost before = out@;
            out.push(o.into_event());
            proof {
                lemma_events_view_push(before, out@.last());
            }
            assert(objs.take(j + 1).map_values(|o: Object| object_event(o@)) =~= objs.take(j).map_values(
                |o: Object| object_event(o@),
            ).push(object_event(objs[j]@)));
            proof {
                j = j + 1;
            }
        }
        assert(j == objs.len());
        assert(objs.take(j).map_values(|o: Object| object_event(o@)) =~= gv.content.map_values(
            |o: ObjectView| object_event(o),
        ));
        let ghost before = out@;
        out.push(XmlEvent::End(footer));
        proof {
            lemma_events_view_push(before, out@.last());
        }
        assert(groups_view(all).take(i + 1).drop_last() =~= groups_view(all).take(i));
        assert(events_view(out@) =~= base + group_events(gv));
        proof {
            i = i + 1;
        }
    }
    assert(groups_view(all).take(i) =~= groups_view(all));
    let mut rest = trailing_events;
    out.append(&mut rest);
    assert(events_view(out@) =~= doc_events(d));
    out
}

// ----- round trip -----

proof fn lemma_classify_event_back(e: EventView)
    requires
        classify_event(e) is Ok,
    ensures
        object_event(classify_event(e)->Ok_0) == e,
{
}

proof fn lemma_classify_all_back(w: Seq<EventView>)
    requires
        classify_all(w) is Ok,
    ensures
        classify_all(w)->Ok_0.map_values(|o: ObjectView| object_event(o)) == w,
    decreases w.len(),
{
    if w.len() > 0 {
        lemma_classify_all_back(w.drop_last());
        lemma_classify_event_back(w.last());
        let os = classify_all(w.drop_last())->Ok_0;
        let o = classify_event(w.last())->Ok_0;
        assert(classify_all(w)->Ok_0 == os.push(o));
        assert(w =~= w.drop_last().push(w.last()));
        assert(os.push(o).map_values(|o: ObjectView| object_event(o)) =~= os.map_values(
            |o: ObjectView| object_event(o),
        ).push(object_event(o)));
    }
}

proof fn lemma_groups_events_single(g: GroupView)
    ensures
        groups_events(seq![g]) == group_events(g),
{
    assert(seq![g].drop_last() =~= Seq::<GroupView>::empty());
    assert(groups_events(Seq::<GroupView>::empty()) == Seq::<EventView>::empty());
    assert(seq![g].last() == g);
    assert(groups_events(seq![g]) =~= group_events(g));
}

proof fn lemma_groups_events_prepend(g: GroupView, gs: Seq<GroupView>)
    ensures
        groups_events(seq![g] + gs) == group_events(g) + groups_events(gs),
    decreases gs.len(),
{
    if gs.len() == 0 {
        assert(seq![g] + gs =~= seq![g]);
        lemma_groups_events_single(g);
    } else {
        lemma_groups_events_prepend(g, gs.drop_last());
        assert((seq![g] + gs).drop_last() =~= seq![g] + gs.drop_last());
        assert(groups_events(seq![g] + gs) =~= group_events(g) + groups_events(gs));
    }
}

proof fn lemma_group_back(header: ElementView, v: Seq<EventView>)
    requires
        group_spec(header, v) is Ok,
    ensures
        group_events(group_spec(header, v)->Ok_0.0) + group_spec(header, v)->Ok_0.1 == seq![
            EventView::Start(header),
        ] + v,
{
    let f = first_end(v, 0);
    lemma_first_end(v, 0);
    lemma_classify_all_back(v.take(f));
    assert(v =~= v.take(f) + seq![v[f]] + v.skip(f + 1));
}

proof fn lemma_groups_back(header: ElementView, v: Seq<EventView>)
    requires
        groups_spec(header, v) is Ok,
    ensures
        groups_events(groups_spec(header, v)->Ok_0.0) + groups_spec(header, v)->Ok_0.1 == seq![
            EventView::Start(header),
        ] + v,
    decreases v.len(),
{
    lemma_group_back(header, v);
    let (g, rest) = group_spec(header, v)->Ok_0;
    if 0 < rest.len() < v.len() && is_group_start(rest[0]) {
        lemma_groups_back(rest[0]->Start_0, rest.skip(1));
        let (gs, t) = groups_spec(rest[0]->Start_0, rest.skip(1))->Ok_0;
        lemma_groups_events_prepend(g, gs);
        assert(rest =~= seq![EventView::Start(rest[0]->Start_0)] + rest.skip(1));
        assert(groups_events(seq![g] + gs) + t =~= group_events(g) + (groups_events(gs) + t));
    } else {
        lemma_groups_events_single(g);
    }
}

/// Writing out a parsed document gives back, in order and field for field,
/// the events that it was parsed from.
pub proof fn lemma_round_trip(v: Seq<EventView>)
    requires
        parse_spec(v) is Ok,
    ensures
        doc_events(parse_spec(v)->Ok_0) == v,
{
    let s = first_group_start(v, 0);
    lemma_first_group_start(v, 0);
    if s >= v.len() {
        assert(groups_events(seq![]) =~= seq![]);
        assert(v + groups_events(seq![]) + seq![] =~= v);
    } else {
        lemma_groups_back(v[s]->Start_0, v.skip(s + 1));
        assert(v =~= v.take(s) + seq![EventView::Start(v[s]->Start_0)] + v.skip(s + 1));
        let (gs, t) = groups_spec(v[s]->Start_0, v.skip(s + 1))->Ok_0;
        assert(v.take(s) + groups_events(gs) + t =~= v.take(s) + (groups_events(gs) + t));
    }
}

} // verus!
