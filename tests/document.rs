use figure_second::event::{Attribute, Element, MarkupKind, XmlEvent};
use figure_second::inkscape::{parse_svg, utf8_name, write_svg, ParseError};
use figure_second::lookup::{LookupError, ObjectKind};
use figure_second::object::{Field, Object, ObjectError};
use figure_second::text::float_text;
use figure_second::updater::{UpdateError, Updater};

fn elem(name: &str, attrs: &[(&str, &str)]) -> Element {
    Element {
        name: name.as_bytes().to_vec(),
        attributes: attrs
            .iter()
            .map(|(k, v)| Attribute { key: k.as_bytes().to_vec(), value: v.as_bytes().to_vec() })
            .collect(),
    }
}

fn start(name: &str, attrs: &[(&str, &str)]) -> XmlEvent {
    XmlEvent::Start(elem(name, attrs))
}

fn empty(name: &str, attrs: &[(&str, &str)]) -> XmlEvent {
    XmlEvent::Empty(elem(name, attrs))
}

fn end(name: &str) -> XmlEvent {
    XmlEvent::End(name.as_bytes().to_vec())
}

fn text(t: &str) -> XmlEvent {
    XmlEvent::Text(t.as_bytes().to_vec())
}

fn image(id: &str, href: &str) -> XmlEvent {
    empty("image", &[("id", id), ("width", "10"), ("height", "20.5"), ("xlink:href", href)])
}

fn rect(id: &str) -> XmlEvent {
    empty("rect", &[("id", id), ("width", "3"), ("height", "4"), ("style", "fill:red")])
}

/// A drawing with one layer holding a rectangle and an image.
fn drawing() -> Vec<XmlEvent> {
    vec![
        XmlEvent::Markup(MarkupKind::Decl, b"xml version=\"1.0\"".to_vec()),
        start("svg", &[("xmlns:inkscape", "http://www.inkscape.org/namespaces/inkscape")]),
        text("\n"),
        start("g", &[("id", "layer1"), ("inkscape:label", "Layer 1")]),
        text("\n  "),
        rect("rect1"),
        image("image1", "data:image/png;base64,AAAA"),
        end("g"),
        text("\n"),
        end("svg"),
    ]
}

fn updated(events: Vec<XmlEvent>, id: &str, payload: &str, times: usize) -> Vec<XmlEvent> {
    let mut doc = parse_svg(events).unwrap();
    for _ in 0..times {
        doc.id_to_image(id, payload.as_bytes().to_vec()).unwrap();
    }
    write_svg(doc)
}

#[test]
fn round_trip_reproduces_events() {
    let doc = parse_svg(drawing()).unwrap();
    assert_eq!(write_svg(doc), drawing());
}

#[test]
fn round_trip_with_nested_and_unknown_content() {
    let events = vec![
        start("svg", &[]),
        start("g", &[("id", "layer1")]),
        start("g", &[("id", "inner")]),
        empty("circle", &[("r", "2")]),
        XmlEvent::Markup(MarkupKind::Comment, b" note ".to_vec()),
        end("g"),
        end("g"),
        end("svg"),
    ];
    let doc = parse_svg(events.clone_events()).unwrap();
    assert_eq!(doc.layers.len(), 1);
    assert_eq!(doc.layers[0].content.len(), 3);
    assert_eq!(write_svg(doc), events);
}

trait CloneEvents {
    fn clone_events(&self) -> Vec<XmlEvent>;
}

impl CloneEvents for Vec<XmlEvent> {
    fn clone_events(&self) -> Vec<XmlEvent> {
        self.iter()
            .map(|e| match e {
                XmlEvent::Start(el) => XmlEvent::Start(copy_elem(el)),
                XmlEvent::End(n) => XmlEvent::End(n.clone()),
                XmlEvent::Empty(el) => XmlEvent::Empty(copy_elem(el)),
                XmlEvent::Text(t) => XmlEvent::Text(t.clone()),
                XmlEvent::Markup(k, t) => XmlEvent::Markup(*k, t.clone()),
            })
            .collect()
    }
}

fn copy_elem(el: &Element) -> Element {
    Element {
        name: el.name.clone(),
        attributes: el
            .attributes
            .iter()
            .map(|a| Attribute { key: a.key.clone(), value: a.value.clone() })
            .collect(),
    }
}

#[test]
fn id_to_image_twice_equals_once() {
    let once = updated(drawing(), "image1", "data:image/png;base64,BBBB", 1);
    let twice = updated(drawing(), "image1", "data:image/png;base64,BBBB", 2);
    assert_eq!(once, twice);
}

#[test]
fn id_to_image_replaces_only_the_href() {
    let out = updated(drawing(), "image1", "data:image/png;base64,BBBB", 1);
    let mut expected = drawing();
    expected[6] = image("image1", "data:image/png;base64,BBBB");
    assert_eq!(out, expected);
}

#[test]
fn id_to_image_adds_missing_href() {
    let events = vec![
        start("g", &[("id", "layer1")]),
        empty("image", &[("id", "im"), ("width", "1"), ("height", "1")]),
        end("g"),
    ];
    let out = updated(events, "im", "data:x", 1);
    assert_eq!(
        out[1],
        empty("image", &[("id", "im"), ("width", "1"), ("height", "1"), ("xlink:href", "data:x")])
    );
}

#[test]
fn ids_lists_every_rect_and_image_in_order() {
    let events = vec![
        start("svg", &[]),
        start("g", &[("id", "a")]),
        rect("r1"),
        text(" "),
        image("i1", "x"),
        rect("r2"),
        end("g"),
        start("g", &[("id", "b")]),
        empty("path", &[("id", "p1")]),
        image("i2", "y"),
        end("g"),
        end("svg"),
    ];
    let doc = parse_svg(events).unwrap();
    assert_eq!(doc.ids(), vec!["r1", "i1", "r2", "i2"]);
    assert_eq!(doc.ids(), doc.ids());
}

#[test]
fn image_without_width_is_rejected() {
    let events = vec![
        start("g", &[("id", "layer1")]),
        empty("image", &[("id", "im"), ("height", "4")]),
        end("g"),
    ];
    assert_eq!(
        parse_svg(events),
        Err(ParseError::InvalidObject {
            group_id: Some(b"layer1".to_vec()),
            error: ObjectError::MissingRequiredAttribute { field: Field::Width, element: b"image".to_vec() },
        })
    );
}

#[test]
fn rect_without_id_is_rejected() {
    let events = vec![start("g", &[]), empty("rect", &[("width", "1"), ("height", "4")]), end("g")];
    assert_eq!(
        parse_svg(events),
        Err(ParseError::InvalidObject {
            group_id: None,
            error: ObjectError::MissingRequiredAttribute { field: Field::Id, element: b"rect".to_vec() },
        })
    );
}

#[test]
fn unparseable_height_is_rejected() {
    let events = vec![
        start("g", &[("id", "l")]),
        empty("rect", &[("id", "r"), ("width", "1"), ("height", "4px")]),
        end("g"),
    ];
    assert_eq!(
        parse_svg(events),
        Err(ParseError::InvalidObject {
            group_id: Some(b"l".to_vec()),
            error: ObjectError::UnparseableNumber {
                field: Field::Height,
                value: "4px".to_string(),
                element: b"rect".to_vec(),
            },
        })
    );
}

#[test]
fn invalid_utf8_id_is_rejected() {
    let mut bad = elem("image", &[("width", "1"), ("height", "1")]);
    bad.attributes.push(Attribute { key: b"id".to_vec(), value: vec![0xff, 0xfe] });
    let events = vec![start("g", &[("id", "l")]), XmlEvent::Empty(bad), end("g")];
    assert_eq!(
        parse_svg(events),
        Err(ParseError::InvalidObject {
            group_id: Some(b"l".to_vec()),
            error: ObjectError::Encoding { field: Field::Id, element: b"image".to_vec() },
        })
    );
}

#[test]
fn missing_footer_is_rejected() {
    let events = vec![start("svg", &[]), start("g", &[("id", "open")]), rect("r1")];
    assert_eq!(
        parse_svg(events),
        Err(ParseError::MissingGroupFooter { group_id: Some(b"open".to_vec()) })
    );
}

#[test]
fn type_mismatch_leaves_document_unchanged() {
    let mut doc = parse_svg(drawing()).unwrap();
    let r = doc.id_to_image("rect1", b"data:z".to_vec());
    assert_eq!(
        r,
        Err(LookupError::TypeMismatch {
            id: "rect1".to_string(),
            expected: ObjectKind::Image,
            actual: ObjectKind::Rectangle,
        })
    );
    assert_eq!(write_svg(doc), drawing());
}

#[test]
fn not_found_leaves_document_unchanged() {
    let mut doc = parse_svg(drawing()).unwrap();
    let r = doc.id_to_image("nothing", b"data:z".to_vec());
    assert_eq!(r, Err(LookupError::NotFound { id: "nothing".to_string() }));
    assert_eq!(write_svg(doc), drawing());
}

#[test]
fn two_layers_keep_their_order() {
    let events = vec![
        start("svg", &[]),
        start("g", &[("id", "layer1")]),
        image("a", "1"),
        end("g"),
        start("g", &[("id", "layer2")]),
        image("b", "2"),
        end("g"),
        end("svg"),
    ];
    let doc = parse_svg(events.clone_events()).unwrap();
    assert_eq!(doc.leading_events, vec![start("svg", &[])]);
    assert_eq!(doc.layers.len(), 2);
    assert_eq!(doc.layers[0].header, elem("g", &[("id", "layer1")]));
    assert_eq!(doc.layers[1].header, elem("g", &[("id", "layer2")]));
    assert!(matches!(&doc.layers[0].content[0], Object::Image(i) if i.ident.id == "a"));
    assert!(matches!(&doc.layers[1].content[0], Object::Image(i) if i.ident.id == "b"));
    assert_eq!(doc.trailing_events, vec![end("svg")]);
    assert_eq!(write_svg(doc), events);
}

#[test]
fn no_layer_keeps_everything_leading() {
    let events = vec![start("svg", &[]), rect("r"), end("svg")];
    let doc = parse_svg(events.clone_events()).unwrap();
    assert_eq!(doc.leading_events, events);
    assert!(doc.layers.is_empty());
    assert!(doc.trailing_events.is_empty());
    assert!(doc.ids().is_empty());
}

#[test]
fn layer_at_the_end_has_no_trailing_events() {
    let events = vec![start("g", &[("id", "l")]), rect("r"), end("g")];
    let doc = parse_svg(events).unwrap();
    assert_eq!(doc.layers.len(), 1);
    assert!(doc.trailing_events.is_empty());
    assert_eq!(doc.layers[0].footer, b"g".to_vec());
}

#[test]
fn identifiers_hold_the_decoded_text() {
    let doc = parse_svg(drawing()).unwrap();
    match &doc.layers[0].content[2] {
        Object::Image(i) => {
            assert_eq!(i.ident.id, "image1");
            assert_eq!(i.ident.width, "10");
            assert_eq!(i.ident.height, "20.5");
        }
        other => panic!("not an image: {:?}", other),
    }
    assert!(matches!(&doc.layers[0].content[0], Object::Other(XmlEvent::Text(_))));
}

#[test]
fn float_text_follows_the_number_grammar() {
    for ok in ["0", "10", "-3.5", "+.5", "5.", "1e10", "2.5E-3", "1e-400", "0e99999999999999999999999"] {
        assert!(float_text(ok), "{ok}");
    }
    for bad in ["", ".", "-", "1e", "e5", "1.2.3", "4px", " 1", "1_000"] {
        assert!(!float_text(bad), "{bad}");
    }
}

#[test]
fn float_text_rejects_infinity_and_nan() {
    for bad in ["inf", "-Infinity", "NaN", "INF", "infinity", "nan"] {
        assert!(!float_text(bad), "{bad}");
    }
}

#[test]
fn float_text_rejects_values_that_round_to_infinity() {
    assert!(float_text("1.7976931348623157e308"));
    assert!(float_text("1.7976931348623158e308"));
    assert!(float_text("179769313486231580793728971405303415079934132710037826936173778980444968292764750946649017977587207096330286416692887910946555547851940402630657488671505820681908902000708383676273854845817711531764475730270069855571366959622842914819860834936475292719074168444365510704342711559699508093042880177904174497791"));
    assert!(float_text("0.000179769313486231580793728971405303415079934132710037826936173778980444968292764750946649017977587207096330286416692887910946555547851940402630657488671505820681908902000708383676273854845817711531764475730270069855571366959622842914819860834936475292719074168444365510704342711559699508093042880177904174497791e3"));
    assert!(!float_text("179769313486231580793728971405303415079934132710037826936173778980444968292764750946649017977587207096330286416692887910946555547851940402630657488671505820681908902000708383676273854845817711531764475730270069855571366959622842914819860834936475292719074168444365510704342711559699508093042880177904174497792"));
    assert!(!float_text("179769313486231580793728971405303415079934132710037826936173778980444968292764750946649017977587207096330286416692887910946555547851940402630657488671505820681908902000708383676273854845817711531764475730270069855571366959622842914819860834936475292719074168444365510704342711559699508093042880177904174497792.0000001"));
    assert!(!float_text("1.7976931348623159e308"));
    assert!(!float_text("1e309"));
    assert!(!float_text("-1e400"));
    assert!(!float_text("1e99999999999999999999999"));
    assert!(float_text("1e308"));
    assert!(float_text("00000.0000e400"));
}

#[test]
fn image_with_infinite_width_is_rejected() {
    let events = vec![
        start("g", &[("id", "l")]),
        empty("image", &[("id", "im"), ("width", "inf"), ("height", "1")]),
        end("g"),
    ];
    assert_eq!(
        parse_svg(events),
        Err(ParseError::InvalidObject {
            group_id: Some(b"l".to_vec()),
            error: ObjectError::UnparseableNumber {
                field: Field::Width,
                value: "inf".to_string(),
                element: b"image".to_vec(),
            },
        })
    );
}

#[test]
fn empty_id_is_rejected() {
    let events = vec![
        start("g", &[("id", "l")]),
        empty("rect", &[("id", ""), ("width", "1"), ("height", "1")]),
        end("g"),
    ];
    assert_eq!(
        parse_svg(events),
        Err(ParseError::InvalidObject {
            group_id: Some(b"l".to_vec()),
            error: ObjectError::MissingRequiredAttribute { field: Field::Id, element: b"rect".to_vec() },
        })
    );
}

#[test]
fn updater_lists_ids() {
    let u = Updater::new("in.svg".to_string(), "out.svg".to_string());
    assert_eq!(u.base_file, "in.svg");
    assert_eq!(u.output_file, "out.svg");
    assert_eq!(u.ids(drawing()).unwrap(), vec!["rect1", "image1"]);
}

#[test]
fn updater_applies_replacements_in_turn() {
    let u = Updater::new("in.svg".to_string(), "out.svg".to_string());
    let out = u
        .update(drawing(), vec![("image1".to_string(), b"data:one".to_vec()), ("image1".to_string(), b"data:two".to_vec())])
        .unwrap();
    let mut expected = drawing();
    expected[6] = image("image1", "data:two");
    assert_eq!(out, expected);
}

#[test]
fn updater_reports_failed_replacement() {
    let u = Updater::new("in.svg".to_string(), "out.svg".to_string());
    let r = u.update(drawing(), vec![("rect1".to_string(), b"data:one".to_vec())]);
    assert_eq!(
        r,
        Err(UpdateError::Lookup(LookupError::TypeMismatch {
            id: "rect1".to_string(),
            expected: ObjectKind::Image,
            actual: ObjectKind::Rectangle,
        }))
    );
    let r = u.update(vec![start("g", &[])], vec![]);
    assert_eq!(r, Err(UpdateError::Parse(ParseError::MissingGroupFooter { group_id: None })));
}

#[test]
fn utf8_name_decodes_valid_names_only() {
    assert_eq!(utf8_name(&elem("svg:g", &[])), Some("svg:g".to_string()));
    let bad = Element { name: vec![0xc3, 0x28], attributes: vec![] };
    assert_eq!(utf8_name(&bad), None);
}

#[test]
fn prefixed_tags_are_recognised_by_local_name() {
    let events = vec![
        start("svg:svg", &[]),
        start("svg:g", &[("id", "layer1")]),
        empty("svg:image", &[("id", "im"), ("width", "1"), ("height", "2")]),
        empty("svg:rect", &[("id", "r"), ("width", "1"), ("height", "2")]),
        empty("ns:a:rect", &[("id", "x"), ("width", "1"), ("height", "2")]),
        end("svg:g"),
        end("svg:svg"),
    ];
    let doc = parse_svg(events.clone_events()).unwrap();
    assert_eq!(doc.leading_events, vec![start("svg:svg", &[])]);
    assert_eq!(doc.ids(), vec!["im", "r"]);
    assert!(matches!(&doc.layers[0].content[2], Object::Other(_)));
    assert_eq!(write_svg(doc), events);
}
