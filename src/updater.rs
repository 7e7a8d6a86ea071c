use vstd::prelude::*;

use crate::event::{copy_bytes, events_view, XmlEvent};
use crate::inkscape::{doc_events, parse_spec, parse_svg, write_svg, DocView, ParseError, ParseErrorView};
use crate::lookup::{ids_of, strings_view, update_spec, LookupError, LookupErrorView};

verus! {

/// Replaces images of a base drawing and names the file that the result
/// goes to.
#[derive(Debug, PartialEq, Eq)]
pub struct Updater {
    pub base_file: String,
    pub output_file: String,
}

/// Why an update failed.
#[derive(Debug, PartialEq, Eq)]
pub enum UpdateError {
    /// the base drawing could not be parsed
    Parse(ParseError),
    /// a replacement named no image of the drawing
    Lookup(LookupError),
}

pub enum UpdateErrorView {
    Parse(ParseErrorView),
    Lookup(LookupErrorView),
}

impl View for UpdateError {
    type V = UpdateErrorView;

    open spec fn view(&self) -> UpdateErrorView {
        match self {
            UpdateError::Parse(e) => UpdateErrorView::Parse(e@),
            UpdateError::Lookup(e) => UpdateErrorView::Lookup(e@),
        }
    }
}

pub open spec fn replacements_view(reps: Seq<(String, Vec<u8>)>) -> Seq<(Seq<char>, Seq<u8>)> {
    reps.map_values(|r: (String, Vec<u8>)| (r.0@, r.1@))
}

/// The document after each replacement `(id, payload)` in turn, or the first
/// that failed.
pub open spec fn apply_all(d: DocView, reps: Seq<(Seq<char>, Seq<u8>)>) -> Result<
    DocView,
    LookupErrorView,
>
    decreases reps.len(),
{
    if reps.len() == 0 {
        Ok(d)
    } else {
        match apply_all(d, reps.drop_last()) {
            Err(e) => Err(e),
            Ok(d1) => update_spec(d1, reps.last().0, reps.last().1),
        }
    }
}

impl Updater {
    pub fn new(base_file: String, output_file: String) -> (r: Self)
        ensures
            r.base_file@ == base_file@,
            r.output_file@ == output_file@,
    {
        Self { base_file, output_file }
    }

    /// The ids of every rectangle and image of the base drawing, given as
    /// the events read from it.
    pub fn ids(&self, events: Vec<XmlEvent>) -> (r: Result<Vec<String>, ParseError>)
        ensures
            match parse_spec(events_view(events@)) {
                Ok(d) => r is Ok && strings_view(r->Ok_0@) == ids_of(d),
                Err(e) => r is Err && r->Err_0@ == e,
            },
    {
        match parse_svg(events) {
            Ok(doc) => Ok(doc.ids()),
            Err(e) => Err(e),
        }
    }

    /// Parses the base drawing, given as the events read from it, gives each
    /// image named in `replacements` its new payload in turn, and returns the
    /// events to write out.
    pub fn update(&self, events: Vec<XmlEvent>, replacements: Vec<(String, Vec<u8>)>) -> (r: Result<
        Vec<XmlEvent>,
        UpdateError,
    >)
        ensures
            match parse_spec(events_view(events@)) {
                Err(e) => r is Err && r->Err_0@ == UpdateErrorView::Parse(e),
                Ok(d) => match apply_all(d, replacements_view(replacements@)) {
                    Err(e) => r is Err && r->Err_0@ == UpdateErrorView::Lookup(e),
                    Ok(d2) => r is Ok && events_view(r->Ok_0@) == doc_events(d2),
                },
            },
    {
        let ghost evs = events_view(events@);
        let mut doc = match parse_svg(events) {
            Ok(doc) => doc,
            Err(e) => {
                return Err(UpdateError::Parse(e));
            },
        };
        let ghost reps = replacements_view(replacements@);
        let ghost d0 = doc@;
        let mut k: usize = 0;
        assert(reps.take(0) =~= seq![]);
        while k < replacements.len()
            invariant
                k <= replacements@.len(),
                reps == replacements_view(replacements@),
                evs == events_view(events@),
                parse_spec(evs) == Ok::<DocView, ParseErrorView>(d0),
                apply_all(d0, reps.take(k as int)) == Ok::<DocView, LookupErrorView>(doc@),
            decreases replacements@.len() - k,
        {
            let rep = &replacements[k];
            assert(reps.take(k + 1).drop_last() =~= reps.take(k as int));
            assert(reps.take(k + 1).last() == (rep.0@, rep.1@));
            let ghost before = doc@;
            match doc.id_to_image(rep.0.as_str(), copy_bytes(&rep.1)) {
                Ok(_) => {},
                Err(e) => {
                    assert(apply_all(d0, reps.take(k + 1)) == update_spec(before, rep.0@, rep.1@));
                    proof {
                        lemma_apply_stops(d0, reps, k as int + 1);
                    }
                    return Err(UpdateError::Lookup(e));
                },
            }
            k += 1;
        }
        assert(reps.take(k as int) =~= reps);
        Ok(write_svg(doc))
    }
}

/// Once a replacement fails, the later ones do not change the outcome.
proof fn lemma_apply_stops(d: DocView, reps: Seq<(Seq<char>, Seq<u8>)>, k: int)
    requires
        0 <= k <= reps.len(),
        apply_all(d, reps.take(k)) is Err,
    ensures
        apply_all(d, reps) == apply_all(d, reps.take(k)),
    decreases reps.len() - k,
{
    if k < reps.len() {
        assert(reps.take(k + 1).drop_last() =~= reps.take(k));
        lemma_apply_stops(d, reps, k + 1);
    } else {
        assert(reps.take(k) =~= reps);
    }
}

} // verus!
