//! Editing sequences: what a `Sequence` element declares, and the cuts that
//! are placed in it.
use vstd::prelude::*;

use crate::element::Element;
use crate::errors::Error;
use crate::media::Size;
use crate::text::{number_in, parse_decimal, same_text};
use crate::ticks::{span_of, Span};
use crate::timeline::Timeline;

verus! {

/// One placed clip: its in and out points in ticks, and the index of its
/// medium in the media of the read.
#[derive(Clone, Copy, Debug, PartialEq, Eq, Structural)]
pub struct Cut {
    pub start: u64,
    pub end: u64,
    pub medium: usize,
}

impl Cut {
    /// The in point, in seconds and nanoseconds.
    pub fn start(&self) -> (r: Span)
        ensures
            r == span_of(self.start),
    {
        Span::from_ticks(self.start)
    }

    /// The out point, in seconds and nanoseconds.
    pub fn end(&self) -> (r: Span)
        ensures
            r == span_of(self.end),
    {
        Span::from_ticks(self.end)
    }

    /// The index of the medium shown.
    pub fn medium(&self) -> (r: usize)
        ensures
            r == self.medium,
    {
        self.medium
    }
}

/// The cuts of a sequence, in the order they were found.
#[derive(Debug)]
pub struct Cuts {
    pub cuts: Vec<Cut>,
}

impl Cuts {
    pub fn new() -> (r: Cuts)
        ensures
            r.cuts@.len() == 0,
    {
        Cuts { cuts: Vec::new() }
    }

    /// Appends `cut` and returns its index.
    pub fn push(&mut self, cut: Cut) -> (r: usize)
        ensures
            final(self).cuts@ == old(self).cuts@.push(cut),
            r == old(self).cuts@.len(),
    {
        let r = self.cuts.len();
        self.cuts.push(cut);
        r
    }
}

/// The texts of `v`, in order.
pub open spec fn texts(v: Seq<String>) -> Seq<Seq<char>> {
    v.map_values(|s: String| s@)
}

/// What a child of `TrackGroups` contributes: `None` when it is not a
/// `TrackGroup` or its `Second` lacks an `ObjectRef`; otherwise the
/// reference of its first `Second`, if it has one.
pub open spec fn group_ref(g: Element) -> Option<Option<Seq<char>>> {
    if g.name@ != "TrackGroup"@ {
        None
    } else {
        match g.child("Second"@) {
            None => Some(None),
            Some(second) => match second.attr("ObjectRef"@) {
                Some(v) => Some(Some(v)),
                None => None,
            },
        }
    }
}

/// The track group references that the children `gs` of `TrackGroups`
/// declare, in order; `None` when one of them is unreadable.
pub open spec fn group_refs(gs: Seq<Element>) -> Option<Seq<Seq<char>>>
    decreases gs.len(),
{
    if gs.len() == 0 {
        Some(seq![])
    } else {
        match (group_refs(gs.drop_last()), group_ref(gs.last())) {
            (Some(p), Some(Some(v))) => Some(p.push(v)),
            (Some(p), Some(None)) => Some(p),
            _ => None,
        }
    }
}

/// The number held by the child `name` of `props`, if it is there and
/// holds one.
pub open spec fn work_point(props: Element, name: Seq<char>) -> Option<nat> {
    match props.child(name) {
        Some(c) => number_in(c.text@, u64::MAX as nat),
        None => None,
    }
}

/// What a `Sequence` element declares: its id, its name, the length of its
/// work area in ticks, and its track group references. `None` when a
/// required part is missing or unreadable, or the work area ends before it
/// starts.
pub open spec fn sequence_model(elem: Element) -> Option<(nat, Seq<char>, nat, Seq<Seq<char>>)> {
    match (
        elem.child("ID"@),
        elem.child("Name"@),
        elem.child("Node"@),
        elem.child("TrackGroups"@),
    ) {
        (Some(id), Some(name), Some(node), Some(tgs)) => match node.child("Properties"@) {
            Some(props) => match (
                work_point(props, "MZ.WorkInPoint"@),
                work_point(props, "MZ.WorkOutPoint"@),
                group_refs(tgs.children@),
                number_in(id.text@, u32::MAX as nat),
            ) {
                (Some(wi), Some(wo), Some(refs), Some(n)) => if wi <= wo {
                    Some((n, name.text@, (wo - wi) as nat, refs))
                } else {
                    None
                },
                _ => None,
            },
            None => None,
        },
        _ => None,
    }
}

/// `s` is the sequence that the `Sequence` element `e` declares, with no
/// cuts yet and no frame size.
pub open spec fn fresh_sequence(s: PremiereSequence, e: Element) -> bool {
    &&& sequence_model(e) matches Some((id, name, duration, refs))
    &&& s.id == id
    &&& s.name@ == name
    &&& s.duration == duration
    &&& texts(s.track_groups@) == refs
    &&& s.cuts.cuts@.len() == 0
    &&& s.timeline@.len() == 0
    &&& s.size == (Size { width: 0, height: 0 })
}

/// A sequence read from its element lasts exactly its work area, out point
/// minus in point, counted in the same ticks as cut points and media
/// durations; `span_of` turns each of them into seconds alike.
pub proof fn lemma_duration_is_work_area(elem: Element, s: PremiereSequence)
    requires
        fresh_sequence(s, elem),
    ensures
        elem.child("Node"@) matches Some(node) && node.child("Properties"@) matches Some(props)
            && work_point(props, "MZ.WorkInPoint"@) matches Some(wi) && work_point(
            props,
            "MZ.WorkOutPoint"@,
        ) matches Some(wo) && wi <= wo && s.duration == wo - wi,
{
}

/// `e` is the error that reading the `Sequence` element `elem` fails with:
/// the first required child that is missing, in the order `ID`, `Name`,
/// `Node`, `TrackGroups`, `Properties`, `MZ.WorkInPoint`,
/// `MZ.WorkOutPoint`; else an unreadable work point, or a work area that
/// ends before it starts; else a missing part of a track group; else an
/// unreadable `ID`.
pub open spec fn sequence_error(elem: Element, e: Error) -> bool {
    match (
        elem.child("ID"@),
        elem.child("Name"@),
        elem.child("Node"@),
        elem.child("TrackGroups"@),
    ) {
        (None, _, _, _) => e.is_element_not_found("ID"@, elem.name@),
        (Some(_), None, _, _) => e.is_element_not_found("Name"@, elem.name@),
        (Some(_), Some(_), None, _) => e.is_element_not_found("Node"@, elem.name@),
        (Some(_), Some(_), Some(_), None) => e.is_element_not_found("TrackGroups"@, elem.name@),
        (Some(id), Some(_), Some(node), Some(tgs)) => match node.child("Properties"@) {
            None => e.is_element_not_found("Properties"@, node.name@),
            Some(props) => match (
                props.child("MZ.WorkInPoint"@),
                props.child("MZ.WorkOutPoint"@),
            ) {
                (None, _) => e.is_element_not_found("MZ.WorkInPoint"@, props.name@),
                (Some(_), None) => e.is_element_not_found("MZ.WorkOutPoint"@, props.name@),
                (Some(wi), Some(wo)) => match (
                    number_in(wi.text@, u64::MAX as nat),
                    number_in(wo.text@, u64::MAX as nat),
                ) {
                    (None, _) => e.is_malformed("MZ.WorkInPoint"@, wi.text@),
                    (Some(_), None) => e.is_malformed("MZ.WorkOutPoint"@, wo.text@),
                    (Some(a), Some(b)) => if b < a {
                        e.is_malformed("MZ.WorkOutPoint"@, wo.text@)
                    } else if group_refs(tgs.children@) is None {
                        e matches Error::NotFound(_)
                    } else {
                        e.is_malformed("ID"@, id.text@)
                    },
                },
            },
        },
    }
}

/// An editing sequence. `duration` is the length of its work area in
/// ticks; `size` is its frame size once a video track group set it.
#[derive(Debug)]
pub struct PremiereSequence {
    pub id: u32,
    pub name: String,
    pub duration: u64,
    pub track_groups: Vec<String>,
    pub cuts: Cuts,
    pub timeline: Timeline,
    pub size: Size,
}

impl PartialEq for PremiereSequence {
    fn eq(&self, other: &Self) -> (r: bool) {
        self.id == other.id
    }
}

impl vstd::std_specs::cmp::PartialEqSpecImpl for PremiereSequence {
    open spec fn obeys_eq_spec() -> bool {
        true
    }

    open spec fn eq_spec(&self, other: &Self) -> bool {
        self.id == other.id
    }
}

/// The track group references of the children of `track_groups`.
fn track_group_refs(track_groups: &Element) -> (r: Result<Vec<String>, Error>)
    ensures
        match group_refs(track_groups.children@) {
            Some(refs) => r matches Ok(v) && texts(v@) == refs,
            None => r matches Err(e) && e matches Error::NotFound(_),
        },
{
    let ghost gs = track_groups.children@;
    let mut refs: Vec<String> = Vec::new();
    let mut i: usize = 0;
    while i < track_groups.children.len()
        invariant
            0 <= i <= gs.len(),
            gs == track_groups.children@,
            group_refs(gs.subrange(0, i as int)) == Some(texts(refs@)),
        decreases gs.len() - i,
    {
        let group = &track_groups.children[i];
        proof {
            assert(gs.subrange(0, i + 1).drop_last() =~= gs.subrange(0, i as int));
            assert(gs.subrange(0, i + 1).last() == gs[i as int]);
        }
        if !same_text(group.name.as_str(), "TrackGroup") {
            proof {
                lemma_group_refs_stays_none(gs, i as int + 1);
            }
            return Err(Error::element_not_found("TrackGroup", track_groups.name.as_str()));
        }
        match group.get("Second") {
            Ok(second) => match second.get_attr("ObjectRef") {
                Ok(v) => {
                    let ghost before = refs@;
                    refs.push(v.to_owned());
                    assert(texts(refs@) =~= texts(before).push(v@));
                },
                Err(e) => {
                    proof {
                        lemma_group_refs_stays_none(gs, i as int + 1);
                    }
                    return Err(e);
                },
            },
            Err(_) => {},
        }
        i = i + 1;
    }
    proof {
        assert(gs.subrange(0, gs.len() as int) =~= gs);
    }
    Ok(refs)
}

/// Once a prefix of the groups is unreadable, so is every longer one.
proof fn lemma_group_refs_stays_none(gs: Seq<Element>, k: int)
    requires
        0 < k <= gs.len(),
        group_refs(gs.subrange(0, k)) is None,
    ensures
        group_refs(gs) is None,
    decreases gs.len() - k,
{
    if k < gs.len() {
        assert(gs.subrange(0, k + 1).drop_last() =~= gs.subrange(0, k));
        lemma_group_refs_stays_none(gs, k + 1);
    } else {
        assert(gs.subrange(0, k) =~= gs);
    }
}

impl PremiereSequence {
    /// Reads a `Sequence` element: its `ID`, `Name`, the work area of
    /// `Node`'s `Properties`, and the track group references of
    /// `TrackGroups`.
    pub fn new(elem: &Element) -> (r: Result<Self, Error>)
        ensures
            match sequence_model(*elem) {
                Some(_) => r matches Ok(s) && fresh_sequence(s, *elem),
                None => r matches Err(e) && sequence_error(*elem, e),
            },
    {
        let names = vec!["ID", "Name", "Node", "TrackGroups"];
        assert(names@[0]@ == "ID"@ && names@[1]@ == "Name"@ && names@[2]@ == "Node"@ && names@[3]@
            == "TrackGroups"@);
        let found = match elem.get_elems_with_names(names.as_slice()) {
            Ok(f) => f,
            Err(e) => {
                proof {
                    let i = choose|i: int|
                        0 <= i < names@.len() && elem.child(names@[i]@) is None
                            && e.is_element_not_found(names@[i]@, elem.name@) && forall|j: int|
                            0 <= j < i ==> (#[trigger] elem.child(names@[j]@)) is Some;
                    if i > 0 {
                        assert(elem.child(names@[0]@) is Some);
                    }
                    if i > 1 {
                        assert(elem.child(names@[1]@) is Some);
                    }
                    if i > 2 {
                        assert(elem.child(names@[2]@) is Some);
                    }
                }
                return Err(e);
            },
        };
        let id_elem = found[0];
        let name_elem = found[1];
        let node_elem = found[2];
        let track_groups_elem = found[3];
        assert(names@[0]@ == "ID"@ && names@[1]@ == "Name"@ && names@[2]@ == "Node"@ && names@[3]@
            == "TrackGroups"@);
        assert(elem.child(names@[0]@) == Some(*found@[0]));
        assert(elem.child(names@[1]@) == Some(*found@[1]));
        assert(elem.child(names@[2]@) == Some(*found@[2]));
        assert(elem.child(names@[3]@) == Some(*found@[3]));
        let properties = node_elem.get("Properties")?;
        let work_in_elem = properties.get("MZ.WorkInPoint")?;
        let work_out_elem = properties.get("MZ.WorkOutPoint")?;
        let work_in = match parse_decimal(work_in_elem.text.as_str(), u64::MAX) {
            Some(v) => v,
            None => return Err(Error::malformed("MZ.WorkInPoint", work_in_elem.text.as_str())),
        };
        let work_out = match parse_decimal(work_out_elem.text.as_str(), u64::MAX) {
            Some(v) => v,
            None => return Err(Error::malformed("MZ.WorkOutPoint", work_out_elem.text.as_str())),
        };
        if work_out < work_in {
            return Err(Error::malformed("MZ.WorkOutPoint", work_out_elem.text.as_str()));
        }
        let track_groups = track_group_refs(track_groups_elem)?;
        let id = match parse_decimal(id_elem.text.as_str(), 0xffff_ffff) {
            Some(v) => v as u32,
            None => return Err(Error::malformed("ID", id_elem.text.as_str())),
        };
        Ok(
            PremiereSequence {
                id,
                name: name_elem.text.clone(),
                duration: work_out - work_in,
                track_groups,
                cuts: Cuts::new(),
                timeline: Timeline::new(),
                size: Size { width: 0, height: 0 },
            },
        )
    }

    pub fn id(&self) -> (r: u32)
        ensures
            r == self.id,
    {
        self.id
    }

    pub fn name(&self) -> (r: &str)
        ensures
            r@ == self.name@,
    {
        self.name.as_str()
    }

    /// The length of the work area, in seconds and nanoseconds.
    pub fn duration(&self) -> (r: Span)
        ensures
            r == span_of(self.duration),
    {
        Span::from_ticks(self.duration)
    }

    pub fn track_groups(&self) -> (r: &Vec<String>)
        ensures
            r == &self.track_groups,
    {
        &self.track_groups
    }

    pub fn cuts(&self) -> (r: &Vec<Cut>)
        ensures
            r == &self.cuts.cuts,
    {
        &self.cuts.cuts
    }

    pub fn timeline(&self) -> (r: &Timeline)
        ensures
            r == &self.timeline,
    {
        &self.timeline
    }

    pub fn size(&self) -> (r: Size)
        ensures
            r == self.size,
    {
        self.size
    }
}

} // verus!
