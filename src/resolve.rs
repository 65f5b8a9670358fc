//! Resolution of a video track group: from its tracks to their items, and
//! from each item along its chain of references to the medium it shows.
use vstd::prelude::*;

use crate::element::Element;
use crate::errors::Error;
use crate::graph::{
    find_by_id, get_elem_with_id, get_elems_with_ids, pointees, select_by_ids, str_texts, FindWith,
};
use crate::media::{names_unique, registered, PremiereMedia, PremiereMedium, Size};
use crate::sequence::{Cut, PremiereSequence};
use crate::text::{
    comma_field, comma_field_bounds, decimal_number, number_in, parse_decimal, parse_decimal_range,
};
use crate::timeline::{added, TimelineItem};
use vstd::string::StringSliceAdditionalSpecFns;
use vstd::utf8::encode_utf8;

verus! {

/// `c` has the Unicode `White_Space` property.
pub open spec fn is_white_space(c: char) -> bool {
    let u = c as u32;
    (0x09 <= u <= 0x0d) || u == 0x20 || u == 0x85 || u == 0xa0 || u == 0x1680 || (0x2000 <= u
        <= 0x200a) || u == 0x2028 || u == 0x2029 || u == 0x202f || u == 0x205f || u == 0x3000
}

/// `s` without its leading whitespace.
pub open spec fn trimmed_start(s: Seq<char>) -> Seq<char>
    decreases s.len(),
{
    if s.len() > 0 && is_white_space(s[0]) {
        trimmed_start(s.drop_first())
    } else {
        s
    }
}

/// `s` without its trailing whitespace.
pub open spec fn trimmed_end(s: Seq<char>) -> Seq<char>
    decreases s.len(),
{
    if s.len() > 0 && is_white_space(s.last()) {
        trimmed_end(s.drop_last())
    } else {
        s
    }
}

/// The text `s` without leading and trailing whitespace.
pub open spec fn trimmed(s: Seq<char>) -> Seq<char> {
    trimmed_end(trimmed_start(s))
}

/// Relies on `str::trim`: the text without its leading and trailing
/// whitespace, whitespace being the Unicode `White_Space` property.
#[verifier::external_body]
fn trim_text(s: &str) -> (r: String)
    ensures
        r@ == trimmed(s@),
{
    s.trim().to_owned()
}

/// The texts of the references of `v`, with their namespaces.
pub open spec fn ref_texts(v: Seq<(&str, FindWith)>) -> Seq<(Seq<char>, FindWith)> {
    v.map_values(|p: (&str, FindWith)| (p.0@, p.1))
}

/// The first child `name` of `e`, when `e` is there.
pub open spec fn opt_child(e: Option<Element>, name: Seq<char>) -> Option<Element> {
    match e {
        Some(x) => x.child(name),
        None => None,
    }
}

/// The child of `root` that the attribute `attr` of `e` refers to, in
/// namespace `ns`.
pub open spec fn follow(root: Element, e: Option<Element>, attr: Seq<char>, ns: FindWith) -> Option<
    Element,
> {
    match e {
        Some(x) => match x.attr(attr) {
            Some(id) => find_by_id(root.children@, id, ns),
            None => None,
        },
        None => None,
    }
}

/// The number in the text of `e`, or zero when it holds none.
pub open spec fn number_or_zero(e: Element) -> nat {
    match number_in(e.text@, u64::MAX as nat) {
        Some(n) => n,
        None => 0,
    }
}

/// What a clip track item resolves to, following
/// `SubClip → Clip → Source → Media → VideoStream`: its in and out points
/// in ticks, the trimmed title and file path of its medium, and the frame
/// rate and duration of the medium's video stream. `None` when a link of
/// the chain is missing or an in or out point is not a number.
#[verifier::opaque]
pub open spec fn track_item_model(root: Element, item: Element) -> Option<
    (nat, nat, Seq<char>, Seq<char>, nat, nat),
> {
    let cti = item.child("ClipTrackItem"@);
    let sub_clip_ref = opt_child(cti, "SubClip"@);
    let track_item = opt_child(cti, "TrackItem"@);
    let end = opt_child(track_item, "End"@);
    let start = opt_child(track_item, "Start"@);
    let sub_clip = follow(root, sub_clip_ref, "ObjectRef"@, FindWith::ID);
    let clip_ref = opt_child(sub_clip, "Clip"@);
    let master_clip = opt_child(sub_clip, "MasterClip"@);
    let name = opt_child(sub_clip, "Name"@);
    let clip = opt_child(follow(root, clip_ref, "ObjectRef"@, FindWith::ID), "Clip"@);
    let source = opt_child(clip, "Source"@);
    let media_ref = opt_child(
        opt_child(follow(root, source, "ObjectRef"@, FindWith::ID), "MediaSource"@),
        "Media"@,
    );
    let media = follow(root, media_ref, "ObjectURef"@, FindWith::UID);
    let file_path = opt_child(media, "FilePath"@);
    let title = opt_child(media, "Title"@);
    let stream = follow(root, opt_child(media, "VideoStream"@), "ObjectRef"@, FindWith::ID);
    let duration = opt_child(stream, "Duration"@);
    let frame_rate = opt_child(stream, "FrameRate"@);
    match (start, end, master_clip, name, file_path, title, duration, frame_rate) {
        (Some(s), Some(e), Some(_), Some(_), Some(p), Some(t), Some(d), Some(f)) => match (
            number_in(s.text@, u64::MAX as nat),
            number_in(e.text@, u64::MAX as nat),
        ) {
            (Some(i), Some(o)) => Some(
                (i, o, trimmed(t.text@), trimmed(p.text@), number_or_zero(f), number_or_zero(d)),
            ),
            _ => None,
        },
        _ => None,
    }
}

/// The frame size that the `FrameRect` of `vtg` gives in its third and
/// fourth comma separated fields.
pub open spec fn frame_size(vtg: Element) -> Option<Size> {
    match vtg.child("FrameRect"@) {
        Some(fr) => rect_size(fr.text@),
        None => None,
    }
}

/// The frame size in the third and fourth comma separated fields of `text`.
pub open spec fn rect_size(text: Seq<char>) -> Option<Size> {
    match (comma_field(encode_utf8(text), 2), comma_field(encode_utf8(text), 3)) {
        (Some(w), Some(h)) => match (
            decimal_number(w, u32::MAX as nat),
            decimal_number(h, u32::MAX as nat),
        ) {
            (Some(a), Some(b)) => Some(Size { width: a as u32, height: b as u32 }),
            _ => None,
        },
        _ => None,
    }
}

/// The reference a track makes to its track element: a global one when it
/// has `ObjectURef`, else a local one.
pub open spec fn track_ref(t: Element) -> Option<(Seq<char>, FindWith)> {
    match t.attr("ObjectURef"@) {
        Some(u) => Some((u, FindWith::UID)),
        None => match t.attr("ObjectRef"@) {
            Some(r) => Some((r, FindWith::ID)),
            None => None,
        },
    }
}

/// The references of the tracks `ts`, in order.
pub open spec fn track_refs(ts: Seq<Element>) -> Option<Seq<(Seq<char>, FindWith)>>
    decreases ts.len(),
{
    if ts.len() == 0 {
        Some(seq![])
    } else {
        match (track_refs(ts.drop_last()), track_ref(ts.last())) {
            (Some(p), Some(r)) => Some(p.push(r)),
            _ => None,
        }
    }
}

/// The `ObjectRef` of each element of `items`, in order.
pub open spec fn item_refs(items: Seq<Element>) -> Option<Seq<Seq<char>>>
    decreases items.len(),
{
    if items.len() == 0 {
        Some(seq![])
    } else {
        match (item_refs(items.drop_last()), items.last().attr("ObjectRef"@)) {
            (Some(p), Some(r)) => Some(p.push(r)),
            _ => None,
        }
    }
}

/// The clip track items of the track that `tr` refers to, in document order.
pub open spec fn track_elements(root: Element, tr: (Seq<char>, FindWith)) -> Option<Seq<Element>> {
    let items = opt_child(
        opt_child(opt_child(find_by_id(root.children@, tr.0, tr.1), "ClipTrack"@), "ClipItems"@),
        "TrackItems"@,
    );
    match items {
        Some(ti) => match item_refs(ti.children@) {
            Some(ids) => Some(select_by_ids(root.children@, ids, FindWith::ID)),
            None => None,
        },
        None => None,
    }
}

/// The clip track items of the tracks `trs`, track after track.
pub open spec fn items_of_tracks(root: Element, trs: Seq<(Seq<char>, FindWith)>) -> Option<
    Seq<Element>,
>
    decreases trs.len(),
{
    if trs.len() == 0 {
        Some(seq![])
    } else {
        match (items_of_tracks(root, trs.drop_last()), track_elements(root, trs.last())) {
            (Some(a), Some(b)) => Some(a + b),
            _ => None,
        }
    }
}

/// The track references of a video track group.
pub open spec fn group_tracks(vtg: Element) -> Option<Seq<(Seq<char>, FindWith)>> {
    match opt_child(vtg.child("TrackGroup"@), "Tracks"@) {
        Some(ts) => track_refs(ts.children@),
        None => None,
    }
}

/// Every link that resolving `vtg` follows is there.
pub open spec fn group_resolves(root: Element, vtg: Element) -> bool {
    &&& frame_size(vtg) is Some
    &&& group_tracks(vtg) matches Some(trs)
    &&& items_of_tracks(root, trs) matches Some(items)
    &&& forall|i: int| 0 <= i < items.len() ==> (#[trigger] track_item_model(root, items[i])) is Some
}

/// The models of the clip track items `items`.
pub open spec fn models_of(root: Element, items: Seq<Element>) -> Seq<
    (nat, nat, Seq<char>, Seq<char>, nat, nat),
> {
    items.map_values(|x: Element| track_item_model(root, x)->0)
}

/// The clip track items of the longest run of leading tracks of `trs`
/// whose items can all be looked up.
pub open spec fn longest_items(root: Element, trs: Seq<(Seq<char>, FindWith)>) -> Seq<Element>
    decreases trs.len(),
{
    if trs.len() == 0 {
        seq![]
    } else {
        match items_of_tracks(root, trs) {
            Some(x) => x,
            None => longest_items(root, trs.drop_last()),
        }
    }
}

/// The index of the first item of `items`, from `i` on, that does not
/// resolve; the length when all do.
pub open spec fn first_unresolved(root: Element, items: Seq<Element>, i: int) -> int
    decreases items.len() - i,
{
    if i < 0 || i >= items.len() {
        items.len() as int
    } else if track_item_model(root, items[i]) is None {
        i
    } else {
        first_unresolved(root, items, i + 1)
    }
}

/// The items that resolving `vtg` turns into cuts, in order: with a frame
/// size and tracks, the items of the tracks that can be looked up, up to
/// the first that does not resolve.
pub open spec fn processed_items(root: Element, vtg: Element) -> Seq<Element> {
    match (frame_size(vtg), group_tracks(vtg)) {
        (Some(_), Some(trs)) => {
            let l = longest_items(root, trs);
            l.subrange(0, first_unresolved(root, l, 0))
        },
        _ => seq![],
    }
}

/// The medium that an item of model `m` offers the registry.
pub open spec fn offers(c: PremiereMedium, m: (nat, nat, Seq<char>, Seq<char>, nat, nat)) -> bool {
    &&& c.file_name@ == m.2
    &&& c.file_path@ == m.3
    &&& c.frame_rate == m.4
    &&& c.duration == m.5
    &&& c.size == (Size { width: 1920, height: 1080 })
}

/// `states` steps the registry from `before` to `after` while the cuts
/// `cuts` are made: for each model of `models`, in order, its medium is
/// offered and its cut takes its in and out points and the index answered.
pub open spec fn media_steps(
    states: Seq<Seq<PremiereMedium>>,
    before: Seq<PremiereMedium>,
    after: Seq<PremiereMedium>,
    cuts: Seq<Cut>,
    models: Seq<(nat, nat, Seq<char>, Seq<char>, nat, nat)>,
) -> bool {
    &&& states.len() == models.len() + 1
    &&& cuts.len() == models.len()
    &&& states[0] == before
    &&& states.last() == after
    &&& forall|i: int|
        0 <= i < models.len() ==> step_made(states[i], states[i + 1], cuts[i], #[trigger] models[i])
}

/// Offering the medium of the item of model `m` to the registry `before`
/// gave `after`, and `cut` takes the item's in and out points and the index
/// answered.
pub open spec fn step_made(
    before: Seq<PremiereMedium>,
    after: Seq<PremiereMedium>,
    cut: Cut,
    m: (nat, nat, Seq<char>, Seq<char>, nat, nat),
) -> bool {
    exists|c: PremiereMedium|
        offers(c, m) && registered(before, c) == (after, cut.medium as int) && cut.start == m.0
            && cut.end == m.1
}

/// The registry went from `before` to `after`, and the cuts `cuts` were
/// made, item model by item model of `models`.
pub open spec fn offered_in_order(
    before: Seq<PremiereMedium>,
    after: Seq<PremiereMedium>,
    cuts: Seq<Cut>,
    models: Seq<(nat, nat, Seq<char>, Seq<char>, nat, nat)>,
) -> bool {
    exists|states: Seq<Seq<PremiereMedium>>| media_steps(states, before, after, cuts, models)
}

proof fn lemma_offered_start(media: Seq<PremiereMedium>)
    ensures
        offered_in_order(media, media, seq![], seq![]),
{
    assert(media_steps(seq![media], media, media, seq![], seq![]));
}

proof fn lemma_offered_step(
    before: Seq<PremiereMedium>,
    mid: Seq<PremiereMedium>,
    after: Seq<PremiereMedium>,
    cuts: Seq<Cut>,
    models: Seq<(nat, nat, Seq<char>, Seq<char>, nat, nat)>,
    c: PremiereMedium,
    cut: Cut,
    m: (nat, nat, Seq<char>, Seq<char>, nat, nat),
)
    requires
        offered_in_order(before, mid, cuts, models),
        offers(c, m),
        registered(mid, c) == (after, cut.medium as int),
        cut.start == m.0,
        cut.end == m.1,
    ensures
        offered_in_order(before, after, cuts.push(cut), models.push(m)),
{
    let states = choose|states: Seq<Seq<PremiereMedium>>|
        media_steps(states, before, mid, cuts, models);
    let ns = states.push(after);
    let nc = cuts.push(cut);
    let nm = models.push(m);
    assert forall|i: int| 0 <= i < nm.len() implies step_made(
        ns[i],
        ns[i + 1],
        nc[i],
        #[trigger] nm[i],
    ) by {
        if i < models.len() {
            assert(nm[i] == models[i]);
            assert(step_made(states[i], states[i + 1], cuts[i], models[i]));
            assert(ns[i] == states[i] && ns[i + 1] == states[i + 1] && nc[i] == cuts[i]);
        } else {
            assert(ns[i] == mid);
            assert(offers(c, nm[i]) && registered(ns[i], c) == (ns[i + 1], nc[i].medium as int));
        }
    }
    assert(ns[0] == states[0]);
    assert(ns.last() == after);
    assert(media_steps(ns, before, after, nc, nm));
}

proof fn lemma_first_unresolved(root: Element, items: Seq<Element>, i: int, n: int)
    requires
        0 <= i <= n <= items.len(),
        forall|j: int| i <= j < n ==> (#[trigger] track_item_model(root, items[j])) is Some,
        n == items.len() || track_item_model(root, items[n]) is None,
    ensures
        first_unresolved(root, items, i) == n,
    decreases n - i,
{
    if i < n {
        lemma_first_unresolved(root, items, i + 1, n);
    }
}

/// The items of a leading run of tracks that can all be looked up begin
/// `longest_items`.
proof fn lemma_longest_prefix(root: Element, trs: Seq<(Seq<char>, FindWith)>, j: int)
    requires
        0 <= j <= trs.len(),
        items_of_tracks(root, trs.subrange(0, j)) is Some,
    ensures
        ({
            let p = items_of_tracks(root, trs.subrange(0, j))->0;
            let l = longest_items(root, trs);
            p.len() <= l.len() && l.subrange(0, p.len() as int) == p
        }),
    decreases trs.len(),
{
    let p = items_of_tracks(root, trs.subrange(0, j))->0;
    if items_of_tracks(root, trs) is Some {
        lemma_items_prefix(root, trs, j);
    } else {
        if j == trs.len() {
            assert(trs.subrange(0, j) =~= trs);
        }
        let d = trs.drop_last();
        assert(d.subrange(0, j) =~= trs.subrange(0, j));
        lemma_longest_prefix(root, d, j);
    }
}

/// When the run of tracks stops being lookable at track `j`,
/// `longest_items` is the items of the tracks before it.
proof fn lemma_longest_stops(root: Element, trs: Seq<(Seq<char>, FindWith)>, j: int)
    requires
        0 <= j < trs.len(),
        items_of_tracks(root, trs.subrange(0, j)) is Some,
        items_of_tracks(root, trs.subrange(0, j + 1)) is None,
    ensures
        longest_items(root, trs) == items_of_tracks(root, trs.subrange(0, j))->0,
    decreases trs.len(),
{
    lemma_items_stay_none(root, trs, j + 1);
    let d = trs.drop_last();
    assert(longest_items(root, trs) == longest_items(root, d));
    if j + 1 == trs.len() {
        assert(d =~= trs.subrange(0, j));
        if d.len() > 0 {
            assert(items_of_tracks(root, d) is Some);
        } else {
            assert(items_of_tracks(root, d) == Some(Seq::<Element>::empty()));
        }
    } else {
        assert(d.subrange(0, j) =~= trs.subrange(0, j));
        assert(d.subrange(0, j + 1) =~= trs.subrange(0, j + 1));
        lemma_longest_stops(root, d, j);
    }
}

/// Cut `c` shows what the item model `m` describes, through `media`.
pub open spec fn cut_shows(
    c: Cut,
    media: Seq<PremiereMedium>,
    m: (nat, nat, Seq<char>, Seq<char>, nat, nat),
) -> bool {
    &&& c.start == m.0
    &&& c.end == m.1
    &&& c.medium < media.len()
    &&& media[c.medium as int].file_name@ == m.2
}

/// The timeline window of cut number `i`, `c`.
pub open spec fn window_of(i: int, c: Cut) -> TimelineItem {
    TimelineItem { cut: i as usize, start: c.start as i128, end: c.end as i128 }
}

/// `states` steps from the timeline `before` to `after` by adding the cuts
/// of `cuts` from index `first` on, in order, each as its window.
pub open spec fn steps_through(
    states: Seq<Seq<TimelineItem>>,
    before: Seq<TimelineItem>,
    after: Seq<TimelineItem>,
    cuts: Seq<Cut>,
    first: int,
) -> bool {
    &&& 0 <= first <= cuts.len()
    &&& states.len() == cuts.len() - first + 1
    &&& states[0] == before
    &&& states.last() == after
    &&& forall|i: int|
        0 <= i < cuts.len() - first ==> added(
            #[trigger] states[i],
            states[i + 1],
            window_of(first + i, cuts[first + i]),
        )
}

/// `after` is the timeline `before` once the cuts of `cuts` from index
/// `first` on have been added to it, in order, each as its window.
pub open spec fn placed(
    before: Seq<TimelineItem>,
    after: Seq<TimelineItem>,
    cuts: Seq<Cut>,
    first: int,
) -> bool {
    exists|states: Seq<Seq<TimelineItem>>| steps_through(states, before, after, cuts, first)
}

proof fn lemma_placed_start(before: Seq<TimelineItem>, cuts: Seq<Cut>)
    ensures
        placed(before, before, cuts, cuts.len() as int),
{
    assert(steps_through(seq![before], before, before, cuts, cuts.len() as int));
}

proof fn lemma_placed_step(
    before: Seq<TimelineItem>,
    mid: Seq<TimelineItem>,
    after: Seq<TimelineItem>,
    cuts: Seq<Cut>,
    c: Cut,
    first: int,
)
    requires
        placed(before, mid, cuts, first),
        added(mid, after, window_of(cuts.len() as int, c)),
    ensures
        placed(before, after, cuts.push(c), first),
{
    let states = choose|states: Seq<Seq<TimelineItem>>|
        steps_through(states, before, mid, cuts, first);
    let next = states.push(after);
    let cs = cuts.push(c);
    assert forall|i: int| 0 <= i < cs.len() - first implies added(
        #[trigger] next[i],
        next[i + 1],
        window_of(first + i, cs[first + i]),
    ) by {
        if i < cuts.len() - first {
            assert(next[i] == states[i]);
            assert(next[i + 1] == states[i + 1]);
            assert(cs[first + i] == cuts[first + i]);
        } else {
            assert(next[i] == states.last());
        }
    }
    assert(steps_through(next, before, after, cs, first));
}

/// Every cut of `cuts` refers to a medium of `media`.
pub open spec fn cuts_refer_into(cuts: Seq<Cut>, media: Seq<PremiereMedium>) -> bool {
    forall|i: int| 0 <= i < cuts.len() ==> (#[trigger] cuts[i]).medium < media.len()
}

/// `e` is the error of a missing child `name` of `p`.
pub open spec fn missing_child(e: Error, p: Element, name: Seq<char>) -> bool {
    e.is_element_not_found(name, p.name@)
}

/// `e` is the error of a missing attribute `name` of `p`.
pub open spec fn missing_attr(e: Error, p: Element, name: Seq<char>) -> bool {
    e.is_attribute_not_found(name, p.name@)
}

/// `e` is the error of a reference, in attribute `attr` of `p`, that
/// cannot be followed: the attribute is missing, or no child of `root`
/// carries the identifier.
pub open spec fn follow_error(root: Element, e: Error, p: Element, attr: Seq<char>) -> bool {
    match p.attr(attr) {
        None => missing_attr(e, p, attr),
        Some(id) => e.is_element_not_found(id, root.name@),
    }
}

/// The error of the first broken link from the media source `s0` on:
/// `MediaSource → Media → ObjectURef → (media) → FilePath, Title,
/// VideoStream → ObjectRef → (stream) → Duration, FrameRate`.
pub open spec fn media_chain_error(root: Element, s0: Element, e: Error) -> bool {
    match opt_child(s0.child("MediaSource"@), "Media"@) {
        None => match s0.child("MediaSource"@) {
            None => missing_child(e, s0, "MediaSource"@),
            Some(ms) => missing_child(e, ms, "Media"@),
        },
        Some(mref) => match follow(root, Some(mref), "ObjectURef"@, FindWith::UID) {
            None => follow_error(root, e, mref, "ObjectURef"@),
            Some(media) => match (
                media.child("FilePath"@),
                media.child("Title"@),
                media.child("VideoStream"@),
            ) {
                (None, _, _) => missing_child(e, media, "FilePath"@),
                (Some(_), None, _) => missing_child(e, media, "Title"@),
                (Some(_), Some(_), None) => missing_child(e, media, "VideoStream"@),
                (Some(_), Some(_), Some(vsr)) => match follow(
                    root,
                    Some(vsr),
                    "ObjectRef"@,
                    FindWith::ID,
                ) {
                    None => follow_error(root, e, vsr, "ObjectRef"@),
                    Some(vs) => match (vs.child("Duration"@), vs.child("FrameRate"@)) {
                        (None, _) => missing_child(e, vs, "Duration"@),
                        (Some(_), None) => missing_child(e, vs, "FrameRate"@),
                        _ => false,
                    },
                },
            },
        },
    }
}

/// The error of the first broken link from the sub clip `sc` on:
/// `Clip, MasterClip, Name → ObjectRef → (clip) → Clip → Source →
/// ObjectRef → (media source)`, then as `media_chain_error`.
pub open spec fn clip_chain_error(root: Element, sc: Element, e: Error) -> bool {
    match (sc.child("Clip"@), sc.child("MasterClip"@), sc.child("Name"@)) {
        (None, _, _) => missing_child(e, sc, "Clip"@),
        (Some(_), None, _) => missing_child(e, sc, "MasterClip"@),
        (Some(_), Some(_), None) => missing_child(e, sc, "Name"@),
        (Some(cr), Some(_), Some(_)) => match follow(root, Some(cr), "ObjectRef"@, FindWith::ID) {
            None => follow_error(root, e, cr, "ObjectRef"@),
            Some(c0) => match opt_child(c0.child("Clip"@), "Source"@) {
                None => match c0.child("Clip"@) {
                    None => missing_child(e, c0, "Clip"@),
                    Some(clip) => missing_child(e, clip, "Source"@),
                },
                Some(src) => match follow(root, Some(src), "ObjectRef"@, FindWith::ID) {
                    None => follow_error(root, e, src, "ObjectRef"@),
                    Some(s0) => media_chain_error(root, s0, e),
                },
            },
        },
    }
}

/// The error that resolving the clip track item `item` fails with: that of
/// the first broken link of its chain, in the order the links are followed.
pub open spec fn item_error(root: Element, item: Element, e: Error) -> bool {
    match item.child("ClipTrackItem"@) {
        None => missing_child(e, item, "ClipTrackItem"@),
        Some(cti) => match (cti.child("SubClip"@), cti.child("TrackItem"@)) {
            (None, _) => missing_child(e, cti, "SubClip"@),
            (Some(_), None) => missing_child(e, cti, "TrackItem"@),
            (Some(scr), Some(ti)) => match (ti.child("End"@), ti.child("Start"@)) {
                (None, _) => missing_child(e, ti, "End"@),
                (Some(_), None) => missing_child(e, ti, "Start"@),
                (Some(end), Some(start)) => match follow(
                    root,
                    Some(scr),
                    "ObjectRef"@,
                    FindWith::ID,
                ) {
                    None => follow_error(root, e, scr, "ObjectRef"@),
                    Some(sc) => match (
                        number_in(start.text@, u64::MAX as nat),
                        number_in(end.text@, u64::MAX as nat),
                    ) {
                        (None, _) => e.is_malformed("Start"@, start.text@),
                        (Some(_), None) => e.is_malformed("End"@, end.text@),
                        _ => clip_chain_error(root, sc, e),
                    },
                },
            },
        },
    }
}

/// The `TrackItems` element of the track that `tr` refers to.
pub open spec fn track_items_elem(root: Element, tr: (Seq<char>, FindWith)) -> Option<Element> {
    opt_child(
        opt_child(opt_child(find_by_id(root.children@, tr.0, tr.1), "ClipTrack"@), "ClipItems"@),
        "TrackItems"@,
    )
}

/// The error of the first broken link from the reference `tr` to its
/// track's `ClipTrack → ClipItems → TrackItems`.
pub open spec fn track_chain_error(root: Element, tr: (Seq<char>, FindWith), e: Error) -> bool {
    match find_by_id(root.children@, tr.0, tr.1) {
        None => e.is_element_not_found(tr.0, root.name@),
        Some(t0) => match t0.child("ClipTrack"@) {
            None => missing_child(e, t0, "ClipTrack"@),
            Some(ct) => match ct.child("ClipItems"@) {
                None => missing_child(e, ct, "ClipItems"@),
                Some(ci) => missing_child(e, ci, "TrackItems"@),
            },
        },
    }
}

/// `e` is the error of the first of `items` without an `ObjectRef`.
pub open spec fn item_refs_error(items: Seq<Element>, e: Error) -> bool {
    exists|u: int|
        0 <= u < items.len() && (#[trigger] items[u]).attr("ObjectRef"@) is None && (forall|v: int|
            0 <= v < u ==> (#[trigger] items[v]).attr("ObjectRef"@) is Some) && missing_attr(
            e,
            items[u],
            "ObjectRef"@,
        )
}

/// The error of looking up the items of the track that `tr` refers to.
pub open spec fn track_error(root: Element, tr: (Seq<char>, FindWith), e: Error) -> bool {
    match track_items_elem(root, tr) {
        None => track_chain_error(root, tr, e),
        Some(ti) => item_refs_error(ti.children@, e),
    }
}

/// `e` is the error of the first of the tracks `ts` that refers to no track.
pub open spec fn tracks_error(ts: Seq<Element>, e: Error) -> bool {
    exists|t: int|
        0 <= t < ts.len() && (#[trigger] track_ref(ts[t])) is None && (forall|u: int|
            0 <= u < t ==> (#[trigger] track_ref(ts[u])) is Some) && missing_attr(
            e,
            ts[t],
            "ObjectRef"@,
        )
}

/// The error that resolving the video track group `vtg` fails with: that
/// of its `FrameRect`, `TrackGroup` or `Tracks`, of a track reference, or
/// else of whichever comes first, in the order the work is done, of a
/// track whose items cannot be looked up and an item that does not resolve.
pub open spec fn group_error(root: Element, vtg: Element, e: Error) -> bool {
    match vtg.child("FrameRect"@) {
        None => missing_child(e, vtg, "FrameRect"@),
        Some(fr) => match (rect_size(fr.text@), vtg.child("TrackGroup"@)) {
            (None, _) => e.is_malformed("FrameRect"@, fr.text@),
            (Some(_), None) => missing_child(e, vtg, "TrackGroup"@),
            (Some(_), Some(tg)) => match tg.child("Tracks"@) {
                None => missing_child(e, tg, "Tracks"@),
                Some(ts) => match track_refs(ts.children@) {
                    None => tracks_error(ts.children@, e),
                    Some(trs) => {
                        let l = longest_items(root, trs);
                        let f = first_unresolved(root, l, 0);
                        if f < l.len() {
                            item_error(root, l[f], e)
                        } else {
                            exists|t: int|
                                0 <= t < trs.len() && (#[trigger] items_of_tracks(
                                    root,
                                    trs.subrange(0, t),
                                )) is Some && items_of_tracks(root, trs.subrange(0, t + 1))
                                    is None && track_error(root, trs[t], e)
                        }
                    },
                },
            },
        },
    }
}

proof fn lemma_track_refs_each(ts: Seq<Element>)
    requires
        track_refs(ts) is Some,
    ensures
        forall|u: int| 0 <= u < ts.len() ==> (#[trigger] track_ref(ts[u])) is Some,
    decreases ts.len(),
{
    if ts.len() > 0 {
        lemma_track_refs_each(ts.drop_last());
        assert forall|u: int| 0 <= u < ts.len() implies (#[trigger] track_ref(ts[u])) is Some by {
            if u < ts.len() - 1 {
                assert(ts[u] == ts.drop_last()[u]);
            }
        }
    }
}

proof fn lemma_item_refs_each(items: Seq<Element>)
    requires
        item_refs(items) is Some,
    ensures
        forall|u: int| 0 <= u < items.len() ==> (#[trigger] items[u]).attr("ObjectRef"@) is Some,
    decreases items.len(),
{
    if items.len() > 0 {
        lemma_item_refs_each(items.drop_last());
        assert forall|u: int| 0 <= u < items.len() implies (#[trigger] items[u]).attr(
            "ObjectRef"@,
        ) is Some by {
            if u < items.len() - 1 {
                assert(items[u] == items.drop_last()[u]);
            }
        }
    }
}

/// What one clip track item resolved to.
pub struct ResolvedItem {
    pub in_point: u64,
    pub out_point: u64,
    pub medium: PremiereMedium,
}

impl ResolvedItem {
    pub open spec fn model(self) -> (nat, nat, Seq<char>, Seq<char>, nat, nat) {
        (
            self.in_point as nat,
            self.out_point as nat,
            self.medium.file_name@,
            self.medium.file_path@,
            self.medium.frame_rate as nat,
            self.medium.duration as nat,
        )
    }
}

/// The number in the text of `e`, or zero when it holds none.
fn read_number_or_zero(e: &Element) -> (r: u64)
    ensures
        r == number_or_zero(*e),
{
    match parse_decimal(e.text.as_str(), u64::MAX) {
        Some(v) => v,
        None => 0,
    }
}

/// Follows the chain of references of the clip track item `item`.
pub fn resolve_track_item(root: &Element, item: &Element) -> (r: Result<ResolvedItem, Error>)
    ensures
        match track_item_model(*root, *item) {
            Some(m) => r matches Ok(x) && x.model() == m && x.medium.size == (Size {
                width: 1920,
                height: 1080,
            }),
            None => r matches Err(e) && item_error(*root, *item, e),
        },
{
    reveal(track_item_model);
    let sub_clip_track_item = item.get("ClipTrackItem")?;
    let sub_clip_elem = sub_clip_track_item.get("SubClip")?;
    let track_item_elem = sub_clip_track_item.get("TrackItem")?;
    let end_elem = track_item_elem.get("End")?;
    let start_elem = track_item_elem.get("Start")?;
    let sub_clip = get_elem_with_id(root, sub_clip_elem.get_attr("ObjectRef")?, FindWith::ID)?;
    let in_point = match parse_decimal(start_elem.text.as_str(), u64::MAX) {
        Some(v) => v,
        None => return Err(Error::malformed("Start", start_elem.text.as_str())),
    };
    let out_point = match parse_decimal(end_elem.text.as_str(), u64::MAX) {
        Some(v) => v,
        None => return Err(Error::malformed("End", end_elem.text.as_str())),
    };
    let clip_elem = sub_clip.get("Clip")?;
    let _master_clip = sub_clip.get("MasterClip")?;
    let _name = sub_clip.get("Name")?;
    let clip = get_elem_with_id(root, clip_elem.get_attr("ObjectRef")?, FindWith::ID)?.get(
        "Clip",
    )?;
    let source_elem = clip.get("Source")?;
    let media_source = get_elem_with_id(root, source_elem.get_attr("ObjectRef")?, FindWith::ID)?;
    let media_uref = media_source.get("MediaSource")?.get("Media")?.get_attr("ObjectURef")?;
    let media = get_elem_with_id(root, media_uref, FindWith::UID)?;
    let file_path_elem = media.get("FilePath")?;
    let title_elem = media.get("Title")?;
    let video_stream_elem = media.get("VideoStream")?;
    let media_path = trim_text(file_path_elem.text.as_str());
    let media_name = trim_text(title_elem.text.as_str());
    let video_stream = get_elem_with_id(
        root,
        video_stream_elem.get_attr("ObjectRef")?,
        FindWith::ID,
    )?;
    let duration_elem = video_stream.get("Duration")?;
    let frame_rate_elem = video_stream.get("FrameRate")?;
    let frame_rate = read_number_or_zero(frame_rate_elem);
    let duration = read_number_or_zero(duration_elem);
    let medium = PremiereMedium::new(
        media_name,
        media_path,
        frame_rate,
        duration,
        Size { width: 1920, height: 1080 },
    );
    Ok(ResolvedItem { in_point, out_point, medium })
}

/// Offers the medium of `item` to `media`, appends the cut of `item` to
/// `seq`, and places that cut on the sequence's timeline.
pub fn add_cut(seq: &mut PremiereSequence, media: &mut PremiereMedia, item: ResolvedItem)
    requires
        names_unique(old(media)@),
    ensures
        names_unique(final(media)@),
        ({
            let (m, h) = registered(old(media)@, item.medium);
            &&& final(media)@ == m
            &&& final(seq).cuts.cuts@ == old(seq).cuts.cuts@.push(
                Cut { start: item.in_point, end: item.out_point, medium: h as usize },
            )
            &&& added(
                old(seq).timeline@,
                final(seq).timeline@,
                TimelineItem {
                    cut: old(seq).cuts.cuts@.len() as usize,
                    start: item.in_point as i128,
                    end: item.out_point as i128,
                },
            )
        }),
        final(seq).id == old(seq).id,
        final(seq).name == old(seq).name,
        final(seq).duration == old(seq).duration,
        final(seq).track_groups == old(seq).track_groups,
        final(seq).size == old(seq).size,
{
    let handle = media.insert(item.medium);
    let index = seq.cuts.push(Cut { start: item.in_point, end: item.out_point, medium: handle });
    seq.timeline.add(index, item.in_point as i128, item.out_point as i128);
}

/// Reads the frame size out of a `FrameRect` element.
fn read_frame_size(frame_rect: &Element) -> (r: Result<Size, Error>)
    ensures
        match rect_size(frame_rect.text@) {
            Some(s) => r matches Ok(x) && x == s,
            None => r matches Err(e) && e.is_malformed("FrameRect"@, frame_rect.text@),
        },
{
    let b = frame_rect.text.as_str().as_bytes();
    let width = match comma_field_bounds(b, 2) {
        Some((lo, hi)) => parse_decimal_range(b, lo, hi, 0xffff_ffff),
        None => None,
    };
    let height = match comma_field_bounds(b, 3) {
        Some((lo, hi)) => parse_decimal_range(b, lo, hi, 0xffff_ffff),
        None => None,
    };
    match (width, height) {
        (Some(w), Some(h)) => Ok(Size { width: w as u32, height: h as u32 }),
        _ => Err(Error::malformed("FrameRect", frame_rect.text.as_str())),
    }
}

/// The reference that each child of `tracks` makes to its track.
fn read_track_refs<'a>(tracks: &'a Element) -> (r: Result<Vec<(&'a str, FindWith)>, Error>)
    ensures
        match track_refs(tracks.children@) {
            Some(v) => r matches Ok(x) && ref_texts(x@) == v,
            None => r matches Err(e) && tracks_error(tracks.children@, e),
        },
{
    let ghost ts = tracks.children@;
    let mut refs: Vec<(&str, FindWith)> = Vec::new();
    let mut i: usize = 0;
    while i < tracks.children.len()
        invariant
            0 <= i <= ts.len(),
            ts == tracks.children@,
            track_refs(ts.subrange(0, i as int)) == Some(ref_texts(refs@)),
        decreases ts.len() - i,
    {
        let track = &tracks.children[i];
        proof {
            assert(ts.subrange(0, i + 1).drop_last() =~= ts.subrange(0, i as int));
            assert(ts.subrange(0, i + 1).last() == ts[i as int]);
        }
        let r = match track.find_attr("ObjectURef") {
            Some(u) => (u, FindWith::UID),
            None => match track.get_attr("ObjectRef") {
                Ok(v) => (v, FindWith::ID),
                Err(e) => {
                    proof {
                        lemma_track_refs_stay_none(ts, i as int + 1);
                        lemma_track_refs_each(ts.subrange(0, i as int));
                        assert forall|u: int| 0 <= u < i implies (#[trigger] track_ref(ts[u]))
                            is Some by {
                            assert(ts[u] == ts.subrange(0, i as int)[u]);
                        }
                        assert(track_ref(ts[i as int]) is None);
                    }
                    return Err(e);
                },
            },
        };
        let ghost before = refs@;
        refs.push(r);
        assert(ref_texts(refs@) =~= ref_texts(before).push((r.0@, r.1)));
        i = i + 1;
    }
    proof {
        assert(ts.subrange(0, ts.len() as int) =~= ts);
    }
    Ok(refs)
}

proof fn lemma_track_refs_stay_none(ts: Seq<Element>, k: int)
    requires
        0 < k <= ts.len(),
        track_refs(ts.subrange(0, k)) is None,
    ensures
        track_refs(ts) is None,
    decreases ts.len() - k,
{
    if k < ts.len() {
        assert(ts.subrange(0, k + 1).drop_last() =~= ts.subrange(0, k));
        lemma_track_refs_stay_none(ts, k + 1);
    } else {
        assert(ts.subrange(0, k) =~= ts);
    }
}

/// The `TrackItems` of the track that `track_ref` refers to in namespace
/// `ns`.
fn track_items_of<'a>(root: &'a Element, track_ref: &str, ns: FindWith) -> (r: Result<
    &'a Element,
    Error,
>)
    ensures
        match opt_child(
            opt_child(opt_child(find_by_id(root.children@, track_ref@, ns), "ClipTrack"@), "ClipItems"@),
            "TrackItems"@,
        ) {
            Some(e) => r matches Ok(x) && *x == e,
            None => r matches Err(e) && track_chain_error(*root, (track_ref@, ns), e),
        },
{
    get_elem_with_id(root, track_ref, ns)?.get("ClipTrack")?.get("ClipItems")?.get("TrackItems")
}

/// The `ObjectRef` of each child of `track_items`.
fn read_item_refs<'a>(track_items: &'a Element) -> (r: Result<Vec<&'a str>, Error>)
    ensures
        match item_refs(track_items.children@) {
            Some(v) => r matches Ok(x) && str_texts(x@) == v,
            None => r matches Err(e) && item_refs_error(track_items.children@, e),
        },
{
    let ghost ts = track_items.children@;
    let mut refs: Vec<&str> = Vec::new();
    let mut i: usize = 0;
    while i < track_items.children.len()
        invariant
            0 <= i <= ts.len(),
            ts == track_items.children@,
            item_refs(ts.subrange(0, i as int)) == Some(str_texts(refs@)),
        decreases ts.len() - i,
    {
        proof {
            assert(ts.subrange(0, i + 1).drop_last() =~= ts.subrange(0, i as int));
            assert(ts.subrange(0, i + 1).last() == ts[i as int]);
        }
        match track_items.children[i].get_attr("ObjectRef") {
            Ok(v) => {
                let ghost before = refs@;
                refs.push(v);
                assert(str_texts(refs@) =~= str_texts(before).push(v@));
            },
            Err(e) => {
                proof {
                    lemma_item_refs_stay_none(ts, i as int + 1);
                    lemma_item_refs_each(ts.subrange(0, i as int));
                    assert forall|u: int| 0 <= u < i implies (#[trigger] ts[u]).attr("ObjectRef"@)
                        is Some by {
                        assert(ts[u] == ts.subrange(0, i as int)[u]);
                    }
                    assert(ts[i as int].attr("ObjectRef"@) is None);
                }
                return Err(e);
            },
        }
        i = i + 1;
    }
    proof {
        assert(ts.subrange(0, ts.len() as int) =~= ts);
    }
    Ok(refs)
}

proof fn lemma_item_refs_stay_none(ts: Seq<Element>, k: int)
    requires
        0 < k <= ts.len(),
        item_refs(ts.subrange(0, k)) is None,
    ensures
        item_refs(ts) is None,
    decreases ts.len() - k,
{
    if k < ts.len() {
        assert(ts.subrange(0, k + 1).drop_last() =~= ts.subrange(0, k));
        lemma_item_refs_stay_none(ts, k + 1);
    } else {
        assert(ts.subrange(0, k) =~= ts);
    }
}

proof fn lemma_items_stay_none(root: Element, trs: Seq<(Seq<char>, FindWith)>, k: int)
    requires
        0 < k <= trs.len(),
        items_of_tracks(root, trs.subrange(0, k)) is None,
    ensures
        items_of_tracks(root, trs) is None,
    decreases trs.len() - k,
{
    if k < trs.len() {
        assert(trs.subrange(0, k + 1).drop_last() =~= trs.subrange(0, k));
        lemma_items_stay_none(root, trs, k + 1);
    } else {
        assert(trs.subrange(0, k) =~= trs);
    }
}

/// The items of the first `j` tracks begin the items of all of them.
proof fn lemma_items_prefix(root: Element, trs: Seq<(Seq<char>, FindWith)>, j: int)
    requires
        0 <= j <= trs.len(),
        items_of_tracks(root, trs) is Some,
    ensures
        items_of_tracks(root, trs.subrange(0, j)) matches Some(p) && p.len()
            <= items_of_tracks(root, trs)->0.len() && items_of_tracks(root, trs)->0.subrange(
            0,
            p.len() as int,
        ) == p,
    decreases trs.len(),
{
    let all = items_of_tracks(root, trs)->0;
    if j == trs.len() {
        assert(trs.subrange(0, j) =~= trs);
        assert(all.subrange(0, all.len() as int) =~= all);
    } else {
        let d = trs.drop_last();
        lemma_items_prefix(root, d, j);
        assert(d.subrange(0, j) =~= trs.subrange(0, j));
        let a = items_of_tracks(root, d)->0;
        let p = items_of_tracks(root, d.subrange(0, j))->0;
        assert(all.subrange(0, p.len() as int) =~= a.subrange(0, p.len() as int));
    }
}

/// One more item, whose cut `cut` was made from the offer of `medium`,
/// extends the account of offers and cuts.
proof fn lemma_offered_item(
    root: Element,
    first: Seq<PremiereMedium>,
    media_before: Seq<PremiereMedium>,
    media_after: Seq<PremiereMedium>,
    cuts: Seq<Cut>,
    cut: Cut,
    n: int,
    done: Seq<Element>,
    item: Element,
    medium: PremiereMedium,
    m: (nat, nat, Seq<char>, Seq<char>, nat, nat),
)
    requires
        0 <= n <= cuts.len(),
        offered_in_order(first, media_before, cuts.subrange(n, cuts.len() as int), models_of(root, done)),
        track_item_model(root, item) == Some(m),
        offers(medium, m),
        registered(media_before, medium) == (media_after, cut.medium as int),
        cut.start == m.0,
        cut.end == m.1,
    ensures
        offered_in_order(
            first,
            media_after,
            cuts.push(cut).subrange(n, cuts.len() as int + 1),
            models_of(root, done.push(item)),
        ),
{
    lemma_offered_step(
        first,
        media_before,
        media_after,
        cuts.subrange(n, cuts.len() as int),
        models_of(root, done),
        medium,
        cut,
        m,
    );
    assert(cuts.push(cut).subrange(n, cuts.len() as int + 1) =~= cuts.subrange(n, cuts.len() as int).push(
        cut,
    ));
    assert(models_of(root, done.push(item)) =~= models_of(root, done).push(m));
}

/// When the track after `done`'s tracks cannot be looked up, the items
/// processed are `done`.
proof fn lemma_processed_track_fail(
    root: Element,
    vtg: Element,
    trs: Seq<(Seq<char>, FindWith)>,
    t: int,
    done: Seq<Element>,
)
    requires
        frame_size(vtg) is Some,
        group_tracks(vtg) == Some(trs),
        0 <= t < trs.len(),
        items_of_tracks(root, trs.subrange(0, t)) == Some(done),
        items_of_tracks(root, trs.subrange(0, t + 1)) is None,
        forall|j: int| 0 <= j < done.len() ==> (#[trigger] track_item_model(root, done[j])) is Some,
    ensures
        processed_items(root, vtg) == done,
        longest_items(root, trs) == done,
        first_unresolved(root, done, 0) == done.len(),
{
    lemma_longest_stops(root, trs, t);
    lemma_first_unresolved(root, done, 0, done.len() as int);
    assert(done.subrange(0, done.len() as int) =~= done);
}

/// When item `n` of the tracks up to `t` is the first that does not
/// resolve, the items processed are those before it.
proof fn lemma_processed_item_fail(
    root: Element,
    vtg: Element,
    trs: Seq<(Seq<char>, FindWith)>,
    t: int,
    items: Seq<Element>,
    n: int,
)
    requires
        frame_size(vtg) is Some,
        group_tracks(vtg) == Some(trs),
        0 <= t < trs.len(),
        items_of_tracks(root, trs.subrange(0, t + 1)) == Some(items),
        0 <= n < items.len(),
        forall|j: int| 0 <= j < n ==> (#[trigger] track_item_model(root, items[j])) is Some,
        track_item_model(root, items[n]) is None,
    ensures
        processed_items(root, vtg) == items.subrange(0, n),
        n < longest_items(root, trs).len(),
        first_unresolved(root, longest_items(root, trs), 0) == n,
        longest_items(root, trs)[n] == items[n],
{
    lemma_longest_prefix(root, trs, t + 1);
    let l = longest_items(root, trs);
    assert forall|j: int| 0 <= j < n implies (#[trigger] track_item_model(root, l[j])) is Some by {
        assert(l[j] == l.subrange(0, items.len() as int)[j]);
        assert(track_item_model(root, items[j]) is Some);
    }
    assert(l[n] == l.subrange(0, items.len() as int)[n]);
    lemma_first_unresolved(root, l, 0, n);
    assert(l.subrange(0, n) =~= items.subrange(0, n)) by {
        assert forall|j: int| 0 <= j < n implies l.subrange(0, n)[j] == items.subrange(0, n)[j] by {
            assert(l[j] == l.subrange(0, items.len() as int)[j]);
        }
    }
}

/// When every track can be looked up and every item resolves, the items
/// processed are all of them.
proof fn lemma_processed_all(
    root: Element,
    vtg: Element,
    trs: Seq<(Seq<char>, FindWith)>,
    done: Seq<Element>,
)
    requires
        frame_size(vtg) is Some,
        group_tracks(vtg) == Some(trs),
        items_of_tracks(root, trs) == Some(done),
        forall|j: int| 0 <= j < done.len() ==> (#[trigger] track_item_model(root, done[j])) is Some,
    ensures
        processed_items(root, vtg) == done,
{
    if trs.len() > 0 {
        assert(longest_items(root, trs) == done);
    } else {
        assert(done == Seq::<Element>::empty());
    }
    lemma_first_unresolved(root, done, 0, done.len() as int);
    assert(done.subrange(0, done.len() as int) =~= done);
}

/// What resolving the video track group `vtg` against the document `root`
/// does: it takes the sequence `s0` to `s1` and the registry `m0` to `m1`,
/// and succeeds when `ok`. The frame size is set when there is one, each
/// processed item offers its medium and appends its cut in order, each cut
/// is placed on the timeline, and what was written before a failure stays.
pub open spec fn group_applied(
    root: Element,
    vtg: Element,
    s0: PremiereSequence,
    s1: PremiereSequence,
    m0: Seq<PremiereMedium>,
    m1: Seq<PremiereMedium>,
    ok: bool,
) -> bool {
    &&& m0.len() <= m1.len()
    &&& m1.subrange(0, m0.len() as int) == m0
    &&& s0.cuts.cuts@.len() <= s1.cuts.cuts@.len()
    &&& s1.cuts.cuts@.subrange(0, s0.cuts.cuts@.len() as int) == s0.cuts.cuts@
    &&& s1.id == s0.id
    &&& s1.name == s0.name
    &&& s1.duration == s0.duration
    &&& s1.track_groups == s0.track_groups
    &&& placed(
        s0.timeline@,
        s1.timeline@,
        s1.cuts.cuts@,
        s0.cuts.cuts@.len() as int,
    )
    &&& (frame_size(vtg) matches Some(size) ==> s1.size == size)
    &&& (frame_size(vtg) is None ==> s1.size == s0.size)
    &&& s1.cuts.cuts@.len() == s0.cuts.cuts@.len() + processed_items(
        root,
        vtg,
    ).len()
    &&& forall|k: int|
        0 <= k < processed_items(root, vtg).len() ==> (#[trigger] track_item_model(
            root,
            processed_items(root, vtg)[k],
        )) is Some
    &&& offered_in_order(
        m0,
        m1,
        s1.cuts.cuts@.subrange(s0.cuts.cuts@.len() as int, s1.cuts.cuts@.len() as int),
        models_of(root, processed_items(root, vtg)),
    )
    &&& (ok <==> group_resolves(root, vtg))
    &&& ok ==> ({
        let items = items_of_tracks(root, group_tracks(vtg)->0)->0;
        let n = s0.cuts.cuts@.len();
        &&& s1.size == frame_size(vtg)->0
        &&& s1.cuts.cuts@.len() == n + items.len()
        &&& forall|k: int|
            0 <= k < items.len() ==> cut_shows(
                s1.cuts.cuts@[n + k],
                m1,
                #[trigger] track_item_model(root, items[k])->0,
            )
    })
}

/// Resolves the video track group `vtg` into cuts of `seq`: sets the
/// sequence's frame size, then resolves the items of each track in turn,
/// adding a cut for each. The first failure ends the work; what was added
/// before it stays.
pub fn parse_video_track_group(
    root: &Element,
    vtg: &Element,
    seq: &mut PremiereSequence,
    media: &mut PremiereMedia,
) -> (r: Result<(), Error>)
    requires
        names_unique(old(media)@),
        cuts_refer_into(old(seq).cuts.cuts@, old(media)@),
    ensures
        names_unique(final(media)@),
        cuts_refer_into(final(seq).cuts.cuts@, final(media)@),
        group_applied(*root, *vtg, *old(seq), *final(seq), old(media)@, final(media)@, r is Ok),
        r matches Err(e) ==> group_error(*root, *vtg, e),
{
    let ghost n = seq.cuts.cuts@.len();
    proof {
        lemma_placed_start(seq.timeline@, seq.cuts.cuts@);
    }
    proof {
        assert(seq.cuts.cuts@.subrange(0, n as int) =~= seq.cuts.cuts@);
        assert(media@.subrange(0, media@.len() as int) =~= media@);
        lemma_offered_start(media@);
        assert(seq.cuts.cuts@.subrange(n as int, n as int) =~= Seq::<Cut>::empty());
        assert(models_of(*root, Seq::<Element>::empty()) =~= Seq::empty());
    }
    let frame_rect_elem = vtg.get("FrameRect")?;
    let size = read_frame_size(frame_rect_elem)?;
    seq.size = size;
    let track_group_elem = vtg.get("TrackGroup")?;
    let tracks = track_group_elem.get("Tracks")?;
    let track_refs = read_track_refs(tracks)?;
    let ghost trs = ref_texts(track_refs@);
    let ghost mut done: Seq<Element> = seq![];
    let mut t: usize = 0;
    while t < track_refs.len()
        invariant
            0 <= t <= track_refs@.len(),
            trs == ref_texts(track_refs@),
            group_tracks(*vtg) == Some(trs),
            frame_size(*vtg) == Some(size),
            seq.size == size,
            placed(old(seq).timeline@, seq.timeline@, seq.cuts.cuts@, n as int),
            items_of_tracks(*root, trs.subrange(0, t as int)) == Some(done),
            offered_in_order(
                old(media)@,
                media@,
                seq.cuts.cuts@.subrange(n as int, seq.cuts.cuts@.len() as int),
                models_of(*root, done),
            ),
            names_unique(media@),
            cuts_refer_into(seq.cuts.cuts@, media@),
            old(media)@.len() <= media@.len(),
            media@.subrange(0, old(media)@.len() as int) == old(media)@,
            seq.cuts.cuts@.len() == n + done.len(),
            seq.cuts.cuts@.subrange(0, n as int) == old(seq).cuts.cuts@,
            n == old(seq).cuts.cuts@.len(),
            seq.id == old(seq).id,
            seq.name == old(seq).name,
            seq.duration == old(seq).duration,
            seq.track_groups == old(seq).track_groups,
            forall|k: int|
                0 <= k < done.len() ==> (#[trigger] track_item_model(*root, done[k])) is Some
                    && cut_shows(
                    seq.cuts.cuts@[n + k],
                    media@,
                    track_item_model(*root, done[k])->0,
                ),
        decreases track_refs@.len() - t,
    {
        let (track_ref, ns) = track_refs[t];
        proof {
            assert(trs.subrange(0, t + 1).drop_last() =~= trs.subrange(0, t as int));
            assert(trs.subrange(0, t + 1).last() == trs[t as int]);
            assert(trs[t as int] == (track_ref@, ns));
        }
        let track_items = match track_items_of(root, track_ref, ns) {
            Ok(e) => e,
            Err(err) => {
                proof {
                    lemma_items_stay_none(*root, trs, t + 1);
                    lemma_processed_track_fail(*root, *vtg, trs, t as int, done);
                    assert(track_items_elem(*root, trs[t as int]) is None);
                    assert(track_error(*root, trs[t as int], err));
                }
                return Err(err);
            },
        };
        let item_ids = match read_item_refs(track_items) {
            Ok(v) => v,
            Err(err) => {
                proof {
                    lemma_items_stay_none(*root, trs, t + 1);
                    lemma_processed_track_fail(*root, *vtg, trs, t as int, done);
                    assert(track_items_elem(*root, trs[t as int]) == Some(*track_items));
                    assert(track_error(*root, trs[t as int], err));
                }
                return Err(err);
            },
        };
        let elems = get_elems_with_ids(root, item_ids.as_slice(), FindWith::ID);
        let ghost batch = pointees(elems@);
        assert(track_elements(*root, trs[t as int]) == Some(batch));
        assert((done + batch).subrange(0, done.len() as int) =~= done);
        let mut k: usize = 0;
        while k < elems.len()
            invariant
                0 <= k <= elems@.len(),
                batch == pointees(elems@),
                trs == ref_texts(track_refs@),
                group_tracks(*vtg) == Some(trs),
                frame_size(*vtg) == Some(size),
                seq.size == size,
                placed(old(seq).timeline@, seq.timeline@, seq.cuts.cuts@, n as int),
                0 <= t < trs.len(),
                items_of_tracks(*root, trs.subrange(0, t as int)) == Some(done),
                items_of_tracks(*root, trs.subrange(0, t + 1)) == Some(done + batch),
                offered_in_order(
                    old(media)@,
                    media@,
                    seq.cuts.cuts@.subrange(n as int, seq.cuts.cuts@.len() as int),
                    models_of(*root, (done + batch).subrange(0, done.len() + k)),
                ),
                names_unique(media@),
                cuts_refer_into(seq.cuts.cuts@, media@),
                old(media)@.len() <= media@.len(),
                media@.subrange(0, old(media)@.len() as int) == old(media)@,
                seq.cuts.cuts@.len() == n + done.len() + k,
                seq.cuts.cuts@.subrange(0, n as int) == old(seq).cuts.cuts@,
                n == old(seq).cuts.cuts@.len(),
                seq.id == old(seq).id,
                seq.name == old(seq).name,
                seq.duration == old(seq).duration,
                seq.track_groups == old(seq).track_groups,
                forall|j: int|
                    0 <= j < done.len() + k ==> (#[trigger] track_item_model(
                        *root,
                        (done + batch)[j],
                    )) is Some && cut_shows(
                        seq.cuts.cuts@[n + j],
                        media@,
                        track_item_model(*root, (done + batch)[j])->0,
                    ),
            decreases elems@.len() - k,
        {
            let item = elems[k];
            assert(*item == batch[k as int]);
            assert((done + batch)[done.len() + k] == batch[k as int]);
            let resolved = match resolve_track_item(root, item) {
                Ok(x) => x,
                Err(err) => {
                    proof {
                        lemma_processed_item_fail(
                            *root,
                            *vtg,
                            trs,
                            t as int,
                            done + batch,
                            done.len() + k,
                        );
                        if group_resolves(*root, *vtg) {
                            lemma_items_prefix(*root, trs, t + 1);
                            let all = items_of_tracks(*root, trs)->0;
                            assert(all[done.len() + k] == (done + batch)[done.len() + k]);
                            assert(track_item_model(*root, all[done.len() + k]) is Some);
                        }
                    }
                    return Err(err);
                },
            };
            let ghost cuts_before = seq.cuts.cuts@;
            let ghost timeline_before = seq.timeline@;
            let ghost media_before = media@;
            let ghost m = resolved.model();
            let ghost medium = resolved.medium;
            assert((done + batch)[done.len() + k] == *item);
            add_cut(seq, media, resolved);
            let media_count = media.len();
            proof {
                assert(media@.len() == media_count);
                lemma_registered_grows(media_before, medium);
                lemma_offered_item(
                    *root,
                    old(media)@,
                    media_before,
                    media@,
                    cuts_before,
                    seq.cuts.cuts@.last(),
                    n as int,
                    (done + batch).subrange(0, done.len() + k),
                    *item,
                    medium,
                    m,
                );
                assert((done + batch).subrange(0, done.len() + k + 1) =~= (done + batch).subrange(
                    0,
                    done.len() + k,
                ).push(*item));
                lemma_placed_step(
                    old(seq).timeline@,
                    timeline_before,
                    seq.timeline@,
                    cuts_before,
                    seq.cuts.cuts@.last(),
                    n as int,
                );
                lemma_cut_added(
                    *root,
                    done + batch,
                    n as int,
                    cuts_before,
                    seq.cuts.cuts@,
                    media_before,
                    media@,
                    medium,
                    m,
                    old(media)@.len() as int,
                );
            }
            k = k + 1;
        }
        proof {
            assert forall|j: int| 0 <= j < (done + batch).len() implies (#[trigger] track_item_model(
                *root,
                (done + batch)[j],
            )) is Some && cut_shows(
                seq.cuts.cuts@[n + j],
                media@,
                track_item_model(*root, (done + batch)[j])->0,
            ) by {
            }
            assert((done + batch).subrange(0, (done + batch).len() as int) =~= done + batch);
            done = done + batch;
        }
        t = t + 1;
    }
    proof {
        assert(trs.subrange(0, trs.len() as int) =~= trs);
        lemma_processed_all(*root, *vtg, trs, done);
    }
    Ok(())
}

/// One more resolved item, added by `add_cut`, keeps the loop's account of
/// cuts and media.
proof fn lemma_cut_added(
    root: Element,
    items: Seq<Element>,
    n: int,
    cuts_before: Seq<Cut>,
    cuts_after: Seq<Cut>,
    media_before: Seq<PremiereMedium>,
    media_after: Seq<PremiereMedium>,
    medium: PremiereMedium,
    m: (nat, nat, Seq<char>, Seq<char>, nat, nat),
    kept: int,
)
    requires
        0 <= n <= cuts_before.len(),
        cuts_before.len() - n < items.len(),
        0 <= kept <= media_before.len(),
        cuts_refer_into(cuts_before, media_before),
        forall|j: int|
            0 <= j < cuts_before.len() - n ==> (#[trigger] track_item_model(root, items[j])) is Some
                && cut_shows(cuts_before[n + j], media_before, track_item_model(root, items[j])->0),
        track_item_model(root, items[cuts_before.len() - n]) == Some(m),
        medium.file_name@ == m.2,
        ({
            let (reg, h) = registered(media_before, medium);
            &&& media_after == reg
            &&& cuts_after == cuts_before.push(
                Cut { start: m.0 as u64, end: m.1 as u64, medium: h as usize },
            )
        }),
        m.0 <= u64::MAX,
        m.1 <= u64::MAX,
        media_after.len() <= usize::MAX,
    ensures
        cuts_refer_into(cuts_after, media_after),
        media_before.len() <= media_after.len(),
        media_after.subrange(0, kept) == media_before.subrange(0, kept),
        cuts_after.subrange(0, n) == cuts_before.subrange(0, n),
        cuts_after.len() == cuts_before.len() + 1,
        forall|j: int|
            0 <= j < cuts_after.len() - n ==> (#[trigger] track_item_model(root, items[j])) is Some
                && cut_shows(cuts_after[n + j], media_after, track_item_model(root, items[j])->0),
{
    lemma_registered_grows(media_before, medium);
    lemma_registered_names(media_before, medium);
    assert forall|j: int| 0 <= j < cuts_after.len() implies (#[trigger] cuts_after[j]).medium
        < media_after.len() by {
        if j < cuts_before.len() {
            assert(cuts_after[j] == cuts_before[j]);
        }
    }
    assert(cuts_after.subrange(0, n) =~= cuts_before.subrange(0, n));
    assert(media_after.subrange(0, kept) =~= media_before.subrange(0, kept));
    assert forall|j: int| 0 <= j < cuts_after.len() - n implies (#[trigger] track_item_model(
        root,
        items[j],
    )) is Some && cut_shows(cuts_after[n + j], media_after, track_item_model(root, items[j])->0) by {
        if j < cuts_before.len() - n {
            assert(cuts_after[n + j] == cuts_before[n + j]);
            assert(media_after[cuts_after[n + j].medium as int] == media_before[cuts_after[n
                + j].medium as int]);
        } else {
            let (reg, h) = registered(media_before, medium);
            assert(0 <= h < media_after.len());
            assert(cuts_after[n + j] == cuts_after.last());
            assert(cuts_after[n + j].medium as int == h);
        }
    }
}

/// Offering a medium keeps what was there and adds at most one.
proof fn lemma_registered_grows(media: Seq<PremiereMedium>, medium: PremiereMedium)
    ensures
        ({
            let (m, h) = registered(media, medium);
            &&& media.len() <= m.len()
            &&& m.subrange(0, media.len() as int) == media
            &&& 0 <= h < m.len()
        }),
{
    crate::media::lemma_index_of_name(media, medium.file_name@);
    let (m, h) = registered(media, medium);
    assert(m.subrange(0, media.len() as int) =~= media);
}

/// The medium that an offer answers with has the offered name.
proof fn lemma_registered_names(media: Seq<PremiereMedium>, medium: PremiereMedium)
    ensures
        ({
            let (m, h) = registered(media, medium);
            0 <= h < m.len() && m[h].file_name@ == medium.file_name@
        }),
{
    crate::media::lemma_index_of_name(media, medium.file_name@);
}

} // verus!
