//! The reader: finds the sequences of a document, then resolves the video
//! track groups they refer to, tolerating failure of some but not all.
use vstd::prelude::*;

use crate::element::Element;
use crate::errors::{Error, NotFoundError};
use crate::media::{names_unique, PremiereMedia};
use crate::resolve::{cuts_refer_into, group_applied, group_resolves, parse_video_track_group};
use crate::sequence::{fresh_sequence, sequence_error, sequence_model, texts, PremiereSequence};
use crate::text::same_text;

verus! {

/// The `Sequence` elements among `cs`, in order.
pub open spec fn sequence_elems(cs: Seq<Element>) -> Seq<Element>
    decreases cs.len(),
{
    if cs.len() == 0 {
        seq![]
    } else {
        let rest = sequence_elems(cs.drop_last());
        if cs.last().name@ == "Sequence"@ {
            rest.push(cs.last())
        } else {
            rest
        }
    }
}

/// How often `id` occurs in `v`.
pub open spec fn count_of(v: Seq<Seq<char>>, id: Seq<char>) -> nat
    decreases v.len(),
{
    if v.len() == 0 {
        0
    } else {
        count_of(v.drop_last(), id) + if v.last() == id {
            1nat
        } else {
            0nat
        }
    }
}

/// How often the sequences, whose references are `refs`, refer to `id`.
pub open spec fn ref_count(refs: Seq<Seq<Seq<char>>>, id: Seq<char>) -> nat
    decreases refs.len(),
{
    if refs.len() == 0 {
        0
    } else {
        ref_count(refs.drop_last(), id) + count_of(refs.last(), id)
    }
}

/// The identifier of `c` when it is a video track group that has one.
pub open spec fn group_id(c: Element) -> Option<Seq<char>> {
    if c.name@ == "VideoTrackGroup"@ {
        c.attr("ObjectID"@)
    } else {
        None
    }
}

/// How many resolutions the video track groups among `cs` take: one for
/// each reference that a sequence makes to one of them.
pub open spec fn attempts(cs: Seq<Element>, refs: Seq<Seq<Seq<char>>>) -> nat
    decreases cs.len(),
{
    if cs.len() == 0 {
        0
    } else {
        attempts(cs.drop_last(), refs) + match group_id(cs.last()) {
            Some(id) => ref_count(refs, id),
            None => 0,
        }
    }
}

/// How many of those resolutions fail.
pub open spec fn failures(root: Element, cs: Seq<Element>, refs: Seq<Seq<Seq<char>>>) -> nat
    decreases cs.len(),
{
    if cs.len() == 0 {
        0
    } else {
        failures(root, cs.drop_last(), refs) + match group_id(cs.last()) {
            Some(id) => if group_resolves(root, cs.last()) {
                0
            } else {
                ref_count(refs, id)
            },
            None => 0,
        }
    }
}

/// How many video track groups among `cs` lack an identifier.
pub open spec fn missing_ids(cs: Seq<Element>) -> nat
    decreases cs.len(),
{
    if cs.len() == 0 {
        0
    } else {
        missing_ids(cs.drop_last()) + if cs.last().name@ == "VideoTrackGroup"@ && cs.last().attr(
            "ObjectID"@,
        ) is None {
            1nat
        } else {
            0nat
        }
    }
}

/// The track group references of each sequence of `seqs`.
pub open spec fn seq_refs(seqs: Seq<PremiereSequence>) -> Seq<Seq<Seq<char>>> {
    seqs.map_values(|s: PremiereSequence| texts(s.track_groups@))
}

/// `after` holds the sequences of `before`, each with the same id, name,
/// duration and references.
pub open spec fn same_headers(before: Seq<PremiereSequence>, after: Seq<PremiereSequence>) -> bool {
    &&& before.len() == after.len()
    &&& forall|k: int|
        0 <= k < before.len() ==> {
            &&& (#[trigger] after[k]).id == before[k].id
            &&& after[k].name == before[k].name
            &&& after[k].duration == before[k].duration
            &&& after[k].track_groups == before[k].track_groups
        }
}

/// `s` carries the id, name, duration and references that the `Sequence`
/// element `e` declares.
pub open spec fn declared_by(s: PremiereSequence, e: Element) -> bool {
    &&& sequence_model(e) matches Some((id, name, duration, refs))
    &&& s.id == id
    &&& s.name@ == name
    &&& s.duration == duration
    &&& texts(s.track_groups@) == refs
}

/// Some video track group among `cs` has an identifier of `refs`.
pub open spec fn refers_to_group(cs: Seq<Element>, refs: Seq<Seq<char>>) -> bool {
    exists|i: int, j: int|
        0 <= i < cs.len() && 0 <= j < refs.len() && #[trigger] group_id(cs[i]) == Some(
            #[trigger] refs[j],
        )
}

/// Each sequence of `cur` is its counterpart in `first` with cuts added
/// after the old ones, and is unchanged when it refers to no video track
/// group among `cs`.
pub open spec fn kept_or_extended(
    first: Seq<PremiereSequence>,
    cur: Seq<PremiereSequence>,
    cs: Seq<Element>,
) -> bool {
    &&& first.len() == cur.len()
    &&& forall|q: int|
        0 <= q < first.len() ==> {
            &&& (!refers_to_group(cs, texts(first[q].track_groups@)) ==> #[trigger] cur[q]
                == first[q])
            &&& first[q].cuts.cuts@.len() <= cur[q].cuts.cuts@.len()
            &&& cur[q].cuts.cuts@.subrange(0, first[q].cuts.cuts@.len() as int)
                == first[q].cuts.cuts@
        }
}

/// Every cut of every sequence of `seqs` refers to a medium of `media`.
pub open spec fn all_cuts_refer_into(seqs: Seq<PremiereSequence>, media: Seq<crate::media::PremiereMedium>) -> bool {
    forall|k: int| 0 <= k < seqs.len() ==> cuts_refer_into((#[trigger] seqs[k]).cuts.cuts@, media)
}

/// What a read decides once every resolution has been tried: it fails only
/// when some were tried and every one failed, and then with all their
/// causes.
pub open spec fn verdict(r: Result<Vec<Error>, Error>, tried: nat, failed: nat) -> bool {
    &&& r is Ok <==> (tried == 0 || failed < tried)
    &&& r matches Err(e) ==> (e matches Error::NotFound(NotFoundError::Multiple(d))
        && d.errors@.len() == tried)
}

/// `n` times the pair `x`.
pub open spec fn repeat_pair(x: (int, int), n: nat) -> Seq<(int, int)>
    decreases n,
{
    if n == 0 {
        seq![]
    } else {
        repeat_pair(x, (n - 1) as nat).push(x)
    }
}

/// The resolutions that the group at index `i` takes, in order: for each
/// sequence `k` of `refs`, one `(i, k)` per reference it makes to `id`.
pub open spec fn pairs_for(refs: Seq<Seq<Seq<char>>>, id: Seq<char>, i: int) -> Seq<(int, int)>
    decreases refs.len(),
{
    if refs.len() == 0 {
        seq![]
    } else {
        pairs_for(refs.drop_last(), id, i) + repeat_pair(
            (i, refs.len() - 1),
            count_of(refs.last(), id),
        )
    }
}

/// Every resolution a read makes, in order: `(i, k)` resolves the child `i`
/// of the root, a video track group, against sequence `k`. Groups come in
/// document order; for each, the sequences in order, once per reference.
pub open spec fn attempt_pairs(cs: Seq<Element>, refs: Seq<Seq<Seq<char>>>) -> Seq<(int, int)>
    decreases cs.len(),
{
    if cs.len() == 0 {
        seq![]
    } else {
        attempt_pairs(cs.drop_last(), refs) + match group_id(cs.last()) {
            Some(id) => pairs_for(refs, id, cs.len() - 1),
            None => seq![],
        }
    }
}

/// The errors among `rs`, in order.
pub open spec fn errs_of(rs: Seq<Result<(), Error>>) -> Seq<Error>
    decreases rs.len(),
{
    if rs.len() == 0 {
        seq![]
    } else {
        let p = errs_of(rs.drop_last());
        match rs.last() {
            Err(e) => p.push(e),
            Ok(_) => p,
        }
    }
}

/// Resolution `pair` took the sequences `s0` to `s1` and the registry `m0`
/// to `m1`, with result `res`: only its sequence changed, as resolving its
/// group does.
pub open spec fn attempt_step(
    root: Element,
    pair: (int, int),
    s0: Seq<PremiereSequence>,
    s1: Seq<PremiereSequence>,
    m0: Seq<crate::media::PremiereMedium>,
    m1: Seq<crate::media::PremiereMedium>,
    res: Result<(), Error>,
) -> bool {
    &&& 0 <= pair.0 < root.children@.len()
    &&& 0 <= pair.1 < s0.len()
    &&& s1.len() == s0.len()
    &&& forall|q: int| 0 <= q < s0.len() && q != pair.1 ==> #[trigger] s1[q] == s0[q]
    &&& group_applied(root, root.children@[pair.0], s0[pair.1], s1[pair.1], m0, m1, res is Ok)
}

/// `ss`, `ms` and `rs` are the sequences, registries and results through
/// the resolutions `pairs`, one step each.
pub open spec fn run_of(
    root: Element,
    pairs: Seq<(int, int)>,
    ss: Seq<Seq<PremiereSequence>>,
    ms: Seq<Seq<crate::media::PremiereMedium>>,
    rs: Seq<Result<(), Error>>,
) -> bool {
    &&& ss.len() == pairs.len() + 1
    &&& ms.len() == pairs.len() + 1
    &&& rs.len() == pairs.len()
    &&& forall|a: int|
        0 <= a < pairs.len() ==> attempt_step(
            root,
            #[trigger] pairs[a],
            ss[a],
            ss[a + 1],
            ms[a],
            ms[a + 1],
            rs[a],
        )
}

/// Making the resolutions `pairs` in order took the sequences from
/// `before` to `after` and the registry from `m_before` to `m_after`, and
/// `errs` are the failures, in order.
pub open spec fn resolutions_ran(
    root: Element,
    pairs: Seq<(int, int)>,
    before: Seq<PremiereSequence>,
    after: Seq<PremiereSequence>,
    m_before: Seq<crate::media::PremiereMedium>,
    m_after: Seq<crate::media::PremiereMedium>,
    errs: Seq<Error>,
) -> bool {
    exists|ss: Seq<Seq<PremiereSequence>>, ms: Seq<Seq<crate::media::PremiereMedium>>, rs: Seq<Result<(), Error>>|
        run_of(root, pairs, ss, ms, rs) && ss[0] == before && ss.last() == after && ms[0]
            == m_before && ms.last() == m_after && errs_of(rs) == errs
}

proof fn lemma_run_push(
    root: Element,
    pairs: Seq<(int, int)>,
    ss: Seq<Seq<PremiereSequence>>,
    ms: Seq<Seq<crate::media::PremiereMedium>>,
    rs: Seq<Result<(), Error>>,
    pair: (int, int),
    s_new: Seq<PremiereSequence>,
    m_new: Seq<crate::media::PremiereMedium>,
    res: Result<(), Error>,
)
    requires
        run_of(root, pairs, ss, ms, rs),
        attempt_step(root, pair, ss.last(), s_new, ms.last(), m_new, res),
    ensures
        run_of(root, pairs.push(pair), ss.push(s_new), ms.push(m_new), rs.push(res)),
        errs_of(rs.push(res)) == match res {
            Err(e) => errs_of(rs).push(e),
            Ok(_) => errs_of(rs),
        },
{
    let np = pairs.push(pair);
    let nss = ss.push(s_new);
    let nms = ms.push(m_new);
    let nrs = rs.push(res);
    assert(nrs.drop_last() =~= rs);
    assert forall|a: int| 0 <= a < np.len() implies attempt_step(
        root,
        #[trigger] np[a],
        nss[a],
        nss[a + 1],
        nms[a],
        nms[a + 1],
        nrs[a],
    ) by {
        if a < pairs.len() {
            assert(np[a] == pairs[a]);
            assert(attempt_step(root, pairs[a], ss[a], ss[a + 1], ms[a], ms[a + 1], rs[a]));
            assert(nss[a] == ss[a] && nss[a + 1] == ss[a + 1] && nms[a] == ms[a] && nms[a + 1]
                == ms[a + 1] && nrs[a] == rs[a]);
        } else {
            assert(nss[a] == ss.last() && nms[a] == ms.last());
        }
    }
}

proof fn lemma_count_step(v: Seq<Seq<char>>, id: Seq<char>, j: int)
    requires
        0 <= j < v.len(),
    ensures
        count_of(v.subrange(0, j + 1), id) == count_of(v.subrange(0, j), id) + if v[j] == id {
            1nat
        } else {
            0nat
        },
{
    assert(v.subrange(0, j + 1).drop_last() =~= v.subrange(0, j));
}

proof fn lemma_pairs_for_step(refs: Seq<Seq<Seq<char>>>, id: Seq<char>, i: int, k: int)
    requires
        0 <= k < refs.len(),
    ensures
        pairs_for(refs.subrange(0, k + 1), id, i) == pairs_for(refs.subrange(0, k), id, i)
            + repeat_pair((i, k), count_of(refs[k], id)),
{
    assert(refs.subrange(0, k + 1).drop_last() =~= refs.subrange(0, k));
}

proof fn lemma_attempt_pairs_step(cs: Seq<Element>, refs: Seq<Seq<Seq<char>>>, i: int)
    requires
        0 <= i < cs.len(),
    ensures
        attempt_pairs(cs.subrange(0, i + 1), refs) == attempt_pairs(cs.subrange(0, i), refs)
            + match group_id(cs[i]) {
            Some(id) => pairs_for(refs, id, i),
            None => Seq::<(int, int)>::empty(),
        },
{
    assert(cs.subrange(0, i + 1).drop_last() =~= cs.subrange(0, i));
}

/// Reads every `Sequence` child of `root`, in document order; the first
/// one that cannot be read fails the whole scan.
pub fn get_sequences(root: &Element) -> (r: Result<Vec<PremiereSequence>, Error>)
    ensures
        r is Ok <==> forall|i: int|
            0 <= i < sequence_elems(root.children@).len() ==> (#[trigger] sequence_model(
                sequence_elems(root.children@)[i],
            )) is Some,
        r matches Err(e) ==> exists|i: int|
            0 <= i < sequence_elems(root.children@).len() && sequence_error(
                #[trigger] sequence_elems(root.children@)[i],
                e,
            ) && forall|j: int|
                0 <= j < i ==> (#[trigger] sequence_model(sequence_elems(root.children@)[j])) is Some,
        r matches Ok(v) ==> v@.len() == sequence_elems(root.children@).len() && forall|i: int|
            0 <= i < v@.len() ==> fresh_sequence(
                #[trigger] v@[i],
                sequence_elems(root.children@)[i],
            ),
{
    let ghost cs = root.children@;
    let mut sequences: Vec<PremiereSequence> = Vec::new();
    let mut i: usize = 0;
    while i < root.children.len()
        invariant
            0 <= i <= cs.len(),
            cs == root.children@,
            sequences@.len() == sequence_elems(cs.subrange(0, i as int)).len(),
            forall|j: int|
                0 <= j < sequences@.len() ==> fresh_sequence(
                    #[trigger] sequences@[j],
                    sequence_elems(cs.subrange(0, i as int))[j],
                ),
            forall|j: int|
                0 <= j < sequence_elems(cs.subrange(0, i as int)).len() ==> (#[trigger] sequence_model(
                    sequence_elems(cs.subrange(0, i as int))[j],
                )) is Some,
        decreases cs.len() - i,
    {
        let child = &root.children[i];
        let ghost before = sequence_elems(cs.subrange(0, i as int));
        proof {
            assert(cs.subrange(0, i + 1).drop_last() =~= cs.subrange(0, i as int));
            assert(cs.subrange(0, i + 1).last() == cs[i as int]);
        }
        if same_text(child.name.as_str(), "Sequence") {
            assert(sequence_elems(cs.subrange(0, i + 1)) == before.push(*child));
            match PremiereSequence::new(child) {
                Ok(seq) => {
                    let ghost prev = sequences@;
                    sequences.push(seq);
                    assert forall|j: int|
                        0 <= j < sequences@.len() implies fresh_sequence(
                        #[trigger] sequences@[j],
                        sequence_elems(cs.subrange(0, i + 1))[j],
                    ) by {
                        if j < before.len() {
                            assert(sequences@[j] == prev[j]);
                            assert(before.push(*child)[j] == before[j]);
                        }
                    }
                    assert forall|j: int|
                        0 <= j < sequence_elems(cs.subrange(0, i + 1)).len() implies (#[trigger] sequence_model(
                        sequence_elems(cs.subrange(0, i + 1))[j],
                    )) is Some by {
                        if j < before.len() {
                            assert(before.push(*child)[j] == before[j]);
                        }
                    }
                },
                Err(e) => {
                    proof {
                        lemma_sequence_elems_prefix(cs, i as int + 1);
                        let all = sequence_elems(cs);
                        let p = sequence_elems(cs.subrange(0, i + 1));
                        assert(p[before.len() as int] == *child);
                        assert(all.subrange(0, p.len() as int)[before.len() as int] == *child);
                        assert(all[before.len() as int] == *child);
                        assert forall|j: int| 0 <= j < before.len() implies (#[trigger] sequence_model(
                            all[j],
                        )) is Some by {
                            assert(all[j] == all.subrange(0, p.len() as int)[j]);
                            assert(p[j] == before[j]);
                        }
                        assert(sequence_error(all[before.len() as int], e));
                    }
                    return Err(e);
                },
            }
        } else {
            assert(sequence_elems(cs.subrange(0, i + 1)) == before);
        }
        i = i + 1;
    }
    proof {
        assert(cs.subrange(0, cs.len() as int) =~= cs);
    }
    Ok(sequences)
}

/// The `Sequence` elements of a prefix of `cs` begin those of `cs`.
proof fn lemma_sequence_elems_prefix(cs: Seq<Element>, j: int)
    requires
        0 <= j <= cs.len(),
    ensures
        sequence_elems(cs.subrange(0, j)).len() <= sequence_elems(cs).len(),
        sequence_elems(cs).subrange(0, sequence_elems(cs.subrange(0, j)).len() as int)
            == sequence_elems(cs.subrange(0, j)),
    decreases cs.len(),
{
    if j == cs.len() {
        assert(cs.subrange(0, j) =~= cs);
        assert(sequence_elems(cs).subrange(0, sequence_elems(cs).len() as int) =~= sequence_elems(
            cs,
        ));
    } else {
        let d = cs.drop_last();
        lemma_sequence_elems_prefix(d, j);
        assert(d.subrange(0, j) =~= cs.subrange(0, j));
        let p = sequence_elems(cs.subrange(0, j));
        assert(sequence_elems(cs).subrange(0, p.len() as int) =~= sequence_elems(d).subrange(
            0,
            p.len() as int,
        ));
    }
}

/// Resolves, for each video track group among the children of `root` and
/// each reference that a sequence makes to it, the group into cuts of that
/// sequence. A group without an identifier is passed over with a warning.
/// Fails only when some resolutions were tried and every one failed; else
/// answers the failures and the warnings.
pub fn resolve_groups(
    root: &Element,
    sequences: &mut Vec<PremiereSequence>,
    media: &mut PremiereMedia,
) -> (r: Result<Vec<Error>, Error>)
    requires
        names_unique(old(media)@),
        all_cuts_refer_into(old(sequences)@, old(media)@),
    ensures
        names_unique(final(media)@),
        old(media)@.len() <= final(media)@.len(),
        all_cuts_refer_into(final(sequences)@, final(media)@),
        same_headers(old(sequences)@, final(sequences)@),
        kept_or_extended(old(sequences)@, final(sequences)@, root.children@),
        verdict(
            r,
            attempts(root.children@, seq_refs(old(sequences)@)),
            failures(*root, root.children@, seq_refs(old(sequences)@)),
        ),
        r matches Ok(w) ==> w@.len() == failures(
            *root,
            root.children@,
            seq_refs(old(sequences)@),
        ) + missing_ids(root.children@) && forall|q: int|
            failures(*root, root.children@, seq_refs(old(sequences)@)) <= q < w@.len()
                ==> (#[trigger] w@[q]).is_attribute_not_found("ObjectID"@, "VideoTrackGroup"@),
        exists|errs: Seq<Error>|
            resolutions_ran(
                *root,
                attempt_pairs(root.children@, seq_refs(old(sequences)@)),
                old(sequences)@,
                final(sequences)@,
                old(media)@,
                final(media)@,
                errs,
            ) && (r matches Err(e) ==> (e matches Error::NotFound(NotFoundError::Multiple(d))
                && d.errors@ == errs)) && (r matches Ok(w) ==> w@.subrange(0, errs.len() as int)
                == errs),
{
    let ghost cs = root.children@;
    let ghost refs = seq_refs(sequences@);
    let mut errors: Vec<Error> = Vec::new();
    let mut missing: Vec<Error> = Vec::new();
    let mut succeeded = false;
    let ghost mut pairs: Seq<(int, int)> = seq![];
    let ghost mut ss: Seq<Seq<PremiereSequence>> = seq![sequences@];
    let ghost mut ms: Seq<Seq<crate::media::PremiereMedium>> = seq![media@];
    let ghost mut rs: Seq<Result<(), Error>> = seq![];
    assert(cs.subrange(0, 0) =~= Seq::<Element>::empty());
    proof {
        assert forall|q: int| 0 <= q < sequences@.len() implies sequences@[q].cuts.cuts@.subrange(
            0,
            sequences@[q].cuts.cuts@.len() as int,
        ) == #[trigger] sequences@[q].cuts.cuts@ by {
            assert(sequences@[q].cuts.cuts@.subrange(0, sequences@[q].cuts.cuts@.len() as int)
                =~= sequences@[q].cuts.cuts@);
        }
    }
    let mut i: usize = 0;
    while i < root.children.len()
        invariant
            0 <= i <= cs.len(),
            cs == root.children@,
            refs == seq_refs(old(sequences)@),
            run_of(*root, pairs, ss, ms, rs),
            ss[0] == old(sequences)@,
            ss.last() == sequences@,
            ms[0] == old(media)@,
            ms.last() == media@,
            errs_of(rs) == errors@,
            pairs == attempt_pairs(cs.subrange(0, i as int), refs),
            same_headers(old(sequences)@, sequences@),
            kept_or_extended(old(sequences)@, sequences@, cs),
            names_unique(media@),
            old(media)@.len() <= media@.len(),
            all_cuts_refer_into(sequences@, media@),
            errors@.len() == failures(*root, cs.subrange(0, i as int), refs),
            missing@.len() == missing_ids(cs.subrange(0, i as int)),
            forall|q: int|
                0 <= q < missing@.len() ==> (#[trigger] missing@[q]).is_attribute_not_found(
                    "ObjectID"@,
                    "VideoTrackGroup"@,
                ),
            failures(*root, cs.subrange(0, i as int), refs) <= attempts(
                cs.subrange(0, i as int),
                refs,
            ),
            succeeded <==> failures(*root, cs.subrange(0, i as int), refs) < attempts(
                cs.subrange(0, i as int),
                refs,
            ),
        decreases cs.len() - i,
    {
        let child = &root.children[i];
        let ghost base_f = failures(*root, cs.subrange(0, i as int), refs);
        let ghost base_a = attempts(cs.subrange(0, i as int), refs);
        proof {
            assert(cs.subrange(0, i + 1).drop_last() =~= cs.subrange(0, i as int));
            assert(cs.subrange(0, i + 1).last() == cs[i as int]);
        }
        if same_text(child.name.as_str(), "VideoTrackGroup") {
            match child.find_attr("ObjectID") {
                Some(object_id) => {
                    let ghost id = object_id@;
                    let ghost resolves = group_resolves(*root, *child);
                    assert(refs.subrange(0, 0) =~= Seq::<Seq<Seq<char>>>::empty());
                    assert(attempt_pairs(cs.subrange(0, i as int), refs) + pairs_for(
                        refs.subrange(0, 0),
                        id,
                        i as int,
                    ) =~= attempt_pairs(cs.subrange(0, i as int), refs));
                    let mut k: usize = 0;
                    while k < sequences.len()
                        invariant
                            0 <= i < cs.len(),
                            cs == root.children@,
                            *child == cs[i as int],
                            group_id(*child) == Some(id),
                            object_id@ == id,
                            resolves == group_resolves(*root, *child),
                            refs == seq_refs(old(sequences)@),
                            same_headers(old(sequences)@, sequences@),
                            kept_or_extended(old(sequences)@, sequences@, cs),
                            0 <= k <= sequences@.len(),
                            run_of(*root, pairs, ss, ms, rs),
                            ss[0] == old(sequences)@,
                            ss.last() == sequences@,
                            ms[0] == old(media)@,
                            ms.last() == media@,
                            errs_of(rs) == errors@,
                            pairs == attempt_pairs(cs.subrange(0, i as int), refs) + pairs_for(
                                refs.subrange(0, k as int),
                                id,
                                i as int,
                            ),
                            names_unique(media@),
                            old(media)@.len() <= media@.len(),
                            all_cuts_refer_into(sequences@, media@),
                            base_f <= base_a,
                            errors@.len() == base_f + if resolves {
                                0
                            } else {
                                ref_count(refs.subrange(0, k as int), id)
                            },
                            succeeded <==> (base_f < base_a || (resolves && ref_count(
                                refs.subrange(0, k as int),
                                id,
                            ) > 0)),
                        decreases sequences@.len() - k,
                    {
                        let ghost tried_k = ref_count(refs.subrange(0, k as int), id);
                        proof {
                            assert(refs[k as int] == texts(sequences@[k as int].track_groups@));
                            assert(refs[k as int].subrange(0, 0) =~= Seq::<Seq<char>>::empty());
                            assert(pairs =~= pairs + repeat_pair(
                                (i as int, k as int),
                                count_of(refs[k as int].subrange(0, 0), id),
                            ));
                        }
                        let mut j: usize = 0;
                        while j < sequences[k].track_groups.len()
                            invariant
                                0 <= i < cs.len(),
                                cs == root.children@,
                                *child == cs[i as int],
                                object_id@ == id,
                                resolves == group_resolves(*root, *child),
                                refs == seq_refs(old(sequences)@),
                                same_headers(old(sequences)@, sequences@),
                                kept_or_extended(old(sequences)@, sequences@, cs),
                                group_id(*child) == Some(id),
                                0 <= k < sequences@.len(),
                                run_of(*root, pairs, ss, ms, rs),
                                ss[0] == old(sequences)@,
                                ss.last() == sequences@,
                                ms[0] == old(media)@,
                                ms.last() == media@,
                                errs_of(rs) == errors@,
                                pairs == attempt_pairs(cs.subrange(0, i as int), refs) + pairs_for(
                                    refs.subrange(0, k as int),
                                    id,
                                    i as int,
                                ) + repeat_pair(
                                    (i as int, k as int),
                                    count_of(refs[k as int].subrange(0, j as int), id),
                                ),
                                refs[k as int] == texts(sequences@[k as int].track_groups@),
                                0 <= j <= sequences@[k as int].track_groups@.len(),
                                names_unique(media@),
                                old(media)@.len() <= media@.len(),
                                all_cuts_refer_into(sequences@, media@),
                                base_f <= base_a,
                                tried_k == ref_count(refs.subrange(0, k as int), id),
                                errors@.len() == base_f + if resolves {
                                    0
                                } else {
                                    tried_k + count_of(refs[k as int].subrange(0, j as int), id)
                                },
                                succeeded <==> (base_f < base_a || (resolves && tried_k + count_of(
                                    refs[k as int].subrange(0, j as int),
                                    id,
                                ) > 0)),
                            decreases refs[k as int].len() - j,
                        {
                            let ghost before_pairs = pairs;
                            proof {
                                lemma_count_step(refs[k as int], id, j as int);
                                let v = refs[k as int];
                                assert(v.subrange(0, j + 1).drop_last() =~= v.subrange(0, j as int));
                                assert(v.subrange(0, j + 1).last() == v[j as int]);
                                assert(v[j as int] == sequences@[k as int].track_groups@[j as int]@);
                            }
                            if same_text(sequences[k].track_groups[j].as_str(), object_id) {
                                proof {
                                    assert(texts(sequences@[k as int].track_groups@)[j as int] == id);
                                    assert(group_id(cs[i as int]) == Some(
                                        texts(sequences@[k as int].track_groups@)[j as int],
                                    ));
                                }
                                let ghost seqs_before = sequences@;
                                let ghost media_before = media@;
                                let outcome = parse_video_track_group(
                                    root,
                                    child,
                                    &mut sequences[k],
                                    media,
                                );
                                let ghost res = outcome;
                                proof {
                                    lemma_resolution_keeps(
                                        old(sequences)@,
                                        seqs_before,
                                        sequences@,
                                        media_before,
                                        media@,
                                        k as int,
                                        cs,
                                    );
                                    assert(attempt_step(
                                        *root,
                                        (i as int, k as int),
                                        seqs_before,
                                        sequences@,
                                        media_before,
                                        media@,
                                        res,
                                    ));
                                    lemma_run_push(
                                        *root,
                                        pairs,
                                        ss,
                                        ms,
                                        rs,
                                        (i as int, k as int),
                                        sequences@,
                                        media@,
                                        res,
                                    );
                                    pairs = pairs.push((i as int, k as int));
                                    ss = ss.push(sequences@);
                                    ms = ms.push(media@);
                                    rs = rs.push(res);
                                }
                                match outcome {
                                    Ok(()) => {
                                        succeeded = true;
                                    },
                                    Err(e) => {
                                        errors.push(e);
                                    },
                                }
                            }
                            proof {
                                let x = (i as int, k as int);
                                let c = count_of(refs[k as int].subrange(0, j as int), id);
                                assert(repeat_pair(x, c + 1) == repeat_pair(x, c).push(x));
                                assert(attempt_pairs(cs.subrange(0, i as int), refs) + pairs_for(
                                    refs.subrange(0, k as int),
                                    id,
                                    i as int,
                                ) + repeat_pair(x, c).push(x) =~= (attempt_pairs(
                                    cs.subrange(0, i as int),
                                    refs,
                                ) + pairs_for(refs.subrange(0, k as int), id, i as int)
                                    + repeat_pair(x, c)).push(x));
                            }
                            j = j + 1;
                        }
                        proof {
                            let v = refs[k as int];
                            assert(v.subrange(0, v.len() as int) =~= v);
                            assert(refs.subrange(0, k + 1).drop_last() =~= refs.subrange(
                                0,
                                k as int,
                            ));
                            assert(refs.subrange(0, k + 1).last() == refs[k as int]);
                            lemma_pairs_for_step(refs, id, i as int, k as int);
                            assert(attempt_pairs(cs.subrange(0, i as int), refs) + pairs_for(
                                refs.subrange(0, k + 1),
                                id,
                                i as int,
                            ) =~= attempt_pairs(cs.subrange(0, i as int), refs) + pairs_for(
                                refs.subrange(0, k as int),
                                id,
                                i as int,
                            ) + repeat_pair((i as int, k as int), count_of(refs[k as int], id)));
                        }
                        k = k + 1;
                    }
                    proof {
                        assert(refs.len() == sequences@.len());
                        assert(refs.subrange(0, refs.len() as int) =~= refs);
                    }
                },
                None => {
                    let ghost prev = missing@;
                    missing.push(Error::attribute_not_found("ObjectID", child.name.as_str()));
                    assert(forall|q: int| 0 <= q < prev.len() ==> missing@[q] == prev[q]);
                },
            }
        }
        proof {
            lemma_attempt_pairs_step(cs, refs, i as int);
            if group_id(cs[i as int]) is None {
                assert(attempt_pairs(cs.subrange(0, i as int), refs) + Seq::<(int, int)>::empty()
                    =~= attempt_pairs(cs.subrange(0, i as int), refs));
            }
        }
        i = i + 1;
    }
    proof {
        assert(cs.subrange(0, cs.len() as int) =~= cs);
        assert(resolutions_ran(*root, pairs, old(sequences)@, sequences@, old(media)@, media@, errors@));
    }
    if !succeeded && errors.len() > 0 {
        Err(Error::multiple(errors))
    } else {
        let ghost fl = errors@.len();
        let ghost ms = missing@;
        errors.append(&mut missing);
        assert(forall|q: int| fl <= q < errors@.len() ==> errors@[q] == ms[q - fl]);
        Ok(errors)
    }
}

/// A resolution on sequence `k` keeps the headers of every sequence and
/// the references of every cut into the media.
proof fn lemma_resolution_keeps(
    first: Seq<PremiereSequence>,
    before: Seq<PremiereSequence>,
    after: Seq<PremiereSequence>,
    media_before: Seq<crate::media::PremiereMedium>,
    media_after: Seq<crate::media::PremiereMedium>,
    k: int,
    cs: Seq<Element>,
)
    requires
        0 <= k < before.len(),
        same_headers(first, before),
        kept_or_extended(first, before, cs),
        refers_to_group(cs, texts(before[k].track_groups@)),
        before[k].cuts.cuts@.len() <= after[k].cuts.cuts@.len(),
        after[k].cuts.cuts@.subrange(0, before[k].cuts.cuts@.len() as int) == before[k].cuts.cuts@,
        all_cuts_refer_into(before, media_before),
        after.len() == before.len(),
        forall|j: int| 0 <= j < before.len() && j != k ==> after[j] == before[j],
        after[k].id == before[k].id,
        after[k].name == before[k].name,
        after[k].duration == before[k].duration,
        after[k].track_groups == before[k].track_groups,
        cuts_refer_into(after[k].cuts.cuts@, media_after),
        media_before.len() <= media_after.len(),
    ensures
        same_headers(first, after),
        all_cuts_refer_into(after, media_after),
        kept_or_extended(first, after, cs),
{
    assert forall|q: int| 0 <= q < first.len() implies {
        &&& (!refers_to_group(cs, texts(first[q].track_groups@)) ==> #[trigger] after[q]
            == first[q])
        &&& first[q].cuts.cuts@.len() <= after[q].cuts.cuts@.len()
        &&& after[q].cuts.cuts@.subrange(0, first[q].cuts.cuts@.len() as int)
            == first[q].cuts.cuts@
    } by {
        assert(before[q].track_groups == first[q].track_groups);
        if q != k {
            assert(after[q] == before[q]);
        } else {
            let fl = first[q].cuts.cuts@.len() as int;
            let bl = before[q].cuts.cuts@.len() as int;
            assert(after[q].cuts.cuts@.subrange(0, fl) =~= after[q].cuts.cuts@.subrange(
                0,
                bl,
            ).subrange(0, fl));
        }
    }
    assert forall|j: int| 0 <= j < after.len() implies cuts_refer_into(
        (#[trigger] after[j]).cuts.cuts@,
        media_after,
    ) by {
        if j != k {
            assert(after[j] == before[j]);
            assert(cuts_refer_into(before[j].cuts.cuts@, media_before));
        }
    }
    assert forall|j: int| 0 <= j < first.len() implies {
        &&& (#[trigger] after[j]).id == first[j].id
        &&& after[j].name == first[j].name
        &&& after[j].duration == first[j].duration
        &&& after[j].track_groups == first[j].track_groups
    } by {
        assert(before[j].id == first[j].id);
    }
}

/// Reads sequences, their cuts and the media they show out of a parsed
/// project document.
#[derive(Debug)]
pub struct PremiereReader {
    media: PremiereMedia,
    sequences: Vec<PremiereSequence>,
    root: Element,
    warnings: Vec<Error>,
}

impl PremiereReader {
    /// The document read.
    pub closed spec fn spec_root(&self) -> Element {
        self.root
    }

    /// The sequences found so far.
    pub closed spec fn spec_sequences(&self) -> Seq<PremiereSequence> {
        self.sequences@
    }

    /// The media found so far.
    pub closed spec fn spec_media(&self) -> Seq<crate::media::PremiereMedium> {
        self.media@
    }

    /// The failures that the last successful read passed over.
    pub closed spec fn spec_warnings(&self) -> Seq<Error> {
        self.warnings@
    }

    /// Media names are unique and every cut refers to a medium.
    pub closed spec fn wf(&self) -> bool {
        &&& names_unique(self.media@)
        &&& all_cuts_refer_into(self.sequences@, self.media@)
    }

    /// A reader of the document `root`, with nothing read yet.
    pub fn new(root: Element) -> (r: Self)
        ensures
            r.wf(),
            r.spec_root() == root,
            r.spec_sequences().len() == 0,
            r.spec_media().len() == 0,
    {
        PremiereReader { media: PremiereMedia::new(), sequences: Vec::new(), root, warnings: Vec::new() }
    }

    pub fn media(&self) -> (r: &PremiereMedia)
        ensures
            r@ == self.spec_media(),
    {
        &self.media
    }

    pub fn sequences(&self) -> (r: &Vec<PremiereSequence>)
        ensures
            r@ == self.spec_sequences(),
    {
        &self.sequences
    }

    pub fn root(&self) -> (r: &Element)
        ensures
            *r == self.spec_root(),
    {
        &self.root
    }

    /// The failures that the last successful read passed over.
    pub fn warnings(&self) -> (r: &Vec<Error>)
        ensures
            r@ == self.spec_warnings(),
    {
        &self.warnings
    }

    /// Reads every `Sequence` of the document, then resolves the video
    /// track groups they refer to. Fails when a sequence cannot be read,
    /// and when track groups were resolved and every resolution failed;
    /// the other failures become warnings.
    pub fn read(&mut self) -> (r: Result<(), Error>)
        requires
            old(self).wf(),
        ensures
            final(self).wf(),
            final(self).spec_root() == old(self).spec_root(),
            ({
                let cs = old(self).spec_root().children@;
                let se = sequence_elems(cs);
                let fresh = final(self).spec_sequences().subrange(
                    old(self).spec_sequences().len() as int,
                    final(self).spec_sequences().len() as int,
                );
                (forall|i: int| 0 <= i < se.len() ==> (#[trigger] sequence_model(se[i])) is Some)
                    ==> exists|init: Seq<PremiereSequence>, errs: Seq<Error>|
                    init.len() == se.len() && (forall|i: int|
                        0 <= i < se.len() ==> fresh_sequence(#[trigger] init[i], se[i]))
                        && resolutions_ran(
                        old(self).spec_root(),
                        attempt_pairs(cs, seq_refs(init)),
                        init,
                        fresh,
                        old(self).spec_media(),
                        final(self).spec_media(),
                        errs,
                    ) && (r matches Err(e) ==> (e matches Error::NotFound(
                        NotFoundError::Multiple(d),
                    ) && d.errors@ == errs)) && (r is Ok ==> final(self).spec_warnings().subrange(
                        0,
                        errs.len() as int,
                    ) == errs)
            }),
            ({
                let cs = old(self).spec_root().children@;
                let se = sequence_elems(cs);
                let all_read = forall|i: int|
                    0 <= i < se.len() ==> (#[trigger] sequence_model(se[i])) is Some;
                let fresh = final(self).spec_sequences().subrange(
                    old(self).spec_sequences().len() as int,
                    final(self).spec_sequences().len() as int,
                );
                &&& !all_read ==> r is Err && final(self).spec_sequences() == old(
                    self,
                ).spec_sequences() && final(self).spec_media() == old(self).spec_media()
                &&& !all_read ==> (r matches Err(e) && exists|i: int|
                    0 <= i < se.len() && sequence_error(#[trigger] se[i], e) && forall|j: int|
                        0 <= j < i ==> (#[trigger] sequence_model(se[j])) is Some)
                &&& all_read ==> {
                    &&& final(self).spec_sequences().len() == old(self).spec_sequences().len()
                        + se.len()
                    &&& final(self).spec_sequences().subrange(
                        0,
                        old(self).spec_sequences().len() as int,
                    ) == old(self).spec_sequences()
                    &&& forall|i: int| 0 <= i < se.len() ==> declared_by(#[trigger] fresh[i], se[i])
                    &&& forall|i: int|
                        0 <= i < se.len() && !refers_to_group(cs, texts(fresh[i].track_groups@))
                            ==> fresh_sequence(#[trigger] fresh[i], se[i])
                    &&& (r is Ok <==> (attempts(cs, seq_refs(fresh)) == 0 || failures(
                        old(self).spec_root(),
                        cs,
                        seq_refs(fresh),
                    ) < attempts(cs, seq_refs(fresh))))
                    &&& r matches Err(e) ==> (e matches Error::NotFound(
                        NotFoundError::Multiple(d),
                    ) && d.errors@.len() == attempts(cs, seq_refs(fresh)))
                    &&& r is Ok ==> final(self).spec_warnings().len() == failures(
                        old(self).spec_root(),
                        cs,
                        seq_refs(fresh),
                    ) + missing_ids(cs)
                }
            }),
    {
        let mut fresh = get_sequences(&self.root)?;
        let ghost read = fresh@;
        proof {
            lemma_fresh_cuts_refer(read, self.media@, sequence_elems(self.root.children@));
        }
        let ghost media_before = self.media@;
        let outcome = resolve_groups(&self.root, &mut fresh, &mut self.media);
        let ghost old_seqs = self.sequences@;
        let ghost resolved = fresh@;
        self.sequences.append(&mut fresh);
        proof {
            lemma_appended(old_seqs, resolved, self.sequences@, media_before, self.media@);
            assert(seq_refs(resolved) =~= seq_refs(read));
            let cs = self.root.children@;
            let se = sequence_elems(cs);
            assert forall|i: int|
                0 <= i < se.len() && !refers_to_group(cs, texts(resolved[i].track_groups@))
                    implies fresh_sequence(#[trigger] resolved[i], se[i]) by {
                assert(resolved[i].track_groups == read[i].track_groups);
                assert(resolved[i] == read[i]);
            }
        }
        let ghost errs = choose|errs: Seq<Error>|
            resolutions_ran(
                self.root,
                attempt_pairs(self.root.children@, seq_refs(read)),
                read,
                resolved,
                media_before,
                self.media@,
                errs,
            ) && (outcome matches Err(e) ==> (e matches Error::NotFound(NotFoundError::Multiple(d))
                && d.errors@ == errs)) && (outcome matches Ok(w) ==> w@.subrange(
                0,
                errs.len() as int,
            ) == errs);
        let ghost out = outcome;
        let r = match outcome {
            Ok(w) => {
                self.warnings = w;
                Ok(())
            },
            Err(e) => Err(e),
        };
        proof {
            let cs = self.root.children@;
            let se = sequence_elems(cs);
            let fresh_part = self.sequences@.subrange(old_seqs.len() as int, self.sequences@.len() as int);
            assert(fresh_part == resolved);
            assert(resolutions_ran(
                self.root,
                attempt_pairs(cs, seq_refs(read)),
                read,
                fresh_part,
                old(self).media@,
                self.media@,
                errs,
            ));
            assert(read.len() == se.len() && (forall|i: int|
                0 <= i < se.len() ==> fresh_sequence(#[trigger] read[i], se[i])));
            assert(r matches Err(e) ==> out == Err::<Vec<Error>, Error>(e));
            assert(r is Ok ==> (out matches Ok(w) && self.warnings@ == w@));
            assert(read.len() == se.len() && (forall|i: int|
                0 <= i < se.len() ==> fresh_sequence(#[trigger] read[i], se[i])) && resolutions_ran(
                self.root,
                attempt_pairs(cs, seq_refs(read)),
                read,
                fresh_part,
                old(self).media@,
                self.media@,
                errs,
            ) && (r matches Err(e) ==> (e matches Error::NotFound(NotFoundError::Multiple(d))
                && d.errors@ == errs)) && (r is Ok ==> self.warnings@.subrange(0, errs.len() as int)
                == errs));
            assert(old(self).spec_root() == self.root);
            assert(old(self).spec_media() == old(self).media@);
            assert(self.spec_media() == self.media@);
            assert(self.spec_warnings() == self.warnings@);
            assert(old(self).spec_sequences() == old_seqs);
            assert(self.spec_sequences() == self.sequences@);
            assert(exists|init: Seq<PremiereSequence>, errs: Seq<Error>|
                init.len() == se.len() && (forall|i: int|
                    0 <= i < se.len() ==> fresh_sequence(#[trigger] init[i], se[i]))
                    && resolutions_ran(
                    old(self).spec_root(),
                    attempt_pairs(cs, seq_refs(init)),
                    init,
                    fresh_part,
                    old(self).spec_media(),
                    self.spec_media(),
                    errs,
                ) && (r matches Err(e) ==> (e matches Error::NotFound(
                    NotFoundError::Multiple(d),
                ) && d.errors@ == errs)) && (r is Ok ==> self.spec_warnings().subrange(
                    0,
                    errs.len() as int,
                ) == errs));
        }
        r
    }
}

/// Sequences fresh from their elements have no cuts.
proof fn lemma_fresh_cuts_refer(
    seqs: Seq<PremiereSequence>,
    media: Seq<crate::media::PremiereMedium>,
    elems: Seq<Element>,
)
    requires
        seqs.len() == elems.len(),
        forall|i: int| 0 <= i < seqs.len() ==> fresh_sequence(#[trigger] seqs[i], elems[i]),
    ensures
        all_cuts_refer_into(seqs, media),
{
    assert forall|k: int| 0 <= k < seqs.len() implies cuts_refer_into(
        (#[trigger] seqs[k]).cuts.cuts@,
        media,
    ) by {
        assert(fresh_sequence(seqs[k], elems[k]));
    }
}

/// Appending resolved sequences keeps every cut referring into the media.
proof fn lemma_appended(
    before: Seq<PremiereSequence>,
    added: Seq<PremiereSequence>,
    after: Seq<PremiereSequence>,
    media_before: Seq<crate::media::PremiereMedium>,
    media_after: Seq<crate::media::PremiereMedium>,
)
    requires
        after == before + added,
        all_cuts_refer_into(before, media_before),
        all_cuts_refer_into(added, media_after),
        media_before.len() <= media_after.len(),
    ensures
        all_cuts_refer_into(after, media_after),
        after.subrange(0, before.len() as int) == before,
        after.subrange(before.len() as int, after.len() as int) == added,
{
    assert forall|k: int| 0 <= k < after.len() implies cuts_refer_into(
        (#[trigger] after[k]).cuts.cuts@,
        media_after,
    ) by {
        if k < before.len() {
            assert(after[k] == before[k]);
            assert(cuts_refer_into(before[k].cuts.cuts@, media_before));
        } else {
            assert(after[k] == added[k - before.len()]);
        }
    }
    assert(after.subrange(0, before.len() as int) =~= before);
    assert(after.subrange(before.len() as int, after.len() as int) =~= added);
}

} // verus!
