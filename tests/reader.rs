use prproj::element::Element;
use prproj::errors::{decimal_string, Error, NotFoundError};
use prproj::graph::{get_elem_with_id, get_elems_with_ids, try_get_elem_with_id, FindWith};
use prproj::media::PremiereMedia;
use prproj::resolve::parse_video_track_group;
use prproj::sequence::PremiereSequence;
use prproj::ticks::Span;
use prproj::{PremiereReader, Size, TICKS_PER_SECOND};

const T: u64 = TICKS_PER_SECOND;

fn leaf(name: &str, text: &str) -> Element {
    Element::new(name).with_text(text)
}

fn sequence(id: &str, name: &str, work_in: &str, work_out: &str, refs: &[&str]) -> Element {
    let mut groups = Element::new("TrackGroups");
    for r in refs {
        groups = groups.with_child(
            Element::new("TrackGroup")
                .with_child(Element::new("First"))
                .with_child(Element::new("Second").with_attr("ObjectRef", r)),
        );
    }
    Element::new("Sequence")
        .with_attr("ObjectUID", "sequence-uid")
        .with_child(leaf("ID", id))
        .with_child(leaf("Name", name))
        .with_child(
            Element::new("Node").with_child(
                Element::new("Properties")
                    .with_child(leaf("MZ.WorkInPoint", work_in))
                    .with_child(leaf("MZ.WorkOutPoint", work_out)),
            ),
        )
        .with_child(groups)
}

fn video_track_group(id: &str, frame_rect: &str, track_uref: &str) -> Element {
    Element::new("VideoTrackGroup")
        .with_attr("ObjectID", id)
        .with_child(leaf("FrameRect", frame_rect))
        .with_child(
            Element::new("TrackGroup").with_child(
                Element::new("Tracks")
                    .with_child(Element::new("Track").with_attr("ObjectURef", track_uref)),
            ),
        )
}

fn track(uid: &str, item_refs: &[&str]) -> Element {
    let mut items = Element::new("TrackItems");
    for r in item_refs {
        items = items.with_child(Element::new("TrackItem").with_attr("ObjectRef", r));
    }
    Element::new("VideoClipTrack").with_attr("ObjectUID", uid).with_child(
        Element::new("ClipTrack").with_child(Element::new("ClipItems").with_child(items)),
    )
}

fn clip_item(id: &str, sub_clip: &str, start: u64, end: u64) -> Element {
    Element::new("VideoClipTrackItem").with_attr("ObjectID", id).with_child(
        Element::new("ClipTrackItem")
            .with_child(Element::new("SubClip").with_attr("ObjectRef", sub_clip))
            .with_child(
                Element::new("TrackItem")
                    .with_child(leaf("Start", &start.to_string()))
                    .with_child(leaf("End", &end.to_string())),
            ),
    )
}

/// The chain behind sub clip `30`: clip `40`, source `50`, media
/// `media-uid`, video stream `60`.
fn media_chain(root: Element) -> Element {
    root.with_child(
        Element::new("SubClip")
            .with_attr("ObjectID", "30")
            .with_child(Element::new("Clip").with_attr("ObjectRef", "40"))
            .with_child(Element::new("MasterClip"))
            .with_child(leaf("Name", "clip")),
    )
    .with_child(
        Element::new("VideoClip").with_attr("ObjectID", "40").with_child(
            Element::new("Clip").with_child(Element::new("Source").with_attr("ObjectRef", "50")),
        ),
    )
    .with_child(
        Element::new("VideoMediaSource").with_attr("ObjectID", "50").with_child(
            Element::new("MediaSource")
                .with_child(Element::new("Media").with_attr("ObjectURef", "media-uid")),
        ),
    )
    .with_child(
        Element::new("Media")
            .with_attr("ObjectUID", "media-uid")
            .with_child(leaf("FilePath", "  /footage/clip.mp4\n"))
            .with_child(leaf("Title", " clip.mp4 "))
            .with_child(Element::new("VideoStream").with_attr("ObjectRef", "60")),
    )
    .with_child(
        Element::new("VideoStream")
            .with_attr("ObjectID", "60")
            .with_child(leaf("Duration", &T.to_string()))
            .with_child(leaf("FrameRate", "not a number")),
    )
}

fn full_document() -> Element {
    let root = Element::new("PremiereData")
        .with_child(sequence("1", "Main", "0", "2540160000000", &["10"]))
        .with_child(video_track_group("10", "0,0,1280,720", "track-uid"))
        .with_child(track("track-uid", &["20", "21"]))
        .with_child(clip_item("20", "30", 0, 10 * T))
        .with_child(clip_item("21", "30", 5 * T, 15 * T));
    media_chain(root)
}

fn multiple_count(e: &Error) -> Option<usize> {
    match e {
        Error::NotFound(NotFoundError::Multiple(d)) => Some(d.errors.len()),
        _ => None,
    }
}

#[test]
fn one_sequence_without_track_groups() {
    let root = Element::new("PremiereData").with_child(sequence("1", "Only", "0", "254016000000", &[]));
    let mut reader = PremiereReader::new(root);
    assert!(reader.read().is_ok());
    let seqs = reader.sequences();
    assert_eq!(seqs.len(), 1);
    assert_eq!(seqs[0].id(), 1);
    assert_eq!(seqs[0].name(), "Only");
    assert_eq!(seqs[0].duration(), Span { secs: 1, nanos: 0 });
    assert_eq!(seqs[0].duration, T);
    assert!(seqs[0].cuts().is_empty());
    assert!(seqs[0].timeline().items().is_empty());
    assert_eq!(seqs[0].size(), Size { width: 0, height: 0 });
    assert_eq!(reader.media().len(), 0);
}

#[test]
fn full_chain_resolves_into_cuts_and_media() {
    let mut reader = PremiereReader::new(full_document());
    assert!(reader.read().is_ok());
    assert!(reader.warnings().is_empty());
    let seq = &reader.sequences()[0];
    assert_eq!(seq.size(), Size { width: 1280, height: 720 });
    assert_eq!(seq.duration(), Span { secs: 10, nanos: 0 });
    let cuts = seq.cuts();
    assert_eq!(cuts.len(), 2);
    assert_eq!((cuts[0].start, cuts[0].end, cuts[0].medium()), (0, 10 * T, 0));
    assert_eq!((cuts[1].start, cuts[1].end, cuts[1].medium()), (5 * T, 15 * T, 0));
    assert_eq!(cuts[1].start(), Span { secs: 5, nanos: 0 });
    assert_eq!(cuts[1].end(), Span { secs: 15, nanos: 0 });
    let media = reader.media().media();
    assert_eq!(media.len(), 1);
    assert_eq!(media[0].fileName(), "clip.mp4");
    assert_eq!(media[0].filePath(), "/footage/clip.mp4");
    assert_eq!(media[0].frame_rate, 0);
    assert_eq!(media[0].duration(), Span { secs: 1, nanos: 0 });
    assert_eq!(media[0].size, Size { width: 1920, height: 1080 });
    let tl: Vec<(usize, i128, i128)> = seq
        .timeline()
        .items()
        .iter()
        .map(|i| (i.cut(), i.start(), i.end()))
        .collect();
    let t = T as i128;
    assert_eq!(tl, vec![(0, 0, 5 * t), (1, 5 * t, 15 * t)]);
}

#[test]
fn some_failed_groups_become_warnings() {
    let root = full_document()
        .with_child(sequence("2", "Broken", "0", "1", &["11"]))
        .with_child(Element::new("VideoTrackGroup").with_attr("ObjectID", "11"));
    let mut reader = PremiereReader::new(root);
    assert!(reader.read().is_ok());
    assert_eq!(reader.warnings().len(), 1);
    assert_eq!(reader.sequences().len(), 2);
    assert_eq!(reader.sequences()[0].cuts().len(), 2);
    assert!(reader.sequences()[1].cuts().is_empty());
}

#[test]
fn all_failed_groups_fail_the_read() {
    let root = Element::new("PremiereData")
        .with_child(sequence("1", "A", "0", "1", &["11", "12"]))
        .with_child(sequence("2", "B", "0", "1", &["11"]))
        .with_child(Element::new("VideoTrackGroup").with_attr("ObjectID", "11"))
        .with_child(video_track_group("12", "0,0,1,1", "missing-track"));
    let mut reader = PremiereReader::new(root);
    let err = reader.read().unwrap_err();
    assert_eq!(multiple_count(&err), Some(3));
    assert_eq!(reader.sequences().len(), 2);
    assert_eq!(reader.sequences()[0].size(), Size { width: 1, height: 1 });
}

#[test]
fn group_without_identifier_is_a_warning() {
    let root = Element::new("PremiereData")
        .with_child(sequence("1", "A", "0", "1", &[]))
        .with_child(Element::new("VideoTrackGroup"));
    let mut reader = PremiereReader::new(root);
    assert!(reader.read().is_ok());
    assert_eq!(reader.warnings().len(), 1);
    match &reader.warnings()[0] {
        Error::NotFound(NotFoundError::Attribute(d)) => {
            assert_eq!(d.name_of_not_found, "ObjectID");
            assert_eq!(d.in_elem, "VideoTrackGroup");
        }
        _ => panic!("expected a missing attribute"),
    }
}

#[test]
fn unreadable_sequence_fails_the_read() {
    let root = Element::new("PremiereData")
        .with_child(sequence("1", "A", "0", "1", &[]))
        .with_child(sequence("x", "B", "0", "1", &[]));
    let mut reader = PremiereReader::new(root);
    match reader.read() {
        Err(Error::Malformed(d)) => {
            assert_eq!(d.name_of_malformed, "ID");
            assert_eq!(d.text, "x");
        }
        _ => panic!("expected a malformed id"),
    }
    assert!(reader.sequences().is_empty());
}

#[test]
fn sequence_requires_its_parts() {
    let no_node = Element::new("Sequence")
        .with_child(leaf("ID", "1"))
        .with_child(leaf("Name", "n"))
        .with_child(Element::new("TrackGroups"));
    match PremiereSequence::new(&no_node) {
        Err(Error::NotFound(NotFoundError::Element(d))) => {
            assert_eq!(d.name_of_not_found, "Node");
            assert_eq!(d.in_elem, "Sequence");
        }
        _ => panic!("expected a missing Node"),
    }
    let no_work_out = Element::new("Sequence")
        .with_child(leaf("ID", "1"))
        .with_child(leaf("Name", "n"))
        .with_child(
            Element::new("Node").with_child(
                Element::new("Properties").with_child(leaf("MZ.WorkInPoint", "0")),
            ),
        )
        .with_child(Element::new("TrackGroups"));
    match PremiereSequence::new(&no_work_out) {
        Err(Error::NotFound(NotFoundError::Element(d))) => {
            assert_eq!(d.name_of_not_found, "MZ.WorkOutPoint");
            assert_eq!(d.in_elem, "Properties");
        }
        _ => panic!("expected a missing work out point"),
    }
    let backwards = sequence("1", "n", "10", "5", &[]);
    assert!(matches!(PremiereSequence::new(&backwards), Err(Error::Malformed(_))));
    let stray = sequence("1", "n", "0", "5", &[])
        .with_child(Element::new("Other"));
    assert!(PremiereSequence::new(&stray).is_ok());
}

#[test]
fn sequence_collects_first_second_of_each_group() {
    let groups = Element::new("TrackGroups")
        .with_child(
            Element::new("TrackGroup")
                .with_child(Element::new("Second").with_attr("ObjectRef", "a"))
                .with_child(Element::new("Second").with_attr("ObjectRef", "b")),
        )
        .with_child(Element::new("TrackGroup").with_child(Element::new("First")))
        .with_child(
            Element::new("TrackGroup").with_child(Element::new("Second").with_attr("ObjectRef", "c")),
        );
    let elem = Element::new("Sequence")
        .with_child(leaf("ID", "7"))
        .with_child(leaf("Name", "n"))
        .with_child(
            Element::new("Node").with_child(
                Element::new("Properties")
                    .with_child(leaf("MZ.WorkOutPoint", "508032000000"))
                    .with_child(leaf("MZ.WorkInPoint", "254016000000")),
            ),
        )
        .with_child(groups);
    let seq = PremiereSequence::new(&elem).unwrap();
    assert_eq!(seq.track_groups(), &vec!["a".to_string(), "c".to_string()]);
    assert_eq!(seq.id(), 7);
    assert_eq!(seq.duration(), Span { secs: 1, nanos: 0 });

    let bad = Element::new("Sequence")
        .with_child(leaf("ID", "7"))
        .with_child(leaf("Name", "n"))
        .with_child(
            Element::new("Node").with_child(
                Element::new("Properties")
                    .with_child(leaf("MZ.WorkInPoint", "0"))
                    .with_child(leaf("MZ.WorkOutPoint", "1")),
            ),
        )
        .with_child(Element::new("TrackGroups").with_child(Element::new("NotAGroup")));
    assert!(PremiereSequence::new(&bad).is_err());
}

#[test]
fn lookups_keep_the_namespaces_apart() {
    let root = Element::new("Root")
        .with_child(Element::new("Global").with_attr("ObjectUID", "5"))
        .with_child(Element::new("Local").with_attr("ObjectID", "5"))
        .with_child(Element::new("Other").with_attr("ObjectID", "6"));
    assert_eq!(try_get_elem_with_id(&root, "5", FindWith::ID).unwrap().name, "Local");
    assert_eq!(try_get_elem_with_id(&root, "5", FindWith::UID).unwrap().name, "Global");
    assert!(try_get_elem_with_id(&root, "6", FindWith::UID).is_none());
    match get_elem_with_id(&root, "7", FindWith::ID) {
        Err(Error::NotFound(NotFoundError::Element(d))) => {
            assert_eq!(d.name_of_not_found, "7");
            assert_eq!(d.in_elem, "Root");
        }
        _ => panic!("expected a missing element"),
    }
    let found = get_elems_with_ids(&root, &["6", "5", "9"], FindWith::ID);
    let names: Vec<&str> = found.iter().map(|e| e.name.as_str()).collect();
    assert_eq!(names, vec!["Local", "Other"]);
    assert_eq!(FindWith::ID.value(), "ObjectID");
    assert_eq!(FindWith::UID.value(), "ObjectUID");
}

#[test]
fn element_lookups_fail_explicitly() {
    let e = Element::new("Parent")
        .with_attr("k", "v")
        .with_child(leaf("Child", "first"))
        .with_child(leaf("Child", "second"));
    assert_eq!(e.get("Child").unwrap().text, "first");
    assert_eq!(e.get_attr("k").unwrap(), "v");
    match e.get("Missing") {
        Err(Error::NotFound(NotFoundError::Element(d))) => {
            assert_eq!(d.name_of_not_found, "Missing");
            assert_eq!(d.in_elem, "Parent");
        }
        _ => panic!("expected a missing element"),
    }
    match e.get_attr("x") {
        Err(Error::NotFound(NotFoundError::Attribute(d))) => {
            assert_eq!(d.name_of_not_found, "x");
        }
        _ => panic!("expected a missing attribute"),
    }
    let all = e.get_elems_with_names(&["Child", "Missing"]);
    assert!(all.is_err());
}

#[test]
fn errors_describe_themselves() {
    let parent = Element::new("Parent").with_attr("a", "1");
    let missing_child = parent.get("Child").unwrap_err();
    assert_eq!(missing_child.message(), "Element \"Child\" not found in \"Parent\"!");
    let missing_attr = parent.get_attr("b").unwrap_err();
    assert_eq!(missing_attr.message(), "Attribute \"b\" not found in \"Parent\"!");
    let bad = Error::malformed("ID", "x1");
    assert_eq!(bad.message(), "Cannot read \"x1\" in \"ID\"!");
    let all = Error::multiple(vec![missing_child, bad]);
    assert_eq!(
        all.message(),
        "Multiple errors occurred (2):\nElement \"Child\" not found in \"Parent\"!\nCannot read \"x1\" in \"ID\"!"
    );
}

#[test]
fn numbers_are_written_in_decimal() {
    assert_eq!(decimal_string(0), "0");
    assert_eq!(decimal_string(7), "7");
    assert_eq!(decimal_string(10), "10");
    assert_eq!(decimal_string(12345), "12345");
}

#[test]
fn partial_results_stay_after_a_failed_item() {
    let root = media_chain(
        Element::new("PremiereData")
            .with_child(video_track_group("10", "0,0,640,480", "track-uid"))
            .with_child(track("track-uid", &["20", "21"]))
            .with_child(clip_item("20", "30", 0, 4 * T))
            .with_child(clip_item("21", "missing-sub-clip", 5 * T, 6 * T)),
    );
    let vtg = root.get("VideoTrackGroup").unwrap();
    let mut seq = PremiereSequence::new(&sequence("1", "S", "0", "1", &["10"])).unwrap();
    let mut media = PremiereMedia::new();
    let r = parse_video_track_group(&root, vtg, &mut seq, &mut media);
    assert!(matches!(r, Err(Error::NotFound(NotFoundError::Element(_)))));
    assert_eq!(seq.size(), Size { width: 640, height: 480 });
    assert_eq!(seq.cuts().len(), 1);
    assert_eq!((seq.cuts()[0].start, seq.cuts()[0].end), (0, 4 * T));
    assert_eq!(seq.timeline().items().len(), 1);
    assert_eq!(media.len(), 1);
    assert_eq!(media.media()[0].filePath(), "/footage/clip.mp4");
    assert_eq!(media.media()[0].duration, T);
}

#[test]
fn frame_size_is_written_before_tracks_fail() {
    let root = Element::new("PremiereData").with_child(
        Element::new("VideoTrackGroup")
            .with_attr("ObjectID", "10")
            .with_child(leaf("FrameRect", "0,0,800,600")),
    );
    let vtg = root.get("VideoTrackGroup").unwrap();
    let mut seq = PremiereSequence::new(&sequence("1", "S", "0", "1", &["10"])).unwrap();
    let mut media = PremiereMedia::new();
    let r = parse_video_track_group(&root, vtg, &mut seq, &mut media);
    match r {
        Err(Error::NotFound(NotFoundError::Element(d))) => assert_eq!(d.name_of_not_found, "TrackGroup"),
        _ => panic!("expected a missing TrackGroup"),
    }
    assert_eq!(seq.size(), Size { width: 800, height: 600 });
    assert!(seq.cuts().is_empty());
}

#[test]
fn sequence_errors_name_their_cause() {
    match PremiereSequence::new(&sequence("1", "n", "zero", "5", &[])) {
        Err(Error::Malformed(d)) => {
            assert_eq!(d.name_of_malformed, "MZ.WorkInPoint");
            assert_eq!(d.text, "zero");
        }
        _ => panic!("expected an unreadable work in point"),
    }
    match PremiereSequence::new(&sequence("1", "n", "9", "5", &[])) {
        Err(Error::Malformed(d)) => assert_eq!(d.name_of_malformed, "MZ.WorkOutPoint"),
        _ => panic!("expected a work area that ends before it starts"),
    }
    match PremiereSequence::new(&Element::new("Sequence").with_child(leaf("ID", "1"))) {
        Err(Error::NotFound(NotFoundError::Element(d))) => {
            assert_eq!(d.name_of_not_found, "Name");
            assert_eq!(d.in_elem, "Sequence");
        }
        _ => panic!("expected a missing Name"),
    }
}

#[test]
fn unreferenced_sequence_keeps_nothing_but_its_header() {
    let root = full_document().with_child(sequence("5", "Alone", "0", "254016000000", &["99"]));
    let mut reader = PremiereReader::new(root);
    assert!(reader.read().is_ok());
    let alone = &reader.sequences()[1];
    assert_eq!(alone.id(), 5);
    assert!(alone.cuts().is_empty());
    assert!(alone.timeline().items().is_empty());
    assert_eq!(alone.size(), Size { width: 0, height: 0 });
}

#[test]
fn aggregate_lists_causes_in_attempt_order() {
    let root = Element::new("PremiereData")
        .with_child(sequence("1", "A", "0", "1", &["11", "12"]))
        .with_child(sequence("2", "B", "0", "1", &["11"]))
        .with_child(Element::new("VideoTrackGroup").with_attr("ObjectID", "11"))
        .with_child(video_track_group("12", "0,0,1,1", "missing-track"));
    let mut reader = PremiereReader::new(root);
    match reader.read() {
        Err(Error::NotFound(NotFoundError::Multiple(d))) => {
            let names: Vec<String> = d
                .errors
                .iter()
                .map(|e| match e {
                    Error::NotFound(NotFoundError::Element(x)) => x.name_of_not_found.clone(),
                    _ => String::new(),
                })
                .collect();
            assert_eq!(names, vec!["FrameRect", "FrameRect", "missing-track"]);
        }
        _ => panic!("expected an aggregate"),
    }
}

#[test]
fn broken_media_link_is_named() {
    let root = Element::new("PremiereData")
        .with_child(video_track_group("10", "0,0,640,480", "track-uid"))
        .with_child(track("track-uid", &["20"]))
        .with_child(clip_item("20", "30", 0, T))
        .with_child(
            Element::new("SubClip")
                .with_attr("ObjectID", "30")
                .with_child(Element::new("Clip").with_attr("ObjectRef", "40"))
                .with_child(Element::new("MasterClip"))
                .with_child(leaf("Name", "clip")),
        )
        .with_child(
            Element::new("VideoClip").with_attr("ObjectID", "40").with_child(
                Element::new("Clip")
                    .with_child(Element::new("Source").with_attr("ObjectRef", "50")),
            ),
        )
        .with_child(
            Element::new("VideoMediaSource")
                .with_attr("ObjectID", "50")
                .with_child(Element::new("MediaSource")),
        );
    let vtg = root.get("VideoTrackGroup").unwrap();
    let mut seq = PremiereSequence::new(&sequence("1", "S", "0", "1", &["10"])).unwrap();
    let mut media = PremiereMedia::new();
    match parse_video_track_group(&root, vtg, &mut seq, &mut media) {
        Err(Error::NotFound(NotFoundError::Element(d))) => {
            assert_eq!(d.name_of_not_found, "Media");
            assert_eq!(d.in_elem, "MediaSource");
        }
        _ => panic!("expected a missing Media"),
    }
    assert!(seq.cuts().is_empty());
}
