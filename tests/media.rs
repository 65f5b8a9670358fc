use prproj::media::{PremiereMedia, PremiereMedium, Size};
use prproj::ticks::Span;
use prproj::TICKS_PER_SECOND;

fn medium(name: &str, path: &str, rate: u64) -> PremiereMedium {
    PremiereMedium::new(
        name.to_string(),
        path.to_string(),
        rate,
        TICKS_PER_SECOND,
        Size { width: 1920, height: 1080 },
    )
}

#[test]
fn equal_names_share_one_record() {
    let mut media = PremiereMedia::new();
    let a = media.insert(medium("clip.mp4", "/a/clip.mp4", 25));
    let b = media.insert(medium("clip.mp4", "/b/other.mp4", 30));
    assert_eq!(a, b);
    assert_eq!(media.len(), 1);
    assert_eq!(media.media()[a].filePath(), "/a/clip.mp4");
    assert_eq!(media.media()[a].frame_rate, 25);
}

#[test]
fn different_names_get_their_own_records() {
    let mut media = PremiereMedia::new();
    let a = media.insert(medium("one.mp4", "/one.mp4", 25));
    let b = media.insert(medium("two.mp4", "/two.mp4", 25));
    let c = media.insert(medium("one.mp4", "/three.mp4", 25));
    assert_eq!((a, b, c), (0, 1, 0));
    assert_eq!(media.len(), 2);
    assert_eq!(media.media()[1].fileName(), "two.mp4");
}

#[test]
fn media_compare_by_name() {
    assert!(medium("x", "/p", 1) == medium("x", "/q", 2));
    assert!(medium("x", "/p", 1) != medium("y", "/p", 1));
}

#[test]
fn ticks_convert_to_seconds() {
    assert_eq!(Span::from_ticks(TICKS_PER_SECOND), Span { secs: 1, nanos: 0 });
    assert_eq!(Span::from_ticks(TICKS_PER_SECOND / 2), Span { secs: 0, nanos: 500_000_000 });
    assert_eq!(Span::from_ticks(0), Span { secs: 0, nanos: 0 });
    assert_eq!(
        Span::from_ticks(3 * TICKS_PER_SECOND + 254_016),
        Span { secs: 3, nanos: 1000 }
    );
    assert_eq!(medium("m", "/m", 0).duration(), Span { secs: 1, nanos: 0 });
}
