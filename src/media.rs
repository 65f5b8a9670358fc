//! The media files that cuts show, kept once per file name.
use vstd::prelude::*;

use crate::ticks::{span_of, Span};

verus! {

/// A frame size in pixels.
#[derive(Clone, Copy, Debug, PartialEq, Eq, Structural)]
pub struct Size {
    pub width: u32,
    pub height: u32,
}

/// A media file: its name is its identity; the rest describes it.
/// `duration` is in ticks.
#[derive(Clone, Debug)]
pub struct PremiereMedium {
    pub file_name: String,
    pub file_path: String,
    pub frame_rate: u64,
    pub duration: u64,
    pub size: Size,
}

impl PremiereMedium {
    pub fn new(
        file_name: String,
        file_path: String,
        frame_rate: u64,
        duration: u64,
        size: Size,
    ) -> (r: Self)
        ensures
            r.file_name == file_name,
            r.file_path == file_path,
            r.frame_rate == frame_rate,
            r.duration == duration,
            r.size == size,
    {
        Self { file_name, file_path, frame_rate, duration, size }
    }

    #[allow(non_snake_case)]
    pub fn fileName(&self) -> (r: &str)
        ensures
            r@ == self.file_name@,
    {
        self.file_name.as_str()
    }

    #[allow(non_snake_case)]
    pub fn filePath(&self) -> (r: &str)
        ensures
            r@ == self.file_path@,
    {
        self.file_path.as_str()
    }

    /// The duration in seconds and nanoseconds.
    pub fn duration(&self) -> (r: Span)
        ensures
            r == span_of(self.duration),
    {
        Span::from_ticks(self.duration)
    }
}

impl PartialEq for PremiereMedium {
    fn eq(&self, other: &Self) -> (r: bool) {
        self.file_name == other.file_name
    }
}

impl vstd::std_specs::cmp::PartialEqSpecImpl for PremiereMedium {
    open spec fn obeys_eq_spec() -> bool {
        true
    }

    open spec fn eq_spec(&self, other: &Self) -> bool {
        self.file_name@ == other.file_name@
    }
}

/// The index of the first medium named `name` in `media`, from `i` on.
pub open spec fn index_of_name_from(media: Seq<PremiereMedium>, name: Seq<char>, i: int) -> Option<
    int,
>
    decreases media.len() - i,
{
    if i < 0 || i >= media.len() {
        None
    } else if media[i].file_name@ == name {
        Some(i)
    } else {
        index_of_name_from(media, name, i + 1)
    }
}

/// The index of the medium named `name` in `media`.
pub open spec fn index_of_name(media: Seq<PremiereMedium>, name: Seq<char>) -> Option<int> {
    index_of_name_from(media, name, 0)
}

/// No two media of `media` share a name.
pub open spec fn names_unique(media: Seq<PremiereMedium>) -> bool {
    forall|i: int, j: int|
        0 <= i < media.len() && 0 <= j < media.len() && i != j ==> #[trigger] media[i].file_name@
            != #[trigger] media[j].file_name@
}

/// The registry after `medium` is offered to `media`, and the index that
/// stands for it: the medium already there under its name, or `medium`
/// itself, added at the end.
pub open spec fn registered(media: Seq<PremiereMedium>, medium: PremiereMedium) -> (Seq<PremiereMedium>, int) {
    match index_of_name(media, medium.file_name@) {
        Some(i) => (media, i),
        None => (media.push(medium), media.len() as int),
    }
}

/// The media of a read, each name once. Cuts refer to a medium by its
/// index here.
#[derive(Debug)]
pub struct PremiereMedia {
    media: Vec<PremiereMedium>,
}

impl View for PremiereMedia {
    type V = Seq<PremiereMedium>;

    closed spec fn view(&self) -> Seq<PremiereMedium> {
        self.media@
    }
}

impl PremiereMedia {
    pub fn new() -> (r: Self)
        ensures
            r@.len() == 0,
    {
        PremiereMedia { media: Vec::new() }
    }

    /// How many media there are.
    pub fn len(&self) -> (r: usize)
        ensures
            r == self@.len(),
    {
        self.media.len()
    }

    /// The media, in the order they were first offered.
    pub fn media(&self) -> (r: &Vec<PremiereMedium>)
        ensures
            r@ == self@,
    {
        &self.media
    }

    /// Offers `medium`: a medium of the same name that is already here is
    /// kept as it is, and its index returned; otherwise `medium` is added.
    pub fn insert(&mut self, medium: PremiereMedium) -> (r: usize)
        requires
            names_unique(old(self)@),
        ensures
            (final(self)@, r as int) == registered(old(self)@, medium),
            names_unique(final(self)@),
    {
        let mut i: usize = 0;
        while i < self.media.len()
            invariant
                0 <= i <= self.media@.len(),
                self.media@ == old(self)@,
                names_unique(old(self)@),
                index_of_name(self.media@, medium.file_name@) == index_of_name_from(
                    self.media@,
                    medium.file_name@,
                    i as int,
                ),
            decreases self.media@.len() - i,
        {
            if self.media[i].file_name == medium.file_name {
                return i;
            }
            i = i + 1;
        }
        proof {
            lemma_index_of_name_from(self.media@, medium.file_name@, 0);
        }
        let r = self.media.len();
        self.media.push(medium);
        proof {
            assert forall|a: int, b: int|
                0 <= a < self.media@.len() && 0 <= b < self.media@.len() && a != b implies #[trigger] self.media@[a].file_name@
                != #[trigger] self.media@[b].file_name@ by {
                if a < r && b < r {
                    assert(old(self)@[a] == self.media@[a] && old(self)@[b] == self.media@[b]);
                } else if a == r {
                    assert(old(self)@[b].file_name@ != medium.file_name@);
                } else {
                    assert(old(self)@[a].file_name@ != medium.file_name@);
                }
            }
        }
        r
    }
}

proof fn lemma_index_of_name_from(media: Seq<PremiereMedium>, name: Seq<char>, i: int)
    requires
        0 <= i,
    ensures
        match index_of_name_from(media, name, i) {
            Some(k) => i <= k < media.len() && media[k].file_name@ == name && forall|j: int|
                i <= j < k ==> #[trigger] media[j].file_name@ != name,
            None => forall|j: int| i <= j < media.len() ==> #[trigger] media[j].file_name@ != name,
        },
    decreases media.len() - i,
{
    if i < media.len() && media[i].file_name@ != name {
        lemma_index_of_name_from(media, name, i + 1);
    }
}

pub proof fn lemma_index_of_name(media: Seq<PremiereMedium>, name: Seq<char>)
    ensures
        match index_of_name(media, name) {
            Some(k) => 0 <= k < media.len() && media[k].file_name@ == name && forall|j: int|
                0 <= j < k ==> #[trigger] media[j].file_name@ != name,
            None => forall|j: int| 0 <= j < media.len() ==> #[trigger] media[j].file_name@ != name,
        },
{
    lemma_index_of_name_from(media, name, 0);
}

/// Offering two media of one name, one after the other, gives one index
/// for both, and the second offer leaves the registry as the first left it,
/// whatever else the two media say.
pub proof fn lemma_insert_same_name_twice(
    media: Seq<PremiereMedium>,
    a: PremiereMedium,
    b: PremiereMedium,
)
    requires
        a.file_name@ == b.file_name@,
    ensures
        ({
            let (m1, h1) = registered(media, a);
            let (m2, h2) = registered(m1, b);
            &&& h1 == h2
            &&& m2 == m1
            &&& m1.len() <= media.len() + 1
            &&& m2[h2] == m1[h1]
        }),
{
    let (m1, h1) = registered(media, a);
    lemma_index_of_name(media, a.file_name@);
    lemma_index_of_name(m1, b.file_name@);
    if index_of_name(media, a.file_name@) is None {
        assert(m1[media.len() as int].file_name@ == b.file_name@);
        let k = index_of_name(m1, b.file_name@)->0;
        if k < media.len() {
            assert(m1[k] == media[k]);
        }
    } else {
        let k = index_of_name(media, a.file_name@)->0;
        assert(m1[k].file_name@ == b.file_name@);
    }
}

} // verus!
