//! What is visible when: windows of time, each naming the cut shown in it.
//! A window added later occludes the earlier ones where they overlap.
use vstd::prelude::*;

verus! {

/// The window `[start, end)` during which cut number `cut` is visible.
#[derive(Clone, Copy, Debug, PartialEq, Eq, Structural)]
pub struct TimelineItem {
    pub cut: usize,
    pub start: i128,
    pub end: i128,
}

impl TimelineItem {
    pub fn cut(&self) -> (r: usize)
        ensures
            r == self.cut,
    {
        self.cut
    }

    pub fn start(&self) -> (r: i128)
        ensures
            r == self.start,
    {
        self.start
    }

    pub fn end(&self) -> (r: i128)
        ensures
            r == self.end,
    {
        self.end
    }
}

/// Whether some instant lies strictly inside both windows.
pub open spec fn overlap(x: TimelineItem, y: TimelineItem) -> bool {
    &&& x.start < x.end
    &&& y.start < y.end
    &&& x.start < y.end
    &&& y.start < x.end
}

/// No instant lies strictly inside two windows of `tm`.
pub open spec fn disjoint(tm: Seq<TimelineItem>) -> bool {
    forall|i: int, j: int|
        0 <= i < tm.len() && 0 <= j < tm.len() && i != j ==> !overlap(
            #[trigger] tm[i],
            #[trigger] tm[j],
        )
}

/// `x` lies inside `y` and names the same cut.
pub open spec fn within(x: TimelineItem, y: TimelineItem) -> bool {
    x.cut == y.cut && y.start <= x.start && x.end <= y.end
}

/// What becomes of `it` when the window `[s, e)` is added: it is kept,
/// cut back to `s` when `s` falls strictly inside it, moved forward to `e`
/// when `e` falls strictly inside it, and dropped when `[s, e)` strictly
/// covers it.
pub open spec fn fitted(it: TimelineItem, s: i128, e: i128) -> Option<TimelineItem> {
    if s > it.end {
        Some(it)
    } else {
        let a = if it.start < s && s < it.end {
            TimelineItem { end: s, ..it }
        } else {
            it
        };
        let b = if a.start < e && e < a.end {
            TimelineItem { start: e, ..a }
        } else {
            a
        };
        if s < b.start && b.end < e {
            None
        } else {
            Some(b)
        }
    }
}

/// `fitted` keeps `it` but moves its start (forward, to the new end).
pub open spec fn is_moved(it: TimelineItem, s: i128, e: i128) -> bool {
    fitted(it, s, e) matches Some(x) && x.start != it.start
}

/// What `fitted` keeps of the items of `tm`, in order: those whose start
/// moved when `moved` holds, the others otherwise.
pub open spec fn fit_part(tm: Seq<TimelineItem>, s: i128, e: i128, moved: bool) -> Seq<TimelineItem>
    decreases tm.len(),
{
    if tm.len() == 0 {
        seq![]
    } else {
        let rest = fit_part(tm.drop_last(), s, e, moved);
        match fitted(tm.last(), s, e) {
            Some(x) => if (x.start != tm.last().start) == moved {
                rest.push(x)
            } else {
                rest
            },
            None => rest,
        }
    }
}

/// The items of `tm` fitted around `[s, e)`: those whose start stayed, in
/// order, with those whose start moved to `e` placed at `pos` among them.
pub open spec fn refit(tm: Seq<TimelineItem>, s: i128, e: i128, pos: int) -> Seq<TimelineItem> {
    let kept = fit_part(tm, s, e, false);
    kept.subrange(0, pos) + fit_part(tm, s, e, true) + kept.subrange(pos, kept.len() as int)
}

/// `pos` is a place in `tm` where an item starting at `s` keeps the order
/// by start with its neighbours.
pub open spec fn is_insert_position(tm: Seq<TimelineItem>, s: i128, pos: int) -> bool {
    &&& 0 <= pos <= tm.len()
    &&& pos == 0 || tm[pos - 1].start <= s
    &&& pos == tm.len() || s < tm[pos].start
}

/// The windows of `tm` start in non-decreasing order.
pub open spec fn sorted_by_start(tm: Seq<TimelineItem>) -> bool {
    forall|i: int, j: int| 0 <= i < j < tm.len() ==> #[trigger] tm[i].start <= #[trigger] tm[j].start
}

/// `after` is `before` once `item` has been added: an empty or reversed
/// window changes nothing; any other is placed after the windows that
/// start no later, every window is fitted around it, and the windows whose
/// start moved are put back in order by start.
pub open spec fn added(before: Seq<TimelineItem>, after: Seq<TimelineItem>, item: TimelineItem) -> bool {
    if item.start >= item.end {
        after == before
    } else {
        exists|pos: int, pos2: int|
            #[trigger] is_insert_position(before, item.start, pos) && #[trigger] is_insert_position(
                fit_part(before.insert(pos, item), item.start, item.end, false),
                item.end,
                pos2,
            ) && after == refit(before.insert(pos, item), item.start, item.end, pos2)
    }
}

/// Adding `[s, e)` would leave an item of `tm` that `[s, e)` covers and
/// shares an end point with: such an item is neither cut nor dropped.
pub open spec fn keeps_covered(tm: Seq<TimelineItem>, s: i128, e: i128) -> bool {
    s < e && exists|i: int|
        0 <= i < tm.len() && tm[i].start < tm[i].end && s <= tm[i].start && tm[i].end <= e && (
        s == tm[i].start || tm[i].end == e)
}

/// The visible windows, sorted by start.
#[derive(Debug)]
pub struct Timeline {
    tm: Vec<TimelineItem>,
}

impl View for Timeline {
    type V = Seq<TimelineItem>;

    closed spec fn view(&self) -> Seq<TimelineItem> {
        self.tm@
    }
}

/// A place in `tm` for an item starting at `x`, found by binary search.
fn insert_position(tm: &Vec<TimelineItem>, x: i128) -> (r: usize)
    ensures
        is_insert_position(tm@, x, r as int),
{
    let mut lo: usize = 0;
    let mut hi: usize = tm.len();
    while lo < hi
        invariant
            0 <= lo <= hi <= tm@.len(),
            lo == 0 || tm@[lo - 1].start <= x,
            hi == tm@.len() || x < tm@[hi as int].start,
        decreases hi - lo,
    {
        let mid = lo + (hi - lo) / 2;
        if tm[mid].start <= x {
            lo = mid + 1;
        } else {
            hi = mid;
        }
    }
    lo
}

/// Every window of `tm` is non-empty.
pub open spec fn all_nonempty(tm: Seq<TimelineItem>) -> bool {
    forall|i: int| 0 <= i < tm.len() ==> (#[trigger] tm[i]).start < tm[i].end
}

impl Timeline {
    /// The windows are non-empty and sorted by start.
    pub open spec fn wf(&self) -> bool {
        sorted_by_start(self@) && all_nonempty(self@)
    }

    pub fn new() -> (r: Timeline)
        ensures
            r@ == Seq::<TimelineItem>::empty(),
            r.wf(),
    {
        Timeline { tm: Vec::new() }
    }

    /// The windows, in order.
    pub fn items(&self) -> (r: &Vec<TimelineItem>)
        ensures
            r@ == self@,
    {
        &self.tm
    }

    /// Adds the window `[start, end)` of cut number `cut`. An empty or
    /// reversed window is not added. Otherwise it is placed after the
    /// windows that start no later, every window is fitted around it, and
    /// windows whose start moved are put back in order by start.
    pub fn add(&mut self, cut: usize, start: i128, end: i128)
        ensures
            added(old(self)@, final(self)@, TimelineItem { cut, start, end }),
            sorted_by_start(old(self)@) ==> sorted_by_start(final(self)@),
            all_nonempty(old(self)@) ==> all_nonempty(final(self)@),
            old(self).wf() ==> final(self).wf(),
    {
        if start >= end {
            return;
        }
        let item = TimelineItem { cut, start, end };
        let ghost before = self@;
        let pos = insert_position(&self.tm, start);
        self.tm.insert(pos, item);
        let pos2 = self.fit(start, end);
        let ghost src = before.insert(pos as int, item);
        assert(is_insert_position(before, item.start, pos as int) && is_insert_position(
            fit_part(src, item.start, item.end, false),
            item.end,
            pos2 as int,
        ) && self@ == refit(src, item.start, item.end, pos2 as int));
        assert(added(before, self@, item));
        proof {
            if sorted_by_start(before) {
                lemma_refit_sorted(before, pos as int, item, pos2 as int);
            }
            if all_nonempty(before) {
                lemma_refit_nonempty(before, pos as int, item, pos2 as int);
            }
        }
    }

    /// Fits every window around the newly added `[start, end)`, and puts
    /// the windows whose start moved back in order; answers where they went.
    fn fit(&mut self, start: i128, end: i128) -> (pos: usize)
        ensures
            is_insert_position(fit_part(old(self)@, start, end, false), end, pos as int),
            final(self)@ == refit(old(self)@, start, end, pos as int),
    {
        let mut kept: Vec<TimelineItem> = Vec::new();
        let mut moved: Vec<TimelineItem> = Vec::new();
        let mut i: usize = 0;
        while i < self.tm.len()
            invariant
                0 <= i <= self.tm@.len(),
                kept@ == fit_part(self.tm@.subrange(0, i as int), start, end, false),
                moved@ == fit_part(self.tm@.subrange(0, i as int), start, end, true),
            decreases self.tm@.len() - i,
        {
            let it = self.tm[i];
            proof {
                assert(self.tm@.subrange(0, i + 1).drop_last() =~= self.tm@.subrange(0, i as int));
            }
            match fit_item(it, start, end) {
                Some(x) => {
                    if x.start != it.start {
                        moved.push(x);
                    } else {
                        kept.push(x);
                    }
                },
                None => {},
            }
            i = i + 1;
        }
        proof {
            assert(self.tm@.subrange(0, i as int) =~= self.tm@);
        }
        let pos = insert_position(&kept, end);
        let ghost k = kept@;
        let mut tail = kept.split_off(pos);
        kept.append(&mut moved);
        kept.append(&mut tail);
        assert(kept@ =~= refit(self.tm@, start, end, pos as int));
        self.tm = kept;
        pos
    }
}

fn fit_item(it: TimelineItem, s: i128, e: i128) -> (r: Option<TimelineItem>)
    ensures
        r == fitted(it, s, e),
{
    if s > it.end {
        return Some(it);
    }
    let mut x = it;
    if x.start < s && s < x.end {
        x.end = s;
    }
    if x.start < e && e < x.end {
        x.start = e;
    }
    if s < x.start && x.end < e {
        None
    } else {
        Some(x)
    }
}

/// What `fitted` keeps of an item lies inside it; when its start moved, it
/// moved to `e`.
proof fn lemma_fitted_within(it: TimelineItem, s: i128, e: i128)
    ensures
        fitted(it, s, e) matches Some(x) ==> within(x, it) && (x.start != it.start ==> x.start
            == e),
{
}

/// The window `[s, e)` itself comes through `fitted` unchanged.
proof fn lemma_fitted_self(it: TimelineItem)
    requires
        it.start < it.end,
    ensures
        fitted(it, it.start, it.end) == Some(it),
{
}

/// What `fitted` keeps of an item overlaps `[s, e)` only in the case that
/// `keeps_covered` names.
proof fn lemma_fitted_clear(it: TimelineItem, n: TimelineItem)
    requires
        n.start < n.end,
        !(it.start < it.end && n.start <= it.start && it.end <= n.end && (n.start == it.start
            || it.end == n.end)),
    ensures
        fitted(it, n.start, n.end) matches Some(x) ==> !overlap(x, n),
{
}

/// Each item of a part of `src` is what `fitted` keeps of an item of `src`
/// that belongs to that part.
proof fn lemma_part_source(src: Seq<TimelineItem>, s: i128, e: i128, m: bool)
    ensures
        fit_part(src, s, e, m).len() <= src.len(),
        forall|j: int|
            0 <= j < fit_part(src, s, e, m).len() ==> exists|k: int|
                0 <= k < src.len() && fitted(src[k], s, e) == Some(
                    #[trigger] fit_part(src, s, e, m)[j],
                ) && ((fit_part(src, s, e, m)[j].start != src[k].start) == m),
    decreases src.len(),
{
    if src.len() > 0 {
        let p = src.drop_last();
        lemma_part_source(p, s, e, m);
        let r = fit_part(src, s, e, m);
        let rp = fit_part(p, s, e, m);
        assert forall|j: int| 0 <= j < r.len() implies exists|k: int|
            0 <= k < src.len() && fitted(src[k], s, e) == Some(#[trigger] r[j]) && ((r[j].start
                != src[k].start) == m) by {
            if j < rp.len() {
                assert(r[j] == rp[j]);
                let k = choose|k: int|
                    0 <= k < p.len() && fitted(p[k], s, e) == Some(rp[j]) && ((rp[j].start
                        != p[k].start) == m);
                assert(src[k] == p[k]);
            } else {
                assert(src[src.len() - 1] == src.last());
            }
        }
    }
}

/// Distinct items of `src` stay clear of each other once fitted.
pub open spec fn clear_pairs(src: Seq<TimelineItem>, s: i128, e: i128) -> bool {
    forall|k1: int, k2: int|
        0 <= k1 < src.len() && 0 <= k2 < src.len() && k1 != k2 ==> (fitted(
            #[trigger] src[k1],
            s,
            e,
        ) matches Some(x1) ==> (fitted(#[trigger] src[k2], s, e) matches Some(x2) ==> !overlap(
            x1,
            x2,
        )))
}

/// When the items of `src` stay clear of each other once fitted, each part
/// is disjoint.
proof fn lemma_part_disjoint(src: Seq<TimelineItem>, s: i128, e: i128, m: bool)
    requires
        clear_pairs(src, s, e),
    ensures
        disjoint(fit_part(src, s, e, m)),
    decreases src.len(),
{
    if src.len() > 0 {
        let p = src.drop_last();
        assert forall|k1: int, k2: int|
            0 <= k1 < p.len() && 0 <= k2 < p.len() && k1 != k2 implies (fitted(
            #[trigger] p[k1],
            s,
            e,
        ) matches Some(x1) ==> (fitted(#[trigger] p[k2], s, e) matches Some(x2) ==> !overlap(
            x1,
            x2,
        ))) by {
            assert(p[k1] == src[k1]);
            assert(p[k2] == src[k2]);
        }
        lemma_part_disjoint(p, s, e, m);
        lemma_part_source(p, s, e, m);
        let rp = fit_part(p, s, e, m);
        let last = src.len() - 1;
        assert(src[last] == src.last());
        match fitted(src.last(), s, e) {
            Some(x) => {
                if (x.start != src.last().start) == m {
                    let r = rp.push(x);
                    assert forall|i: int, j: int|
                        0 <= i < r.len() && 0 <= j < r.len() && i != j implies !overlap(
                        #[trigger] r[i],
                        #[trigger] r[j],
                    ) by {
                        if i < rp.len() && j < rp.len() {
                            assert(r[i] == rp[i] && r[j] == rp[j]);
                        } else if i < rp.len() {
                            assert(r[i] == rp[i]);
                            let k = choose|k: int|
                                0 <= k < p.len() && fitted(p[k], s, e) == Some(rp[i]) && ((
                                rp[i].start != p[k].start) == m);
                            assert(src[k] == p[k]);
                        } else {
                            assert(r[j] == rp[j]);
                            let k = choose|k: int|
                                0 <= k < p.len() && fitted(p[k], s, e) == Some(rp[j]) && ((
                                rp[j].start != p[k].start) == m);
                            assert(src[k] == p[k]);
                        }
                    }
                }
            },
            None => {},
        }
    }
}

/// The fitted result is disjoint when both parts are, and no kept window
/// overlaps a moved one.
proof fn lemma_refit_disjoint(src: Seq<TimelineItem>, s: i128, e: i128, pos: int)
    requires
        clear_pairs(src, s, e),
        0 <= pos <= fit_part(src, s, e, false).len(),
    ensures
        disjoint(refit(src, s, e, pos)),
{
    let k = fit_part(src, s, e, false);
    let m = fit_part(src, s, e, true);
    lemma_part_disjoint(src, s, e, false);
    lemma_part_disjoint(src, s, e, true);
    lemma_part_source(src, s, e, false);
    lemma_part_source(src, s, e, true);
    assert forall|a: int, b: int| 0 <= a < k.len() && 0 <= b < m.len() implies !overlap(
        #[trigger] k[a],
        #[trigger] m[b],
    ) by {
        let ka = choose|x: int|
            0 <= x < src.len() && fitted(src[x], s, e) == Some(k[a]) && ((k[a].start
                != src[x].start) == false);
        let kb = choose|x: int|
            0 <= x < src.len() && fitted(src[x], s, e) == Some(m[b]) && ((m[b].start
                != src[x].start) == true);
        assert(ka != kb);
    }
    let r = refit(src, s, e, pos);
    assert forall|i: int, j: int| 0 <= i < r.len() && 0 <= j < r.len() && i != j implies !overlap(
        #[trigger] r[i],
        #[trigger] r[j],
    ) by {
        let ml = m.len() as int;
        if i < pos {
            assert(r[i] == k[i]);
        } else if i < pos + ml {
            assert(r[i] == m[i - pos]);
        } else {
            assert(r[i] == k[i - ml]);
        }
        if j < pos {
            assert(r[j] == k[j]);
        } else if j < pos + ml {
            assert(r[j] == m[j - pos]);
        } else {
            assert(r[j] == k[j - ml]);
        }
    }
}

/// Adding a window keeps a timeline free of overlaps, unless it covers an
/// item with which it shares an end point: at most one window is visible
/// at any instant.
pub proof fn lemma_add_keeps_disjoint(
    before: Seq<TimelineItem>,
    after: Seq<TimelineItem>,
    item: TimelineItem,
)
    requires
        disjoint(before),
        added(before, after, item),
        !keeps_covered(before, item.start, item.end),
    ensures
        disjoint(after),
{
    if item.start < item.end {
        let (pos, pos2) = choose|pos: int, pos2: int|
            #[trigger] is_insert_position(before, item.start, pos) && #[trigger] is_insert_position(
                fit_part(before.insert(pos, item), item.start, item.end, false),
                item.end,
                pos2,
            ) && after == refit(before.insert(pos, item), item.start, item.end, pos2);
        let src = before.insert(pos, item);
        let s = item.start;
        let e = item.end;
        assert forall|k1: int, k2: int|
            0 <= k1 < src.len() && 0 <= k2 < src.len() && k1 != k2 implies (fitted(
            #[trigger] src[k1],
            s,
            e,
        ) matches Some(x1) ==> (fitted(#[trigger] src[k2], s, e) matches Some(x2) ==> !overlap(
            x1,
            x2,
        ))) by {
            lemma_fitted_within(src[k1], s, e);
            lemma_fitted_within(src[k2], s, e);
            if k1 != pos && k2 != pos {
                let i1 = if k1 < pos {
                    k1
                } else {
                    k1 - 1
                };
                let i2 = if k2 < pos {
                    k2
                } else {
                    k2 - 1
                };
                assert(src[k1] == before[i1]);
                assert(src[k2] == before[i2]);
                assert(!overlap(before[i1], before[i2]));
            } else if k1 == pos {
                assert(src[k1] == item);
                let i2 = if k2 < pos {
                    k2
                } else {
                    k2 - 1
                };
                assert(src[k2] == before[i2]);
                lemma_fitted_self(item);
                lemma_fitted_clear(before[i2], item);
            } else {
                assert(src[k2] == item);
                let i1 = if k1 < pos {
                    k1
                } else {
                    k1 - 1
                };
                assert(src[k1] == before[i1]);
                lemma_fitted_self(item);
                lemma_fitted_clear(before[i1], item);
            }
        }
        lemma_refit_disjoint(src, s, e, pos2);
    }
}

/// Adding a window never widens a window already there: every window
/// afterwards lies inside the added one or inside an earlier window of the
/// same cut. Earlier windows are only cut back or dropped.
pub proof fn lemma_add_only_trims(
    before: Seq<TimelineItem>,
    after: Seq<TimelineItem>,
    item: TimelineItem,
)
    requires
        added(before, after, item),
    ensures
        after.len() <= before.len() + 1,
        forall|j: int|
            0 <= j < after.len() ==> within(#[trigger] after[j], item) || exists|k: int|
                0 <= k < before.len() && within(after[j], before[k]),
{
    if item.start >= item.end {
        assert forall|j: int| 0 <= j < after.len() implies within(#[trigger] after[j], item)
            || exists|k: int| 0 <= k < before.len() && within(after[j], before[k]) by {
            assert(within(before[j], before[j]));
        }
    } else {
        let (pos, pos2) = choose|pos: int, pos2: int|
            #[trigger] is_insert_position(before, item.start, pos) && #[trigger] is_insert_position(
                fit_part(before.insert(pos, item), item.start, item.end, false),
                item.end,
                pos2,
            ) && after == refit(before.insert(pos, item), item.start, item.end, pos2);
        let src = before.insert(pos, item);
        let kp = fit_part(src, item.start, item.end, false);
        let mp = fit_part(src, item.start, item.end, true);
        lemma_part_source(src, item.start, item.end, false);
        lemma_part_source(src, item.start, item.end, true);
        lemma_parts_count(src, item.start, item.end);
        assert forall|j: int| 0 <= j < after.len() implies within(#[trigger] after[j], item)
            || exists|k: int| 0 <= k < before.len() && within(after[j], before[k]) by {
            let ml = mp.len() as int;
            let x = if j < pos2 {
                kp[j]
            } else if j < pos2 + ml {
                mp[j - pos2]
            } else {
                kp[j - ml]
            };
            assert(after[j] == x);
            let k = if j < pos2 || j >= pos2 + ml {
                let jj = if j < pos2 {
                    j
                } else {
                    j - ml
                };
                choose|k: int|
                    0 <= k < src.len() && fitted(src[k], item.start, item.end) == Some(kp[jj])
                        && ((kp[jj].start != src[k].start) == false)
            } else {
                choose|k: int|
                    0 <= k < src.len() && fitted(src[k], item.start, item.end) == Some(mp[j - pos2])
                        && ((mp[j - pos2].start != src[k].start) == true)
            };
            lemma_fitted_within(src[k], item.start, item.end);
            if k < pos {
                assert(src[k] == before[k]);
            } else if k > pos {
                assert(src[k] == before[k - 1]);
            }
        }
    }
}

/// The two parts together hold at most one window per item.
proof fn lemma_parts_count(src: Seq<TimelineItem>, s: i128, e: i128)
    ensures
        fit_part(src, s, e, false).len() + fit_part(src, s, e, true).len() <= src.len(),
    decreases src.len(),
{
    if src.len() > 0 {
        lemma_parts_count(src.drop_last(), s, e);
    }
}

/// Adding a window to a timeline sorted by start leaves it sorted by start.
proof fn lemma_refit_sorted(before: Seq<TimelineItem>, pos: int, item: TimelineItem, pos2: int)
    requires
        sorted_by_start(before),
        item.start < item.end,
        is_insert_position(before, item.start, pos),
        is_insert_position(
            fit_part(before.insert(pos, item), item.start, item.end, false),
            item.end,
            pos2,
        ),
    ensures
        sorted_by_start(refit(before.insert(pos, item), item.start, item.end, pos2)),
{
    let src = before.insert(pos, item);
    assert forall|i: int, j: int| 0 <= i < j < src.len() implies #[trigger] src[i].start
        <= #[trigger] src[j].start by {
        if j < pos {
            assert(src[i] == before[i] && src[j] == before[j]);
        } else if j == pos {
            assert(src[i] == before[i]);
            assert(before[i].start <= before[pos - 1].start);
        } else if i > pos {
            assert(src[i] == before[i - 1] && src[j] == before[j - 1]);
        } else if i == pos {
            assert(src[j] == before[j - 1]);
            assert(before[pos].start <= before[j - 1].start);
        } else {
            assert(src[i] == before[i] && src[j] == before[j - 1]);
        }
    }
    lemma_kept_sorted(src, item.start, item.end);
    lemma_part_source(src, item.start, item.end, true);
    let k = fit_part(src, item.start, item.end, false);
    let m = fit_part(src, item.start, item.end, true);
    assert forall|b: int| 0 <= b < m.len() implies (#[trigger] m[b]).start == item.end by {
        let x = choose|x: int|
            0 <= x < src.len() && fitted(src[x], item.start, item.end) == Some(m[b]) && ((
            m[b].start != src[x].start) == true);
        lemma_fitted_within(src[x], item.start, item.end);
    }
    let r = refit(src, item.start, item.end, pos2);
    let ml = m.len() as int;
    assert forall|i: int, j: int| 0 <= i < j < r.len() implies #[trigger] r[i].start
        <= #[trigger] r[j].start by {
        if i < pos2 {
            assert(r[i] == k[i]);
            assert(k[i].start <= k[pos2 - 1].start);
        } else if i < pos2 + ml {
            assert(r[i] == m[i - pos2]);
        } else {
            assert(r[i] == k[i - ml]);
        }
        if j < pos2 {
            assert(r[j] == k[j]);
        } else if j < pos2 + ml {
            assert(r[j] == m[j - pos2]);
        } else {
            assert(r[j] == k[j - ml]);
            assert(k[pos2].start <= k[j - ml].start);
        }
    }
}

/// The windows whose start stayed keep the order of their items.
proof fn lemma_kept_sorted(src: Seq<TimelineItem>, s: i128, e: i128)
    requires
        sorted_by_start(src),
    ensures
        sorted_by_start(fit_part(src, s, e, false)),
    decreases src.len(),
{
    if src.len() > 0 {
        let p = src.drop_last();
        assert(sorted_by_start(p)) by {
            assert forall|i: int, j: int| 0 <= i < j < p.len() implies #[trigger] p[i].start
                <= #[trigger] p[j].start by {
                assert(p[i] == src[i] && p[j] == src[j]);
            }
        }
        lemma_kept_sorted(p, s, e);
        lemma_part_source(p, s, e, false);
        let rp = fit_part(p, s, e, false);
        match fitted(src.last(), s, e) {
            Some(x) => {
                if x.start == src.last().start {
                    let r = rp.push(x);
                    assert forall|i: int, j: int| 0 <= i < j < r.len() implies #[trigger] r[i].start
                        <= #[trigger] r[j].start by {
                        assert(r[i] == rp[i]);
                        if j < rp.len() {
                            assert(r[j] == rp[j]);
                        } else {
                            let k = choose|k: int|
                                0 <= k < p.len() && fitted(p[k], s, e) == Some(rp[i]) && ((
                                rp[i].start != p[k].start) == false);
                            assert(p[k] == src[k]);
                            assert(src[k].start <= src[src.len() - 1].start);
                        }
                    }
                }
            },
            None => {},
        }
    }
}

/// Fitting keeps every window non-empty.
proof fn lemma_refit_nonempty(before: Seq<TimelineItem>, pos: int, item: TimelineItem, pos2: int)
    requires
        all_nonempty(before),
        item.start < item.end,
        0 <= pos <= before.len(),
        0 <= pos2 <= fit_part(before.insert(pos, item), item.start, item.end, false).len(),
    ensures
        all_nonempty(refit(before.insert(pos, item), item.start, item.end, pos2)),
{
    let src = before.insert(pos, item);
    let s = item.start;
    let e = item.end;
    let k = fit_part(src, s, e, false);
    let m = fit_part(src, s, e, true);
    lemma_part_source(src, s, e, false);
    lemma_part_source(src, s, e, true);
    assert forall|x: int| 0 <= x < src.len() implies (fitted(#[trigger] src[x], s, e) matches Some(
        y,
    ) ==> y.start < y.end) by {
        if x < pos {
            assert(src[x] == before[x]);
        } else if x > pos {
            assert(src[x] == before[x - 1]);
        }
    }
    let r = refit(src, s, e, pos2);
    let ml = m.len() as int;
    assert forall|i: int| 0 <= i < r.len() implies (#[trigger] r[i]).start < r[i].end by {
        if i < pos2 || i >= pos2 + ml {
            let j = if i < pos2 {
                i
            } else {
                i - ml
            };
            assert(r[i] == k[j]);
            let x = choose|x: int|
                0 <= x < src.len() && fitted(src[x], s, e) == Some(k[j]) && ((k[j].start
                    != src[x].start) == false);
        } else {
            assert(r[i] == m[i - pos2]);
            let x = choose|x: int|
                0 <= x < src.len() && fitted(src[x], s, e) == Some(m[i - pos2]) && ((m[i
                    - pos2].start != src[x].start) == true);
        }
    }
}

} // verus!
