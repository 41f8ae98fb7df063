//! Exclusions: a partition of the vertical axis into bands, each recording
//! how far obstacles intrude from the left and right margins, stored in a
//! `SplayMap` keyed by band start.  Placement queries find the lowest band
//! wide enough for a box; registration splits the covering band and
//! propagates the new intrusion upward while it deepens the bands it meets.

use crate::map::cut_at;
use crate::map::judged_by;
use crate::map::lt;
use crate::map::seq_put;
use crate::map::sorted_pairs;
use crate::map::Cmp;
use crate::map::SplayMap;
use crate::map::TotalOrder;
use vstd::prelude::*;

verus! {

/// A length or coordinate in app units: a signed integral unit.
#[derive(Clone, Copy, PartialEq, Eq, Structural, Debug, Hash)]
pub struct Au(pub i32);

/// The sentinel coordinate marking an open-ended interval.
pub const MAX_AU: i32 = 0x7fff_ffff;

/// Bound on inline sizes and intrusion depths, so that sums of an inline
/// size and two intrusions always fit the unit type.
pub const MAX_SPAN: i32 = 0x2000_0000;

impl TotalOrder for Au {
    open spec fn le(self, other: Self) -> bool {
        self.0 <= other.0
    }

    proof fn lemma_connex(a: Self, b: Self) {
    }

    proof fn lemma_antisymmetric(a: Self, b: Self) {
    }

    proof fn lemma_transitive(a: Self, b: Self, c: Self) {
    }

    fn compare(&self, other: &Self) -> (c: Cmp) {
        if self.0 == other.0 {
            Cmp::Equal
        } else if self.0 < other.0 {
            Cmp::Less
        } else {
            Cmp::Greater
        }
    }
}

/// Which margin an exclusion or placement is anchored to.
#[derive(Clone, Copy, PartialEq, Eq, Structural, Debug)]
pub enum Side {
    Left,
    Right,
}

/// An (inline, block) coordinate: inline is horizontal, block vertical.
#[derive(Clone, Copy, PartialEq, Eq, Structural, Debug)]
pub struct Point {
    pub inline: Au,
    pub block: Au,
}

/// An (inline, block) extent pair.
#[derive(Clone, Copy, PartialEq, Eq, Structural, Debug)]
pub struct Size {
    pub inline: Au,
    pub block: Au,
}

impl Size {
    /// Bundles the two extents.
    pub fn new(inline: Au, block: Au) -> (s: Size)
        ensures
            s == (Size { inline, block }),
    {
        Size { inline, block }
    }
}

/// A maximal vertical interval over which both intrusions are constant.
/// Intrusions are stored negated: a band `left` of `-200` means obstacles
/// cover the leftmost 200 units.
#[derive(Clone, Copy, PartialEq, Eq, Structural, Debug)]
pub struct Band {
    pub left: Au,
    pub right: Au,
    pub length: Au,
}

/// The stored intrusion offset of a band on one side.
pub open spec fn side_of(b: Band, side: Side) -> Au {
    match side {
        Side::Left => b.left,
        Side::Right => b.right,
    }
}

/// The band with one side's intrusion offset replaced.
pub open spec fn with_side(b: Band, side: Side, v: Au) -> Band {
    match side {
        Side::Left => Band { left: v, ..b },
        Side::Right => Band { right: v, ..b },
    }
}

impl Band {
    /// Bundles the three fields.
    pub fn new(left: Au, right: Au, length: Au) -> (b: Band)
        ensures
            b == (Band { left, right, length }),
    {
        Band { left, right, length }
    }

    /// Width left for boxes in this band, given the total inline size.
    pub fn available_size(&self, inline_size: Au) -> (r: Au)
        requires
            i32::MIN <= inline_size.0 + self.left.0 + self.right.0 <= i32::MAX,
        ensures
            r.0 == inline_size.0 + self.left.0 + self.right.0,
    {
        let wide: i64 = inline_size.0 as i64 + self.left.0 as i64 + self.right.0 as i64;
        Au(wide as i32)
    }

    /// Reads the intrusion offset of one side.
    pub fn get(&self, side: Side) -> (r: Au)
        ensures
            r == side_of(*self, side),
    {
        match side {
            Side::Left => self.left,
            Side::Right => self.right,
        }
    }

    /// Writes the intrusion offset of one side.
    pub fn set(&mut self, side: Side, inline_size: Au)
        ensures
            *final(self) == with_side(*old(self), side, inline_size),
    {
        match side {
            Side::Left => self.left = inline_size,
            Side::Right => self.right = inline_size,
        }
    }
}

/// The bands tile `[0, MAX_AU)`: the first starts at zero, each ends where
/// the next begins, every band is non-empty, and exactly the last one ends
/// at the sentinel.
pub open spec fn bands_partition(s: Seq<(Au, Band)>) -> bool {
    &&& s.len() >= 1
    &&& s[0].0.0 == 0
    &&& forall|i: int|
        0 <= i < s.len() - 1 ==> (#[trigger] s[i]).0.0 + s[i].1.length.0 == s[i + 1].0.0
    &&& s[s.len() - 1].0.0 + s[s.len() - 1].1.length.0 == MAX_AU
    &&& forall|i: int| 0 <= i < s.len() ==> (#[trigger] s[i]).1.length.0 >= 1
}

/// Every intrusion offset lies in `[-MAX_SPAN, 0]`.
pub open spec fn bands_bounded(s: Seq<(Au, Band)>) -> bool {
    forall|i: int|
        0 <= i < s.len() ==> {
            &&& -MAX_SPAN <= (#[trigger] s[i]).1.left.0 <= 0
            &&& -MAX_SPAN <= s[i].1.right.0 <= 0
        }
}

/// Basic geometry of a band partition: starts grow at least one per band,
/// all ends stay at or below the sentinel, and only the last band reaches it.
proof fn lemma_band_geometry(s: Seq<(Au, Band)>)
    requires
        bands_partition(s),
    ensures
        forall|i: int| 0 <= i < s.len() ==> i <= (#[trigger] s[i]).0.0,
        forall|i: int|
            0 <= i < s.len() ==> (#[trigger] s[i]).0.0 + s[i].1.length.0 <= MAX_AU,
        forall|i: int|
            0 <= i < s.len() - 1 ==> (#[trigger] s[i]).0.0 + s[i].1.length.0 < MAX_AU,
        forall|i: int, j: int|
            0 <= i < j < s.len() ==> (#[trigger] s[i]).0.0 + s[i].1.length.0 <= (#[trigger] s[j]).0.0,
        s.len() <= MAX_AU,
{
    assert forall|i: int| 0 <= i < s.len() implies i <= (#[trigger] s[i]).0.0 by {
        lemma_band_start_lb(s, i);
    }
    assert forall|i: int, j: int|
        0 <= i < j < s.len() implies (#[trigger] s[i]).0.0 + s[i].1.length.0 <= (
    #[trigger] s[j]).0.0 by {
        lemma_band_end_le(s, i, j);
    }
    assert forall|i: int|
        0 <= i < s.len() implies (#[trigger] s[i]).0.0 + s[i].1.length.0 <= MAX_AU by {
        if i < s.len() - 1 {
            lemma_band_end_le(s, i, s.len() - 1);
        }
    }
    assert(s[s.len() - 1].0.0 >= s.len() - 1) by {
        lemma_band_start_lb(s, s.len() - 1);
    }
}

proof fn lemma_band_start_lb(s: Seq<(Au, Band)>, i: int)
    requires
        bands_partition(s),
        0 <= i < s.len(),
    ensures
        i <= s[i].0.0,
    decreases i,
{
    if i > 0 {
        lemma_band_start_lb(s, i - 1);
    }
}

proof fn lemma_band_end_le(s: Seq<(Au, Band)>, i: int, j: int)
    requires
        bands_partition(s),
        0 <= i < j < s.len(),
    ensures
        s[i].0.0 + s[i].1.length.0 <= s[j].0.0,
    decreases j - i,
{
    if i + 1 < j {
        lemma_band_end_le(s, i + 1, j);
    }
}

/// The index of the band covering `pos` under the `[start, end)` convention.
proof fn lemma_find_band(s: Seq<(Au, Band)>, pos: int, i: int) -> (m: int)
    requires
        bands_partition(s),
        0 <= i < s.len(),
        s[i].0.0 <= pos < MAX_AU,
    ensures
        i <= m < s.len(),
        s[m].0.0 <= pos < s[m].0.0 + s[m].1.length.0,
    decreases s.len() - i,
{
    if pos < s[i].0.0 + s[i].1.length.0 {
        i
    } else {
        lemma_find_band(s, pos, i + 1)
    }
}

/// A vertical partition of bands with a fixed total inline size.
pub struct Exclusions {
    bands: SplayMap<Au, Band>,
    inline_size: Au,
}

impl Exclusions {
    /// The bands, as (start, band) pairs in ascending start order.
    pub closed spec fn band_seq(self) -> Seq<(Au, Band)> {
        self.bands.in_order()
    }

    /// The fixed horizontal extent.
    pub closed spec fn spec_inline_size(self) -> Au {
        self.inline_size
    }

    /// The structure's invariant: a well-formed map holding a bounded
    /// partition, and an inline size within the representable span.
    pub closed spec fn wf(self) -> bool {
        &&& self.bands.wf()
        &&& bands_partition(self.band_seq())
        &&& bands_bounded(self.band_seq())
        &&& 0 <= self.inline_size.0 <= MAX_SPAN
    }

    /// One open-ended band over the whole axis, with no intrusion.
    pub fn new(inline_size: Au) -> (e: Exclusions)
        requires
            0 <= inline_size.0 <= MAX_SPAN,
        ensures
            e.wf(),
            e.spec_inline_size() == inline_size,
            e.band_seq() == seq![
                (Au(0), Band { left: Au(0), right: Au(0), length: Au(MAX_AU) }),
            ],
    {
        let mut bands = SplayMap::new();
        bands.insert(Au(0), Band::new(Au(0), Au(0), Au(MAX_AU)));
        proof {
            assert(bands.in_order() =~= seq![
                (Au(0), Band { left: Au(0), right: Au(0), length: Au(MAX_AU) }),
            ]);
        }
        Exclusions { bands, inline_size }
    }
}

/// Whether a box of extent `sz` fits the band's available width.
pub open spec fn band_fits(b: Band, sz: Size, inline_size: Au) -> bool {
    sz.inline.0 <= inline_size.0 + b.left.0 + b.right.0
}

/// `m` is the lowest-starting band where the box fits, the open-ended band
/// standing in as the fallback when nothing above it is wide enough.
pub open spec fn first_fit_at(s: Seq<(Au, Band)>, inline_size: Au, sz: Size, m: int) -> bool {
    &&& 0 <= m < s.len()
    &&& (band_fits(s[m].1, sz, inline_size) || m == s.len() - 1)
    &&& forall|i: int| 0 <= i < m ==> !band_fits((#[trigger] s[i]).1, sz, inline_size)
}

/// The placement coordinate inside band `m`: flush against the anchored
/// margin, past whatever already intrudes there.
pub open spec fn place_point(
    s: Seq<(Au, Band)>,
    inline_size: Au,
    side: Side,
    sz: Size,
    m: int,
) -> Point {
    match side {
        Side::Left => Point { inline: Au((-s[m].1.left.0) as i32), block: s[m].0 },
        Side::Right => Point {
            inline: Au((inline_size.0 + s[m].1.right.0 - sz.inline.0) as i32),
            block: s[m].0,
        },
    }
}

/// The comparison the placement search runs on each band: `Less` where the
/// box fits, `Equal` on the open-ended fallback band, `Greater` otherwise.
pub open spec fn place_cmp(start: Au, b: Band, exclusion_size: Size, inline_size: Au) -> Cmp {
    if exclusion_size.inline.0 <= inline_size.0 + b.left.0 + b.right.0 {
        Cmp::Less
    } else if start.0 + b.length.0 == MAX_AU {
        Cmp::Equal
    } else {
        Cmp::Greater
    }
}

/// Executable form of `place_cmp`, total over all inputs by widening.
pub fn compare_inline_size(
    band_block_start: Au,
    band: &Band,
    exclusion_size: &Size,
    inline_size: Au,
) -> (c: Cmp)
    ensures
        c == place_cmp(band_block_start, *band, *exclusion_size, inline_size),
{
    let avail: i64 = inline_size.0 as i64 + band.left.0 as i64 + band.right.0 as i64;
    if exclusion_size.inline.0 as i64 <= avail {
        Cmp::Less
    } else if band_block_start.0 as i64 + band.length.0 as i64 == MAX_AU as i64 {
        Cmp::Equal
    } else {
        Cmp::Greater
    }
}

impl Exclusions {
    /// Places a box of extent `size` against `side`, as low as possible:
    /// the returned point lies in the lowest-starting band wide enough for
    /// it (or in the open-ended band when none is), flush against the
    /// anchored margin beyond that band's recorded intrusion.  The bands
    /// are unchanged, though the lookup restructures the tree behind them.
    pub fn place(&mut self, side: Side, size: &Size) -> (r: Point)
        requires
            old(self).wf(),
            0 <= size.inline.0 <= MAX_SPAN,
        ensures
            final(self).wf(),
            final(self).band_seq() == old(self).band_seq(),
            final(self).spec_inline_size() == old(self).spec_inline_size(),
            exists|m: int|
                {
                    &&& first_fit_at(
                        old(self).band_seq(),
                        old(self).spec_inline_size(),
                        *size,
                        m,
                    )
                    &&& r == place_point(
                        old(self).band_seq(),
                        old(self).spec_inline_size(),
                        side,
                        *size,
                        m,
                    )
                },
    {
        let ghost s = self.band_seq();
        proof {
            lemma_band_geometry(s);
        }
        let isz = self.inline_size;
        let f = |start: &Au, band: &Band| -> (c: Cmp)
            ensures
                c == place_cmp(*start, *band, *size, isz),
            { compare_inline_size(*start, band, size, isz) };
        let found = self.bands.lower_bound_with(f);
        let (bp, band) = match found {
            Some(p) => (p.0, p.1),
            None => {
                proof {
                    assert(judged_by(f, s[s.len() - 1], Cmp::Greater));
                    assert(false);
                }
                (Au(0), Band::new(Au(0), Au(0), Au(0)))
            }
        };
        let ghost m: int = choose|j: int|
            {
                &&& 0 <= j < s.len()
                &&& s[j] == (bp, band)
                &&& forall|i: int| 0 <= i < j ==> judged_by(f, #[trigger] s[i], Cmp::Greater)
            };
        proof {
            assert(judged_by(f, (bp, band), Cmp::Less) || judged_by(f, (bp, band), Cmp::Equal));
            if judged_by(f, (bp, band), Cmp::Equal) && !band_fits(band, *size, isz) {
                assert(place_cmp(bp, band, *size, isz) == Cmp::Equal);
                assert(bp.0 + band.length.0 == MAX_AU);
                if m < s.len() - 1 {
                    assert(s[m].0.0 + s[m].1.length.0 < MAX_AU);
                    assert(false);
                }
            }
            assert forall|i: int| 0 <= i < m implies !band_fits(
                (#[trigger] s[i]).1,
                *size,
                isz,
            ) by {
                assert(judged_by(f, s[i], Cmp::Greater));
            }
            assert(first_fit_at(s, isz, *size, m));
        }
        // splay the chosen band up, as a lookup would
        let got = self.bands.get(&bp);
        let chosen = match got {
            Some(b2) => *b2,
            None => {
                proof {
                    crate::map::lemma_find_at_index(s, m);
                    assert(false);
                }
                Band::new(Au(0), Au(0), Au(0))
            }
        };
        proof {
            crate::map::lemma_find_at_index(s, m);
        }
        proof {
            assert(bp == s[m].0 && chosen == s[m].1);
        }
        let inline_position = match side {
            Side::Left => Au(-chosen.left.0),
            Side::Right => {
                let wide: i64 = isz.0 as i64 + chosen.right.0 as i64 - size.inline.0 as i64;
                Au(wide as i32)
            }
        };
        let r = Point { inline: inline_position, block: bp };
        proof {
            assert(s == old(self).band_seq() && isz == old(self).spec_inline_size());
            assert(first_fit_at(old(self).band_seq(), old(self).spec_inline_size(), *size, m)
                && r == place_point(
                old(self).band_seq(),
                old(self).spec_inline_size(),
                side,
                *size,
                m,
            ));
        }
        r
    }
}

/// Containment of a position under the `[start, start + length)` convention,
/// as the split step searches for it.
pub open spec fn cover_cmp(start: Au, b: Band, pos: Au) -> Cmp {
    if pos.0 < start.0 {
        Cmp::Less
    } else if pos.0 >= start.0 + b.length.0 {
        Cmp::Greater
    } else {
        Cmp::Equal
    }
}

/// Containment under the `(start, start + length]` convention, as the
/// upward propagation walk searches for it.
pub open spec fn above_cmp(start: Au, b: Band, pos: Au) -> Cmp {
    if pos.0 <= start.0 {
        Cmp::Less
    } else if pos.0 > start.0 + b.length.0 {
        Cmp::Greater
    } else {
        Cmp::Equal
    }
}

/// The band at index `m` covers `pos`.
pub open spec fn split_at(s: Seq<(Au, Band)>, pos: Au, m: int) -> bool {
    &&& 0 <= m < s.len()
    &&& s[m].0.0 <= pos.0 < s[m].0.0 + s[m].1.length.0
}

/// The bands after splitting the covering band `m` at `pos`: its upper part
/// ends exactly at `pos`, its lower part starts there and inherits both
/// intrusions.  Splitting at an existing boundary changes nothing.
pub open spec fn split_seq(s: Seq<(Au, Band)>, pos: Au, m: int) -> Seq<(Au, Band)> {
    if s[m].0.0 == pos.0 {
        s
    } else {
        s.subrange(0, m) + seq![
            (
                s[m].0,
                Band {
                    left: s[m].1.left,
                    right: s[m].1.right,
                    length: Au((pos.0 - s[m].0.0) as i32),
                },
            ),
            (
                pos,
                Band {
                    left: s[m].1.left,
                    right: s[m].1.right,
                    length: Au((s[m].0.0 + s[m].1.length.0 - pos.0) as i32),
                },
            ),
        ] + s.subrange(m + 1 as int, s.len() as int)
    }
}

/// Whether a band already intrudes strictly deeper than `d` on `side`:
/// the propagation walk stops at such a band.
pub open spec fn intrudes_deeper(b: Band, side: Side, d: Au) -> bool {
    -side_of(b, side).0 > d.0
}

/// First index still rewritten by a walk that starts at band `j` and moves
/// up while the bands it meets do not already intrude deeper.
pub open spec fn prop_lo(s: Seq<(Au, Band)>, side: Side, d: Au, j: int) -> int
    decreases j + 1,
{
    if j < 0 {
        0
    } else if intrudes_deeper(s[j].1, side, d) {
        j + 1
    } else {
        prop_lo(s, side, d, j - 1)
    }
}

/// The bands after the walk: indices `[prop_lo, j]` have `side` set to the
/// new intrusion `-d`, the rest are untouched.
pub open spec fn propagate(s: Seq<(Au, Band)>, side: Side, d: Au, j: int) -> Seq<(Au, Band)> {
    Seq::new(
        s.len(),
        |i: int|
            if prop_lo(s, side, d, j) <= i <= j {
                (s[i].0, with_side(s[i].1, side, Au((-d.0) as i32)))
            } else {
                s[i]
            },
    )
}

/// The full effect of `exclude`: nothing for a zero-sized obstacle, else a
/// split at the obstacle's bottom edge followed by the upward propagation
/// from the band that now ends there.
pub open spec fn exclude_spec(
    s: Seq<(Au, Band)>,
    t: Seq<(Au, Band)>,
    side: Side,
    sz: Size,
) -> bool {
    if sz.inline.0 == 0 || sz.block.0 == 0 {
        t == s
    } else {
        exists|m: int|
            {
                &&& split_at(s, sz.block, m)
                &&& t == propagate(
                    split_seq(s, sz.block, m),
                    side,
                    sz.inline,
                    (if s[m].0.0 == sz.block.0 {
                        m
                    } else {
                        m + 1
                    }) - 1,
                )
            }
    }
}

/// Two covering bands for one position coincide.
proof fn lemma_cover_unique(s: Seq<(Au, Band)>, pos: Au, a: int, b: int)
    requires
        bands_partition(s),
        split_at(s, pos, a),
        split_at(s, pos, b),
    ensures
        a == b,
{
    lemma_band_geometry(s);
}

/// Walk summary: if everything in `(k, j]` is shallow and `k` itself (when
/// it exists) intrudes deeper, the walk rewrites exactly `[k + 1, j]`.
proof fn lemma_prop_lo_range(s: Seq<(Au, Band)>, side: Side, d: Au, j: int, k: int)
    requires
        -1 <= k <= j,
        j < s.len(),
        forall|i: int| k < i <= j ==> !intrudes_deeper((#[trigger] s[i]).1, side, d),
        k == -1 || intrudes_deeper(s[k].1, side, d),
    ensures
        prop_lo(s, side, d, j) == k + 1,
    decreases j - k,
{
    if j >= 0 && j > k {
        lemma_prop_lo_range(s, side, d, j - 1, k);
    }
}

impl Exclusions {
    /// Splits the band covering `size.block` so a band boundary falls
    /// exactly there, both parts keeping the intrusions the whole band had.
    #[verifier::rlimit(100)]
    fn split(&mut self, _side: Side, size: &Size)
        requires
            old(self).wf(),
            1 <= size.block.0 < MAX_AU,
        ensures
            final(self).wf(),
            final(self).spec_inline_size() == old(self).spec_inline_size(),
            exists|m: int|
                {
                    &&& split_at(old(self).band_seq(), size.block, m)
                    &&& final(self).band_seq() == split_seq(old(self).band_seq(), size.block, m)
                },
    {
        let ghost s = self.band_seq();
        proof {
            lemma_band_geometry(s);
        }
        let pos = size.block;
        let f = |start: &Au, band: &Band| -> (c: Cmp)
            ensures
                c == cover_cmp(*start, *band, pos),
            {
                if (pos.0 as i64) < start.0 as i64 {
                    Cmp::Less
                } else if pos.0 as i64 >= start.0 as i64 + band.length.0 as i64 {
                    Cmp::Greater
                } else {
                    Cmp::Equal
                }
            };
        let ghost m: int = choose|m: int| split_at(s, pos, m);
        proof {
            let mm = lemma_find_band(s, pos.0 as int, 0);
            assert(split_at(s, pos, mm));
            assert(split_at(s, pos, m));
        }
        let found = self.bands.get_with_mut(f);
        match found {
            None => {
                proof {
                    assert(cut_at(f, s, m, m + 1 as int)) by {
                        assert forall|i: int, c: Cmp|
                            0 <= i < s.len() && #[trigger] judged_by(f, s[i], c) implies {
                            &&& (i < m ==> c == Cmp::Greater)
                            &&& (m <= i < m + 1 ==> c == Cmp::Equal)
                            &&& (m + 1 <= i ==> c == Cmp::Less)
                        } by {
                            assert(c == cover_cmp(s[i].0, s[i].1, pos));
                            if i < m {
                                assert(s[i].0.0 + s[i].1.length.0 <= s[m].0.0);
                            } else if i > m {
                                assert(s[m].0.0 + s[m].1.length.0 <= s[i].0.0);
                            }
                        }
                    }
                    assert(false);
                }
            }
            Some(p) => {
                let (ustart, uband) = p;
                proof {
                    let jj = choose|jj: int| 0 <= jj < s.len() && s[jj] == (ustart, uband);
                    assert(cover_cmp(ustart, uband, pos) == Cmp::Equal);
                    assert(split_at(s, pos, jj));
                    lemma_cover_unique(s, pos, jj, m);
                    assert((ustart, uband) == s[m]);
                }
                proof {
                    lemma_split_step(s, pos, m);
                    assert(s.len() < usize::MAX);
                }
                let floor = Au(ustart.0 + uband.length.0);
                let upper_len = Au(pos.0 - ustart.0);
                self.bands.insert(ustart, Band::new(uband.left, uband.right, upper_len));
                let ghost t1 = self.band_seq();
                let lower_len = Au(floor.0 - pos.0);
                self.bands.insert(pos, Band::new(uband.left, uband.right, lower_len));
                let ghost t2 = self.band_seq();
                proof {
                    assert(t2 == split_seq(s, pos, m));
                }
            }
        }
    }
}

/// A sequence with the same starts and lengths as a bounded partition is
/// itself a partition.
proof fn lemma_same_geometry(cur: Seq<(Au, Band)>, u: Seq<(Au, Band)>)
    requires
        bands_partition(u),
        cur.len() == u.len(),
        forall|i: int|
            0 <= i < cur.len() ==> (#[trigger] cur[i]).0 == u[i].0 && cur[i].1.length
                == u[i].1.length,
    ensures
        bands_partition(cur),
{
}

/// The walk's interval predicate cuts the band list at the band ending at
/// `lp`: everything below answers `Greater`, the band itself `Equal`,
/// everything above `Less`.
proof fn lemma_walk_cut<F: Fn(&Au, &Band) -> Cmp>(
    w: F,
    cur: Seq<(Au, Band)>,
    u: Seq<(Au, Band)>,
    lp: Au,
    idx: int,
)
    requires
        forall|p: (Au, Band), c: Cmp| judged_by(w, p, c) ==> c == above_cmp(p.0, p.1, lp),
        bands_partition(u),
        cur.len() == u.len(),
        forall|i: int|
            0 <= i < cur.len() ==> (#[trigger] cur[i]).0 == u[i].0 && cur[i].1.length
                == u[i].1.length,
        0 <= idx,
        idx + 1 < u.len(),
        lp == u[idx + 1].0,
    ensures
        cut_at(w, cur, idx, idx + 1 as int),
{
    lemma_band_geometry(u);
    assert forall|i: int, c: Cmp|
        0 <= i < cur.len() && #[trigger] judged_by(w, cur[i], c) implies {
        &&& (i < idx ==> c == Cmp::Greater)
        &&& (idx <= i < idx + 1 ==> c == Cmp::Equal)
        &&& (idx + 1 <= i ==> c == Cmp::Less)
    } by {
        assert(c == above_cmp(cur[i].0, cur[i].1, lp));
        assert(u[idx].0.0 + u[idx].1.length.0 == u[idx + 1].0.0);
        if i < idx {
            assert(u[i].0.0 + u[i].1.length.0 <= u[idx].0.0);
        } else if i > idx {
            assert(u[idx + 1].0.0 <= u[i].0.0);
        }
    }
}

/// Rewriting the walked band's intrusion takes one step of `propagate`:
/// the updated list is the same formula with the window grown by one.
proof fn lemma_walk_update(
    u: Seq<(Au, Band)>,
    side: Side,
    d: Au,
    j: int,
    idx: int,
    cur: Seq<(Au, Band)>,
)
    requires
        bands_partition(u),
        bands_bounded(u),
        0 <= d.0 <= MAX_SPAN,
        1 <= j < u.len(),
        0 <= idx <= j - 1,
        sorted_pairs(cur),
        cur == Seq::new(
            u.len(),
            |i: int|
                if idx < i <= j - 1 {
                    (u[i].0, with_side(u[i].1, side, Au((-d.0) as i32)))
                } else {
                    u[i]
                },
        ),
    ensures
        cur[idx] == u[idx],
        seq_put(cur, u[idx].0, with_side(u[idx].1, side, Au((-d.0) as i32))) == Seq::new(
            u.len(),
            |i: int|
                if idx - 1 < i <= j - 1 {
                    (u[i].0, with_side(u[i].1, side, Au((-d.0) as i32)))
                } else {
                    u[i]
                },
        ),
        bands_partition(seq_put(cur, u[idx].0, with_side(u[idx].1, side, Au((-d.0) as i32)))),
        bands_bounded(seq_put(cur, u[idx].0, with_side(u[idx].1, side, Au((-d.0) as i32)))),
{
    let nb = with_side(u[idx].1, side, Au((-d.0) as i32));
    crate::map::lemma_put_at_index(cur, idx, nb);
    assert(forall|i: int| 0 <= i < cur.len() ==> (#[trigger] cur[i]).0 == u[i].0);
    assert(forall|i: int|
        0 <= i < cur.len() ==> (#[trigger] cur[i]).1.length == u[i].1.length);
    lemma_same_geometry(cur, u);
    assert(forall|i: int|
        0 <= i < cur.len() ==> {
            &&& -MAX_SPAN <= (#[trigger] cur[i]).1.left.0 <= 0
            &&& -MAX_SPAN <= cur[i].1.right.0 <= 0
        });
    lemma_update_side_partition(cur, idx, side, Au((-d.0) as i32));
    assert(cur.update(idx, (cur[idx].0, with_side(cur[idx].1, side, Au((-d.0) as i32)))) =~= Seq::new(
        u.len(),
        |i: int|
            if idx - 1 < i <= j - 1 {
                (u[i].0, with_side(u[i].1, side, Au((-d.0) as i32)))
            } else {
                u[i]
            },
    ));
}

/// Rewriting one band's intrusion offset keeps the partition and bounds,
/// since starts and lengths are untouched.
proof fn lemma_update_side_partition(s: Seq<(Au, Band)>, i: int, side: Side, v: Au)
    requires
        bands_partition(s),
        bands_bounded(s),
        0 <= i < s.len(),
        -MAX_SPAN <= v.0 <= 0,
    ensures
        bands_partition(s.update(i, (s[i].0, with_side(s[i].1, side, v)))),
        bands_bounded(s.update(i, (s[i].0, with_side(s[i].1, side, v)))),
{
    let t = s.update(i, (s[i].0, with_side(s[i].1, side, v)));
    assert(forall|a: int| 0 <= a < t.len() ==> (#[trigger] t[a]).0 == s[a].0);
    assert(forall|a: int| 0 <= a < t.len() ==> (#[trigger] t[a]).1.length == s[a].1.length);
}

/// Geometry of the split result: the band starting at `pos` sits at the
/// expected index, which is never the first.
proof fn lemma_split_index(s: Seq<(Au, Band)>, pos: Au, m: int)
    requires
        bands_partition(s),
        split_at(s, pos, m),
        1 <= pos.0 < MAX_AU,
    ensures
        ({
            let u = split_seq(s, pos, m);
            let j = if s[m].0.0 == pos.0 {
                m
            } else {
                m + 1
            };
            &&& 1 <= j < u.len()
            &&& u[j].0 == pos
        }),
{
    lemma_band_geometry(s);
    let u = split_seq(s, pos, m);
    if s[m].0.0 != pos.0 {
        assert(u[m + 1].0 == pos);
    }
}

/// Once the walk has stopped, the rewritten window is exactly the one
/// `propagate` describes.
proof fn lemma_propagate_formula(u: Seq<(Au, Band)>, side: Side, d: Au, j: int, idx: int)
    requires
        -1 <= idx <= j - 1,
        0 <= j - 1 < u.len(),
        forall|i: int| idx < i <= j - 1 ==> !intrudes_deeper((#[trigger] u[i]).1, side, d),
        idx == -1 || intrudes_deeper(u[idx].1, side, d),
    ensures
        propagate(u, side, d, j - 1) == Seq::new(
            u.len(),
            |i: int|
                if idx < i <= j - 1 {
                    (u[i].0, with_side(u[i].1, side, Au((-d.0) as i32)))
                } else {
                    u[i]
                },
        ),
{
    lemma_prop_lo_range(u, side, d, j - 1, idx);
    assert(propagate(u, side, d, j - 1) =~= Seq::new(
        u.len(),
        |i: int|
            if idx < i <= j - 1 {
                (u[i].0, with_side(u[i].1, side, Au((-d.0) as i32)))
            } else {
                u[i]
            },
    ));
}

impl Exclusions {
    /// Registers an obstacle of extent `size` anchored to `side`, its
    /// bottom edge at vertical position `size.block`.  A zero extent is a
    /// no-op.  Otherwise the covering band is split at the bottom edge and
    /// the new intrusion is written upward from the band ending there,
    /// stopping at the first band that already intrudes deeper (or the top).
    #[verifier::rlimit(100)]
    pub fn exclude(&mut self, side: Side, size: &Size)
        requires
            old(self).wf(),
            0 <= size.inline.0 <= MAX_SPAN,
            0 <= size.block.0 < MAX_AU,
        ensures
            final(self).wf(),
            final(self).spec_inline_size() == old(self).spec_inline_size(),
            exclude_spec(old(self).band_seq(), final(self).band_seq(), side, *size),
    {
        if size.inline.0 == 0 || size.block.0 == 0 {
            return ;
        }
        let ghost s = self.band_seq();
        self.split(side, size);
        let ghost m: int = choose|m: int|
            {
                &&& split_at(s, size.block, m)
                &&& self.band_seq() == split_seq(s, size.block, m)
            };
        let ghost u = self.band_seq();
        let ghost j: int = if s[m].0.0 == size.block.0 {
            m
        } else {
            m + 1
        };
        let d = size.inline;
        proof {
            lemma_split_index(s, size.block, m);
        }
        let mut last_pos = size.block;
        let ghost mut idx: int = j - 1;
        loop
            invariant
                self.wf(),
                self.spec_inline_size() == old(self).spec_inline_size(),
                bands_partition(u),
                bands_bounded(u),
                0 <= d.0 <= MAX_SPAN,
                1 <= j < u.len(),
                -1 <= idx <= j - 1,
                self.band_seq() == Seq::new(
                    u.len(),
                    |i: int|
                        if idx < i <= j - 1 {
                            (u[i].0, with_side(u[i].1, side, Au((-d.0) as i32)))
                        } else {
                            u[i]
                        },
                ),
                idx >= 0 ==> last_pos == u[idx + 1].0,
                idx == -1 ==> last_pos.0 == u[0].0.0,
                forall|i: int| idx < i <= j - 1 ==> !intrudes_deeper((#[trigger] u[i]).1, side, d),
            ensures
                self.wf(),
                self.spec_inline_size() == old(self).spec_inline_size(),
                -1 <= idx <= j - 1,
                self.band_seq() == Seq::new(
                    u.len(),
                    |i: int|
                        if idx < i <= j - 1 {
                            (u[i].0, with_side(u[i].1, side, Au((-d.0) as i32)))
                        } else {
                            u[i]
                        },
                ),
                forall|i: int| idx < i <= j - 1 ==> !intrudes_deeper((#[trigger] u[i]).1, side, d),
                idx == -1 || intrudes_deeper(u[idx].1, side, d),
            decreases idx + 1,
        {
            let lp = last_pos;
            let w = |start: &Au, band: &Band| -> (c: Cmp)
                ensures
                    c == above_cmp(*start, *band, lp),
                {
                    if lp.0 as i64 <= start.0 as i64 {
                        Cmp::Less
                    } else if lp.0 as i64 > start.0 as i64 + band.length.0 as i64 {
                        Cmp::Greater
                    } else {
                        Cmp::Equal
                    }
                };
            let ghost cur = self.band_seq();
            proof {
                assert(forall|i: int| 0 <= i < cur.len() ==> (#[trigger] cur[i]).0 == u[i].0);
                assert(forall|i: int|
                    0 <= i < cur.len() ==> (#[trigger] cur[i]).1.length == u[i].1.length);
            }
            let found = self.bands.get_with_mut(w);
            match found {
                None => {
                    proof {
                        if idx >= 0 {
                            lemma_walk_cut(w, cur, u, lp, idx);
                            assert(false);
                        }
                    }
                    break ;
                }
                Some(p) => {
                    let (bp, band) = p;
                    proof {
                        lemma_band_geometry(u);
                        let jj = choose|jj: int| 0 <= jj < cur.len() && cur[jj] == (bp, band);
                        assert(above_cmp(bp, band, lp) == Cmp::Equal);
                        if idx == -1 {
                            assert(lp.0 == 0 && lp.0 <= cur[jj].0.0);
                            assert(false);
                        }
                        assert(u[idx].0.0 + u[idx].1.length.0 == u[idx + 1].0.0);
                        if jj < idx {
                            assert(u[jj].0.0 + u[jj].1.length.0 <= u[idx].0.0);
                            assert(false);
                        }
                        if jj > idx {
                            assert(u[idx + 1].0.0 <= u[jj].0.0);
                            assert(false);
                        }
                        assert((bp, band) == cur[idx]);
                        assert(cur[idx].1 == u[idx].1);
                        assert(-MAX_SPAN <= band.left.0 <= 0 && -MAX_SPAN <= band.right.0 <= 0);
                    }
                    let intr = band.get(side);
                    if 0 - intr.0 <= d.0 {
                        let mut nb = band;
                        nb.set(side, Au(0 - d.0));
                        proof {
                            lemma_band_geometry(u);
                            assert(cur.len() < usize::MAX);
                            assert(nb == with_side(u[idx].1, side, Au((-d.0) as i32)));
                            lemma_walk_update(u, side, d, j, idx, cur);
                        }
                        let _ = self.bands.insert(bp, nb);
                        last_pos = bp;
                        proof {
                            idx = idx - 1;
                        }
                    } else {
                        proof {
                            assert(intrudes_deeper(u[idx].1, side, d));
                        }
                        break ;
                    }
                }
            }
        }
        proof {
            lemma_propagate_formula(u, side, d, j, idx);
            assert(exclude_spec(old(self).band_seq(), self.band_seq(), side, *size)) by {
                assert(split_at(s, size.block, m) && self.band_seq() == propagate(
                    split_seq(s, size.block, m),
                    side,
                    size.inline,
                    j - 1,
                ));
            }
        }
    }
}

/// Sequence-level effect of the two writes the split performs: replacing
/// the covering band with its shortened upper part, then writing the lower
/// part at `pos`, yields exactly `split_seq`, again a bounded partition.
#[verifier::rlimit(100)]
proof fn lemma_split_step(s: Seq<(Au, Band)>, pos: Au, m: int)
    requires
        sorted_pairs(s),
        bands_partition(s),
        bands_bounded(s),
        split_at(s, pos, m),
        1 <= pos.0 < MAX_AU,
    ensures
        ({
            let upper = Band {
                left: s[m].1.left,
                right: s[m].1.right,
                length: Au((pos.0 - s[m].0.0) as i32),
            };
            let lower = Band {
                left: s[m].1.left,
                right: s[m].1.right,
                length: Au((s[m].0.0 + s[m].1.length.0 - pos.0) as i32),
            };
            let t1 = s.update(m, (s[m].0, upper));
            &&& seq_put(s, s[m].0, upper) == t1
            &&& seq_put(t1, pos, lower) == split_seq(s, pos, m)
            &&& bands_partition(split_seq(s, pos, m))
            &&& bands_bounded(split_seq(s, pos, m))
        }),
{
    lemma_band_geometry(s);
    let upper = Band {
        left: s[m].1.left,
        right: s[m].1.right,
        length: Au((pos.0 - s[m].0.0) as i32),
    };
    let lower = Band {
        left: s[m].1.left,
        right: s[m].1.right,
        length: Au((s[m].0.0 + s[m].1.length.0 - pos.0) as i32),
    };
    crate::map::lemma_put_at_index(s, m, upper);
    let t1 = s.update(m, (s[m].0, upper));
    {
                    if pos.0 == s[m].0.0 {
                        assert(t1[m].0 == pos);
                        crate::map::lemma_put_at_index(t1, m, lower);
                        assert(lower == s[m].1);
                        assert(seq_put(t1, pos, lower) == t1.update(m, (pos, lower)));
                        assert(t1.update(m, (pos, lower)) =~= s);
                    } else {
                        assert forall|i: int| 0 <= i < m + 1 implies lt(
                            (#[trigger] t1[i]).0,
                            pos,
                        ) by {
                            if i < m {
                                assert(t1[i].0 == s[i].0);
                                assert(s[i].0.0 + s[i].1.length.0 <= s[m].0.0);
                            }
                        }
                        assert forall|i: int| m + 1 <= i < t1.len() implies lt(
                            pos,
                            (#[trigger] t1[i]).0,
                        ) by {
                            assert(t1[i].0 == s[i].0);
                            assert(s[m].0.0 + s[m].1.length.0 <= s[i].0.0);
                        }
                        crate::map::lemma_put_fresh_at(t1, m + 1 as int, pos, lower);
                        assert(t1.subrange(0, m + 1 as int) + seq![(pos, lower)] + t1.subrange(
                            m + 1 as int,
                            t1.len() as int,
                        ) =~= split_seq(s, pos, m));
                    }
                    lemma_split_partition(s, pos, m);
    }
}

/// The split result is again a bounded partition.
#[verifier::rlimit(100)]
#[verifier::spinoff_prover]
proof fn lemma_split_partition(s: Seq<(Au, Band)>, pos: Au, m: int)
    requires
        bands_partition(s),
        bands_bounded(s),
        split_at(s, pos, m),
        1 <= pos.0 < MAX_AU,
    ensures
        bands_partition(split_seq(s, pos, m)),
        bands_bounded(split_seq(s, pos, m)),
{
    lemma_band_geometry(s);
    {
                    let t = split_seq(s, pos, m);
                    assert(bands_partition(t)) by {
                        if pos.0 != s[m].0.0 {
                            assert forall|i: int|
                                0 <= i < t.len() - 1 implies (#[trigger] t[i]).0.0
                                + t[i].1.length.0 == t[i + 1].0.0 by {
                                if i < m {
                                } else if i > m + 1 {
                                    assert(t[i] == s[i - 1] && t[i + 1] == s[i]);
                                }
                            }
                            assert(t[t.len() - 1] == (if m + 1 < s.len() {
                                s[s.len() - 1]
                            } else {
                                t[t.len() - 1]
                            }));
                            assert forall|i: int|
                                0 <= i < t.len() implies (#[trigger] t[i]).1.length.0 >= 1 by {
                                if i > m + 1 {
                                    assert(t[i] == s[i - 1]);
                                }
                            }
                        }
                    }
                    assert(bands_bounded(t)) by {
                        if pos.0 != s[m].0.0 {
                            assert forall|i: int|
                                0 <= i < t.len() implies {
                                &&& -MAX_SPAN <= (#[trigger] t[i]).1.left.0 <= 0
                                &&& -MAX_SPAN <= t[i].1.right.0 <= 0
                            } by {
                                if i > m + 1 {
                                    assert(t[i] == s[i - 1]);
                                }
                            }
                        }
                    }
    }
}

} // verus!

verus! {

impl Exclusions {
    /// Band-partition invariant, spelled out: a well-formed structure's
    /// bands are contiguous and non-overlapping over the whole axis with
    /// exactly one open-ended band (the last), and all intrusions bounded.
    pub proof fn lemma_bands_partition(self)
        requires
            self.wf(),
        ensures
            bands_partition(self.band_seq()),
            bands_bounded(self.band_seq()),
            sorted_pairs(self.band_seq()),
            forall|i: int|
                0 <= i < self.band_seq().len() - 1 ==> (#[trigger] self.band_seq()[i]).0.0
                    + self.band_seq()[i].1.length.0 < MAX_AU,
    {
        lemma_band_geometry(self.band_seq());
    }
}

/// Every band updated by the walk was at most as intrusive before.
proof fn lemma_prop_lo_window(s: Seq<(Au, Band)>, side: Side, d: Au, j: int, i: int)
    requires
        prop_lo(s, side, d, j) <= i <= j,
        j < s.len(),
    ensures
        !intrudes_deeper(s[i].1, side, d),
    decreases j - i,
{
    if i < j {
        lemma_prop_lo_window(s, side, d, j - 1, i);
    }
}

/// Monotonicity law for a registration's propagation step: every band
/// keeps its start and length, its intrusion on the affected side never
/// shrinks in magnitude, and the other side is untouched.
pub proof fn lemma_propagate_monotonic(s: Seq<(Au, Band)>, side: Side, d: Au, j: int)
    requires
        0 <= d.0,
        j < s.len(),
    ensures
        propagate(s, side, d, j).len() == s.len(),
        forall|i: int|
            0 <= i < s.len() ==> {
                &&& (#[trigger] propagate(s, side, d, j)[i]).0 == s[i].0
                &&& propagate(s, side, d, j)[i].1.length == s[i].1.length
                &&& -side_of(propagate(s, side, d, j)[i].1, side).0 >= -side_of(s[i].1, side).0
                &&& side_of(propagate(s, side, d, j)[i].1, match side {
                    Side::Left => Side::Right,
                    Side::Right => Side::Left,
                }) == side_of(s[i].1, match side {
                    Side::Left => Side::Right,
                    Side::Right => Side::Left,
                })
            },
{
    let t = propagate(s, side, d, j);
    assert forall|i: int|
        0 <= i < s.len() implies {
        &&& (#[trigger] t[i]).0 == s[i].0
        &&& t[i].1.length == s[i].1.length
        &&& -side_of(t[i].1, side).0 >= -side_of(s[i].1, side).0
        &&& side_of(t[i].1, match side {
            Side::Left => Side::Right,
            Side::Right => Side::Left,
        }) == side_of(s[i].1, match side {
            Side::Left => Side::Right,
            Side::Right => Side::Left,
        })
    } by {
        if prop_lo(s, side, d, j) <= i <= j {
            lemma_prop_lo_window(s, side, d, j, i);
        }
    }
}

/// Splitting never changes the horizontal picture: both parts of the split
/// band carry the intrusions the whole band had.
pub proof fn lemma_split_keeps_intrusions(s: Seq<(Au, Band)>, pos: Au, m: int)
    requires
        bands_partition(s),
        split_at(s, pos, m),
    ensures
        forall|i: int|
            0 <= i < split_seq(s, pos, m).len() ==> exists|a: int|
                {
                    &&& 0 <= a < s.len()
                    &&& (#[trigger] split_seq(s, pos, m)[i]).1.left == (#[trigger] s[a]).1.left
                    &&& split_seq(s, pos, m)[i].1.right == s[a].1.right
                },
{
    let t = split_seq(s, pos, m);
    assert forall|i: int|
        0 <= i < t.len() implies exists|a: int|
        0 <= a < s.len() && (#[trigger] t[i]).1.left == s[a].1.left && t[i].1.right
            == s[a].1.right by {
        if s[m].0.0 == pos.0 {
            assert(t[i] == s[i]);
        } else {
            if i < m {
                assert(t[i] == s[i]);
            } else if i <= m + 1 {
                assert(t[i].1.left == s[m].1.left && t[i].1.right == s[m].1.right);
            } else {
                assert(t[i] == s[i - 1]);
            }
        }
    }
}

/// Placement never overlaps the excluded zone of its own band on the
/// anchored side: a left placement starts exactly where the left intrusion
/// ends, a right placement ends exactly where the right intrusion begins.
pub proof fn lemma_place_no_overlap(
    s: Seq<(Au, Band)>,
    inline_size: Au,
    side: Side,
    sz: Size,
    m: int,
)
    requires
        bands_partition(s),
        bands_bounded(s),
        0 <= inline_size.0 <= MAX_SPAN,
        0 <= sz.inline.0 <= MAX_SPAN,
        first_fit_at(s, inline_size, sz, m),
        band_fits(s[m].1, sz, inline_size),
    ensures
        ({
            let p = place_point(s, inline_size, side, sz, m);
            match side {
                Side::Left => p.inline.0 == -s[m].1.left.0 && p.inline.0 + sz.inline.0
                    <= inline_size.0 + s[m].1.right.0,
                Side::Right => p.inline.0 >= -s[m].1.left.0 && p.inline.0 + sz.inline.0
                    == inline_size.0 + s[m].1.right.0,
            }
        }),
{
}

} // verus!
