//! Decoding of raw detector output into detections, and non-maximum
//! suppression of overlapping ones.
use vstd::prelude::*;

verus! {

/// The fixed-point scale: this many units make one whole.
pub const UNIT: i32 = 1_000_000;

/// One detected object: its class, its confidence, and its box given by
/// centre and size.
#[derive(Clone, Copy, Debug, PartialEq, Eq, Structural)]
pub struct Detection {
    pub x: i32,
    pub y: i32,
    pub w: i32,
    pub h: i32,
    pub class_id: usize,
    pub confidence: i32,
}

/// Half of `v`, rounded towards minus infinity.
pub open spec fn half(v: int) -> int {
    v / 2
}

pub fn half_of(v: i32) -> (r: i64)
    ensures
        r == half(v as int),
{
    let wide: i64 = v as i64;
    if wide >= 0 {
        wide / 2
    } else {
        -((1 - wide) / 2)
    }
}

impl Detection {
    /// The left edge: the centre less half the width, the half rounded down.
    pub open spec fn left(self) -> int {
        self.x - half(self.w as int)
    }

    /// The top edge: the centre less half the height, the half rounded down.
    pub open spec fn top(self) -> int {
        self.y - half(self.h as int)
    }

    /// The right edge: the full width beyond the left edge.
    pub open spec fn right(self) -> int {
        self.left() + self.w
    }

    /// The bottom edge: the full height beyond the top edge.
    pub open spec fn bottom(self) -> int {
        self.top() + self.h
    }

    /// Twice the left edge, exactly.
    pub open spec fn left_doubled(self) -> int {
        2 * self.x - self.w
    }

    /// Twice the right edge, exactly.
    pub open spec fn right_doubled(self) -> int {
        2 * self.x + self.w
    }

    /// Twice the top edge, exactly.
    pub open spec fn top_doubled(self) -> int {
        2 * self.y - self.h
    }

    /// Twice the bottom edge, exactly.
    pub open spec fn bottom_doubled(self) -> int {
        2 * self.y + self.h
    }

    /// Four times the area of the box, exactly.
    pub open spec fn area_fourfold(self) -> int {
        4 * (self.w * self.h)
    }

    /// The box as `(x1, y1, x2, y2)` in whole units. It has the width and the
    /// height of the detection exactly; where one of them is odd, the box
    /// lies half a unit to the right of, or below, the true one.
    pub fn bounds(&self) -> (r: (i64, i64, i64, i64))
        ensures
            r.0 == self.left(),
            r.1 == self.top(),
            r.2 == self.right(),
            r.3 == self.bottom(),
            r.2 - r.0 == self.w,
            r.3 - r.1 == self.h,
    {
        let left: i64 = self.x as i64 - half_of(self.w);
        let top: i64 = self.y as i64 - half_of(self.h);
        (left, top, left + self.w as i64, top + self.h as i64)
    }
}

pub open spec fn max_int(a: int, b: int) -> int {
    if a >= b {
        a
    } else {
        b
    }
}

pub open spec fn min_int(a: int, b: int) -> int {
    if a <= b {
        a
    } else {
        b
    }
}

/// Twice the width of the intersection of the two boxes; negative where they
/// lie apart.
pub open spec fn overlap_width_doubled(a: Detection, b: Detection) -> int {
    min_int(a.right_doubled(), b.right_doubled()) - max_int(a.left_doubled(), b.left_doubled())
}

/// Twice the height of the intersection of the two boxes; negative where they
/// lie apart.
pub open spec fn overlap_height_doubled(a: Detection, b: Detection) -> int {
    min_int(a.bottom_doubled(), b.bottom_doubled()) - max_int(a.top_doubled(), b.top_doubled())
}

/// Four times the area of the intersection of the two boxes, exactly; 0 where
/// they do not meet.
pub open spec fn intersection_fourfold(a: Detection, b: Detection) -> int {
    if overlap_width_doubled(a, b) < 0 || overlap_height_doubled(a, b) < 0 {
        0
    } else {
        overlap_width_doubled(a, b) * overlap_height_doubled(a, b)
    }
}

/// Four times the area of the union of the two boxes, exactly: both areas
/// less the intersection.
pub open spec fn union_fourfold(a: Detection, b: Detection) -> int {
    a.area_fourfold() + b.area_fourfold() - intersection_fourfold(a, b)
}

/// Whether intersection over union of the two boxes is greater than
/// `threshold / UNIT`. The boxes are measured exactly, in halves of a unit.
/// A pair whose union has no area does not overlap.
pub open spec fn iou_exceeds(a: Detection, b: Detection, threshold: int) -> bool {
    union_fourfold(a, b) > 0 && intersection_fourfold(a, b) * UNIT > threshold * union_fourfold(
        a,
        b,
    )
}

pub proof fn lemma_iou_symmetric(a: Detection, b: Detection, threshold: int)
    ensures
        intersection_fourfold(a, b) == intersection_fourfold(b, a),
        union_fourfold(a, b) == union_fourfold(b, a),
        iou_exceeds(a, b, threshold) == iou_exceeds(b, a, threshold),
{
    assert(overlap_width_doubled(a, b) * overlap_height_doubled(a, b) == overlap_width_doubled(
        b,
        a,
    ) * overlap_height_doubled(b, a));
}

/// Whether the two boxes lie apart or only touch: one ends where the other
/// begins, or before.
pub open spec fn apart(a: Detection, b: Detection) -> bool {
    a.right_doubled() <= b.left_doubled() || b.right_doubled() <= a.left_doubled()
        || a.bottom_doubled() <= b.top_doubled() || b.bottom_doubled() <= a.top_doubled()
}

/// Intersection over union of two boxes of positive size lies between 0 and
/// 1: the intersection is not negative and not greater than the union, which
/// is positive. It is 0 where the boxes lie apart, and 1 where they have the
/// same centre and size.
pub proof fn lemma_iou_range(a: Detection, b: Detection)
    requires
        a.w > 0,
        a.h > 0,
        b.w > 0,
        b.h > 0,
    ensures
        0 <= intersection_fourfold(a, b) <= union_fourfold(a, b),
        union_fourfold(a, b) > 0,
        intersection_fourfold(a, b) <= a.area_fourfold(),
        intersection_fourfold(a, b) <= b.area_fourfold(),
        apart(a, b) ==> intersection_fourfold(a, b) == 0,
        a.x == b.x && a.y == b.y && a.w == b.w && a.h == b.h ==> intersection_fourfold(a, b)
            == union_fourfold(a, b),
{
    let iw = overlap_width_doubled(a, b);
    let ih = overlap_height_doubled(a, b);
    let aw = a.w as int;
    let ah = a.h as int;
    let bw = b.w as int;
    let bh = b.h as int;
    assert(a.area_fourfold() > 0 && b.area_fourfold() > 0) by (nonlinear_arith)
        requires
            a.area_fourfold() == 4 * (aw * ah),
            b.area_fourfold() == 4 * (bw * bh),
            aw > 0,
            ah > 0,
            bw > 0,
            bh > 0,
    ;
    if iw >= 0 && ih >= 0 {
        assert(iw <= 2 * aw && iw <= 2 * bw && ih <= 2 * ah && ih <= 2 * bh);
        assert(0 <= iw * ih <= 4 * (aw * ah) && iw * ih <= 4 * (bw * bh)) by (nonlinear_arith)
            requires
                0 <= iw <= 2 * aw,
                iw <= 2 * bw,
                0 <= ih <= 2 * ah,
                ih <= 2 * bh,
        ;
        if apart(a, b) {
            assert(iw == 0 || ih == 0);
            assert(iw * ih == 0) by (nonlinear_arith)
                requires
                    iw == 0 || ih == 0,
            ;
        }
        if a.x == b.x && a.y == b.y && a.w == b.w && a.h == b.h {
            assert(iw == 2 * aw && ih == 2 * ah);
            assert(iw * ih == 4 * (aw * ah)) by (nonlinear_arith)
                requires
                    iw == 2 * aw,
                    ih == 2 * ah,
            ;
        }
    }
}

/// What the range means for the threshold. No two boxes of positive size
/// overlap by more than the whole. Boxes that lie apart overlap by no more
/// than any threshold that is not negative. And a box overlaps one of the
/// same centre and size by more than every threshold below the whole.
pub proof fn lemma_iou_exceeds(a: Detection, b: Detection, threshold: int)
    requires
        a.w > 0,
        a.h > 0,
        b.w > 0,
        b.h > 0,
    ensures
        threshold >= UNIT ==> !iou_exceeds(a, b, threshold),
        apart(a, b) && threshold >= 0 ==> !iou_exceeds(a, b, threshold),
        a.x == b.x && a.y == b.y && a.w == b.w && a.h == b.h ==> (iou_exceeds(a, b, threshold)
            <==> threshold < UNIT),
{
    lemma_iou_range(a, b);
    let inter = intersection_fourfold(a, b);
    let union = union_fourfold(a, b);
    if threshold >= UNIT {
        assert(inter * UNIT <= threshold * union) by (nonlinear_arith)
            requires
                0 <= inter <= union,
                threshold >= UNIT,
                UNIT > 0,
        ;
    }
    if apart(a, b) && threshold >= 0 {
        assert(threshold * union >= 0) by (nonlinear_arith)
            requires
                threshold >= 0,
                union > 0,
        ;
    }
    if inter == union {
        assert(inter * UNIT > threshold * union <==> threshold < UNIT) by (nonlinear_arith)
            requires
                inter == union,
                union > 0,
        ;
    }
}

proof fn lemma_product_bound(a: int, b: int, m: int, n: int)
    requires
        -m <= a <= m,
        -n <= b <= n,
    ensures
        -(m * n) <= a * b <= m * n,
{
    assert(-(m * n) <= a * b <= m * n) by (nonlinear_arith)
        requires
            -m <= a <= m,
            -n <= b <= n,
    ;
}

/// Intersection and union of two boxes, each as four times its area: the
/// boxes are measured in halves of a unit, so that both are exact. Their
/// quotient is intersection over union.
pub fn calculate_iou(a: &Detection, b: &Detection) -> (r: (i128, i128))
    ensures
        r.0 == intersection_fourfold(*a, *b),
        r.1 == union_fourfold(*a, *b),
        0 <= r.0 <= 0x100_0000_0000_0000_0000,
        -0x120_0000_0000_0000_0000 <= r.1 <= 0x120_0000_0000_0000_0000,
{
    let ax1: i64 = 2 * (a.x as i64) - a.w as i64;
    let ax2: i64 = 2 * (a.x as i64) + a.w as i64;
    let ay1: i64 = 2 * (a.y as i64) - a.h as i64;
    let ay2: i64 = 2 * (a.y as i64) + a.h as i64;
    let bx1: i64 = 2 * (b.x as i64) - b.w as i64;
    let bx2: i64 = 2 * (b.x as i64) + b.w as i64;
    let by1: i64 = 2 * (b.y as i64) - b.h as i64;
    let by2: i64 = 2 * (b.y as i64) + b.h as i64;
    let ix1: i64 = if ax1 >= bx1 {
        ax1
    } else {
        bx1
    };
    let iy1: i64 = if ay1 >= by1 {
        ay1
    } else {
        by1
    };
    let ix2: i64 = if ax2 <= bx2 {
        ax2
    } else {
        bx2
    };
    let iy2: i64 = if ay2 <= by2 {
        ay2
    } else {
        by2
    };
    let iw: i64 = ix2 - ix1;
    let ih: i64 = iy2 - iy1;
    proof {
        lemma_product_bound(iw as int, ih as int, 0x10_0000_0000, 0x10_0000_0000);
        lemma_product_bound(a.w as int, a.h as int, 0x8000_0000, 0x8000_0000);
        lemma_product_bound(b.w as int, b.h as int, 0x8000_0000, 0x8000_0000);
    }
    assert(iw >= 0 && ih >= 0 ==> iw * ih >= 0) by (nonlinear_arith);
    let inter: i128 = if iw < 0 || ih < 0 {
        0
    } else {
        (iw as i128) * (ih as i128)
    };
    let area_a: i128 = 4 * ((a.w as i128) * (a.h as i128));
    let area_b: i128 = 4 * ((b.w as i128) * (b.h as i128));
    (inter, area_a + area_b - inter)
}

/// Whether the two boxes overlap by more than `threshold`.
pub fn overlaps(a: &Detection, b: &Detection, threshold: i32) -> (r: bool)
    ensures
        r == iou_exceeds(*a, *b, threshold as int),
{
    let (inter, union) = calculate_iou(a, b);
    proof {
        lemma_product_bound(inter as int, UNIT as int, 0x100_0000_0000_0000_0000, 0x8000_0000);
        lemma_product_bound(
            threshold as int,
            union as int,
            0x8000_0000,
            0x120_0000_0000_0000_0000,
        );
    }
    union > 0 && inter * (UNIT as i128) > (threshold as i128) * union
}

/// `s` with `d` put in by descending confidence: behind every detection that
/// is at least as confident, before every one that is less.
pub open spec fn insert_by_confidence(s: Seq<Detection>, d: Detection) -> Seq<Detection>
    decreases s.len(),
{
    if s.len() == 0 {
        seq![d]
    } else if s.last().confidence >= d.confidence {
        s.push(d)
    } else {
        insert_by_confidence(s.drop_last(), d).push(s.last())
    }
}

/// `s` in descending order of confidence; detections of equal confidence keep
/// the order they have in `s`.
pub open spec fn sorted_by_confidence(s: Seq<Detection>) -> Seq<Detection>
    decreases s.len(),
{
    if s.len() == 0 {
        Seq::empty()
    } else {
        insert_by_confidence(sorted_by_confidence(s.drop_last()), s.last())
    }
}

/// Whether confidence never rises along `s`.
pub open spec fn is_descending(s: Seq<Detection>) -> bool {
    forall|i: int, j: int| 0 <= i < j < s.len() ==> s[i].confidence >= s[j].confidence
}

/// Where `d` goes in a descending `s`: the number of detections in `s` that are
/// at least as confident as `d`.
pub open spec fn insertion_point(s: Seq<Detection>, d: Detection) -> int
    decreases s.len(),
{
    if s.len() == 0 {
        0
    } else if s.last().confidence >= d.confidence {
        s.len() as int
    } else {
        insertion_point(s.drop_last(), d)
    }
}

pub proof fn lemma_insertion_point(s: Seq<Detection>, d: Detection)
    ensures
        0 <= insertion_point(s, d) <= s.len(),
        insert_by_confidence(s, d) == s.insert(insertion_point(s, d), d),
        forall|k: int| insertion_point(s, d) <= k < s.len() ==> s[k].confidence < d.confidence,
        insertion_point(s, d) > 0 ==> s[insertion_point(s, d) - 1].confidence >= d.confidence,
    decreases s.len(),
{
    if s.len() == 0 {
        assert(seq![d] =~= s.insert(0, d));
    } else if s.last().confidence >= d.confidence {
        assert(s.push(d) =~= s.insert(s.len() as int, d));
    } else {
        let t = s.drop_last();
        lemma_insertion_point(t, d);
        let p = insertion_point(t, d);
        assert(t.insert(p, d).push(s.last()) =~= s.insert(p, d));
        assert forall|k: int| p <= k < s.len() implies s[k].confidence < d.confidence by {
            if k < t.len() {
                assert(t[k] == s[k]);
            }
        }
        if p > 0 {
            assert(t[p - 1] == s[p - 1]);
        }
    }
}

/// Inserting keeps the detections: the result holds `d` once more and
/// otherwise what `s` holds.
pub proof fn lemma_insert_permutes(s: Seq<Detection>, d: Detection)
    ensures
        insert_by_confidence(s, d).to_multiset() == s.to_multiset().insert(d),
        insert_by_confidence(s, d).len() == s.len() + 1,
{
    lemma_insertion_point(s, d);
    vstd::seq_lib::to_multiset_insert(s, insertion_point(s, d), d);
}

/// Inserting into a descending sequence leaves it descending.
pub proof fn lemma_insert_descending(s: Seq<Detection>, d: Detection)
    requires
        is_descending(s),
    ensures
        is_descending(insert_by_confidence(s, d)),
{
    lemma_insertion_point(s, d);
    let p = insertion_point(s, d);
    let r = s.insert(p, d);
    assert forall|i: int, j: int| 0 <= i < j < r.len() implies r[i].confidence
        >= r[j].confidence by {
        if i < p {
            assert(r[i] == s[i]);
            assert(s[i].confidence >= s[p - 1].confidence);
        } else if i > p {
            assert(r[i] == s[i - 1]);
        }
        if j < p {
            assert(r[j] == s[j]);
        } else if j > p {
            assert(r[j] == s[j - 1]);
        }
    }
}

/// Sorting rearranges and neither adds nor drops: the result holds exactly the
/// detections of `s`, each as often as `s` does, and confidence never rises
/// along it.
pub proof fn lemma_sorted_by_confidence(s: Seq<Detection>)
    ensures
        sorted_by_confidence(s).to_multiset() == s.to_multiset(),
        sorted_by_confidence(s).len() == s.len(),
        is_descending(sorted_by_confidence(s)),
    decreases s.len(),
{
    broadcast use vstd::seq_lib::group_to_multiset_ensures;

    if s.len() == 0 {
        assert(s =~= Seq::empty());
    } else {
        let t = s.drop_last();
        lemma_sorted_by_confidence(t);
        lemma_insert_permutes(sorted_by_confidence(t), s.last());
        lemma_insert_descending(sorted_by_confidence(t), s.last());
        assert(t.push(s.last()) =~= s);
    }
}

/// Sorts by descending confidence, keeping the order of equals.
pub fn sort_by_confidence(detections: Vec<Detection>) -> (sorted: Vec<Detection>)
    ensures
        sorted@ == sorted_by_confidence(detections@),
{
    let mut sorted: Vec<Detection> = Vec::new();
    let n: usize = detections.len();
    let mut i: usize = 0;
    while i < n
        invariant
            n == detections.len(),
            i <= n,
            sorted@ == sorted_by_confidence(detections@.take(i as int)),
        decreases n - i,
    {
        let d: Detection = detections[i];
        let mut pos: usize = sorted.len();
        while pos > 0 && sorted[pos - 1].confidence < d.confidence
            invariant
                pos <= sorted.len(),
                forall|k: int| pos <= k < sorted.len() ==> sorted[k].confidence < d.confidence,
            decreases pos,
        {
            pos = pos - 1;
        }
        proof {
            lemma_insertion_point(sorted@, d);
            let p = insertion_point(sorted@, d);
            if p < pos {
                assert(sorted@[pos - 1].confidence < d.confidence);
            }
            if p > pos {
                assert(sorted@[p - 1].confidence >= d.confidence);
            }
            assert(p == pos);
            assert(detections@.take(i + 1).drop_last() =~= detections@.take(i as int));
        }
        sorted.insert(pos, d);
        i = i + 1;
    }
    proof {
        assert(detections@.take(n as int) =~= detections@);
    }
    sorted
}

/// Whether some detection of `kept` overlaps `d` by more than `threshold`.
pub open spec fn suppressed_by(kept: Seq<Detection>, d: Detection, threshold: int) -> bool {
    exists|k: int| 0 <= k < kept.len() && iou_exceeds(#[trigger] kept[k], d, threshold)
}

/// Greedy suppression along `s`: a detection is retained unless one retained
/// before it overlaps it by more than `threshold`. Classes play no part.
pub open spec fn retained(s: Seq<Detection>, threshold: int) -> Seq<Detection>
    decreases s.len(),
{
    if s.len() == 0 {
        Seq::empty()
    } else {
        let before = retained(s.drop_last(), threshold);
        if suppressed_by(before, s.last(), threshold) {
            before
        } else {
            before.push(s.last())
        }
    }
}

/// What suppression leaves of `detections`: they are put in descending order
/// of confidence, and then retained greedily from the most confident on.
pub open spec fn suppressed(detections: Seq<Detection>, threshold: int) -> Seq<Detection> {
    retained(sorted_by_confidence(detections), threshold)
}

/// No two retained detections overlap by more than the threshold.
pub proof fn lemma_retained_apart(s: Seq<Detection>, threshold: int)
    ensures
        forall|i: int, j: int|
            0 <= i < retained(s, threshold).len() && 0 <= j < retained(s, threshold).len() && i
                != j ==> !iou_exceeds(
                retained(s, threshold)[i],
                retained(s, threshold)[j],
                threshold,
            ),
    decreases s.len(),
{
    if s.len() > 0 {
        let before = retained(s.drop_last(), threshold);
        lemma_retained_apart(s.drop_last(), threshold);
        let r = retained(s, threshold);
        if !suppressed_by(before, s.last(), threshold) {
            assert forall|i: int, j: int| 0 <= i < r.len() && 0 <= j < r.len() && i != j implies
                !iou_exceeds(r[i], r[j], threshold) by {
                if j == before.len() {
                    assert(r[i] == before[i]);
                } else if i == before.len() {
                    assert(r[j] == before[j]);
                    lemma_iou_symmetric(r[i], r[j], threshold);
                } else {
                    assert(r[i] == before[i] && r[j] == before[j]);
                }
            }
        }
    }
}

/// Every retained detection is one of `s`, and each detection of `s` is
/// either retained or overlapped beyond the threshold by a retained one that
/// stands before it in `s`.
pub proof fn lemma_retained_covers(s: Seq<Detection>, threshold: int)
    ensures
        retained(s, threshold).len() <= s.len(),
        forall|k: int|
            0 <= k < retained(s, threshold).len() ==> s.contains(
                #[trigger] retained(s, threshold)[k],
            ),
        forall|i: int|
            0 <= i < s.len() ==> retained(s, threshold).contains(#[trigger] s[i]) || suppressed_by(
                retained(s.take(i), threshold),
                s[i],
                threshold,
            ),
        forall|i: int|
            0 <= i <= s.len() ==> #[trigger] retained(s.take(i), threshold).is_prefix_of(
                retained(s, threshold),
            ),
    decreases s.len(),
{
    let r = retained(s, threshold);
    if s.len() == 0 {
        assert(s.take(0) =~= s);
    } else {
        let t = s.drop_last();
        let before = retained(t, threshold);
        lemma_retained_covers(t, threshold);
        assert(before.is_prefix_of(r));
        assert forall|k: int| 0 <= k < r.len() implies s.contains(#[trigger] r[k]) by {
            if k < before.len() {
                assert(r[k] == before[k]);
                assert(t.contains(before[k]));
                let w = choose|w: int| 0 <= w < t.len() && t[w] == before[k];
                assert(s[w] == r[k]);
            } else {
                assert(r[k] == s[s.len() - 1]);
            }
        }
        assert forall|i: int| 0 <= i <= s.len() implies #[trigger] retained(
            s.take(i),
            threshold,
        ).is_prefix_of(r) by {
            if i == s.len() {
                assert(s.take(i) =~= s);
            } else {
                assert(s.take(i) =~= t.take(i));
                assert(retained(t.take(i), threshold).is_prefix_of(before));
            }
        }
        assert forall|i: int| 0 <= i < s.len() implies r.contains(#[trigger] s[i])
            || suppressed_by(retained(s.take(i), threshold), s[i], threshold) by {
            if i == s.len() - 1 {
                assert(s.take(i) =~= t);
                if !suppressed_by(before, s.last(), threshold) {
                    assert(r[r.len() - 1] == s[i]);
                }
            } else {
                assert(s.take(i) =~= t.take(i));
                assert(s[i] == t[i]);
                if before.contains(t[i]) {
                    let w = choose|w: int| 0 <= w < before.len() && before[w] == t[i];
                    assert(r[w] == s[i]);
                }
            }
        }
    }
}

/// What suppression guarantees. No two detections that it leaves overlap by
/// more than the threshold: so a detection that one of those left overlaps by
/// more than the threshold is itself not left. It leaves only detections that
/// it was given, in descending order of confidence. And each detection that
/// it was given is either left, or overlapped by more than the threshold by
/// one that is left and is at least as confident.
pub proof fn lemma_suppressed(detections: Seq<Detection>, threshold: int)
    ensures
        forall|i: int, j: int|
            0 <= i < suppressed(detections, threshold).len() && 0 <= j < suppressed(
                detections,
                threshold,
            ).len() && i != j ==> !iou_exceeds(
                suppressed(detections, threshold)[i],
                suppressed(detections, threshold)[j],
                threshold,
            ),
        forall|k: int|
            0 <= k < suppressed(detections, threshold).len() ==> detections.contains(
                #[trigger] suppressed(detections, threshold)[k],
            ),
        is_descending(suppressed(detections, threshold)),
        forall|k: int, d: Detection|
            0 <= k < suppressed(detections, threshold).len() && d != suppressed(
                detections,
                threshold,
            )[k] && iou_exceeds(#[trigger] suppressed(detections, threshold)[k], d, threshold)
                ==> !(#[trigger] suppressed(detections, threshold).contains(d)),
        forall|i: int|
            0 <= i < detections.len() ==> suppressed(detections, threshold).contains(
                #[trigger] detections[i],
            ) || exists|k: int|
                0 <= k < suppressed(detections, threshold).len() && suppressed(
                    detections,
                    threshold,
                )[k].confidence >= detections[i].confidence && iou_exceeds(
                    #[trigger] suppressed(detections, threshold)[k],
                    detections[i],
                    threshold,
                ),
{
    broadcast use vstd::seq_lib::group_to_multiset_ensures;

    let s = sorted_by_confidence(detections);
    let out = retained(s, threshold);
    lemma_sorted_by_confidence(detections);
    lemma_retained_apart(s, threshold);
    lemma_retained_covers(s, threshold);
    lemma_retained_descending(s, threshold);
    assert forall|k: int, d: Detection|
        0 <= k < out.len() && d != out[k] && iou_exceeds(#[trigger] out[k], d, threshold)
            implies !(#[trigger] out.contains(d)) by {
        if out.contains(d) {
            let j = choose|j: int| 0 <= j < out.len() && out[j] == d;
            assert(!iou_exceeds(out[k], out[j], threshold));
        }
    }
    assert forall|k: int| 0 <= k < out.len() implies detections.contains(#[trigger] out[k]) by {
        assert(s.contains(out[k]));
        vstd::seq_lib::to_multiset_contains(s, out[k]);
        vstd::seq_lib::to_multiset_contains(detections, out[k]);
    }
    assert forall|i: int| 0 <= i < detections.len() implies out.contains(#[trigger] detections[i])
        || exists|k: int|
        0 <= k < out.len() && out[k].confidence >= detections[i].confidence && iou_exceeds(
            #[trigger] out[k],
            detections[i],
            threshold,
        ) by {
        let d = detections[i];
        assert(detections.contains(d));
        vstd::seq_lib::to_multiset_contains(detections, d);
        vstd::seq_lib::to_multiset_contains(s, d);
        assert(s.contains(d));
        let m = choose|m: int| 0 <= m < s.len() && s[m] == d;
        if !out.contains(s[m]) {
            let before = retained(s.take(m), threshold);
            assert(suppressed_by(before, d, threshold));
            let k = choose|k: int| 0 <= k < before.len() && iou_exceeds(before[k], d, threshold);
            assert(before.is_prefix_of(out));
            assert(out[k] == before[k]);
            lemma_retained_covers(s.take(m), threshold);
            assert(s.take(m).contains(before[k]));
            let w = choose|w: int| 0 <= w < s.take(m).len() && s.take(m)[w] == before[k];
            assert(s[w] == before[k]);
            assert(s[w].confidence >= s[m].confidence);
        }
    }
}

/// Retaining keeps the order: a descending sequence stays descending.
pub proof fn lemma_retained_descending(s: Seq<Detection>, threshold: int)
    requires
        is_descending(s),
    ensures
        is_descending(retained(s, threshold)),
    decreases s.len(),
{
    if s.len() > 0 {
        let t = s.drop_last();
        let before = retained(t, threshold);
        assert(is_descending(t));
        lemma_retained_descending(t, threshold);
        lemma_retained_covers(t, threshold);
        let r = retained(s, threshold);
        assert forall|i: int, j: int| 0 <= i < j < r.len() implies r[i].confidence
            >= r[j].confidence by {
            if j < before.len() {
                assert(r[i] == before[i] && r[j] == before[j]);
            } else {
                assert(r[i] == before[i]);
                assert(t.contains(before[i]));
                let w = choose|w: int| 0 <= w < t.len() && t[w] == before[i];
                assert(s[w].confidence >= s[s.len() - 1].confidence);
            }
        }
    }
}

/// Greedy non-maximum suppression: sorts by descending confidence, then
/// retains each detection that no retained one overlaps beyond `threshold`.
pub fn non_maximum_suppression(detections: Vec<Detection>, iou_threshold: i32) -> (keep: Vec<
    Detection,
>)
    ensures
        keep@ == suppressed(detections@, iou_threshold as int),
{
    let sorted: Vec<Detection> = sort_by_confidence(detections);
    let n: usize = sorted.len();
    let ghost threshold: int = iou_threshold as int;
    let mut keep: Vec<Detection> = Vec::new();
    let mut active: Vec<bool> = Vec::new();
    let mut a: usize = 0;
    while a < n
        invariant
            a <= n,
            active.len() == a,
            forall|j: int| 0 <= j < a ==> active[j],
        decreases n - a,
    {
        active.push(true);
        a = a + 1;
    }
    let mut i: usize = 0;
    while i < n
        invariant
            n == sorted.len(),
            active.len() == n,
            i <= n,
            threshold == iou_threshold as int,
            keep@ == retained(sorted@.take(i as int), threshold),
            forall|j: int| i <= j < n ==> (active[j] <==> !suppressed_by(keep@, sorted[j], threshold)),
        decreases n - i,
    {
        proof {
            assert(sorted@.take(i + 1).drop_last() =~= sorted@.take(i as int));
            assert(sorted@.take(i + 1).last() == sorted[i as int]);
        }
        if active[i] {
            let ghost before = keep@;
            let current: Detection = sorted[i];
            keep.push(current);
            let mut j: usize = i + 1;
            while j < n
                invariant
                    n == sorted.len(),
                    active.len() == n,
                    i < j <= n,
                    threshold == iou_threshold as int,
                    current == sorted[i as int],
                    keep@ == before.push(current),
                    forall|k: int|
                        j <= k < n ==> (active[k] <==> !suppressed_by(before, sorted[k], threshold)),
                    forall|k: int|
                        i < k < j ==> (active[k] <==> !suppressed_by(keep@, sorted[k], threshold)),
                decreases n - j,
            {
                let hit: bool = active[j] && overlaps(&current, &sorted[j], iou_threshold);
                proof {
                    let d = sorted[j as int];
                    if suppressed_by(before, d, threshold) {
                        let w = choose|w: int|
                            0 <= w < before.len() && iou_exceeds(before[w], d, threshold);
                        assert(keep@[w] == before[w]);
                    }
                    if iou_exceeds(current, d, threshold) {
                        assert(keep@[before.len() as int] == current);
                    }
                    if suppressed_by(keep@, d, threshold) {
                        let w = choose|w: int|
                            0 <= w < keep@.len() && iou_exceeds(keep@[w], d, threshold);
                        if w < before.len() {
                            assert(before[w] == keep@[w]);
                        }
                    }
                }
                if hit {
                    active.set(j, false);
                }
                j = j + 1;
            }
        }
        i = i + 1;
    }
    proof {
        assert(sorted@.take(n as int) =~= sorted@);
    }
    keep
}

/// Why a raw output buffer cannot be decoded.
#[derive(Clone, Copy, Debug, PartialEq, Eq, Structural)]
pub enum InputShapeError {
    /// Fewer than the four box channels.
    MissingBoxChannels,
    /// The four box channels and no score of any class.
    MissingClassChannels,
    /// The buffer does not hold `channels * anchors` values.
    WrongLength,
}

/// Whether a buffer of `len` values is a tensor of `channels` rows of
/// `anchors` values: four rows for the box, and one row for each class, of
/// which there is at least one.
pub open spec fn shape_ok(len: int, channels: int, anchors: int) -> bool {
    channels >= 5 && len == channels * anchors
}

/// The value of `channel` for `anchor`.
pub open spec fn value_at(output: Seq<i32>, anchors: int, channel: int, anchor: int) -> i32 {
    output[channel * anchors + anchor]
}

/// Class and score of `anchor` among its first `classes` classes: the
/// greatest score and the first class that has it, or class 0 with score 0
/// where no score is positive.
pub open spec fn best_class(output: Seq<i32>, anchors: int, classes: int, anchor: int) -> (
    int,
    int,
)
    decreases classes,
{
    if classes <= 0 {
        (0, 0)
    } else {
        let before = best_class(output, anchors, classes - 1, anchor);
        let score = value_at(output, anchors, 4 + classes - 1, anchor);
        if score > before.1 {
            (classes - 1, score as int)
        } else {
            before
        }
    }
}

/// `best_class` is the arg-max: no score is greater than the one it names,
/// and where that is positive, the class it names is the first to reach it.
pub proof fn lemma_best_class(output: Seq<i32>, anchors: int, classes: int, anchor: int)
    requires
        classes >= 0,
    ensures
        ({
            let (class, score) = best_class(output, anchors, classes, anchor);
            &&& 0 <= score <= i32::MAX
            &&& forall|c: int|
                0 <= c < classes ==> #[trigger] value_at(output, anchors, 4 + c, anchor) <= score
            &&& score == 0 ==> class == 0
            &&& score > 0 ==> {
                &&& 0 <= class < classes
                &&& value_at(output, anchors, 4 + class, anchor) == score
                &&& forall|c: int|
                    0 <= c < class ==> #[trigger] value_at(output, anchors, 4 + c, anchor) < score
            }
        }),
    decreases classes,
{
    if classes > 0 {
        lemma_best_class(output, anchors, classes - 1, anchor);
    }
}

/// The detection that `anchor` stands for.
pub open spec fn detection_at(output: Seq<i32>, anchors: int, classes: int, anchor: int) -> Detection {
    let best = best_class(output, anchors, classes, anchor);
    Detection {
        x: value_at(output, anchors, 0, anchor),
        y: value_at(output, anchors, 1, anchor),
        w: value_at(output, anchors, 2, anchor),
        h: value_at(output, anchors, 3, anchor),
        class_id: best.0 as usize,
        confidence: best.1 as i32,
    }
}

/// The detections of the first `upto` anchors, in anchor order: those whose
/// best score is greater than `conf_threshold`.
pub open spec fn decoded(
    output: Seq<i32>,
    anchors: int,
    classes: int,
    conf_threshold: int,
    upto: int,
) -> Seq<Detection>
    decreases upto,
{
    if upto <= 0 {
        Seq::empty()
    } else {
        let before = decoded(output, anchors, classes, conf_threshold, upto - 1);
        if best_class(output, anchors, classes, upto - 1).1 > conf_threshold {
            before.push(detection_at(output, anchors, classes, upto - 1))
        } else {
            before
        }
    }
}

proof fn lemma_index_in_range(channel: int, anchor: int, channels: int, anchors: int)
    requires
        0 <= channel < channels,
        0 <= anchor < anchors,
    ensures
        0 <= channel * anchors + anchor < channels * anchors,
        0 <= channel * anchors,
{
    assert(0 <= channel * anchors + anchor < channels * anchors && 0 <= channel * anchors)
        by (nonlinear_arith)
        requires
            0 <= channel < channels,
            0 <= anchor < anchors,
    ;
}

fn read(output: &[i32], channels: usize, anchors: usize, channel: usize, anchor: usize) -> (v: i32)
    requires
        output@.len() == channels * anchors,
        channel < channels,
        anchor < anchors,
    ensures
        v == value_at(output@, anchors as int, channel as int, anchor as int),
{
    let len: usize = output.len();
    proof {
        lemma_index_in_range(channel as int, anchor as int, channels as int, anchors as int);
        assert(channel * anchors + anchor < len);
    }
    output[channel * anchors + anchor]
}

/// Decodes a raw output tensor of shape `[1, channels, anchors]`, given row by
/// row, into detections and suppresses the overlapping ones. The tensor must
/// have the four box channels and at least one class channel, and the buffer
/// must hold exactly what the shape says.
pub fn postprocess(
    output: &[i32],
    channels: usize,
    anchors: usize,
    conf_threshold: i32,
    iou_threshold: i32,
) -> (result: Result<Vec<Detection>, InputShapeError>)
    ensures
        channels < 4 ==> result == Err::<Vec<Detection>, _>(InputShapeError::MissingBoxChannels),
        channels == 4 ==> result == Err::<Vec<Detection>, _>(
            InputShapeError::MissingClassChannels,
        ),
        channels >= 5 && output@.len() != channels * anchors ==> result == Err::<Vec<Detection>, _>(
            InputShapeError::WrongLength,
        ),
        shape_ok(output@.len() as int, channels as int, anchors as int) ==> result is Ok
            && result->Ok_0@ == suppressed(
            decoded(
                output@,
                anchors as int,
                channels - 4,
                conf_threshold as int,
                anchors as int,
            ),
            iou_threshold as int,
        ),
{
    if channels < 4 {
        return Err(InputShapeError::MissingBoxChannels);
    }
    if channels == 4 {
        return Err(InputShapeError::MissingClassChannels);
    }
    let len: usize = output.len();
    match channels.checked_mul(anchors) {
        Some(total) => {
            if total != len {
                return Err(InputShapeError::WrongLength);
            }
        },
        None => {
            return Err(InputShapeError::WrongLength);
        },
    }
    let classes: usize = channels - 4;
    let mut detections: Vec<Detection> = Vec::new();
    let mut i: usize = 0;
    while i < anchors
        invariant
            channels >= 4,
            classes == channels - 4,
            output@.len() == channels * anchors,
            i <= anchors,
            detections@ == decoded(
                output@,
                anchors as int,
                classes as int,
                conf_threshold as int,
                i as int,
            ),
        decreases anchors - i,
    {
        let mut max_score: i32 = 0;
        let mut class_id: usize = 0;
        let mut c: usize = 0;
        while c < classes
            invariant
                channels >= 4,
                classes == channels - 4,
                output@.len() == channels * anchors,
                i < anchors,
                c <= classes,
                (class_id as int, max_score as int) == best_class(
                    output@,
                    anchors as int,
                    c as int,
                    i as int,
                ),
            decreases classes - c,
        {
            let score: i32 = read(output, channels, anchors, 4 + c, i);
            if score > max_score {
                max_score = score;
                class_id = c;
            }
            c = c + 1;
        }
        if max_score > conf_threshold {
            let x: i32 = read(output, channels, anchors, 0, i);
            let y: i32 = read(output, channels, anchors, 1, i);
            let w: i32 = read(output, channels, anchors, 2, i);
            let h: i32 = read(output, channels, anchors, 3, i);
            detections.push(Detection { x, y, w, h, class_id, confidence: max_score });
        }
        i = i + 1;
    }
    Ok(non_maximum_suppression(detections, iou_threshold))
}

} // verus!
