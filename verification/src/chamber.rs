//! Circle fitting for a cloud-chamber picture: the leftmost blank of each
//! picture row lies on a particle's circular track. Three of those points —
//! first, middle, last — determine the circle, and its radius, rounded to
//! the nearest ten metres, identifies the track. All arithmetic is exact:
//! the circumcentre is a rational point, so the rounded radius falls out of
//! integer comparisons alone.

use vstd::prelude::*;

verus! {

/// Whether the row holds a blank at all.
pub open spec fn row_has_blank(row: Seq<char>) -> bool {
    exists|j: int| 0 <= j < row.len() && row[j] == ' '
}

/// How many of the first `upto` rows hold a blank.
pub open spec fn blank_row_count(art: Seq<Vec<char>>, upto: int) -> int
    decreases upto,
{
    if upto <= 0 {
        0
    } else {
        blank_row_count(art, upto - 1) + if row_has_blank(art[upto - 1]@) {
            1int
        } else {
            0int
        }
    }
}

/// The leftmost blank column of a row, if the row has a blank.
fn first_blank(row: &Vec<char>) -> (r: Option<usize>)
    ensures
        r is Some <==> row_has_blank(row@),
        r matches Some(j) ==> j < row@.len() && row@[j as int] == ' ' && forall|i: int|
            0 <= i < j ==> row@[i] != ' ',
{
    let mut j: usize = 0;
    while j < row.len()
        invariant
            j <= row@.len(),
            forall|i: int| 0 <= i < j ==> row@[i] != ' ',
        decreases row@.len() - j,
    {
        if row[j] == ' ' {
            return Some(j);
        }
        j += 1;
    }
    None
}

/// The picture's track points, characterised: one point per row holding a
/// blank, each the leftmost blank of its row, listed in row order.
pub open spec fn track_points(art: Seq<Vec<char>>, pts: Seq<(usize, usize)>) -> bool {
    &&& pts.len() == blank_row_count(art, art.len() as int)
    &&& forall|k: int|
        0 <= k < pts.len() ==> {
            let p = #[trigger] pts[k];
            &&& p.1 < art.len()
            &&& p.0 < art[p.1 as int]@.len()
            &&& art[p.1 as int]@[p.0 as int] == ' '
            &&& forall|i: int| 0 <= i < p.0 ==> art[p.1 as int]@[i] != ' '
        }
    &&& forall|k1: int, k2: int|
        0 <= k1 < k2 < pts.len() ==> (#[trigger] pts[k1]).1 < (#[trigger] pts[k2]).1
}

/// The track points of the picture: for each row holding a blank, the
/// leftmost blank's column and the row index, in row order.
pub fn circumference_points(ascii_art: &Vec<Vec<char>>) -> (r: Vec<(usize, usize)>)
    ensures
        track_points(ascii_art@, r@),
        r@.len() == blank_row_count(ascii_art@, ascii_art@.len() as int),
        forall|k: int|
            0 <= k < r@.len() ==> {
                let p = #[trigger] r@[k];
                &&& p.1 < ascii_art@.len()
                &&& p.0 < ascii_art@[p.1 as int]@.len()
                &&& ascii_art@[p.1 as int]@[p.0 as int] == ' '
                &&& forall|i: int| 0 <= i < p.0 ==> ascii_art@[p.1 as int]@[i] != ' '
            },
        forall|k1: int, k2: int|
            0 <= k1 < k2 < r@.len() ==> (#[trigger] r@[k1]).1 < (#[trigger] r@[k2]).1,
{
    let mut points: Vec<(usize, usize)> = Vec::new();
    let mut y: usize = 0;
    while y < ascii_art.len()
        invariant
            y <= ascii_art@.len(),
            points@.len() == blank_row_count(ascii_art@, y as int),
            forall|k: int|
                0 <= k < points@.len() ==> {
                    let p = #[trigger] points@[k];
                    &&& p.1 < y
                    &&& p.1 < ascii_art@.len()
                    &&& p.0 < ascii_art@[p.1 as int]@.len()
                    &&& ascii_art@[p.1 as int]@[p.0 as int] == ' '
                    &&& forall|i: int| 0 <= i < p.0 ==> ascii_art@[p.1 as int]@[i] != ' '
                },
            forall|k1: int, k2: int|
                0 <= k1 < k2 < points@.len() ==> (#[trigger] points@[k1]).1 < (
                #[trigger] points@[k2]).1,
        decreases ascii_art@.len() - y,
    {
        if let Some(x) = first_blank(&ascii_art[y]) {
            points.push((x, y));
        }
        y += 1;
    }
    points
}

/// Twice the signed area of the triangle `p1 p2 p3`: zero exactly when the
/// points are collinear and no circle passes through all three.
pub open spec fn spec_det2(p1: (int, int), p2: (int, int), p3: (int, int)) -> int {
    (p2.0 - p1.0) * (p3.1 - p1.1) - (p3.0 - p1.0) * (p2.1 - p1.1)
}

/// The squared circumradius of `p1 p2 p3` as the exact rational
/// `num / (4 * det2^2)`: `(ex, ey)` is the circumcentre relative to `p1`,
/// scaled by `2 * det2`, and `num` its squared length.
pub open spec fn spec_radius2_num(p1: (int, int), p2: (int, int), p3: (int, int)) -> int {
    let a2 = (p2.0 - p1.0) * (p2.0 - p1.0) + (p2.1 - p1.1) * (p2.1 - p1.1);
    let b2 = (p3.0 - p1.0) * (p3.0 - p1.0) + (p3.1 - p1.1) * (p3.1 - p1.1);
    let ex = a2 * (p3.1 - p1.1) - b2 * (p2.1 - p1.1);
    let ey = b2 * (p2.0 - p1.0) - a2 * (p3.0 - p1.0);
    ex * ex + ey * ey
}

/// `10 * k` is the radius rounded to the nearest ten for a squared radius
/// `num / den` when the radius lies in `[10k - 5, 10k + 5)` — the lower
/// bound void at `k == 0`, and a half-way radius rounding up.
pub open spec fn rounded_radius_ok(num: int, den: int, k: int) -> bool {
    &&& k >= 0
    &&& num < (10 * k + 5) * (10 * k + 5) * den
    &&& (k == 0 || (10 * k - 5) * (10 * k - 5) * den <= num)
}

/// The circumradius of three points rounded to the nearest ten, `None` for
/// collinear points. Exact integer arithmetic end to end; a radius beyond
/// two thousand million, which no picture of this size yields, is reported
/// as the capped value itself.
pub fn radius_to_nearest_ten(p1: (usize, usize), p2: (usize, usize), p3: (usize, usize)) -> (r:
    Option<i32>)
    requires
        p1.0 <= 1000 && p1.1 <= 1000,
        p2.0 <= 1000 && p2.1 <= 1000,
        p3.0 <= 1000 && p3.1 <= 1000,
    ensures
        ({
            let q1 = (p1.0 as int, p1.1 as int);
            let q2 = (p2.0 as int, p2.1 as int);
            let q3 = (p3.0 as int, p3.1 as int);
            let num = spec_radius2_num(q1, q2, q3);
            let den = 4 * spec_det2(q1, q2, q3) * spec_det2(q1, q2, q3);
            &&& (r is None <==> spec_det2(q1, q2, q3) == 0)
            &&& (r matches Some(v) ==> v >= 0 && v as int % 10 == 0 && (rounded_radius_ok(
                num,
                den,
                v as int / 10,
            ) || (v == 2_140_000_000 && (10 * 214_000_000 - 5) * (10 * 214_000_000 - 5) * den
                <= num)))
        }),
{
    let x1 = p1.0 as i128;
    let y1 = p1.1 as i128;
    let x2 = p2.0 as i128;
    let y2 = p2.1 as i128;
    let x3 = p3.0 as i128;
    let y3 = p3.1 as i128;
    let dx2 = x2 - x1;
    let dy2 = y2 - y1;
    let dx3 = x3 - x1;
    let dy3 = y3 - y1;
    proof {
        assert(-1_000_000 <= dx2 * dy3 <= 1_000_000 && -1_000_000 <= dx3 * dy2 <= 1_000_000
            && 0 <= dx2 * dx2 <= 1_000_000 && 0 <= dy2 * dy2 <= 1_000_000 && 0 <= dx3 * dx3
            <= 1_000_000 && 0 <= dy3 * dy3 <= 1_000_000) by (nonlinear_arith)
            requires
                -1000 <= dx2 <= 1000,
                -1000 <= dy2 <= 1000,
                -1000 <= dx3 <= 1000,
                -1000 <= dy3 <= 1000,
        ;
    }
    let det = dx2 * dy3 - dx3 * dy2;
    proof {
        assert(det as int == spec_det2(
            (p1.0 as int, p1.1 as int),
            (p2.0 as int, p2.1 as int),
            (p3.0 as int, p3.1 as int),
        ));
    }
    if det == 0 {
        return None;
    }
    let a2 = dx2 * dx2 + dy2 * dy2;
    let b2 = dx3 * dx3 + dy3 * dy3;
    proof {
        assert(-2_000_000_000 <= a2 * dy3 <= 2_000_000_000 && -2_000_000_000 <= b2 * dy2
            <= 2_000_000_000 && -2_000_000_000 <= b2 * dx2 <= 2_000_000_000 && -2_000_000_000 <= a2
            * dx3 <= 2_000_000_000)
            by (nonlinear_arith)
            requires
                -1000 <= dx2 <= 1000,
                -1000 <= dy2 <= 1000,
                -1000 <= dx3 <= 1000,
                -1000 <= dy3 <= 1000,
                0 <= a2 <= 2_000_000,
                0 <= b2 <= 2_000_000,
        ;
    }
    let ex = a2 * dy3 - b2 * dy2;
    let ey = b2 * dx2 - a2 * dx3;
    proof {
        assert(0 <= ex * ex <= 0x4000_0000_0000_0000_0000i128 && 0 <= ey * ey
            <= 0x4000_0000_0000_0000_0000i128) by (nonlinear_arith)
            requires
                -4_000_000_000i128 <= ex <= 4_000_000_000i128,
                -4_000_000_000i128 <= ey <= 4_000_000_000i128,
        ;
        assert(0 < det * det <= 0x4_0000_0000_0000i128) by (nonlinear_arith)
            requires
                det != 0,
                -2_000_000 <= det <= 2_000_000,
        ;
    }
    let num = ex * ex + ey * ey;
    let den = 4 * (det * det);
    let mut k: i32 = 0;
    loop
        invariant
            0 <= k <= 214_000_000,
            den > 0,
            num <= 0x8000_0000_0000_0000_0000i128,
            den <= 0x10_0000_0000_0000i128,
            k == 0 || (10 * k - 5) as i128 * (10 * k - 5) as i128 * den <= num,
        ensures
            0 <= k <= 214_000_000,
            num < (10 * k + 5) as i128 * (10 * k + 5) as i128 * den || (k == 214_000_000 && (10 * k
                - 5) as i128 * (10 * k - 5) as i128 * den <= num),
            k == 0 || (10 * k - 5) as i128 * (10 * k - 5) as i128 * den <= num,
        decreases 214_000_000 - k,
    {
        let bound: i128 = (10 * k + 5) as i128;
        proof {
            assert(0 < bound * bound <= 0x1_0000_0000_0000_0000_0000i128 && bound * bound * den
                <= 0x100_0000_0000_0000_0000_0000_0000_0000i128) by (nonlinear_arith)
                requires
                    0 < bound <= 2_140_000_005,
                    0 < den <= 0x10_0000_0000_0000i128,
            ;
        }
        if num < bound * bound * den || k == 214_000_000 {
            break;
        }
        k += 1;
    }
    proof {
        vstd::arithmetic::div_mod::lemma_fundamental_div_mod_converse_mod(10 * k, 10, k as int, 0);
        vstd::arithmetic::div_mod::lemma_fundamental_div_mod_converse_div(10 * k, 10, k as int, 0);
        let q1 = (p1.0 as int, p1.1 as int);
        let q2 = (p2.0 as int, p2.1 as int);
        let q3 = (p3.0 as int, p3.1 as int);
        assert(num as int == spec_radius2_num(q1, q2, q3));
        let d = spec_det2(q1, q2, q3);
        assert(den as int == 4 * d * d) by (nonlinear_arith)
            requires
                den as int == 4 * (d * d),
        ;
    }
    Some(10 * k)
}

/// The radius of the circle through three of the picture's track points —
/// the first, middle and last — rounded to the nearest ten. `None` reports
/// collinear points, through which no circle passes. The picture must hold
/// at least three rows with a blank, and stays within a thousand rows and
/// columns so that the exact arithmetic fits its machine words.
pub fn compute_radius(ascii_art: &Vec<Vec<char>>) -> (r: Option<i32>)
    requires
        ascii_art@.len() <= 1000,
        forall|y: int| 0 <= y < ascii_art@.len() ==> (#[trigger] ascii_art@[y])@.len() <= 1000,
        blank_row_count(ascii_art@, ascii_art@.len() as int) >= 3,
    ensures
        r matches Some(v) ==> v >= 0 && v as int % 10 == 0,
        exists|pts: Seq<(usize, usize)>|
            #[trigger] track_points(ascii_art@, pts) && ({
                let q1 = (pts[0].0 as int, pts[0].1 as int);
                let q2 = (pts[pts.len() as int / 2].0 as int, pts[pts.len() as int / 2].1 as int);
                let q3 = (pts[pts.len() - 1].0 as int, pts[pts.len() - 1].1 as int);
                let num = spec_radius2_num(q1, q2, q3);
                let den = 4 * spec_det2(q1, q2, q3) * spec_det2(q1, q2, q3);
                &&& (r is None <==> spec_det2(q1, q2, q3) == 0)
                &&& (r matches Some(v) ==> rounded_radius_ok(num, den, v as int / 10) || (v
                    == 2_140_000_000 && (10 * 214_000_000 - 5) * (10 * 214_000_000 - 5) * den
                    <= num))
            }),
{
    let points = circumference_points(ascii_art);
    let p1 = points[0];
    let p2 = points[points.len() / 2];
    let p3 = points[points.len() - 1];
    let r = radius_to_nearest_ten(p1, p2, p3);
    proof {
        if r is Some {
            let v = r->0;
            assert(v as int % 10 == 0 || v == 2_140_000_000);
        }
        assert(points@.len() as int / 2 == points@.len() / 2);
        assert(track_points(ascii_art@, points@));
    }
    r
}

} // verus!
