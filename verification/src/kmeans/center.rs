//! Cluster centers and the exact distances of colors to them.

use crate::img_utils::rgb_color::RgbColor;
use crate::kmeans::wide::Wide;
use vstd::prelude::*;

verus! {

/// Per-channel sums of channel value times occurrence count.
#[derive(Debug, Clone, Copy, PartialEq, Eq, Structural)]
pub struct WeightedColor {
    pub r: u128,
    pub g: u128,
    pub b: u128,
}

/// A cluster center: the point whose channels are `sum / weight`.
#[derive(Debug, Clone, Copy, PartialEq, Eq, Structural)]
pub struct ClusterCenter {
    pub sum: WeightedColor,
    pub weight: u64,
}

impl ClusterCenter {
    /// The weight is positive and no channel of the point exceeds `u32::MAX`.
    pub open spec fn wf(self) -> bool {
        &&& self.weight > 0
        &&& self.sum.r <= self.weight * u32::MAX
        &&& self.sum.g <= self.weight * u32::MAX
        &&& self.sum.b <= self.weight * u32::MAX
    }

    /// The red channel of the point.
    pub open spec fn red(self) -> real {
        self.sum.r as real / self.weight as real
    }

    /// The green channel of the point.
    pub open spec fn green(self) -> real {
        self.sum.g as real / self.weight as real
    }

    /// The blue channel of the point.
    pub open spec fn blue(self) -> real {
        self.sum.b as real / self.weight as real
    }

    /// The center with its channels rounded down to integers.
    pub open spec fn color(self) -> RgbColor {
        RgbColor {
            r: (self.sum.r as nat / self.weight as nat) as u32,
            g: (self.sum.g as nat / self.weight as nat) as u32,
            b: (self.sum.b as nat / self.weight as nat) as u32,
        }
    }

    /// The center at the origin.
    pub open spec fn spec_zero() -> ClusterCenter {
        ClusterCenter { sum: WeightedColor { r: 0, g: 0, b: 0 }, weight: 1 }
    }

    /// The center at the origin.
    pub fn zero() -> (center: Self)
        ensures
            center == Self::spec_zero(),
            center.wf(),
    {
        ClusterCenter { sum: WeightedColor { r: 0, g: 0, b: 0 }, weight: 1 }
    }

    /// The color of the center, each channel rounded down.
    pub fn to_color(&self) -> (color: RgbColor)
        requires
            self.wf(),
        ensures
            color == self.color(),
    {
        let w: u128 = self.weight as u128;
        proof {
            lemma_quotient_bound(self.sum.r as nat, self.weight as nat);
            lemma_quotient_bound(self.sum.g as nat, self.weight as nat);
            lemma_quotient_bound(self.sum.b as nat, self.weight as nat);
        }
        RgbColor {
            r: (self.sum.r / w) as u32,
            g: (self.sum.g / w) as u32,
            b: (self.sum.b / w) as u32,
        }
    }
}

proof fn lemma_quotient_bound(sum: nat, weight: nat)
    requires
        weight > 0,
        sum <= weight * u32::MAX,
    ensures
        sum / weight <= u32::MAX,
{
    assert(sum / weight <= 0xFFFF_FFFF) by (nonlinear_arith)
        requires
            weight > 0,
            sum <= weight * 0xFFFF_FFFF,
    ;
}

proof fn lemma_floor(sum: nat, weight: nat)
    requires
        weight > 0,
    ensures
        ((sum / weight) as real) <= (sum as real) / (weight as real) < ((sum / weight) as real)
            + 1real,
{
    let q = sum / weight;
    let r = sum % weight;
    assert(sum == q * weight + r && 0 <= r < weight) by (nonlinear_arith)
        requires
            weight > 0,
            q == sum / weight,
            r == sum % weight,
    ;
    assert((q as real) <= (sum as real) / (weight as real) < (q as real) + 1real)
        by (nonlinear_arith)
        requires
            weight > 0,
            sum == q * weight + r,
            0 <= r < weight,
    ;
}

/// The color of a center is the center with every channel rounded down.
pub proof fn lemma_color_rounds_down(center: ClusterCenter)
    requires
        center.wf(),
    ensures
        (center.color().r as real) <= center.red() < (center.color().r as real) + 1real,
        (center.color().g as real) <= center.green() < (center.color().g as real) + 1real,
        (center.color().b as real) <= center.blue() < (center.color().b as real) + 1real,
{
    lemma_quotient_bound(center.sum.r as nat, center.weight as nat);
    lemma_quotient_bound(center.sum.g as nat, center.weight as nat);
    lemma_quotient_bound(center.sum.b as nat, center.weight as nat);
    lemma_floor(center.sum.r as nat, center.weight as nat);
    lemma_floor(center.sum.g as nat, center.weight as nat);
    lemma_floor(center.sum.b as nat, center.weight as nat);
}

/// The squared Euclidean distance between a color and a center.
pub open spec fn spec_squared_distance(color: RgbColor, center: ClusterCenter) -> real {
    let dr = color.r as real - center.red();
    let dg = color.g as real - center.green();
    let db = color.b as real - center.blue();
    dr * dr + dg * dg + db * db
}

/// The numerator of a distance: a plain number where it fits in `u128`, as
/// it does for the pictures of every day, and a wide one where it does not.
#[derive(Debug)]
enum Numerator {
    Small(u128),
    Large(Wide),
}

impl Numerator {
    spec fn is_small(&self) -> bool {
        self is Small
    }

    spec fn value(&self) -> nat {
        match self {
            Numerator::Small(n) => *n as nat,
            Numerator::Large(w) => w@,
        }
    }

    fn times(&self, factor: u128) -> (product: Wide)
        ensures
            product@ == self.value() * factor,
    {
        match self {
            Numerator::Small(n) => Wide::from_u128(*n).times(&Wide::from_u128(factor)),
            Numerator::Large(w) => w.times(&Wide::from_u128(factor)),
        }
    }
}

/// A squared distance, held exactly as a fraction.
#[derive(Debug)]
pub struct Distance {
    numer: Numerator,
    denom: u128,
}

impl View for Distance {
    type V = real;

    closed spec fn view(&self) -> real {
        (self.numer.value() as real) / (self.denom as real)
    }
}

impl Distance {
    /// The denominator is positive.
    pub closed spec fn wf(&self) -> bool {
        self.denom > 0
    }

    /// The distance `numer / denom`.
    pub fn from_fraction(numer: u128, denom: u128) -> (d: Distance)
        requires
            denom > 0,
        ensures
            d.wf(),
            d@ == (numer as real) / (denom as real),
    {
        Distance { numer: Numerator::Small(numer), denom }
    }

    /// The two cross products, where both numerators are plain and the
    /// products fit in `u128`, and nothing where they are not or do not.
    fn small_cross(&self, other: &Distance) -> (cross: Option<(u128, u128)>)
        ensures
            cross == if self.numer.is_small() && other.numer.is_small() && self.numer.value()
                * other.denom <= u128::MAX && other.numer.value() * self.denom <= u128::MAX {
                Some(
                    (
                        (self.numer.value() * other.denom) as u128,
                        (other.numer.value() * self.denom) as u128,
                    ),
                )
            } else {
                None
            },
    {
        match (&self.numer, &other.numer) {
            (Numerator::Small(a), Numerator::Small(b)) => match (
                a.checked_mul(other.denom),
                b.checked_mul(self.denom),
            ) {
                (Some(left), Some(right)) => Some((left, right)),
                _ => None,
            },
            _ => None,
        }
    }

    /// Whether this distance is strictly smaller than `other`.
    pub fn lt(&self, other: &Distance) -> (less: bool)
        requires
            self.wf(),
            other.wf(),
        ensures
            less == (self@ < other@),
    {
        proof {
            lemma_fraction_lt(
                self.numer.value(),
                self.denom as nat,
                other.numer.value(),
                other.denom as nat,
            );
        }
        match self.small_cross(other) {
            Some((left, right)) => left < right,
            None => {
                let left = self.numer.times(other.denom);
                let right = other.numer.times(self.denom);
                left.lt(&right)
            },
        }
    }
}

proof fn lemma_fraction_lt(a: nat, b: nat, c: nat, d: nat)
    requires
        b > 0,
        d > 0,
    ensures
        ((a as real) / (b as real) < (c as real) / (d as real)) <==> a * d < c * b,
{
    assert(((a as real) / (b as real) < (c as real) / (d as real)) <==> a * d < c * b)
        by (nonlinear_arith)
        requires
            b > 0,
            d > 0,
    ;
}

/// The distance along one channel, scaled by the center's weight.
fn channel_offset(x: u32, sum: u128, weight: u64) -> (t: u128)
    requires
        sum <= weight * u32::MAX,
    ensures
        t == x * weight - sum || t == sum - x * weight,
        t <= weight * u32::MAX,
{
    assert(x * weight <= weight * u32::MAX) by (nonlinear_arith)
        requires
            x <= u32::MAX,
    ;
    let scaled: u128 = x as u128 * weight as u128;
    if scaled >= sum {
        scaled - sum
    } else {
        sum - scaled
    }
}

proof fn lemma_channel_term(x: nat, sum: nat, weight: nat, t: nat)
    requires
        weight > 0,
        t == x * weight - sum || t == sum - x * weight,
    ensures
        (t * t) as real / (weight * weight) as real == (x as real - sum as real / weight as real) * (
        x as real - sum as real / weight as real),
{
    assert((t * t) as real / (weight * weight) as real == (x as real - sum as real / weight as real)
        * (x as real - sum as real / weight as real)) by (nonlinear_arith)
        requires
            weight > 0,
            t == x * weight - sum || t == sum - x * weight,
    ;
}

proof fn lemma_fraction_sum(a: nat, b: nat, c: nat, d: nat)
    requires
        d > 0,
    ensures
        (a + b + c) as real / d as real == a as real / d as real + b as real / d as real + c as real
            / d as real,
{
    assert((a + b + c) as real / d as real == a as real / d as real + b as real / d as real
        + c as real / d as real) by (nonlinear_arith)
        requires
            d > 0,
    ;
}

/// The sum of the three squares, where it fits in `u128`.
fn small_square_sum(tr: u128, tg: u128, tb: u128) -> (sum: Option<u128>)
    ensures
        sum == if tr * tr + tg * tg + tb * tb <= u128::MAX {
            Some((tr * tr + tg * tg + tb * tb) as u128)
        } else {
            None
        },
{
    assert(tr * tr >= 0 && tg * tg >= 0 && tb * tb >= 0) by (nonlinear_arith);
    match (tr.checked_mul(tr), tg.checked_mul(tg), tb.checked_mul(tb)) {
        (Some(r), Some(g), Some(b)) => match r.checked_add(g) {
            Some(rg) => rg.checked_add(b),
            None => None,
        },
        _ => None,
    }
}

/// The sum of the three squares.
fn square_sum(tr: u128, tg: u128, tb: u128) -> (sum: Numerator)
    ensures
        sum.value() == tr * tr + tg * tg + tb * tb,
{
    match small_square_sum(tr, tg, tb) {
        Some(sum) => Numerator::Small(sum),
        None => {
            let wr = Wide::from_u128(tr);
            let wg = Wide::from_u128(tg);
            let wb = Wide::from_u128(tb);
            Numerator::Large(wr.times(&wr).plus(&wg.times(&wg)).plus(&wb.times(&wb)))
        },
    }
}

/// The squared distance from `color` to `center`.
pub fn squared_distance(color: &RgbColor, center: &ClusterCenter) -> (d: Distance)
    requires
        center.wf(),
    ensures
        d.wf(),
        d@ == spec_squared_distance(*color, *center),
{
    let tr = channel_offset(color.r, center.sum.r, center.weight);
    let tg = channel_offset(color.g, center.sum.g, center.weight);
    let tb = channel_offset(color.b, center.sum.b, center.weight);
    let numer = square_sum(tr, tg, tb);
    assert(center.weight * center.weight <= u128::MAX) by (nonlinear_arith)
        requires
            center.weight <= u64::MAX,
    ;
    assert(center.weight * center.weight > 0) by (nonlinear_arith)
        requires
            center.weight > 0,
    ;
    let denom: u128 = center.weight as u128 * center.weight as u128;
    proof {
        let w = center.weight as nat;
        lemma_channel_term(color.r as nat, center.sum.r as nat, w, tr as nat);
        lemma_channel_term(color.g as nat, center.sum.g as nat, w, tg as nat);
        lemma_channel_term(color.b as nat, center.sum.b as nat, w, tb as nat);
        lemma_fraction_sum((tr * tr) as nat, (tg * tg) as nat, (tb * tb) as nat, w * w);
    }
    Distance { numer, denom }
}

/// `j` is the first position in `values` that holds their minimum.
pub open spec fn is_first_minimum(values: Seq<Distance>, j: int) -> bool {
    &&& 0 <= j < values.len()
    &&& forall|i: int| 0 <= i < values.len() ==> values[j]@ <= (#[trigger] values[i])@
    &&& forall|i: int| 0 <= i < j ==> values[j]@ < (#[trigger] values[i])@
}

/// The position of the smallest distance; of several equal ones, the first.
pub fn min_distance_index(values: &Vec<Distance>) -> (index: usize)
    requires
        values.len() > 0,
        forall|i: int| 0 <= i < values.len() ==> (#[trigger] values[i]).wf(),
    ensures
        is_first_minimum(values@, index as int),
{
    let mut index_of_min_value: usize = 0;
    let mut i: usize = 1;
    while i < values.len()
        invariant
            1 <= i <= values.len(),
            index_of_min_value < i,
            forall|j: int| 0 <= j < values.len() ==> (#[trigger] values[j]).wf(),
            forall|j: int| 0 <= j < i ==> values[index_of_min_value as int]@ <= (#[trigger] values[j])@,
            forall|j: int|
                0 <= j < index_of_min_value ==> values[index_of_min_value as int]@ < (
                #[trigger] values[j])@,
        decreases values.len() - i,
    {
        if values[i].lt(&values[index_of_min_value]) {
            index_of_min_value = i;
        }
        i += 1;
    }
    index_of_min_value
}

/// `j` is the first of the `centers` that no other is closer to `color` than.
pub open spec fn is_nearest(color: RgbColor, centers: Seq<ClusterCenter>, j: int) -> bool {
    &&& 0 <= j < centers.len()
    &&& forall|i: int|
        0 <= i < centers.len() ==> spec_squared_distance(color, centers[j])
            <= spec_squared_distance(color, #[trigger] centers[i])
    &&& forall|i: int|
        0 <= i < j ==> spec_squared_distance(color, centers[j]) < spec_squared_distance(
            color,
            #[trigger] centers[i],
        )
}

/// The position of the center nearest to `color`; of several at the same
/// distance, the first.
pub open spec fn nearest_center(color: RgbColor, centers: Seq<ClusterCenter>) -> int {
    choose|j: int| is_nearest(color, centers, j)
}

/// There is only one nearest center, and `nearest_center` names it.
pub proof fn lemma_nearest_unique(color: RgbColor, centers: Seq<ClusterCenter>, j: int)
    requires
        is_nearest(color, centers, j),
    ensures
        nearest_center(color, centers) == j,
{
    let other = nearest_center(color, centers);
    assert(is_nearest(color, centers, other));
    if other < j {
        assert(spec_squared_distance(color, centers[j]) < spec_squared_distance(
            color,
            centers[other],
        ));
    } else if j < other {
        assert(spec_squared_distance(color, centers[other]) < spec_squared_distance(
            color,
            centers[j],
        ));
    }
}

/// Among one or more centers there is a nearest one.
pub proof fn lemma_nearest_exists(color: RgbColor, centers: Seq<ClusterCenter>)
    requires
        centers.len() > 0,
    ensures
        is_nearest(color, centers, nearest_center(color, centers)),
    decreases centers.len(),
{
    if centers.len() == 1 {
        assert(is_nearest(color, centers, 0));
    } else {
        let front = centers.drop_last();
        lemma_nearest_exists(color, front);
        let j = nearest_center(color, front);
        let last = centers.len() - 1;
        assert forall|i: int| 0 <= i < front.len() implies spec_squared_distance(color, centers[j])
            <= spec_squared_distance(color, #[trigger] centers[i]) by {
            assert(front[i] == centers[i]);
        }
        assert forall|i: int| 0 <= i < j implies spec_squared_distance(color, centers[j])
            < spec_squared_distance(color, #[trigger] centers[i]) by {
            assert(front[i] == centers[i]);
        }
        if spec_squared_distance(color, centers[last]) < spec_squared_distance(color, centers[j]) {
            assert(is_nearest(color, centers, last));
        } else {
            assert(is_nearest(color, centers, j));
        }
    }
}

/// The position of the center nearest to `color`.
pub fn nearest_center_index(color: &RgbColor, centers: &Vec<ClusterCenter>) -> (index: usize)
    requires
        centers.len() > 0,
        forall|c: int| 0 <= c < centers.len() ==> (#[trigger] centers[c]).wf(),
    ensures
        is_nearest(*color, centers@, index as int),
        index == nearest_center(*color, centers@),
{
    let mut distances: Vec<Distance> = Vec::new();
    let mut c: usize = 0;
    while c < centers.len()
        invariant
            c <= centers.len(),
            distances.len() == c,
            forall|j: int| 0 <= j < centers.len() ==> (#[trigger] centers[j]).wf(),
            forall|j: int| 0 <= j < c ==> (#[trigger] distances[j]).wf(),
            forall|j: int|
                0 <= j < c ==> (#[trigger] distances[j])@ == spec_squared_distance(
                    *color,
                    centers[j],
                ),
        decreases centers.len() - c,
    {
        distances.push(squared_distance(color, &centers[c]));
        c += 1;
    }
    let index = min_distance_index(&distances);
    proof {
        assert forall|i: int| 0 <= i < centers.len() implies spec_squared_distance(
            *color,
            centers[index as int],
        ) <= spec_squared_distance(*color, #[trigger] centers[i]) by {
            assert(distances[index as int]@ <= distances[i]@);
        }
        assert forall|i: int| 0 <= i < index implies spec_squared_distance(
            *color,
            centers[index as int],
        ) < spec_squared_distance(*color, #[trigger] centers[i]) by {
            assert(distances[index as int]@ < distances[i]@);
        }
        lemma_nearest_unique(*color, centers@, index as int);
    }
    index
}

} // verus!
