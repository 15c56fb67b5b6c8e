//! The part of one axis of an image that is shown at some zoom around some point.
use crate::number::binary::{absolute, Binary};
use crate::number::reals::lemma_divides;
use crate::number::scale::power;
use vstd::arithmetic::power2::{lemma2_to64, lemma_pow2_adds, pow2};
use vstd::prelude::*;

verus! {

impl<const F: u32, const TOP: u32> Binary<F, TOP> {
    /// The zoom in force: `self`, but never less than one.
    pub open spec fn magnification(self) -> Self {
        self.maximum(Self::integer(1))
    }

    /// How many pixels are shown: `extent` divided by the zoom, but at least one, and
    /// never more than there are.
    pub open spec fn shown_length(extent: nat, zoom: Self) -> Self {
        Self::integer(extent).quotient(zoom.magnification()).maximum(Self::integer(1)).minimum(
            Self::integer(extent),
        )
    }

    /// The last position at which `length` pixels still lie inside the image.
    pub open spec fn last_start(extent: nat, length: Self) -> Self {
        Self::integer(extent).difference(length).maximum(Self::integer(0))
    }

    /// Where the shown part starts: half its length before `center`, moved inside the
    /// image.
    pub open spec fn shown_start(extent: nat, zoom: Self, center: Self) -> Self {
        let length = Self::shown_length(extent, zoom);
        center.difference(length.quotient(Self::integer(2))).clamped(
            Self::integer(0),
            Self::last_start(extent, length),
        )
    }

    /// The start and the length of the part of an axis that is shown.
    pub fn shown(extent: u32, zoom: Self, center: Self) -> (r: (Self, Self))
        requires
            Self::standard(),
        ensures
            r.0 == Self::shown_start(extent as nat, zoom, center),
            r.1 == Self::shown_length(extent as nat, zoom),
    {
        let zero: Self = Self::from_integer(false, 0);
        let one: Self = Self::from_integer(false, 1);
        let two: Self = Self::from_integer(false, 2);
        let whole: Self = Self::from_integer(false, extent as u64);
        let length: Self = whole.over(zoom.larger(one)).larger(one).smaller(whole);
        let last: Self = whole.minus(length).larger(zero);
        proof {
            Self::lemma_last_start(extent as nat, length);
        }
        (center.minus(length.over(two)).clamp_to(zero, last), length)
    }

    /// Zero does not exceed the last start, which is a number.
    pub proof fn lemma_last_start(extent: nat, length: Self)
        requires
            Self::standard(),
        ensures
            !Self::integer(0).is_nan(),
            Self::integer(0).value() == 0real,
            !Self::last_start(extent, length).is_nan(),
            Self::last_start(extent, length).value() >= 0real,
    {
        Self::lemma_limits();
        Self::lemma_integer(0);
    }

    /// The zoom in force is a number, and not less than one.
    pub proof fn lemma_magnification(self)
        requires
            Self::standard(),
        ensures
            !self.magnification().is_nan(),
            !self.magnification().negative,
            self.magnification().value() >= 1real,
            self.is_nan() || self.value() <= 1real ==> self.magnification().value() == 1real,
    {
        Self::lemma_limits();
        Self::lemma_integer(1);
        Self::lemma_value_order(self, Self::integer(1));
        Self::lemma_value_order(self.magnification(), self.magnification());
    }

    /// What lies between zero and a finite number rounds to a finite number between
    /// zero and that one.
    pub proof fn lemma_rounds_within(self, x: real)
        requires
            Self::standard(),
            self.is_finite(),
            0real <= x <= self.value(),
        ensures
            Self::rounded(x).is_finite(),
            !Self::rounded(x).negative,
            0real <= Self::rounded(x).value() <= self.value(),
    {
        self.lemma_within(x);
        Self::lemma_value_order(Self::rounded(x), Self::rounded(x));
    }

    /// The extent of an image, rounded, is finite, and not less than one unless it is zero.
    pub proof fn lemma_extent(extent: nat)
        requires
            Self::standard(),
            extent <= u32::MAX,
        ensures
            Self::integer(extent).is_finite(),
            !Self::integer(extent).negative,
            extent >= 1 ==> Self::integer(extent).value() >= 1real,
            Self::integer(extent).value() <= 0x1_0000_0000 as real,
            extent < 2 * pow2(F as nat) ==> Self::integer(extent).value() == extent as real,
            extent < pow2(F as nat) ==> Self::integer(extent).magnitude % 2 == 0,
    {
        Self::lemma_limits();
        Self::lemma_unit();
        Self::lemma_integer(1);
        if extent < 2 * pow2(F as nat) {
            Self::lemma_integer(extent);
        }
        let (scale, u, g) = (
            Self::scale(),
            power(-(Self::scale() as int)),
            power(Self::scale() as int),
        );
        // Two to the 32 is representable.
        lemma_pow2_adds(32, scale);
        lemma2_to64();
        Self::lemma_multiple(1, 32 + scale);
        let top = Self::rounded(((1 * pow2(32 + scale)) as real) * u);
        let (w, p) = (pow2(scale), 0x1_0000_0000nat);
        assert(((p * w) as real) * u == p as real) by (nonlinear_arith)
            requires
                g == w as real,
                u * g == 1real,
        ;
        assert(top.value() == p as real);
        top.lemma_within(extent as real);
        let one = Self::integer(1);
        one.lemma_exact();
        one.lemma_bounded(1real);
        if extent >= 1 {
            Self::lemma_order(1real, extent as real);
        }
    }

    /// Dividing by a number that is not less than one gives a finite number.
    pub proof fn lemma_quotient_within(self, other: Self)
        requires
            Self::standard(),
            self.is_finite(),
            !self.negative,
            other.is_finite(),
            !other.negative,
            other.value() >= 1real,
        ensures
            !self.is_zero() ==> self.quotient(other) == Self::rounded(
                self.value() / other.value(),
            ),
            self.quotient(other).is_finite(),
            !self.quotient(other).negative,
            0real <= self.quotient(other).value() <= self.value(),
    {
        Self::lemma_limits();
        Self::lemma_value_order(self, self);
        Self::lemma_value_order(other, other);
        Self::lemma_value_order(Self::zero(false), Self::zero(false));
        lemma_quotient_shrinks(self.value(), other.value());
        self.lemma_rounds_within(self.value() / other.value());
    }

    /// The quotient by a finite number of one or more has the rounded value of the exact
    /// quotient.
    pub proof fn lemma_quotient_rounded(self, other: Self)
        requires
            Self::standard(),
            self.is_finite(),
            other.is_finite(),
            !other.negative,
            other.value() >= 1real,
        ensures
            self.quotient(other).value() == Self::rounded(self.value() / other.value()).value(),
            self.quotient(other).magnitude == Self::rounded(
                self.value() / other.value(),
            ).magnitude,
            self.quotient(other).is_finite(),
            Self::bounded(self.value() / other.value()),
    {
        Self::lemma_limits();
        Self::lemma_value_order(self, self);
        Self::lemma_value_order(other, other);
        self.lemma_quotient_size(other);
        self.size().lemma_quotient_within(other);
        let (x, y) = (self.value(), other.value());
        let z = Self::zero(false);
        Self::lemma_value_order(z, z);
        Self::lemma_value_order(Self::zero(true), Self::zero(true));
        z.lemma_exact();
        assert(0real / y == 0real) by (nonlinear_arith)
            requires
                y >= 1real,
        ;
        lemma_quotient_shrinks(absolute(x), y);
        assert((-x) / y == -(x / y)) by (nonlinear_arith)
            requires
                y >= 1real,
        ;
        self.lemma_bounded(x / y);
    }

    /// What is empty starts at the beginning.
    pub proof fn lemma_last_start_of_nothing(length: Self)
        requires
            Self::standard(),
            length.is_finite(),
            length.value() == 0real,
        ensures
            Self::last_start(0, length).value() == 0real,
    {
        Self::lemma_limits();
        Self::lemma_integer(0);
        let zero = Self::integer(0);
        zero.lemma_exact();
        Self::lemma_difference(zero, length);
    }

    /// The sign of a number makes no difference to the size of a quotient.
    pub proof fn lemma_quotient_size(self, other: Self)
        requires
            Self::standard(),
            self.is_finite(),
            other.is_finite(),
            !other.negative,
            other.value() >= 1real,
        ensures
            self.quotient(other).magnitude == self.size().quotient(other).magnitude,
    {
        Self::lemma_limits();
        Self::lemma_value_order(self, self);
        Self::lemma_value_order(other, other);
        let (x, y) = (self.value(), other.value());
        assert(self.size().value() == absolute(x));
        assert((-x) / y == -(x / y)) by (nonlinear_arith)
            requires
                y >= 1real,
        ;
        Self::lemma_opposite(x / y);
    }

    /// The shown part is at most as long as the image and, unless that is empty, at least
    /// one pixel long.
    pub proof fn shown_length_is_within_extent(extent: nat, zoom: Self)
        requires
            Self::standard(),
            extent <= u32::MAX,
        ensures
            Self::shown_length(extent, zoom).is_finite(),
            !Self::shown_length(extent, zoom).negative,
            0real <= Self::shown_length(extent, zoom).value() <= Self::integer(extent).value(),
            extent >= 1 ==> Self::shown_length(extent, zoom).value() >= 1real,
    {
        Self::lemma_limits();
        let s = Self::integer(extent);
        let z = zoom.magnification();
        zoom.lemma_magnification();
        Self::lemma_integer(1);
        Self::lemma_extent(extent);
        Self::lemma_value_order(z, z);
        Self::lemma_value_order(s, s);
        let q = s.quotient(z);
        if z.is_finite() {
            s.lemma_quotient_within(z);
        } else {
            assert(q == Self::zero(false));
            Self::lemma_value_order(q, q);
        }
        Self::lemma_value_order(q.maximum(Self::integer(1)), s);
    }

    /// The last start is not negative and lies inside the image.
    proof fn lemma_last_start_fits(extent: nat, length: Self)
        requires
            Self::standard(),
            extent <= u32::MAX,
            length.is_finite(),
            !length.negative,
            length.value() <= Self::integer(extent).value(),
        ensures
            ({
                let s = Self::integer(extent);
                let last = Self::last_start(extent, length);
                &&& last.is_finite()
                &&& !last.negative
                &&& last.magnitude == Self::rounded(s.value() - length.value()).magnitude
                &&& last.value() == Self::rounded(s.value() - length.value()).value()
            }),
    {
        Self::lemma_limits();
        let s = Self::integer(extent);
        Self::lemma_integer(0);
        Self::lemma_extent(extent);
        Self::lemma_value_order(length, length);
        s.lemma_rounds_within(s.value() - length.value());
        Self::lemma_difference(s, length);
        let d = s.difference(length);
        assert(length.negated().value() == -length.value());
        Self::lemma_value_order(d, d);
        Self::lemma_value_order(Self::integer(0), Self::integer(0));
        Self::lemma_value_order(d, Self::integer(0));
    }

    /// The last start lies inside the image.
    pub proof fn lemma_last_start_below(extent: nat, length: Self)
        requires
            Self::standard(),
            extent <= u32::MAX,
            length.is_finite(),
            !length.negative,
            length.value() <= Self::integer(extent).value(),
        ensures
            Self::last_start(extent, length).value() <= Self::integer(extent).value(),
    {
        Self::lemma_last_start_fits(extent, length);
        Self::lemma_extent(extent);
        let s = Self::integer(extent);
        Self::lemma_value_order(s, s);
        Self::lemma_value_order(length, length);
        s.lemma_rounds_within(s.value() - length.value());
    }

    /// Before it is moved inside the image, the start of the shown part is a number.
    proof fn lemma_unmoved_start(extent: nat, zoom: Self, center: Self)
        requires
            Self::standard(),
            extent <= u32::MAX,
            !center.is_nan(),
        ensures
            ({
                let half = Self::shown_length(extent, zoom).quotient(Self::integer(2));
                &&& half.is_finite()
                &&& !center.difference(half).is_nan()
            }),
    {
        Self::lemma_limits();
        Self::lemma_integer(2);
        let length = Self::shown_length(extent, zoom);
        let two = Self::integer(2);
        Self::shown_length_is_within_extent(extent, zoom);
        Self::lemma_value_order(length, length);
        length.lemma_quotient_within(two);
    }

    /// The shown part starts inside the image, early enough for its length.
    pub proof fn shown_part_starts_inside(extent: nat, zoom: Self, center: Self)
        requires
            Self::standard(),
            extent <= u32::MAX,
            !center.is_nan(),
        ensures
            ({
                let start = Self::shown_start(extent, zoom, center);
                let length = Self::shown_length(extent, zoom);
                &&& start.is_finite()
                &&& 0real <= start.value() <= Self::last_start(extent, length).value()
            }),
    {
        Self::lemma_limits();
        let start = Self::shown_start(extent, zoom, center);
        let length = Self::shown_length(extent, zoom);
        let last = Self::last_start(extent, length);
        Self::lemma_integer(0);
        Self::shown_length_is_within_extent(extent, zoom);
        Self::lemma_last_start_fits(extent, length);
        Self::lemma_unmoved_start(extent, zoom, center);
        Self::lemma_last_start(extent, length);
        Self::lemma_value_order(last, start);
        Self::lemma_value_order(start, start);
    }

    /// The shown part never leaves the image: adding its length to its start, it ends
    /// at or before the last pixel. The position of the end of the image has to be
    /// even; that of every extent below two to the `F` is.
    pub proof fn shown_part_stays_inside(extent: nat, zoom: Self, center: Self)
        requires
            Self::standard(),
            extent <= u32::MAX,
            Self::integer(extent).magnitude % 2 == 0,
            !center.is_nan(),
        ensures
            ({
                let start = Self::shown_start(extent, zoom, center);
                let length = Self::shown_length(extent, zoom);
                &&& start.sum(length).is_finite()
                &&& 0real <= start.sum(length).value() <= Self::integer(extent).value()
            }),
    {
        Self::lemma_limits();
        let s = Self::integer(extent);
        let start = Self::shown_start(extent, zoom, center);
        let length = Self::shown_length(extent, zoom);
        let last = Self::last_start(extent, length);
        Self::lemma_integer(0);
        Self::lemma_extent(extent);
        Self::shown_length_is_within_extent(extent, zoom);
        Self::shown_part_starts_inside(extent, zoom, center);
        Self::lemma_last_start_fits(extent, length);
        Self::lemma_take_and_add_back(s, length);
        // Its end does not pass the end of a part that starts last.
        Self::lemma_sum(start, length);
        Self::lemma_bounded_sum(start, length);
        Self::lemma_bounded_sum(last, length);
        Self::lemma_order(start.value() + length.value(), last.value() + length.value());
        let end = Self::rounded(last.value() + length.value());
        Self::lemma_value_order(s, end);
        Self::lemma_value_order(s, start.sum(length));
        Self::lemma_value_order(start.sum(length), start.sum(length));
        s.lemma_rounds_within(0real);
        let zero = Self::integer(0);
        zero.lemma_bounded(0real);
        zero.lemma_exact();
        Self::lemma_order(0real, start.value() + length.value());
    }

    /// At a zoom of one, or less, the whole axis is shown, wherever the center is.
    pub proof fn zoom_one_shows_whole_axis(extent: nat, zoom: Self, center: Self)
        requires
            Self::standard(),
            extent <= u32::MAX,
            !center.is_nan(),
            zoom.is_nan() || zoom.value() <= 1real,
        ensures
            Self::shown_length(extent, zoom) == Self::integer(extent),
            Self::shown_start(extent, zoom, center).is_finite(),
            Self::shown_start(extent, zoom, center).value() == 0real,
    {
        Self::lemma_limits();
        let s = Self::integer(extent);
        let z = zoom.magnification();
        let one = Self::integer(1);
        zoom.lemma_magnification();
        Self::lemma_integer(0);
        Self::lemma_integer(1);
        Self::lemma_extent(extent);
        Self::lemma_value_order(one, z);
        Self::lemma_value_order(z, z);
        Self::lemma_value_order(s, s);
        assert(z.is_finite());
        s.lemma_exact();
        let e = s.value();
        assert(e / 1real == e) by (nonlinear_arith);
        assert(s.quotient(z) == s);
        Self::lemma_value_order(one, s);
        let length = Self::shown_length(extent, zoom);
        assert(length == s);
        Self::lemma_last_start_fits(extent, length);
        let zero = Self::integer(0);
        zero.lemma_exact();
        Self::shown_part_starts_inside(extent, zoom, center);
    }
}

impl<const F: u32, const TOP: u32> Binary<F, TOP> {
    /// The shown part shrinks as the zoom grows: it is as long as the image divided by the
    /// zoom, up to rounding, but not shorter than one pixel. A zoom below one, or one that
    /// is not a number, counts as one.
    pub proof fn shown_length_is_the_extent_over_the_zoom(extent: nat, zoom: Self)
        requires
            Self::standard(),
            1 <= extent <= u32::MAX,
        ensures
            ({
                let s = Self::integer(extent).value();
                let m = if zoom.is_nan() || zoom.value() < 1real {
                    1real
                } else {
                    zoom.value()
                };
                let l = Self::shown_length(extent, zoom).value();
                let e = 2real * (s * Self::grain());
                &&& s <= m ==> l == 1real
                &&& s >= m ==> s / m - e <= l <= s / m + e
            }),
    {
        Self::lemma_limits();
        Self::lemma_extent(extent);
        Self::lemma_integer(1);
        Self::shown_length_is_within_extent(extent, zoom);
        zoom.lemma_magnification();
        let whole = Self::integer(extent);
        let one = Self::integer(1);
        let z = zoom.magnification();
        let s = whole.value();
        let m = z.value();
        Self::lemma_value_order(whole, whole);
        Self::lemma_value_order(z, z);
        Self::lemma_value_order(one, zoom);
        Self::lemma_value_order(zoom, zoom);
        Self::lemma_grain();
        let q = whole.quotient(z);
        lemma_quotient_shrinks(s, m);
        lemma_quotient_at_least_one(s, m);
        let e = 2real * (s * Self::grain());
        assert(e >= 0real) by (nonlinear_arith)
            requires
                e == 2real * (s * Self::grain()),
                s >= 0real,
                Self::grain() >= 0real,
        ;
        if z.is_finite() {
            whole.lemma_quotient_within(z);
            let x = s / m;
            Self::lemma_near(x, s);
            one.lemma_exact();
            one.lemma_bounded(1real);
            if s <= m {
                Self::lemma_order(x, 1real);
            } else {
                Self::lemma_order(1real, x);
            }
        } else {
            assert(q == Self::zero(false));
            Self::lemma_value_order(q, q);
            z.lemma_infinite();
        }
    }

    /// The shown part surrounds its center: it starts half its length before it, up to
    /// rounding, unless it would leave the image there; then it starts at the end of the
    /// image that is nearest.
    pub proof fn shown_part_surrounds_its_center(extent: nat, zoom: Self, center: Self)
        requires
            Self::standard(),
            1 <= extent <= u32::MAX,
            !center.is_nan(),
        ensures
            ({
                let s = Self::integer(extent).value();
                let l = Self::shown_length(extent, zoom).value();
                let start = Self::shown_start(extent, zoom, center).value();
                let want = center.value() - l / 2real;
                let place = if want < 0real {
                    0real
                } else if want > s - l {
                    s - l
                } else {
                    want
                };
                let e = 16real * (s * Self::grain());
                place - e <= start <= place + e
            }),
    {
        Self::lemma_limits();
        Self::lemma_grain();
        Self::lemma_extent(extent);
        Self::lemma_integer(0);
        Self::lemma_integer(2);
        Self::shown_length_is_within_extent(extent, zoom);
        Self::shown_part_starts_inside(extent, zoom, center);
        let (whole, two, zero) = (Self::integer(extent), Self::integer(2), Self::integer(0));
        let length = Self::shown_length(extent, zoom);
        let last = Self::last_start(extent, length);
        let (s, l, c) = (whole.value(), length.value(), center.value());
        Self::lemma_last_start_fits(extent, length);
        Self::lemma_unmoved_start(extent, zoom, center);
        let half = length.quotient(two);
        let unmoved = center.difference(half);
        Self::lemma_value_order(length, length);
        Self::lemma_value_order(center, center);
        length.lemma_quotient_within(two);
        Self::lemma_near(l / 2real, s);
        Self::lemma_near(s - l, s);
        let t = s * Self::grain();
        assert(t >= 0real) by (nonlinear_arith)
            requires
                t == s * Self::grain(),
                s >= 0real,
                Self::grain() >= 0real,
        ;
        whole.lemma_exact();
        whole.lemma_bounded(s);
        whole.lemma_bounded(-s);
        Self::lemma_opposite(s);
        whole.lemma_rounds_within(s - l);
        if center.is_finite() {
            Self::lemma_difference(center, half);
            assert(half.negated().value() == -half.value());
            Self::lemma_bounded_sum(center, half.negated());
            let x = c - half.value();
            if c > 4real * s {
                Self::lemma_order(s, x);
            } else if c < -(4real * s) {
                Self::lemma_order(x, -s);
            } else {
                Self::lemma_near(x, 5real * s);
                assert(5real * s * Self::grain() == 5real * t) by (nonlinear_arith)
                    requires
                        t == s * Self::grain(),
                ;
            }
        } else {
            assert(unmoved == center);
            center.lemma_infinite();
        }
    }
}

/// A quotient is at least one exactly if what is divided is at least the divisor.
proof fn lemma_quotient_at_least_one(s: real, z: real)
    requires
        z > 0real,
    ensures
        s <= z ==> s / z <= 1real,
        s >= z ==> s / z >= 1real,
{
    let q = s / z;
    lemma_divides(s, z);
    assert(q > 1real ==> q * z > z) by (nonlinear_arith)
        requires
            z > 0real,
    ;
    assert(q < 1real ==> q * z < z) by (nonlinear_arith)
        requires
            z > 0real,
    ;
}

/// A number divided by one that is not less than one does not grow.
proof fn lemma_quotient_shrinks(s: real, z: real)
    requires
        s >= 0real,
        z >= 1real,
    ensures
        0real <= s / z <= s,
{
    let q = s / z;
    lemma_divides(s, z);
    if q > s {
        assert(q * z >= q) by (nonlinear_arith)
            requires
                q > s,
                s >= 0real,
                z >= 1real,
        ;
    }
    if q < 0real {
        assert(q * z < 0real) by (nonlinear_arith)
            requires
                q < 0real,
                z >= 1real,
        ;
    }
}

} // verus!
