//! Crop-rectangle geometry.
//!
//! The compositor scales and filters; all that is computed per frame is which
//! sub-rectangle of the frozen source maps to the whole output.
use crate::number::binary::{absolute, double, Binary32, Binary64};
use crate::number::scale::{exponent, lemma_parts, lemma_power_shift, power, significand};
use vstd::arithmetic::power2::{lemma_pow2_adds, pow2};
use vstd::prelude::*;
use vstd::std_specs::cmp::PartialEqSpecImpl;

verus! {

/// A source rectangle in source-pixel coordinates (fractional for sub-pixel pans).
#[derive(Debug, Clone, Copy)]
pub struct Rect {
    pub x: Binary64,
    pub y: Binary64,
    pub w: Binary64,
    pub h: Binary64,
}

impl Rect {
    /// Whether two rectangles have the same place and size.
    pub open spec fn equals(self, other: Self) -> bool {
        &&& self.x.equals(other.x)
        &&& self.y.equals(other.y)
        &&& self.w.equals(other.w)
        &&& self.h.equals(other.h)
    }
}

impl PartialEq for Rect {
    fn eq(&self, other: &Self) -> (r: bool) {
        self.x.same_value(other.x) && self.y.same_value(other.y) && self.w.same_value(other.w)
            && self.h.same_value(other.h)
    }
}

impl PartialEqSpecImpl for Rect {
    open spec fn obeys_eq_spec() -> bool {
        true
    }

    open spec fn eq_spec(&self, other: &Self) -> bool {
        self.equals(*other)
    }
}

/// Rectangles are equal exactly if all four of their numbers have the same values.
pub proof fn equal_rects_have_the_same_numbers(a: Rect, b: Rect)
    requires
        !a.x.is_nan() && !a.y.is_nan() && !a.w.is_nan() && !a.h.is_nan(),
        !b.x.is_nan() && !b.y.is_nan() && !b.w.is_nan() && !b.h.is_nan(),
    ensures
        a.equals(b) <==> {
            &&& a.x.value() == b.x.value()
            &&& a.y.value() == b.y.value()
            &&& a.w.value() == b.w.value()
            &&& a.h.value() == b.h.value()
        },
{
}

/// How many source pixels of an axis are shown.
pub open spec fn crop_length(source: nat, zoom: Binary32) -> Binary64 {
    Binary64::shown_length(source, zoom.converted::<52, 2047>())
}

/// The cursor, given in logical coordinates, in source pixels.
pub open spec fn cursor_in_source(source: nat, logical: nat, cursor: Binary64) -> Binary64 {
    cursor.quotient(
        double(
            if logical < 1 {
                1
            } else {
                logical
            },
        ),
    ).product(double(source))
}

/// Where the crop of an axis starts.
pub open spec fn crop_start(
    source: nat,
    logical: nat,
    cursor: Binary64,
    zoom: Binary32,
) -> Binary64 {
    Binary64::shown_start(
        source,
        zoom.converted::<52, 2047>(),
        cursor_in_source(source, logical, cursor),
    )
}

/// The source crop for a cursor and a zoom.
pub open spec fn crop(
    src_w: nat,
    src_h: nat,
    logical_w: nat,
    logical_h: nat,
    cursor: (Binary64, Binary64),
    zoom: Binary32,
) -> Rect {
    Rect {
        x: crop_start(src_w, logical_w, cursor.0, zoom),
        y: crop_start(src_h, logical_h, cursor.1, zoom),
        w: crop_length(src_w, zoom),
        h: crop_length(src_h, zoom),
    }
}

/// Turns a logical coordinate of the cursor into source pixels.
fn to_source(source: u32, logical: u32, cursor: Binary64) -> (r: Binary64)
    ensures
        r == cursor_in_source(source as nat, logical as nat, cursor),
{
    let across: u64 = if logical < 1 {
        1
    } else {
        logical as u64
    };
    cursor.over(Binary64::from_integer(false, across)).times(
        Binary64::from_integer(false, source as u64),
    )
}

/// A part of one axis of the source is the one that belongs to a cursor and a zoom:
///
/// * it is as long as the axis divided by the zoom, but not shorter than one pixel, and
/// * its middle is the cursor, scaled from the logical size to the source, unless the part
///   would leave the source there; then it lies at the nearer end.
///
/// Rounding may add or take away one part in ten to the twelve of the axis. A zoom below
/// one, or one that is not a number, counts as one, and so does a logical size of zero.
#[verifier::opaque]
pub open spec fn belongs(
    source: u32,
    logical: u32,
    cursor: real,
    zoom: Binary32,
    start: real,
    length: real,
) -> bool {
    let s = source as real;
    let m = if zoom.is_nan() || zoom.value() < 1real {
        1real
    } else {
        zoom.value()
    };
    let across = if logical == 0 {
        1real
    } else {
        logical as real
    };
    let want = cursor / across * s - length / 2real;
    let place = if want < 0real {
        0real
    } else if want > s - length {
        s - length
    } else {
        want
    };
    let e = s / 1000000000000real;
    &&& s <= m && source >= 1 ==> length == 1real
    &&& s >= m ==> s / m - e <= length <= s / m + e
    &&& source == 0 ==> length == 0real
    &&& place - e <= start <= place + e
}

impl Rect {
    /// The rectangle is the part of the source that belongs to a cursor and a zoom.
    pub open spec fn belongs_to(
        self,
        source: (u32, u32),
        logical: (u32, u32),
        cursor: (Binary64, Binary64),
        zoom: Binary32,
    ) -> bool {
        &&& belongs(
            source.0,
            logical.0,
            cursor.0.value(),
            zoom,
            self.x.value(),
            self.w.value(),
        )
        &&& belongs(
            source.1,
            logical.1,
            cursor.1.value(),
            zoom,
            self.y.value(),
            self.h.value(),
        )
    }
}

/// Computes the source crop centred on the cursor for a given zoom.
///
/// * `cursor` is in surface-local *logical* coordinates (the full output).
/// * `zoom` is clamped to at least one; at one the whole source is returned.
/// * The rect is clamped so it never leaves the source image.
pub fn crop_source_rect(
    src_w: u32,
    src_h: u32,
    logical_w: u32,
    logical_h: u32,
    cursor: (Binary64, Binary64),
    zoom: Binary32,
) -> (r: Rect)
    ensures
        r == crop(
            src_w as nat,
            src_h as nat,
            logical_w as nat,
            logical_h as nat,
            cursor,
            zoom,
        ),
        cursor.0.is_finite() && cursor.1.is_finite() ==> r.belongs_to(
            (src_w, src_h),
            (logical_w, logical_h),
            cursor,
            zoom,
        ),
{
    proof {
        if cursor.0.is_finite() && cursor.1.is_finite() {
            crop_belongs_to_cursor_and_zoom(
                (src_w, src_h),
                (logical_w, logical_h),
                cursor,
                zoom,
            );
        }
    }
    let zoom: Binary64 = zoom.convert::<52, 2047>();
    let (x, w) = Binary64::shown(src_w, zoom, to_source(src_w, logical_w, cursor.0));
    let (y, h) = Binary64::shown(src_h, zoom, to_source(src_h, logical_h, cursor.1));
    Rect { x, y, w, h }
}

/// A cursor that has a place in the source: a number, and a finite one where the source
/// is empty.
pub open spec fn placed(source: u32, cursor: Binary64) -> bool {
    !cursor.is_nan() && (source == 0 ==> cursor.is_finite())
}

/// Such a cursor is a number in source pixels too.
proof fn lemma_cursor_in_source(source: u32, logical: u32, cursor: Binary64)
    requires
        placed(source, cursor),
    ensures
        !cursor_in_source(source as nat, logical as nat, cursor).is_nan(),
{
    Binary64::lemma_limits();
    Binary64::lemma_integer(
        if logical < 1 {
            1
        } else {
            logical as nat
        },
    );
    Binary64::lemma_integer(source as nat);
    let across = double(
        if logical < 1 {
            1
        } else {
            logical as nat
        },
    );
    Binary64::lemma_value_order(cursor, cursor);
    if cursor.is_finite() {
        cursor.size().lemma_quotient_within(across);
        cursor.lemma_quotient_size(across);
    }
}

/// Widening a number that does not exceed one does not make it exceed one.
proof fn lemma_small_zoom(zoom: Binary32)
    requires
        zoom.is_nan() || zoom.value() <= 1real,
    ensures
        zoom.converted::<52, 2047>().is_nan() || zoom.converted::<52, 2047>().value() <= 1real,
{
    Binary64::lemma_limits();
    Binary32::lemma_limits();
    Binary64::lemma_integer(1);
    Binary32::lemma_integer(1);
    let wide = zoom.converted::<52, 2047>();
    Binary32::lemma_value_order(Binary32::integer(1), zoom);
    Binary32::lemma_value_order(zoom, zoom);
    Binary64::lemma_value_order(wide, wide);
    if zoom.is_finite() && !zoom.is_zero() && !zoom.negative {
        double(1).lemma_rounds_within(zoom.value());
    }
}

/// The crop is at most the whole source in length and, unless that is empty, at least
/// one pixel.
pub proof fn crop_length_is_within_source(source: u32, zoom: Binary32)
    ensures
        crop_length(source as nat, zoom).is_finite(),
        0real <= crop_length(source as nat, zoom).value() <= source as real,
        source >= 1 ==> crop_length(source as nat, zoom).value() >= 1real,
{
    Binary64::lemma_limits();
    Binary64::lemma_extent(source as nat);
    Binary64::shown_length_is_within_extent(source as nat, zoom.converted::<52, 2047>());
}

/// The crop never leaves the source image: along either axis it starts at or after
/// the first pixel and, adding its length to its start, ends at or before the last.
pub proof fn crop_stays_inside_source(source: u32, logical: u32, cursor: Binary64, zoom: Binary32)
    requires
        placed(source, cursor),
    ensures
        ({
            let start = crop_start(source as nat, logical as nat, cursor, zoom);
            let length = crop_length(source as nat, zoom);
            &&& start.is_finite()
            &&& 0real <= start.value() <= Binary64::last_start(source as nat, length).value()
            &&& start.sum(length).is_finite()
            &&& start.sum(length).value() <= source as real
        }),
{
    Binary64::lemma_limits();
    Binary64::lemma_extent(source as nat);
    lemma_cursor_in_source(source, logical, cursor);
    let center = cursor_in_source(source as nat, logical as nat, cursor);
    let zoom = zoom.converted::<52, 2047>();
    Binary64::shown_part_starts_inside(source as nat, zoom, center);
    Binary64::shown_part_stays_inside(source as nat, zoom, center);
}

/// At a zoom of one, or less, the whole source is shown, wherever the cursor is.
pub proof fn zoom_one_shows_everything(source: u32, logical: u32, cursor: Binary64, zoom: Binary32)
    requires
        placed(source, cursor),
        zoom.is_nan() || zoom.value() <= 1real,
    ensures
        crop_length(source as nat, zoom) == double(source as nat),
        crop_length(source as nat, zoom).value() == source as real,
        crop_start(source as nat, logical as nat, cursor, zoom).value() == 0real,
{
    Binary64::lemma_limits();
    Binary64::lemma_extent(source as nat);
    lemma_cursor_in_source(source, logical, cursor);
    lemma_small_zoom(zoom);
    Binary64::zoom_one_shows_whole_axis(
        source as nat,
        zoom.converted::<52, 2047>(),
        cursor_in_source(source as nat, logical as nat, cursor),
    );
}

/// Widening a finite number keeps its value.
pub proof fn lemma_widened(x: Binary32)
    requires
        x.is_finite(),
    ensures
        x.converted::<52, 2047>().is_finite(),
        x.converted::<52, 2047>().value() == x.value(),
{
    Binary32::lemma_limits();
    Binary64::lemma_limits();
    Binary32::lemma_unit();
    Binary64::lemma_unit();
    let wide = x.converted::<52, 2047>();
    Binary64::lemma_value_order(wide, wide);
    Binary32::lemma_value_order(x, x);
    if !x.is_zero() {
        let b = x.magnitude as nat;
        lemma_parts(23, b);
        let (s, k) = (exponent(23, b), significand(23, b));
        lemma_exponent_below(x);
        // The same number in the smaller units.
        let e = s + 925;
        Binary64::lemma_multiple(k, e);
        lemma_pow2_adds(s, 925);
        lemma_power_shift(-1074, 925);
        let (u, v, w, q) = (power(-149), power(-1074), pow2(925), pow2(s));
        assert(k * (q * w) == (k * q) * w) by (nonlinear_arith);
        let n = (k * q) as real;
        assert(((k * q) * w) as real == n * (w as real)) by (nonlinear_arith)
            requires
                n == (k * q) as real,
        ;
        let g = w as real;
        assert((n * g) * v == n * u) by (nonlinear_arith)
            requires
                v * g == u,
        ;
        let size = n * u;
        Binary64::lemma_opposite(size);
    }
}

/// The exponent of a finite number is below that of infinity.
proof fn lemma_exponent_below(x: Binary32)
    requires
        x.is_finite(),
    ensures
        exponent(23, x.magnitude as nat) <= 253,
{
    Binary32::lemma_limits();
    let b = x.magnitude as nat;
    lemma_parts(23, b);
    let s = exponent(23, b);
    if s >= 254 {
        assert(s * 0x80_0000 >= 254 * 0x80_0000);
        assert(significand(23, b) >= 0x80_0000);
    }
}

/// The cursor in source pixels is the cursor scaled to the source, up to rounding, where
/// it is anywhere near.
proof fn lemma_cursor_scaled(source: u32, logical: u32, cursor: Binary64)
    requires
        source >= 1,
        cursor.is_finite(),
    ensures
        ({
            let across = if logical == 0 {
                1real
            } else {
                logical as real
            };
            let s = source as real;
            let t = cursor.value() / across;
            let c = cursor_in_source(source as nat, logical as nat, cursor);
            let e = 40real * (s * Binary64::grain());
            &&& !c.is_nan()
            &&& -8real <= t <= 8real ==> t * s - e <= c.value() <= t * s + e
            &&& t > 8real ==> c.value() >= s
            &&& t < -8real ==> c.value() <= -s
        }),
{
    Binary64::lemma_limits();
    Binary64::lemma_grain();
    lemma_cursor_in_source(source, logical, cursor);
    let n = if logical < 1 {
        1nat
    } else {
        logical as nat
    };
    Binary64::lemma_integer(n);
    Binary64::lemma_integer(source as nat);
    Binary64::lemma_extent(source as nat);
    Binary64::lemma_integer(8);
    let (across, whole, eight) = (double(n), double(source as nat), double(8));
    let (s, t) = (whole.value(), cursor.value() / across.value());
    let q = cursor.quotient(across);
    let c = cursor_in_source(source as nat, logical as nat, cursor);
    let g = Binary64::grain();
    cursor.lemma_quotient_rounded(across);
    Binary64::lemma_value_order(q, q);
    Binary64::lemma_value_order(whole, whole);
    whole.lemma_exact();
    whole.lemma_bounded(s);
    whole.lemma_bounded(-s);
    Binary64::lemma_opposite(s);
    eight.lemma_exact();
    eight.lemma_bounded(8real);
    eight.lemma_bounded(-8real);
    Binary64::lemma_opposite(8real);
    if -8real <= t <= 8real {
        Binary64::lemma_near(t, 8real);
        let v = q.value();
        Binary64::lemma_times(q, whole);
        let y = v * s;
        assert(absolute(y) <= 9real * s) by (nonlinear_arith)
            requires
                y == v * s,
                -9real <= v <= 9real,
                s >= 0real,
        ;
        Binary64::lemma_near(y, 9real * s);
        let w = s * g;
        assert(9real * s * g == 9real * w) by (nonlinear_arith)
            requires
                w == s * g,
        ;
        assert(t * s - 16real * w <= y <= t * s + 16real * w) by (nonlinear_arith)
            requires
                y == v * s,
                t - 16real * g <= v <= t + 16real * g,
                w == s * g,
                s >= 0real,
        ;
    } else {
        let v = q.value();
        if t > 8real {
            Binary64::lemma_order(8real, t);
        } else {
            Binary64::lemma_order(t, -8real);
        }
        if q.is_finite() {
            Binary64::lemma_times(q, whole);
            Binary64::lemma_bounded_product(q, whole);
            let y = v * s;
            if t > 8real {
                assert(y >= s) by (nonlinear_arith)
                    requires
                        y == v * s,
                        v >= 8real,
                        s >= 0real,
                ;
                Binary64::lemma_order(s, y);
            } else {
                assert(y <= -s) by (nonlinear_arith)
                    requires
                        y == v * s,
                        v <= -8real,
                        s >= 0real,
                ;
                Binary64::lemma_order(y, -s);
            }
        } else {
            assert(c.is_infinite());
            c.lemma_infinite();
            Binary64::lemma_value_order(c, c);
        }
    }
}

/// One axis of the crop belongs to the cursor and the zoom.
proof fn lemma_axis_belongs(source: u32, logical: u32, cursor: Binary64, zoom: Binary32)
    requires
        cursor.is_finite(),
    ensures
        belongs(
            source,
            logical,
            cursor.value(),
            zoom,
            crop_start(source as nat, logical as nat, cursor, zoom).value(),
            crop_length(source as nat, zoom).value(),
        ),
{
    reveal(belongs);
    Binary64::lemma_limits();
    Binary32::lemma_limits();
    Binary64::lemma_grain();
    let wide = zoom.converted::<52, 2047>();
    let center = cursor_in_source(source as nat, logical as nat, cursor);
    crop_length_is_within_source(source, zoom);
    crop_stays_inside_source(source, logical, cursor, zoom);
    Binary64::lemma_extent(source as nat);
    Binary64::lemma_integer(source as nat);
    let (s, g) = (source as real, Binary64::grain());
    let length = crop_length(source as nat, zoom);
    let l = length.value();
    let across = if logical == 0 {
        1real
    } else {
        logical as real
    };
    let t = cursor.value() / across;
    if source == 0 {
        assert(t * 0real == 0real) by (nonlinear_arith);
        Binary64::lemma_last_start_of_nothing(length);
    } else {
        let w = s * g;
        assert(100real * w <= s / 1000000000000real) by (nonlinear_arith)
            requires
                w == s * g,
                g == 1real / 0x20_0000_0000_0000 as real,
                s >= 0real,
        ;
        if zoom.is_finite() {
            lemma_widened(zoom);
        } else if zoom.is_infinite() {
            zoom.lemma_infinite();
            wide.lemma_infinite();
            Binary32::lemma_value_order(zoom, zoom);
            Binary64::lemma_value_order(wide, wide);
        }
        Binary64::shown_length_is_the_extent_over_the_zoom(source as nat, wide);
        lemma_cursor_scaled(source, logical, cursor);
        Binary64::shown_part_surrounds_its_center(source as nat, wide, center);
        let x = t * s;
        if t > 8real {
            assert(x >= s) by (nonlinear_arith)
                requires
                    x == t * s,
                    t > 8real,
                    s >= 0real,
            ;
        } else if t < -8real {
            assert(x <= -s) by (nonlinear_arith)
                requires
                    x == t * s,
                    t < -8real,
                    s >= 0real,
            ;
        }
    }
}

/// The crop is the part of the source that belongs to the cursor and the zoom.
pub proof fn crop_belongs_to_cursor_and_zoom(
    source: (u32, u32),
    logical: (u32, u32),
    cursor: (Binary64, Binary64),
    zoom: Binary32,
)
    requires
        cursor.0.is_finite(),
        cursor.1.is_finite(),
    ensures
        crop(
            source.0 as nat,
            source.1 as nat,
            logical.0 as nat,
            logical.1 as nat,
            cursor,
            zoom,
        ).belongs_to(source, logical, cursor, zoom),
{
    lemma_axis_belongs(source.0, logical.0, cursor.0, zoom);
    lemma_axis_belongs(source.1, logical.1, cursor.1, zoom);
}

} // verus!
