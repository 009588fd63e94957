//! An 8-bit RGB color and its brightness order.

use std::cmp::Ordering;
use vstd::prelude::*;
use vstd::std_specs::cmp::PartialOrdSpec;
use vstd::std_specs::cmp::PartialOrdSpecImpl;

verus! {

/// An RGB color with 8 bits per channel.
///
/// Equality compares the channels; the order (`partial_cmp`, `cmp`)
/// compares brightness only, so two different colors of equal
/// brightness are ordered `Equal`.
#[derive(Copy, Clone, Debug, PartialEq, Eq, Structural)]
pub struct Color(pub u8, pub u8, pub u8);

/// The brightness of a color: the sum of its three channels, in `0..=765`.
pub open spec fn brightness(c: Color) -> int {
    c.0 + c.1 + c.2
}

/// How the brightness of `a` compares with that of `b`.
pub open spec fn compare_brightness(a: Color, b: Color) -> Ordering {
    if brightness(a) < brightness(b) {
        Ordering::Less
    } else if brightness(a) == brightness(b) {
        Ordering::Equal
    } else {
        Ordering::Greater
    }
}

impl Color {
    /// The sum of the three channels.
    pub fn channel_sum(&self) -> (s: u16)
        ensures
            s == brightness(*self),
            s <= 765,
    {
        self.0 as u16 + self.1 as u16 + self.2 as u16
    }

    /// Total order on brightness (the sum of the channels).
    pub fn cmp(&self, other: &Color) -> (r: Ordering)
        ensures
            r == compare_brightness(*self, *other),
    {
        let a = self.channel_sum();
        let b = other.channel_sum();
        if a < b {
            Ordering::Less
        } else if a == b {
            Ordering::Equal
        } else {
            Ordering::Greater
        }
    }
}

impl PartialOrd for Color {
    fn partial_cmp(&self, other: &Color) -> (r: Option<Ordering>) {
        Some(self.cmp(other))
    }
}

impl PartialOrdSpecImpl for Color {
    open spec fn obeys_partial_cmp_spec() -> bool {
        true
    }

    open spec fn partial_cmp_spec(&self, other: &Color) -> Option<Ordering> {
        Some(compare_brightness(*self, *other))
    }
}

/// The brightness order is a total preorder: two colors compare `Equal`
/// exactly when their brightness is equal, the comparison reverses when the
/// arguments are swapped, and "not greater" is transitive.
pub proof fn lemma_brightness_order(a: Color, b: Color, c: Color)
    ensures
        0 <= brightness(a) <= 765,
        (compare_brightness(a, b) == Ordering::Equal) == (brightness(a) == brightness(b)),
        (compare_brightness(a, b) == Ordering::Less) == (compare_brightness(b, a)
            == Ordering::Greater),
        compare_brightness(a, b) != Ordering::Greater && compare_brightness(b, c)
            != Ordering::Greater ==> compare_brightness(a, c) != Ordering::Greater,
{
}

/// The brightness order is the integer order of the channel sums: `a`
/// compares `Less`, `Equal` or `Greater` than `b` exactly when
/// `a.0 + a.1 + a.2` is less than, equal to or greater than `b.0 + b.1 + b.2`;
/// `partial_cmp` gives the same answer wrapped in `Some`.
pub proof fn lemma_order_is_channel_sum_order(a: Color, b: Color)
    ensures
        (compare_brightness(a, b) == Ordering::Less) == (a.0 + a.1 + a.2 < b.0 + b.1 + b.2),
        (compare_brightness(a, b) == Ordering::Equal) == (a.0 + a.1 + a.2 == b.0 + b.1 + b.2),
        (compare_brightness(a, b) == Ordering::Greater) == (a.0 + a.1 + a.2 > b.0 + b.1 + b.2),
        PartialOrdSpec::partial_cmp_spec(&a, &b) == Some(compare_brightness(a, b)),
{
}

/// Brightness is additive in the channels: black has brightness 0, and
/// raising any one channel by one raises the brightness by one.
pub proof fn lemma_brightness_additive(r: u8, g: u8, b: u8)
    ensures
        brightness(Color(0, 0, 0)) == 0,
        r < 255 ==> brightness(Color((r + 1) as u8, g, b)) == brightness(Color(r, g, b)) + 1,
        g < 255 ==> brightness(Color(r, (g + 1) as u8, b)) == brightness(Color(r, g, b)) + 1,
        b < 255 ==> brightness(Color(r, g, (b + 1) as u8)) == brightness(Color(r, g, b)) + 1,
{
}

} // verus!
