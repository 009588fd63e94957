//! Packed RGB buffers and edge highlighting.

use crate::color::Color;
use vstd::prelude::*;

verus! {

/// The color stored at pixel `i` of a packed RGB buffer (three bytes per pixel).
pub open spec fn packed_pixel(raw: Seq<u8>, i: int) -> Color {
    Color(raw[3 * i], raw[3 * i + 1], raw[3 * i + 2])
}

/// Channel `c` (0 red, 1 green, 2 blue) of a color.
pub open spec fn channel(p: Color, c: int) -> u8 {
    if c == 0 {
        p.0
    } else if c == 1 {
        p.1
    } else {
        p.2
    }
}

/// The colors of a packed RGB buffer; a trailing incomplete pixel is dropped.
pub open spec fn unpacked(raw: Seq<u8>) -> Seq<Color> {
    Seq::new((raw.len() / 3) as nat, |i: int| packed_pixel(raw, i))
}

/// The packed RGB buffer of a sequence of colors.
pub open spec fn packed(pixels: Seq<Color>) -> Seq<u8> {
    Seq::new(3 * pixels.len(), |j: int| channel(pixels[j / 3], j % 3))
}

/// The color that marks an edge pixel.
pub open spec fn edge_marker() -> Color {
    Color(255, 0, 0)
}

/// `p` with every pixel whose edge flag is set painted with the edge marker.
pub open spec fn marked(p: Seq<Color>, edges: Seq<bool>) -> Seq<Color> {
    Seq::new(p.len(), |i: int| if edges[i] { edge_marker() } else { p[i] })
}

/// Reads a packed RGB buffer as one color per three bytes; a trailing
/// incomplete pixel is ignored.
pub fn colors_from_rgb(raw: &[u8]) -> (pixels: Vec<Color>)
    ensures
        pixels@ == unpacked(raw@),
{
    let n = raw.len() / 3;
    let mut pixels: Vec<Color> = Vec::with_capacity(n);
    let mut i: usize = 0;
    while i < n
        invariant
            n == raw.len() / 3,
            i <= n,
            pixels.len() == i,
            forall|j: int| 0 <= j < i ==> #[trigger] pixels@[j] == packed_pixel(raw@, j),
        decreases n - i,
    {
        pixels.push(Color(raw[3 * i], raw[3 * i + 1], raw[3 * i + 2]));
        i = i + 1;
    }
    assert(pixels@ =~= unpacked(raw@));
    pixels
}

/// Writes colors into a packed RGB buffer, three bytes per pixel.
pub fn rgb_from_colors(pixels: &[Color]) -> (raw: Vec<u8>)
    requires
        pixels.len() * 3 <= usize::MAX,
    ensures
        raw@ == packed(pixels@),
{
    let mut raw: Vec<u8> = Vec::with_capacity(pixels.len() * 3);
    let mut i: usize = 0;
    while i < pixels.len()
        invariant
            i <= pixels.len(),
            pixels.len() * 3 <= usize::MAX,
            raw.len() == 3 * i,
            forall|j: int, c: int|
                0 <= j < i && 0 <= c < 3 ==> #[trigger] raw@[3 * j + c] == channel(
                    #[trigger] pixels@[j],
                    c,
                ),
        decreases pixels.len() - i,
    {
        let p = pixels[i];
        raw.push(p.0);
        raw.push(p.1);
        raw.push(p.2);
        i = i + 1;
    }
    assert forall|j: int| 0 <= j < raw.len() implies raw@[j] == packed(pixels@)[j] by {
        let i = j / 3;
        let c = j % 3;
        assert(j == 3 * i + c);
        assert(raw@[3 * i + c] == channel(pixels@[i], c));
    }
    assert(raw@ =~= packed(pixels@));
    raw
}

/// Paints every pixel whose edge flag is set with the edge marker, red.
pub fn mark_edges(pixels: &mut Vec<Color>, edges: &[bool])
    requires
        old(pixels).len() <= edges.len(),
    ensures
        final(pixels)@ == marked(old(pixels)@, edges@),
{
    let ghost orig = pixels@;
    let mut i: usize = 0;
    while i < pixels.len()
        invariant
            pixels.len() == orig.len(),
            orig.len() <= edges.len(),
            i <= pixels.len(),
            forall|j: int|
                0 <= j < i ==> #[trigger] pixels@[j] == if edges@[j] {
                    edge_marker()
                } else {
                    orig[j]
                },
            forall|j: int| i <= j < pixels.len() ==> #[trigger] pixels@[j] == orig[j],
        decreases pixels.len() - i,
    {
        if edges[i] {
            pixels.set(i, Color(255, 0, 0));
        }
        i = i + 1;
    }
    assert(pixels@ =~= marked(orig, edges@));
}

/// Packing colors and reading them back gives the same colors.
pub proof fn lemma_unpack_packed(pixels: Seq<Color>)
    ensures
        unpacked(packed(pixels)) == pixels,
{
    let raw = packed(pixels);
    assert(raw.len() / 3 == pixels.len());
    assert forall|i: int| 0 <= i < pixels.len() implies unpacked(raw)[i] == pixels[i] by {
        assert((3 * i) / 3 == i && (3 * i) % 3 == 0);
        assert((3 * i + 1) / 3 == i && (3 * i + 1) % 3 == 1);
        assert((3 * i + 2) / 3 == i && (3 * i + 2) % 3 == 2);
    }
    assert(unpacked(raw) =~= pixels);
}

/// Reading a buffer of whole pixels and packing the colors again gives the
/// same bytes.
pub proof fn lemma_pack_unpacked(raw: Seq<u8>)
    requires
        raw.len() % 3 == 0,
    ensures
        packed(unpacked(raw)) == raw,
{
    let pixels = unpacked(raw);
    assert(3 * pixels.len() == raw.len());
    assert forall|j: int| 0 <= j < raw.len() implies packed(pixels)[j] == raw[j] by {
        let i = j / 3;
        let c = j % 3;
        assert(j == 3 * i + c);
        assert(0 <= i < pixels.len());
    }
    assert(packed(pixels) =~= raw);
}

/// Marking edges twice is marking them once.
pub proof fn lemma_mark_edges_idempotent(p: Seq<Color>, edges: Seq<bool>)
    ensures
        marked(marked(p, edges), edges) == marked(p, edges),
{
    assert(marked(marked(p, edges), edges) =~= marked(p, edges));
}

/// Unpacking reads three bytes per pixel, in the order red, green, blue:
/// pixel `i` is `Color(raw[3i], raw[3i + 1], raw[3i + 2])`, and there are
/// `raw.len() / 3` pixels.
pub proof fn lemma_unpacked_reads_rgb(raw: Seq<u8>, i: int)
    requires
        0 <= i < raw.len() / 3,
    ensures
        unpacked(raw).len() == raw.len() / 3,
        unpacked(raw)[i] == Color(raw[3 * i], raw[3 * i + 1], raw[3 * i + 2]),
{
}

/// Packing writes three bytes per pixel, in the order red, green, blue:
/// bytes `3i`, `3i + 1`, `3i + 2` are the channels of pixel `i`.
pub proof fn lemma_packed_writes_rgb(pixels: Seq<Color>, i: int)
    requires
        0 <= i < pixels.len(),
    ensures
        packed(pixels).len() == 3 * pixels.len(),
        packed(pixels)[3 * i] == pixels[i].0,
        packed(pixels)[3 * i + 1] == pixels[i].1,
        packed(pixels)[3 * i + 2] == pixels[i].2,
{
    assert((3 * i) / 3 == i && (3 * i) % 3 == 0);
    assert((3 * i + 1) / 3 == i && (3 * i + 1) % 3 == 1);
    assert((3 * i + 2) / 3 == i && (3 * i + 2) % 3 == 2);
}

/// Marking paints every pixel whose edge flag is set pure red,
/// `Color(255, 0, 0)`, whatever its color was, and leaves every other pixel
/// as it is.
pub proof fn lemma_marked_paints_edges_red(p: Seq<Color>, edges: Seq<bool>, i: int)
    requires
        0 <= i < p.len(),
    ensures
        marked(p, edges).len() == p.len(),
        edges[i] ==> marked(p, edges)[i] == Color(255, 0, 0),
        !edges[i] ==> marked(p, edges)[i] == p[i],
{
}

} // verus!
