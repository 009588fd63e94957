use pixelsort::brightness_sort::sort_by_brightness;
use pixelsort::color::Color;
use pixelsort::raster::{colors_from_rgb, mark_edges, rgb_from_colors};
use pixelsort::rows::pixel_sort;
use std::cmp::Ordering;

fn grey(v: u8) -> Color {
    Color(v, 0, 0)
}

fn keys(pixels: &[Color]) -> Vec<u16> {
    pixels.iter().map(|c| c.channel_sum()).collect()
}

#[test]
fn channel_sum_adds_the_channels() {
    assert_eq!(Color(255, 255, 255).channel_sum(), 765);
    assert_eq!(Color(1, 2, 3).channel_sum(), 6);
    assert_eq!(Color(0, 0, 0).channel_sum(), 0);
}

#[test]
fn order_compares_brightness() {
    assert_eq!(Color(10, 0, 0).cmp(&Color(0, 0, 11)), Ordering::Less);
    assert_eq!(Color(0, 200, 0).cmp(&Color(100, 0, 99)), Ordering::Greater);
    assert_eq!(Color(1, 2, 3).cmp(&Color(3, 2, 1)), Ordering::Equal);
    assert_eq!(Color(1, 2, 3).partial_cmp(&Color(3, 2, 1)), Some(Ordering::Equal));
    assert_eq!(Color(9, 9, 9).partial_cmp(&Color(0, 0, 0)), Some(Ordering::Greater));
    assert!(Color(1, 2, 3) < Color(3, 3, 3));
}

#[test]
fn equality_compares_channels() {
    assert!(Color(1, 2, 3) != Color(3, 2, 1));
    assert!(Color(1, 2, 3) == Color(1, 2, 3));
}

#[test]
fn order_is_reversed_by_swapping() {
    let a = Color(4, 5, 6);
    let b = Color(7, 0, 1);
    assert_eq!(a.cmp(&b), b.cmp(&a).reverse());
}

#[test]
fn sort_is_stable() {
    let a = Color(3, 0, 0);
    let b = Color(0, 3, 0);
    let c = Color(1, 0, 0);
    let d = Color(0, 0, 1);
    let mut v = vec![a, c, b, d];
    let len = v.len();
    sort_by_brightness(&mut v, 0, len);
    assert_eq!(v, vec![c, d, a, b]);
}

#[test]
fn sort_touches_only_the_range() {
    let mut v = vec![grey(9), grey(5), grey(4), grey(3), grey(0)];
    sort_by_brightness(&mut v, 1, 4);
    assert_eq!(keys(&v), vec![9, 3, 4, 5, 0]);
}

#[test]
fn sort_of_empty_range_changes_nothing() {
    let mut v = vec![grey(2), grey(1)];
    sort_by_brightness(&mut v, 1, 1);
    assert_eq!(keys(&v), vec![2, 1]);
}

#[test]
fn sort_twice_is_sort_once() {
    let mut v = vec![grey(7), Color(0, 7, 0), grey(1), grey(9), Color(0, 0, 1)];
    let len = v.len();
    sort_by_brightness(&mut v, 0, len);
    let once = v.clone();
    sort_by_brightness(&mut v, 0, len);
    assert_eq!(v, once);
}

#[test]
fn sort_keeps_the_colors() {
    let mut v: Vec<Color> = (0..40u8).map(|i| Color(i.wrapping_mul(37), i, 255 - i)).collect();
    let mut expected = v.clone();
    expected.sort_by_key(|c| c.channel_sum());
    let len = v.len();
    sort_by_brightness(&mut v, 0, len);
    assert_eq!(v, expected);
}

#[test]
fn row_without_edges_is_sorted() {
    let mut v = vec![grey(5), grey(2), grey(8), grey(1)];
    let edges = vec![false; 4];
    pixel_sort(&mut v, &edges, 4, 1);
    assert_eq!(keys(&v), vec![1, 2, 5, 8]);
}

#[test]
fn edges_split_runs() {
    let mut v = vec![grey(5), grey(3), grey(1), grey(9), grey(7), grey(0)];
    let edges = vec![false, false, true, false, false, true];
    // the last pixel is an edge that ends a run, so it is sorted with the run
    pixel_sort(&mut v, &edges, 6, 1);
    assert_eq!(keys(&v), vec![3, 5, 1, 0, 7, 9]);
}

#[test]
fn edges_stay_in_place() {
    let mut v = vec![grey(5), grey(3), grey(1), grey(9), grey(7), grey(0)];
    let edges = vec![false, false, true, true, false, false];
    pixel_sort(&mut v, &edges, 6, 1);
    assert_eq!(keys(&v), vec![3, 5, 1, 9, 0, 7]);
}

#[test]
fn last_edge_joins_run() {
    let mut v = vec![grey(5), grey(3), grey(1)];
    let edges = vec![false, false, true];
    pixel_sort(&mut v, &edges, 3, 1);
    assert_eq!(keys(&v), vec![1, 3, 5]);
}

#[test]
fn last_edge_after_edge_stays() {
    let mut v = vec![grey(5), grey(3), grey(1), grey(0)];
    let edges = vec![false, false, true, true];
    pixel_sort(&mut v, &edges, 4, 1);
    assert_eq!(keys(&v), vec![3, 5, 1, 0]);
}

#[test]
fn leading_edges_stay() {
    let mut v = vec![grey(9), grey(8), grey(3), grey(2)];
    let edges = vec![true, true, false, false];
    pixel_sort(&mut v, &edges, 4, 1);
    assert_eq!(keys(&v), vec![9, 8, 2, 3]);
}

#[test]
fn rows_are_sorted_separately() {
    let mut v = vec![grey(3), grey(2), grey(1), grey(6), grey(5), grey(4), grey(100)];
    let edges = vec![false; 7];
    pixel_sort(&mut v, &edges, 3, 2);
    // the pixel after the last row is left alone
    assert_eq!(keys(&v), vec![1, 2, 3, 4, 5, 6, 100]);
}

#[test]
fn empty_image() {
    let mut v: Vec<Color> = vec![];
    pixel_sort(&mut v, &[], 0, 0);
    assert!(v.is_empty());
    let mut w = vec![grey(2), grey(1)];
    pixel_sort(&mut w, &[], 0, 5);
    assert_eq!(keys(&w), vec![2, 1]);
}

#[test]
fn pixel_sort_twice_is_pixel_sort_once() {
    let mut v = vec![grey(5), grey(3), grey(1), grey(9), grey(7), grey(0), grey(4), grey(2)];
    let edges = vec![false, false, true, false, true, false, false, true];
    pixel_sort(&mut v, &edges, 4, 2);
    let once = v.clone();
    pixel_sort(&mut v, &edges, 4, 2);
    assert_eq!(v, once);
}

#[test]
fn unpack_reads_three_bytes_per_pixel() {
    let raw = vec![1u8, 2, 3, 4, 5, 6, 7];
    let pixels = colors_from_rgb(&raw);
    assert_eq!(pixels, vec![Color(1, 2, 3), Color(4, 5, 6)]);
}

#[test]
fn pack_writes_three_bytes_per_pixel() {
    let raw = rgb_from_colors(&[Color(1, 2, 3), Color(250, 0, 9)]);
    assert_eq!(raw, vec![1u8, 2, 3, 250, 0, 9]);
}

#[test]
fn pack_and_unpack_round_trip() {
    let raw: Vec<u8> = (0..30u8).collect();
    let pixels = colors_from_rgb(&raw);
    assert_eq!(rgb_from_colors(&pixels), raw);
    assert_eq!(colors_from_rgb(&rgb_from_colors(&pixels)), pixels);
}

#[test]
fn mark_edges_paints_red() {
    let mut v = vec![grey(1), grey(2), grey(3)];
    mark_edges(&mut v, &[false, true, false, true]);
    assert_eq!(v, vec![grey(1), Color(255, 0, 0), grey(3)]);
    let once = v.clone();
    mark_edges(&mut v, &[false, true, false]);
    assert_eq!(v, once);
}

fn sample(n: usize) -> Vec<Color> {
    (0..n)
        .map(|i| {
            let i = i as u32;
            Color((i * 97 % 256) as u8, (i * 31 % 256) as u8, (i * 7 % 256) as u8)
        })
        .collect()
}

#[test]
fn long_run_sort_is_stable() {
    let mut v = sample(500);
    let mut expected = v.clone();
    expected.sort_by_key(|c| c.channel_sum());
    let len = v.len();
    sort_by_brightness(&mut v, 0, len);
    assert_eq!(v, expected);
}

#[test]
fn long_run_sort_touches_only_the_range() {
    let orig = sample(300);
    let mut v = orig.clone();
    sort_by_brightness(&mut v, 50, 250);
    let mut middle = orig[50..250].to_vec();
    middle.sort_by_key(|c| c.channel_sum());
    assert_eq!(&v[..50], &orig[..50]);
    assert_eq!(&v[50..250], &middle[..]);
    assert_eq!(&v[250..], &orig[250..]);
}

#[test]
fn sorting_a_sorted_prefix_again() {
    let orig = sample(120);
    let mut a = orig.clone();
    sort_by_brightness(&mut a, 0, 70);
    sort_by_brightness(&mut a, 0, 120);
    let mut b = orig.clone();
    sort_by_brightness(&mut b, 0, 120);
    assert_eq!(a, b);
}

#[test]
fn wide_row_is_sorted_like_std() {
    let orig = sample(200);
    let mut edges = vec![false; 200];
    edges[120] = true;
    let mut v = orig.clone();
    pixel_sort(&mut v, &edges, 200, 1);
    let mut left = orig[..120].to_vec();
    left.sort_by_key(|c| c.channel_sum());
    let mut right = orig[121..].to_vec();
    right.sort_by_key(|c| c.channel_sum());
    assert_eq!(&v[..120], &left[..]);
    assert_eq!(v[120], orig[120]);
    assert_eq!(&v[121..], &right[..]);
}
