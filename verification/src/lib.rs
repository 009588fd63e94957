//! Pixel sorting: within every row of an image, runs of pixels that lie
//! between edges are reordered by brightness.

pub mod color;
pub mod brightness_sort;
pub mod rows;
pub mod raster;
