//! Pixel sorting: within each row of an image, every maximal run of pixels
//! brighter than a threshold is sorted by brightness, while the pixels at or
//! below the threshold stay where they are and separate the runs.
//!
//! Brightness is the mean of the three channels. Since that mean is always a
//! multiple of one third, the library works with the channel sum (three times
//! the brightness) and takes the threshold in thirds: a pixel lies above a
//! real threshold `t` exactly when its channel sum exceeds `floor(3 * t)`.

pub mod pixel;
pub mod sort;
pub mod row;
pub mod grid;
pub mod laws;
