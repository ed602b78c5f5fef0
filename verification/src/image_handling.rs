//! Splitting an image into its colour channels, for use ahead of the
//! convolution pipeline.

use vstd::prelude::*;

verus! {

/// Splits a rectangular image of `(r, g, b)` byte triples into three
/// channel matrices of the image's shape: entry `[i][j]` of the first
/// matrix is the first component of pixel `[i][j]`, and likewise for the
/// second and third components.
pub fn split_channels(image: &Vec<Vec<(u8, u8, u8)>>) -> (r: (
    Vec<Vec<u8>>,
    Vec<Vec<u8>>,
    Vec<Vec<u8>>,
))
    requires
        image@.len() >= 1,
        forall|i: int| 0 <= i < image@.len() ==> #[trigger] image@[i]@.len() == image@[0]@.len(),
    ensures
        r.0@.len() == image@.len(),
        r.1@.len() == image@.len(),
        r.2@.len() == image@.len(),
        forall|i: int|
            0 <= i < image@.len() ==> r.0@[i]@.len() == image@[i]@.len() && r.1@[i]@.len()
                == image@[i]@.len() && r.2@[i]@.len() == image@[i]@.len(),
        forall|i: int, j: int|
            0 <= i < image@.len() && 0 <= j < image@[i]@.len() ==> r.0@[i]@[j] == image@[i]@[j].0
                && r.1@[i]@[j] == image@[i]@[j].1 && r.2@[i]@[j] == image@[i]@[j].2,
{
    let height = image.len();
    let mut first_channel: Vec<Vec<u8>> = Vec::new();
    let mut second_channel: Vec<Vec<u8>> = Vec::new();
    let mut third_channel: Vec<Vec<u8>> = Vec::new();
    let mut i: usize = 0;
    while i < height
        invariant
            i <= height,
            height == image@.len(),
            first_channel@.len() == i,
            second_channel@.len() == i,
            third_channel@.len() == i,
            forall|a: int|
                0 <= a < i as int ==> first_channel@[a]@.len() == image@[a]@.len()
                    && second_channel@[a]@.len() == image@[a]@.len() && third_channel@[a]@.len()
                    == image@[a]@.len(),
            forall|a: int, j: int|
                0 <= a < i as int && 0 <= j < image@[a]@.len() ==> first_channel@[a]@[j]
                    == image@[a]@[j].0 && second_channel@[a]@[j] == image@[a]@[j].1
                    && third_channel@[a]@[j] == image@[a]@[j].2,
        decreases height - i,
    {
        let row = &image[i];
        let width = row.len();
        let mut first_row: Vec<u8> = Vec::new();
        let mut second_row: Vec<u8> = Vec::new();
        let mut third_row: Vec<u8> = Vec::new();
        let mut j: usize = 0;
        while j < width
            invariant
                j <= width,
                width == row@.len(),
                first_row@.len() == j,
                second_row@.len() == j,
                third_row@.len() == j,
                forall|k: int|
                    0 <= k < j as int ==> first_row@[k] == row@[k].0 && second_row@[k] == row@[k].1
                        && third_row@[k] == row@[k].2,
            decreases width - j,
        {
            let px = row[j];
            first_row.push(px.0);
            second_row.push(px.1);
            third_row.push(px.2);
            j += 1;
        }
        first_channel.push(first_row);
        second_channel.push(second_row);
        third_channel.push(third_row);
        i += 1;
    }
    (first_channel, second_channel, third_channel)
}

} // verus!
