//! The shape of a field: `width` rows of `height` cells, indexed `[x][y]`
//! throughout.
use vstd::prelude::*;

verus! {

/// Fills a `width` by `height` field, indexed `[x][y]`, with `pixel(x, y)` at
/// every place.
pub fn build_grid<T, F: Fn(usize, usize) -> T>(width: usize, height: usize, pixel: F) -> (r: Vec<
    Vec<T>,
>)
    requires
        forall|x: usize, y: usize| x < width && y < height ==> #[trigger] pixel.requires((x, y)),
    ensures
        r@.len() == width,
        forall|x: int| 0 <= x < width ==> #[trigger] r@[x]@.len() == height,
        forall|x: int, y: int|
            0 <= x < width && 0 <= y < height ==> pixel.ensures(
                (x as usize, y as usize),
                #[trigger] r@[x]@[y],
            ),
{
    let mut out: Vec<Vec<T>> = Vec::new();
    let mut x: usize = 0;
    while x < width
        invariant
            x <= width,
            out@.len() == x,
            forall|a: usize, b: usize| a < width && b < height ==> #[trigger] pixel.requires((a, b)),
            forall|a: int| 0 <= a < x ==> #[trigger] out@[a]@.len() == height,
            forall|a: int, b: int|
                0 <= a < x && 0 <= b < height ==> pixel.ensures(
                    (a as usize, b as usize),
                    #[trigger] out@[a]@[b],
                ),
        decreases width - x,
    {
        let mut column: Vec<T> = Vec::new();
        let mut y: usize = 0;
        while y < height
            invariant
                x < width,
                y <= height,
                column@.len() == y,
                forall|a: usize, b: usize|
                    a < width && b < height ==> #[trigger] pixel.requires((a, b)),
                forall|b: int| 0 <= b < y ==> pixel.ensures((x, b as usize), #[trigger] column@[b]),
            decreases height - y,
        {
            column.push(pixel(x, y));
            y = y + 1;
        }
        out.push(column);
        x = x + 1;
    }
    out
}

/// The offset of a pixel from the centre of its axis, the centre being the
/// whole pixel `extent / 2`.
pub fn center_offset(index: u32, extent: u32) -> (r: i64)
    ensures
        r == index as int - extent as int / 2,
{
    index as i64 - (extent / 2) as i64
}

} // verus!
