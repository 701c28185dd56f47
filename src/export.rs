//! Hand-off of rendered images as text.
use vstd::prelude::*;
use crate::color::Rgb8;

verus! {

/// The standard base64 text (RFC 4648 alphabet, with `=` padding) of a byte
/// sequence.
pub uninterp spec fn base64_standard(b: Seq<u8>) -> Seq<char>;

/// Relies on `base64::engine::general_purpose::STANDARD.encode`: the padded
/// standard encoding, four characters for each started group of three bytes.
/// It panics only where that length overflows `usize`.
#[verifier::external_body]
fn base64_encode(b: &[u8]) -> (r: String)
    requires
        b@.len() <= isize::MAX,
    ensures
        r@ == base64_standard(b@),
        r@.len() == 4 * ((b@.len() + 2) / 3),
{
    base64::Engine::encode(&base64::engine::general_purpose::STANDARD, b)
}

/// The base64 text of an encoded image file, for transport as a string.
pub fn encode_image_base64(bytes: &Vec<u8>) -> (r: String)
    requires
        bytes@.len() <= isize::MAX,
    ensures
        r@ == base64_standard(bytes@),
        r@.len() == 4 * ((bytes@.len() + 2) / 3),
{
    base64_encode(bytes.as_slice())
}

/// The pixels of a colour field laid out for an image encoder: rows of the
/// image from top to bottom, three bytes (red, green, blue) per pixel. The
/// field is indexed `[x][y]`, so pixel `k` of the raster is `colors[k % width][k / width]`.
pub fn raster_rgb(colors: &Vec<Vec<Rgb8>>, width: usize, height: usize) -> (r: Vec<u8>)
    requires
        colors@.len() == width,
        forall|x: int| 0 <= x < width ==> #[trigger] colors@[x]@.len() == height,
        3 * width * height <= usize::MAX,
    ensures
        r@.len() == 3 * width * height,
        forall|k: int|
            0 <= k < width * height ==> {
                let c = #[trigger] colors@[k % width as int]@[k / width as int];
                r@[3 * k] == c.r && r@[3 * k + 1] == c.g && r@[3 * k + 2] == c.b
            },
{
    let mut out: Vec<u8> = Vec::new();
    if width == 0 {
        return out;
    }
    assert(width * height <= 3 * width * height <= usize::MAX) by (nonlinear_arith)
        requires
            3 * width * height <= usize::MAX,
            width > 0,
    ;
    let n = width * height;
    assert(3 * n == 3 * width * height) by (nonlinear_arith)
        requires
            n == width * height,
    ;
    let mut k: usize = 0;
    while k < n
        invariant
            n == width * height,
            width > 0,
            3 * n <= usize::MAX,
            colors@.len() == width,
            forall|x: int| 0 <= x < width ==> #[trigger] colors@[x]@.len() == height,
            k <= n,
            out@.len() == 3 * k,
            forall|j: int|
                0 <= j < k ==> {
                    let c = #[trigger] colors@[j % width as int]@[j / width as int];
                    out@[3 * j] == c.r && out@[3 * j + 1] == c.g && out@[3 * j + 2] == c.b
                },
        decreases n - k,
    {
        let x = k % width;
        let y = k / width;
        proof {
            vstd::arithmetic::div_mod::lemma_multiply_divide_lt(k as int, width as int, height as int);
        }
        let c = colors[x][y];
        out.push(c.r);
        out.push(c.g);
        out.push(c.b);
        k = k + 1;
    }
    out
}

} // verus!
