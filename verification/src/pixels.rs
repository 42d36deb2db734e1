//! The layout of a pixel buffer and of a component grid, and the walks over
//! them that the two directions of the codec make.
//!
//! A pixel buffer holds four bytes for each pixel (red, green, blue, alpha),
//! row by row. A component grid is a sequence of one entry for each pair of
//! frequencies, row by row as well. What is computed at each pixel or
//! component is left to the caller, as a function value: the contracts say
//! where each result of it ends up, and in which order it is asked. A walk
//! over the pixels hands on their colours, never their alpha bytes.

use crate::EncodingError;
use vstd::arithmetic::div_mod::*;
use vstd::prelude::*;

verus! {

/// The red, green and blue bytes of one pixel.
#[derive(Clone, Copy, Debug, PartialEq, Eq, Structural)]
pub struct Rgb {
    pub r: u8,
    pub g: u8,
    pub b: u8,
}

/// Where the four bytes of the pixel `(x, y)` start in a buffer of rows of
/// `width` pixels.
pub open spec fn pixel_offset(width: int, x: int, y: int) -> int {
    4 * x + y * (4 * width)
}

/// The colour of the pixel `(x, y)` of a buffer.
pub open spec fn pixel_at(pixels: Seq<u8>, width: int, x: int, y: int) -> Rgb {
    Rgb {
        r: pixels[pixel_offset(width, x, y)],
        g: pixels[pixel_offset(width, x, y) + 1],
        b: pixels[pixel_offset(width, x, y) + 2],
    }
}

/// The alpha byte of the pixel `(x, y)` of a buffer.
pub open spec fn alpha_at(pixels: Seq<u8>, width: int, x: int, y: int) -> u8 {
    pixels[pixel_offset(width, x, y) + 3]
}

/// Where the component `(x, y)` stands in a grid with `num_x` components in
/// each row.
pub open spec fn component_index(num_x: int, x: int, y: int) -> int {
    x + y * num_x
}

/// What is owed for a request to encode: the numbers of components are
/// looked at first, then the length of the buffer.
pub open spec fn encode_input(len: nat, cx: nat, cy: nat, width: nat, height: nat) -> Result<
    (),
    EncodingError,
> {
    if !(1 <= cx <= 9 && 1 <= cy <= 9) {
        Err(EncodingError::ComponentsNumberInvalid)
    } else if width * height * 4 != len {
        Err(EncodingError::BytesPerPixelMismatch)
    } else {
        Ok(())
    }
}

/// The pixels of an image in a buffer come one after the other: a pixel that
/// is earlier in its row, or in an earlier row, ends before a later one starts.
proof fn lemma_pixels_in_order(width: int, x: int, y: int, x2: int, y2: int)
    requires
        0 <= x2 < width,
        0 <= x <= width,
        0 <= y2,
        y2 < y || (y2 == y && x2 < x),
    ensures
        0 <= pixel_offset(width, x2, y2),
        pixel_offset(width, x2, y2) + 4 <= pixel_offset(width, x, y),
{
    assert(y2 * (4 * width) >= 0) by (nonlinear_arith)
        requires
            y2 >= 0,
            width >= 0,
    ;
    if y2 < y {
        assert(y2 * (4 * width) + 4 * width <= y * (4 * width)) by (nonlinear_arith)
            requires
                y2 + 1 <= y,
                width >= 0,
        ;
    }
}

/// Checks a request to encode `pixels` as an image of `width` by `height`
/// pixels with `cx` by `cy` components.
pub fn check_encode_input(pixels: &[u8], cx: usize, cy: usize, width: usize, height: usize) -> (checked:
    Result<(), EncodingError>)
    ensures
        checked == encode_input(pixels@.len(), cx as nat, cy as nat, width as nat, height as nat),
{
    if cx < 1 || cx > 9 || cy < 1 || cy > 9 {
        return Err(EncodingError::ComponentsNumberInvalid);
    }
    // A product that does not fit in a `usize` is no length of a buffer.
    let len = pixels.len();
    match width.checked_mul(height) {
        Some(area) => match area.checked_mul(4) {
            Some(expected) if expected == len => Ok(()),
            _ => Err(EncodingError::BytesPerPixelMismatch),
        },
        None => {
            assert(width * height * 4 >= width * height) by (nonlinear_arith);
            Err(EncodingError::BytesPerPixelMismatch)
        },
    }
}

/// Whether `pixels` is the image of `width` by `height` pixels that `shade`
/// gives: each pixel has a colour that `shade` returned for its place, and is
/// opaque.
pub open spec fn rendered<F: Fn(usize, usize) -> Rgb>(
    pixels: Seq<u8>,
    width: usize,
    height: usize,
    shade: F,
) -> bool {
    &&& pixels.len() == 4 * width * height
    &&& forall|x: usize, y: usize|
        x < width && y < height ==> call_ensures(
            shade,
            (x, y),
            #[trigger] pixel_at(pixels, width as int, x as int, y as int),
        ) && alpha_at(pixels, width as int, x as int, y as int) == 255
}

/// Builds the buffer of an image of `width` by `height` pixels: `shade` is
/// asked once for each pixel, row by row, and its answer is stored at the
/// pixel's place with an alpha byte of 255.
pub fn render<F: Fn(usize, usize) -> Rgb>(width: usize, height: usize, shade: F) -> (pixels: Vec<u8>)
    requires
        forall|x: usize, y: usize| x < width && y < height ==> call_requires(shade, (x, y)),
    ensures
        rendered(pixels@, width, height, shade),
{
    let mut pixels: Vec<u8> = Vec::new();
    let mut y: usize = 0;
    while y < height
        invariant
            y <= height,
            forall|x: usize, y: usize| x < width && y < height ==> call_requires(shade, (x, y)),
            pixels@.len() == pixel_offset(width as int, 0, y as int),
            forall|x2: usize, y2: usize|
                x2 < width && y2 < y ==> call_ensures(
                    shade,
                    (x2, y2),
                    #[trigger] pixel_at(pixels@, width as int, x2 as int, y2 as int),
                ) && alpha_at(pixels@, width as int, x2 as int, y2 as int) == 255,
        decreases height - y,
    {
        let mut x: usize = 0;
        while x < width
            invariant
                y < height,
                x <= width,
                forall|x: usize, y: usize| x < width && y < height ==> call_requires(shade, (x, y)),
                pixels@.len() == pixel_offset(width as int, x as int, y as int),
                forall|x2: usize, y2: usize|
                    x2 < width && (y2 < y || (y2 == y && x2 < x)) ==> call_ensures(
                        shade,
                        (x2, y2),
                        #[trigger] pixel_at(pixels@, width as int, x2 as int, y2 as int),
                    ) && alpha_at(pixels@, width as int, x2 as int, y2 as int) == 255,
            decreases width - x,
        {
            let ghost before = pixels@;
            let colour = shade(x, y);
            pixels.push(colour.r);
            pixels.push(colour.g);
            pixels.push(colour.b);
            pixels.push(255);
            proof {
                assert forall|x2: usize, y2: usize|
                    x2 < width && (y2 < y || (y2 == y && x2 < x + 1)) implies call_ensures(
                    shade,
                    (x2, y2),
                    #[trigger] pixel_at(pixels@, width as int, x2 as int, y2 as int),
                ) && alpha_at(pixels@, width as int, x2 as int, y2 as int) == 255 by {
                    if y2 == y && x2 == x {
                        assert(pixel_at(pixels@, width as int, x2 as int, y2 as int) == colour);
                    } else {
                        lemma_pixels_in_order(width as int, x as int, y as int, x2 as int, y2 as int);
                        assert(pixel_at(pixels@, width as int, x2 as int, y2 as int) == pixel_at(
                            before,
                            width as int,
                            x2 as int,
                            y2 as int,
                        ));
                    }
                }
            }
            x += 1;
        }
        y += 1;
        proof {
            assert(pixel_offset(width as int, width as int, y - 1) == pixel_offset(width as int, 0, y as int))
                by (nonlinear_arith);
        }
    }
    proof {
        assert(pixel_offset(width as int, 0, height as int) == 4 * width * height) by (nonlinear_arith);
    }
    pixels
}

/// The components of a grid come one after the other, row by row.
proof fn lemma_components_in_order(num_x: int, x: int, y: int, x2: int, y2: int)
    requires
        0 <= x2 < num_x,
        0 <= x <= num_x,
        0 <= y2,
        y2 < y || (y2 == y && x2 < x),
    ensures
        0 <= component_index(num_x, x2, y2) < component_index(num_x, x, y),
{
    assert(y2 * num_x >= 0) by (nonlinear_arith)
        requires
            y2 >= 0,
            num_x >= 0,
    ;
    if y2 < y {
        assert(y2 * num_x + num_x <= y * num_x) by (nonlinear_arith)
            requires
                y2 + 1 <= y,
                num_x >= 0,
        ;
    }
}

/// Whether `grid` is the grid of `num_x` by `num_y` components that `make`
/// gives: the entry at the place of each component is one that `make`
/// returned for it.
pub open spec fn tabulated<T, F: Fn(usize, usize) -> T>(
    grid: Seq<T>,
    num_x: usize,
    num_y: usize,
    make: F,
) -> bool {
    &&& grid.len() == num_x * num_y
    &&& forall|x: usize, y: usize|
        x < num_x && y < num_y ==> call_ensures(
            make,
            (x, y),
            grid[#[trigger] component_index(num_x as int, x as int, y as int)],
        )
}

/// Builds a grid of `num_x` by `num_y` components: `make` is asked once for
/// each component, row by row, so that the component `(0, 0)` comes first.
pub fn map_components<T, F: Fn(usize, usize) -> T>(num_x: usize, num_y: usize, make: F) -> (grid: Vec<T>)
    requires
        forall|x: usize, y: usize| x < num_x && y < num_y ==> call_requires(make, (x, y)),
    ensures
        tabulated(grid@, num_x, num_y, make),
{
    let mut grid: Vec<T> = Vec::new();
    let mut y: usize = 0;
    while y < num_y
        invariant
            y <= num_y,
            forall|x: usize, y: usize| x < num_x && y < num_y ==> call_requires(make, (x, y)),
            grid@.len() == component_index(num_x as int, 0, y as int),
            forall|x2: usize, y2: usize|
                x2 < num_x && y2 < y ==> call_ensures(
                    make,
                    (x2, y2),
                    grid@[#[trigger] component_index(num_x as int, x2 as int, y2 as int)],
                ),
        decreases num_y - y,
    {
        let mut x: usize = 0;
        while x < num_x
            invariant
                y < num_y,
                x <= num_x,
                forall|x: usize, y: usize| x < num_x && y < num_y ==> call_requires(make, (x, y)),
                grid@.len() == component_index(num_x as int, x as int, y as int),
                forall|x2: usize, y2: usize|
                    x2 < num_x && (y2 < y || (y2 == y && x2 < x)) ==> call_ensures(
                        make,
                        (x2, y2),
                        grid@[#[trigger] component_index(num_x as int, x2 as int, y2 as int)],
                    ),
            decreases num_x - x,
        {
            let ghost before = grid@;
            let entry = make(x, y);
            grid.push(entry);
            proof {
                assert forall|x2: usize, y2: usize|
                    x2 < num_x && (y2 < y || (y2 == y && x2 < x + 1)) implies call_ensures(
                    make,
                    (x2, y2),
                    grid@[#[trigger] component_index(num_x as int, x2 as int, y2 as int)],
                ) by {
                    if !(y2 == y && x2 == x) {
                        lemma_components_in_order(num_x as int, x as int, y as int, x2 as int, y2 as int);
                        assert(grid@[component_index(num_x as int, x2 as int, y2 as int)]
                            == before[component_index(num_x as int, x2 as int, y2 as int)]);
                    }
                }
            }
            x += 1;
        }
        y += 1;
        proof {
            assert(component_index(num_x as int, num_x as int, y - 1) == component_index(
                num_x as int,
                0,
                y as int,
            )) by (nonlinear_arith);
        }
    }
    proof {
        assert(component_index(num_x as int, 0, num_y as int) == num_x * num_y) by (nonlinear_arith);
    }
    grid
}

/// Whether `out` is what `step` may return at the step of number `k` of the
/// walk for the component `(i, j)` over the pixels of an image, column by
/// column: the step is at the pixel `(k / height, k % height)`, and is handed
/// `mid`, the component, the pixel's place and the pixel's colour.
pub open spec fn fold_step<T, F: Fn(T, usize, usize, usize, usize, Rgb) -> T>(
    step: F,
    pixels: Seq<u8>,
    width: usize,
    height: usize,
    i: usize,
    j: usize,
    k: int,
    mid: T,
    out: T,
) -> bool {
    call_ensures(
        step,
        (
            mid,
            i,
            j,
            (k / height as int) as usize,
            (k % height as int) as usize,
            pixel_at(pixels, width as int, k / height as int, k % height as int),
        ),
        out,
    )
}

/// Whether `out` comes of `init` by the first `n` steps of the walk for the
/// component `(i, j)` over the pixels of an image: each step gets what the
/// step before it returned. Of a pixel only its colour is handed on, never
/// its alpha byte.
pub open spec fn folded<T, F: Fn(T, usize, usize, usize, usize, Rgb) -> T>(
    step: F,
    pixels: Seq<u8>,
    width: usize,
    height: usize,
    i: usize,
    j: usize,
    n: nat,
    init: T,
    out: T,
) -> bool
    decreases n,
{
    if n == 0 {
        out == init
    } else {
        exists|mid: T|
            #![trigger fold_step(step, pixels, width, height, i, j, n - 1, mid, out)]
            folded(step, pixels, width, height, i, j, (n - 1) as nat, init, mid) && fold_step(
                step,
                pixels,
                width,
                height,
                i,
                j,
                n - 1,
                mid,
                out,
            )
    }
}

/// One more step makes a walk of `n` steps into one of `n + 1`.
proof fn lemma_fold_one_more<T, F: Fn(T, usize, usize, usize, usize, Rgb) -> T>(
    step: F,
    pixels: Seq<u8>,
    width: usize,
    height: usize,
    i: usize,
    j: usize,
    n: nat,
    init: T,
    mid: T,
    out: T,
)
    requires
        folded(step, pixels, width, height, i, j, n, init, mid),
        fold_step(step, pixels, width, height, i, j, n as int, mid, out),
    ensures
        folded(step, pixels, width, height, i, j, n + 1, init, out),
{
    assert((n + 1 - 1) as nat == n);
    assert(fold_step(step, pixels, width, height, i, j, n + 1 - 1, mid, out));
}

/// A walk of at least one step is a walk of one step less, followed by a
/// last step.
pub proof fn lemma_fold_last_step<T, F: Fn(T, usize, usize, usize, usize, Rgb) -> T>(
    step: F,
    pixels: Seq<u8>,
    width: usize,
    height: usize,
    i: usize,
    j: usize,
    n: nat,
    init: T,
    out: T,
) -> (mid: T)
    requires
        n > 0,
        folded(step, pixels, width, height, i, j, n, init, out),
    ensures
        folded(step, pixels, width, height, i, j, (n - 1) as nat, init, mid),
        fold_step(step, pixels, width, height, i, j, n - 1, mid, out),
{
    let mid = choose|mid: T|
        #![trigger fold_step(step, pixels, width, height, i, j, n - 1, mid, out)]
        folded(step, pixels, width, height, i, j, (n - 1) as nat, init, mid) && fold_step(
            step,
            pixels,
            width,
            height,
            i,
            j,
            n - 1,
            mid,
            out,
        );
    mid
}

/// Whether two buffers hold the same colours: they differ in alpha bytes at
/// most.
pub open spec fn same_colours(pixels: Seq<u8>, other: Seq<u8>) -> bool {
    &&& pixels.len() == other.len()
    &&& forall|i: int| 0 <= i < pixels.len() && i % 4 != 3 ==> pixels[i] == other[i]
}

/// The colour of a pixel of an image is the same in two buffers that hold
/// the same colours.
proof fn lemma_same_colour(pixels: Seq<u8>, other: Seq<u8>, width: int, height: int, x: int, y: int)
    requires
        same_colours(pixels, other),
        pixels.len() == 4 * width * height,
        0 <= x < width,
        0 <= y < height,
    ensures
        pixel_at(pixels, width, x, y) == pixel_at(other, width, x, y),
{
    lemma_pixels_in_order(width, 0, height, x, y);
    assert(pixel_offset(width, 0, height) == 4 * width * height) by (nonlinear_arith);
    let at = pixel_offset(width, x, y);
    assert(at == 4 * (x + y * width)) by (nonlinear_arith)
        requires
            at == 4 * x + y * (4 * width),
    ;
    assert(at % 4 == 0);
}

/// A walk over the pixels of an image sees their colours alone: what comes
/// of it for one buffer comes of it for every buffer that holds the same
/// colours.
pub proof fn lemma_fold_ignores_alpha<T, F: Fn(T, usize, usize, usize, usize, Rgb) -> T>(
    step: F,
    pixels: Seq<u8>,
    other: Seq<u8>,
    width: usize,
    height: usize,
    i: usize,
    j: usize,
    n: nat,
    init: T,
    out: T,
)
    requires
        same_colours(pixels, other),
        pixels.len() == 4 * width * height,
        n <= width * height,
        folded(step, pixels, width, height, i, j, n, init, out),
    ensures
        folded(step, other, width, height, i, j, n, init, out),
    decreases n,
{
    if n > 0 {
        let mid = lemma_fold_last_step(step, pixels, width, height, i, j, n, init, out);
        lemma_fold_ignores_alpha(step, pixels, other, width, height, i, j, (n - 1) as nat, init, mid);
        let k = n - 1;
        let rows = height as int;
        assert(rows > 0) by (nonlinear_arith)
            requires
                n <= width * rows,
                n > 0,
                width >= 0,
                rows >= 0,
        ;
        let x = k / rows;
        let y = k % rows;
        lemma_fundamental_div_mod(k, rows);
        lemma_mod_bound(k, rows);
        assert(0 <= x && x < width) by (nonlinear_arith)
            requires
                0 <= k < width * rows,
                rows > 0,
                k == rows * x + y,
                0 <= y < rows,
        ;
        lemma_same_colour(pixels, other, width as int, rows, x, y);
        assert(fold_step(step, other, width, height, i, j, k, mid, out));
        lemma_fold_one_more(step, other, width, height, i, j, (n - 1) as nat, init, mid, out);
    }
}

/// Walks for the component `(i, j)` over the pixels of an image of `width`
/// by `height` pixels, column by column, and hands the colour of each with
/// its place to `step`, together with what `step` returned at the pixel
/// before (`init` at the first).
pub fn fold_pixels<T, F: Fn(T, usize, usize, usize, usize, Rgb) -> T>(
    pixels: &[u8],
    width: usize,
    height: usize,
    i: usize,
    j: usize,
    init: T,
    step: &F,
) -> (out: T)
    requires
        pixels@.len() == 4 * width * height,
        forall|acc: T, x: usize, y: usize, colour: Rgb|
            x < width && y < height ==> call_requires(*step, (acc, i, j, x, y, colour)),
    ensures
        folded(*step, pixels@, width, height, i, j, (width * height) as nat, init, out),
{
    let ghost start = init;
    let mut acc = init;
    let mut x: usize = 0;
    proof {
        assert(pixel_offset(width as int, 0, height as int) == 4 * width * height) by (nonlinear_arith);
        assert(pixels@.len() == vstd::slice::spec_slice_len(pixels));
    }
    while x < width
        invariant
            x <= width,
            pixels@.len() == pixel_offset(width as int, 0, height as int),
            pixels@.len() <= usize::MAX,
            forall|acc: T, x: usize, y: usize, colour: Rgb|
                x < width && y < height ==> call_requires(*step, (acc, i, j, x, y, colour)),
            folded(*step, pixels@, width, height, i, j, (x * height) as nat, start, acc),
        decreases width - x,
    {
        let mut y: usize = 0;
        while y < height
            invariant
                x < width,
                y <= height,
                pixels@.len() == pixel_offset(width as int, 0, height as int),
                pixels@.len() <= usize::MAX,
                forall|acc: T, x: usize, y: usize, colour: Rgb|
                    x < width && y < height ==> call_requires(*step, (acc, i, j, x, y, colour)),
                folded(*step, pixels@, width, height, i, j, (x * height + y) as nat, start, acc),
            decreases height - y,
        {
            proof {
                lemma_pixels_in_order(width as int, 0, height as int, x as int, y as int);
                assert(4 * width <= height * (4 * width)) by (nonlinear_arith)
                    requires
                        height >= 1,
                        width >= 0,
                ;
                assert(0 <= y * (4 * width) <= height * (4 * width)) by (nonlinear_arith)
                    requires
                        0 <= y <= height,
                        width >= 0,
                ;
            }
            let at = 4 * x + y * (4 * width);
            let colour = Rgb { r: pixels[at], g: pixels[at + 1], b: pixels[at + 2] };
            let ghost before = acc;
            let ghost n = x * height + y;
            acc = step(acc, i, j, x, y, colour);
            proof {
                assert(x * height >= 0) by (nonlinear_arith)
                    requires
                        x >= 0,
                        height >= 0,
                ;
                lemma_fundamental_div_mod_converse_div(n, height as int, x as int, y as int);
                lemma_fundamental_div_mod_converse_mod(n, height as int, x as int, y as int);
                assert(n / height as int == x && n % height as int == y);
                assert(pixel_at(pixels@, width as int, x as int, y as int) == colour);
                assert(call_ensures(*step, (before, i, j, x, y, colour), acc));
                lemma_fold_one_more(*step, pixels@, width, height, i, j, n as nat, start, before, acc);
            }
            y += 1;
        }
        proof {
            assert(x * height + height == (x + 1) * height) by (nonlinear_arith);
        }
        x += 1;
    }
    acc
}

} // verus!
