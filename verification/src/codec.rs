//! The two directions of the codec, from the input to the result.
//!
//! What is arithmetic on real numbers enters as function values: turning the
//! codes of a hash into colours and colours into a pixel on the way from a
//! hash to an image, projecting the pixels on a component, finding the
//! maximum of the components and quantising them on the way back. The contracts say when an input is refused,
//! what is handed to each function, and where its results go.

use crate::hash::{
    hash_text, lemma_hash_len, lemma_second_digit, read_hash, Components, ComponentsView,
};
use crate::pixels::{
    alpha_at, check_encode_input, component_index, encode_input, fold_pixels, folded,
    lemma_fold_ignores_alpha, map_components, pixel_at, render, same_colours, Rgb,
};
use crate::quantised::{clamp_maximum, maximum_digit, Channels};
use crate::{EncodingError, Error};
use vstd::prelude::*;
use vstd::string::*;

verus! {

/// Whether `pixels` is the image of `width` by `height` pixels of the hash
/// `hash`, by way of `components` and `colours`: the hash holds
/// `components`, `linearise` returned `colours` for them, and each pixel is
/// opaque and has a colour that `shade` returned for `colours` and its place.
pub open spec fn decoded_by<T, L: FnOnce(&Components) -> T, S: Fn(&T, usize, usize) -> Rgb>(
    pixels: Seq<u8>,
    hash: Seq<char>,
    width: usize,
    height: usize,
    linearise: L,
    shade: S,
    components: Components,
    colours: T,
) -> bool {
    &&& read_hash(hash) == Ok::<ComponentsView, Error>(components@)
    &&& call_ensures(linearise, (&components,), colours)
    &&& pixels.len() == 4 * width * height
    &&& forall|x: usize, y: usize|
        x < width && y < height ==> call_ensures(
            shade,
            (&colours, x, y),
            #[trigger] pixel_at(pixels, width as int, x as int, y as int),
        ) && alpha_at(pixels, width as int, x as int, y as int) == 255
}

/// Decodes a hash into an image of `width` by `height` pixels, four bytes
/// for each pixel, row by row.
///
/// A hash of fewer than six characters, or of another length than its first
/// digit announces, is refused. The components of any other hash are handed
/// to `linearise`, once; `shade` is then asked for each pixel, with what
/// `linearise` returned.
pub fn decode<T, L: FnOnce(&Components) -> T, S: Fn(&T, usize, usize) -> Rgb>(
    blur_hash: &str,
    width: usize,
    height: usize,
    linearise: L,
    shade: S,
) -> (decoded: Result<Vec<u8>, Error>)
    requires
        forall|components: &Components|
            read_hash(blur_hash@) == Ok::<ComponentsView, Error>(components@)
                ==> call_requires(linearise, (components,)),
        forall|components: &Components, colours: &T, x: usize, y: usize|
            read_hash(blur_hash@) == Ok::<ComponentsView, Error>(components@)
                && call_ensures(linearise, (components,), *colours) && x < width && y < height
                ==> call_requires(shade, (colours, x, y)),
    ensures
        match decoded {
            Err(error) => read_hash(blur_hash@) == Err::<ComponentsView, Error>(error),
            Ok(pixels) => exists|components: Components, colours: T|
                #![trigger call_ensures(linearise, (&components,), colours)]
                decoded_by(
                    pixels@,
                    blur_hash@,
                    width,
                    height,
                    linearise,
                    shade,
                    components,
                    colours,
                ),
        },
{
    let components = match Components::from_hash(blur_hash) {
        Ok(components) => components,
        Err(error) => {
            return Err(error);
        },
    };
    let colours = linearise(&components);
    let shade_ref = &shade;
    let shade_at = |x: usize, y: usize| -> (colour: Rgb)
        requires
            call_requires(shade_ref, (&colours, x, y)),
        ensures
            call_ensures(shade_ref, (&colours, x, y), colour),
        {
            shade_ref(&colours, x, y)
        };
    let pixels = render(width, height, shade_at);
    proof {
        assert(decoded_by(
            pixels@,
            blur_hash@,
            width,
            height,
            linearise,
            shade,
            components,
            colours,
        ));
    }
    Ok(pixels)
}

/// Whether `sum` comes of `zero` by the walk of `project` for the component
/// `(x, y)` over all pixels of an image.
pub open spec fn projected<T, P: Fn(T, usize, usize, usize, usize, Rgb) -> T>(
    pixels: Seq<u8>,
    width: usize,
    height: usize,
    zero: T,
    project: &P,
    x: usize,
    y: usize,
    sum: T,
) -> bool {
    folded(*project, pixels, width, height, x, y, (width * height) as nat, zero, sum)
}

/// Whether `factor` is the component `(x, y)` of an image: `project` came
/// from `zero` to a sum by the walk for this component over all pixels, and
/// `finish` returned `factor` for that sum.
pub open spec fn component_of<
    T,
    P: Fn(T, usize, usize, usize, usize, Rgb) -> T,
    F: Fn(T) -> T,
>(
    pixels: Seq<u8>,
    width: usize,
    height: usize,
    zero: T,
    project: &P,
    finish: &F,
    x: usize,
    y: usize,
    factor: T,
) -> bool {
    exists|sum: T|
        #![trigger call_ensures(finish, (sum,), factor)]
        projected(pixels, width, height, zero, project, x, y, sum) && call_ensures(
            *finish,
            (sum,),
            factor,
        )
}

/// Whether `average` and `others` are the `cx` by `cy` components of an
/// image: `average` is the component `(0, 0)`, and the entries of `others`
/// are the other components, row by row.
pub open spec fn analysed_by<
    T,
    P: Fn(T, usize, usize, usize, usize, Rgb) -> T,
    F: Fn(T) -> T,
>(
    pixels: Seq<u8>,
    cx: usize,
    cy: usize,
    width: usize,
    height: usize,
    zero: T,
    project: &P,
    finish: &F,
    average: T,
    others: Vec<T>,
) -> bool {
    &&& others@.len() == cx * cy - 1
    &&& component_of(pixels, width, height, zero, project, finish, 0, 0, average)
    &&& forall|x: usize, y: usize|
        x < cx && y < cy && (x > 0 || y > 0) ==> component_of(
            pixels,
            width,
            height,
            zero,
            project,
            finish,
            x,
            y,
            others@[#[trigger] component_index(cx as int, x as int, y as int) - 1],
        )
}

/// The components that are written for the codes `codes` of the average and
/// of the others, where `raw` is the quantised maximum before it is cut to
/// one digit.
pub open spec fn quantised_components(
    cx: usize,
    cy: usize,
    raw: usize,
    codes: (Channels, Vec<Channels>),
) -> ComponentsView {
    ComponentsView {
        num_x: cx as nat,
        num_y: cy as nat,
        quantised_maximum_value: maximum_digit((cx * cy - 1) as nat, raw) as nat,
        dc: codes.0,
        ac: codes.1@,
    }
}

/// Whether `text` is the hash of the image `pixels` with `cx` by `cy`
/// components, by way of what the functions returned: `average` and
/// `others` are the components of the image; `maximum` returned `raw` for
/// `others`, where there are any; `quantise` returned `codes` for
/// `average`, `others` and the quantised maximum; and `text` is the
/// components of these codes written out.
pub open spec fn encoded_by<
    T,
    P: Fn(T, usize, usize, usize, usize, Rgb) -> T,
    F: Fn(T) -> T,
    M: FnOnce(&Vec<T>) -> usize,
    Q: FnOnce(T, Vec<T>, usize) -> (Channels, Vec<Channels>),
>(
    text: Seq<char>,
    pixels: Seq<u8>,
    cx: usize,
    cy: usize,
    width: usize,
    height: usize,
    zero: T,
    project: &P,
    finish: &F,
    maximum: M,
    quantise: Q,
    average: T,
    others: Vec<T>,
    raw: usize,
    codes: (Channels, Vec<Channels>),
) -> bool {
    &&& analysed_by(pixels, cx, cy, width, height, zero, project, finish, average, others)
    &&& others@.len() > 0 ==> call_ensures(maximum, (&others,), raw)
    &&& call_ensures(quantise, (average, others, maximum_digit(others@.len(), raw)), codes)
    &&& text == hash_text(quantised_components(cx, cy, raw, codes))
}

/// What `encode` asks of its functions for an input that it accepts: that
/// they can be called with what they are handed, and that `quantise` returns
/// sRGB codes for the average and levels for each of the others.
pub open spec fn encode_functions_fit<
    T,
    P: Fn(T, usize, usize, usize, usize, Rgb) -> T,
    F: Fn(T) -> T,
    M: FnOnce(&Vec<T>) -> usize,
    Q: FnOnce(T, Vec<T>, usize) -> (Channels, Vec<Channels>),
>(
    pixels: Seq<u8>,
    cx: usize,
    cy: usize,
    width: usize,
    height: usize,
    zero: T,
    project: &P,
    finish: &F,
    maximum: M,
    quantise: Q,
) -> bool {
    &&& forall|acc: T, x: usize, y: usize, px: usize, py: usize, colour: Rgb|
        x < cx && y < cy && px < width && py < height ==> call_requires(
            *project,
            (acc, x, y, px, py, colour),
        )
    &&& forall|x: usize, y: usize, sum: T|
        x < cx && y < cy && #[trigger] projected(pixels, width, height, zero, project, x, y, sum)
            ==> call_requires(*finish, (sum,))
    &&& forall|average: T, others: &Vec<T>|
        analysed_by(pixels, cx, cy, width, height, zero, project, finish, average, *others)
            && others@.len() > 0 ==> call_requires(maximum, (others,))
    &&& forall|average: T, others: Vec<T>, digit: usize|
        analysed_by(pixels, cx, cy, width, height, zero, project, finish, average, others)
            && digit <= 82 ==> call_requires(quantise, (average, others, digit))
    &&& forall|average: T, others: Vec<T>, digit: usize, codes: (Channels, Vec<Channels>)| #[trigger]
        call_ensures(quantise, (average, others, digit), codes) ==> {
            &&& codes.0.is_srgb()
            &&& codes.1@.len() == others@.len()
            &&& forall|k: int| 0 <= k < codes.1@.len() ==> (#[trigger] codes.1@[k]).is_levels()
        }
}

/// A component of an image is a component of every image with the same
/// colours.
proof fn lemma_component_ignores_alpha<
    T,
    P: Fn(T, usize, usize, usize, usize, Rgb) -> T,
    F: Fn(T) -> T,
>(
    pixels: Seq<u8>,
    other: Seq<u8>,
    width: usize,
    height: usize,
    zero: T,
    project: &P,
    finish: &F,
    x: usize,
    y: usize,
    factor: T,
)
    requires
        same_colours(pixels, other),
        pixels.len() == 4 * width * height,
        component_of(pixels, width, height, zero, project, finish, x, y, factor),
    ensures
        component_of(other, width, height, zero, project, finish, x, y, factor),
{
    let sum = choose|sum: T|
        #![trigger call_ensures(*finish, (sum,), factor)]
        projected(pixels, width, height, zero, project, x, y, sum) && call_ensures(
            *finish,
            (sum,),
            factor,
        );
    lemma_fold_ignores_alpha(
        *project,
        pixels,
        other,
        width,
        height,
        x,
        y,
        (width * height) as nat,
        zero,
        sum,
    );
    assert(projected(other, width, height, zero, project, x, y, sum));
}

/// Alpha is not encoded: a text that is the hash of an image is the hash of
/// every image with the same colours, whatever its alpha bytes are.
pub proof fn lemma_encoded_ignores_alpha<
    T,
    P: Fn(T, usize, usize, usize, usize, Rgb) -> T,
    F: Fn(T) -> T,
    M: FnOnce(&Vec<T>) -> usize,
    Q: FnOnce(T, Vec<T>, usize) -> (Channels, Vec<Channels>),
>(
    text: Seq<char>,
    pixels: Seq<u8>,
    other: Seq<u8>,
    cx: usize,
    cy: usize,
    width: usize,
    height: usize,
    zero: T,
    project: &P,
    finish: &F,
    maximum: M,
    quantise: Q,
    average: T,
    others: Vec<T>,
    raw: usize,
    codes: (Channels, Vec<Channels>),
)
    requires
        same_colours(pixels, other),
        pixels.len() == 4 * width * height,
        encoded_by(
            text,
            pixels,
            cx,
            cy,
            width,
            height,
            zero,
            project,
            finish,
            maximum,
            quantise,
            average,
            others,
            raw,
            codes,
        ),
    ensures
        encoded_by(
            text,
            other,
            cx,
            cy,
            width,
            height,
            zero,
            project,
            finish,
            maximum,
            quantise,
            average,
            others,
            raw,
            codes,
        ),
{
    lemma_component_ignores_alpha(pixels, other, width, height, zero, project, finish, 0, 0, average);
    assert forall|x: usize, y: usize| x < cx && y < cy && (x > 0 || y > 0) implies component_of(
        other,
        width,
        height,
        zero,
        project,
        finish,
        x,
        y,
        others@[#[trigger] component_index(cx as int, x as int, y as int) - 1],
    ) by {
        lemma_component_ignores_alpha(
            pixels,
            other,
            width,
            height,
            zero,
            project,
            finish,
            x,
            y,
            others@[component_index(cx as int, x as int, y as int) - 1],
        );
    }
}

/// Encodes an image of `width` by `height` pixels, four bytes for each
/// pixel, as a hash with `cx` by `cy` components.
///
/// Numbers of components outside 1 to 9 are refused, then a buffer of
/// another length than `width * height * 4`. For any other input, and for
/// each component row by row, `project` is taken from `zero` over the
/// colours of all pixels, column by column, and `finish` is handed the sum:
/// its answer is the component. The alpha bytes are handed to no function.
/// The component `(0, 0)` is the average. Where there are other components,
/// `maximum` is asked for their quantised maximum, which is cut to one
/// digit; where there are none, the maximum is 0. `quantise` is handed the
/// average, the others and that maximum, and returns the codes that are
/// written out.
pub fn encode<
    T: Copy,
    P: Fn(T, usize, usize, usize, usize, Rgb) -> T,
    F: Fn(T) -> T,
    M: FnOnce(&Vec<T>) -> usize,
    Q: FnOnce(T, Vec<T>, usize) -> (Channels, Vec<Channels>),
>(
    pixels: Vec<u8>,
    cx: usize,
    cy: usize,
    width: usize,
    height: usize,
    zero: T,
    project: P,
    finish: F,
    maximum: M,
    quantise: Q,
) -> (encoded: Result<String, EncodingError>)
    requires
        encode_input(pixels@.len(), cx as nat, cy as nat, width as nat, height as nat) is Ok
            ==> encode_functions_fit(
            pixels@,
            cx,
            cy,
            width,
            height,
            zero,
            &project,
            &finish,
            maximum,
            quantise,
        ),
    ensures
        match encoded {
            Err(error) => encode_input(
                pixels@.len(),
                cx as nat,
                cy as nat,
                width as nat,
                height as nat,
            ) == Err::<(), EncodingError>(error),
            Ok(text) => {
                &&& encode_input(pixels@.len(), cx as nat, cy as nat, width as nat, height as nat)
                    is Ok
                &&& exists|average: T, others: Vec<T>, raw: usize, codes: (Channels, Vec<Channels>)|
                    #![trigger
                        call_ensures(quantise, (average, others, maximum_digit(others@.len(), raw)), codes)
                    ]
                    encoded_by(
                        text@,
                        pixels@,
                        cx,
                        cy,
                        width,
                        height,
                        zero,
                        &project,
                        &finish,
                        maximum,
                        quantise,
                        average,
                        others,
                        raw,
                        codes,
                    )
                &&& text@.len() == 4 + 2 * cx * cy
                &&& cx * cy == 1 ==> text@[1] == '0'
            },
        },
{
    match check_encode_input(pixels.as_slice(), cx, cy, width, height) {
        Ok(()) => {},
        Err(error) => {
            return Err(error);
        },
    }
    let project_ref = &project;
    let finish_ref = &finish;
    let analyse_at = |x: usize, y: usize| -> (factor: T)
        requires
            x < cx,
            y < cy,
            pixels@.len() == 4 * width * height,
            forall|acc: T, px: usize, py: usize, colour: Rgb|
                px < width && py < height ==> call_requires(
                    project_ref,
                    (acc, x, y, px, py, colour),
                ),
            forall|sum: T| #[trigger]
                projected(pixels@, width, height, zero, project_ref, x, y, sum) ==> call_requires(
                    finish_ref,
                    (sum,),
                ),
        ensures
            component_of(pixels@, width, height, zero, project_ref, finish_ref, x, y, factor),
        {
            let sum = fold_pixels(pixels.as_slice(), width, height, x, y, zero, project_ref);
            proof {
                assert(projected(pixels@, width, height, zero, project_ref, x, y, sum));
            }
            finish_ref(sum)
        };
    proof {
        assert(pixels@.len() == 4 * width * height) by (nonlinear_arith)
            requires
                pixels@.len() == width * height * 4,
        ;
    }
    let mut factors = map_components(cx, cy, analyse_at);
    let ghost grid = factors@;
    proof {
        assert(cx * cy >= 1) by (nonlinear_arith)
            requires
                cx >= 1,
                cy >= 1,
        ;
        assert(component_index(cx as int, 0, 0) == 0);
    }
    // The first component is the average.
    let average = factors.remove(0);
    let ghost others = factors;
    proof {
        assert forall|x: usize, y: usize| x < cx && y < cy && (x > 0 || y > 0) implies component_of(
            pixels@,
            width,
            height,
            zero,
            &project,
            &finish,
            x,
            y,
            others@[#[trigger] component_index(cx as int, x as int, y as int) - 1],
        ) by {
            let at = component_index(cx as int, x as int, y as int);
            assert(at >= 1) by (nonlinear_arith)
                requires
                    at == x + y * cx,
                    x > 0 || y > 0,
                    x >= 0,
                    y >= 0,
                    cx >= 1,
            ;
            assert(at < cx * cy) by (nonlinear_arith)
                requires
                    at == x + y * cx,
                    0 <= x < cx,
                    0 <= y < cy,
            ;
            assert(others@[at - 1] == grid[at]);
        }
        assert(analysed_by(pixels@, cx, cy, width, height, zero, &project, &finish, average, others));
    }
    // Without other components there is no maximum to quantise.
    let mut raw: usize = 0;
    let mut digit: usize = 0;
    if factors.len() > 0 {
        raw = maximum(&factors);
        digit = clamp_maximum(raw);
    }
    proof {
        assert(digit == maximum_digit(others@.len(), raw));
    }
    let codes = quantise(average, factors, digit);
    let ghost written = codes;
    let components = Components {
        num_x: cx,
        num_y: cy,
        quantised_maximum_value: digit,
        dc: codes.0,
        ac: codes.1,
    };
    proof {
        assert(components@ == quantised_components(cx, cy, raw, written));
        assert(components@.encodable());
    }
    let text = components.to_hash();
    proof {
        assert(encoded_by(
            text@,
            pixels@,
            cx,
            cy,
            width,
            height,
            zero,
            &project,
            &finish,
            maximum,
            quantise,
            average,
            others,
            raw,
            written,
        ));
        lemma_hash_len(components@);
        if cx * cy == 1 {
            lemma_second_digit(components@);
        }
    }
    Ok(text)
}

} // verus!
