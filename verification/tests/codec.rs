use std::cell::RefCell;
use std::cmp::Ordering;
use std::f64::consts::PI;

use blurhash_wasm::hash::Components;
use blurhash_wasm::pixels::Rgb;
use blurhash_wasm::quantised::Channels;
use blurhash_wasm::{decode, encode, EncodingError, Error};

// The transform on real numbers, as a caller of the library supplies it.

struct LinearComponents {
    num_x: usize,
    num_y: usize,
    colours: Vec<[f64; 3]>,
}

fn sign_pow(value: f64, exp: f64) -> f64 {
    value.abs().powf(exp).copysign(value)
}

fn linear_to_srgb(value: f64) -> usize {
    let v = f64::max(0f64, f64::min(1f64, value));
    if v <= 0.003_130_8 {
        (v * 12.92 * 255f64 + 0.5) as usize
    } else {
        ((1.055 * f64::powf(v, 1f64 / 2.4) - 0.055) * 255f64 + 0.5) as usize
    }
}

fn srgb_to_linear(value: usize) -> f64 {
    let v = (value as f64) / 255f64;
    if v <= 0.04045 {
        v / 12.92
    } else {
        ((v + 0.055) / 1.055).powf(2.4)
    }
}

fn linearise(components: &Components) -> LinearComponents {
    let maximum_value = ((components.quantised_maximum_value + 1) as f64) / 166f64;
    let mut colours: Vec<[f64; 3]> = Vec::new();
    colours.push([
        srgb_to_linear(components.dc.r),
        srgb_to_linear(components.dc.g),
        srgb_to_linear(components.dc.b),
    ]);
    for levels in &components.ac {
        colours.push([
            sign_pow((levels.r as f64 - 9f64) / 9f64, 2f64) * maximum_value,
            sign_pow((levels.g as f64 - 9f64) / 9f64, 2f64) * maximum_value,
            sign_pow((levels.b as f64 - 9f64) / 9f64, 2f64) * maximum_value,
        ]);
    }
    LinearComponents { num_x: components.num_x, num_y: components.num_y, colours }
}

fn synthesise(components: &LinearComponents, width: usize, height: usize, x: usize, y: usize) -> Rgb {
    let mut r = 0f64;
    let mut g = 0f64;
    let mut b = 0f64;
    for j in 0..components.num_y {
        for i in 0..components.num_x {
            let basis = f64::cos(PI * (x as f64) * (i as f64) / (width as f64))
                * f64::cos(PI * (y as f64) * (j as f64) / (height as f64));
            let colour = components.colours[i + j * components.num_x];
            r += colour[0] * basis;
            g += colour[1] * basis;
            b += colour[2] * basis;
        }
    }
    Rgb { r: linear_to_srgb(r) as u8, g: linear_to_srgb(g) as u8, b: linear_to_srgb(b) as u8 }
}

fn project(
    [r, g, b]: [f64; 3],
    x: usize,
    y: usize,
    pixel_x: usize,
    pixel_y: usize,
    colour: Rgb,
    width: usize,
    height: usize,
) -> [f64; 3] {
    let normalisation = if x == 0 && y == 0 { 1f64 } else { 2f64 };
    let basis = normalisation
        * f64::cos((PI * x as f64 * pixel_x as f64) / width as f64)
        * f64::cos((PI * y as f64 * pixel_y as f64) / height as f64);
    [
        r + basis * srgb_to_linear(usize::from(colour.r)),
        g + basis * srgb_to_linear(usize::from(colour.g)),
        b + basis * srgb_to_linear(usize::from(colour.b)),
    ]
}

fn scale([r, g, b]: [f64; 3], width: usize, height: usize) -> [f64; 3] {
    let scale = 1f64 / ((width * height) as f64);
    [r * scale, g * scale, b * scale]
}

fn raw_maximum(ac: &[[f64; 3]]) -> usize {
    let maxf = |a: &f64, b: &f64| a.partial_cmp(b).unwrap_or(Ordering::Equal);
    let actual_maximum_value = ac
        .iter()
        .map(|channels| channels.iter().copied().map(f64::abs).max_by(maxf).unwrap())
        .max_by(maxf)
        .unwrap();
    f64::floor(actual_maximum_value * 166f64 - 0.5) as usize
}

fn quantise(dc: [f64; 3], ac: &[[f64; 3]], quantised_maximum_value: usize) -> (Channels, Vec<Channels>) {
    let maximum_value = ((quantised_maximum_value + 1) as f64) / 166f64;
    let quant = |v: f64| (sign_pow(v / maximum_value, 0.5) * 9. + 9.5).floor().min(18.).max(0.) as usize;
    (
        Channels { r: linear_to_srgb(dc[0]), g: linear_to_srgb(dc[1]), b: linear_to_srgb(dc[2]) },
        ac.iter().map(|f| Channels { r: quant(f[0]), g: quant(f[1]), b: quant(f[2]) }).collect(),
    )
}

fn decode_image(blur_hash: &str, width: usize, height: usize) -> Result<Vec<u8>, Error> {
    decode(blur_hash, width, height, linearise, |components: &LinearComponents, x: usize, y: usize| {
        synthesise(components, width, height, x, y)
    })
}

fn encode_image(
    pixels: Vec<u8>,
    cx: usize,
    cy: usize,
    width: usize,
    height: usize,
) -> Result<String, EncodingError> {
    encode(
        pixels,
        cx,
        cy,
        width,
        height,
        [0f64, 0f64, 0f64],
        |sum: [f64; 3], x: usize, y: usize, pixel_x: usize, pixel_y: usize, colour: Rgb| {
            project(sum, x, y, pixel_x, pixel_y, colour, width, height)
        },
        |sum: [f64; 3]| scale(sum, width, height),
        |ac: &Vec<[f64; 3]>| raw_maximum(ac),
        |dc: [f64; 3], ac: Vec<[f64; 3]>, maximum: usize| quantise(dc, &ac, maximum),
    )
}

fn gradient(width: usize, height: usize) -> Vec<u8> {
    let mut pixels = Vec::new();
    for y in 0..height {
        for x in 0..width {
            pixels.extend_from_slice(&[((x * 32) % 256) as u8, ((y * 40) % 256) as u8, ((x * y * 5) % 256) as u8, 255]);
        }
    }
    pixels
}

const QUADRANTS: [[u8; 3]; 4] = [[200, 40, 40], [40, 200, 40], [40, 40, 200], [220, 220, 60]];

fn quadrant(x: usize, y: usize) -> usize {
    (if x >= 8 { 1 } else { 0 }) + (if y >= 8 { 2 } else { 0 })
}

fn quadrants() -> Vec<u8> {
    let mut pixels = Vec::new();
    for y in 0..16 {
        for x in 0..16 {
            pixels.extend_from_slice(&QUADRANTS[quadrant(x, y)]);
            pixels.push(255);
        }
    }
    pixels
}

#[test]
fn err_if_hash_length_less_than_6() {
    assert_eq!(Err(Error::LengthInvalid), decode_image("L", 40, 30));
}

#[test]
fn decode_refuses_short_hashes_whatever_they_hold() {
    for hash in [
        "",
        "0",
        "LKO2?",
        "~~~~~",
        "/////",
        "\u{e9}\u{e9}0",
        "\u{e9}0000",
        "L\u{4e16}\u{754c}\u{1f600}~",
        "\u{1f600}\u{1f600}\u{1f600}\u{1f600}\u{1f600}",
    ] {
        assert_eq!(Err(Error::LengthInvalid), decode_image(hash, 40, 30));
        assert_eq!(Err(Error::LengthInvalid), decode_image(hash, 0, 0));
    }
}

#[test]
fn decode_refuses_a_length_that_was_not_announced() {
    assert_eq!(Err(Error::LengthMismatch), decode_image("LKO2?U", 40, 30));
    assert_eq!(Err(Error::LengthMismatch), decode_image("LKO2?U%2Tw=w]~RBVZRi};RPxuw", 40, 30));
    assert_eq!(Err(Error::LengthMismatch), decode_image("LKO2?U%2Tw=w]~RBVZRi};RPxuwH0", 40, 30));
    assert_eq!(Err(Error::LengthMismatch), decode_image("0000000", 40, 30));
}

#[test]
fn decode_counts_characters() {
    // Six characters, the first of two bytes and no digit: one component.
    assert_eq!(Ok(vec![255, 255, 255, 255]), decode_image("\u{e9}0TSUA", 1, 1));
    // Eight characters announced and eight there, of eleven bytes.
    assert!(decode_image("1\u{4e16}0000\u{e9}L", 2, 2).is_ok());
    // Six characters where 28 are announced, though of 28 bytes.
    let hash = "L\u{1f600}\u{1f600}\u{1f600}\u{1f600}\u{1f600}0000000";
    assert_eq!(28, hash.len());
    assert_eq!(Err(Error::LengthMismatch), decode_image(hash, 4, 4));
}

#[test]
fn decode_asks_nothing_of_its_functions_for_a_refused_hash() {
    let calls = RefCell::new(0);
    let decoded = decode(
        "LKO2?U",
        4,
        4,
        |_: &Components| *calls.borrow_mut() += 1,
        |_: &(), _: usize, _: usize| {
            *calls.borrow_mut() += 1;
            Rgb { r: 0, g: 0, b: 0 }
        },
    );
    assert_eq!(Err(Error::LengthMismatch), decoded);
    assert_eq!(0, *calls.borrow());
}

#[test]
fn decode_hands_the_components_on_and_stores_every_pixel() {
    let seen = RefCell::new(Vec::new());
    let decoded = decode(
        "10000//L",
        3,
        2,
        |components: &Components| {
            seen.borrow_mut().push(components.clone());
            7u8
        },
        |seven: &u8, x: usize, y: usize| Rgb { r: *seven, g: x as u8, b: y as u8 },
    );
    assert_eq!(
        Ok(vec![
            7, 0, 0, 255, 7, 1, 0, 255, 7, 2, 0, 255, //
            7, 0, 1, 255, 7, 1, 1, 255, 7, 2, 1, 255,
        ]),
        decoded
    );
    assert_eq!(
        vec![Components {
            num_x: 2,
            num_y: 1,
            quantised_maximum_value: 0,
            dc: Channels { r: 0, g: 0, b: 0 },
            ac: vec![Channels { r: 0, g: 1, b: 2 }],
        }],
        seen.into_inner()
    );
}

#[test]
fn decodes_a_hash_of_one_component_to_one_colour() {
    assert_eq!(
        Ok(vec![
            200, 100, 50, 255, 200, 100, 50, 255, 200, 100, 50, 255, //
            200, 100, 50, 255, 200, 100, 50, 255, 200, 100, 50, 255,
        ]),
        decode_image("00M|T9", 3, 2)
    );
}

#[test]
fn decodes_a_hash_of_four_by_three_components() {
    assert_eq!(
        Ok(vec![
            87, 111, 168, 255, 96, 120, 175, 255, 100, 127, 182, 255, 98, 122, 177, 255, //
            134, 135, 191, 255, 139, 142, 197, 255, 142, 148, 203, 255, 140, 144, 199, 255, //
            122, 114, 157, 255, 125, 122, 166, 255, 127, 127, 172, 255, 124, 120, 165, 255,
        ]),
        decode_image("LUDT3yayV?ay%jWBa#a}9Xj[j@fP", 4, 3)
    );
}

fn checksum(pixels: &[u8]) -> (u64, u64) {
    let sum = pixels.iter().map(|&byte| byte as u64).sum::<u64>();
    let weighted = pixels
        .iter()
        .enumerate()
        .fold(0u64, |sum, (i, &byte)| (sum + (i as u64 + 1) * byte as u64) % 1_000_000_007);
    (sum, weighted)
}

#[test]
fn decodes_ok() {
    let res = decode_image("LUDT3yayV?ay%jWBa#a}9Xj[j@fP", 40, 30);

    match res {
        Ok(img) => {
            assert_eq!(40 * 30 * 4, img.len());
            assert_eq!([87, 111, 168, 255, 88, 111, 168, 255], img[..8]);
            assert_eq!([99, 118, 172, 255], img[4 * 39..4 * 40]);
            assert_eq!([134, 135, 191, 255, 134, 135, 191, 255], img[4 * 40 * 10..4 * 40 * 10 + 8]);
            assert_eq!([149, 148, 201, 255], img[4 * (20 + 15 * 40)..4 * (20 + 15 * 40) + 4]);
            assert_eq!([0, 15, 44, 255], img[4 * (39 + 29 * 40)..]);
            assert_eq!((776657, 753963708), checksum(&img));
        }

        Err(_err) => assert!(false),
    }
}

#[test]
fn decodes_a_known_hash_at_thirty_two_by_thirty_two() {
    let pixels = decode_image("LKO2?V%2Tw=^]~RBVZRi};RPxuwH", 32, 32).unwrap();
    assert_eq!(32 * 32 * 4, pixels.len());
    assert_eq!([251, 195, 162, 255, 251, 195, 162, 255], pixels[..8]);
    assert_eq!([196, 161, 160, 255], pixels[4 * (16 + 16 * 32)..4 * (16 + 16 * 32) + 4]);
    assert_eq!([192, 189, 183, 255], pixels[4 * (31 + 31 * 32)..]);
    assert_eq!((824757, 674148509), checksum(&pixels));
}

#[test]
fn decodes_a_known_hash_at_forty_by_thirty() {
    let pixels = decode_image("LKO2?U%2Tw=w]~RBVZRi};RPxuwH", 40, 30).unwrap();
    assert_eq!(40 * 30 * 4, pixels.len());
    assert_eq!([251, 193, 161, 255, 251, 193, 161, 255], pixels[..8]);
    assert_eq!([196, 161, 159, 255], pixels[4 * (20 + 15 * 40)..4 * (20 + 15 * 40) + 4]);
    assert_eq!([192, 191, 182, 255], pixels[4 * (39 + 29 * 40)..]);
    assert!(pixels.chunks(4).all(|pixel| pixel[3] == 255));
    assert_eq!((965090, 295243653), checksum(&pixels));
}

#[test]
fn decodes_to_an_empty_image() {
    assert_eq!(Ok(vec![]), decode_image("00M|T9", 0, 0));
    assert_eq!(Ok(vec![]), decode_image("00M|T9", 5, 0));
}

#[test]
fn encode_refuses_numbers_of_components_out_of_range() {
    let pixels = gradient(8, 6);
    assert_eq!(Err(EncodingError::ComponentsNumberInvalid), encode_image(pixels.clone(), 0, 3, 8, 6));
    assert_eq!(Err(EncodingError::ComponentsNumberInvalid), encode_image(pixels.clone(), 4, 10, 8, 6));
    assert_eq!(Err(EncodingError::ComponentsNumberInvalid), encode_image(pixels.clone(), 10, 1, 8, 6));
    assert_eq!(Err(EncodingError::ComponentsNumberInvalid), encode_image(pixels, 1, 0, 8, 6));
    assert_eq!(Err(EncodingError::ComponentsNumberInvalid), encode_image(vec![0; 3], 0, 10, 8, 6));
}

#[test]
fn encode_refuses_a_buffer_of_another_length() {
    let pixels = gradient(8, 6);
    assert_eq!(Err(EncodingError::BytesPerPixelMismatch), encode_image(pixels.clone(), 4, 3, 8, 5));
    assert_eq!(Err(EncodingError::BytesPerPixelMismatch), encode_image(pixels.clone(), 4, 3, 6, 8 + 1));
    assert_eq!(Err(EncodingError::BytesPerPixelMismatch), encode_image(pixels[1..].to_vec(), 4, 3, 8, 6));
    assert_eq!(Err(EncodingError::BytesPerPixelMismatch), encode_image(vec![], 4, 3, 8, 6));
    assert_eq!(
        Err(EncodingError::BytesPerPixelMismatch),
        encode_image(pixels, 4, 3, usize::MAX, usize::MAX)
    );
}

#[test]
fn encode_asks_nothing_of_its_functions_for_a_refused_input() {
    let calls = RefCell::new(0);
    let encoded = encode(
        vec![0; 47],
        4,
        3,
        4,
        3,
        (),
        |_: (), _: usize, _: usize, _: usize, _: usize, _: Rgb| *calls.borrow_mut() += 1,
        |_: ()| *calls.borrow_mut() += 1,
        |_: &Vec<()>| {
            *calls.borrow_mut() += 1;
            0
        },
        |_: (), _: Vec<()>, _: usize| {
            *calls.borrow_mut() += 1;
            (Channels { r: 0, g: 0, b: 0 }, vec![Channels { r: 9, g: 9, b: 9 }; 11])
        },
    );
    assert_eq!(Err(EncodingError::BytesPerPixelMismatch), encoded);
    assert_eq!(0, *calls.borrow());
}

#[test]
fn encode_walks_for_each_component_row_by_row_and_writes_what_comes_back() {
    let steps = RefCell::new(Vec::new());
    let encoded = encode(
        // Two columns, two rows.
        vec![1, 2, 3, 0, 4, 5, 6, 0, 7, 8, 9, 0, 10, 11, 12, 0],
        3,
        2,
        2,
        2,
        1000usize,
        |sum: usize, x: usize, y: usize, pixel_x: usize, pixel_y: usize, colour: Rgb| {
            steps.borrow_mut().push((sum, x, y, pixel_x, pixel_y, colour.r, colour.g, colour.b));
            sum + 1
        },
        |sum: usize| 10 * sum,
        |others: &Vec<usize>| {
            assert_eq!(&vec![10040; 5], others);
            21
        },
        |average: usize, others: Vec<usize>, maximum: usize| {
            assert_eq!(10040, average);
            assert_eq!(vec![10040; 5], others);
            assert_eq!(21, maximum);
            (
                Channels { r: 200, g: 100, b: 50 },
                (1..=5).map(|f| Channels { r: f, g: 9, b: 18 }).collect(),
            )
        },
    );
    let steps = steps.into_inner();
    assert_eq!(6 * 4, steps.len());
    // The components row by row, and for each the pixels column by column.
    let components = [(0, 0), (1, 0), (2, 0), (0, 1), (1, 1), (2, 1)];
    let pixels = [(0, 0, 1, 2, 3), (0, 1, 7, 8, 9), (1, 0, 4, 5, 6), (1, 1, 10, 11, 12)];
    for (c, &(x, y)) in components.iter().enumerate() {
        for (k, &(pixel_x, pixel_y, r, g, b)) in pixels.iter().enumerate() {
            assert_eq!((1000 + k, x, y, pixel_x, pixel_y, r, g, b), steps[4 * c + k]);
        }
    }
    let hash = encoded.unwrap();
    assert_eq!(16, hash.len());
    assert!(hash.starts_with("BLM|T9"));
    let read = Components::from_hash(&hash).unwrap();
    assert_eq!(
        vec![(1, 9, 18), (2, 9, 18), (3, 9, 18), (4, 9, 18), (5, 9, 18)],
        read.ac.iter().map(|c| (c.r, c.g, c.b)).collect::<Vec<_>>()
    );
}

#[test]
fn encode_cuts_the_maximum_to_one_digit() {
    for (raw, digit) in [(0usize, '0'), (5, '5'), (82, '~'), (83, '~'), (usize::MAX, '~')] {
        let hash = encode(
            vec![0; 8],
            2,
            1,
            2,
            1,
            (),
            |_: (), _: usize, _: usize, _: usize, _: usize, _: Rgb| (),
            |_: ()| (),
            |_: &Vec<()>| raw,
            |_: (), others: Vec<()>, maximum: usize| {
                assert!(maximum <= 82);
                (Channels { r: 0, g: 0, b: 0 }, vec![Channels { r: 9, g: 9, b: 9 }; others.len()])
            },
        )
        .unwrap();
        assert_eq!(Some(digit), hash.chars().nth(1));
    }
}

#[test]
fn a_hash_of_one_component_has_the_maximum_zero() {
    let asked = RefCell::new(0);
    let hash = encode(
        vec![9; 4],
        1,
        1,
        1,
        1,
        (),
        |_: (), _: usize, _: usize, _: usize, _: usize, _: Rgb| (),
        |_: ()| (),
        |_: &Vec<()>| {
            *asked.borrow_mut() += 1;
            5
        },
        |_: (), others: Vec<()>, maximum: usize| {
            assert!(others.is_empty());
            assert_eq!(0, maximum);
            (Channels { r: 200, g: 100, b: 50 }, vec![])
        },
    );
    assert_eq!(Ok(String::from("00M|T9")), hash);
    assert_eq!(0, *asked.borrow());
    for size in 1..5usize {
        let hash = encode_image(gradient(size, size + 1), 1, 1, size, size + 1).unwrap();
        assert_eq!(Some('0'), hash.chars().nth(1));
    }
}

#[test]
fn alpha_is_not_encoded() {
    let opaque = gradient(8, 6);
    let mut clear = opaque.clone();
    let mut mixed = opaque.clone();
    for (i, pixel) in clear.chunks_mut(4).enumerate() {
        pixel[3] = 0;
        mixed[4 * i + 3] = (i * 37 % 256) as u8;
    }
    for (cx, cy) in [(1, 1), (4, 3), (9, 9)] {
        let hash = encode_image(opaque.clone(), cx, cy, 8, 6);
        assert_eq!(hash, encode_image(clear.clone(), cx, cy, 8, 6));
        assert_eq!(hash, encode_image(mixed.clone(), cx, cy, 8, 6));
    }
}

#[test]
fn encodes_an_image_of_one_colour() {
    let pixels: Vec<u8> = [200u8, 100, 50, 255].repeat(12);
    assert_eq!(Ok(String::from("00M|T9")), encode_image(pixels.clone(), 1, 1, 4, 3));
    assert_eq!(Ok(String::from("B$M|T9^4fQ}XxFfQ")), encode_image(pixels, 3, 2, 4, 3));
}

#[test]
fn encodes_a_gradient() {
    assert_eq!(
        Ok(String::from("LjF=Zx33a{xszFNMfQnQeof8fQf6")),
        encode_image(gradient(8, 6), 4, 3, 8, 6)
    );
    assert_eq!(Ok(String::from("00F=Zx")), encode_image(gradient(8, 6), 1, 1, 8, 6));
    let largest = encode_image(gradient(8, 6), 9, 9, 8, 6).unwrap();
    assert_eq!(4 + 2 * 81, largest.len());
    assert!(largest.starts_with("|jF=Zx33a{xsJj%0FF-UFFzFNMfQnQWrnPWrnPWreof8"));
}

#[test]
fn encodes_an_image_of_four_quadrants() {
    assert_eq!(
        Ok(String::from("LwH_;pY~a7y4at]NsSNxawsljsWX")),
        encode_image(quadrants(), 4, 3, 16, 16)
    );
}

#[test]
fn an_encoded_gradient_decodes_to_its_blur() {
    let hash = encode_image(gradient(8, 6), 4, 3, 8, 6).unwrap();
    let pixels = decode_image(&hash, 8, 6).unwrap();
    assert_eq!(8 * 6 * 4, pixels.len());
    assert_eq!([76, 0, 0, 255, 67, 0, 0, 255, 67, 0, 0, 255, 109, 0, 0, 255], pixels[..16]);
    assert_eq!([164, 142, 111, 255], pixels[4 * 47..]);
    assert_eq!(24400u32, pixels.iter().map(|&byte| byte as u32).sum::<u32>());
}

#[test]
fn a_round_trip_keeps_the_mean_colour_of_each_quadrant() {
    let hash = encode_image(quadrants(), 4, 3, 16, 16).unwrap();
    let pixels = decode_image(&hash, 16, 16).unwrap();
    let mut sums = [[0f64; 3]; 4];
    for y in 0..16 {
        for x in 0..16 {
            for channel in 0..3 {
                sums[quadrant(x, y)][channel] += pixels[4 * (x + 16 * y) + channel] as f64;
            }
        }
    }
    for (sum, colour) in sums.iter().zip(QUADRANTS.iter()) {
        for channel in 0..3 {
            let mean = sum[channel] / 64.0;
            let wanted = colour[channel] as f64;
            assert!((mean - wanted).abs() < 90.0, "mean {} for {}", mean, wanted);
            // What is bright stays bright, and what is dark stays dark.
            assert_eq!(wanted > 128.0, mean > 128.0);
        }
    }
}

#[test]
fn a_round_trip_of_one_colour_is_exact() {
    for colour in [[0u8, 0, 0], [255, 255, 255], [200, 100, 50], [1, 2, 3], [128, 127, 129]] {
        let mut pixels = Vec::new();
        for _ in 0..20 {
            pixels.extend_from_slice(&colour);
            pixels.push(255);
        }
        let hash = encode_image(pixels.clone(), 1, 1, 5, 4).unwrap();
        assert_eq!(Ok(pixels), decode_image(&hash, 5, 4));
    }
}
