//! Numerals of radix 83 over a fixed alphabet of printable ASCII characters.
//!
//! A numeral is a text of digits, most significant digit first, taken as
//! characters or as bytes. Reading is lenient: what is no digit is passed
//! over, so every text has a value. Writing produces exactly the requested
//! number of digits.

use vstd::arithmetic::div_mod::*;
use vstd::arithmetic::power::*;
use vstd::prelude::*;
use vstd::string::*;
use vstd::utf8::*;

verus! {

// The alphabet, and what a text of digits denotes.

/// The 83 digits in the order of their values: the digit of value `d` is the
/// character at position `d`.
pub const ALPHABET: &'static str =
    "0123456789ABCDEFGHIJKLMNOPQRSTUVWXYZabcdefghijklmnopqrstuvwxyz#$%*+,-.:;=?@[]^_{|}~";

/// The digits as bytes.
pub open spec fn alphabet() -> Seq<u8> {
    ALPHABET.spec_bytes()
}

/// Whether `byte` is one of the 83 digits.
pub open spec fn is_digit(byte: u8) -> bool {
    alphabet().contains(byte)
}

/// The value of a digit: its position in the alphabet.
pub open spec fn digit_value(byte: u8) -> nat
    recommends
        is_digit(byte),
{
    alphabet().index_of(byte) as nat
}

/// The number that `text` denotes. The bytes are taken from the left; a digit
/// turns the number `n` read so far into `83 * n + d`, any other byte leaves
/// it as it is.
pub open spec fn base83_value(text: Seq<u8>) -> nat
    decreases text.len(),
{
    if text.len() == 0 {
        0
    } else if is_digit(text.last()) {
        base83_value(text.drop_last()) * 83 + digit_value(text.last())
    } else {
        base83_value(text.drop_last())
    }
}

/// Whether every byte of `text` is a digit.
pub open spec fn all_digits(text: Seq<u8>) -> bool {
    forall|i: int| 0 <= i < text.len() ==> is_digit(#[trigger] text[i])
}

/// The numeral of `length` digits for `value`: the digit at position `k`,
/// counted from the left and from 0, has the value
/// `value / 83^(length - 1 - k) mod 83`. Where `value` needs more digits,
/// the leading ones are cut off.
pub open spec fn base83_digits(value: nat, length: nat) -> Seq<u8> {
    Seq::new(length, |k: int| alphabet()[(value as int / pow(83, (length - 1 - k) as nat)) % 83])
}

/// Whether the character `c` is one of the 83 digits.
pub open spec fn is_digit_char(c: char) -> bool {
    c as u32 <= 0x7f && is_digit(c as u8)
}

/// The number that a text denotes, character by character: a digit turns
/// the number `n` read so far into `83 * n + d`, any other character leaves
/// it as it is.
pub open spec fn base83_text_value(text: Seq<char>) -> nat
    decreases text.len(),
{
    if text.len() == 0 {
        0
    } else if is_digit_char(text.last()) {
        base83_text_value(text.drop_last()) * 83 + digit_value(text.last() as u8)
    } else {
        base83_text_value(text.drop_last())
    }
}

/// Whether every character of `text` is a digit.
pub open spec fn all_digit_chars(text: Seq<char>) -> bool {
    forall|i: int| 0 <= i < text.len() ==> is_digit_char(#[trigger] text[i])
}

/// The text whose characters have the codes `bytes`.
pub open spec fn ascii_text(bytes: Seq<u8>) -> Seq<char> {
    Seq::new(bytes.len(), |i: int| bytes[i] as char)
}

// Reading and writing.

/// The place of `byte` in the alphabet, if it has one.
fn digit_of(byte: u8) -> (found: Option<usize>)
    ensures
        found is Some <==> is_digit(byte),
        found matches Some(d) ==> d == digit_value(byte) && d < 83,
{
    let table = ALPHABET.as_bytes();
    let mut d: usize = 0;
    while d < table.len()
        invariant
            table@ == alphabet(),
            d <= table.len(),
            forall|e: int| 0 <= e < d ==> table@[e] != byte,
        decreases table.len() - d,
    {
        if table[d] == byte {
            proof {
                lemma_digit_value(byte);
            }
            return Some(d);
        }
        d += 1;
    }
    None
}

/// The value of the character `c` as a digit, if it is one.
pub fn decode_base83_digit(c: char) -> (found: Option<usize>)
    ensures
        found is Some <==> is_digit_char(c),
        found matches Some(d) ==> d == digit_value(c as u8) && d < 83,
{
    let code = c as u32;
    if code <= 0x7f {
        digit_of(code as u8)
    } else {
        None
    }
}

/// Reads a numeral from bytes.
pub fn decode_base83_bytes(text: &[u8]) -> (value: usize)
    requires
        base83_value(text@) <= usize::MAX,
    ensures
        value == base83_value(text@),
{
    let mut value: usize = 0;
    let mut i: usize = 0;
    while i < text.len()
        invariant
            i <= text.len(),
            value == base83_value(text@.take(i as int)),
            base83_value(text@) <= usize::MAX,
        decreases text.len() - i,
    {
        proof {
            assert(text@.take(i + 1).drop_last() =~= text@.take(i as int));
            lemma_value_of_prefix(text@, i + 1);
        }
        match digit_of(text[i]) {
            Some(d) => {
                value = value * 83 + d;
            },
            None => {},
        }
        i += 1;
    }
    proof {
        assert(text@.take(i as int) =~= text@);
    }
    value
}

/// Reads a numeral from a string: the digits among its characters, in their
/// order. A character outside the alphabet is passed over.
pub fn decode_base83_string(string: &str) -> (value: usize)
    requires
        base83_text_value(string@) <= usize::MAX,
    ensures
        value == base83_text_value(string@),
        value == base83_value(string.spec_bytes()),
{
    proof {
        lemma_value_of_text(string@);
    }
    decode_base83_bytes(string.as_bytes())
}

/// The digit of value `d` as a text of one character.
fn digit_text(d: usize) -> (text: &'static str)
    requires
        d < 83,
    ensures
        text@ == seq![alphabet()[d as int] as char],
{
    proof {
        lemma_alphabet_by_ranges();
    }
    let text = ALPHABET.substring_ascii(d, d + 1);
    proof {
        assert(text@ =~= seq![alphabet()[d as int] as char]);
    }
    text
}

/// Writes `value` as a numeral of exactly `length` digits.
pub fn encode_base83_string(value: usize, length: u32) -> (text: String)
    ensures
        text@ == ascii_text(base83_digits(value as nat, length as nat)),
{
    let n = length as usize;
    // The digits from the least significant one upwards.
    let mut upwards: Vec<usize> = Vec::new();
    let mut rest = value;
    let mut j: usize = 0;
    proof {
        lemma_pow0(83);
    }
    while j < n
        invariant
            j <= n,
            upwards.len() == j,
            rest == value as int / pow(83, j as nat),
            forall|i: int| 0 <= i < j ==> #[trigger] upwards[i] == (value as int / pow(83, i as nat)) % 83,
        decreases n - j,
    {
        proof {
            reveal(pow);
            lemma_pow_positive(83, j as nat);
            lemma_div_denominator(value as int, pow(83, j as nat), 83);
            assert(pow(83, (j + 1) as nat) == 83 * pow(83, j as nat));
            assert(pow(83, j as nat) * 83 == 83 * pow(83, j as nat)) by (nonlinear_arith);
        }
        upwards.push(rest % 83);
        rest = rest / 83;
        j += 1;
    }
    let ghost digits = base83_digits(value as nat, length as nat);
    let mut text = String::new();
    let mut k: usize = 0;
    while k < n
        invariant
            k <= n,
            n == length,
            upwards.len() == n,
            digits == base83_digits(value as nat, length as nat),
            forall|i: int| 0 <= i < n ==> #[trigger] upwards[i] == (value as int / pow(83, i as nat)) % 83,
            text@ == ascii_text(digits.take(k as int)),
        decreases n - k,
    {
        let d = upwards[n - 1 - k];
        let one = digit_text(d);
        text.append(one);
        proof {
            assert(text@ =~= ascii_text(digits.take(k + 1)));
        }
        k += 1;
    }
    proof {
        assert(digits.take(k as int) =~= digits);
    }
    text
}

// The alphabet in detail.

/// The alphabet written out by ranges of character codes: ten numerals, the
/// upper case letters, the lower case letters, and 21 marks.
pub open spec fn digit_by_ranges(d: int) -> u8 {
    if d < 10 {
        (48 + d) as u8
    } else if d < 36 {
        (55 + d) as u8
    } else if d < 62 {
        (61 + d) as u8
    } else if d == 62 {
        35
    } else if d == 63 {
        36
    } else if d == 64 {
        37
    } else if d == 65 {
        42
    } else if d == 66 {
        43
    } else if d == 67 {
        44
    } else if d == 68 {
        45
    } else if d == 69 {
        46
    } else if d == 70 {
        58
    } else if d == 71 {
        59
    } else if d == 72 {
        61
    } else if d == 73 {
        63
    } else if d == 74 {
        64
    } else if d == 75 {
        91
    } else if d == 76 {
        93
    } else if d == 77 {
        94
    } else if d == 78 {
        95
    } else if d == 79 {
        123
    } else if d == 80 {
        124
    } else if d == 81 {
        125
    } else {
        126
    }
}

/// The alphabet is ASCII, and its entry at `d` has the code
/// `digit_by_ranges(d)`.
pub proof fn lemma_alphabet_by_ranges()
    ensures
        is_ascii(ALPHABET),
        ALPHABET@.len() == 83,
        alphabet().len() == 83,
        forall|d: int| 0 <= d < 83 ==> #[trigger] alphabet()[d] == digit_by_ranges(d),
        forall|d: int| 0 <= d < 83 ==> #[trigger] ALPHABET@[d] == alphabet()[d] as char,
{
    reveal_strlit(
        "0123456789ABCDEFGHIJKLMNOPQRSTUVWXYZabcdefghijklmnopqrstuvwxyz#$%*+,-.:;=?@[]^_{|}~",
    );
    broadcast use is_ascii_spec_bytes;

    assert(is_ascii(ALPHABET));
    assert(alphabet() =~= Seq::new(ALPHABET@.len(), |i| ALPHABET@.index(i) as u8));
}

/// The alphabet has 83 entries, all of them ASCII, and no byte occurs twice in it.
pub proof fn lemma_alphabet()
    ensures
        alphabet().len() == 83,
        forall|d: int| 0 <= d < 83 ==> #[trigger] alphabet()[d] < 128,
        forall|d: int, e: int|
            0 <= d < 83 && 0 <= e < 83 && #[trigger] alphabet()[d] == #[trigger] alphabet()[e]
                ==> d == e,
{
    lemma_alphabet_by_ranges();
}

/// A digit's value is below 83 and leads back to the digit; the entry of the
/// alphabet at `d` is a digit of value `d`.
pub proof fn lemma_digit_value(byte: u8)
    ensures
        is_digit(byte) ==> digit_value(byte) < 83 && alphabet()[digit_value(byte) as int] == byte,
        forall|d: int| 0 <= d < 83 && #[trigger] alphabet()[d] == byte ==> is_digit(byte) && digit_value(byte) == d,
{
    lemma_alphabet();
}

/// The powers of 83 that bound numerals of one, two and four digits.
pub proof fn lemma_small_powers()
    ensures
        pow(83, 0) == 1,
        pow(83, 1) == 83,
        pow(83, 2) == 6889,
        pow(83, 3) == 571787,
        pow(83, 4) == 47458321,
{
    reveal(pow);
    assert(pow(83, 0) == 1);
    assert(pow(83, 1) == 83 * pow(83, 0));
    assert(pow(83, 2) == 83 * pow(83, 1));
    assert(pow(83, 3) == 83 * pow(83, 2));
    assert(pow(83, 4) == 83 * pow(83, 3));
}

// Values of texts.

/// The value of a text is below 83 to the power of its length.
pub proof fn lemma_value_bound(text: Seq<u8>)
    ensures
        base83_value(text) < pow(83, text.len()),
    decreases text.len(),
{
    reveal(pow);
    if text.len() > 0 {
        lemma_value_bound(text.drop_last());
        lemma_digit_value(text.last());
        let e = (text.len() - 1) as nat;
        assert(pow(83, text.len()) == 83 * pow(83, e));
        lemma_pow_positive(83, e);
    }
}

/// A text's value is at least that of each of its beginnings.
pub proof fn lemma_value_of_prefix(text: Seq<u8>, n: int)
    requires
        0 <= n <= text.len(),
    ensures
        base83_value(text.take(n)) <= base83_value(text),
    decreases text.len() - n,
{
    if n < text.len() {
        lemma_value_of_prefix(text, n + 1);
        assert(text.take(n + 1).drop_last() =~= text.take(n));
        let rest = base83_value(text.take(n));
        assert(rest <= rest * 83) by (nonlinear_arith)
            requires
                rest >= 0,
        ;
    } else {
        assert(text.take(n) =~= text);
    }
}

/// Bytes that are no digits do not count: a text has the value of what is
/// left of it when they are taken out.
pub proof fn lemma_value_skips_other_bytes(text: Seq<u8>)
    ensures
        base83_value(text) == base83_value(text.filter(|byte: u8| is_digit(byte))),
        all_digits(text.filter(|byte: u8| is_digit(byte))),
    decreases text.len(),
{
    reveal(Seq::filter);
    let keep = |byte: u8| is_digit(byte);
    if text.len() > 0 {
        lemma_value_skips_other_bytes(text.drop_last());
        let front = text.drop_last().filter(keep);
        if is_digit(text.last()) {
            assert(text.filter(keep) == front.push(text.last()));
            assert(front.push(text.last()).drop_last() =~= front);
        } else {
            assert(text.filter(keep) == front);
        }
    }
}

/// Characters that are no digits do not count: a text has the value of what
/// is left of it when they are taken out.
pub proof fn lemma_text_value_skips_other_chars(text: Seq<char>)
    ensures
        base83_text_value(text) == base83_text_value(text.filter(|c: char| is_digit_char(c))),
        all_digit_chars(text.filter(|c: char| is_digit_char(c))),
    decreases text.len(),
{
    reveal(Seq::filter);
    let keep = |c: char| is_digit_char(c);
    if text.len() > 0 {
        lemma_text_value_skips_other_chars(text.drop_last());
        let front = text.drop_last().filter(keep);
        if is_digit_char(text.last()) {
            assert(text.filter(keep) == front.push(text.last()));
            assert(front.push(text.last()).drop_last() =~= front);
        } else {
            assert(text.filter(keep) == front);
        }
    }
}

/// The value of a text is below 83 to the power of its length in
/// characters.
pub proof fn lemma_text_value_bound(text: Seq<char>)
    ensures
        base83_text_value(text) < pow(83, text.len()),
    decreases text.len(),
{
    reveal(pow);
    if text.len() > 0 {
        lemma_text_value_bound(text.drop_last());
        lemma_digit_value(text.last() as u8);
        let e = (text.len() - 1) as nat;
        assert(pow(83, text.len()) == 83 * pow(83, e));
        lemma_pow_positive(83, e);
    }
}

// Reading what was written, and writing what was read.

/// Cutting the last digit off a numeral gives the numeral of the value
/// divided by 83.
proof fn lemma_digits_drop_last(value: nat, length: nat)
    requires
        length > 0,
    ensures
        base83_digits(value, length).drop_last() =~= base83_digits(value / 83, (length - 1) as nat),
        base83_digits(value, length).last() == alphabet()[value as int % 83],
{
    let long = base83_digits(value, length);
    let short = base83_digits(value / 83, (length - 1) as nat);
    lemma_pow0(83);
    assert forall|k: int| 0 <= k < length - 1 implies long[k] == short[k] by {
        let e = (length - 2 - k) as nat;
        reveal(pow);
        lemma_pow_positive(83, e);
        assert(pow(83, (length - 1 - k) as nat) == 83 * pow(83, e));
        lemma_div_denominator(value as int, 83, pow(83, e));
    }
}

/// Writing the value of a numeral with as many digits as it has gives the
/// numeral back.
pub proof fn lemma_digits_of_value(text: Seq<u8>)
    requires
        all_digits(text),
    ensures
        base83_digits(base83_value(text), text.len()) == text,
    decreases text.len(),
{
    let value = base83_value(text);
    if text.len() == 0 {
        assert(base83_digits(value, 0) =~= text);
    } else {
        let front = text.drop_last();
        let d = digit_value(text.last());
        lemma_digit_value(text.last());
        lemma_digits_of_value(front);
        lemma_fundamental_div_mod_converse_div(value as int, 83, base83_value(front) as int, d as int);
        lemma_fundamental_div_mod_converse_mod(value as int, 83, base83_value(front) as int, d as int);
        lemma_digits_drop_last(value, text.len());
        assert(base83_digits(value, text.len()) =~= base83_digits(value, text.len()).drop_last().push(
            base83_digits(value, text.len()).last(),
        ));
        assert(text =~= front.push(text.last()));
    }
}

/// A numeral that was written has only digits, and its value is the one it
/// was written for, provided that it has digits enough for it.
pub proof fn lemma_value_of_digits(value: nat, length: nat)
    ensures
        all_digits(base83_digits(value, length)),
        base83_digits(value, length).len() == length,
        value < pow(83, length) ==> base83_value(base83_digits(value, length)) == value,
    decreases length,
{
    let text = base83_digits(value, length);
    assert forall|i: int| 0 <= i < text.len() implies is_digit(#[trigger] text[i]) by {
        lemma_digit_value(text[i]);
        lemma_alphabet();
    }
    reveal(pow);
    if length > 0 {
        lemma_digits_drop_last(value, length);
        lemma_value_of_digits(value / 83, (length - 1) as nat);
        lemma_alphabet();
        lemma_digit_value(text.last());
        if value < pow(83, length) {
            let e = (length - 1) as nat;
            assert(pow(83, length) == 83 * pow(83, e));
            lemma_fundamental_div_mod(value as int, 83);
            assert(value / 83 < pow(83, e));
        }
    }
}

/// A character with a code of at most 127 is one of the ASCII characters.
proof fn lemma_ascii_char(c: char)
    ensures
        '\0' <= c,
        c as u32 <= 0x7f <==> c <= '\u{7f}',
{
}

/// Writing the value of a text of digits with as many digits as it has
/// characters gives the text back.
pub proof fn lemma_text_of_value(text: Seq<char>)
    requires
        all_digit_chars(text),
    ensures
        ascii_text(base83_digits(base83_text_value(text), text.len())) == text,
{
    let bytes = encode_utf8(text);
    assert(is_ascii_chars(text)) by {
        assert forall|i: int| 0 <= i < text.len() implies '\0' <= #[trigger] text[i] <= '\u{7f}' by {
            assert(is_digit_char(text[i]));
            lemma_ascii_char(text[i]);
        }
    }
    is_ascii_chars_encode_utf8(text);
    assert(all_digits(bytes)) by {
        assert forall|i: int| 0 <= i < bytes.len() implies is_digit(#[trigger] bytes[i]) by {
            assert(is_digit_char(text[i]));
            assert(text[i] as u8 == bytes[i]);
        }
    }
    lemma_value_of_text(text);
    lemma_digits_of_value(bytes);
    assert(ascii_text(bytes) =~= text) by {
        assert forall|i: int| 0 <= i < text.len() implies ascii_text(bytes)[i] == text[i] by {
            assert(text[i] as u8 == bytes[i]);
            assert(is_digit_char(text[i]));
        }
    }
}

// Bytes and characters.

/// A text made of bytes below 128 is stored as exactly those bytes.
pub proof fn lemma_ascii_text_bytes(bytes: Seq<u8>)
    requires
        forall|i: int| 0 <= i < bytes.len() ==> #[trigger] bytes[i] < 128,
    ensures
        vstd::utf8::is_ascii_chars(ascii_text(bytes)),
        vstd::utf8::encode_utf8(ascii_text(bytes)) == bytes,
{
    let text = ascii_text(bytes);
    assert(vstd::utf8::is_ascii_chars(text)) by {
        assert forall|i: int| 0 <= i < text.len() implies '\0' <= #[trigger] text[i] <= '\u{7f}' by {
            assert(bytes[i] < 128);
        }
    }
    vstd::utf8::is_ascii_chars_encode_utf8(text);
    assert(vstd::utf8::encode_utf8(text) =~= bytes) by {
        assert forall|i: int| 0 <= i < bytes.len() implies vstd::utf8::encode_utf8(text)[i] == bytes[i] by {
            assert(text[i] as u8 == vstd::utf8::encode_utf8(text)[i]);
            assert(bytes[i] < 128);
        }
    }
}

/// Bytes that are no digits, at the end of a text, do not change its value.
proof fn lemma_value_without_tail(text: Seq<u8>, tail: Seq<u8>)
    requires
        forall|i: int| 0 <= i < tail.len() ==> !is_digit(#[trigger] tail[i]),
    ensures
        base83_value(text + tail) == base83_value(text),
    decreases tail.len(),
{
    if tail.len() == 0 {
        assert(text + tail =~= text);
    } else {
        assert((text + tail).drop_last() =~= text + tail.drop_last());
        assert((text + tail).last() == tail[tail.len() - 1]);
        lemma_value_without_tail(text, tail.drop_last());
    }
}

/// A character of one byte is stored as its code; every byte of a longer
/// one is 128 or more.
proof fn lemma_bytes_of_char(c: char)
    ensures
        c as u32 <= 0x7f ==> encode_scalar(c as u32) == seq![c as u8],
        c as u32 > 0x7f ==> forall|i: int|
            0 <= i < encode_scalar(c as u32).len() ==> #[trigger] encode_scalar(c as u32)[i] >= 128,
{
    let s = c as u32;
    char_is_scalar(c);
    if has_width_1_encoding(s) {
        assert((s & 0x7F) as u8 == s as u8) by (bit_vector)
            requires
                s <= 0x7f,
        ;
        assert(encode_scalar(s) =~= seq![c as u8]);
    } else {
        assert(0xC0u8 | ((s >> 6) & 0x1F) as u8 >= 128) by (bit_vector);
        assert(0xE0u8 | ((s >> 12) & 0x0F) as u8 >= 128) by (bit_vector);
        assert(0xF0u8 | ((s >> 18) & 0x7) as u8 >= 128) by (bit_vector);
        assert(0x80u8 | (s & 0x3F) as u8 >= 128) by (bit_vector);
        assert(0x80u8 | ((s >> 6) & 0x3F) as u8 >= 128) by (bit_vector);
        assert(0x80u8 | ((s >> 12) & 0x3F) as u8 >= 128) by (bit_vector);
    }
}

/// The bytes of a text with one more character are the bytes of the text,
/// followed by those of the character.
proof fn lemma_bytes_of_push(text: Seq<char>, c: char)
    ensures
        encode_utf8(text.push(c)) == encode_utf8(text) + encode_scalar(c as u32),
    decreases text.len(),
{
    let more = text.push(c);
    if text.len() == 0 {
        assert(more.drop_first() =~= Seq::<char>::empty());
        assert(encode_utf8(more) =~= encode_scalar(c as u32) + encode_utf8(more.drop_first()));
        assert(encode_utf8(more) =~= encode_utf8(text) + encode_scalar(c as u32));
    } else {
        assert(more.drop_first() =~= text.drop_first().push(c));
        lemma_bytes_of_push(text.drop_first(), c);
        assert(encode_utf8(more) =~= encode_utf8(text) + encode_scalar(c as u32));
    }
}

/// Read byte by byte, a text has the value that it has character by
/// character: the bytes of a character that is no single byte are no digits.
pub proof fn lemma_value_of_text(text: Seq<char>)
    ensures
        base83_value(encode_utf8(text)) == base83_text_value(text),
    decreases text.len(),
{
    if text.len() > 0 {
        let front = text.drop_last();
        let c = text.last();
        assert(text =~= front.push(c));
        lemma_value_of_text(front);
        lemma_bytes_of_push(front, c);
        lemma_bytes_of_char(c);
        lemma_alphabet();
        let bytes = encode_utf8(front);
        if c as u32 <= 0x7f {
            assert(bytes + seq![c as u8] =~= bytes.push(c as u8));
            assert(bytes.push(c as u8).drop_last() =~= bytes);
        } else {
            let tail = encode_scalar(c as u32);
            assert forall|i: int| 0 <= i < tail.len() implies !is_digit(#[trigger] tail[i]) by {
                assert(tail[i] >= 128);
            }
            lemma_value_without_tail(bytes, tail);
        }
    }
}

/// A text of bytes below 128 has the same value byte by byte and character
/// by character.
pub proof fn lemma_text_value_of_ascii(bytes: Seq<u8>)
    requires
        forall|i: int| 0 <= i < bytes.len() ==> #[trigger] bytes[i] < 128,
    ensures
        base83_text_value(ascii_text(bytes)) == base83_value(bytes),
{
    lemma_ascii_text_bytes(bytes);
    lemma_value_of_text(ascii_text(bytes));
}

/// A numeral that was written, taken as a text, has only digits, and its
/// value is the one it was written for, provided that it has digits enough
/// for it.
pub proof fn lemma_text_value_of_digits(value: nat, length: nat)
    ensures
        all_digit_chars(ascii_text(base83_digits(value, length))),
        value < pow(83, length) ==> base83_text_value(ascii_text(base83_digits(value, length)))
            == value,
{
    let digits = base83_digits(value, length);
    lemma_value_of_digits(value, length);
    lemma_alphabet();
    assert forall|i: int| 0 <= i < digits.len() implies #[trigger] digits[i] < 128 by {
        lemma_digit_value(digits[i]);
    }
    lemma_text_value_of_ascii(digits);
    assert forall|i: int| 0 <= i < digits.len() implies is_digit_char(
        #[trigger] ascii_text(digits)[i],
    ) by {
        assert(digits[i] < 128);
        assert(is_digit(digits[i]));
        assert(ascii_text(digits)[i] == digits[i] as char);
    }
}

} // verus!
