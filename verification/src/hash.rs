//! The layout of a hash string: one digit for the size of the component grid,
//! one for the quantised maximum of the components other than the average,
//! four for the average colour, and two for each of the other components.
//!
//! A hash is read as characters: its length is the number of its characters,
//! and each digit is one character, whatever else the text may hold.

use crate::base83::{
    all_digit_chars, ascii_text, base83_digits, base83_text_value, decode_base83_digit,
    encode_base83_string, lemma_alphabet_by_ranges, lemma_small_powers, lemma_text_of_value,
    lemma_text_value_bound, lemma_text_value_of_digits,
};
use crate::quantised::{
    ac_channels, ac_value, dc_channels, dc_value, decode_ac, decode_dc, encode_ac, encode_dc,
    is_levels, is_srgb, lemma_ac_round_trip, lemma_channels_round_trip, lemma_dc_round_trip,
    Channels,
};
use crate::Error;
use vstd::prelude::*;
use vstd::string::*;

verus! {

/// The integer content of a hash: the size of the grid and the quantised
/// codes of its components, before any of them is turned into a colour.
#[derive(Clone, Debug, PartialEq, Eq)]
pub struct Components {
    /// Components along the horizontal axis.
    pub num_x: usize,
    /// Components along the vertical axis.
    pub num_y: usize,
    /// The quantised maximum of the components other than the average: a
    /// digit `m` stands for the scale `(m + 1) / 166`.
    pub quantised_maximum_value: usize,
    /// The sRGB codes of the average colour.
    pub dc: Channels,
    /// The levels of the other components, row by row, without the average:
    /// the component `(i, j)` is at `i + j * num_x - 1`.
    pub ac: Vec<Channels>,
}

/// What a `Components` value holds.
pub ghost struct ComponentsView {
    pub num_x: nat,
    pub num_y: nat,
    pub quantised_maximum_value: nat,
    pub dc: Channels,
    pub ac: Seq<Channels>,
}

impl View for Components {
    type V = ComponentsView;

    open spec fn view(&self) -> ComponentsView {
        ComponentsView {
            num_x: self.num_x as nat,
            num_y: self.num_y as nat,
            quantised_maximum_value: self.quantised_maximum_value as nat,
            dc: self.dc,
            ac: self.ac@,
        }
    }
}

impl ComponentsView {
    /// Whether these components can be written as a hash: both sizes from 1
    /// to 9, one entry for each component but the average, a maximum that is
    /// one digit, sRGB codes for the average and levels for the others.
    pub open spec fn encodable(self) -> bool {
        &&& 1 <= self.num_x <= 9
        &&& 1 <= self.num_y <= 9
        &&& self.ac.len() == self.num_x * self.num_y - 1
        &&& self.quantised_maximum_value <= 82
        &&& self.dc.is_srgb()
        &&& forall|k: int| 0 <= k < self.ac.len() ==> (#[trigger] self.ac[k]).is_levels()
    }
}

/// The value of the first digit of a hash.
pub open spec fn size_flag(hash: Seq<char>) -> nat {
    base83_text_value(hash.subrange(0, 1))
}

/// The number of components along the horizontal axis that a hash announces.
pub open spec fn hash_num_x(hash: Seq<char>) -> nat {
    size_flag(hash) % 9 + 1
}

/// The number of components along the vertical axis that a hash announces.
pub open spec fn hash_num_y(hash: Seq<char>) -> nat {
    size_flag(hash) / 9 + 1
}

/// The length that a hash announces by its first digit.
pub open spec fn announced_len(hash: Seq<char>) -> nat {
    4 + 2 * hash_num_x(hash) * hash_num_y(hash)
}

/// The components of a hash of the announced length.
pub open spec fn hash_components(hash: Seq<char>) -> ComponentsView
    recommends
        hash.len() >= 6,
        hash.len() == announced_len(hash),
{
    ComponentsView {
        num_x: hash_num_x(hash),
        num_y: hash_num_y(hash),
        quantised_maximum_value: base83_text_value(hash.subrange(1, 2)),
        dc: dc_channels(base83_text_value(hash.subrange(2, 6)) as usize),
        ac: Seq::new(
            (hash_num_x(hash) * hash_num_y(hash) - 1) as nat,
            |k: int| ac_channels(base83_text_value(hash.subrange(6 + 2 * k, 8 + 2 * k)) as usize),
        ),
    }
}

/// What reading a hash gives: no hash is shorter than six characters, and
/// the length must be the announced one.
pub open spec fn read_hash(hash: Seq<char>) -> Result<ComponentsView, Error> {
    if hash.len() < 6 {
        Err(Error::LengthInvalid)
    } else if hash.len() != announced_len(hash) {
        Err(Error::LengthMismatch)
    } else {
        Ok(hash_components(hash))
    }
}

/// The first digit of the hash of a grid of `num_x` by `num_y` components.
pub open spec fn size_flag_of(num_x: nat, num_y: nat) -> nat
    recommends
        1 <= num_x <= 9,
        1 <= num_y <= 9,
{
    ((num_x - 1) + (num_y - 1) * 9) as nat
}

/// The hash of `components`, as bytes.
pub open spec fn hash_bytes(components: ComponentsView) -> Seq<u8>
    recommends
        components.encodable(),
{
    base83_digits(size_flag_of(components.num_x, components.num_y), 1) + base83_digits(
        components.quantised_maximum_value,
        1,
    ) + base83_digits(dc_value(components.dc) as nat, 4) + Seq::new(
        2 * components.ac.len(),
        |i: int| base83_digits(ac_value(components.ac[i / 2]) as nat, 2)[i % 2],
    )
}

/// The hash of `components`, as a text.
pub open spec fn hash_text(components: ComponentsView) -> Seq<char>
    recommends
        components.encodable(),
{
    ascii_text(hash_bytes(components))
}

/// The value of a group of up to four characters fits in a `usize`.
proof fn lemma_group_fits(text: Seq<char>)
    requires
        text.len() <= 4,
    ensures
        base83_text_value(text) < 47458321,
        text.len() <= 3 ==> base83_text_value(text) < 571787,
        text.len() <= 2 ==> base83_text_value(text) < 6889,
        text.len() <= 1 ==> base83_text_value(text) < 83,
        text.len() == 0 ==> base83_text_value(text) == 0,
{
    lemma_text_value_bound(text);
    lemma_small_powers();
}

/// Reads the characters of `text` from `from` up to `to` as a numeral.
fn read_group(text: &str, from: usize, to: usize) -> (value: usize)
    requires
        from <= to <= text@.len(),
        to - from <= 4,
    ensures
        value == base83_text_value(text@.subrange(from as int, to as int)),
{
    let mut value: usize = 0;
    let mut i: usize = from;
    while i < to
        invariant
            from <= i <= to <= text@.len(),
            to - from <= 4,
            value == base83_text_value(text@.subrange(from as int, i as int)),
        decreases to - i,
    {
        proof {
            let more = text@.subrange(from as int, i + 1);
            assert(more.drop_last() =~= text@.subrange(from as int, i as int));
            assert(more.last() == text@[i as int]);
            lemma_group_fits(text@.subrange(from as int, i as int));
            lemma_group_fits(more);
        }
        match decode_base83_digit(text.get_char(i)) {
            Some(d) => {
                value = value * 83 + d;
            },
            None => {},
        }
        i += 1;
    }
    value
}

impl Components {
    /// Reads the components out of a hash. Characters that are no digits
    /// are passed over: a group that holds some has the value of the digits
    /// that are left.
    pub fn from_hash(blur_hash: &str) -> (read: Result<Components, Error>)
        ensures
            match read {
                Ok(components) => read_hash(blur_hash@) == Ok::<ComponentsView, Error>(components@),
                Err(error) => read_hash(blur_hash@) == Err::<ComponentsView, Error>(error),
            },
    {
        let ghost hash = blur_hash@;
        let len = blur_hash.unicode_len();
        if len < 6 {
            return Err(Error::LengthInvalid);
        }
        proof {
            lemma_group_fits(hash.subrange(0, 1));
            lemma_group_fits(hash.subrange(1, 2));
            lemma_group_fits(hash.subrange(2, 6));
        }
        let size_flag = read_group(blur_hash, 0, 1);
        let num_y = (size_flag / 9) + 1;
        let num_x = (size_flag % 9) + 1;
        assert(num_x * num_y <= 90) by (nonlinear_arith)
            requires
                num_x <= 9,
                num_y <= 10,
        ;
        assert(num_x * num_y >= 1) by (nonlinear_arith)
            requires
                num_x >= 1,
                num_y >= 1,
        ;
        let expected_digits = 4 + 2 * (num_x * num_y);
        assert(expected_digits == announced_len(hash)) by (nonlinear_arith)
            requires
                expected_digits == 4 + 2 * (num_x * num_y),
                num_x == hash_num_x(hash),
                num_y == hash_num_y(hash),
                announced_len(hash) == 4 + 2 * hash_num_x(hash) * hash_num_y(hash),
        ;
        if len != expected_digits {
            return Err(Error::LengthMismatch);
        }
        let quantised_maximum_value = read_group(blur_hash, 1, 2);
        let dc = decode_dc(read_group(blur_hash, 2, 6));
        let count = num_x * num_y - 1;
        let mut ac: Vec<Channels> = Vec::new();
        let mut k: usize = 0;
        while k < count
            invariant
                k <= count,
                count <= 89,
                blur_hash@ == hash,
                hash.len() == 6 + 2 * count,
                ac@ == Seq::new(
                    k as nat,
                    |k: int|
                        ac_channels(base83_text_value(hash.subrange(6 + 2 * k, 8 + 2 * k)) as usize),
                ),
            decreases count - k,
        {
            let start = 6 + 2 * k;
            proof {
                lemma_group_fits(hash.subrange(start as int, start + 2));
            }
            let value = read_group(blur_hash, start, start + 2);
            ac.push(decode_ac(value));
            k += 1;
            proof {
                assert(ac@ =~= Seq::new(
                    k as nat,
                    |k: int|
                        ac_channels(base83_text_value(hash.subrange(6 + 2 * k, 8 + 2 * k)) as usize),
                ));
            }
        }
        let components = Components { num_x, num_y, quantised_maximum_value, dc, ac };
        proof {
            assert(components@.ac =~= hash_components(hash).ac);
        }
        Ok(components)
    }

    /// Whether these components can be written as a hash.
    pub fn is_encodable(&self) -> (yes: bool)
        ensures
            yes == self@.encodable(),
    {
        if self.num_x < 1 || self.num_x > 9 || self.num_y < 1 || self.num_y > 9 {
            return false;
        }
        assert(self.num_x * self.num_y <= 81) by (nonlinear_arith)
            requires
                self.num_x <= 9,
                self.num_y <= 9,
        ;
        assert(self.num_x * self.num_y >= 1) by (nonlinear_arith)
            requires
                self.num_x >= 1,
                self.num_y >= 1,
        ;
        if self.ac.len() != self.num_x * self.num_y - 1 || self.quantised_maximum_value > 82
            || !is_srgb(&self.dc) {
            return false;
        }
        let mut k: usize = 0;
        while k < self.ac.len()
            invariant
                k <= self.ac.len(),
                forall|i: int| 0 <= i < k ==> (#[trigger] self.ac@[i]).is_levels(),
            decreases self.ac.len() - k,
        {
            if !is_levels(&self.ac[k]) {
                return false;
            }
            k += 1;
        }
        true
    }

    /// Writes the components as a hash.
    pub fn to_hash(&self) -> (text: String)
        requires
            self@.encodable(),
        ensures
            text@ == hash_text(self@),
    {
        let ghost whole = hash_bytes(self@);
        assert(self.num_y - 1 <= 8);
        let size_flag = (self.num_x - 1) + (self.num_y - 1) * 9;
        let mut text = encode_base83_string(size_flag, 1);
        let maximum = encode_base83_string(self.quantised_maximum_value, 1);
        text.append(maximum.as_str());
        let average = encode_base83_string(encode_dc(self.dc), 4);
        text.append(average.as_str());
        proof {
            assert(text@ =~= ascii_text(whole.take(6)));
        }
        let mut k: usize = 0;
        while k < self.ac.len()
            invariant
                k <= self.ac.len(),
                self@.encodable(),
                whole == hash_bytes(self@),
                whole.len() == 6 + 2 * self.ac.len(),
                text@ == ascii_text(whole.take(6 + 2 * k)),
            decreases self.ac.len() - k,
        {
            let group = encode_base83_string(encode_ac(self.ac[k]), 2);
            text.append(group.as_str());
            proof {
                let digits = base83_digits(ac_value(self.ac@[k as int]) as nat, 2);
                assert(whole[6 + 2 * k] == digits[0]);
                assert(whole[6 + 2 * k + 1] == digits[1]);
                assert(text@ =~= ascii_text(whole.take(6 + 2 * (k + 1))));
            }
            k += 1;
        }
        proof {
            assert(whole.take(6 + 2 * k) =~= whole);
        }
        text
    }
}

/// A hash that was written has the length it announces.
pub proof fn lemma_hash_len(components: ComponentsView)
    requires
        components.encodable(),
    ensures
        hash_text(components).len() == 4 + 2 * components.num_x * components.num_y,
{
    assert(hash_bytes(components).len() == 6 + 2 * components.ac.len());
    assert(2 * (components.num_x * components.num_y - 1) == 2 * components.num_x * components.num_y - 2)
        by (nonlinear_arith);
}

/// The second digit of a hash that was written is `'0'` where the
/// quantised maximum is 0.
pub proof fn lemma_second_digit(components: ComponentsView)
    requires
        components.encodable(),
        components.quantised_maximum_value == 0,
    ensures
        hash_text(components)[1] == '0',
{
    let digits = base83_digits(0, 1);
    lemma_small_powers();
    lemma_alphabet_by_ranges();
    assert(hash_bytes(components)[1] == digits[0]);
    assert(digits[0] == 48u8);
}

/// Reading a hash that was written gives back the components it was written
/// for.
pub proof fn lemma_hash_round_trip(components: ComponentsView)
    requires
        components.encodable(),
    ensures
        read_hash(hash_text(components)) == Ok::<ComponentsView, Error>(components),
{
    let bytes = hash_bytes(components);
    let hash = hash_text(components);
    let flag = size_flag_of(components.num_x, components.num_y);
    lemma_small_powers();
    lemma_hash_len(components);
    assert(components.num_x * components.num_y >= 1) by (nonlinear_arith)
        requires
            components.num_x >= 1,
            components.num_y >= 1,
    ;
    assert(hash.len() == 6 + 2 * components.ac.len());

    assert(hash.subrange(0, 1) =~= ascii_text(base83_digits(flag, 1)));
    lemma_text_value_of_digits(flag, 1);
    assert(size_flag(hash) == flag);
    assert(hash_num_x(hash) == components.num_x);
    assert(hash_num_y(hash) == components.num_y);
    assert(announced_len(hash) == hash.len());

    assert(hash.subrange(1, 2) =~= ascii_text(base83_digits(components.quantised_maximum_value, 1)));
    lemma_text_value_of_digits(components.quantised_maximum_value, 1);

    lemma_dc_round_trip(components.dc);
    assert(hash.subrange(2, 6) =~= ascii_text(base83_digits(dc_value(components.dc) as nat, 4)));
    lemma_text_value_of_digits(dc_value(components.dc) as nat, 4);

    let read = hash_components(hash);
    assert(read.ac.len() == components.ac.len());
    assert forall|k: int| 0 <= k < components.ac.len() implies read.ac[k] == components.ac[k] by {
        let value = ac_value(components.ac[k]) as nat;
        lemma_ac_round_trip(components.ac[k]);
        assert(hash.subrange(6 + 2 * k, 8 + 2 * k) =~= ascii_text(base83_digits(value, 2))) by {
            assert(bytes[6 + 2 * k] == base83_digits(value, 2)[0]);
            assert(bytes[6 + 2 * k + 1] == base83_digits(value, 2)[1]);
        }
        lemma_text_value_of_digits(value, 2);
    }
    assert(read.ac =~= components.ac);
}

/// Writing the components that were read from a hash gives the hash back,
/// where the hash is made of digits alone and holds codes in their ranges.
pub proof fn lemma_hash_rewritten(hash: Seq<char>)
    requires
        all_digit_chars(hash),
        read_hash(hash) is Ok,
        hash_components(hash).encodable(),
    ensures
        hash_text(hash_components(hash)) == hash,
{
    let components = hash_components(hash);
    let bytes = hash_bytes(components);
    let written = hash_text(components);
    lemma_small_powers();
    assert(components.num_x * components.num_y >= 1) by (nonlinear_arith)
        requires
            components.num_x >= 1,
            components.num_y >= 1,
    ;
    assert(2 * (components.num_x * components.num_y - 1) == 2 * components.num_x * components.num_y - 2)
        by (nonlinear_arith);
    assert(written.len() == hash.len());

    let first = hash.subrange(0, 1);
    lemma_text_of_value(first);
    lemma_text_value_bound(first);
    assert(size_flag_of(components.num_x, components.num_y) == size_flag(hash));

    let second = hash.subrange(1, 2);
    lemma_text_of_value(second);

    let average = hash.subrange(2, 6);
    lemma_text_of_value(average);
    lemma_text_value_bound(average);
    let average_value = base83_text_value(average) as usize;
    lemma_channels_round_trip(average_value);
    assert(average_value < 16777216) by {
        if average_value >= 16777216 {
            assert(average_value / 65536 >= 256);
        }
    }

    assert forall|i: int| 0 <= i < hash.len() implies written[i] == hash[i] by {
        if i < 1 {
            assert(bytes[i] == base83_digits(size_flag(hash), 1)[i]);
            assert(ascii_text(base83_digits(size_flag(hash), 1))[i] == first[i]);
            assert(hash[i] == first[i]);
        } else if i < 2 {
            assert(bytes[i] == base83_digits(components.quantised_maximum_value, 1)[i - 1]);
            assert(ascii_text(base83_digits(components.quantised_maximum_value, 1))[i - 1] == second[i
                - 1]);
            assert(hash[i] == second[i - 1]);
        } else if i < 6 {
            assert(bytes[i] == base83_digits(dc_value(components.dc) as nat, 4)[i - 2]);
            assert(ascii_text(base83_digits(dc_value(components.dc) as nat, 4))[i - 2] == average[i
                - 2]);
            assert(hash[i] == average[i - 2]);
        } else {
            let k = (i - 6) / 2;
            let group = hash.subrange(6 + 2 * k, 8 + 2 * k);
            lemma_text_of_value(group);
            lemma_text_value_bound(group);
            let value = base83_text_value(group) as usize;
            assert(components.ac[k] == ac_channels(value));
            assert(components.ac[k].is_levels());
            assert(value < 6859) by {
                if value >= 6859 {
                    assert(value / 361 >= 19);
                }
            }
            lemma_channels_round_trip(value);
            let digits = base83_digits(ac_value(components.ac[k]) as nat, 2);
            assert(bytes[i] == digits[(i - 6) % 2]);
            assert(ascii_text(digits)[(i - 6) % 2] == group[(i - 6) % 2]);
            assert(hash[i] == group[(i - 6) % 2]);
        }
    }
    assert(written =~= hash);
}

} // verus!
