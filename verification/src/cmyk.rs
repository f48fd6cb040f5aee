//! Turning CMYK pixels into RGB pixels.
//!
//! A channel is `(1 - ink) * (1 - key)`, where ink and key are fractions of 255,
//! computed in binary floating point with 53 significant bits. The steps are
//! carried out here on integers that count small fractions, each rounded as a
//! double-precision operation rounds.

use vstd::prelude::*;

verus! {

/// Two to the power of 53: the first number with more than 53 bits.
pub const FIRST_54_BIT: u128 = 0x20_0000_0000_0000;

/// Two to the power of 60: the integer that stands for one.
pub const ONE: u128 = 0x1000_0000_0000_0000;

/// Two to the power of 120: the integer that stands for one in a product.
pub const ONE_SQUARED: u128 = 0x1_0000_0000_0000_0000_0000_0000_0000_00;

/// The distance between neighbouring numbers of 53 significant bits around `n`.
pub open spec fn spacing(n: nat) -> nat
    decreases n,
{
    if n < FIRST_54_BIT {
        1
    } else {
        2 * spacing(n / 2)
    }
}

/// The integer nearest to `num / den`, and of two that are equally near the even
/// one.
pub open spec fn nearest(num: nat, den: nat) -> nat {
    let whole = num / den;
    let rest = num % den;
    if 2 * rest < den || (2 * rest == den && whole % 2 == 0) {
        whole
    } else {
        whole + 1
    }
}

/// The quotient `num / den`, rounded to 53 significant bits.
pub open spec fn rounded(num: nat, den: nat) -> nat {
    let step = spacing(num / den);
    nearest(num, den * step) * step
}

/// One less the fraction `ink / 255`, in units of `1 / ONE`.
pub open spec fn complement(ink: u8) -> nat {
    rounded((ONE - rounded((ink * ONE) as nat, 255)) as nat, 1)
}

/// The light that is left of one channel, in units of `1 / ONE_SQUARED`.
pub open spec fn light(ink: u8, key: u8) -> nat {
    rounded(rounded(complement(ink) * complement(key), 1) * 255, 1)
}

/// The value of one RGB channel, rounded down.
pub open spec fn channel_value(ink: u8, key: u8) -> u8 {
    (light(ink, key) / (ONE_SQUARED as nat)) as u8
}

/// The RGB pixels for a sequence of CMYK pixels. Bytes at the end that do not
/// fill a pixel are left out.
pub open spec fn rgb_pixels(cmyk: Seq<u8>) -> Seq<u8> {
    Seq::new(
        3 * (cmyk.len() / 4),
        |i: int| channel_value(cmyk[4 * (i / 3) + i % 3], cmyk[4 * (i / 3) + 3]),
    )
}

/// The spacing around `n` is a fraction of `n` that 53 bits can express.
proof fn lemma_spacing(n: nat)
    ensures
        spacing(n) >= 1,
        n < FIRST_54_BIT * spacing(n),
        spacing(n) == 1 || spacing(n) * 0x10_0000_0000_0000 <= n,
    decreases n,
{
    if n >= FIRST_54_BIT {
        lemma_spacing(n / 2);
    }
}

/// Rounding moves a quotient by no more than the spacing around it.
proof fn lemma_rounded_close(num: nat, den: nat)
    requires
        den > 0,
    ensures
        num - den * spacing(num / den) <= rounded(num, den) * den <= num + den * spacing(num / den),
        nearest(num, den * spacing(num / den)) <= num / (den * spacing(num / den)) + 1,
{
    let step = spacing(num / den);
    lemma_spacing(num / den);
    let unit = den * step;
    assert(unit > 0) by (nonlinear_arith)
        requires
            den > 0,
            step >= 1,
            unit == den * step,
    ;
    let whole = num / unit;
    let rest = num % unit;
    assert(num == unit * whole + rest && 0 <= rest < unit) by {
        vstd::arithmetic::div_mod::lemma_fundamental_div_mod(num as int, unit as int);
        vstd::arithmetic::div_mod::lemma_mod_bound(num as int, unit as int);
    }
    let n = nearest(num, unit);
    assert(n * step * den == n * unit) by (nonlinear_arith)
        requires
            unit == den * step,
    ;
    assert(n * unit == unit * whole || n * unit == unit * whole + unit) by (nonlinear_arith)
        requires
            n == whole || n == whole + 1,
    ;
}

/// The spacing around a number.
fn spacing_around(n: u128) -> (step: u128)
    ensures
        step == spacing(n as nat),
{
    let mut rest: u128 = n;
    let mut step: u128 = 1;
    while rest >= FIRST_54_BIT
        invariant
            step >= 1,
            step * spacing(rest as nat) == spacing(n as nat),
        decreases rest,
    {
        proof {
            lemma_spacing(n as nat);
            lemma_spacing((rest / 2) as nat);
            let half = spacing((rest / 2) as nat);
            assert(step * (2 * half) == (step * 2) * half) by (nonlinear_arith);
            assert(step * 2 <= (step * 2) * half) by (nonlinear_arith)
                requires
                    half >= 1,
            ;
        }
        rest = rest / 2;
        step = step * 2;
    }
    assert(step * 1 == step);
    assert(spacing(rest as nat) == 1);
    step
}

/// Rounds a quotient to 53 significant bits.
fn round(num: u128, den: u128) -> (value: u128)
    requires
        0 < den <= 255,
        num <= 255 * ONE_SQUARED + ONE_SQUARED / 2,
    ensures
        value == rounded(num as nat, den as nat),
{
    let step = spacing_around(num / den);
    proof {
        lemma_spacing((num / den) as nat);
        lemma_rounded_close(num as nat, den as nat);
        assert(num / den <= num) by (nonlinear_arith)
            requires
                0 < den,
        ;
        assert(den * step <= 255 * step) by (nonlinear_arith)
            requires
                den <= 255,
        ;
        assert(den * step >= 1) by (nonlinear_arith)
            requires
                den >= 1,
                step >= 1,
        ;
    }
    let unit: u128 = den * step;
    let whole: u128 = num / unit;
    let rest: u128 = num % unit;
    proof {
        vstd::arithmetic::div_mod::lemma_fundamental_div_mod(num as int, unit as int);
        assert(whole * step <= unit * whole) by (nonlinear_arith)
            requires
                unit == den * step,
                den >= 1,
                step >= 1,
                whole >= 0,
        ;
        assert((whole + 1) * step == whole * step + step) by (nonlinear_arith);
        assert(whole <= whole * step) by (nonlinear_arith)
            requires
                step >= 1,
                whole >= 0,
        ;
    }
    if 2 * rest < unit || (2 * rest == unit && whole % 2 == 0) {
        whole * step
    } else {
        (whole + 1) * step
    }
}

/// Bounds for the complement of an ink, times 255.
proof fn lemma_complement(ink: u8)
    ensures
        rounded((ink * ONE) as nat, 255) <= ONE,
        (255 - ink) * ONE - 0x4_0000 <= 255 * complement(ink) <= (255 - ink) * ONE + 0x4_0000,
{
    let num = (ink * ONE) as nat;
    lemma_spacing(num / 255);
    lemma_rounded_close(num, 255);
    let part = rounded(num, 255);
    if ink == 255 {
        assert(num / 255 == ONE);
        assert(spacing(ONE as nat) == 256) by {
            reveal_with_fuel(spacing, 9);
        }
        assert(255 * spacing(num / 255) == 65280);
        assert(num / 65280 == 0x10_0000_0000_0000 && num % 65280 == 0);
    }
    let left = (ONE - part) as nat;
    lemma_spacing(left / 1);
    lemma_rounded_close(left, 1);
}

/// The product of two numbers near multiples of `ONE` is near a multiple of its
/// square.
proof fn lemma_product(a: int, b: int, x: int, y: int)
    requires
        0 <= a <= 255,
        0 <= b <= 255,
        a * ONE - 0x4_0000 <= 255 * x <= a * ONE + 0x4_0000,
        b * ONE - 0x4_0000 <= 255 * y <= b * ONE + 0x4_0000,
    ensures
        (a * b) * ONE_SQUARED - 0x100_0000_0000_0000_0000_0000 <= 65025 * (x * y) <= (a * b)
            * ONE_SQUARED + 0x100_0000_0000_0000_0000_0000,
{
    let one: int = 0x1000_0000_0000_0000;
    let e: int = 255 * x - a * one;
    let f: int = 255 * y - b * one;
    assert(65025 * (x * y) == (255 * x) * (255 * y)) by (nonlinear_arith);
    let p = a * one;
    let q = b * one;
    assert((p + e) * (q + f) == p * q + p * f + q * e + e * f) by (nonlinear_arith);
    assert(p * q == (a * b) * (one * one)) by (nonlinear_arith)
        requires
            p == a * one,
            q == b * one,
    ;
    assert(p * f == (a * f) * one) by (nonlinear_arith)
        requires
            p == a * one,
    ;
    assert(q * e == (b * e) * one) by (nonlinear_arith)
        requires
            q == b * one,
    ;
    assert(-0x4_0000 * 255 <= a * f <= 0x4_0000 * 255) by (nonlinear_arith)
        requires
            0 <= a <= 255,
            -0x4_0000 <= f <= 0x4_0000,
    ;
    assert(-0x4_0000 * 255 <= b * e <= 0x4_0000 * 255) by (nonlinear_arith)
        requires
            0 <= b <= 255,
            -0x4_0000 <= e <= 0x4_0000,
    ;
    assert(-0x4_0000 * 0x4_0000 <= e * f <= 0x4_0000 * 0x4_0000) by (nonlinear_arith)
        requires
            -0x4_0000 <= e <= 0x4_0000,
            -0x4_0000 <= f <= 0x4_0000,
    ;
    assert(one * one == ONE_SQUARED);
}

/// How near the light of a channel comes to the exact product.
proof fn lemma_light(ink: u8, key: u8)
    ensures
        complement(ink) * complement(key) <= ONE_SQUARED + ONE_SQUARED / 0x1_0000,
        rounded(complement(ink) * complement(key), 1) <= ONE_SQUARED + ONE_SQUARED / 0x400,
        ((255 - ink) * (255 - key)) * ONE_SQUARED - ONE_SQUARED / 2 <= 255 * light(ink, key) <= ((255
            - ink) * (255 - key)) * ONE_SQUARED + ONE_SQUARED / 2,
        light(ink, key) / (ONE_SQUARED as nat) <= 255,
{
    lemma_complement(ink);
    lemma_complement(key);
    let a: int = 255 - ink;
    let b: int = 255 - key;
    let product = complement(ink) * complement(key);
    lemma_product(a, b, complement(ink) as int, complement(key) as int);
    assert(0 <= a * b <= 65025) by (nonlinear_arith)
        requires
            0 <= a <= 255,
            0 <= b <= 255,
    ;
    assert(65025 * product <= 65025 * ONE_SQUARED + 0x100_0000_0000_0000_0000_0000);
    lemma_spacing(product / 1);
    lemma_rounded_close(product, 1);
    let left = rounded(product, 1);
    lemma_spacing((left * 255) / 1);
    lemma_rounded_close(left * 255, 1);
}

/// The value of one RGB channel, from the amounts of its ink and of black.
pub fn channel(ink: u8, key: u8) -> (value: u8)
    ensures
        value == channel_value(ink, key),
{
    proof {
        lemma_complement(ink);
        lemma_complement(key);
        lemma_light(ink, key);
    }
    let x: u128 = round(ONE - round(ink as u128 * ONE, 255), 1);
    let y: u128 = round(ONE - round(key as u128 * ONE, 255), 1);
    let product: u128 = x * y;
    let light: u128 = round(round(product, 1) * 255, 1);
    (light / ONE_SQUARED) as u8
}

/// A channel comes from the exact quotient by rounding down, or, where that
/// quotient is a whole number, may be one less.
pub proof fn lemma_channel_exact(ink: u8, key: u8)
    ensures
        channel_value(ink, key) <= ((255 - ink) * (255 - key)) / 255,
        channel_value(ink, key) + 1 >= ((255 - ink) * (255 - key)) / 255,
        ((255 - ink) * (255 - key)) % 255 != 0 ==> channel_value(ink, key) == ((255 - ink) * (255
            - key)) / 255,
{
    lemma_light(ink, key);
    let exact = (255 - ink) * (255 - key);
    let value = light(ink, key) / (ONE_SQUARED as nat);
    assert(value * ONE_SQUARED <= light(ink, key) < value * ONE_SQUARED + ONE_SQUARED);
    assert(0 <= exact) by (nonlinear_arith)
        requires
            exact == (255 - ink) * (255 - key),
            ink <= 255,
            key <= 255,
    ;
}

/// Full black leaves no light, and full ink none of its channel.
pub proof fn lemma_full_ink_is_dark(ink: u8, key: u8)
    requires
        ink == 255 || key == 255,
    ensures
        channel_value(ink, key) == 0,
{
    lemma_channel_exact(ink, key);
    assert((255 - ink) * (255 - key) == 0) by (nonlinear_arith)
        requires
            ink == 255 || key == 255,
    ;
}

/// Channels that were computed before, by ink and key.
struct Channels {
    known: Vec<Option<u8>>,
}

impl Channels {
    /// Whether there is a place for each pair of ink and key, and what is known is
    /// right.
    spec fn wf(self) -> bool {
        &&& self.known@.len() == 0x1_0000
        &&& forall|ink: u8, key: u8|
            #![trigger channel_value(ink, key)]
            self.known@[ink * 256 + key] matches Some(value) ==> value == channel_value(ink, key)
    }

    /// No channel is known.
    fn new() -> (channels: Channels)
        ensures
            channels.wf(),
    {
        let mut known: Vec<Option<u8>> = Vec::new();
        while known.len() < 0x1_0000
            invariant
                known.len() <= 0x1_0000,
                forall|i: int| 0 <= i < known@.len() ==> known@[i] is None,
            decreases 0x1_0000 - known.len(),
        {
            known.push(None);
        }
        Channels { known }
    }

    /// The value of one RGB channel.
    fn get(&mut self, ink: u8, key: u8) -> (value: u8)
        requires
            old(self).wf(),
        ensures
            final(self).wf(),
            value == channel_value(ink, key),
    {
        let place: usize = ink as usize * 256 + key as usize;
        match self.known[place] {
            Some(value) => value,
            None => {
                let value = channel(ink, key);
                self.known.set(place, Some(value));
                value
            },
        }
    }
}

/// Turns CMYK pixels, four bytes each, into RGB pixels.
pub fn cmyk_to_rgb(cmyk: &Vec<u8>) -> (rgb: Vec<u8>)
    ensures
        rgb@ == rgb_pixels(cmyk@),
        rgb@.len() == 3 * (cmyk@.len() / 4),
        forall|i: int|
            #![trigger rgb@[i]]
            0 <= i < rgb@.len() ==> {
                let ink = cmyk@[4 * (i / 3) + i % 3];
                let key = cmyk@[4 * (i / 3) + 3];
                let exact = (255 - ink) * (255 - key);
                &&& rgb@[i] <= exact / 255 <= rgb@[i] + 1
                &&& exact % 255 != 0 ==> rgb@[i] == exact / 255
            },
{
    let mut channels = Channels::new();
    let mut rgb: Vec<u8> = Vec::new();
    let pixels: usize = cmyk.len() / 4;
    let mut i: usize = 0;
    while i < pixels
        invariant
            channels.wf(),
            i <= pixels,
            pixels == cmyk.len() / 4,
            rgb@ == rgb_pixels(cmyk@).take(3 * i),
        decreases pixels - i,
    {
        let at: usize = 4 * i;
        let key = cmyk[at + 3];
        rgb.push(channels.get(cmyk[at], key));
        rgb.push(channels.get(cmyk[at + 1], key));
        rgb.push(channels.get(cmyk[at + 2], key));
        i = i + 1;
        assert(rgb@ =~= rgb_pixels(cmyk@).take(3 * i));
    }
    assert(rgb_pixels(cmyk@).take(3 * i) =~= rgb_pixels(cmyk@));
    assert forall|i: int| #![trigger rgb@[i]] 0 <= i < rgb@.len() implies {
        let ink = cmyk@[4 * (i / 3) + i % 3];
        let key = cmyk@[4 * (i / 3) + 3];
        let exact = (255 - ink) * (255 - key);
        &&& rgb@[i] <= exact / 255 <= rgb@[i] + 1
        &&& exact % 255 != 0 ==> rgb@[i] == exact / 255
    } by {
        lemma_pixel(cmyk@, i / 3, i % 3);
        assert(3 * (i / 3) + i % 3 == i);
    }
    rgb
}

/// Each channel of a pixel comes from its own ink and the black of the pixel,
/// wherever the pixel stands: the exact product, rounded down, or one less where
/// it is a whole number. Full black and full ink leave nothing.
pub proof fn lemma_pixel(cmyk: Seq<u8>, p: int, c: int)
    requires
        0 <= p < cmyk.len() / 4,
        0 <= c < 3,
    ensures
        rgb_pixels(cmyk).len() == 3 * (cmyk.len() / 4),
        ({
            let ink = cmyk[4 * p + c];
            let key = cmyk[4 * p + 3];
            let value = rgb_pixels(cmyk)[3 * p + c];
            let exact = (255 - ink) * (255 - key);
            &&& value <= exact / 255 <= value + 1
            &&& exact % 255 != 0 ==> value == exact / 255
            &&& ink == 255 || key == 255 ==> value == 0
            &&& value == channel_value(ink, key)
        }),
{
    let ink = cmyk[4 * p + c];
    let key = cmyk[4 * p + 3];
    let i = 3 * p + c;
    assert(i / 3 == p && i % 3 == c);
    lemma_channel_exact(ink, key);
    if ink == 255 || key == 255 {
        lemma_full_ink_is_dark(ink, key);
    }
}

/// Pixels are converted apart from each other: those of two images one after the
/// other are the pixels of the one and then those of the other.
pub proof fn lemma_pixels_apart(first: Seq<u8>, second: Seq<u8>)
    requires
        first.len() % 4 == 0,
    ensures
        rgb_pixels(first + second) == rgb_pixels(first) + rgb_pixels(second),
{
    let all = first + second;
    let left = rgb_pixels(first);
    let right = rgb_pixels(second);
    let n = first.len() / 4;
    assert(all.len() / 4 == n + second.len() / 4);
    assert forall|i: int| 0 <= i < rgb_pixels(all).len() implies #[trigger] rgb_pixels(all)[i] == (
    left + right)[i] by {
        let p = i / 3;
        let c = i % 3;
        if i < left.len() {
            assert(all[4 * p + c] == first[4 * p + c]);
            assert(all[4 * p + 3] == first[4 * p + 3]);
        } else {
            let j = i - 3 * n;
            assert(j / 3 == p - n && j % 3 == c);
            assert(all[4 * p + c] == second[4 * (p - n) + c]);
            assert(all[4 * p + 3] == second[4 * (p - n) + 3]);
            assert((left + right)[i] == right[j]);
        }
    }
    assert(rgb_pixels(all) =~= left + right);
}

/// Ink and black take away light in the same way.
pub proof fn lemma_channel_symmetric(ink: u8, key: u8)
    ensures
        channel_value(ink, key) == channel_value(key, ink),
{
    assert(complement(ink) * complement(key) == complement(key) * complement(ink))
        by (nonlinear_arith);
}

/// A whole number of steps is not changed by rounding.
proof fn lemma_rounded_exact(n: nat, steps: nat)
    requires
        n == steps * spacing(n),
    ensures
        rounded(n, 1) == n,
{
    let step = spacing(n);
    lemma_spacing(n);
    assert(n / 1 == n);
    assert(1 * step == step);
    vstd::arithmetic::div_mod::lemma_fundamental_div_mod_converse(
        n as int,
        step as int,
        steps as int,
        0,
    );
    assert(nearest(n, 1 * step) == steps);
}

/// Where there is neither ink nor black all light is left.
pub proof fn lemma_no_ink_is_white()
    ensures
        channel_value(0, 0) == 255,
{
    assert(spacing(ONE as nat) == 0x100) by {
        reveal_with_fuel(spacing, 9);
    }
    assert(rounded((0u8 * ONE) as nat, 255) == 0) by {
        assert((0u8 * ONE) as nat == 0);
        assert(0nat / 255 == 0);
        assert(spacing(0) == 1);
        assert(nearest(0, 255) == 0);
    }
    lemma_rounded_exact(ONE as nat, 0x10_0000_0000_0000);
    assert(complement(0) == ONE);
    assert(ONE * ONE == ONE_SQUARED);
    assert(spacing(ONE_SQUARED as nat) == 0x10_0000_0000_0000_0000) by {
        reveal_with_fuel(spacing, 69);
    }
    lemma_rounded_exact(ONE_SQUARED as nat, 0x10_0000_0000_0000);
    assert(complement(0) * complement(0) == ONE_SQUARED);
    assert(spacing((ONE_SQUARED * 255) as nat) == 0x800_0000_0000_0000_0000) by {
        reveal_with_fuel(spacing, 76);
    }
    lemma_rounded_exact((ONE_SQUARED * 255) as nat, 0x1f_e000_0000_0000);
    assert(light(0, 0) == ONE_SQUARED * 255);
}

} // verus!
