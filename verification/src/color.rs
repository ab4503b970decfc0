//! Display colours, the raw per-channel difference between two of them, and
//! the mean colour of an image.

use vstd::prelude::*;

verus! {

/// A display colour with eight bits per channel.
#[derive(Clone, Copy, Debug, PartialEq, Eq, Structural)]
pub struct Color {
    pub red: u8,
    pub green: u8,
    pub blue: u8,
}

/// One of the three channels of a colour.
#[derive(Clone, Copy, Debug, PartialEq, Eq, Structural)]
pub enum Channel {
    Red,
    Green,
    Blue,
}

impl Color {
    /// The value of one channel.
    pub open spec fn channel(self, which: Channel) -> u8 {
        match which {
            Channel::Red => self.red,
            Channel::Green => self.green,
            Channel::Blue => self.blue,
        }
    }

    /// Every channel lies strictly below `threshold`.
    pub open spec fn all_below(self, threshold: u8) -> bool {
        self.red < threshold && self.green < threshold && self.blue < threshold
    }

    /// The colour with the given channels.
    pub fn new(red: u8, green: u8, blue: u8) -> (c: Color)
        ensures
            c == (Color { red, green, blue }),
    {
        Color { red, green, blue }
    }

    /// Whether every channel lies strictly below `threshold`. Applied to a
    /// `color_diff`, this is the raw matching rule: no channel may differ by
    /// `threshold` or more.
    pub fn within(&self, threshold: u8) -> (r: bool)
        ensures
            r == self.all_below(threshold),
    {
        self.red < threshold && self.green < threshold && self.blue < threshold
    }
}

/// The absolute difference of two channel values.
pub open spec fn spec_diff(a: u8, b: u8) -> int {
    if a > b {
        a - b
    } else {
        b - a
    }
}

/// Absolute difference of two channel values.
pub fn diff(a: u8, b: u8) -> (d: u8)
    ensures
        d as int == spec_diff(a, b),
{
    if a > b {
        a - b
    } else {
        b - a
    }
}

/// The colour whose channels are the absolute differences of the channels
/// of `a` and `b`.
pub open spec fn spec_color_diff(a: Color, b: Color) -> Color {
    Color {
        red: spec_diff(a.red, b.red) as u8,
        green: spec_diff(a.green, b.green) as u8,
        blue: spec_diff(a.blue, b.blue) as u8,
    }
}

/// Channel by channel, the absolute difference of two colours.
pub fn color_diff(a: &Color, b: &Color) -> (d: Color)
    ensures
        d == spec_color_diff(*a, *b),
{
    Color { red: diff(a.red, b.red), green: diff(a.green, b.green), blue: diff(a.blue, b.blue) }
}

/// The raw difference is symmetric.
pub proof fn lemma_color_diff_symmetric(a: Color, b: Color)
    ensures
        spec_color_diff(a, b) == spec_color_diff(b, a),
{
}

/// A colour differs from itself in no channel, so it lies within every
/// positive threshold of itself.
pub proof fn lemma_color_diff_self(a: Color, threshold: u8)
    ensures
        spec_color_diff(a, a) == (Color { red: 0, green: 0, blue: 0 }),
        threshold > 0 ==> spec_color_diff(a, a).all_below(threshold),
{
}

/// The pixels of a buffer that holds four bytes for each pixel: red, green,
/// blue and a transparency that is left out. Bytes behind the last whole
/// pixel are ignored.
pub open spec fn rgba_pixels(bytes: Seq<u8>) -> Seq<Color> {
    Seq::new(
        (bytes.len() / 4) as nat,
        |i: int| Color { red: bytes[4 * i], green: bytes[4 * i + 1], blue: bytes[4 * i + 2] },
    )
}

/// Reads the pixels of a red-green-blue-alpha buffer, dropping the alpha of
/// each.
pub fn pixels_from_rgba(bytes: &Vec<u8>) -> (pixels: Vec<Color>)
    ensures
        pixels@ == rgba_pixels(bytes@),
{
    let len = bytes.len();
    let count = len / 4;
    let mut pixels: Vec<Color> = Vec::new();
    let mut i: usize = 0;
    while i < count
        invariant
            len == bytes@.len(),
            count == len / 4,
            i <= count,
            pixels@ == rgba_pixels(bytes@).take(i as int),
        decreases count - i,
    {
        let pixel = Color { red: bytes[4 * i], green: bytes[4 * i + 1], blue: bytes[4 * i + 2] };
        pixels.push(pixel);
        proof {
            assert(pixels@ =~= rgba_pixels(bytes@).take(i + 1));
        }
        i = i + 1;
    }
    proof {
        assert(rgba_pixels(bytes@).take(count as int) =~= rgba_pixels(bytes@));
    }
    pixels
}

/// The sum of one channel over all pixels.
pub open spec fn channel_total(pixels: Seq<Color>, which: Channel) -> nat
    decreases pixels.len(),
{
    if pixels.len() == 0 {
        0
    } else {
        channel_total(pixels.drop_last(), which) + pixels.last().channel(which) as nat
    }
}

/// The colour whose channels are the means of the channels of `pixels`,
/// each rounded down.
pub open spec fn mean_color(pixels: Seq<Color>) -> Color
    recommends
        pixels.len() > 0,
{
    Color {
        red: (channel_total(pixels, Channel::Red) / pixels.len()) as u8,
        green: (channel_total(pixels, Channel::Green) / pixels.len()) as u8,
        blue: (channel_total(pixels, Channel::Blue) / pixels.len()) as u8,
    }
}

/// A channel's sum is at most 255 for each pixel.
pub proof fn lemma_channel_total_bound(pixels: Seq<Color>, which: Channel)
    ensures
        channel_total(pixels, which) <= 255 * pixels.len(),
    decreases pixels.len(),
{
    if pixels.len() > 0 {
        lemma_channel_total_bound(pixels.drop_last(), which);
    }
}

/// The mean of a channel is a channel value.
pub proof fn lemma_mean_is_channel(total: nat, count: nat)
    requires
        count > 0,
        total <= 255 * count,
    ensures
        total / count <= 255,
{
    assert(total / count <= 255) by (nonlinear_arith)
        requires
            count > 0,
            total <= 255 * count,
    ;
}

/// Where every pixel has the same colour, that colour is the mean.
pub proof fn lemma_mean_of_uniform(pixels: Seq<Color>, c: Color)
    requires
        pixels.len() > 0,
        forall|i: int| 0 <= i < pixels.len() ==> pixels[i] == c,
    ensures
        mean_color(pixels) == c,
{
    lemma_uniform_total(pixels, c, Channel::Red);
    lemma_uniform_total(pixels, c, Channel::Green);
    lemma_uniform_total(pixels, c, Channel::Blue);
    let n = pixels.len() as int;
    assert((c.red * n) / n == c.red) by (nonlinear_arith)
        requires
            n > 0,
    ;
    assert((c.green * n) / n == c.green) by (nonlinear_arith)
        requires
            n > 0,
    ;
    assert((c.blue * n) / n == c.blue) by (nonlinear_arith)
        requires
            n > 0,
    ;
}

proof fn lemma_uniform_total(pixels: Seq<Color>, c: Color, which: Channel)
    requires
        forall|i: int| 0 <= i < pixels.len() ==> pixels[i] == c,
    ensures
        channel_total(pixels, which) == c.channel(which) * pixels.len(),
    decreases pixels.len(),
{
    if pixels.len() > 0 {
        let init = pixels.drop_last();
        assert forall|i: int| 0 <= i < init.len() implies init[i] == c by {
            assert(init[i] == pixels[i]);
        }
        lemma_uniform_total(init, c, which);
        assert(pixels.last() == c);
        assert(c.channel(which) * init.len() + c.channel(which) == c.channel(which) * pixels.len())
            by (nonlinear_arith)
            requires
                init.len() + 1 == pixels.len(),
        ;
    }
}

/// One colour to stand for a whole image: the mean of each channel over
/// all its pixels, rounded down.
pub fn get_one_color_by_image(pixels: &Vec<Color>) -> (c: Color)
    requires
        pixels@.len() > 0,
    ensures
        c == mean_color(pixels@),
{
    let n = pixels.len();
    let mut red: u128 = 0;
    let mut green: u128 = 0;
    let mut blue: u128 = 0;
    let mut i: usize = 0;
    while i < n
        invariant
            n == pixels@.len(),
            i <= n,
            red == channel_total(pixels@.take(i as int), Channel::Red),
            green == channel_total(pixels@.take(i as int), Channel::Green),
            blue == channel_total(pixels@.take(i as int), Channel::Blue),
        decreases n - i,
    {
        proof {
            let next = pixels@.take(i + 1);
            assert(next.drop_last() =~= pixels@.take(i as int));
            lemma_channel_total_bound(next, Channel::Red);
            lemma_channel_total_bound(next, Channel::Green);
            lemma_channel_total_bound(next, Channel::Blue);
        }
        red = red + pixels[i].red as u128;
        green = green + pixels[i].green as u128;
        blue = blue + pixels[i].blue as u128;
        i = i + 1;
    }
    proof {
        assert(pixels@.take(n as int) =~= pixels@);
        lemma_channel_total_bound(pixels@, Channel::Red);
        lemma_channel_total_bound(pixels@, Channel::Green);
        lemma_channel_total_bound(pixels@, Channel::Blue);
        lemma_mean_is_channel(red as nat, n as nat);
        lemma_mean_is_channel(green as nat, n as nat);
        lemma_mean_is_channel(blue as nat, n as nat);
    }
    let count = n as u128;
    Color { red: (red / count) as u8, green: (green / count) as u8, blue: (blue / count) as u8 }
}

} // verus!
