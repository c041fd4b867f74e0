use vstd::prelude::*;

verus! {

/// `sum / scale` rounded to the nearest integer, halves rounded up.
pub open spec fn rounded(sum: nat, scale: nat) -> nat {
    if 2 * (sum % scale) >= scale {
        sum / scale + 1
    } else {
        sum / scale
    }
}

/// A colour channel: `sum / scale` rounded and held to `[0, 255]`.
pub open spec fn channel_value(sum: nat, scale: nat) -> nat {
    let v = rounded(sum, scale);
    if v > 255 {
        255
    } else {
        v
    }
}

/// Weighted sums of the red, green and blue channels of the pixels added so
/// far. Weights are numerators over `scale`: a pixel added with weight `w`
/// contributes `w / scale` of itself to the mean. `weight` is the total
/// weight received, so that an accumulator that received nothing can be told
/// apart.
pub struct PixelAccumulator {
    pub red: u128,
    pub green: u128,
    pub blue: u128,
    pub weight: u128,
    pub scale: u64,
}

impl PixelAccumulator {
    /// Each sum is at most what a pure white pixel would give, and the
    /// total weight leaves room for that bound.
    pub open spec fn wf(&self) -> bool {
        &&& self.red <= 255 * self.weight
        &&& self.green <= 255 * self.weight
        &&& self.blue <= 255 * self.weight
        &&& 255 * self.weight <= u128::MAX
    }

    pub fn new(scale: u64) -> (r: Self)
        ensures
            r.wf(),
            r.red == 0,
            r.green == 0,
            r.blue == 0,
            r.weight == 0,
            r.scale == scale,
    {
        PixelAccumulator { red: 0, green: 0, blue: 0, weight: 0, scale }
    }

    /// Adds `weight` times each colour channel of `pixel`; alpha is ignored.
    pub fn add_pixel(&mut self, pixel: [u8; 4], weight: u64)
        requires
            old(self).wf(),
            255 * (old(self).weight + weight) <= u128::MAX,
        ensures
            final(self).wf(),
            final(self).red == old(self).red + weight * pixel[0],
            final(self).green == old(self).green + weight * pixel[1],
            final(self).blue == old(self).blue + weight * pixel[2],
            final(self).weight == old(self).weight + weight,
            final(self).scale == old(self).scale,
    {
        proof {
            let w = weight as int;
            assert(w * pixel[0] <= 255 * w) by (nonlinear_arith)
                requires
                    0 <= w,
                    pixel[0] <= 255,
            ;
            assert(w * pixel[1] <= 255 * w) by (nonlinear_arith)
                requires
                    0 <= w,
                    pixel[1] <= 255,
            ;
            assert(w * pixel[2] <= 255 * w) by (nonlinear_arith)
                requires
                    0 <= w,
                    pixel[2] <= 255,
            ;
        }
        self.red = self.red + weight as u128 * pixel[0] as u128;
        self.green = self.green + weight as u128 * pixel[1] as u128;
        self.blue = self.blue + weight as u128 * pixel[2] as u128;
        self.weight = self.weight + weight as u128;
    }

    /// Merges `other`, a finished partial result such as one row's weighted
    /// sums, scaled by `weight`.
    pub fn add_row(&mut self, other: &PixelAccumulator, weight: u64)
        requires
            old(self).wf(),
            other.wf(),
            255 * (old(self).weight + weight * other.weight) <= u128::MAX,
        ensures
            final(self).wf(),
            final(self).red == old(self).red + weight * other.red,
            final(self).green == old(self).green + weight * other.green,
            final(self).blue == old(self).blue + weight * other.blue,
            final(self).weight == old(self).weight + weight * other.weight,
            final(self).scale == old(self).scale,
    {
        proof {
            let w = weight as int;
            let ow = other.weight as int;
            assert(0 <= w * ow) by (nonlinear_arith)
                requires
                    0 <= w,
                    0 <= ow,
            ;
            assert(w * other.red <= 255 * (w * ow)) by (nonlinear_arith)
                requires
                    0 <= w,
                    other.red <= 255 * ow,
            ;
            assert(w * other.green <= 255 * (w * ow)) by (nonlinear_arith)
                requires
                    0 <= w,
                    other.green <= 255 * ow,
            ;
            assert(w * other.blue <= 255 * (w * ow)) by (nonlinear_arith)
                requires
                    0 <= w,
                    other.blue <= 255 * ow,
            ;
        }
        self.red = self.red + weight as u128 * other.red;
        self.green = self.green + weight as u128 * other.green;
        self.blue = self.blue + weight as u128 * other.blue;
        self.weight = self.weight + weight as u128 * other.weight;
    }

    /// The mean colour: each sum divided by `scale`, rounded to the nearest
    /// integer and held to `[0, 255]`. An accumulator that received no weight
    /// has no mean.
    pub fn to_rgb(&self) -> (r: (u8, u8, u8))
        requires
            self.weight > 0,
            self.scale > 0,
        ensures
            r.0 == channel_value(self.red as nat, self.scale as nat),
            r.1 == channel_value(self.green as nat, self.scale as nat),
            r.2 == channel_value(self.blue as nat, self.scale as nat),
    {
        (
            channel_of(self.red, self.scale),
            channel_of(self.green, self.scale),
            channel_of(self.blue, self.scale),
        )
    }
}

fn channel_of(sum: u128, scale: u64) -> (r: u8)
    requires
        scale > 0,
    ensures
        r == channel_value(sum as nat, scale as nat),
{
    let q: u128 = sum / scale as u128;
    let m: u128 = sum % scale as u128;
    if q >= 255 {
        255
    } else if 2 * m >= scale as u128 {
        (q + 1) as u8
    } else {
        q as u8
    }
}

} // verus!
