//! Pixels and their channels.

use vstd::prelude::*;

verus! {

/// The value of one channel of one pixel.
pub type ColorValue = i16;

/// The most channels that a pixel can have.
pub const MAX_CHANNELS: usize = 4;

/// One scalar component of a pixel, in the order in which channels are coded.
#[derive(Clone, Copy, Debug, PartialEq, Eq, Structural)]
pub enum RgbaChannels {
    Red,
    Green,
    Blue,
    Alpha,
}

impl RgbaChannels {
    /// The place of the channel in the coding order, from 0.
    pub open spec fn ordinal(self) -> int {
        match self {
            RgbaChannels::Red => 0,
            RgbaChannels::Green => 1,
            RgbaChannels::Blue => 2,
            RgbaChannels::Alpha => 3,
        }
    }

    /// The channel at place `i` of the coding order; places past the last give the last channel.
    pub open spec fn nth_spec(i: int) -> RgbaChannels {
        if i <= 0 {
            RgbaChannels::Red
        } else if i == 1 {
            RgbaChannels::Green
        } else if i == 2 {
            RgbaChannels::Blue
        } else {
            RgbaChannels::Alpha
        }
    }

    /// The place of the channel in the coding order, from 0.
    pub fn index(self) -> (i: usize)
        ensures
            i == self.ordinal(),
            i < 4,
    {
        match self {
            RgbaChannels::Red => 0,
            RgbaChannels::Green => 1,
            RgbaChannels::Blue => 2,
            RgbaChannels::Alpha => 3,
        }
    }

    /// The channel at place `i` of the coding order, if there is one.
    pub fn nth(i: usize) -> (channel: Option<RgbaChannels>)
        ensures
            i < 4 ==> channel == Some(RgbaChannels::nth_spec(i as int)),
            i >= 4 ==> channel.is_none(),
            channel matches Some(c) ==> c.ordinal() == i,
    {
        if i == 0 {
            Some(RgbaChannels::Red)
        } else if i == 1 {
            Some(RgbaChannels::Green)
        } else if i == 2 {
            Some(RgbaChannels::Blue)
        } else if i == 3 {
            Some(RgbaChannels::Alpha)
        } else {
            None
        }
    }
}

/// Which channels an image has. The count is fixed for the whole image.
#[derive(Clone, Copy, Debug, PartialEq, Eq, Structural)]
pub enum ColorSpace {
    Monochrome,
    RGB,
    RGBA,
}

impl ColorSpace {
    /// The number of channels: 1, 3 or 4.
    pub open spec fn channels(self) -> int {
        match self {
            ColorSpace::Monochrome => 1,
            ColorSpace::RGB => 3,
            ColorSpace::RGBA => 4,
        }
    }

    /// The number of channels: 1, 3 or 4.
    pub fn channel_count(self) -> (n: usize)
        ensures
            n == self.channels(),
    {
        match self {
            ColorSpace::Monochrome => 1,
            ColorSpace::RGB => 3,
            ColorSpace::RGBA => 4,
        }
    }
}

/// One pixel. Channels that the image lacks hold whatever the caller put there.
#[derive(Clone, Copy, Debug, PartialEq, Eq, Structural)]
pub struct Rgba {
    pub red: ColorValue,
    pub green: ColorValue,
    pub blue: ColorValue,
    pub alpha: ColorValue,
}

impl Rgba {
    /// The value of `channel`.
    pub open spec fn value(self, channel: RgbaChannels) -> ColorValue {
        match channel {
            RgbaChannels::Red => self.red,
            RgbaChannels::Green => self.green,
            RgbaChannels::Blue => self.blue,
            RgbaChannels::Alpha => self.alpha,
        }
    }

    /// The value of `channel`.
    pub fn get(&self, channel: RgbaChannels) -> (v: ColorValue)
        ensures
            v == self.value(channel),
    {
        match channel {
            RgbaChannels::Red => self.red,
            RgbaChannels::Green => self.green,
            RgbaChannels::Blue => self.blue,
            RgbaChannels::Alpha => self.alpha,
        }
    }
}

} // verus!
