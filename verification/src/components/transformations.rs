//! Reversible pixel-space transforms.
//!
//! A transform is built from parameters that it reads from the stream itself.
//! Once built it answers, for each channel, which values can still occur, and
//! maps a decoded pixel one step back toward the colours of the image. Transforms
//! are undone in the reverse of the order in which the encoder applied them.

use crate::pixels::{ColorValue, Rgba, RgbaChannels};
use vstd::prelude::*;

pub mod channel_compact;

verus! {

/// The inclusive bounds of the values that a channel can hold.
#[derive(Clone, Copy, Debug, PartialEq, Eq, Structural)]
pub struct ColorRange {
    pub min: ColorValue,
    pub max: ColorValue,
}

impl ColorRange {
    /// A range holds at least one value.
    pub open spec fn wf(self) -> bool {
        self.min <= self.max
    }

    /// The upper bound less the lower bound.
    pub open spec fn width(self) -> int {
        self.max - self.min
    }

    /// Whether `v` lies in the range.
    pub open spec fn holds(self, v: int) -> bool {
        self.min <= v <= self.max
    }

    /// Whether every value of `self` is a value of `outer`.
    pub open spec fn inside(self, outer: ColorRange) -> bool {
        outer.min <= self.min && self.max <= outer.max
    }
}

/// What every pixel-space transform answers once it has been built.
pub trait Transform {
    /// What construction establishes and every query relies on.
    spec fn wf(&self) -> bool;

    /// The range of `channel`, whatever the other channels hold.
    spec fn range_of(&self, channel: RgbaChannels) -> ColorRange;

    /// The range of `channel` in a pixel whose earlier channels are those of `values`.
    spec fn crange_of(&self, channel: RgbaChannels, values: Rgba) -> ColorRange;

    /// The pixel that `pixel` was before the transform was applied.
    spec fn undone(&self, pixel: Rgba) -> Rgba;

    /// Maps a decoded pixel one step back toward the colours of the image.
    fn undo(&self, pixel: Rgba) -> (r: Rgba)
        requires
            self.wf(),
        ensures
            r == self.undone(pixel),
    ;

    /// The values that `channel` can hold, whatever the other channels hold.
    fn range(&self, channel: RgbaChannels) -> (r: ColorRange)
        requires
            self.wf(),
        ensures
            r == self.range_of(channel),
            r.wf(),
    ;

    /// The values that `channel` can hold in a pixel whose already decoded
    /// channels are those of `values`: never more than [`Transform::range`] allows.
    fn crange(&self, channel: RgbaChannels, values: Rgba) -> (r: ColorRange)
        requires
            self.wf(),
        ensures
            r == self.crange_of(channel, values),
            r.wf(),
            r.inside(self.range_of(channel)),
    ;
}

/// The ranges that `transformation` gives to the first `count` channels, in coding order.
pub open spec fn ranges_of<T: Transform>(transformation: &T, count: int) -> Seq<ColorRange> {
    Seq::new(count as nat, |c: int| transformation.range_of(RgbaChannels::nth_spec(c)))
}

/// The untransformed image: every channel keeps the range that the header declares for it.
#[derive(Clone, Copy, Debug, PartialEq, Eq)]
pub struct Orig {
    ranges: [ColorRange; 4],
}

impl Orig {
    /// The declared ranges, in coding order.
    pub closed spec fn declared(&self) -> Seq<ColorRange> {
        self.ranges@
    }

    /// The transform of an image whose channels have the given ranges, in
    /// coding order. `None` when one of the ranges is empty.
    pub fn new(ranges: [ColorRange; 4]) -> (r: Option<Orig>)
        ensures
            match r {
                Some(orig) => orig.wf() && orig.declared() == ranges@,
                None => exists|c: int| 0 <= c < 4 && !(#[trigger] ranges@[c]).wf(),
            },
    {
        let mut c: usize = 0;
        while c < 4
            invariant
                c <= 4,
                forall|k: int| 0 <= k < c ==> (#[trigger] ranges@[k]).wf(),
            decreases 4 - c,
        {
            if ranges[c].min > ranges[c].max {
                return None;
            }
            c = c + 1;
        }
        Some(Orig { ranges })
    }
}

impl Transform for Orig {
    open spec fn wf(&self) -> bool {
        &&& self.declared().len() == 4
        &&& forall|c: int| 0 <= c < 4 ==> (#[trigger] self.declared()[c]).wf()
    }

    open spec fn range_of(&self, channel: RgbaChannels) -> ColorRange {
        self.declared()[channel.ordinal()]
    }

    open spec fn crange_of(&self, channel: RgbaChannels, values: Rgba) -> ColorRange {
        self.declared()[channel.ordinal()]
    }

    open spec fn undone(&self, pixel: Rgba) -> Rgba {
        pixel
    }

    fn undo(&self, pixel: Rgba) -> (r: Rgba) {
        pixel
    }

    fn range(&self, channel: RgbaChannels) -> (r: ColorRange) {
        self.ranges[channel.index()]
    }

    fn crange(&self, channel: RgbaChannels, values: Rgba) -> (r: ColorRange) {
        self.ranges[channel.index()]
    }
}

} // verus!
