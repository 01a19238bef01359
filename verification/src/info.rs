//! What can be said about an image without decoding its pixels.

use crate::pixels::ColorSpace;
use vstd::prelude::*;

verus! {

/// What the first header of a container says about the image.
#[derive(Clone, Copy, Debug, PartialEq, Eq, Structural)]
pub struct Header {
    pub interlaced: bool,
    pub num_frames: u32,
    pub channels: ColorSpace,
    pub width: usize,
    pub height: usize,
}

/// One line of the report that identifies an image.
#[derive(Clone, Copy, Debug, PartialEq, Eq, Structural)]
pub enum ReportLine {
    /// The image is stored interlaced.
    Interlaced,
    /// The image is an animation of this many frames.
    Animated { frames: u32 },
    /// The channels that the image has.
    Channels { channels: ColorSpace },
    /// The size of the image in pixels.
    Dimensions { width: usize, height: usize },
    /// The heading above the transforms.
    Transformations,
    /// The transform at place `index` of the stream; `last` marks the one that closes the list.
    Transformation { index: usize, last: bool },
}

/// The lines that list `count` transforms: none when there is no transform,
/// else a heading and one line per transform in stream order.
pub open spec fn transformation_lines(count: nat) -> Seq<ReportLine> {
    if count == 0 {
        Seq::empty()
    } else {
        seq![ReportLine::Transformations] + Seq::new(
            count,
            |i: int| ReportLine::Transformation { index: i as usize, last: i == count - 1 },
        )
    }
}

/// The report on an image with the header `header` and `count` transforms:
/// interlacing and animation are mentioned only where they apply; channels
/// and dimensions always are.
pub open spec fn report(header: Header, count: nat) -> Seq<ReportLine> {
    (if header.interlaced {
        seq![ReportLine::Interlaced]
    } else {
        Seq::empty()
    }) + (if header.num_frames != 1 {
        seq![ReportLine::Animated { frames: header.num_frames }]
    } else {
        Seq::empty()
    }) + seq![
        ReportLine::Channels { channels: header.channels },
        ReportLine::Dimensions { width: header.width, height: header.height },
    ] + transformation_lines(count)
}

/// The lines of the report that identifies an image, top to bottom.
pub fn identify(header: &Header, transformations: usize) -> (lines: Vec<ReportLine>)
    ensures
        lines@ == report(*header, transformations as nat),
{
    let mut lines: Vec<ReportLine> = Vec::new();
    if header.interlaced {
        lines.push(ReportLine::Interlaced);
    }
    if header.num_frames != 1 {
        lines.push(ReportLine::Animated { frames: header.num_frames });
    }
    lines.push(ReportLine::Channels { channels: header.channels });
    lines.push(ReportLine::Dimensions { width: header.width, height: header.height });
    let ghost head = lines@;
    assert(head =~= (if header.interlaced {
        seq![ReportLine::Interlaced]
    } else {
        Seq::empty()
    }) + (if header.num_frames != 1 {
        seq![ReportLine::Animated { frames: header.num_frames }]
    } else {
        Seq::empty()
    }) + seq![
        ReportLine::Channels { channels: header.channels },
        ReportLine::Dimensions { width: header.width, height: header.height },
    ]);
    if transformations != 0 {
        lines.push(ReportLine::Transformations);
        let mut index: usize = 0;
        while index < transformations
            invariant
                index <= transformations,
                lines@.len() == head.len() + 1 + index,
                lines@.subrange(0, head.len() as int) == head,
                lines@[head.len() as int] == ReportLine::Transformations,
                forall|i: int|
                    0 <= i < index ==> #[trigger] lines@[head.len() + 1 + i] == (ReportLine::Transformation {
                        index: i as usize,
                        last: i == transformations - 1,
                    }),
            decreases transformations - index,
        {
            lines.push(ReportLine::Transformation { index, last: index == transformations - 1 });
            index = index + 1;
        }
        assert(lines@ =~= head + transformation_lines(transformations as nat)) by {
            assert forall|k: int| 0 <= k < head.len() implies lines@[k] == head[k] by {
                assert(lines@.subrange(0, head.len() as int)[k] == lines@[k]);
            }
            assert forall|k: int| head.len() < k < lines@.len() implies lines@[k] == transformation_lines(
                transformations as nat,
            )[k - head.len()] by {
                let i = k - head.len() - 1;
                assert(lines@[head.len() + 1 + i] == lines@[k]);
            }
        }
    } else {
        assert(lines@ =~= head + transformation_lines(0));
    }
    lines
}

} // verus!
