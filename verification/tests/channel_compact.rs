use flif::components::transformations::channel_compact::ChannelCompact;
use flif::components::transformations::{ColorRange, Orig, Transform};
use flif::error::{Corruption, Error};
use flif::numbers::chances::UpdateTable;
use flif::numbers::rac::RangeCoder;
use flif::pixels::{ColorSpace, Rgba, RgbaChannels};

const ALL: [RgbaChannels; 4] = [RgbaChannels::Red, RgbaChannels::Green, RgbaChannels::Blue, RgbaChannels::Alpha];

fn span(min: i16, max: i16) -> ColorRange {
    ColorRange { min, max }
}

fn orig(ranges: [(i16, i16); 4]) -> Orig {
    Orig::new([
        span(ranges[0].0, ranges[0].1),
        span(ranges[1].0, ranges[1].1),
        span(ranges[2].0, ranges[2].1),
        span(ranges[3].0, ranges[3].1),
    ])
    .unwrap()
}

fn decode(bytes: Vec<u8>, ranges: [(i16, i16); 4], channels: ColorSpace) -> (Result<ChannelCompact, Error>, usize) {
    let updates = UpdateTable::new();
    let mut coder = RangeCoder::new(bytes).unwrap();
    let transform = ChannelCompact::new(&mut coder, orig(ranges), channels, &updates);
    (transform, coder.remaining())
}

fn tables_of(transform: &ChannelCompact) -> Vec<Vec<i16>> {
    let mut tables = Vec::new();
    for channel in ALL {
        if let Some(table) = transform.decompacted(channel) {
            tables.push(table.clone());
        }
    }
    tables
}

#[test]
fn three_values_out_of_eight() {
    let (transform, left) = decode(vec![119, 167, 77, 0], [(0, 7); 4], ColorSpace::Monochrome);
    let transform = transform.unwrap();
    assert_eq!(left, 0);
    assert_eq!(transform.channel_count(), 1);
    assert_eq!(transform.decompacted(RgbaChannels::Red), Some(&vec![2i16, 4, 7]));
    assert_eq!(transform.range(RgbaChannels::Red), span(0, 2));
}

#[test]
fn a_table_out_of_order_is_rejected() {
    let broken = ChannelCompact::from_tables(orig([(0, 7); 4]), ColorSpace::Monochrome, vec![vec![4, 2, 7]]);
    assert_eq!(broken, Err(Error::Malformed(Corruption::TableNotIncreasing)));
    let repeated = ChannelCompact::from_tables(orig([(0, 7); 4]), ColorSpace::Monochrome, vec![vec![2, 4, 4]]);
    assert_eq!(repeated, Err(Error::Malformed(Corruption::TableNotIncreasing)));
    let empty = ChannelCompact::from_tables(orig([(0, 7); 4]), ColorSpace::Monochrome, vec![vec![]]);
    assert_eq!(empty, Err(Error::Malformed(Corruption::TableNotIncreasing)));
}

#[test]
fn a_table_out_of_bounds_is_rejected() {
    let high = ChannelCompact::from_tables(orig([(0, 7); 4]), ColorSpace::Monochrome, vec![vec![2, 4, 8]]);
    assert_eq!(high, Err(Error::Malformed(Corruption::ValueOutOfRange)));
    let low = ChannelCompact::from_tables(orig([(0, 7); 4]), ColorSpace::Monochrome, vec![vec![-1, 4, 7]]);
    assert_eq!(low, Err(Error::Malformed(Corruption::ValueOutOfRange)));
    // Order is judged before bounds.
    let both = ChannelCompact::from_tables(orig([(0, 7); 4]), ColorSpace::Monochrome, vec![vec![9, 8]]);
    assert_eq!(both, Err(Error::Malformed(Corruption::TableNotIncreasing)));
    // The first faulty channel decides.
    let second = ChannelCompact::from_tables(
        orig([(0, 7); 4]),
        ColorSpace::RGB,
        vec![vec![1, 2], vec![0, 9], vec![3, 3]],
    );
    assert_eq!(second, Err(Error::Malformed(Corruption::ValueOutOfRange)));
}

#[test]
fn the_number_of_tables_must_match_the_channels() {
    let few = ChannelCompact::from_tables(orig([(0, 7); 4]), ColorSpace::RGB, vec![vec![1], vec![2]]);
    assert_eq!(few, Err(Error::Malformed(Corruption::ChannelCount)));
    let many = ChannelCompact::from_tables(orig([(0, 7); 4]), ColorSpace::Monochrome, vec![vec![1], vec![2]]);
    assert_eq!(many, Err(Error::Malformed(Corruption::ChannelCount)));
    let none = ChannelCompact::from_tables(orig([(0, 7); 4]), ColorSpace::RGBA, vec![]);
    assert_eq!(none, Err(Error::Malformed(Corruption::ChannelCount)));
}

#[test]
fn known_tables_are_taken_as_they_are() {
    let transform =
        ChannelCompact::from_tables(orig([(0, 7); 4]), ColorSpace::Monochrome, vec![vec![2, 4, 7]]).unwrap();
    assert_eq!(transform.decompacted(RgbaChannels::Red), Some(&vec![2i16, 4, 7]));
    assert_eq!(transform.range(RgbaChannels::Red), span(0, 2));
    // The stream of these tables decodes to the same transform.
    let (decoded, _) = decode(vec![119, 167, 77, 0], [(0, 7); 4], ColorSpace::Monochrome);
    assert_eq!(decoded, Ok(transform));
}

#[test]
fn no_gaps_means_the_range_is_only_shifted() {
    let (transform, left) = decode(vec![255, 230, 95, 0], [(0, 255); 4], ColorSpace::Monochrome);
    let transform = transform.unwrap();
    assert_eq!(left, 0);
    let full: Vec<i16> = (0..=255).collect();
    assert_eq!(transform.decompacted(RgbaChannels::Red), Some(&full));
    assert_eq!(transform.range(RgbaChannels::Red), span(0, 255));

    // A range that does not start at 0 keeps its width and moves to 0.
    let (transform, left) = decode(vec![242, 128, 0], [(-3, 4); 4], ColorSpace::Monochrome);
    let transform = transform.unwrap();
    assert_eq!(left, 0);
    assert_eq!(transform.decompacted(RgbaChannels::Red), Some(&vec![-3i16, -2, -1, 0, 1, 2, 3, 4]));
    assert_eq!(transform.range(RgbaChannels::Red), span(0, 7));
    let pixel = Rgba { red: 5, green: 0, blue: 0, alpha: 0 };
    assert_eq!(transform.undo(pixel), pixel);
}

#[test]
fn no_gaps_costs_only_the_largest_index() {
    // Once the largest index says that every value is in use, each value is
    // forced and takes no decision: the block is the code of the index alone.
    let updates = UpdateTable::new();
    let mut table = flif::numbers::chances::ChanceTable::new(&updates);
    let mut coder = RangeCoder::new(vec![255, 230, 95, 0]).unwrap();
    assert_eq!(coder.read_near_zero(0, 255, &mut table), Ok(255));
    assert_eq!(coder.remaining(), 0);
}

#[test]
fn three_channels_share_one_block() {
    let ranges = [(0, 255), (-255, 255), (-10, 10), (0, 0)];
    let bytes = vec![13, 31, 193, 60, 192, 103, 17, 114, 134, 122, 164, 151, 136];
    let (transform, left) = decode(bytes, ranges, ColorSpace::RGB);
    let transform = transform.unwrap();
    assert_eq!(left, 0);
    assert_eq!(transform.channel_count(), 3);
    assert_eq!(transform.decompacted(RgbaChannels::Red), Some(&vec![0i16, 17, 128, 255]));
    assert_eq!(transform.decompacted(RgbaChannels::Green), Some(&vec![-255i16, -1, 0, 1, 200]));
    assert_eq!(transform.decompacted(RgbaChannels::Blue), Some(&vec![3i16]));
    assert_eq!(transform.decompacted(RgbaChannels::Alpha), None);
    assert_eq!(transform.range(RgbaChannels::Red), span(0, 3));
    assert_eq!(transform.range(RgbaChannels::Green), span(0, 4));
    assert_eq!(transform.range(RgbaChannels::Blue), span(0, 0));
    // A channel that the image lacks has the range of a single value.
    assert_eq!(transform.range(RgbaChannels::Alpha), span(0, 0));
}

#[test]
fn four_channels_share_one_block() {
    let bytes = vec![10, 5, 254, 16, 170, 77, 21, 56, 212, 177, 102, 249, 247, 103, 0];
    let (transform, left) = decode(bytes, [(0, 255); 4], ColorSpace::RGBA);
    let transform = transform.unwrap();
    assert_eq!(left, 0);
    assert_eq!(
        tables_of(&transform),
        vec![vec![10i16, 20, 30], vec![0, 255], vec![5, 6, 7, 8, 9], vec![255]]
    );
    assert_eq!(transform.range(RgbaChannels::Red), span(0, 2));
    assert_eq!(transform.range(RgbaChannels::Green), span(0, 1));
    assert_eq!(transform.range(RgbaChannels::Blue), span(0, 4));
    assert_eq!(transform.range(RgbaChannels::Alpha), span(0, 0));
}

#[test]
fn only_the_active_channels_are_read() {
    // The same bytes, read for one channel, stop after the first table.
    let bytes = vec![10, 5, 254, 16, 170, 77, 21, 56, 212, 177, 102, 249, 247, 103, 0];
    let (transform, left) = decode(bytes, [(0, 255); 4], ColorSpace::Monochrome);
    let transform = transform.unwrap();
    assert!(left > 0);
    assert_eq!(tables_of(&transform), vec![vec![10i16, 20, 30]]);
    assert_eq!(transform.decompacted(RgbaChannels::Green), None);
}

#[test]
fn a_block_that_ends_too_early_is_malformed() {
    let whole: Vec<u8> = vec![13, 31, 193, 60, 192, 103, 17, 114, 134, 122, 164, 151, 136];
    let ranges = [(0, 255), (-255, 255), (-10, 10), (0, 0)];
    for cut in 3..whole.len() {
        let (transform, _) = decode(whole[..cut].to_vec(), ranges, ColorSpace::RGB);
        assert_eq!(transform, Err(Error::Malformed(Corruption::PrematureEnd)), "cut at {}", cut);
    }
    let (transform, _) = decode(vec![119, 167, 77], [(0, 7); 4], ColorSpace::Monochrome);
    assert_eq!(transform, Err(Error::Malformed(Corruption::PrematureEnd)));
}

#[test]
fn extreme_streams_give_the_extreme_tables() {
    let (transform, left) = decode(vec![0, 0, 0], [(0, 7); 4], ColorSpace::Monochrome);
    assert_eq!(tables_of(&transform.unwrap()), vec![vec![0i16]]);
    assert_eq!(left, 0);
    let (transform, _) = decode(vec![255; 8], [(0, 7); 4], ColorSpace::Monochrome);
    assert_eq!(tables_of(&transform.unwrap()), vec![vec![0i16, 1, 2, 3, 4, 5, 6, 7]]);
}

#[test]
fn an_arbitrary_stream_decodes_to_known_tables() {
    let bytes: Vec<u8> = vec![
        165, 77, 202, 24, 37, 48, 187, 29, 109, 19, 44, 222, 214, 35, 123, 46, 217, 30, 63, 114, 31, 203, 25, 113, 23,
        68, 148, 214, 73, 60, 157, 92, 52, 96, 190, 49, 32, 30, 105, 254,
    ];
    let (transform, left) = decode(bytes, [(0, 7), (-4, 4), (10, 20), (0, 0)], ColorSpace::RGB);
    assert_eq!(
        tables_of(&transform.unwrap()),
        vec![vec![0i16, 1, 4, 6, 7], vec![-3, -2, -1, 1, 2, 3, 4], vec![13, 16, 18]]
    );
    assert_eq!(left, 34);
}

#[test]
fn whatever_the_stream_the_tables_are_sound() {
    let ranges = [(-20, 30), (0, 255), (100, 100), (-300, -250)];
    let mut seed: u32 = 4242;
    for _ in 0..300 {
        let mut bytes: Vec<u8> = Vec::new();
        for _ in 0..4000 {
            seed = seed.wrapping_mul(1664525).wrapping_add(1013904223);
            bytes.push((seed >> 24) as u8);
        }
        let (transform, _) = decode(bytes, ranges, ColorSpace::RGBA);
        let transform = transform.unwrap();
        assert_eq!(transform.channel_count(), 4);
        for (c, channel) in ALL.iter().enumerate() {
            let table = transform.decompacted(*channel).unwrap();
            let range = transform.range(*channel);
            assert_eq!(range.min, 0);
            assert_eq!(table.len(), range.max as usize + 1);
            assert!(table.windows(2).all(|pair| pair[0] < pair[1]));
            assert!(table.iter().all(|v| ranges[c].0 <= *v && *v <= ranges[c].1));
        }
    }
}

#[test]
fn asking_twice_gives_the_same_range() {
    let bytes = vec![10, 5, 254, 16, 170, 77, 21, 56, 212, 177, 102, 249, 247, 103, 0];
    let (transform, _) = decode(bytes.clone(), [(0, 255); 4], ColorSpace::RGBA);
    let transform = transform.unwrap();
    let (untouched, _) = decode(bytes, [(0, 255); 4], ColorSpace::RGBA);
    let untouched = untouched.unwrap();
    let here = Rgba { red: 1, green: 1, blue: 4, alpha: 0 };
    let there = Rgba { red: 0, green: 0, blue: 0, alpha: 0 };
    for channel in ALL {
        let first = transform.range(channel);
        assert_eq!(transform.range(channel), first);
        assert_eq!(transform.crange(channel, here), first);
        assert_eq!(transform.crange(channel, here), transform.crange(channel, there));
    }
    assert_eq!(transform, untouched);
}

#[test]
fn undo_leaves_the_pixel_alone() {
    let (transform, _) = decode(vec![119, 167, 77, 0], [(0, 7); 4], ColorSpace::Monochrome);
    let transform = transform.unwrap();
    let pixel = Rgba { red: 2, green: -7, blue: 300, alpha: i16::MIN };
    assert_eq!(transform.undo(pixel), pixel);
}
