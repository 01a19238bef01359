use flif::error::{Corruption, Error};
use flif::numbers::chances::{ChanceTable, Context, UpdateTable};
use flif::numbers::rac::RangeCoder;

fn read_one(bytes: Vec<u8>, min: i32, max: i32) -> (Result<i32, Error>, usize) {
    let updates = UpdateTable::new();
    let mut table = ChanceTable::new(&updates);
    let mut coder = RangeCoder::new(bytes).unwrap();
    let value = coder.read_near_zero(min, max, &mut table);
    (value, coder.remaining())
}

#[test]
fn bounded_values_come_back_from_their_streams() {
    assert_eq!(read_one(vec![0, 0, 0], 0, 255), (Ok(0), 0));
    assert_eq!(read_one(vec![255, 230, 95, 0], 0, 255), (Ok(255), 0));
    assert_eq!(read_one(vec![142, 254, 64], 0, 255), (Ok(100), 0));
    assert_eq!(read_one(vec![122, 51, 152], -100, 100), (Ok(-37), 0));
}

#[test]
fn bounded_values_over_the_whole_of_i32() {
    assert_eq!(read_one(vec![174, 72, 230, 216, 47, 231, 240], i32::MIN, i32::MAX), (Ok(123456789), 0));
    assert_eq!(read_one(vec![0, 0, 0, 0, 0], i32::MIN, i32::MAX), (Ok(i32::MIN), 0));
    assert_eq!(read_one(vec![255, 255, 255, 255, 255, 249, 106, 183], i32::MIN, i32::MAX), (Ok(i32::MAX), 0));
}

#[test]
fn a_single_value_costs_no_decision() {
    let updates = UpdateTable::new();
    let mut table = ChanceTable::new(&updates);
    let mut coder = RangeCoder::new(vec![0x12, 0x34, 0x56, 0x78]).unwrap();
    assert_eq!(coder.read_near_zero(5, 5, &mut table), Ok(5));
    assert_eq!(coder.read_near_zero(-9, -9, &mut table), Ok(-9));
    assert_eq!(coder.read_near_zero(i32::MAX, i32::MAX, &mut table), Ok(i32::MAX));
    assert_eq!(coder, RangeCoder::new(vec![0x12, 0x34, 0x56, 0x78]).unwrap());
    assert_eq!(table, ChanceTable::new(&updates));
    // Not even a stream without a byte to spare is touched.
    let mut coder = RangeCoder::new(vec![0, 0, 255]).unwrap();
    assert_eq!(coder.read_near_zero(7, 7, &mut table), Ok(7));
    assert_eq!(coder.remaining(), 0);
}

#[test]
fn the_result_lies_in_the_interval_whatever_the_stream() {
    let updates = UpdateTable::new();
    let mut seed: u32 = 99;
    for round in 0..200 {
        let mut bytes: Vec<u8> = Vec::new();
        for _ in 0..64 {
            seed = seed.wrapping_mul(1664525).wrapping_add(1013904223);
            bytes.push((seed >> 24) as u8);
        }
        let mut table = ChanceTable::new(&updates);
        let mut coder = RangeCoder::new(bytes).unwrap();
        let min: i32 = -(round as i32) * 3;
        let max: i32 = (round as i32) * 7 + 1;
        for _ in 0..8 {
            let value = coder.read_near_zero(min, max, &mut table).unwrap();
            assert!(min <= value && value <= max);
        }
    }
}

#[test]
fn values_read_in_a_row_share_what_was_learned() {
    let updates = UpdateTable::new();
    let mut table = ChanceTable::new(&updates);
    let mut coder = RangeCoder::new(vec![111, 115, 251, 52, 201, 59]).unwrap();
    assert_eq!(coder.read_near_zero(0, 10, &mut table), Ok(3));
    assert_eq!(coder.read_near_zero(0, 10, &mut table), Ok(3));
    assert_eq!(coder.read_near_zero(0, 10, &mut table), Ok(10));
    assert_eq!(coder.read_near_zero(-5, 5, &mut table), Ok(0));
    assert_eq!(coder.read_near_zero(0, 1000, &mut table), Ok(999));
    assert_eq!(coder.remaining(), 0);
    // The first decision of an interval of width 10 was taken three times.
    assert_ne!(table.probability_for(Context::at(10, 0)), 2560);
}

#[test]
fn a_stream_that_ends_too_early_is_malformed() {
    let whole: Vec<u8> = vec![255, 255, 255, 255, 255, 249, 106, 183];
    for cut in 3..8 {
        let (value, _) = read_one(whole[..cut].to_vec(), i32::MIN, i32::MAX);
        assert_eq!(value, Err(Error::Malformed(Corruption::PrematureEnd)), "cut at {}", cut);
    }
}

#[test]
fn small_values_are_cheaper_than_large_ones() {
    // With fresh chances the lower half is the likelier one at every step,
    // so the smallest value needs no byte beyond the three leading ones and
    // the largest needs one more.
    assert_eq!(read_one(vec![0, 0, 0], 0, 255), (Ok(0), 0));
    assert_eq!(
        read_one(vec![255, 230, 95], 0, 255).0,
        Err(Error::Malformed(Corruption::PrematureEnd))
    );
}
