//! Channel compaction.
//!
//! Many images use only a few of the values that a channel could hold.
//! Compaction numbers the values in use `0..=k` and codes those numbers
//! instead. What the stream carries, per channel, is `k` and then the values
//! in use in increasing order, each as its distance from the smallest value
//! that could still follow.

use crate::components::transformations::{ranges_of, ColorRange, Transform};
use crate::error::{Corruption, Error};
use crate::numbers::chances::{
    chances_valid, fresh_chances, schedule_closed, ChanceTable, Decision, UpdateTable,
};
use crate::numbers::encoding::{carries, lemma_opened_carries, stream};
use crate::numbers::near_zero::{bisection, bounded, lemma_bisection_read_back};
use crate::numbers::rac::{opened, CoderState, RangeCoder};
use crate::pixels::{ColorSpace, ColorValue, Rgba, RgbaChannels};
use vstd::prelude::*;

verus! {

/// Whether every value of `table` is smaller than all that follow it.
pub open spec fn strictly_increasing(table: Seq<ColorValue>) -> bool {
    forall|i: int, j: int| 0 <= i < j < table.len() ==> table[i] < table[j]
}

/// Whether every value of `table` lies in `source`.
pub open spec fn all_within(table: Seq<ColorValue>, source: ColorRange) -> bool {
    forall|i: int| 0 <= i < table.len() ==> source.holds(#[trigger] table[i] as int)
}

/// Whether `table` can be the decompaction table of a channel whose range is
/// `source`: it is not empty, strictly increasing, and stays inside `source`.
pub open spec fn table_fits(table: Seq<ColorValue>, source: ColorRange) -> bool {
    &&& table.len() >= 1
    &&& strictly_increasing(table)
    &&& all_within(table, source)
}

/// Whether `tables` holds a fitting table for each of `sources`.
pub open spec fn tables_fit(tables: Seq<Seq<ColorValue>>, sources: Seq<ColorRange>) -> bool {
    &&& tables.len() == sources.len()
    &&& forall|c: int| 0 <= c < tables.len() ==> table_fits(#[trigger] tables[c], sources[c])
}

/// The compacted range of a channel whose table has `len` values.
pub open spec fn compacted_range(len: nat) -> ColorRange {
    ColorRange { min: 0, max: (len - 1) as ColorValue }
}

/// The outcome of reading the values of one table from the state `s`, once
/// the values of `table` have been read and `min` is the smallest value that
/// can follow them: each further value is `min` plus an integer of
/// `0..=hi - (min + remaining)`, where `remaining` counts the values that
/// have to follow it, and is followed by larger values only.
pub open spec fn table_filled(
    s: CoderState,
    chances: Seq<u16>,
    updates: Seq<(u16, u16)>,
    hi: int,
    max_index: int,
    table: Seq<ColorValue>,
    min: int,
) -> Option<(Seq<ColorValue>, CoderState, Seq<u16>)>
    decreases max_index + 1 - table.len(),
{
    if table.len() > max_index {
        Some((table, s, chances))
    } else {
        match bounded(s, chances, updates, 0, hi - (min + (max_index - table.len()))) {
            None => None,
            Some((offset, next, learned)) => table_filled(
                next,
                learned,
                updates,
                hi,
                max_index,
                table.push((min + offset) as ColorValue),
                min + offset + 1,
            ),
        }
    }
}

/// The outcome of reading one channel's table from the state `s`: first the
/// largest index, an integer of `0..=source.width()`, then the values.
pub open spec fn channel_read(s: CoderState, chances: Seq<u16>, updates: Seq<(u16, u16)>, source: ColorRange) -> Option<
    (Seq<ColorValue>, CoderState, Seq<u16>),
> {
    match bounded(s, chances, updates, 0, source.width()) {
        None => None,
        Some((max_index, next, learned)) => table_filled(
            next,
            learned,
            updates,
            source.max as int,
            max_index,
            Seq::empty(),
            source.min as int,
        ),
    }
}

/// The outcome of reading the tables of the channels that `tables` does not
/// hold yet, one channel after the other with the same chances.
pub open spec fn channels_read(
    s: CoderState,
    chances: Seq<u16>,
    updates: Seq<(u16, u16)>,
    sources: Seq<ColorRange>,
    tables: Seq<Seq<ColorValue>>,
) -> Option<(Seq<Seq<ColorValue>>, CoderState, Seq<u16>)>
    decreases sources.len() - tables.len(),
{
    if tables.len() >= sources.len() {
        Some((tables, s, chances))
    } else {
        match channel_read(s, chances, updates, sources[tables.len() as int]) {
            None => None,
            Some((table, next, learned)) => channels_read(next, learned, updates, sources, tables.push(table)),
        }
    }
}

/// The outcome of reading a whole block of compaction parameters from the
/// state `s`: the tables of all channels, read with chances that start fresh,
/// and the state after the block. `None` when the stream ends inside the block.
pub open spec fn compaction_read(s: CoderState, updates: Seq<(u16, u16)>, sources: Seq<ColorRange>) -> Option<
    (Seq<Seq<ColorValue>>, CoderState),
> {
    match channels_read(s, fresh_chances(), updates, sources, Seq::empty()) {
        Some((tables, next, _)) => Some((tables, next)),
        None => None,
    }
}

/// What is wrong with `table` as the table of a channel whose range is
/// `source`, if anything: its order is judged before its bounds.
pub open spec fn table_fault(table: Seq<ColorValue>, source: ColorRange) -> Option<Corruption> {
    if table.len() == 0 || !strictly_increasing(table) {
        Some(Corruption::TableNotIncreasing)
    } else if !all_within(table, source) {
        Some(Corruption::ValueOutOfRange)
    } else {
        None
    }
}

/// The fault of the first faulty table from channel `c` on, if there is one.
pub open spec fn first_fault(tables: Seq<Seq<ColorValue>>, sources: Seq<ColorRange>, c: int) -> Option<Corruption>
    decreases tables.len() - c,
{
    if c < 0 || c >= tables.len() {
        None
    } else {
        match table_fault(tables[c], sources[c]) {
            Some(fault) => Some(fault),
            None => first_fault(tables, sources, c + 1),
        }
    }
}

/// What is wrong with `tables` as the tables of channels whose ranges are
/// `sources`, if anything: the number of tables is judged first, then each
/// table in channel order.
pub open spec fn tables_fault(tables: Seq<Seq<ColorValue>>, sources: Seq<ColorRange>) -> Option<Corruption> {
    if tables.len() != sources.len() {
        Some(Corruption::ChannelCount)
    } else {
        first_fault(tables, sources, 0)
    }
}

/// Tables are free of faults exactly when they fit.
pub proof fn lemma_no_fault_iff_fit(tables: Seq<Seq<ColorValue>>, sources: Seq<ColorRange>)
    ensures
        tables_fault(tables, sources).is_none() <==> tables_fit(tables, sources),
{
    if tables.len() == sources.len() {
        lemma_first_fault(tables, sources, 0);
    }
}

proof fn lemma_first_fault(tables: Seq<Seq<ColorValue>>, sources: Seq<ColorRange>, c: int)
    requires
        0 <= c <= tables.len(),
    ensures
        first_fault(tables, sources, c).is_none() <==> forall|k: int|
            c <= k < tables.len() ==> table_fits(#[trigger] tables[k], sources[k]),
    decreases tables.len() - c,
{
    if c < tables.len() {
        lemma_first_fault(tables, sources, c + 1);
        if table_fault(tables[c], sources[c]).is_none() {
            assert(table_fits(tables[c], sources[c]));
            if first_fault(tables, sources, c + 1).is_none() {
                assert forall|k: int| c <= k < tables.len() implies table_fits(#[trigger] tables[k], sources[k]) by {
                    if k > c {
                    }
                }
            }
        } else {
            assert(!table_fits(tables[c], sources[c]));
        }
    }
}

/// A strictly increasing table climbs by at least one from value to value.
pub proof fn lemma_increasing_climbs(table: Seq<ColorValue>, i: int, j: int)
    requires
        strictly_increasing(table),
        0 <= i <= j < table.len(),
    ensures
        table[i] + (j - i) <= table[j],
    decreases j - i,
{
    if i < j {
        lemma_increasing_climbs(table, i, j - 1);
    }
}

/// A fitting table has no more values than its channel's range.
pub proof fn lemma_fitting_table_len(table: Seq<ColorValue>, source: ColorRange)
    requires
        table_fits(table, source),
    ensures
        table.len() <= source.width() + 1,
{
    let last = table.len() - 1;
    lemma_increasing_climbs(table, 0, last);
    assert(source.holds(table[0] as int));
    assert(source.holds(table[last] as int));
}

/// The views of the vectors of `tables`.
pub open spec fn table_views(tables: Seq<Vec<ColorValue>>) -> Seq<Seq<ColorValue>> {
    Seq::new(tables.len(), |c: int| tables[c]@)
}

/// The transform that maps a channel's values in use onto `0..=k`.
#[derive(Debug, PartialEq, Eq)]
pub struct ChannelCompact {
    ranges: Vec<ColorRange>,
    decompacted: Vec<Vec<ColorValue>>,
}

impl View for ChannelCompact {
    type V = Seq<Seq<ColorValue>>;

    /// The decompaction table of each active channel, in coding order:
    /// entry `i` of a table is the value that the compacted value `i` stands for.
    closed spec fn view(&self) -> Seq<Seq<ColorValue>> {
        table_views(self.decompacted@)
    }
}

fn read_table(rac: &mut RangeCoder, context: &mut ChanceTable, source: ColorRange, max_index: i32) -> (r: Result<
    Vec<ColorValue>,
    Error,
>)
    requires
        old(rac).wf(),
        old(context).wf(),
        source.wf(),
        0 <= max_index <= source.width() <= i16::MAX,
    ensures
        final(rac).wf(),
        final(context).wf(),
        final(context).updates() == old(context).updates(),
        match table_filled(
            old(rac)@,
            old(context)@,
            old(context).updates(),
            source.max as int,
            max_index as int,
            Seq::empty(),
            source.min as int,
        ) {
            Some((table, state, chances)) => r matches Ok(t) && t@ == table && final(rac)@ == state && final(context)@ == chances && table_fits(table, source) && table.len() == max_index + 1,
            None => r == Err::<Vec<ColorValue>, Error>(Error::Malformed(Corruption::PrematureEnd)),
        },
{
    let hi: i32 = source.max as i32;
    let mut table: Vec<ColorValue> = Vec::new();
    let mut min: i32 = source.min as i32;
    let mut i: i32 = 0;
    while i <= max_index
        invariant
            0 <= i <= max_index + 1,
            0 <= max_index <= source.width() <= i16::MAX,
            hi == source.max,
            table@.len() == i,
            source.min + i <= min <= hi - max_index + i,
            strictly_increasing(table@),
            forall|k: int| 0 <= k < i ==> source.min <= #[trigger] table@[k] < min,
            rac.wf(),
            context.wf(),
            context.updates() == old(context).updates(),
            table_filled(
                old(rac)@,
                old(context)@,
                old(context).updates(),
                source.max as int,
                max_index as int,
                Seq::empty(),
                source.min as int,
            ) == table_filled(rac@, context@, context.updates(), hi as int, max_index as int, table@, min as int),
        decreases max_index + 1 - i,
    {
        let offset: i32 = match rac.read_near_zero(0, hi - (min + (max_index - i)), context) {
            Ok(offset) => offset,
            Err(e) => {
                return Err(e);
            },
        };
        let value: i32 = min + offset;
        table.push(value as ColorValue);
        min = value + 1;
        i = i + 1;
    }
    assert(all_within(table@, source));
    Ok(table)
}

fn read_channel(rac: &mut RangeCoder, context: &mut ChanceTable, source: ColorRange) -> (r: Result<
    Vec<ColorValue>,
    Error,
>)
    requires
        old(rac).wf(),
        old(context).wf(),
        source.wf(),
        source.width() <= i16::MAX,
    ensures
        final(rac).wf(),
        final(context).wf(),
        final(context).updates() == old(context).updates(),
        match channel_read(old(rac)@, old(context)@, old(context).updates(), source) {
            Some((table, state, chances)) => r matches Ok(t) && t@ == table && final(rac)@ == state && final(context)@ == chances && table_fits(table, source) && table.len() <= source.width() + 1,
            None => r == Err::<Vec<ColorValue>, Error>(Error::Malformed(Corruption::PrematureEnd)),
        },
{
    let max_index: i32 = match rac.read_near_zero(0, source.max as i32 - source.min as i32, context) {
        Ok(max_index) => max_index,
        Err(e) => {
            return Err(e);
        },
    };
    read_table(rac, context, source, max_index)
}

/// The channel at place `c` of the coding order.
fn channel_at(c: usize) -> (channel: RgbaChannels)
    requires
        c < 4,
    ensures
        channel == RgbaChannels::nth_spec(c as int),
{
    if c == 0 {
        RgbaChannels::Red
    } else if c == 1 {
        RgbaChannels::Green
    } else if c == 2 {
        RgbaChannels::Blue
    } else {
        RgbaChannels::Alpha
    }
}

/// Whether `table` is not empty and strictly increasing, and if so whether it stays inside `source`.
fn check_table(table: &Vec<ColorValue>, source: ColorRange) -> (fault: Option<Corruption>)
    ensures
        fault == table_fault(table@, source),
{
    if table.len() == 0 {
        return Some(Corruption::TableNotIncreasing);
    }
    let mut i: usize = 1;
    while i < table.len()
        invariant
            1 <= i <= table@.len(),
            forall|a: int, b: int| 0 <= a < b < i ==> table@[a] < table@[b],
        decreases table@.len() - i,
    {
        if table[i - 1] >= table[i] {
            return Some(Corruption::TableNotIncreasing);
        }
        assert forall|a: int, b: int| 0 <= a < b < i + 1 implies table@[a] < table@[b] by {
            if b == i && a < i - 1 {
                assert(table@[a] < table@[i - 1]);
            }
        }
        i = i + 1;
    }
    let last: usize = table.len() - 1;
    if table[0] < source.min || table[last] > source.max {
        proof {
            assert(!source.holds(table@[0] as int) || !source.holds(table@[last as int] as int));
        }
        return Some(Corruption::ValueOutOfRange);
    }
    proof {
        assert forall|k: int| 0 <= k < table@.len() implies source.holds(#[trigger] table@[k] as int) by {
            if 0 < k {
                assert(table@[0] < table@[k]);
            }
            if k < last {
                assert(table@[k] < table@[last as int]);
            }
        }
    }
    None
}

impl ChannelCompact {
    /// The compacted range of each active channel, in coding order.
    pub closed spec fn compacted(&self) -> Seq<ColorRange> {
        self.ranges@
    }

    /// Reads the transform's parameters from `rac`, with chances of its own
    /// that start fresh, for the first `channels` channels of an image whose
    /// ranges before this transform are those of `transformation`.
    ///
    /// Every table that comes out is strictly increasing and stays inside
    /// its channel's range, whatever the stream holds. Fails when the stream
    /// ends inside the parameters.
    pub fn new<T: Transform>(
        rac: &mut RangeCoder,
        transformation: T,
        channels: ColorSpace,
        update_table: &UpdateTable,
    ) -> (r: Result<ChannelCompact, Error>)
        requires
            old(rac).wf(),
            transformation.wf(),
            update_table.wf(),
            forall|c: int|
                0 <= c < channels.channels() ==> (#[trigger] ranges_of(&transformation, channels.channels())[c]).width()
                    <= i16::MAX,
        ensures
            final(rac).wf(),
            match compaction_read(old(rac)@, update_table@, ranges_of(&transformation, channels.channels())) {
                Some((tables, state)) => r matches Ok(t) && t.wf() && t@ == tables && final(rac)@ == state
                    && tables_fit(tables, ranges_of(&transformation, channels.channels())),
                None => r == Err::<ChannelCompact, Error>(Error::Malformed(Corruption::PrematureEnd)),
            },
    {
        let mut context = ChanceTable::new(update_table);
        let count: usize = channels.channel_count();
        let ghost sources = ranges_of(&transformation, channels.channels());
        let mut ranges: Vec<ColorRange> = Vec::new();
        let mut decompacted: Vec<Vec<ColorValue>> = Vec::new();
        let mut c: usize = 0;
        assert(table_views(decompacted@) =~= Seq::empty());
        while c < count
            invariant
                c <= count <= 4,
                count == channels.channels(),
                sources == ranges_of(&transformation, channels.channels()),
                transformation.wf(),
                forall|k: int| 0 <= k < count ==> (#[trigger] sources[k]).width() <= i16::MAX,
                ranges@.len() == c,
                decompacted@.len() == c,
                forall|k: int|
                    0 <= k < c ==> table_fits(#[trigger] table_views(decompacted@)[k], sources[k])
                        && table_views(decompacted@)[k].len() <= 32768 && ranges@[k] == compacted_range(
                        table_views(decompacted@)[k].len(),
                    ),
                rac.wf(),
                context.wf(),
                context.updates() == update_table@,
                channels_read(old(rac)@, fresh_chances(), update_table@, sources, Seq::empty()) == channels_read(
                    rac@,
                    context@,
                    update_table@,
                    sources,
                    table_views(decompacted@),
                ),
            decreases count - c,
        {
            let t_range: ColorRange = transformation.range(channel_at(c));
            assert(t_range == sources[c as int]);
            let table: Vec<ColorValue> = match read_channel(rac, &mut context, t_range) {
                Ok(table) => table,
                Err(e) => {
                    return Err(e);
                },
            };
            let ghost before = table_views(decompacted@);
            ranges.push(ColorRange { min: 0, max: (table.len() - 1) as ColorValue });
            decompacted.push(table);
            assert(table_views(decompacted@) =~= before.push(table@));
            c = c + 1;
        }
        Ok(ChannelCompact { ranges, decompacted })
    }

    /// Builds the transform from tables that are already known, one per
    /// channel in coding order, for an image whose ranges before this
    /// transform are those of `transformation`.
    ///
    /// Fails when the number of tables is not the number of channels, when a
    /// table is empty or does not strictly increase, or when a table holds a
    /// value outside its channel's range.
    pub fn from_tables<T: Transform>(transformation: T, channels: ColorSpace, tables: Vec<Vec<ColorValue>>) -> (r:
        Result<ChannelCompact, Error>)
        requires
            transformation.wf(),
            forall|c: int|
                0 <= c < channels.channels() ==> (#[trigger] ranges_of(&transformation, channels.channels())[c]).width()
                    <= i16::MAX,
        ensures
            match tables_fault(table_views(tables@), ranges_of(&transformation, channels.channels())) {
                None => r matches Ok(t) && t.wf() && t@ == table_views(tables@) && tables_fit(
                    t@,
                    ranges_of(&transformation, channels.channels()),
                ),
                Some(fault) => r == Err::<ChannelCompact, Error>(Error::Malformed(fault)),
            },
            r is Ok <==> tables_fit(table_views(tables@), ranges_of(&transformation, channels.channels())),
    {
        let count: usize = channels.channel_count();
        let ghost sources = ranges_of(&transformation, channels.channels());
        proof {
            lemma_no_fault_iff_fit(table_views(tables@), sources);
        }
        if tables.len() != count {
            return Err(Error::Malformed(Corruption::ChannelCount));
        }
        let mut ranges: Vec<ColorRange> = Vec::new();
        let mut c: usize = 0;
        while c < count
            invariant
                c <= count <= 4,
                count == channels.channels(),
                tables@.len() == count,
                sources == ranges_of(&transformation, channels.channels()),
                transformation.wf(),
                forall|k: int| 0 <= k < count ==> (#[trigger] sources[k]).width() <= i16::MAX,
                ranges@.len() == c,
                forall|k: int|
                    0 <= k < c ==> table_fits(#[trigger] table_views(tables@)[k], sources[k]) && table_views(
                        tables@,
                    )[k].len() <= 32768 && ranges@[k] == compacted_range(table_views(tables@)[k].len()),
                first_fault(table_views(tables@), sources, 0) == first_fault(table_views(tables@), sources, c as int),
            decreases count - c,
        {
            let t_range: ColorRange = transformation.range(channel_at(c));
            assert(t_range == sources[c as int]);
            match check_table(&tables[c], t_range) {
                Some(fault) => {
                    return Err(Error::Malformed(fault));
                },
                None => {},
            }
            proof {
                lemma_fitting_table_len(tables@[c as int]@, t_range);
            }
            ranges.push(ColorRange { min: 0, max: (tables[c].len() - 1) as ColorValue });
            c = c + 1;
        }
        Ok(ChannelCompact { ranges, decompacted: tables })
    }

    /// The number of channels that the transform covers.
    pub fn channel_count(&self) -> (n: usize)
        requires
            self.wf(),
        ensures
            n == self@.len(),
    {
        self.decompacted.len()
    }

    /// The decompaction table of `channel`: entry `i` is the value that the
    /// compacted value `i` stands for. `None` for a channel that the image lacks.
    pub fn decompacted(&self, channel: RgbaChannels) -> (table: Option<&Vec<ColorValue>>)
        requires
            self.wf(),
        ensures
            match table {
                Some(values) => channel.ordinal() < self@.len() && values@ == self@[channel.ordinal()],
                None => channel.ordinal() >= self@.len(),
            },
    {
        let c: usize = channel.index();
        if c < self.decompacted.len() {
            Some(&self.decompacted[c])
        } else {
            None
        }
    }
}

impl Transform for ChannelCompact {
    /// There is a table for each of at most four channels; every table holds
    /// between 1 and 32768 strictly increasing values, and the compacted
    /// range of its channel runs from 0 to its last index.
    open spec fn wf(&self) -> bool {
        &&& self@.len() <= 4
        &&& self.compacted().len() == self@.len()
        &&& forall|c: int|
            0 <= c < self@.len() ==> 1 <= (#[trigger] self@[c]).len() <= 32768 && strictly_increasing(self@[c])
                && self.compacted()[c] == compacted_range(self@[c].len())
    }

    /// The compacted range of an active channel; `0..=0` for a channel that the image lacks.
    open spec fn range_of(&self, channel: RgbaChannels) -> ColorRange {
        if channel.ordinal() < self.compacted().len() {
            self.compacted()[channel.ordinal()]
        } else {
            ColorRange { min: 0, max: 0 }
        }
    }

    /// The same as [`Transform::range_of`]: no channel's range depends on another channel's value.
    open spec fn crange_of(&self, channel: RgbaChannels, values: Rgba) -> ColorRange {
        self.range_of(channel)
    }

    /// Compaction leaves pixels alone: it only changes the ranges that later decoding goes by.
    open spec fn undone(&self, pixel: Rgba) -> Rgba {
        pixel
    }

    fn undo(&self, pixel: Rgba) -> (r: Rgba) {
        pixel
    }

    fn range(&self, channel: RgbaChannels) -> (r: ColorRange) {
        let c: usize = channel.index();
        if c < self.ranges.len() {
            assert(1 <= self@[c as int].len() <= 32768);
            self.ranges[c]
        } else {
            ColorRange { min: 0, max: 0 }
        }
    }

    fn crange(&self, channel: RgbaChannels, values: Rgba) -> (r: ColorRange) {
        self.range(channel)
    }
}

/// The decisions that spell the values of `table` from index `from` on, when
/// `min` is the smallest value that can stand there and `hi` the largest
/// value of the channel.
pub open spec fn table_decisions(hi: int, table: Seq<ColorValue>, from: int, min: int) -> Seq<Decision>
    decreases table.len() - from,
{
    if from < 0 || from >= table.len() {
        Seq::empty()
    } else {
        bisection(0, hi - (min + (table.len() - 1 - from)), table[from] - min, 0) + table_decisions(
            hi,
            table,
            from + 1,
            table[from] + 1,
        )
    }
}

/// The decisions that spell one channel's table: its largest index, then its values.
pub open spec fn channel_decisions(source: ColorRange, table: Seq<ColorValue>) -> Seq<Decision> {
    bisection(0, source.width(), table.len() - 1, 0) + table_decisions(source.max as int, table, 0, source.min as int)
}

/// The decisions that spell the tables of the channels from `from` on.
pub open spec fn compaction_decisions(sources: Seq<ColorRange>, tables: Seq<Seq<ColorValue>>, from: int) -> Seq<
    Decision,
>
    decreases tables.len() - from,
{
    if from < 0 || from >= tables.len() {
        Seq::empty()
    } else {
        channel_decisions(sources[from], tables[from]) + compaction_decisions(sources, tables, from + 1)
    }
}

/// The parameter block that an encoder writes for `tables`: the stream of
/// their decisions, coded with chances that start fresh.
pub open spec fn compaction_stream(sources: Seq<ColorRange>, tables: Seq<Seq<ColorValue>>, updates: Seq<(u16, u16)>) -> Seq<
    u8,
> {
    stream(compaction_decisions(sources, tables, 0), fresh_chances(), updates)
}

proof fn lemma_table_read_back(
    s: CoderState,
    chances: Seq<u16>,
    updates: Seq<(u16, u16)>,
    source: ColorRange,
    table: Seq<ColorValue>,
    from: int,
    min: int,
    rest: Seq<Decision>,
)
    requires
        s.wf(),
        chances_valid(chances),
        schedule_closed(updates),
        table_fits(table, source),
        0 <= from <= table.len(),
        from < table.len() ==> source.min <= min <= table[from],
        carries(s, chances, updates, table_decisions(source.max as int, table, from, min) + rest),
    ensures
        table_filled(s, chances, updates, source.max as int, table.len() - 1, table.take(from), min) matches Some(
            (read, next, learned),
        ) && read == table && next.wf() && chances_valid(learned) && carries(next, learned, updates, rest),
    decreases table.len() - from,
{
    let hi = source.max as int;
    let max_index = table.len() - 1;
    if from >= table.len() {
        assert(table.take(from) =~= table);
        assert(table_decisions(hi, table, from, min) + rest =~= rest);
    } else {
        let bound = hi - (min + (max_index - from));
        let offset = table[from] - min;
        lemma_increasing_climbs(table, from, max_index);
        assert(source.holds(table[max_index] as int));
        assert(source.holds(table[from] as int));
        let later = table_decisions(hi, table, from + 1, table[from] + 1);
        assert(table_decisions(hi, table, from, min) + rest =~= bisection(0, bound, offset, 0) + (later + rest));
        lemma_bisection_read_back(s, chances, updates, 0, bound, offset, 0, later + rest);
        assert(table.take(from).len() == from);
        match bounded(s, chances, updates, 0, bound) {
            None => {},
            Some((read, next, learned)) => {
                assert(table.take(from).push((min + read) as ColorValue) =~= table.take(from + 1));
                lemma_table_read_back(next, learned, updates, source, table, from + 1, table[from] + 1, rest);
            },
        }
    }
}

proof fn lemma_channel_read_back(
    s: CoderState,
    chances: Seq<u16>,
    updates: Seq<(u16, u16)>,
    source: ColorRange,
    table: Seq<ColorValue>,
    rest: Seq<Decision>,
)
    requires
        s.wf(),
        chances_valid(chances),
        schedule_closed(updates),
        table_fits(table, source),
        carries(s, chances, updates, channel_decisions(source, table) + rest),
    ensures
        channel_read(s, chances, updates, source) matches Some((read, next, learned)) && read == table && next.wf()
            && chances_valid(learned) && carries(next, learned, updates, rest),
{
    let values = table_decisions(source.max as int, table, 0, source.min as int);
    lemma_fitting_table_len(table, source);
    assert(channel_decisions(source, table) + rest =~= bisection(0, source.width(), table.len() - 1, 0) + (values
        + rest));
    lemma_bisection_read_back(s, chances, updates, 0, source.width(), table.len() - 1, 0, values + rest);
    match bounded(s, chances, updates, 0, source.width()) {
        None => {},
        Some((max_index, next, learned)) => {
            assert(source.holds(table[0] as int));
            assert(table.take(0) =~= Seq::<ColorValue>::empty());
            lemma_table_read_back(next, learned, updates, source, table, 0, source.min as int, rest);
        },
    }
}

proof fn lemma_channels_read_back(
    s: CoderState,
    chances: Seq<u16>,
    updates: Seq<(u16, u16)>,
    sources: Seq<ColorRange>,
    tables: Seq<Seq<ColorValue>>,
    from: int,
    rest: Seq<Decision>,
)
    requires
        s.wf(),
        chances_valid(chances),
        schedule_closed(updates),
        tables_fit(tables, sources),
        0 <= from <= tables.len(),
        carries(s, chances, updates, compaction_decisions(sources, tables, from) + rest),
    ensures
        channels_read(s, chances, updates, sources, tables.take(from)) matches Some((read, next, learned)) && read
            == tables && next.wf() && chances_valid(learned) && carries(next, learned, updates, rest),
    decreases tables.len() - from,
{
    if from >= tables.len() {
        assert(tables.take(from) =~= tables);
        assert(compaction_decisions(sources, tables, from) + rest =~= rest);
    } else {
        let later = compaction_decisions(sources, tables, from + 1);
        assert(compaction_decisions(sources, tables, from) + rest =~= channel_decisions(sources[from], tables[from])
            + (later + rest));
        assert(table_fits(tables[from], sources[from]));
        lemma_channel_read_back(s, chances, updates, sources[from], tables[from], later + rest);
        assert(tables.take(from).len() == from);
        match channel_read(s, chances, updates, sources[from]) {
            None => {},
            Some((table, next, learned)) => {
                assert(tables.take(from).push(table) =~= tables.take(from + 1));
                lemma_channels_read_back(next, learned, updates, sources, tables, from + 1, rest);
            },
        }
    }
}

/// Compaction parameters survive the trip through the stream: whatever
/// tables fit their channels, a decoder opened on the parameter block that
/// spells them reads back exactly those tables, in order and with nothing
/// lost, and has used up the block when it is done.
pub proof fn lemma_compaction_round_trip(
    sources: Seq<ColorRange>,
    tables: Seq<Seq<ColorValue>>,
    updates: Seq<(u16, u16)>,
)
    requires
        schedule_closed(updates),
        tables_fit(tables, sources),
    ensures
        ({
            &&& opened(compaction_stream(sources, tables, updates)) matches Some(s)
            &&& s.wf()
            &&& compaction_read(s, updates, sources) matches Some((read, end))
            &&& read == tables
            &&& end.rest.len() == 0
        }),
{
    let decisions = compaction_decisions(sources, tables, 0);
    lemma_opened_carries(decisions, fresh_chances(), updates);
    let s = opened(compaction_stream(sources, tables, updates))->Some_0;
    assert(decisions + Seq::<Decision>::empty() =~= decisions);
    assert(tables.take(0) =~= Seq::<Seq<ColorValue>>::empty());
    lemma_channels_read_back(s, fresh_chances(), updates, sources, tables, 0, Seq::empty());
}

/// The tables fix the ranges: two transforms with the same tables give every channel the same range.
pub proof fn lemma_tables_fix_ranges(a: ChannelCompact, b: ChannelCompact, channel: RgbaChannels)
    requires
        a.wf(),
        b.wf(),
        a@ == b@,
    ensures
        a.range_of(channel) == b.range_of(channel),
{
    if channel.ordinal() < a@.len() {
        assert(a.compacted()[channel.ordinal()] == compacted_range(a@[channel.ordinal()].len()));
        assert(b.compacted()[channel.ordinal()] == compacted_range(b@[channel.ordinal()].len()));
    }
}

/// Asking for a range changes nothing and looks at no pixel: whatever the
/// other channels hold, `crange` gives what `range` gives.
pub proof fn lemma_ranges_ignore_pixels(t: ChannelCompact, channel: RgbaChannels, first: Rgba, second: Rgba)
    ensures
        t.crange_of(channel, first) == t.range_of(channel),
        t.crange_of(channel, second) == t.crange_of(channel, first),
{
}

} // verus!
