//! Samples of how busy a machine is, from the counters of its kernel.
use vstd::prelude::*;

use crate::csv_text::write_csv;
use crate::text::{begins_with, chars_of, concat, holds_text, lines_of, parse_number, to_decimal};

verus! {

use crate::csv_text::{record_text, records_text, text_result, uneven_record};
use crate::text::{
    decimal, is_white, lines, number_error_text, number_value, text_rows, texts, texts_push,
};

/// Bytes in a sector of a disk.
pub const DISK_SECTOR_BYTES: u64 = 512;

/// The words of a text that are complete, and the one that its last characters begin.
pub open spec fn words_so_far(text: Seq<char>) -> (Seq<Seq<char>>, Seq<char>)
    decreases text.len(),
{
    if text.len() == 0 {
        (Seq::empty(), Seq::empty())
    } else {
        let (words, word) = words_so_far(text.drop_last());
        if !is_white(text.last()) {
            (words, word.push(text.last()))
        } else if word.len() > 0 {
            (words.push(word), Seq::empty())
        } else {
            (words, word)
        }
    }
}

/// The words of a text: what stands between its white space.
pub open spec fn words(text: Seq<char>) -> Seq<Seq<char>> {
    let (words, word) = words_so_far(text);
    if word.len() > 0 {
        words.push(word)
    } else {
        words
    }
}

proof fn some_word(text: Seq<char>)
    requires
        text.len() > 0,
        !is_white(text[0]),
    ensures
        words(text).len() > 0,
    decreases text.len(),
{
    if text.len() == 1 {
        assert(words_so_far(text.drop_last()).1 == Seq::<char>::empty());
    } else {
        assert(text.drop_last()[0] == text[0]);
        some_word(text.drop_last());
    }
}

/// The words of the text.
pub fn words_of(text: &str) -> (result: Vec<String>)
    ensures
        texts(result@) == words(text@),
{
    let chars = chars_of(text);
    let mut result: Vec<String> = Vec::new();
    let mut word = String::new();
    let mut length: usize = 0;
    assert(texts(result@) == Seq::<Seq<char>>::empty());
    assert(text@.take(0) == Seq::<char>::empty());
    for i in 0..chars.len()
        invariant
            chars@ == text@,
            length == word@.len(),
            length <= i,
            (texts(result@), word@) == words_so_far(text@.take(i as int)),
    {
        assert(text@.take(i + 1).drop_last() == text@.take(i as int));
        let c = chars[i];
        if !crate::text::white(c) {
            word.push(c);
            length = length + 1;
        } else if length > 0 {
            proof {
                texts_push(result@, word);
            }
            result.push(word);
            word = String::new();
            length = 0;
        }
    }
    assert(text@.take(text@.len() as int) == text@);
    if length > 0 {
        proof {
            texts_push(result@, word);
        }
        result.push(word);
    }
    result
}

/// The first line that begins with the text, if there is one.
pub open spec fn first_line(list: Seq<Seq<char>>, front: Seq<char>) -> Option<Seq<char>>
    decreases list.len(),
{
    if list.len() == 0 {
        None
    } else if front.is_prefix_of(list[0]) {
        Some(list[0])
    } else {
        first_line(list.drop_first(), front)
    }
}

proof fn first_line_begins(list: Seq<Seq<char>>, front: Seq<char>)
    ensures
        first_line(list, front) matches Some(line) ==> front.is_prefix_of(line),
    decreases list.len(),
{
    if list.len() > 0 {
        first_line_begins(list.drop_first(), front);
    }
}

fn find_line(contents: &str, front: &str) -> (line: Option<String>)
    ensures
        match line {
            Some(line) => first_line(lines(contents@), front@) == Some(line@),
            None => first_line(lines(contents@), front@) is None,
        },
{
    let all = lines_of(contents);
    let ghost list = texts(all@);
    assert(list.skip(0) == list);
    for i in 0..all.len()
        invariant
            list == texts(all@),
            list == lines(contents@),
            first_line(list, front@) == first_line(list.skip(i as int), front@),
    {
        assert(list.skip(i as int)[0] == all@[i as int]@);
        assert(list.skip(i as int).drop_first() == list.skip(i + 1));
        if begins_with(all[i].as_str(), front) {
            return Some(all[i].clone());
        }
    }
    None
}

/// How long the processors were busy and idle, in ticks since the start.
#[derive(Debug, Clone, Copy, PartialEq, Eq, Structural)]
pub struct CpuCounters {
    pub total: u64,
    pub idle: u64,
}

/// The numbers that the words stand for, or why one stands for none.
pub open spec fn numbers_of(list: Seq<Seq<char>>) -> Result<Seq<u64>, Seq<char>>
    decreases list.len(),
{
    if list.len() == 0 {
        Ok(Seq::empty())
    } else {
        match numbers_of(list.drop_last()) {
            Err(message) => Err(message),
            Ok(before) => match number_value(list.last(), 10, u64::MAX as int) {
                Err(error) => Err(number_error_text(error)),
                Ok(value) => Ok(before.push(value as u64)),
            },
        }
    }
}

proof fn numbers_stop(list: Seq<Seq<char>>, count: int)
    requires
        0 <= count <= list.len(),
        numbers_of(list.take(count)) is Err,
    ensures
        numbers_of(list) == numbers_of(list.take(count)),
    decreases list.len() - count,
{
    if count < list.len() {
        assert(list.take(count + 1).drop_last() == list.take(count));
        numbers_stop(list, count + 1);
    } else {
        assert(list.take(count) == list);
    }
}

/// The counters of all processors together, or why there are none.
pub open spec fn cpu_values(contents: Seq<char>) -> Result<Seq<u64>, Seq<char>> {
    match first_line(lines(contents), "cpu "@) {
        None => Err("/proc/stat does not contain aggregate CPU counters"@),
        Some(line) => match numbers_of(words(line).skip(1)) {
            Err(message) => Err(message),
            Ok(values) => if values.len() < 5 {
                Err("/proc/stat aggregate CPU counters are incomplete"@)
            } else {
                Ok(values)
            },
        },
    }
}

/// The sum of the numbers.
pub open spec fn sum(values: Seq<u64>) -> int
    decreases values.len(),
{
    if values.len() == 0 {
        0
    } else {
        sum(values.drop_last()) + values.last()
    }
}

proof fn parts_of_sum(values: Seq<u64>, count: int)
    requires
        0 <= count <= values.len(),
    ensures
        0 <= sum(values.take(count)) <= sum(values),
    decreases values.len(),
{
    if count < values.len() {
        assert(values.drop_last().take(count) == values.take(count));
        parts_of_sum(values.drop_last(), count);
    } else {
        assert(values.take(count) == values);
        if count > 0 {
            assert(values.drop_last().take(count - 1) == values.drop_last());
            parts_of_sum(values.drop_last(), count - 1);
        }
    }
}

/// The counters of all processors together.
pub fn parse_cpu_values(contents: &str) -> (result: Result<Vec<u64>, String>)
    ensures
        match result {
            Ok(values) => cpu_values(contents@) == Ok::<Seq<u64>, Seq<char>>(values@),
            Err(message) => cpu_values(contents@) == Err::<Seq<u64>, Seq<char>>(message@),
        },
{
    let line = match find_line(contents, "cpu ") {
        Some(line) => line,
        None => {
            return Err("/proc/stat does not contain aggregate CPU counters".to_owned());
        },
    };
    let fields = words_of(line.as_str());
    let ghost list = words(line@).skip(1);
    proof {
        reveal_strlit("cpu ");
        first_line_begins(lines(contents@), "cpu "@);
        assert(line@[0] == line@.subrange(0, 4)[0]);
        some_word(line@);
    }
    let mut values: Vec<u64> = Vec::new();
    assert(list.take(0) == Seq::<Seq<char>>::empty());
    for i in 1..fields.len()
        invariant
            texts(fields@) == words(line@),
            list == words(line@).skip(1),
            numbers_of(list.take(i - 1)) == Ok::<Seq<u64>, Seq<char>>(values@),
            first_line(lines(contents@), "cpu "@) == Some(line@),
    {
        assert(list.take(i as int).drop_last() == list.take(i - 1));
        assert(list.take(i as int).last() == fields@[i as int]@);
        match parse_number(fields[i].as_str(), 10, u64::MAX) {
            Ok(value) => {
                values.push(value);
            },
            Err(message) => {
                proof {
                    numbers_stop(list, i as int);
                }
                return Err(message);
            },
        }
    }
    assert(list.take(fields@.len() - 1) == list);
    if values.len() < 5 {
        return Err("/proc/stat aggregate CPU counters are incomplete".to_owned());
    }
    Ok(values)
}

/// Whether the counters can be added up.
pub fn sum_fits(values: &Vec<u64>) -> (fits: bool)
    ensures
        fits == (sum(values@) <= u64::MAX),
{
    let mut total: u64 = 0;
    assert(values@.take(0) == Seq::<u64>::empty());
    for i in 0..values.len()
        invariant
            total == sum(values@.take(i as int)),
    {
        assert(values@.take(i + 1).drop_last() == values@.take(i as int));
        if values[i] > u64::MAX - total {
            proof {
                parts_of_sum(values@, i + 1);
            }
            return false;
        }
        total = total + values[i];
    }
    assert(values@.take(values@.len() as int) == values@);
    true
}

/// The time of all processors together, and their idle time.
pub fn add_cpu_counters(values: &Vec<u64>) -> (counters: CpuCounters)
    requires
        values@.len() >= 5,
        sum(values@) <= u64::MAX,
    ensures
        counters.total == sum(values@),
        counters.idle == values@[3] + values@[4],
{
    let mut total: u64 = 0;
    assert(values@.take(0) == Seq::<u64>::empty());
    for i in 0..values.len()
        invariant
            sum(values@) <= u64::MAX,
            total == sum(values@.take(i as int)),
    {
        assert(values@.take(i + 1).drop_last() == values@.take(i as int));
        proof {
            parts_of_sum(values@, i + 1);
        }
        total = total + values[i];
    }
    assert(values@.take(values@.len() as int) == values@);
    proof {
        parts_of_sum(values@, 5);
        parts_of_sum(values@, 3);
        assert(values@.take(5).drop_last() == values@.take(4));
        assert(values@.take(4).drop_last() == values@.take(3));
        assert(values@.take(5).last() == values@[4]);
        assert(values@.take(4).last() == values@[3]);
        assert(sum(values@.take(4)) == sum(values@.take(3)) + values@[3]);
        assert(sum(values@.take(5)) == sum(values@.take(4)) + values@[4]);
    }
    CpuCounters { total, idle: values[3] + values[4] }
}

/// What counters that may be missing say, where `values` are those that were read.
pub open spec fn cpu_counters_of(values: Result<Seq<u64>, Seq<char>>) -> Result<
    CpuCounters,
    Seq<char>,
> {
    match values {
        Err(message) => Err(message),
        Ok(values) => Ok(
            CpuCounters { total: sum(values) as u64, idle: (values[3] + values[4]) as u64 },
        ),
    }
}

/// The time of all processors together, and their idle time.
pub fn parse_cpu_counters(contents: &str) -> (result: Result<CpuCounters, String>)
    requires
        cpu_values(contents@) matches Ok(values) ==> sum(values) <= u64::MAX,
    ensures
        match result {
            Ok(counters) => cpu_counters_of(cpu_values(contents@)) == Ok::<
                CpuCounters,
                Seq<char>,
            >(counters),
            Err(message) => cpu_counters_of(cpu_values(contents@)) == Err::<
                CpuCounters,
                Seq<char>,
            >(message@),
        },
{
    match parse_cpu_values(contents) {
        Ok(values) => Ok(add_cpu_counters(&values)),
        Err(message) => Err(message),
    }
}

/// How far the counters went on: idle time and all time; or why they did not.
pub open spec fn cpu_change(previous: CpuCounters, current: CpuCounters) -> Result<
    (int, int),
    Seq<char>,
> {
    if current.total < previous.total {
        Err("/proc/stat CPU total counter moved backwards"@)
    } else if current.idle < previous.idle {
        Err("/proc/stat CPU idle counter moved backwards"@)
    } else if current.total == previous.total {
        Err("CPU counters did not advance during the sampling interval"@)
    } else {
        Ok((current.idle - previous.idle, current.total - previous.total))
    }
}

/// How far the counters went on: idle time and all time.
pub fn cpu_deltas(previous: CpuCounters, current: CpuCounters) -> (result: Result<
    (u64, u64),
    String,
>)
    ensures
        match result {
            Ok((idle, total)) => cpu_change(previous, current) == Ok::<(int, int), Seq<char>>(
                (idle as int, total as int),
            ) && total > 0,
            Err(message) => cpu_change(previous, current) == Err::<(int, int), Seq<char>>(
                message@,
            ),
        },
{
    if current.total < previous.total {
        return Err("/proc/stat CPU total counter moved backwards".to_owned());
    }
    if current.idle < previous.idle {
        return Err("/proc/stat CPU idle counter moved backwards".to_owned());
    }
    if current.total == previous.total {
        return Err("CPU counters did not advance during the sampling interval".to_owned());
    }
    Ok((current.idle - previous.idle, current.total - previous.total))
}

/// How much memory is used, and how much there is.
#[derive(Debug, Clone, Copy, PartialEq, Eq, Structural)]
pub struct MemoryUsage {
    pub used_bytes: u64,
    pub total_bytes: u64,
}

/// The number behind a key, or why there is none.
pub open spec fn meminfo_number(contents: Seq<char>, key: Seq<char>) -> Result<u64, Seq<char>> {
    match first_line(lines(contents), key + ":"@) {
        None => Err("/proc/meminfo does not contain "@ + key),
        Some(line) => if words(line).len() < 2 {
            Err("/proc/meminfo "@ + key + " value is missing"@)
        } else {
            match number_value(words(line)[1], 10, u64::MAX as int) {
                Err(error) => Err(number_error_text(error)),
                Ok(value) => Ok(value as u64),
            }
        },
    }
}

/// What a number that may be missing says.
pub open spec fn number_result(result: Result<u64, String>) -> Result<u64, Seq<char>> {
    match result {
        Ok(value) => Ok(value),
        Err(message) => Err(message@),
    }
}

/// The number behind the key.
pub fn meminfo_value(contents: &str, key: &str) -> (result: Result<u64, String>)
    ensures
        number_result(result) == meminfo_number(contents@, key@),
{
    let front = concat(key, ":");
    let line = match find_line(contents, front.as_str()) {
        Some(line) => line,
        None => {
            return Err(concat("/proc/meminfo does not contain ", key));
        },
    };
    let fields = words_of(line.as_str());
    if fields.len() < 2 {
        let mut message = "/proc/meminfo ".to_owned();
        message.append(key);
        message.append(" value is missing");
        return Err(message);
    }
    assert(texts(fields@)[1] == fields@[1]@);
    parse_number(fields[1].as_str(), 10, u64::MAX)
}

/// How much memory is used and how much there is, or why that is not known.
pub open spec fn memory_of(contents: Seq<char>) -> Result<MemoryUsage, Seq<char>> {
    match (meminfo_number(contents, "MemTotal"@), meminfo_number(contents, "MemAvailable"@)) {
        (Err(message), _) => Err(message),
        (Ok(_), Err(message)) => Err(message),
        (Ok(total), Ok(available)) => if total * 1024 > u64::MAX {
            Err("MemTotal is too large to represent in bytes"@)
        } else if available * 1024 > u64::MAX {
            Err("MemAvailable is too large to represent in bytes"@)
        } else {
            Ok(
                MemoryUsage {
                    used_bytes: (if total < available {
                        0
                    } else {
                        total * 1024 - available * 1024
                    }) as u64,
                    total_bytes: (total * 1024) as u64,
                },
            )
        },
    }
}

/// How much memory is used, and how much there is.
pub fn parse_memory_usage(contents: &str) -> (result: Result<MemoryUsage, String>)
    ensures
        match result {
            Ok(memory) => memory_of(contents@) == Ok::<MemoryUsage, Seq<char>>(memory),
            Err(message) => memory_of(contents@) == Err::<MemoryUsage, Seq<char>>(message@),
        },
{
    let total = match meminfo_value(contents, "MemTotal") {
        Ok(total) => total,
        Err(message) => {
            return Err(message);
        },
    };
    let available = match meminfo_value(contents, "MemAvailable") {
        Ok(available) => available,
        Err(message) => {
            return Err(message);
        },
    };
    let total_bytes = match total.checked_mul(1024) {
        Some(bytes) => bytes,
        None => {
            return Err("MemTotal is too large to represent in bytes".to_owned());
        },
    };
    let available_bytes = match available.checked_mul(1024) {
        Some(bytes) => bytes,
        None => {
            return Err("MemAvailable is too large to represent in bytes".to_owned());
        },
    };
    let used_bytes: u64 = if total_bytes < available_bytes {
        0
    } else {
        total_bytes - available_bytes
    };
    Ok(MemoryUsage { used_bytes, total_bytes })
}

/// No more memory is used than there is.
pub proof fn used_memory_is_there(contents: Seq<char>)
    ensures
        memory_of(contents) matches Ok(memory) ==> memory.used_bytes <= memory.total_bytes,
{
}

/// Whether a block device is none of a disk.
pub open spec fn is_virtual(name: Seq<char>) -> bool {
    "loop"@.is_prefix_of(name) || "ram"@.is_prefix_of(name) || "zram"@.is_prefix_of(name)
        || "dm-"@.is_prefix_of(name) || "md"@.is_prefix_of(name) || "sr"@.is_prefix_of(name)
}

/// Whether the block device is none of a disk.
pub fn is_virtual_block_device(name: &str) -> (is: bool)
    ensures
        is == is_virtual(name@),
{
    begins_with(name, "loop") || begins_with(name, "ram") || begins_with(name, "zram")
        || begins_with(name, "dm-") || begins_with(name, "md") || begins_with(name, "sr")
}

/// The names of the block devices of disks.
pub open spec fn disks(names: Seq<Seq<char>>) -> Seq<Seq<char>>
    decreases names.len(),
{
    if names.len() == 0 {
        names
    } else {
        let before = disks(names.drop_last());
        if is_virtual(names.last()) {
            before
        } else {
            before.push(names.last())
        }
    }
}

/// The names of the block devices of disks; there must be one.
pub fn physical_block_devices(names: &Vec<String>) -> (result: Result<Vec<String>, String>)
    ensures
        match result {
            Ok(devices) => texts(devices@) == disks(texts(names@)) && devices@.len() > 0,
            Err(message) => disks(texts(names@)).len() == 0 && message@
                == "no physical block devices found in /sys/block"@,
        },
{
    let ghost all = texts(names@);
    let mut devices: Vec<String> = Vec::new();
    assert(all.take(0) == Seq::<Seq<char>>::empty());
    assert(texts(devices@) == Seq::<Seq<char>>::empty());
    for i in 0..names.len()
        invariant
            all == texts(names@),
            texts(devices@) == disks(all.take(i as int)),
    {
        assert(all.take(i + 1).drop_last() == all.take(i as int));
        assert(all.take(i + 1).last() == names@[i as int]@);
        if !is_virtual_block_device(names[i].as_str()) {
            let name = names[i].clone();
            proof {
                texts_push(devices@, name);
            }
            devices.push(name);
        }
    }
    assert(all.take(all.len() as int) == all);
    if devices.len() == 0 {
        return Err("no physical block devices found in /sys/block".to_owned());
    }
    Ok(devices)
}

/// How many sectors were read from the disks and written to them.
#[derive(Debug, Clone, Copy, PartialEq, Eq, Structural)]
pub struct DiskCounters {
    pub read_sectors: u64,
    pub written_sectors: u64,
}

/// The counters of the disks so far, and whether there was any disk.
pub struct DiskModel {
    pub read: int,
    pub written: int,
    pub found: bool,
}

/// The counters with those of a line added, or why that cannot be done. A line that names none
/// of the devices adds nothing.
pub open spec fn with_line(before: DiskModel, line: Seq<char>, devices: Seq<Seq<char>>) -> Result<
    DiskModel,
    Seq<char>,
> {
    let fields = words(line);
    if fields.len() < 3 || !devices.contains(fields[2]) {
        Ok(before)
    } else if fields.len() < 10 {
        Err("/proc/diskstats entry for "@ + fields[2] + " is incomplete"@)
    } else {
        match (
            number_value(fields[5], 10, u64::MAX as int),
            number_value(fields[9], 10, u64::MAX as int),
        ) {
            (Err(error), _) => Err(number_error_text(error)),
            (Ok(read), written) => if before.read + read > u64::MAX {
                Err("disk read sector counter overflow"@)
            } else {
                match written {
                    Err(error) => Err(number_error_text(error)),
                    Ok(written) => if before.written + written > u64::MAX {
                        Err("disk write sector counter overflow"@)
                    } else {
                        Ok(
                            DiskModel {
                                read: before.read + read,
                                written: before.written + written,
                                found: true,
                            },
                        )
                    },
                }
            },
        }
    }
}

/// The counters of the lines, or why they cannot be read.
pub open spec fn disk_sums(list: Seq<Seq<char>>, devices: Seq<Seq<char>>) -> Result<
    DiskModel,
    Seq<char>,
>
    decreases list.len(),
{
    if list.len() == 0 {
        Ok(DiskModel { read: 0, written: 0, found: false })
    } else {
        match disk_sums(list.drop_last(), devices) {
            Err(message) => Err(message),
            Ok(before) => with_line(before, list.last(), devices),
        }
    }
}

proof fn disk_sums_stop(list: Seq<Seq<char>>, devices: Seq<Seq<char>>, count: int)
    requires
        0 <= count <= list.len(),
        disk_sums(list.take(count), devices) is Err,
    ensures
        disk_sums(list, devices) == disk_sums(list.take(count), devices),
    decreases list.len() - count,
{
    if count < list.len() {
        assert(list.take(count + 1).drop_last() == list.take(count));
        disk_sums_stop(list, devices, count + 1);
    } else {
        assert(list.take(count) == list);
    }
}

/// The counters of the devices, or why there are none.
pub open spec fn disk_counters_of(contents: Seq<char>, devices: Seq<Seq<char>>) -> Result<
    DiskCounters,
    Seq<char>,
> {
    match disk_sums(lines(contents), devices) {
        Err(message) => Err(message),
        Ok(sums) => if !sums.found {
            Err("/proc/diskstats has no selected physical block devices"@)
        } else {
            Ok(DiskCounters { read_sectors: sums.read as u64, written_sectors: sums.written as u64 })
        },
    }
}

fn add_line(counters: DiskCounters, found: bool, line: &str, devices: &Vec<String>) -> (result: Result<
    (DiskCounters, bool),
    String,
>)
    ensures
        ({
            let before = DiskModel {
                read: counters.read_sectors as int,
                written: counters.written_sectors as int,
                found,
            };
            match result {
                Ok((after, now_found)) => with_line(before, line@, texts(devices@)) == Ok::<
                    DiskModel,
                    Seq<char>,
                >(
                    DiskModel {
                        read: after.read_sectors as int,
                        written: after.written_sectors as int,
                        found: now_found,
                    },
                ),
                Err(message) => with_line(before, line@, texts(devices@)) == Err::<
                    DiskModel,
                    Seq<char>,
                >(message@),
            }
        }),
{
    let fields = words_of(line);
    if fields.len() < 3 {
        return Ok((counters, found));
    }
    assert(texts(fields@)[2] == fields@[2]@);
    if !holds_text(devices, fields[2].as_str()) {
        return Ok((counters, found));
    }
    if fields.len() < 10 {
        let mut message = "/proc/diskstats entry for ".to_owned();
        message.append(fields[2].as_str());
        message.append(" is incomplete");
        return Err(message);
    }
    assert(texts(fields@)[5] == fields@[5]@);
    assert(texts(fields@)[9] == fields@[9]@);
    let read = match parse_number(fields[5].as_str(), 10, u64::MAX) {
        Ok(read) => read,
        Err(message) => {
            return Err(message);
        },
    };
    let read_sectors = match counters.read_sectors.checked_add(read) {
        Some(sum) => sum,
        None => {
            return Err("disk read sector counter overflow".to_owned());
        },
    };
    let written = match parse_number(fields[9].as_str(), 10, u64::MAX) {
        Ok(written) => written,
        Err(message) => {
            return Err(message);
        },
    };
    let written_sectors = match counters.written_sectors.checked_add(written) {
        Some(sum) => sum,
        None => {
            return Err("disk write sector counter overflow".to_owned());
        },
    };
    Ok((DiskCounters { read_sectors, written_sectors }, true))
}

/// The counters of the devices.
pub fn parse_disk_counters(contents: &str, devices: &Vec<String>) -> (result: Result<
    DiskCounters,
    String,
>)
    ensures
        match result {
            Ok(counters) => disk_counters_of(contents@, texts(devices@)) == Ok::<
                DiskCounters,
                Seq<char>,
            >(counters),
            Err(message) => disk_counters_of(contents@, texts(devices@)) == Err::<
                DiskCounters,
                Seq<char>,
            >(message@),
        },
{
    let all = lines_of(contents);
    let ghost list = texts(all@);
    let mut counters = DiskCounters { read_sectors: 0, written_sectors: 0 };
    let mut found = false;
    assert(list.take(0) == Seq::<Seq<char>>::empty());
    for i in 0..all.len()
        invariant
            list == texts(all@),
            list == lines(contents@),
            disk_sums(list.take(i as int), texts(devices@)) == Ok::<DiskModel, Seq<char>>(
                DiskModel {
                    read: counters.read_sectors as int,
                    written: counters.written_sectors as int,
                    found,
                },
            ),
    {
        assert(list.take(i + 1).drop_last() == list.take(i as int));
        assert(list.take(i + 1).last() == all@[i as int]@);
        match add_line(counters, found, all[i].as_str(), devices) {
            Ok((after, now_found)) => {
                counters = after;
                found = now_found;
            },
            Err(message) => {
                proof {
                    disk_sums_stop(list, texts(devices@), i + 1);
                }
                return Err(message);
            },
        }
    }
    assert(list.take(list.len() as int) == list);
    if !found {
        return Err("/proc/diskstats has no selected physical block devices".to_owned());
    }
    Ok(counters)
}

/// Lines that name none of the devices do not count.
pub proof fn other_devices_do_not_count(
    list: Seq<Seq<char>>,
    line: Seq<char>,
    devices: Seq<Seq<char>>,
)
    requires
        words(line).len() >= 3 ==> !devices.contains(words(line)[2]),
    ensures
        disk_sums(list.push(line), devices) == disk_sums(list, devices),
{
    assert(list.push(line).drop_last() == list);
}

/// How many sectors were read and written between two samples, or why that is not known.
pub open spec fn disk_change(
    previous: DiskCounters,
    current: DiskCounters,
    elapsed_is_zero: bool,
) -> Result<(int, int), Seq<char>> {
    if elapsed_is_zero {
        Err("disk sampling interval must be greater than zero"@)
    } else if current.read_sectors < previous.read_sectors {
        Err("disk read sector counter moved backwards"@)
    } else if current.written_sectors < previous.written_sectors {
        Err("disk write sector counter moved backwards"@)
    } else {
        Ok(
            (
                current.read_sectors - previous.read_sectors,
                current.written_sectors - previous.written_sectors,
            ),
        )
    }
}

/// How many sectors were read and written between two samples.
pub fn disk_deltas(
    previous: DiskCounters,
    current: DiskCounters,
    elapsed_is_zero: bool,
) -> (result: Result<(u64, u64), String>)
    ensures
        match result {
            Ok((read, written)) => disk_change(previous, current, elapsed_is_zero) == Ok::<
                (int, int),
                Seq<char>,
            >((read as int, written as int)),
            Err(message) => disk_change(previous, current, elapsed_is_zero) == Err::<
                (int, int),
                Seq<char>,
            >(message@),
        },
{
    if elapsed_is_zero {
        return Err("disk sampling interval must be greater than zero".to_owned());
    }
    if current.read_sectors < previous.read_sectors {
        return Err("disk read sector counter moved backwards".to_owned());
    }
    if current.written_sectors < previous.written_sectors {
        return Err("disk write sector counter moved backwards".to_owned());
    }
    Ok(
        (
            current.read_sectors - previous.read_sectors,
            current.written_sectors - previous.written_sectors,
        ),
    )
}

/// When samples are taken, in nanoseconds from the start.
#[derive(Debug, Clone, Copy, PartialEq, Eq, Structural)]
pub struct Timetable {
    pub next: u128,
    pub interval: u128,
    pub end: u128,
}

/// What is to be done: nothing more, or to take a sample after some waiting.
#[derive(Debug, Clone, Copy, PartialEq, Eq, Structural)]
pub enum Task {
    Stop,
    Sample { wait: u128 },
}

/// The times of the samples, the first of them one interval from the start; neither the interval
/// nor the duration may be zero.
pub fn plan_samples(interval: u128, duration: u128) -> (result: Result<Timetable, String>)
    ensures
        match result {
            Ok(timetable) => interval > 0 && duration > 0 && timetable == (Timetable {
                next: interval,
                interval,
                end: duration,
            }),
            Err(message) => (interval == 0 || duration == 0) && message@
                == "interval and duration must be greater than zero"@,
        },
{
    if interval == 0 || duration == 0 {
        return Err("interval and duration must be greater than zero".to_owned());
    }
    Ok(Timetable { next: interval, interval, end: duration })
}

/// What is to be done now.
pub open spec fn task_at(timetable: Timetable, now: u128) -> Task {
    if timetable.next > timetable.end {
        Task::Stop
    } else if now < timetable.next {
        Task::Sample { wait: (timetable.next - now) as u128 }
    } else {
        Task::Sample { wait: 0 }
    }
}

/// What is to be done now.
pub fn next_task(timetable: &Timetable, now: u128) -> (task: Task)
    ensures
        task == task_at(*timetable, now),
{
    if timetable.next > timetable.end {
        Task::Stop
    } else if now < timetable.next {
        Task::Sample { wait: timetable.next - now }
    } else {
        Task::Sample { wait: 0 }
    }
}

/// The first of `next`, `next + interval`, and so on, that lies behind `now`.
pub open spec fn first_behind(next: int, interval: int, now: int) -> int
    decreases
            if now < next {
                0
            } else {
                now - next + 1
            },
{
    if interval <= 0 || next > now {
        next
    } else {
        first_behind(next + interval, interval, now)
    }
}

proof fn first_behind_is(next: int, interval: int, now: int, skipped: int)
    requires
        interval > 0,
        skipped >= 0,
        next + skipped * interval > now,
        skipped > 0 ==> next + (skipped - 1) * interval <= now,
    ensures
        first_behind(next, interval, now) == next + skipped * interval,
    decreases skipped,
{
    if skipped > 0 {
        assert((skipped - 1) * interval >= 0) by (nonlinear_arith)
            requires
                skipped > 0,
                interval > 0,
        ;
        assert(next + interval + (skipped - 1) * interval == next + skipped * interval)
            by (nonlinear_arith);
        if skipped > 1 {
            assert(next + interval + (skipped - 2) * interval == next + (skipped - 1) * interval)
                by (nonlinear_arith);
        }
        first_behind_is(next + interval, interval, now, skipped - 1);
    } else {
        assert(skipped * interval == 0) by (nonlinear_arith)
            requires
                skipped == 0,
        ;
    }
}

/// Goes on to the next sample: one interval later, and further, if that is over by now.
pub fn advance(timetable: &mut Timetable, now: u128)
    requires
        old(timetable).interval > 0,
        old(timetable).next + 2 * old(timetable).interval <= u128::MAX,
        now + 2 * old(timetable).interval <= u128::MAX,
    ensures
        final(timetable).next == first_behind(
            old(timetable).next + old(timetable).interval,
            old(timetable).interval as int,
            now as int,
        ),
        final(timetable).interval == old(timetable).interval,
        final(timetable).end == old(timetable).end,
{
    let interval = timetable.interval;
    let next = timetable.next + interval;
    if next > now {
        proof {
            first_behind_is(next as int, interval as int, now as int, 0);
        }
        timetable.next = next;
        return ;
    }
    let skipped: u128 = (now - next) / interval + 1;
    proof {
        let gap = now - next;
        let whole = gap / interval as int;
        assert(gap == interval * whole + gap % (interval as int) && 0 <= gap % (interval as int)
            < interval && 0 <= whole <= gap) by (nonlinear_arith)
            requires
                interval > 0,
                gap >= 0,
                whole == gap / interval as int,
        ;
        assert(skipped * interval == interval * whole + interval) by (nonlinear_arith)
            requires
                skipped == whole + 1,
        ;
        assert((skipped - 1) * interval == interval * whole) by (nonlinear_arith)
            requires
                skipped == whole + 1,
        ;
        first_behind_is(next as int, interval as int, now as int, skipped as int);
    }
    timetable.next = next + skipped * interval;
}

/// The next sample lies behind the one before it and behind now, on the grid of the intervals,
/// and no earlier time on that grid does.
pub proof fn next_sample_is_the_first_behind_now(next: int, interval: int, now: int)
    requires
        interval > 0,
    ensures
        first_behind(next, interval, now) > now,
        first_behind(next, interval, now) >= next,
        first_behind(next, interval, now) == next || first_behind(next, interval, now) - interval
            <= now,
        (first_behind(next, interval, now) - next) % interval == 0,
    decreases
            if now < next {
                0
            } else {
                now - next + 1
            },
{
    if next <= now {
        next_sample_is_the_first_behind_now(next + interval, interval, now);
        let first = first_behind(next, interval, now);
        assert((first - next) % interval == 0) by (nonlinear_arith)
            requires
                interval > 0,
                (first - (next + interval)) % interval == 0,
        ;
    } else {
        assert(0int % interval == 0) by (nonlinear_arith)
            requires
                interval > 0,
        ;
    }
}

/// A sample. What are no whole numbers are given as they are shown.
#[derive(Debug, Clone, PartialEq, Eq)]
pub struct Sample {
    pub timestamp_utc: String,
    pub elapsed_ms: u64,
    pub cpu_usage_percent: String,
    pub memory_usage_percent: String,
    pub memory_used_bytes: u64,
    pub memory_total_bytes: u64,
    pub disk_read_bytes_per_sec: String,
    pub disk_write_bytes_per_sec: String,
}

/// The names of what a sample holds.
#[verifier::opaque]
pub open spec fn sample_names() -> Seq<Seq<char>> {
    seq![
        "timestamp_utc"@,
        "elapsed_ms"@,
        "cpu_usage_percent"@,
        "memory_usage_percent"@,
        "memory_used_bytes"@,
        "memory_total_bytes"@,
        "disk_read_bytes_per_sec"@,
        "disk_write_bytes_per_sec"@,
    ]
}

/// What a sample holds.
#[verifier::opaque]
pub open spec fn sample_fields(sample: Sample) -> Seq<Seq<char>> {
    seq![
        sample.timestamp_utc@,
        decimal(sample.elapsed_ms as nat),
        sample.cpu_usage_percent@,
        sample.memory_usage_percent@,
        decimal(sample.memory_used_bytes as nat),
        decimal(sample.memory_total_bytes as nat),
        sample.disk_read_bytes_per_sec@,
        sample.disk_write_bytes_per_sec@,
    ]
}

fn one_record(record: &Vec<String>) -> (line: String)
    ensures
        line@ == record_text(texts(record@)),
{
    let none: Vec<Vec<String>> = Vec::new();
    let written = write_csv(record, &none);
    proof {
        let records = seq![texts(record@)] + text_rows(none@);
        reveal_with_fuel(uneven_record, 3);
        reveal_with_fuel(records_text, 2);
        assert(uneven_record(records, 0) is None);
        assert(records.drop_last() == Seq::<Seq<Seq<char>>>::empty());
        assert(records_text(records) == record_text(texts(record@)));
        assert(text_result(written) == Ok::<Seq<char>, Seq<char>>(record_text(texts(record@))));
    }
    match written {
        Ok(line) => line,
        Err(message) => message,
    }
}

/// The first line of a file of samples.
pub fn header_line() -> (line: String)
    ensures
        line@ == record_text(sample_names()),
{
    let record = vec![
        "timestamp_utc".to_owned(),
        "elapsed_ms".to_owned(),
        "cpu_usage_percent".to_owned(),
        "memory_usage_percent".to_owned(),
        "memory_used_bytes".to_owned(),
        "memory_total_bytes".to_owned(),
        "disk_read_bytes_per_sec".to_owned(),
        "disk_write_bytes_per_sec".to_owned(),
    ];
    reveal(sample_names);
    assert(texts(record@) == sample_names());
    one_record(&record)
}

/// The line of a sample.
pub fn sample_line(sample: &Sample) -> (line: String)
    ensures
        line@ == record_text(sample_fields(*sample)),
{
    let record = vec![
        sample.timestamp_utc.clone(),
        to_decimal(sample.elapsed_ms),
        sample.cpu_usage_percent.clone(),
        sample.memory_usage_percent.clone(),
        to_decimal(sample.memory_used_bytes),
        to_decimal(sample.memory_total_bytes),
        sample.disk_read_bytes_per_sec.clone(),
        sample.disk_write_bytes_per_sec.clone(),
    ];
    reveal(sample_fields);
    assert(texts(record@) == sample_fields(*sample));
    one_record(&record)
}

/// What a list of samples holds.
pub open spec fn samples_fields(samples: Seq<Sample>) -> Seq<Seq<Seq<char>>> {
    Seq::new(samples.len(), |i: int| sample_fields(samples[i]))
}

/// A file with the samples.
pub fn write_samples(samples: &Vec<Sample>) -> (text: String)
    ensures
        text@ == records_text(seq![sample_names()] + samples_fields(samples@)),
{
    let mut text = header_line();
    let ghost all = seq![sample_names()] + samples_fields(samples@);
    proof {
        reveal_with_fuel(records_text, 2);
        assert(all.take(1).drop_last() == Seq::<Seq<Seq<char>>>::empty());
        assert(all.take(1).last() == sample_names());
    }
    for i in 0..samples.len()
        invariant
            all == seq![sample_names()] + samples_fields(samples@),
            text@ == records_text(all.take(i + 1)),
    {
        assert(all.take(i + 2).drop_last() == all.take(i + 1));
        assert(all.take(i + 2).last() == sample_fields(samples@[i as int]));
        text.append(sample_line(&samples[i]).as_str());
    }
    assert(all.take(all.len() as int) == all);
    text
}

} // verus!
