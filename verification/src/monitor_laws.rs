//! What holds of what the system says of its load, and of the samples that are taken of it.
use vstd::prelude::*;

use crate::system_monitor::{CpuCounters, DiskCounters, Sample, Task, Timetable, DISK_SECTOR_BYTES};

verus! {

use crate::list_laws::are_all_wanted;
use crate::state_laws::reads_number;
use crate::system_monitor::{
    cpu_change, cpu_counters_of, cpu_values, disk_change, disk_counters_of, disk_sums, disks,
    first_line, is_virtual, memory_of, meminfo_number, numbers_of, sample_fields, sample_names, sum,
    task_at, words, words_so_far,
};
use crate::text::{decimal, is_white, lines, number_value, number_value_bounds};
use crate::word_laws::numbers_are_read_by_their_places;

/// A text without white space is one word, and an empty one none.
pub proof fn text_without_white_space_is_one_word(text: Seq<char>)
    requires
        forall|k: int| 0 <= k < text.len() ==> !is_white(#[trigger] text[k]),
    ensures
        words(text) == (if text.len() > 0 {
            seq![text]
        } else {
            Seq::empty()
        }),
{
    one_word_so_far(text);
}

proof fn one_word_so_far(text: Seq<char>)
    requires
        forall|k: int| 0 <= k < text.len() ==> !is_white(#[trigger] text[k]),
    ensures
        words_so_far(text) == (Seq::<Seq<char>>::empty(), text),
    decreases text.len(),
{
    if text.len() > 0 {
        let rest = text.drop_last();
        assert forall|k: int| 0 <= k < rest.len() implies !is_white(#[trigger] rest[k]) by {
            assert(rest[k] == text[k]);
        }
        one_word_so_far(rest);
        assert(!is_white(text[text.len() - 1]));
        assert(rest.push(text.last()) == text);
    } else {
        assert(text == Seq::<char>::empty());
    }
}

proof fn words_go_on(front: Seq<char>, c: char, tail: Seq<char>)
    requires
        is_white(c),
    ensures
        words_so_far(front.push(c) + tail) == (
            words(front) + words_so_far(tail).0,
            words_so_far(tail).1,
        ),
    decreases tail.len(),
{
    let whole = front.push(c) + tail;
    if tail.len() == 0 {
        assert(whole == front.push(c));
        assert(whole.drop_last() == front);
        let found = words_so_far(whole);
        assert(found.0 == words(front) + words_so_far(tail).0);
        if words_so_far(front).1.len() == 0 {
            assert(words_so_far(front).1 == Seq::<char>::empty());
        }
    } else {
        let rest = tail.drop_last();
        words_go_on(front, c, rest);
        assert(whole.drop_last() == front.push(c) + rest);
        assert(whole.last() == tail.last());
        let (before, word) = words_so_far(rest);
        if is_white(tail.last()) && word.len() > 0 {
            assert((words(front) + before).push(word) == words(front) + before.push(word));
        }
    }
}

/// White space parts words: the words of a text are those before a white space and those behind
/// it.
pub proof fn white_space_parts_words(front: Seq<char>, c: char, tail: Seq<char>)
    requires
        is_white(c),
    ensures
        words(front.push(c) + tail) == words(front) + words(tail),
{
    words_go_on(front, c, tail);
    let (before, word) = words_so_far(tail);
    if word.len() > 0 {
        assert((words(front) + before).push(word) == words(front) + before.push(word));
    }
}

/// Whether a line is the first that begins so.
pub open spec fn begins_first_at(list: Seq<Seq<char>>, front: Seq<char>, at: int) -> bool {
    &&& 0 <= at < list.len()
    &&& front.is_prefix_of(list[at])
    &&& forall|k: int| 0 <= k < at ==> !front.is_prefix_of(#[trigger] list[k])
}

/// The line that is found is the first that begins as it must; none is found where none does.
pub proof fn first_line_is_found(list: Seq<Seq<char>>, front: Seq<char>) -> (at: int)
    ensures
        match first_line(list, front) {
            Some(line) => begins_first_at(list, front, at) && list[at] == line,
            None => forall|k: int| 0 <= k < list.len() ==> !front.is_prefix_of(#[trigger] list[k]),
        },
    decreases list.len(),
{
    if list.len() == 0 {
        0
    } else if front.is_prefix_of(list[0]) {
        0
    } else {
        let rest = list.drop_first();
        let at = first_line_is_found(rest, front);
        if first_line(list, front) is Some {
            assert(rest[at] == list[at + 1]);
            assert forall|k: int| 0 <= k < at + 1 implies !front.is_prefix_of(#[trigger] list[k]) by {
                if k > 0 {
                    assert(rest[k - 1] == list[k]);
                }
            }
        } else {
            assert forall|k: int| 0 <= k < list.len() implies !front.is_prefix_of(
                #[trigger] list[k],
            ) by {
                if k > 0 {
                    assert(rest[k - 1] == list[k]);
                }
            }
        }
        at + 1
    }
}

/// The sum of no values is nought, of one that value, and of two lists that of both sums.
pub proof fn values_are_added_up(first: Seq<u64>, second: Seq<u64>, value: u64)
    ensures
        sum(Seq::<u64>::empty()) == 0,
        sum(seq![value]) == value,
        sum(first + second) == sum(first) + sum(second),
    decreases second.len(),
{
    reveal_with_fuel(sum, 2);
    assert(seq![value].drop_last() == Seq::<u64>::empty());
    if second.len() == 0 {
        assert(first + second == first);
    } else {
        let rest = second.drop_last();
        values_are_added_up(first, rest, value);
        assert((first + second).drop_last() == first + rest);
        assert((first + second).last() == second.last());
    }
}

/// Whether values are the numbers in a list of words.
pub open spec fn are_numbers_in(values: Seq<u64>, list: Seq<Seq<char>>) -> bool {
    &&& values.len() == list.len()
    &&& forall|i: int|
        0 <= i < values.len() ==> reads_number(list[i], 10, #[trigger] values[i] as int)
}

proof fn words_are_read(list: Seq<Seq<char>>)
    ensures
        numbers_of(list) matches Ok(values) ==> are_numbers_in(values, list),
    decreases list.len(),
{
    if list.len() > 0 {
        let rest = list.drop_last();
        words_are_read(rest);
        if let Ok(values) = numbers_of(list) {
            let before = numbers_of(rest)->Ok_0;
            numbers_are_read_by_their_places(list.last(), 10, u64::MAX as int);
            number_value_bounds(list.last(), 10, u64::MAX as int);
            assert forall|i: int| 0 <= i < values.len() implies reads_number(
                list[i],
                10,
                #[trigger] values[i] as int,
            ) by {
                if i < before.len() {
                    assert(values[i] == before[i]);
                    assert(rest[i] == list[i]);
                }
            }
        }
    }
}

/// The counters of all processors are the numbers in the first line that begins with "cpu ", five
/// of them at least. All together are the total; the fourth and the fifth are the idle time.
pub proof fn processor_counters_are_those_of_the_line(contents: Seq<char>)
    ensures
        cpu_values(contents) matches Ok(values) ==> {
            &&& values.len() >= 5
            &&& exists|at: int| #[trigger]
                begins_first_at(lines(contents), "cpu "@, at) && are_numbers_in(
                    values,
                    words(lines(contents)[at]).skip(1),
                )
            &&& sum(values) <= u64::MAX ==> (cpu_counters_of(cpu_values(contents)) matches Ok(
                counters,
            ) && counters.total == sum(values) && counters.idle == values[3] + values[4])
        },
        (forall|k: int|
            0 <= k < lines(contents).len() ==> !"cpu "@.is_prefix_of(#[trigger] lines(contents)[k]))
            ==> cpu_values(contents) == Err::<Seq<u64>, Seq<char>>(
            "/proc/stat does not contain aggregate CPU counters"@,
        ),
{
    let at = first_line_is_found(lines(contents), "cpu "@);
    if let Ok(values) = cpu_values(contents) {
        words_are_read(words(lines(contents)[at]).skip(1));
        assert(begins_first_at(lines(contents), "cpu "@, at));
        if sum(values) <= u64::MAX {
            two_of_the_sum(values);
        }
    } else if first_line(lines(contents), "cpu "@) is Some {
        assert("cpu "@.is_prefix_of(lines(contents)[at]));
    }
}

proof fn two_of_the_sum(values: Seq<u64>)
    requires
        values.len() >= 5,
    ensures
        values[3] + values[4] <= sum(values),
    decreases values.len(),
{
    reveal_with_fuel(sum, 3);
    let rest = values.drop_last();
    if values.len() > 5 {
        two_of_the_sum(rest);
        assert(rest[3] == values[3] && rest[4] == values[4]);
    } else {
        sum_is_not_negative(rest.drop_last());
        assert(values.last() == values[4] && rest.last() == values[3]);
    }
}

proof fn sum_is_not_negative(values: Seq<u64>)
    ensures
        sum(values) >= 0,
    decreases values.len(),
{
    if values.len() > 0 {
        sum_is_not_negative(values.drop_last());
    }
}

/// How much the counters of the processors changed is known where neither went backwards and the
/// total went on; it is the difference of the idle time and that of the total.
pub proof fn processor_counters_must_advance(previous: CpuCounters, current: CpuCounters)
    ensures
        cpu_change(previous, current) is Ok <==> current.total > previous.total && current.idle
            >= previous.idle,
        cpu_change(previous, current) matches Ok(change) ==> change.0 + previous.idle
            == current.idle && change.1 + previous.total == current.total,
        current.total < previous.total ==> cpu_change(previous, current) == Err::<
            (int, int),
            Seq<char>,
        >("/proc/stat CPU total counter moved backwards"@),
        current.total >= previous.total && current.idle < previous.idle ==> cpu_change(
            previous,
            current,
        ) == Err::<(int, int), Seq<char>>("/proc/stat CPU idle counter moved backwards"@),
        current.total == previous.total && current.idle >= previous.idle ==> cpu_change(
            previous,
            current,
        ) == Err::<(int, int), Seq<char>>(
            "CPU counters did not advance during the sampling interval"@,
        ),
{
}

/// Whether a value is the second word of the first line that begins with a key and a colon.
pub open spec fn is_value_of(contents: Seq<char>, key: Seq<char>, value: u64) -> bool {
    exists|at: int| #[trigger]
        begins_first_at(lines(contents), key + ":"@, at) && words(lines(contents)[at]).len() >= 2
            && reads_number(words(lines(contents)[at])[1], 10, value as int)
}

proof fn memory_value_is_read(contents: Seq<char>, key: Seq<char>)
    ensures
        meminfo_number(contents, key) matches Ok(value) ==> is_value_of(contents, key, value),
{
    let at = first_line_is_found(lines(contents), key + ":"@);
    if let Ok(value) = meminfo_number(contents, key) {
        let word = words(lines(contents)[at])[1];
        numbers_are_read_by_their_places(word, 10, u64::MAX as int);
        number_value_bounds(word, 10, u64::MAX as int);
        assert(begins_first_at(lines(contents), key + ":"@, at));
    }
}

/// The memory is told in units of 1024 bytes: what is there in all is the value of "MemTotal", and
/// what is used is what "MemAvailable" leaves of it.
pub proof fn memory_is_told_in_kibibytes(contents: Seq<char>) -> (found: (u64, u64))
    ensures
        memory_of(contents) matches Ok(memory) ==> {
            &&& is_value_of(contents, "MemTotal"@, found.0)
            &&& is_value_of(contents, "MemAvailable"@, found.1)
            &&& memory.total_bytes == 1024 * found.0
            &&& found.0 >= found.1 ==> memory.used_bytes == 1024 * (found.0 - found.1)
            &&& found.0 < found.1 ==> memory.used_bytes == 0
        },
{
    memory_value_is_read(contents, "MemTotal"@);
    memory_value_is_read(contents, "MemAvailable"@);
    (meminfo_number(contents, "MemTotal"@)->Ok_0, meminfo_number(contents, "MemAvailable"@)->Ok_0)
}

/// Whether the name of a block device is none of those that stand for no disk, by its place.
pub open spec fn is_disk_name(names: Seq<Seq<char>>) -> spec_fn(int) -> bool {
    |k: int|
        forall|front: Seq<char>|
            seq!["loop"@, "ram"@, "zram"@, "dm-"@, "md"@, "sr"@].contains(front)
                ==> !#[trigger] front.is_prefix_of(names[k])
}

proof fn virtual_names(names: Seq<Seq<char>>, k: int)
    ensures
        is_disk_name(names)(k) <==> !is_virtual(names[k]),
{
    let fronts = seq!["loop"@, "ram"@, "zram"@, "dm-"@, "md"@, "sr"@];
    assert(fronts[0] == "loop"@ && fronts[1] == "ram"@ && fronts[2] == "zram"@ && fronts[3]
        == "dm-"@ && fronts[4] == "md"@ && fronts[5] == "sr"@);
    assert(fronts.contains(fronts[0]) && fronts.contains(fronts[1]) && fronts.contains(fronts[2])
        && fronts.contains(fronts[3]) && fronts.contains(fronts[4]) && fronts.contains(fronts[5]));
    assert forall|front: Seq<char>| fronts.contains(front) implies front == "loop"@ || front
        == "ram"@ || front == "zram"@ || front == "dm-"@ || front == "md"@ || front == "sr"@ by {
        let i = choose|i: int| 0 <= i < fronts.len() && fronts[i] == front;
        assert(i == 0 || i == 1 || i == 2 || i == 3 || i == 4 || i == 5);
    }
}

/// The disks are all block devices whose names do not begin with "loop", "ram", "zram", "dm-", "md"
/// or "sr", in order.
pub proof fn disks_are_told_by_their_names(names: Seq<Seq<char>>) -> (places: Seq<int>)
    ensures
        are_all_wanted(places, names.len() as int, is_disk_name(names)),
        disks(names).len() == places.len(),
        forall|i: int| 0 <= i < places.len() ==> #[trigger] disks(names)[i] == names[places[i]],
    decreases names.len(),
{
    let wanted = is_disk_name(names);
    let found = disks(names);
    if names.len() == 0 {
        let places = Seq::<int>::empty();
        assert(are_all_wanted(places, 0, wanted));
        places
    } else {
        let rest = names.drop_last();
        let last = names.len() - 1;
        let before = disks_are_told_by_their_names(rest);
        let below = is_disk_name(rest);
        virtual_names(names, last);
        let places = if is_virtual(names.last()) {
            before
        } else {
            before.push(last)
        };
        assert forall|i: int| 0 <= i < places.len() implies 0 <= #[trigger] places[i] < names.len()
            && wanted(places[i]) by {
            if i < before.len() {
                assert(below(before[i]));
                virtual_names(rest, before[i]);
                virtual_names(names, before[i]);
                assert(rest[before[i]] == names[before[i]]);
            }
        }
        assert forall|k: int| 0 <= k < names.len() && #[trigger] wanted(k) implies places.contains(
            k,
        ) by {
            if k < last {
                virtual_names(rest, k);
                virtual_names(names, k);
                assert(rest[k] == names[k]);
                assert(below(k));
                let m = choose|m: int| 0 <= m < before.len() && before[m] == k;
                assert(places[m] == k);
            } else {
                assert(places[places.len() - 1] == k);
            }
        }
        assert forall|i: int| 0 <= i < places.len() implies #[trigger] found[i]
            == names[places[i]] by {
            if i < before.len() {
                assert(disks(rest)[i] == rest[before[i]]);
            }
        }
        assert(are_all_wanted(places, names.len() as int, wanted));
        places
    }
}

/// Whether a line tells of one of the devices, by its place: the third word is its name.
pub open spec fn tells_of_device(
    list: Seq<Seq<char>>,
    devices: Seq<Seq<char>>,
) -> spec_fn(int) -> bool {
    |k: int| words(list[k]).len() >= 3 && devices.contains(words(list[k])[2])
}

/// Whether values are the numbers at a place among the words of lines.
pub open spec fn are_words_of(
    values: Seq<u64>,
    list: Seq<Seq<char>>,
    places: Seq<int>,
    at: int,
) -> bool {
    &&& values.len() == places.len()
    &&& forall|i: int|
        0 <= i < values.len() ==> is_word_of(#[trigger] values[i], list[places[i]], at)
}

/// Whether a value is the number at a place among the words of a line.
pub open spec fn is_word_of(value: u64, line: Seq<char>, at: int) -> bool {
    words(line).len() > at && reads_number(words(line)[at], 10, value as int)
}

/// The sectors that the disks have read are the sum of the sixth words of all lines that tell of one
/// of the devices, and those that they have written the sum of the tenth words.
pub proof fn sectors_are_added_up(list: Seq<Seq<char>>, devices: Seq<Seq<char>>) -> (found: (
    Seq<int>,
    Seq<u64>,
    Seq<u64>,
))
    ensures
        disk_sums(list, devices) matches Ok(sums) ==> {
            &&& are_all_wanted(found.0, list.len() as int, tells_of_device(list, devices))
            &&& are_words_of(found.1, list, found.0, 5)
            &&& are_words_of(found.2, list, found.0, 9)
            &&& sums.read == sum(found.1) && sums.read <= u64::MAX
            &&& sums.written == sum(found.2) && sums.written <= u64::MAX
            &&& sums.found <==> found.0.len() > 0
        },
    decreases list.len(),
{
    let wanted = tells_of_device(list, devices);
    if list.len() == 0 {
        let none = Seq::<int>::empty();
        assert(are_all_wanted(none, 0, wanted));
        (none, Seq::empty(), Seq::empty())
    } else {
        let rest = list.drop_last();
        let last = list.len() - 1;
        let (before, reads, writes) = sectors_are_added_up(rest, devices);
        let below = tells_of_device(rest, devices);
        let fields = words(list.last());
        let told = fields.len() >= 3 && devices.contains(fields[2]);
        let read = number_value(fields[5], 10, u64::MAX as int)->Ok_0 as u64;
        let written = number_value(fields[9], 10, u64::MAX as int)->Ok_0 as u64;
        let places = if told {
            before.push(last)
        } else {
            before
        };
        let all_reads = if told {
            reads.push(read)
        } else {
            reads
        };
        let all_writes = if told {
            writes.push(written)
        } else {
            writes
        };
        if let Ok(sums) = disk_sums(list, devices) {
            assert forall|i: int| 0 <= i < places.len() implies 0 <= #[trigger] places[i]
                < list.len() && wanted(places[i]) by {
                if i < before.len() {
                    assert(below(before[i]));
                    assert(rest[before[i]] == list[before[i]]);
                }
            }
            assert forall|k: int| 0 <= k < list.len() && #[trigger] wanted(
                k,
            ) implies places.contains(k) by {
                if k < last {
                    assert(rest[k] == list[k]);
                    assert(below(k));
                    let m = choose|m: int| 0 <= m < before.len() && before[m] == k;
                    assert(places[m] == k);
                } else {
                    assert(places[places.len() - 1] == k);
                }
            }
            if told {
                numbers_are_read_by_their_places(fields[5], 10, u64::MAX as int);
                number_value_bounds(fields[5], 10, u64::MAX as int);
                numbers_are_read_by_their_places(fields[9], 10, u64::MAX as int);
                number_value_bounds(fields[9], 10, u64::MAX as int);
                assert(reads.push(read).drop_last() == reads);
                assert(writes.push(written).drop_last() == writes);
            }
            assert forall|i: int| 0 <= i < all_reads.len() implies is_word_of(
                #[trigger] all_reads[i],
                list[places[i]],
                5,
            ) by {
                if i < reads.len() {
                    assert(is_word_of(reads[i], rest[before[i]], 5));
                    assert(rest[before[i]] == list[before[i]]);
                }
            }
            assert forall|i: int| 0 <= i < all_writes.len() implies is_word_of(
                #[trigger] all_writes[i],
                list[places[i]],
                9,
            ) by {
                if i < writes.len() {
                    assert(is_word_of(writes[i], rest[before[i]], 9));
                    assert(rest[before[i]] == list[before[i]]);
                }
            }
            assert(are_all_wanted(places, list.len() as int, wanted));
        }
        (places, all_reads, all_writes)
    }
}

/// The counters of the disks are the sums over the lines, where some line tells of a device.
pub proof fn disk_counters_are_the_sums(contents: Seq<char>, devices: Seq<Seq<char>>)
    ensures
        disk_counters_of(contents, devices) matches Ok(counters) ==> (disk_sums(
            lines(contents),
            devices,
        ) matches Ok(sums) && sums.found && counters.read_sectors == sums.read
            && counters.written_sectors == sums.written),
        disk_sums(lines(contents), devices) matches Ok(sums) ==> (!sums.found ==> disk_counters_of(
            contents,
            devices,
        ) == Err::<DiskCounters, Seq<char>>(
            "/proc/diskstats has no selected physical block devices"@,
        )),
{
    let found = sectors_are_added_up(lines(contents), devices);
    if let Ok(sums) = disk_sums(lines(contents), devices) {
        sum_is_not_negative(found.1);
        sum_is_not_negative(found.2);
    }
}

/// How much the disks have read and written is known where some time has gone by and no counter
/// went backwards; it is the difference of each. A sector has 512 bytes.
pub proof fn disk_counters_must_not_go_back(
    previous: DiskCounters,
    current: DiskCounters,
    elapsed_is_zero: bool,
)
    ensures
        disk_change(previous, current, elapsed_is_zero) is Ok <==> !elapsed_is_zero
            && current.read_sectors >= previous.read_sectors && current.written_sectors
            >= previous.written_sectors,
        disk_change(previous, current, elapsed_is_zero) matches Ok(change) ==> change.0
            + previous.read_sectors == current.read_sectors && change.1 + previous.written_sectors
            == current.written_sectors,
        elapsed_is_zero ==> disk_change(previous, current, elapsed_is_zero) == Err::<
            (int, int),
            Seq<char>,
        >("disk sampling interval must be greater than zero"@),
        DISK_SECTOR_BYTES == 512,
{
}

/// Samples are taken until the end, that at the end too; a sample is waited for as long as its time
/// has not come.
pub proof fn samples_are_waited_for(timetable: Timetable, now: u128)
    ensures
        task_at(timetable, now) is Stop <==> timetable.next > timetable.end,
        task_at(timetable, now) matches Task::Sample { wait } ==> (now + wait >= timetable.next) && (
        wait > 0 ==> now + wait == timetable.next),
{
}

/// Each field of a sample stands under its name.
pub proof fn fields_stand_under_their_names(sample: Sample)
    ensures
        ({
            let names = sample_names();
            let fields = sample_fields(sample);
            &&& names.len() == 8 && fields.len() == 8
            &&& names[0] == "timestamp_utc"@ && fields[0] == sample.timestamp_utc@
            &&& names[1] == "elapsed_ms"@ && fields[1] == decimal(sample.elapsed_ms as nat)
            &&& names[2] == "cpu_usage_percent"@ && fields[2] == sample.cpu_usage_percent@
            &&& names[3] == "memory_usage_percent"@ && fields[3] == sample.memory_usage_percent@
            &&& names[4] == "memory_used_bytes"@ && fields[4] == decimal(
                sample.memory_used_bytes as nat,
            )
            &&& names[5] == "memory_total_bytes"@ && fields[5] == decimal(
                sample.memory_total_bytes as nat,
            )
            &&& names[6] == "disk_read_bytes_per_sec"@ && fields[6]
                == sample.disk_read_bytes_per_sec@
            &&& names[7] == "disk_write_bytes_per_sec"@ && fields[7]
                == sample.disk_write_bytes_per_sec@
        }),
{
    reveal(sample_names);
    reveal(sample_fields);
}

} // verus!
