use my_dev_tools::system_monitor::{
    add_cpu_counters, advance, cpu_deltas, disk_deltas, header_line, is_virtual_block_device,
    meminfo_value, next_task, parse_cpu_counters, parse_cpu_values, parse_disk_counters,
    parse_memory_usage, physical_block_devices, plan_samples, sample_line, sum_fits, words_of,
    write_samples, CpuCounters, DiskCounters, Sample, Task, Timetable, DISK_SECTOR_BYTES,
};

fn texts(list: &[&str]) -> Vec<String> {
    list.iter().map(|text| String::from(*text)).collect()
}

fn sample() -> Sample {
    Sample {
        timestamp_utc: String::from("2026-01-01T00:00:00+00:00"),
        elapsed_ms: 1000,
        cpu_usage_percent: 12.5f64.to_string(),
        memory_usage_percent: 25.0f64.to_string(),
        memory_used_bytes: 256,
        memory_total_bytes: 1024,
        disk_read_bytes_per_sec: 512.0f64.to_string(),
        disk_write_bytes_per_sec: 1024.0f64.to_string(),
    }
}

#[test]
fn parses_cpu_counters_and_calculates_usage() {
    let previous = parse_cpu_counters("cpu  100 20 30 700 50 0 0 0\n").unwrap();
    let current = parse_cpu_counters("cpu  200 20 30 780 50 20 0 0\n").unwrap();

    assert_eq!(previous, CpuCounters { total: 900, idle: 750 });
    let (idle, total) = cpu_deltas(previous, current).unwrap();
    assert_eq!((1.0 - idle as f64 / total as f64) * 100.0, 60.0);
}

#[test]
fn parses_memory_usage() {
    let memory = parse_memory_usage("MemTotal:       1000 kB\nMemAvailable:    250 kB\n").unwrap();

    assert_eq!(memory.used_bytes, 750 * 1024);
    assert_eq!(memory.total_bytes, 1000 * 1024);
    assert_eq!(memory.used_bytes as f64 / memory.total_bytes as f64 * 100.0, 75.0);
}

#[test]
fn writes_csv_samples() {
    let text = write_samples(&vec![sample()]);

    assert_eq!(
        text,
        "timestamp_utc,elapsed_ms,cpu_usage_percent,memory_usage_percent,memory_used_bytes,memory_total_bytes,disk_read_bytes_per_sec,disk_write_bytes_per_sec\n2026-01-01T00:00:00+00:00,1000,12.5,25,256,1024,512,1024\n"
    );
}

#[test]
fn parses_disk_counters_for_physical_devices_only() {
    let devices = texts(&["sda", "nvme0n1"]);
    let counters = parse_disk_counters(
        "7 0 loop0 0 0 100 0 0 0 200 0 0 0 0\n8 0 sda 0 0 20 0 0 0 30 0 0 0 0\n8 1 sda1 0 0 40 0 0 0 50 0 0 0 0\n259 0 nvme0n1 0 0 10 0 0 0 15 0 0 0 0\n",
        &devices,
    )
    .unwrap();

    assert_eq!(counters, DiskCounters { read_sectors: 30, written_sectors: 45 });
}

#[test]
fn calculates_disk_throughput() {
    let (read, written) = disk_deltas(
        DiskCounters { read_sectors: 10, written_sectors: 20 },
        DiskCounters { read_sectors: 30, written_sectors: 50 },
        false,
    )
    .unwrap();
    let seconds = 2.0;
    let throughput = (
        read as f64 * DISK_SECTOR_BYTES as f64 / seconds,
        written as f64 * DISK_SECTOR_BYTES as f64 / seconds,
    );

    assert_eq!(throughput, (5120.0, 7680.0));
}

#[test]
fn lines_of_samples_make_up_the_file() {
    let whole = write_samples(&vec![sample(), sample()]);
    let mut parts = header_line();
    parts.push_str(&sample_line(&sample()));
    parts.push_str(&sample_line(&sample()));
    assert_eq!(whole, parts);
}

#[test]
fn incomplete_cpu_counters_are_refused() {
    assert_eq!(
        parse_cpu_values("cpu0 1 2 3 4 5\n").unwrap_err(),
        "/proc/stat does not contain aggregate CPU counters"
    );
    assert_eq!(
        parse_cpu_values("cpu  1 2 3 4\n").unwrap_err(),
        "/proc/stat aggregate CPU counters are incomplete"
    );
    assert_eq!(
        parse_cpu_values("cpu  1 2 x 4 5\n").unwrap_err(),
        "invalid digit found in string"
    );
    let values = parse_cpu_values("intr 5\ncpu  1 2 3 4 5 6\n").unwrap();
    assert_eq!(values, vec![1, 2, 3, 4, 5, 6]);
    assert!(sum_fits(&values));
    assert_eq!(add_cpu_counters(&values), CpuCounters { total: 21, idle: 9 });
    assert!(!sum_fits(&vec![u64::MAX, 1]));
}

#[test]
fn counters_that_go_back_are_refused() {
    let at = |total, idle| CpuCounters { total, idle };
    assert_eq!(
        cpu_deltas(at(10, 5), at(9, 5)).unwrap_err(),
        "/proc/stat CPU total counter moved backwards"
    );
    assert_eq!(
        cpu_deltas(at(10, 5), at(11, 4)).unwrap_err(),
        "/proc/stat CPU idle counter moved backwards"
    );
    assert_eq!(
        cpu_deltas(at(10, 5), at(10, 5)).unwrap_err(),
        "CPU counters did not advance during the sampling interval"
    );
    let disk = |read_sectors, written_sectors| DiskCounters { read_sectors, written_sectors };
    assert_eq!(
        disk_deltas(disk(2, 2), disk(1, 3), false).unwrap_err(),
        "disk read sector counter moved backwards"
    );
    assert_eq!(
        disk_deltas(disk(2, 2), disk(3, 1), false).unwrap_err(),
        "disk write sector counter moved backwards"
    );
    assert_eq!(
        disk_deltas(disk(2, 2), disk(3, 3), true).unwrap_err(),
        "disk sampling interval must be greater than zero"
    );
}

#[test]
fn missing_memory_values_are_refused() {
    assert_eq!(
        parse_memory_usage("MemFree: 1 kB\n").unwrap_err(),
        "/proc/meminfo does not contain MemTotal"
    );
    assert_eq!(
        meminfo_value("MemTotal:\n", "MemTotal").unwrap_err(),
        "/proc/meminfo MemTotal value is missing"
    );
    assert_eq!(
        meminfo_value("MemTotal: many kB\n", "MemTotal").unwrap_err(),
        "invalid digit found in string"
    );
    assert_eq!(
        parse_memory_usage("MemTotal: 18446744073709551615 kB\nMemAvailable: 1 kB\n").unwrap_err(),
        "MemTotal is too large to represent in bytes"
    );
    assert_eq!(
        parse_memory_usage("MemTotal: 1 kB\nMemAvailable: 18446744073709551615 kB\n").unwrap_err(),
        "MemAvailable is too large to represent in bytes"
    );
    assert_eq!(
        parse_memory_usage("MemTotal: 1 kB\nMemAvailable: 2 kB\n").unwrap().used_bytes,
        0
    );
}

#[test]
fn virtual_devices_are_left_out() {
    assert!(is_virtual_block_device("loop0"));
    assert!(is_virtual_block_device("dm-1"));
    assert!(!is_virtual_block_device("sda"));
    assert_eq!(
        physical_block_devices(&texts(&["loop0", "sda", "zram0", "nvme0n1"])).unwrap(),
        texts(&["sda", "nvme0n1"])
    );
    assert_eq!(
        physical_block_devices(&texts(&["ram0", "md0", "sr0"])).unwrap_err(),
        "no physical block devices found in /sys/block"
    );
}

#[test]
fn bad_disk_lines_are_refused() {
    let devices = texts(&["sda"]);
    assert_eq!(
        parse_disk_counters("8 0 sda 1 2 3\n", &devices).unwrap_err(),
        "/proc/diskstats entry for sda is incomplete"
    );
    assert_eq!(
        parse_disk_counters("8 0 sdb 0 0 20 0 0 0 30\n", &devices).unwrap_err(),
        "/proc/diskstats has no selected physical block devices"
    );
    let most = "8 0 sda 0 0 18446744073709551615 0 0 0 0\n8 0 sda 0 0 1 0 0 0 0\n";
    assert_eq!(
        parse_disk_counters(most, &devices).unwrap_err(),
        "disk read sector counter overflow"
    );
    let most = "8 0 sda 0 0 0 0 0 0 18446744073709551615\n8 0 sda 0 0 1 0 0 0 1\n";
    assert_eq!(
        parse_disk_counters(most, &devices).unwrap_err(),
        "disk write sector counter overflow"
    );
}

#[test]
fn samples_are_planned_on_the_grid() {
    assert_eq!(
        plan_samples(0, 5).unwrap_err(),
        "interval and duration must be greater than zero"
    );
    assert!(plan_samples(5, 0).is_err());
    let mut timetable = plan_samples(10, 45).unwrap();
    assert_eq!(timetable, Timetable { next: 10, interval: 10, end: 45 });
    assert_eq!(next_task(&timetable, 3), Task::Sample { wait: 7 });
    assert_eq!(next_task(&timetable, 12), Task::Sample { wait: 0 });
    advance(&mut timetable, 12);
    assert_eq!(timetable.next, 20);
    advance(&mut timetable, 30);
    assert_eq!(timetable.next, 40);
    advance(&mut timetable, 41);
    assert_eq!(timetable.next, 50);
    assert_eq!(next_task(&timetable, 41), Task::Stop);
}

#[test]
fn words_stand_between_white_space() {
    assert_eq!(words_of("  a\tbc \n d"), texts(&["a", "bc", "d"]));
    assert_eq!(words_of(" \t "), texts(&[]));
}
