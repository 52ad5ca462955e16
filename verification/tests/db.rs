use std::collections::HashMap;

use hilmon::db::{days_between, grid, stride_of, Ask, Db, Row, Scan, REC};

/// The files of a store, in memory.
struct Disk {
    files: HashMap<String, Vec<u8>>,
}

impl Disk {
    fn new() -> Disk {
        Disk { files: HashMap::new() }
    }

    fn append(&mut self, db: &mut Db, server: &str, row: Row) -> bool {
        match db.append(server, row) {
            Some(w) => {
                if w.reopen {
                    db.opened(server, w.day);
                }
                self.files.entry(w.file).or_default().extend_from_slice(&w.bytes);
                db.written(server, row.ts);
                true
            }
            None => false,
        }
    }

    fn days(&self, server: &str, from: u32, to: u32) -> Vec<Vec<u8>> {
        days_between(from as i64, to as i64)
            .iter()
            .filter_map(|day| self.files.get(&Db::path(server, day)).cloned())
            .collect()
    }

    fn range(&self, server: &str, from: u32, to: u32) -> Vec<Row> {
        Db::range(&self.days(server, from, to), from, to)
    }

    fn range_strided(&self, server: &str, from: u32, to: u32, want: usize) -> Vec<Row> {
        Db::range_strided(&self.days(server, from, to), from, to, want)
    }

    fn names(&self) -> Vec<String> {
        self.files.keys().cloned().collect()
    }

    fn earliest(&self) -> Option<u32> {
        let names = self.names();
        let firsts: Vec<Vec<u8>> = names
            .iter()
            .map(|name| self.files[name].iter().copied().take(REC).collect())
            .collect();
        Db::earliest(&names, &firsts)
    }
}

#[test]
fn row_round_trips() {
    let r = Row {
        ts: 1_789_000_000,
        watts: 1551,
        watt_cap: 2000,
        util_avg: 73,
        util_max: 100,
        temp_max: 83,
        gpus: 8,
        busy: 6,
        mem_pct: 812,
    };
    assert_eq!(Row::decode(&r.encode()), Some(r));
    assert_eq!(r.encode().len(), REC);
}

#[test]
fn append_respects_the_period_and_range_reads_back() {
    let mut db = Db::open("append".to_string(), 10);
    let mut disk = Disk::new();
    let base = 1_789_000_000u32;
    let mut written = 0;
    for i in 0..30u32 {
        let r = Row { ts: base + i, watts: 100 + i as u16, gpus: 4, ..Default::default() };
        if disk.append(&mut db, "hi14", r) {
            written += 1;
        }
    }
    assert_eq!(written, 3, "a 10s period must throttle 30 one-second samples");

    let got = disk.range("hi14", base, base + 100);
    assert_eq!(got.len(), 3);
    assert_eq!(got[0].watts, 100);
    assert_eq!(got[1].watts, 110);
    assert_eq!(got[2].ts, base + 20);

    let tail = disk.range("hi14", base + 15, base + 100);
    assert_eq!(tail.len(), 1, "range must exclude rows before `from`");
    assert_eq!(tail[0].ts, base + 20);
}

#[test]
fn strided_reads_sample_across_the_whole_span() {
    let mut db = Db::open("stride".to_string(), 1);
    let mut disk = Disk::new();
    let base = 1_789_000_000u32;
    for i in 0..1000u32 {
        disk.append(
            &mut db,
            "hi14",
            Row { ts: base + i, watts: i as u16, ..Default::default() },
        );
    }
    let all = disk.range("hi14", base, base + 1000);
    assert_eq!(all.len(), 1000);

    let few = disk.range_strided("hi14", base, base + 1000, 50);
    assert!(few.len() <= 60, "got {}", few.len());
    assert!(few.len() >= 40, "got {}", few.len());
    assert!(few[0].ts < base + 40);
    assert!(few[few.len() - 1].ts > base + 940);
    assert!(few.windows(2).all(|w| w[0].ts < w[1].ts));

    assert_eq!(disk.earliest(), Some(base), "earliest is the first row, not midnight");
}

#[test]
fn bisect_finds_the_first_row_at_or_after() {
    let mut db = Db::open("bisect".to_string(), 1);
    let mut disk = Disk::new();
    let base = 1_789_000_000u32;
    for i in 0..50u32 {
        disk.append(
            &mut db,
            "hi20",
            Row { ts: base + i * 10, watts: i as u16, ..Default::default() },
        );
    }
    let got = disk.range("hi20", base + 205, base + 235);
    assert_eq!(
        got.iter().map(|r| r.ts).collect::<Vec<_>>(),
        vec![base + 210, base + 220, base + 230]
    );
}

#[test]
fn grid_is_aligned_and_marks_gaps() {
    let rows = vec![
        Row {
            ts: 1000,
            watts: 100,
            util_avg: 10,
            util_max: 90,
            gpus: 4,
            busy: 2,
            ..Default::default()
        },
        Row {
            ts: 1005,
            watts: 200,
            util_avg: 30,
            util_max: 10,
            gpus: 4,
            busy: 2,
            ..Default::default()
        },
        Row {
            ts: 1020,
            watts: 300,
            util_avg: 50,
            util_max: 50,
            gpus: 4,
            busy: 4,
            ..Default::default()
        },
    ];
    let g = grid(&rows, 1000, 10, 3);
    assert_eq!(g.len(), 3);
    assert_eq!(g[0].ts, 1000);
    assert_eq!(g[0].watts, 150, "slot averages its samples");
    assert_eq!(g[0].util_max, 90, "peak survives");
    assert_eq!(g[1].gpus, 0, "an empty slot is flagged by gpus == 0");
    assert_eq!(g[2].ts, 1020);
    assert_eq!(g[2].watts, 300);
    let other = grid(&[Row { ts: 1021, watts: 7, gpus: 2, ..Default::default() }], 1000, 10, 3);
    assert_eq!(
        g.iter().map(|r| r.ts).collect::<Vec<_>>(),
        other.iter().map(|r| r.ts).collect::<Vec<_>>()
    );
}

#[test]
fn a_record_is_laid_out_in_little_endian() {
    let r = Row {
        ts: 0x0403_0201,
        watts: 0x0605,
        watt_cap: 0x0807,
        util_avg: 9,
        util_max: 10,
        temp_max: 11,
        gpus: 12,
        busy: 13,
        mem_pct: 0x100f,
    };
    assert_eq!(r.encode(), [1, 2, 3, 4, 5, 6, 7, 8, 9, 10, 11, 12, 13, 0, 15, 16]);
    assert_eq!(Row::decode(&[0; 15]), None);
    assert_eq!(Row::decode(&[0; 17]), Some(Row::default()));
}

#[test]
fn a_scan_asks_for_what_it_needs() {
    let rows: Vec<Row> =
        (0..9u32).map(|i| Row { ts: 100 + i * 10, ..Default::default() }).collect();
    let file: Vec<u8> = rows.iter().flat_map(|r| r.encode()).collect();
    let mut scan = Scan::new(9, 125, 165, 1);
    loop {
        match scan.next() {
            Ask::Record(i) => scan.give(Some(&file[i * REC..(i + 1) * REC])),
            Ask::Rest(i) => scan.give(Some(&file[i * REC..])),
            Ask::Nothing => break,
        }
    }
    let got: Vec<u32> = scan.rows().iter().map(|r| r.ts).collect();
    assert_eq!(got, vec![130, 140, 150, 160]);
}

#[test]
fn a_scan_ends_where_the_file_cannot_be_read() {
    let mut scan = Scan::new(9, 125, 165, 1);
    let mut asked = 0;
    while scan.next() != Ask::Nothing {
        scan.give(None);
        asked += 1;
        assert!(asked < 100);
    }
    assert!(scan.rows().is_empty());
}

#[test]
fn ranges_cross_days() {
    let mut db = Db::open("days".to_string(), 1);
    let mut disk = Disk::new();
    for ts in [86_390u32, 86_399, 86_400, 86_410, 172_800] {
        disk.append(&mut db, "a", Row { ts, ..Default::default() });
    }
    assert_eq!(disk.files.len(), 3);
    let got: Vec<u32> = disk.range("a", 86_399, 172_799).iter().map(|r| r.ts).collect();
    assert_eq!(got, vec![86_399, 86_400, 86_410]);
    assert_eq!(
        days_between(86_399, 172_800),
        vec!["19700101".to_string(), "19700102".to_string(), "19700103".to_string()]
    );
    assert_eq!(Db::path("a", "19700101"), "a-19700101.bin");
    assert_eq!(db.dir(), "days");
}

#[test]
fn old_files_are_pruned() {
    let names: Vec<String> =
        ["a-19700101.bin", "a-19700105.bin", "b-19700102.bin", "notes.txt", "x.bin"]
            .iter()
            .map(|s| s.to_string())
            .collect();
    let gone: Vec<&str> =
        Db::prune(&names, 3, 5 * 86_400).iter().map(|&i| names[i].as_str()).collect();
    assert!(gone.contains(&"a-19700101.bin"));
    assert!(gone.contains(&"b-19700102.bin"));
    assert!(!gone.contains(&"a-19700105.bin"));
    assert!(!gone.contains(&"notes.txt"));
}

#[test]
fn the_earliest_day_stands_in_for_its_rows() {
    let names: Vec<String> =
        ["b-19700103.bin", "a-19700102.bin", "junk"].iter().map(|s| s.to_string()).collect();
    let none: Vec<u8> = Vec::new();
    let firsts = vec![none.clone(), none.clone(), none.clone()];
    assert_eq!(Db::earliest(&names, &firsts), Some(86_400));
    assert_eq!(Db::earliest(&["junk".to_string()], &[none]), None);
    assert_eq!(Db::earliest(&[], &[]), None);
}

#[test]
fn the_oldest_row_is_found_behind_empty_days() {
    let names: Vec<String> = ["b-19700103.bin", "a-19700102.bin", "c-19700103.bin", "junk"]
        .iter()
        .map(|s| s.to_string())
        .collect();
    let first = |ts: u32| Row { ts, ..Default::default() }.encode().to_vec();
    let cut = first(5)[..REC - 1].to_vec();
    let firsts = vec![first(200_000), cut, first(190_000), first(7)];
    assert_eq!(Db::earliest(&names, &firsts), Some(190_000));
}

#[test]
fn a_store_that_appends_across_midnight_reads_back_in_order() {
    let mut db = Db::open("two".to_string(), 10);
    let mut disk = Disk::new();
    let midnight = 20_000 * 86_400u32;
    let mut kept: Vec<Row> = Vec::new();
    for i in 0..120u32 {
        let row = Row { ts: midnight - 60 + i, watts: i as u16, ..Default::default() };
        if disk.append(&mut db, "lab-1", row) {
            kept.push(row);
        }
        disk.append(&mut db, "lab", Row { ts: midnight + i, ..Default::default() });
    }
    assert_eq!(kept.len(), 12);
    assert_eq!(disk.files.len(), 3);
    assert_eq!(disk.range("lab-1", 0, u32::MAX), kept);
    assert_eq!(disk.range("lab-1", midnight - 40, midnight + 10), kept[2..8].to_vec());
    assert_eq!(disk.range("lab-2", 0, u32::MAX), Vec::new());
    assert_eq!(disk.earliest(), Some(midnight - 60));
}

#[test]
fn the_period_holds_to_the_end_of_the_count() {
    let mut db = Db::open("end".to_string(), 10);
    let mut disk = Disk::new();
    let last = u32::MAX - 3;
    assert!(disk.append(&mut db, "a", Row { ts: last, ..Default::default() }));
    assert!(!disk.append(&mut db, "a", Row { ts: u32::MAX, ..Default::default() }));
}

#[test]
fn strides_cover_what_there_is() {
    assert_eq!(stride_of(&[10, 20], 100), 1);
    assert_eq!(stride_of(&[1000], 50), 20);
    assert!(stride_of(&[usize::MAX, usize::MAX], 1) > 0);
}

#[test]
fn peaks_of_a_slot_survive() {
    let rows = vec![
        Row { ts: 0, util_max: 3, temp_max: 90, watt_cap: 7, gpus: 1, busy: 1, ..Default::default() },
        Row { ts: 1, util_max: 99, temp_max: 10, watt_cap: 5, gpus: 2, busy: 2, ..Default::default() },
    ];
    let g = grid(&rows, 0, 0, 1);
    assert_eq!((g[0].util_max, g[0].temp_max, g[0].watt_cap), (3, 90, 7));
    let g = grid(&rows, 0, 2, 1);
    assert_eq!((g[0].util_max, g[0].temp_max, g[0].watt_cap, g[0].gpus), (99, 90, 7, 2));
    // One and a half is rounded up.
    assert_eq!(g[0].busy, 2);
    assert!(grid(&rows, 5, 1, 0).is_empty());
}
