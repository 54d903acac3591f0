//! The search for free space, the order of the entries, and the alignment.

use gptman::table::{DEFAULT_ALIGN, MAX_ALIGN};
use gptman::{GPTHeader, GPTPartitionEntry, GPT};

fn partition(guid: u8, starting_lba: u64, ending_lba: u64, name: &str) -> GPTPartitionEntry {
    GPTPartitionEntry {
        partition_type_guid: [1; 16],
        unique_parition_guid: [guid; 16],
        starting_lba,
        ending_lba,
        attribute_bits: 0,
        partition_name: name.into(),
    }
}

fn empty_table() -> GPT {
    let mut gpt = GPT::new_from(51200, 512, [0xff; 16]);
    // NOTE: align to the sectors, so we can use every last one of them
    gpt.align = 1;
    gpt
}

#[test]
fn new_table() {
    let gpt = GPT::new_from(51200, 512, [0xff; 16]);
    assert_eq!(gpt.sector_size, 512);
    assert_eq!(gpt.align, DEFAULT_ALIGN);
    assert_eq!(gpt.header.disk_guid, [0xff; 16]);
    assert_eq!(gpt.header.primary_lba, 1);
    assert_eq!(gpt.header.backup_lba, 99);
    assert_eq!(gpt.header.first_usable_lba, 34);
    assert_eq!(gpt.header.last_usable_lba, 66);
    assert_eq!(gpt.header.partition_entry_lba, 2);
    assert_eq!(gpt.iter().len(), 128);
    assert!(gpt.iter().into_iter().all(|(_, p)| p.is_unused()));
    assert!(gpt.can_write_into(51200));
}

#[test]
fn header_follows_the_disk() {
    let mut header = GPTHeader::blank([1; 16]);
    assert!(header.can_update_from(51200, 512));
    header.update_from(102400, 512);
    assert_eq!(header.primary_lba, 1);
    assert_eq!(header.backup_lba, 199);
    assert_eq!(header.last_usable_lba, 166);
    assert_eq!(header.first_usable_lba, 34);
    header.partition_entry_lba = 10;
    header.update_from(102400, 512);
    assert_eq!(header.first_usable_lba, 42);
}

#[test]
fn header_at_the_end_follows_the_disk() {
    let mut header = GPTHeader::new_from(51200, 512, [1; 16]);
    header.primary_lba = 99;
    header.backup_lba = 1;
    header.partition_entry_lba = 67;
    header.update_from(51200, 512);
    assert_eq!(header.primary_lba, 99);
    assert_eq!(header.backup_lba, 1);
    assert_eq!(header.last_usable_lba, 66);
    assert_eq!(header.first_usable_lba, 34);
    // another disk
    header.update_from(102400, 512);
    assert_eq!(header.primary_lba, 199);
    assert_eq!(header.backup_lba, 1);
    assert_eq!(header.last_usable_lba, 166);
    assert_eq!(header.first_usable_lba, 34);
}

#[test]
fn disks_that_are_too_small() {
    let header = GPTHeader::blank([1; 16]);
    assert!(header.can_update_from(34 * 512, 512));
    assert!(!header.can_update_from(34 * 512 - 1, 512));
    assert!(!header.can_update_from(51200, 0));
    let mut odd = header.clone();
    odd.partition_entry_lba = u64::MAX;
    assert!(!odd.can_update_from(51200, 512));
    odd = header.clone();
    odd.number_of_partition_entries = 0;
    assert!(!odd.can_update_from(51200, 512));
}

#[test]
fn tables_that_cannot_be_written() {
    let mut gpt = empty_table();
    assert!(gpt.can_write_into(51200));
    assert!(!gpt.can_write_into(512));
    gpt.header.header_size = 93;
    assert!(!gpt.can_write_into(51200));
    gpt.header.header_size = 92;
    gpt.header.number_of_partition_entries = 129;
    assert!(!gpt.can_write_into(51200));
    gpt.header.number_of_partition_entries = 127;
    assert!(!gpt.can_write_into(51200));
    gpt.header.number_of_partition_entries = 128;
    gpt.header.partition_entry_lba = u64::MAX;
    assert!(!gpt.can_write_into(51200));
}

#[test]
fn free_sectors_around_a_partition() {
    let mut gpt = empty_table();
    gpt[1] = partition(
        1,
        gpt.header.first_usable_lba + 5,
        gpt.header.last_usable_lba - 5,
        "A Robot Named Fight!",
    );
    assert_eq!(
        gpt.find_free_sectors(),
        vec![
            (gpt.header.first_usable_lba, 5),
            (gpt.header.last_usable_lba - 4, 5)
        ]
    );
    assert_eq!(gpt.find_first_place(5), Some(gpt.header.first_usable_lba));
    assert_eq!(gpt.find_last_place(5), Some(gpt.header.last_usable_lba - 4));
    // the first of two spots that are as small
    assert_eq!(gpt.find_optimal_place(5), Some(gpt.header.first_usable_lba));
}

#[test]
fn optimal_place_is_in_the_smallest_space() {
    let mut gpt = empty_table();
    gpt[1] = partition(
        1,
        gpt.header.first_usable_lba + 10,
        gpt.header.last_usable_lba - 5,
        "A Robot Named Fight!",
    );
    assert_eq!(
        gpt.find_optimal_place(5),
        Some(gpt.header.last_usable_lba - 4)
    );
    assert_eq!(gpt.find_optimal_place(6), Some(gpt.header.first_usable_lba));
    assert_eq!(gpt.find_optimal_place(11), None);
}

#[test]
fn maximum_size_of_an_empty_table() {
    let gpt = empty_table();
    assert_eq!(
        gpt.get_maximum_partition_size().unwrap_or(0),
        gpt.header.last_usable_lba + 1 - gpt.header.first_usable_lba
    );
}

#[test]
fn maximum_size_can_be_zero() {
    let mut gpt = empty_table();
    gpt.align = 60;
    // sectors 60 to 66 are left
    assert_eq!(gpt.find_free_sectors(), vec![(60, 7)]);
    assert_eq!(gpt.get_maximum_partition_size().unwrap(), 0);
    assert_eq!(gpt.find_optimal_place(0), Some(60));
}

#[test]
fn adjacent_partitions_and_single_sectors() {
    let mut gpt = empty_table();
    gpt[1] = partition(1, 34, 34, "one sector");
    gpt[2] = partition(2, 35, 40, "next to it");
    gpt[3] = partition(3, 66, 66, "the last sector");
    assert!(gpt.can_search());
    assert_eq!(gpt.find_free_sectors(), vec![(41, 25)]);
    gpt[4] = partition(4, 41, 65, "the rest");
    assert_eq!(gpt.find_free_sectors(), vec![]);
    assert!(gpt.get_maximum_partition_size().is_err());
    assert_eq!(gpt.find_first_place(0), None);
}

#[test]
fn tables_that_cannot_be_searched() {
    let mut gpt = empty_table();
    gpt.align = 0;
    assert!(!gpt.can_search());
    gpt.align = u64::MAX / 2 + 1;
    assert!(gpt.can_search());
    gpt.header.first_usable_lba = u64::MAX / 2 + 10;
    gpt.header.last_usable_lba = u64::MAX - 1;
    assert!(!gpt.can_search());
    gpt = empty_table();
    gpt.header.first_usable_lba = 0;
    assert!(!gpt.can_search());
    gpt = empty_table();
    gpt.header.last_usable_lba = u64::MAX;
    assert!(!gpt.can_search());
    gpt = empty_table();
    // the second partition begins in the only sector of the first one
    gpt[1] = partition(1, 40, 40, "");
    gpt[2] = partition(2, 40, 50, "");
    assert!(!gpt.can_search());
}

#[test]
fn fill_the_table_with_the_largest_partitions() {
    let mut gpt = empty_table();
    gpt[1] = partition(1, 40, 44, "");
    gpt[2] = partition(2, 50, 51, "");
    for align in [1, 2, 3, 4] {
        let mut gpt = gpt.clone();
        gpt.align = align;
        let mut guid = 10;
        while let Ok(size) = gpt.get_maximum_partition_size() {
            if size == 0 {
                break;
            }
            assert_eq!(size % align, 0);
            let number = gpt
                .iter()
                .into_iter()
                .find(|(_, p)| p.is_unused())
                .map(|(i, _)| i)
                .unwrap();
            let starting_lba = gpt.find_optimal_place(size).unwrap();
            assert_eq!(starting_lba % align, 0);
            assert!(gpt.find_first_place(size).unwrap() <= starting_lba);
            assert!(gpt.find_last_place(size).unwrap() >= starting_lba);
            let ending_lba = starting_lba + size - 1;
            assert!(starting_lba >= gpt.header.first_usable_lba);
            assert!(ending_lba <= gpt.header.last_usable_lba);
            for (_, p) in gpt.iter() {
                assert!(
                    p.is_unused() || ending_lba < p.starting_lba || p.ending_lba < starting_lba
                );
            }
            gpt[number] = partition(guid, starting_lba, ending_lba, "");
            guid += 1;
            assert!(gpt.can_search());
        }
        let used: u64 = gpt
            .iter()
            .into_iter()
            .filter(|(_, p)| p.is_used())
            .map(|(_, p)| p.size().unwrap())
            .sum();
        if align == 1 {
            assert_eq!(used, 33);
        }
    }
}

#[test]
fn order_of_entries_makes_no_difference_to_the_search() {
    let mut gpt = empty_table();
    gpt[7] = partition(1, 40, 44, "");
    gpt[3] = partition(2, 50, 51, "");
    gpt[1] = partition(3, 60, 61, "");
    let before = gpt.find_free_sectors();
    assert_eq!(before, vec![(34, 6), (45, 5), (52, 8), (62, 5)]);
    gpt.sort();
    assert_eq!(gpt.find_free_sectors(), before);
}

#[test]
fn unused_entries_make_no_difference_to_the_search() {
    let mut gpt = empty_table();
    gpt[7] = partition(1, 40, 44, "");
    let before = gpt.find_free_sectors();
    assert_eq!(before, vec![(34, 6), (45, 22)]);
    gpt[1].starting_lba = 36;
    gpt[1].ending_lba = 60;
    assert_eq!(gpt.find_free_sectors(), before);
}

#[test]
fn sorting_keeps_ties_in_order() {
    let mut gpt = empty_table();
    gpt[2] = partition(1, 50, 51, "b");
    gpt[4] = partition(2, 40, 41, "a");
    gpt[6] = partition(3, 50, 60, "c");
    gpt[1].partition_name = "first unused".into();
    gpt[3].partition_name = "second unused".into();
    gpt.sort();
    let names: Vec<String> = gpt
        .iter()
        .into_iter()
        .take(5)
        .map(|(_, p)| p.partition_name.to_string())
        .collect();
    assert_eq!(names, vec!["a", "b", "c", "first unused", "second unused"]);
    let again = gpt.clone();
    gpt.sort();
    for (i, p) in gpt.iter() {
        assert_eq!(p.to_bytes(), again[i].to_bytes());
    }
}

#[test]
fn entries_are_numbered_from_one() {
    let mut gpt = empty_table();
    for (i, p) in gpt.iter_mut() {
        p.starting_lba = u64::from(i) * 10;
    }
    for (i, p) in gpt.iter() {
        assert_eq!(p.starting_lba, u64::from(i) * 10);
        assert_eq!(gpt[i].starting_lba, u64::from(i) * 10);
    }
    assert_eq!(gpt.iter()[0].0, 1);
    assert_eq!(gpt.iter()[127].0, 128);
}

#[test]
fn name_of_an_entry() {
    let mut gpt = empty_table();
    gpt[1] = partition(
        1,
        gpt.header.first_usable_lba,
        gpt.header.last_usable_lba,
        "A Robot Named Fight!",
    );
    assert_eq!(gpt[1].partition_name.as_str(), "A Robot Named Fight!");
    assert_eq!(
        gpt[1].size().ok(),
        Some(gpt.header.last_usable_lba + 1 - gpt.header.first_usable_lba)
    );
    gpt[1] = GPTPartitionEntry::empty();
    assert!(gpt[1].is_unused());
}

#[test]
fn alignment_of_partitions() {
    let header = GPTHeader::new_from(51200, 512, [1; 16]);
    let align = |starts: &[u64]| {
        let partitions: Vec<GPTPartitionEntry> = starts
            .iter()
            .map(|start| partition(1, *start, *start, ""))
            .collect();
        GPT::find_alignment(&header, &partitions)
    };
    assert_eq!(align(&[]), DEFAULT_ALIGN);
    assert_eq!(align(&[34]), 1);
    assert_eq!(align(&[35]), 35);
    assert_eq!(align(&[34, 51]), 17);
    assert_eq!(align(&[48, 60, 96]), 12);
    assert_eq!(align(&[48, 61]), 1);
    assert_eq!(align(&[0, 48]), 48);
    assert_eq!(align(&[MAX_ALIGN * 2]), MAX_ALIGN);
    assert_eq!(align(&[MAX_ALIGN + 1]), 3277);
    assert_eq!(
        GPT::find_alignment(&header, &[GPTPartitionEntry::empty()]),
        DEFAULT_ALIGN
    );
}
