//! Reading, changing and writing the tables of two small disks.

use gptman::table::DEFAULT_ALIGN;
use gptman::{GPTHeader, GPTPartitionEntry, GPT};

fn partition(guid: u8, starting_lba: u64, ending_lba: u64, name: &str) -> GPTPartitionEntry {
    GPTPartitionEntry {
        partition_type_guid: [1; 16],
        unique_parition_guid: [guid; 16],
        starting_lba,
        ending_lba,
        attribute_bits: 0,
        partition_name: name.into(),
    }
}

fn disk(ss: u64, foo: (u64, u64), bar: (u64, u64)) -> Vec<u8> {
    let mut disk = vec![0; ss as usize * 100];
    let mut gpt = GPT::new_from(disk.len() as u64, ss, [9; 16]);
    gpt[1] = partition(2, foo.0, foo.1, "Foo");
    gpt[2] = partition(3, bar.0, bar.1, "Bar");
    gpt.write_into(&mut disk).unwrap();
    disk
}

/// A disk of 100 sectors of 512 bytes with two partitions.
fn disk1() -> Vec<u8> {
    disk(512, (34, 43), (48, 52))
}

/// A disk of 100 sectors of 4096 bytes with two partitions.
fn disk2() -> Vec<u8> {
    disk(4096, (6, 15), (70, 79))
}

fn at(disk: &[u8], offset: u64) -> &[u8] {
    &disk[offset as usize..]
}

fn put(disk: &mut [u8], offset: u64, bytes: &[u8]) {
    disk[offset as usize..offset as usize + bytes.len()].copy_from_slice(bytes);
}

#[test]
fn read_header_and_partition_entries() {
    fn test(f: Vec<u8>, ss: u64) {
        let mut gpt = GPTHeader::read_from(at(&f, ss)).unwrap();

        assert!(GPTHeader::read_from(at(&f, gpt.backup_lba * ss)).is_ok());

        let foo = GPTPartitionEntry::read_from(at(&f, gpt.partition_entry_lba * ss)).unwrap();
        assert!(!foo.is_unused());

        let bar = GPTPartitionEntry::read_from(at(
            &f,
            gpt.partition_entry_lba * ss + u64::from(gpt.size_of_partition_entry),
        ))
        .unwrap();
        assert!(!bar.is_unused());

        let mut unused = 0;
        let mut used = 0;
        let mut partitions = Vec::new();
        for i in 0..gpt.number_of_partition_entries {
            let offset = gpt.partition_entry_lba * ss
                + u64::from(i) * u64::from(gpt.size_of_partition_entry);
            let partition = GPTPartitionEntry::read_from(at(&f, offset)).unwrap();

            if partition.is_unused() {
                unused += 1;
            } else {
                used += 1;
            }

            // NOTE: testing that serializing the PartitionName (and the whole struct) works
            let data1 = partition.to_bytes();
            let data2 = at(&f, offset)[..gpt.size_of_partition_entry as usize].to_vec();
            assert_eq!(data1, data2);

            partitions.push(partition);
        }
        assert_eq!(unused, 126);
        assert_eq!(used, 2);

        let sum = gpt.crc32_checksum;
        gpt.update_crc32_checksum();
        assert_eq!(gpt.crc32_checksum, sum);
        assert_eq!(gpt.generate_crc32_checksum(), sum);
        assert_ne!(gpt.crc32_checksum, 0);

        let sum = gpt.partition_entry_array_crc32;
        gpt.update_partition_entry_array_crc32(&partitions);
        assert_eq!(gpt.partition_entry_array_crc32, sum);
        assert_eq!(gpt.generate_partition_entry_array_crc32(&partitions), sum);
        assert_ne!(gpt.partition_entry_array_crc32, 0);
    }

    test(disk1(), 512);
    test(disk2(), 4096);
}

#[test]
fn read_and_find_from_primary() {
    assert!(GPT::read_from(&disk1(), 512).is_ok());
    assert!(GPT::read_from(&disk1(), 4096).is_err());
    assert!(GPT::read_from(&disk2(), 512).is_err());
    assert!(GPT::read_from(&disk2(), 4096).is_ok());
    assert!(GPT::find_from(&disk1()).is_ok());
    assert!(GPT::find_from(&disk2()).is_ok());
}

#[test]
fn find_backup() {
    fn test(mut cur: Vec<u8>, ss: u64) {
        let mut gpt = GPT::read_from(&cur, ss).unwrap();
        assert_eq!(gpt.header.partition_entry_lba, 2);
        gpt.header.crc32_checksum = 1;
        put(&mut cur, gpt.sector_size, &gpt.header.to_bytes());
        let maybe_gpt = GPT::read_from(&cur, gpt.sector_size);
        assert!(maybe_gpt.is_ok());
        let gpt = maybe_gpt.unwrap();
        let end = cur.len() as u64 / gpt.sector_size - 1;
        assert_eq!(gpt.header.primary_lba, end);
        assert_eq!(gpt.header.backup_lba, 1);
        assert_eq!(
            gpt.header.partition_entry_lba,
            gpt.header.last_usable_lba + 1
        );
        assert!(GPT::find_from(&cur).is_ok());
    }

    test(disk1(), 512);
    test(disk2(), 4096);
}

#[test]
fn add_partition_left() {
    let mut gpt = GPT::find_from(&disk1()).unwrap();
    gpt.align = 1;

    assert_eq!(gpt.find_first_place(10000), None);
    assert_eq!(gpt.find_first_place(4), Some(44));
    assert_eq!(gpt.find_first_place(8), Some(53));
}

#[test]
fn add_partition_left_aligned() {
    let mut gpt = GPT::find_from(&disk1()).unwrap();

    gpt.align = 10000;
    assert_eq!(gpt.find_first_place(1), None);
    gpt.align = 4;
    assert_eq!(gpt.find_first_place(4), Some(44));
    gpt.align = 6;
    assert_eq!(gpt.find_first_place(4), Some(54));
}

#[test]
fn add_partition_right() {
    let mut gpt = GPT::find_from(&disk2()).unwrap();
    gpt.align = 1;

    assert_eq!(gpt.find_last_place(10000), None);
    assert_eq!(gpt.find_last_place(5), Some(90));
    assert_eq!(gpt.find_last_place(20), Some(50));
}

#[test]
fn add_partition_right_aligned() {
    let mut gpt = GPT::find_from(&disk2()).unwrap();

    gpt.align = 10000;
    assert_eq!(gpt.find_last_place(1), None);
    gpt.align = 4;
    assert_eq!(gpt.find_last_place(5), Some(88));
    gpt.align = 8;
    assert_eq!(gpt.find_last_place(20), Some(48));

    // NOTE: special case where there is just enough space but it's not aligned
    gpt.align = 1;
    assert_eq!(gpt.find_last_place(54), Some(16));
    assert_eq!(gpt.find_last_place(55), None);
    gpt.align = 10;
    assert_eq!(gpt.find_last_place(54), None);
}

#[test]
fn add_partition_optimal() {
    let mut gpt = GPT::find_from(&disk2()).unwrap();
    gpt.align = 1;

    assert_eq!(gpt.find_optimal_place(10000), None);
    assert_eq!(gpt.find_optimal_place(5), Some(80));
    assert_eq!(gpt.find_optimal_place(20), Some(16));
}

#[test]
fn add_partition_optimal_aligned() {
    let mut gpt = GPT::find_from(&disk2()).unwrap();

    gpt.align = 10000;
    assert_eq!(gpt.find_optimal_place(1), None);
    gpt.align = 6;
    assert_eq!(gpt.find_optimal_place(5), Some(84));
    gpt.align = 9;
    assert_eq!(gpt.find_optimal_place(20), Some(18));
}

fn names(gpt: &GPT) -> Vec<(u32, &str)> {
    gpt.iter()
        .into_iter()
        .filter(|(_, x)| x.is_used())
        .map(|(i, x)| (i, x.partition_name.as_str()))
        .collect::<Vec<_>>()
}

#[test]
fn sort_partitions() {
    let mut gpt = GPT::find_from(&disk1()).unwrap();
    gpt.align = 1;

    let starting_lba = gpt.find_first_place(4).unwrap();
    gpt[10] = GPTPartitionEntry {
        starting_lba,
        ending_lba: starting_lba + 3,
        attribute_bits: 0,
        partition_type_guid: [1; 16],
        partition_name: "Baz".into(),
        unique_parition_guid: [1; 16],
    };

    assert_eq!(names(&gpt), vec![(1, "Foo"), (2, "Bar"), (10, "Baz")]);
    gpt.sort();
    assert_eq!(names(&gpt), vec![(1, "Foo"), (2, "Baz"), (3, "Bar")]);
}

#[test]
fn add_partition_on_unsorted_table() {
    let mut gpt = GPT::find_from(&disk1()).unwrap();
    gpt.align = 1;

    let starting_lba = gpt.find_first_place(4).unwrap();
    gpt[11] = GPTPartitionEntry {
        starting_lba,
        ending_lba: starting_lba + 3,
        attribute_bits: 0,
        partition_type_guid: [1; 16],
        partition_name: "Baz".into(),
        unique_parition_guid: [1; 16],
    };

    assert_eq!(gpt.find_first_place(8), Some(53));
}

#[test]
fn write_from_primary() {
    fn test(f: Vec<u8>, ss: u64) {
        let mut cur = vec![0; f.len()];
        let mut gpt = GPT::read_from(&f, ss).unwrap();
        let backup_lba = gpt.header.backup_lba;
        gpt.write_into(&mut cur).unwrap();
        assert!(GPT::read_from(&cur, ss).is_ok());

        gpt.header.crc32_checksum = 1;
        put(&mut cur, ss, &gpt.header.to_bytes());
        let maybe_gpt = GPT::read_from(&cur, ss);
        assert!(maybe_gpt.is_ok());
        let gpt = maybe_gpt.unwrap();
        assert_eq!(gpt.header.primary_lba, backup_lba);
        assert_eq!(gpt.header.backup_lba, 1);
    }

    test(disk1(), 512);
    test(disk2(), 4096);
}

#[test]
fn write_from_backup() {
    fn test(mut cur: Vec<u8>, ss: u64) {
        let mut gpt = GPT::read_from(&cur, ss).unwrap();
        gpt.header.crc32_checksum = 1;
        let backup_lba = gpt.header.backup_lba;
        put(&mut cur, ss, &gpt.header.to_bytes());
        let mut gpt = GPT::read_from(&cur, ss).unwrap();
        assert_eq!(gpt.header.backup_lba, 1);
        let partition_entry_lba = gpt.header.partition_entry_lba;
        gpt.write_into(&mut cur).unwrap();
        let mut gpt = GPT::read_from(&cur, ss).unwrap();
        assert_eq!(gpt.header.primary_lba, 1);
        assert_eq!(gpt.header.backup_lba, backup_lba);
        assert_eq!(gpt.header.partition_entry_lba, 2);

        gpt.header.crc32_checksum = 1;
        put(&mut cur, ss, &gpt.header.to_bytes());
        let maybe_gpt = GPT::read_from(&cur, ss);
        assert!(maybe_gpt.is_ok());
        let gpt = maybe_gpt.unwrap();
        assert_eq!(gpt.header.primary_lba, backup_lba);
        assert_eq!(gpt.header.backup_lba, 1);
        assert_eq!(gpt.header.partition_entry_lba, partition_entry_lba);
    }

    test(disk1(), 512);
    test(disk2(), 4096);
}

#[test]
fn write_with_changes() {
    fn test(f: Vec<u8>, ss: u64) {
        let mut cur = vec![0; f.len()];
        let mut gpt = GPT::read_from(&f, ss).unwrap();
        let backup_lba = gpt.header.backup_lba;

        assert!(gpt.remove(1).is_ok());
        gpt.write_into(&mut cur).unwrap();
        let maybe_gpt = GPT::read_from(&cur, ss);
        assert!(maybe_gpt.is_ok(), "{:?}", maybe_gpt.err());

        gpt.header.crc32_checksum = 1;
        put(&mut cur, ss, &gpt.header.to_bytes());
        let maybe_gpt = GPT::read_from(&cur, ss);
        assert!(maybe_gpt.is_ok());
        let gpt = maybe_gpt.unwrap();
        assert_eq!(gpt.header.primary_lba, backup_lba);
        assert_eq!(gpt.header.backup_lba, 1);
    }

    test(disk1(), 512);
    test(disk2(), 4096);
}

#[test]
fn get_maximum_partition_size_on_empty_disk() {
    let mut gpt = GPT::find_from(&disk1()).unwrap();
    gpt.align = 1;

    for i in 1..=gpt.header.number_of_partition_entries {
        assert!(gpt.remove(i).is_ok());
    }

    assert_eq!(gpt.get_maximum_partition_size().ok(), Some(33));
}

#[test]
fn get_maximum_partition_size_on_disk_full() {
    let mut gpt = GPT::find_from(&disk1()).unwrap();
    gpt.align = 1;

    for (_, partition) in gpt.iter_mut().into_iter().skip(1) {
        partition.partition_type_guid = [0; 16];
    }
    gpt[1].starting_lba = gpt.header.first_usable_lba;
    gpt[1].ending_lba = gpt.header.last_usable_lba;

    assert!(gpt.get_maximum_partition_size().is_err());
}

#[test]
fn get_maximum_partition_size_on_empty_disk_and_aligned() {
    let mut gpt = GPT::find_from(&disk1()).unwrap();

    for i in 1..=gpt.header.number_of_partition_entries {
        assert!(gpt.remove(i).is_ok());
    }

    gpt.align = 10;
    assert_eq!(gpt.get_maximum_partition_size().ok(), Some(20));
    gpt.align = 6;
    assert_eq!(gpt.get_maximum_partition_size().ok(), Some(30));
}

#[test]
fn create_new_gpt() {
    fn test(f: Vec<u8>, ss: u64) {
        let gpt1 = GPT::read_from(&f, ss).unwrap();
        let gpt2 = GPT::new_from(f.len() as u64, ss, [1; 16]);
        assert_eq!(gpt2.header.backup_lba, gpt1.header.backup_lba);
        assert_eq!(gpt2.header.last_usable_lba, gpt1.header.last_usable_lba);
        assert_eq!(gpt2.header.first_usable_lba, gpt1.header.first_usable_lba);
    }

    test(disk1(), 512);
    test(disk2(), 4096);
}

#[test]
fn determine_partition_alignment_no_partition() {
    fn test(ss: u64) {
        let mut cur = vec![0; ss as usize * DEFAULT_ALIGN as usize * 10];
        let mut gpt = GPT::new_from(cur.len() as u64, ss, [1; 16]);
        assert_eq!(gpt.align, DEFAULT_ALIGN);
        gpt.write_into(&mut cur).unwrap();
        let gpt = GPT::read_from(&cur, ss).unwrap();
        assert_eq!(gpt.align, DEFAULT_ALIGN);
    }

    test(512);
    test(4096);
}

#[test]
fn determine_partition_alignment() {
    fn test(ss: u64, align: u64) {
        let mut cur = vec![0; ss as usize * align as usize * 10];
        let mut gpt = GPT::new_from(cur.len() as u64, ss, [1; 16]);
        gpt[1] = GPTPartitionEntry {
            attribute_bits: 0,
            ending_lba: 2 * align,
            partition_name: "".into(),
            partition_type_guid: [1; 16],
            starting_lba: align,
            unique_parition_guid: [1; 16],
        };
        gpt[2] = GPTPartitionEntry {
            attribute_bits: 0,
            ending_lba: 8 * align,
            partition_name: "".into(),
            partition_type_guid: [1; 16],
            starting_lba: 4 * align,
            unique_parition_guid: [2; 16],
        };
        gpt.write_into(&mut cur).unwrap();
        let gpt = GPT::read_from(&cur, ss).unwrap();
        assert_eq!(gpt.align, align);
    }

    test(512, 8); // 4096 bytes
    test(512, 2048); // 1MB
    test(512, 2048 * 4); // 4MB
    test(4096, 8);
    test(4096, 2048);
    test(4096, 2048 * 4);
}

#[test]
fn determine_partition_alignment_full_disk() {
    fn test(ss: u64) {
        let mut cur = vec![0; ss as usize * 100];
        let mut gpt = GPT::new_from(cur.len() as u64, ss, [1; 16]);
        gpt[1] = GPTPartitionEntry {
            attribute_bits: 0,
            ending_lba: gpt.header.last_usable_lba,
            partition_name: "".into(),
            partition_type_guid: [1; 16],
            starting_lba: gpt.header.first_usable_lba,
            unique_parition_guid: [1; 16],
        };
        gpt.write_into(&mut cur).unwrap();
        let gpt = GPT::read_from(&cur, ss).unwrap();
        assert_eq!(gpt.align, 1);

        let mut gpt = GPT::new_from(cur.len() as u64, ss, [1; 16]);
        gpt[1] = GPTPartitionEntry {
            attribute_bits: 0,
            ending_lba: gpt.header.last_usable_lba,
            partition_name: "".into(),
            partition_type_guid: [1; 16],
            starting_lba: gpt.header.first_usable_lba + 1,
            unique_parition_guid: [1; 16],
        };
        gpt.write_into(&mut cur).unwrap();
        let gpt = GPT::read_from(&cur, ss).unwrap();
        assert_eq!(gpt.align, gpt.header.first_usable_lba + 1);
    }

    test(512);
    test(4096);
}
