//! What is on disk, byte by byte, and what is read back.

use gptman::{
    Answer, Error, GPTHeader, GPTPartitionEntry, GPTReader, PartitionName, Request, GPT,
};

fn partition(guid: u8, starting_lba: u64, ending_lba: u64, name: &str) -> GPTPartitionEntry {
    GPTPartitionEntry {
        partition_type_guid: [1; 16],
        unique_parition_guid: [guid; 16],
        starting_lba,
        ending_lba,
        attribute_bits: 0,
        partition_name: name.into(),
    }
}

fn table() -> GPT {
    let mut gpt = GPT::new_from(51200, 512, [1; 16]);
    gpt[1] = partition(2, 34, 43, "Foo");
    gpt[2] = GPTPartitionEntry {
        attribute_bits: 5,
        ..partition(3, 48, 52, "Bar")
    };
    gpt
}

fn written() -> Vec<u8> {
    let mut disk = vec![0; 51200];
    table().write_into(&mut disk).unwrap();
    disk
}

#[test]
fn header_bytes() {
    let header = GPTHeader::new_from(51200, 512, [7; 16]);
    let mut expected = b"EFI PART".to_vec();
    expected.extend_from_slice(&[0, 0, 1, 0, 92, 0, 0, 0, 0, 0, 0, 0, 0, 0, 0, 0]);
    expected.extend_from_slice(&[1, 0, 0, 0, 0, 0, 0, 0]);
    expected.extend_from_slice(&[99, 0, 0, 0, 0, 0, 0, 0]);
    expected.extend_from_slice(&[34, 0, 0, 0, 0, 0, 0, 0]);
    expected.extend_from_slice(&[66, 0, 0, 0, 0, 0, 0, 0]);
    expected.extend_from_slice(&[7; 16]);
    expected.extend_from_slice(&[2, 0, 0, 0, 0, 0, 0, 0]);
    expected.extend_from_slice(&[128, 0, 0, 0, 128, 0, 0, 0, 0, 0, 0, 0]);
    assert_eq!(header.to_bytes(), expected);
    let back = GPTHeader::from_bytes(&expected).unwrap();
    assert_eq!(back.to_bytes(), expected);
    assert_eq!(back.last_usable_lba, 66);
    assert!(GPTHeader::from_bytes(&expected[..91]).is_err());
}

#[test]
fn entry_bytes() {
    let mut entry = partition(3, 0x0102030405060708, 0x1112131415161718, "A\u{e9}\u{1f600}");
    entry.attribute_bits = 0x2122232425262728;
    let mut expected = vec![1; 16];
    expected.extend_from_slice(&[3; 16]);
    expected.extend_from_slice(&[8, 7, 6, 5, 4, 3, 2, 1]);
    expected.extend_from_slice(&[0x18, 0x17, 0x16, 0x15, 0x14, 0x13, 0x12, 0x11]);
    expected.extend_from_slice(&[0x28, 0x27, 0x26, 0x25, 0x24, 0x23, 0x22, 0x21]);
    expected.extend_from_slice(&[0x41, 0, 0xe9, 0, 0x3d, 0xd8, 0x00, 0xde]);
    expected.resize(128, 0);
    assert_eq!(entry.to_bytes(), expected);
    let back = GPTPartitionEntry::read_from(&expected).unwrap();
    assert_eq!(back.starting_lba, 0x0102030405060708);
    assert_eq!(back.ending_lba, 0x1112131415161718);
    assert_eq!(back.attribute_bits, 0x2122232425262728);
    assert_eq!(back.partition_type_guid, [1; 16]);
    assert_eq!(back.unique_parition_guid, [3; 16]);
    assert_eq!(back.partition_name.as_str(), "A\u{e9}\u{1f600}");
    assert!(GPTPartitionEntry::read_from(&expected[..127]).is_err());
}

#[test]
fn name_is_cut_after_36_units() {
    let long = "0123456789012345678901234567890123456789";
    let name: PartitionName = long.into();
    assert_eq!(name.as_str(), long);
    assert_eq!(name.to_string(), long);
    let units = name.to_units();
    assert_eq!(units.len(), 36);
    assert_eq!(units[35], b'5' as u16);
    assert_eq!(PartitionName::from_units(&units).as_str(), &long[..36]);
}

#[test]
fn name_ends_at_first_zero() {
    let units: Vec<u16> = vec![0x41, 0x42, 0, 0x43];
    assert_eq!(PartitionName::from_units(&units).as_str(), "AB");
    let name: PartitionName = "A\0B".into();
    assert_eq!(name.to_units()[..4], [0x41, 0, 0x42, 0]);
}

#[test]
fn lone_surrogates_are_replaced() {
    let units: Vec<u16> = vec![0xd83d, 0x41, 0xde00, 0xd83d, 0xde00, 0xd83d];
    assert_eq!(
        PartitionName::from_units(&units).as_str(),
        "\u{fffd}A\u{fffd}\u{1f600}\u{fffd}"
    );
    assert_eq!(
        PartitionName::from_units(&units).as_str(),
        String::from_utf16_lossy(&units)
    );
}

#[test]
fn checksums_of_a_written_table() {
    let disk = written();
    let primary = GPTHeader::read_from(&disk[512..]).unwrap();
    assert_eq!(primary.partition_entry_array_crc32, 2730175034);
    assert_eq!(primary.crc32_checksum, 4017499327);
    let backup = GPTHeader::read_from(&disk[99 * 512..]).unwrap();
    assert_eq!(backup.partition_entry_array_crc32, 2730175034);
    assert_eq!(backup.crc32_checksum, 1400125939);
    assert_eq!(backup.primary_lba, 99);
    assert_eq!(backup.backup_lba, 1);
    assert_eq!(backup.partition_entry_lba, 67);
}

#[test]
fn checksums_before_writing() {
    let mut header = GPTHeader::new_from(51200, 512, [1; 16]);
    assert_eq!(header.generate_crc32_checksum(), 2060665595);
    header.update_crc32_checksum();
    assert_eq!(header.crc32_checksum, 2060665595);
    let empty: Vec<GPTPartitionEntry> = (0..128).map(|_| GPTPartitionEntry::empty()).collect();
    assert_eq!(
        header.generate_partition_entry_array_crc32(&empty),
        2874462854
    );
    header.update_partition_entry_array_crc32(&empty);
    assert_eq!(header.partition_entry_array_crc32, 2874462854);
}

#[test]
fn table_is_read_back_as_written() {
    let disk = written();
    assert_eq!(disk.len(), 51200);
    let gpt = GPT::read_from(&disk, 512).unwrap();
    let mut expected = table();
    expected.write_into(&mut vec![0; 51200]).unwrap();
    assert_eq!(gpt.header.to_bytes(), expected.header.to_bytes());
    assert_eq!(gpt.sector_size, 512);
    assert_eq!(gpt.align, 2);
    for (i, p) in gpt.iter() {
        assert_eq!(p.to_bytes(), expected[i].to_bytes());
        assert_eq!(
            p.partition_name.as_str(),
            expected[i].partition_name.as_str()
        );
    }
    assert_eq!(gpt[1].partition_name.as_str(), "Foo");
    assert_eq!(gpt[2].attribute_bits, 5);
    assert!(gpt[3].is_unused());
}

#[test]
fn writing_leaves_other_sectors_alone() {
    let mut disk = vec![0xaa; 51200];
    table().write_into(&mut disk).unwrap();
    assert!(disk[..512].iter().all(|x| *x == 0xaa));
    assert!(disk[34 * 512..67 * 512].iter().all(|x| *x == 0xaa));
    assert!(disk[512 + 92..1024].iter().all(|x| *x == 0xaa));
    assert!(disk[99 * 512 + 92..].iter().all(|x| *x == 0xaa));
    assert!(GPT::read_from(&disk, 512).is_ok());
}

#[test]
fn writing_twice_changes_nothing() {
    let mut disk = vec![0; 51200];
    let mut gpt = table();
    gpt.write_into(&mut disk).unwrap();
    let once = disk.clone();
    let header = gpt.header.to_bytes();
    gpt.write_into(&mut disk).unwrap();
    assert_eq!(disk, once);
    assert_eq!(gpt.header.to_bytes(), header);
}

#[test]
fn planned_writes_are_those_of_a_disk_in_memory() {
    let mut disk = vec![0; 51200];
    let writes = table().plan_write(51200).unwrap();
    assert_eq!(writes.len(), 258);
    assert_eq!(writes[0].offset, 512);
    assert_eq!(writes[1].offset, 1024);
    assert_eq!(writes[128].offset, 1024 + 127 * 128);
    assert_eq!(writes[129].offset, 99 * 512);
    assert_eq!(writes[130].offset, 67 * 512);
    for w in writes {
        disk[w.offset as usize..w.offset as usize + w.bytes.len()].copy_from_slice(&w.bytes);
    }
    assert_eq!(disk, written());
}

#[test]
fn writes_past_the_end_make_a_disk_grow() {
    let mut header = GPTHeader::new_from(51200, 512, [1; 16]);
    let partitions: Vec<GPTPartitionEntry> =
        (0..128).map(|_| GPTPartitionEntry::empty()).collect();
    let mut disk = vec![3; 10];
    header.write_into(&mut disk, 512, &partitions);
    assert_eq!(disk.len(), 1024 + 128 * 128);
    assert_eq!(disk[..10], [3; 10]);
    assert!(disk[10..512].iter().all(|x| *x == 0));
    assert_eq!(disk[512..604].to_vec(), header.to_bytes());
}

#[test]
fn damaged_primary_header_falls_back_to_backup() {
    let mut disk = written();
    disk[512] = 0;
    let gpt = GPT::read_from(&disk, 512).unwrap();
    assert_eq!(gpt.header.primary_lba, 99);
    assert_eq!(gpt.header.backup_lba, 1);
    assert_eq!(gpt.header.partition_entry_lba, 67);
    assert_eq!(gpt[1].partition_name.as_str(), "Foo");
    assert_eq!(gpt[2].partition_name.as_str(), "Bar");
    assert!(GPT::find_from(&disk).is_ok());
}

#[test]
fn table_from_backup_keeps_its_usable_sectors() {
    let mut disk = written();
    disk[512] = 0;
    let mut gpt = GPT::read_from(&disk, 512).unwrap();
    gpt.write_into(&mut disk).unwrap();
    assert_eq!(gpt.header.first_usable_lba, 34);
    assert_eq!(gpt.header.last_usable_lba, 66);
    let mut gpt = GPT::read_from(&disk, 512).unwrap();
    assert_eq!(gpt.header.primary_lba, 1);
    assert_eq!(gpt.header.partition_entry_lba, 2);
    assert_eq!(gpt.header.first_usable_lba, 34);
    gpt.align = 1;
    assert_eq!(gpt.find_free_sectors(), vec![(44, 4), (53, 14)]);
    assert_eq!(disk, written());
}

#[test]
fn primary_is_repaired_where_the_copies_overlap() {
    for sectors in [34, 35, 40, 66] {
        let mut disk = vec![0; sectors * 512];
        let mut gpt = GPT::new_from(disk.len() as u64, 512, [1; 16]);
        gpt[1] = partition(2, 34, 43, "Foo");
        gpt.write_into(&mut disk).unwrap();
        disk[512..1024].copy_from_slice(&[0; 512]);
        if sectors == 34 {
            // the partition array at the end starts in the second sector
            gpt.write_into(&mut disk).unwrap();
        }
        let mut gpt = GPT::read_from(&disk, 512).unwrap();
        assert_eq!(gpt.header.primary_lba, sectors as u64 - 1);
        assert_eq!(gpt.header.backup_lba, 1);
        assert_eq!(
            gpt.header.partition_entry_lba,
            gpt.header.last_usable_lba + 1
        );
        gpt.write_into(&mut disk).unwrap();
        assert_eq!(disk.len(), sectors * 512);
        let repaired = GPT::read_from(&disk, 512).unwrap();
        assert_eq!(repaired.header.primary_lba, 1);
        assert_eq!(repaired.header.backup_lba, sectors as u64 - 1);
        assert_eq!(repaired.header.partition_entry_lba, 2);
        assert_eq!(repaired.header.first_usable_lba, 34);
        for (i, p) in repaired.iter() {
            assert_eq!(p.to_bytes(), gpt[i].to_bytes());
        }
        let end = GPTHeader::read_from(&disk[(sectors - 1) * 512..]);
        if sectors == 34 {
            assert!(end.is_err());
        } else {
            let end = end.unwrap();
            assert_eq!(end.partition_entry_lba, end.last_usable_lba + 1);
        }
    }
}

#[test]
fn large_sectors_are_found_whatever_fails_with_small_ones() {
    let mut disk = vec![0; 409600];
    disk[512..520].copy_from_slice(b"EFI PART");
    let mut gpt = GPT::new_from(409600, 4096, [1; 16]);
    gpt.write_into(&mut disk).unwrap();
    match GPT::read_from(&disk, 512) {
        Err(Error::ReadError(primary, backup)) => {
            assert!(matches!(*primary, Error::InvalidRevision));
            assert!(matches!(*backup, Error::InvalidSignature));
        }
        _ => panic!("another result"),
    }
    assert_eq!(GPT::find_from(&disk).unwrap().sector_size, 4096);
}

#[test]
fn checksum_is_that_of_the_array_on_disk() {
    let mut disk = written();
    // units after the end of the first name, and half of a pair in the second one
    disk[1024 + 56 + 40] = 0x41;
    disk[1024 + 128 + 56] = 0x3d;
    disk[1024 + 128 + 57] = 0xd8;
    let mut header = GPTHeader::read_from(&disk[512..]).unwrap();
    assert!(matches!(
        GPT::read_from(&disk, 512),
        Err(Error::InvalidPartitionEntryArrayChecksum(2730175034, _))
    ));
    header.partition_entry_array_crc32 =
        crc::crc32::checksum_ieee(&disk[1024..1024 + 128 * 128]);
    header.update_crc32_checksum();
    disk[512..604].copy_from_slice(&header.to_bytes());
    let gpt = GPT::read_from(&disk, 512).unwrap();
    assert_eq!(gpt[1].partition_name.as_str(), "Foo");
    assert_eq!(gpt[2].partition_name.as_str(), "\u{fffd}ar");
}

#[test]
fn names_with_a_zero_are_read_up_to_it() {
    let mut disk = vec![0; 51200];
    let mut gpt = table();
    gpt[1].partition_name = "A\0B".into();
    gpt[2].partition_name = "01234567890123456789012345678901234\u{1f600}".into();
    gpt.write_into(&mut disk).unwrap();
    let gpt = GPT::read_from(&disk, 512).unwrap();
    assert_eq!(gpt[1].partition_name.as_str(), "A");
    assert_eq!(
        gpt[2].partition_name.as_str(),
        "01234567890123456789012345678901234\u{fffd}"
    );
}

#[test]
fn entries_that_were_elsewhere_are_moved() {
    let mut disk = vec![0; 51200];
    let mut gpt = table();
    gpt.header.partition_entry_lba = 10;
    gpt.write_into(&mut disk).unwrap();
    assert_eq!(gpt.header.primary_lba, 1);
    assert_eq!(gpt.header.partition_entry_lba, 67);
    // counted from where the entries were
    assert_eq!(gpt.header.first_usable_lba, 42);
    let gpt = GPT::read_from(&disk, 512).unwrap();
    assert_eq!(gpt.header.first_usable_lba, 42);
    assert_eq!(gpt[1].partition_name.as_str(), "Foo");
    let mut next = table();
    next.header.partition_entry_lba = 3;
    next.write_into(&mut vec![0; 51200]).unwrap();
    assert_eq!(next.header.first_usable_lba, 35);
    disk[512] = 0;
    let gpt = GPT::read_from(&disk, 512).unwrap();
    assert_eq!(gpt.header.partition_entry_lba, 2);
    assert_eq!(gpt[2].partition_name.as_str(), "Bar");
}

#[test]
fn large_sectors_are_found() {
    let mut disk = vec![0; 409600];
    let mut gpt = GPT::new_from(409600, 4096, [1; 16]);
    gpt.write_into(&mut disk).unwrap();
    let found = GPT::find_from(&disk).unwrap();
    assert_eq!(found.sector_size, 4096);
    assert_eq!(found.header.first_usable_lba, 6);
    assert_eq!(found.header.last_usable_lba, 94);
    assert!(matches!(
        GPT::read_from(&disk, 512),
        Err(Error::InvalidSignature)
    ));
}

#[test]
fn tables_without_a_result() {
    // no sector for the backup header
    assert!(GPT::try_read_from(&[], 512).is_none());
    assert!(GPT::try_read_from(&[0; 1024], 0).is_none());
    assert!(GPT::try_find_from(&[0; 100]).is_none());
    // a partition that starts at sector zero tells no alignment
    let mut disk = vec![0; 51200];
    let mut gpt = GPT::new_from(51200, 512, [1; 16]);
    gpt[1] = partition(1, 0, 10, "");
    gpt.write_into(&mut disk).unwrap();
    assert!(GPT::try_read_from(&disk, 512).is_none());
    // positions that are too large
    let mut header = GPTHeader::read_from(&disk[512..]).unwrap();
    header.partition_entry_lba = u64::MAX;
    header.update_crc32_checksum();
    disk[512..604].copy_from_slice(&header.to_bytes());
    assert!(GPT::try_read_from(&disk, 512).is_none());
    assert!(GPT::try_find_from(&disk).is_none());
}

#[test]
fn tables_with_a_result() {
    assert!(GPT::try_read_from(&written(), 512).unwrap().is_ok());
    assert!(GPT::try_find_from(&written()).unwrap().is_ok());
    assert!(matches!(
        GPT::try_find_from(&[0; 8192]),
        Some(Err(Error::InvalidSignature))
    ));
}

#[test]
fn reader_asks_for_header_and_entries() {
    let disk = written();
    let mut reader = GPTReader::find();
    let mut offsets = Vec::new();
    loop {
        match reader.request() {
            Request::Read { offset, len } => {
                offsets.push(offset);
                let bytes = disk[offset as usize..offset as usize + len].to_vec();
                reader = reader.advance(Answer::Bytes(bytes)).unwrap();
            }
            Request::Length => panic!("the primary header is there"),
            Request::Nothing => break,
        }
    }
    let mut expected = vec![512];
    expected.extend((0..128).map(|i| 1024 + i * 128));
    assert_eq!(offsets, expected);
    let gpt = reader.into_result().unwrap().unwrap();
    assert_eq!(gpt[2].partition_name.as_str(), "Bar");
}

#[test]
fn reader_starts_over_with_large_sectors() {
    let reader = GPTReader::find();
    assert!(matches!(
        reader.request(),
        Request::Read {
            offset: 512,
            len: 92
        }
    ));
    let reader = reader.advance(Answer::Bytes(vec![0; 92])).unwrap();
    assert!(matches!(reader.request(), Request::Length));
    let reader = reader.advance(Answer::Length(8192)).unwrap();
    assert!(matches!(
        reader.request(),
        Request::Read {
            offset: 7680,
            len: 92
        }
    ));
    let reader = reader.advance(Answer::Bytes(vec![0; 92])).unwrap();
    assert!(matches!(
        reader.request(),
        Request::Read {
            offset: 4096,
            len: 92
        }
    ));
    let reader = reader.advance(Answer::Bytes(vec![0; 92])).unwrap();
    let reader = reader.advance(Answer::Length(8192)).unwrap();
    let reader = reader.advance(Answer::Bytes(vec![0; 92])).unwrap();
    assert!(matches!(reader.request(), Request::Nothing));
    assert!(matches!(
        reader.into_result(),
        Some(Err(Error::InvalidSignature))
    ));
}

#[test]
fn reader_without_a_last_sector_has_no_result() {
    let reader = GPTReader::read(512);
    let reader = reader.advance(Answer::Bytes(Vec::new())).unwrap();
    assert!(reader.advance(Answer::Length(511)).is_none());
    assert!(GPTReader::read(512).into_result().is_none());
}
