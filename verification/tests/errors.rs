//! Every error, an input that gives it, and what it says.

use gptman::error::read_error_text;
use gptman::{Answer, Error, GPTHeader, GPTPartitionEntry, GPTReader, GPT};

fn written() -> Vec<u8> {
    let mut disk = vec![0; 51200];
    let mut gpt = GPT::new_from(51200, 512, [1; 16]);
    gpt[1] = GPTPartitionEntry {
        partition_type_guid: [1; 16],
        unique_parition_guid: [2; 16],
        starting_lba: 34,
        ending_lba: 43,
        attribute_bits: 0,
        partition_name: "Foo".into(),
    };
    gpt.write_into(&mut disk).unwrap();
    disk
}

fn header(change: fn(&mut GPTHeader)) -> Result<GPTHeader, Error> {
    let mut header = GPTHeader::read_from(&written()[512..]).unwrap();
    change(&mut header);
    GPTHeader::read_from(&header.to_bytes())
}

#[test]
fn short_header() {
    let err = GPTHeader::read_from(&written()[512..603]).unwrap_err();
    assert!(matches!(err, Error::Deserialize(_)));
    assert_eq!(
        err.to_string(),
        "io error: unexpected end of file".to_string()
    );
}

#[test]
fn invalid_signature() {
    let err = header(|h| h.signature[7] = 0).unwrap_err();
    assert!(matches!(err, Error::InvalidSignature));
    assert_eq!(err.to_string(), "invalid signature");
}

#[test]
fn invalid_revision() {
    let err = header(|h| h.revision = [0, 0, 2, 0]).unwrap_err();
    assert!(matches!(err, Error::InvalidRevision));
    assert_eq!(err.to_string(), "invalid revision");
}

#[test]
fn invalid_header_size() {
    let err = header(|h| h.header_size = 93).unwrap_err();
    assert!(matches!(err, Error::InvalidHeaderSize));
    assert_eq!(err.to_string(), "invalid header size");
}

#[test]
fn invalid_checksum() {
    let sum = GPTHeader::read_from(&written()[512..])
        .unwrap()
        .crc32_checksum;
    let err = header(|h| h.crc32_checksum = 1).unwrap_err();
    match &err {
        Error::InvalidChecksum(stored, computed) => {
            assert_eq!(*stored, 1);
            assert_eq!(*computed, sum);
        }
        _ => panic!("another error"),
    }
    assert_eq!(
        err.to_string(),
        format!("corrupted CRC32 checksum (1 != {})", sum)
    );
}

#[test]
fn first_error_of_a_header_is_told() {
    let err = header(|h| {
        h.signature = [0; 8];
        h.revision = [0; 4];
        h.header_size = 0;
    });
    assert!(matches!(err, Err(Error::InvalidSignature)));
    let err = header(|h| {
        h.revision = [0; 4];
        h.header_size = 0;
    });
    assert!(matches!(err, Err(Error::InvalidRevision)));
}

#[test]
fn invalid_partition_entry_array_checksum() {
    let mut disk = written();
    let sum = GPTHeader::read_from(&disk[512..])
        .unwrap()
        .partition_entry_array_crc32;
    disk[1024 + 32] = 35;
    let err = GPT::read_from(&disk, 512).unwrap_err();
    let computed = match &err {
        Error::InvalidPartitionEntryArrayChecksum(stored, computed) => {
            assert_eq!(*stored, sum);
            assert_ne!(*computed, sum);
            *computed
        }
        _ => panic!("another error"),
    };
    assert_eq!(
        err.to_string(),
        format!(
            "corrupted partition entry array CRC32 checksum ({} != {})",
            sum, computed
        )
    );
    // the table is looked for with large sectors, and there is none
    assert!(matches!(
        GPT::find_from(&disk),
        Err(Error::InvalidSignature)
    ));
}

#[test]
fn entries_that_are_not_there() {
    let mut disk = written();
    disk.truncate(1024 + 128 * 10);
    assert!(matches!(
        GPT::read_from(&disk, 512),
        Err(Error::Deserialize(_))
    ));
}

#[test]
fn neither_header() {
    let mut disk = written();
    disk[512] = 0;
    disk[99 * 512 + 8] = 9;
    let err = GPT::read_from(&disk, 512).unwrap_err();
    match &err {
        Error::ReadError(primary, backup) => {
            assert!(matches!(**primary, Error::InvalidSignature));
            assert!(matches!(**backup, Error::InvalidRevision));
        }
        _ => panic!("another error"),
    }
    let expected =
        "could not read primary header (invalid signature) nor backup header (invalid revision)";
    assert_eq!(err.to_string(), expected);
    assert_eq!(
        read_error_text("invalid signature", "invalid revision"),
        expected
    );
    assert!(matches!(
        GPT::find_from(&disk),
        Err(Error::InvalidSignature)
    ));
}

#[test]
fn no_signature_at_all() {
    assert!(matches!(
        GPT::read_from(&[0; 51200], 512),
        Err(Error::InvalidSignature)
    ));
}

#[test]
fn no_space_left() {
    let mut gpt = GPT::read_from(&written(), 512).unwrap();
    gpt.align = 10000;
    let err = gpt.get_maximum_partition_size().unwrap_err();
    assert!(matches!(err, Error::NoSpaceLeft));
    assert_eq!(err.to_string(), "no space left");
}

#[test]
fn conflict_of_partition_guids() {
    let mut gpt = GPT::read_from(&written(), 512).unwrap();
    gpt[5] = gpt[1].clone();
    let header = gpt.header.to_bytes();
    let mut disk = vec![7; 51200];
    let err = gpt.write_into(&mut disk).unwrap_err();
    assert!(matches!(err, Error::ConflictPartitionGUID));
    assert_eq!(err.to_string(), "conflict of partition GUIDs");
    assert_eq!(disk, vec![7; 51200]);
    assert_eq!(gpt.header.to_bytes(), header);
    assert!(gpt.plan_write(51200).is_err());
    assert!(gpt.check_partition_guids().is_err());
    // entries that are not used do not count
    gpt[5].partition_type_guid = [0; 16];
    assert!(gpt.check_partition_guids().is_ok());
    assert!(gpt.write_into(&mut disk).is_ok());
}

#[test]
fn invalid_partition_boundaries() {
    let mut entry = GPTPartitionEntry::empty();
    entry.starting_lba = 10;
    entry.ending_lba = 10;
    assert_eq!(entry.size().unwrap(), 1);
    entry.ending_lba = 19;
    assert_eq!(entry.size().unwrap(), 10);
    entry.ending_lba = 9;
    let err = entry.size().unwrap_err();
    assert!(matches!(err, Error::InvalidPartitionBoundaries));
    assert_eq!(
        err.to_string(),
        "invalid partition boundaries: the ending must start at or after the starting"
    );
}

#[test]
fn invalid_partition_number() {
    let mut gpt = GPT::read_from(&written(), 512).unwrap();
    for i in [0, 129, u32::MAX] {
        let err = gpt.remove(i).unwrap_err();
        assert!(matches!(err, Error::InvalidPartitionNumber(_)));
        assert_eq!(err.to_string(), format!("invalid partition number: {}", i));
    }
    assert!(gpt[1].is_used());
    assert!(gpt.remove(1).is_ok());
    assert!(gpt[1].is_unused());
    assert_eq!(gpt[1].to_bytes(), GPTPartitionEntry::empty().to_bytes());
    assert!(gpt.remove(128).is_ok());
}

#[test]
fn outside_errors() {
    let err = Error::from(std::io::Error::new(std::io::ErrorKind::Other, "gone"));
    assert!(matches!(err, Error::Io(_)));
    assert_eq!(err.to_string(), "gone");
    let outside = bincode::deserialize::<u64>(&[0; 7]).unwrap_err();
    let text = format!("{}", outside);
    let err = Error::from(outside);
    assert!(matches!(err, Error::Deserialize(_)));
    assert_eq!(err.to_string(), text);
}

#[test]
fn errors_keep_their_place() {
    let failure = |kind| Answer::Failed(bincode::Error::from(std::io::Error::from(kind)));
    let kind = |err: &Error| match err {
        Error::Deserialize(err) => match &**err {
            bincode::ErrorKind::Io(err) => err.kind(),
            _ => panic!("another kind"),
        },
        _ => panic!("another error"),
    };
    let reader = GPTReader::read(512)
        .advance(failure(std::io::ErrorKind::TimedOut))
        .unwrap();
    let reader = reader.advance(Answer::Length(51200)).unwrap();
    let reader = reader
        .advance(failure(std::io::ErrorKind::NotFound))
        .unwrap();
    match reader.into_result() {
        Some(Err(Error::ReadError(primary, backup))) => {
            assert_eq!(kind(&primary), std::io::ErrorKind::TimedOut);
            assert_eq!(kind(&backup), std::io::ErrorKind::NotFound);
        }
        _ => panic!("another result"),
    }
}

#[test]
fn failed_seeks() {
    let failure = || Answer::Unreachable(std::io::Error::from(std::io::ErrorKind::TimedOut));
    let reader = GPTReader::read(512).advance(failure()).unwrap();
    match reader.into_result() {
        Some(Err(Error::Io(err))) => assert_eq!(err.kind(), std::io::ErrorKind::TimedOut),
        _ => panic!("another result"),
    }
    let reader = GPTReader::read(512)
        .advance(Answer::Bytes(Vec::new()))
        .unwrap();
    let reader = reader.advance(failure()).unwrap();
    assert!(matches!(reader.into_result(), Some(Err(Error::Io(_)))));
    // any failure leads to a try with large sectors
    let reader = GPTReader::find().advance(failure()).unwrap();
    assert!(matches!(
        reader.request(),
        gptman::Request::Read {
            offset: 4096,
            len: 92
        }
    ));
}

#[test]
fn failed_reads() {
    let failure = || Answer::Failed(bincode::deserialize::<u64>(&[]).unwrap_err());
    let reader = GPTReader::read(512).advance(failure()).unwrap();
    let reader = reader.advance(Answer::Length(51200)).unwrap();
    let reader = reader.advance(failure()).unwrap();
    match reader.into_result() {
        Some(Err(Error::ReadError(primary, backup))) => {
            assert!(matches!(*primary, Error::Deserialize(_)));
            assert!(matches!(*backup, Error::Deserialize(_)));
        }
        _ => panic!("another result"),
    }
    let disk = written();
    let reader = GPTReader::read(512)
        .advance(Answer::Bytes(disk[512..604].to_vec()))
        .unwrap();
    let reader = reader.advance(failure()).unwrap();
    assert!(matches!(
        reader.into_result(),
        Some(Err(Error::Deserialize(_)))
    ));
}
