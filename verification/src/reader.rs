//! Reading a partition table: which bytes of the disk are asked for, and what is made of them.

use vstd::prelude::*;
use crate::bytes;
use crate::bytes::{append_bytes, tail};
use crate::checksum;
use crate::error::{Error, ErrorModel};
use crate::header;
use crate::header::{GPTHeader, HeaderModel};
use crate::medium;
use crate::partition;
use crate::partition::{EntryModel, GPTPartitionEntry};
use crate::table;
use crate::table::{TableModel, GPT};

verus! {

/// The result of reading a table, as it is told by models. There is none where a position is too
/// large for the arithmetic, where the disk has no sector to look for a backup header in, where
/// the header does not say of its entries what they are, or where the entries tell no alignment.
pub type Outcome = Option<Result<TableModel, ErrorModel>>;

/// What is wrong where neither header could be read.
pub open spec fn both_failed(primary: ErrorModel, backup: ErrorModel) -> ErrorModel {
    if primary == ErrorModel::InvalidSignature && backup == ErrorModel::InvalidSignature {
        ErrorModel::InvalidSignature
    } else {
        ErrorModel::ReadError(Box::new(primary), Box::new(backup))
    }
}

/// The entry that is read where some bytes are, or what is wrong with them.
pub open spec fn parse_entry(s: Seq<u8>) -> Result<EntryModel, ErrorModel> {
    if s.len() < partition::ENTRY_SIZE {
        Err(ErrorModel::Deserialize)
    } else {
        Ok(partition::decode_entry(s))
    }
}

/// What a header, all its entries and the bytes of these make up: a table, unless the bytes have
/// another checksum than the header says.
pub open spec fn assembled(
    h: HeaderModel,
    sector_size: u64,
    entries: Seq<EntryModel>,
    raw: Seq<u8>,
) -> Option<Result<TableModel, Error>> {
    let sum = checksum::crc32_ieee(raw);
    if !header::matches_array_size(h, entries.len()) {
        None
    } else if h.partition_entry_array_crc32 != sum {
        Some(Err(Error::InvalidPartitionEntryArrayChecksum(h.partition_entry_array_crc32, sum)))
    } else if !table::has_alignment(h.first_usable_lba, entries) {
        None
    } else {
        Some(
            Ok(
                TableModel {
                    sector_size,
                    header: h,
                    partitions: entries,
                    align: table::alignment(h.first_usable_lba, entries),
                },
            ),
        )
    }
}

/// What a result is told by, where the error is one of the library.
pub open spec fn told(r: Option<Result<TableModel, Error>>) -> Outcome {
    match r {
        Some(Ok(t)) => Some(Ok(t)),
        Some(Err(e)) => Some(Err(e@)),
        None => None,
    }
}

/// What is read once a header and its first entries were: the other entries, one after the other,
/// and then what they make up. The bytes of the entries are kept as they are.
pub open spec fn rest_outcome(
    disk: Seq<u8>,
    h: HeaderModel,
    sector_size: u64,
    entries: Seq<EntryModel>,
    raw: Seq<u8>,
) -> Outcome
    decreases h.number_of_partition_entries - entries.len(),
{
    let offset = header::entry_offset(h, sector_size, entries.len() as int);
    if entries.len() >= h.number_of_partition_entries {
        told(assembled(h, sector_size, entries, raw))
    } else if offset > u64::MAX {
        None
    } else {
        match parse_entry(bytes::tail_at(disk, offset)) {
            Ok(e) => rest_outcome(
                disk,
                h,
                sector_size,
                entries.push(e),
                raw + window(disk, offset, partition::ENTRY_SIZE as int),
            ),
            Err(e) => Some(Err(e)),
        }
    }
}

/// What is read from the backup header on, given where it is and what was wrong with the primary
/// one.
pub open spec fn backup_outcome(
    disk: Seq<u8>,
    sector_size: u64,
    primary: ErrorModel,
    offset: int,
) -> Outcome {
    match header::parse_header(bytes::tail_at(disk, offset)) {
        Ok(h) => rest_outcome(disk, h, sector_size, Seq::empty(), Seq::empty()),
        Err(backup) => Some(Err(both_failed(primary, backup))),
    }
}

/// Whether a disk of `len` bytes has a sector to look for the backup header in.
pub open spec fn has_backup_sector(len: int, sector_size: u64) -> bool {
    0 < sector_size <= len
}

/// Where the backup header is on a disk of `len` bytes: in its last sector.
pub open spec fn backup_offset(len: int, sector_size: u64) -> int {
    (len / sector_size as int - 1) * sector_size
}

/// What is read where the primary header could not be.
pub open spec fn fallback_outcome(
    disk: Seq<u8>,
    sector_size: u64,
    primary: ErrorModel,
) -> Outcome {
    if has_backup_sector(disk.len() as int, sector_size) {
        backup_outcome(disk, sector_size, primary, backup_offset(disk.len() as int, sector_size))
    } else {
        None
    }
}

/// What reading the table of a disk gives: that of the primary header, in the second sector, or,
/// if that could not be read, that of the backup header, in the last one.
pub open spec fn read_outcome(disk: Seq<u8>, sector_size: u64) -> Outcome {
    match header::parse_header(bytes::tail_at(disk, sector_size as int)) {
        Ok(h) => rest_outcome(disk, h, sector_size, Seq::empty(), Seq::empty()),
        Err(primary) => fallback_outcome(disk, sector_size, primary),
    }
}

/// What an outcome becomes if there is another sector size to try after a failure.
pub open spec fn retried(disk: Seq<u8>, retry: Option<u64>, outcome: Outcome) -> Outcome {
    match (retry, outcome) {
        (Some(sector_size), Some(Err(_))) => read_outcome(disk, sector_size),
        _ => outcome,
    }
}

/// What finding the table of a disk gives: reading it with sectors of 512 bytes, or, if that
/// fails, with sectors of 4096 bytes.
pub open spec fn find_outcome(disk: Seq<u8>) -> Outcome {
    match read_outcome(disk, 512) {
        Some(Err(_)) => read_outcome(disk, 4096),
        outcome => outcome,
    }
}

/// What a result is told by.
pub open spec fn result_model(r: Result<GPT, Error>) -> Result<TableModel, ErrorModel> {
    match r {
        Ok(t) => Ok(t@),
        Err(e) => Err(e@),
    }
}

/// What a [`GPTReader`] waits for.
pub enum StageModel {
    /// The bytes of the primary header.
    Primary,
    /// The length of the disk.
    Length { primary: Error },
    /// The bytes of the backup header.
    Backup { primary: Error, offset: u64 },
    /// The bytes of the next entry. Those of the entries before are `raw`.
    Entries { header: HeaderModel, partitions: Seq<EntryModel>, raw: Seq<u8>, offset: u64 },
    /// Nothing.
    Finished(Result<TableModel, Error>),
}

/// How far a [`GPTReader`] has come.
pub struct ReaderModel {
    pub sector_size: u64,
    pub retry: Option<u64>,
    pub stage: StageModel,
}

/// The error that is told where neither header could be read.
pub open spec fn neither(primary: Error, backup: Error) -> Error {
    if primary == Error::InvalidSignature && backup == Error::InvalidSignature {
        Error::InvalidSignature
    } else {
        Error::ReadError(Box::new(primary), Box::new(backup))
    }
}

/// A reader that has to start over or to stop after an error.
pub open spec fn after_error(m: ReaderModel, e: Error) -> ReaderModel {
    match m.retry {
        Some(sector_size) => ReaderModel { sector_size, retry: None, stage: StageModel::Primary },
        None => ReaderModel { stage: StageModel::Finished(Err(e)), ..m },
    }
}

/// A reader that could not read what it waited for: with the primary header it goes on to the
/// backup header, with anything else there is an error.
pub open spec fn after_read_error(m: ReaderModel, e: Error) -> ReaderModel {
    match m.stage {
        StageModel::Primary => ReaderModel { stage: StageModel::Length { primary: e }, ..m },
        StageModel::Backup { primary, .. } => after_error(m, neither(primary, e)),
        _ => after_error(m, e),
    }
}

/// A reader that has a header, some entries of it and the bytes of these.
pub open spec fn after_entries(
    m: ReaderModel,
    h: HeaderModel,
    entries: Seq<EntryModel>,
    raw: Seq<u8>,
) -> Option<ReaderModel> {
    let offset = header::entry_offset(h, m.sector_size, entries.len() as int);
    if entries.len() < h.number_of_partition_entries {
        if offset > u64::MAX {
            None
        } else {
            Some(
                ReaderModel {
                    stage: StageModel::Entries {
                        header: h,
                        partitions: entries,
                        raw,
                        offset: offset as u64,
                    },
                    ..m
                },
            )
        }
    } else {
        match assembled(h, m.sector_size, entries, raw) {
            None => None,
            Some(Err(e)) => Some(after_error(m, e)),
            Some(Ok(t)) => Some(ReaderModel { stage: StageModel::Finished(Ok(t)), ..m }),
        }
    }
}

/// A reader that has the length of the disk.
pub open spec fn after_length(m: ReaderModel, len: u64) -> Option<ReaderModel> {
    match m.stage {
        StageModel::Length { primary } if has_backup_sector(len as int, m.sector_size) => Some(
            ReaderModel {
                stage: StageModel::Backup {
                    primary,
                    offset: backup_offset(len as int, m.sector_size) as u64,
                },
                ..m
            },
        ),
        _ => None,
    }
}

/// Whether a reader waits for an answer of the given kind.
pub open spec fn awaits(m: ReaderModel, a: Answer) -> bool {
    match m.stage {
        StageModel::Length { .. } => a is Length || a is Unreachable,
        StageModel::Finished(_) => false,
        _ => a !is Length,
    }
}

/// Whether `next` is what becomes of a reader with the answer that it waited for: nothing where
/// the answer leads to no result at all. An error that comes with the answer is passed on as it
/// is. Of one that the bytes give, it is told which one.
pub open spec fn is_next(m: ReaderModel, a: Answer, next: Option<ReaderModel>) -> bool {
    match a {
        Answer::Unreachable(e) => next == Some(after_error(m, Error::Io(e))),
        Answer::Failed(e) => next == Some(after_read_error(m, Error::Deserialize(e))),
        Answer::Length(len) => next == after_length(m, len),
        Answer::Bytes(b) => match m.stage {
            StageModel::Entries { header, partitions, raw, offset } => match parse_entry(b@) {
                Ok(e) => next == after_entries(
                    m,
                    header,
                    partitions.push(e),
                    raw + b@.take(partition::ENTRY_SIZE as int),
                ),
                Err(told) => is_told(m, told, next),
            },
            _ => match header::parse_header(b@) {
                Ok(h) => next == after_entries(m, h, Seq::empty(), Seq::empty()),
                Err(told) => is_told(m, told, next),
            },
        },
    }
}

/// Whether `next` is what becomes of a reader with bytes that give an error.
pub open spec fn is_told(m: ReaderModel, told: ErrorModel, next: Option<ReaderModel>) -> bool {
    exists|e: Error| e@ == told && next == Some(#[trigger] after_read_error(m, e))
}

/// What a reader waits for.
pub(crate) enum Stage {
    Primary,
    Length { primary: Error },
    Backup { primary: Error, offset: u64 },
    Entries {
        header: GPTHeader,
        partitions: Vec<GPTPartitionEntry>,
        digest: crc::crc32::Digest,
        offset: u64,
    },
    Finished(Result<GPT, Error>),
}

impl Stage {
    pub(crate) open(crate) spec fn model(self) -> StageModel {
        match self {
            Stage::Primary => StageModel::Primary,
            Stage::Length { primary } => StageModel::Length { primary },
            Stage::Backup { primary, offset } => StageModel::Backup { primary, offset },
            Stage::Entries { header, partitions, digest, offset } => StageModel::Entries {
                header: header@,
                partitions: partition::entry_models(partitions@),
                raw: checksum::digested(digest),
                offset,
            },
            Stage::Finished(Ok(t)) => StageModel::Finished(Ok(t@)),
            Stage::Finished(Err(e)) => StageModel::Finished(Err(e)),
        }
    }
}

/// Reads a partition table, given the parts of the disk that it asks for.
pub struct GPTReader {
    pub(crate) sector_size: u64,
    pub(crate) retry: Option<u64>,
    pub(crate) stage: Stage,
}

impl View for GPTReader {
    type V = ReaderModel;

    open(crate) spec fn view(&self) -> ReaderModel {
        ReaderModel {
            sector_size: self.sector_size,
            retry: self.retry,
            stage: self.stage.model(),
        }
    }
}

/// How far a reader has come, if there is one.
pub open spec fn next_model(r: Option<GPTReader>) -> Option<ReaderModel> {
    match r {
        Some(next) => Some(next@),
        None => None,
    }
}

/// What a [`GPTReader`] asks for.
#[derive(Debug, Clone, Copy)]
pub enum Request {
    /// `len` bytes of the disk, from position `offset` on, or as many as there are.
    Read { offset: u64, len: usize },
    /// The length of the disk in bytes.
    Length,
    /// Nothing: it has a result.
    Nothing,
}

/// What a [`GPTReader`] is given for its request.
#[derive(Debug)]
pub enum Answer {
    /// The bytes, fewer than those asked for if the disk ends before.
    Bytes(Vec<u8>),
    /// The bytes could not be read.
    Failed(bincode::Error),
    /// The length of the disk in bytes.
    Length(u64),
    /// The position, or the end of the disk, could not be sought.
    Unreachable(std::io::Error),
}

/// What a reader asks for.
pub open spec fn requested(m: ReaderModel) -> Request {
    match m.stage {
        StageModel::Primary => Request::Read { offset: m.sector_size, len: header::HEADER_SIZE },
        StageModel::Length { .. } => Request::Length,
        StageModel::Backup { offset, .. } => Request::Read { offset, len: header::HEADER_SIZE },
        StageModel::Entries { offset, .. } => Request::Read { offset, len: partition::ENTRY_SIZE },
        StageModel::Finished(_) => Request::Nothing,
    }
}

impl GPTReader {
    /// A reader of the table of a disk with the given sector size. It will try to read the backup
    /// header if the primary header could not be read.
    pub fn read(sector_size: u64) -> (r: GPTReader)
        ensures
            r@ == (ReaderModel { sector_size, retry: None, stage: StageModel::Primary }),
    {
        GPTReader { sector_size, retry: None, stage: Stage::Primary }
    }

    /// A reader of the table of a disk. It will try a sector size of 512 but if it fails it will
    /// automatically try a sector size of 4096.
    pub fn find() -> (r: GPTReader)
        ensures
            r@ == (ReaderModel { sector_size: 512, retry: Some(4096), stage: StageModel::Primary }),
    {
        GPTReader { sector_size: 512, retry: Some(4096), stage: Stage::Primary }
    }

    /// What the reader asks for.
    pub fn request(&self) -> (r: Request)
        ensures
            r == requested(self@),
    {
        match &self.stage {
            Stage::Primary => Request::Read { offset: self.sector_size, len: header::HEADER_SIZE },
            Stage::Length { .. } => Request::Length,
            Stage::Backup { offset, .. } => Request::Read {
                offset: *offset,
                len: header::HEADER_SIZE,
            },
            Stage::Entries { offset, .. } => Request::Read {
                offset: *offset,
                len: partition::ENTRY_SIZE,
            },
            Stage::Finished(_) => Request::Nothing,
        }
    }

    /// The result of the reader, if it has one.
    pub fn into_result(self) -> (r: Option<Result<GPT, Error>>)
        ensures
            match r {
                Some(Ok(t)) => self@.stage == StageModel::Finished(Ok(t@)),
                Some(Err(e)) => self@.stage == StageModel::Finished(Err(e)),
                None => self@.stage !is Finished,
            },
    {
        match self.stage {
            Stage::Finished(result) => Some(result),
            _ => None,
        }
    }

    /// The reader after an error.
    fn fail(sector_size: u64, retry: Option<u64>, e: Error) -> (r: GPTReader)
        ensures
            forall|stage: StageModel|
                r@ == #[trigger] after_error(ReaderModel { sector_size, retry, stage }, e),
    {
        match retry {
            Some(other) => GPTReader { sector_size: other, retry: None, stage: Stage::Primary },
            None => GPTReader { sector_size, retry, stage: Stage::Finished(Err(e)) },
        }
    }

    /// The reader after it has got a header, some entries of it and the bytes of these.
    fn collect(
        sector_size: u64,
        retry: Option<u64>,
        header: GPTHeader,
        partitions: Vec<GPTPartitionEntry>,
        digest: crc::crc32::Digest,
    ) -> (r: Option<GPTReader>)
        ensures
            forall|stage: StageModel|
                next_model(r) == #[trigger] after_entries(
                    ReaderModel { sector_size, retry, stage },
                    header@,
                    partition::entry_models(partitions@),
                    checksum::digested(digest),
                ),
    {
        let count: usize = partitions.len();
        if (count as u64) < (header.number_of_partition_entries as u64) {
            let offset: u64 = match header.entry_position(sector_size, count as u32) {
                Some(offset) => offset,
                None => return None,
            };
            return Some(
                GPTReader {
                    sector_size,
                    retry,
                    stage: Stage::Entries { header, partitions, digest, offset },
                },
            );
        }
        if !header.has_array_size(count) {
            return None;
        }
        let sum: u32 = checksum::digest_sum32(&digest);
        if header.partition_entry_array_crc32 != sum {
            let stored: u32 = header.partition_entry_array_crc32;
            return Some(
                GPTReader::fail(
                    sector_size,
                    retry,
                    Error::InvalidPartitionEntryArrayChecksum(stored, sum),
                ),
            );
        }
        if !table::tells_alignment(&header, partitions.as_slice()) {
            return None;
        }
        let align: u64 = GPT::find_alignment(&header, partitions.as_slice());
        let table = GPT { sector_size, header, partitions, align };
        Some(GPTReader { sector_size, retry, stage: Stage::Finished(Ok(table)) })
    }

    /// The reader after it could not read what it waited for.
    fn miss(self, e: Error) -> (r: GPTReader)
        ensures
            r@ == after_read_error(self@, e),
    {
        let sector_size: u64 = self.sector_size;
        let retry = self.retry;
        match self.stage {
            Stage::Primary => GPTReader { sector_size, retry, stage: Stage::Length { primary: e } },
            Stage::Backup { primary, .. } => GPTReader::fail(
                sector_size,
                retry,
                neither_header(primary, e),
            ),
            _ => GPTReader::fail(sector_size, retry, e),
        }
    }

    /// The reader after it was given bytes.
    fn take_bytes(self, bytes: Vec<u8>) -> (r: Option<GPTReader>)
        ensures
            is_next(self@, Answer::Bytes(bytes), next_model(r)),
    {
        let ghost m = self@;
        let sector_size: u64 = self.sector_size;
        let retry = self.retry;
        match self.stage {
            Stage::Entries { header, partitions, digest, offset } => {
                match GPTPartitionEntry::read_from(bytes.as_slice()) {
                    Ok(e) => {
                        let ghost before = partition::entry_models(partitions@);
                        let mut partitions = partitions;
                        let mut digest = digest;
                        let own = vstd::slice::slice_subrange(
                            bytes.as_slice(),
                            0,
                            partition::ENTRY_SIZE,
                        );
                        checksum::digest_write(&mut digest, own);
                        partitions.push(e);
                        assert(partition::entry_models(partitions@) =~= before.push(e@));
                        GPTReader::collect(sector_size, retry, header, partitions, digest)
                    },
                    Err(e) => {
                        let failure = Error::from(e);
                        let ghost f = failure;
                        let next = GPTReader::fail(sector_size, retry, failure);
                        assert(next@ == after_read_error(m, f));
                        Some(next)
                    },
                }
            },
            stage => match GPTHeader::read_from(bytes.as_slice()) {
                Ok(header) => {
                    let none: Vec<GPTPartitionEntry> = Vec::new();
                    assert(partition::entry_models(none@) =~= Seq::empty());
                    GPTReader::collect(sector_size, retry, header, none, checksum::digest_new())
                },
                Err(e) => {
                    let ghost f = e;
                    let reader = GPTReader { sector_size, retry, stage };
                    let next = reader.miss(e);
                    assert(next@ == after_read_error(m, f));
                    Some(next)
                },
            },
        }
    }

    /// The reader after it was given the length of the disk.
    fn take_length(self, len: u64) -> (r: Option<GPTReader>)
        ensures
            next_model(r) == after_length(self@, len),
    {
        let sector_size: u64 = self.sector_size;
        let retry = self.retry;
        match self.stage {
            Stage::Length { primary } => {
                if sector_size == 0 || len < sector_size {
                    return None;
                }
                proof {
                    lemma_backup_offset(len as int, sector_size);
                }
                let offset: u64 = (len / sector_size - 1) * sector_size;
                Some(GPTReader { sector_size, retry, stage: Stage::Backup { primary, offset } })
            },
            _ => None,
        }
    }

    /// The reader after it was given what it asked for. There is none where the answer leads to
    /// no result at all.
    pub fn advance(self, answer: Answer) -> (r: Option<GPTReader>)
        requires
            awaits(self@, answer),
        ensures
            is_next(self@, answer, next_model(r)),
    {
        match answer {
            Answer::Bytes(bytes) => self.take_bytes(bytes),
            Answer::Failed(e) => Some(self.miss(Error::from(e))),
            Answer::Length(len) => self.take_length(len),
            Answer::Unreachable(e) => Some(
                GPTReader::fail(self.sector_size, self.retry, Error::from(e)),
            ),
        }
    }
}

/// The error that is told where neither header could be read.
fn neither_header(primary: Error, backup: Error) -> (r: Error)
    ensures
        r == neither(primary, backup),
{
    match (primary, backup) {
        (Error::InvalidSignature, Error::InvalidSignature) => Error::InvalidSignature,
        (x, y) => Error::ReadError(Box::new(x), Box::new(y)),
    }
}

/// What a disk holds from a position on: `len` bytes, or as many as there are.
pub open spec fn window(disk: Seq<u8>, offset: int, len: int) -> Seq<u8> {
    let s = bytes::tail_at(disk, offset);
    if s.len() < len {
        s
    } else {
        s.take(len)
    }
}

/// Whether an answer is what a disk answers to the request of a reader.
pub open spec fn is_answer_from(disk: Seq<u8>, m: ReaderModel, a: Answer) -> bool {
    match requested(m) {
        Request::Read { offset, len } => a matches Answer::Bytes(b) && b@ == window(
            disk,
            offset as int,
            len as int,
        ),
        Request::Length => a == Answer::Length(disk.len() as u64),
        Request::Nothing => false,
    }
}

/// Whether a reader that waits for an entry waits for the right one.
pub open spec fn is_on_track(m: ReaderModel) -> bool {
    m.stage matches StageModel::Entries { header, partitions, raw, offset } ==> {
        &&& partitions.len() < header.number_of_partition_entries
        &&& offset == header::entry_offset(header, m.sector_size, partitions.len() as int)
    }
}

/// What a reader will end with, if it is answered from a disk.
pub open spec fn reader_outcome(m: ReaderModel, disk: Seq<u8>) -> Outcome {
    match m.stage {
        StageModel::Primary => retried(disk, m.retry, read_outcome(disk, m.sector_size)),
        StageModel::Length { primary } => retried(
            disk,
            m.retry,
            fallback_outcome(disk, m.sector_size, primary@),
        ),
        StageModel::Backup { primary, offset } => retried(
            disk,
            m.retry,
            backup_outcome(disk, m.sector_size, primary@, offset as int),
        ),
        StageModel::Entries { header, partitions, raw, offset } => retried(
            disk,
            m.retry,
            rest_outcome(disk, header, m.sector_size, partitions, raw),
        ),
        StageModel::Finished(r) => told(Some(r)),
    }
}

/// How many sector sizes a reader has left to try.
pub open spec fn tries_left(m: ReaderModel) -> int {
    if m.retry is Some {
        1
    } else {
        0
    }
}

/// How many kinds of requests a reader has left.
pub open spec fn stages_left(m: ReaderModel) -> int {
    match m.stage {
        StageModel::Primary => 4,
        StageModel::Length { .. } => 3,
        StageModel::Backup { .. } => 2,
        StageModel::Entries { .. } => 1,
        StageModel::Finished(_) => 0,
    }
}

/// How many entries a reader has left to ask for.
pub open spec fn entries_left(m: ReaderModel) -> int {
    match m.stage {
        StageModel::Entries { header, partitions, .. } => header.number_of_partition_entries
            - partitions.len(),
        _ => 0,
    }
}

/// Whether a reader has less left to do than another one.
pub open spec fn is_further(next: ReaderModel, m: ReaderModel) -> bool {
    ||| tries_left(next) < tries_left(m)
    ||| tries_left(next) == tries_left(m) && stages_left(next) < stages_left(m)
    ||| tries_left(next) == tries_left(m) && stages_left(next) == stages_left(m) && entries_left(
        next,
    ) < entries_left(m)
}

pub proof fn lemma_window_header(disk: Seq<u8>, offset: int)
    requires
        offset >= 0,
    ensures
        header::parse_header(window(disk, offset, header::HEADER_SIZE as int))
            == header::parse_header(bytes::tail_at(disk, offset)),
{
    let s = bytes::tail_at(disk, offset);
    if s.len() >= header::HEADER_SIZE {
        let w = s.take(header::HEADER_SIZE as int);
        assert(w.subrange(0, 8) =~= s.subrange(0, 8));
        assert(w.subrange(8, 12) =~= s.subrange(8, 12));
        assert(w.subrange(12, 16) =~= s.subrange(12, 16));
        assert(w.subrange(16, 20) =~= s.subrange(16, 20));
        assert(w.subrange(20, 24) =~= s.subrange(20, 24));
        assert(w.subrange(24, 32) =~= s.subrange(24, 32));
        assert(w.subrange(32, 40) =~= s.subrange(32, 40));
        assert(w.subrange(40, 48) =~= s.subrange(40, 48));
        assert(w.subrange(48, 56) =~= s.subrange(48, 56));
        assert(w.subrange(56, 72) =~= s.subrange(56, 72));
        assert(w.subrange(72, 80) =~= s.subrange(72, 80));
        assert(w.subrange(80, 84) =~= s.subrange(80, 84));
        assert(w.subrange(84, 88) =~= s.subrange(84, 88));
        assert(w.subrange(88, 92) =~= s.subrange(88, 92));
        assert(header::decode_header(w) == header::decode_header(s));
    }
}

pub proof fn lemma_window_entry(disk: Seq<u8>, offset: int)
    requires
        offset >= 0,
    ensures
        parse_entry(window(disk, offset, partition::ENTRY_SIZE as int)) == parse_entry(
            bytes::tail_at(disk, offset),
        ),
{
    let s = bytes::tail_at(disk, offset);
    if s.len() >= partition::ENTRY_SIZE {
        let w = s.take(partition::ENTRY_SIZE as int);
        assert(w.subrange(0, 16) =~= s.subrange(0, 16));
        assert(w.subrange(16, 32) =~= s.subrange(16, 32));
        assert(w.subrange(32, 40) =~= s.subrange(32, 40));
        assert(w.subrange(40, 48) =~= s.subrange(40, 48));
        assert(w.subrange(48, 56) =~= s.subrange(48, 56));
        assert(w.subrange(56, 128) =~= s.subrange(56, 128));
        assert(partition::decode_entry(w) == partition::decode_entry(s));
    }
}

proof fn lemma_neither(primary: Error, backup: Error)
    ensures
        neither(primary, backup)@ == both_failed(primary@, backup@),
{
}

proof fn lemma_after_error(m: ReaderModel, disk: Seq<u8>, e: Error)
    ensures
        is_on_track(after_error(m, e)),
        reader_outcome(after_error(m, e), disk) == retried(disk, m.retry, Some(Err(e@))),
        m.stage !is Finished ==> is_further(after_error(m, e), m),
{
}

proof fn lemma_after_entries(
    m: ReaderModel,
    disk: Seq<u8>,
    h: HeaderModel,
    entries: Seq<EntryModel>,
    raw: Seq<u8>,
)
    requires
        m.stage is Primary || m.stage is Backup || (m.stage is Entries && entries_left(m)
            > h.number_of_partition_entries - entries.len()),
    ensures
        match after_entries(m, h, entries, raw) {
            Some(next) => {
                &&& is_on_track(next)
                &&& reader_outcome(next, disk) == retried(
                    disk,
                    m.retry,
                    rest_outcome(disk, h, m.sector_size, entries, raw),
                )
                &&& is_further(next, m)
            },
            None => rest_outcome(disk, h, m.sector_size, entries, raw) is None,
        },
{
    if entries.len() >= h.number_of_partition_entries {
        if let Some(Err(e)) = assembled(h, m.sector_size, entries, raw) {
            lemma_after_error(m, disk, e);
        }
    } else {
        header::lemma_entry_offset_bound(
            h,
            m.sector_size,
            entries.len() as int,
            entries.len() as int,
        );
    }
}

/// A reader that is given what it asks for from a disk ends with what reading that disk gives:
/// every answer leaves that as it is and brings the reader closer to the end, or there is no
/// result at all.
pub proof fn law_reader_follows_disk(
    m: ReaderModel,
    disk: Seq<u8>,
    a: Answer,
    next: Option<ReaderModel>,
)
    requires
        is_on_track(m),
        m.stage !is Finished,
        disk.len() <= u64::MAX,
        is_answer_from(disk, m, a),
        is_next(m, a, next),
    ensures
        awaits(m, a),
        match next {
            Some(n) => {
                &&& is_on_track(n)
                &&& reader_outcome(n, disk) == reader_outcome(m, disk)
                &&& is_further(n, m)
            },
            None => reader_outcome(m, disk) is None,
        },
{
    match m.stage {
        StageModel::Primary => {
            let s = bytes::tail_at(disk, m.sector_size as int);
            lemma_window_header(disk, m.sector_size as int);
            if let Ok(h) = header::parse_header(s) {
                lemma_after_entries(m, disk, h, Seq::empty(), Seq::empty());
            }
        },
        StageModel::Length { primary } => {
            if has_backup_sector(disk.len() as int, m.sector_size) {
                lemma_backup_offset(disk.len() as int, m.sector_size);
            }
        },
        StageModel::Backup { primary, offset } => {
            lemma_window_header(disk, offset as int);
            match header::parse_header(bytes::tail_at(disk, offset as int)) {
                Ok(h) => lemma_after_entries(m, disk, h, Seq::empty(), Seq::empty()),
                Err(backup) => {
                    let e = choose|e: Error|
                        e@ == backup && next == Some(#[trigger] after_read_error(m, e));
                    lemma_neither(primary, e);
                    lemma_after_error(m, disk, neither(primary, e));
                },
            }
        },
        StageModel::Entries { header, partitions, raw, offset } => {
            let w = window(disk, offset as int, partition::ENTRY_SIZE as int);
            lemma_window_entry(disk, offset as int);
            match parse_entry(bytes::tail_at(disk, offset as int)) {
                Ok(e) => {
                    assert(w.take(partition::ENTRY_SIZE as int) =~= w);
                    lemma_after_entries(m, disk, header, partitions.push(e), raw + w);
                },
                Err(failure) => {
                    let e = choose|e: Error|
                        e@ == failure && next == Some(#[trigger] after_read_error(m, e));
                    lemma_after_error(m, disk, e);
                },
            }
        },
        StageModel::Finished(_) => {},
    }
}

/// The bytes of the first `n` entries of a header, as they are on a disk.
pub open spec fn raw_entries(disk: Seq<u8>, h: HeaderModel, sector_size: u64, n: nat) -> Seq<u8>
    decreases n,
{
    if n == 0 {
        Seq::empty()
    } else {
        raw_entries(disk, h, sector_size, (n - 1) as nat) + window(
            disk,
            header::entry_offset(h, sector_size, n - 1),
            partition::ENTRY_SIZE as int,
        )
    }
}

/// Whether a table is one that reading a disk can give.
pub open spec fn is_readable(t: TableModel) -> bool {
    &&& header::has_arrays(t.header)
    &&& t.header.signature == header::gpt_signature()
    &&& t.header.revision == header::gpt_revision()
    &&& t.header.header_size == header::HEADER_SIZE
    &&& t.header.crc32_checksum == header::header_checksum(t.header)
    &&& t.partitions.len() == t.header.number_of_partition_entries
    &&& header::matches_array_size(t.header, t.partitions.len())
    &&& table::has_alignment(t.header.first_usable_lba, t.partitions)
    &&& t.align == table::alignment(t.header.first_usable_lba, t.partitions)
    &&& forall|i: int|
        0 <= i < t.partitions.len() ==> partition::has_guids(#[trigger] t.partitions[i])
            && partition::stored_entry(t.partitions[i]) == t.partitions[i]
}

proof fn lemma_rest_is_readable(
    disk: Seq<u8>,
    h: HeaderModel,
    sector_size: u64,
    entries: Seq<EntryModel>,
    t: TableModel,
)
    requires
        rest_outcome(
            disk,
            h,
            sector_size,
            entries,
            raw_entries(disk, h, sector_size, entries.len()),
        ) == Some(Ok::<TableModel, ErrorModel>(t)),
        header::has_arrays(h),
        h.signature == header::gpt_signature(),
        h.revision == header::gpt_revision(),
        h.header_size == header::HEADER_SIZE,
        h.crc32_checksum == header::header_checksum(h),
        entries.len() <= h.number_of_partition_entries,
        forall|i: int|
            0 <= i < entries.len() ==> partition::has_guids(#[trigger] entries[i])
                && partition::stored_entry(entries[i]) == entries[i],
    ensures
        is_readable(t),
        t.header == h,
        t.sector_size == sector_size,
        h.partition_entry_array_crc32 == checksum::crc32_ieee(
            raw_entries(disk, h, sector_size, h.number_of_partition_entries as nat),
        ),
    decreases h.number_of_partition_entries - entries.len(),
{
    if entries.len() < h.number_of_partition_entries {
        let offset = header::entry_offset(h, sector_size, entries.len() as int);
        let tail = bytes::tail_at(disk, offset);
        let e = partition::decode_entry(tail);
        assert(parse_entry(tail) is Ok);
        partition::law_read_entry_is_kept(tail);
        lemma_rest_is_readable(disk, h, sector_size, entries.push(e), t);
    }
}

/// A table that was read has the signature, the revision and the sizes that tables have, carries
/// the checksum that its header should carry and that of its entries as they are on the disk, has
/// as many entries as its header says, with names that are stored as they are, and the alignment
/// that its partitions tell.
pub proof fn law_read_table_is_readable(disk: Seq<u8>, sector_size: u64, t: TableModel)
    requires
        read_outcome(disk, sector_size) == Some(Ok::<TableModel, ErrorModel>(t)),
    ensures
        is_readable(t),
        t.sector_size == sector_size,
        t.header.partition_entry_array_crc32 == checksum::crc32_ieee(
            raw_entries(disk, t.header, sector_size, t.partitions.len()),
        ),
{
    let primary = bytes::tail_at(disk, sector_size as int);
    let s = if header::parse_header(primary) is Ok {
        primary
    } else {
        bytes::tail_at(disk, backup_offset(disk.len() as int, sector_size))
    };
    let h = header::decode_header(s);
    assert(header::parse_header(s) == Ok::<HeaderModel, ErrorModel>(h));
    lemma_rest_is_readable(disk, h, sector_size, Seq::empty(), t);
}

/// The entries of a header that come one right after the other, as they are on a disk.
pub open spec fn entries_on(disk: Seq<u8>, h: HeaderModel, sector_size: u64) -> Seq<EntryModel> {
    Seq::new(
        h.number_of_partition_entries as nat,
        |i: int|
            partition::decode_entry(
                bytes::tail_at(disk, header::entry_offset(h, sector_size, i)),
            ),
    )
}

/// Whether the whole partition array of a header, with entries of 128 bytes, is on a disk.
pub open spec fn has_array(disk: Seq<u8>, h: HeaderModel, sector_size: u64) -> bool {
    &&& h.size_of_partition_entry == partition::ENTRY_SIZE
    &&& h.number_of_partition_entries * partition::ENTRY_SIZE <= u32::MAX
    &&& h.partition_entry_lba * sector_size + h.number_of_partition_entries * partition::ENTRY_SIZE
        <= disk.len()
}

/// The partition array of a header, as it is on a disk.
pub open spec fn array_on(disk: Seq<u8>, h: HeaderModel, sector_size: u64) -> Seq<u8> {
    let start = h.partition_entry_lba * sector_size;
    disk.subrange(start, start + h.number_of_partition_entries * partition::ENTRY_SIZE)
}

proof fn lemma_raw_entries(disk: Seq<u8>, h: HeaderModel, sector_size: u64, n: nat)
    requires
        has_array(disk, h, sector_size),
        n <= h.number_of_partition_entries,
    ensures
        raw_entries(disk, h, sector_size, n) == disk.subrange(
            h.partition_entry_lba * sector_size,
            h.partition_entry_lba * sector_size + n * 128,
        ),
    decreases n,
{
    let start = h.partition_entry_lba * sector_size;
    header::lemma_entry_offset_bound(h, sector_size, 0, 0);
    if n == 0 {
        assert(disk.subrange(start, start) =~= Seq::<u8>::empty());
    } else {
        lemma_raw_entries(disk, h, sector_size, (n - 1) as nat);
        assert(raw_entries(disk, h, sector_size, n) =~= disk.subrange(start, start + n * 128));
    }
}

proof fn lemma_rest_of_array(disk: Seq<u8>, h: HeaderModel, sector_size: u64, n: nat)
    requires
        has_array(disk, h, sector_size),
        disk.len() <= u64::MAX,
        n <= h.number_of_partition_entries,
    ensures
        rest_outcome(
            disk,
            h,
            sector_size,
            entries_on(disk, h, sector_size).take(n as int),
            raw_entries(disk, h, sector_size, n),
        ) == told(
            assembled(
                h,
                sector_size,
                entries_on(disk, h, sector_size),
                array_on(disk, h, sector_size),
            ),
        ),
    decreases h.number_of_partition_entries - n,
{
    let all = entries_on(disk, h, sector_size);
    header::lemma_entry_offset_bound(h, sector_size, 0, 0);
    if n == h.number_of_partition_entries {
        lemma_raw_entries(disk, h, sector_size, n);
        assert(all.take(n as int) =~= all);
    } else {
        let offset = header::entry_offset(h, sector_size, n as int);
        assert(offset + 128 <= disk.len());
        assert(all.take(n as int).push(all[n as int]) =~= all.take(n as int + 1));
        lemma_rest_of_array(disk, h, sector_size, n + 1);
    }
}

/// Where the primary header can be read, and its whole partition array is on the disk, what
/// decides is the checksum of that array, byte by byte: the table is read if it is the one that
/// the header says, unless its partitions tell no alignment.
pub proof fn law_array_decides(disk: Seq<u8>, sector_size: u64, h: HeaderModel)
    requires
        header::parse_header(bytes::tail_at(disk, sector_size as int)) == Ok::<
            HeaderModel,
            ErrorModel,
        >(h),
        disk.len() <= u64::MAX,
        has_array(disk, h, sector_size),
    ensures
        ({
            let sum = checksum::crc32_ieee(array_on(disk, h, sector_size));
            let entries = entries_on(disk, h, sector_size);
            read_outcome(disk, sector_size) == if h.partition_entry_array_crc32 != sum {
                Some(
                    Err::<TableModel, ErrorModel>(
                        ErrorModel::InvalidPartitionEntryArrayChecksum(
                            h.partition_entry_array_crc32,
                            sum,
                        ),
                    ),
                )
            } else if table::has_alignment(h.first_usable_lba, entries) {
                Some(
                    Ok::<TableModel, ErrorModel>(
                        TableModel {
                            sector_size,
                            header: h,
                            partitions: entries,
                            align: table::alignment(h.first_usable_lba, entries),
                        },
                    ),
                )
            } else {
                None
            }
        }),
{
    lemma_rest_of_array(disk, h, sector_size, 0);
    assert(entries_on(disk, h, sector_size).take(0) =~= Seq::empty());
    assert(header::matches_array_size(h, h.number_of_partition_entries as nat));
}

/// The bytes of a disk in memory from a position on.
fn read_window(disk: &[u8], offset: u64, len: usize) -> (r: Vec<u8>)
    ensures
        r@ == window(disk@, offset as int, len as int),
{
    let start: usize = if offset <= disk.len() as u64 {
        offset as usize
    } else {
        disk.len()
    };
    let rest = tail(disk, start);
    assert(rest@ =~= bytes::tail_at(disk@, offset as int));
    let n: usize = if rest.len() < len {
        rest.len()
    } else {
        len
    };
    let part = vstd::slice::slice_subrange(rest, 0, n);
    let mut r: Vec<u8> = Vec::new();
    append_bytes(&mut r, part);
    assert(r@ =~= window(disk@, offset as int, len as int));
    r
}

/// Answers the request of a reader, if it has one, from a disk in memory.
fn answer_request(reader: &GPTReader, disk: &[u8]) -> (r: Option<Answer>)
    ensures
        match r {
            Some(answer) => reader@.stage !is Finished && is_answer_from(disk@, reader@, answer),
            None => reader@.stage is Finished,
        },
{
    match reader.request() {
        Request::Read { offset, len } => Some(Answer::Bytes(read_window(disk, offset, len))),
        Request::Length => Some(Answer::Length(disk.len() as u64)),
        Request::Nothing => None,
    }
}

/// Answers all the requests of a reader from a disk in memory.
fn run(reader: GPTReader, disk: &[u8]) -> (r: Option<Result<GPT, Error>>)
    requires
        is_on_track(reader@),
    ensures
        match r {
            Some(result) => reader_outcome(reader@, disk@) == Some(result_model(result)),
            None => reader_outcome(reader@, disk@) is None,
        },
{
    let ghost start = reader@;
    let mut current = reader;
    let len: usize = disk.len();
    loop
        invariant
            len == disk@.len(),
            start == reader@,
            is_on_track(current@),
            reader_outcome(current@, disk@) == reader_outcome(start, disk@),
        decreases tries_left(current@), stages_left(current@), entries_left(current@),
    {
        let ghost m = current@;
        let answer = match answer_request(&current, disk) {
            Some(answer) => answer,
            None => return current.into_result(),
        };
        let ghost a = answer;
        assert(awaits(m, a));
        let next = current.advance(answer);
        proof {
            law_reader_follows_disk(m, disk@, a, next_model(next));
        }
        current = match next {
            Some(next) => next,
            None => return None,
        };
    }
}

impl GPT {
    /// Reads the GPT of a disk in memory. This function will try to read the backup header if the
    /// primary header could not be read.
    pub fn read_from(disk: &[u8], sector_size: u64) -> (r: Result<GPT, Error>)
        requires
            read_outcome(disk@, sector_size) is Some,
        ensures
            read_outcome(disk@, sector_size) == Some(result_model(r)),
            r matches Ok(t) ==> medium::is_read_from(disk@, sector_size, t@),
    {
        match run(GPTReader::read(sector_size), disk) {
            Some(r) => {
                proof {
                    if let Ok(t) = &r {
                        medium::lemma_read_from(disk@, sector_size, t@);
                    }
                }
                r
            },
            None => vstd::pervasive::unreached(),
        }
    }

    /// Reads the GPT of a disk in memory, if reading it has a result.
    pub fn try_read_from(disk: &[u8], sector_size: u64) -> (r: Option<Result<GPT, Error>>)
        ensures
            match r {
                Some(result) => read_outcome(disk@, sector_size) == Some(result_model(result)) && (
                result matches Ok(t) ==> medium::is_read_from(disk@, sector_size, t@)),
                None => read_outcome(disk@, sector_size) is None,
            },
    {
        if run(GPTReader::read(sector_size), disk).is_none() {
            return None;
        }
        Some(GPT::read_from(disk, sector_size))
    }

    /// Finds the GPT of a disk in memory. This function will try to read the GPT on a disk using
    /// a sector size of 512 but if it fails it will automatically try to read the GPT using a
    /// sector size of 4096.
    pub fn find_from(disk: &[u8]) -> (r: Result<GPT, Error>)
        requires
            find_outcome(disk@) is Some,
        ensures
            find_outcome(disk@) == Some(result_model(r)),
            r matches Ok(t) ==> medium::is_read_from(disk@, 512, t@) || medium::is_read_from(
                disk@,
                4096,
                t@,
            ),
    {
        match run(GPTReader::find(), disk) {
            Some(r) => {
                proof {
                    if let Ok(t) = &r {
                        if read_outcome(disk@, 512) matches Some(Err(_)) {
                            medium::lemma_read_from(disk@, 4096, t@);
                        } else {
                            medium::lemma_read_from(disk@, 512, t@);
                        }
                    }
                }
                r
            },
            None => vstd::pervasive::unreached(),
        }
    }

    /// Finds the GPT of a disk in memory, if reading it has a result.
    pub fn try_find_from(disk: &[u8]) -> (r: Option<Result<GPT, Error>>)
        ensures
            match r {
                Some(result) => find_outcome(disk@) == Some(result_model(result)),
                None => find_outcome(disk@) is None,
            },
    {
        if run(GPTReader::find(), disk).is_none() {
            return None;
        }
        Some(GPT::find_from(disk))
    }
}

/// The last sector of a disk is on it.
pub proof fn lemma_backup_offset(len: int, sector_size: u64)
    requires
        has_backup_sector(len, sector_size),
    ensures
        len / (sector_size as int) >= 1,
        0 <= backup_offset(len, sector_size) <= len - sector_size,
{
    let ss = sector_size as int;
    let q = len / ss;
    vstd::arithmetic::div_mod::lemma_fundamental_div_mod(len, ss);
    vstd::arithmetic::div_mod::lemma_mod_bound(len, ss);
    assert(q >= 1) by (nonlinear_arith)
        requires
            ss > 0,
            len >= ss,
            len == ss * q + len % ss,
            len % ss < ss,
    ;
    assert((q - 1) * ss == ss * q - ss && (q - 1) * ss >= 0) by (nonlinear_arith)
        requires
            q >= 1,
            ss > 0,
    ;
}

} // verus!
