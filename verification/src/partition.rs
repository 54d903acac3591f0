//! Partition entries: what they hold, and the 128 bytes that each of them takes on disk.

use vstd::prelude::*;
use crate::bytes;
use crate::bytes::{
    append_bytes, decode_array_16, decode_u16, decode_u64, encode_u16, encode_u64, tail,
};
use crate::error::Error;
use crate::fields;
use crate::meaning;
use crate::utf16;

verus! {

/// The number of UTF-16 code units that the name of a partition takes on disk.
pub const NAME_UNITS: usize = 36;

/// The number of bytes that a partition entry takes on disk.
pub const ENTRY_SIZE: usize = 128;

/// What a partition entry says.
#[verifier::ext_equal]
pub struct EntryModel {
    pub partition_type_guid: Seq<u8>,
    pub unique_parition_guid: Seq<u8>,
    pub starting_lba: u64,
    pub ending_lba: u64,
    pub attribute_bits: u64,
    pub partition_name: Seq<char>,
}

/// The sixteen zero bytes that stand for no GUID.
pub open spec fn nil_guid() -> Seq<u8> {
    Seq::new(16, |i: int| 0u8)
}

/// Whether an entry stands for a partition.
pub open spec fn is_used_entry(e: EntryModel) -> bool {
    e.partition_type_guid != nil_guid()
}

/// The entry that stands for no partition.
pub open spec fn empty_entry() -> EntryModel {
    EntryModel {
        partition_type_guid: nil_guid(),
        unique_parition_guid: nil_guid(),
        starting_lba: 0,
        ending_lba: 0,
        attribute_bits: 0,
        partition_name: Seq::empty(),
    }
}

/// The code units that are stored for a name: its first 36, or zeros after its end.
pub open spec fn name_units(name: Seq<char>) -> Seq<u16> {
    let u = utf16::utf16_encode(name);
    Seq::new(NAME_UNITS as nat, |i: int| if i < u.len() { u[i] } else { 0u16 })
}

/// The bytes of some code units.
pub open spec fn units_bytes(u: Seq<u16>) -> Seq<u8>
    decreases u.len(),
{
    if u.len() == 0 {
        Seq::empty()
    } else {
        units_bytes(u.drop_last()) + bytes::le_bytes(u.last() as nat, 2)
    }
}

/// The code units that some bytes stand for.
pub open spec fn bytes_units(s: Seq<u8>) -> Seq<u16> {
    Seq::new(s.len() / 2, |i: int| bytes::le_value(s.subrange(2 * i, 2 * i + 2)) as u16)
}

/// What comes before the first zero.
pub open spec fn until_zero(u: Seq<u16>) -> Seq<u16>
    decreases u.len(),
{
    if u.len() == 0 || u[0] == 0 {
        Seq::empty()
    } else {
        seq![u[0]] + until_zero(u.drop_first())
    }
}

/// The name that the stored code units of a name stand for.
pub open spec fn stored_name(name: Seq<char>) -> Seq<char> {
    utf16::utf16_decode_lossy(until_zero(name_units(name)))
}

/// The 128 bytes of an entry.
pub open spec fn encode_entry(e: EntryModel) -> Seq<u8> {
    e.partition_type_guid + e.unique_parition_guid + bytes::le_bytes(e.starting_lba as nat, 8)
        + bytes::le_bytes(e.ending_lba as nat, 8) + bytes::le_bytes(e.attribute_bits as nat, 8)
        + units_bytes(name_units(e.partition_name))
}

/// The entry that 128 bytes stand for.
pub open spec fn decode_entry(s: Seq<u8>) -> EntryModel {
    EntryModel {
        partition_type_guid: s.subrange(0, 16),
        unique_parition_guid: s.subrange(16, 32),
        starting_lba: bytes::le_value(s.subrange(32, 40)) as u64,
        ending_lba: bytes::le_value(s.subrange(40, 48)) as u64,
        attribute_bits: bytes::le_value(s.subrange(48, 56)) as u64,
        partition_name: utf16::utf16_decode_lossy(until_zero(bytes_units(s.subrange(56, 128)))),
    }
}

/// The entry that is read back where an entry was written.
pub open spec fn stored_entry(e: EntryModel) -> EntryModel {
    EntryModel { partition_name: stored_name(e.partition_name), ..e }
}

/// Whether the two GUIDs of an entry have the length that GUIDs have.
pub open spec fn has_guids(e: EntryModel) -> bool {
    e.partition_type_guid.len() == 16 && e.unique_parition_guid.len() == 16
}

pub proof fn lemma_units_bytes_len(u: Seq<u16>)
    ensures
        units_bytes(u).len() == 2 * u.len(),
    decreases u.len(),
{
    if u.len() > 0 {
        lemma_units_bytes_len(u.drop_last());
        bytes::lemma_le_bytes_len(u.last() as nat, 2);
    }
}

/// The bytes of some code units stand for those code units.
pub proof fn lemma_bytes_units_of_units(u: Seq<u16>)
    ensures
        bytes_units(units_bytes(u)) == u,
    decreases u.len(),
{
    lemma_units_bytes_len(u);
    if u.len() > 0 {
        let front = u.drop_last();
        let fb = units_bytes(front);
        let b = units_bytes(u);
        lemma_units_bytes_len(front);
        lemma_bytes_units_of_units(front);
        bytes::lemma_le_bytes_len(u.last() as nat, 2);
        bytes::lemma_byte_ranges();
        bytes::lemma_le_value_of_bytes(u.last() as nat, 2);
        assert forall|i: int| 0 <= i < u.len() implies bytes_units(b)[i] == u[i] by {
            if i < front.len() {
                assert(b.subrange(2 * i, 2 * i + 2) =~= fb.subrange(2 * i, 2 * i + 2));
                assert(bytes_units(fb)[i] == front[i]);
            } else {
                assert(b.subrange(2 * i, 2 * i + 2) =~= bytes::le_bytes(u.last() as nat, 2));
            }
        }
    }
    assert(bytes_units(units_bytes(u)) =~= u);
}

pub proof fn lemma_encode_entry_len(e: EntryModel)
    requires
        has_guids(e),
    ensures
        encode_entry(e).len() == ENTRY_SIZE,
{
    bytes::lemma_le_bytes_len(e.starting_lba as nat, 8);
    bytes::lemma_le_bytes_len(e.ending_lba as nat, 8);
    bytes::lemma_le_bytes_len(e.attribute_bits as nat, 8);
    lemma_units_bytes_len(name_units(e.partition_name));
}

/// An entry that was written is read back as it was, but for its name, of which what the first 36
/// code units hold up to a zero is.
pub proof fn law_entry_round_trip(e: EntryModel)
    requires
        has_guids(e),
    ensures
        encode_entry(e).len() == ENTRY_SIZE,
        decode_entry(encode_entry(e)) == stored_entry(e),
{
    let s = encode_entry(e);
    let name = units_bytes(name_units(e.partition_name));
    lemma_encode_entry_len(e);
    bytes::lemma_le_bytes_len(e.starting_lba as nat, 8);
    bytes::lemma_le_bytes_len(e.ending_lba as nat, 8);
    bytes::lemma_le_bytes_len(e.attribute_bits as nat, 8);
    lemma_units_bytes_len(name_units(e.partition_name));
    lemma_bytes_units_of_units(name_units(e.partition_name));
    bytes::lemma_byte_ranges();
    bytes::lemma_le_value_of_bytes(e.starting_lba as nat, 8);
    bytes::lemma_le_value_of_bytes(e.ending_lba as nat, 8);
    bytes::lemma_le_value_of_bytes(e.attribute_bits as nat, 8);
    assert(s.subrange(0, 16) =~= e.partition_type_guid);
    assert(s.subrange(16, 32) =~= e.unique_parition_guid);
    assert(s.subrange(32, 40) =~= bytes::le_bytes(e.starting_lba as nat, 8));
    assert(s.subrange(40, 48) =~= bytes::le_bytes(e.ending_lba as nat, 8));
    assert(s.subrange(48, 56) =~= bytes::le_bytes(e.attribute_bits as nat, 8));
    assert(s.subrange(56, 128) =~= name);
    assert(decode_entry(s) =~= stored_entry(e));
}

pub proof fn lemma_until_zero_of_padded(u: Seq<u16>, n: nat)
    requires
        !u.contains(0u16),
        u.len() <= n,
    ensures
        until_zero(Seq::new(n, |i: int| if i < u.len() { u[i] } else { 0u16 })) == u,
    decreases n,
{
    let p = Seq::new(n, |i: int| if i < u.len() { u[i] } else { 0u16 });
    if u.len() == 0 {
        assert(until_zero(p) =~= u);
    } else {
        let r = u.drop_first();
        let q = Seq::new((n - 1) as nat, |i: int| if i < r.len() { r[i] } else { 0u16 });
        assert(u[0] != 0) by {
            if u[0] == 0 {
                assert(u.contains(u[0]));
            }
        }
        assert(!r.contains(0u16)) by {
            if r.contains(0u16) {
                let i = choose|i: int| 0 <= i < r.len() && r[i] == 0u16;
                assert(u[i + 1] == 0u16);
            }
        }
        lemma_until_zero_of_padded(r, (n - 1) as nat);
        assert(p.drop_first() =~= q);
        assert(until_zero(p) =~= u);
    }
}

/// A name of at most 36 code units without a character zero is read back as it was.
pub proof fn law_short_name_is_kept(name: Seq<char>)
    requires
        !name.contains('\0'),
        utf16::utf16_encode(name).len() <= NAME_UNITS,
    ensures
        stored_name(name) == name,
{
    utf16::lemma_utf16_encode_zero(name);
    lemma_until_zero_of_padded(utf16::utf16_encode(name), NAME_UNITS as nat);
    utf16::law_utf16_round_trip(name);
}

proof fn lemma_until_zero(u: Seq<u16>)
    ensures
        until_zero(u).len() <= u.len(),
        until_zero(u) == u.take(until_zero(u).len() as int),
        !until_zero(u).contains(0u16),
    decreases u.len(),
{
    let r = until_zero(u);
    if u.len() > 0 && u[0] != 0 {
        lemma_until_zero(u.drop_first());
        if r.contains(0u16) {
            let i = choose|i: int| 0 <= i < r.len() && r[i] == 0u16;
            assert(until_zero(u.drop_first())[i - 1] == 0u16);
        }
    }
    assert(r =~= u.take(r.len() as int));
}

/// Whether the name in the bytes of an entry is nothing but a name: zeros follow its end, and no
/// half of a pair stands alone in it.
pub open spec fn has_plain_name(s: Seq<u8>) -> bool {
    let units = bytes_units(s.subrange(56, 128));
    let name = until_zero(units);
    &&& utf16::is_utf16(name)
    &&& forall|i: int| name.len() <= i < units.len() ==> #[trigger] units[i] == 0
}

proof fn lemma_units_of_bytes(b: Seq<u8>, n: nat)
    requires
        b.len() == 2 * n,
    ensures
        units_bytes(bytes_units(b)) == b,
    decreases n,
{
    let u = bytes_units(b);
    if n == 0 {
        assert(units_bytes(u) =~= b);
    } else {
        let front = b.take(2 * (n - 1));
        let pair = b.subrange(2 * (n - 1), 2 * (n - 1) + 2);
        lemma_units_of_bytes(front, (n - 1) as nat);
        assert forall|i: int| 0 <= i < n - 1 implies u[i] == bytes_units(front)[i] by {
            assert(b.subrange(2 * i, 2 * i + 2) =~= front.subrange(2 * i, 2 * i + 2));
        }
        assert(u.drop_last() =~= bytes_units(front));
        bytes::lemma_byte_ranges();
        bytes::lemma_le_bytes_of_value(pair);
        assert(u.last() as nat == bytes::le_value(pair));
        assert(units_bytes(u) =~= b);
    }
}

/// The entry that some bytes stand for has those bytes, where the name in them is nothing but a
/// name.
pub proof fn law_entry_bytes_are_kept(s: Seq<u8>)
    requires
        s.len() >= ENTRY_SIZE,
        has_plain_name(s),
    ensures
        encode_entry(decode_entry(s)) == s.take(ENTRY_SIZE as int),
{
    let e = decode_entry(s);
    let name = s.subrange(56, 128);
    let units = bytes_units(name);
    lemma_until_zero(units);
    utf16::law_utf16_units_are_kept(until_zero(units));
    assert(name_units(e.partition_name) =~= units);
    lemma_units_of_bytes(name, 36);
    bytes::lemma_byte_ranges();
    bytes::lemma_le_bytes_of_value(s.subrange(32, 40));
    bytes::lemma_le_bytes_of_value(s.subrange(40, 48));
    bytes::lemma_le_bytes_of_value(s.subrange(48, 56));
    assert(encode_entry(e) =~= s.take(ENTRY_SIZE as int));
}

/// The name of an entry that was read is stored in such a way that it is read back as it is, and
/// its GUIDs have the length that GUIDs have.
pub proof fn law_read_entry_is_kept(s: Seq<u8>)
    requires
        s.len() >= ENTRY_SIZE,
    ensures
        stored_name(decode_entry(s).partition_name) == decode_entry(s).partition_name,
        stored_entry(decode_entry(s)) == decode_entry(s),
        has_guids(decode_entry(s)),
{
    let units = bytes_units(s.subrange(56, 128));
    lemma_until_zero(units);
    utf16::lemma_utf16_decode_bounds(until_zero(units));
    law_short_name_is_kept(decode_entry(s).partition_name);
}

/// A wrapper type for `String` that represents a partition's name.
#[derive(Debug)]
pub struct PartitionName(String);

impl View for PartitionName {
    type V = Seq<char>;

    closed spec fn view(&self) -> Seq<char> {
        self.0@
    }
}

impl Clone for PartitionName {
    fn clone(&self) -> (r: PartitionName)
        ensures
            r@ == self@,
    {
        PartitionName(self.0.clone())
    }
}

impl From<&str> for PartitionName {
    fn from(value: &str) -> (r: PartitionName)
        ensures
            r@ == value@,
    {
        PartitionName(value.to_owned())
    }
}

impl vstd::std_specs::convert::FromSpecImpl<&str> for PartitionName {
    open spec fn obeys_from_spec() -> bool {
        false
    }

    open spec fn from_spec(value: &str) -> PartitionName {
        arbitrary()
    }
}

impl PartitionName {
    /// Extracts a string slice containing the entire `PartitionName`.
    pub fn as_str(&self) -> (r: &str)
        ensures
            r@ == self@,
    {
        self.0.as_str()
    }

    /// Converts the given value to a `String`.
    pub fn to_string(&self) -> (r: String)
        ensures
            r@ == self@,
    {
        self.0.clone()
    }

    /// The 36 UTF-16 code units that are stored for the name.
    pub fn to_units(&self) -> (r: Vec<u16>)
        ensures
            r@ == name_units(self@),
    {
        let all = utf16::encode(self.0.as_str());
        let mut units: Vec<u16> = Vec::new();
        let mut i: usize = 0;
        while i < NAME_UNITS
            invariant
                i <= NAME_UNITS,
                all@ == utf16::utf16_encode(self@),
                units@ =~= name_units(self@).take(i as int),
            decreases NAME_UNITS - i,
        {
            if i < all.len() {
                units.push(all[i]);
            } else {
                units.push(0);
            }
            i = i + 1;
        }
        assert(name_units(self@).take(NAME_UNITS as int) =~= name_units(self@));
        units
    }

    /// The name that some code units stand for: the text up to the first zero.
    pub fn from_units(units: &[u16]) -> (r: PartitionName)
        ensures
            r@ == utf16::utf16_decode_lossy(until_zero(units@)),
    {
        let mut v: Vec<u16> = Vec::new();
        let mut end = false;
        let mut i: usize = 0;
        assert(units@.skip(0) =~= units@);
        while i < units.len()
            invariant
                i <= units@.len(),
                end ==> v@ == until_zero(units@),
                !end ==> v@ + until_zero(units@.skip(i as int)) == until_zero(units@),
            decreases units@.len() - i,
        {
            let x: u16 = units[i];
            let ghost before = v@;
            let ghost rest = units@.skip(i as int);
            assert(rest[0] == x);
            assert(rest.drop_first() =~= units@.skip(i + 1));
            if x == 0 {
                if !end {
                    assert(v@ + until_zero(rest) =~= v@);
                }
                end = true;
            } else if !end {
                v.push(x);
                assert(v@ + until_zero(units@.skip(i + 1)) =~= before + until_zero(rest));
            }
            i = i + 1;
        }
        assert(units@.skip(units@.len() as int) =~= Seq::<u16>::empty());
        assert(!end ==> v@ + until_zero(units@.skip(units@.len() as int)) =~= v@);
        PartitionName(utf16::decode_lossy(v.as_slice()))
    }
}

/// A GPT partition's entry in the partition array.
#[derive(Debug)]
pub struct GPTPartitionEntry {
    /// 16 bytes representing the UUID of the partition's type.
    pub partition_type_guid: [u8; 16],
    /// 16 bytes representing the UUID of the partition.
    pub unique_parition_guid: [u8; 16],
    /// The position (in sectors) of the first sector (used) of the partition.
    pub starting_lba: u64,
    /// The position (in sectors) of the last sector (used) of the partition.
    pub ending_lba: u64,
    /// The attribute bits.
    ///
    /// See [Wikipedia's page](https://en.wikipedia.org/wiki/GUID_Partition_Table#Partition_entries_(LBA_2%E2%80%9333))
    /// for more information.
    pub attribute_bits: u64,
    /// The partition name.
    pub partition_name: PartitionName,
}

impl View for GPTPartitionEntry {
    type V = EntryModel;

    open spec fn view(&self) -> EntryModel {
        EntryModel {
            partition_type_guid: self.partition_type_guid@,
            unique_parition_guid: self.unique_parition_guid@,
            starting_lba: self.starting_lba,
            ending_lba: self.ending_lba,
            attribute_bits: self.attribute_bits,
            partition_name: self.partition_name@,
        }
    }
}

impl Clone for GPTPartitionEntry {
    fn clone(&self) -> (r: GPTPartitionEntry)
        ensures
            r@ == self@,
    {
        GPTPartitionEntry {
            partition_type_guid: self.partition_type_guid,
            unique_parition_guid: self.unique_parition_guid,
            starting_lba: self.starting_lba,
            ending_lba: self.ending_lba,
            attribute_bits: self.attribute_bits,
            partition_name: self.partition_name.clone(),
        }
    }
}

/// What the entries of a slice or vector say, in order.
pub open spec fn entry_models(s: Seq<GPTPartitionEntry>) -> Seq<EntryModel> {
    s.map_values(|e: GPTPartitionEntry| e@)
}

/// Whether two GUIDs are the same.
pub(crate) fn same_guid(a: &[u8; 16], b: &[u8; 16]) -> (r: bool)
    ensures
        r == (a@ == b@),
{
    let mut i: usize = 0;
    while i < 16
        invariant
            i <= 16,
            forall|j: int| 0 <= j < i ==> a@[j] == b@[j],
        decreases 16 - i,
    {
        if a[i] != b[i] {
            return false;
        }
        i = i + 1;
    }
    assert(a@ =~= b@);
    true
}

impl GPTPartitionEntry {
    /// Creates an empty partition entry, which is considered as not allocated.
    pub fn empty() -> (r: GPTPartitionEntry)
        ensures
            r@ == empty_entry(),
            !meaning::is_taken(r@),
            r.starting_lba == 0 && r.ending_lba == 0 && r.attribute_bits == 0,
            r.partition_name@.len() == 0,
    {
        proof {
            meaning::law_empty_entry();
        }
        let r = GPTPartitionEntry {
            partition_type_guid: [0; 16],
            unique_parition_guid: [0; 16],
            starting_lba: 0,
            ending_lba: 0,
            attribute_bits: 0,
            partition_name: PartitionName(String::new()),
        };
        assert(r@ =~= empty_entry());
        r
    }

    /// Reads a partition entry from the bytes at the current position of a reader. What follows
    /// the first 128 bytes is left alone; with fewer there is no entry.
    pub fn read_from(bytes: &[u8]) -> (r: Result<GPTPartitionEntry, bincode::Error>)
        ensures
            r is Ok <==> bytes@.len() >= ENTRY_SIZE,
            r matches Ok(e) ==> e@ == decode_entry(bytes@),
            r matches Ok(e) ==> {
                &&& forall|i: int|
                    0 <= i < 16 ==> #[trigger] e.partition_type_guid@[i] == bytes@[i]
                &&& forall|i: int|
                    0 <= i < 16 ==> #[trigger] e.unique_parition_guid@[i] == bytes@[16 + i]
                &&& e.starting_lba == fields::u64_at(bytes@, 32)
                &&& e.ending_lba == fields::u64_at(bytes@, 40)
                &&& e.attribute_bits == fields::u64_at(bytes@, 48)
            },
    {
        let partition_type_guid = decode_array_16(bytes)?;
        let unique_parition_guid = decode_array_16(tail(bytes, 16))?;
        let starting_lba = decode_u64(tail(bytes, 32))?;
        let ending_lba = decode_u64(tail(bytes, 40))?;
        let attribute_bits = decode_u64(tail(bytes, 48))?;
        let mut units: Vec<u16> = Vec::new();
        let mut i: usize = 0;
        while i < NAME_UNITS
            invariant
                i <= NAME_UNITS,
                bytes@.len() >= 56 + 2 * i,
                units@.len() == i,
                forall|j: int|
                    0 <= j < i ==> #[trigger] units@[j] == bytes::le_value(
                        bytes@.subrange(56 + 2 * j, 58 + 2 * j),
                    ),
            decreases NAME_UNITS - i,
        {
            let unit = decode_u16(tail(bytes, 56 + 2 * i))?;
            assert(bytes::tail_at(bytes@, 56 + 2 * i).take(2) =~= bytes@.subrange(
                56 + 2 * i,
                58 + 2 * i,
            ));
            units.push(unit);
            i = i + 1;
        }
        proof {
            assert(bytes::tail_at(bytes@, 16).take(16) =~= bytes@.subrange(16, 32));
            assert(bytes::tail_at(bytes@, 32).take(8) =~= bytes@.subrange(32, 40));
            assert(bytes::tail_at(bytes@, 40).take(8) =~= bytes@.subrange(40, 48));
            assert(bytes::tail_at(bytes@, 48).take(8) =~= bytes@.subrange(48, 56));
            let name = bytes@.subrange(56, 128);
            assert forall|j: int| 0 <= j < NAME_UNITS implies units@[j] == bytes_units(name)[j] by {
                assert(name.subrange(2 * j, 2 * j + 2) =~= bytes@.subrange(
                    56 + 2 * j,
                    58 + 2 * j,
                ));
            }
            assert(units@ =~= bytes_units(name));
        }
        let e = GPTPartitionEntry {
            partition_type_guid,
            unique_parition_guid,
            starting_lba,
            ending_lba,
            attribute_bits,
            partition_name: PartitionName::from_units(units.as_slice()),
        };
        assert(e@ =~= decode_entry(bytes@));
        proof {
            fields::law_entry_fields(bytes@);
            fields::law_entry_view(e);
        }
        Ok(e)
    }

    /// The 128 bytes that the entry takes on disk.
    pub fn to_bytes(&self) -> (r: Vec<u8>)
        ensures
            r@ == encode_entry(self@),
            r@.len() == ENTRY_SIZE,
            forall|i: int| 0 <= i < 16 ==> #[trigger] r@[i] == self.partition_type_guid@[i],
            forall|i: int| 16 <= i < 32 ==> #[trigger] r@[i] == self.unique_parition_guid@[i - 16],
            fields::u64_at(r@, 32) == self.starting_lba,
            fields::u64_at(r@, 40) == self.ending_lba,
            fields::u64_at(r@, 48) == self.attribute_bits,
    {
        let mut out: Vec<u8> = Vec::new();
        append_bytes(&mut out, &self.partition_type_guid);
        append_bytes(&mut out, &self.unique_parition_guid);
        append_bytes(&mut out, encode_u64(self.starting_lba).as_slice());
        append_bytes(&mut out, encode_u64(self.ending_lba).as_slice());
        append_bytes(&mut out, encode_u64(self.attribute_bits).as_slice());
        let ghost front = out@;
        let units = self.partition_name.to_units();
        let mut i: usize = 0;
        assert(out@ =~= front + units_bytes(units@.take(0)));
        while i < units.len()
            invariant
                i <= units@.len(),
                out@ == front + units_bytes(units@.take(i as int)),
            decreases units@.len() - i,
        {
            append_bytes(&mut out, encode_u16(units[i]).as_slice());
            assert(units@.take(i + 1).drop_last() =~= units@.take(i as int));
            assert(out@ =~= front + units_bytes(units@.take(i + 1)));
            i = i + 1;
        }
        proof {
            assert(units@.take(units@.len() as int) =~= units@);
            assert(out@ =~= encode_entry(self@));
            fields::law_entry_bytes(self@);
            fields::law_entry_view(*self);
        }
        out
    }

    /// Returns `true` if the partition entry is not used (type GUID == `[0; 16]`)
    pub fn is_unused(&self) -> (r: bool)
        ensures
            r == !is_used_entry(self@),
            r <==> forall|i: int| 0 <= i < 16 ==> #[trigger] self.partition_type_guid@[i] == 0,
    {
        proof {
            meaning::law_used(self@);
        }
        let nil: [u8; 16] = [0; 16];
        assert(nil@ =~= nil_guid());
        same_guid(&self.partition_type_guid, &nil)
    }

    /// Returns `true` if the partition entry is used (type GUID != `[0; 16]`)
    pub fn is_used(&self) -> (r: bool)
        ensures
            r == is_used_entry(self@),
            r == meaning::is_taken(self@),
    {
        proof {
            meaning::law_used(self@);
        }
        !self.is_unused()
    }

    /// Returns the number of sectors in the partition. A partition entry must always be 1 sector
    /// long at minimum.
    ///
    /// # Errors
    /// This function will return an error if the `ending_lba` is lesser than the `starting_lba`.
    pub fn size(&self) -> (r: Result<u64, Error>)
        requires
            self.ending_lba - self.starting_lba < u64::MAX,
        ensures
            match r {
                Ok(n) => self.starting_lba <= self.ending_lba && n == self.ending_lba
                    - self.starting_lba + 1,
                Err(e) => self.ending_lba < self.starting_lba
                    && e == Error::InvalidPartitionBoundaries,
            },
    {
        if self.ending_lba < self.starting_lba {
            return Err(Error::InvalidPartitionBoundaries);
        }
        Ok(self.ending_lba - self.starting_lba + 1)
    }
}

} // verus!
