//! One entry of a metric file.
//!
//! An entry is laid out as
//! `[u32 family_len][u32 sample_len][u32 labels_len][family][sample][labels][padding][u64 value]`,
//! with as many spaces of padding as bring the value to a multiple of eight
//! bytes from the start of the entry. The value is the bit pattern of a double.

use crate::error::{checked_add, MmapError};
use crate::native::{
    fill_bytes, law_native_u32, law_native_u64, native_u32, native_u32_bytes, native_u64,
    native_u64_bytes, overwrite, read_u32, read_u64, write_bytes, write_u32, write_u64,
};
use vstd::prelude::*;

verus! {

/// Bytes taken by the three length fields.
pub const LENGTH_FIELDS_SIZE: usize = 12;

/// The number of padding bytes between the names and the value.
pub open spec fn padding_of(family_len: int, sample_len: int, labels_len: int) -> int {
    (8 - (LENGTH_FIELDS_SIZE + family_len + sample_len + labels_len) % 8) % 8
}

/// Where the value starts, counted from the start of the entry.
pub open spec fn value_offset_of(family_len: int, sample_len: int, labels_len: int) -> int {
    LENGTH_FIELDS_SIZE + family_len + sample_len + labels_len + padding_of(
        family_len,
        sample_len,
        labels_len,
    )
}

/// The length of a whole entry.
pub open spec fn entry_len_of(family_len: int, sample_len: int, labels_len: int) -> int {
    value_offset_of(family_len, sample_len, labels_len) + 8
}

/// All three lengths fit their 32-bit length fields.
pub open spec fn lengths_fit(family_len: int, sample_len: int, labels_len: int) -> bool {
    family_len <= u32::MAX && sample_len <= u32::MAX && labels_len <= u32::MAX
}

/// What an entry says: three names and the bit pattern of a value.
#[verifier::ext_equal]
pub struct EntryView {
    pub family: Seq<u8>,
    pub sample: Seq<u8>,
    pub labels: Seq<u8>,
    pub bits: u64,
}

impl EntryView {
    /// Where the value of this entry starts.
    pub open spec fn value_offset(self) -> int {
        value_offset_of(
            self.family.len() as int,
            self.sample.len() as int,
            self.labels.len() as int,
        )
    }

    /// The number of bytes that this entry takes.
    pub open spec fn len(self) -> int {
        entry_len_of(
            self.family.len() as int,
            self.sample.len() as int,
            self.labels.len() as int,
        )
    }

    /// The bytes of this entry.
    pub open spec fn bytes(self) -> Seq<u8> {
        native_u32_bytes(self.family.len() as int) + native_u32_bytes(self.sample.len() as int)
            + native_u32_bytes(self.labels.len() as int) + self.family + self.sample + self.labels
            + Seq::new(
            padding_of(
                self.family.len() as int,
                self.sample.len() as int,
                self.labels.len() as int,
            ) as nat,
            |i: int| 0x20u8,
        ) + native_u64_bytes(self.bits as int)
    }
}

/// The length of the entry that `b` starts with, by its length fields.
pub open spec fn claimed_len(b: Seq<u8>) -> int {
    entry_len_of(
        native_u32(b.subrange(0, 4)),
        native_u32(b.subrange(4, 8)),
        native_u32(b.subrange(8, 12)),
    )
}

/// The entry that `b` starts with, if `b` holds all of it.
#[verifier::opaque]
pub open spec fn decode_entry(b: Seq<u8>) -> Option<EntryView> {
    if b.len() < LENGTH_FIELDS_SIZE || claimed_len(b) > b.len() {
        None
    } else {
        let family_len = native_u32(b.subrange(0, 4));
        let sample_len = native_u32(b.subrange(4, 8));
        let labels_len = native_u32(b.subrange(8, 12));
        let sample_at = LENGTH_FIELDS_SIZE + family_len;
        let labels_at = sample_at + sample_len;
        let value_at = value_offset_of(family_len, sample_len, labels_len);
        Some(
            EntryView {
                family: b.subrange(LENGTH_FIELDS_SIZE as int, sample_at),
                sample: b.subrange(sample_at, labels_at),
                labels: b.subrange(labels_at, labels_at + labels_len),
                bits: native_u64(b.subrange(value_at, value_at + 8)) as u64,
            },
        )
    }
}

/// Why `b` does not start with an entry.
pub open spec fn entry_error(b: Seq<u8>) -> MmapError {
    if b.len() < LENGTH_FIELDS_SIZE {
        MmapError::OutOfBounds { offset: LENGTH_FIELDS_SIZE, len: b.len() as usize }
    } else if claimed_len(b) > usize::MAX {
        MmapError::Overflow
    } else {
        MmapError::OutOfBounds { offset: claimed_len(b) as usize, len: b.len() as usize }
    }
}

/// The facts about a decoded entry that walking a file rests on.
pub proof fn lemma_decoded_entry(b: Seq<u8>)
    requires
        decode_entry(b) is Some,
    ensures
        ({
            let e = decode_entry(b).unwrap();
            &&& e.len() == claimed_len(b)
            &&& e.len() <= b.len()
            &&& 20 <= e.len()
            &&& e.len() % 8 == 0
            &&& LENGTH_FIELDS_SIZE <= e.value_offset() == e.len() - 8
            &&& e.value_offset() >= LENGTH_FIELDS_SIZE + e.family.len() + e.sample.len()
                + e.labels.len()
            &&& e.family.len() == native_u32(b.subrange(0, 4))
            &&& e.sample.len() == native_u32(b.subrange(4, 8))
            &&& e.labels.len() == native_u32(b.subrange(8, 12))
            &&& e.bits == native_u64(b.subrange(e.value_offset(), e.value_offset() + 8))
        }),
{
    reveal(decode_entry);
    let e = decode_entry(b).unwrap();
    law_native_u32(0, b.subrange(0, 4));
    law_native_u32(0, b.subrange(4, 8));
    law_native_u32(0, b.subrange(8, 12));
    let family_len = native_u32(b.subrange(0, 4));
    let sample_len = native_u32(b.subrange(4, 8));
    let labels_len = native_u32(b.subrange(8, 12));
    lemma_entry_len(family_len, sample_len, labels_len);
    assert(e.family.len() == family_len);
    assert(e.sample.len() == sample_len);
    assert(e.labels.len() == labels_len);
    law_native_u64(0, b.subrange(e.value_offset(), e.value_offset() + 8));
}

/// The names of an entry are settled by the bytes before its value.
pub proof fn lemma_decode_names(b: Seq<u8>, c: Seq<u8>)
    requires
        decode_entry(b) is Some,
        decode_entry(b).unwrap().len() <= c.len(),
        forall|i: int| 0 <= i < decode_entry(b).unwrap().value_offset() ==> b[i] == c[i],
    ensures
        decode_entry(c) is Some,
        decode_entry(c).unwrap().family == decode_entry(b).unwrap().family,
        decode_entry(c).unwrap().sample == decode_entry(b).unwrap().sample,
        decode_entry(c).unwrap().labels == decode_entry(b).unwrap().labels,
{
    lemma_decoded_entry(b);
    let e = decode_entry(b).unwrap();
    assert(b.subrange(0, 4) =~= c.subrange(0, 4));
    assert(b.subrange(4, 8) =~= c.subrange(4, 8));
    assert(b.subrange(8, 12) =~= c.subrange(8, 12));
    reveal(decode_entry);
    let f = decode_entry(c).unwrap();
    lemma_decoded_entry(c);
    assert(f.family =~= e.family);
    assert(f.sample =~= e.sample);
    assert(f.labels =~= e.labels);
}

/// An entry is settled by its own bytes: what follows them does not matter.
pub proof fn lemma_decode_prefix(b: Seq<u8>, c: Seq<u8>)
    requires
        decode_entry(b) is Some,
        decode_entry(b).unwrap().len() <= c.len(),
        forall|i: int| 0 <= i < decode_entry(b).unwrap().len() ==> b[i] == c[i],
    ensures
        decode_entry(c) == decode_entry(b),
{
    lemma_decode_names(b, c);
    lemma_decoded_entry(b);
    lemma_decoded_entry(c);
    let e = decode_entry(b).unwrap();
    let at = e.value_offset();
    assert(b.subrange(at, at + 8) =~= c.subrange(at, at + 8));
}

proof fn lemma_entry_len(family_len: int, sample_len: int, labels_len: int)
    requires
        0 <= family_len,
        0 <= sample_len,
        0 <= labels_len,
    ensures
        0 <= padding_of(family_len, sample_len, labels_len) < 8,
        entry_len_of(family_len, sample_len, labels_len) % 8 == 0,
{
}

/// An entry read in place.
#[derive(Debug, Clone, Copy, PartialEq)]
pub struct RawEntry<'a> {
    bytes: &'a [u8],
    family_len: usize,
    sample_len: usize,
    labels_len: usize,
}

impl<'a> View for RawEntry<'a> {
    type V = EntryView;

    closed spec fn view(&self) -> EntryView {
        let value_at = value_offset_of(
            self.family_len as int,
            self.sample_len as int,
            self.labels_len as int,
        ) - LENGTH_FIELDS_SIZE;
        let sample_at = self.family_len as int;
        let labels_at = sample_at + self.sample_len;
        EntryView {
            family: self.bytes@.subrange(0, sample_at),
            sample: self.bytes@.subrange(sample_at, labels_at),
            labels: self.bytes@.subrange(labels_at, labels_at + self.labels_len),
            bits: native_u64(self.bytes@.subrange(value_at, value_at + 8)) as u64,
        }
    }
}

impl<'a> RawEntry<'a> {
    /// The three lengths and the bytes behind them belong together.
    pub closed spec fn wf(self) -> bool {
        &&& lengths_fit(self.family_len as int, self.sample_len as int, self.labels_len as int)
        &&& self.bytes@.len() + LENGTH_FIELDS_SIZE == entry_len_of(
            self.family_len as int,
            self.sample_len as int,
            self.labels_len as int,
        )
        &&& self.bytes@.len() + LENGTH_FIELDS_SIZE <= usize::MAX
    }

    /// Reads the entry that `bytes` starts with.
    pub fn from_slice(bytes: &'a [u8]) -> (r: Result<Self, MmapError>)
        ensures
            match r {
                Ok(entry) => entry.wf() && decode_entry(bytes@) == Some(entry@),
                Err(e) => decode_entry(bytes@) is None && e == entry_error(bytes@),
            },
    {
        reveal(decode_entry);
        if bytes.len() < LENGTH_FIELDS_SIZE {
            return Err(
                MmapError::OutOfBounds { offset: LENGTH_FIELDS_SIZE, len: bytes.len() },
            );
        }
        let family_len: usize = read_u32(bytes, 0) as usize;
        let sample_len: usize = read_u32(bytes, 4) as usize;
        let labels_len: usize = read_u32(bytes, 8) as usize;
        let total_len: usize = match Self::calc_total_len(family_len, sample_len, labels_len) {
            Ok(total_len) => total_len,
            Err(e) => return Err(e),
        };
        if total_len > bytes.len() {
            return Err(MmapError::OutOfBounds { offset: total_len, len: bytes.len() });
        }
        let entry = RawEntry {
            bytes: &bytes[LENGTH_FIELDS_SIZE..total_len],
            family_len,
            sample_len,
            labels_len,
        };
        proof {
            let e = decode_entry(bytes@).unwrap();
            let value_at = e.value_offset();
            assert(entry@.family =~= e.family);
            assert(entry@.sample =~= e.sample);
            assert(entry@.labels =~= e.labels);
            assert(entry.bytes@.subrange(value_at - 12, value_at - 4) =~= bytes@.subrange(
                value_at,
                value_at + 8,
            ));
        }
        Ok(entry)
    }

    /// Writes an entry at the start of `dst` and returns where its value starts.
    pub fn save(
        dst: &mut [u8],
        family: &[u8],
        sample: &[u8],
        labels: &[u8],
        bits: u64,
    ) -> (r: Result<usize, MmapError>)
        ensures
            ({
                let entry = EntryView { family: family@, sample: sample@, labels: labels@, bits };
                if !lengths_fit(
                    family@.len() as int,
                    sample@.len() as int,
                    labels@.len() as int,
                ) {
                    r == Err::<usize, MmapError>(MmapError::KeyTooLong) && final(dst)@ == old(
                        dst,
                    )@
                } else if entry.len() > usize::MAX {
                    r == Err::<usize, MmapError>(MmapError::Overflow) && final(dst)@ == old(dst)@
                } else if entry.len() > old(dst)@.len() {
                    r == Err::<usize, MmapError>(
                        MmapError::EntryTooLarge {
                            needed: entry.len() as usize,
                            available: old(dst)@.len() as usize,
                        },
                    ) && final(dst)@ == old(dst)@
                } else {
                    r == Ok::<usize, MmapError>(entry.value_offset() as usize) && final(dst)@
                        == overwrite(old(dst)@, 0, entry.bytes())
                }
            }),
    {
        let ghost entry = EntryView { family: family@, sample: sample@, labels: labels@, bits };
        let ghost before = dst@;
        let total_len: usize = match Self::calc_total_len(
            family.len(),
            sample.len(),
            labels.len(),
        ) {
            Ok(total_len) => total_len,
            Err(e) => return Err(e),
        };
        if total_len > dst.len() {
            return Err(MmapError::EntryTooLarge { needed: total_len, available: dst.len() });
        }
        write_u32(dst, 0, family.len() as u32);
        write_u32(dst, 4, sample.len() as u32);
        write_u32(dst, 8, labels.len() as u32);
        let sample_at: usize = LENGTH_FIELDS_SIZE + family.len();
        let labels_at: usize = sample_at + sample.len();
        let padding_at: usize = labels_at + labels.len();
        write_bytes(dst, LENGTH_FIELDS_SIZE, family);
        write_bytes(dst, sample_at, sample);
        write_bytes(dst, labels_at, labels);
        let value_at: usize = total_len - 8;
        fill_bytes(dst, padding_at, value_at - padding_at, 0x20);
        write_u64(dst, value_at, bits);
        proof {
            law_native_u32(family@.len() as int, Seq::empty());
            law_native_u32(sample@.len() as int, Seq::empty());
            law_native_u32(labels@.len() as int, Seq::empty());
            law_native_u64(bits as int, Seq::empty());
            assert(dst@ =~= overwrite(before, 0, entry.bytes()));
        }
        Ok(value_at)
    }

    /// The bit pattern of the value.
    pub fn value(&self) -> (r: u64)
        requires
            self.wf(),
        ensures
            r == self@.bits,
    {
        let value_at: usize = self.bytes.len() - 8;
        proof {
            law_native_u64(0, self.bytes@.subrange(value_at as int, value_at + 8));
        }
        read_u64(self.bytes, value_at)
    }

    pub fn family_bytes(&self) -> (r: &'a [u8])
        requires
            self.wf(),
        ensures
            r@ == self@.family,
    {
        &self.bytes[0..self.family_len]
    }

    pub fn sample_bytes(&self) -> (r: &'a [u8])
        requires
            self.wf(),
        ensures
            r@ == self@.sample,
    {
        let start: usize = self.family_len;
        let end: usize = start + self.sample_len;
        &self.bytes[start..end]
    }

    pub fn labels_bytes(&self) -> (r: &'a [u8])
        requires
            self.wf(),
        ensures
            r@ == self@.labels,
    {
        let start: usize = self.family_len + self.sample_len;
        let end: usize = start + self.labels_len;
        &self.bytes[start..end]
    }

    /// The length of the whole entry.
    pub fn total_len(&self) -> (r: usize)
        requires
            self.wf(),
        ensures
            r == self@.len(),
    {
        self.bytes.len() + LENGTH_FIELDS_SIZE
    }

    /// The length of an entry with names of these lengths.
    pub fn calc_total_len(family_len: usize, sample_len: usize, labels_len: usize) -> (r: Result<
        usize,
        MmapError,
    >)
        ensures
            ({
                let total = entry_len_of(family_len as int, sample_len as int, labels_len as int);
                if !lengths_fit(family_len as int, sample_len as int, labels_len as int) {
                    r == Err::<usize, MmapError>(MmapError::KeyTooLong)
                } else if total > usize::MAX {
                    r == Err::<usize, MmapError>(MmapError::Overflow)
                } else {
                    r == Ok::<usize, MmapError>(total as usize)
                }
            }),
    {
        match Self::calc_value_offset(family_len, sample_len, labels_len) {
            Ok(value_at) => checked_add(value_at, 8),
            Err(e) => Err(e),
        }
    }

    /// Where the value of an entry with names of these lengths starts.
    pub fn calc_value_offset(family_len: usize, sample_len: usize, labels_len: usize) -> (r: Result<
        usize,
        MmapError,
    >)
        ensures
            ({
                let value_at = value_offset_of(
                    family_len as int,
                    sample_len as int,
                    labels_len as int,
                );
                if !lengths_fit(family_len as int, sample_len as int, labels_len as int) {
                    r == Err::<usize, MmapError>(MmapError::KeyTooLong)
                } else if value_at > usize::MAX {
                    r == Err::<usize, MmapError>(MmapError::Overflow)
                } else {
                    r == Ok::<usize, MmapError>(value_at as usize)
                }
            }),
    {
        match Self::check_field_len(family_len) {
            Ok(()) => {},
            Err(e) => return Err(e),
        }
        match Self::check_field_len(sample_len) {
            Ok(()) => {},
            Err(e) => return Err(e),
        }
        match Self::check_field_len(labels_len) {
            Ok(()) => {},
            Err(e) => return Err(e),
        }
        let body_len: usize = match Self::body_len_from_parts(family_len, sample_len, labels_len) {
            Ok(body_len) => body_len,
            Err(e) => return Err(e),
        };
        let unaligned: usize = match checked_add(LENGTH_FIELDS_SIZE, body_len) {
            Ok(unaligned) => unaligned,
            Err(e) => return Err(e),
        };
        match Self::padding_len(family_len, sample_len, labels_len) {
            Ok(padding) => checked_add(unaligned, padding),
            Err(e) => Err(e),
        }
    }

    /// The number of padding bytes after names of these lengths.
    pub fn padding_len(family_len: usize, sample_len: usize, labels_len: usize) -> (r: Result<
        usize,
        MmapError,
    >)
        ensures
            LENGTH_FIELDS_SIZE + family_len + sample_len + labels_len <= usize::MAX ==> r == Ok::<
                usize,
                MmapError,
            >(padding_of(family_len as int, sample_len as int, labels_len as int) as usize),
            LENGTH_FIELDS_SIZE + family_len + sample_len + labels_len > usize::MAX ==> r == Err::<
                usize,
                MmapError,
            >(MmapError::Overflow),
    {
        let body_len: usize = match Self::body_len_from_parts(family_len, sample_len, labels_len) {
            Ok(body_len) => body_len,
            Err(e) => return Err(e),
        };
        match checked_add(LENGTH_FIELDS_SIZE, body_len) {
            Ok(unaligned) => Ok((8 - (unaligned % 8)) % 8),
            Err(e) => Err(e),
        }
    }

    fn body_len_from_parts(family_len: usize, sample_len: usize, labels_len: usize) -> (r: Result<
        usize,
        MmapError,
    >)
        ensures
            family_len + sample_len + labels_len <= usize::MAX ==> r == Ok::<usize, MmapError>(
                (family_len + sample_len + labels_len) as usize,
            ),
            family_len + sample_len + labels_len > usize::MAX ==> r == Err::<usize, MmapError>(
                MmapError::Overflow,
            ),
    {
        match checked_add(family_len, sample_len) {
            Ok(len) => checked_add(len, labels_len),
            Err(e) => Err(e),
        }
    }

    fn check_field_len(field_len: usize) -> (r: Result<(), MmapError>)
        ensures
            field_len <= u32::MAX ==> r == Ok::<(), MmapError>(()),
            field_len > u32::MAX ==> r == Err::<(), MmapError>(MmapError::KeyTooLong),
    {
        if field_len as u64 > u32::MAX as u64 {
            return Err(MmapError::KeyTooLong);
        }
        Ok(())
    }
}

/// What was saved is what is read back, whatever follows it in the file.
pub proof fn law_entry_roundtrip(entry: EntryView, rest: Seq<u8>)
    requires
        lengths_fit(
            entry.family.len() as int,
            entry.sample.len() as int,
            entry.labels.len() as int,
        ),
    ensures
        decode_entry(entry.bytes() + rest) == Some(entry),
        entry.bytes().len() == entry.len(),
{
    reveal(decode_entry);
    let b = entry.bytes() + rest;
    let value_at = entry.value_offset();
    law_native_u32(entry.family.len() as int, Seq::empty());
    law_native_u32(entry.sample.len() as int, Seq::empty());
    law_native_u32(entry.labels.len() as int, Seq::empty());
    law_native_u64(entry.bits as int, Seq::empty());
    assert(b.subrange(0, 4) =~= native_u32_bytes(entry.family.len() as int));
    assert(b.subrange(4, 8) =~= native_u32_bytes(entry.sample.len() as int));
    assert(b.subrange(8, 12) =~= native_u32_bytes(entry.labels.len() as int));
    assert(b.subrange(value_at, value_at + 8) =~= native_u64_bytes(entry.bits as int));
    assert(decode_entry(b).unwrap() =~= entry);
}

/// A name may have any length that a 32-bit number can say, and no greater one.
pub proof fn law_name_lengths(family_len: int, sample_len: int, labels_len: int)
    ensures
        lengths_fit(family_len, sample_len, labels_len) <==> family_len <= 4294967295 && sample_len
            <= 4294967295 && labels_len <= 4294967295,
{
}

/// The value of an entry starts at the first multiple of eight behind twelve bytes of
/// lengths and the names, and takes the last eight bytes of the entry.
pub proof fn law_entry_size(family_len: int, sample_len: int, labels_len: int)
    requires
        0 <= family_len,
        0 <= sample_len,
        0 <= labels_len,
    ensures
        ({
            let names_end = 12 + family_len + sample_len + labels_len;
            let value_at = value_offset_of(family_len, sample_len, labels_len);
            &&& value_at % 8 == 0
            &&& names_end <= value_at < names_end + 8
            &&& padding_of(family_len, sample_len, labels_len) == value_at - names_end
            &&& entry_len_of(family_len, sample_len, labels_len) == value_at + 8
        }),
{
}

/// The bytes of an entry, field by field: the three lengths, the three names, spaces up to
/// the value, and the value.
pub proof fn law_entry_layout(entry: EntryView)
    requires
        entry.family.len() <= 4294967295,
        entry.sample.len() <= 4294967295,
        entry.labels.len() <= 4294967295,
    ensures
        ({
            let b = entry.bytes();
            let f = entry.family.len() as int;
            let s = entry.sample.len() as int;
            let l = entry.labels.len() as int;
            let n = b.len() as int;
            &&& n % 8 == 0
            &&& 20 + f + s + l <= n < 28 + f + s + l
            &&& native_u32(b.subrange(0, 4)) == f
            &&& native_u32(b.subrange(4, 8)) == s
            &&& native_u32(b.subrange(8, 12)) == l
            &&& b.subrange(12, 12 + f) == entry.family
            &&& b.subrange(12 + f, 12 + f + s) == entry.sample
            &&& b.subrange(12 + f + s, 12 + f + s + l) == entry.labels
            &&& forall|i: int| 12 + f + s + l <= i < n - 8 ==> b[i] == 0x20
            &&& native_u64(b.subrange(n - 8, n)) == entry.bits
        }),
{
    let b = entry.bytes();
    let f = entry.family.len() as int;
    let s = entry.sample.len() as int;
    let l = entry.labels.len() as int;
    law_native_u32(f, Seq::empty());
    law_native_u32(s, Seq::empty());
    law_native_u32(l, Seq::empty());
    law_native_u64(entry.bits as int, Seq::empty());
    law_entry_roundtrip(entry, Seq::empty());
    let n = b.len() as int;
    assert(b.subrange(0, 4) =~= native_u32_bytes(f));
    assert(b.subrange(4, 8) =~= native_u32_bytes(s));
    assert(b.subrange(8, 12) =~= native_u32_bytes(l));
    assert(b.subrange(12, 12 + f) =~= entry.family);
    assert(b.subrange(12 + f, 12 + f + s) =~= entry.sample);
    assert(b.subrange(12 + f + s, 12 + f + s + l) =~= entry.labels);
    assert(b.subrange(n - 8, n) =~= native_u64_bytes(entry.bits as int));
}

/// Bytes start with an entry exactly if they hold three lengths and then as many bytes as
/// those ask for; the entry has the names of those lengths, one behind the other, and the
/// value at the first multiple of eight behind them. Else the refusal says how many bytes
/// were missing.
pub proof fn law_entry_read(b: Seq<u8>)
    ensures
        b.len() < 12 ==> decode_entry(b) is None && entry_error(b) == (MmapError::OutOfBounds {
            offset: 12,
            len: b.len() as usize,
        }),
        b.len() >= 12 ==> ({
            let f = native_u32(b.subrange(0, 4));
            let s = native_u32(b.subrange(4, 8));
            let l = native_u32(b.subrange(8, 12));
            let value_at = (12 + f + s + l + 7) / 8 * 8;
            &&& decode_entry(b) is Some <==> value_at + 8 <= b.len()
            &&& decode_entry(b) matches Some(e) ==> {
                &&& e.family == b.subrange(12, 12 + f)
                &&& e.sample == b.subrange(12 + f, 12 + f + s)
                &&& e.labels == b.subrange(12 + f + s, 12 + f + s + l)
                &&& e.bits == native_u64(b.subrange(value_at, value_at + 8))
                &&& e.len() == value_at + 8
            }
            &&& decode_entry(b) is None ==> entry_error(b) == if value_at + 8 > usize::MAX {
                MmapError::Overflow
            } else {
                MmapError::OutOfBounds { offset: (value_at + 8) as usize, len: b.len() as usize }
            }
        }),
{
    reveal(decode_entry);
    if b.len() >= 12 {
        law_native_u32(0, b.subrange(0, 4));
        law_native_u32(0, b.subrange(4, 8));
        law_native_u32(0, b.subrange(8, 12));
        let value_at = value_offset_of(
            native_u32(b.subrange(0, 4)),
            native_u32(b.subrange(4, 8)),
            native_u32(b.subrange(8, 12)),
        );
        if value_at + 8 <= b.len() {
            law_native_u64(0, b.subrange(value_at, value_at + 8));
        }
    }
}

} // verus!
