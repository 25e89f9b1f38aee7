//! Writing to bytes that others read at any moment.

use crate::error::MmapError;
use crate::native::{native_u32_bytes, native_u64_bytes, overwrite, write_u32, write_u64};
use crate::raw_entry::{law_entry_roundtrip, lengths_fit, EntryView, RawEntry};
use vstd::prelude::*;

verus! {

/// `std::sync::atomic::fence` with release order: the writes before it are
/// visible to whoever sees a write behind it. Nothing is claimed of it here: what
/// orders memory between processes has no counterpart in these contracts.
#[verifier::external_body]
fn release_fence() {
    std::sync::atomic::fence(std::sync::atomic::Ordering::Release)
}

/// One step of a writer.
pub enum StepView {
    /// Bytes are written over those from `at` on. A word is copied in one piece, and is
    /// taken to be seen whole in its natural place, as it is where the machine has words
    /// of that size. Of other bytes nothing is known until they are written.
    Write { before: Seq<u8>, at: int, bytes: Seq<u8>, word: bool },
    /// No write behind this is seen before those ahead of it.
    Fence,
}

/// A reader may come upon these bytes during a step.
pub open spec fn visible(step: StepView, seen: Seq<u8>) -> bool {
    match step {
        StepView::Write { before, at, bytes, word } => if word && at % bytes.len() as int == 0 {
            seen == before || seen == overwrite(before, at, bytes)
        } else {
            &&& seen.len() == before.len()
            &&& forall|i: int|
                0 <= i < seen.len() && !(at <= i < at + bytes.len()) ==> seen[i] == before[i]
        },
        StepView::Fence => false,
    }
}

/// Bytes that others read, and the steps in which they came to be what they are.
#[verifier::ext_equal]
pub struct MapView {
    pub bytes: Seq<u8>,
    pub steps: Seq<StepView>,
}

impl MapView {
    /// The bytes after one more write.
    pub open spec fn put(self, at: int, bytes: Seq<u8>, word: bool) -> MapView {
        MapView {
            bytes: overwrite(self.bytes, at, bytes),
            steps: self.steps.push(StepView::Write { before: self.bytes, at, bytes, word }),
        }
    }

    /// The same bytes after a fence.
    pub open spec fn fenced(self) -> MapView {
        MapView { bytes: self.bytes, steps: self.steps.push(StepView::Fence) }
    }
}

/// Bytes that others read while they are written. There is no way to write them but the
/// methods below, each of which is a step that stays on record.
pub struct SharedMap<'a> {
    map: &'a mut [u8],
    steps: Ghost<Seq<StepView>>,
}

impl<'a> View for SharedMap<'a> {
    type V = MapView;

    closed spec fn view(&self) -> MapView {
        MapView { bytes: self.map@, steps: self.steps@ }
    }
}

impl<'a> SharedMap<'a> {
    /// Takes the bytes over as they are.
    pub fn new(map: &'a mut [u8]) -> (r: Self)
        ensures
            r@ == (MapView { bytes: old(map)@, steps: Seq::empty() }),
    {
        SharedMap { map, steps: Ghost(Seq::empty()) }
    }

    /// The bytes as they are.
    pub fn as_slice(&self) -> (r: &[u8])
        ensures
            r@ == self@.bytes,
    {
        &*self.map
    }

    /// Writes an entry into the bytes from `start` to `end` and returns where in them its
    /// value starts.
    pub fn put_entry(
        &mut self,
        start: usize,
        end: usize,
        family: &[u8],
        sample: &[u8],
        labels: &[u8],
        bits: u64,
    ) -> (r: Result<usize, MmapError>)
        requires
            start <= end <= old(self)@.bytes.len(),
        ensures
            ({
                let entry = EntryView { family: family@, sample: sample@, labels: labels@, bits };
                if !lengths_fit(
                    family@.len() as int,
                    sample@.len() as int,
                    labels@.len() as int,
                ) {
                    r == Err::<usize, MmapError>(MmapError::KeyTooLong) && final(self)@ == old(
                        self,
                    )@
                } else if entry.len() > usize::MAX {
                    r == Err::<usize, MmapError>(MmapError::Overflow) && final(self)@ == old(
                        self,
                    )@
                } else if entry.len() > end - start {
                    r == Err::<usize, MmapError>(
                        MmapError::EntryTooLarge {
                            needed: entry.len() as usize,
                            available: (end - start) as usize,
                        },
                    ) && final(self)@ == old(self)@
                } else {
                    r == Ok::<usize, MmapError>(entry.value_offset() as usize) && final(self)@
                        == old(self)@.put(start as int, entry.bytes(), false)
                }
            }),
    {
        let ghost entry = EntryView { family: family@, sample: sample@, labels: labels@, bits };
        let ghost before = self@;
        let (_head, tail) = self.map.split_at_mut(start);
        let (place, _rest) = tail.split_at_mut(end - start);
        match RawEntry::save(place, family, sample, labels, bits) {
            Ok(value_offset) => {
                let ghost after = before.put(start as int, entry.bytes(), false);
                self.steps = Ghost(after.steps);
                proof {
                    law_entry_roundtrip(entry, Seq::empty());
                    assert(self.map@ =~= after.bytes);
                }
                Ok(value_offset)
            },
            Err(e) => {
                assert(self.map@ =~= before.bytes);
                Err(e)
            },
        }
    }

    /// Writes a 32-bit number.
    pub fn put_u32(&mut self, at: usize, x: u32)
        requires
            at + 4 <= old(self)@.bytes.len(),
        ensures
            final(self)@ == old(self)@.put(at as int, native_u32_bytes(x as int), true),
    {
        self.steps = Ghost(self@.put(at as int, native_u32_bytes(x as int), true).steps);
        write_u32(self.map, at, x);
    }

    /// Writes a 64-bit number.
    pub fn put_u64(&mut self, at: usize, x: u64)
        requires
            at + 8 <= old(self)@.bytes.len(),
        ensures
            final(self)@ == old(self)@.put(at as int, native_u64_bytes(x as int), true),
    {
        self.steps = Ghost(self@.put(at as int, native_u64_bytes(x as int), true).steps);
        write_u64(self.map, at, x);
    }

    /// Lets no write that comes later be seen before those that came earlier.
    pub fn fence(&mut self)
        ensures
            final(self)@ == old(self)@.fenced(),
    {
        release_fence();
        self.steps = Ghost(self@.fenced().steps);
    }
}

} // verus!
