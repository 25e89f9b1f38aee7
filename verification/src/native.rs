//! Integers in the byte order of the machine, and in-place edits of byte regions.
//!
//! Metric files are exchanged between processes of one machine, so every
//! integer in them is stored in native byte order. The specifications below
//! hold for either order: they go through [`endianness`], which stands for the
//! order of the executing hardware.

use vstd::endian::{endianness, Endian};
use vstd::prelude::*;

verus! {

/// The number whose four base-256 digits are `b`, least significant first.
pub open spec fn le_u32(b: Seq<u8>) -> int {
    b[0] + 0x100 * b[1] + 0x1_0000 * b[2] + 0x100_0000 * b[3]
}

/// The number whose eight base-256 digits are `b`, least significant first.
pub open spec fn le_u64(b: Seq<u8>) -> int {
    le_u32(b.subrange(0, 4)) + 0x1_0000_0000 * le_u32(b.subrange(4, 8))
}

/// The four base-256 digits of `x`, least significant first.
pub open spec fn le_u32_bytes(x: int) -> Seq<u8> {
    seq![
        (x % 0x100) as u8,
        (x / 0x100 % 0x100) as u8,
        (x / 0x1_0000 % 0x100) as u8,
        (x / 0x100_0000 % 0x100) as u8,
    ]
}

/// The eight base-256 digits of `x`, least significant first.
pub open spec fn le_u64_bytes(x: int) -> Seq<u8> {
    le_u32_bytes(x % 0x1_0000_0000) + le_u32_bytes(x / 0x1_0000_0000)
}

/// The number that four bytes hold in native byte order.
#[verifier::opaque]
pub open spec fn native_u32(b: Seq<u8>) -> int {
    match endianness() {
        Endian::Little => le_u32(b),
        Endian::Big => le_u32(b.reverse()),
    }
}

/// The number that eight bytes hold in native byte order.
#[verifier::opaque]
pub open spec fn native_u64(b: Seq<u8>) -> int {
    match endianness() {
        Endian::Little => le_u64(b),
        Endian::Big => le_u64(b.reverse()),
    }
}

/// The four bytes of `x` in native byte order.
#[verifier::opaque]
pub open spec fn native_u32_bytes(x: int) -> Seq<u8> {
    match endianness() {
        Endian::Little => le_u32_bytes(x),
        Endian::Big => le_u32_bytes(x).reverse(),
    }
}

/// The eight bytes of `x` in native byte order.
#[verifier::opaque]
pub open spec fn native_u64_bytes(x: int) -> Seq<u8> {
    match endianness() {
        Endian::Little => le_u64_bytes(x),
        Endian::Big => le_u64_bytes(x).reverse(),
    }
}

/// `s` with the bytes from position `pos` on replaced by `b`.
pub open spec fn overwrite(s: Seq<u8>, pos: int, b: Seq<u8>) -> Seq<u8> {
    Seq::new(
        s.len(),
        |i: int| if pos <= i < pos + b.len() { b[i - pos] } else { s[i] },
    )
}

proof fn lemma_le_u32(x: int, b: Seq<u8>)
    ensures
        0 <= x <= u32::MAX ==> le_u32(le_u32_bytes(x)) == x,
        le_u32_bytes(x).len() == 4,
        b.len() == 4 ==> le_u32_bytes(le_u32(b)) =~= b,
        0 <= le_u32(b) <= u32::MAX,
{
    if b.len() == 4 {
        let v = le_u32(b);
        assert(v % 0x100 == b[0]);
        assert(v / 0x100 == b[1] + 0x100 * b[2] + 0x1_0000 * b[3]);
        assert(v / 0x1_0000 == b[2] + 0x100 * b[3]);
        assert(v / 0x100_0000 == b[3]);
    }
}

proof fn lemma_le_u64(x: int, b: Seq<u8>)
    ensures
        0 <= x <= u64::MAX ==> le_u64(le_u64_bytes(x)) == x,
        le_u64_bytes(x).len() == 8,
        b.len() == 8 ==> le_u64_bytes(le_u64(b)) =~= b,
        0 <= le_u64(b) <= u64::MAX,
{
    let lo = le_u32_bytes(x % 0x1_0000_0000);
    let hi = le_u32_bytes(x / 0x1_0000_0000);
    lemma_le_u32(x % 0x1_0000_0000, b.subrange(0, 4));
    lemma_le_u32(x / 0x1_0000_0000, b.subrange(4, 8));
    assert((lo + hi).subrange(0, 4) =~= lo);
    assert((lo + hi).subrange(4, 8) =~= hi);
    if b.len() == 8 {
        let l = le_u32(b.subrange(0, 4));
        let h = le_u32(b.subrange(4, 8));
        assert(le_u64(b) % 0x1_0000_0000 == l);
        assert(le_u64(b) / 0x1_0000_0000 == h);
        assert(b =~= b.subrange(0, 4) + b.subrange(4, 8));
    }
}

/// A 32-bit number written in native order is read back unchanged, and four
/// bytes are determined by the number they hold.
pub proof fn law_native_u32(x: int, b: Seq<u8>)
    ensures
        0 <= x <= u32::MAX ==> native_u32(native_u32_bytes(x)) == x,
        native_u32_bytes(x).len() == 4,
        b.len() == 4 ==> native_u32_bytes(native_u32(b)) == b,
        b.len() == 4 ==> 0 <= native_u32(b) <= u32::MAX,
{
    reveal(native_u32);
    reveal(native_u32_bytes);
    lemma_le_u32(x, b);
    lemma_le_u32(x, b.reverse());
    assert(le_u32_bytes(x).reverse().reverse() =~= le_u32_bytes(x));
    assert(b.reverse().reverse() =~= b);
}

/// A 64-bit number written in native order is read back unchanged, and eight
/// bytes are determined by the number they hold.
pub proof fn law_native_u64(x: int, b: Seq<u8>)
    ensures
        0 <= x <= u64::MAX ==> native_u64(native_u64_bytes(x)) == x,
        native_u64_bytes(x).len() == 8,
        b.len() == 8 ==> native_u64_bytes(native_u64(b)) == b,
        b.len() == 8 ==> 0 <= native_u64(b) <= u64::MAX,
{
    reveal(native_u64);
    reveal(native_u64_bytes);
    lemma_le_u64(x, b);
    lemma_le_u64(x, b.reverse());
    assert(le_u64_bytes(x).reverse().reverse() =~= le_u64_bytes(x));
    assert(b.reverse().reverse() =~= b);
}

/// `u32::from_ne_bytes`: the number that the four bytes hold in native order.
#[verifier::external_body]
fn u32_from_ne_bytes(bytes: [u8; 4]) -> (r: u32)
    ensures
        r == native_u32(bytes@),
{
    u32::from_ne_bytes(bytes)
}

/// `u32::to_ne_bytes`: the four bytes of the number in native order.
#[verifier::external_body]
fn u32_to_ne_bytes(x: u32) -> (r: [u8; 4])
    ensures
        r@ == native_u32_bytes(x as int),
{
    x.to_ne_bytes()
}

/// `u64::from_ne_bytes`: the number that the eight bytes hold in native order.
#[verifier::external_body]
fn u64_from_ne_bytes(bytes: [u8; 8]) -> (r: u64)
    ensures
        r == native_u64(bytes@),
{
    u64::from_ne_bytes(bytes)
}

/// `u64::to_ne_bytes`: the eight bytes of the number in native order.
#[verifier::external_body]
fn u64_to_ne_bytes(x: u64) -> (r: [u8; 8])
    ensures
        r@ == native_u64_bytes(x as int),
{
    x.to_ne_bytes()
}

/// `slice::copy_from_slice`: the slice becomes a copy of one of the same length. Nothing
/// is claimed of what others see of it meanwhile.
pub assume_specification<Item>[ <[Item]>::copy_from_slice ](dst: &mut [Item], src: &[Item])
    where Item: Copy
    requires
        old(dst)@.len() == src@.len(),
    ensures
        final(dst)@ == src@,
;

/// Reads the 32-bit number at `pos`.
pub fn read_u32(b: &[u8], pos: usize) -> (r: u32)
    requires
        pos + 4 <= b@.len(),
    ensures
        r == native_u32(b@.subrange(pos as int, pos + 4)),
{
    assert(pos + 4 <= b.len());
    let mut word: [u8; 4] = [0; 4];
    word.copy_from_slice(&b[pos..pos + 4]);
    u32_from_ne_bytes(word)
}

/// Reads the 64-bit number at `pos`.
pub fn read_u64(b: &[u8], pos: usize) -> (r: u64)
    requires
        pos + 8 <= b@.len(),
    ensures
        r == native_u64(b@.subrange(pos as int, pos + 8)),
{
    assert(pos + 8 <= b.len());
    let mut word: [u8; 8] = [0; 8];
    word.copy_from_slice(&b[pos..pos + 8]);
    u64_from_ne_bytes(word)
}

/// Copies `src` over the bytes of `dst` from `pos` on.
#[inline]
pub fn write_bytes(dst: &mut [u8], pos: usize, src: &[u8])
    requires
        pos + src@.len() <= old(dst)@.len(),
    ensures
        final(dst)@ == overwrite(old(dst)@, pos as int, src@),
{
    let ghost before = dst@;
    let (_head, tail) = dst.split_at_mut(pos);
    let (place, _rest) = tail.split_at_mut(src.len());
    place.copy_from_slice(src);
    assert(dst@ =~= overwrite(before, pos as int, src@));
}

/// Fills `len` bytes of `dst` from `pos` on with `byte`.
pub fn fill_bytes(dst: &mut [u8], pos: usize, len: usize, byte: u8)
    requires
        pos + len <= old(dst)@.len(),
    ensures
        final(dst)@ == overwrite(old(dst)@, pos as int, Seq::new(len as nat, |i: int| byte)),
{
    let ghost before = dst@;
    let total: usize = dst.len();
    let mut i: usize = 0;
    while i < len
        invariant
            i <= len,
            pos + len <= before.len(),
            total == before.len(),
            dst@.len() == before.len(),
            forall|k: int|
                0 <= k < before.len() ==> #[trigger] dst@[k] == (if pos <= k < pos + i {
                    byte
                } else {
                    before[k]
                }),
        decreases len - i,
    {
        dst[pos + i] = byte;
        i = i + 1;
    }
}

/// Writes a 32-bit number at `pos`.
pub fn write_u32(dst: &mut [u8], pos: usize, x: u32)
    requires
        pos + 4 <= old(dst)@.len(),
    ensures
        final(dst)@ == overwrite(old(dst)@, pos as int, native_u32_bytes(x as int)),
{
    let word: [u8; 4] = u32_to_ne_bytes(x);
    write_bytes(dst, pos, &word);
}

/// Writes a 64-bit number at `pos`.
pub fn write_u64(dst: &mut [u8], pos: usize, x: u64)
    requires
        pos + 8 <= old(dst)@.len(),
    ensures
        final(dst)@ == overwrite(old(dst)@, pos as int, native_u64_bytes(x as int)),
{
    let word: [u8; 8] = u64_to_ne_bytes(x);
    write_bytes(dst, pos, &word);
}

/// Bytes written over others take their place one by one; all others stay, and none is
/// added.
pub proof fn law_overwrite(s: Seq<u8>, pos: int, b: Seq<u8>, i: int)
    requires
        0 <= pos,
        pos + b.len() <= s.len(),
    ensures
        overwrite(s, pos, b).len() == s.len(),
        overwrite(s, pos, b).subrange(pos, pos + b.len()) == b,
        0 <= i < pos || pos + b.len() <= i < s.len() ==> overwrite(s, pos, b)[i] == s[i],
{
    assert(overwrite(s, pos, b).subrange(pos, pos + b.len()) =~= b);
}

/// A number of bytes in native order: the digits to base 256, from one end or the other
/// and the same end always.
pub proof fn law_native_digits(b: Seq<u8>)
    requires
        b.len() == 4,
    ensures
        native_u32(b) == b[0] + 256 * b[1] + 65536 * b[2] + 16777216 * b[3] || native_u32(b) == b[3]
            + 256 * b[2] + 65536 * b[1] + 16777216 * b[0],
{
    reveal(native_u32);
}

} // verus!
