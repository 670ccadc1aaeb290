//! Conversion between the three-bit permission word of the mmap interface and
//! the capability set stored in page-table entries.
use vstd::prelude::*;

verus! {

/// Capabilities of a mapped page.
#[derive(Clone, Copy, Debug, PartialEq, Eq, Structural)]
pub struct MapPermission {
    pub read: bool,
    pub write: bool,
    pub execute: bool,
    pub user: bool,
}

/// Bit of the external encoding that grants read access.
pub const PERM_READ: usize = 1;

/// Bit of the external encoding that grants write access.
pub const PERM_WRITE: usize = 2;

/// Bit of the external encoding that grants execute access.
pub const PERM_EXECUTE: usize = 4;

/// All bits that the external encoding defines.
pub const PERM_MASK: usize = 7;

/// A permission word is acceptable when it grants something and uses only the
/// read, write and execute bits.
pub open spec fn valid_permission_bits(bits: usize) -> bool {
    0 < bits && bits <= PERM_MASK
}

/// Capabilities named by a permission word: bit 0 read, bit 1 write, bit 2 execute.
pub open spec fn decode_spec(bits: usize) -> MapPermission {
    MapPermission {
        read: bits % 2 == 1,
        write: (bits / 2) % 2 == 1,
        execute: (bits / 4) % 2 == 1,
        user: false,
    }
}

/// Capabilities of a page installed by a user mapping request: the decoded
/// bits plus the user bit.
pub open spec fn user_permission_spec(bits: usize) -> MapPermission {
    MapPermission { user: true, ..decode_spec(bits) }
}

/// Permission word of a capability set; the user bit has no encoding.
pub open spec fn encode_spec(p: MapPermission) -> usize {
    ((if p.read { 1int } else { 0 }) + (if p.write { 2int } else { 0 }) + (if p.execute {
        4int
    } else {
        0
    })) as usize
}

/// Whether `bits` is an acceptable permission word for a mapping request.
pub fn is_valid_permission(bits: usize) -> (r: bool)
    ensures
        r == valid_permission_bits(bits),
{
    let r = bits & PERM_MASK != 0 && bits & !PERM_MASK == 0;
    assert(r == (0 < bits && bits <= 7)) by (bit_vector)
        requires
            r == (bits & 7 != 0 && bits & !7usize == 0),
    ;
    r
}

/// Capabilities named by a permission word, without the user bit.
pub fn decode_permission(bits: usize) -> (p: MapPermission)
    ensures
        p == decode_spec(bits),
{
    assert((bits & 1 != 0) == (bits % 2 == 1)) by (bit_vector);
    assert((bits & 2 != 0) == ((bits / 2) % 2 == 1)) by (bit_vector);
    assert((bits & 4 != 0) == ((bits / 4) % 2 == 1)) by (bit_vector);
    MapPermission {
        read: bits & PERM_READ != 0,
        write: bits & PERM_WRITE != 0,
        execute: bits & PERM_EXECUTE != 0,
        user: false,
    }
}

/// Capabilities of a page installed by a user mapping request.
pub fn user_permission(bits: usize) -> (p: MapPermission)
    ensures
        p == user_permission_spec(bits),
{
    let d = decode_permission(bits);
    MapPermission { user: true, ..d }
}

/// Permission word of a capability set.
pub fn encode_permission(p: MapPermission) -> (bits: usize)
    ensures
        bits == encode_spec(p),
        bits <= PERM_MASK,
{
    let mut bits: usize = 0;
    if p.read {
        bits = bits + PERM_READ;
    }
    if p.write {
        bits = bits + PERM_WRITE;
    }
    if p.execute {
        bits = bits + PERM_EXECUTE;
    }
    bits
}

/// Decoding a valid word and encoding the result gives the word back.
pub proof fn lemma_encode_decode(bits: usize)
    requires
        valid_permission_bits(bits),
    ensures
        encode_spec(decode_spec(bits)) == bits,
        encode_spec(user_permission_spec(bits)) == bits,
{
}

/// Encoding a capability set and decoding the word keeps every capability
/// but the user bit.
pub proof fn lemma_decode_encode(p: MapPermission)
    ensures
        decode_spec(encode_spec(p)) == (MapPermission { user: false, ..p }),
{
}

} // verus!
