//! Byte strings.

use vstd::prelude::*;
use vstd::slice::*;

verus! {

/// The views of a list of byte strings.
pub open spec fn contents(list: Seq<Vec<u8>>) -> Seq<Seq<u8>> {
    list.map_values(|v: Vec<u8>| v@)
}

pub proof fn lemma_contents_push(list: Seq<Vec<u8>>, v: Vec<u8>)
    ensures
        contents(list.push(v)) == contents(list).push(v@),
{
    assert(contents(list.push(v)) =~= contents(list).push(v@));
}

/// The big-endian number in the two bytes from `at` on.
pub open spec fn be16(d: Seq<u8>, at: int) -> int {
    d[at] * 0x100 + d[at + 1]
}

/// The big-endian number in the four bytes from `at` on.
pub open spec fn be32(d: Seq<u8>, at: int) -> int {
    d[at] * 0x100_0000 + d[at + 1] * 0x1_0000 + d[at + 2] * 0x100 + d[at + 3]
}

/// The big-endian number in the two bytes from `at` on.
pub fn read_be16(d: &[u8], at: usize) -> (r: u16)
    requires
        at + 2 <= d@.len(),
    ensures
        r == be16(d@, at as int),
{
    d[at] as u16 * 0x100 + d[at + 1] as u16
}

/// The big-endian number in the four bytes from `at` on.
pub fn read_be32(d: &[u8], at: usize) -> (r: u32)
    requires
        at + 4 <= d@.len(),
    ensures
        r == be32(d@, at as int),
{
    d[at] as u32 * 0x100_0000 + d[at + 1] as u32 * 0x1_0000 + d[at + 2] as u32 * 0x100 + d[at + 3] as u32
}

/// A copy of a list of byte strings.
pub fn copy_contents(list: &Vec<Vec<u8>>) -> (r: Vec<Vec<u8>>)
    ensures
        contents(r@) == contents(list@),
{
    let mut r: Vec<Vec<u8>> = Vec::new();
    let mut i: usize = 0;
    while i < list.len()
        invariant
            i <= list@.len(),
            contents(r@) == contents(list@).take(i as int),
        decreases list.len() - i,
    {
        let copy = slice_to_vec(list[i].as_slice());
        proof {
            lemma_contents_push(r@, copy);
        }
        r.push(copy);
        assert(contents(r@) =~= contents(list@).take(i + 1));
        i += 1;
    }
    assert(contents(r@) =~= contents(list@));
    r
}

// ---------------------------------------------------------------------------
// Laws of numbers
// ---------------------------------------------------------------------------


/// The bytes are the digits of the number to base 256, the first the highest.
pub proof fn big_endian_numbers_start_with_the_highest_byte(d: Seq<u8>, at: int)
    requires
        0 <= at,
        at + 4 <= d.len(),
    ensures
        0 <= be16(d, at) < 0x1_0000,
        be16(d, at) / 0x100 == d[at],
        be16(d, at) % 0x100 == d[at + 1],
        0 <= be32(d, at) < 0x1_0000_0000,
        be32(d, at) / 0x100_0000 == d[at],
        be32(d, at) / 0x1_0000 % 0x100 == d[at + 1],
        be32(d, at) / 0x100 % 0x100 == d[at + 2],
        be32(d, at) % 0x100 == d[at + 3],
{
}

/// The view of a list has each byte string at its place.
pub proof fn contents_are_those_of_the_list(list: Seq<Vec<u8>>, i: int)
    requires
        0 <= i < list.len(),
    ensures
        contents(list).len() == list.len(),
        contents(list)[i] == list[i]@,
{
}

} // verus!
