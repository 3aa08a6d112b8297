//! The header that stands before every entry of an archive.

use vstd::arithmetic::power::pow;
use vstd::prelude::*;

verus! {

/// Owner and group of every entry.
pub const ROOT_ID: u64 = 0;

/// Permissions of the database entry.
pub const SNAPSHOT_MODE: u32 = 420;

/// What an entry's header says. The owner is always root, and the name is added
/// when the entry is appended.
#[derive(Debug, Clone, Copy, PartialEq, Eq, Structural)]
pub struct EntryHeader {
    /// Length of the content, in bytes.
    pub size: u64,
    /// Permission bits.
    pub mode: u32,
    /// Modification time, in seconds since the epoch.
    pub mtime: u64,
}

/// `n` in octal, padded to `width` bytes of which the last is NUL; digits that
/// do not fit are dropped from the front.
pub open spec fn octal_field(n: nat, width: nat) -> Seq<u8> {
    Seq::new(
        width,
        |i: int|
            if i == width - 1 {
                0
            } else {
                (48 + n as int / pow(8, (width - 2 - i) as nat) % 8) as u8
            },
    )
}

/// `n` as `width` bytes, the most significant first.
pub open spec fn big_endian(n: nat, width: nat) -> Seq<u8> {
    Seq::new(width, |i: int| (n as int / pow(256, (width - 1 - i) as nat) % 256) as u8)
}

/// A numeric field: octal where the digits fit, else binary with the highest bit
/// set.
pub open spec fn number_field(n: nat, width: nat) -> Seq<u8> {
    if n < pow(8, (width - 1) as nat) {
        octal_field(n, width)
    } else {
        let plain = big_endian(n, width);
        plain.update(0, (128 + plain[0] % 128) as u8)
    }
}

pub open spec fn zeros(count: nat) -> Seq<u8> {
    Seq::new(count, |i: int| 0u8)
}

/// A ustar header without name and checksum.
pub open spec fn header_block(size: nat, mode: nat, uid: nat, gid: nat, mtime: nat) -> Seq<u8> {
    zeros(100) + octal_field(mode, 8) + number_field(uid, 8) + number_field(gid, 8) + number_field(
        size,
        12,
    ) + number_field(mtime, 12) + zeros(109) + seq![117u8, 115, 116, 97, 114, 0, 48, 48] + zeros(
        247,
    )
}

/// The block of `tar::Header::new_ustar()` once `set_size`, `set_mode`,
/// `set_uid`, `set_gid` and `set_mtime` have filled it: mode, owner, group, size
/// and time each in its place, the ustar mark and version, and zeros elsewhere.
#[verifier::external_body]
fn ustar_header(size: u64, mode: u32, uid: u64, gid: u64, mtime: u64) -> (r: Vec<u8>)
    ensures
        r@ == header_block(size as nat, mode as nat, uid as nat, gid as nat, mtime as nat),
{
    let mut header = tar::Header::new_ustar();
    header.set_size(size);
    header.set_mode(mode);
    header.set_uid(uid);
    header.set_gid(gid);
    header.set_mtime(mtime);
    header.as_bytes().to_vec()
}

impl EntryHeader {
    /// The header as a block of the archive, its name and checksum still blank.
    pub fn block(&self) -> (r: Vec<u8>)
        ensures
            r@ == header_block(self.size as nat, self.mode as nat, 0, 0, self.mtime as nat),
            r@.len() == 512,
    {
        ustar_header(self.size, self.mode, ROOT_ID, ROOT_ID, self.mtime)
    }
}

} // verus!
