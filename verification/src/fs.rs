//! On-disk layout of the file system image: sizes, record formats and the
//! little-endian byte codecs that every other module reads and writes with.
use vstd::prelude::*;

verus! {

/// Bytes per on-disk inode record.
pub const INODE_SIZE: usize = 64;

/// Bytes per directory entry: a 2-byte inode number and a 14-byte name.
pub const DIRENT_SIZE: usize = 16;

/// Bytes per block.
pub const BSIZE: usize = 1024;

/// Inodes per block.
pub const IPB: usize = 16;

/// Bytes of a name in a directory entry.
pub const DIRSIZ: usize = 14;

/// Inode type of a directory.
pub const T_DIR: i16 = 1;

/// Inode type of a regular file.
pub const T_FILE: i16 = 2;

/// Inode type of a device.
pub const T_DEV: i16 = 3;

/// Number of direct block addresses in an inode.
pub const NDIRECT: usize = 12;

/// Number of block addresses held by the indirect block.
pub const NINDIRECT: usize = 256;

/// Largest number of blocks of a file.
pub const MAXFILE: usize = NDIRECT + NINDIRECT;

/// Largest size of a file in bytes.
pub const MAXFILESIZE: usize = MAXFILE * BSIZE;

/// Bytes handed out per read when a whole file is copied out.
pub const BUFSIZE: usize = 1024;

/// Inode number of the root directory.
pub const ROOT_INODE_NUMBER: usize = 1;

/// The super block, stored as eight little-endian `u32` at the start of block 1.
#[derive(Clone, Copy, Debug, PartialEq, Eq, Structural)]
pub struct SuperBlock {
    pub magic: u32,
    pub size: u32,
    pub nblocks: u32,
    pub ninodes: u32,
    pub nlog: u32,
    pub logstart: u32,
    pub inodestart: u32,
    pub bmapstart: u32,
}

/// An inode as read from the image, with the byte position it was read from.
#[derive(Clone, Copy, Debug, PartialEq, Eq)]
pub struct Dinode {
    pub pos: usize,
    pub inum: u16,
    pub file_type: i16,
    pub major: i16,
    pub minor: i16,
    pub nlink: i16,
    pub size: u32,
    pub addrs: [u32; 13],
}

/// A directory entry.
#[derive(Clone, Copy, Debug, PartialEq, Eq)]
pub struct Dirent {
    pub inum: u16,
    pub name: [u8; 14],
}

/// The unsigned 16-bit little-endian value of the two bytes at `p`.
pub open spec fn le16(s: Seq<u8>, p: int) -> int {
    s[p] + 256 * s[p + 1]
}

/// The unsigned 32-bit little-endian value of the four bytes at `p`.
pub open spec fn le32(s: Seq<u8>, p: int) -> int {
    s[p] + 256 * s[p + 1] + 65536 * s[p + 2] + 16777216 * s[p + 3]
}

/// The two's complement reading of a 16-bit pattern.
pub open spec fn as_i16(v: int) -> i16 {
    if v >= 32768 {
        (v - 65536) as i16
    } else {
        v as i16
    }
}

/// The 16-bit pattern of a signed value.
pub open spec fn i16_bits(v: i16) -> int {
    if v < 0 {
        v + 65536
    } else {
        v as int
    }
}

/// Byte `k` (0 = least significant) of `v`.
pub open spec fn byte_of(v: int, k: int) -> u8 {
    if k == 0 {
        (v % 256) as u8
    } else if k == 1 {
        (v / 256 % 256) as u8
    } else if k == 2 {
        (v / 65536 % 256) as u8
    } else {
        (v / 16777216 % 256) as u8
    }
}

/// `s` with `b` written over it from position `p` on.
pub open spec fn splice(s: Seq<u8>, p: int, b: Seq<u8>) -> Seq<u8> {
    Seq::new(s.len(), |i: int| if p <= i < p + b.len() { b[i - p] } else { s[i] })
}

/// The little-endian bytes of a 16-bit pattern.
pub open spec fn le16_bytes(v: int) -> Seq<u8> {
    seq![byte_of(v, 0), byte_of(v, 1)]
}

/// The little-endian bytes of a 32-bit value.
pub open spec fn le32_bytes(v: int) -> Seq<u8> {
    seq![byte_of(v, 0), byte_of(v, 1), byte_of(v, 2), byte_of(v, 3)]
}

/// The super block that an image holds (meaningful when it is long enough).
pub open spec fn superblock_of(img: Seq<u8>) -> SuperBlock {
    SuperBlock {
        magic: le32(img, 1024) as u32,
        size: le32(img, 1028) as u32,
        nblocks: le32(img, 1032) as u32,
        ninodes: le32(img, 1036) as u32,
        nlog: le32(img, 1040) as u32,
        logstart: le32(img, 1044) as u32,
        inodestart: le32(img, 1048) as u32,
        bmapstart: le32(img, 1052) as u32,
    }
}

/// Whether the image is long enough to hold the super block.
pub open spec fn has_superblock(img: Seq<u8>) -> bool {
    img.len() >= 1056
}

/// Byte position of inode `inum` in the inode blocks that `sb` locates.
pub open spec fn inode_pos(sb: SuperBlock, inum: int) -> int {
    1024 * (inum / 16 + sb.inodestart) + 64 * (inum % 16)
}

/// Whether the record of inode `inum` lies inside the image.
pub open spec fn inode_fits(img: Seq<u8>, sb: SuperBlock, inum: int) -> bool {
    inode_pos(sb, inum) + 64 <= img.len()
}

/// The inode record at byte `pos`, tagged with the number `inum`.
pub open spec fn inode_at(img: Seq<u8>, pos: int, inum: usize) -> Dinode {
    Dinode {
        pos: pos as usize,
        inum: inum as u16,
        file_type: as_i16(le16(img, pos)),
        major: as_i16(le16(img, pos + 2)),
        minor: as_i16(le16(img, pos + 4)),
        nlink: as_i16(le16(img, pos + 6)),
        size: le32(img, pos + 8) as u32,
        addrs: [
            le32(img, pos + 12) as u32,
            le32(img, pos + 16) as u32,
            le32(img, pos + 20) as u32,
            le32(img, pos + 24) as u32,
            le32(img, pos + 28) as u32,
            le32(img, pos + 32) as u32,
            le32(img, pos + 36) as u32,
            le32(img, pos + 40) as u32,
            le32(img, pos + 44) as u32,
            le32(img, pos + 48) as u32,
            le32(img, pos + 52) as u32,
            le32(img, pos + 56) as u32,
            le32(img, pos + 60) as u32,
        ],
    }
}

/// The inode number field of a directory entry held in `buf`.
pub open spec fn entry_inum(buf: Seq<u8>) -> int {
    buf[0] + 256 * buf[1]
}

/// The 14 name bytes of a directory entry held in `buf`; bytes past its end read as 0.
pub open spec fn entry_name(buf: Seq<u8>) -> Seq<u8> {
    Seq::new(14, |i: int| if i + 2 < buf.len() { buf[i + 2] } else { 0u8 })
}

/// The directory entry held in `buf`.
pub open spec fn dirent_of(buf: Seq<u8>) -> Dirent {
    Dirent {
        inum: entry_inum(buf) as u16,
        name: [
            entry_name(buf)[0],
            entry_name(buf)[1],
            entry_name(buf)[2],
            entry_name(buf)[3],
            entry_name(buf)[4],
            entry_name(buf)[5],
            entry_name(buf)[6],
            entry_name(buf)[7],
            entry_name(buf)[8],
            entry_name(buf)[9],
            entry_name(buf)[10],
            entry_name(buf)[11],
            entry_name(buf)[12],
            entry_name(buf)[13],
        ],
    }
}

/// The characters of a stored name: its non-zero bytes, each read as the
/// character with that code.
pub open spec fn visible(s: Seq<u8>) -> Seq<char>
    decreases s.len(),
{
    if s.len() == 0 {
        Seq::empty()
    } else if s.last() != 0 {
        visible(s.drop_last()).push(s.last() as char)
    } else {
        visible(s.drop_last())
    }
}

/// Reads the unsigned 16-bit little-endian value at `p`.
pub fn read_u16(img: &Vec<u8>, p: usize) -> (v: u16)
    requires
        p + 2 <= img.len(),
    ensures
        v == le16(img@, p as int),
{
    img[p] as u16 + 256 * (img[p + 1] as u16)
}

/// Reads the unsigned 32-bit little-endian value at `p`.
pub fn read_u32(img: &Vec<u8>, p: usize) -> (v: u32)
    requires
        p + 4 <= img.len(),
    ensures
        v == le32(img@, p as int),
{
    img[p] as u32 + 256 * (img[p + 1] as u32) + 65536 * (img[p + 2] as u32) + 16777216 * (
    img[p + 3] as u32)
}

/// Reads the signed 16-bit little-endian value at `p`.
pub fn read_i16(img: &Vec<u8>, p: usize) -> (v: i16)
    requires
        p + 2 <= img.len(),
    ensures
        v == as_i16(le16(img@, p as int)),
{
    let u = read_u16(img, p);
    if u >= 32768 {
        (u as i32 - 65536) as i16
    } else {
        u as i16
    }
}

} // verus!
