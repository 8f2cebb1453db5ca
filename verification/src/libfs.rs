//! Inode-level operations on an image: the super block, inode records, the
//! block map, reading, writing, allocating and truncating.
//!
//! Each operation is modelled by a spec function that returns `None` exactly
//! where the operation would index outside the image or overflow, and the
//! resulting value (or image) otherwise. The `try_` functions compute the
//! operation and report `None` on those inputs; the plain functions require
//! that the operation completes.
use vstd::prelude::*;
use crate::fs::{
    as_i16, has_superblock, i16_bits, inode_at, inode_fits, inode_pos, le16, le16_bytes, le32,
    le32_bytes, read_i16, read_u32, splice, superblock_of, Dinode, SuperBlock, BSIZE, INODE_SIZE,
    IPB, NDIRECT, NINDIRECT,
};

verus! {

/// Offsets that stay inside one block keep their block number.
pub proof fn lemma_same_block(x: int, d: int)
    requires
        0 <= x,
        0 <= d,
        x % 1024 + d < 1024,
    ensures
        (x + d) / 1024 == x / 1024,
        (x + d) % 1024 == x % 1024 + d,
{
}

/// The byte address at which block `bn` of the inode starts, read through the
/// indirect block where needed; block numbers past the indirect range map to 0.
pub open spec fn block_addr(img: Seq<u8>, ip: Dinode, bn: int) -> Option<int> {
    if bn < 12 {
        let a = 1024 * ip.addrs[bn];
        if a <= usize::MAX {
            Some(a)
        } else {
            None
        }
    } else if bn - 12 >= 256 {
        Some(0)
    } else {
        let p = 1024 * ip.addrs[12] + 4 * (bn - 12);
        if p + 4 > img.len() {
            None
        } else {
            let a = 1024 * le32(img, p);
            if a <= usize::MAX {
                Some(a)
            } else {
                None
            }
        }
    }
}

/// The image address of byte `x` of the inode's contents.
pub open spec fn byte_addr(img: Seq<u8>, ip: Dinode, x: int) -> Option<int> {
    match block_addr(img, ip, x / 1024) {
        Some(b) => Some(b + x % 1024),
        None => None,
    }
}

/// Whether byte `x` of the inode's contents maps to a byte of the image.
pub open spec fn readable(img: Seq<u8>, ip: Dinode, x: int) -> bool {
    &&& byte_addr(img, ip, x) is Some
    &&& byte_addr(img, ip, x).unwrap() < img.len()
}

/// How many bytes a read of `n` bytes at `off` returns: it stops at the size.
pub open spec fn read_count(ip: Dinode, n: int, off: int) -> int {
    if off + n > ip.size {
        ip.size - off
    } else {
        n
    }
}

/// The bytes that a read of `n` bytes at offset `off` of the inode gives.
#[verifier::opaque]
pub open spec fn read_result(img: Seq<u8>, ip: Dinode, n: int, off: int) -> Option<Seq<u8>> {
    let cnt = read_count(ip, n, off);
    if off + n > usize::MAX || cnt < 0 {
        None
    } else if forall|x: int| off <= x < off + cnt ==> #[trigger] readable(img, ip, x) {
        Some(Seq::new(cnt as nat, |j: int| img[byte_addr(img, ip, off + j).unwrap()]))
    } else {
        None
    }
}

/// The image after writing `buf[t..]` at content offset `cur`, one block-sized
/// piece at a time, each piece placed by the block map of the image as it
/// stands when the piece begins.
pub open spec fn write_chunks(img: Seq<u8>, ip: Dinode, cur: int, buf: Seq<u8>, t: int) -> Option<
    Seq<u8>,
>
    decreases buf.len() - t,
{
    if t >= buf.len() {
        Some(img)
    } else {
        let o = cur % 1024;
        let m = if buf.len() - t < 1024 - o {
            buf.len() - t
        } else {
            1024 - o
        };
        match byte_addr(img, ip, cur) {
            None => None,
            Some(pos) => if pos + m > img.len() {
                None
            } else {
                write_chunks(splice(img, pos, buf.subrange(t, t + m)), ip, cur + m, buf, t + m)
            },
        }
    }
}

/// The image after writing `buf` at offset `off` of the inode: the contents,
/// then the size field of the inode record when the write ends past the size
/// (the end offset taken modulo 2^32).
#[verifier::opaque]
pub open spec fn write_result(img: Seq<u8>, ip: Dinode, off: int, buf: Seq<u8>) -> Option<Seq<u8>> {
    if off + buf.len() > usize::MAX {
        None
    } else {
        match write_chunks(img, ip, off, buf, 0) {
            None => None,
            Some(img2) => {
                let end = (off + buf.len()) % 0x1_0000_0000;
                if buf.len() > 0 && end > ip.size {
                    if ip.pos + 12 > img2.len() {
                        None
                    } else {
                        Some(splice(img2, ip.pos + 8, le32_bytes(end)))
                    }
                } else {
                    Some(img2)
                }
            },
        }
    }
}

/// Reads the super block.
pub fn get_superblock(img: &Vec<u8>) -> (sb: SuperBlock)
    requires
        has_superblock(img@),
    ensures
        sb == superblock_of(img@),
{
    SuperBlock {
        magic: read_u32(img, BSIZE),
        size: read_u32(img, BSIZE + 4),
        nblocks: read_u32(img, BSIZE + 8),
        ninodes: read_u32(img, BSIZE + 12),
        nlog: read_u32(img, BSIZE + 16),
        logstart: read_u32(img, BSIZE + 20),
        inodestart: read_u32(img, BSIZE + 24),
        bmapstart: read_u32(img, BSIZE + 28),
    }
}

/// Whether the record of inode `inum` lies inside the image.
pub fn inode_in_image(img: &Vec<u8>, sblk: &SuperBlock, inum: usize) -> (b: bool)
    ensures
        b == inode_fits(img@, *sblk, inum as int),
{
    let len = img.len();
    let blk = inum / IPB;
    let start = sblk.inodestart as usize;
    if blk > usize::MAX - start {
        assert(inum % 16 >= 0);
        assert(inode_pos(*sblk, inum as int) >= 1024 * (blk + start));
        return false;
    }
    let b = blk + start;
    if b > img.len() / BSIZE {
        return false;
    }
    let o = inum % IPB;
    64 * o + 64 <= img.len() - BSIZE * b
}

/// Reads inode `inum` from the inode blocks that `sblk` locates.
pub fn iget(img: &Vec<u8>, sblk: &SuperBlock, inum: usize) -> (d: Dinode)
    requires
        inode_fits(img@, *sblk, inum as int),
    ensures
        d == inode_at(img@, inode_pos(*sblk, inum as int), inum),
{
    assert(1024 * (inum / 16 + sblk.inodestart) <= img.len());
    let pos = inum / IPB + sblk.inodestart as usize;
    let offset = inum % IPB;
    let inode_pos = BSIZE * pos + INODE_SIZE * offset;
    let p = inode_pos;
    Dinode {
        pos: inode_pos,
        inum: #[verifier::truncate] (inum as u16),
        file_type: read_i16(img, p),
        major: read_i16(img, p + 2),
        minor: read_i16(img, p + 4),
        nlink: read_i16(img, p + 6),
        size: read_u32(img, p + 8),
        addrs: [
            read_u32(img, p + 12),
            read_u32(img, p + 16),
            read_u32(img, p + 20),
            read_u32(img, p + 24),
            read_u32(img, p + 28),
            read_u32(img, p + 32),
            read_u32(img, p + 36),
            read_u32(img, p + 40),
            read_u32(img, p + 44),
            read_u32(img, p + 48),
            read_u32(img, p + 52),
            read_u32(img, p + 56),
            read_u32(img, p + 60),
        ],
    }
}

/// The byte address of block `n` of the inode, or `None` where the lookup
/// would leave the image or overflow.
pub fn try_bmap(img: &Vec<u8>, ip: &Dinode, n: usize) -> (r: Option<usize>)
    ensures
        r is Some <==> block_addr(img@, *ip, n as int) is Some,
        r is Some ==> block_addr(img@, *ip, n as int) == Some(r.unwrap() as int),
{
    if n < NDIRECT {
        let a = ip.addrs[n] as u64 * 1024;
        if a <= usize::MAX as u64 {
            Some(a as usize)
        } else {
            None
        }
    } else {
        let k = n - NDIRECT;
        if k >= NINDIRECT {
            return Some(0);
        }
        let p = ip.addrs[NDIRECT] as u64 * 1024 + k as u64 * 4;
        if p + 4 > img.len() as u64 {
            return None;
        }
        let a = read_u32(img, p as usize) as u64 * 1024;
        if a <= usize::MAX as u64 {
            Some(a as usize)
        } else {
            None
        }
    }
}

/// The byte address of block `n` of the inode.
pub fn bmap(img: &Vec<u8>, ip: &Dinode, n: usize) -> (a: usize)
    requires
        block_addr(img@, *ip, n as int) is Some,
    ensures
        block_addr(img@, *ip, n as int) == Some(a as int),
{
    match try_bmap(img, ip, n) {
        Some(a) => a,
        None => 0,
    }
}

/// Reads up to `n` bytes at offset `off` of the inode, or `None` where the
/// read would leave the image or overflow.
#[verifier::spinoff_prover]
pub fn try_iread(img: &Vec<u8>, ip: &Dinode, n: usize, off: usize) -> (r: Option<Vec<u8>>)
    ensures
        r is Some <==> read_result(img@, *ip, n as int, off as int) is Some,
        r is Some ==> read_result(img@, *ip, n as int, off as int) == Some(r.unwrap()@),
{
    reveal(read_result);
    if n > usize::MAX - off {
        return None;
    }
    let size = ip.size as usize;
    let cnt = if off + n > size {
        if off > size {
            return None;
        }
        size - off
    } else {
        n
    };
    let mut buf: Vec<u8> = Vec::new();
    let mut cur = off;
    let mut t: usize = 0;
    while t < cnt
        invariant
            cnt == read_count(*ip, n as int, off as int),
            off + n <= usize::MAX,
            t <= cnt,
            cur == off + t,
            buf@ =~= Seq::new(t as nat, |j: int| img@[byte_addr(img@, *ip, off + j).unwrap()]),
            forall|x: int| off <= x < off + t ==> #[trigger] readable(img@, *ip, x),
        decreases cnt - t,
    {
        proof {
            reveal(read_result);
        }
        let o = cur % BSIZE;
        let base = match try_bmap(img, ip, cur / BSIZE) {
            Some(b) => b,
            None => {
                assert(!readable(img@, *ip, cur as int));
                return None;
            },
        };
        let m = if cnt - t < BSIZE - o {
            cnt - t
        } else {
            BSIZE - o
        };
        proof {
            assert forall|x: int| cur <= x < cur + m implies #[trigger] byte_addr(img@, *ip, x)
                == Some(base + o + (x - cur)) by {
                lemma_same_block(cur as int, x - cur);
            }
        }
        if base > img.len() || o > img.len() - base || m > img.len() - base - o {
            assert(byte_addr(img@, *ip, cur + m - 1) == Some(base + o + m - 1));
            assert(!readable(img@, *ip, cur + m - 1));
            return None;
        }
        let pos = base + o;
        let ghost buf0 = buf@;
        let mut i: usize = 0;
        while i < m
            invariant
                i <= m,
                pos + m <= img.len(),
                buf@ =~= buf0 + Seq::new(i as nat, |d: int| img@[pos + d]),
            decreases m - i,
        {
            buf.push(img[pos + i]);
            i += 1;
        }
        t += m;
        cur += m;
    }
    Some(buf)
}

/// Reads up to `n` bytes at offset `off` of the inode; the read stops at the
/// inode's size.
pub fn iread(img: &Vec<u8>, ip: &Dinode, n: usize, off: usize) -> (buf: Vec<u8>)
    requires
        read_result(img@, *ip, n as int, off as int) is Some,
    ensures
        read_result(img@, *ip, n as int, off as int) == Some(buf@),
{
    match try_iread(img, ip, n, off) {
        Some(buf) => buf,
        None => Vec::new(),
    }
}

/// Writes `buf` at offset `off` of the inode; reports `false` where the write
/// would leave the image or overflow (the image is then partly written).
#[verifier::spinoff_prover]
pub fn try_iwrite(img: &mut Vec<u8>, ip: &Dinode, off: usize, buf: &Vec<u8>) -> (ok: bool)
    ensures
        ok <==> write_result(old(img)@, *ip, off as int, buf@) is Some,
        ok ==> write_result(old(img)@, *ip, off as int, buf@) == Some(final(img)@),
{
    proof {
        reveal(write_result);
    }
    let n = buf.len();
    if n > usize::MAX - off {
        return false;
    }
    let mut cur = off;
    let mut t: usize = 0;
    while t < n
        invariant
            n == buf@.len(),
            off + n <= usize::MAX,
            t <= n,
            cur == off + t,
            img@.len() == old(img)@.len(),
            write_chunks(old(img)@, *ip, off as int, buf@, 0) == write_chunks(
                img@,
                *ip,
                cur as int,
                buf@,
                t as int,
            ),
        decreases n - t,
    {
        proof {
            reveal(write_result);
        }
        let len = img.len();
        let o = cur % BSIZE;
        let base = match try_bmap(img, ip, cur / BSIZE) {
            Some(b) => b,
            None => return false,
        };
        let m = if n - t < BSIZE - o {
            n - t
        } else {
            BSIZE - o
        };
        if base > len || o > len - base || m > len - base - o {
            return false;
        }
        let pos = base + o;
        let ghost before = img@;
        let mut i: usize = 0;
        while i < m
            invariant
                i <= m,
                pos + m <= before.len(),
                before.len() == len,
                t + m <= n,
                n == buf@.len(),
                img@ =~= splice(before, pos as int, buf@.subrange(t as int, t + i)),
            decreases m - i,
        {
            img[pos + i] = buf[t + i];
            i += 1;
        }
        t += m;
        cur += m;
    }
    let len = img.len();
    let end = (cur as u64 % 0x1_0000_0000) as u32;
    if t > 0 && end > ip.size {
        if ip.pos > len || 12 > len - ip.pos {
            return false;
        }
        let ghost before = img@;
        img[ip.pos + 8] = (end % 256) as u8;
        img[ip.pos + 9] = (end / 256 % 256) as u8;
        img[ip.pos + 10] = (end / 65536 % 256) as u8;
        img[ip.pos + 11] = (end / 16777216 % 256) as u8;
        assert(img@ =~= splice(before, ip.pos + 8, le32_bytes(end as int)));
    }
    true
}

/// Writes `buf` at offset `off` of the inode and, when the write ends past the
/// inode's size, records the new end in the inode's size field on the image.
pub fn iwrite(img: &mut Vec<u8>, ip: &Dinode, off: usize, buf: &Vec<u8>)
    requires
        write_result(old(img)@, *ip, off as int, buf@) is Some,
    ensures
        write_result(old(img)@, *ip, off as int, buf@) == Some(final(img)@),
{
    try_iwrite(img, ip, off, buf);
}

/// The first inode number from `inum` up to the super block's count whose
/// record has type 0; `None` where a record before it lies outside the image.
pub open spec fn free_inode_from(img: Seq<u8>, sb: SuperBlock, inum: int) -> Option<Option<int>>
    decreases sb.ninodes - inum,
{
    if inum >= sb.ninodes {
        Some(None)
    } else if !inode_fits(img, sb, inum) {
        None
    } else if as_i16(le16(img, inode_pos(sb, inum))) == 0 {
        Some(Some(inum))
    } else {
        free_inode_from(img, sb, inum + 1)
    }
}

/// The image and the inode after allocating a free inode of type `file_type`:
/// the type is written to the first free record from number 1 on; nothing
/// else of the record changes.
pub open spec fn alloc_result(img: Seq<u8>, file_type: i16) -> Option<(Seq<u8>, Option<Dinode>)> {
    if !has_superblock(img) {
        None
    } else {
        let sb = superblock_of(img);
        match free_inode_from(img, sb, 1) {
            None => None,
            Some(None) => Some((img, None)),
            Some(Some(inum)) => {
                let pos = inode_pos(sb, inum);
                Some(
                    (
                        splice(img, pos, le16_bytes(i16_bits(file_type))),
                        Some(Dinode { file_type, ..inode_at(img, pos, inum as usize) }),
                    ),
                )
            },
        }
    }
}

/// Allocates a free inode of type `file_type`; `None` where the scan would
/// leave the image.
#[verifier::spinoff_prover]
pub fn try_ialloc(img: &mut Vec<u8>, file_type: i16) -> (r: Option<Option<Dinode>>)
    ensures
        r is Some <==> alloc_result(old(img)@, file_type) is Some,
        r is Some ==> alloc_result(old(img)@, file_type) == Some((final(img)@, r.unwrap())),
        r is None ==> final(img)@ == old(img)@,
{
    if img.len() < BSIZE + 32 {
        return None;
    }
    let sblk = get_superblock(img);
    let mut inum: u32 = 1;
    while inum < sblk.ninodes
        invariant
            has_superblock(img@),
            sblk == superblock_of(img@),
            img@ == old(img)@,
            1 <= inum,
            free_inode_from(img@, sblk, 1) == free_inode_from(img@, sblk, inum as int),
        decreases sblk.ninodes - inum,
    {
        let sb = get_superblock(img);
        if !inode_in_image(img, &sb, inum as usize) {
            return None;
        }
        let mut inode = iget(img, &sb, inum as usize);
        if inode.file_type == 0 {
            inode.file_type = file_type;
            let len = img.len();
            let inum = inum as usize;
            assert(1024 * (inum / 16 + sblk.inodestart) <= len);
            let pos = inum / IPB + sblk.inodestart as usize;
            let offset = inum % IPB;
            let inode_pos = BSIZE * pos + INODE_SIZE * offset;
            let bits: u16 = if file_type < 0 {
                (file_type as i32 + 65536) as u16
            } else {
                file_type as u16
            };
            let ghost before = img@;
            img[inode_pos + 1] = (bits / 256) as u8;
            img[inode_pos + 0] = (bits % 256) as u8;
            assert(img@ =~= splice(before, inode_pos as int, le16_bytes(i16_bits(file_type))));
            return Some(Some(inode));
        }
        inum += 1;
    }
    Some(None)
}

/// Allocates a free inode of type `file_type`: writes the type into the first
/// record from number 1 on whose type is 0 and returns that inode, or `None`
/// when every record is in use.
pub fn ialloc(img: &mut Vec<u8>, file_type: i16) -> (r: Option<Dinode>)
    requires
        alloc_result(old(img)@, file_type) is Some,
    ensures
        alloc_result(old(img)@, file_type) == Some((final(img)@, r)),
{
    match try_ialloc(img, file_type) {
        Some(r) => r,
        None => None,
    }
}

/// The image with the block at byte `p` set to zeros.
pub open spec fn zero_block(s: Seq<u8>, p: int) -> Seq<u8> {
    Seq::new(s.len(), |i: int| if p <= i < p + 1024 { 0u8 } else { s[i] })
}

/// The image after zeroing the direct blocks `i..cnt` of the inode.
pub open spec fn zero_direct(img: Seq<u8>, ip: Dinode, i: int, cnt: int) -> Option<Seq<u8>>
    decreases cnt - i,
{
    if i >= cnt {
        Some(img)
    } else {
        let p = 1024 * ip.addrs[i];
        if p + 1024 > img.len() {
            None
        } else {
            zero_direct(zero_block(img, p), ip, i + 1, cnt)
        }
    }
}

/// The image after zeroing the blocks that the block map gives for block
/// numbers `i..cnt`, each looked up in the image as it stands at that step.
pub open spec fn zero_mapped(img: Seq<u8>, ip: Dinode, i: int, cnt: int) -> Option<Seq<u8>>
    decreases cnt - i,
{
    if i >= cnt {
        Some(img)
    } else {
        match block_addr(img, ip, i) {
            None => None,
            Some(p) => if p + 1024 > img.len() {
                None
            } else {
                zero_mapped(zero_block(img, p), ip, i + 1, cnt)
            },
        }
    }
}

/// The image after truncation: with `n` the number of blocks the size covers,
/// the first `min(n, 12)` direct blocks are zeroed; when `n > 12`, the blocks
/// that the block map gives for numbers `0..n - 12` are zeroed, and then the
/// indirect block.
pub open spec fn truncate_result(img: Seq<u8>, ip: Dinode) -> Option<Seq<u8>> {
    if ip.size + 1024 > usize::MAX {
        None
    } else {
        let n = (ip.size + 1023) / 1024;
        let c = if n < 12 {
            n
        } else {
            12
        };
        match zero_direct(img, ip, 0, c) {
            None => None,
            Some(img1) => if n > 12 {
                match zero_mapped(img1, ip, 0, n - 12) {
                    None => None,
                    Some(img2) => {
                        let p = 1024 * ip.addrs[12];
                        if p + 1024 > img2.len() {
                            None
                        } else {
                            Some(zero_block(img2, p))
                        }
                    },
                }
            } else {
                Some(img1)
            },
        }
    }
}

/// Zeroes the block at byte `p`.
fn zero_block_at(img: &mut Vec<u8>, p: usize)
    requires
        p + 1024 <= old(img)@.len(),
    ensures
        final(img)@ == zero_block(old(img)@, p as int),
{
    let ghost before = img@;
    let len = img.len();
    let mut j: usize = 0;
    while j < BSIZE
        invariant
            j <= 1024,
            before.len() == len,
            p + 1024 <= before.len(),
            img@ =~= Seq::new(
                before.len(),
                |i: int| if p <= i < p + j { 0u8 } else { before[i] },
            ),
        decreases 1024 - j,
    {
        img[p + j] = 0;
        j += 1;
    }
    assert(img@ =~= zero_block(before, p as int));
}

/// Zeroes the data blocks and the indirect block of the inode (its size
/// field is left as it is).
#[verifier::spinoff_prover]
pub fn itruncate(img: &mut Vec<u8>, ip: &Dinode)
    requires
        truncate_result(old(img)@, *ip) is Some,
    ensures
        truncate_result(old(img)@, *ip) == Some(final(img)@),
{
    assert(ip.size + 1024 <= usize::MAX);
    let n = (ip.size as usize + BSIZE - 1) / BSIZE;
    let c = if n < NDIRECT {
        n
    } else {
        NDIRECT
    };
    let mut i: usize = 0;
    while i < c
        invariant
            i <= c,
            c <= 12,
            c == (if n < 12 { n } else { 12 }),
            n == (ip.size + 1023) / 1024,
            zero_direct(old(img)@, *ip, 0, c as int) == zero_direct(img@, *ip, i as int, c as int),
            zero_direct(img@, *ip, i as int, c as int) is Some,
        decreases c - i,
    {
        let len = img.len();
        let p = ip.addrs[i] as usize * BSIZE;
        zero_block_at(img, p);
        i += 1;
    }
    if n > NDIRECT {
        let iaddr = ip.addrs[NDIRECT];
        let ni = n - NDIRECT;
        let ghost img1 = img@;
        let mut i: usize = 0;
        while i < ni
            invariant
                i <= ni,
                ni == n - 12,
                n == (ip.size + 1023) / 1024,
                iaddr == ip.addrs[12],
                zero_mapped(img1, *ip, 0, ni as int) == zero_mapped(img@, *ip, i as int, ni as int),
                zero_mapped(img@, *ip, i as int, ni as int) is Some,
                truncate_result(old(img)@, *ip) == match zero_mapped(img1, *ip, 0, ni as int) {
                    None => None,
                    Some(img2) => {
                        let p = 1024 * ip.addrs[12];
                        if p + 1024 > img2.len() {
                            None
                        } else {
                            Some(zero_block(img2, p))
                        }
                    },
                },
            decreases ni - i,
        {
            let pos = bmap(img, ip, i);
            zero_block_at(img, pos);
            i += 1;
        }
        let len = img.len();
        assert(1024 * iaddr + 1024 <= len);
        zero_block_at(img, iaddr as usize * BSIZE);
    }
}

} // verus!
