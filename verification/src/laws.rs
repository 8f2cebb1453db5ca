//! Properties that relate the operations to one another: what a read gives
//! back of a write, what a write leaves alone, what an allocation leaves on
//! the image, that an added entry is found and a cleared one is not, and how
//! paths split into names.
use vstd::prelude::*;
use crate::fs::{
    as_i16, byte_of, entry_inum, entry_name, has_superblock, i16_bits, inode_at, inode_fits, inode_pos,
    le16, le16_bytes, le32, le32_bytes, splice, superblock_of, visible, Dinode, T_DIR, T_FILE,
};
use crate::libfs::{
    alloc_result, block_addr, byte_addr, free_inode_from, lemma_same_block, read_result, readable,
    write_chunks, write_result,
};
use crate::dir::{
    add_entry_result, entry_record, find_entry, free_slot, lookup_result, name_field, path_names,
    split_names, unlink_result, unlink_walk, walk, create_result, create_walk,
};
use crate::cmd::{file_contents, put_result};

verus! {

/// Byte position of the indirect-block entry that maps block `bn`.
pub open spec fn indirect_entry(ip: Dinode, bn: int) -> int {
    1024 * ip.addrs[12] + 4 * (bn - 12)
}

/// Whether block `bn` is looked up through the indirect block.
pub open spec fn is_indirect(bn: int) -> bool {
    12 <= bn < 268
}

/// Whether image address `a` lies in the indirect-block entry of block `bn`.
pub open spec fn in_entry(ip: Dinode, bn: int, a: int) -> bool {
    is_indirect(bn) && indirect_entry(ip, bn) <= a < indirect_entry(ip, bn) + 4
}

/// Whether image address `a` lies in the size field of the inode's record.
pub open spec fn in_size_field(ip: Dinode, a: int) -> bool {
    ip.pos + 8 <= a < ip.pos + 12
}

/// The conditions under which a write of `n` bytes at `off` lands where the
/// block map of `img` says, byte for byte: every byte maps into the image,
/// no two bytes share an address, and no byte (nor the size field) lands on
/// an indirect-block entry that the write looks up, nor on the size field.
#[verifier::opaque]
pub open spec fn write_separated(img: Seq<u8>, ip: Dinode, off: int, n: int) -> bool {
    &&& forall|x: int| off <= x < off + n ==> #[trigger] readable(img, ip, x)
    &&& forall|x: int, y: int|
        off <= x < off + n && off <= y < off + n && x != y ==> #[trigger] byte_addr(img, ip, x)
            != #[trigger] byte_addr(img, ip, y)
    &&& forall|x: int, y: int|
        off <= x < off + n && off <= y < off + n ==> !in_entry(
            ip,
            #[trigger] (x / 1024),
            #[trigger] byte_addr(img, ip, y).unwrap(),
        )
    &&& forall|x: int|
        off <= x < off + n ==> !in_size_field(ip, #[trigger] byte_addr(img, ip, x).unwrap())
    &&& forall|x: int, a: int|
        off <= x < off + n && #[trigger] in_size_field(ip, a) ==> !in_entry(
            ip,
            #[trigger] (x / 1024),
            a,
        )
}

/// Whether `img` and `img0` hold the same bytes in the indirect-block entries
/// of the blocks that offsets `off..off + n` fall in.
pub open spec fn entries_agree(img: Seq<u8>, img0: Seq<u8>, ip: Dinode, off: int, n: int) -> bool {
    &&& img.len() == img0.len()
    &&& forall|x: int, a: int|
        off <= x < off + n && in_entry(ip, #[trigger] (x / 1024), a) && 0 <= a < img.len()
            ==> #[trigger] img[a] == img0[a]
}

/// Two images that agree on a block's indirect entry map it alike.
proof fn lemma_block_addr_agree(img: Seq<u8>, img0: Seq<u8>, ip: Dinode, off: int, n: int, x: int)
    requires
        entries_agree(img, img0, ip, off, n),
        off <= x < off + n,
        0 <= x,
    ensures
        block_addr(img, ip, x / 1024) == block_addr(img0, ip, x / 1024),
        byte_addr(img, ip, x) == byte_addr(img0, ip, x),
{
    let bn = x / 1024;
    if is_indirect(bn) {
        let p = indirect_entry(ip, bn);
        if p + 4 <= img.len() {
            assert(in_entry(ip, bn, p));
            assert(in_entry(ip, bn, p + 1));
            assert(in_entry(ip, bn, p + 2));
            assert(in_entry(ip, bn, p + 3));
            assert(img[p] == img0[p]);
            assert(img[p + 1] == img0[p + 1]);
            assert(img[p + 2] == img0[p + 2]);
            assert(img[p + 3] == img0[p + 3]);
            assert(le32(img, p) == le32(img0, p));
        }
    }
}

/// Block addresses depend on the inode only through its address table.
proof fn lemma_byte_addr_addrs(img: Seq<u8>, ip: Dinode, ip2: Dinode, x: int)
    requires
        ip2.addrs == ip.addrs,
    ensures
        byte_addr(img, ip2, x) == byte_addr(img, ip, x),
{
    assert(ip2.addrs[12] == ip.addrs[12]);
    let bn = x / 1024;
    if bn < 12 {
        assert(ip2.addrs[bn] == ip.addrs[bn]);
    }
}

/// Whether some content offset in `lo..hi` maps to image address `a`.
pub open spec fn written_to(img: Seq<u8>, ip: Dinode, lo: int, hi: int, a: int) -> bool {
    exists|x: int| lo <= x < hi && #[trigger] byte_addr(img, ip, x) == Some(a)
}

/// The piecewise write from piece offset `t` on places each remaining byte at
/// its address under the block map of `img0`, and changes nothing else.
#[verifier::spinoff_prover]
proof fn lemma_write_chunks(
    img0: Seq<u8>,
    img: Seq<u8>,
    ip: Dinode,
    off: int,
    buf: Seq<u8>,
    t: int,
    img2: Seq<u8>,
)
    requires
        0 <= off,
        0 <= t <= buf.len(),
        write_chunks(img, ip, off + t, buf, t) == Some(img2),
        write_separated(img0, ip, off, buf.len() as int),
        entries_agree(img, img0, ip, off, buf.len() as int),
    ensures
        img2.len() == img.len(),
        entries_agree(img2, img0, ip, off, buf.len() as int),
        forall|x: int|
            off + t <= x < off + buf.len() ==> img2[#[trigger] byte_addr(img0, ip, x).unwrap()]
                == buf[x - off],
        forall|a: int|
            0 <= a < img.len() && !written_to(img0, ip, off + t, off + buf.len(), a)
                ==> #[trigger] img2[a] == img[a],
    decreases buf.len() - t,
{
    reveal(write_separated);
    let n = buf.len() as int;
    if t >= n {
        return;
    }
    let cur = off + t;
    let o = cur % 1024;
    let m = if n - t < 1024 - o {
        n - t
    } else {
        1024 - o
    };
    lemma_block_addr_agree(img, img0, ip, off, n, cur);
    let pos = byte_addr(img, ip, cur).unwrap();
    let img1 = splice(img, pos, buf.subrange(t, t + m));
    assert forall|x: int| cur <= x < cur + m implies #[trigger] byte_addr(img0, ip, x) == Some(
        pos + (x - cur),
    ) by {
        lemma_same_block(cur, x - cur);
    }
    assert(entries_agree(img1, img0, ip, off, n)) by {
        assert forall|x: int, a: int|
            off <= x < off + n && in_entry(ip, #[trigger] (x / 1024), a) && 0 <= a < img1.len()
                implies #[trigger] img1[a] == img0[a] by {
            if pos <= a < pos + m {
                let y = cur + (a - pos);
                assert(byte_addr(img0, ip, y) == Some(a));
                assert(!in_entry(ip, x / 1024, byte_addr(img0, ip, y).unwrap()));
            }
        }
    }
    lemma_write_chunks(img0, img1, ip, off, buf, t + m, img2);
    assert forall|x: int| off + t <= x < off + n implies img2[#[trigger] byte_addr(
        img0,
        ip,
        x,
    ).unwrap()] == buf[x - off] by {
        if x < cur + m {
            let a = byte_addr(img0, ip, x).unwrap();
            assert(byte_addr(img0, ip, x) == Some(pos + (x - cur)));
            assert(!written_to(img0, ip, cur + m, off + n, a)) by {
                if written_to(img0, ip, cur + m, off + n, a) {
                    let y = choose|y: int|
                        cur + m <= y < off + n && #[trigger] byte_addr(img0, ip, y) == Some(a);
                    assert(byte_addr(img0, ip, y) != byte_addr(img0, ip, x));
                }
            }
            assert(img1[a] == buf[x - off]);
        }
    }
    assert forall|a: int|
        0 <= a < img.len() && !written_to(img0, ip, off + t, off + n, a) implies #[trigger] img2[a]
        == img[a] by {
        if pos <= a < pos + m {
            let y = cur + (a - pos);
            assert(byte_addr(img0, ip, y) == Some(a));
            assert(written_to(img0, ip, off + t, off + n, a));
        }
        if written_to(img0, ip, cur + m, off + n, a) {
            let y = choose|y: int| cur + m <= y < off + n && #[trigger] byte_addr(img0, ip, y) == Some(a);
            assert(written_to(img0, ip, off + t, off + n, a));
        }
    }
}

/// What a write leaves on the image when it is separated: each written byte
/// at its mapped address, nothing else changed but the size field, the
/// indirect entries it looked up unchanged, and the size field holding the
/// new end when the write ended past the old size.
#[verifier::spinoff_prover]
pub proof fn lemma_write_effect(img: Seq<u8>, ip: Dinode, off: int, buf: Seq<u8>, img2: Seq<u8>)
    requires
        0 <= off,
        write_result(img, ip, off, buf) == Some(img2),
        write_separated(img, ip, off, buf.len() as int),
    ensures
        img2.len() == img.len(),
        entries_agree(img2, img, ip, off, buf.len() as int),
        forall|x: int|
            off <= x < off + buf.len() ==> img2[#[trigger] byte_addr(img, ip, x).unwrap()]
                == buf[x - off],
        forall|a: int|
            0 <= a < img.len() && !in_size_field(ip, a) && !written_to(
                img,
                ip,
                off,
                off + buf.len(),
                a,
            ) ==> #[trigger] img2[a] == img[a],
        buf.len() > 0 && (off + buf.len()) % 0x1_0000_0000 > ip.size ==> le32(img2, ip.pos + 8)
            == (off + buf.len()) % 0x1_0000_0000,
        off + buf.len() <= ip.size ==> forall|a: int|
            0 <= a < img.len() && !written_to(img, ip, off, off + buf.len(), a) ==> #[trigger] img2[a]
                == img[a],
{
    reveal(write_result);
    reveal(write_separated);
    let n = buf.len() as int;
    let w = write_chunks(img, ip, off, buf, 0).unwrap();
    lemma_write_chunks(img, img, ip, off, buf, 0, w);
    let end = (off + n) % 0x1_0000_0000;
    if n > 0 && end > ip.size {
        assert(img2 == splice(w, ip.pos + 8, le32_bytes(end)));
        lemma_size_update(img, ip, off, buf, w, end);
    } else {
        assert(img2 == w);
    }
}

/// Writing the size field after the contents keeps what the contents write
/// left, when neither the bytes written nor the field meet the looked-up
/// indirect entries.
proof fn lemma_size_update(img: Seq<u8>, ip: Dinode, off: int, buf: Seq<u8>, w: Seq<u8>, end: int)
    requires
        w.len() == img.len(),
        ip.pos + 12 <= w.len(),
        entries_agree(w, img, ip, off, buf.len() as int),
        0 <= end < 0x1_0000_0000,
        forall|x: int| off <= x < off + buf.len() ==> #[trigger] readable(img, ip, x),
        forall|x: int|
            off <= x < off + buf.len() ==> !in_size_field(
                ip,
                #[trigger] byte_addr(img, ip, x).unwrap(),
            ),
        forall|x: int|
            off <= x < off + buf.len() ==> w[#[trigger] byte_addr(img, ip, x).unwrap()] == buf[x
                - off],
        forall|a: int|
            0 <= a < img.len() && !written_to(img, ip, off, off + buf.len(), a) ==> #[trigger] w[a]
                == img[a],
        forall|x: int, a: int|
            off <= x < off + buf.len() && #[trigger] in_size_field(ip, a) ==> !in_entry(
                ip,
                #[trigger] (x / 1024),
                a,
            ),
    ensures
        ({
            let img2 = img2_of(w, ip, end);
            &&& entries_agree(img2, img, ip, off, buf.len() as int)
            &&& forall|x: int|
                off <= x < off + buf.len() ==> img2[#[trigger] byte_addr(img, ip, x).unwrap()]
                    == buf[x - off]
            &&& forall|a: int|
                0 <= a < img.len() && !in_size_field(ip, a) && !written_to(
                    img,
                    ip,
                    off,
                    off + buf.len(),
                    a,
                ) ==> #[trigger] img2[a] == img[a]
            &&& le32(img2, ip.pos + 8) == end
        }),
{
    let img2 = img2_of(w, ip, end);
    let n = buf.len() as int;
    assert forall|x: int, a: int|
        off <= x < off + n && in_entry(ip, #[trigger] (x / 1024), a) && 0 <= a < img2.len()
            implies #[trigger] img2[a] == img[a] by {
        if in_size_field(ip, a) {
            assert(!in_entry(ip, x / 1024, a));
        }
    }
    assert forall|a: int|
        0 <= a < img.len() && !in_size_field(ip, a) && !written_to(img, ip, off, off + n, a)
            implies #[trigger] img2[a] == img[a] by {
        assert(w[a] == img[a]);
    }
    assert forall|x: int| off <= x < off + n implies img2[#[trigger] byte_addr(img, ip, x).unwrap()]
        == buf[x - off] by {
        assert(readable(img, ip, x));
    }
    lemma_le32_bytes(end);
    let p = ip.pos + 8;
    let f = le32_bytes(end);
    assert(img2[p] == f[0] && img2[p + 1] == f[1] && img2[p + 2] == f[2] && img2[p + 3] == f[3]);
    assert(le32(img2, p) == le32(f, 0));
}

/// The four bytes of a 32-bit value read back as that value.
pub proof fn lemma_le32_bytes(v: int)
    requires
        0 <= v < 0x1_0000_0000,
    ensures
        le32(le32_bytes(v), 0) == v,
{
    let b0 = v % 256;
    let b1 = v / 256 % 256;
    let b2 = v / 65536 % 256;
    let b3 = v / 16777216 % 256;
    assert(b0 + 256 * b1 + 65536 * b2 + 16777216 * b3 == v) by (nonlinear_arith)
        requires
            0 <= v < 0x1_0000_0000,
            b0 == v % 256,
            b1 == v / 256 % 256,
            b2 == v / 65536 % 256,
            b3 == v / 16777216 % 256,
    ;
}

/// The image `w` with the size field of `ip` set to `end`.
pub open spec fn img2_of(w: Seq<u8>, ip: Dinode, end: int) -> Seq<u8> {
    splice(w, ip.pos + 8, le32_bytes(end))
}

/// A read of the bytes just written gives them back: after a separated write
/// of `buf` at `off`, reading `buf.len()` bytes at `off` through any inode
/// with the same block addresses and a size that covers them gives `buf`.
pub proof fn lemma_read_after_write(
    img: Seq<u8>,
    ip: Dinode,
    off: int,
    buf: Seq<u8>,
    img2: Seq<u8>,
    ip2: Dinode,
)
    requires
        0 <= off,
        write_result(img, ip, off, buf) == Some(img2),
        write_separated(img, ip, off, buf.len() as int),
        ip2.addrs == ip.addrs,
        off + buf.len() <= ip2.size,
    ensures
        read_result(img2, ip2, buf.len() as int, off) == Some(buf),
{
    reveal(write_separated);
    reveal(read_result);
    let n = buf.len() as int;
    lemma_write_effect(img, ip, off, buf, img2);
    assert forall|x: int| off <= x < off + n implies byte_addr(img2, ip2, x) == byte_addr(
        img,
        ip,
        x,
    ) by {
        lemma_block_addr_agree(img2, img, ip, off, n, x);
        lemma_byte_addr_addrs(img2, ip, ip2, x);
    }
    assert forall|x: int| off <= x < off + n implies #[trigger] readable(img2, ip2, x) by {
        assert(readable(img, ip, x));
    }
    let s = Seq::new(n as nat, |j: int| img2[byte_addr(img2, ip2, off + j).unwrap()]);
    assert forall|j: int| 0 <= j < n implies s[j] == buf[j] by {
        assert(byte_addr(img2, ip2, off + j) == byte_addr(img, ip, off + j));
    }
    assert(s =~= buf);
}

/// Allocation leaves on the image the inode it returns: reading the record
/// of the allocated number back, with the super block read before the
/// allocation, gives exactly that inode, which is the record as it was with
/// the new type; the number was free before. (Numbers from 65536 on wrap in
/// the 16-bit inode number.)
#[verifier::spinoff_prover]
pub proof fn lemma_alloc_then_get(
    img: Seq<u8>,
    file_type: i16,
    img2: Seq<u8>,
    d: Dinode,
    inum: int,
)
    requires
        alloc_result(img, file_type) == Some((img2, Some(d))),
        free_inode_from(img, superblock_of(img), 1) == Some(Some(inum)),
        inum < 0x10000,
    ensures
        d.inum == inum,
        inode_fits(img2, superblock_of(img), inum),
        inode_at(img2, inode_pos(superblock_of(img), inum), inum as usize) == d,
        d == (Dinode {
            file_type,
            ..inode_at(img, inode_pos(superblock_of(img), inum), inum as usize)
        }),
        1 <= inum,
{
    let sb = superblock_of(img);
    lemma_free_inode_range(img, sb, 1);
    let pos = inode_pos(sb, inum);
    assert(img2 == splice(img, pos, le16_bytes(i16_bits(file_type))));
    assert(d == (Dinode { file_type, ..inode_at(img, pos, inum as usize) }));
    assert(d.inum as int == inum);
    lemma_type_rewrite(img, pos, inum as usize, file_type);
}

/// Inode records of different numbers lie 64 bytes apart or more.
proof fn lemma_inode_pos_apart(sb: crate::fs::SuperBlock, j: int, k: int)
    requires
        0 <= j,
        0 <= k,
    ensures
        inode_pos(sb, j) == 1024 * sb.inodestart + 64 * j,
        inode_pos(sb, k) == 1024 * sb.inodestart + 64 * k,
{
}

/// A scan over records that an allocation of record `k` left alone, and
/// that passed them before, passes them again and, with `k` now in use,
/// passes `k` too.
proof fn lemma_scan_after_alloc(
    img: Seq<u8>,
    img2: Seq<u8>,
    sb: crate::fs::SuperBlock,
    j: int,
    k: int,
    file_type: i16,
)
    requires
        1 <= j <= k,
        free_inode_from(img, sb, j) == Some(Some(k)),
        img2 == splice(img, inode_pos(sb, k), le16_bytes(i16_bits(file_type))),
        file_type != 0,
    ensures
        free_inode_from(img2, sb, j) matches Some(Some(k2)) ==> k2 > k,
    decreases k - j,
{
    lemma_free_inode_range(img, sb, j);
    lemma_inode_pos_apart(sb, j, k);
    if j < k {
        let p = inode_pos(sb, j);
        assert(img2[p] == img[p] && img2[p + 1] == img[p + 1]);
        lemma_scan_after_alloc(img, img2, sb, j + 1, k, file_type);
    } else {
        let p = inode_pos(sb, k);
        lemma_type_rewrite(img, p, k as usize, file_type);
        assert(as_i16(le16(img2, p)) == inode_at(img2, p, k as usize).file_type);
        lemma_free_inode_range(img2, sb, k + 1);
    }
}

/// An inode handed out with a non-zero type is not handed out again: the
/// next allocation picks a later number, when the allocated record does not
/// lie on the super block.
pub proof fn lemma_alloc_never_reuses(
    img: Seq<u8>,
    t1: i16,
    img2: Seq<u8>,
    a: Dinode,
    k1: int,
    t2: i16,
    img3: Seq<u8>,
    b: Dinode,
    k2: int,
)
    requires
        t1 != 0,
        alloc_result(img, t1) == Some((img2, Some(a))),
        free_inode_from(img, superblock_of(img), 1) == Some(Some(k1)),
        inode_pos(superblock_of(img), k1) + 2 <= 1024 || inode_pos(superblock_of(img), k1)
            >= 1056,
        alloc_result(img2, t2) == Some((img3, Some(b))),
        free_inode_from(img2, superblock_of(img2), 1) == Some(Some(k2)),
    ensures
        k2 > k1,
{
    let sb = superblock_of(img);
    let p = inode_pos(sb, k1);
    lemma_free_inode_range(img, sb, 1);
    assert(img2 == splice(img, p, le16_bytes(i16_bits(t1))));
    assert(superblock_of(img2) == sb) by {
        assert forall|i: int| 1024 <= i < 1056 implies img2[i] == img[i] by {}
    }
    lemma_scan_after_alloc(img, img2, sb, 1, k1, t1);
}

/// Rewriting the type bytes of an inode record changes only its type.
proof fn lemma_type_rewrite(img: Seq<u8>, pos: int, inum: usize, file_type: i16)
    requires
        0 <= pos,
        pos + 64 <= img.len(),
    ensures
        inode_at(splice(img, pos, le16_bytes(i16_bits(file_type))), pos, inum) == (Dinode {
            file_type,
            ..inode_at(img, pos, inum)
        }),
{
    let img2 = splice(img, pos, le16_bytes(i16_bits(file_type)));
    let r = inode_at(img2, pos, inum);
    let d = Dinode { file_type, ..inode_at(img, pos, inum) };
    let v = i16_bits(file_type);
    assert(byte_of(v, 0) + 256 * byte_of(v, 1) == v) by (nonlinear_arith)
        requires
            0 <= v < 65536,
            byte_of(v, 0) == v % 256,
            byte_of(v, 1) == v / 256 % 256,
    ;
    assert(le16(img2, pos) == v);
    assert(r.file_type == file_type);
    assert(r.addrs =~= d.addrs);
}

/// The free inode found from `inum` on is a number from `inum` up to the count.
proof fn lemma_free_inode_range(img: Seq<u8>, sb: crate::fs::SuperBlock, inum: int)
    ensures
        free_inode_from(img, sb, inum) matches Some(Some(k)) ==> inum <= k < sb.ninodes
            && inode_fits(img, sb, k) && as_i16(le16(img, inode_pos(sb, k))) == 0,
    decreases sb.ninodes - inum,
{
    if inum < sb.ninodes && inode_fits(img, sb, inum) {
        lemma_free_inode_range(img, sb, inum + 1);
    }
}

/// A path made only of slashes, or empty, has no names: looking it up from a
/// directory gives that directory.
pub proof fn lemma_slashes_have_no_names(img: Seq<u8>, rp: Dinode, path: Seq<char>)
    requires
        forall|i: int| 0 <= i < path.len() ==> path[i] == '/',
    ensures
        path_names(path) == Seq::<Seq<char>>::empty(),
        lookup_result(img, rp, path) == Some(Some(rp)),
{
    lemma_slashes_split(path);
}

proof fn lemma_slashes_split(path: Seq<char>)
    requires
        forall|i: int| 0 <= i < path.len() ==> path[i] == '/',
    ensures
        split_names(path).0 == Seq::<Seq<char>>::empty(),
        split_names(path).1 == Seq::<char>::empty(),
    decreases path.len(),
{
    if path.len() > 0 {
        lemma_slashes_split(path.drop_last());
    }
}

/// Every name that a path splits into is non-empty and holds no slash.
pub proof fn lemma_names_are_plain(path: Seq<char>)
    ensures
        forall|k: int|
            0 <= k < path_names(path).len() ==> #[trigger] path_names(path)[k].len() > 0
                && !path_names(path)[k].contains('/'),
{
    lemma_split_plain(path);
}

proof fn lemma_split_plain(path: Seq<char>)
    ensures
        forall|k: int|
            0 <= k < split_names(path).0.len() ==> #[trigger] split_names(path).0[k].len() > 0
                && !split_names(path).0[k].contains('/'),
        !split_names(path).1.contains('/'),
    decreases path.len(),
{
    if path.len() > 0 {
        let prev = split_names(path.drop_last());
        lemma_split_plain(path.drop_last());
        if path.last() != '/' {
            assert forall|i: int| 0 <= i < prev.1.push(path.last()).len() implies prev.1.push(
                path.last(),
            )[i] != '/' by {
                if i < prev.1.len() {
                    assert(prev.1[i] != '/') by {
                        if prev.1[i] == '/' {
                            assert(prev.1.contains('/'));
                        }
                    }
                }
            }
        }
    }
}

/// A stored name of zero bytes only reads as the empty name.
proof fn lemma_visible_zeros(s: Seq<u8>)
    requires
        forall|i: int| 0 <= i < s.len() ==> s[i] == 0,
    ensures
        visible(s) == Seq::<char>::empty(),
    decreases s.len(),
{
    if s.len() > 0 {
        lemma_visible_zeros(s.drop_last());
    }
}

/// An entry that a lookup finds lies at a multiple of 16 from entry `j` on,
/// and reads there with the name looked up.
proof fn lemma_found_entry(img: Seq<u8>, dp: Dinode, name: Seq<char>, j: int)
    requires
        0 <= j,
    ensures
        find_entry(img, dp, name, j) matches Some(Some((d, o))) ==> {
            &&& 16 * j <= o
            &&& o % 16 == 0
            &&& o < dp.size
            &&& read_result(img, dp, 16, o as int) matches Some(buf) && buf.len() >= 2 && visible(
                entry_name(buf),
            ) == name
        },
    decreases dp.size + 16 - 16 * j,
{
    if 16 * j < dp.size {
        lemma_found_entry(img, dp, name, j + 1);
    }
}

/// The inode that a lookup finds is the record, within the image, of the
/// number its entry holds.
proof fn lemma_found_inode(img: Seq<u8>, dp: Dinode, name: Seq<char>, j: int)
    requires
        0 <= j,
    ensures
        find_entry(img, dp, name, j) matches Some(Some((d, o))) ==> {
            &&& has_superblock(img)
            &&& inode_fits(img, superblock_of(img), d.inum as int)
            &&& d == inode_at(img, inode_pos(superblock_of(img), d.inum as int), d.inum as usize)
        },
    decreases dp.size + 16 - 16 * j,
{
    if 16 * j < dp.size {
        lemma_found_inode(img, dp, name, j + 1);
    }
}

/// After `rm` of a path, the entry it cleared in the directory `p` that the
/// path's leading names lead to reads as zeros, and a lookup of the last name
/// in `p` no longer finds an entry at that place. ("." and ".." are never
/// removed, so the names must differ from them.)
#[verifier::spinoff_prover]
pub proof fn lemma_unlinked_entry_is_gone(
    img: Seq<u8>,
    rp: Dinode,
    path: Seq<char>,
    p: Dinode,
    ip: Dinode,
    off: usize,
    img2: Seq<u8>,
)
    requires
        path_names(path).len() >= 1,
        forall|k: int|
            0 <= k < path_names(path).len() ==> #[trigger] path_names(path)[k] != seq!['.']
                && path_names(path)[k] != seq!['.', '.'],
        walk(img, rp, path_names(path).drop_last()) == Some(Some(p)),
        find_entry(img, p, path_names(path).last(), 0) == Some(Some((ip, off))),
        unlink_result(img, rp, path) == Some(img2),
        write_separated(img, p, off as int, 16),
    ensures
        forall|x: int|
            off <= x < off + 16 ==> img2[#[trigger] byte_addr(img, p, x).unwrap()] == 0,
        !(find_entry(img2, p, path_names(path).last(), 0) matches Some(Some((_, o))) && o
            == off),
{
    let names = path_names(path);
    let n = names.len() as int;
    let name = names.last();
    let zeros = Seq::new(16, |k: int| 0u8);
    lemma_names_are_plain(path);
    assert(names[n - 1].len() > 0);
    assert(names.subrange(0, n - 1) =~= names.drop_last());
    lemma_unlink_reaches(img, rp, names, 0, p, ip, off);
    assert(write_result(img, p, off as int, zeros) == Some(img2));
    lemma_write_effect(img, p, off as int, zeros, img2);
    lemma_found_entry(img2, p, name, 0);
    if find_entry(img2, p, name, 0) matches Some(Some((_, o))) && o == off {
        reveal(read_result);
        let buf = read_result(img2, p, 16, off as int).unwrap();
        assert forall|i: int| 0 <= i < buf.len() implies buf[i] == 0 by {
            let x = off + i;
            lemma_block_addr_agree(img2, img, p, off as int, 16, x);
            assert(img2[byte_addr(img, p, x).unwrap()] == zeros[x - off]);
        }
        lemma_visible_zeros(entry_name(buf));
        assert(visible(entry_name(buf)) == name);
    }
}

/// After `rm` of a path whose last name names exactly one entry of the
/// directory `p` that the leading names lead to, a lookup of that name in
/// `p` finds nothing; so a lookup of the whole path finds nothing wherever
/// the leading names still lead to `p`. The directory must hold whole
/// entries; the cleared bytes must miss the bytes of `p`'s other entries and
/// the indirect entries that any of its entries are mapped by.
#[verifier::spinoff_prover]
pub proof fn lemma_removed_name_is_not_found(
    img: Seq<u8>,
    rp: Dinode,
    path: Seq<char>,
    p: Dinode,
    ip: Dinode,
    off: usize,
    img2: Seq<u8>,
)
    requires
        path_names(path).len() >= 1,
        forall|k: int|
            0 <= k < path_names(path).len() ==> #[trigger] path_names(path)[k] != seq!['.']
                && path_names(path)[k] != seq!['.', '.'],
        walk(img, rp, path_names(path).drop_last()) == Some(Some(p)),
        find_entry(img, p, path_names(path).last(), 0) == Some(Some((ip, off))),
        find_entry(img, p, path_names(path).last(), off / 16 + 1) == Some(
            Option::<(Dinode, usize)>::None,
        ),
        unlink_result(img, rp, path) == Some(img2),
        write_separated(img, p, off as int, 16),
        p.size % 16 == 0,
        forall|x: int, y: int|
            0 <= x < p.size && !(off <= x < off + 16) && off <= y < off + 16 ==> #[trigger] byte_addr(
                img,
                p,
                x,
            ) != #[trigger] byte_addr(img, p, y),
        forall|x: int, y: int|
            0 <= x < p.size && off <= y < off + 16 ==> !in_entry(
                p,
                #[trigger] (x / 1024),
                #[trigger] byte_addr(img, p, y).unwrap(),
            ),
    ensures
        find_entry(img2, p, path_names(path).last(), 0) == Some(Option::<(Dinode, usize)>::None),
        walk(img2, rp, path_names(path).drop_last()) == Some(Some(p)) ==> lookup_result(
            img2,
            rp,
            path,
        ) == Some(Option::<Dinode>::None),
{
    let names = path_names(path);
    let n = names.len() as int;
    let name = names.last();
    let j = off as int / 16;
    let zeros = Seq::new(16, |k: int| 0u8);
    lemma_names_are_plain(path);
    assert(names[n - 1].len() > 0);
    lemma_found_entry(img, p, name, 0);
    assert(off as int == 16 * j && 16 * j + 16 <= p.size);
    assert(names.subrange(0, n - 1) =~= names.drop_last());
    lemma_unlink_reaches(img, rp, names, 0, p, ip, off);
    assert(write_result(img, p, off as int, zeros) == Some(img2));
    lemma_cleared_frame(img, p, off as int, img2);
    lemma_prefix_stable(img, img2, p, name, 0, j, ip);
    lemma_zero_entry_skipped(img2, p, name, j);
    lemma_absent_stable(img, img2, p, name, j + 1);
    if walk(img2, rp, names.drop_last()) == Some(Some(p)) {
        lemma_walk_concat(img2, rp, names.drop_last(), seq![name]);
        assert(names.drop_last() + seq![name] =~= names);
        assert(seq![name][0] == name);
    }
}

/// Clearing a whole entry of a directory, when the cleared bytes miss the
/// other entries' bytes and every indirect entry the directory's entries are
/// mapped by, leaves the block map and the other bytes alone and zeros the
/// entry.
proof fn lemma_cleared_frame(img: Seq<u8>, p: Dinode, off: int, img2: Seq<u8>)
    requires
        0 <= off,
        off + 16 <= p.size,
        write_result(img, p, off, Seq::new(16, |k: int| 0u8)) == Some(img2),
        write_separated(img, p, off, 16),
        forall|x: int, y: int|
            0 <= x < p.size && !(off <= x < off + 16) && off <= y < off + 16 ==> #[trigger] byte_addr(
                img,
                p,
                x,
            ) != #[trigger] byte_addr(img, p, y),
        forall|x: int, y: int|
            0 <= x < p.size && off <= y < off + 16 ==> !in_entry(
                p,
                #[trigger] (x / 1024),
                #[trigger] byte_addr(img, p, y).unwrap(),
            ),
    ensures
        img2.len() == img.len(),
        forall|y: int|
            0 <= y < p.size && !(off <= y < off + 16) ==> #[trigger] byte_addr(img2, p, y)
                == byte_addr(img, p, y) && (readable(img, p, y) ==> img2[byte_addr(
                img,
                p,
                y,
            ).unwrap()] == img[byte_addr(img, p, y).unwrap()]),
        forall|y: int|
            off <= y < off + 16 ==> #[trigger] readable(img2, p, y) && img2[byte_addr(
                img2,
                p,
                y,
            ).unwrap()] == 0,
{
    let zeros = Seq::new(16, |k: int| 0u8);
    let size = p.size as int;
    lemma_write_effect(img, p, off, zeros, img2);
    assert(entries_agree(img2, img, p, 0, size)) by {
        assert forall|x: int, a: int|
            0 <= x < size && in_entry(p, #[trigger] (x / 1024), a) && 0 <= a < img2.len()
                implies #[trigger] img2[a] == img[a] by {
            if written_to(img, p, off, off + 16, a) {
                let y = choose|y: int| off <= y < off + 16 && #[trigger] byte_addr(img, p, y) == Some(a);
                assert(!in_entry(p, x / 1024, byte_addr(img, p, y).unwrap()));
            }
        }
    }
    assert forall|y: int| 0 <= y < size && !(off <= y < off + 16) implies #[trigger] byte_addr(
        img2,
        p,
        y,
    ) == byte_addr(img, p, y) && (readable(img, p, y) ==> img2[byte_addr(img, p, y).unwrap()]
        == img[byte_addr(img, p, y).unwrap()]) by {
        lemma_block_addr_agree(img2, img, p, 0, size, y);
        if readable(img, p, y) {
            let a = byte_addr(img, p, y).unwrap();
            if written_to(img, p, off, off + 16, a) {
                let z = choose|z: int| off <= z < off + 16 && #[trigger] byte_addr(img, p, z) == Some(a);
                assert(byte_addr(img, p, y) != byte_addr(img, p, z));
            }
        }
    }
    assert forall|y: int| off <= y < off + 16 implies #[trigger] readable(img2, p, y) && img2[byte_addr(
        img2,
        p,
        y,
    ).unwrap()] == 0 by {
        reveal(write_separated);
        lemma_block_addr_agree(img2, img, p, 0, size, y);
        assert(readable(img, p, y));
        assert(img2[byte_addr(img, p, y).unwrap()] == zeros[y - off]);
    }
}

/// Entries before entry `j` that a scan passed in `img`, and that `img2`
/// holds alike, are passed in `img2` too.
proof fn lemma_prefix_stable(
    img: Seq<u8>,
    img2: Seq<u8>,
    dp: Dinode,
    name: Seq<char>,
    k: int,
    j: int,
    ip: Dinode,
)
    requires
        0 <= k <= j,
        16 * j < dp.size,
        img2.len() == img.len(),
        find_entry(img, dp, name, k) == Some(Some((ip, (16 * j) as usize))),
        forall|y: int|
            0 <= y < dp.size && !(16 * j <= y < 16 * j + 16) ==> #[trigger] byte_addr(img2, dp, y)
                == byte_addr(img, dp, y) && (readable(img, dp, y) ==> img2[byte_addr(
                img,
                dp,
                y,
            ).unwrap()] == img[byte_addr(img, dp, y).unwrap()]),
    ensures
        find_entry(img2, dp, name, k) == find_entry(img2, dp, name, j),
    decreases j - k,
{
    if k < j {
        lemma_found_entry(img, dp, name, k + 1);
        reveal(read_result);
        assert(read_result(img, dp, 16, 16 * k) is Some);
        let b = read_result(img, dp, 16, 16 * k).unwrap();
        let cnt = b.len() as int;
        assert(cnt == 16);
        assert forall|x: int| 16 * k <= x < 16 * k + 16 implies #[trigger] readable(img2, dp, x)
            == readable(img, dp, x) by {
            assert(byte_addr(img2, dp, x) == byte_addr(img, dp, x));
        }
        let b2 = Seq::new(16, |i: int| img2[byte_addr(img2, dp, 16 * k + i).unwrap()]);
        assert forall|i: int| 0 <= i < 16 implies b2[i] == b[i] by {
            assert(byte_addr(img2, dp, 16 * k + i) == byte_addr(img, dp, 16 * k + i));
            assert(readable(img, dp, 16 * k + i));
        }
        assert(b2 =~= b);
        assert(read_result(img2, dp, 16, 16 * k) == Some(b));
        lemma_prefix_stable(img, img2, dp, name, k + 1, j, ip);
    }
}

/// An entry whose 16 bytes read as zeros does not match a non-empty name: a
/// scan passes it.
proof fn lemma_zero_entry_skipped(img: Seq<u8>, dp: Dinode, name: Seq<char>, j: int)
    requires
        0 <= j,
        16 * j + 16 <= dp.size,
        name.len() > 0,
        forall|y: int|
            16 * j <= y < 16 * j + 16 ==> #[trigger] readable(img, dp, y) && img[byte_addr(
                img,
                dp,
                y,
            ).unwrap()] == 0,
    ensures
        find_entry(img, dp, name, j) == find_entry(img, dp, name, j + 1),
{
    reveal(read_result);
    let b = read_result(img, dp, 16, 16 * j).unwrap();
    assert(b.len() == 16);
    assert forall|i: int| 0 <= i < 16 implies b[i] == 0 by {
        assert(readable(img, dp, 16 * j + i));
    }
    lemma_visible_zeros(entry_name(b));
}

/// Unlinking walks the leading names as a lookup does and then clears the
/// last name's entry in the directory reached.
proof fn lemma_unlink_reaches(
    img: Seq<u8>,
    cur: Dinode,
    names: Seq<Seq<char>>,
    i: int,
    p: Dinode,
    ip: Dinode,
    off: usize,
)
    requires
        0 <= i < names.len(),
        forall|k: int|
            0 <= k < names.len() ==> #[trigger] names[k] != seq!['.'] && names[k] != seq![
                '.',
                '.',
            ],
        walk(img, cur, names.subrange(i, names.len() - 1)) == Some(Some(p)),
        find_entry(img, p, names.last(), 0) == Some(Some((ip, off))),
    ensures
        unlink_walk(img, cur, names, i) == write_result(
            img,
            p,
            off as int,
            Seq::new(16, |k: int| 0u8),
        ),
    decreases names.len() - i,
{
    let n = names.len() as int;
    let zeros = Seq::new(16, |k: int| 0u8);
    let rest = names.subrange(i, n - 1);
    assert(names[i] != seq!['.'] && names[i] != seq!['.', '.']);
    if i == n - 1 {
        assert(rest =~= Seq::<Seq<char>>::empty());
        assert(cur == p);
        if let Some(img2) = write_result(img, p, off as int, zeros) {
            assert(unlink_walk(img2, p, names, i + 1) == Some(img2));
        }
    } else {
        assert(rest[0] == names[i]);
        assert(rest.drop_first() =~= names.subrange(i + 1, n - 1));
        if let Some(Some((d, o))) = find_entry(img, cur, names[i], 0) {
            lemma_unlink_reaches(img, d, names, i + 1, p, ip, off);
        }
    }
}

/// A name that a scan did not find is absent from every entry from `k` on:
/// each of them reads whole and under another name.
proof fn lemma_absent_at(img: Seq<u8>, dp: Dinode, name: Seq<char>, k: int, m: int)
    requires
        find_entry(img, dp, name, k) == Some(Option::<(Dinode, usize)>::None),
        0 <= k <= m,
        16 * m < dp.size,
    ensures
        read_result(img, dp, 16, 16 * m) is Some,
        read_result(img, dp, 16, 16 * m).unwrap().len() >= 2,
        visible(entry_name(read_result(img, dp, 16, 16 * m).unwrap())) != name,
        16 * m + 16 <= u32::MAX,
    decreases m - k,
{
    if k < m {
        lemma_absent_at(img, dp, name, k + 1, m);
    }
}

/// The stored form of a short name of characters 1 to 255 reads back as the
/// name.
proof fn lemma_name_field_visible(name: Seq<char>)
    requires
        name.len() <= 14,
        forall|i: int|
            0 <= i < name.len() ==> #[trigger] (name[i] as u8) != 0 && (name[i] as u8) as char
                == name[i],
    ensures
        visible(name_field(name)) == name,
{
    let f = name_field(name);
    assert forall|t: int| 0 <= t <= 14 implies #[trigger] visible(f.take(t)) == name.take(
        if t < name.len() {
            t
        } else {
            name.len() as int
        },
    ) by {
        lemma_name_field_prefix(name, t);
    }
    assert(f.take(14) =~= f);
    assert(name.take(name.len() as int) =~= name);
}

proof fn lemma_name_field_prefix(name: Seq<char>, t: int)
    requires
        name.len() <= 14,
        forall|i: int|
            0 <= i < name.len() ==> #[trigger] (name[i] as u8) != 0 && (name[i] as u8) as char
                == name[i],
        0 <= t <= 14,
    ensures
        visible(name_field(name).take(t)) == name.take(
            if t < name.len() {
                t
            } else {
                name.len() as int
            },
        ),
    decreases t,
{
    let f = name_field(name);
    if t > 0 {
        lemma_name_field_prefix(name, t - 1);
        assert(f.take(t).drop_last() =~= f.take(t - 1));
        if t - 1 < name.len() {
            let c = name[t - 1];
            assert((c as u8) as char == c);
            assert(name.take(t) =~= name.take(t - 1).push(c));
        } else {
            assert(f[t - 1] == 0);
        }
    }
}

/// The number field of an entry record reads back as the number.
proof fn lemma_record_inum(inum: u16, field: Seq<u8>)
    requires
        field.len() == 14,
    ensures
        entry_inum(entry_record(inum, field)) == inum,
        entry_name(entry_record(inum, field)) == field,
{
    let r = entry_record(inum, field);
    let v = inum as int;
    assert(byte_of(v, 0) + 256 * byte_of(v, 1) == v) by (nonlinear_arith)
        requires
            0 <= v < 65536,
            byte_of(v, 0) == v % 256,
            byte_of(v, 1) == v / 256 % 256,
    ;
    assert(entry_name(r) =~= field);
}

/// A scan over entries `k..j` that the write of entry `j` left alone, and that
/// the scan before the write passed, passes again.
proof fn lemma_scan_unchanged(
    img: Seq<u8>,
    img2: Seq<u8>,
    dp: Dinode,
    dp2: Dinode,
    name: Seq<char>,
    k: int,
    j: int,
)
    requires
        0 <= k <= j,
        16 * j <= dp.size,
        dp.size % 16 == 0,
        dp2.addrs == dp.addrs,
        16 * j + 16 <= dp2.size,
        find_entry(img, dp, name, 0) == Some(Option::<(Dinode, usize)>::None),
        img2.len() == img.len(),
        forall|x: int|
            0 <= x < 16 * j ==> #[trigger] byte_addr(img2, dp2, x) == byte_addr(img, dp, x)
                && img2[byte_addr(img, dp, x).unwrap()] == img[byte_addr(img, dp, x).unwrap()],
    ensures
        find_entry(img2, dp2, name, k) == find_entry(img2, dp2, name, j),
    decreases j - k,
{
    if k < j {
        lemma_absent_at(img, dp, name, 0, k);
        reveal(read_result);
        assert forall|x: int| 16 * k <= x < 16 * k + 16 implies #[trigger] readable(img2, dp2, x)
            == readable(img, dp, x) by {
            assert(byte_addr(img2, dp2, x) == byte_addr(img, dp, x));
        }
        let b = read_result(img, dp, 16, 16 * k).unwrap();
        let b2 = Seq::new(16, |i: int| img2[byte_addr(img2, dp2, 16 * k + i).unwrap()]);
        assert forall|i: int| 0 <= i < 16 implies b2[i] == b[i] by {
            assert(byte_addr(img2, dp2, 16 * k + i) == byte_addr(img, dp, 16 * k + i));
            assert(readable(img, dp, 16 * k + i));
        }
        assert(b2 =~= b);
        assert(read_result(img2, dp2, 16, 16 * k) == Some(b));
        lemma_scan_unchanged(img, img2, dp, dp2, name, k + 1, j);
    }
}

/// The conditions under which writing entry `j` of the directory `dp` leaves
/// what a lookup before it reads alone: the write of the 16 bytes is
/// separated; its bytes miss the bytes of the entries before it and their
/// indirect entries, the directory's own record and the super block; and the
/// size field misses those bytes and entries and the super block.
#[verifier::opaque]
pub open spec fn entry_write_clear(img: Seq<u8>, dp: Dinode, j: int) -> bool {
    let lo = 16 * j;
    &&& write_separated(img, dp, lo, 16)
    &&& forall|x: int, y: int|
        0 <= x < lo && lo <= y < lo + 16 ==> #[trigger] byte_addr(img, dp, x) != #[trigger] byte_addr(
            img,
            dp,
            y,
        ) && !in_entry(dp, x / 1024, byte_addr(img, dp, y).unwrap())
    &&& forall|x: int| 0 <= x < lo ==> !in_size_field(dp, #[trigger] byte_addr(img, dp, x).unwrap())
    &&& forall|x: int, a: int|
        0 <= x < lo && #[trigger] in_size_field(dp, a) ==> !in_entry(dp, #[trigger] (x / 1024), a)
    &&& forall|y: int|
        lo <= y < lo + 16 ==> !(dp.pos <= #[trigger] byte_addr(img, dp, y).unwrap() < dp.pos + 64)
            && !(1024 <= byte_addr(img, dp, y).unwrap() < 1056)
    &&& !(1024 < dp.pos + 12 && dp.pos + 8 < 1056)
}

/// An entry added to a directory is found again by name: after adding `ip`
/// under `name` in slot `j` of the non-empty directory `dp` where the name was
/// absent, a lookup of `name` through the directory's record read back from
/// the image finds slot `j` and the inode numbered `ip.inum`. The name must be
/// storable: 1 to 14 characters, each kept by its low byte and none stored as
/// 0; the slot must end below 2^32, where the size field wraps.
#[verifier::spinoff_prover]
pub proof fn lemma_added_entry_is_found(
    img: Seq<u8>,
    dp: Dinode,
    name: Seq<char>,
    ip: Dinode,
    j: int,
    img2: Seq<u8>,
    ip2: Dinode,
)
    requires
        img.len() <= usize::MAX,
        has_superblock(img),
        inode_fits(img, superblock_of(img), dp.inum as int),
        dp == inode_at(img, inode_pos(superblock_of(img), dp.inum as int), dp.inum as usize),
        add_entry_result(img, dp, name, ip) == Some((img2, ip2)),
        free_slot(img, dp, 0) == Some(j),
        find_entry(img, dp, name, 0) == Some(Option::<(Dinode, usize)>::None),
        dp.size > 0,
        dp.size % 16 == 0,
        16 * j + 16 < 0x1_0000_0000,
        1 <= name.len() <= 14,
        forall|i: int|
            0 <= i < name.len() ==> #[trigger] (name[i] as u8) != 0 && (name[i] as u8) as char
                == name[i],
        entry_write_clear(img, dp, j),
        inode_fits(img, superblock_of(img), ip.inum as int),
    ensures
        find_entry(
            img2,
            inode_at(img2, inode_pos(superblock_of(img), dp.inum as int), dp.inum as usize),
            name,
            0,
        ) == Some(
            Some(
                (
                    inode_at(img2, inode_pos(superblock_of(img), ip.inum as int), ip.inum as usize),
                    (16 * j) as usize,
                ),
            ),
        ),
{
    assert(0 <= j && 16 * j <= dp.size + 15) by {
        lemma_free_slot_range(img, dp, 0);
    }
    assert(16 * j <= dp.size) by {
        lemma_slot_bound(dp.size as int, j);
    }
    lemma_add_entry_writes(img, dp, name, ip, j, img2, ip2);
    lemma_added_entry_core(img, dp, name, ip.inum, j, img2);
}

/// A slot number within 15 bytes past a size that is a multiple of 16 lies
/// within the size.
proof fn lemma_slot_bound(size: int, j: int)
    requires
        16 * j <= size + 15,
        size % 16 == 0,
    ensures
        16 * j <= size,
{
}

/// The entry record of `name` written at slot `j`, where the name was
/// absent, is found there through the directory's record read back.
#[verifier::spinoff_prover]
proof fn lemma_added_entry_core(
    img: Seq<u8>,
    dp: Dinode,
    name: Seq<char>,
    inum: u16,
    j: int,
    img2: Seq<u8>,
)
    requires
        img.len() <= usize::MAX,
        has_superblock(img),
        inode_fits(img, superblock_of(img), dp.inum as int),
        dp == inode_at(img, inode_pos(superblock_of(img), dp.inum as int), dp.inum as usize),
        write_result(img, dp, 16 * j, entry_record(inum, name_field(name))) == Some(img2),
        0 <= j,
        16 * j <= dp.size,
        find_entry(img, dp, name, 0) == Some(Option::<(Dinode, usize)>::None),
        dp.size % 16 == 0,
        16 * j + 16 < 0x1_0000_0000,
        name.len() <= 14,
        forall|i: int|
            0 <= i < name.len() ==> #[trigger] (name[i] as u8) != 0 && (name[i] as u8) as char
                == name[i],
        entry_write_clear(img, dp, j),
        inode_fits(img, superblock_of(img), inum as int),
    ensures
        find_entry(
            img2,
            inode_at(img2, inode_pos(superblock_of(img), dp.inum as int), dp.inum as usize),
            name,
            0,
        ) == Some(
            Some(
                (
                    inode_at(img2, inode_pos(superblock_of(img), inum as int), inum as usize),
                    (16 * j) as usize,
                ),
            ),
        ),
{
    let sb = superblock_of(img);
    let p = inode_pos(sb, dp.inum as int);
    let dp2 = inode_at(img2, p, dp.inum as usize);
    let rec = entry_record(inum, name_field(name));
    assert(rec.len() == 16);
    assert(dp2.addrs == dp.addrs && dp2.size >= 16 * j + 16 && read_result(img2, dp2, 16, 16 * j)
        == Some(rec)) by {
        assert(write_separated(img, dp, 16 * j, 16) && forall|y: int|
            16 * j <= y < 16 * j + 16 ==> !(p <= #[trigger] byte_addr(img, dp, y).unwrap() < p
                + 64)) by {
            reveal(entry_write_clear);
        }
        lemma_read_after_write_reread(img, sb, dp.inum as usize, 16 * j, rec, img2);
    }
    assert(find_entry(img2, dp2, name, 0) == find_entry(img2, dp2, name, j) && superblock_of(img2)
        == sb && img2.len() == img.len()) by {
        lemma_readable_before(img, dp, name, j);
        lemma_entry_write_frame(img, dp, dp2, j, rec, img2);
        lemma_scan_unchanged(img, img2, dp, dp2, name, 0, j);
        assert forall|i: int| 1024 <= i < 1056 implies img2[i] == img[i] by {
            assert(i < img.len());
        }
    }
    lemma_find_at_slot(img2, dp2, name, inum, j, rec);
}

/// The entries before a slot that a lookup passed lie inside the image.
proof fn lemma_readable_before(img: Seq<u8>, dp: Dinode, name: Seq<char>, j: int)
    requires
        0 <= j,
        16 * j <= dp.size,
        dp.size % 16 == 0,
        find_entry(img, dp, name, 0) == Some(Option::<(Dinode, usize)>::None),
    ensures
        forall|x: int| 0 <= x < 16 * j ==> #[trigger] readable(img, dp, x),
{
    assert forall|x: int| 0 <= x < 16 * j implies #[trigger] readable(img, dp, x) by {
        let m = x / 16;
        lemma_absent_at(img, dp, name, 0, m);
        reveal(read_result);
        assert(16 * m <= x < 16 * m + 16);
    }
}

/// A lookup that reaches entry `j` holding the record of `name` finds it.
proof fn lemma_find_at_slot(img2: Seq<u8>, dp2: Dinode, name: Seq<char>, inum: u16, j: int, rec: Seq<u8>)
    requires
        0 <= j,
        16 * j + 16 <= dp2.size,
        rec == entry_record(inum, name_field(name)),
        read_result(img2, dp2, 16, 16 * j) == Some(rec),
        name.len() <= 14,
        forall|i: int|
            0 <= i < name.len() ==> #[trigger] (name[i] as u8) != 0 && (name[i] as u8) as char
                == name[i],
        has_superblock(img2),
        inode_fits(img2, superblock_of(img2), inum as int),
    ensures
        find_entry(img2, dp2, name, j) == Some(
            Some(
                (
                    inode_at(img2, inode_pos(superblock_of(img2), inum as int), inum as usize),
                    (16 * j) as usize,
                ),
            ),
        ),
{
    lemma_record_inum(inum, name_field(name));
    lemma_name_field_visible(name);
}

/// Writing entry `j` of a directory leaves the bytes of the entries before
/// it, and their block map, as they were, and the entry reads back as written.
#[verifier::spinoff_prover]
proof fn lemma_entry_write_frame(
    img: Seq<u8>,
    dp: Dinode,
    dp2: Dinode,
    j: int,
    rec: Seq<u8>,
    img2: Seq<u8>,
)
    requires
        0 <= j,
        rec.len() == 16,
        write_result(img, dp, 16 * j, rec) == Some(img2),
        entry_write_clear(img, dp, j),
        forall|x: int| 0 <= x < 16 * j ==> #[trigger] readable(img, dp, x),
        dp2.addrs == dp.addrs,
    ensures
        img2.len() == img.len(),
        forall|i: int| 1024 <= i < 1056 && i < img.len() ==> #[trigger] img2[i] == img[i],
        forall|x: int|
            0 <= x < 16 * j ==> #[trigger] byte_addr(img2, dp2, x) == byte_addr(img, dp, x)
                && img2[byte_addr(img, dp, x).unwrap()] == img[byte_addr(img, dp, x).unwrap()],
{
    reveal(entry_write_clear);
    lemma_write_effect(img, dp, 16 * j, rec, img2);
    lemma_entries_kept(img, dp, j, rec, img2);
    assert forall|i: int| 1024 <= i < 1056 && i < img.len() implies #[trigger] img2[i] == img[i] by {
        if written_to(img, dp, 16 * j, 16 * j + 16, i) {
            let y = choose|y: int|
                16 * j <= y < 16 * j + 16 && #[trigger] byte_addr(img, dp, y) == Some(i);
            assert(!(1024 <= byte_addr(img, dp, y).unwrap() < 1056));
        }
    }
    assert forall|x: int| 0 <= x < 16 * j implies #[trigger] byte_addr(img2, dp2, x) == byte_addr(
        img,
        dp,
        x,
    ) && img2[byte_addr(img, dp, x).unwrap()] == img[byte_addr(img, dp, x).unwrap()] by {
        assert(readable(img, dp, x));
        let a = byte_addr(img, dp, x).unwrap();
        assert(!in_size_field(dp, a));
        if written_to(img, dp, 16 * j, 16 * j + 16, a) {
            let y = choose|y: int|
                16 * j <= y < 16 * j + 16 && #[trigger] byte_addr(img, dp, y) == Some(a);
            assert(byte_addr(img, dp, y) != byte_addr(img, dp, x));
        }
        lemma_block_addr_agree(img2, img, dp, 0, 16 * j + 16, x);
        lemma_byte_addr_addrs(img2, dp, dp2, x);
    }
}

/// Adding an entry to a non-empty directory writes its record, with the
/// name stored, at the free slot.
proof fn lemma_add_entry_writes(
    img: Seq<u8>,
    dp: Dinode,
    name: Seq<char>,
    ip: Dinode,
    j: int,
    img2: Seq<u8>,
    ip2: Dinode,
)
    requires
        add_entry_result(img, dp, name, ip) == Some((img2, ip2)),
        free_slot(img, dp, 0) == Some(j),
        dp.size > 0,
    ensures
        write_result(img, dp, 16 * j, entry_record(ip.inum, name_field(name))) == Some(img2),
{
}

/// Writing entry `j` leaves the indirect entries of the blocks of entries
/// `0..=j` as they were.
proof fn lemma_entries_kept(img: Seq<u8>, dp: Dinode, j: int, rec: Seq<u8>, img2: Seq<u8>)
    requires
        0 <= j,
        rec.len() == 16,
        entry_write_clear(img, dp, j),
        img2.len() == img.len(),
        forall|a: int|
            0 <= a < img.len() && !in_size_field(dp, a) && !written_to(
                img,
                dp,
                16 * j,
                16 * j + rec.len(),
                a,
            ) ==> #[trigger] img2[a] == img[a],
    ensures
        entries_agree(img2, img, dp, 0, 16 * j + 16),
{
    reveal(entry_write_clear);
    reveal(write_separated);
    assert forall|z: int, e: int|
        0 <= z < 16 * j + 16 && in_entry(dp, #[trigger] (z / 1024), e) && 0 <= e < img2.len()
            implies #[trigger] img2[e] == img[e] by {
        assert(!in_size_field(dp, e)) by {
            if in_size_field(dp, e) {
                assert(!in_entry(dp, z / 1024, e));
            }
        }
        assert(!written_to(img, dp, 16 * j, 16 * j + 16, e)) by {
            if written_to(img, dp, 16 * j, 16 * j + 16, e) {
                let y = choose|y: int|
                    16 * j <= y < 16 * j + 16 && #[trigger] byte_addr(img, dp, y) == Some(e);
                if z < 16 * j {
                    assert(byte_addr(img, dp, z) != byte_addr(img, dp, y));
                }
                assert(!in_entry(dp, z / 1024, byte_addr(img, dp, y).unwrap()));
            }
        }
    }
}

/// A free slot found from `k` on lies at or after `k`, and inside the
/// directory or just past it.
proof fn lemma_free_slot_range(img: Seq<u8>, dp: Dinode, k: int)
    requires
        0 <= k,
        16 * k <= dp.size + 15,
    ensures
        free_slot(img, dp, k) matches Some(j) ==> k <= j && 16 * j <= dp.size + 15,
    decreases dp.size + 16 - 16 * k,
{
    if 16 * k < dp.size {
        lemma_free_slot_range(img, dp, k + 1);
    }
}

/// Separation depends on the inode only through its addresses and position.
proof fn lemma_separated_same_map(img: Seq<u8>, ip: Dinode, ip0: Dinode, off: int, n: int)
    requires
        write_separated(img, ip, off, n),
        ip0.addrs == ip.addrs,
        ip0.pos == ip.pos,
    ensures
        write_separated(img, ip0, off, n),
{
    reveal(write_separated);
    assert(ip0.addrs[12] == ip.addrs[12]);
    assert forall|x: int| #[trigger] byte_addr(img, ip0, x) == byte_addr(img, ip, x) by {
        lemma_byte_addr_addrs(img, ip, ip0, x);
    }
    assert forall|x: int| #[trigger] readable(img, ip0, x) == readable(img, ip, x) by {
        lemma_byte_addr_addrs(img, ip, ip0, x);
    }
    assert forall|bn: int, a: int| #[trigger] in_entry(ip0, bn, a) == in_entry(ip, bn, a) by {}
    assert forall|a: int| #[trigger] in_size_field(ip0, a) == in_size_field(ip, a) by {}
}

/// A lookup that found entry `o` finds it again in an image that holds the
/// same super block and the same directory bytes, under the same block map,
/// up to the end of that entry; it gives the inode record as `img2` holds it.
proof fn lemma_find_stable(
    img: Seq<u8>,
    img2: Seq<u8>,
    dp: Dinode,
    name: Seq<char>,
    k: int,
    d: Dinode,
    o: usize,
)
    requires
        0 <= k,
        find_entry(img, dp, name, k) == Some(Some((d, o))),
        img2.len() == img.len(),
        forall|i: int| 1024 <= i < 1056 ==> #[trigger] img2[i] == img[i],
        forall|y: int|
            16 * k <= y < o + 16 ==> #[trigger] byte_addr(img2, dp, y) == byte_addr(img, dp, y)
                && (readable(img, dp, y) ==> img2[byte_addr(img, dp, y).unwrap()]
                == img[byte_addr(img, dp, y).unwrap()]),
    ensures
        find_entry(img2, dp, name, k) == Some(
            Some(
                (
                    inode_at(img2, inode_pos(superblock_of(img), d.inum as int), d.inum as usize),
                    o,
                ),
            ),
        ),
    decreases o - 16 * k,
{
    lemma_found_entry(img, dp, name, k);
    reveal(read_result);
    assert forall|x: int| 16 * k <= x < 16 * k + 16 implies #[trigger] readable(img2, dp, x)
        == readable(img, dp, x) by {
        assert(byte_addr(img2, dp, x) == byte_addr(img, dp, x));
    }
    let b = read_result(img, dp, 16, 16 * k).unwrap();
    let cnt = b.len() as int;
    let b2 = Seq::new(cnt as nat, |i: int| img2[byte_addr(img2, dp, 16 * k + i).unwrap()]);
    assert forall|i: int| 0 <= i < cnt implies b2[i] == b[i] by {
        assert(byte_addr(img2, dp, 16 * k + i) == byte_addr(img, dp, 16 * k + i));
        assert(readable(img, dp, 16 * k + i));
    }
    assert(b2 =~= b);
    assert(read_result(img2, dp, 16, 16 * k) == Some(b));
    if visible(entry_name(b)) == name {
        let sb = superblock_of(img);
        assert(superblock_of(img2) == sb) by {
            assert(img2[1024] == img[1024]);
            assert forall|i: int| 1024 <= i < 1056 implies img2[i] == img[i] by {}
        }
    } else {
        lemma_found_entry(img, dp, name, k + 1);
        lemma_find_stable(img, img2, dp, name, k + 1, d, o);
    }
}

/// Whether image address `a` lies outside what a lookup in the directory
/// `root` reads up to content offset `scan_end`: the super block, the
/// directory's bytes before `scan_end`, and their indirect entries.
pub open spec fn outside_scan(img: Seq<u8>, root: Dinode, scan_end: int, a: int) -> bool {
    &&& !(1024 <= a < 1056)
    &&& forall|y: int|
        0 <= y < scan_end ==> #[trigger] byte_addr(img, root, y) != Some(a) && !in_entry(
            root,
            y / 1024,
            a,
        )
}

/// Whether image address `a` lies outside what the walk of `names` from the
/// directory `dp` reads on its way: in each directory it passes, the super
/// block, the bytes up to the end of the entry it finds and their indirect
/// entries, and the record of each directory it enters on the way.
#[verifier::opaque]
pub open spec fn outside_walk(img: Seq<u8>, dp: Dinode, names: Seq<Seq<char>>, a: int) -> bool
    decreases names.len(),
{
    if names.len() == 0 {
        true
    } else {
        match find_entry(img, dp, names[0], 0) {
            Some(Some((d, o))) => {
                &&& outside_scan(img, dp, o + 16, a)
                &&& (names.len() > 1 ==> !(d.pos <= a < d.pos + 64))
                &&& outside_walk(img, d, names.drop_first(), a)
            },
            _ => true,
        }
    }
}

/// The conditions under which `put` of `n` bytes into the file `ip`, reached
/// from `root` by the walk of `names`, leaves that walk and the file's record
/// (but its size) alone: the write is separated, and neither its bytes nor
/// the size field land on what the walk reads; the bytes also miss the
/// file's own record.
pub open spec fn put_separated(
    img: Seq<u8>,
    root: Dinode,
    names: Seq<Seq<char>>,
    ip: Dinode,
    n: int,
) -> bool {
    &&& write_separated(img, ip, 0, n)
    &&& forall|x: int|
        0 <= x < n ==> outside_walk(img, root, names, #[trigger] byte_addr(img, ip, x).unwrap())
            && !(ip.pos <= byte_addr(img, ip, x).unwrap() < ip.pos + 64)
    &&& forall|a: int| #[trigger] in_size_field(ip, a) ==> outside_walk(img, root, names, a)
}

/// `put` then `get` gives the data back: after `put` of non-empty `data` to
/// an existing regular file named by `path`, through any number of
/// directories, looking the path up again finds the same inode, its size is
/// the data's length and its contents are `data` (under the separation that
/// `put_separated` states, and for data short enough for `get`'s 32-bit
/// offsets).
#[verifier::spinoff_prover]
pub proof fn lemma_put_then_get(
    img: Seq<u8>,
    root: Dinode,
    path: Seq<char>,
    data: Seq<u8>,
    img2: Seq<u8>,
    ip: Dinode,
)
    requires
        img.len() <= usize::MAX,
        path_names(path).len() >= 1,
        lookup_result(img, root, path) == Some(Some(ip)),
        ip.file_type == T_FILE,
        put_result(img, root, path, data) == Some((img2, Ok::<(), crate::cmd::CmdError>(()))),
        0 < data.len() <= 0x1_0000_0000 - 1024,
        put_separated(img, root, path_names(path), ip, data.len() as int),
    ensures
        lookup_result(img2, root, path) matches Some(Some(ip2)) && {
            &&& ip2.inum == ip.inum
            &&& ip2.size == data.len()
            &&& file_contents(img2, ip2) == Some(data)
        },
{
    let names = path_names(path);
    let n = data.len() as int;
    let ip0 = Dinode { size: 0, ..ip };
    let sb = superblock_of(img);
    let ip2 = inode_at(img2, inode_pos(sb, ip.inum as int), ip.inum as usize);
    lemma_walk_found(img, root, names, ip);
    lemma_put_writes(img, root, path, data, img2, ip);
    lemma_separated_same_map(img, ip, ip0, 0, n);
    assert(img2.len() == img.len() && forall|a: int|
        0 <= a < img.len() && !outside_walk(img, root, names, a) ==> #[trigger] img2[a]
            == img[a]) by {
        lemma_put_leaves_walk(img, root, names, ip, ip0, data, img2);
    }
    lemma_walk_frame(img, img2, root, names, ip);
    lemma_put_record(img, ip, data, img2);
    lemma_read_after_write(img, ip0, 0, data, img2, ip2);
}

/// `put`'s write, through a record `w` with the file's position and
/// addresses, changes no byte that the walk to the file reads.
proof fn lemma_put_leaves_walk(
    img: Seq<u8>,
    root: Dinode,
    names: Seq<Seq<char>>,
    ip: Dinode,
    w: Dinode,
    data: Seq<u8>,
    img2: Seq<u8>,
)
    requires
        w.pos == ip.pos,
        w.addrs == ip.addrs,
        write_result(img, w, 0, data) == Some(img2),
        write_separated(img, w, 0, data.len() as int),
        put_separated(img, root, names, ip, data.len() as int),
    ensures
        img2.len() == img.len(),
        forall|a: int|
            0 <= a < img.len() && !outside_walk(img, root, names, a) ==> #[trigger] img2[a]
                == img[a],
{
    let n = data.len() as int;
    lemma_write_effect(img, w, 0, data, img2);
    assert forall|x: int| #[trigger] byte_addr(img, w, x) == byte_addr(img, ip, x) by {
        lemma_byte_addr_addrs(img, ip, w, x);
    }
    assert forall|a: int|
        0 <= a < img.len() && !outside_walk(img, root, names, a) implies #[trigger] img2[a]
        == img[a] by {
        if in_size_field(w, a) {
            assert(in_size_field(ip, a));
        }
        if written_to(img, w, 0, n, a) {
            let x = choose|x: int| 0 <= x < n && #[trigger] byte_addr(img, w, x) == Some(a);
            assert(byte_addr(img, ip, x) == Some(a));
            assert(outside_walk(img, root, names, byte_addr(img, ip, x).unwrap()));
        }
    }
}

/// The inode a walk of one name or more reaches is the record, within the
/// image, of its number.
proof fn lemma_walk_found(img: Seq<u8>, dp: Dinode, names: Seq<Seq<char>>, f: Dinode)
    requires
        names.len() >= 1,
        walk(img, dp, names) == Some(Some(f)),
    ensures
        has_superblock(img),
        inode_fits(img, superblock_of(img), f.inum as int),
        f == inode_at(img, inode_pos(superblock_of(img), f.inum as int), f.inum as usize),
    decreases names.len(),
{
    lemma_found_inode(img, dp, names[0], 0);
    if let Some(Some((d, o))) = find_entry(img, dp, names[0], 0) {
        if names.len() > 1 {
            lemma_walk_found(img, d, names.drop_first(), f);
        } else {
            assert(names.drop_first().len() == 0);
        }
    }
}

/// A walk reaches the same inode, with its record as the new image holds it,
/// in an image that changed no byte the walk reads.
#[verifier::spinoff_prover]
proof fn lemma_walk_frame(
    img: Seq<u8>,
    img2: Seq<u8>,
    dp: Dinode,
    names: Seq<Seq<char>>,
    f: Dinode,
)
    requires
        img.len() <= usize::MAX,
        names.len() >= 1,
        walk(img, dp, names) == Some(Some(f)),
        img2.len() == img.len(),
        forall|a: int|
            0 <= a < img.len() && !outside_walk(img, dp, names, a) ==> #[trigger] img2[a]
                == img[a],
    ensures
        walk(img2, dp, names) == Some(
            Some(inode_at(img2, inode_pos(superblock_of(img), f.inum as int), f.inum as usize)),
        ),
    decreases names.len(),
{
    let rest = names.drop_first();
    let (d, o) = find_entry(img, dp, names[0], 0).unwrap().unwrap();
    let sb = superblock_of(img);
    let p = inode_pos(sb, d.inum as int);
    lemma_found_inode(img, dp, names[0], 0);
    assert(find_entry(img2, dp, names[0], 0) == Some(
        Some((inode_at(img2, p, d.inum as usize), o)),
    )) by {
        lemma_walk_first_step(img, img2, dp, names);
    }
    let d2 = inode_at(img2, p, d.inum as usize);
    assert(walk(img2, dp, names) == walk(img2, d2, rest));
    assert(walk(img, dp, names) == walk(img, d, rest));
    if names.len() == 1 {
        assert(rest.len() == 0);
        assert(walk(img, d, rest) == Some(Some(d)));
        assert(walk(img2, d2, rest) == Some(Some(d2)));
    } else {
        lemma_walk_record_kept(img, img2, dp, names);
        lemma_walk_frame(img, img2, d, rest, f);
    }
}

/// Past its first lookup, a walk enters a directory whose record the new
/// image keeps, and from there reads only bytes the new image kept.
proof fn lemma_walk_record_kept(img: Seq<u8>, img2: Seq<u8>, dp: Dinode, names: Seq<Seq<char>>)
    requires
        img.len() <= usize::MAX,
        names.len() > 1,
        find_entry(img, dp, names[0], 0) is Some,
        find_entry(img, dp, names[0], 0).unwrap() is Some,
        img2.len() == img.len(),
        forall|a: int|
            0 <= a < img.len() && !outside_walk(img, dp, names, a) ==> #[trigger] img2[a]
                == img[a],
    ensures
        ({
            let (d, o) = find_entry(img, dp, names[0], 0).unwrap().unwrap();
            &&& inode_at(
                img2,
                inode_pos(superblock_of(img), d.inum as int),
                d.inum as usize,
            ) == d
            &&& forall|a: int|
                0 <= a < img.len() && !outside_walk(img, d, names.drop_first(), a)
                    ==> #[trigger] img2[a] == img[a]
        }),
{
    let (d, o) = find_entry(img, dp, names[0], 0).unwrap().unwrap();
    let rest = names.drop_first();
    let p = inode_pos(superblock_of(img), d.inum as int);
    lemma_found_inode(img, dp, names[0], 0);
    assert(d.pos as int == p);
    assert forall|a: int| p <= a < p + 64 implies #[trigger] img2[a] == img[a] by {
        reveal(outside_walk);
        assert(!outside_walk(img, dp, names, a));
    }
    lemma_record_same(img, img2, p, d.inum as usize);
    assert forall|a: int|
        0 <= a < img.len() && !outside_walk(img, d, rest, a) implies #[trigger] img2[a]
        == img[a] by {
        reveal(outside_walk);
        assert(!outside_walk(img, dp, names, a));
    }
}

/// The first lookup of a walk finds the same entry in an image that changed
/// no byte the walk reads.
proof fn lemma_walk_first_step(img: Seq<u8>, img2: Seq<u8>, dp: Dinode, names: Seq<Seq<char>>)
    requires
        names.len() >= 1,
        find_entry(img, dp, names[0], 0) is Some,
        find_entry(img, dp, names[0], 0).unwrap() is Some,
        img2.len() == img.len(),
        forall|a: int|
            0 <= a < img.len() && !outside_walk(img, dp, names, a) ==> #[trigger] img2[a]
                == img[a],
    ensures
        ({
            let (d, o) = find_entry(img, dp, names[0], 0).unwrap().unwrap();
            find_entry(img2, dp, names[0], 0) == Some(
                Some(
                    (
                        inode_at(
                            img2,
                            inode_pos(superblock_of(img), d.inum as int),
                            d.inum as usize,
                        ),
                        o,
                    ),
                ),
            )
        }),
{
    let (d, o) = find_entry(img, dp, names[0], 0).unwrap().unwrap();
    let end = o + 16;
    lemma_found_inode(img, dp, names[0], 0);
    assert forall|a: int| 0 <= a < img.len() && !outside_scan(img, dp, end, a) implies #[trigger] img2[a]
        == img[a] by {
        reveal(outside_walk);
        assert(!outside_walk(img, dp, names, a));
    }
    lemma_scan_frame(img, img2, dp, end);
    lemma_find_stable(img, img2, dp, names[0], 0, d, o);
}

/// An image that changed no byte a lookup in `dp` reads up to `end` keeps
/// the super block, and the directory's block map and bytes up to `end`.
proof fn lemma_scan_frame(img: Seq<u8>, img2: Seq<u8>, dp: Dinode, end: int)
    requires
        has_superblock(img),
        img2.len() == img.len(),
        forall|a: int|
            0 <= a < img.len() && !outside_scan(img, dp, end, a) ==> #[trigger] img2[a] == img[a],
    ensures
        forall|i: int| 1024 <= i < 1056 ==> #[trigger] img2[i] == img[i],
        forall|y: int|
            0 <= y < end ==> #[trigger] byte_addr(img2, dp, y) == byte_addr(img, dp, y)
                && (readable(img, dp, y) ==> img2[byte_addr(img, dp, y).unwrap()]
                == img[byte_addr(img, dp, y).unwrap()]),
{
    assert forall|i: int| 1024 <= i < 1056 implies #[trigger] img2[i] == img[i] by {
        if 0 <= i < img.len() {
            assert(!outside_scan(img, dp, end, i));
        }
    }
    assert(entries_agree(img2, img, dp, 0, end)) by {
        assert forall|y: int, a: int|
            0 <= y < end && in_entry(dp, #[trigger] (y / 1024), a) && 0 <= a < img2.len()
                implies #[trigger] img2[a] == img[a] by {
            if outside_scan(img, dp, end, a) {
                assert(byte_addr(img, dp, y) == byte_addr(img, dp, y));
            }
        }
    }
    assert forall|y: int| 0 <= y < end implies #[trigger] byte_addr(img2, dp, y) == byte_addr(
        img,
        dp,
        y,
    ) && (readable(img, dp, y) ==> img2[byte_addr(img, dp, y).unwrap()] == img[byte_addr(
        img,
        dp,
        y,
    ).unwrap()]) by {
        lemma_block_addr_agree(img2, img, dp, 0, end, y);
        if readable(img, dp, y) {
            let a = byte_addr(img, dp, y).unwrap();
            if outside_scan(img, dp, end, a) {
                assert(byte_addr(img, dp, y) != Some(a));
            }
        }
    }
}

/// After `put`'s write the file's record holds the new size and the same
/// block addresses.
#[verifier::spinoff_prover]
proof fn lemma_put_record(img: Seq<u8>, ip: Dinode, data: Seq<u8>, img2: Seq<u8>)
    requires
        0 < data.len() < 0x1_0000_0000,
        inode_fits(img, superblock_of(img), ip.inum as int),
        ip == inode_at(img, inode_pos(superblock_of(img), ip.inum as int), ip.inum as usize),
        img.len() <= usize::MAX,
        write_result(img, Dinode { size: 0, ..ip }, 0, data) == Some(img2),
        write_separated(img, Dinode { size: 0, ..ip }, 0, data.len() as int),
        forall|x: int|
            0 <= x < data.len() ==> !(ip.pos <= #[trigger] byte_addr(img, ip, x).unwrap() < ip.pos
                + 64),
    ensures
        ({
            let ip2 = inode_at(
                img2,
                inode_pos(superblock_of(img), ip.inum as int),
                ip.inum as usize,
            );
            &&& ip2.addrs == ip.addrs
            &&& ip2.size == data.len()
        }),
{
    let ip0 = Dinode { size: 0, ..ip };
    let n = data.len() as int;
    let p = inode_pos(superblock_of(img), ip.inum as int);
    let ip2 = inode_at(img2, p, ip.inum as usize);
    assert(ip.pos as int == p);
    assert(ip0.pos == ip.pos);
    assert(ip0.addrs == ip.addrs);
    assert(forall|x: int| #[trigger] byte_addr(img, ip0, x) == byte_addr(img, ip, x)) by {
        assert forall|x: int| #[trigger] byte_addr(img, ip0, x) == byte_addr(img, ip, x) by {
            lemma_byte_addr_addrs(img, ip, ip0, x);
        }
    }
    assert(forall|a: int| p <= a < p + 64 ==> !#[trigger] written_to(img, ip0, 0, n, a)) by {
        lemma_record_not_written(img, ip, ip0, 0, n, p);
    }
    assert(le32(img2, p + 8) == n) by {
        lemma_write_effect(img, ip0, 0, data, img2);
    }
    assert(forall|a: int| p + 12 <= a < p + 64 ==> #[trigger] img2[a] == img[a]) by {
        lemma_write_effect(img, ip0, 0, data, img2);
        assert forall|a: int| p + 12 <= a < p + 64 implies #[trigger] img2[a] == img[a] by {
            assert(!written_to(img, ip0, 0, n, a));
            assert(!in_size_field(ip0, a));
        }
    }
    lemma_record_addrs(img, img2, p, ip.inum as usize);
}

/// `put` to an existing regular file writes the data from offset 0 as if the
/// file were empty.
proof fn lemma_put_writes(
    img: Seq<u8>,
    root: Dinode,
    path: Seq<char>,
    data: Seq<u8>,
    img2: Seq<u8>,
    ip: Dinode,
)
    requires
        lookup_result(img, root, path) == Some(Some(ip)),
        ip.file_type == T_FILE,
        put_result(img, root, path, data) == Some((img2, Ok::<(), crate::cmd::CmdError>(()))),
    ensures
        write_result(img, Dinode { size: 0, ..ip }, 0, data) == Some(img2),
{
    reveal(put_result);
}

/// No byte of a write that misses an inode record is written into it.
proof fn lemma_record_not_written(img: Seq<u8>, ip: Dinode, ip0: Dinode, lo: int, hi: int, p: int)
    requires
        ip.pos == p,
        forall|x: int|
            lo <= x < hi ==> !(ip.pos <= #[trigger] byte_addr(img, ip, x).unwrap() < ip.pos + 64),
        forall|x: int| #[trigger] byte_addr(img, ip0, x) == byte_addr(img, ip, x),
    ensures
        forall|a: int| p <= a < p + 64 ==> !#[trigger] written_to(img, ip0, lo, hi, a),
{
    assert forall|a: int| p <= a < p + 64 implies !#[trigger] written_to(img, ip0, lo, hi, a) by {
        if written_to(img, ip0, lo, hi, a) {
            let x = choose|x: int| lo <= x < hi && #[trigger] byte_addr(img, ip0, x) == Some(a);
            assert(byte_addr(img, ip, x) == Some(a));
            assert(!(ip.pos <= byte_addr(img, ip, x).unwrap() < ip.pos + 64));
            assert(false);
        }
    }
}

/// Two images that agree on the block addresses of an inode record read the
/// same addresses from it.
proof fn lemma_record_addrs(img: Seq<u8>, img2: Seq<u8>, p: int, inum: usize)
    requires
        forall|a: int| p + 12 <= a < p + 64 ==> #[trigger] img2[a] == img[a],
    ensures
        inode_at(img2, p, inum).addrs == inode_at(img, p, inum).addrs,
{
    assert(inode_at(img2, p, inum).addrs =~= inode_at(img, p, inum).addrs);
}

/// A path of one name is looked up by one directory lookup.
pub proof fn lemma_one_name_lookup(img: Seq<u8>, rp: Dinode, path: Seq<char>)
    requires
        path_names(path).len() == 1,
    ensures
        lookup_result(img, rp, path) == match find_entry(img, rp, path_names(path)[0], 0) {
            None => None,
            Some(None) => Some(None),
            Some(Some((d, _))) => Some(Some(d)),
        },
{
    let names = path_names(path);
    assert(names.drop_first() =~= Seq::<Seq<char>>::empty());
    if let Some(Some((d, o))) = find_entry(img, rp, names[0], 0) {
        assert(walk(img, d, names.drop_first()) == Some(Some(d)));
    }
}

/// Splitting two paths joined by a slash gives the names of the first, then
/// those of the second.
pub proof fn lemma_join_names(p: Seq<char>, q: Seq<char>)
    ensures
        path_names(p + seq!['/'] + q) == path_names(p) + path_names(q),
{
    lemma_join_split(p, q);
    let r = split_names(q);
    if r.1.len() > 0 {
        assert((path_names(p) + r.0).push(r.1) =~= path_names(p) + r.0.push(r.1));
    } else {
        assert(path_names(p) + r.0 =~= path_names(p) + r.0);
    }
}

proof fn lemma_join_split(p: Seq<char>, q: Seq<char>)
    ensures
        split_names(p + seq!['/'] + q) == (path_names(p) + split_names(q).0, split_names(q).1),
    decreases q.len(),
{
    let s = p + seq!['/'] + q;
    if q.len() == 0 {
        assert(s.drop_last() =~= p);
        assert(path_names(p) + Seq::<Seq<char>>::empty() =~= path_names(p));
    } else {
        lemma_join_split(p, q.drop_last());
        assert(s.drop_last() =~= p + seq!['/'] + q.drop_last());
        assert(s.last() == q.last());
        let prev = split_names(q.drop_last());
        if q.last() == '/' {
            if prev.1.len() > 0 {
                assert((path_names(p) + prev.0).push(prev.1) =~= path_names(p) + prev.0.push(
                    prev.1,
                ));
            }
        }
    }
}

/// Walking two lists of names in a row is walking the first, then the
/// second from where the first ended.
pub proof fn lemma_walk_concat(img: Seq<u8>, rp: Dinode, a: Seq<Seq<char>>, b: Seq<Seq<char>>)
    ensures
        walk(img, rp, a + b) == match walk(img, rp, a) {
            None => None,
            Some(None) => Some(None),
            Some(Some(d)) => walk(img, d, b),
        },
    decreases a.len(),
{
    if a.len() == 0 {
        assert(a + b =~= b);
    } else {
        assert((a + b)[0] == a[0]);
        assert((a + b).drop_first() =~= a.drop_first() + b);
        if let Some(Some((d, o))) = find_entry(img, rp, a[0], 0) {
            lemma_walk_concat(img, d, a.drop_first(), b);
        }
    }
}

/// Looking up `p/q` is looking up `p`, then `q` from the inode found; so
/// repeated and trailing slashes do not matter.
pub proof fn lemma_lookup_join(img: Seq<u8>, rp: Dinode, p: Seq<char>, q: Seq<char>)
    ensures
        lookup_result(img, rp, p + seq!['/'] + q) == match lookup_result(img, rp, p) {
            None => None,
            Some(None) => Some(None),
            Some(Some(d)) => lookup_result(img, d, q),
        },
{
    lemma_join_names(p, q);
    lemma_walk_concat(img, rp, path_names(p), path_names(q));
}

/// Reading in two parts gives what one read gives: within the size, a read
/// of `n1 + n2` bytes at `off` gives the bytes of a read of `n1` bytes at
/// `off` followed by those of a read of `n2` bytes at `off + n1`, and it
/// fails exactly when one of the two fails.
pub proof fn lemma_read_split(img: Seq<u8>, ip: Dinode, off: int, n1: int, n2: int)
    requires
        0 <= off,
        0 <= n1,
        0 <= n2,
        off + n1 + n2 <= ip.size,
    ensures
        read_result(img, ip, n1 + n2, off) == match (
            read_result(img, ip, n1, off),
            read_result(img, ip, n2, off + n1),
        ) {
            (Some(a), Some(b)) => Some(a + b),
            _ => None,
        },
{
    reveal(read_result);
    let all = forall|x: int| off <= x < off + n1 + n2 ==> #[trigger] readable(img, ip, x);
    let first = forall|x: int| off <= x < off + n1 ==> #[trigger] readable(img, ip, x);
    let second = forall|x: int| off + n1 <= x < off + n1 + n2 ==> #[trigger] readable(img, ip, x);
    assert(all <==> first && second) by {
        if first && second {
            assert forall|x: int| off <= x < off + n1 + n2 implies #[trigger] readable(img, ip, x) by {
                if x < off + n1 {
                    assert(off <= x < off + n1);
                } else {
                    assert(off + n1 <= x < off + n1 + n2);
                }
            }
        }
    }
    if all {
        let a = read_result(img, ip, n1, off).unwrap();
        let b = read_result(img, ip, n2, off + n1).unwrap();
        let c = read_result(img, ip, n1 + n2, off).unwrap();
        assert(c =~= a + b) by {
            assert forall|j: int| 0 <= j < n1 + n2 implies c[j] == (a + b)[j] by {
                if j >= n1 {
                    assert(off + n1 + (j - n1) == off + j);
                }
            }
        }
    }
}

/// A read gives back what a write wrote, through the inode record read back
/// from the image: after a separated write of non-empty `buf` at `off` to
/// inode `inum` whose bytes miss the inode's own record, the record read
/// again has the same addresses, a size that is the larger of the old size
/// and the write's end, and reading `buf.len()` bytes at `off` through it
/// gives `buf`. (The end must stay below 2^32, where the size field wraps.)
#[verifier::spinoff_prover]
pub proof fn lemma_read_after_write_reread(
    img: Seq<u8>,
    sb: crate::fs::SuperBlock,
    inum: usize,
    off: int,
    buf: Seq<u8>,
    img2: Seq<u8>,
)
    requires
        img.len() <= usize::MAX,
        0 <= off,
        0 < buf.len(),
        off + buf.len() < 0x1_0000_0000,
        inode_fits(img, sb, inum as int),
        write_result(img, inode_at(img, inode_pos(sb, inum as int), inum), off, buf) == Some(img2),
        write_separated(img, inode_at(img, inode_pos(sb, inum as int), inum), off, buf.len() as int),
        forall|x: int|
            off <= x < off + buf.len() ==> !(inode_pos(sb, inum as int) <= #[trigger] byte_addr(
                img,
                inode_at(img, inode_pos(sb, inum as int), inum),
                x,
            ).unwrap() < inode_pos(sb, inum as int) + 64),
    ensures
        ({
            let ip = inode_at(img, inode_pos(sb, inum as int), inum);
            let ip2 = inode_at(img2, inode_pos(sb, inum as int), inum);
            &&& ip2.addrs == ip.addrs
            &&& ip2.size == (if off + buf.len() > ip.size { off + buf.len() } else { ip.size as int })
            &&& read_result(img2, ip2, buf.len() as int, off) == Some(buf)
        }),
{
    let p = inode_pos(sb, inum as int);
    let ip = inode_at(img, p, inum);
    let ip2 = inode_at(img2, p, inum);
    let n = buf.len() as int;
    assert(ip.pos as int == p);
    assert(forall|x: int| #[trigger] byte_addr(img, ip, x) == byte_addr(img, ip, x));
    assert(forall|a: int| p <= a < p + 64 ==> !#[trigger] written_to(img, ip, off, off + n, a)) by {
        lemma_record_not_written(img, ip, ip, off, off + n, p);
    }
    assert(forall|a: int| p + 12 <= a < p + 64 ==> #[trigger] img2[a] == img[a]) by {
        lemma_write_effect(img, ip, off, buf, img2);
        assert forall|a: int| p + 12 <= a < p + 64 implies #[trigger] img2[a] == img[a] by {
            assert(!written_to(img, ip, off, off + n, a));
            assert(!in_size_field(ip, a));
        }
    }
    lemma_record_addrs(img, img2, p, inum);
    if off + n > ip.size {
        assert(le32(img2, p + 8) == off + n) by {
            lemma_write_effect(img, ip, off, buf, img2);
        }
    } else {
        assert(le32(img2, p + 8) == le32(img, p + 8)) by {
            reveal(write_result);
            lemma_write_effect(img, ip, off, buf, img2);
            assert forall|a: int| p + 8 <= a < p + 12 implies #[trigger] img2[a] == img[a] by {
                assert(!written_to(img, ip, off, off + n, a));
                let w = write_chunks(img, ip, off, buf, 0).unwrap();
                lemma_write_chunks(img, img, ip, off, buf, 0, w);
            }
        }
    }
    lemma_read_after_write(img, ip, off, buf, img2, ip2);
}

/// A separated write through a record `w` with the position, addresses and
/// size of the record at `p`, whose bytes miss that record, leaves the record
/// read again with the same addresses and the larger of the old size and the
/// write's end; reading the bytes back through it gives them.
proof fn lemma_write_through_copy(
    img: Seq<u8>,
    p: int,
    inum: usize,
    w: Dinode,
    off: int,
    buf: Seq<u8>,
    img2: Seq<u8>,
)
    requires
        img.len() <= usize::MAX,
        0 <= p,
        p + 64 <= img.len(),
        0 <= off,
        0 < buf.len(),
        off + buf.len() < 0x1_0000_0000,
        w.pos == p,
        w.addrs == inode_at(img, p, inum).addrs,
        w.size == inode_at(img, p, inum).size,
        write_result(img, w, off, buf) == Some(img2),
        write_separated(img, w, off, buf.len() as int),
        forall|x: int|
            off <= x < off + buf.len() ==> !(p <= #[trigger] byte_addr(img, w, x).unwrap() < p
                + 64),
    ensures
        ({
            let ip2 = inode_at(img2, p, inum);
            &&& ip2.addrs == w.addrs
            &&& ip2.size == (if off + buf.len() > w.size { off + buf.len() } else { w.size as int })
            &&& read_result(img2, ip2, buf.len() as int, off) == Some(buf)
        }),
{
    let ip2 = inode_at(img2, p, inum);
    let n = buf.len() as int;
    assert(forall|x: int| #[trigger] byte_addr(img, w, x) == byte_addr(img, w, x));
    assert(forall|a: int| p <= a < p + 64 ==> !#[trigger] written_to(img, w, off, off + n, a)) by {
        lemma_record_not_written(img, w, w, off, off + n, p);
    }
    lemma_write_effect(img, w, off, buf, img2);
    assert forall|a: int| p + 12 <= a < p + 64 implies #[trigger] img2[a] == img[a] by {
        assert(!written_to(img, w, off, off + n, a));
        assert(!in_size_field(w, a));
    }
    lemma_record_addrs(img, img2, p, inum);
    if off + n <= w.size {
        assert forall|a: int| p + 8 <= a < p + 12 implies #[trigger] img2[a] == img[a] by {
            assert(!written_to(img, w, off, off + n, a));
        }
        assert(le32(img2, p + 8) == le32(img, p + 8));
    }
    lemma_read_after_write(img, w, off, buf, img2, ip2);
}

/// A lookup that did not find a name still does not find it in an image that
/// holds the same directory bytes under the same block map.
proof fn lemma_absent_stable(img: Seq<u8>, img1: Seq<u8>, dp: Dinode, name: Seq<char>, k: int)
    requires
        0 <= k,
        img1.len() == img.len(),
        find_entry(img, dp, name, k) == Some(Option::<(Dinode, usize)>::None),
        forall|y: int|
            16 * k <= y < dp.size ==> #[trigger] byte_addr(img1, dp, y) == byte_addr(img, dp, y)
                && (readable(img, dp, y) ==> img1[byte_addr(img, dp, y).unwrap()]
                == img[byte_addr(img, dp, y).unwrap()]),
    ensures
        find_entry(img1, dp, name, k) == Some(Option::<(Dinode, usize)>::None),
    decreases dp.size + 16 - 16 * k,
{
    if 16 * k < dp.size {
        reveal(read_result);
        assert(read_result(img, dp, 16, 16 * k) is Some);
        let b = read_result(img, dp, 16, 16 * k).unwrap();
        let cnt = b.len() as int;
        assert(cnt == (if 16 * k + 16 > dp.size { dp.size - 16 * k } else { 16 }));
        assert forall|x: int| 16 * k <= x < 16 * k + cnt implies #[trigger] readable(img1, dp, x)
            == readable(img, dp, x) by {
            assert(x < dp.size);
            assert(byte_addr(img1, dp, x) == byte_addr(img, dp, x));
        }
        let b1 = Seq::new(cnt as nat, |i: int| img1[byte_addr(img1, dp, 16 * k + i).unwrap()]);
        assert forall|i: int| 0 <= i < cnt implies b1[i] == b[i] by {
            assert(byte_addr(img1, dp, 16 * k + i) == byte_addr(img, dp, 16 * k + i));
            assert(readable(img, dp, 16 * k + i));
        }
        assert(b1 =~= b);
        assert(read_result(img1, dp, 16, 16 * k) == Some(b));
        lemma_absent_stable(img, img1, dp, name, k + 1);
    }
}

/// Creating a one-name path: the name was absent, a file inode is allocated,
/// and an entry for it is added to the directory.
proof fn lemma_create_one_steps(
    img: Seq<u8>,
    rp: Dinode,
    path: Seq<char>,
    img2: Seq<u8>,
    ip2: Dinode,
    img1: Seq<u8>,
    ip: Dinode,
)
    requires
        path_names(path).len() == 1,
        create_result(img, rp, path) == Some((img2, Some(ip2))),
        alloc_result(img, T_FILE) == Some((img1, Some(ip))),
        ip.file_type == T_FILE,
    ensures
        find_entry(img, rp, path_names(path)[0], 0) == Some(Option::<(Dinode, usize)>::None),
        add_entry_result(img1, rp, path_names(path)[0], ip) == Some((img2, ip2)),
{
    let names = path_names(path);
    assert(names.drop_first() =~= Seq::<Seq<char>>::empty());
    if let Some((img3, ip3)) = add_entry_result(img1, rp, names[0], ip) {
        assert(ip3.file_type == T_FILE);
        assert(create_walk(img3, ip3, names.drop_first()) == Some((img3, Some(ip3))));
    }
}

/// The allocation's two type bytes leave a directory's scan, and its record,
/// as they were.
proof fn lemma_alloc_keeps_dir(
    img: Seq<u8>,
    img1: Seq<u8>,
    rp: Dinode,
    q: int,
    bytes: Seq<u8>,
)
    requires
        bytes.len() == 2,
        img1 == splice(img, q, bytes),
        has_superblock(img),
        forall|a: int| q <= a < q + 2 ==> #[trigger] outside_scan(img, rp, rp.size as int, a),
        q + 2 <= rp.pos || rp.pos + 64 <= q,
        rp.pos + 64 <= img.len(),
    ensures
        img1.len() == img.len(),
        superblock_of(img1) == superblock_of(img),
        forall|a: int| rp.pos <= a < rp.pos + 64 ==> #[trigger] img1[a] == img[a],
        forall|y: int|
            0 <= y < rp.size ==> #[trigger] byte_addr(img1, rp, y) == byte_addr(img, rp, y)
                && (readable(img, rp, y) ==> img1[byte_addr(img, rp, y).unwrap()]
                == img[byte_addr(img, rp, y).unwrap()]),
{
    assert(outside_scan(img, rp, rp.size as int, q));
    assert(outside_scan(img, rp, rp.size as int, q + 1));
    assert forall|i: int| 1024 <= i < 1056 implies img1[i] == img[i] by {}
    assert(superblock_of(img1) == superblock_of(img));
    assert(entries_agree(img1, img, rp, 0, rp.size as int)) by {
        assert forall|y: int, a: int|
            0 <= y < rp.size && in_entry(rp, #[trigger] (y / 1024), a) && 0 <= a < img1.len()
                implies #[trigger] img1[a] == img[a] by {
            assert(byte_addr(img, rp, y) == byte_addr(img, rp, y));
        }
    }
    assert forall|y: int| 0 <= y < rp.size implies #[trigger] byte_addr(img1, rp, y) == byte_addr(
        img,
        rp,
        y,
    ) && (readable(img, rp, y) ==> img1[byte_addr(img, rp, y).unwrap()] == img[byte_addr(
        img,
        rp,
        y,
    ).unwrap()]) by {
        lemma_block_addr_agree(img1, img, rp, 0, rp.size as int, y);
    }
}

/// Create then lookup finds the created file: after `icreate` of a one-name
/// path in the directory `rp` (non-empty, with whole entries), looking the
/// path up again through the directory's record read back from the image
/// finds the allocated inode, of file type. The allocation's type bytes must
/// miss what the lookup in `rp` reads and `rp`'s record; the entry write
/// must be clear as `entry_write_clear` says and miss the new inode's record;
/// the name must be storable and the inode number below 65536.
#[verifier::spinoff_prover]
pub proof fn lemma_create_then_lookup(
    img: Seq<u8>,
    rp: Dinode,
    path: Seq<char>,
    img2: Seq<u8>,
    ip2: Dinode,
    img1: Seq<u8>,
    ip: Dinode,
    k: int,
    j: int,
)
    requires
        img.len() <= usize::MAX,
        has_superblock(img),
        inode_fits(img, superblock_of(img), rp.inum as int),
        rp == inode_at(img, inode_pos(superblock_of(img), rp.inum as int), rp.inum as usize),
        rp.file_type != 0,
        rp.size > 0,
        rp.size % 16 == 0,
        path_names(path).len() == 1,
        path_names(path)[0].len() <= 14,
        forall|i: int|
            0 <= i < path_names(path)[0].len() ==> #[trigger] (path_names(path)[0][i] as u8) != 0
                && (path_names(path)[0][i] as u8) as char == path_names(path)[0][i],
        create_result(img, rp, path) == Some((img2, Some(ip2))),
        alloc_result(img, T_FILE) == Some((img1, Some(ip))),
        free_inode_from(img, superblock_of(img), 1) == Some(Some(k)),
        k < 0x10000,
        forall|a: int|
            inode_pos(superblock_of(img), k) <= a < inode_pos(superblock_of(img), k) + 2
                ==> #[trigger] outside_scan(img, rp, rp.size as int, a),
        free_slot(img1, rp, 0) == Some(j),
        16 * j + 16 < 0x1_0000_0000,
        entry_write_clear(img1, rp, j),
        forall|y: int|
            16 * j <= y < 16 * j + 16 ==> !(inode_pos(superblock_of(img), k) <= #[trigger] byte_addr(
                img1,
                rp,
                y,
            ).unwrap() < inode_pos(superblock_of(img), k) + 64),
    ensures
        ({
            let sb = superblock_of(img);
            let rp2 = inode_at(img2, inode_pos(sb, rp.inum as int), rp.inum as usize);
            let d = inode_at(img2, inode_pos(sb, k), k as usize);
            &&& lookup_result(img2, rp2, path) == Some(Some(d))
            &&& d.inum == k
            &&& d.file_type == T_FILE
            &&& d == (Dinode {
                file_type: T_FILE,
                ..inode_at(img, inode_pos(sb, k), k as usize)
            })
            &&& superblock_of(img2) == sb
            &&& img2.len() == img.len()
        }),
{
    let sb = superblock_of(img);
    let name = path_names(path)[0];
    let q = inode_pos(sb, k);
    let prp = inode_pos(sb, rp.inum as int);
    lemma_create_prepare(img, rp, path, img2, ip2, img1, ip, k);
    lemma_create_finish(img, rp, name, img1, ip, k, j, img2, ip2);
    let rp2 = inode_at(img2, prp, rp.inum as usize);
    lemma_one_name_lookup(img2, rp2, path);
}

/// `put` of a new name then `get` gives the data back: after `put` of
/// non-empty `data` to a one-name path absent from the directory `rp`, which
/// creates the file as `lemma_create_then_lookup` describes and writes the
/// data to it, looking the path up again through the directory's record read
/// back from the image finds the created inode; its size is the data's length
/// and its contents are `data`. Besides what the create asks, the data write
/// must be separated, its bytes and the file's size field must miss what the
/// lookup reads, its bytes must miss the directory's record and the file's
/// own record, and the free record's old size must not exceed the data's
/// length (a larger old size is kept, and `get` then reads past the data).
#[verifier::spinoff_prover]
pub proof fn lemma_put_new_then_get(
    img: Seq<u8>,
    rp: Dinode,
    path: Seq<char>,
    data: Seq<u8>,
    img3: Seq<u8>,
    img2: Seq<u8>,
    ip2: Dinode,
    img1: Seq<u8>,
    ip: Dinode,
    k: int,
    j: int,
)
    requires
        img.len() <= usize::MAX,
        has_superblock(img),
        inode_fits(img, superblock_of(img), rp.inum as int),
        rp == inode_at(img, inode_pos(superblock_of(img), rp.inum as int), rp.inum as usize),
        rp.file_type != 0,
        rp.size > 0,
        rp.size % 16 == 0,
        path_names(path).len() == 1,
        path_names(path)[0].len() <= 14,
        forall|i: int|
            0 <= i < path_names(path)[0].len() ==> #[trigger] (path_names(path)[0][i] as u8) != 0
                && (path_names(path)[0][i] as u8) as char == path_names(path)[0][i],
        create_result(img, rp, path) == Some((img2, Some(ip2))),
        alloc_result(img, T_FILE) == Some((img1, Some(ip))),
        free_inode_from(img, superblock_of(img), 1) == Some(Some(k)),
        k < 0x10000,
        forall|a: int|
            inode_pos(superblock_of(img), k) <= a < inode_pos(superblock_of(img), k) + 2
                ==> #[trigger] outside_scan(img, rp, rp.size as int, a),
        free_slot(img1, rp, 0) == Some(j),
        16 * j + 16 < 0x1_0000_0000,
        entry_write_clear(img1, rp, j),
        forall|y: int|
            16 * j <= y < 16 * j + 16 ==> !(inode_pos(superblock_of(img), k) <= #[trigger] byte_addr(
                img1,
                rp,
                y,
            ).unwrap() < inode_pos(superblock_of(img), k) + 64),
        put_result(img, rp, path, data) == Some((img3, Ok::<(), crate::cmd::CmdError>(()))),
        0 < data.len() <= 0x1_0000_0000 - 1024,
        inode_at(img, inode_pos(superblock_of(img), k), k as usize).size <= data.len(),
        put_separated(
            img2,
            inode_at(img2, inode_pos(superblock_of(img), rp.inum as int), rp.inum as usize),
            path_names(path),
            ip2,
            data.len() as int,
        ),
        forall|x: int|
            0 <= x < data.len() ==> !(inode_pos(superblock_of(img), rp.inum as int)
                <= #[trigger] byte_addr(img2, ip2, x).unwrap() < inode_pos(
                superblock_of(img),
                rp.inum as int,
            ) + 64),
    ensures
        ({
            let sb = superblock_of(img);
            let rp3 = inode_at(img3, inode_pos(sb, rp.inum as int), rp.inum as usize);
            lookup_result(img3, rp3, path) matches Some(Some(f)) && {
                &&& f.inum == k
                &&& f.size == data.len()
                &&& file_contents(img3, f) == Some(data)
            }
        }),
{
    let sb = superblock_of(img);
    let names = path_names(path);
    let q = inode_pos(sb, k);
    let prp = inode_pos(sb, rp.inum as int);
    let rp2 = inode_at(img2, prp, rp.inum as usize);
    let d = inode_at(img2, q, k as usize);
    lemma_put_new_create_side(img, rp, path, data, img3, img2, ip2, img1, ip, k, j);
    lemma_put_leaves_walk(img2, rp2, names, ip2, ip2, data, img3);
    lemma_walk_frame(img2, img3, rp2, names, d);
    lemma_put_new_keeps_dir(img2, prp, rp.inum as usize, ip2, data, img3);
    lemma_write_through_copy(img2, q, k as usize, ip2, 0, data, img3);
}

/// The create side of `put` of a new name: the directory's record read back
/// finds the allocated record, which has the position, addresses and size of
/// the inode the data is written through; the data write is the rest of
/// `put`.
#[verifier::spinoff_prover]
proof fn lemma_put_new_create_side(
    img: Seq<u8>,
    rp: Dinode,
    path: Seq<char>,
    data: Seq<u8>,
    img3: Seq<u8>,
    img2: Seq<u8>,
    ip2: Dinode,
    img1: Seq<u8>,
    ip: Dinode,
    k: int,
    j: int,
)
    requires
        img.len() <= usize::MAX,
        has_superblock(img),
        inode_fits(img, superblock_of(img), rp.inum as int),
        rp == inode_at(img, inode_pos(superblock_of(img), rp.inum as int), rp.inum as usize),
        rp.file_type != 0,
        rp.size > 0,
        rp.size % 16 == 0,
        path_names(path).len() == 1,
        path_names(path)[0].len() <= 14,
        forall|i: int|
            0 <= i < path_names(path)[0].len() ==> #[trigger] (path_names(path)[0][i] as u8) != 0
                && (path_names(path)[0][i] as u8) as char == path_names(path)[0][i],
        create_result(img, rp, path) == Some((img2, Some(ip2))),
        alloc_result(img, T_FILE) == Some((img1, Some(ip))),
        free_inode_from(img, superblock_of(img), 1) == Some(Some(k)),
        k < 0x10000,
        forall|a: int|
            inode_pos(superblock_of(img), k) <= a < inode_pos(superblock_of(img), k) + 2
                ==> #[trigger] outside_scan(img, rp, rp.size as int, a),
        free_slot(img1, rp, 0) == Some(j),
        16 * j + 16 < 0x1_0000_0000,
        entry_write_clear(img1, rp, j),
        forall|y: int|
            16 * j <= y < 16 * j + 16 ==> !(inode_pos(superblock_of(img), k) <= #[trigger] byte_addr(
                img1,
                rp,
                y,
            ).unwrap() < inode_pos(superblock_of(img), k) + 64),
        put_result(img, rp, path, data) == Some((img3, Ok::<(), crate::cmd::CmdError>(()))),
        0 < data.len() <= 0x1_0000_0000 - 1024,
        inode_at(img, inode_pos(superblock_of(img), k), k as usize).size <= data.len(),
    ensures
        ({
            let sb = superblock_of(img);
            let q = inode_pos(sb, k);
            let prp = inode_pos(sb, rp.inum as int);
            let rp2 = inode_at(img2, prp, rp.inum as usize);
            let d = inode_at(img2, q, k as usize);
            &&& lookup_result(img2, rp2, path) == Some(Some(d))
            &&& d.inum == k
            &&& superblock_of(img2) == sb
            &&& img2.len() == img.len()
            &&& ip2.pos as int == q
            &&& ip2.addrs == d.addrs
            &&& ip2.size == d.size
            &&& d.size == inode_at(img, q, k as usize).size
            &&& write_result(img2, ip2, 0, data) == Some(img3)
            &&& (q + 64 <= prp || prp + 64 <= q)
            &&& 0 <= q
            &&& q + 64 <= img.len()
            &&& 0 <= prp
            &&& prp + 64 <= img.len()
        }),
{
    let sb = superblock_of(img);
    let names = path_names(path);
    let name = names[0];
    let q = inode_pos(sb, k);
    let prp = inode_pos(sb, rp.inum as int);
    lemma_create_then_lookup(img, rp, path, img2, ip2, img1, ip, k, j);
    lemma_create_prepare(img, rp, path, img2, ip2, img1, ip, k);
    assert(ip.file_type == T_FILE && ip.inum == k && (q + 2 <= rp.pos || rp.pos + 64 <= q)
        && rp.pos as int == prp && q + 64 <= img.len() && ip2 == (Dinode {
        nlink: (ip.nlink + 1) as i16,
        ..ip
    }) && ip == (Dinode { file_type: T_FILE, ..inode_at(img, q, k as usize) })) by {
        lemma_alloc_frame_facts(img, rp, img1, ip, k, name);
        lemma_alloc_then_get(img, T_FILE, img1, ip, k);
        lemma_added_inode(img1, rp, name, ip, img2, ip2);
    }
    assert(write_result(img2, ip2, 0, data) == Some(img3)) by {
        lemma_create_one_steps(img, rp, path, img2, ip2, img1, ip);
        lemma_one_name_lookup(img, rp, path);
        lemma_put_new_writes(img, rp, path, data, img3, img2, ip2);
    }
    assert(q + 64 <= prp || prp + 64 <= q) by {
        lemma_inode_pos_apart(sb, rp.inum as int, k);
    }
}

/// `put` of an absent path writes the data to the inode that the create
/// gives.
proof fn lemma_put_new_writes(
    img: Seq<u8>,
    rp: Dinode,
    path: Seq<char>,
    data: Seq<u8>,
    img3: Seq<u8>,
    img2: Seq<u8>,
    ip2: Dinode,
)
    requires
        lookup_result(img, rp, path) == Some(Option::<Dinode>::None),
        create_result(img, rp, path) == Some((img2, Some(ip2))),
        put_result(img, rp, path, data) == Some((img3, Ok::<(), crate::cmd::CmdError>(()))),
    ensures
        write_result(img2, ip2, 0, data) == Some(img3),
{
    reveal(put_result);
}

/// The inode that adding an entry gives is the inode given, one link more.
proof fn lemma_added_inode(
    img1: Seq<u8>,
    rp: Dinode,
    name: Seq<char>,
    ip: Dinode,
    img2: Seq<u8>,
    ip2: Dinode,
)
    requires
        add_entry_result(img1, rp, name, ip) == Some((img2, ip2)),
    ensures
        ip2 == (Dinode { nlink: (ip.nlink + 1) as i16, ..ip }),
{
}

/// The data write to a created file, whose bytes miss the directory's record
/// at `prp` and whose size field lies outside it, keeps that record.
proof fn lemma_put_new_keeps_dir(
    img2: Seq<u8>,
    prp: int,
    inum: usize,
    w: Dinode,
    data: Seq<u8>,
    img3: Seq<u8>,
)
    requires
        0 <= prp,
        prp + 64 <= img2.len(),
        w.pos + 64 <= prp || prp + 64 <= w.pos,
        write_result(img2, w, 0, data) == Some(img3),
        write_separated(img2, w, 0, data.len() as int),
        forall|x: int|
            0 <= x < data.len() ==> !(prp <= #[trigger] byte_addr(img2, w, x).unwrap() < prp
                + 64),
    ensures
        inode_at(img3, prp, inum) == inode_at(img2, prp, inum),
{
    let n = data.len() as int;
    lemma_write_effect(img2, w, 0, data, img3);
    assert forall|a: int| prp <= a < prp + 64 implies #[trigger] img3[a] == img2[a] by {
        if written_to(img2, w, 0, n, a) {
            let x = choose|x: int| 0 <= x < n && #[trigger] byte_addr(img2, w, x) == Some(a);
            assert(!(prp <= byte_addr(img2, w, x).unwrap() < prp + 64));
        }
        assert(!in_size_field(w, a));
    }
    lemma_record_same(img2, img3, prp, inum);
}

/// What a one-name create does before its entry is added: the name is
/// absent, the allocation hands out inode `k` of file type, and the image
/// after it keeps the directory's record, its lookup and the super block.
proof fn lemma_create_prepare(
    img: Seq<u8>,
    rp: Dinode,
    path: Seq<char>,
    img2: Seq<u8>,
    ip2: Dinode,
    img1: Seq<u8>,
    ip: Dinode,
    k: int,
)
    requires
        img.len() <= usize::MAX,
        has_superblock(img),
        inode_fits(img, superblock_of(img), rp.inum as int),
        rp == inode_at(img, inode_pos(superblock_of(img), rp.inum as int), rp.inum as usize),
        rp.file_type != 0,
        path_names(path).len() == 1,
        create_result(img, rp, path) == Some((img2, Some(ip2))),
        alloc_result(img, T_FILE) == Some((img1, Some(ip))),
        free_inode_from(img, superblock_of(img), 1) == Some(Some(k)),
        k < 0x10000,
        forall|a: int|
            inode_pos(superblock_of(img), k) <= a < inode_pos(superblock_of(img), k) + 2
                ==> #[trigger] outside_scan(img, rp, rp.size as int, a),
    ensures
        1 <= path_names(path)[0].len(),
        add_entry_result(img1, rp, path_names(path)[0], ip) == Some((img2, ip2)),
        alloc_frame(img, rp, img1, ip, k, path_names(path)[0]),
{
    assert(path_names(path)[0].len() >= 1) by {
        lemma_names_are_plain(path);
    }
    lemma_create_one_steps(img, rp, path, img2, ip2, img1, ip);
    lemma_alloc_frame(img, rp, img1, ip, k, path_names(path)[0]);
}

/// What the image after allocating inode `k` of file type keeps of the
/// image before it, for a directory `rp` in which `name` is absent.
#[verifier::opaque]
spec fn alloc_frame(img: Seq<u8>, rp: Dinode, img1: Seq<u8>, ip: Dinode, k: int, name: Seq<char>) -> bool {
    let sb = superblock_of(img);
    let q = inode_pos(sb, k);
    let prp = inode_pos(sb, rp.inum as int);
    &&& ip.inum == k && ip.file_type == T_FILE
    &&& inode_fits(img1, sb, k)
    &&& inode_at(img1, q, k as usize) == ip
    &&& 1 <= k < sb.ninodes
    &&& img1 == splice(img, q, le16_bytes(i16_bits(T_FILE)))
    &&& rp.pos as int == prp
    &&& (q + 2 <= prp || prp + 64 <= q)
    &&& superblock_of(img1) == sb
    &&& has_superblock(img1)
    &&& img1.len() == img.len()
    &&& rp == inode_at(img1, prp, rp.inum as usize)
    &&& find_entry(img1, rp, name, 0) == Some(Option::<(Dinode, usize)>::None)
}

/// The allocation of a file inode `k` whose type bytes miss what a lookup of
/// `name` in `rp` reads keeps that lookup, `rp`'s record and the super block.
#[verifier::spinoff_prover]
#[verifier::rlimit(40)]
proof fn lemma_alloc_frame(img: Seq<u8>, rp: Dinode, img1: Seq<u8>, ip: Dinode, k: int, name: Seq<char>)
    requires
        img.len() <= usize::MAX,
        has_superblock(img),
        inode_fits(img, superblock_of(img), rp.inum as int),
        rp == inode_at(img, inode_pos(superblock_of(img), rp.inum as int), rp.inum as usize),
        rp.file_type != 0,
        alloc_result(img, T_FILE) == Some((img1, Some(ip))),
        free_inode_from(img, superblock_of(img), 1) == Some(Some(k)),
        k < 0x10000,
        forall|a: int|
            inode_pos(superblock_of(img), k) <= a < inode_pos(superblock_of(img), k) + 2
                ==> #[trigger] outside_scan(img, rp, rp.size as int, a),
        find_entry(img, rp, name, 0) == Some(Option::<(Dinode, usize)>::None),
    ensures
        alloc_frame(img, rp, img1, ip, k, name),
{
    let sb = superblock_of(img);
    let q = inode_pos(sb, k);
    let prp = inode_pos(sb, rp.inum as int);
    assert(ip.inum == k && ip.file_type == T_FILE && inode_fits(img1, sb, k) && inode_at(
        img1,
        q,
        k as usize,
    ) == ip && 1 <= k < sb.ninodes) by {
        lemma_alloc_then_get(img, T_FILE, img1, ip, k);
        lemma_free_inode_range(img, sb, 1);
    }
    assert(img1 == splice(img, q, le16_bytes(i16_bits(T_FILE))));
    assert(rp.pos as int == prp && (q + 2 <= prp || prp + 64 <= q)) by {
        lemma_free_inode_range(img, sb, 1);
        if rp.inum as int == k {
            assert(as_i16(le16(img, q)) == 0);
        }
        lemma_inode_pos_apart(sb, rp.inum as int, k);
    }
    assert(superblock_of(img1) == sb && has_superblock(img1) && img1.len() == img.len() && rp
        == inode_at(img1, prp, rp.inum as usize) && find_entry(img1, rp, name, 0) == Some(
        Option::<(Dinode, usize)>::None,
    )) by {
        lemma_alloc_keeps_dir(img, img1, rp, q, le16_bytes(i16_bits(T_FILE)));
        lemma_record_same(img, img1, prp, rp.inum as usize);
        lemma_absent_stable(img, img1, rp, name, 0);
    }
    reveal(alloc_frame);
}

/// The entry added after the allocation is found again, through the
/// directory's record read back from the image, and names the allocated
/// inode, still of file type.
#[verifier::spinoff_prover]
proof fn lemma_create_finish(
    img: Seq<u8>,
    rp: Dinode,
    name: Seq<char>,
    img1: Seq<u8>,
    ip: Dinode,
    k: int,
    j: int,
    img2: Seq<u8>,
    ip2: Dinode,
)
    requires
        alloc_frame(img, rp, img1, ip, k, name),
        img.len() <= usize::MAX,
        inode_fits(img, superblock_of(img), rp.inum as int),
        rp.size > 0,
        rp.size % 16 == 0,
        1 <= name.len() <= 14,
        forall|i: int|
            0 <= i < name.len() ==> #[trigger] (name[i] as u8) != 0 && (name[i] as u8) as char
                == name[i],
        add_entry_result(img1, rp, name, ip) == Some((img2, ip2)),
        free_slot(img1, rp, 0) == Some(j),
        16 * j + 16 < 0x1_0000_0000,
        entry_write_clear(img1, rp, j),
        forall|y: int|
            16 * j <= y < 16 * j + 16 ==> !(inode_pos(superblock_of(img), k) <= #[trigger] byte_addr(
                img1,
                rp,
                y,
            ).unwrap() < inode_pos(superblock_of(img), k) + 64),
    ensures
        ({
            let sb = superblock_of(img);
            let rp2 = inode_at(img2, inode_pos(sb, rp.inum as int), rp.inum as usize);
            let d = inode_at(img2, inode_pos(sb, k), k as usize);
            &&& find_entry(img2, rp2, name, 0) == Some(Some((d, (16 * j) as usize)))
            &&& d == ip
            &&& ip.inum == k
            &&& ip.file_type == T_FILE
            &&& superblock_of(img2) == sb
            &&& img2.len() == img.len()
        }),
{
    lemma_alloc_frame_facts(img, rp, img1, ip, k, name);
    assert(inode_fits(img1, superblock_of(img1), rp.inum as int));
    lemma_added_entry_is_found(img1, rp, name, ip, j, img2, ip2);
    let sb = superblock_of(img);
    let q = inode_pos(sb, k);
    let prp = inode_pos(sb, rp.inum as int);
    assert(0 <= j) by {
        lemma_free_slot_range(img1, rp, 0);
    }
    assert(q + 64 <= prp || prp + 64 <= q) by {
        lemma_inode_pos_apart(sb, rp.inum as int, k);
    }
    lemma_clear_parts(img1, rp, j);
    lemma_add_entry_writes(img1, rp, name, ip, j, img2, ip2);
    lemma_create_entry_frame(
        img1,
        rp,
        q,
        k,
        ip,
        j,
        entry_record(ip.inum, name_field(name)),
        img2,
    );
}

/// What `entry_write_clear` says of the entry's own bytes and of the super
/// block.
proof fn lemma_clear_parts(img: Seq<u8>, dp: Dinode, j: int)
    requires
        entry_write_clear(img, dp, j),
    ensures
        write_separated(img, dp, 16 * j, 16),
        !(1024 < dp.pos + 12 && dp.pos + 8 < 1056),
        forall|y: int|
            16 * j <= y < 16 * j + 16 ==> !(1024 <= #[trigger] byte_addr(img, dp, y).unwrap()
                < 1056),
{
    reveal(entry_write_clear);
}

/// The plain facts of `alloc_frame` about positions, sizes and records.
proof fn lemma_alloc_frame_facts(
    img: Seq<u8>,
    rp: Dinode,
    img1: Seq<u8>,
    ip: Dinode,
    k: int,
    name: Seq<char>,
)
    requires
        alloc_frame(img, rp, img1, ip, k, name),
    ensures
        ({
            let sb = superblock_of(img);
            let q = inode_pos(sb, k);
            &&& ip.inum == k && ip.file_type == T_FILE
            &&& 1 <= k < sb.ninodes
            &&& q + 64 <= img1.len()
            &&& inode_at(img1, q, k as usize) == ip
            &&& rp.pos as int == inode_pos(sb, rp.inum as int)
            &&& (q + 2 <= rp.pos || rp.pos + 64 <= q)
            &&& superblock_of(img1) == sb
            &&& img1.len() == img.len()
            &&& has_superblock(img1)
            &&& inode_fits(img1, sb, k)
            &&& rp == inode_at(img1, inode_pos(sb, rp.inum as int), rp.inum as usize)
            &&& find_entry(img1, rp, name, 0) == Some(Option::<(Dinode, usize)>::None)
        }),
{
    reveal(alloc_frame);
}

/// The entry write of a create keeps the allocated inode's record and the
/// super block.
#[verifier::spinoff_prover]
proof fn lemma_create_entry_frame(
    img1: Seq<u8>,
    rp: Dinode,
    q: int,
    k: int,
    ip: Dinode,
    j: int,
    rec: Seq<u8>,
    img2: Seq<u8>,
)
    requires
        0 <= j,
        rec.len() == 16,
        write_result(img1, rp, 16 * j, rec) == Some(img2),
        write_separated(img1, rp, 16 * j, 16),
        !(1024 < rp.pos + 12 && rp.pos + 8 < 1056),
        forall|y: int|
            16 * j <= y < 16 * j + 16 ==> !(1024 <= #[trigger] byte_addr(img1, rp, y).unwrap()
                < 1056),
        has_superblock(img1),
        0 <= q,
        q + 64 <= img1.len(),
        q + 64 <= rp.pos || rp.pos + 64 <= q,
        inode_at(img1, q, k as usize) == ip,
        forall|y: int|
            16 * j <= y < 16 * j + 16 ==> !(q <= #[trigger] byte_addr(img1, rp, y).unwrap() < q
                + 64),
    ensures
        inode_at(img2, q, k as usize) == ip,
        superblock_of(img2) == superblock_of(img1),
        img2.len() == img1.len(),
{
    assert(inode_at(img2, q, k as usize) == ip) by {
        lemma_entry_keeps_range(img1, rp, j, rec, img2, q, q + 64);
        lemma_record_same(img1, img2, q, k as usize);
    }
    assert(superblock_of(img2) == superblock_of(img1)) by {
        lemma_entry_keeps_range(img1, rp, j, rec, img2, 1024, 1056);
        assert(img2[1024] == img1[1024]);
    }
    lemma_write_effect(img1, rp, 16 * j, rec, img2);
}

/// Writing an entry leaves alone a range of the image that none of its bytes
/// lands on and that holds no byte of the directory's size field.
proof fn lemma_entry_keeps_range(
    img1: Seq<u8>,
    rp: Dinode,
    j: int,
    rec: Seq<u8>,
    img2: Seq<u8>,
    lo: int,
    hi: int,
)
    requires
        0 <= j,
        rec.len() == 16,
        write_result(img1, rp, 16 * j, rec) == Some(img2),
        write_separated(img1, rp, 16 * j, 16),
        0 <= lo,
        hi <= img1.len(),
        forall|a: int| lo <= a < hi ==> !#[trigger] in_size_field(rp, a),
        forall|y: int|
            16 * j <= y < 16 * j + 16 ==> !(lo <= #[trigger] byte_addr(img1, rp, y).unwrap()
                < hi),
    ensures
        forall|a: int| lo <= a < hi ==> #[trigger] img2[a] == img1[a],
{
    lemma_write_effect(img1, rp, 16 * j, rec, img2);
    assert forall|a: int| lo <= a < hi implies #[trigger] img2[a] == img1[a] by {
        if written_to(img1, rp, 16 * j, 16 * j + 16, a) {
            let y = choose|y: int|
                16 * j <= y < 16 * j + 16 && #[trigger] byte_addr(img1, rp, y) == Some(a);
            assert(!(lo <= byte_addr(img1, rp, y).unwrap() < hi));
        }
        assert(!in_size_field(rp, a));
    }
}

/// Two images that agree on an inode record read the same inode from it.
proof fn lemma_record_same(img: Seq<u8>, img1: Seq<u8>, p: int, inum: usize)
    requires
        forall|a: int| p <= a < p + 64 ==> #[trigger] img1[a] == img[a],
    ensures
        inode_at(img1, p, inum) == inode_at(img, p, inum),
{
    assert(inode_at(img1, p, inum).addrs =~= inode_at(img, p, inum).addrs);
}

} // verus!
