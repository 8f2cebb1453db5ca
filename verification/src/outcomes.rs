//! What the operations give on whole classes of inputs: the commands refuse
//! what they must refuse and leave the image alone, a listing shows the
//! stored entries, a path splits into the runs between its slashes, and
//! truncation zeroes the data blocks.
use vstd::prelude::*;
use crate::fs::{has_superblock, inode_at, inode_fits, inode_pos, superblock_of, Dinode, T_DIR, T_FILE};
use crate::libfs::{read_result, truncate_result, zero_block, zero_direct, zero_mapped};
use crate::dir::{lemma_dirent_of, lookup_result, path_names, split_names};
use crate::cmd::{list_entries, put_result, rm_result, CmdError, ListEntry};

verus! {

/// `rm` refuses a directory: when the path names an inode of type `T_DIR`,
/// the answer is `IsADirectory` and the image is left as it was.
pub proof fn lemma_rm_refuses_directories(img: Seq<u8>, root: Dinode, path: Seq<char>, ip: Dinode)
    requires
        lookup_result(img, root, path) == Some(Some(ip)),
        ip.file_type == T_DIR,
    ensures
        rm_result(img, root, path) == Some((img, Err::<(), CmdError>(CmdError::IsADirectory))),
{
}

/// `rm` of a path that names nothing answers `NotFound` and leaves the image
/// as it was.
pub proof fn lemma_rm_of_nothing(img: Seq<u8>, root: Dinode, path: Seq<char>)
    requires
        lookup_result(img, root, path) == Some(Option::<Dinode>::None),
    ensures
        rm_result(img, root, path) == Some((img, Err::<(), CmdError>(CmdError::NotFound))),
{
}

/// `put` overwrites regular files only: when the path names an inode whose
/// type is not `T_FILE` (a directory or a device), the answer is `NotAFile`
/// and the image is left as it was.
pub proof fn lemma_put_refuses_non_files(
    img: Seq<u8>,
    root: Dinode,
    path: Seq<char>,
    data: Seq<u8>,
    ip: Dinode,
)
    requires
        lookup_result(img, root, path) == Some(Some(ip)),
        ip.file_type != T_FILE,
    ensures
        put_result(img, root, path, data) == Some((img, Err::<(), CmdError>(CmdError::NotAFile))),
{
    reveal(put_result);
}

/// Whether the listing line `e` shows entry `j` of the directory `ip`: the
/// entry lies within the directory's size and reads from the image; its
/// inode number, from its first two bytes, is `e`'s and is not 0; `e`'s name
/// is the entry's 14 name bytes, bytes 2 to 15 (0 where the directory ends
/// first); and `e`'s type and size are those of the inode record with that
/// number.
pub open spec fn shows_entry(img: Seq<u8>, ip: Dinode, j: int, e: ListEntry) -> bool {
    let b = read_result(img, ip, 16, 16 * j).unwrap();
    let sb = superblock_of(img);
    let rec = inode_at(img, inode_pos(sb, e.inum as int), e.inum as usize);
    &&& 0 <= j
    &&& 16 * j < ip.size
    &&& read_result(img, ip, 16, 16 * j) is Some
    &&& b.len() >= 2
    &&& b[0] + 256 * b[1] == e.inum
    &&& e.inum != 0
    &&& forall|i: int|
        0 <= i < 14 ==> #[trigger] e.name@[i] == (if i + 2 < b.len() {
            b[i + 2]
        } else {
            0u8
        })
    &&& has_superblock(img)
    &&& inode_fits(img, sb, e.inum as int)
    &&& e.file_type == rec.file_type
    &&& e.size == rec.size
}

/// Whether entry `j` of the directory `ip` reads from the image and holds an
/// inode number other than 0.
pub open spec fn entry_in_use(img: Seq<u8>, ip: Dinode, j: int) -> bool {
    let b = read_result(img, ip, 16, 16 * j).unwrap();
    &&& 0 <= j
    &&& 16 * j < ip.size
    &&& read_result(img, ip, 16, 16 * j) is Some
    &&& b.len() >= 2
    &&& b[0] + 256 * b[1] != 0
}

/// Whether the lines `es` show, in order, the entries `js` of the directory
/// `ip`, and these are all the entries in use.
pub open spec fn lists_in_order(img: Seq<u8>, ip: Dinode, es: Seq<ListEntry>, js: Seq<int>) -> bool {
    &&& js.len() == es.len()
    &&& forall|k: int| 0 <= k < es.len() ==> #[trigger] shows_entry(img, ip, js[k], es[k])
    &&& forall|k: int, l: int| 0 <= k < l < es.len() ==> #[trigger] js[k] < #[trigger] js[l]
    &&& forall|j: int| #[trigger] entry_in_use(img, ip, j) ==> js.contains(j)
}

/// A listing shows the directory's stored entries: when `ls` lists the
/// directory `ip`, its lines are, in the directory's order, exactly the
/// entries in use, each with the 14 name bytes stored in the entry, its inode
/// number, and the type and size of that inode.
pub proof fn lemma_listing_shows_entries(img: Seq<u8>, ip: Dinode, es: Seq<ListEntry>)
    requires
        list_entries(img, ip, 0, Seq::empty()) == Some(es),
    ensures
        exists|js: Seq<int>| lists_in_order(img, ip, es, js),
{
    let js = lemma_listing_from(img, ip, 0, Seq::empty(), Seq::empty(), es);
    assert(lists_in_order(img, ip, es, js));
}

/// The listing from entry `j` on, after lines `acc` that show the entries
/// `js0` before `j`, shows the entries in use from `j` on after them.
proof fn lemma_listing_from(
    img: Seq<u8>,
    ip: Dinode,
    j: int,
    acc: Seq<ListEntry>,
    js0: Seq<int>,
    es: Seq<ListEntry>,
) -> (js: Seq<int>)
    requires
        0 <= j,
        list_entries(img, ip, j, acc) == Some(es),
        js0.len() == acc.len(),
        forall|k: int| 0 <= k < acc.len() ==> #[trigger] shows_entry(img, ip, js0[k], acc[k]),
        forall|k: int| 0 <= k < acc.len() ==> #[trigger] js0[k] < j,
        forall|k: int, l: int| 0 <= k < l < acc.len() ==> #[trigger] js0[k] < #[trigger] js0[l],
        forall|i: int| 0 <= i < j && #[trigger] entry_in_use(img, ip, i) ==> js0.contains(i),
    ensures
        lists_in_order(img, ip, es, js),
    decreases ip.size + 16 - 16 * j,
{
    if 16 * j >= ip.size {
        assert forall|i: int| #[trigger] entry_in_use(img, ip, i) implies js0.contains(i) by {
            assert(i < j);
        }
        js0
    } else {
        let b = read_result(img, ip, 16, 16 * j).unwrap();
        lemma_dirent_of(b);
        let de = crate::fs::dirent_of(b);
        assert(de.inum == b[0] + 256 * b[1]);
        if de.inum == 0 {
            assert forall|i: int| 0 <= i < j + 1 && #[trigger] entry_in_use(img, ip, i) implies js0.contains(
                i,
            ) by {
                if i == j {
                    assert(false);
                }
            }
            lemma_listing_from(img, ip, j + 1, acc, js0, es)
        } else {
            let sb = superblock_of(img);
            let p = inode_at(img, inode_pos(sb, de.inum as int), de.inum as usize);
            let e = ListEntry { name: de.name, file_type: p.file_type, inum: de.inum, size: p.size };
            let acc2 = acc.push(e);
            let js2 = js0.push(j);
            assert(shows_entry(img, ip, j, e)) by {
                assert forall|i: int| 0 <= i < 14 implies #[trigger] e.name@[i] == (if i + 2 < b.len() {
                    b[i + 2]
                } else {
                    0u8
                }) by {
                    assert(e.name@ == crate::fs::entry_name(b));
                }
            }
            assert forall|k: int| 0 <= k < acc2.len() implies #[trigger] shows_entry(
                img,
                ip,
                js2[k],
                acc2[k],
            ) by {
                if k < acc.len() {
                    assert(js2[k] == js0[k] && acc2[k] == acc[k]);
                }
            }
            assert forall|k: int| 0 <= k < acc2.len() implies #[trigger] js2[k] < j + 1 by {
                if k < acc.len() {
                    assert(js2[k] == js0[k]);
                }
            }
            assert forall|k: int, l: int| 0 <= k < l < acc2.len() implies #[trigger] js2[k]
                < #[trigger] js2[l] by {
                assert(js2[k] == js0[k]);
                if l < acc.len() {
                    assert(js2[l] == js0[l]);
                }
            }
            assert forall|i: int| 0 <= i < j + 1 && #[trigger] entry_in_use(img, ip, i) implies js2.contains(
                i,
            ) by {
                if i == j {
                    assert(js2[js0.len() as int] == j);
                } else {
                    assert(js0.contains(i));
                    let t = choose|t: int| 0 <= t < js0.len() && js0[t] == i;
                    assert(js2[t] == i);
                }
            }
            lemma_listing_from(img, ip, j + 1, acc2, js2, es)
        }
    }
}

/// A path without a slash, and not empty, is one name: the path itself.
pub proof fn lemma_plain_path_is_one_name(path: Seq<char>)
    requires
        path.len() > 0,
        !path.contains('/'),
    ensures
        path_names(path) == seq![path],
{
    lemma_split_no_slash(path);
}

proof fn lemma_split_no_slash(s: Seq<char>)
    requires
        !s.contains('/'),
    ensures
        split_names(s) == (Seq::<Seq<char>>::empty(), s),
    decreases s.len(),
{
    if s.len() > 0 {
        assert(!s.drop_last().contains('/')) by {
            if s.drop_last().contains('/') {
                let i = choose|i: int| 0 <= i < s.drop_last().len() && s.drop_last()[i] == '/';
                assert(s[i] == '/');
            }
        }
        lemma_split_no_slash(s.drop_last());
        assert(s.last() != '/') by {
            assert(s[s.len() - 1] == s.last());
        }
        assert(s.drop_last().push(s.last()) =~= s);
    }
}

/// The characters of `s` other than slashes, in order.
pub open spec fn without_slashes(s: Seq<char>) -> Seq<char>
    decreases s.len(),
{
    if s.len() == 0 {
        Seq::empty()
    } else if s.last() == '/' {
        without_slashes(s.drop_last())
    } else {
        without_slashes(s.drop_last()).push(s.last())
    }
}

/// Splitting a path loses only its slashes: the names, put end to end, are
/// the path's characters other than slashes. With each name non-empty and
/// free of slashes, the names are the runs between the slashes.
pub proof fn lemma_names_cover_the_path(path: Seq<char>)
    ensures
        path_names(path).flatten() == without_slashes(path),
{
    lemma_split_cover(path);
    let r = split_names(path);
    if r.1.len() > 0 {
        r.0.lemma_flatten_push(r.1);
    } else {
        assert(r.0.flatten() + r.1 =~= r.0.flatten());
    }
}

proof fn lemma_split_cover(s: Seq<char>)
    ensures
        split_names(s).0.flatten() + split_names(s).1 == without_slashes(s),
    decreases s.len(),
{
    if s.len() > 0 {
        lemma_split_cover(s.drop_last());
        let prev = split_names(s.drop_last());
        if s.last() == '/' {
            if prev.1.len() > 0 {
                prev.0.lemma_flatten_push(prev.1);
            }
            assert(split_names(s).0.flatten() + Seq::<char>::empty() =~= split_names(s).0.flatten());
        } else {
            assert(prev.0.flatten() + prev.1.push(s.last()) =~= (prev.0.flatten() + prev.1).push(
                s.last(),
            ));
        }
    }
}

/// Truncation zeroes the data: afterwards every byte of each direct block
/// `k` below 12 that the size reaches (1024 * k < size, that is k below the
/// size in blocks, rounded up) reads as 0, and so does the indirect block
/// when the size needs more than 12 blocks; every other byte either is as
/// it was or reads as 0.
pub proof fn lemma_truncate_zeroes(img: Seq<u8>, ip: Dinode, img2: Seq<u8>)
    requires
        truncate_result(img, ip) == Some(img2),
    ensures
        img2.len() == img.len(),
        forall|a: int| 0 <= a < img.len() ==> #[trigger] img2[a] == img[a] || img2[a] == 0,
        forall|k: int| 0 <= k < 12 && 1024 * k < ip.size ==> 1024 * #[trigger] ip.addrs[k] + 1024 <= img.len(),
        forall|k: int, b: int|
            0 <= k < 12 && 1024 * k < ip.size && 0 <= b < 1024 ==> #[trigger] img2[1024
                * ip.addrs[k] + b] == 0,
        ip.size > 12 * 1024 ==> 1024 * ip.addrs[12] + 1024 <= img.len(),
        ip.size > 12 * 1024 ==> forall|b: int|
            0 <= b < 1024 ==> #[trigger] img2[1024 * ip.addrs[12] + b] == 0,
{
    let n = (ip.size + 1023) / 1024;
    let c = if n < 12 {
        n
    } else {
        12
    };
    lemma_many_blocks(ip.size as int);
    let img1 = zero_direct(img, ip, 0, c).unwrap();
    lemma_zero_direct(img, ip, 0, c, img1);
    assert forall|k: int, b: int|
        0 <= k < 12 && 1024 * k < ip.size && 0 <= b < 1024 implies #[trigger] img1[1024
        * ip.addrs[k] + b] == 0 && 1024 * ip.addrs[k] + 1024 <= img.len() by {
        lemma_blocks_reached(ip.size as int, k);
    }
    assert forall|k: int| 0 <= k < 12 && 1024 * k < ip.size implies 1024 * #[trigger] ip.addrs[k]
        + 1024 <= img.len() by {
        lemma_blocks_reached(ip.size as int, k);
    }
    if n > 12 {
        let img3 = zero_mapped(img1, ip, 0, n - 12).unwrap();
        lemma_zero_mapped(img1, ip, 0, n - 12, img3);
        let p = 1024 * ip.addrs[12];
        assert(img2 == zero_block(img3, p));
        assert forall|k: int, b: int|
            0 <= k < 12 && 1024 * k < ip.size && 0 <= b < 1024 implies #[trigger] img2[1024
            * ip.addrs[k] + b] == 0 by {
            let a = 1024 * ip.addrs[k] + b;
            assert(img1[a] == 0);
            assert(img3[a] == img1[a] || img3[a] == 0);
        }
        assert forall|a: int| 0 <= a < img.len() implies #[trigger] img2[a] == img[a] || img2[a]
            == 0 by {
            assert(img1[a] == img[a] || img1[a] == 0);
            assert(img3[a] == img1[a] || img3[a] == 0);
        }
    }
}

/// The size needs more than 12 blocks exactly when it exceeds 12 blocks.
proof fn lemma_many_blocks(size: int)
    requires
        0 <= size,
    ensures
        (size > 12 * 1024) == ((size + 1023) / 1024 > 12),
{
    assert((size > 12 * 1024) == ((size + 1023) / 1024 > 12)) by (nonlinear_arith)
        requires
            0 <= size,
    ;
}

/// A block number whose first byte lies below the size is below the size in
/// blocks, rounded up.
proof fn lemma_blocks_reached(size: int, k: int)
    requires
        0 <= k,
        1024 * k < size,
    ensures
        k < (size + 1023) / 1024,
{
    assert(k < (size + 1023) / 1024) by (nonlinear_arith)
        requires
            0 <= k,
            1024 * k < size,
    ;
}

/// Zeroing the direct blocks `i..cnt` zeroes each of them and sets no other
/// byte but to 0.
proof fn lemma_zero_direct(img: Seq<u8>, ip: Dinode, i: int, cnt: int, r: Seq<u8>)
    requires
        0 <= i,
        zero_direct(img, ip, i, cnt) == Some(r),
    ensures
        r.len() == img.len(),
        forall|a: int| 0 <= a < img.len() ==> #[trigger] r[a] == img[a] || r[a] == 0,
        forall|k: int, b: int|
            i <= k < cnt && 0 <= b < 1024 ==> #[trigger] r[1024 * ip.addrs[k] + b] == 0,
        forall|k: int| i <= k < cnt ==> 1024 * #[trigger] ip.addrs[k] + 1024 <= img.len(),
    decreases cnt - i,
{
    if i < cnt {
        let p = 1024 * ip.addrs[i];
        let z = zero_block(img, p);
        lemma_zero_direct(z, ip, i + 1, cnt, r);
        assert forall|a: int| 0 <= a < img.len() implies #[trigger] r[a] == img[a] || r[a] == 0 by {
            assert(r[a] == z[a] || r[a] == 0);
        }
        assert forall|k: int, b: int| i <= k < cnt && 0 <= b < 1024 implies #[trigger] r[1024
            * ip.addrs[k] + b] == 0 by {
            if k == i {
                let a = p + b;
                assert(z[a] == 0);
                assert(r[a] == z[a] || r[a] == 0);
            }
        }
    }
}

/// Zeroing the mapped blocks `i..cnt` sets no byte but to 0.
proof fn lemma_zero_mapped(img: Seq<u8>, ip: Dinode, i: int, cnt: int, r: Seq<u8>)
    requires
        zero_mapped(img, ip, i, cnt) == Some(r),
    ensures
        r.len() == img.len(),
        forall|a: int| 0 <= a < img.len() ==> #[trigger] r[a] == img[a] || r[a] == 0,
    decreases cnt - i,
{
    if i < cnt {
        let p = crate::libfs::block_addr(img, ip, i).unwrap();
        let z = zero_block(img, p);
        lemma_zero_mapped(z, ip, i + 1, cnt, r);
        assert forall|a: int| 0 <= a < img.len() implies #[trigger] r[a] == img[a] || r[a] == 0 by {
            assert(r[a] == z[a] || r[a] == 0);
        }
    }
}

} // verus!
