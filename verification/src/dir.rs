//! Directories and paths: parsing entries, looking names up, adding and
//! clearing entries, and walking slash-separated paths from a directory.
use vstd::prelude::*;
use crate::fs::{
    dirent_of, entry_inum, entry_name, has_superblock, inode_at, inode_fits, inode_pos,
    le16_bytes, superblock_of, visible, Dinode, Dirent, BSIZE, DIRENT_SIZE, DIRSIZ, T_DIR, T_FILE,
};
use crate::libfs::{
    alloc_result, get_superblock, iget, inode_in_image, read_result, try_ialloc, try_iread,
    try_iwrite, write_result,
};

verus! {

/// The names finished so far and the name being read, after reading `s`
/// from the left: a '/' ends the current name, and empty names are dropped.
pub open spec fn split_names(s: Seq<char>) -> (Seq<Seq<char>>, Seq<char>)
    decreases s.len(),
{
    if s.len() == 0 {
        (Seq::empty(), Seq::empty())
    } else {
        let prev = split_names(s.drop_last());
        if s.last() == '/' {
            (
                if prev.1.len() > 0 {
                    prev.0.push(prev.1)
                } else {
                    prev.0
                },
                Seq::empty(),
            )
        } else {
            (prev.0, prev.1.push(s.last()))
        }
    }
}

/// The non-empty names between the slashes of a path, in order.
pub open spec fn path_names(s: Seq<char>) -> Seq<Seq<char>> {
    let r = split_names(s);
    if r.1.len() > 0 {
        r.0.push(r.1)
    } else {
        r.0
    }
}

/// The first entry from number `j` on, of the directory `dp`, whose visible
/// name is `name`, with the inode that it names and its byte offset.
/// `None` where the scan would leave the image, meet a truncated entry, or
/// let its 32-bit offset overflow.
pub open spec fn find_entry(img: Seq<u8>, dp: Dinode, name: Seq<char>, j: int) -> Option<
    Option<(Dinode, usize)>,
>
    decreases dp.size + 16 - 16 * j,
{
    if 16 * j >= dp.size {
        Some(None)
    } else {
        match read_result(img, dp, 16, 16 * j) {
            None => None,
            Some(buf) => if buf.len() < 2 {
                None
            } else if visible(entry_name(buf)) == name {
                let sb = superblock_of(img);
                let inum = entry_inum(buf);
                if !has_superblock(img) || !inode_fits(img, sb, inum) {
                    None
                } else {
                    Some(Some((inode_at(img, inode_pos(sb, inum), inum as usize), (16 * j) as usize)))
                }
            } else if 16 * j + 16 > u32::MAX {
                None
            } else {
                find_entry(img, dp, name, j + 1)
            },
        }
    }
}

/// The inode reached from `rp` by looking up each name in turn.
pub open spec fn walk(img: Seq<u8>, rp: Dinode, names: Seq<Seq<char>>) -> Option<Option<Dinode>>
    decreases names.len(),
{
    if names.len() == 0 {
        Some(Some(rp))
    } else {
        match find_entry(img, rp, names[0], 0) {
            None => None,
            Some(None) => Some(None),
            Some(Some((d, _))) => walk(img, d, names.drop_first()),
        }
    }
}

/// The inode that `path` names, starting from the directory `rp`.
pub open spec fn lookup_result(img: Seq<u8>, rp: Dinode, path: Seq<char>) -> Option<Option<Dinode>> {
    walk(img, rp, path_names(path))
}

/// The number of the first entry from `j` on whose inode number is 0, or the
/// number just past the directory's size when there is none.
pub open spec fn free_slot(img: Seq<u8>, dp: Dinode, j: int) -> Option<int>
    decreases dp.size + 16 - 16 * j,
{
    if 16 * j >= dp.size {
        Some(j)
    } else {
        match read_result(img, dp, 16, 16 * j) {
            None => None,
            Some(buf) => if buf.len() < 2 {
                None
            } else if entry_inum(buf) == 0 {
                Some(j)
            } else if 16 * j + 16 > u32::MAX {
                None
            } else {
                free_slot(img, dp, j + 1)
            },
        }
    }
}

/// The 14 name bytes stored for `name`: its first characters, each cut to
/// its low byte, padded with zeros.
pub open spec fn name_field(name: Seq<char>) -> Seq<u8> {
    Seq::new(14, |i: int| if i < name.len() { name[i] as u8 } else { 0u8 })
}

/// The 16 bytes of a directory entry.
pub open spec fn entry_record(inum: u16, field: Seq<u8>) -> Seq<u8> {
    le16_bytes(inum as int) + field
}

/// The image and the inode after adding an entry for `ip` under `name` to the
/// directory `dp`: the entry goes to the first slot whose inode number is 0,
/// or just past the size; the name is stored only when the directory was not
/// empty (otherwise 14 zero bytes are); the link count of `ip` goes up by one
/// in the returned inode, not on the image.
pub open spec fn add_entry_result(img: Seq<u8>, dp: Dinode, name: Seq<char>, ip: Dinode) -> Option<
    (Seq<u8>, Dinode),
> {
    match free_slot(img, dp, 0) {
        None => None,
        Some(j) => {
            let field = if dp.size > 0 {
                name_field(name)
            } else {
                Seq::new(14, |i: int| 0u8)
            };
            match write_result(img, dp, 16 * j, entry_record(ip.inum, field)) {
                None => None,
                Some(img2) => if ip.nlink == 0x7fff {
                    None
                } else {
                    Some((img2, Dinode { nlink: (ip.nlink + 1) as i16, ..ip }))
                },
            }
        },
    }
}

/// The image and the inode after creating each name of `names` in turn, from
/// the directory `rp`: a name that already exists ends the walk with no inode;
/// otherwise a file inode is allocated and entered under the name in the
/// current directory, and becomes the current one.
pub open spec fn create_walk(img: Seq<u8>, rp: Dinode, names: Seq<Seq<char>>) -> Option<
    (Seq<u8>, Option<Dinode>),
>
    decreases names.len(),
{
    if names.len() == 0 {
        Some((img, Some(rp)))
    } else {
        match find_entry(img, rp, names[0], 0) {
            None => None,
            Some(Some(_)) => Some((img, None)),
            Some(None) => match alloc_result(img, T_FILE) {
                None => None,
                Some((img1, None)) => Some((img1, None)),
                Some((img1, Some(ip))) => match add_entry_result(img1, rp, names[0], ip) {
                    None => None,
                    Some((img2, ip2)) => if ip2.file_type == T_DIR {
                        match add_entry_result(img2, rp, seq!['.'], ip2) {
                            None => None,
                            Some((img3, ip3)) => match add_entry_result(
                                img3,
                                rp,
                                seq!['.', '.'],
                                ip3,
                            ) {
                                None => None,
                                Some((img4, ip4)) => create_walk(img4, ip4, names.drop_first()),
                            },
                        }
                    } else {
                        create_walk(img2, ip2, names.drop_first())
                    },
                },
            },
        }
    }
}

/// The image and the inode after creating `path` from the directory `rp`.
pub open spec fn create_result(img: Seq<u8>, rp: Dinode, path: Seq<char>) -> Option<
    (Seq<u8>, Option<Dinode>),
> {
    create_walk(img, rp, path_names(path))
}

/// The image after unlinking the path whose names from number `i` on are
/// still to be walked from the directory `rp`: a name "." or ".." or one that
/// is not found stops the walk; the entry of the last name is overwritten
/// with 16 zero bytes.
pub open spec fn unlink_walk(img: Seq<u8>, rp: Dinode, names: Seq<Seq<char>>, i: int) -> Option<
    Seq<u8>,
>
    decreases names.len() - i,
{
    if i >= names.len() {
        Some(img)
    } else if names[i] == seq!['.'] || names[i] == seq!['.', '.'] {
        Some(img)
    } else {
        match find_entry(img, rp, names[i], 0) {
            None => None,
            Some(None) => Some(img),
            Some(Some((ip, off))) => if i < names.len() - 1 {
                unlink_walk(img, ip, names, i + 1)
            } else {
                match write_result(img, rp, off as int, Seq::new(16, |k: int| 0u8)) {
                    None => None,
                    Some(img2) => unlink_walk(img2, rp, names, i + 1),
                }
            },
        }
    }
}

/// The image after unlinking `path` from the directory `rp`.
pub open spec fn unlink_result(img: Seq<u8>, rp: Dinode, path: Seq<char>) -> Option<Seq<u8>> {
    unlink_walk(img, rp, path_names(path), 0)
}

/// The characters of a string.
pub fn string_chars(s: &String) -> (v: Vec<char>)
    ensures
        v@ == s@,
{
    let mut v: Vec<char> = Vec::new();
    for c in it: s.as_str().chars()
        invariant
            v@ == it.seq().take(it.index() as int),
            it.seq() == s@,
    {
        v.push(c);
    }
    v
}

/// Whether two character sequences are equal.
pub fn same_chars(a: &Vec<char>, b: &Vec<char>) -> (r: bool)
    ensures
        r == (a@ == b@),
{
    if a.len() != b.len() {
        return false;
    }
    let mut i: usize = 0;
    while i < a.len()
        invariant
            a@.len() == b@.len(),
            i <= a@.len(),
            a@.take(i as int) == b@.take(i as int),
        decreases a@.len() - i,
    {
        if a[i] != b[i] {
            assert(a@[i as int] != b@[i as int]);
            return false;
        }
        assert(a@.take(i + 1) =~= a@.take(i as int).push(a@[i as int]));
        assert(b@.take(i + 1) =~= b@.take(i as int).push(b@[i as int]));
        i += 1;
    }
    assert(a@ =~= a@.take(i as int));
    assert(b@ =~= b@.take(i as int));
    true
}

/// The names between the slashes of a path, empty ones left out.
pub fn split_path(path: &String) -> (names: Vec<Vec<char>>)
    ensures
        names.deep_view() == path_names(path@),
{
    let chars = string_chars(path);
    let mut names: Vec<Vec<char>> = Vec::new();
    let mut cur: Vec<char> = Vec::new();
    let mut i: usize = 0;
    while i < chars.len()
        invariant
            chars@ == path@,
            i <= chars@.len(),
            names.deep_view() == split_names(chars@.take(i as int)).0,
            cur@ == split_names(chars@.take(i as int)).1,
        decreases chars@.len() - i,
    {
        let c = chars[i];
        assert(chars@.take(i + 1).drop_last() =~= chars@.take(i as int));
        if c == '/' {
            if cur.len() > 0 {
                let ghost before = names.deep_view();
                let ghost cv = cur@;
                assert(cur.deep_view() =~= cv);
                names.push(cur);
                assert(names.deep_view() =~= before.push(cv));
                cur = Vec::new();
            }
        } else {
            cur.push(c);
        }
        i += 1;
    }
    assert(chars@.take(i as int) =~= chars@);
    if cur.len() > 0 {
        let ghost before = names.deep_view();
        let ghost cv = cur@;
        assert(cur.deep_view() =~= cv);
        names.push(cur);
        assert(names.deep_view() =~= before.push(cv));
    }
    names
}

/// The byte at `i` of `buf`, or 0 past its end.
fn byte_or_zero(buf: &Vec<u8>, i: usize) -> (b: u8)
    ensures
        b == (if i < buf@.len() {
            buf@[i as int]
        } else {
            0u8
        }),
{
    if i < buf.len() {
        buf[i]
    } else {
        0
    }
}

/// Parses the directory entry at the start of `buf`; name bytes past the end
/// of `buf` read as 0.
pub fn get_dirent(buf: &Vec<u8>) -> (de: Dirent)
    requires
        buf@.len() >= 2,
    ensures
        de == dirent_of(buf@),
{
    Dirent {
        inum: buf[1] as u16 * 256 + buf[0] as u16,
        name: [
            byte_or_zero(buf, 2),
            byte_or_zero(buf, 3),
            byte_or_zero(buf, 4),
            byte_or_zero(buf, 5),
            byte_or_zero(buf, 6),
            byte_or_zero(buf, 7),
            byte_or_zero(buf, 8),
            byte_or_zero(buf, 9),
            byte_or_zero(buf, 10),
            byte_or_zero(buf, 11),
            byte_or_zero(buf, 12),
            byte_or_zero(buf, 13),
            byte_or_zero(buf, 14),
            byte_or_zero(buf, 15),
        ],
    }
}

/// The characters of a stored name: its non-zero bytes, in order.
pub fn visible_name(name: &[u8; 14]) -> (v: Vec<char>)
    ensures
        v@ == visible(name@),
{
    let mut v: Vec<char> = Vec::new();
    let mut i: usize = 0;
    while i < DIRSIZ
        invariant
            i <= 14,
            name@.len() == 14,
            v@ == visible(name@.take(i as int)),
        decreases 14 - i,
    {
        assert(name@.take(i + 1).drop_last() =~= name@.take(i as int));
        let b = name[i];
        if b != 0 {
            v.push(b as char);
        }
        i += 1;
    }
    assert(name@.take(14) =~= name@);
    v
}

/// The parsed entry holds the entry's number and name bytes.
pub proof fn lemma_dirent_of(buf: Seq<u8>)
    requires
        buf.len() >= 2,
    ensures
        dirent_of(buf).name@ == entry_name(buf),
        dirent_of(buf).inum == entry_inum(buf),
{
    assert(dirent_of(buf).name@ =~= entry_name(buf));
}

/// Whether the entry's name, without its zero bytes, reads as `name`.
pub fn name_matches(de: &Dirent, name: &Vec<char>) -> (b: bool)
    ensures
        b == (visible(de.name@) == name@),
{
    let search_name = visible_name(&de.name);
    same_chars(name, &search_name)
}

/// Looks `name` up in the directory `dp`; `None` where the scan would leave
/// the image, meet a truncated entry, or overflow.
#[verifier::spinoff_prover]
pub fn try_dlookup(img: &Vec<u8>, dp: &Dinode, name: &Vec<char>) -> (r: Option<
    Option<(Dinode, usize)>,
>)
    ensures
        r == find_entry(img@, *dp, name@, 0),
{
    let mut off: u32 = 0;
    let ghost mut j: int = 0;
    while off < dp.size
        invariant
            off == 16 * j,
            j >= 0,
            find_entry(img@, *dp, name@, 0) == find_entry(img@, *dp, name@, j),
        decreases dp.size + 16 - off,
    {
        let buf = match try_iread(img, dp, DIRENT_SIZE, off as usize) {
            Some(buf) => buf,
            None => return None,
        };
        if buf.len() < 2 {
            return None;
        }
        let de = get_dirent(&buf);
        proof {
            lemma_dirent_of(buf@);
        }
        if name_matches(&de, name) {
            if img.len() < BSIZE + 32 {
                return None;
            }
            let sb = get_superblock(img);
            if !inode_in_image(img, &sb, de.inum as usize) {
                return None;
            }
            return Some(Some((iget(img, &sb, de.inum as usize), off as usize)));
        }
        if off > u32::MAX - 16 {
            return None;
        }
        assert(DIRENT_SIZE as u32 == 16);
        off += DIRENT_SIZE as u32;
        proof {
            j = j + 1;
        }
    }
    Some(None)
}

/// Looks `name` up in the directory `dp`: the first entry whose name,
/// without its zero bytes, reads as `name` gives the inode it names and the
/// entry's byte offset.
pub fn dlookup(img: &Vec<u8>, dp: &Dinode, name: &String) -> (r: Option<(Dinode, usize)>)
    requires
        find_entry(img@, *dp, name@, 0) is Some,
    ensures
        find_entry(img@, *dp, name@, 0) == Some(r),
{
    let chars = string_chars(name);
    match try_dlookup(img, dp, &chars) {
        Some(r) => r,
        None => None,
    }
}

/// Looks the path up from the directory `rp`; `None` where a step would leave
/// the image.
#[verifier::spinoff_prover]
pub fn try_ilookup(img: &Vec<u8>, rp: &Dinode, path: &String) -> (r: Option<Option<Dinode>>)
    ensures
        r == lookup_result(img@, *rp, path@),
{
    let names = split_path(path);
    let mut cur = *rp;
    if names.len() == 0 {
        return Some(Some(cur));
    }
    let mut i: usize = 0;
    assert(names.deep_view().skip(0) =~= names.deep_view());
    while i < names.len()
        invariant
            i <= names@.len(),
            names.deep_view() == path_names(path@),
            lookup_result(img@, *rp, path@) == walk(img@, cur, names.deep_view().skip(i as int)),
        decreases names@.len() - i,
    {
        let ghost rest = names.deep_view().skip(i as int);
        assert(rest.drop_first() =~= names.deep_view().skip(i + 1));
        assert(rest[0] =~= names@[i as int]@);
        cur = match try_dlookup(img, &cur, &names[i]) {
            Some(Some((dp, _))) => dp,
            Some(None) => return Some(None),
            None => return None,
        };
        i += 1;
    }
    assert(names.deep_view().skip(i as int) =~= Seq::<Seq<char>>::empty());
    Some(Some(cur))
}

/// Looks the path up from the directory `rp`, one name at a time; an empty
/// path gives `rp` itself.
pub fn ilookup(img: &Vec<u8>, rp: &Dinode, path: &String) -> (r: Option<Dinode>)
    requires
        lookup_result(img@, *rp, path@) is Some,
    ensures
        lookup_result(img@, *rp, path@) == Some(r),
{
    match try_ilookup(img, rp, path) {
        Some(r) => r,
        None => None,
    }
}

/// Byte `k` stored for `name`: its character's low byte, or 0 past its end.
fn name_byte(name: &Vec<char>, k: usize) -> (b: u8)
    ensures
        b == (if k < name@.len() {
            name@[k as int] as u8
        } else {
            0u8
        }),
{
    if k < name.len() {
        name[k] as u8
    } else {
        0
    }
}

/// The 14 name bytes stored for `name`.
fn name_bytes(name: &Vec<char>) -> (a: [u8; 14])
    ensures
        a@ == name_field(name@),
{
    let a = [
        name_byte(name, 0),
        name_byte(name, 1),
        name_byte(name, 2),
        name_byte(name, 3),
        name_byte(name, 4),
        name_byte(name, 5),
        name_byte(name, 6),
        name_byte(name, 7),
        name_byte(name, 8),
        name_byte(name, 9),
        name_byte(name, 10),
        name_byte(name, 11),
        name_byte(name, 12),
        name_byte(name, 13),
    ];
    assert(a@ =~= name_field(name@));
    a
}

/// The 16 bytes of the entry `de`.
fn entry_bytes(de: &Dirent) -> (buf: Vec<u8>)
    ensures
        buf@ == entry_record(de.inum, de.name@),
{
    let mut buf: Vec<u8> = Vec::new();
    buf.push((de.inum % 256) as u8);
    buf.push((de.inum / 256) as u8);
    let mut k: usize = 0;
    while k < DIRSIZ
        invariant
            k <= 14,
            de.name@.len() == 14,
            buf@ =~= le16_bytes(de.inum as int) + de.name@.take(k as int),
        decreases 14 - k,
    {
        buf.push(de.name[k]);
        k += 1;
    }
    assert(de.name@.take(14) =~= de.name@);
    buf
}

/// Adds an entry for `ip` under `name` to the directory `dp`; reports `false`
/// where the scan or the write would leave the image or overflow.
#[verifier::spinoff_prover]
pub fn try_daddent(img: &mut Vec<u8>, dp: &Dinode, name: &Vec<char>, ip: &mut Dinode) -> (ok: bool)
    ensures
        ok <==> add_entry_result(old(img)@, *dp, name@, *old(ip)) is Some,
        ok ==> add_entry_result(old(img)@, *dp, name@, *old(ip)) == Some(
            (final(img)@, *final(ip)),
        ),
{
    let mut de = Dirent { inum: 0, name: [0u8; 14] };
    let ghost zeros = Seq::new(14, |i: int| 0u8);
    assert(de.name@ =~= zeros);
    let mut off: u32 = 0;
    let ghost mut j: int = 0;
    let ghost mut started = false;
    while off < dp.size
        invariant
            off == 16 * j,
            j >= 0,
            img@ == old(img)@,
            free_slot(img@, *dp, 0) == free_slot(img@, *dp, j),
            started ==> de.name@ == name_field(name@),
            !started ==> de.name@ == zeros,
            j > 0 ==> started,
            started ==> dp.size > 0,
        ensures
            off == 16 * j,
            img@ == old(img)@,
            free_slot(img@, *dp, 0) == Some(j),
            dp.size > 0 ==> de.name@ == name_field(name@),
            dp.size == 0 ==> de.name@ == zeros,
        decreases dp.size + 16 - off,
    {
        let buf = match try_iread(img, dp, DIRENT_SIZE, off as usize) {
            Some(buf) => buf,
            None => return false,
        };
        if buf.len() < 2 {
            return false;
        }
        de = Dirent { inum: buf[1] as u16 * 256 + buf[0] as u16, name: name_bytes(name) };
        proof {
            started = true;
        }
        if de.inum == 0 {
            break;
        }
        if off > u32::MAX - 16 {
            return false;
        }
        assert(DIRENT_SIZE as u32 == 16);
        off += DIRENT_SIZE as u32;
        proof {
            j = j + 1;
        }
    }
    de.inum = ip.inum;
    let buf = entry_bytes(&de);
    if !try_iwrite(img, dp, off as usize, &buf) {
        return false;
    }
    if ip.nlink == i16::MAX {
        return false;
    }
    ip.nlink += 1;
    true
}

/// Adds an entry for `ip` under `name` to the directory `dp`, in the first
/// slot whose inode number is 0 or just past the directory's size, and counts
/// the new link in `ip`.
pub fn daddent(img: &mut Vec<u8>, dp: &Dinode, name: &String, ip: &mut Dinode)
    requires
        add_entry_result(old(img)@, *dp, name@, *old(ip)) is Some,
    ensures
        add_entry_result(old(img)@, *dp, name@, *old(ip)) == Some((final(img)@, *final(ip))),
{
    let chars = string_chars(name);
    try_daddent(img, dp, &chars, ip);
}

/// Creates the path's names in turn from the directory `rp`; `None` where a
/// step would leave the image or overflow.
#[verifier::spinoff_prover]
pub fn try_icreate(img: &mut Vec<u8>, rp: &Dinode, path: &String) -> (r: Option<Option<Dinode>>)
    ensures
        r is Some <==> create_result(old(img)@, *rp, path@) is Some,
        r is Some ==> create_result(old(img)@, *rp, path@) == Some((final(img)@, r.unwrap())),
{
    let names = split_path(path);
    let mut cur = *rp;
    if names.len() == 0 {
        return Some(Some(cur));
    }
    let mut i: usize = 0;
    assert(names.deep_view().skip(0) =~= names.deep_view());
    while i < names.len()
        invariant
            i <= names@.len(),
            names.deep_view() == path_names(path@),
            create_result(old(img)@, *rp, path@) == create_walk(
                img@,
                cur,
                names.deep_view().skip(i as int),
            ),
        decreases names@.len() - i,
    {
        let ghost rest = names.deep_view().skip(i as int);
        assert(rest.drop_first() =~= names.deep_view().skip(i + 1));
        assert(rest[0] =~= names@[i as int]@);
        match try_dlookup(img, &cur, &names[i]) {
            None => return None,
            Some(Some(_)) => return Some(None),
            Some(None) => {},
        }
        let mut ip = match try_ialloc(img, T_FILE) {
            None => return None,
            Some(None) => return Some(None),
            Some(Some(ip)) => ip,
        };
        if !try_daddent(img, &cur, &names[i], &mut ip) {
            return None;
        }
        if ip.file_type == T_DIR {
            let dot = vec!['.'];
            let dotdot = vec!['.', '.'];
            assert(dot@ =~= seq!['.']);
            assert(dotdot@ =~= seq!['.', '.']);
            if !try_daddent(img, &cur, &dot, &mut ip) {
                return None;
            }
            if !try_daddent(img, &cur, &dotdot, &mut ip) {
                return None;
            }
        }
        cur = ip;
        i += 1;
    }
    assert(names.deep_view().skip(i as int) =~= Seq::<Seq<char>>::empty());
    Some(Some(cur))
}

/// Creates the path's names in turn from the directory `rp`, each as a new
/// file inode entered in the one before; gives the last inode, or `None` when
/// a name already exists or no inode is free.
pub fn icreate(img: &mut Vec<u8>, rp: &Dinode, path: &String) -> (r: Option<Dinode>)
    requires
        create_result(old(img)@, *rp, path@) is Some,
    ensures
        create_result(old(img)@, *rp, path@) == Some((final(img)@, r)),
{
    match try_icreate(img, rp, path) {
        Some(r) => r,
        None => None,
    }
}

/// Whether `name` is "." or "..".
fn is_dot_name(name: &Vec<char>) -> (b: bool)
    ensures
        b == (name@ == seq!['.'] || name@ == seq!['.', '.']),
{
    if name.len() == 1 && name[0] == '.' {
        assert(name@ =~= seq!['.']);
        true
    } else if name.len() == 2 && name[0] == '.' && name[1] == '.' {
        assert(name@ =~= seq!['.', '.']);
        true
    } else {
        proof {
            if name@ == seq!['.'] {
                assert(name@.len() == 1 && name@[0] == '.');
            }
            if name@ == seq!['.', '.'] {
                assert(name@.len() == 2 && name@[0] == '.' && name@[1] == '.');
            }
        }
        false
    }
}

/// Unlinks the path from the directory `rp`; reports `false` where a step
/// would leave the image or overflow.
#[verifier::spinoff_prover]
pub fn try_iunlink(img: &mut Vec<u8>, rp: &Dinode, path: &String) -> (ok: bool)
    ensures
        ok <==> unlink_result(old(img)@, *rp, path@) is Some,
        ok ==> unlink_result(old(img)@, *rp, path@) == Some(final(img)@),
{
    let names = split_path(path);
    let mut cur = *rp;
    let mut i: usize = 0;
    while i < names.len()
        invariant
            i <= names@.len(),
            names.deep_view() == path_names(path@),
            unlink_result(old(img)@, *rp, path@) == unlink_walk(
                img@,
                cur,
                names.deep_view(),
                i as int,
            ),
        decreases names@.len() - i,
    {
        let name = &names[i];
        assert(names.deep_view()[i as int] =~= name@);
        if is_dot_name(name) {
            return true;
        }
        let (ip, off) = match try_dlookup(img, &cur, name) {
            Some(Some(found)) => found,
            Some(None) => return true,
            None => return false,
        };
        if i < names.len() - 1 {
            cur = ip;
            i += 1;
            continue;
        }
        let mut zero: Vec<u8> = Vec::new();
        let mut k: usize = 0;
        while k < DIRENT_SIZE
            invariant
                k <= 16,
                zero@ =~= Seq::new(k as nat, |x: int| 0u8),
            decreases 16 - k,
        {
            zero.push(0);
            k += 1;
        }
        if !try_iwrite(img, &cur, off, &zero) {
            return false;
        }
        i += 1;
    }
    true
}

/// Unlinks the path from the directory `rp`: walks to the directory that
/// holds its last name and overwrites that name's entry with zeros; "." and
/// "..", or a name that is not found, leave the image as it is.
pub fn iunlink(img: &mut Vec<u8>, rp: &Dinode, path: &String)
    requires
        unlink_result(old(img)@, *rp, path@) is Some,
    ensures
        unlink_result(old(img)@, *rp, path@) == Some(final(img)@),
{
    try_iunlink(img, rp, path);
}

} // verus!
