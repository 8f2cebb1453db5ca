//! The computing half of the image commands: what `ls`, `get`, `put` and
//! `rm` find, read and change. Reading arguments and files and printing stay
//! with the caller.
use vstd::prelude::*;
use crate::fs::{
    dirent_of, has_superblock, inode_at, inode_fits, inode_pos, superblock_of, Dinode, BSIZE,
    BUFSIZE, DIRENT_SIZE, ROOT_INODE_NUMBER, T_DIR, T_FILE,
};
use crate::libfs::{
    byte_addr, get_superblock, iget, inode_in_image, read_result, readable, try_iread,
    try_iwrite, write_result,
};
use crate::dir::{
    create_result, get_dirent, lemma_dirent_of, lookup_result, path_names, try_icreate,
    try_ilookup, try_iunlink, unlink_result,
};

verus! {

/// Why a command did not do its work.
#[derive(Clone, Copy, Debug, PartialEq, Eq, Structural)]
pub enum CmdError {
    /// The path names nothing.
    NotFound,
    /// `put` was asked to overwrite a directory or a device.
    NotAFile,
    /// `rm` was asked to remove a directory.
    IsADirectory,
    /// `put` could not create the path.
    CannotCreate,
    /// The image does not hold what the command reads: a read would leave it
    /// or a count would overflow.
    Malformed,
}

/// One line of a directory listing: the entry's 14 name bytes, and the type,
/// number and size of the inode it names.
#[derive(Clone, Copy, Debug, PartialEq, Eq)]
pub struct ListEntry {
    pub name: [u8; 14],
    pub file_type: i16,
    pub inum: u16,
    pub size: u32,
}

/// What `ls` shows for a path: the entries of a directory, or the inode of
/// anything else.
#[derive(Debug, PartialEq, Eq)]
pub enum Listing {
    Directory(Vec<ListEntry>),
    Single(Dinode),
}

/// The listing entries of the directory `ip` from entry `j` on, after `acc`:
/// entries with inode number 0 are skipped.
pub open spec fn list_entries(img: Seq<u8>, ip: Dinode, j: int, acc: Seq<ListEntry>) -> Option<
    Seq<ListEntry>,
>
    decreases ip.size + 16 - 16 * j,
{
    if 16 * j >= ip.size {
        Some(acc)
    } else {
        match read_result(img, ip, 16, 16 * j) {
            None => None,
            Some(buf) => if buf.len() < 2 || 16 * j + 16 > u32::MAX {
                None
            } else {
                let de = dirent_of(buf);
                if de.inum == 0 {
                    list_entries(img, ip, j + 1, acc)
                } else {
                    let sb = superblock_of(img);
                    if !has_superblock(img) || !inode_fits(img, sb, de.inum as int) {
                        None
                    } else {
                        let p = inode_at(img, inode_pos(sb, de.inum as int), de.inum as usize);
                        list_entries(
                            img,
                            ip,
                            j + 1,
                            acc.push(
                                ListEntry {
                                    name: de.name,
                                    file_type: p.file_type,
                                    inum: de.inum,
                                    size: p.size,
                                },
                            ),
                        )
                    }
                }
            },
        }
    }
}

/// The whole contents of the inode, read in pieces of `BUFSIZE` bytes;
/// `None` where a read would leave the image or the 32-bit offset overflow.
pub open spec fn file_contents(img: Seq<u8>, ip: Dinode) -> Option<Seq<u8>> {
    if ip.size > 0x1_0000_0000 - 1024 {
        None
    } else {
        read_result(img, ip, ip.size as int, 0)
    }
}

/// The image and the outcome of `put`: an existing regular file is written
/// from offset 0 as if its size were 0; a missing path is created first.
#[verifier::opaque]
pub open spec fn put_result(img: Seq<u8>, root: Dinode, path: Seq<char>, data: Seq<u8>) -> Option<
    (Seq<u8>, Result<(), CmdError>),
> {
    match lookup_result(img, root, path) {
        None => None,
        Some(Some(ip)) => if ip.file_type != T_FILE {
            Some((img, Err(CmdError::NotAFile)))
        } else {
            match write_result(img, Dinode { size: 0, ..ip }, 0, data) {
                None => None,
                Some(img2) => Some((img2, Ok(()))),
            }
        },
        Some(None) => match create_result(img, root, path) {
            None => None,
            Some((img1, None)) => Some((img1, Err(CmdError::CannotCreate))),
            Some((img1, Some(ip))) => match write_result(img1, ip, 0, data) {
                None => None,
                Some(img2) => Some((img2, Ok(()))),
            },
        },
    }
}

/// The image and the outcome of `rm`.
pub open spec fn rm_result(img: Seq<u8>, root: Dinode, path: Seq<char>) -> Option<
    (Seq<u8>, Result<(), CmdError>),
> {
    match lookup_result(img, root, path) {
        None => None,
        Some(None) => Some((img, Err(CmdError::NotFound))),
        Some(Some(ip)) => if ip.file_type == T_DIR {
            Some((img, Err(CmdError::IsADirectory)))
        } else {
            match unlink_result(img, root, path) {
                None => None,
                Some(img2) => Some((img2, Ok(()))),
            }
        },
    }
}

/// The root directory's inode, or `None` when the image is too short to
/// hold the super block or the root's record.
pub fn load_root(img: &Vec<u8>) -> (r: Option<Dinode>)
    ensures
        r is Some <==> has_superblock(img@) && inode_fits(
            img@,
            superblock_of(img@),
            ROOT_INODE_NUMBER as int,
        ),
        r is Some ==> r.unwrap() == inode_at(
            img@,
            inode_pos(superblock_of(img@), ROOT_INODE_NUMBER as int),
            ROOT_INODE_NUMBER,
        ),
{
    if img.len() < BSIZE + 32 {
        return None;
    }
    let sb = get_superblock(img);
    if !inode_in_image(img, &sb, ROOT_INODE_NUMBER) {
        return None;
    }
    Some(iget(img, &sb, ROOT_INODE_NUMBER))
}

/// The entries of the directory `ip`, each with the type and size of the
/// inode it names; `None` where a read would leave the image or overflow.
#[verifier::spinoff_prover]
pub fn list_directory(img: &Vec<u8>, ip: &Dinode) -> (r: Option<Vec<ListEntry>>)
    ensures
        r is Some <==> list_entries(img@, *ip, 0, Seq::empty()) is Some,
        r is Some ==> list_entries(img@, *ip, 0, Seq::empty()) == Some(r.unwrap()@),
{
    let mut entries: Vec<ListEntry> = Vec::new();
    let mut off: u32 = 0;
    let ghost mut j: int = 0;
    while off < ip.size
        invariant
            off == 16 * j,
            j >= 0,
            list_entries(img@, *ip, 0, Seq::empty()) == list_entries(img@, *ip, j, entries@),
        decreases ip.size + 16 - off,
    {
        let buf = match try_iread(img, ip, DIRENT_SIZE, off as usize) {
            Some(buf) => buf,
            None => return None,
        };
        if buf.len() < 2 {
            return None;
        }
        let de = get_dirent(&buf);
        proof {
            lemma_dirent_of(buf@);
        }
        if off > u32::MAX - 16 {
            return None;
        }
        assert(DIRENT_SIZE as u32 == 16);
        off += DIRENT_SIZE as u32;
        proof {
            j = j + 1;
        }
        if de.inum == 0 {
            continue;
        }
        if img.len() < BSIZE + 32 {
            return None;
        }
        let sb = get_superblock(img);
        if !inode_in_image(img, &sb, de.inum as usize) {
            return None;
        }
        let p = iget(img, &sb, de.inum as usize);
        entries.push(
            ListEntry { name: de.name, file_type: p.file_type, inum: de.inum, size: p.size },
        );
    }
    Some(entries)
}

/// What `ls` shows for `path`, looked up from the directory `root`.
pub fn list_path(img: &Vec<u8>, root: &Dinode, path: &String) -> (r: Result<Listing, CmdError>)
    ensures
        match lookup_result(img@, *root, path@) {
            None => r == Err::<Listing, CmdError>(CmdError::Malformed),
            Some(None) => r == Err::<Listing, CmdError>(CmdError::NotFound),
            Some(Some(ip)) => if ip.file_type == T_DIR {
                match list_entries(img@, ip, 0, Seq::empty()) {
                    None => r == Err::<Listing, CmdError>(CmdError::Malformed),
                    Some(es) => r matches Ok(Listing::Directory(v)) && v@ == es,
                }
            } else {
                r == Ok::<Listing, CmdError>(Listing::Single(ip))
            },
        },
{
    let ip = match try_ilookup(img, root, path) {
        Some(Some(ip)) => ip,
        Some(None) => return Err(CmdError::NotFound),
        None => return Err(CmdError::Malformed),
    };
    if ip.file_type == T_DIR {
        match list_directory(img, &ip) {
            Some(v) => Ok(Listing::Directory(v)),
            None => Err(CmdError::Malformed),
        }
    } else {
        Ok(Listing::Single(ip))
    }
}

/// The contents of the inode, read `BUFSIZE` bytes at a time; `None` where a
/// read would leave the image or the offset overflow.
#[verifier::spinoff_prover]
pub fn read_contents(img: &Vec<u8>, ip: &Dinode) -> (r: Option<Vec<u8>>)
    ensures
        r is Some <==> file_contents(img@, *ip) is Some,
        r is Some ==> file_contents(img@, *ip) == Some(r.unwrap()@),
{
    let ghost whole = read_result(img@, *ip, ip.size as int, 0);
    let mut out: Vec<u8> = Vec::new();
    let mut off: u32 = 0;
    while off < ip.size
        invariant
            off % 1024 == 0,
            off <= ip.size || ip.size <= off && off < ip.size + 1024,
            whole == read_result(img@, *ip, ip.size as int, 0),
            out@.len() == (if off < ip.size { off as int } else { ip.size as int }),
            out@ =~= Seq::new(
                out@.len(),
                |j: int| img@[byte_addr(img@, *ip, j).unwrap()],
            ),
            forall|x: int| 0 <= x < out@.len() ==> #[trigger] readable(img@, *ip, x),
        decreases ip.size + 1024 - off,
    {
        proof {
            reveal(read_result);
        }
        let buf = match try_iread(img, ip, BUFSIZE, off as usize) {
            Some(buf) => buf,
            None => {
                proof {
                    if ip.size <= 0x1_0000_0000 - 1024 {
                        let x = choose|x: int|
                            off <= x < off + (if off + 1024 > ip.size {
                                ip.size - off
                            } else {
                                1024
                            }) && !#[trigger] readable(img@, *ip, x);
                        assert(!readable(img@, *ip, x));
                    }
                }
                return None;
            },
        };
        let ghost before = out@;
        let mut k: usize = 0;
        while k < buf.len()
            invariant
                k <= buf@.len(),
                out@ =~= before + buf@.take(k as int),
            decreases buf@.len() - k,
        {
            out.push(buf[k]);
            k += 1;
        }
        assert(buf@.take(buf@.len() as int) =~= buf@);
        if off > u32::MAX - 1024 {
            return None;
        }
        off += BUFSIZE as u32;
    }
    proof {
        reveal(read_result);
    }
    Some(out)
}

/// The contents of the file at `path`, looked up from the directory `root`.
pub fn read_path(img: &Vec<u8>, root: &Dinode, path: &String) -> (r: Result<Vec<u8>, CmdError>)
    ensures
        match lookup_result(img@, *root, path@) {
            None => r == Err::<Vec<u8>, CmdError>(CmdError::Malformed),
            Some(None) => r == Err::<Vec<u8>, CmdError>(CmdError::NotFound),
            Some(Some(ip)) => match file_contents(img@, ip) {
                None => r == Err::<Vec<u8>, CmdError>(CmdError::Malformed),
                Some(c) => r matches Ok(v) && v@ == c,
            },
        },
{
    let ip = match try_ilookup(img, root, path) {
        Some(Some(ip)) => ip,
        Some(None) => return Err(CmdError::NotFound),
        None => return Err(CmdError::Malformed),
    };
    match read_contents(img, &ip) {
        Some(v) => Ok(v),
        None => Err(CmdError::Malformed),
    }
}

/// Stores `data` as the file at `path`, looked up from the directory `root`:
/// an existing regular file is written from offset 0, a missing path is
/// created first.
pub fn put_file(img: &mut Vec<u8>, root: &Dinode, path: &String, data: &Vec<u8>) -> (r: Result<
    (),
    CmdError,
>)
    ensures
        put_result(old(img)@, *root, path@, data@) is None ==> r == Err::<(), CmdError>(
            CmdError::Malformed,
        ),
        put_result(old(img)@, *root, path@, data@) matches Some((img2, res)) ==> r == res
            && final(img)@ == img2,
        lookup_result(old(img)@, *root, path@) matches Some(Some(ip)) && ip.file_type != T_FILE
            ==> r == Err::<(), CmdError>(CmdError::NotAFile) && final(img)@ == old(img)@,
{
    proof {
        reveal(put_result);
    }
    let mut ip = match try_ilookup(img, root, path) {
        Some(Some(ip)) => {
            if ip.file_type != T_FILE {
                return Err(CmdError::NotAFile);
            }
            let mut ip = ip;
            ip.size = 0;
            ip
        },
        Some(None) => match try_icreate(img, root, path) {
            Some(Some(ip)) => ip,
            Some(None) => return Err(CmdError::CannotCreate),
            None => return Err(CmdError::Malformed),
        },
        None => return Err(CmdError::Malformed),
    };
    if try_iwrite(img, &ip, 0, data) {
        Ok(())
    } else {
        Err(CmdError::Malformed)
    }
}

/// Removes the entry of `path`, looked up from the directory `root`, unless
/// it names a directory.
pub fn remove_path(img: &mut Vec<u8>, root: &Dinode, path: &String) -> (r: Result<(), CmdError>)
    ensures
        rm_result(old(img)@, *root, path@) is None ==> r == Err::<(), CmdError>(
            CmdError::Malformed,
        ),
        rm_result(old(img)@, *root, path@) matches Some((img2, res)) ==> r == res && final(img)@
            == img2,
        lookup_result(old(img)@, *root, path@) matches Some(Some(ip)) && ip.file_type == T_DIR
            ==> r == Err::<(), CmdError>(CmdError::IsADirectory) && final(img)@ == old(img)@,
        lookup_result(old(img)@, *root, path@) == Some(Option::<Dinode>::None) ==> r == Err::<
            (),
            CmdError,
        >(CmdError::NotFound) && final(img)@ == old(img)@,
{
    let ip = match try_ilookup(img, root, path) {
        Some(Some(ip)) => ip,
        Some(None) => return Err(CmdError::NotFound),
        None => return Err(CmdError::Malformed),
    };
    if ip.file_type == T_DIR {
        return Err(CmdError::IsADirectory);
    }
    if try_iunlink(img, root, path) {
        Ok(())
    } else {
        Err(CmdError::Malformed)
    }
}

} // verus!
