//! Listing of BSA archives (Bethesda Softworks Archive), so that the conflict
//! viewer can show overlaps that a scan of loose files misses. Only the paths
//! inside an archive are read; the game loads the archives itself.
//!
//! Skyrim LE (version 104) and SE/AE (version 105) archives are understood. An
//! archive is a 36-byte header, one record per folder, then for each folder its
//! name, where names are stored, and 16 bytes for each of its files, then all
//! file names, each ended by a zero byte.

use crate::bytes;
use crate::lists;
use crate::sorting;
use crate::text;
use vstd::prelude::*;

verus! {

/// The length of an archive's header.
pub const BSA_HEADER_LEN: usize = 36;

/// Why a file could not be listed as an archive.
#[derive(Debug, Clone, Copy, PartialEq, Eq, Structural)]
pub enum BsaError {
    HeaderTruncated,
    BadMagic,
    UnsupportedVersion(u32),
    FolderRecordsTruncated,
    FolderNameTruncated,
    FileNamesTruncated,
}

/// One archive found in a mod, with every path that it contains.
#[derive(Debug, Clone)]
pub struct BsaArchive {
    /// File name of the archive (such as `MyMod.bsa`).
    pub name: String,
    /// Path of the archive on disk.
    pub path: String,
    /// Paths inside, with forward slashes and in lower case.
    pub files: Vec<String>,
}

/// The mathematical content of a [`BsaArchive`].
pub struct BsaArchiveView {
    pub name: Seq<char>,
    pub path: Seq<char>,
    pub files: Seq<Seq<char>>,
}

impl DeepView for BsaArchive {
    type V = BsaArchiveView;

    open spec fn deep_view(&self) -> BsaArchiveView {
        BsaArchiveView { name: self.name@, path: self.path@, files: self.files.deep_view() }
    }
}

// ---------------------------------------------------------------------------
// The format
// ---------------------------------------------------------------------------

/// The length of a folder record.
pub open spec fn record_len(version: nat) -> int {
    if version == 105 {
        24
    } else {
        16
    }
}

/// How many files each of the first `n` folders has.
pub open spec fn folder_counts(b: Seq<u8>, record: int, n: int) -> Seq<nat> {
    Seq::new(n as nat, |k: int| bytes::le32_at(b, BSA_HEADER_LEN + k * record + 8))
}

/// `a`, or the end of the file where that comes first.
pub open spec fn at_most(a: int, len: nat) -> int {
    if a <= len {
        a
    } else {
        len as int
    }
}

/// The folder name at `pos` and where it ends: a length byte and that many
/// bytes, of which a final zero does not belong to the name. Nothing where the
/// file ends before.
pub open spec fn folder_name_at(b: Seq<u8>, pos: int) -> Option<(Seq<char>, int)> {
    if pos + 1 > b.len() {
        None
    } else {
        let len = b[pos] as int;
        let end = pos + 1 + len;
        if len == 0 {
            Some((Seq::empty(), pos + 1))
        } else if end > b.len() {
            None
        } else {
            let stop = if b[end - 1] == 0 { end - 1 } else { end };
            Some((text::lossy_utf8(b.subrange(pos + 1, stop)), end))
        }
    }
}

/// The folders, each with its name and its number of files, that start at
/// `pos`, and where the last of them ends. A skip past the end of the file
/// stops at the end. Nothing where a folder name is cut off.
pub open spec fn folders_from(
    b: Seq<u8>,
    counts: Seq<nat>,
    pos: int,
    named: bool,
) -> Option<(Seq<(Seq<char>, nat)>, int)>
    decreases counts.len(),
{
    if counts.len() == 0 {
        Some((Seq::empty(), pos))
    } else {
        let head = if named {
            match folder_name_at(b, pos) {
                Some((name, end)) => Some((text::replaced(text::lowercase(name), '/', '\\'), end)),
                None => None,
            }
        } else {
            Some((Seq::empty(), pos))
        };
        match head {
            None => None,
            Some((name, end)) => {
                let next = at_most(end + 16 * counts[0], b.len());
                match folders_from(b, counts.drop_first(), next, named) {
                    None => None,
                    Some((rest, stop)) => Some((seq![(name, counts[0])] + rest, stop)),
                }
            },
        }
    }
}

/// The texts between the zero bytes of a block, the empty ones left out.
pub open spec fn c_strings(block: Seq<u8>) -> Seq<Seq<char>>
    decreases block.len(),
{
    if block.len() == 0 {
        Seq::empty()
    } else {
        let first = bytes::up_to_zero(block);
        let rest = if first.len() < block.len() {
            c_strings(block.skip(first.len() as int + 1))
        } else {
            Seq::empty()
        };
        if first.len() > 0 {
            seq![text::lossy_utf8(first)] + rest
        } else {
            rest
        }
    }
}

/// The path of a file in a folder, with forward slashes.
pub open spec fn path_in(folder: Seq<char>, file: Seq<char>) -> Seq<char> {
    let full = if folder.len() == 0 || folder == seq!['.'] {
        file
    } else {
        folder + seq!['\\'] + file
    };
    text::replaced(full, '\\', '/')
}

/// The paths of `names` in a folder, those that are empty left out.
pub open spec fn paths_in(folder: Seq<char>, names: Seq<Seq<char>>) -> Seq<Seq<char>>
    decreases names.len(),
{
    if names.len() == 0 {
        Seq::empty()
    } else {
        let before = paths_in(folder, names.drop_last());
        let name = text::lowercase(names.last());
        if name.len() > 0 {
            before.push(path_in(folder, name))
        } else {
            before
        }
    }
}

/// The paths of all folders, which share out the names in order. A folder for
/// which too few names are left has only these.
pub open spec fn paths_of(folders: Seq<(Seq<char>, nat)>, names: Seq<Seq<char>>) -> Seq<Seq<char>>
    decreases folders.len(),
{
    if folders.len() == 0 {
        Seq::empty()
    } else {
        let n = at_most(folders[0].1 as int, names.len());
        paths_in(folders[0].0, names.take(n)) + paths_of(folders.drop_first(), names.skip(n))
    }
}

/// What an archive with this content lists, or why it cannot be listed.
pub open spec fn listing(b: Seq<u8>) -> Result<Seq<Seq<char>>, BsaError> {
    if b.len() < BSA_HEADER_LEN {
        Err(BsaError::HeaderTruncated)
    } else if !bytes::tag_at(b, 0, 'B' as u8, 'S' as u8, 'A' as u8, 0) {
        Err(BsaError::BadMagic)
    } else {
        let version = bytes::le32_at(b, 4);
        let flags = bytes::le32_at(b, 12);
        let folder_count = bytes::le32_at(b, 16);
        let names_len = bytes::le32_at(b, 28);
        let record = record_len(version);
        let start = BSA_HEADER_LEN + folder_count * record;
        if version != 104 && version != 105 {
            Err(BsaError::UnsupportedVersion(version as u32))
        } else if start > b.len() {
            Err(BsaError::FolderRecordsTruncated)
        } else {
            let counts = folder_counts(b, record, folder_count as int);
            match folders_from(b, counts, start, flags % 2 == 1) {
                None => Err(BsaError::FolderNameTruncated),
                Some((folders, pos)) => {
                    if (flags / 2) % 2 == 0 {
                        Ok(Seq::empty())
                    } else if pos + names_len > b.len() {
                        Err(BsaError::FileNamesTruncated)
                    } else {
                        Ok(paths_of(folders, c_strings(b.subrange(pos, pos + names_len))))
                    }
                },
            }
        }
    }
}

// ---------------------------------------------------------------------------
// The reader
// ---------------------------------------------------------------------------

/// Reads the folder name at `pos`.
fn read_bzstring(b: &[u8], pos: usize) -> (r: Option<(String, usize)>)
    requires
        pos <= b@.len(),
    ensures
        match r {
            Some(p) => folder_name_at(b@, pos as int) == Some((p.0@, p.1 as int)) && pos < p.1
                <= b@.len(),
            None => folder_name_at(b@, pos as int) is None,
        },
{
    if pos >= b.len() {
        return None;
    }
    let len: usize = b[pos] as usize;
    if len == 0 {
        return Some((String::new(), pos + 1));
    }
    if len > b.len() - pos - 1 {
        return None;
    }
    let end: usize = pos + 1 + len;
    let stop: usize = if b[end - 1] == 0 {
        end - 1
    } else {
        end
    };
    Some((text::utf8_text_lossy(vstd::slice::slice_subrange(b, pos + 1, stop)), end))
}

/// The texts between the zero bytes of a block, the empty ones left out.
fn split_c_strings(block: &[u8]) -> (r: Vec<String>)
    ensures
        r.deep_view() == c_strings(block@),
{
    let mut out: Vec<String> = Vec::new();
    let mut start: usize = 0;
    assert(block@.skip(0) =~= block@);
    assert(out.deep_view() + c_strings(block@.skip(0)) =~= c_strings(block@));
    while start < block.len()
        invariant
            start <= block@.len(),
            out.deep_view() + c_strings(block@.skip(start as int)) == c_strings(block@),
        decreases block.len() - start,
    {
        let ghost rest = block@.skip(start as int);
        let ghost before = out.deep_view();
        let zero: usize = bytes::find_zero(block, start, block.len());
        assert(block@.subrange(start as int, block@.len() as int) =~= rest);
        assert(bytes::up_to_zero(rest).len() == zero - start);
        let ghost tail = if zero < block@.len() {
            c_strings(block@.skip(zero + 1))
        } else {
            Seq::empty()
        };
        assert(zero < block@.len() ==> rest.skip(zero - start + 1) =~= block@.skip(zero + 1));
        if zero > start {
            let name = text::utf8_text_lossy(vstd::slice::slice_subrange(block, start, zero));
            out.push(name);
            assert(out.deep_view() =~= before.push(name@));
            assert(before + (seq![name@] + tail) =~= out.deep_view() + tail);
        }
        if zero == block.len() {
            assert(block@.skip(zero as int) =~= Seq::<u8>::empty());
            assert(tail =~= c_strings(block@.skip(zero as int)));
            start = zero;
        } else {
            start = zero + 1;
        }
    }
    assert(block@.skip(start as int) =~= Seq::<u8>::empty());
    assert(out.deep_view() + c_strings(block@.skip(start as int)) =~= out.deep_view());
    out
}

fn folder_is_root(folder: &str) -> (r: bool)
    ensures
        r == (folder@.len() == 0 || folder@ == seq!['.']),
{
    proof {
        reveal_strlit(".");
    }
    assert("."@ =~= seq!['.']);
    folder.is_empty() || text::same_text(folder, ".")
}

fn join_path(folder: &str, file: &str) -> (r: String)
    ensures
        r@ == path_in(folder@, file@),
{
    if folder_is_root(folder) {
        return text::replace_char(file, '\\', '/');
    }
    proof {
        reveal_strlit("\\");
    }
    assert("\\"@ =~= seq!['\\']);
    let full = text::concat3(folder, "\\", file);
    text::replace_char(full.as_str(), '\\', '/')
}

/// Reads the folders, of which the first starts at `start`.
fn read_folders(b: &[u8], counts: &Vec<u32>, start: usize, named: bool) -> (r: Option<
    (Vec<(String, u32)>, usize),
>)
    requires
        start <= b@.len(),
    ensures
        match r {
            Some(p) => {
                &&& p.1 <= b@.len()
                &&& folders_from(b@, nats(counts@), start as int, named) == Some(
                    (folder_views(p.0@), p.1 as int),
                )
            },
            None => folders_from(b@, nats(counts@), start as int, named) is None,
        },
{
    let ghost all = nats(counts@);
    let ghost goal = folders_from(b@, all, start as int, named);
    let mut out: Vec<(String, u32)> = Vec::new();
    let mut pos: usize = start;
    let mut k: usize = 0;
    assert(all.skip(0) =~= all);
    assert(folder_views(out@) =~= Seq::empty());
    proof {
        if goal is Some {
            assert(folder_views(out@) + (goal->0).0 =~= (goal->0).0);
        }
    }
    while k < counts.len()
        invariant
            k <= counts@.len(),
            pos <= b@.len(),
            all == nats(counts@),
            goal == folders_from(b@, all, start as int, named),
            goal == with_folders(folder_views(out@), folders_from(b@, all.skip(k as int), pos as int, named)),
        decreases counts.len() - k,
    {
        let ghost rest = all.skip(k as int);
        assert(rest[0] == counts@[k as int]);
        assert(rest.drop_first() =~= all.skip(k + 1));
        let ghost before = folder_views(out@);
        let mut end: usize = pos;
        let mut name = String::new();
        if named {
            match read_bzstring(b, pos) {
                None => {
                    return None;
                },
                Some(p) => {
                    end = p.1;
                    name = text::replace_char(text::to_lowercase(p.0.as_str()).as_str(), '/', '\\');
                },
            }
        }
        let skip: u64 = (counts[k] as u64) * 16;
        let room: u64 = (b.len() - end) as u64;
        pos = if skip <= room {
            end + skip as usize
        } else {
            b.len()
        };
        let ghost folder = (name@, counts@[k as int] as nat);
        out.push((name, counts[k]));
        k += 1;
        proof {
            assert(folder_views(out@) =~= before.push(folder));
            let tail = folders_from(b@, all.skip(k as int), pos as int, named);
            if tail is Some {
                assert(before + (seq![folder] + (tail->0).0) =~= folder_views(out@) + (tail->0).0);
            }
        }
    }
    assert(all.skip(k as int) =~= Seq::<nat>::empty());
    assert(folder_views(out@) + Seq::<(Seq<char>, nat)>::empty() =~= folder_views(out@));
    Some((out, pos))
}

spec fn nats(s: Seq<u32>) -> Seq<nat> {
    s.map_values(|n: u32| n as nat)
}

spec fn folder_views(s: Seq<(String, u32)>) -> Seq<(Seq<char>, nat)> {
    s.map_values(|f: (String, u32)| (f.0@, f.1 as nat))
}

spec fn with_folders(
    before: Seq<(Seq<char>, nat)>,
    rest: Option<(Seq<(Seq<char>, nat)>, int)>,
) -> Option<(Seq<(Seq<char>, nat)>, int)> {
    match rest {
        None => None,
        Some((fs, p)) => Some((before + fs, p)),
    }
}

/// Shares out the names among the folders.
fn list_paths(folders: &Vec<(String, u32)>, names: &Vec<String>) -> (r: Vec<String>)
    ensures
        r.deep_view() == paths_of(folder_views(folders@), names.deep_view()),
{
    let ghost fs = folder_views(folders@);
    let ghost ns = names.deep_view();
    let mut out: Vec<String> = Vec::new();
    let mut next: usize = 0;
    let mut f: usize = 0;
    assert(fs.skip(0) =~= fs);
    assert(ns.skip(0) =~= ns);
    assert(out.deep_view() + paths_of(fs, ns) =~= paths_of(fs, ns));
    while f < folders.len()
        invariant
            f <= folders@.len(),
            next <= names@.len(),
            fs == folder_views(folders@),
            ns == names.deep_view(),
            out.deep_view() + paths_of(fs.skip(f as int), ns.skip(next as int)) == paths_of(fs, ns),
        decreases folders.len() - f,
    {
        let count: u64 = folders[f].1 as u64;
        let left: u64 = (names.len() - next) as u64;
        let stop: usize = if count <= left {
            next + count as usize
        } else {
            names.len()
        };
        let ghost folder = fs.skip(f as int)[0].0;
        let ghost here = ns.skip(next as int);
        let ghost before = out.deep_view();
        let ghost from = next;
        assert(fs.skip(f as int).drop_first() =~= fs.skip(f + 1));
        assert(here.skip(stop - next) =~= ns.skip(stop as int));
        assert(here.take(0) =~= Seq::<Seq<char>>::empty());
        assert(before + paths_in(folder, here.take(0)) =~= before);
        while next < stop
            invariant
                from <= next <= stop <= names@.len(),
                f < folders@.len(),
                folder == folders@[f as int].0@,
                ns == names.deep_view(),
                here == ns.skip(from as int),
                out.deep_view() == before + paths_in(folder, here.take(next - from)),
            decreases stop - next,
        {
            let ghost done = out.deep_view();
            let ghost t = here.take(next - from + 1);
            assert(t.drop_last() =~= here.take(next - from));
            assert(t.last() == names@[next as int]@);
            let name = text::to_lowercase(names[next].as_str());
            if !name.as_str().is_empty() {
                let full = join_path(folders[f].0.as_str(), name.as_str());
                out.push(full);
                assert(out.deep_view() =~= done.push(full@));
                assert(out.deep_view() =~= before + paths_in(folder, t));
            }
            next += 1;
        }
        f += 1;
        assert(before + (paths_in(folder, here.take(stop - from)) + paths_of(
            fs.skip(f as int),
            ns.skip(next as int),
        )) =~= out.deep_view() + paths_of(fs.skip(f as int), ns.skip(next as int)));
    }
    assert(fs.skip(f as int) =~= Seq::<(Seq<char>, nat)>::empty());
    assert(out.deep_view() + paths_of(fs.skip(f as int), ns.skip(next as int)) =~= out.deep_view());
    out
}

/// The paths inside an archive with this content, as `folder/file` in lower
/// case, or why it cannot be listed. Empty where the archive stores no file
/// names.
pub fn list_bsa_files(b: &[u8]) -> (r: Result<Vec<String>, BsaError>)
    ensures
        match r {
            Ok(files) => listing(b@) == Ok::<Seq<Seq<char>>, BsaError>(files.deep_view()),
            Err(e) => listing(b@) == Err::<Seq<Seq<char>>, BsaError>(e),
        },
{
    if b.len() < BSA_HEADER_LEN {
        return Err(BsaError::HeaderTruncated);
    }
    if !(b[0] == 'B' as u8 && b[1] == 'S' as u8 && b[2] == 'A' as u8 && b[3] == 0) {
        return Err(BsaError::BadMagic);
    }
    let version: u32 = bytes::read_le32(b, 4);
    if version != 104 && version != 105 {
        return Err(BsaError::UnsupportedVersion(version));
    }
    let flags: u32 = bytes::read_le32(b, 12);
    let folder_count: u32 = bytes::read_le32(b, 16);
    let names_len: u32 = bytes::read_le32(b, 28);
    let record: usize = if version == 105 {
        24
    } else {
        16
    };
    let room: u64 = (b.len() - BSA_HEADER_LEN) as u64;
    if (folder_count as u64) * (record as u64) > room {
        return Err(BsaError::FolderRecordsTruncated);
    }
    let ghost want = folder_counts(b@, record as int, folder_count as int);
    let mut counts: Vec<u32> = Vec::new();
    let mut pos: usize = BSA_HEADER_LEN;
    let mut k: u32 = 0;
    while k < folder_count
        invariant
            k <= folder_count,
            record == 16 || record == 24,
            BSA_HEADER_LEN + folder_count * record <= b.len(),
            pos == BSA_HEADER_LEN + k * record,
            want == folder_counts(b@, record as int, folder_count as int),
            nats(counts@) == want.take(k as int),
        decreases folder_count - k,
    {
        proof {
            assert((k + 1) * record <= folder_count * record) by (nonlinear_arith)
                requires
                    k + 1 <= folder_count,
                    record >= 0,
            ;
            assert((k + 1) * record == k * record + record) by (nonlinear_arith);
        }
        let count: u32 = bytes::read_le32(b, pos + 8);
        let ghost before = nats(counts@);
        counts.push(count);
        pos = pos + record;
        k += 1;
        assert(nats(counts@) =~= before.push(count as nat));
        assert(want[k - 1] == count);
        assert(nats(counts@) =~= want.take(k as int));
    }
    assert(nats(counts@) =~= want);
    let (folders, end) = match read_folders(b, &counts, pos, flags % 2 == 1) {
        None => {
            return Err(BsaError::FolderNameTruncated);
        },
        Some(p) => p,
    };
    if (flags / 2) % 2 == 0 {
        let none: Vec<String> = Vec::new();
        assert(none.deep_view() =~= Seq::<Seq<char>>::empty());
        return Ok(none);
    }
    if (names_len as u64) > (b.len() - end) as u64 {
        return Err(BsaError::FileNamesTruncated);
    }
    let names = split_c_strings(
        vstd::slice::slice_subrange(b, end, end + names_len as usize),
    );
    Ok(list_paths(&folders, &names))
}

// ---------------------------------------------------------------------------
// The archives of a mod
// ---------------------------------------------------------------------------

/// One entry of a mod's top folder.
#[derive(Debug, Clone)]
pub struct FolderEntry {
    pub name: String,
    pub path: String,
    pub is_file: bool,
    /// What the file holds, where it was read.
    pub content: Option<Vec<u8>>,
}

/// Whether a file of this name is an archive.
pub open spec fn is_bsa_name(name: Seq<char>) -> bool {
    text::ends_in(text::lowercase(name), ".bsa"@)
}

/// Whether a file of this name is an archive.
pub fn named_like_bsa(name: &str) -> (r: bool)
    ensures
        r == is_bsa_name(name@),
{
    text::has_suffix(text::to_lowercase(name).as_str(), ".bsa")
}

/// What an archive that is such an entry lists: nothing where it could not be
/// read or understood.
pub open spec fn listed(entry: FolderEntry) -> Seq<Seq<char>> {
    match entry.content {
        Some(b) => match listing(b@) {
            Ok(files) => files,
            Err(_) => Seq::empty(),
        },
        None => Seq::empty(),
    }
}

/// The archives among the entries, in order, each under its file name.
pub open spec fn archives_in(entries: Seq<FolderEntry>) -> Seq<(Seq<char>, BsaArchiveView)>
    decreases entries.len(),
{
    if entries.len() == 0 {
        Seq::empty()
    } else {
        let before = archives_in(entries.drop_last());
        let e = entries.last();
        if e.is_file && is_bsa_name(e.name@) {
            before.push(
                (e.name@, BsaArchiveView { name: e.name@, path: e.path@, files: listed(e) }),
            )
        } else {
            before
        }
    }
}

/// Finds every archive at the top level of a mod's content folder and lists
/// the files inside each. One that cannot be read or understood is still
/// shown, with no files. Nested archives are not looked for: the game only
/// loads those that sit directly in `Data`.
pub fn scan_mod_bsas(entries: &Vec<FolderEntry>) -> (r: Vec<(String, BsaArchive)>)
    ensures
        r.deep_view() == archives_in(entries@),
{
    let mut out: Vec<(String, BsaArchive)> = Vec::new();
    let mut i: usize = 0;
    assert(out.deep_view() =~= Seq::<(Seq<char>, BsaArchiveView)>::empty());
    assert(entries@.take(0) =~= Seq::<FolderEntry>::empty());
    while i < entries.len()
        invariant
            i <= entries@.len(),
            out.deep_view() == archives_in(entries@.take(i as int)),
        decreases entries.len() - i,
    {
        assert(entries@.take(i + 1).drop_last() =~= entries@.take(i as int));
        let e = &entries[i];
        if e.is_file && named_like_bsa(e.name.as_str()) {
            let ghost before = out.deep_view();
            let mut files: Vec<String> = Vec::new();
            assert(files.deep_view() =~= Seq::<Seq<char>>::empty());
            if let Some(b) = &e.content {
                if let Ok(list) = list_bsa_files(b.as_slice()) {
                    files = list;
                }
            }
            let found = (
                e.name.clone(),
                BsaArchive { name: e.name.clone(), path: e.path.clone(), files },
            );
            out.push(found);
            assert(out.deep_view() =~= before.push(found.deep_view()));
        }
        i += 1;
    }
    assert(entries@.take(i as int) =~= entries@);
    out
}

// ---------------------------------------------------------------------------
// Overlaps
// ---------------------------------------------------------------------------

/// A path with the mod and the archive that contribute it.
pub type Contributed = (Seq<char>, (Seq<char>, Seq<char>));

/// What one archive contributes.
pub open spec fn from_archive(
    mod_id: Seq<char>,
    bsa: Seq<char>,
    files: Seq<Seq<char>>,
) -> Seq<Contributed> {
    files.map_values(|f: Seq<char>| (f, (mod_id, bsa)))
}

/// What one mod's archives contribute, in order.
pub open spec fn from_archives(
    mod_id: Seq<char>,
    archives: Seq<(Seq<char>, BsaArchiveView)>,
) -> Seq<Contributed>
    decreases archives.len(),
{
    if archives.len() == 0 {
        Seq::empty()
    } else {
        from_archives(mod_id, archives.drop_last()) + from_archive(
            mod_id,
            archives.last().0,
            archives.last().1.files,
        )
    }
}

/// What all mods' archives contribute, in order.
pub open spec fn from_mods(mods: Seq<(Seq<char>, Seq<(Seq<char>, BsaArchiveView)>)>) -> Seq<
    Contributed,
>
    decreases mods.len(),
{
    if mods.len() == 0 {
        Seq::empty()
    } else {
        from_mods(mods.drop_last()) + from_archives(mods.last().0, mods.last().1)
    }
}

/// The condition to be an entry of this path.
pub open spec fn on_path(path: Seq<char>) -> spec_fn(Contributed) -> bool {
    |e: Contributed| e.0 == path
}

/// The mods and archives that contribute a path, in order.
pub open spec fn contributors(all: Seq<Contributed>, path: Seq<char>) -> Seq<
    (Seq<char>, Seq<char>),
> {
    all.filter(on_path(path)).map_values(|e: Contributed| e.1)
}

/// Whether more than one mod is among the contributors.
pub open spec fn several_mods(c: Seq<(Seq<char>, Seq<char>)>) -> bool {
    exists|i: int, j: int| 0 <= i < c.len() && 0 <= j < c.len() && #[trigger] c[i].0 != #[trigger] c[j].0
}

/// Whether `report` lists, in the order of strings, each path that more than
/// one mod contributes, with all its contributors.
pub open spec fn is_overlap_report(
    all: Seq<Contributed>,
    report: Seq<(Seq<char>, Seq<(Seq<char>, Seq<char>)>)>,
) -> bool {
    &&& forall|a: int, b: int|
        0 <= a < b < report.len() ==> text::text_less((#[trigger] report[a]).0, (#[trigger] report[b]).0)
    &&& forall|k: int|
        0 <= k < report.len() ==> (#[trigger] report[k]).1 == contributors(all, report[k].0)
            && several_mods(report[k].1)
    &&& forall|path: Seq<char>|
        several_mods(#[trigger] contributors(all, path)) ==> exists|k: int|
            0 <= k < report.len() && (#[trigger] report[k]).0 == path
}

/// Whether a row of a report is the one for this path.
spec fn is_row(
    all: Seq<Contributed>,
    path: Seq<char>,
    row: (Seq<char>, Seq<(Seq<char>, Seq<char>)>),
) -> bool {
    row.0 == path && row.1 == contributors(all, path) && several_mods(row.1)
}

/// Given each mod's archives, finds the paths that more than one mod's
/// archives contain. No winner is named: which archive counts depends on
/// plugin order and INI settings.
pub fn find_bsa_overlaps(mod_bsas: &Vec<(String, Vec<(String, BsaArchive)>)>) -> (r: Vec<
    (String, Vec<(String, String)>),
>)
    ensures
        is_overlap_report(from_mods(mod_bsas.deep_view()), r.deep_view()),
{
    let (keys, owners) = flatten(mod_bsas);
    let ghost all = from_mods(mod_bsas.deep_view());
    let groups = sorting::group_places(&keys);
    let ghost kv = keys.deep_view();
    let ghost gv = groups.deep_view();
    let count: usize = keys.len();
    assert(count == all.len());
    let mut out: Vec<(String, Vec<(String, String)>)> = Vec::new();
    let ghost mut from: Seq<int> = Seq::empty();
    let mut g: usize = 0;
    while g < groups.len()
        invariant
            g <= groups@.len(),
            gv == groups.deep_view(),
            kv == keys.deep_view(),
            sorting::is_grouping(kv, gv),
            owners@.len() == keys@.len(),
            kv.len() == all.len(),
            all.len() <= usize::MAX,
            forall|i: int| 0 <= i < all.len() ==> #[trigger] all[i] == (kv[i], owners@[i].deep_view()),
            from.len() == out@.len(),
            forall|k: int|
                0 <= k < out@.len() ==> 0 <= #[trigger] from[k] < g && is_row(
                    all,
                    sorting::key_of(kv, gv[from[k]]),
                    out.deep_view()[k],
                ),
            forall|a: int, b: int| 0 <= a < b < from.len() ==> from[a] < from[b],
            forall|h: int|
                0 <= h < g && several_mods(contributors(all, sorting::key_of(kv, #[trigger] gv[h])))
                    ==> from.contains(h),
        decreases groups.len() - g,
    {
        let ghost group = gv[g as int];
        assert(group =~= groups@[g as int]@);
        assert(sorting::is_group(kv, group));
        let owned = owners_at(&owners, &groups[g], Ghost(kv));
        let ghost key = sorting::key_of(kv, group);
        proof {
            lemma_contributors_at(all, kv, gv, g as int);
            assert(owned.deep_view() =~= contributors(all, key)) by {
                let c = contributors(all, key);
                let w = group.map_values(|i: usize| all[i as int]).map_values(
                    |e: Contributed| e.1,
                );
                assert forall|k: int| 0 <= k < group.len() implies owned.deep_view()[k] == w[k] by {
                    assert(group[k] < kv.len());
                    assert(all[group[k] as int] == (
                        kv[group[k] as int],
                        owners@[group[k] as int].deep_view(),
                    ));
                }
                assert(owned.deep_view() =~= w);
            }
        }
        if from_several_mods(&owned) {
            let ghost before = out.deep_view();
            assert(group[0] < kv.len());
            let first: usize = groups[g][0];
            let item = (keys[first].clone(), owned);
            let ghost iv = item.deep_view();
            let ghost from0 = from;
            out.push(item);
            proof {
                from = from.push(g as int);
                assert(out.deep_view() =~= before.push(iv));
                assert(iv.0 == key);
                assert(from[from.len() - 1] == g);
                assert forall|h: int|
                    0 <= h < g + 1 && several_mods(
                        contributors(all, sorting::key_of(kv, #[trigger] gv[h])),
                    ) implies from.contains(h) by {
                    if h < g {
                        assert(from0.contains(h));
                        let k = choose|k: int| 0 <= k < from0.len() && from0[k] == h;
                        assert(from[k] == h);
                    }
                }
                assert(is_row(all, key, iv));
                assert forall|k: int| 0 <= k < out@.len() implies 0 <= #[trigger] from[k] < g + 1
                    && is_row(all, sorting::key_of(kv, gv[from[k]]), out.deep_view()[k]) by {
                    if k < before.len() {
                        assert(from[k] == from0[k]);
                        assert(0 <= from0[k] < g && is_row(
                            all,
                            sorting::key_of(kv, gv[from0[k]]),
                            before[k],
                        ));
                        assert(out.deep_view()[k] == before[k]);
                    }
                }
            }
        }
        g += 1;
    }
    proof {
        let report = out.deep_view();
        assert forall|a: int, b: int| 0 <= a < b < report.len() implies text::text_less(
            (#[trigger] report[a]).0,
            (#[trigger] report[b]).0,
        ) by {
            assert(0 <= from[a] < from[b] < gv.len());
            assert(is_row(all, sorting::key_of(kv, gv[from[a]]), report[a]));
            assert(is_row(all, sorting::key_of(kv, gv[from[b]]), report[b]));
            assert(text::text_less(
                sorting::key_of(kv, gv[from[a]]),
                sorting::key_of(kv, gv[from[b]]),
            ));
        }
        assert forall|path: Seq<char>| several_mods(#[trigger] contributors(all, path)) implies exists|k: int|
            0 <= k < report.len() && (#[trigger] report[k]).0 == path by {
            let i = lemma_contributor_exists(all, path);
            assert(all[i] == (kv[i], owners@[i].deep_view()));
            let h = sorting::lemma_key_grouped(kv, gv, i as usize);
            assert(sorting::key_of(kv, gv[h]) == path);
            assert(from.contains(h));
            let k = choose|k: int| 0 <= k < from.len() && from[k] == h;
            assert(is_row(all, sorting::key_of(kv, gv[from[k]]), report[k]));
            assert(report[k].0 == path);
        }
        assert forall|k: int| 0 <= k < report.len() implies (#[trigger] report[k]).1 == contributors(
            all,
            report[k].0,
        ) && several_mods(report[k].1) by {
            assert(0 <= from[k] < gv.len());
            assert(is_row(all, sorting::key_of(kv, gv[from[k]]), report[k]));
        }
    }
    out
}

/// A path with contributors is that of some entry.
proof fn lemma_contributor_exists(all: Seq<Contributed>, path: Seq<char>) -> (i: int)
    requires
        contributors(all, path).len() > 0,
    ensures
        0 <= i < all.len(),
        all[i].0 == path,
    decreases all.len(),
{
    reveal(Seq::filter);
    assert(all.filter(on_path(path)).len() > 0);
    if all.last().0 == path {
        all.len() - 1
    } else {
        lemma_contributor_exists(all.drop_last(), path)
    }
}

proof fn lemma_contributors_at(
    all: Seq<Contributed>,
    keys: Seq<Seq<char>>,
    groups: Seq<Seq<usize>>,
    g: int,
)
    requires
        all.len() <= usize::MAX,
        keys.len() == all.len(),
        forall|i: int| 0 <= i < all.len() ==> (#[trigger] all[i]).0 == keys[i],
        sorting::is_grouping(keys, groups),
        0 <= g < groups.len(),
    ensures
        contributors(all, sorting::key_of(keys, groups[g])) == groups[g].map_values(
            |i: usize| all[i as int],
        ).map_values(|e: Contributed| e.1),
{
    sorting::lemma_group_is_filter(
        all,
        on_path(sorting::key_of(keys, groups[g])),
        keys,
        groups,
        g,
    );
}

fn owners_at(
    owners: &Vec<(String, String)>,
    places: &Vec<usize>,
    keys: Ghost<Seq<Seq<char>>>,
) -> (r: Vec<(String, String)>)
    requires
        sorting::is_group(keys@, places@),
        keys@.len() == owners@.len(),
    ensures
        r@.len() == places@.len(),
        forall|k: int|
            0 <= k < places@.len() ==> r.deep_view()[k] == owners@[#[trigger] places@[k] as int].deep_view(),
{
    let mut out: Vec<(String, String)> = Vec::new();
    let mut i: usize = 0;
    while i < places.len()
        invariant
            i <= places@.len(),
            out@.len() == i,
            sorting::is_group(keys@, places@),
            keys@.len() == owners@.len(),
            forall|k: int|
                0 <= k < i ==> out.deep_view()[k] == owners@[#[trigger] places@[k] as int].deep_view(),
        decreases places.len() - i,
    {
        let ghost before = out.deep_view();
        assert(places@[i as int] < keys@.len());
        let o = &owners[places[i]];
        out.push((o.0.clone(), o.1.clone()));
        assert(out.deep_view() =~= before.push(o.deep_view()));
        i += 1;
    }
    out
}

/// Whether more than one mod is among the contributors.
fn from_several_mods(c: &Vec<(String, String)>) -> (r: bool)
    ensures
        r == several_mods(c.deep_view()),
{
    let ghost v = c.deep_view();
    let mut i: usize = 1;
    while i < c.len()
        invariant
            1 <= i,
            v == c.deep_view(),
            forall|k: int| 0 <= k < i && k < v.len() ==> (#[trigger] v[k]).0 == v[0].0,
        decreases c.len() - i,
    {
        if !text::same_text(c[i].0.as_str(), c[0].0.as_str()) {
            assert(v[i as int].0 != v[0].0);
            return true;
        }
        i += 1;
    }
    false
}

/// The paths that the archives contribute, and beside each the mod and the
/// archive.
fn flatten(mod_bsas: &Vec<(String, Vec<(String, BsaArchive)>)>) -> (r: (
    Vec<String>,
    Vec<(String, String)>,
))
    ensures
        r.0@.len() == r.1@.len(),
        r.0@.len() == from_mods(mod_bsas.deep_view()).len(),
        forall|i: int|
            0 <= i < r.0@.len() ==> #[trigger] from_mods(mod_bsas.deep_view())[i] == (
                r.0.deep_view()[i],
                r.1@[i].deep_view(),
            ),
{
    let ghost mods = mod_bsas.deep_view();
    let mut keys: Vec<String> = Vec::new();
    let mut owners: Vec<(String, String)> = Vec::new();
    let mut m: usize = 0;
    assert(mods.take(0) =~= Seq::empty());
    assert(zipped(keys@, owners@) =~= Seq::<Contributed>::empty());
    while m < mod_bsas.len()
        invariant
            m <= mod_bsas@.len(),
            mods == mod_bsas.deep_view(),
            keys@.len() == owners@.len(),
            zipped(keys@, owners@) == from_mods(mods.take(m as int)),
        decreases mod_bsas.len() - m,
    {
        assert(mods.take(m + 1).drop_last() =~= mods.take(m as int));
        let ghost before = zipped(keys@, owners@);
        let ghost archives = mods[m as int].1;
        let ghost id = mods[m as int].0;
        let list = &mod_bsas[m].1;
        let mut a: usize = 0;
        assert(archives.take(0) =~= Seq::empty());
        assert(before + from_archives(id, archives.take(0)) =~= before);
        while a < list.len()
            invariant
                a <= list@.len(),
                m < mod_bsas@.len(),
                id == mod_bsas@[m as int].0@,
                archives == list.deep_view(),
                keys@.len() == owners@.len(),
                zipped(keys@, owners@) == before + from_archives(id, archives.take(a as int)),
            decreases list.len() - a,
        {
            assert(archives.take(a + 1).drop_last() =~= archives.take(a as int));
            let ghost sofar = zipped(keys@, owners@);
            let ghost files = archives[a as int].1.files;
            let ghost bsa = archives[a as int].0;
            let names = &list[a].1.files;
            let mut f: usize = 0;
            assert(sofar + from_archive(id, bsa, files).take(0) =~= sofar);
            while f < names.len()
                invariant
                    f <= names@.len(),
                    m < mod_bsas@.len(),
                    a < list@.len(),
                    id == mod_bsas@[m as int].0@,
                    bsa == list@[a as int].0@,
                    files == names.deep_view(),
                    keys@.len() == owners@.len(),
                    zipped(keys@, owners@) == sofar + from_archive(id, bsa, files).take(f as int),
                decreases names.len() - f,
            {
                let ghost z = zipped(keys@, owners@);
                keys.push(names[f].clone());
                owners.push((mod_bsas[m].0.clone(), list[a].0.clone()));
                f += 1;
                assert(zipped(keys@, owners@) =~= z.push((files[f - 1], (id, bsa))));
                assert(zipped(keys@, owners@) =~= sofar + from_archive(id, bsa, files).take(
                    f as int,
                ));
            }
            assert(from_archive(id, bsa, files).take(f as int) =~= from_archive(id, bsa, files));
            a += 1;
            assert(zipped(keys@, owners@) =~= before + from_archives(id, archives.take(a as int)));
        }
        assert(archives.take(a as int) =~= archives);
        m += 1;
    }
    assert(mods.take(m as int) =~= mods);
    proof {
        assert forall|i: int| 0 <= i < keys@.len() implies #[trigger] from_mods(mods)[i] == (
            keys.deep_view()[i],
            owners@[i].deep_view(),
        ) by {
            assert(zipped(keys@, owners@)[i] == (keys@[i]@, owners@[i].deep_view()));
        }
    }
    (keys, owners)
}

spec fn zipped(keys: Seq<String>, owners: Seq<(String, String)>) -> Seq<Contributed> {
    Seq::new(keys.len(), |i: int| (keys[i]@, owners[i].deep_view()))
}

// ---------------------------------------------------------------------------
// What is listed of an archive that was written
// ---------------------------------------------------------------------------

/// A folder as it is written into an archive: its name, sixteen bytes for each
/// file, and the names of the files.
pub struct WrittenFolder {
    pub name: Seq<u8>,
    pub records: Seq<u8>,
    pub files: Seq<Seq<u8>>,
}

/// What is written of a folder behind the folder records: the length of the name
/// with its closing zero, the name and the zero, where names are stored, and the
/// files' records.
pub open spec fn folder_block(f: WrittenFolder, named: bool) -> Seq<u8> {
    if named {
        seq![(f.name.len() + 1) as u8] + f.name + seq![0u8] + f.records
    } else {
        f.records
    }
}

/// What is written of several folders.
pub open spec fn folder_blocks(folders: Seq<WrittenFolder>, named: bool) -> Seq<u8> {
    folders.map_values(|f: WrittenFolder| folder_block(f, named)).flatten()
}

/// The names of all files of the folders, each with a closing zero.
pub open spec fn name_block(folders: Seq<WrittenFolder>) -> Seq<u8> {
    folders.map_values(
        |f: WrittenFolder| f.files.map_values(|n: Seq<u8>| n.push(0u8)).flatten(),
    ).flatten()
}

/// Whether a folder can be written.
pub open spec fn can_be_written(f: WrittenFolder) -> bool {
    &&& f.name.len() < 255
    &&& f.records.len() == 16 * f.files.len()
    &&& f.files.len() < 0x1_0000_0000
    &&& forall|k: int| 0 <= k < f.files.len() ==> is_file_name(#[trigger] f.files[k])
}

/// Whether a file can have this name in an archive.
pub open spec fn is_file_name(n: Seq<u8>) -> bool {
    &&& n.len() > 0
    &&& forall|i: int| 0 <= i < n.len() ==> #[trigger] n[i] != 0
    &&& text::lowercase(text::lossy_utf8(n)).len() > 0
}

/// The path under which a file is listed: the folder and the file in lower case,
/// with forward slashes; the file alone where it is in the top folder or where
/// folder names are not stored.
pub open spec fn listed_path(folder: Seq<u8>, file: Seq<u8>, named: bool) -> Seq<char> {
    let d = text::lowercase(text::lossy_utf8(folder));
    let f = text::replaced(text::lowercase(text::lossy_utf8(file)), '\\', '/');
    if !named || d.len() == 0 || d == seq!['.'] {
        f
    } else {
        text::replaced(d, '\\', '/') + seq!['/'] + f
    }
}

/// Whether these bytes are an archive of these folders: the head tells the
/// version, whether folder names and file names are stored, how many folders
/// there are and how long the file names are in all; each folder record tells
/// the number of files; then come the folders and the file names. All other
/// bytes, and all other flags, may be anything.
pub open spec fn is_archive_of(b: Seq<u8>, folders: Seq<WrittenFolder>, named: bool) -> bool {
    let version = bytes::le32_at(b, 4);
    let record: int = if version == 105 {
        24
    } else {
        16
    };
    let start = 36 + folders.len() * record;
    &&& b.len() >= start + folder_blocks(folders, named).len() + name_block(folders).len()
    &&& b.take(4) == seq!['B' as u8, 'S' as u8, 'A' as u8, 0u8]
    &&& version == 104 || version == 105
    &&& bytes::le32_at(b, 12) % 2 == (if named {
        1int
    } else {
        0int
    })
    &&& bytes::le32_at(b, 12) / 2 % 2 == 1
    &&& bytes::le32_at(b, 16) == folders.len()
    &&& bytes::le32_at(b, 28) == name_block(folders).len()
    &&& forall|k: int|
        0 <= k < folders.len() ==> bytes::le32_at(b, 36 + k * record + 8) == (
        #[trigger] folders[k]).files.len()
    &&& (folder_blocks(folders, named) + name_block(folders)).is_prefix_of(b.skip(start))
}

/// The folders as they are read.
spec fn read_as(folders: Seq<WrittenFolder>, named: bool) -> Seq<(Seq<char>, nat)> {
    folders.map_values(
        |f: WrittenFolder|
            (
                if named {
                    text::replaced(text::lowercase(text::lossy_utf8(f.name)), '/', '\\')
                } else {
                    Seq::empty()
                },
                f.files.len(),
            ),
    )
}

proof fn lemma_blocks_first(folders: Seq<WrittenFolder>, named: bool)
    requires
        folders.len() > 0,
    ensures
        folder_blocks(folders, named) == folder_block(folders[0], named) + folder_blocks(
            folders.drop_first(),
            named,
        ),
        name_block(folders) == folders[0].files.map_values(|n: Seq<u8>| n.push(0u8)).flatten()
            + name_block(folders.drop_first()),
{
    let f = |f: WrittenFolder| folder_block(f, named);
    let g = |f: WrittenFolder| f.files.map_values(|n: Seq<u8>| n.push(0u8)).flatten();
    assert(folders.map_values(f).drop_first() =~= folders.drop_first().map_values(f));
    assert(folders.map_values(g).drop_first() =~= folders.drop_first().map_values(g));
}

proof fn lemma_folders_read(
    b: Seq<u8>,
    counts: Seq<nat>,
    pos: int,
    folders: Seq<WrittenFolder>,
    named: bool,
)
    requires
        0 <= pos <= b.len(),
        counts.len() == folders.len(),
        forall|k: int| 0 <= k < folders.len() ==> counts[k] == (#[trigger] folders[k]).files.len(),
        forall|k: int| 0 <= k < folders.len() ==> can_be_written(#[trigger] folders[k]),
        folder_blocks(folders, named).is_prefix_of(b.skip(pos)),
    ensures
        folders_from(b, counts, pos, named) == Some(
            (read_as(folders, named), pos + folder_blocks(folders, named).len()),
        ),
    decreases folders.len(),
{
    let blocks = folder_blocks(folders, named);
    let all = b.skip(pos);
    if folders.len() == 0 {
        assert(folders.map_values(|f: WrittenFolder| folder_block(f, named)).flatten().len() == 0);
        assert(read_as(folders, named) =~= Seq::<(Seq<char>, nat)>::empty());
    } else {
        let f = folders[0];
        let rest = folders.drop_first();
        let block = folder_block(f, named);
        let more = folder_blocks(rest, named);
        lemma_blocks_first(folders, named);
        assert(can_be_written(f));
        assert(blocks.len() <= all.len());
        assert(all.len() == b.len() - pos);
        assert(counts[0] == f.files.len());
        assert forall|k: int| 0 <= k < block.len() implies #[trigger] block[k] == b[pos + k] by {
            assert(blocks[k] == block[k]);
            assert(all[k] == b[pos + k]);
        }
        let end = pos + block.len();
        if named {
            let len = f.name.len() as int + 1;
            assert(block[0] == (f.name.len() + 1) as u8);
            assert(b[pos] == len);
            assert(block[len] == 0u8);
            assert(b[pos + len] == 0);
            assert(b.subrange(pos + 1, pos + len) =~= f.name) by {
                assert forall|k: int| 0 <= k < f.name.len() implies b.subrange(pos + 1, pos + len)[k]
                    == #[trigger] f.name[k] by {
                    assert(block[1 + k] == f.name[k]);
                    assert(block[1 + k] == b[pos + (1 + k)]);
                }
            }
            assert(folder_name_at(b, pos) == Some((text::lossy_utf8(f.name), pos + 1 + len)));
        }
        assert(b.skip(end) =~= all.skip(block.len() as int));
        assert(more.is_prefix_of(b.skip(end))) by {
            assert forall|k: int| 0 <= k < more.len() implies #[trigger] more[k] == b.skip(end)[k] by {
                assert(blocks[block.len() + k] == more[k]);
                assert(all[block.len() + k] == blocks[block.len() + k]);
            }
        }
        let rest_counts = counts.drop_first();
        assert forall|k: int| 0 <= k < rest.len() implies rest_counts[k] == (
        #[trigger] rest[k]).files.len() by {
            assert(rest[k] == folders[k + 1]);
        }
        assert forall|k: int| 0 <= k < rest.len() implies can_be_written(#[trigger] rest[k]) by {
            assert(rest[k] == folders[k + 1]);
        }
        lemma_folders_read(b, rest_counts, end, rest, named);
        assert(read_as(folders, named) =~= seq![read_as(folders, named)[0]] + read_as(rest, named));
    }
}

proof fn lemma_c_strings_first(n: Seq<u8>, rest: Seq<u8>)
    requires
        n.len() > 0,
        forall|i: int| 0 <= i < n.len() ==> #[trigger] n[i] != 0,
    ensures
        c_strings(n.push(0u8) + rest) == seq![text::lossy_utf8(n)] + c_strings(rest),
{
    let block = n.push(0u8) + rest;
    assert forall|j: int| 0 <= j < n.len() implies #[trigger] block[j] != 0 by {
        assert(block[j] == n[j]);
    }
    bytes::lemma_up_to_zero(block, n.len() as int);
    assert(block.take(n.len() as int) =~= n);
    assert(block.skip(n.len() as int + 1) =~= rest);
}

proof fn lemma_c_strings_of_names(names: Seq<Seq<u8>>, rest: Seq<u8>)
    requires
        forall|k: int| 0 <= k < names.len() ==> is_file_name(#[trigger] names[k]),
    ensures
        c_strings(names.map_values(|n: Seq<u8>| n.push(0u8)).flatten() + rest) == names.map_values(
            |n: Seq<u8>| text::lossy_utf8(n),
        ) + c_strings(rest),
    decreases names.len(),
{
    let f = |n: Seq<u8>| n.push(0u8);
    let g = |n: Seq<u8>| text::lossy_utf8(n);
    if names.len() == 0 {
        assert(names.map_values(f).flatten() + rest =~= rest);
        assert(names.map_values(g) + c_strings(rest) =~= c_strings(rest));
    } else {
        let t = names.drop_first();
        assert(names.map_values(f).drop_first() =~= t.map_values(f));
        assert forall|k: int| 0 <= k < t.len() implies is_file_name(#[trigger] t[k]) by {
            assert(t[k] == names[k + 1]);
        }
        lemma_c_strings_of_names(t, rest);
        let more = t.map_values(f).flatten() + rest;
        assert(is_file_name(names[0]));
        assert(names.map_values(f).flatten() + rest =~= names[0].push(0u8) + more);
        lemma_c_strings_first(names[0], more);
        assert(names.map_values(g) =~= seq![g(names[0])] + t.map_values(g));
        assert(seq![g(names[0])] + (t.map_values(g) + c_strings(rest)) =~= names.map_values(g)
            + c_strings(rest));
    }
}

proof fn lemma_paths_in_are(folder: Seq<char>, files: Seq<Seq<u8>>, name: Seq<u8>, named: bool)
    requires
        forall|k: int| 0 <= k < files.len() ==> is_file_name(#[trigger] files[k]),
        folder == (if named {
            text::replaced(text::lowercase(text::lossy_utf8(name)), '/', '\\')
        } else {
            Seq::empty()
        }),
    ensures
        paths_in(folder, files.map_values(|n: Seq<u8>| text::lossy_utf8(n))) == files.map_values(
            |n: Seq<u8>| listed_path(name, n, named),
        ),
    decreases files.len(),
{
    let g = |n: Seq<u8>| text::lossy_utf8(n);
    let h = |n: Seq<u8>| listed_path(name, n, named);
    if files.len() == 0 {
        assert(paths_in(folder, files.map_values(g)) =~= files.map_values(h));
    } else {
        let t = files.drop_last();
        assert forall|k: int| 0 <= k < t.len() implies is_file_name(#[trigger] t[k]) by {
            assert(t[k] == files[k]);
        }
        lemma_paths_in_are(folder, t, name, named);
        let last = files.last();
        assert(is_file_name(files[files.len() - 1]));
        assert(files.map_values(g).drop_last() =~= t.map_values(g));
        let d = text::lowercase(text::lossy_utf8(name));
        let f = text::lowercase(text::lossy_utf8(last));
        if named {
            assert(folder.len() == d.len());
            if d == seq!['.'] {
                assert(folder =~= seq!['.']);
            }
            if folder == seq!['.'] {
                assert(folder[0] == '.');
                assert(d =~= seq!['.']);
            }
        }
        assert(path_in(folder, f) =~= listed_path(name, last, named));
        assert(files.map_values(h) =~= t.map_values(h).push(h(last)));
    }
}

proof fn lemma_paths_of_are(folders: Seq<WrittenFolder>, named: bool)
    requires
        forall|k: int| 0 <= k < folders.len() ==> can_be_written(#[trigger] folders[k]),
    ensures
        paths_of(read_as(folders, named), c_strings(name_block(folders))) == folders.map_values(
            |f: WrittenFolder|
                f.files.map_values(|n: Seq<u8>| listed_path(f.name, n, named)),
        ).flatten(),
    decreases folders.len(),
{
    let h = |f: WrittenFolder| f.files.map_values(|n: Seq<u8>| listed_path(f.name, n, named));
    if folders.len() == 0 {
        assert(paths_of(read_as(folders, named), c_strings(name_block(folders)))
            =~= folders.map_values(h).flatten());
    } else {
        let f = folders[0];
        let rest = folders.drop_first();
        let g = |n: Seq<u8>| text::lossy_utf8(n);
        assert(can_be_written(f));
        lemma_blocks_first(folders, named);
        assert forall|k: int| 0 <= k < rest.len() implies can_be_written(#[trigger] rest[k]) by {
            assert(rest[k] == folders[k + 1]);
        }
        lemma_c_strings_of_names(f.files, name_block(rest));
        lemma_paths_of_are(rest, named);
        let names = c_strings(name_block(folders));
        let mine = f.files.map_values(g);
        assert(names == mine + c_strings(name_block(rest)));
        assert(names.take(mine.len() as int) =~= mine);
        assert(names.skip(mine.len() as int) =~= c_strings(name_block(rest)));
        assert(read_as(folders, named).drop_first() =~= read_as(rest, named));
        lemma_paths_in_are(read_as(folders, named)[0].0, f.files, f.name, named);
        assert(folders.map_values(h).drop_first() =~= rest.map_values(h));
    }
}

/// An archive with file names lists exactly the files that were written into it,
/// folder by folder and in order, each as `folder/file`: whatever the other
/// flags, as that of a compressed archive, and whatever all other bytes are.
pub proof fn lemma_archive_lists_what_was_written(
    b: Seq<u8>,
    folders: Seq<WrittenFolder>,
    named: bool,
)
    requires
        is_archive_of(b, folders, named),
        forall|k: int| 0 <= k < folders.len() ==> can_be_written(#[trigger] folders[k]),
    ensures
        listing(b) == Ok::<Seq<Seq<char>>, BsaError>(
            folders.map_values(
                |f: WrittenFolder|
                    f.files.map_values(|n: Seq<u8>| listed_path(f.name, n, named)),
            ).flatten(),
        ),
{
    let version = bytes::le32_at(b, 4);
    let record = record_len(version);
    let n = folders.len() as int;
    let start = 36 + n * record;
    assert(n * record >= 0) by (nonlinear_arith)
        requires
            n >= 0,
            record == 16 || record == 24,
    ;
    let t = b.take(4);
    assert(t[0] == b[0] && t[1] == b[1] && t[2] == b[2] && t[3] == b[3]);
    let counts = folder_counts(b, record, n);
    assert forall|k: int| 0 <= k < n implies counts[k] == (#[trigger] folders[k]).files.len() by {}
    let blocks = folder_blocks(folders, named);
    let names = name_block(folders);
    let both = blocks + names;
    let tail = b.skip(start);
    assert(blocks.is_prefix_of(tail)) by {
        assert forall|k: int| 0 <= k < blocks.len() implies #[trigger] blocks[k] == tail[k] by {
            assert(both[k] == blocks[k]);
        }
    }
    lemma_folders_read(b, counts, start, folders, named);
    let pos = start + blocks.len();
    assert(b.subrange(pos, pos + names.len()) =~= names) by {
        assert forall|k: int| 0 <= k < names.len() implies b.subrange(pos, pos + names.len())[k]
            == #[trigger] names[k] by {
            assert(both[blocks.len() + k] == names[k]);
            assert(tail[blocks.len() + k] == b[pos + k]);
        }
    }
    lemma_paths_of_are(folders, named);
}

proof fn lemma_folders_alike(b: Seq<u8>, c: Seq<u8>, counts: Seq<nat>, pos: int, named: bool)
    requires
        36 <= b.len() == c.len(),
        36 <= pos,
        forall|i: int| 36 <= i < b.len() ==> #[trigger] b[i] == c[i],
    ensures
        folders_from(b, counts, pos, named) == folders_from(c, counts, pos, named),
        match folders_from(b, counts, pos, named) {
            Some((_, end)) => 36 <= end,
            None => true,
        },
    decreases counts.len(),
{
    if counts.len() > 0 {
        if pos + 1 <= b.len() {
            assert(b[pos] == c[pos]);
            let len = b[pos] as int;
            let end = pos + 1 + len;
            if len > 0 && end <= b.len() {
                assert(b[end - 1] == c[end - 1]);
                let stop = if b[end - 1] == 0 {
                    end - 1
                } else {
                    end
                };
                assert(b.subrange(pos + 1, stop) =~= c.subrange(pos + 1, stop));
            }
        }
        assert(folder_name_at(b, pos) == folder_name_at(c, pos));
        let end = match folder_name_at(b, pos) {
            Some((_, e)) => if named {
                e
            } else {
                pos
            },
            None => pos,
        };
        let next = at_most(end + 16 * counts[0], b.len());
        lemma_folders_alike(b, c, counts.drop_first(), next, named);
    }
}

/// What an archive lists rests on its flags only as far as they tell whether
/// folder names and file names are stored: two archives that differ in other
/// flags list the same. What stands in the bytes of the head that tell neither
/// version, flags, number of folders nor length of the file names makes no
/// difference at all.
pub proof fn lemma_other_flags_do_not_matter(b: Seq<u8>, c: Seq<u8>)
    requires
        b.len() == c.len(),
        b.len() >= 36,
        forall|i: int|
            0 <= i < b.len() && !(8 <= i < 16) && !(20 <= i < 28) && !(32 <= i < 36) ==> #[trigger] b[i]
                == c[i],
        bytes::le32_at(b, 12) % 4 == bytes::le32_at(c, 12) % 4,
    ensures
        listing(b) == listing(c),
{
    assert(b[0] == c[0] && b[1] == c[1] && b[2] == c[2] && b[3] == c[3]);
    assert(b[4] == c[4] && b[5] == c[5] && b[6] == c[6] && b[7] == c[7]);
    assert(b[16] == c[16] && b[17] == c[17] && b[18] == c[18] && b[19] == c[19]);
    assert(b[28] == c[28] && b[29] == c[29] && b[30] == c[30] && b[31] == c[31]);
    let x = bytes::le32_at(b, 12);
    let y = bytes::le32_at(c, 12);
    assert(x % 2 == y % 2 && (x / 2) % 2 == (y / 2) % 2);
    let version = bytes::le32_at(b, 4);
    let record = record_len(version);
    let n = bytes::le32_at(b, 16) as int;
    let start = 36 + n * record;
    assert(n * record >= 0) by (nonlinear_arith)
        requires
            n >= 0,
            record == 16 || record == 24,
    ;
    if start <= b.len() {
        let counts = folder_counts(b, record, n);
        assert forall|k: int| 0 <= k < n implies counts[k] == folder_counts(c, record, n)[k] by {
            let at = 36 + k * record + 8;
            assert(36 <= at && at + 4 <= start) by (nonlinear_arith)
                requires
                    0 <= k < n,
                    at == 36 + k * record + 8,
                    start == 36 + n * record,
                    record == 16 || record == 24,
            ;
            assert(b[at] == c[at] && b[at + 1] == c[at + 1] && b[at + 2] == c[at + 2] && b[at + 3]
                == c[at + 3]);
        }
        assert(counts =~= folder_counts(c, record, n));
        lemma_folders_alike(b, c, counts, start, x % 2 == 1);
        match folders_from(b, counts, start, x % 2 == 1) {
            Some((folders, pos)) => {
                let len = bytes::le32_at(b, 28);
                if pos + len <= b.len() {
                    assert(b.subrange(pos, pos + len) =~= c.subrange(pos, pos + len));
                }
            },
            None => {},
        }
    }
}

/// The archives of a mod are found entry by entry: what stands before and after
/// an entry makes no difference to it.
pub proof fn lemma_archives_of_each_entry(a: Seq<FolderEntry>, b: Seq<FolderEntry>)
    ensures
        archives_in(a + b) == archives_in(a) + archives_in(b),
    decreases b.len(),
{
    if b.len() == 0 {
        assert(a + b =~= a);
        assert(archives_in(a) + archives_in(b) =~= archives_in(a));
    } else {
        lemma_archives_of_each_entry(a, b.drop_last());
        assert((a + b).drop_last() =~= a + b.drop_last());
        assert(archives_in(a + b) =~= archives_in(a) + archives_in(b));
    }
}

/// A file whose name ends in `.bsa`, whatever the case, is an archive and is
/// shown with what it lists; one that could not be read or understood is shown
/// without files. A folder, or a file of another name, is none.
pub proof fn lemma_archive_of_an_entry(e: FolderEntry)
    ensures
        archives_in(seq![e]) == (if e.is_file && text::ends_in(text::lowercase(e.name@), ".bsa"@) {
            seq![
                (
                    e.name@,
                    BsaArchiveView {
                        name: e.name@,
                        path: e.path@,
                        files: if e.content is Some && listing(e.content->0@) is Ok {
                            listing(e.content->0@)->Ok_0
                        } else {
                            Seq::empty()
                        },
                    },
                ),
            ]
        } else {
            Seq::empty()
        }),
{
    let one = seq![e];
    assert(one.drop_last() =~= Seq::<FolderEntry>::empty());
    assert(archives_in(one.drop_last()) =~= Seq::<(Seq<char>, BsaArchiveView)>::empty());
    assert(one.last() == e);
    assert(archives_in(one) =~= archives_in(seq![e]));
    if e.is_file && is_bsa_name(e.name@) {
        assert(archives_in(one) =~= seq![
            (e.name@, BsaArchiveView { name: e.name@, path: e.path@, files: listed(e) }),
        ]);
    }
}

/// What the archives of all mods contribute is, mod by mod, archive by archive
/// and file by file, the file with its mod and its archive; nothing is left out.
pub proof fn lemma_every_archived_file_counts(
    mods: Seq<(Seq<char>, Seq<(Seq<char>, BsaArchiveView)>)>,
)
    ensures
        from_mods(mods) == mods.map_values(
            |m: (Seq<char>, Seq<(Seq<char>, BsaArchiveView)>)|
                m.1.map_values(
                    |a: (Seq<char>, BsaArchiveView)|
                        a.1.files.map_values(|f: Seq<char>| (f, (m.0, a.0))),
                ).flatten(),
        ).flatten(),
    decreases mods.len(),
{
    let h = |m: (Seq<char>, Seq<(Seq<char>, BsaArchiveView)>)|
        m.1.map_values(
            |a: (Seq<char>, BsaArchiveView)| a.1.files.map_values(|f: Seq<char>| (f, (m.0, a.0))),
        ).flatten();
    if mods.len() == 0 {
        assert(from_mods(mods) =~= mods.map_values(h).flatten());
    } else {
        let t = mods.drop_last();
        lemma_every_archived_file_counts(t);
        lemma_from_archives_is(mods.last().0, mods.last().1);
        assert(mods.map_values(h) =~= t.map_values(h).push(h(mods.last())));
        lists::lemma_flatten_push(t.map_values(h), h(mods.last()));
    }
}

proof fn lemma_from_archives_is(
    mod_id: Seq<char>,
    archives: Seq<(Seq<char>, BsaArchiveView)>,
)
    ensures
        from_archives(mod_id, archives) == archives.map_values(
            |a: (Seq<char>, BsaArchiveView)|
                a.1.files.map_values(|f: Seq<char>| (f, (mod_id, a.0))),
        ).flatten(),
    decreases archives.len(),
{
    let h = |a: (Seq<char>, BsaArchiveView)|
        a.1.files.map_values(|f: Seq<char>| (f, (mod_id, a.0)));
    if archives.len() == 0 {
        assert(from_archives(mod_id, archives) =~= archives.map_values(h).flatten());
    } else {
        let t = archives.drop_last();
        lemma_from_archives_is(mod_id, t);
        let last = archives.last();
        assert(from_archive(mod_id, last.0, last.1.files) =~= h(last));
        assert(archives.map_values(h) =~= t.map_values(h).push(h(last)));
        lists::lemma_flatten_push(t.map_values(h), h(last));
    }
}

/// A path that archives of two different mods hold is reported, with both of
/// them; and whatever is reported is held by archives of two different mods.
pub proof fn lemma_overlap_is_reported(
    all: Seq<Contributed>,
    report: Seq<(Seq<char>, Seq<(Seq<char>, Seq<char>)>)>,
    i: int,
    j: int,
) -> (k: int)
    requires
        is_overlap_report(all, report),
        0 <= i < all.len(),
        0 <= j < all.len(),
        all[i].0 == all[j].0,
        (all[i].1).0 != (all[j].1).0,
    ensures
        0 <= k < report.len(),
        report[k].0 == all[i].0,
        report[k].1.contains(all[i].1),
        report[k].1.contains(all[j].1),
{
    let path = all[i].0;
    let c = contributors(all, path);
    let pred = on_path(path);
    let f = all.filter(pred);
    all.lemma_filter_contains(pred, i);
    all.lemma_filter_contains(pred, j);
    let a = choose|a: int| 0 <= a < f.len() && f[a] == all[i];
    let b = choose|b: int| 0 <= b < f.len() && f[b] == all[j];
    assert(c[a] == all[i].1 && c[b] == all[j].1);
    assert(c[a].0 != c[b].0);
    assert(several_mods(contributors(all, path)));
    choose|k: int| 0 <= k < report.len() && (#[trigger] report[k]).0 == path
}

/// Whatever is reported is held by archives of two different mods, and is
/// reported with all that hold it, in their order; no path is reported twice.
pub proof fn lemma_only_overlaps_are_reported(
    all: Seq<Contributed>,
    report: Seq<(Seq<char>, Seq<(Seq<char>, Seq<char>)>)>,
    k: int,
)
    requires
        is_overlap_report(all, report),
        0 <= k < report.len(),
    ensures
        report[k].1 == all.filter(|e: Contributed| e.0 == report[k].0).map_values(
            |e: Contributed| e.1,
        ),
        exists|i: int, j: int|
            0 <= i < all.len() && 0 <= j < all.len() && (#[trigger] all[i]).0 == report[k].0 && (
            #[trigger] all[j]).0 == report[k].0 && (all[i].1).0 != (all[j].1).0,
        forall|m: int| 0 <= m < report.len() && m != k ==> (#[trigger] report[m]).0 != report[k].0,
{
    let path = report[k].0;
    let pred = on_path(path);
    let own = |e: Contributed| e.0 == path;
    lists::lemma_filter_alike(all, pred, own);
    let f = all.filter(pred);
    let c = report[k].1;
    assert(c == contributors(all, path));
    assert(c =~= all.filter(own).map_values(|e: Contributed| e.1));
    assert(several_mods(c));
    let (a, b) = choose|a: int, b: int|
        0 <= a < c.len() && 0 <= b < c.len() && (#[trigger] c[a]).0 != (#[trigger] c[b]).0;
    assert(f.contains(f[a]) && f.contains(f[b]));
    all.lemma_filter_contains_rev(pred, f[a]);
    all.lemma_filter_contains_rev(pred, f[b]);
    all.lemma_filter_pred(pred, a);
    all.lemma_filter_pred(pred, b);
    let i = choose|i: int| 0 <= i < all.len() && all[i] == f[a];
    let j = choose|j: int| 0 <= j < all.len() && all[j] == f[b];
    assert(all[i].0 == path && all[j].0 == path);
    assert forall|m: int| 0 <= m < report.len() && m != k implies (#[trigger] report[m]).0
        != path by {
        text::lemma_text_less_irreflexive(path);
        if m < k {
            assert(text::text_less(report[m].0, report[k].0));
        } else {
            assert(text::text_less(report[k].0, report[m].0));
        }
    }
}

} // verus!
