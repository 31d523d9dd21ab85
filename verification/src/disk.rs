//! What is known of the file system: a snapshot of some folders and of some
//! text files, on which detection works.

use crate::paths;
use crate::sorting;
use crate::text;
use vstd::prelude::*;

verus! {

/// An entry of a folder.
#[derive(Debug, Clone)]
pub struct DirItem {
    pub name: String,
    /// Whether it is a folder, or a link to one.
    pub is_dir: bool,
    /// Whether it is a file, or a link to one.
    pub is_file: bool,
    /// Whether it is a folder itself.
    pub real_dir: bool,
    /// Whether it is a file itself.
    pub real_file: bool,
}

/// A folder.
#[derive(Debug, Clone)]
pub struct Folder {
    pub path: String,
    /// The path with all links resolved.
    pub canonical: String,
    /// Whether the path names the folder itself, and not a link to it.
    pub real_dir: bool,
    /// When it was last modified, in seconds since the Unix epoch.
    pub modified: Option<u64>,
    /// The entries, in the order in which the system lists them.
    pub items: Vec<DirItem>,
}

/// The mathematical content of a [`DirItem`].
pub struct DirItemView {
    pub name: Seq<char>,
    pub is_dir: bool,
    pub is_file: bool,
    pub real_dir: bool,
    pub real_file: bool,
}

/// The mathematical content of a [`Folder`].
pub struct FolderView {
    pub path: Seq<char>,
    pub canonical: Seq<char>,
    pub real_dir: bool,
    pub modified: Option<u64>,
    pub items: Seq<DirItemView>,
}

impl DeepView for DirItem {
    type V = DirItemView;

    open spec fn deep_view(&self) -> DirItemView {
        DirItemView {
            name: self.name@,
            is_dir: self.is_dir,
            is_file: self.is_file,
            real_dir: self.real_dir,
            real_file: self.real_file,
        }
    }
}

impl DeepView for Folder {
    type V = FolderView;

    open spec fn deep_view(&self) -> FolderView {
        FolderView {
            path: self.path@,
            canonical: self.canonical@,
            real_dir: self.real_dir,
            modified: self.modified,
            items: self.items.deep_view(),
        }
    }
}

/// A snapshot of folders and text files.
pub struct Disk {
    folders: Vec<Folder>,
    texts: Vec<(String, String)>,
}

/// The mathematical content of a [`Disk`]: folders and texts by path.
pub struct DiskView {
    pub folders: Map<Seq<char>, FolderView>,
    pub texts: Map<Seq<char>, Seq<char>>,
}

/// Folders by path; of two with one path the later counts.
pub open spec fn folder_table(folders: Seq<FolderView>) -> Map<Seq<char>, FolderView>
    decreases folders.len(),
{
    if folders.len() == 0 {
        Map::empty()
    } else {
        folder_table(folders.drop_last()).insert(folders.last().path, folders.last())
    }
}

/// Texts by path; of two with one path the later counts.
pub open spec fn text_table(texts: Seq<(Seq<char>, Seq<char>)>) -> Map<Seq<char>, Seq<char>>
    decreases texts.len(),
{
    if texts.len() == 0 {
        Map::empty()
    } else {
        text_table(texts.drop_last()).insert(texts.last().0, texts.last().1)
    }
}

/// Whether the folder at `i` is the last with its path.
spec fn is_last(folders: Seq<FolderView>, i: int) -> bool {
    forall|j: int| i < j < folders.len() ==> (#[trigger] folders[j]).path != folders[i].path
}

proof fn lemma_table_has(folders: Seq<FolderView>, i: int)
    requires
        0 <= i < folders.len(),
        is_last(folders, i),
    ensures
        folder_table(folders).contains_key(folders[i].path),
        folder_table(folders)[folders[i].path] == folders[i],
    decreases folders.len(),
{
    if i < folders.len() - 1 {
        let t = folders.drop_last();
        assert(folders[folders.len() - 1].path != folders[i].path);
        assert(is_last(t, i)) by {
            assert forall|j: int| i < j < t.len() implies (#[trigger] t[j]).path != t[i].path by {
                assert(t[j] == folders[j]);
            }
        }
        lemma_table_has(t, i);
    }
}

proof fn lemma_table_lacks(folders: Seq<FolderView>, path: Seq<char>)
    requires
        forall|j: int| 0 <= j < folders.len() ==> (#[trigger] folders[j]).path != path,
    ensures
        !folder_table(folders).contains_key(path),
    decreases folders.len(),
{
    if folders.len() > 0 {
        let t = folders.drop_last();
        assert forall|j: int| 0 <= j < t.len() implies (#[trigger] t[j]).path != path by {
            assert(t[j] == folders[j]);
        }
        assert(folders[folders.len() - 1].path != path);
        lemma_table_lacks(t, path);
    }
}

/// Whether the folders stand in the order of their paths, each path once.
spec fn by_path(folders: Seq<FolderView>) -> bool {
    forall|a: int, b: int|
        0 <= a < b < folders.len() ==> text::text_less(
            (#[trigger] folders[a]).path,
            (#[trigger] folders[b]).path,
        )
}

proof fn lemma_by_path_last(folders: Seq<FolderView>, i: int)
    requires
        by_path(folders),
        0 <= i < folders.len(),
    ensures
        is_last(folders, i),
{
    assert forall|j: int| i < j < folders.len() implies (#[trigger] folders[j]).path
        != folders[i].path by {
        assert(text::text_less(folders[i].path, folders[j].path));
        text::lemma_text_less_irreflexive(folders[i].path);
    }
}

impl Disk {
    #[verifier::type_invariant]
    spec fn sorted(&self) -> bool {
        by_path(self.folders.deep_view())
    }

    pub closed spec fn view(&self) -> DiskView {
        DiskView {
            folders: folder_table(self.folders.deep_view()),
            texts: text_table(self.texts.deep_view()),
        }
    }

    /// A snapshot of these folders and texts.
    pub fn new(folders: Vec<Folder>, texts: Vec<(String, String)>) -> (r: Self)
        ensures
            r@.folders == folder_table(folders.deep_view()),
            r@.texts == text_table(texts.deep_view()),
    {
        let keys = paths_of(&folders);
        let groups = sorting::group_places(&keys);
        let ghost fv = folders.deep_view();
        let ghost kv = keys.deep_view();
        let ghost gv = groups.deep_view();
        let count: usize = folders.len();
        let mut out: Vec<Folder> = Vec::new();
        let mut g: usize = 0;
        while g < groups.len()
            invariant
                g <= groups@.len(),
                fv == folders.deep_view(),
                gv == groups.deep_view(),
                kv.len() == fv.len(),
                forall|i: int| 0 <= i < fv.len() ==> (#[trigger] fv[i]).path == kv[i],
                sorting::is_grouping(kv, gv),
                out@.len() == g,
                forall|k: int|
                    0 <= k < g ==> #[trigger] out.deep_view()[k] == fv[gv[k].last() as int],
            decreases groups.len() - g,
        {
            let ghost before = out.deep_view();
            assert(gv[g as int] =~= groups@[g as int]@);
            assert(sorting::is_group(kv, gv[g as int]));
            let last: usize = groups[g].len() - 1;
            let place: usize = groups[g][last];
            assert(gv[g as int][last as int] < kv.len());
            out.push(copy_folder(&folders[place]));
            assert(out.deep_view() =~= before.push(fv[place as int]));
            g += 1;
        }
        let ghost ov = out.deep_view();
        proof {
            assert(fv.len() == count);
            assert forall|k: int| 0 <= k < ov.len() implies (#[trigger] ov[k]).path
                == sorting::key_of(kv, gv[k]) && ov[k] == fv[gv[k].last() as int] by {
                let group = gv[k];
                assert(sorting::is_group(kv, group));
                assert(group[group.len() - 1] < kv.len());
                assert(kv[group[group.len() - 1] as int] == kv[group[0] as int]);
            }
            assert(by_path(ov)) by {
                assert forall|a: int, b: int| 0 <= a < b < ov.len() implies text::text_less(
                    (#[trigger] ov[a]).path,
                    (#[trigger] ov[b]).path,
                ) by {
                    assert(text::text_less(
                        sorting::key_of(kv, gv[a]),
                        sorting::key_of(kv, gv[b]),
                    ));
                }
            }
            assert forall|p: Seq<char>|
                #![trigger folder_table(ov).dom().contains(p)]
                #![trigger folder_table(fv).dom().contains(p)]
                #![trigger folder_table(ov)[p]]
                folder_table(ov).dom().contains(p) == folder_table(fv).dom().contains(p) && (
                folder_table(ov).dom().contains(p) ==> folder_table(ov)[p] == folder_table(fv)[p]) by {
                if exists|k: int| 0 <= k < ov.len() && (#[trigger] ov[k]).path == p {
                    let k = choose|k: int| 0 <= k < ov.len() && (#[trigger] ov[k]).path == p;
                    lemma_by_path_last(ov, k);
                    lemma_table_has(ov, k);
                    let i = gv[k].last() as int;
                    assert(ov[k] == fv[i]);
                    assert(is_last(fv, i)) by {
                        assert forall|j: int| i < j < fv.len() implies (#[trigger] fv[j]).path
                            != fv[i].path by {
                            if fv[j].path == fv[i].path {
                                sorting::lemma_group_complete(kv, gv, k, j as usize);
                                let group = gv[k];
                                assert(sorting::is_group(kv, group));
                                let m = choose|m: int|
                                    0 <= m < group.len() && group[m] == j as usize;
                                if m < group.len() - 1 {
                                    assert(group[m] < group[group.len() - 1]);
                                }
                            }
                        }
                    }
                    assert(sorting::is_group(kv, gv[k]));
                    assert(gv[k][gv[k].len() - 1] < kv.len());
                    lemma_table_has(fv, i);
                } else {
                    lemma_table_lacks(ov, p);
                    assert forall|j: int| 0 <= j < fv.len() implies (#[trigger] fv[j]).path != p by {
                        if fv[j].path == p {
                            let h = sorting::lemma_key_grouped(kv, gv, j as usize);
                            assert(ov[h].path == p);
                        }
                    }
                    lemma_table_lacks(fv, p);
                }
            }
            assert(folder_table(ov) =~= folder_table(fv));
        }
        Disk { folders: out, texts }
    }

    /// The folder at this path.
    pub fn folder(&self, path: &str) -> (r: Option<&Folder>)
        ensures
            match r {
                Some(f) => self@.folders.contains_key(path@) && self@.folders[path@]
                    == f.deep_view() && f.path@ == path@,
                None => !self@.folders.contains_key(path@),
            },
    {
        proof {
            use_type_invariant(self);
        }
        let ghost fv = self.folders.deep_view();
        let mut lo: usize = 0;
        let mut hi: usize = self.folders.len();
        while lo < hi
            invariant
                lo <= hi <= self.folders@.len(),
                fv == self.folders.deep_view(),
                by_path(fv),
                forall|j: int| 0 <= j < lo ==> text::text_less((#[trigger] fv[j]).path, path@),
                forall|j: int| hi <= j < fv.len() ==> text::text_less(path@, (#[trigger] fv[j]).path),
            decreases hi - lo,
        {
            let mid: usize = lo + (hi - lo) / 2;
            let f = &self.folders[mid];
            if text::same_text(f.path.as_str(), path) {
                proof {
                    lemma_by_path_last(fv, mid as int);
                    lemma_table_has(fv, mid as int);
                }
                return Some(f);
            }
            if text::less(f.path.as_str(), path) {
                assert forall|j: int| 0 <= j < mid + 1 implies text::text_less(
                    (#[trigger] fv[j]).path,
                    path@,
                ) by {
                    if j < mid {
                        assert(text::text_less(fv[j].path, fv[mid as int].path));
                        text::lemma_text_less_transitive(fv[j].path, fv[mid as int].path, path@);
                    }
                }
                lo = mid + 1;
            } else {
                assert forall|j: int| mid <= j < fv.len() implies text::text_less(
                    path@,
                    (#[trigger] fv[j]).path,
                ) by {
                    text::lemma_text_less_total(path@, fv[mid as int].path);
                    if j > mid {
                        assert(text::text_less(fv[mid as int].path, fv[j].path));
                        text::lemma_text_less_transitive(path@, fv[mid as int].path, fv[j].path);
                    }
                }
                hi = mid;
            }
        }
        proof {
            assert forall|j: int| 0 <= j < fv.len() implies (#[trigger] fv[j]).path != path@ by {
                text::lemma_text_less_irreflexive(path@);
            }
            lemma_table_lacks(fv, path@);
        }
        None
    }

    /// The text of the file at this path.
    pub fn read_text(&self, path: &str) -> (r: Option<&String>)
        ensures
            match r {
                Some(t) => self@.texts.contains_key(path@) && self@.texts[path@] == t@,
                None => !self@.texts.contains_key(path@),
            },
    {
        let ghost tv = self.texts.deep_view();
        let mut i: usize = self.texts.len();
        assert(tv.take(i as int) =~= tv);
        while i > 0
            invariant
                i <= self.texts@.len(),
                tv == self.texts.deep_view(),
                text_table(tv).contains_key(path@) == text_table(tv.take(i as int)).contains_key(
                    path@,
                ),
                text_table(tv)[path@] == text_table(tv.take(i as int))[path@],
            decreases i,
        {
            i -= 1;
            assert(tv.take(i + 1).drop_last() =~= tv.take(i as int));
            assert(tv.take(i + 1).last() == self.texts@[i as int].deep_view());
            if text::same_text(self.texts[i].0.as_str(), path) {
                return Some(&self.texts[i].1);
            }
        }
        None
    }

    pub fn is_dir(&self, path: &str) -> (r: bool)
        ensures
            r == self@.is_dir(path@),
    {
        self.folder(path).is_some()
    }

    /// Whether there is a folder at this path that is no link.
    pub fn is_real_dir(&self, path: &str) -> (r: bool)
        ensures
            r == self@.is_real_dir(path@),
    {
        match self.folder(path) {
            Some(f) => f.real_dir,
            None => false,
        }
    }

    pub fn canonical(&self, path: &str) -> (r: String)
        ensures
            r@ == self@.canonical(path@),
    {
        match self.folder(path) {
            Some(f) => f.canonical.clone(),
            None => path.to_owned(),
        }
    }

    /// When the folder at this path was last modified.
    pub fn modified(&self, path: &str) -> (r: Option<u64>)
        ensures
            r == self@.modified(path@),
    {
        match self.folder(path) {
            Some(f) => f.modified,
            None => None,
        }
    }

    /// Whether a folder has a file of this name.
    pub fn has_file(&self, dir: &str, name: &str) -> (r: bool)
        ensures
            r == self@.has_file(dir@, name@),
    {
        match self.folder(dir) {
            Some(f) => {
                let ghost items = f.items.deep_view();
                let mut i: usize = 0;
                while i < f.items.len()
                    invariant
                        i <= f.items@.len(),
                        items == f.items.deep_view(),
                        items == self@.items(dir@),
                        forall|k: int|
                            0 <= k < i ==> !((#[trigger] items[k]).is_file && items[k].name == name@),
                    decreases f.items.len() - i,
                {
                    if f.items[i].is_file && text::same_text(f.items[i].name.as_str(), name) {
                        assert(items[i as int].is_file && items[i as int].name == name@);
                        return true;
                    }
                    i += 1;
                }
                false
            },
            None => false,
        }
    }
}

impl DiskView {
    /// Whether there is a folder at this path.
    pub open spec fn is_dir(self, path: Seq<char>) -> bool {
        self.folders.contains_key(path)
    }

    /// Whether there is a folder at this path that is no link.
    pub open spec fn is_real_dir(self, path: Seq<char>) -> bool {
        self.is_dir(path) && self.folders[path].real_dir
    }

    /// The entries of the folder at this path; none where there is no folder.
    pub open spec fn items(self, path: Seq<char>) -> Seq<DirItemView> {
        if self.is_dir(path) {
            self.folders[path].items
        } else {
            Seq::empty()
        }
    }

    /// The path with all links resolved, where that is known.
    pub open spec fn canonical(self, path: Seq<char>) -> Seq<char> {
        if self.is_dir(path) {
            self.folders[path].canonical
        } else {
            path
        }
    }

    /// When the folder at this path was last modified, where that is known.
    pub open spec fn modified(self, path: Seq<char>) -> Option<u64> {
        if self.is_dir(path) {
            self.folders[path].modified
        } else {
            None
        }
    }

    /// Whether a folder has a file of this name.
    pub open spec fn has_file(self, dir: Seq<char>, name: Seq<char>) -> bool {
        exists|k: int|
            0 <= k < self.items(dir).len() && (#[trigger] self.items(dir)[k]).is_file && self.items(
                dir,
            )[k].name == name
    }
}

fn paths_of(folders: &Vec<Folder>) -> (r: Vec<String>)
    ensures
        r@.len() == folders@.len(),
        forall|i: int|
            0 <= i < folders@.len() ==> (#[trigger] folders.deep_view()[i]).path == r.deep_view()[i],
{
    let mut out: Vec<String> = Vec::new();
    let mut i: usize = 0;
    while i < folders.len()
        invariant
            i <= folders@.len(),
            out@.len() == i,
            forall|k: int|
                0 <= k < i ==> (#[trigger] folders.deep_view()[k]).path == out.deep_view()[k],
        decreases folders.len() - i,
    {
        let ghost before = out.deep_view();
        out.push(folders[i].path.clone());
        assert(out.deep_view() =~= before.push(folders@[i as int].path@));
        i += 1;
    }
    out
}

fn copy_folder(f: &Folder) -> (r: Folder)
    ensures
        r.deep_view() == f.deep_view(),
{
    let ghost goal = f.items.deep_view();
    let mut items: Vec<DirItem> = Vec::new();
    let mut i: usize = 0;
    while i < f.items.len()
        invariant
            i <= f.items@.len(),
            goal == f.items.deep_view(),
            items.deep_view() == goal.take(i as int),
        decreases f.items.len() - i,
    {
        let ghost before = items.deep_view();
        let it = &f.items[i];
        items.push(
            DirItem {
                name: it.name.clone(),
                is_dir: it.is_dir,
                is_file: it.is_file,
                real_dir: it.real_dir,
                real_file: it.real_file,
            },
        );
        i += 1;
        assert(items.deep_view() =~= before.push(goal[i - 1]));
        assert(items.deep_view() =~= goal.take(i as int));
    }
    assert(items.deep_view() =~= goal);
    Folder {
        path: f.path.clone(),
        canonical: f.canonical.clone(),
        real_dir: f.real_dir,
        modified: f.modified,
        items,
    }
}

/// The folder that is known at a path is the last that was given for it, and a
/// path for which none was given has none.
pub proof fn lemma_folder_at_a_path(folders: Seq<FolderView>, path: Seq<char>, i: int)
    requires
        -1 <= i < folders.len(),
        i >= 0 ==> folders[i].path == path,
        forall|j: int| i < j < folders.len() ==> (#[trigger] folders[j]).path != path,
    ensures
        i >= 0 ==> folder_table(folders).contains_key(path) && folder_table(folders)[path]
            == folders[i],
        i < 0 ==> !folder_table(folders).contains_key(path),
{
    if i >= 0 {
        lemma_table_has(folders, i);
    } else {
        lemma_table_lacks(folders, path);
    }
}

/// So is the text that is known at a path.
pub proof fn lemma_text_at_a_path(texts: Seq<(Seq<char>, Seq<char>)>, path: Seq<char>, i: int)
    requires
        -1 <= i < texts.len(),
        i >= 0 ==> texts[i].0 == path,
        forall|j: int| i < j < texts.len() ==> (#[trigger] texts[j]).0 != path,
    ensures
        i >= 0 ==> text_table(texts).contains_key(path) && text_table(texts)[path] == texts[i].1,
        i < 0 ==> !text_table(texts).contains_key(path),
    decreases texts.len(),
{
    if texts.len() > 0 {
        let t = texts.drop_last();
        let n = t.len() as int;
        assert(texts[n] == texts.last());
        if i < n {
            assert forall|j: int| i < j < t.len() implies (#[trigger] t[j]).0 != path by {
                assert(t[j] == texts[j]);
            }
            if i >= 0 {
                assert(t[i] == texts[i]);
            }
            lemma_text_at_a_path(t, path, i);
        }
    }
}

} // verus!
