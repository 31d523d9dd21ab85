//! The global store of installed mods, which all profiles share.

use crate::config::{LoadOutcome, Stored};
use crate::lists;
use crate::paths;
use crate::sorting;
use crate::sorting::Ranked;
use crate::text;
use vstd::prelude::*;

verus! {

/// One mod in the store.
#[derive(Debug, Clone)]
pub struct ModEntry {
    pub id: String,
    pub name: String,
    pub version: Option<String>,
    /// Seconds since the Unix epoch.
    pub installed_at: u64,
    /// The folder whose content is mirrored into the game's `Data` folder.
    pub content_dir: String,
    /// Whether wrapper folders around the content have been removed.
    pub root_normalized: bool,
    /// Free labels for organising the store.
    pub tags: Vec<String>,
}

/// The mathematical content of a [`ModEntry`].
pub struct ModEntryView {
    pub id: Seq<char>,
    pub name: Seq<char>,
    pub version: Option<Seq<char>>,
    pub installed_at: u64,
    pub content_dir: Seq<char>,
    pub root_normalized: bool,
    pub tags: Seq<Seq<char>>,
}

impl DeepView for ModEntry {
    type V = ModEntryView;

    open spec fn deep_view(&self) -> ModEntryView {
        ModEntryView {
            id: self.id@,
            name: self.name@,
            version: self.version.deep_view(),
            installed_at: self.installed_at,
            content_dir: self.content_dir@,
            root_normalized: self.root_normalized,
            tags: self.tags.deep_view(),
        }
    }
}

/// All installed mods.
#[derive(Debug)]
pub struct ModStore {
    pub mods: Vec<ModEntry>,
}

/// The mods of a store are its content.
impl DeepView for ModStore {
    type V = Seq<ModEntryView>;

    open spec fn deep_view(&self) -> Seq<ModEntryView> {
        self.mods.deep_view()
    }
}

/// The file that a store is kept in.
pub const MANIFEST_FILE: &'static str = "store.json";

/// Why the store did not do what it was asked to.
#[derive(Debug, Clone, Copy, PartialEq, Eq, Structural)]
pub enum StoreError {
    /// What was to be installed does not exist.
    SourceMissing,
    /// What was to be installed could not be unpacked or copied.
    ExtractFailed,
    /// RAR archives are not supported.
    RarUnsupported,
    /// No mod has this id.
    NoSuchMod,
    /// The folder to be registered does not exist.
    ContentMissing,
}

/// Why an install from a source failed, in words.
pub open spec fn install_failure(e: StoreError, source: Seq<char>) -> Seq<char> {
    match e {
        StoreError::SourceMissing => "source path does not exist: "@ + source
            + "\nHint: check the path for typos, or pass a folder/.zip/.7z/.tar.gz/loose file."@,
        StoreError::ExtractFailed => "installing from "@ + source,
        StoreError::RarUnsupported => {
            ".rar is not supported. Re-pack as .zip/.7z or extract to a folder first."@
        },
        StoreError::NoSuchMod => "no such mod id"@,
        StoreError::ContentMissing => "content directory does not exist: "@ + source,
    }
}

/// Why an update from a source failed, in words.
pub open spec fn update_failure(e: StoreError, id: Seq<char>, source: Seq<char>) -> Seq<char> {
    match e {
        StoreError::NoSuchMod => "no such mod id '"@ + id + "' — try list-mods"@,
        StoreError::SourceMissing => "update source does not exist: "@ + source,
        StoreError::ExtractFailed => "updating mod "@ + id + " from "@ + source,
        _ => install_failure(e, source),
    }
}

impl StoreError {
    /// Why an install from a source failed, in words.
    pub fn message(self, source: &str) -> (r: String)
        ensures
            r@ == install_failure(self, source@),
    {
        match self {
            StoreError::SourceMissing => text::concat3(
                "source path does not exist: ",
                source,
                "\nHint: check the path for typos, or pass a folder/.zip/.7z/.tar.gz/loose file.",
            ),
            StoreError::ExtractFailed => text::concat("installing from ", source),
            StoreError::RarUnsupported => {
                ".rar is not supported. Re-pack as .zip/.7z or extract to a folder first.".to_owned()
            },
            StoreError::NoSuchMod => "no such mod id".to_owned(),
            StoreError::ContentMissing => text::concat("content directory does not exist: ", source),
        }
    }

    /// Why an update from a source failed, in words.
    pub fn update_message(self, id: &str, source: &str) -> (r: String)
        ensures
            r@ == update_failure(self, id@, source@),
    {
        match self {
            StoreError::NoSuchMod => text::concat3("no such mod id '", id, "' — try list-mods"),
            StoreError::SourceMissing => text::concat("update source does not exist: ", source),
            StoreError::ExtractFailed => text::concat(
                text::concat3("updating mod ", id, " from ").as_str(),
                source,
            ),
            other => other.message(source),
        }
    }
}

/// How unpacking or copying a source into the store went.
#[derive(Debug, Clone, Copy, PartialEq, Eq, Structural)]
pub enum Extraction {
    SourceMissing,
    Failed,
    Done,
}

/// Where the first mod with this id stands, or the number of mods.
pub open spec fn mod_at(mods: Seq<ModEntryView>, id: Seq<char>) -> int
    decreases mods.len(),
{
    if mods.len() == 0 || mods[0].id == id {
        0
    } else {
        1 + mod_at(mods.drop_first(), id)
    }
}

pub proof fn lemma_mod_at(mods: Seq<ModEntryView>, id: Seq<char>, i: int)
    requires
        0 <= i <= mods.len(),
        forall|j: int| 0 <= j < i ==> (#[trigger] mods[j]).id != id,
        i < mods.len() ==> mods[i].id == id,
    ensures
        mod_at(mods, id) == i,
    decreases mods.len(),
{
    if mods.len() > 0 && mods[0].id != id {
        let t = mods.drop_first();
        assert(i > 0);
        assert forall|j: int| 0 <= j < i - 1 implies (#[trigger] t[j]).id != id by {
            assert(t[j] == mods[j + 1]);
        }
        lemma_mod_at(t, id, i - 1);
    } else if mods.len() > 0 && i > 0 {
        assert(mods[0].id != id);
    }
}

pub proof fn lemma_mod_at_is(mods: Seq<ModEntryView>, id: Seq<char>)
    ensures
        0 <= mod_at(mods, id) <= mods.len(),
        mod_at(mods, id) < mods.len() ==> mods[mod_at(mods, id)].id == id,
        forall|j: int| 0 <= j < mod_at(mods, id) ==> (#[trigger] mods[j]).id != id,
    decreases mods.len(),
{
    if mods.len() > 0 && mods[0].id != id {
        let t = mods.drop_first();
        lemma_mod_at_is(t, id);
        assert forall|j: int| 0 <= j < mod_at(mods, id) implies (#[trigger] mods[j]).id != id by {
            if j > 0 {
                assert(t[j - 1] == mods[j]);
            }
        }
    }
}

/// Whether there is a mod with this id, without this tag.
pub open spec fn lacks_tag(mods: Seq<ModEntryView>, id: Seq<char>, tag: Seq<char>) -> bool {
    let i = mod_at(mods, id);
    i < mods.len() && !mods[i].tags.contains(tag)
}

/// The mods with the tag at the end of those of the mod with this id, unless it
/// is there or there is no such mod.
pub open spec fn with_tag(mods: Seq<ModEntryView>, id: Seq<char>, tag: Seq<char>) -> Seq<
    ModEntryView,
> {
    let i = mod_at(mods, id);
    if lacks_tag(mods, id, tag) {
        mods.update(i, (ModEntryView { tags: mods[i].tags.push(tag), ..mods[i] }))
    } else {
        mods
    }
}

/// The tags of all mods, in order.
pub open spec fn tags_of(mods: Seq<ModEntryView>) -> Seq<Seq<char>>
    decreases mods.len(),
{
    if mods.len() == 0 {
        Seq::empty()
    } else {
        tags_of(mods.drop_last()) + mods.last().tags
    }
}

/// Whether `list` has each entry of `all` once, in the order of strings, and
/// nothing else.
pub open spec fn is_sorted_set(all: Seq<Seq<char>>, list: Seq<Seq<char>>) -> bool {
    &&& forall|a: int, b: int|
        0 <= a < b < list.len() ==> text::text_less(#[trigger] list[a], #[trigger] list[b])
    &&& forall|x: Seq<char>| #[trigger] list.contains(x) <==> all.contains(x)
}

/// The condition to carry a tag.
pub open spec fn carries(tag: Seq<char>) -> spec_fn(ModEntryView) -> bool {
    |m: ModEntryView| m.tags.contains(tag)
}

/// The name that a source without a given name is installed under: that of its
/// file or folder without extension, or the id where it has none.
pub open spec fn default_name(source: Seq<char>, id: Seq<char>) -> Seq<char> {
    match paths::file_name(source) {
        Some(n) => paths::stem_of(n),
        None => id,
    }
}

/// The entry of a freshly installed mod.
pub open spec fn fresh_entry(
    id: Seq<char>,
    name: Seq<char>,
    content_dir: Seq<char>,
    now: u64,
) -> ModEntryView {
    ModEntryView {
        id,
        name,
        version: None,
        installed_at: now,
        content_dir,
        root_normalized: true,
        tags: Seq::empty(),
    }
}

/// Whether a text has the usual form of an identifier: 36 characters, of which
/// those at places 8, 13, 18 and 23 are hyphens and all others lower-case
/// hexadecimal digits, with the version at place 14 and the variant at place 19.
pub open spec fn is_id(s: Seq<char>) -> bool {
    &&& s.len() == 36
    &&& forall|i: int|
        0 <= i < s.len() ==> if i == 8 || i == 13 || i == 18 || i == 23 {
            #[trigger] s[i] == '-'
        } else {
            '0' <= s[i] <= '9' || 'a' <= s[i] <= 'f'
        }
    &&& s[14] == '4'
    &&& s[19] == '8' || s[19] == '9' || s[19] == 'a' || s[19] == 'b'
}

/// Wraps `uuid::Uuid::new_v4` and its `to_string`: a random identifier in the
/// usual hyphenated form. Which one it is rests on chance and is not said.
#[verifier::external_body]
fn fresh_id() -> (r: String)
    ensures
        is_id(r@),
{
    uuid::Uuid::new_v4().to_string()
}

/// The folder of a fresh id is one step below the folder of all mods: the id
/// holds no slash.
pub proof fn lemma_id_is_one_step(id: Seq<char>)
    requires
        is_id(id),
    ensures
        text::lacks(id, '/'),
        paths::file_name(id) == Some(id),
{
    assert(text::lacks(id, '/'));
    text::lemma_position(id, '/', id.len() as int);
    assert(text::pieces(id, '/') =~= seq![id]);
    assert(id[0] != '.');
    assert(id != seq!['.']);
    reveal(Seq::filter);
    reveal_with_fuel(Seq::filter, 3);
    let p = seq![id];
    assert(p.drop_last() =~= Seq::<Seq<char>>::empty());
    assert(p.filter(paths::is_step()) =~= p);
    assert(id != seq!['.', '.']);
}

impl ModStore {
    /// An empty store.
    pub fn new() -> (r: Self)
        ensures
            r.deep_view() == Seq::<ModEntryView>::empty(),
    {
        let r = ModStore { mods: Vec::new() };
        assert(r.deep_view() =~= Seq::<ModEntryView>::empty());
        r
    }

    /// What to go on with, given what was found where the store is kept: an
    /// empty store where nothing was, and where what was there does not parse,
    /// with the broken file set aside. Mod folders are never touched.
    pub fn load_with_repair(found: Stored<ModStore>, root: &str, now: u64) -> (r: LoadOutcome<
        ModStore,
    >)
        ensures
            match found {
                Stored::Missing => r matches LoadOutcome::Missing(s) && s.deep_view() == Seq::<
                    ModEntryView,
                >::empty(),
                Stored::Parsed(s) => r == LoadOutcome::Loaded(s),
                Stored::Corrupt => r matches LoadOutcome::Repaired { value, backup_path }
                    && value.deep_view() == Seq::<ModEntryView>::empty() && backup_path@
                    == paths::joined(
                    root@,
                    "store.json.corrupt."@ + text::decimal(now as nat),
                ),
            },
    {
        match found {
            Stored::Missing => LoadOutcome::Missing(ModStore::new()),
            Stored::Parsed(s) => LoadOutcome::Loaded(s),
            Stored::Corrupt => {
                let name = text::concat("store.json.corrupt.", text::number_text(now).as_str());
                LoadOutcome::Repaired {
                    value: ModStore::new(),
                    backup_path: paths::join(root, name.as_str()),
                }
            },
        }
    }

    /// The store that loading gives, and the warning to show where what was
    /// kept had to be set aside.
    pub fn load(outcome: LoadOutcome<ModStore>) -> (r: (ModStore, Option<String>))
        ensures
            match outcome {
                LoadOutcome::Loaded(s) => r.0 == s && r.1 is None,
                LoadOutcome::Missing(s) => r.0 == s && r.1 is None,
                LoadOutcome::Repaired { value, backup_path } => r.0 == value && r.1 is Some && (
                r.1->0)@
                    == "store.json was corrupt and has been reset to an empty store. Broken file kept at "@
                    + backup_path@
                    + ". Installed mod folders under mods/ were NOT deleted — you may need to re-register them."@,
            },
    {
        match outcome {
            LoadOutcome::Loaded(s) => (s, None),
            LoadOutcome::Missing(s) => (s, None),
            LoadOutcome::Repaired { value, backup_path } => {
                let warning = text::concat3(
                    "store.json was corrupt and has been reset to an empty store. Broken file kept at ",
                    backup_path.as_str(),
                    ". Installed mod folders under mods/ were NOT deleted — you may need to re-register them.",
                );
                (value, Some(warning))
            },
        }
    }

    /// Where the first mod with this id stands, or the number of mods.
    pub fn place_of(&self, id: &str) -> (i: usize)
        ensures
            i <= self.mods@.len(),
            i == mod_at(self.deep_view(), id@),
            i < self.mods@.len() ==> self.mods@[i as int].id@ == id@,
    {
        let mut i: usize = 0;
        while i < self.mods.len() && !text::same_text(self.mods[i].id.as_str(), id)
            invariant
                i <= self.mods@.len(),
                forall|j: int| 0 <= j < i ==> (#[trigger] self.deep_view()[j]).id != id@,
            decreases self.mods.len() - i,
        {
            assert(self.deep_view()[i as int].id != id@);
            i += 1;
        }
        proof {
            lemma_mod_at(self.deep_view(), id@, i as int);
        }
        i
    }

    /// The mod with this id.
    pub fn get(&self, id: &str) -> (r: Option<&ModEntry>)
        ensures
            match r {
                Some(m) => {
                    let i = mod_at(self.deep_view(), id@);
                    i < self.mods@.len() && *m == self.mods@[i] && m.id@ == id@
                },
                None => mod_at(self.deep_view(), id@) == self.mods@.len(),
            },
    {
        let i: usize = self.place_of(id);
        if i < self.mods.len() {
            Some(&self.mods[i])
        } else {
            None
        }
    }

    /// Takes a mod out of the store. Its folder is then to be deleted, and the
    /// mod to be scrubbed out of every profile.
    pub fn remove(&mut self, id: &str) -> (r: Option<ModEntry>)
        ensures
            match r {
                Some(m) => {
                    let i = mod_at(old(self).deep_view(), id@);
                    &&& i < old(self).deep_view().len()
                    &&& m.deep_view() == old(self).deep_view()[i]
                    &&& final(self).deep_view() == old(self).deep_view().remove(i)
                },
                None => mod_at(old(self).deep_view(), id@) == old(self).deep_view().len()
                    && final(self).deep_view() == old(self).deep_view(),
            },
    {
        let i: usize = self.place_of(id);
        if i < self.mods.len() {
            let ghost before = self.deep_view();
            let m = self.mods.remove(i);
            assert(self.deep_view() =~= before.remove(i as int));
            Some(m)
        } else {
            None
        }
    }

    /// Adds a tag to a mod, unless it has it or there is no such mod. Tells
    /// whether anything changed.
    pub fn add_tag(&mut self, id: &str, tag: &str) -> (changed: bool)
        ensures
            changed == lacks_tag(old(self).deep_view(), id@, tag@),
            final(self).deep_view() == with_tag(old(self).deep_view(), id@, tag@),
    {
        let i: usize = self.place_of(id);
        if i >= self.mods.len() || text::is_in(&self.mods[i].tags, tag) {
            return false;
        }
        let ghost before = self.deep_view();
        let ghost old_mods = self.mods@;
        let ghost tags = self.mods@[i as int].tags.deep_view();
        self.mods[i].tags.push(tag.to_owned());
        proof {
            let m = self.mods@[i as int];
            assert(m.tags.deep_view() =~= tags.push(tag@));
            assert(self.mods@ =~= old_mods.update(i as int, m));
            assert(self.deep_view() =~= before.update(
                i as int,
                (ModEntryView { tags: tags.push(tag@), ..before[i as int] }),
            ));
        }
        true
    }

    /// Every tag in use, once, in the order of strings.
    pub fn all_tags(&self) -> (r: Vec<String>)
        ensures
            is_sorted_set(tags_of(self.deep_view()), r.deep_view()),
    {
        let ghost mods = self.deep_view();
        let mut all: Vec<String> = Vec::new();
        let mut i: usize = 0;
        assert(mods.take(0) =~= Seq::<ModEntryView>::empty());
        assert(all.deep_view() =~= Seq::<Seq<char>>::empty());
        while i < self.mods.len()
            invariant
                i <= self.mods@.len(),
                mods == self.deep_view(),
                all.deep_view() == tags_of(mods.take(i as int)),
            decreases self.mods.len() - i,
        {
            assert(mods.take(i + 1).drop_last() =~= mods.take(i as int));
            let tags = &self.mods[i].tags;
            let ghost before = all.deep_view();
            let ghost tv = tags.deep_view();
            let mut k: usize = 0;
            assert(before + tv.take(0) =~= before);
            while k < tags.len()
                invariant
                    k <= tags@.len(),
                    tv == tags.deep_view(),
                    all.deep_view() == before + tv.take(k as int),
                decreases tags.len() - k,
            {
                let ghost sofar = all.deep_view();
                all.push(tags[k].clone());
                k += 1;
                assert(all.deep_view() =~= sofar.push(tv[k - 1]));
                assert(all.deep_view() =~= before + tv.take(k as int));
            }
            assert(tv.take(k as int) =~= tv);
            i += 1;
        }
        assert(mods.take(i as int) =~= mods);
        sorted_set(&all)
    }

    /// Every mod that carries a tag, in the order of the store.
    pub fn mods_with_tag(&self, tag: &str) -> (r: Vec<&ModEntry>)
        ensures
            r.deep_view() == self.deep_view().filter(carries(tag@)),
    {
        let ghost mods = self.deep_view();
        let mut out: Vec<&ModEntry> = Vec::new();
        let mut i: usize = 0;
        reveal(Seq::filter);
        assert(mods.take(0) =~= Seq::<ModEntryView>::empty());
        assert(out.deep_view() =~= Seq::<ModEntryView>::empty());
        while i < self.mods.len()
            invariant
                i <= self.mods@.len(),
                mods == self.deep_view(),
                out.deep_view() == mods.take(i as int).filter(carries(tag@)),
            decreases self.mods.len() - i,
        {
            reveal(Seq::filter);
            assert(mods.take(i + 1).drop_last() =~= mods.take(i as int));
            assert(mods.take(i + 1).last() == self.mods@[i as int].deep_view());
            if text::is_in(&self.mods[i].tags, tag) {
                let ghost before = out.deep_view();
                out.push(&self.mods[i]);
                assert(out.deep_view() =~= before.push(mods[i as int]));
            }
            i += 1;
        }
        assert(mods.take(i as int) =~= mods);
        out
    }

    /// A fresh id and the folder under the store that its content goes to.
    pub fn begin_content_dir(mods_dir: &str) -> (r: (String, String))
        ensures
            is_id(r.0@),
            r.1@ == paths::joined(mods_dir@, r.0@),
    {
        let id = fresh_id();
        let dir = paths::join(mods_dir, id.as_str());
        (id, dir)
    }

    /// Enters a mod at the end of the store.
    fn enter(&mut self, id: String, name: String, content_dir: String, now: u64)
        ensures
            final(self).deep_view() == old(self).deep_view().push(
                fresh_entry(id@, name@, content_dir@, now),
            ),
    {
        let ghost before = self.deep_view();
        let entry = ModEntry {
            id,
            name,
            version: None,
            installed_at: now,
            content_dir,
            root_normalized: true,
            tags: Vec::new(),
        };
        assert(entry.tags.deep_view() =~= Seq::<Seq<char>>::empty());
        self.mods.push(entry);
        assert(self.deep_view() =~= before.push(fresh_entry(id@, name@, content_dir@, now)));
    }

    /// Enters a mod whose source was unpacked into `content_dir`, under the
    /// given name or that of the source, and returns its id. The store stays as
    /// it was where that did not work.
    pub fn install(
        &mut self,
        id: String,
        content_dir: String,
        source: &str,
        display_name: Option<String>,
        extraction: Extraction,
        now: u64,
    ) -> (r: Result<String, StoreError>)
        ensures
            match extraction {
                Extraction::SourceMissing => r == Err::<String, StoreError>(
                    StoreError::SourceMissing,
                ) && final(self).deep_view() == old(self).deep_view(),
                Extraction::Failed => r == Err::<String, StoreError>(StoreError::ExtractFailed)
                    && final(self).deep_view() == old(self).deep_view(),
                Extraction::Done => r matches Ok(new_id) && new_id@ == id@ && final(self).deep_view() == old(self).deep_view().push(
                    fresh_entry(
                        id@,
                        match display_name {
                            Some(n) => n@,
                            None => default_name(source@, id@),
                        },
                        content_dir@,
                        now,
                    ),
                ),
            },
    {
        match extraction {
            Extraction::SourceMissing => {
                return Err(StoreError::SourceMissing);
            },
            Extraction::Failed => {
                return Err(StoreError::ExtractFailed);
            },
            Extraction::Done => {},
        }
        let name = match display_name {
            Some(n) => n,
            None => match paths::last_step(source) {
                Some(n) => paths::name_stem(n.as_str()),
                None => id.clone(),
            },
        };
        let new_id = id.clone();
        self.enter(id, name, content_dir, now);
        Ok(new_id)
    }

    /// Enters a folder that is already filled, such as by an installer.
    pub fn register_installed(
        &mut self,
        id: String,
        content_dir: String,
        display_name: String,
        content_is_dir: bool,
        now: u64,
    ) -> (r: Result<(), StoreError>)
        ensures
            content_is_dir ==> r is Ok && final(self).deep_view() == old(self).deep_view().push(
                fresh_entry(id@, display_name@, content_dir@, now),
            ),
            !content_is_dir ==> r == Err::<(), StoreError>(StoreError::ContentMissing) && final(self).deep_view() == old(self).deep_view(),
    {
        if !content_is_dir {
            return Err(StoreError::ContentMissing);
        }
        self.enter(id, display_name, content_dir, now);
        Ok(())
    }

    /// Notes that a mod's files were replaced from a new source. Only the time
    /// changes: the id stays, so that profiles that use the mod keep working.
    pub fn update(&mut self, id: &str, extraction: Extraction, now: u64) -> (r: Result<
        (),
        StoreError,
    >)
        ensures
            ({
                let mods = old(self).deep_view();
                let i = mod_at(mods, id@);
                &&& r == (if i >= mods.len() {
                    Err::<(), StoreError>(StoreError::NoSuchMod)
                } else if extraction == Extraction::SourceMissing {
                    Err(StoreError::SourceMissing)
                } else if extraction == Extraction::Failed {
                    Err(StoreError::ExtractFailed)
                } else {
                    Ok(())
                })
                &&& final(self).deep_view() == (if r is Ok {
                    mods.update(i, (ModEntryView { installed_at: now, ..mods[i] }))
                } else {
                    mods
                })
            }),
    {
        let i: usize = self.place_of(id);
        if i >= self.mods.len() {
            return Err(StoreError::NoSuchMod);
        }
        match extraction {
            Extraction::SourceMissing => {
                return Err(StoreError::SourceMissing);
            },
            Extraction::Failed => {
                return Err(StoreError::ExtractFailed);
            },
            Extraction::Done => {},
        }
        let ghost before = self.deep_view();
        let ghost old_mods = self.mods@;
        self.mods[i].installed_at = now;
        proof {
            let m = self.mods@[i as int];
            assert(self.mods@ =~= old_mods.update(i as int, m));
            assert(self.deep_view() =~= before.update(
                i as int,
                (ModEntryView { installed_at: now, ..before[i as int] }),
            ));
        }
        Ok(())
    }
}

/// The entries of a list, each once, in the order of strings.
pub fn sorted_set(all: &Vec<String>) -> (r: Vec<String>)
    ensures
        is_sorted_set(all.deep_view(), r.deep_view()),
{
    let groups = sorting::group_places(all);
    let count: usize = all.len();
    let ghost av = all.deep_view();
    assert(av.len() == count);
    let ghost gv = groups.deep_view();
    let mut out: Vec<String> = Vec::new();
    let mut g: usize = 0;
    while g < groups.len()
        invariant
            g <= groups@.len(),
            av == all.deep_view(),
            gv == groups.deep_view(),
            sorting::is_grouping(av, gv),
            out@.len() == g,
            forall|k: int|
                0 <= k < g ==> #[trigger] out.deep_view()[k] == sorting::key_of(av, gv[k]),
        decreases groups.len() - g,
    {
        let ghost before = out.deep_view();
        assert(gv[g as int] =~= groups@[g as int]@);
        assert(sorting::is_group(av, gv[g as int]));
        assert(gv[g as int][0] < av.len());
        out.push(all[groups[g][0]].clone());
        assert(out.deep_view() =~= before.push(sorting::key_of(av, gv[g as int])));
        g += 1;
    }
    proof {
        let list = out.deep_view();
        assert forall|a: int, b: int| 0 <= a < b < list.len() implies text::text_less(
            #[trigger] list[a],
            #[trigger] list[b],
        ) by {
            assert(text::text_less(sorting::key_of(av, gv[a]), sorting::key_of(av, gv[b])));
        }
        assert forall|x: Seq<char>| #[trigger] list.contains(x) <==> av.contains(x) by {
            if list.contains(x) {
                let k = choose|k: int| 0 <= k < list.len() && list[k] == x;
                assert(sorting::is_group(av, gv[k]));
                assert(gv[k][0] < av.len());
                assert(av[gv[k][0] as int] == x);
            }
            if av.contains(x) {
                let i = choose|i: int| 0 <= i < av.len() && av[i] == x;
                let h = sorting::lemma_key_grouped(av, gv, i as usize);
                assert(list[h] == x);
            }
        }
    }
    out
}

// ---------------------------------------------------------------------------
// Sources
// ---------------------------------------------------------------------------

/// What a source is, as far as installing it goes.
#[derive(Debug, Clone, Copy, PartialEq, Eq, Structural)]
pub enum SourceKind {
    Folder,
    TarGz,
    Tar,
    Zip,
    SevenZ,
    Rar,
    /// Any other file is installed as it is.
    Loose,
}

/// The extension of a path in lower case.
pub open spec fn lower_extension(path: Seq<char>) -> Option<Seq<char>> {
    match paths::extension(path) {
        Some(e) => Some(text::lowercase(e)),
        None => None,
    }
}

/// What a source at this path is.
pub open spec fn kind_of(path: Seq<char>, is_dir: bool) -> SourceKind {
    let lower = text::lowercase(path);
    let ext = lower_extension(path);
    if is_dir {
        SourceKind::Folder
    } else if text::ends_in(lower, ".tar.gz"@) || text::ends_in(lower, ".tgz"@) {
        SourceKind::TarGz
    } else if ext == Some("zip"@) {
        SourceKind::Zip
    } else if ext == Some("7z"@) {
        SourceKind::SevenZ
    } else if ext == Some("tar"@) {
        SourceKind::Tar
    } else if ext == Some("rar"@) {
        SourceKind::Rar
    } else {
        SourceKind::Loose
    }
}

/// What a source at this path is.
pub fn source_kind(path: &str, is_dir: bool) -> (r: SourceKind)
    ensures
        r == kind_of(path@, is_dir),
{
    if is_dir {
        return SourceKind::Folder;
    }
    let lower = text::to_lowercase(path);
    if text::has_suffix(lower.as_str(), ".tar.gz") || text::has_suffix(lower.as_str(), ".tgz") {
        return SourceKind::TarGz;
    }
    match paths::path_extension(path) {
        Some(e) => {
            let ext = text::to_lowercase(e.as_str());
            if text::same_text(ext.as_str(), "zip") {
                SourceKind::Zip
            } else if text::same_text(ext.as_str(), "7z") {
                SourceKind::SevenZ
            } else if text::same_text(ext.as_str(), "tar") {
                SourceKind::Tar
            } else if text::same_text(ext.as_str(), "rar") {
                SourceKind::Rar
            } else {
                SourceKind::Loose
            }
        },
        None => SourceKind::Loose,
    }
}

/// How a source gets into a folder.
#[derive(Debug, Clone)]
pub enum Unpacking {
    /// Copy the folder with all that is in it.
    CopyFolder,
    TarGz,
    Tar,
    Zip,
    SevenZ,
    /// Copy the file to this path.
    CopyFile { to: String },
}

/// The mathematical content of an [`Unpacking`].
pub enum UnpackingView {
    CopyFolder,
    TarGz,
    Tar,
    Zip,
    SevenZ,
    CopyFile { to: Seq<char> },
}

impl DeepView for Unpacking {
    type V = UnpackingView;

    open spec fn deep_view(&self) -> UnpackingView {
        match self {
            Unpacking::CopyFolder => UnpackingView::CopyFolder,
            Unpacking::TarGz => UnpackingView::TarGz,
            Unpacking::Tar => UnpackingView::Tar,
            Unpacking::Zip => UnpackingView::Zip,
            Unpacking::SevenZ => UnpackingView::SevenZ,
            Unpacking::CopyFile { to } => UnpackingView::CopyFile { to: to@ },
        }
    }
}

/// Why a source does not get into a folder.
#[derive(Debug, Clone, Copy, PartialEq, Eq, Structural)]
pub enum UnpackError {
    SourceMissing,
    /// RAR archives are not supported.
    Rar,
    NoFileName,
}

/// How a source gets into a folder, or why it does not: by what it is, and a
/// loose file under its own name.
pub open spec fn unpacking_of(source: Seq<char>, dest: Seq<char>, is_dir: bool) -> Result<
    UnpackingView,
    UnpackError,
> {
    match kind_of(source, is_dir) {
        SourceKind::Folder => Ok(UnpackingView::CopyFolder),
        SourceKind::TarGz => Ok(UnpackingView::TarGz),
        SourceKind::Tar => Ok(UnpackingView::Tar),
        SourceKind::Zip => Ok(UnpackingView::Zip),
        SourceKind::SevenZ => Ok(UnpackingView::SevenZ),
        SourceKind::Rar => Err(UnpackError::Rar),
        SourceKind::Loose => match paths::file_name(source) {
            Some(name) => Ok(UnpackingView::CopyFile { to: paths::joined(dest, name) }),
            None => Err(UnpackError::NoFileName),
        },
    }
}

/// Why a source does not get into a folder, in words.
pub open spec fn unpack_failure(e: UnpackError, source: Seq<char>) -> Seq<char> {
    match e {
        UnpackError::SourceMissing => "source path does not exist: "@ + source,
        UnpackError::Rar => {
            ".rar is not supported (no license-friendly pure-Rust extractor). Please re-extract with 7-Zip/unrar and install the resulting folder or re-pack it as .zip or .7z."@
        },
        UnpackError::NoFileName => "source file has no file name"@,
    }
}

impl UnpackError {
    /// Why a source does not get into a folder, in words.
    pub fn message(self, source: &str) -> (r: String)
        ensures
            r@ == unpack_failure(self, source@),
    {
        match self {
            UnpackError::SourceMissing => text::concat("source path does not exist: ", source),
            UnpackError::Rar => {
                ".rar is not supported (no license-friendly pure-Rust extractor). Please re-extract with 7-Zip/unrar and install the resulting folder or re-pack it as .zip or .7z.".to_owned()
            },
            UnpackError::NoFileName => "source file has no file name".to_owned(),
        }
    }
}

/// How a source that exists gets into `content_dir`. Any file that is no
/// archive is installed as it is, at the top of the folder, so that it lands at
/// the top of `Data`. RAR archives are refused.
pub fn install_source_into(source: &str, content_dir: &str, is_dir: bool) -> (r: Result<
    Unpacking,
    UnpackError,
>)
    ensures
        match r {
            Ok(u) => unpacking_of(source@, content_dir@, is_dir) == Ok::<
                UnpackingView,
                UnpackError,
            >(u.deep_view()),
            Err(e) => unpacking_of(source@, content_dir@, is_dir) == Err::<
                UnpackingView,
                UnpackError,
            >(e),
        },
{
    match source_kind(source, is_dir) {
        SourceKind::Folder => Ok(Unpacking::CopyFolder),
        SourceKind::TarGz => Ok(Unpacking::TarGz),
        SourceKind::Tar => Ok(Unpacking::Tar),
        SourceKind::Zip => Ok(Unpacking::Zip),
        SourceKind::SevenZ => Ok(Unpacking::SevenZ),
        SourceKind::Rar => Err(UnpackError::Rar),
        SourceKind::Loose => match paths::last_step(source) {
            Some(name) => Ok(Unpacking::CopyFile { to: paths::join(content_dir, name.as_str()) }),
            None => Err(UnpackError::NoFileName),
        },
    }
}

/// How a source gets into a folder, which is made first, such as for an
/// installer that then picks files from it.
pub fn extract_archive_to(source: &str, dest: &str, exists_: bool, is_dir: bool) -> (r: Result<
    Unpacking,
    UnpackError,
>)
    ensures
        match r {
            Ok(u) => exists_ && unpacking_of(source@, dest@, is_dir) == Ok::<
                UnpackingView,
                UnpackError,
            >(u.deep_view()),
            Err(e) => if exists_ {
                unpacking_of(source@, dest@, is_dir) == Err::<UnpackingView, UnpackError>(e)
            } else {
                e == UnpackError::SourceMissing
            },
        },
{
    if !exists_ {
        return Err(UnpackError::SourceMissing);
    }
    install_source_into(source, dest, is_dir)
}

/// How large an install would be.
#[derive(Debug, Clone)]
pub struct InstallSizeEstimate {
    pub bytes: u64,
    pub files: u64,
    pub source_kind: String,
}

/// The sum of sizes.
pub open spec fn total(sizes: Seq<u64>) -> nat
    decreases sizes.len(),
{
    if sizes.len() == 0 {
        0
    } else {
        total(sizes.drop_last()) + sizes.last() as nat
    }
}

pub proof fn lemma_total_grows(sizes: Seq<u64>, k: int)
    requires
        0 <= k <= sizes.len(),
    ensures
        total(sizes.take(k)) <= total(sizes),
    decreases sizes.len() - k,
{
    if k < sizes.len() {
        lemma_total_grows(sizes, k + 1);
        assert(sizes.take(k + 1).drop_last() =~= sizes.take(k));
    } else {
        assert(sizes.take(k) =~= sizes);
    }
}

/// Adds up sizes.
pub fn add_up(sizes: &Vec<u64>) -> (r: u64)
    requires
        total(sizes@) <= u64::MAX,
    ensures
        r == total(sizes@),
{
    let mut sum: u64 = 0;
    let mut i: usize = 0;
    assert(sizes@.take(0) =~= Seq::<u64>::empty());
    while i < sizes.len()
        invariant
            i <= sizes@.len(),
            total(sizes@) <= u64::MAX,
            sum == total(sizes@.take(i as int)),
        decreases sizes.len() - i,
    {
        proof {
            lemma_total_grows(sizes@, i + 1);
            assert(sizes@.take(i + 1).drop_last() =~= sizes@.take(i as int));
        }
        sum = sum + sizes[i];
        i += 1;
    }
    assert(sizes@.take(i as int) =~= sizes@);
    sum
}

/// `a * b`, or the largest number there is room for.
pub open spec fn capped_product(a: nat, b: nat) -> nat {
    if a * b <= u64::MAX {
        a * b
    } else {
        u64::MAX as nat
    }
}

fn multiply_capped(a: u64, b: u64) -> (r: u64)
    ensures
        r == capped_product(a as nat, b as nat),
{
    match a.checked_mul(b) {
        Some(n) => n,
        None => u64::MAX,
    }
}

/// The words for an archive whose unpacked size is guessed.
pub open spec fn guess_words(
    before: Seq<char>,
    compressed: u64,
    after: Seq<char>,
) -> Seq<char> {
    before + text::decimal(compressed as nat) + after
}

/// How large an install would be, or why there would be none: sizes and
/// number of the files where they are known (`sizes`, for folders and zip
/// archives), three or four times the size of the file (`len`) for archives
/// that would have to be unpacked to know, and the size of a loose file.
pub open spec fn estimate_of(
    path: Seq<char>,
    exists_: bool,
    is_dir: bool,
    sizes: Seq<u64>,
    len: u64,
) -> Result<(nat, nat, Seq<char>), StoreError> {
    if !exists_ {
        Err(StoreError::SourceMissing)
    } else {
        match kind_of(path, is_dir) {
            SourceKind::Folder => Ok((total(sizes), sizes.len(), "folder"@)),
            SourceKind::TarGz | SourceKind::Tar => Ok(
                (
                    capped_product(len as nat, 3),
                    0,
                    guess_words(
                        "tar archive (compressed "@,
                        len,
                        " bytes; extracted size estimated ×3)"@,
                    ),
                ),
            ),
            SourceKind::Zip => Ok((total(sizes), sizes.len(), "zip"@)),
            SourceKind::SevenZ => Ok(
                (
                    capped_product(len as nat, 4),
                    0,
                    guess_words(
                        "7z archive (compressed "@,
                        len,
                        " bytes; extracted size estimated ×4)"@,
                    ),
                ),
            ),
            SourceKind::Rar => Err(StoreError::RarUnsupported),
            SourceKind::Loose => Ok((len as nat, 1, "loose file"@)),
        }
    }
}

impl ModStore {
    /// Estimates how many bytes and files installing a source would take,
    /// without writing anything.
    pub fn estimate_install_size(
        path: &str,
        exists_: bool,
        is_dir: bool,
        sizes: &Vec<u64>,
        len: u64,
    ) -> (r: Result<InstallSizeEstimate, StoreError>)
        requires
            total(sizes@) <= u64::MAX,
        ensures
            match r {
                Ok(e) => estimate_of(path@, exists_, is_dir, sizes@, len) == Ok::<
                    (nat, nat, Seq<char>),
                    StoreError,
                >((e.bytes as nat, e.files as nat, e.source_kind@)),
                Err(e) => estimate_of(path@, exists_, is_dir, sizes@, len) == Err::<
                    (nat, nat, Seq<char>),
                    StoreError,
                >(e),
            },
    {
        if !exists_ {
            return Err(StoreError::SourceMissing);
        }
        match source_kind(path, is_dir) {
            SourceKind::Folder => Ok(
                InstallSizeEstimate {
                    bytes: add_up(sizes),
                    files: sizes.len() as u64,
                    source_kind: "folder".to_owned(),
                },
            ),
            SourceKind::TarGz | SourceKind::Tar => Ok(
                InstallSizeEstimate {
                    bytes: multiply_capped(len, 3),
                    files: 0,
                    source_kind: text::concat3(
                        "tar archive (compressed ",
                        text::number_text(len).as_str(),
                        " bytes; extracted size estimated ×3)",
                    ),
                },
            ),
            SourceKind::Zip => Ok(
                InstallSizeEstimate {
                    bytes: add_up(sizes),
                    files: sizes.len() as u64,
                    source_kind: "zip".to_owned(),
                },
            ),
            SourceKind::SevenZ => Ok(
                InstallSizeEstimate {
                    bytes: multiply_capped(len, 4),
                    files: 0,
                    source_kind: text::concat3(
                        "7z archive (compressed ",
                        text::number_text(len).as_str(),
                        " bytes; extracted size estimated ×4)",
                    ),
                },
            ),
            SourceKind::Rar => Err(StoreError::RarUnsupported),
            SourceKind::Loose => Ok(
                InstallSizeEstimate {
                    bytes: len,
                    files: 1,
                    source_kind: "loose file".to_owned(),
                },
            ),
        }
    }
}

/// What becomes of one entry of a zip archive.
#[derive(Debug, Clone)]
pub enum ZipStep {
    /// Its path leads out of the target folder, so it is passed over.
    Skip,
    MakeFolder(String),
    WriteFile(String),
}

/// What becomes of an entry of this name, given the path that it may safely be
/// written to, if there is one.
pub fn zip_step(name: &str, enclosed: Option<String>, dest: &str) -> (r: ZipStep)
    ensures
        match enclosed {
            None => r is Skip,
            Some(p) => if name@.len() > 0 && name@.last() == '/' {
                r matches ZipStep::MakeFolder(t) && t@ == paths::joined(dest@, p@)
            } else {
                r matches ZipStep::WriteFile(t) && t@ == paths::joined(dest@, p@)
            },
        },
{
    match enclosed {
        None => ZipStep::Skip,
        Some(p) => {
            let target = paths::join(dest, p.as_str());
            let x = text::chars_of(name);
            if x.len() > 0 && x[x.len() - 1] == '/' {
                ZipStep::MakeFolder(target)
            } else {
                ZipStep::WriteFile(target)
            }
        },
    }
}

/// The free space that a `df -Pk` listing shows: the fourth word of its second
/// line, in blocks of 1024 bytes.
pub open spec fn free_space_in(listing: Seq<char>) -> Option<nat> {
    let lines = text::lines(listing);
    if lines.len() < 2 || text::words(lines[1]).len() < 4 {
        None
    } else {
        match text::number_in(text::words(lines[1])[3]) {
            Some(n) => if n <= u64::MAX {
                Some(capped_product(n, 1024))
            } else {
                None
            },
            None => None,
        }
    }
}

/// The free space, in bytes, that the output of `df -Pk` shows.
pub fn free_space_for(listing: &str) -> (r: Option<u64>)
    ensures
        match r {
            Some(n) => free_space_in(listing@) == Some(n as nat),
            None => free_space_in(listing@) is None,
        },
{
    let lines = text::split_lines(listing);
    assert(lines.deep_view().len() == lines@.len());
    if lines.len() < 2 {
        return None;
    }
    let words = text::split_words(lines[1].as_str());
    assert(words.deep_view().len() == words@.len());
    if words.len() < 4 {
        return None;
    }
    match text::parse_u64(words[3].as_str()) {
        Some(n) => Some(multiply_capped(n, 1024)),
        None => None,
    }
}

// ---------------------------------------------------------------------------
// What the mods hold
// ---------------------------------------------------------------------------

/// Whether a file of this name is a plugin.
pub open spec fn is_plugin_name(name: Seq<char>) -> bool {
    let lower = text::lowercase(name);
    text::ends_in(lower, ".esp"@) || text::ends_in(lower, ".esm"@) || text::ends_in(lower, ".esl"@)
}

/// The condition to be the name of a plugin.
pub open spec fn plugin_names() -> spec_fn(Seq<char>) -> bool {
    |n: Seq<char>| is_plugin_name(n)
}

/// Whether a file of this name is a plugin.
pub fn named_like_plugin(name: &str) -> (r: bool)
    ensures
        r == is_plugin_name(name@),
{
    let lower = text::to_lowercase(name);
    text::has_suffix(lower.as_str(), ".esp") || text::has_suffix(lower.as_str(), ".esm")
        || text::has_suffix(lower.as_str(), ".esl")
}

/// A path as it is compared: with forward slashes and in lower case.
pub open spec fn path_key(path: Seq<char>) -> Seq<char> {
    text::lowercase(text::replaced(path, '\\', '/'))
}

/// The hits of a search among one mod's files, in order.
pub open spec fn hits_in(
    m: ModEntryView,
    files: Seq<Seq<char>>,
    needle: Seq<char>,
) -> Seq<(Seq<char>, Seq<char>, Seq<char>)>
    decreases files.len(),
{
    if files.len() == 0 {
        Seq::empty()
    } else {
        let before = hits_in(m, files.drop_last(), needle);
        if text::holds(path_key(files.last()), needle) {
            before.push((m.id, m.name, files.last()))
        } else {
            before
        }
    }
}

/// The hits of a search among all mods' files, in order.
pub open spec fn hits_of(
    mods: Seq<ModEntryView>,
    files: Seq<Seq<Seq<char>>>,
    needle: Seq<char>,
) -> Seq<(Seq<char>, Seq<char>, Seq<char>)>
    decreases mods.len(),
{
    if mods.len() == 0 {
        Seq::empty()
    } else {
        hits_of(mods.drop_last(), files, needle) + hits_in(
            mods.last(),
            files[mods.len() - 1],
            needle,
        )
    }
}

/// Sizes, ranked from the largest down.
pub struct SizeKeys<'a> {
    pub sizes: &'a Vec<u64>,
}

impl<'a> Ranked for SizeKeys<'a> {
    open spec fn count(&self) -> nat {
        self.sizes@.len()
    }

    open spec fn upto(&self, i: int, j: int) -> bool {
        self.sizes@[i] >= self.sizes@[j]
    }

    proof fn upto_total(&self, i: int, j: int) {
    }

    proof fn upto_transitive(&self, i: int, j: int, k: int) {
    }

    fn is_upto(&self, i: usize, j: usize) -> (r: bool) {
        self.sizes[i] >= self.sizes[j]
    }
}

/// Whether `order` lists all places of `sizes`, the larger size first and equal
/// ones in order.
pub open spec fn is_by_size(sizes: Seq<u64>, order: Seq<usize>) -> bool {
    &&& order.len() == sizes.len()
    &&& order.no_duplicates()
    &&& forall|k: int| 0 <= k < order.len() ==> #[trigger] order[k] < sizes.len()
    &&& forall|a: int, b: int|
        0 <= a < b < order.len() ==> sizes[#[trigger] order[a] as int] > sizes[#[trigger] order[b] as int]
            || (sizes[order[a] as int] == sizes[order[b] as int] && order[a] < order[b])
}

/// The rows of a size report in this order.
pub open spec fn usage_rows(
    mods: Seq<ModEntryView>,
    sizes: Seq<u64>,
    order: Seq<usize>,
) -> Seq<(Seq<char>, Seq<char>, u64)> {
    order.map_values(|i: usize| (mods[i as int].id, mods[i as int].name, sizes[i as int]))
}

impl ModStore {
    /// The plugins among the names in a mod's top folder: only these are
    /// loaded. None where there is no such mod.
    pub fn discover_plugins(&self, id: &str, names: &Vec<String>) -> (r: Vec<String>)
        ensures
            r.deep_view() == (if mod_at(self.deep_view(), id@) < self.deep_view().len() {
                names.deep_view().filter(plugin_names())
            } else {
                Seq::empty()
            }),
    {
        let mut out: Vec<String> = Vec::new();
        assert(out.deep_view() =~= Seq::<Seq<char>>::empty());
        if self.get(id).is_none() {
            return out;
        }
        proof {
            lemma_mod_at_is(self.deep_view(), id@);
        }
        let ghost all = names.deep_view();
        let mut i: usize = 0;
        reveal(Seq::filter);
        assert(all.take(0) =~= Seq::<Seq<char>>::empty());
        while i < names.len()
            invariant
                i <= names@.len(),
                all == names.deep_view(),
                out.deep_view() == all.take(i as int).filter(plugin_names()),
            decreases names.len() - i,
        {
            reveal(Seq::filter);
            assert(all.take(i + 1).drop_last() =~= all.take(i as int));
            assert(all.take(i + 1).last() == names@[i as int]@);
            if named_like_plugin(names[i].as_str()) {
                let ghost before = out.deep_view();
                out.push(names[i].clone());
                assert(out.deep_view() =~= before.push(all[i as int]));
            }
            i += 1;
        }
        assert(all.take(i as int) =~= all);
        out
    }

    /// Every mod that provides a file whose path contains `relative`, whatever
    /// the case of letters and the kind of slashes: its id, its name and the
    /// path. `files[i]` lists the paths of the files of the mod at place `i`.
    pub fn mods_providing_file(&self, relative: &str, files: &Vec<Vec<String>>) -> (r: Vec<
        (String, String, String),
    >)
        requires
            files@.len() == self.mods@.len(),
        ensures
            r.deep_view() == hits_of(self.deep_view(), files.deep_view(), path_key(relative@)),
    {
        let needle = text::to_lowercase(text::replace_char(relative, '\\', '/').as_str());
        let ghost mods = self.deep_view();
        let ghost fv = files.deep_view();
        let mut out: Vec<(String, String, String)> = Vec::new();
        let mut i: usize = 0;
        assert(mods.take(0) =~= Seq::<ModEntryView>::empty());
        assert(out.deep_view() =~= Seq::<(Seq<char>, Seq<char>, Seq<char>)>::empty());
        while i < self.mods.len()
            invariant
                i <= self.mods@.len(),
                files@.len() == self.mods@.len(),
                mods == self.deep_view(),
                fv == files.deep_view(),
                needle@ == path_key(relative@),
                out.deep_view() == hits_of(mods.take(i as int), fv, needle@),
            decreases self.mods.len() - i,
        {
            assert(mods.take(i + 1).drop_last() =~= mods.take(i as int));
            let ghost before = out.deep_view();
            let ghost m = mods[i as int];
            let ghost list = fv[i as int];
            let mut k: usize = 0;
            assert(list.take(0) =~= Seq::<Seq<char>>::empty());
            assert(before + hits_in(m, list.take(0), needle@) =~= before);
            while k < files[i].len()
                invariant
                    k <= files@[i as int]@.len(),
                    i < self.mods@.len(),
                    files@.len() == self.mods@.len(),
                    list == files@[i as int].deep_view(),
                    m == self.mods@[i as int].deep_view(),
                    out.deep_view() == before + hits_in(m, list.take(k as int), needle@),
                decreases files@[i as int]@.len() - k,
            {
                let ghost sofar = out.deep_view();
                let ghost t = list.take(k + 1);
                assert(t.drop_last() =~= list.take(k as int));
                assert(t.last() == files@[i as int]@[k as int]@);
                let file = &files[i][k];
                let key = text::to_lowercase(
                    text::replace_char(file.as_str(), '\\', '/').as_str(),
                );
                if text::has_substring(key.as_str(), needle.as_str()) {
                    let hit = (self.mods[i].id.clone(), self.mods[i].name.clone(), file.clone());
                    out.push(hit);
                    assert(out.deep_view() =~= sofar.push(hit.deep_view()));
                    assert(out.deep_view() =~= before + hits_in(m, t, needle@));
                }
                k += 1;
            }
            assert(list.take(k as int) =~= list);
            i += 1;
        }
        assert(mods.take(i as int) =~= mods);
        out
    }

    /// The disk space of each mod, largest first, and the total. `sizes[i]` is
    /// that of the mod at place `i`.
    pub fn disk_usage(&self, sizes: &Vec<u64>) -> (r: (Vec<(String, String, u64)>, u64))
        requires
            sizes@.len() == self.mods@.len(),
            total(sizes@) <= u64::MAX,
        ensures
            exists|order: Seq<usize>|
                is_by_size(sizes@, order) && r.0.deep_view() == #[trigger] usage_rows(
                    self.deep_view(),
                    sizes@,
                    order,
                ),
            r.1 == total(sizes@),
    {
        let ranked = SizeKeys { sizes };
        let order = sorting::sorted_places(&ranked, sizes.len());
        let ghost goal = usage_rows(self.deep_view(), sizes@, order@);
        assert(is_by_size(sizes@, order@)) by {
            assert forall|a: int, b: int| 0 <= a < b < order@.len() implies sizes@[#[trigger] order@[a] as int]
                > sizes@[#[trigger] order@[b] as int] || (sizes@[order@[a] as int]
                == sizes@[order@[b] as int] && order@[a] < order@[b]) by {
                assert(sorting::comes_before(&ranked, order@[a] as int, order@[b] as int));
            }
        }
        let mut rows: Vec<(String, String, u64)> = Vec::new();
        let mut i: usize = 0;
        while i < order.len()
            invariant
                i <= order@.len(),
                sizes@.len() == self.mods@.len(),
                is_by_size(sizes@, order@),
                goal == usage_rows(self.deep_view(), sizes@, order@),
                rows.deep_view() == goal.take(i as int),
            decreases order.len() - i,
        {
            let ghost before = rows.deep_view();
            assert(order@[i as int] < sizes@.len());
            let p: usize = order[i];
            rows.push((self.mods[p].id.clone(), self.mods[p].name.clone(), sizes[p]));
            i += 1;
            assert(rows.deep_view() =~= before.push(goal[i - 1]));
            assert(rows.deep_view() =~= goal.take(i as int));
        }
        assert(rows.deep_view() =~= goal);
        (rows, add_up(sizes))
    }
}

// ---------------------------------------------------------------------------
// Wrapper folders
// ---------------------------------------------------------------------------

/// Whether an entry of this name shows that a folder's content belongs
/// directly into `Data`.
pub open spec fn is_marker(name: Seq<char>) -> bool {
    let lower = text::lowercase(name);
    ||| lower == "meshes"@
    ||| lower == "textures"@
    ||| lower == "scripts"@
    ||| lower == "interface"@
    ||| lower == "sound"@
    ||| lower == "music"@
    ||| lower == "seq"@
    ||| lower == "skse"@
    ||| text::ends_in(lower, ".esp"@)
    ||| text::ends_in(lower, ".esm"@)
    ||| text::ends_in(lower, ".esl"@)
    ||| text::ends_in(lower, ".bsa"@)
}

fn named_like_marker(name: &str) -> (r: bool)
    ensures
        r == is_marker(name@),
{
    let lower = text::to_lowercase(name);
    let l = lower.as_str();
    text::same_text(l, "meshes") || text::same_text(l, "textures") || text::same_text(l, "scripts")
        || text::same_text(l, "interface") || text::same_text(l, "sound") || text::same_text(
        l,
        "music",
    ) || text::same_text(l, "seq") || text::same_text(l, "skse") || text::has_suffix(l, ".esp")
        || text::has_suffix(l, ".esm") || text::has_suffix(l, ".esl") || text::has_suffix(
        l,
        ".bsa",
    )
}

/// An entry of a folder.
#[derive(Debug, Clone)]
pub struct FolderItem {
    pub name: String,
    pub is_dir: bool,
}

/// What to do with a folder of unpacked content.
#[derive(Debug, Clone, Copy, PartialEq, Eq, Structural)]
pub enum UnwrapStep {
    /// Leave it as it is.
    Done,
    /// Its only entry is a wrapper folder: move what that holds up and look
    /// again.
    Unwrap,
}

/// Whether one of these names is a marker.
pub open spec fn has_marker(names: Seq<Seq<char>>) -> bool {
    exists|k: int| 0 <= k < names.len() && is_marker(#[trigger] names[k])
}

/// The names of entries.
pub open spec fn item_names(items: Seq<FolderItem>) -> Seq<Seq<char>> {
    items.map_values(|i: FolderItem| i.name@)
}

/// Whether a folder with these entries is a wrapper: it holds one folder and
/// nothing else, and no marker.
pub open spec fn wraps(items: Seq<FolderItem>) -> bool {
    items.len() == 1 && items[0].is_dir && !has_marker(item_names(items))
}

/// What to do with a folder of unpacked content that has these entries.
pub fn normalize_step(items: &Vec<FolderItem>) -> (r: UnwrapStep)
    ensures
        r == (if wraps(items@) {
            UnwrapStep::Unwrap
        } else {
            UnwrapStep::Done
        }),
{
    if items.len() != 1 {
        return UnwrapStep::Done;
    }
    assert(item_names(items@)[0] == items@[0].name@);
    if named_like_marker(items[0].name.as_str()) {
        assert(has_marker(item_names(items@)));
        return UnwrapStep::Done;
    }
    if items[0].is_dir {
        UnwrapStep::Unwrap
    } else {
        UnwrapStep::Done
    }
}

/// The content of a folder: files, and folders with their own content.
#[derive(Debug)]
pub enum FolderNode {
    File { name: String, bytes: Vec<u8> },
    Folder { name: String, content: Vec<FolderNode> },
}

pub open spec fn node_name(n: FolderNode) -> Seq<char> {
    match n {
        FolderNode::File { name, bytes } => name@,
        FolderNode::Folder { name, content } => name@,
    }
}

/// The content that is left when all wrapper folders around it are removed.
pub open spec fn unwrapped(content: Seq<FolderNode>) -> Seq<FolderNode>
    decreases content,
{
    if content.len() == 1 && !is_marker(node_name(content[0])) {
        match content[0] {
            FolderNode::Folder { name, content: inner } => unwrapped(inner@),
            FolderNode::File { name, bytes } => content,
        }
    } else {
        content
    }
}

/// Removes the wrapper folders around content, so that its top level is what
/// belongs into the game's `Data` folder.
pub fn normalize_root_public(content: Vec<FolderNode>) -> (r: Vec<FolderNode>)
    ensures
        r@ == unwrapped(content@),
    decreases content,
{
    if content.len() != 1 {
        return content;
    }
    let mut content = content;
    let ghost before = content@;
    let only = content.remove(0);
    assert(only == before[0]);
    match only {
        FolderNode::Folder { name, content: inner } => {
            if named_like_marker(name.as_str()) {
                content.push(FolderNode::Folder { name, content: inner });
                assert(content@ =~= before);
                content
            } else {
                normalize_root_public(inner)
            }
        },
        FolderNode::File { name, bytes } => {
            content.push(FolderNode::File { name, bytes });
            assert(content@ =~= before);
            content
        },
    }
}

/// What is left has no wrapper: removing wrappers again changes nothing.
pub proof fn lemma_unwrapped_twice(content: Seq<FolderNode>)
    ensures
        unwrapped(unwrapped(content)) == unwrapped(content),
    decreases content,
{
    if content.len() == 1 && !is_marker(node_name(content[0])) {
        match content[0] {
            FolderNode::Folder { name, content: inner } => {
                lemma_unwrapped_twice(inner@);
            },
            FolderNode::File { name, bytes } => {},
        }
    }
}

/// The names of the wrapper folders around content, the outermost first.
pub open spec fn wrappers(content: Seq<FolderNode>) -> Seq<Seq<char>>
    decreases content,
{
    if content.len() == 1 && !is_marker(node_name(content[0])) {
        match content[0] {
            FolderNode::Folder { name, content: inner } => seq![name@] + wrappers(inner@),
            FolderNode::File { name, bytes } => Seq::empty(),
        }
    } else {
        Seq::empty()
    }
}

/// Whether content holds a file with these bytes at this path, given by its
/// steps.
pub open spec fn holds_file(content: Seq<FolderNode>, path: Seq<Seq<char>>, bytes: Seq<u8>) -> bool
    decreases path.len(),
{
    if path.len() == 0 {
        false
    } else if path.len() == 1 {
        exists|i: int| 0 <= i < content.len() && is_file_node(#[trigger] content[i], path[0], bytes)
    } else {
        exists|i: int|
            0 <= i < content.len() && (#[trigger] content[i]) is Folder && content[i]->Folder_name@
                == path[0] && holds_file(content[i]->content@, path.drop_first(), bytes)
    }
}

/// Whether an entry is a file of this name with these bytes.
pub open spec fn is_file_node(n: FolderNode, name: Seq<char>, bytes: Seq<u8>) -> bool {
    n is File && n->File_name@ == name && n->bytes@ == bytes
}

/// Removing wrapper folders keeps every file with its bytes, at its path without
/// the wrappers, and adds none.
pub proof fn lemma_unwrapping_keeps_files(
    content: Seq<FolderNode>,
    path: Seq<Seq<char>>,
    bytes: Seq<u8>,
)
    ensures
        holds_file(content, path, bytes) <==> {
            let w = wrappers(content);
            &&& w.len() < path.len()
            &&& path.take(w.len() as int) == w
            &&& holds_file(unwrapped(content), path.skip(w.len() as int), bytes)
        },
    decreases content,
{
    let w = wrappers(content);
    if content.len() == 1 && !is_marker(node_name(content[0])) && content[0] is Folder {
        let name = content[0]->Folder_name@;
        let inner = content[0]->content@;
        let deeper = wrappers(inner);
        assert(w == seq![name] + deeper);
        if path.len() > 0 {
            let rest = path.drop_first();
            lemma_unwrapping_keeps_files(inner, rest, bytes);
            if path.len() == 1 {
                assert(!holds_file(content, path, bytes));
            } else {
                assert(holds_file(content, path, bytes) == (name == path[0] && holds_file(
                    inner,
                    rest,
                    bytes,
                )));
                if w.len() < path.len() {
                    assert(rest.skip(deeper.len() as int) =~= path.skip(w.len() as int));
                    if path.take(w.len() as int) == w {
                        assert(rest.take(deeper.len() as int) =~= deeper) by {
                            assert forall|j: int| 0 <= j < deeper.len() implies rest[j] == deeper[j] by {
                                assert(path.take(w.len() as int)[j + 1] == w[j + 1]);
                            }
                        }
                        assert(path.take(w.len() as int)[0] == w[0]);
                    }
                    if name == path[0] && rest.take(deeper.len() as int) == deeper {
                        assert(path.take(w.len() as int) =~= w) by {
                            assert forall|j: int| 0 <= j < w.len() implies path[j] == w[j] by {
                                if j > 0 {
                                    assert(rest.take(deeper.len() as int)[j - 1] == deeper[j - 1]);
                                }
                            }
                        }
                    }
                }
            }
        }
    } else {
        assert(w =~= Seq::<Seq<char>>::empty());
        assert(path.take(0) =~= w);
        assert(path.skip(0) =~= path);
    }
}

/// What is left at the top is what belongs into `Data`: it has a marker, or it
/// is not one folder alone.
pub proof fn lemma_unwrapped_top(content: Seq<FolderNode>)
    ensures
        ({
            let top = unwrapped(content);
            ||| (exists|i: int| 0 <= i < top.len() && is_marker(node_name(#[trigger] top[i])))
            ||| top.len() != 1
            ||| top[0] is File
        }),
    decreases content,
{
    if content.len() == 1 && !is_marker(node_name(content[0])) && content[0] is Folder {
        lemma_unwrapped_top(content[0]->content@);
    } else if content.len() == 1 {
        assert(unwrapped(content) == content);
        assert(is_marker(node_name(content[0])) || content[0] is File);
    }
}

/// The entries of a folder with this content.
pub open spec fn items_of(content: Seq<FolderNode>) -> Seq<(Seq<char>, bool)> {
    content.map_values(|n: FolderNode| (node_name(n), n is Folder))
}

/// Removing wrappers one at a time, as long as there is one, is what is done
/// with the whole.
pub proof fn lemma_unwrap_step(content: Seq<FolderNode>, items: Seq<FolderItem>)
    requires
        items.map_values(|i: FolderItem| (i.name@, i.is_dir)) == items_of(content),
    ensures
        wraps(items) ==> content.len() == 1 && content[0] is Folder && unwrapped(content)
            == unwrapped(content[0]->content@),
        !wraps(items) ==> unwrapped(content) == content,
{
    let iv = items.map_values(|i: FolderItem| (i.name@, i.is_dir));
    assert(items.len() == iv.len());
    assert(content.len() == items_of(content).len());
    if items.len() == 1 {
        assert(iv[0] == items_of(content)[0]);
        assert(item_names(items)[0] == items[0].name@);
        if is_marker(items[0].name@) {
            assert(has_marker(item_names(items)));
        }
    }
}

// ---------------------------------------------------------------------------
// Laws
// ---------------------------------------------------------------------------

/// Once a tag is added to a mod, the mod carries it, and adding it again
/// changes nothing.
pub proof fn lemma_tag_added_is_there(mods: Seq<ModEntryView>, id: Seq<char>, tag: Seq<char>)
    ensures
        mod_at(mods, id) < mods.len() ==> with_tag(mods, id, tag)[mod_at(mods, id)].tags.contains(
            tag,
        ),
        with_tag(with_tag(mods, id, tag), id, tag) == with_tag(mods, id, tag),
{
    let i = mod_at(mods, id);
    lemma_mod_at_is(mods, id);
    let after = with_tag(mods, id, tag);
    if lacks_tag(mods, id, tag) {
        assert forall|j: int| 0 <= j < i implies (#[trigger] after[j]).id != id by {
            assert(after[j] == mods[j]);
        }
        lemma_mod_at(after, id, i);
        assert(after[i].tags[mods[i].tags.len() as int] == tag);
    }
}

/// A tag is in the list of all tags if and only if some mod carries it.
pub proof fn lemma_tag_listed_iff_carried(
    mods: Seq<ModEntryView>,
    tags: Seq<Seq<char>>,
    tag: Seq<char>,
)
    requires
        is_sorted_set(tags_of(mods), tags),
    ensures
        mods.filter(carries(tag)).len() > 0 <==> tags.contains(tag),
{
    lemma_tags_of(mods, tag);
    assert(tags.contains(tag) <==> tags_of(mods).contains(tag));
}

proof fn lemma_tags_of(mods: Seq<ModEntryView>, tag: Seq<char>)
    ensures
        mods.filter(carries(tag)).len() > 0 <==> tags_of(mods).contains(tag),
    decreases mods.len(),
{
    reveal(Seq::filter);
    if mods.len() > 0 {
        let t = mods.drop_last();
        lemma_tags_of(t, tag);
        let a = tags_of(t);
        let b = mods.last().tags;
        if a.contains(tag) {
            let i = choose|i: int| 0 <= i < a.len() && a[i] == tag;
            assert((a + b)[i] == tag);
        }
        if b.contains(tag) {
            let i = choose|i: int| 0 <= i < b.len() && b[i] == tag;
            assert((a + b)[a.len() + i] == tag);
        }
        if (a + b).contains(tag) {
            let i = choose|i: int| 0 <= i < (a + b).len() && (a + b)[i] == tag;
            if i < a.len() {
                assert(a[i] == tag);
            } else {
                assert(b[i - a.len()] == tag);
            }
        }
    }
}

/// Once a mod is removed, no mod has its id, provided that ids are unique.
pub proof fn lemma_removed_is_gone(mods: Seq<ModEntryView>, id: Seq<char>)
    requires
        mod_at(mods, id) < mods.len(),
        forall|a: int, b: int| 0 <= a < b < mods.len() ==> mods[a].id != mods[b].id,
    ensures
        mod_at(mods.remove(mod_at(mods, id)), id) == mods.len() - 1,
{
    let i = mod_at(mods, id);
    lemma_mod_at_is(mods, id);
    let after = mods.remove(i);
    assert forall|j: int| 0 <= j < after.len() implies (#[trigger] after[j]).id != id by {
        if j < i {
            assert(after[j] == mods[j]);
            assert(mods[j].id != mods[i].id);
        } else {
            assert(after[j] == mods[j + 1]);
            assert(mods[i].id != mods[j + 1].id);
        }
    }
    lemma_mod_at(after, id, after.len() as int);
}

/// An update keeps every mod's id, name, folder and tags.
pub proof fn lemma_update_keeps_identity(mods: Seq<ModEntryView>, id: Seq<char>, now: u64, k: int)
    requires
        mod_at(mods, id) < mods.len(),
        0 <= k < mods.len(),
    ensures
        ({
            let i = mod_at(mods, id);
            let after = mods.update(i, (ModEntryView { installed_at: now, ..mods[i] }));
            &&& after.len() == mods.len()
            &&& after[k].id == mods[k].id
            &&& after[k].name == mods[k].name
            &&& after[k].content_dir == mods[k].content_dir
            &&& after[k].tags == mods[k].tags
            &&& mod_at(after, id) == i
        }),
{
    let i = mod_at(mods, id);
    lemma_mod_at_is(mods, id);
    let after = mods.update(i, (ModEntryView { installed_at: now, ..mods[i] }));
    assert forall|j: int| 0 <= j < i implies (#[trigger] after[j]).id != id by {
        assert(after[j] == mods[j]);
    }
    lemma_mod_at(after, id, i);
}

/// Adding a tag changes the tags of that one mod and nothing else: they are what
/// they were, and the tag behind them where it was not among them.
pub proof fn lemma_tagging_touches_one_mod(
    mods: Seq<ModEntryView>,
    id: Seq<char>,
    tag: Seq<char>,
    i: int,
)
    requires
        0 <= i <= mods.len(),
        i < mods.len() ==> mods[i].id == id,
        forall|j: int| 0 <= j < i ==> (#[trigger] mods[j]).id != id,
    ensures
        ({
            let after = with_tag(mods, id, tag);
            &&& after.len() == mods.len()
            &&& forall|k: int| 0 <= k < mods.len() && k != i ==> #[trigger] after[k] == mods[k]
            &&& i < mods.len() ==> after[i] == (ModEntryView { tags: after[i].tags, ..mods[i] })
            &&& i < mods.len() && mods[i].tags.contains(tag) ==> after[i].tags == mods[i].tags
            &&& i < mods.len() && !mods[i].tags.contains(tag) ==> after[i].tags
                == mods[i].tags.push(tag)
        }),
        lacks_tag(mods, id, tag) <==> i < mods.len() && !mods[i].tags.contains(tag),
{
    lemma_mod_at(mods, id, i);
}

/// The tags of all mods are those of each, none left out; and the mods with a tag
/// are all that carry it, in order.
pub proof fn lemma_all_tags_count(mods: Seq<ModEntryView>, tag: Seq<char>)
    ensures
        tags_of(mods) == mods.map_values(|m: ModEntryView| m.tags).flatten(),
        mods.filter(carries(tag)) == mods.filter(|m: ModEntryView| m.tags.contains(tag)),
    decreases mods.len(),
{
    let pred = |m: ModEntryView| m.tags.contains(tag);
    assert(carries(tag) =~= pred);
    let f = |m: ModEntryView| m.tags;
    if mods.len() == 0 {
        assert(tags_of(mods) =~= mods.map_values(f).flatten());
    } else {
        let t = mods.drop_last();
        lemma_all_tags_count(t, tag);
        assert(mods.map_values(f) =~= t.map_values(f).push(mods.last().tags));
        lists::lemma_flatten_push(t.map_values(f), mods.last().tags);
    }
}

/// A mod that was entered is new in all: it has the id, the name, the folder and
/// the time that it was entered with, and no version and no tags yet.
pub proof fn lemma_fresh_entry(id: Seq<char>, name: Seq<char>, dir: Seq<char>, now: u64)
    ensures
        fresh_entry(id, name, dir, now).id == id,
        fresh_entry(id, name, dir, now).name == name,
        fresh_entry(id, name, dir, now).content_dir == dir,
        fresh_entry(id, name, dir, now).installed_at == now,
        fresh_entry(id, name, dir, now).version is None,
        fresh_entry(id, name, dir, now).root_normalized,
        fresh_entry(id, name, dir, now).tags.len() == 0,
{
}

/// A source without a given name is shown under the name of its file or folder,
/// without the extension.
pub proof fn lemma_default_name(
    dir: Seq<char>,
    stem: Seq<char>,
    ext: Seq<char>,
    id: Seq<char>,
)
    requires
        stem.len() > 0,
        text::lacks(stem, '/'),
        text::lacks(ext, '/'),
        text::lacks(ext, '.'),
        ext.len() > 0,
    ensures
        default_name(paths::joined(dir, stem + seq!['.'] + ext), id) == stem,
{
    let name = stem + seq!['.'] + ext;
    assert(text::lacks(name, '/')) by {
        assert forall|j: int| 0 <= j < name.len() implies #[trigger] name[j] != '/' by {
            if j < stem.len() {
                assert(name[j] == stem[j]);
            } else if j > stem.len() {
                assert(name[j] == ext[j - stem.len() - 1]);
            }
        }
    }
    assert(name != seq!['.'] && name != seq!['.', '.']) by {
        assert(name.len() >= 3);
    }
    paths::lemma_name_of_joined(dir, name);
    paths::lemma_extension_behind_dot(stem, ext);
}

/// What kind of source a file is, its name tells, whatever the case of letters:
/// the compressed tar archives by how it ends and all others by the extension;
/// what has none of these is a loose file. A folder is a folder whatever its
/// name.
pub proof fn lemma_kind_of_source(path: Seq<char>)
    ensures
        kind_of(path, true) == SourceKind::Folder,
        ({
            let lower = text::lowercase(path);
            let squeezed = text::ends_in(lower, ".tar.gz"@) || text::ends_in(lower, ".tgz"@);
            let kind = kind_of(path, false);
            &&& kind == SourceKind::TarGz <==> squeezed
            &&& kind != SourceKind::Folder
            &&& !squeezed ==> match paths::extension(path) {
                Some(e) => {
                    &&& kind == SourceKind::Zip <==> text::lowercase(e) == "zip"@
                    &&& kind == SourceKind::SevenZ <==> text::lowercase(e) == "7z"@
                    &&& kind == SourceKind::Tar <==> text::lowercase(e) == "tar"@
                    &&& kind == SourceKind::Rar <==> text::lowercase(e) == "rar"@
                },
                None => kind == SourceKind::Loose,
            }
        }),
{
    reveal_strlit("zip");
    reveal_strlit("7z");
    reveal_strlit("tar");
    reveal_strlit("rar");
    assert("zip"@[0] != "tar"@[0] && "zip"@[0] != "rar"@[0] && "tar"@[0] != "rar"@[0]);
    assert("7z"@.len() == 2 && "zip"@.len() == 3 && "tar"@.len() == 3 && "rar"@.len() == 3);
}

/// Archives are unpacked as what they are, a loose file keeps its own name, and
/// only RAR archives and what has no file name are refused.
pub proof fn lemma_how_a_source_gets_in(source: Seq<char>, dest: Seq<char>, is_dir: bool)
    ensures
        match unpacking_of(source, dest, is_dir) {
            Ok(UnpackingView::CopyFolder) => is_dir,
            Ok(UnpackingView::TarGz) => kind_of(source, is_dir) == SourceKind::TarGz,
            Ok(UnpackingView::Tar) => kind_of(source, is_dir) == SourceKind::Tar,
            Ok(UnpackingView::Zip) => kind_of(source, is_dir) == SourceKind::Zip,
            Ok(UnpackingView::SevenZ) => kind_of(source, is_dir) == SourceKind::SevenZ,
            Ok(UnpackingView::CopyFile { to }) => {
                &&& kind_of(source, is_dir) == SourceKind::Loose
                &&& paths::file_name(source) matches Some(name) && to == paths::joined(dest, name)
            },
            Err(UnpackError::Rar) => kind_of(source, is_dir) == SourceKind::Rar,
            Err(UnpackError::NoFileName) => kind_of(source, is_dir) == SourceKind::Loose
                && paths::file_name(source) is None,
            Err(UnpackError::SourceMissing) => false,
        },
{
}

/// The sum of sizes does not depend on how they are split up, and one size is
/// its own sum.
pub proof fn lemma_total_of_parts(a: Seq<u64>, b: Seq<u64>, x: u64)
    ensures
        total(a + b) == total(a) + total(b),
        total(seq![x]) == x,
    decreases b.len(),
{
    let one = seq![x];
    assert(one.drop_last() =~= Seq::<u64>::empty());
    assert(total(one.drop_last()) == 0);
    if b.len() == 0 {
        assert(a + b =~= a);
    } else {
        lemma_total_of_parts(a, b.drop_last(), x);
        assert((a + b).drop_last() =~= a + b.drop_last());
    }
}

/// A folder and a zip archive are as large as their files together, and a loose
/// file as large as it is; what is packed otherwise is guessed at a multiple of
/// its size. Only what is missing, or a RAR archive, has no estimate.
pub proof fn lemma_estimates(
    path: Seq<char>,
    exists_: bool,
    is_dir: bool,
    sizes: Seq<u64>,
    len: u64,
)
    ensures
        ({
            let kind = kind_of(path, is_dir);
            let e = estimate_of(path, exists_, is_dir, sizes, len);
            &&& !exists_ ==> e == Err::<(nat, nat, Seq<char>), StoreError>(
                StoreError::SourceMissing,
            )
            &&& exists_ ==> (e is Err <==> kind == SourceKind::Rar)
            &&& exists_ && (kind == SourceKind::Folder || kind == SourceKind::Zip) ==> (e->Ok_0).0
                == total(sizes) && (e->Ok_0).1 == sizes.len()
            &&& exists_ && kind == SourceKind::Loose ==> (e->Ok_0).0 == len && (e->Ok_0).1 == 1
            &&& exists_ && (kind == SourceKind::Tar || kind == SourceKind::TarGz) && 3 * len
                <= u64::MAX ==> (e->Ok_0).0 == 3 * len && (e->Ok_0).1 == 0
            &&& exists_ && kind == SourceKind::SevenZ && 4 * len <= u64::MAX ==> (e->Ok_0).0 == 4
                * len && (e->Ok_0).1 == 0
        }),
{
}

/// The plugins of a mod are its files with one of the three endings, whatever
/// the case of letters, all of them and in order.
pub proof fn lemma_plugins_of_a_mod(names: Seq<Seq<char>>)
    ensures
        names.filter(plugin_names()) == names.filter(
            |n: Seq<char>|
                text::ends_in(text::lowercase(n), ".esp"@) || text::ends_in(
                    text::lowercase(n),
                    ".esm"@,
                ) || text::ends_in(text::lowercase(n), ".esl"@),
        ),
{
    let pred = |n: Seq<char>|
        text::ends_in(text::lowercase(n), ".esp"@) || text::ends_in(text::lowercase(n), ".esm"@)
            || text::ends_in(text::lowercase(n), ".esl"@);
    assert(plugin_names() =~= pred);
}

/// A search for a path finds every file of every mod whose path holds it,
/// whatever the case of letters and the kind of slashes, and no others.
pub proof fn lemma_search_finds_all(
    mods: Seq<ModEntryView>,
    files: Seq<Seq<Seq<char>>>,
    relative: Seq<char>,
)
    ensures
        hits_of(mods, files, path_key(relative)) == Seq::new(
            mods.len(),
            |i: int|
                files[i].filter(
                    |f: Seq<char>|
                        text::holds(
                            text::lowercase(text::replaced(f, '\\', '/')),
                            text::lowercase(text::replaced(relative, '\\', '/')),
                        ),
                ).map_values(|f: Seq<char>| (mods[i].id, mods[i].name, f)),
        ).flatten(),
    decreases mods.len(),
{
    let needle = path_key(relative);
    let pred = |f: Seq<char>|
        text::holds(
            text::lowercase(text::replaced(f, '\\', '/')),
            text::lowercase(text::replaced(relative, '\\', '/')),
        );
    let rows = Seq::new(
        mods.len(),
        |i: int| files[i].filter(pred).map_values(|f: Seq<char>| (mods[i].id, mods[i].name, f)),
    );
    if mods.len() == 0 {
        assert(hits_of(mods, files, needle) =~= rows.flatten());
    } else {
        let t = mods.drop_last();
        lemma_search_finds_all(t, files, relative);
        let before = Seq::new(
            t.len(),
            |i: int| files[i].filter(pred).map_values(|f: Seq<char>| (t[i].id, t[i].name, f)),
        );
        let n = mods.len() - 1;
        lemma_hits_in_are(mods.last(), files[n], relative);
        assert(rows =~= before.push(rows[n])) by {
            assert forall|i: int| 0 <= i < n implies rows[i] == #[trigger] before[i] by {
                assert(t[i] == mods[i]);
            }
        }
        lists::lemma_flatten_push(before, rows[n]);
        assert(hits_of(mods, files, needle) == before.flatten() + rows[n]);
    }
    assert(rows =~= Seq::new(
        mods.len(),
        |i: int|
            files[i].filter(
                |f: Seq<char>|
                    text::holds(
                        text::lowercase(text::replaced(f, '\\', '/')),
                        text::lowercase(text::replaced(relative, '\\', '/')),
                    ),
            ).map_values(|f: Seq<char>| (mods[i].id, mods[i].name, f)),
    ));
}

proof fn lemma_hits_in_are(m: ModEntryView, files: Seq<Seq<char>>, relative: Seq<char>)
    ensures
        hits_in(m, files, path_key(relative)) == files.filter(
            |f: Seq<char>|
                text::holds(
                    text::lowercase(text::replaced(f, '\\', '/')),
                    text::lowercase(text::replaced(relative, '\\', '/')),
                ),
        ).map_values(|f: Seq<char>| (m.id, m.name, f)),
    decreases files.len(),
{
    let pred = |f: Seq<char>|
        text::holds(
            text::lowercase(text::replaced(f, '\\', '/')),
            text::lowercase(text::replaced(relative, '\\', '/')),
        );
    let g = |f: Seq<char>| (m.id, m.name, f);
    if files.len() == 0 {
        reveal(Seq::filter);
        assert(hits_in(m, files, path_key(relative)) =~= files.filter(pred).map_values(g));
    } else {
        let t = files.drop_last();
        lemma_hits_in_are(m, t, relative);
        lists::lemma_filter_map_push(t, files.last(), pred, g);
        assert(t.push(files.last()) =~= files);
    }
}

/// The size report has a row for every mod with its size, and the rows go from
/// the largest size down.
pub proof fn lemma_usage_lists_every_mod(
    mods: Seq<ModEntryView>,
    sizes: Seq<u64>,
    order: Seq<usize>,
    i: int,
    a: int,
    b: int,
)
    requires
        sizes.len() == mods.len(),
        is_by_size(sizes, order),
        0 <= i < mods.len(),
        0 <= a < b < mods.len(),
    ensures
        usage_rows(mods, sizes, order).len() == mods.len(),
        usage_rows(mods, sizes, order).contains((mods[i].id, mods[i].name, sizes[i])),
        usage_rows(mods, sizes, order)[a].2 >= usage_rows(mods, sizes, order)[b].2,
{
    crate::graph::lemma_distinct_below(order, usize::MAX + 1);
    let v = i as usize;
    if !order.contains(v) {
        let t = order.push(v);
        assert(t.no_duplicates());
        crate::graph::lemma_distinct_below(t, sizes.len() as int);
    }
    let k = choose|k: int| 0 <= k < order.len() && order[k] == v;
    assert(usage_rows(mods, sizes, order)[k] == (mods[i].id, mods[i].name, sizes[i]));
    assert(sizes[order[a] as int] >= sizes[order[b] as int]);
}

/// What shows that content belongs directly into `Data`: the folders that the
/// game knows, plugins and archives, whatever the case of letters.
pub proof fn lemma_markers(name: Seq<char>)
    ensures
        is_marker(name) <==> {
            ||| seq![
                "meshes"@,
                "textures"@,
                "scripts"@,
                "interface"@,
                "sound"@,
                "music"@,
                "seq"@,
                "skse"@,
            ].contains(text::lowercase(name))
            ||| is_plugin_name(name)
            ||| text::ends_in(text::lowercase(name), ".bsa"@)
        },
{
    let l = text::lowercase(name);
    let list = seq![
        "meshes"@,
        "textures"@,
        "scripts"@,
        "interface"@,
        "sound"@,
        "music"@,
        "seq"@,
        "skse"@,
    ];
    assert(list[0] == "meshes"@ && list[1] == "textures"@ && list[2] == "scripts"@ && list[3]
        == "interface"@ && list[4] == "sound"@ && list[5] == "music"@ && list[6] == "seq"@
        && list[7] == "skse"@);
    if list.contains(l) {
        let k = choose|k: int| 0 <= k < list.len() && list[k] == l;
        assert(0 <= k < 8);
    }
}

/// The free space that is read is that of the fourth column of the second line,
/// in blocks of 1024 bytes.
pub proof fn lemma_free_space_is_read(
    head: Seq<char>,
    a: Seq<char>,
    b: Seq<char>,
    c: Seq<char>,
    blocks: nat,
    rest: Seq<char>,
)
    requires
        text::lacks(head, '\n'),
        head.len() == 0 || head.last() != '\r',
        text::lacks(rest, '\n'),
        rest.len() == 0 || rest.last() != '\r',
        forall|w: Seq<char>|
            w == a || w == b || w == c ==> w.len() > 0 && forall|i: int|
                0 <= i < w.len() ==> !text::is_space(#[trigger] w[i]),
        blocks * 1024 <= u64::MAX,
    ensures
        free_space_in(
            head + seq!['\n'] + (a + seq![' '] + (b + seq![' '] + (c + seq![' '] + (text::decimal(
                blocks,
            ) + seq![' '] + rest)))),
        ) == Some(blocks * 1024),
{
    let n = text::decimal(blocks);
    let r3 = n + seq![' '] + rest;
    let r2 = c + seq![' '] + r3;
    let r1 = b + seq![' '] + r2;
    let line = a + seq![' '] + r1;
    let listing = head + seq!['\n'] + line;
    text::lemma_decimal_is_read_back(blocks);
    assert forall|i: int| 0 <= i < n.len() implies !text::is_space(#[trigger] n[i]) by {
        assert(text::is_digit(n[i]));
    }
    assert(text::is_space(' '));
    text::lemma_words_first(a, ' ', r1);
    text::lemma_words_first(b, ' ', r2);
    text::lemma_words_first(c, ' ', r3);
    text::lemma_words_first(n, ' ', rest);
    let ws = text::words(line);
    assert(ws =~= seq![a] + (seq![b] + (seq![c] + (seq![n] + text::words(rest)))));
    assert(ws[3] == n);
    assert(text::lacks(line, '\n')) by {
        assert forall|j: int| 0 <= j < line.len() implies #[trigger] line[j] != '\n' by {
            assert(text::is_space('\n'));
            if j < a.len() {
                assert(line[j] == a[j]);
            } else if j > a.len() && j < a.len() + 1 + b.len() {
                assert(line[j] == b[j - a.len() - 1]);
            } else if j > a.len() + 1 + b.len() && j < a.len() + b.len() + c.len() + 2 {
                assert(line[j] == c[j - a.len() - b.len() - 2]);
            } else if j > a.len() + b.len() + c.len() + 2 && j < a.len() + b.len() + c.len()
                + n.len() + 3 {
                assert(line[j] == n[j - a.len() - b.len() - c.len() - 3]);
            } else if j > a.len() + b.len() + c.len() + n.len() + 3 {
                assert(line[j] == rest[j - a.len() - b.len() - c.len() - n.len() - 4]);
            }
        }
    }
    text::lemma_lines_first(head, line);
    assert(text::lines(listing) == seq![head] + text::lines(line));
    assert(text::lines(line) =~= seq![line]) by {
        text::lemma_position(line, '\n', line.len() as int);
    }
    assert(text::lines(listing)[1] == line);
}

} // verus!
