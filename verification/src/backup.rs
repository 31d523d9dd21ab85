//! Backups of mods and saves that a person asks for.
//!
//! A backup is a folder under `backups/user`, named after the time, with what
//! was chosen and a manifest that tells what that was.

use crate::app_paths::{AppPaths, AppPathsView};
use crate::game::{GameInstall, GameInstallView};
use crate::lists;
use crate::paths;
use crate::saves::{SaveFile, SaveFileView};
use crate::sorting;
use crate::sorting::Ranked;
use crate::store;
use crate::store::{ModEntry, ModEntryView, ModStore};
use crate::text;
use vstd::prelude::*;

verus! {

/// What a backup is to hold.
#[derive(Debug, Clone)]
pub struct BackupSelection {
    pub include_mods: bool,
    /// The mods; all where none is named.
    pub mod_ids: Vec<String>,
    pub include_saves: bool,
    /// The saves; all where none is named.
    pub save_names: Vec<String>,
}

/// The mathematical content of a [`BackupSelection`].
pub struct BackupSelectionView {
    pub include_mods: bool,
    pub mod_ids: Seq<Seq<char>>,
    pub include_saves: bool,
    pub save_names: Seq<Seq<char>>,
}

impl DeepView for BackupSelection {
    type V = BackupSelectionView;

    open spec fn deep_view(&self) -> BackupSelectionView {
        BackupSelectionView {
            include_mods: self.include_mods,
            mod_ids: self.mod_ids.deep_view(),
            include_saves: self.include_saves,
            save_names: self.save_names.deep_view(),
        }
    }
}

impl Default for BackupSelection {
    fn default() -> (r: Self)
        ensures
            r.deep_view() == (BackupSelectionView {
                include_mods: false,
                mod_ids: Seq::empty(),
                include_saves: false,
                save_names: Seq::empty(),
            }),
    {
        let r = BackupSelection {
            include_mods: false,
            mod_ids: Vec::new(),
            include_saves: false,
            save_names: Vec::new(),
        };
        assert(r.mod_ids.deep_view() =~= Seq::<Seq<char>>::empty());
        assert(r.save_names.deep_view() =~= Seq::<Seq<char>>::empty());
        r
    }
}

/// What a backup holds, kept beside it.
#[derive(Debug, Clone)]
pub struct BackupManifest {
    pub created_at: u64,
    pub game_id: Option<String>,
    pub include_mods: bool,
    pub mod_ids: Vec<String>,
    pub mod_names: Vec<String>,
    pub include_saves: bool,
    pub save_names: Vec<String>,
    pub total_files: u64,
    pub total_bytes: u64,
}

/// The mathematical content of a [`BackupManifest`].
pub struct BackupManifestView {
    pub created_at: u64,
    pub game_id: Option<Seq<char>>,
    pub include_mods: bool,
    pub mod_ids: Seq<Seq<char>>,
    pub mod_names: Seq<Seq<char>>,
    pub include_saves: bool,
    pub save_names: Seq<Seq<char>>,
    pub total_files: nat,
    pub total_bytes: nat,
}

impl DeepView for BackupManifest {
    type V = BackupManifestView;

    open spec fn deep_view(&self) -> BackupManifestView {
        BackupManifestView {
            created_at: self.created_at,
            game_id: self.game_id.deep_view(),
            include_mods: self.include_mods,
            mod_ids: self.mod_ids.deep_view(),
            mod_names: self.mod_names.deep_view(),
            include_saves: self.include_saves,
            save_names: self.save_names.deep_view(),
            total_files: self.total_files as nat,
            total_bytes: self.total_bytes as nat,
        }
    }
}

/// What a finished backup amounts to.
#[derive(Debug, Clone)]
pub struct BackupResult {
    pub dest: String,
    pub mods_backed_up: usize,
    pub saves_backed_up: usize,
    pub total_files: u64,
    pub total_bytes: u64,
}

/// What can go wrong with backups.
#[derive(Debug, Clone)]
pub enum BackupError {
    NothingSelected,
    NoGame,
    NoFolder { path: String },
}

/// An error in words.
pub open spec fn backup_message(e: BackupError) -> Seq<char> {
    match e {
        BackupError::NothingSelected => {
            "nothing selected — enable mods and/or saves to back up"@
        },
        BackupError::NoGame => {
            "cannot back up saves without an active game install — detect a game first"@
        },
        BackupError::NoFolder { path } => "backup folder does not exist: "@ + path@,
    }
}

impl BackupError {
    /// The error in words.
    pub fn message(&self) -> (r: String)
        ensures
            r@ == backup_message(*self),
    {
        match self {
            BackupError::NothingSelected => {
                "nothing selected — enable mods and/or saves to back up".to_owned()
            },
            BackupError::NoGame => {
                "cannot back up saves without an active game install — detect a game first".to_owned()
            },
            BackupError::NoFolder { path } => text::concat(
                "backup folder does not exist: ",
                path.as_str(),
            ),
        }
    }
}

/// A mod that is backed up: its folder, where that is copied to, and where its
/// id, name and tags are noted down.
#[derive(Debug, Clone)]
pub struct ModCopy {
    pub id: String,
    pub name: String,
    pub tags: Vec<String>,
    pub from: String,
    pub to: String,
    pub note: String,
}

/// The mathematical content of a [`ModCopy`].
pub struct ModCopyView {
    pub id: Seq<char>,
    pub name: Seq<char>,
    pub tags: Seq<Seq<char>>,
    pub from: Seq<char>,
    pub to: Seq<char>,
    pub note: Seq<char>,
}

impl DeepView for ModCopy {
    type V = ModCopyView;

    open spec fn deep_view(&self) -> ModCopyView {
        ModCopyView {
            id: self.id@,
            name: self.name@,
            tags: self.tags.deep_view(),
            from: self.from@,
            to: self.to@,
            note: self.note@,
        }
    }
}

/// A save that is backed up.
#[derive(Debug, Clone)]
pub struct SaveCopy {
    pub name: String,
    pub size_bytes: u64,
    pub from: String,
    pub to: String,
}

/// The mathematical content of a [`SaveCopy`].
pub struct SaveCopyView {
    pub name: Seq<char>,
    pub size_bytes: u64,
    pub from: Seq<char>,
    pub to: Seq<char>,
}

impl DeepView for SaveCopy {
    type V = SaveCopyView;

    open spec fn deep_view(&self) -> SaveCopyView {
        SaveCopyView {
            name: self.name@,
            size_bytes: self.size_bytes,
            from: self.from@,
            to: self.to@,
        }
    }
}

/// What a backup does about saves.
#[derive(Debug, Clone)]
pub enum SavesPart {
    /// None were asked for.
    NotAsked,
    /// They were asked for, and there is no game: the backup fails here, after
    /// the mods.
    NoGame,
    /// The folder to make and the saves to copy.
    Copy { root: String, copies: Vec<SaveCopy> },
}

/// The mathematical content of a [`SavesPart`].
pub enum SavesPartView {
    NotAsked,
    NoGame,
    Copy { root: Seq<char>, copies: Seq<SaveCopyView> },
}

impl DeepView for SavesPart {
    type V = SavesPartView;

    open spec fn deep_view(&self) -> SavesPartView {
        match self {
            SavesPart::NotAsked => SavesPartView::NotAsked,
            SavesPart::NoGame => SavesPartView::NoGame,
            SavesPart::Copy { root, copies } => SavesPartView::Copy {
                root: root@,
                copies: copies.deep_view(),
            },
        }
    }
}

/// What a backup does: the folder to make, the mods (with the folder for them)
/// and then the saves.
#[derive(Debug, Clone)]
pub struct BackupPlan {
    pub dest: String,
    pub created_at: u64,
    pub game_id: Option<String>,
    pub mods: Option<(String, Vec<ModCopy>)>,
    pub saves: SavesPart,
}

/// The mathematical content of a [`BackupPlan`].
pub struct BackupPlanView {
    pub dest: Seq<char>,
    pub created_at: u64,
    pub game_id: Option<Seq<char>>,
    pub mods: Option<(Seq<char>, Seq<ModCopyView>)>,
    pub saves: SavesPartView,
}

impl DeepView for BackupPlan {
    type V = BackupPlanView;

    open spec fn deep_view(&self) -> BackupPlanView {
        BackupPlanView {
            dest: self.dest@,
            created_at: self.created_at,
            game_id: self.game_id.deep_view(),
            mods: self.mods.deep_view(),
            saves: self.saves.deep_view(),
        }
    }
}

/// Whether something named `name` is chosen: all is where nothing is named.
pub open spec fn is_chosen(named: Seq<Seq<char>>, name: Seq<char>) -> bool {
    named.len() == 0 || named.contains(name)
}

/// How a mod is backed up below a folder.
pub open spec fn mod_copy(root: Seq<char>, m: ModEntryView) -> ModCopyView {
    ModCopyView {
        id: m.id,
        name: m.name,
        tags: m.tags,
        from: m.content_dir,
        to: paths::joined(root, m.id),
        note: paths::joined(root, m.id + ".meta.json"@),
    }
}

/// The mods that are backed up, in the order of the store.
pub open spec fn chosen_mods(root: Seq<char>, mods: Seq<ModEntryView>, named: Seq<Seq<char>>) -> Seq<
    ModCopyView,
>
    decreases mods.len(),
{
    if mods.len() == 0 {
        Seq::empty()
    } else {
        let before = chosen_mods(root, mods.drop_last(), named);
        if is_chosen(named, mods.last().id) {
            before.push(mod_copy(root, mods.last()))
        } else {
            before
        }
    }
}

/// How a save is backed up below a folder.
pub open spec fn save_copy(root: Seq<char>, s: SaveFileView) -> SaveCopyView {
    SaveCopyView {
        name: s.name,
        size_bytes: s.size_bytes,
        from: s.path,
        to: paths::joined(root, s.name),
    }
}

/// The saves that are backed up, in the order in which they are listed.
pub open spec fn chosen_saves(root: Seq<char>, saves: Seq<SaveFileView>, named: Seq<Seq<char>>) -> Seq<
    SaveCopyView,
>
    decreases saves.len(),
{
    if saves.len() == 0 {
        Seq::empty()
    } else {
        let before = chosen_saves(root, saves.drop_last(), named);
        if is_chosen(named, saves.last().name) {
            before.push(save_copy(root, saves.last()))
        } else {
            before
        }
    }
}

/// The folder that backups are kept in.
pub open spec fn backups_root(paths: AppPathsView) -> Seq<char> {
    paths::joined(paths.backups, "user"@)
}

/// The plan for a backup.
pub open spec fn backup_of(
    paths: AppPathsView,
    mods: Seq<ModEntryView>,
    game: Option<GameInstallView>,
    selection: BackupSelectionView,
    saves: Seq<SaveFileView>,
    now: u64,
) -> BackupPlanView {
    let dest = paths::joined(backups_root(paths), text::decimal(now as nat));
    let mods_root = paths::joined(dest, "mods"@);
    let saves_root = paths::joined(dest, "saves"@);
    BackupPlanView {
        dest,
        created_at: now,
        game_id: match game {
            Some(g) => Some(g.id),
            None => None,
        },
        mods: if selection.include_mods {
            Some((mods_root, chosen_mods(mods_root, mods, selection.mod_ids)))
        } else {
            None
        },
        saves: if !selection.include_saves {
            SavesPartView::NotAsked
        } else if game is None {
            SavesPartView::NoGame
        } else {
            SavesPartView::Copy {
                root: saves_root,
                copies: chosen_saves(saves_root, saves, selection.save_names),
            }
        },
    }
}

fn choose_mods(root: &str, mods: &Vec<ModEntry>, named: &Vec<String>) -> (r: Vec<ModCopy>)
    ensures
        r.deep_view() == chosen_mods(root@, mods.deep_view(), named.deep_view()),
{
    let ghost mv = mods.deep_view();
    let ghost nv = named.deep_view();
    let mut out: Vec<ModCopy> = Vec::new();
    let mut i: usize = 0;
    assert(mv.take(0) =~= Seq::<ModEntryView>::empty());
    assert(out.deep_view() =~= Seq::<ModCopyView>::empty());
    while i < mods.len()
        invariant
            i <= mods@.len(),
            mv == mods.deep_view(),
            nv == named.deep_view(),
            out.deep_view() == chosen_mods(root@, mv.take(i as int), nv),
        decreases mods.len() - i,
    {
        assert(mv.take(i + 1).drop_last() =~= mv.take(i as int));
        assert(mv.take(i + 1).last() == mods@[i as int].deep_view());
        let m = &mods[i];
        if named.len() == 0 || text::is_in(named, m.id.as_str()) {
            let ghost before = out.deep_view();
            let c = ModCopy {
                id: m.id.clone(),
                name: m.name.clone(),
                tags: text::copy_list(&m.tags),
                from: m.content_dir.clone(),
                to: paths::join(root, m.id.as_str()),
                note: paths::join(root, text::concat(m.id.as_str(), ".meta.json").as_str()),
            };
            let ghost cv = c.deep_view();
            assert(cv == mod_copy(root@, mv[i as int]));
            out.push(c);
            assert(out.deep_view() =~= before.push(cv));
        }
        i += 1;
    }
    assert(mv.take(i as int) =~= mv);
    out
}

fn choose_saves(root: &str, saves: &Vec<SaveFile>, named: &Vec<String>) -> (r: Vec<SaveCopy>)
    ensures
        r.deep_view() == chosen_saves(root@, saves.deep_view(), named.deep_view()),
{
    let ghost sv = saves.deep_view();
    let ghost nv = named.deep_view();
    let mut out: Vec<SaveCopy> = Vec::new();
    let mut i: usize = 0;
    assert(sv.take(0) =~= Seq::<SaveFileView>::empty());
    assert(out.deep_view() =~= Seq::<SaveCopyView>::empty());
    while i < saves.len()
        invariant
            i <= saves@.len(),
            sv == saves.deep_view(),
            nv == named.deep_view(),
            out.deep_view() == chosen_saves(root@, sv.take(i as int), nv),
        decreases saves.len() - i,
    {
        assert(sv.take(i + 1).drop_last() =~= sv.take(i as int));
        assert(sv.take(i + 1).last() == saves@[i as int].deep_view());
        let s = &saves[i];
        if named.len() == 0 || text::is_in(named, s.name.as_str()) {
            let ghost before = out.deep_view();
            let c = SaveCopy {
                name: s.name.clone(),
                size_bytes: s.size_bytes,
                from: s.path.clone(),
                to: paths::join(root, s.name.as_str()),
            };
            let ghost cv = c.deep_view();
            out.push(c);
            assert(out.deep_view() =~= before.push(cv));
        }
        i += 1;
    }
    assert(sv.take(i as int) =~= sv);
    out
}

/// Plans a backup of the chosen mods and saves. `saves` lists those of the
/// game.
pub fn create_backup(
    paths: &AppPaths,
    store: &ModStore,
    game: Option<&GameInstall>,
    selection: &BackupSelection,
    saves: &Vec<SaveFile>,
    now: u64,
) -> (r: Result<BackupPlan, BackupError>)
    ensures
        match r {
            Ok(p) => (selection.include_mods || selection.include_saves) && p.deep_view()
                == backup_of(
                paths.deep_view(),
                store.deep_view(),
                match game {
                    Some(g) => Some(g.deep_view()),
                    None => None,
                },
                selection.deep_view(),
                saves.deep_view(),
                now,
            ),
            Err(e) => !selection.include_mods && !selection.include_saves && e is NothingSelected,
        },
{
    if !selection.include_mods && !selection.include_saves {
        return Err(BackupError::NothingSelected);
    }
    let dest = paths::join3(
        paths.backups.as_str(),
        "user",
        text::number_text(now).as_str(),
    );
    let mods = if selection.include_mods {
        let root = paths::join(dest.as_str(), "mods");
        let copies = choose_mods(root.as_str(), &store.mods, &selection.mod_ids);
        Some((root, copies))
    } else {
        None
    };
    let part = if !selection.include_saves {
        SavesPart::NotAsked
    } else if game.is_none() {
        SavesPart::NoGame
    } else {
        let root = paths::join(dest.as_str(), "saves");
        let copies = choose_saves(root.as_str(), saves, &selection.save_names);
        SavesPart::Copy { root, copies }
    };
    let game_id = match game {
        Some(g) => Some(g.id.clone()),
        None => None,
    };
    Ok(BackupPlan { dest, created_at: now, game_id, mods, saves: part })
}

/// The ids of copied mods.
pub open spec fn copied_ids(copies: Seq<ModCopyView>) -> Seq<Seq<char>> {
    copies.map_values(|c: ModCopyView| c.id)
}

/// The names of copied mods.
pub open spec fn copied_names(copies: Seq<ModCopyView>) -> Seq<Seq<char>> {
    copies.map_values(|c: ModCopyView| c.name)
}

/// The names of copied saves.
pub open spec fn copied_saves(copies: Seq<SaveCopyView>) -> Seq<Seq<char>> {
    copies.map_values(|c: SaveCopyView| c.name)
}

/// The sizes of copied saves.
pub open spec fn save_sizes(copies: Seq<SaveCopyView>) -> Seq<u64> {
    copies.map_values(|c: SaveCopyView| c.size_bytes)
}

/// The mods that a plan copies.
pub open spec fn planned_mods(p: BackupPlanView) -> Seq<ModCopyView> {
    match p.mods {
        Some(m) => m.1,
        None => Seq::empty(),
    }
}

/// The saves that a plan copies.
pub open spec fn planned_saves(p: BackupPlanView) -> Seq<SaveCopyView> {
    match p.saves {
        SavesPartView::Copy { root, copies } => copies,
        _ => Seq::empty(),
    }
}

/// The manifest of a finished backup, given how many files and bytes were
/// copied of each mod.
pub open spec fn manifest_of(p: BackupPlanView, files: Seq<u64>, bytes: Seq<u64>) -> BackupManifestView {
    BackupManifestView {
        created_at: p.created_at,
        game_id: p.game_id,
        include_mods: p.mods is Some,
        mod_ids: copied_ids(planned_mods(p)),
        mod_names: copied_names(planned_mods(p)),
        include_saves: !(p.saves is NotAsked),
        save_names: copied_saves(planned_saves(p)),
        total_files: store::total(files) + planned_saves(p).len(),
        total_bytes: store::total(bytes) + store::total(save_sizes(planned_saves(p))),
    }
}

fn mod_columns(copies: &Vec<ModCopy>) -> (r: (Vec<String>, Vec<String>))
    ensures
        r.0.deep_view() == copied_ids(copies.deep_view()),
        r.1.deep_view() == copied_names(copies.deep_view()),
{
    let ghost ids_goal = copied_ids(copies.deep_view());
    let ghost names_goal = copied_names(copies.deep_view());
    let mut ids: Vec<String> = Vec::new();
    let mut names: Vec<String> = Vec::new();
    let mut i: usize = 0;
    while i < copies.len()
        invariant
            i <= copies@.len(),
            ids_goal == copied_ids(copies.deep_view()),
            names_goal == copied_names(copies.deep_view()),
            ids.deep_view() == ids_goal.take(i as int),
            names.deep_view() == names_goal.take(i as int),
        decreases copies.len() - i,
    {
        let ghost before = (ids.deep_view(), names.deep_view());
        ids.push(copies[i].id.clone());
        names.push(copies[i].name.clone());
        i += 1;
        assert(ids.deep_view() =~= before.0.push(ids_goal[i - 1]));
        assert(names.deep_view() =~= before.1.push(names_goal[i - 1]));
        assert(ids.deep_view() =~= ids_goal.take(i as int));
        assert(names.deep_view() =~= names_goal.take(i as int));
    }
    assert(ids.deep_view() =~= ids_goal);
    assert(names.deep_view() =~= names_goal);
    (ids, names)
}

fn save_columns(copies: &Vec<SaveCopy>) -> (r: (Vec<String>, Vec<u64>))
    ensures
        r.0.deep_view() == copied_saves(copies.deep_view()),
        r.1@ == save_sizes(copies.deep_view()),
{
    let ghost names_goal = copied_saves(copies.deep_view());
    let ghost sizes_goal = save_sizes(copies.deep_view());
    let mut names: Vec<String> = Vec::new();
    let mut sizes: Vec<u64> = Vec::new();
    let mut i: usize = 0;
    while i < copies.len()
        invariant
            i <= copies@.len(),
            names_goal == copied_saves(copies.deep_view()),
            sizes_goal == save_sizes(copies.deep_view()),
            names.deep_view() == names_goal.take(i as int),
            sizes@ == sizes_goal.take(i as int),
        decreases copies.len() - i,
    {
        let ghost before = names.deep_view();
        names.push(copies[i].name.clone());
        sizes.push(copies[i].size_bytes);
        i += 1;
        assert(names.deep_view() =~= before.push(names_goal[i - 1]));
        assert(names.deep_view() =~= names_goal.take(i as int));
        assert(sizes@ =~= sizes_goal.take(i as int));
    }
    assert(names.deep_view() =~= names_goal);
    assert(sizes@ =~= sizes_goal);
    (names, sizes)
}

/// Ends a backup that was carried out: its manifest and what it amounts to.
/// `files` and `bytes` tell how much was copied of each mod. A backup of saves
/// fails where there is no game.
pub fn finish_backup(plan: &BackupPlan, files: &Vec<u64>, bytes: &Vec<u64>) -> (r: Result<
    (BackupManifest, BackupResult),
    BackupError,
>)
    requires
        store::total(files@) + planned_saves(plan.deep_view()).len() <= u64::MAX,
        store::total(bytes@) + store::total(save_sizes(planned_saves(plan.deep_view())))
            <= u64::MAX,
    ensures
        match r {
            Ok(done) => {
                &&& !(plan.deep_view().saves is NoGame)
                &&& done.0.deep_view() == manifest_of(plan.deep_view(), files@, bytes@)
                &&& done.1.dest@ == plan.deep_view().dest
                &&& done.1.mods_backed_up == planned_mods(plan.deep_view()).len()
                &&& done.1.saves_backed_up == planned_saves(plan.deep_view()).len()
                &&& done.1.total_files == done.0.total_files
                &&& done.1.total_bytes == done.0.total_bytes
            },
            Err(e) => plan.deep_view().saves is NoGame && e is NoGame,
        },
{
    let (mod_ids, mod_names) = match &plan.mods {
        Some(m) => mod_columns(&m.1),
        None => {
            let none: (Vec<String>, Vec<String>) = (Vec::new(), Vec::new());
            assert(none.0.deep_view() =~= copied_ids(Seq::empty()));
            assert(none.1.deep_view() =~= copied_names(Seq::empty()));
            none
        },
    };
    let (save_names, sizes) = match &plan.saves {
        SavesPart::Copy { root, copies } => save_columns(copies),
        SavesPart::NoGame => {
            return Err(BackupError::NoGame);
        },
        SavesPart::NotAsked => {
            let none: (Vec<String>, Vec<u64>) = (Vec::new(), Vec::new());
            assert(none.0.deep_view() =~= copied_saves(Seq::empty()));
            assert(none.1@ =~= save_sizes(Seq::empty()));
            none
        },
    };
    assert(save_names@.len() == copied_saves(planned_saves(plan.deep_view())).len());
    assert(mod_ids@.len() == copied_ids(planned_mods(plan.deep_view())).len());
    let total_files: u64 = store::add_up(files) + save_names.len() as u64;
    let total_bytes: u64 = store::add_up(bytes) + store::add_up(&sizes);
    let include_saves = match &plan.saves {
        SavesPart::NotAsked => false,
        _ => true,
    };
    let result = BackupResult {
        dest: plan.dest.clone(),
        mods_backed_up: mod_ids.len(),
        saves_backed_up: save_names.len(),
        total_files,
        total_bytes,
    };
    let manifest = BackupManifest {
        created_at: plan.created_at,
        game_id: plan.game_id.clone(),
        include_mods: plan.mods.is_some(),
        mod_ids,
        mod_names,
        include_saves,
        save_names,
        total_files,
        total_bytes,
    };
    Ok((manifest, result))
}

// ---------------------------------------------------------------------------
// Copying a tree
// ---------------------------------------------------------------------------

/// An entry of a tree that is copied, by its path below the tree's root.
#[derive(Debug, Clone)]
pub struct TreeEntry {
    pub relative: String,
    pub is_dir: bool,
    pub is_file: bool,
    pub size_bytes: u64,
}

/// The mathematical content of a [`TreeEntry`].
pub struct TreeEntryView {
    pub relative: Seq<char>,
    pub is_dir: bool,
    pub is_file: bool,
    pub size_bytes: u64,
}

impl DeepView for TreeEntry {
    type V = TreeEntryView;

    open spec fn deep_view(&self) -> TreeEntryView {
        TreeEntryView {
            relative: self.relative@,
            is_dir: self.is_dir,
            is_file: self.is_file,
            size_bytes: self.size_bytes,
        }
    }
}

/// A step of copying a tree.
#[derive(Debug, Clone)]
pub enum CopyStep {
    /// Make a folder, with those that hold it.
    MakeFolder { path: String },
    CopyFile { from: String, to: String },
}

/// The mathematical content of a [`CopyStep`].
pub enum CopyStepView {
    MakeFolder { path: Seq<char> },
    CopyFile { from: Seq<char>, to: Seq<char> },
}

impl DeepView for CopyStep {
    type V = CopyStepView;

    open spec fn deep_view(&self) -> CopyStepView {
        match self {
            CopyStep::MakeFolder { path } => CopyStepView::MakeFolder { path: path@ },
            CopyStep::CopyFile { from, to } => CopyStepView::CopyFile { from: from@, to: to@ },
        }
    }
}

/// The steps that copy one entry. What is neither a folder nor a file is left
/// out.
pub open spec fn entry_steps(src: Seq<char>, dest: Seq<char>, e: TreeEntryView) -> Seq<CopyStepView> {
    let target = paths::joined(dest, e.relative);
    if e.is_dir {
        seq![CopyStepView::MakeFolder { path: target }]
    } else if e.is_file {
        (match paths::parent(target) {
            Some(p) => seq![CopyStepView::MakeFolder { path: p }],
            None => Seq::empty(),
        }) + seq![CopyStepView::CopyFile { from: paths::joined(src, e.relative), to: target }]
    } else {
        Seq::empty()
    }
}

/// The steps that copy a tree.
pub open spec fn tree_steps(src: Seq<char>, dest: Seq<char>, entries: Seq<TreeEntryView>) -> Seq<
    CopyStepView,
>
    decreases entries.len(),
{
    if entries.len() == 0 {
        seq![CopyStepView::MakeFolder { path: dest }]
    } else {
        tree_steps(src, dest, entries.drop_last()) + entry_steps(src, dest, entries.last())
    }
}

/// The sizes of the files in a tree.
pub open spec fn file_sizes(entries: Seq<TreeEntryView>) -> Seq<u64>
    decreases entries.len(),
{
    if entries.len() == 0 {
        Seq::empty()
    } else {
        let before = file_sizes(entries.drop_last());
        let e = entries.last();
        if !e.is_dir && e.is_file {
            before.push(e.size_bytes)
        } else {
            before
        }
    }
}

/// Plans the copy of a tree: the steps, and how many files and bytes they copy.
/// Nothing is done where the tree does not exist.
pub fn copy_tree(src: &str, dest: &str, exists_: bool, entries: &Vec<TreeEntry>) -> (r: (
    Vec<CopyStep>,
    u64,
    u64,
))
    requires
        store::total(file_sizes(entries.deep_view())) <= u64::MAX,
    ensures
        exists_ ==> {
            &&& r.0.deep_view() == tree_steps(src@, dest@, entries.deep_view())
            &&& r.1 == file_sizes(entries.deep_view()).len()
            &&& r.2 == store::total(file_sizes(entries.deep_view()))
        },
        !exists_ ==> r.0@.len() == 0 && r.1 == 0 && r.2 == 0,
{
    let mut steps: Vec<CopyStep> = Vec::new();
    if !exists_ {
        return (steps, 0, 0);
    }
    let ghost ev = entries.deep_view();
    let mut sizes: Vec<u64> = Vec::new();
    steps.push(CopyStep::MakeFolder { path: dest.to_owned() });
    let mut i: usize = 0;
    assert(ev.take(0) =~= Seq::<TreeEntryView>::empty());
    assert(sizes@ =~= file_sizes(ev.take(0)));
    assert(steps.deep_view() =~= tree_steps(src@, dest@, ev.take(0)));
    while i < entries.len()
        invariant
            i <= entries@.len(),
            ev == entries.deep_view(),
            sizes@ == file_sizes(ev.take(i as int)),
            steps.deep_view() == tree_steps(src@, dest@, ev.take(i as int)),
        decreases entries.len() - i,
    {
        let ghost t = ev.take(i + 1);
        assert(t.drop_last() =~= ev.take(i as int));
        assert(t.last() == entries@[i as int].deep_view());
        let ghost before = steps.deep_view();
        let e = &entries[i];
        let target = paths::join(dest, e.relative.as_str());
        if e.is_dir {
            steps.push(CopyStep::MakeFolder { path: target });
        } else if e.is_file {
            if let Some(p) = paths::parent_of(target.as_str()) {
                steps.push(CopyStep::MakeFolder { path: p });
            }
            steps.push(CopyStep::CopyFile { from: paths::join(src, e.relative.as_str()), to: target });
            sizes.push(e.size_bytes);
        }
        i += 1;
        assert(steps.deep_view() =~= before + entry_steps(src@, dest@, t.last()));
    }
    assert(ev.take(i as int) =~= ev);
    let bytes: u64 = store::add_up(&sizes);
    (steps, sizes.len() as u64, bytes)
}

// ---------------------------------------------------------------------------
// Packing and listing
// ---------------------------------------------------------------------------

/// An archive of a backup: its path, and each file's name in it and its path.
#[derive(Debug, Clone)]
pub struct BackupArchive {
    pub archive: String,
    pub entries: Vec<(String, String)>,
}

/// Plans an archive of a finished backup, next to its folder. `files` are the
/// files below the folder, by their paths below it.
pub fn zip_backup_folder(backup_dir: &str, is_dir: bool, files: &Vec<String>) -> (r: Result<
    BackupArchive,
    BackupError,
>)
    ensures
        match r {
            Ok(a) => {
                &&& is_dir
                &&& a.archive@ == paths::with_extension(backup_dir@, "zip"@)
                &&& a.entries.deep_view() == packed(backup_dir@, files.deep_view())
            },
            Err(e) => !is_dir && e is NoFolder && e->path@ == backup_dir@,
        },
{
    if !is_dir {
        return Err(BackupError::NoFolder { path: backup_dir.to_owned() });
    }
    let ghost goal = packed(backup_dir@, files.deep_view());
    let mut entries: Vec<(String, String)> = Vec::new();
    let mut i: usize = 0;
    while i < files.len()
        invariant
            i <= files@.len(),
            goal == packed(backup_dir@, files.deep_view()),
            entries.deep_view() == goal.take(i as int),
        decreases files.len() - i,
    {
        let ghost before = entries.deep_view();
        let pair = (
            text::replace_char(files[i].as_str(), '\\', '/'),
            paths::join(backup_dir, files[i].as_str()),
        );
        let ghost pv = pair.deep_view();
        entries.push(pair);
        assert(entries.deep_view() =~= before.push(pv));
        i += 1;
        assert(pv == goal[i - 1]);
        assert(entries.deep_view() =~= goal.take(i as int));
    }
    assert(entries.deep_view() =~= goal);
    Ok(BackupArchive { archive: paths::replace_extension(backup_dir, "zip"), entries })
}

/// Each file's name in an archive, with forward slashes, and its path.
pub open spec fn packed(dir: Seq<char>, files: Seq<Seq<char>>) -> Seq<(Seq<char>, Seq<char>)> {
    Seq::new(
        files.len(),
        |i: int| (text::replaced(files[i], '\\', '/'), paths::joined(dir, files[i])),
    )
}

/// Names, ranked from the last in the order of strings to the first.
pub struct LastNames<'a> {
    pub names: &'a Vec<String>,
}

impl<'a> Ranked for LastNames<'a> {
    open spec fn count(&self) -> nat {
        self.names@.len()
    }

    open spec fn upto(&self, i: int, j: int) -> bool {
        !text::text_less(self.names@[i]@, self.names@[j]@)
    }

    proof fn upto_total(&self, i: int, j: int) {
        let a = self.names@[i]@;
        let b = self.names@[j]@;
        if text::text_less(a, b) && text::text_less(b, a) {
            text::lemma_text_less_transitive(a, b, a);
            text::lemma_text_less_irreflexive(a);
        }
    }

    proof fn upto_transitive(&self, i: int, j: int, k: int) {
        let a = self.names@[i]@;
        let b = self.names@[j]@;
        let c = self.names@[k]@;
        text::lemma_text_less_total(a, b);
        text::lemma_text_less_total(b, c);
        if text::text_less(a, c) && text::text_less(b, a) {
            text::lemma_text_less_transitive(b, a, c);
        }
    }

    fn is_upto(&self, i: usize, j: usize) -> (r: bool) {
        !text::less(self.names[i].as_str(), self.names[j].as_str())
    }
}

/// The names of the folders among entries.
pub open spec fn folder_names(found: Seq<(Seq<char>, bool)>) -> Seq<Seq<char>>
    decreases found.len(),
{
    if found.len() == 0 {
        Seq::empty()
    } else {
        let before = folder_names(found.drop_last());
        if found.last().1 {
            before.push(found.last().0)
        } else {
            before
        }
    }
}

/// Whether the name at place `i` is listed before that at place `j`.
pub open spec fn comes_later(names: Seq<Seq<char>>, i: int, j: int) -> bool {
    text::text_less(names[j], names[i]) || (!text::text_less(names[i], names[j]) && i < j)
}

/// Whether `order` lists all places of `names`, those of later names first and
/// those of one name in order.
pub open spec fn is_latest_first(names: Seq<Seq<char>>, order: Seq<usize>) -> bool {
    &&& order.len() == names.len()
    &&& order.no_duplicates()
    &&& forall|k: int| 0 <= k < order.len() ==> #[trigger] order[k] < names.len()
    &&& forall|a: int, b: int|
        0 <= a < b < order.len() ==> comes_later(
            names,
            #[trigger] order[a] as int,
            #[trigger] order[b] as int,
        )
}

/// The folders with the names at these places.
pub open spec fn folders_at(root: Seq<char>, names: Seq<Seq<char>>, order: Seq<usize>) -> Seq<
    Seq<char>,
> {
    order.map_values(|i: usize| paths::joined(root, names[i as int]))
}

/// Whether `list` is the folders with these names, later names first.
pub open spec fn is_backup_list(root: Seq<char>, names: Seq<Seq<char>>, list: Seq<Seq<char>>) -> bool {
    exists|order: Seq<usize>|
        is_latest_first(names, order) && list == #[trigger] folders_at(root, names, order)
}

/// The folders of the backups, the latest first. `exists_` says whether the
/// folder that they are kept in is there, and `found` is what is in it: each
/// entry's name and whether it is a folder.
pub fn list_backups(paths: &AppPaths, exists_: bool, found: &Vec<(String, bool)>) -> (r: Vec<String>)
    ensures
        exists_ ==> is_backup_list(
            backups_root(paths.deep_view()),
            folder_names(found.deep_view()),
            r.deep_view(),
        ),
        !exists_ ==> r@.len() == 0,
{
    let mut out: Vec<String> = Vec::new();
    if !exists_ {
        return out;
    }
    let root = paths::join(paths.backups.as_str(), "user");
    let ghost fv = found.deep_view();
    let mut names: Vec<String> = Vec::new();
    let mut i: usize = 0;
    assert(fv.take(0) =~= Seq::<(Seq<char>, bool)>::empty());
    assert(names.deep_view() =~= Seq::<Seq<char>>::empty());
    while i < found.len()
        invariant
            i <= found@.len(),
            fv == found.deep_view(),
            names.deep_view() == folder_names(fv.take(i as int)),
        decreases found.len() - i,
    {
        assert(fv.take(i + 1).drop_last() =~= fv.take(i as int));
        assert(fv.take(i + 1).last() == found@[i as int].deep_view());
        if found[i].1 {
            let ghost before = names.deep_view();
            names.push(found[i].0.clone());
            assert(names.deep_view() =~= before.push(fv[i as int].0));
        }
        i += 1;
    }
    assert(fv.take(i as int) =~= fv);
    let ghost nv = names.deep_view();
    let ranked = LastNames { names: &names };
    let order = sorting::sorted_places(&ranked, names.len());
    let ghost goal = folders_at(root@, nv, order@);
    assert(is_latest_first(nv, order@)) by {
        assert forall|a: int, b: int| 0 <= a < b < order@.len() implies comes_later(
            nv,
            #[trigger] order@[a] as int,
            #[trigger] order@[b] as int,
        ) by {
            assert(sorting::comes_before(&ranked, order@[a] as int, order@[b] as int));
        }
    }
    let mut k: usize = 0;
    while k < order.len()
        invariant
            k <= order@.len(),
            nv == names.deep_view(),
            goal == folders_at(root@, nv, order@),
            is_latest_first(nv, order@),
            out.deep_view() == goal.take(k as int),
        decreases order.len() - k,
    {
        let ghost before = out.deep_view();
        assert(order@[k as int] < nv.len());
        let path = paths::join(root.as_str(), names[order[k]].as_str());
        let ghost pv = path@;
        out.push(path);
        k += 1;
        assert(pv == goal[k - 1]);
        assert(out.deep_view() =~= before.push(pv));
        assert(out.deep_view() =~= goal.take(k as int));
    }
    assert(out.deep_view() =~= goal);
    assert(is_backup_list(root@, nv, out.deep_view()));
    out
}

// ---------------------------------------------------------------------------
// Laws
// ---------------------------------------------------------------------------

/// A backup that names no mods holds all of them.
pub proof fn lemma_unnamed_means_all(root: Seq<char>, mods: Seq<ModEntryView>)
    ensures
        chosen_mods(root, mods, Seq::empty()) == mods.map_values(|m: ModEntryView| mod_copy(root, m)),
    decreases mods.len(),
{
    let f = |m: ModEntryView| mod_copy(root, m);
    if mods.len() > 0 {
        lemma_unnamed_means_all(root, mods.drop_last());
        assert(mods.map_values(f) =~= mods.drop_last().map_values(f).push(f(mods.last())));
    } else {
        assert(chosen_mods(root, mods, Seq::empty()) =~= mods.map_values(f));
    }
}

/// A backup holds a mod that is named if and only if the store does.
pub proof fn lemma_named_mods_are_chosen(
    root: Seq<char>,
    mods: Seq<ModEntryView>,
    named: Seq<Seq<char>>,
    id: Seq<char>,
)
    requires
        named.contains(id),
    ensures
        copied_ids(chosen_mods(root, mods, named)).contains(id) <==> exists|i: int|
            0 <= i < mods.len() && (#[trigger] mods[i]).id == id,
    decreases mods.len(),
{
    let all = copied_ids(chosen_mods(root, mods, named));
    if mods.len() > 0 {
        let t = mods.drop_last();
        let before = copied_ids(chosen_mods(root, t, named));
        lemma_named_mods_are_chosen(root, t, named, id);
        if all.contains(id) {
            let k = choose|k: int| 0 <= k < all.len() && all[k] == id;
            if k < before.len() {
                assert(before[k] == id);
                let i = choose|i: int| 0 <= i < t.len() && (#[trigger] t[i]).id == id;
                assert(mods[i].id == id);
            } else {
                assert(mods[mods.len() - 1].id == id);
            }
        }
        if exists|i: int| 0 <= i < mods.len() && (#[trigger] mods[i]).id == id {
            let i = choose|i: int| 0 <= i < mods.len() && (#[trigger] mods[i]).id == id;
            if i < t.len() {
                assert(t[i].id == id);
                let k = choose|k: int| 0 <= k < before.len() && before[k] == id;
                assert(all[k] == id);
            } else {
                assert(all[all.len() - 1] == id);
            }
        }
    }
}

/// A backup takes every mod that is chosen, with its folder, its name and its
/// tags; which ones are chosen, the named ids tell, and all are where none is
/// named.
pub proof fn lemma_chosen_mods_are_all_taken(
    root: Seq<char>,
    mods: Seq<ModEntryView>,
    named: Seq<Seq<char>>,
)
    ensures
        chosen_mods(root, mods, named) == mods.filter(
            |m: ModEntryView| named.len() == 0 || named.contains(m.id),
        ).map_values(
            |m: ModEntryView|
                ModCopyView {
                    id: m.id,
                    name: m.name,
                    tags: m.tags,
                    from: m.content_dir,
                    to: paths::joined(root, m.id),
                    note: paths::joined(root, m.id + ".meta.json"@),
                },
        ),
    decreases mods.len(),
{
    let pred = |m: ModEntryView| named.len() == 0 || named.contains(m.id);
    let g = |m: ModEntryView|
        ModCopyView {
            id: m.id,
            name: m.name,
            tags: m.tags,
            from: m.content_dir,
            to: paths::joined(root, m.id),
            note: paths::joined(root, m.id + ".meta.json"@),
        };
    if mods.len() == 0 {
        lists::lemma_filter_map_none(mods, pred, g);
    } else {
        let t = mods.drop_last();
        lemma_chosen_mods_are_all_taken(root, t, named);
        lists::lemma_filter_map_push(t, mods.last(), pred, g);
        assert(t.push(mods.last()) =~= mods);
    }
}

/// A backup takes every save that is chosen, under its own name; which ones are
/// chosen, the names tell, and all are where none is named.
pub proof fn lemma_chosen_saves_are_all_taken(
    root: Seq<char>,
    saves: Seq<SaveFileView>,
    named: Seq<Seq<char>>,
)
    ensures
        chosen_saves(root, saves, named) == saves.filter(
            |s: SaveFileView| named.len() == 0 || named.contains(s.name),
        ).map_values(
            |s: SaveFileView|
                SaveCopyView {
                    name: s.name,
                    size_bytes: s.size_bytes,
                    from: s.path,
                    to: paths::joined(root, s.name),
                },
        ),
    decreases saves.len(),
{
    let pred = |s: SaveFileView| named.len() == 0 || named.contains(s.name);
    let g = |s: SaveFileView|
        SaveCopyView {
            name: s.name,
            size_bytes: s.size_bytes,
            from: s.path,
            to: paths::joined(root, s.name),
        };
    if saves.len() == 0 {
        lists::lemma_filter_map_none(saves, pred, g);
    } else {
        let t = saves.drop_last();
        lemma_chosen_saves_are_all_taken(root, t, named);
        lists::lemma_filter_map_push(t, saves.last(), pred, g);
        assert(t.push(saves.last()) =~= saves);
    }
}

/// A backup goes into a folder of its own, named after the time, with the mods
/// in one folder below it and the saves in another; what was not asked for is
/// left out.
pub proof fn lemma_backup_holds_what_was_asked_for(
    paths: AppPathsView,
    mods: Seq<ModEntryView>,
    game: Option<GameInstallView>,
    selection: BackupSelectionView,
    saves: Seq<SaveFileView>,
    now: u64,
)
    ensures
        ({
            let p = backup_of(paths, mods, game, selection, saves, now);
            let dest = paths::joined(
                paths::joined(paths.backups, "user"@),
                text::decimal(now as nat),
            );
            &&& p.dest == dest
            &&& p.created_at == now
            &&& p.mods is Some <==> selection.include_mods
            &&& selection.include_mods ==> planned_mods(p) == chosen_mods(
                paths::joined(dest, "mods"@),
                mods,
                selection.mod_ids,
            )
            &&& p.saves is NotAsked <==> !selection.include_saves
            &&& p.saves is NoGame <==> selection.include_saves && game is None
            &&& selection.include_saves && game is Some ==> planned_saves(p) == chosen_saves(
                paths::joined(dest, "saves"@),
                saves,
                selection.save_names,
            )
            &&& game is Some ==> p.game_id == Some((game->0).id)
        }),
{
}

/// The manifest tells exactly what was copied: every mod by id and name, every
/// save by name, and all files and bytes together.
pub proof fn lemma_manifest_tells_what_was_copied(
    p: BackupPlanView,
    files: Seq<u64>,
    bytes: Seq<u64>,
    i: int,
)
    ensures
        ({
            let m = manifest_of(p, files, bytes);
            &&& m.mod_ids.len() == planned_mods(p).len() == m.mod_names.len()
            &&& 0 <= i < m.mod_ids.len() ==> m.mod_ids[i] == planned_mods(p)[i].id
                && m.mod_names[i] == planned_mods(p)[i].name
            &&& m.save_names == planned_saves(p).map_values(|s: SaveCopyView| s.name)
            &&& m.total_files == store::total(files) + planned_saves(p).len()
            &&& m.total_bytes == store::total(
                bytes + planned_saves(p).map_values(|s: SaveCopyView| s.size_bytes),
            )
            &&& m.created_at == p.created_at
        }),
{
    store::lemma_total_of_parts(bytes, save_sizes(planned_saves(p)), 0);
    assert(save_sizes(planned_saves(p)) =~= planned_saves(p).map_values(
        |s: SaveCopyView| s.size_bytes,
    ));
}

/// A tree is copied as a whole: first its own folder is made; then, entry by
/// entry, every folder is made and every file copied to the same place below the
/// new root, after the folder that holds it was made.
pub proof fn lemma_tree_is_copied_whole(
    src: Seq<char>,
    dest: Seq<char>,
    entries: Seq<TreeEntryView>,
)
    ensures
        tree_steps(src, dest, entries) == seq![CopyStepView::MakeFolder { path: dest }]
            + entries.map_values(
            |e: TreeEntryView|
                if e.is_dir {
                    seq![CopyStepView::MakeFolder { path: paths::joined(dest, e.relative) }]
                } else if e.is_file {
                    (match paths::parent(paths::joined(dest, e.relative)) {
                        Some(p) => seq![CopyStepView::MakeFolder { path: p }],
                        None => Seq::empty(),
                    }) + seq![
                        CopyStepView::CopyFile {
                            from: paths::joined(src, e.relative),
                            to: paths::joined(dest, e.relative),
                        },
                    ]
                } else {
                    Seq::empty()
                },
        ).flatten(),
    decreases entries.len(),
{
    let g = |e: TreeEntryView|
        if e.is_dir {
            seq![CopyStepView::MakeFolder { path: paths::joined(dest, e.relative) }]
        } else if e.is_file {
            (match paths::parent(paths::joined(dest, e.relative)) {
                Some(p) => seq![CopyStepView::MakeFolder { path: p }],
                None => Seq::empty(),
            }) + seq![
                CopyStepView::CopyFile {
                    from: paths::joined(src, e.relative),
                    to: paths::joined(dest, e.relative),
                },
            ]
        } else {
            Seq::empty()
        };
    let first = seq![CopyStepView::MakeFolder { path: dest }];
    if entries.len() == 0 {
        assert(first + entries.map_values(g).flatten() =~= first);
    } else {
        let t = entries.drop_last();
        lemma_tree_is_copied_whole(src, dest, t);
        assert(entry_steps(src, dest, entries.last()) == g(entries.last()));
        assert(entries.map_values(g) =~= t.map_values(g).push(g(entries.last())));
        lists::lemma_flatten_push(t.map_values(g), g(entries.last()));
        assert((first + t.map_values(g).flatten()) + g(entries.last()) =~= first + (t.map_values(
            g,
        ).flatten() + g(entries.last())));
    }
}

/// All files of a tree are counted with their sizes, and nothing else.
pub proof fn lemma_file_sizes_are_all_counted(entries: Seq<TreeEntryView>)
    ensures
        file_sizes(entries) == entries.filter(
            |e: TreeEntryView| !e.is_dir && e.is_file,
        ).map_values(|e: TreeEntryView| e.size_bytes),
    decreases entries.len(),
{
    let pred = |e: TreeEntryView| !e.is_dir && e.is_file;
    let g = |e: TreeEntryView| e.size_bytes;
    if entries.len() == 0 {
        lists::lemma_filter_map_none(entries, pred, g);
    } else {
        let t = entries.drop_last();
        lemma_file_sizes_are_all_counted(t);
        lists::lemma_filter_map_push(t, entries.last(), pred, g);
        assert(t.push(entries.last()) =~= entries);
    }
}

/// Every file of a backup goes into its archive, by its path below the backup
/// with forward slashes.
pub proof fn lemma_every_file_is_packed(dir: Seq<char>, files: Seq<Seq<char>>)
    ensures
        packed(dir, files) == files.map_values(
            |f: Seq<char>| (text::replaced(f, '\\', '/'), paths::joined(dir, f)),
        ),
{
    assert(packed(dir, files) =~= files.map_values(
        |f: Seq<char>| (text::replaced(f, '\\', '/'), paths::joined(dir, f)),
    ));
}

/// The backups that are listed are all folders where they are kept, and no
/// files.
pub proof fn lemma_every_folder_is_a_backup(found: Seq<(Seq<char>, bool)>)
    ensures
        folder_names(found) == found.filter(|e: (Seq<char>, bool)| e.1).map_values(
            |e: (Seq<char>, bool)| e.0,
        ),
    decreases found.len(),
{
    let pred = |e: (Seq<char>, bool)| e.1;
    let g = |e: (Seq<char>, bool)| e.0;
    if found.len() == 0 {
        lists::lemma_filter_map_none(found, pred, g);
    } else {
        let t = found.drop_last();
        lemma_every_folder_is_a_backup(t);
        lists::lemma_filter_map_push(t, found.last(), pred, g);
        assert(t.push(found.last()) =~= found);
    }
}

/// Every backup is listed, and a later name stands before an earlier one.
pub proof fn lemma_backups_latest_first(
    root: Seq<char>,
    names: Seq<Seq<char>>,
    list: Seq<Seq<char>>,
    i: int,
    j: int,
) -> (r: (int, int))
    requires
        is_backup_list(root, names, list),
        0 <= i < names.len(),
        0 <= j < names.len(),
        text::text_less(names[i], names[j]),
    ensures
        0 <= r.1 < r.0 < list.len() == names.len(),
        list[r.0] == paths::joined(root, names[i]),
        list[r.1] == paths::joined(root, names[j]),
{
    let order = choose|order: Seq<usize>|
        is_latest_first(names, order) && list == #[trigger] folders_at(root, names, order);
    crate::graph::lemma_distinct_below(order, usize::MAX + 1);
    let a = lemma_place_in_order(names, order, i);
    let b = lemma_place_in_order(names, order, j);
    if a < b {
        assert(comes_later(names, order[a] as int, order[b] as int));
        if text::text_less(names[j], names[i]) {
            text::lemma_text_less_transitive(names[i], names[j], names[i]);
        }
        text::lemma_text_less_irreflexive(names[i]);
    } else if a == b {
        text::lemma_text_less_irreflexive(names[i]);
    }
    (a, b)
}

proof fn lemma_place_in_order(names: Seq<Seq<char>>, order: Seq<usize>, i: int) -> (k: int)
    requires
        is_latest_first(names, order),
        names.len() <= usize::MAX + 1,
        0 <= i < names.len(),
    ensures
        0 <= k < order.len(),
        order[k] == i,
{
    let v = i as usize;
    if !order.contains(v) {
        let t = order.push(v);
        assert(t.no_duplicates());
        crate::graph::lemma_distinct_below(t, names.len() as int);
    }
    choose|k: int| 0 <= k < order.len() && order[k] == v
}

} // verus!
