//! Save games: what is in a game's folder of saves, and what moves in and out
//! of it.

use crate::game::{GameInstall, GameInstallView};
use crate::lists;
use crate::paths;
use crate::sorting;
use crate::sorting::Ranked;
use crate::text;
use vstd::prelude::*;

verus! {

/// What a file in the folder of saves is.
#[derive(Debug, Clone, Copy, PartialEq, Eq, Structural)]
pub enum SaveKind {
    /// A save (`.ess`).
    Ess,
    /// What the script extender keeps with a save (`.skse`).
    Skse,
    /// A picture of the character.
    Image,
    Other,
}

/// The kind of a file of this name.
pub open spec fn kind_of_save(name: Seq<char>) -> SaveKind {
    let lower = text::lowercase(name);
    if text::ends_in(lower, ".ess"@) {
        SaveKind::Ess
    } else if text::ends_in(lower, ".skse"@) {
        SaveKind::Skse
    } else if text::ends_in(lower, ".jpg"@) || text::ends_in(lower, ".jpeg"@) || text::ends_in(
        lower,
        ".png"@,
    ) || text::ends_in(lower, ".bmp"@) {
        SaveKind::Image
    } else {
        SaveKind::Other
    }
}

/// The word for a kind.
pub open spec fn save_label(kind: SaveKind) -> Seq<char> {
    match kind {
        SaveKind::Ess => "save"@,
        SaveKind::Skse => "skse"@,
        SaveKind::Image => "image"@,
        SaveKind::Other => "other"@,
    }
}

impl SaveKind {
    /// The kind of a file of this name.
    pub fn from_name(name: &str) -> (r: Self)
        ensures
            r == kind_of_save(name@),
    {
        let lower = text::to_lowercase(name);
        let l = lower.as_str();
        if text::has_suffix(l, ".ess") {
            SaveKind::Ess
        } else if text::has_suffix(l, ".skse") {
            SaveKind::Skse
        } else if text::has_suffix(l, ".jpg") || text::has_suffix(l, ".jpeg") || text::has_suffix(
            l,
            ".png",
        ) || text::has_suffix(l, ".bmp") {
            SaveKind::Image
        } else {
            SaveKind::Other
        }
    }

    /// The word for this kind.
    pub fn label(self) -> (r: &'static str)
        ensures
            r@ == save_label(self),
    {
        match self {
            SaveKind::Ess => "save",
            SaveKind::Skse => "skse",
            SaveKind::Image => "image",
            SaveKind::Other => "other",
        }
    }
}

/// A file in a game's folder of saves.
#[derive(Debug, Clone)]
pub struct SaveFile {
    /// The file's name.
    pub name: String,
    pub path: String,
    pub size_bytes: u64,
    /// When it was last written, in seconds of Unix time, if that is known.
    pub modified_secs: Option<u64>,
    pub kind: SaveKind,
}

/// The mathematical content of a [`SaveFile`].
pub struct SaveFileView {
    pub name: Seq<char>,
    pub path: Seq<char>,
    pub size_bytes: u64,
    pub modified_secs: Option<u64>,
    pub kind: SaveKind,
}

impl DeepView for SaveFile {
    type V = SaveFileView;

    open spec fn deep_view(&self) -> SaveFileView {
        SaveFileView {
            name: self.name@,
            path: self.path@,
            size_bytes: self.size_bytes,
            modified_secs: self.modified_secs,
            kind: self.kind,
        }
    }
}

impl SaveFile {
    /// A copy.
    pub fn copy(&self) -> (r: Self)
        ensures
            r.deep_view() == self.deep_view(),
    {
        SaveFile {
            name: self.name.clone(),
            path: self.path.clone(),
            size_bytes: self.size_bytes,
            modified_secs: self.modified_secs,
            kind: self.kind,
        }
    }
}

/// What reading the folder of saves tells of an entry.
#[derive(Debug, Clone)]
pub struct FoundSave {
    pub name: String,
    pub is_file: bool,
    pub size_bytes: u64,
    pub modified_secs: Option<u64>,
}

/// The mathematical content of a [`FoundSave`].
pub struct FoundSaveView {
    pub name: Seq<char>,
    pub is_file: bool,
    pub size_bytes: u64,
    pub modified_secs: Option<u64>,
}

impl DeepView for FoundSave {
    type V = FoundSaveView;

    open spec fn deep_view(&self) -> FoundSaveView {
        FoundSaveView {
            name: self.name@,
            is_file: self.is_file,
            size_bytes: self.size_bytes,
            modified_secs: self.modified_secs,
        }
    }
}

/// What can go wrong with saves.
#[derive(Debug, Clone)]
pub enum SavesError {
    NothingSelected,
    NoSavesDir,
    SourceMissing { source: String },
    NoFileName,
    NothingInFolder { source: String },
    NothingInArchive { archive: String },
}

/// The mathematical content of a [`SavesError`].
pub enum SavesErrorView {
    NothingSelected,
    NoSavesDir,
    SourceMissing { source: Seq<char> },
    NoFileName,
    NothingInFolder { source: Seq<char> },
    NothingInArchive { archive: Seq<char> },
}

impl DeepView for SavesError {
    type V = SavesErrorView;

    open spec fn deep_view(&self) -> SavesErrorView {
        match self {
            SavesError::NothingSelected => SavesErrorView::NothingSelected,
            SavesError::NoSavesDir => SavesErrorView::NoSavesDir,
            SavesError::SourceMissing { source } => SavesErrorView::SourceMissing {
                source: source@,
            },
            SavesError::NoFileName => SavesErrorView::NoFileName,
            SavesError::NothingInFolder { source } => SavesErrorView::NothingInFolder {
                source: source@,
            },
            SavesError::NothingInArchive { archive } => SavesErrorView::NothingInArchive {
                archive: archive@,
            },
        }
    }
}

/// An error in words.
pub open spec fn saves_message(e: SavesErrorView) -> Seq<char> {
    match e {
        SavesErrorView::NothingSelected => "no save files selected to export"@,
        SavesErrorView::NoSavesDir => "could not determine Saves directory for this game install"@,
        SavesErrorView::SourceMissing { source } => "import source does not exist: "@ + source,
        SavesErrorView::NoFileName => "import source has no file name"@,
        SavesErrorView::NothingInFolder { source } => "no .ess/.skse/image files found under "@
            + source,
        SavesErrorView::NothingInArchive { archive } => "no .ess/.skse/image files found in "@
            + archive,
    }
}

impl SavesError {
    /// The error in words.
    pub fn message(&self) -> (r: String)
        ensures
            r@ == saves_message(self.deep_view()),
    {
        match self {
            SavesError::NothingSelected => "no save files selected to export".to_owned(),
            SavesError::NoSavesDir => {
                "could not determine Saves directory for this game install".to_owned()
            },
            SavesError::SourceMissing { source } => text::concat(
                "import source does not exist: ",
                source.as_str(),
            ),
            SavesError::NoFileName => "import source has no file name".to_owned(),
            SavesError::NothingInFolder { source } => text::concat(
                "no .ess/.skse/image files found under ",
                source.as_str(),
            ),
            SavesError::NothingInArchive { archive } => text::concat(
                "no .ess/.skse/image files found in ",
                archive.as_str(),
            ),
        }
    }
}

/// The folder of a game's saves: beside its `plugins.txt`.
pub open spec fn saves_path(game: GameInstallView) -> Option<Seq<char>> {
    match paths::parent(game.plugins_txt) {
        Some(p) => Some(paths::joined(p, "Saves"@)),
        None => None,
    }
}

/// The folder of a game's saves.
pub fn saves_dir(game: &GameInstall) -> (r: Option<String>)
    ensures
        r.deep_view() == saves_path(game.deep_view()),
{
    match paths::parent_of(game.plugins_txt.as_str()) {
        Some(p) => Some(paths::join(p.as_str(), "Saves")),
        None => None,
    }
}

// ---------------------------------------------------------------------------
// Listing
// ---------------------------------------------------------------------------

/// The files among the entries of the folder of saves.
pub open spec fn saves_in(dir: Seq<char>, found: Seq<FoundSaveView>) -> Seq<SaveFileView>
    decreases found.len(),
{
    if found.len() == 0 {
        Seq::empty()
    } else {
        let before = saves_in(dir, found.drop_last());
        let f = found.last();
        if f.is_file {
            before.push(
                SaveFileView {
                    name: f.name,
                    path: paths::joined(dir, f.name),
                    size_bytes: f.size_bytes,
                    modified_secs: f.modified_secs,
                    kind: kind_of_save(f.name),
                },
            )
        } else {
            before
        }
    }
}

/// Whether `a` is a later time than `b`; an unknown time is before all others.
pub open spec fn is_later(a: Option<u64>, b: Option<u64>) -> bool {
    match (a, b) {
        (Some(x), Some(y)) => x > y,
        (Some(_), None) => true,
        (None, _) => false,
    }
}

/// Whether `a` is listed before `b`: the newer first, and of the same age by
/// name.
pub open spec fn lists_before(a: SaveFileView, b: SaveFileView) -> bool {
    is_later(a.modified_secs, b.modified_secs) || (a.modified_secs == b.modified_secs
        && text::text_less(a.name, b.name))
}

/// Whether place `i` is listed before place `j`.
pub open spec fn comes_first(saves: Seq<SaveFileView>, i: int, j: int) -> bool {
    lists_before(saves[i], saves[j]) || (!lists_before(saves[j], saves[i]) && i < j)
}

/// Whether `order` lists all places of `saves`, newest first and then by name,
/// and equals in order.
pub open spec fn is_save_order(saves: Seq<SaveFileView>, order: Seq<usize>) -> bool {
    &&& order.len() == saves.len()
    &&& order.no_duplicates()
    &&& forall|k: int| 0 <= k < order.len() ==> #[trigger] order[k] < saves.len()
    &&& forall|a: int, b: int|
        0 <= a < b < order.len() ==> comes_first(
            saves,
            #[trigger] order[a] as int,
            #[trigger] order[b] as int,
        )
}

/// What stands at these places.
pub open spec fn saves_at(saves: Seq<SaveFileView>, order: Seq<usize>) -> Seq<SaveFileView> {
    order.map_values(|i: usize| saves[i as int])
}

/// Whether `list` is `saves`, newest first and then by name.
pub open spec fn is_listing(saves: Seq<SaveFileView>, list: Seq<SaveFileView>) -> bool {
    exists|order: Seq<usize>|
        is_save_order(saves, order) && list == #[trigger] saves_at(saves, order)
}

/// Saves, ranked newest first and then by name.
pub struct SaveKeys<'a> {
    pub saves: &'a Vec<SaveFile>,
}

impl<'a> Ranked for SaveKeys<'a> {
    open spec fn count(&self) -> nat {
        self.saves@.len()
    }

    open spec fn upto(&self, i: int, j: int) -> bool {
        !lists_before(self.saves@[j].deep_view(), self.saves@[i].deep_view())
    }

    proof fn upto_total(&self, i: int, j: int) {
        let a = self.saves@[i].deep_view();
        let b = self.saves@[j].deep_view();
        if text::text_less(a.name, b.name) && text::text_less(b.name, a.name) {
            text::lemma_text_less_transitive(a.name, b.name, a.name);
            text::lemma_text_less_irreflexive(a.name);
        }
    }

    proof fn upto_transitive(&self, i: int, j: int, k: int) {
        let a = self.saves@[i].deep_view();
        let b = self.saves@[j].deep_view();
        let c = self.saves@[k].deep_view();
        text::lemma_text_less_total(a.name, b.name);
        text::lemma_text_less_total(b.name, c.name);
        if text::text_less(c.name, a.name) && text::text_less(a.name, b.name) {
            text::lemma_text_less_transitive(c.name, a.name, b.name);
        }
    }

    fn is_upto(&self, i: usize, j: usize) -> (r: bool) {
        let a = &self.saves[i];
        let b = &self.saves[j];
        let later = match (b.modified_secs, a.modified_secs) {
            (Some(x), Some(y)) => x > y,
            (Some(_), None) => true,
            (None, _) => false,
        };
        let same = match (b.modified_secs, a.modified_secs) {
            (Some(x), Some(y)) => x == y,
            (None, None) => true,
            _ => false,
        };
        !(later || (same && text::less(b.name.as_str(), a.name.as_str())))
    }
}

fn gather(dir: &str, found: &Vec<FoundSave>) -> (r: Vec<SaveFile>)
    ensures
        r.deep_view() == saves_in(dir@, found.deep_view()),
{
    let ghost fv = found.deep_view();
    let mut out: Vec<SaveFile> = Vec::new();
    let mut i: usize = 0;
    assert(fv.take(0) =~= Seq::<FoundSaveView>::empty());
    assert(out.deep_view() =~= Seq::<SaveFileView>::empty());
    while i < found.len()
        invariant
            i <= found@.len(),
            fv == found.deep_view(),
            out.deep_view() == saves_in(dir@, fv.take(i as int)),
        decreases found.len() - i,
    {
        assert(fv.take(i + 1).drop_last() =~= fv.take(i as int));
        assert(fv.take(i + 1).last() == found@[i as int].deep_view());
        let f = &found[i];
        if f.is_file {
            let ghost before = out.deep_view();
            let save = SaveFile {
                name: f.name.clone(),
                path: paths::join(dir, f.name.as_str()),
                size_bytes: f.size_bytes,
                modified_secs: f.modified_secs,
                kind: SaveKind::from_name(f.name.as_str()),
            };
            let ghost sv = save.deep_view();
            out.push(save);
            assert(out.deep_view() =~= before.push(sv));
        }
        i += 1;
    }
    assert(fv.take(i as int) =~= fv);
    out
}

/// The files in a game's folder of saves, newest first and then by name; those
/// of unknown age come last. `exists_` says whether the folder is there, and
/// `found` is what is in it.
pub fn list_saves(game: &GameInstall, exists_: bool, found: &Vec<FoundSave>) -> (r: Vec<SaveFile>)
    ensures
        match saves_path(game.deep_view()) {
            Some(dir) if exists_ => is_listing(
                saves_in(dir, found.deep_view()),
                r.deep_view(),
            ),
            _ => r.deep_view() == Seq::<SaveFileView>::empty(),
        },
{
    let mut out: Vec<SaveFile> = Vec::new();
    assert(out.deep_view() =~= Seq::<SaveFileView>::empty());
    let dir = match saves_dir(game) {
        Some(d) => d,
        None => {
            return out;
        },
    };
    if !exists_ {
        return out;
    }
    let saves = gather(dir.as_str(), found);
    let ghost sv = saves.deep_view();
    let ranked = SaveKeys { saves: &saves };
    let order = sorting::sorted_places(&ranked, saves.len());
    let ghost goal = saves_at(sv, order@);
    assert(is_save_order(sv, order@)) by {
        assert forall|a: int, b: int| 0 <= a < b < order@.len() implies comes_first(
            sv,
            #[trigger] order@[a] as int,
            #[trigger] order@[b] as int,
        ) by {
            assert(sorting::comes_before(&ranked, order@[a] as int, order@[b] as int));
        }
    }
    let mut i: usize = 0;
    while i < order.len()
        invariant
            i <= order@.len(),
            sv == saves.deep_view(),
            goal == saves_at(sv, order@),
            is_save_order(sv, order@),
            out.deep_view() == goal.take(i as int),
        decreases order.len() - i,
    {
        let ghost before = out.deep_view();
        assert(order@[i as int] < sv.len());
        out.push(saves[order[i]].copy());
        i += 1;
        assert(out.deep_view() =~= before.push(goal[i - 1]));
        assert(out.deep_view() =~= goal.take(i as int));
    }
    assert(out.deep_view() =~= goal);
    assert(is_listing(sv, out.deep_view()));
    out
}

// ---------------------------------------------------------------------------
// Exporting
// ---------------------------------------------------------------------------

/// How saves are exported.
#[derive(Debug, Clone)]
pub enum ExportPlan {
    /// Write an archive, with the folder that holds it: each file's name in the
    /// archive and its path.
    Archive { holder: Option<String>, archive: String, entries: Vec<(String, String)> },
    /// Copy into a folder: each file's path and its target.
    Folder { dest: String, copies: Vec<(String, String)> },
}

/// The mathematical content of an [`ExportPlan`].
pub enum ExportPlanView {
    Archive {
        holder: Option<Seq<char>>,
        archive: Seq<char>,
        entries: Seq<(Seq<char>, Seq<char>)>,
    },
    Folder { dest: Seq<char>, copies: Seq<(Seq<char>, Seq<char>)> },
}

impl DeepView for ExportPlan {
    type V = ExportPlanView;

    open spec fn deep_view(&self) -> ExportPlanView {
        match self {
            ExportPlan::Archive { holder, archive, entries } => ExportPlanView::Archive {
                holder: holder.deep_view(),
                archive: archive@,
                entries: entries.deep_view(),
            },
            ExportPlan::Folder { dest, copies } => ExportPlanView::Folder {
                dest: dest@,
                copies: copies.deep_view(),
            },
        }
    }
}

/// Whether an export to this place writes an archive.
pub open spec fn exports_archive(dest: Seq<char>, as_zip: bool) -> bool {
    as_zip || match paths::extension(dest) {
        Some(e) => text::ascii_fold(e) == text::ascii_fold("zip"@),
        None => false,
    }
}

/// The plan for an export.
pub open spec fn export_of(files: Seq<SaveFileView>, dest: Seq<char>, as_zip: bool) -> ExportPlanView {
    if exports_archive(dest, as_zip) {
        ExportPlanView::Archive {
            holder: paths::parent(dest),
            archive: dest,
            entries: Seq::new(files.len(), |i: int| (files[i].name, files[i].path)),
        }
    } else {
        ExportPlanView::Folder {
            dest,
            copies: Seq::new(
                files.len(),
                |i: int| (files[i].path, paths::joined(dest, files[i].name)),
            ),
        }
    }
}

/// Plans the export of saves, under their names: into an archive where that is
/// asked for or the destination is named like one, else into a folder.
pub fn export_saves(files: &Vec<SaveFile>, dest: &str, as_zip: bool) -> (r: Result<
    ExportPlan,
    SavesError,
>)
    ensures
        match r {
            Ok(p) => files@.len() > 0 && p.deep_view() == export_of(files.deep_view(), dest@, as_zip),
            Err(e) => files@.len() == 0 && e is NothingSelected,
        },
{
    if files.len() == 0 {
        return Err(SavesError::NothingSelected);
    }
    let zip = as_zip || match paths::path_extension(dest) {
        Some(e) => text::same_ignoring_case(e.as_str(), "zip"),
        None => false,
    };
    let ghost fv = files.deep_view();
    let ghost in_archive = Seq::new(fv.len(), |i: int| (fv[i].name, fv[i].path));
    let ghost in_folder = Seq::new(
        fv.len(),
        |i: int| (fv[i].path, paths::joined(dest@, fv[i].name)),
    );
    let mut list: Vec<(String, String)> = Vec::new();
    let mut i: usize = 0;
    while i < files.len()
        invariant
            i <= files@.len(),
            fv == files.deep_view(),
            in_archive == Seq::new(fv.len(), |i: int| (fv[i].name, fv[i].path)),
            in_folder == Seq::new(
                fv.len(),
                |i: int| (fv[i].path, paths::joined(dest@, fv[i].name)),
            ),
            zip ==> list.deep_view() == in_archive.take(i as int),
            !zip ==> list.deep_view() == in_folder.take(i as int),
        decreases files.len() - i,
    {
        let ghost before = list.deep_view();
        let f = &files[i];
        let pair = if zip {
            (f.name.clone(), f.path.clone())
        } else {
            (f.path.clone(), paths::join(dest, f.name.as_str()))
        };
        let ghost pv = pair.deep_view();
        list.push(pair);
        assert(list.deep_view() =~= before.push(pv));
        i += 1;
        assert(zip ==> list.deep_view() =~= in_archive.take(i as int));
        assert(!zip ==> list.deep_view() =~= in_folder.take(i as int));
    }
    assert(in_archive.take(i as int) =~= in_archive);
    assert(in_folder.take(i as int) =~= in_folder);
    if zip {
        Ok(
            ExportPlan::Archive {
                holder: paths::parent_of(dest),
                archive: dest.to_owned(),
                entries: list,
            },
        )
    } else {
        Ok(ExportPlan::Folder { dest: dest.to_owned(), copies: list })
    }
}

// ---------------------------------------------------------------------------
// Importing
// ---------------------------------------------------------------------------

/// How saves are imported into the folder of saves.
#[derive(Debug, Clone)]
pub enum ImportWay {
    /// The files below a folder.
    FromFolder { saves: String },
    /// The files in an archive.
    FromArchive { saves: String },
    /// One file.
    OneFile { dest: String },
}

/// The mathematical content of an [`ImportWay`].
pub enum ImportWayView {
    FromFolder { saves: Seq<char> },
    FromArchive { saves: Seq<char> },
    OneFile { dest: Seq<char> },
}

impl DeepView for ImportWay {
    type V = ImportWayView;

    open spec fn deep_view(&self) -> ImportWayView {
        match self {
            ImportWay::FromFolder { saves } => ImportWayView::FromFolder { saves: saves@ },
            ImportWay::FromArchive { saves } => ImportWayView::FromArchive { saves: saves@ },
            ImportWay::OneFile { dest } => ImportWayView::OneFile { dest: dest@ },
        }
    }
}

/// How a source is imported, or why it cannot be.
pub open spec fn import_of(
    game: GameInstallView,
    source: Seq<char>,
    exists_: bool,
    is_dir: bool,
) -> Result<ImportWayView, SavesErrorView> {
    match saves_path(game) {
        None => Err(SavesErrorView::NoSavesDir),
        Some(saves) => if !exists_ {
            Err(SavesErrorView::SourceMissing { source })
        } else if is_dir {
            Ok(ImportWayView::FromFolder { saves })
        } else if text::ends_in(text::lowercase(source), ".zip"@) {
            Ok(ImportWayView::FromArchive { saves })
        } else {
            match paths::file_name(source) {
                Some(name) => Ok(ImportWayView::OneFile { dest: paths::joined(saves, name) }),
                None => Err(SavesErrorView::NoFileName),
            }
        },
    }
}

/// How to import a folder, an archive or a single file into a game's folder of
/// saves.
pub fn import_saves(game: &GameInstall, source: &str, exists_: bool, is_dir: bool) -> (r: Result<
    ImportWay,
    SavesError,
>)
    ensures
        match r {
            Ok(w) => import_of(game.deep_view(), source@, exists_, is_dir) == Ok::<
                ImportWayView,
                SavesErrorView,
            >(w.deep_view()),
            Err(e) => import_of(game.deep_view(), source@, exists_, is_dir) == Err::<
                ImportWayView,
                SavesErrorView,
            >(e.deep_view()),
        },
{
    let saves = match saves_dir(game) {
        Some(d) => d,
        None => {
            return Err(SavesError::NoSavesDir);
        },
    };
    if !exists_ {
        return Err(SavesError::SourceMissing { source: source.to_owned() });
    }
    if is_dir {
        return Ok(ImportWay::FromFolder { saves });
    }
    let lower = text::to_lowercase(source);
    if text::has_suffix(lower.as_str(), ".zip") {
        return Ok(ImportWay::FromArchive { saves });
    }
    match paths::last_step(source) {
        Some(name) => Ok(ImportWay::OneFile { dest: paths::join(saves.as_str(), name.as_str()) }),
        None => Err(SavesError::NoFileName),
    }
}

/// Whether a file of this name is imported.
pub open spec fn is_imported(name: Option<Seq<char>>) -> bool {
    name is Some && !(kind_of_save(name->0) is Other)
}

/// Whether a file of a folder is imported: it looks like a save and lies in the
/// folder itself or in one of its folders.
pub open spec fn is_imported_from(file: Seq<char>) -> bool {
    paths::steps(file).len() <= 2 && is_imported(paths::file_name(file))
}

/// The copies that an import from a folder makes: those of the files that look
/// like saves, straight into the folder of saves.
pub open spec fn folder_imports(saves: Seq<char>, source: Seq<char>, files: Seq<Seq<char>>) -> Seq<
    (Seq<char>, Seq<char>),
>
    decreases files.len(),
{
    if files.len() == 0 {
        Seq::empty()
    } else {
        let before = folder_imports(saves, source, files.drop_last());
        let name = paths::file_name(files.last());
        if is_imported_from(files.last()) {
            before.push((paths::joined(source, files.last()), paths::joined(saves, name->0)))
        } else {
            before
        }
    }
}

fn import_name(path: &str) -> (r: Option<String>)
    ensures
        r.deep_view() == (if is_imported(paths::file_name(path@)) {
            paths::file_name(path@)
        } else {
            None
        }),
{
    match paths::last_step(path) {
        Some(name) => if SaveKind::from_name(name.as_str()) == SaveKind::Other {
            None
        } else {
            Some(name)
        },
        None => None,
    }
}

/// Plans an import from a folder: each file's path and its target. `files` are
/// the files below it, by their paths there; those in folders of its folders are
/// left out.
pub fn import_from_dir(saves: &str, source: &str, files: &Vec<String>) -> (r: Result<
    Vec<(String, String)>,
    SavesError,
>)
    ensures
        match r {
            Ok(copies) => copies@.len() > 0 && copies.deep_view() == folder_imports(
                saves@,
                source@,
                files.deep_view(),
            ),
            Err(e) => folder_imports(saves@, source@, files.deep_view()).len() == 0 && e.deep_view() == (
            SavesErrorView::NothingInFolder { source: source@ }),
        },
{
    let ghost fv = files.deep_view();
    let mut out: Vec<(String, String)> = Vec::new();
    let mut i: usize = 0;
    assert(fv.take(0) =~= Seq::<Seq<char>>::empty());
    assert(out.deep_view() =~= Seq::<(Seq<char>, Seq<char>)>::empty());
    while i < files.len()
        invariant
            i <= files@.len(),
            fv == files.deep_view(),
            out.deep_view() == folder_imports(saves@, source@, fv.take(i as int)),
        decreases files.len() - i,
    {
        assert(fv.take(i + 1).drop_last() =~= fv.take(i as int));
        assert(fv.take(i + 1).last() == files@[i as int]@);
        let steps = paths::split_steps(files[i].as_str());
        assert(steps.deep_view().len() == steps@.len());
        if let Some(name) = import_name(files[i].as_str()) {
            if steps.len() <= 2 {
                let ghost before = out.deep_view();
                let pair = (
                    paths::join(source, files[i].as_str()),
                    paths::join(saves, name.as_str()),
                );
                let ghost pv = pair.deep_view();
                out.push(pair);
                assert(out.deep_view() =~= before.push(pv));
            }
        }
        i += 1;
    }
    assert(fv.take(i as int) =~= fv);
    assert(out.deep_view().len() == out@.len());
    if out.len() == 0 {
        return Err(SavesError::NothingInFolder { source: source.to_owned() });
    }
    Ok(out)
}

/// The extractions that an import from an archive makes: the place of each
/// entry that looks like a save, and its target. Folders, and entries whose
/// name leads out of the archive (no name here), are left out.
pub open spec fn archive_imports(saves: Seq<char>, entries: Seq<(bool, Option<Seq<char>>)>) -> Seq<
    (usize, Seq<char>),
>
    decreases entries.len(),
{
    if entries.len() == 0 {
        Seq::empty()
    } else {
        let before = archive_imports(saves, entries.drop_last());
        let e = entries.last();
        if !e.0 && e.1 is Some && is_imported(paths::file_name(e.1->0)) {
            before.push(
                (
                    (entries.len() - 1) as usize,
                    paths::joined(saves, paths::file_name(e.1->0)->0),
                ),
            )
        } else {
            before
        }
    }
}

/// Plans an import from an archive, given for each entry whether it is a folder
/// and its name, where that does not lead out of the archive.
pub fn import_from_zip(saves: &str, archive: &str, entries: &Vec<(bool, Option<String>)>) -> (r:
    Result<Vec<(usize, String)>, SavesError>)
    ensures
        match r {
            Ok(x) => x@.len() > 0 && x.deep_view() == archive_imports(saves@, entries.deep_view()),
            Err(e) => archive_imports(saves@, entries.deep_view()).len() == 0 && e.deep_view() == (
            SavesErrorView::NothingInArchive { archive: archive@ }),
        },
{
    let ghost ev = entries.deep_view();
    let mut out: Vec<(usize, String)> = Vec::new();
    let mut i: usize = 0;
    assert(ev.take(0) =~= Seq::<(bool, Option<Seq<char>>)>::empty());
    assert(out.deep_view() =~= Seq::<(usize, Seq<char>)>::empty());
    while i < entries.len()
        invariant
            i <= entries@.len(),
            ev == entries.deep_view(),
            out.deep_view() == archive_imports(saves@, ev.take(i as int)),
        decreases entries.len() - i,
    {
        assert(ev.take(i + 1).drop_last() =~= ev.take(i as int));
        assert(ev.take(i + 1).last() == entries@[i as int].deep_view());
        if !entries[i].0 {
            if let Some(enclosed) = &entries[i].1 {
                if let Some(name) = import_name(enclosed.as_str()) {
                    let ghost before = out.deep_view();
                    let pair = (i, paths::join(saves, name.as_str()));
                    let ghost pv = pair.deep_view();
                    out.push(pair);
                    assert(out.deep_view() =~= before.push(pv));
                }
            }
        }
        i += 1;
    }
    assert(ev.take(i as int) =~= ev);
    assert(out.deep_view().len() == out@.len());
    if out.len() == 0 {
        return Err(SavesError::NothingInArchive { archive: archive.to_owned() });
    }
    Ok(out)
}

// ---------------------------------------------------------------------------
// Deleting
// ---------------------------------------------------------------------------

/// The paths of the files that are there.
pub open spec fn present(files: Seq<SaveFileView>, there: Seq<bool>) -> Seq<Seq<char>>
    decreases files.len(),
{
    if files.len() == 0 {
        Seq::empty()
    } else {
        let before = present(files.drop_last(), there);
        if there[files.len() - 1] {
            before.push(files.last().path)
        } else {
            before
        }
    }
}

/// The files to delete: those of the chosen ones that are there.
pub fn delete_saves(files: &Vec<SaveFile>, there: &Vec<bool>) -> (r: Vec<String>)
    requires
        there@.len() == files@.len(),
    ensures
        r.deep_view() == present(files.deep_view(), there@),
{
    let ghost fv = files.deep_view();
    let mut out: Vec<String> = Vec::new();
    let mut i: usize = 0;
    assert(fv.take(0) =~= Seq::<SaveFileView>::empty());
    assert(out.deep_view() =~= Seq::<Seq<char>>::empty());
    while i < files.len()
        invariant
            i <= files@.len(),
            there@.len() == files@.len(),
            fv == files.deep_view(),
            out.deep_view() == present(fv.take(i as int), there@),
        decreases files.len() - i,
    {
        assert(fv.take(i + 1).drop_last() =~= fv.take(i as int));
        assert(fv.take(i + 1).last() == files@[i as int].deep_view());
        if there[i] {
            let ghost before = out.deep_view();
            out.push(files[i].path.clone());
            assert(out.deep_view() =~= before.push(fv[i as int].path));
        }
        i += 1;
    }
    assert(fv.take(i as int) =~= fv);
    out
}

// ---------------------------------------------------------------------------
// Laws
// ---------------------------------------------------------------------------

/// A later save stands before an earlier one, and one of unknown age after all
/// whose age is known.
pub proof fn lemma_newest_first(saves: Seq<SaveFileView>, order: Seq<usize>, a: int, b: int)
    requires
        is_save_order(saves, order),
        0 <= a < order.len(),
        0 <= b < order.len(),
        is_later(
            saves_at(saves, order)[a].modified_secs,
            saves_at(saves, order)[b].modified_secs,
        ),
    ensures
        a < b,
{
    if b < a {
        assert(!lists_before(saves[order[a] as int], saves[order[b] as int]));
    }
}

/// Listing neither drops a save nor invents one.
pub proof fn lemma_listing_is_complete(saves: Seq<SaveFileView>, order: Seq<usize>, i: usize)
    requires
        is_save_order(saves, order),
        i < saves.len(),
    ensures
        saves_at(saves, order).contains(saves[i as int]),
{
    if !order.contains(i) {
        let t = order.push(i);
        assert(t.no_duplicates());
        crate::graph::lemma_distinct_below(t, saves.len() as int);
    }
    let k = choose|k: int| 0 <= k < order.len() && order[k] == i;
    assert(saves_at(saves, order)[k] == saves[i as int]);
}

/// Only what looks like a save is imported, and straight into the folder of
/// saves.
pub proof fn lemma_imports_are_saves(
    saves: Seq<char>,
    source: Seq<char>,
    files: Seq<Seq<char>>,
    k: int,
)
    requires
        0 <= k < folder_imports(saves, source, files).len(),
    ensures
        exists|i: int|
            0 <= i < files.len() && is_imported_from(#[trigger] files[i])
                && folder_imports(saves, source, files)[k] == (
                paths::joined(source, files[i]),
                paths::joined(saves, paths::file_name(files[i])->0),
            ),
    decreases files.len(),
{
    let t = files.drop_last();
    let before = folder_imports(saves, source, t);
    if k < before.len() {
        lemma_imports_are_saves(saves, source, t, k);
        let i = choose|i: int|
            0 <= i < t.len() && is_imported_from(#[trigger] t[i]) && before[k] == (
                paths::joined(source, t[i]),
                paths::joined(saves, paths::file_name(t[i])->0),
            );
        assert(files[i] == t[i]);
    } else {
        assert(is_imported_from(files[files.len() - 1]));
    }
}

/// A file's kind is told by how its name ends, whatever the case of letters.
pub proof fn lemma_kinds_of_saves(name: Seq<char>)
    ensures
        ({
            let l = text::lowercase(name);
            let ess = text::ends_in(l, ".ess"@);
            let skse = text::ends_in(l, ".skse"@);
            let image = text::ends_in(l, ".jpg"@) || text::ends_in(l, ".jpeg"@) || text::ends_in(
                l,
                ".png"@,
            ) || text::ends_in(l, ".bmp"@);
            &&& kind_of_save(name) == SaveKind::Ess <==> ess
            &&& !ess ==> (kind_of_save(name) == SaveKind::Skse <==> skse)
            &&& !ess && !skse ==> (kind_of_save(name) == SaveKind::Image <==> image)
            &&& kind_of_save(name) == SaveKind::Other <==> !ess && !skse && !image
        }),
{
}

/// The list of saves has every file of the folder, with its own path there, its
/// size, its time and its kind, and no folder.
pub proof fn lemma_every_file_is_a_save(dir: Seq<char>, found: Seq<FoundSaveView>)
    ensures
        saves_in(dir, found) == found.filter(|f: FoundSaveView| f.is_file).map_values(
            |f: FoundSaveView|
                SaveFileView {
                    name: f.name,
                    path: paths::joined(dir, f.name),
                    size_bytes: f.size_bytes,
                    modified_secs: f.modified_secs,
                    kind: kind_of_save(f.name),
                },
        ),
    decreases found.len(),
{
    let pred = |f: FoundSaveView| f.is_file;
    let g = |f: FoundSaveView|
        SaveFileView {
            name: f.name,
            path: paths::joined(dir, f.name),
            size_bytes: f.size_bytes,
            modified_secs: f.modified_secs,
            kind: kind_of_save(f.name),
        };
    if found.len() == 0 {
        lists::lemma_filter_map_none(found, pred, g);
    } else {
        let t = found.drop_last();
        lemma_every_file_is_a_save(dir, t);
        lists::lemma_filter_map_push(t, found.last(), pred, g);
        assert(t.push(found.last()) =~= found);
    }
}

/// In the list of saves times only go down, unknown ones are at the end, and
/// saves of one time stand in the order of their names.
pub proof fn lemma_order_of_saves(saves: Seq<SaveFileView>, list: Seq<SaveFileView>, a: int, b: int)
    requires
        is_listing(saves, list),
        0 <= a < b < list.len(),
    ensures
        match (list[a].modified_secs, list[b].modified_secs) {
            (Some(x), Some(y)) => x >= y,
            (None, Some(_)) => false,
            _ => true,
        },
        list[a].modified_secs == list[b].modified_secs ==> !text::text_less(
            list[b].name,
            list[a].name,
        ),
{
    let order = choose|order: Seq<usize>|
        is_save_order(saves, order) && list == #[trigger] saves_at(saves, order);
    let i = order[a] as int;
    let j = order[b] as int;
    assert(comes_first(saves, i, j));
    if text::text_less(list[b].name, list[a].name) && text::text_less(list[a].name, list[b].name) {
        text::lemma_text_less_transitive(list[a].name, list[b].name, list[a].name);
        text::lemma_text_less_irreflexive(list[a].name);
    }
}

/// An export takes every chosen file along, under its own name.
pub proof fn lemma_export_takes_all(files: Seq<SaveFileView>, dest: Seq<char>, as_zip: bool)
    ensures
        match export_of(files, dest, as_zip) {
            ExportPlanView::Archive { holder, archive, entries } => {
                &&& archive == dest
                &&& holder == paths::parent(dest)
                &&& entries == files.map_values(|f: SaveFileView| (f.name, f.path))
            },
            ExportPlanView::Folder { dest: to, copies } => {
                &&& !as_zip
                &&& to == dest
                &&& copies == files.map_values(
                    |f: SaveFileView| (f.path, paths::joined(dest, f.name)),
                )
            },
        },
        as_zip ==> export_of(files, dest, as_zip) is Archive,
        paths::extension(dest) is None && !as_zip ==> export_of(files, dest, as_zip) is Folder,
        paths::extension(dest) == Some("zip"@) ==> export_of(files, dest, as_zip) is Archive,
{
    match export_of(files, dest, as_zip) {
        ExportPlanView::Archive { holder, archive, entries } => {
            assert(entries =~= files.map_values(|f: SaveFileView| (f.name, f.path)));
        },
        ExportPlanView::Folder { dest: to, copies } => {
            assert(copies =~= files.map_values(
                |f: SaveFileView| (f.path, paths::joined(dest, f.name)),
            ));
        },
    }
}

/// What is imported goes straight into the game's own folder of saves, whatever
/// it is imported from; only what is not there, or has no place to go, fails.
pub proof fn lemma_import_goes_to_the_saves(
    game: GameInstallView,
    source: Seq<char>,
    exists_: bool,
    is_dir: bool,
    holder: Seq<char>,
)
    requires
        paths::parent(game.plugins_txt) == Some(holder),
    ensures
        saves_path(game) == Some(paths::joined(holder, "Saves"@)),
        match import_of(game, source, exists_, is_dir) {
            Ok(ImportWayView::FromFolder { saves }) => exists_ && is_dir && Some(saves)
                == saves_path(game),
            Ok(ImportWayView::FromArchive { saves }) => exists_ && !is_dir && text::ends_in(
                text::lowercase(source),
                ".zip"@,
            ) && Some(saves) == saves_path(game),
            Ok(ImportWayView::OneFile { dest }) => {
                &&& exists_ && !is_dir
                &&& !text::ends_in(text::lowercase(source), ".zip"@)
                &&& paths::file_name(source) matches Some(n) && dest == paths::joined(
                    paths::joined(holder, "Saves"@),
                    n,
                )
            },
            Err(SavesErrorView::SourceMissing { source: s }) => !exists_ && s == source,
            Err(SavesErrorView::NoFileName) => exists_ && !is_dir && paths::file_name(source) is None,
            Err(_) => false,
        },
{
}

/// From a folder every file that looks like a save is imported, if it lies in
/// the folder itself or in one of its folders; no other is, and none is left
/// out.
pub proof fn lemma_folder_import_takes_all(
    saves: Seq<char>,
    source: Seq<char>,
    files: Seq<Seq<char>>,
)
    ensures
        folder_imports(saves, source, files) == files.filter(
            |f: Seq<char>|
                paths::steps(f).len() <= 2 && paths::file_name(f) is Some && kind_of_save(
                    paths::file_name(f)->0,
                ) != SaveKind::Other,
        ).map_values(
            |f: Seq<char>|
                (paths::joined(source, f), paths::joined(saves, paths::file_name(f)->0)),
        ),
    decreases files.len(),
{
    let pred = |f: Seq<char>|
        paths::steps(f).len() <= 2 && paths::file_name(f) is Some && kind_of_save(
            paths::file_name(f)->0,
        ) != SaveKind::Other;
    let g = |f: Seq<char>|
        (paths::joined(source, f), paths::joined(saves, paths::file_name(f)->0));
    if files.len() == 0 {
        lists::lemma_filter_map_none(files, pred, g);
    } else {
        let t = files.drop_last();
        lemma_folder_import_takes_all(saves, source, t);
        lists::lemma_filter_map_push(t, files.last(), pred, g);
        assert(t.push(files.last()) =~= files);
    }
}

/// From an archive every entry that is a file and looks like a save is imported,
/// unless its name leads out of the archive; no other is, and none is left out.
pub proof fn lemma_archive_import_takes_all(
    saves: Seq<char>,
    entries: Seq<(bool, Option<Seq<char>>)>,
)
    ensures
        archive_imports(saves, entries) == lists::places(entries.len()).filter(
            |i: int|
                !entries[i].0 && entries[i].1 is Some && paths::file_name(entries[i].1->0) is Some
                    && kind_of_save(paths::file_name(entries[i].1->0)->0) != SaveKind::Other,
        ).map_values(
            |i: int| (i as usize, paths::joined(saves, paths::file_name(entries[i].1->0)->0)),
        ),
    decreases entries.len(),
{
    let pred = |i: int|
        !entries[i].0 && entries[i].1 is Some && paths::file_name(entries[i].1->0) is Some
            && kind_of_save(paths::file_name(entries[i].1->0)->0) != SaveKind::Other;
    let g = |i: int| (i as usize, paths::joined(saves, paths::file_name(entries[i].1->0)->0));
    if entries.len() == 0 {
        lists::lemma_filter_map_none(lists::places(0), pred, g);
    } else {
        let t = entries.drop_last();
        let n = t.len();
        lemma_archive_import_takes_all(saves, t);
        let q = |i: int|
            !t[i].0 && t[i].1 is Some && paths::file_name(t[i].1->0) is Some && kind_of_save(
                paths::file_name(t[i].1->0)->0,
            ) != SaveKind::Other;
        let h = |i: int| (i as usize, paths::joined(saves, paths::file_name(t[i].1->0)->0));
        let p = lists::places(n);
        assert forall|k: int| 0 <= k < p.len() implies pred(#[trigger] p[k]) == q(p[k]) by {
            assert(t[k] == entries[k]);
        }
        lists::lemma_filter_alike(p, pred, q);
        assert(p.filter(q).map_values(h) =~= p.filter(q).map_values(g)) by {
            assert forall|k: int| 0 <= k < p.filter(q).len() implies h(#[trigger] p.filter(q)[k])
                == g(p.filter(q)[k]) by {
                p.lemma_filter_contains_rev(q, p.filter(q)[k]);
                let m = choose|m: int| 0 <= m < p.len() && p[m] == p.filter(q)[k];
                assert(t[m] == entries[m]);
            }
        }
        lists::lemma_places_filter_map(n, pred, g);
        assert(entries.len() == n + 1);
        assert(entries.last() == entries[n as int]);
    }
}

/// Of the chosen files exactly those that are there are deleted.
pub proof fn lemma_deletes_what_is_there(files: Seq<SaveFileView>, there: Seq<bool>)
    requires
        there.len() >= files.len(),
    ensures
        present(files, there) == lists::places(files.len()).filter(|i: int| there[i]).map_values(
            |i: int| files[i].path,
        ),
    decreases files.len(),
{
    let pred = |i: int| there[i];
    let g = |i: int| files[i].path;
    if files.len() == 0 {
        lists::lemma_filter_map_none(lists::places(0), pred, g);
    } else {
        let t = files.drop_last();
        let n = t.len();
        lemma_deletes_what_is_there(t, there);
        let h = |i: int| t[i].path;
        let p = lists::places(n);
        assert(p.filter(pred).map_values(h) =~= p.filter(pred).map_values(g)) by {
            assert forall|k: int| 0 <= k < p.filter(pred).len() implies h(
                #[trigger] p.filter(pred)[k],
            ) == g(p.filter(pred)[k]) by {
                p.lemma_filter_contains_rev(pred, p.filter(pred)[k]);
                let m = choose|m: int| 0 <= m < p.len() && p[m] == p.filter(pred)[k];
                assert(t[m] == files[m]);
            }
        }
        lists::lemma_places_filter_map(n, pred, g);
        assert(files.len() == n + 1);
        assert(files.last() == files[n as int]);
    }
}

} // verus!
