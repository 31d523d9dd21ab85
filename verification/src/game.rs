//! Skyrim installs: what makes a folder one, where to look for them, and an id
//! for each that stays the same.

use crate::disk::{DirItem, DirItemView, Disk, DiskView};
use crate::lists;
use crate::paths;
use crate::prefix;
use crate::prefix::{WinePrefix, WinePrefixView};
use crate::text;
use std::hash::{Hash, Hasher};
use vstd::prelude::*;

verus! {

/// The editions of the game.
#[derive(Debug, Clone, Copy, PartialEq, Eq, Structural)]
pub enum GameEdition {
    /// Skyrim of 2011, the "Legendary Edition".
    LE,
    /// Skyrim Special Edition.
    SE,
    /// Skyrim Anniversary Edition: the Special Edition with more content.
    AE,
    /// Skyrim VR.
    VR,
}

/// The game's program and its id in the Steam store.
pub open spec fn exe_and_appid_of(e: GameEdition) -> (Seq<char>, Seq<char>) {
    match e {
        GameEdition::LE => ("TESV.exe"@, "72850"@),
        GameEdition::SE | GameEdition::AE => ("SkyrimSE.exe"@, "489830"@),
        GameEdition::VR => ("SkyrimVR.exe"@, "611670"@),
    }
}

impl GameEdition {
    /// The game's program and its id in the Steam store.
    pub fn exe_and_appid(self) -> (r: (&'static str, &'static str))
        ensures
            (r.0@, r.1@) == exe_and_appid_of(self),
    {
        match self {
            GameEdition::LE => ("TESV.exe", "72850"),
            GameEdition::SE | GameEdition::AE => ("SkyrimSE.exe", "489830"),
            GameEdition::VR => ("SkyrimVR.exe", "611670"),
        }
    }
}

/// The folder under `My Games` that an edition uses.
pub open spec fn my_games_name(e: GameEdition) -> Seq<char> {
    match e {
        GameEdition::LE => "Skyrim"@,
        GameEdition::SE | GameEdition::AE => "Skyrim Special Edition"@,
        GameEdition::VR => "Skyrim VR"@,
    }
}

/// The folder under `My Games` that an edition uses.
pub fn my_games_folder_name(edition: GameEdition) -> (r: &'static str)
    ensures
        r@ == my_games_name(edition),
{
    match edition {
        GameEdition::LE => "Skyrim",
        GameEdition::SE | GameEdition::AE => "Skyrim Special Edition",
        GameEdition::VR => "Skyrim VR",
    }
}

/// An install of the game.
#[derive(Debug, Clone)]
pub struct GameInstall {
    /// Made from the install folder's path, so that finding the game again
    /// gives the same id: backups are kept under it.
    pub id: String,
    pub edition: GameEdition,
    /// The folder with the game's program.
    pub install_dir: String,
    /// The game's `Data` folder.
    pub data_dir: String,
    /// Where `plugins.txt` is.
    pub plugins_txt: String,
    /// The prefix that the install is in.
    pub wine_prefix: Option<WinePrefix>,
}

/// The mathematical content of a [`GameInstall`].
pub struct GameInstallView {
    pub id: Seq<char>,
    pub edition: GameEdition,
    pub install_dir: Seq<char>,
    pub data_dir: Seq<char>,
    pub plugins_txt: Seq<char>,
    pub wine_prefix: Option<WinePrefixView>,
}

impl DeepView for GameInstall {
    type V = GameInstallView;

    open spec fn deep_view(&self) -> GameInstallView {
        GameInstallView {
            id: self.id@,
            edition: self.edition,
            install_dir: self.install_dir@,
            data_dir: self.data_dir@,
            plugins_txt: self.plugins_txt@,
            wine_prefix: self.wine_prefix.deep_view(),
        }
    }
}

impl GameInstall {
    /// A copy of the install.
    pub fn copy(&self) -> (r: Self)
        ensures
            r.deep_view() == self.deep_view(),
    {
        GameInstall {
            id: self.id.clone(),
            edition: self.edition,
            install_dir: self.install_dir.clone(),
            data_dir: self.data_dir.clone(),
            plugins_txt: self.plugins_txt.clone(),
            wine_prefix: match &self.wine_prefix {
                Some(p) => Some(p.copy()),
                None => None,
            },
        }
    }
}

/// An install with what helps a person to tell it from others.
#[derive(Debug, Clone)]
pub struct DetectedGame {
    pub game: GameInstall,
    /// Where it was found, in one line.
    pub source_label: String,
    /// When the `Data` folder was last modified: the install that was modded
    /// most recently is probably the one in use.
    pub data_dir_modified_secs: Option<u64>,
}

/// The mathematical content of a [`DetectedGame`].
pub struct DetectedGameView {
    pub game: GameInstallView,
    pub source_label: Seq<char>,
    pub data_dir_modified_secs: Option<u64>,
}

impl DeepView for DetectedGame {
    type V = DetectedGameView;

    open spec fn deep_view(&self) -> DetectedGameView {
        DetectedGameView {
            game: self.game.deep_view(),
            source_label: self.source_label@,
            data_dir_modified_secs: self.data_dir_modified_secs,
        }
    }
}

// ---------------------------------------------------------------------------
// The id
// ---------------------------------------------------------------------------

/// The name of what hashing a path with a fresh `DefaultHasher` gives.
pub uninterp spec fn path_hash(path: Seq<char>) -> u64;

/// Wraps the `Hash` of `std::path::Path` with a hasher from
/// `DefaultHasher::new`. All hashers made by `new` are the same, so the result
/// depends on the path alone. The standard library does not promise that another
/// release of it, or another platform, gives the same number.
#[verifier::external_body]
fn hash_path(path: &str) -> (r: u64)
    ensures
        r == path_hash(path@),
{
    let mut hasher = std::collections::hash_map::DefaultHasher::new();
    std::path::Path::new(path).hash(&mut hasher);
    hasher.finish()
}

pub open spec fn hex_digit(d: nat) -> char {
    if d < 10 {
        (('0' as u32) + d) as char
    } else {
        (('a' as u32) + d - 10) as char
    }
}

/// The last `k` hexadecimal digits of `n`.
pub open spec fn hex(n: nat, k: nat) -> Seq<char>
    decreases k,
{
    if k == 0 {
        Seq::empty()
    } else {
        hex(n / 16, (k - 1) as nat).push(hex_digit(n % 16))
    }
}

/// The id of an install in this folder: the hash of its path, in sixteen
/// hexadecimal digits.
pub open spec fn id_of(canonical: Seq<char>) -> Seq<char> {
    hex(path_hash(canonical) as nat, 16)
}

pub(crate) fn hex_chars(n: u64, k: u8) -> (r: Vec<char>)
    ensures
        r@ == hex(n as nat, k as nat),
    decreases k,
{
    if k == 0 {
        let none: Vec<char> = Vec::new();
        assert(none@ =~= Seq::<char>::empty());
        return none;
    }
    let d: u8 = (n % 16) as u8;
    let c = if d < 10 {
        (('0' as u8) + d) as char
    } else {
        (('a' as u8) + (d - 10)) as char
    };
    assert(c == hex_digit((n % 16) as nat));
    let mut out = hex_chars(n / 16, k - 1);
    out.push(c);
    out
}

/// The id of the install in this folder, given by its path with all links
/// resolved.
pub fn derive_id(canonical: &str) -> (r: String)
    ensures
        r@ == id_of(canonical@),
{
    text::text_of(hex_chars(hash_path(canonical), 16).as_slice())
}

/// An id has sixteen characters.
pub proof fn lemma_id_len(canonical: Seq<char>)
    ensures
        id_of(canonical).len() == 16,
{
    lemma_hex_digits(path_hash(canonical) as nat, 16);
}

// ---------------------------------------------------------------------------
// What makes a folder an install
// ---------------------------------------------------------------------------

/// The edition that a program of this lower-case name belongs to.
pub open spec fn edition_of_name(lower: Seq<char>) -> Option<GameEdition> {
    if lower == "skyrimvr.exe"@ || lower == "sksevr_loader.exe"@ {
        Some(GameEdition::VR)
    } else if lower == "skyrimse.exe"@ || lower == "skyrimselauncher.exe"@ || lower
        == "skse64_loader.exe"@ || lower == "skse64_loader"@ {
        Some(GameEdition::SE)
    } else if lower == "tesv.exe"@ || lower == "skyrimlauncher.exe"@ || lower == "skse_loader.exe"@
        || lower == "skse_loader"@ {
        Some(GameEdition::LE)
    } else {
        None
    }
}

/// The edition of the first file from `i` on that belongs to one.
pub open spec fn edition_in_items(items: Seq<DirItemView>, i: int) -> Option<GameEdition>
    decreases items.len() - i,
{
    if i >= items.len() {
        None
    } else if items[i].real_file && edition_of_name(text::lowercase(items[i].name)) is Some {
        edition_of_name(text::lowercase(items[i].name))
    } else {
        edition_in_items(items, i + 1)
    }
}

/// The edition that the programs in a folder show, first by their usual names,
/// then whatever the case of these.
pub open spec fn edition_in(disk: DiskView, dir: Seq<char>) -> Option<GameEdition> {
    if disk.has_file(dir, "SkyrimVR.exe"@) || disk.has_file(dir, "sksevr_loader.exe"@) {
        Some(GameEdition::VR)
    } else if disk.has_file(dir, "SkyrimSE.exe"@) || disk.has_file(dir, "SkyrimSELauncher.exe"@)
        || disk.has_file(dir, "skse64_loader.exe"@) || disk.has_file(dir, "skse64_loader"@) {
        Some(GameEdition::SE)
    } else if disk.has_file(dir, "TESV.exe"@) || disk.has_file(dir, "SkyrimLauncher.exe"@)
        || disk.has_file(dir, "skse_loader.exe"@) || disk.has_file(dir, "skse_loader"@) {
        Some(GameEdition::LE)
    } else {
        edition_in_items(disk.items(dir), 0)
    }
}

/// Whether only Skyrim ships a file of this lower-case name.
pub open spec fn is_game_file(lower: Seq<char>) -> bool {
    ||| lower == "skyrim.esm"@
    ||| lower == "update.esm"@
    ||| text::holds_at(lower, "skyrim - "@, 0) && text::ends_in(lower, ".bsa"@)
    ||| lower == "dawnguard.esm"@
    ||| lower == "hearthfires.esm"@
    ||| lower == "dragonborn.esm"@
}

/// Whether one of the entries is such a file.
pub open spec fn lists_game_file(items: Seq<DirItemView>) -> bool {
    exists|k: int| 0 <= k < items.len() && is_game_file(text::lowercase((#[trigger] items[k]).name))
}

/// Whether a folder is Skyrim's `Data` folder.
pub open spec fn is_game_data(disk: DiskView, dir: Seq<char>) -> bool {
    disk.is_dir(dir) && {
        ||| disk.has_file(dir, "Skyrim.esm"@)
        ||| disk.has_file(dir, "Update.esm"@)
        ||| disk.has_file(dir, "Skyrim - Interface.bsa"@)
        ||| disk.has_file(dir, "Skyrim - Meshes0.bsa"@)
        ||| disk.has_file(dir, "Skyrim - Meshes.bsa"@)
        ||| disk.has_file(dir, "Skyrim - Textures0.bsa"@)
        ||| disk.has_file(dir, "Skyrim - Textures.bsa"@)
        ||| lists_game_file(disk.items(dir))
    }
}

/// The last step of a path in lower case, empty where it has none.
pub open spec fn lower_name(path: Seq<char>) -> Seq<char> {
    match paths::file_name(path) {
        Some(n) => text::lowercase(n),
        None => Seq::empty(),
    }
}

/// Whether an entry is a folder called `Data`, whatever its case.
pub open spec fn is_data_item(item: DirItemView) -> bool {
    item.real_dir && text::ascii_fold(item.name) == "data"@
}

/// Whether one of the entries of a folder is Skyrim's `Data` folder.
pub open spec fn holds_game_data(disk: DiskView, dir: Seq<char>) -> bool {
    exists|k: int|
        0 <= k < disk.items(dir).len() && is_data_item(#[trigger] disk.items(dir)[k])
            && is_game_data(disk, paths::joined(dir, disk.items(dir)[k].name))
}

/// The edition of the install in a folder, if it is one: the folder may be the
/// `Data` folder itself, have one of the known programs, or have Skyrim's
/// `Data` folder.
pub open spec fn identified(disk: DiskView, dir: Seq<char>) -> Option<GameEdition> {
    if !disk.is_dir(dir) {
        None
    } else if lower_name(dir) == "data"@ {
        if is_game_data(disk, dir) {
            match paths::parent(dir) {
                Some(p) => match edition_in(disk, p) {
                    Some(e) => Some(e),
                    None => Some(GameEdition::SE),
                },
                None => Some(GameEdition::SE),
            }
        } else {
            None
        }
    } else if edition_in(disk, dir) is Some {
        edition_in(disk, dir)
    } else if is_game_data(disk, paths::joined(dir, "Data"@)) || holds_game_data(disk, dir) {
        Some(GameEdition::SE)
    } else {
        None
    }
}

fn edition_named(lower: &str) -> (r: Option<GameEdition>)
    ensures
        r == edition_of_name(lower@),
{
    if text::same_text(lower, "skyrimvr.exe") || text::same_text(lower, "sksevr_loader.exe") {
        Some(GameEdition::VR)
    } else if text::same_text(lower, "skyrimse.exe") || text::same_text(
        lower,
        "skyrimselauncher.exe",
    ) || text::same_text(lower, "skse64_loader.exe") || text::same_text(lower, "skse64_loader") {
        Some(GameEdition::SE)
    } else if text::same_text(lower, "tesv.exe") || text::same_text(lower, "skyrimlauncher.exe")
        || text::same_text(lower, "skse_loader.exe") || text::same_text(lower, "skse_loader") {
        Some(GameEdition::LE)
    } else {
        None
    }
}

fn edition_from_exes(disk: &Disk, dir: &str) -> (r: Option<GameEdition>)
    ensures
        r == edition_in(disk@, dir@),
{
    if disk.has_file(dir, "SkyrimVR.exe") || disk.has_file(dir, "sksevr_loader.exe") {
        return Some(GameEdition::VR);
    }
    if disk.has_file(dir, "SkyrimSE.exe") || disk.has_file(dir, "SkyrimSELauncher.exe")
        || disk.has_file(dir, "skse64_loader.exe") || disk.has_file(dir, "skse64_loader") {
        return Some(GameEdition::SE);
    }
    if disk.has_file(dir, "TESV.exe") || disk.has_file(dir, "SkyrimLauncher.exe") || disk.has_file(
        dir,
        "skse_loader.exe",
    ) || disk.has_file(dir, "skse_loader") {
        return Some(GameEdition::LE);
    }
    match disk.folder(dir) {
        None => None,
        Some(f) => {
            let ghost items = disk@.items(dir@);
            let mut i: usize = 0;
            while i < f.items.len()
                invariant
                    i <= f.items@.len(),
                    items == f.items.deep_view(),
                    edition_in(disk@, dir@) == edition_in_items(items, 0),
                    edition_in_items(items, 0) == edition_in_items(items, i as int),
                decreases f.items.len() - i,
            {
                if f.items[i].real_file {
                    let lower = text::to_lowercase(f.items[i].name.as_str());
                    let found = edition_named(lower.as_str());
                    if found.is_some() {
                        return found;
                    }
                }
                i += 1;
            }
            None
        },
    }
}

fn named_like_game_file(name: &str) -> (r: bool)
    ensures
        r == is_game_file(text::lowercase(name@)),
{
    let lower = text::to_lowercase(name);
    let l = lower.as_str();
    text::same_text(l, "skyrim.esm") || text::same_text(l, "update.esm") || (text::has_prefix(
        l,
        "skyrim - ",
    ) && text::has_suffix(l, ".bsa")) || text::same_text(l, "dawnguard.esm") || text::same_text(
        l,
        "hearthfires.esm",
    ) || text::same_text(l, "dragonborn.esm")
}

fn data_folder_looks_like_skyrim(disk: &Disk, dir: &str) -> (r: bool)
    ensures
        r == is_game_data(disk@, dir@),
{
    match disk.folder(dir) {
        None => false,
        Some(f) => {
            if disk.has_file(dir, "Skyrim.esm") || disk.has_file(dir, "Update.esm")
                || disk.has_file(dir, "Skyrim - Interface.bsa") || disk.has_file(
                dir,
                "Skyrim - Meshes0.bsa",
            ) || disk.has_file(dir, "Skyrim - Meshes.bsa") || disk.has_file(
                dir,
                "Skyrim - Textures0.bsa",
            ) || disk.has_file(dir, "Skyrim - Textures.bsa") {
                return true;
            }
            let ghost items = disk@.items(dir@);
            let mut i: usize = 0;
            while i < f.items.len()
                invariant
                    i <= f.items@.len(),
                    items == f.items.deep_view(),
                    items == disk@.items(dir@),
                    disk@.is_dir(dir@),
                    forall|k: int|
                        0 <= k < i ==> !is_game_file(text::lowercase((#[trigger] items[k]).name)),
                decreases f.items.len() - i,
            {
                if named_like_game_file(f.items[i].name.as_str()) {
                    assert(is_game_file(text::lowercase(items[i as int].name)));
                    return true;
                }
                i += 1;
            }
            false
        },
    }
}

fn is_named_data(path: &str) -> (r: bool)
    ensures
        r == (lower_name(path@) == "data"@),
{
    match paths::last_step(path) {
        Some(n) => text::same_text(text::to_lowercase(n.as_str()).as_str(), "data"),
        None => {
            proof {
                reveal_strlit("data");
                assert("data"@.len() == 4);
            }
            false
        },
    }
}

fn item_is_data(item: &DirItem) -> (r: bool)
    ensures
        r == is_data_item(item.deep_view()),
{
    proof {
        reveal_strlit("data");
        assert(text::ascii_fold("data"@) =~= "data"@);
    }
    item.real_dir && text::same_ignoring_case(item.name.as_str(), "data")
}

fn has_game_data(disk: &Disk, dir: &str) -> (r: bool)
    ensures
        r == holds_game_data(disk@, dir@),
{
    match disk.folder(dir) {
        None => false,
        Some(f) => {
            let ghost items = disk@.items(dir@);
            let mut i: usize = 0;
            while i < f.items.len()
                invariant
                    i <= f.items@.len(),
                    items == f.items.deep_view(),
                    items == disk@.items(dir@),
                    forall|k: int|
                        0 <= k < i ==> !(is_data_item(#[trigger] items[k]) && is_game_data(
                            disk@,
                            paths::joined(dir@, items[k].name),
                        )),
                decreases f.items.len() - i,
            {
                if item_is_data(&f.items[i]) && data_folder_looks_like_skyrim(
                    disk,
                    paths::join(dir, f.items[i].name.as_str()).as_str(),
                ) {
                    assert(is_data_item(items[i as int]));
                    return true;
                }
                i += 1;
            }
            false
        },
    }
}

/// Whether a folder is an install of the game, and of which edition. The known
/// programs count, script extender loaders among them, and so does a `Data`
/// folder that only Skyrim can have: that is what makes renamed and portable
/// installs work.
pub fn identify_skyrim_at(disk: &Disk, dir: &str) -> (r: Option<GameEdition>)
    ensures
        r == identified(disk@, dir@),
{
    if !disk.is_dir(dir) {
        return None;
    }
    if is_named_data(dir) {
        if data_folder_looks_like_skyrim(disk, dir) {
            if let Some(p) = paths::parent_of(dir) {
                if let Some(e) = edition_from_exes(disk, p.as_str()) {
                    return Some(e);
                }
            }
            return Some(GameEdition::SE);
        }
        return None;
    }
    if let Some(e) = edition_from_exes(disk, dir) {
        return Some(e);
    }
    if data_folder_looks_like_skyrim(disk, paths::join(dir, "Data").as_str()) || has_game_data(
        disk,
        dir,
    ) {
        return Some(GameEdition::SE);
    }
    None
}

/// The first entry from `i` on that is a folder called `Data`, or the number of
/// entries.
pub open spec fn data_item_at(items: Seq<DirItemView>, i: int) -> int
    decreases items.len() - i,
{
    if i >= items.len() || is_data_item(items[i]) {
        i
    } else {
        data_item_at(items, i + 1)
    }
}

/// The `Data` folder of an install: `Data` itself, or one of that name in other
/// letters.
pub open spec fn data_dir_of(disk: DiskView, install_dir: Seq<char>) -> Seq<char> {
    let direct = paths::joined(install_dir, "Data"@);
    let items = disk.items(install_dir);
    let k = data_item_at(items, 0);
    if !disk.is_dir(direct) && k < items.len() {
        paths::joined(install_dir, items[k].name)
    } else {
        direct
    }
}

fn resolve_data_dir(disk: &Disk, install_dir: &str) -> (r: String)
    ensures
        r@ == data_dir_of(disk@, install_dir@),
{
    let direct = paths::join(install_dir, "Data");
    if disk.is_dir(direct.as_str()) {
        return direct;
    }
    if let Some(f) = disk.folder(install_dir) {
        let ghost items = disk@.items(install_dir@);
        let mut i: usize = 0;
        while i < f.items.len()
            invariant
                i <= f.items@.len(),
                items == f.items.deep_view(),
                items == disk@.items(install_dir@),
                direct@ == paths::joined(install_dir@, "Data"@),
                !disk@.is_dir(direct@),
                data_item_at(items, 0) == data_item_at(items, i as int),
            decreases f.items.len() - i,
        {
            if item_is_data(&f.items[i]) {
                return paths::join(install_dir, f.items[i].name.as_str());
            }
            i += 1;
        }
    }
    direct
}

/// The install folder for a path that may be that of its `Data` folder.
pub open spec fn install_dir_for(disk: DiskView, path: Seq<char>) -> Seq<char> {
    match (paths::file_name(path), paths::parent(path)) {
        (Some(n), Some(p)) => if text::ascii_fold(n) == "data"@ && is_game_data(disk, path) {
            p
        } else {
            path
        },
        _ => path,
    }
}

/// The install folder for a path that may be that of its `Data` folder.
pub fn normalize_install_dir(disk: &Disk, path: &str) -> (r: String)
    ensures
        r@ == install_dir_for(disk@, path@),
{
    proof {
        reveal_strlit("data");
        assert(text::ascii_fold("data"@) =~= "data"@);
    }
    if let Some(n) = paths::last_step(path) {
        if text::same_ignoring_case(n.as_str(), "data") && data_folder_looks_like_skyrim(
            disk,
            path,
        ) {
            if let Some(p) = paths::parent_of(path) {
                return p;
            }
        }
    }
    path.to_owned()
}

/// The install in a folder: `my_games` is where the game keeps its files, or
/// else that of the prefix, or that under the user's documents, or the install
/// folder.
pub open spec fn game_in(
    disk: DiskView,
    path: Seq<char>,
    edition: GameEdition,
    wine_prefix: Option<WinePrefixView>,
    my_games: Option<Seq<char>>,
    documents: Option<Seq<char>>,
) -> GameInstallView {
    let dir = install_dir_for(disk, path);
    let games = match (my_games, wine_prefix, documents) {
        (Some(m), _, _) => m,
        (None, Some(p), _) => p.my_games_dir(),
        (None, None, Some(d)) => paths::joined(d, "My Games"@),
        (None, None, None) => dir,
    };
    GameInstallView {
        id: id_of(disk.canonical(dir)),
        edition,
        install_dir: dir,
        data_dir: data_dir_of(disk, dir),
        plugins_txt: paths::joined(
            paths::joined(games, my_games_name(edition)),
            "plugins.txt"@,
        ),
        wine_prefix,
    }
}

fn build_game(
    disk: &Disk,
    path: &str,
    edition: GameEdition,
    wine_prefix: Option<WinePrefix>,
    my_games: Option<String>,
    documents: &Option<String>,
) -> (r: GameInstall)
    ensures
        r.deep_view() == game_in(
            disk@,
            path@,
            edition,
            wine_prefix.deep_view(),
            my_games.deep_view(),
            documents.deep_view(),
        ),
{
    let dir = normalize_install_dir(disk, path);
    let data_dir = resolve_data_dir(disk, dir.as_str());
    let games = match my_games {
        Some(m) => m,
        None => match &wine_prefix {
            Some(p) => p.my_games_dir(),
            None => match documents {
                Some(d) => paths::join(d.as_str(), "My Games"),
                None => dir.clone(),
            },
        },
    };
    let plugins_txt = paths::join3(games.as_str(), my_games_folder_name(edition), "plugins.txt");
    let id = derive_id(disk.canonical(dir.as_str()).as_str());
    GameInstall { id, edition, install_dir: dir, data_dir, plugins_txt, wine_prefix }
}

// ---------------------------------------------------------------------------
// Searching folders
// ---------------------------------------------------------------------------

/// What two paths of one folder have in common.
pub open spec fn place_key(disk: DiskView, path: Seq<char>) -> Seq<char> {
    text::lowercase(disk.canonical(path))
}

/// Whether one of the paths is of the same folder.
pub open spec fn knows_place(disk: DiskView, hits: Seq<Seq<char>>, path: Seq<char>) -> bool {
    exists|k: int|
        0 <= k < hits.len() && place_key(disk, #[trigger] hits[k]) == place_key(disk, path)
}

/// The paths with another, unless it is of a folder that is there.
pub open spec fn with_place(
    disk: DiskView,
    hits: Seq<Seq<char>>,
    path: Seq<char>,
) -> Seq<Seq<char>> {
    if knows_place(disk, hits, path) {
        hits
    } else {
        hits.push(path)
    }
}

/// Whether a search never goes into a folder of this name.
pub open spec fn is_skipped(name: Seq<char>) -> bool {
    let l = text::lowercase(name);
    ||| l == ".git"@
    ||| l == ".svn"@
    ||| l == ".hg"@
    ||| l == "node_modules"@
    ||| l == "__pycache__"@
    ||| l == ".cache"@
    ||| l == "cache"@
    ||| l == "caches"@
    ||| l == ".npm"@
    ||| l == ".cargo"@
    ||| l == ".rustup"@
    ||| l == ".local"@
    ||| l == "proc"@
    ||| l == "sys"@
    ||| l == "dev"@
    ||| l == "lost+found"@
    ||| l == "windows"@
    ||| l == "winsxs"@
    ||| l == "system32"@
    ||| l == "syswow64"@
    ||| l == "$recycle.bin"@
    ||| l == "recycle.bin"@
    ||| l == "trash"@
    ||| l == ".trash"@
    ||| l == "tmp"@
    ||| l == "temp"@
    ||| l == "shadercache"@
    ||| l == "shader cache"@
    ||| l == "steamapps/downloading"@
    ||| l == "compatdata"@
    ||| text::ends_in(l, ".app"@)
    ||| text::holds_at(l, "."@, 0) && l != ".wine"@ && l != ".steam"@
}

/// Whether a search never goes into a folder of this name.
pub fn should_skip_dir_name(name: &str) -> (r: bool)
    ensures
        r == is_skipped(name@),
{
    let lower = text::to_lowercase(name);
    let l = lower.as_str();
    text::same_text(l, ".git") || text::same_text(l, ".svn") || text::same_text(l, ".hg")
        || text::same_text(l, "node_modules") || text::same_text(l, "__pycache__")
        || text::same_text(l, ".cache") || text::same_text(l, "cache") || text::same_text(
        l,
        "caches",
    ) || text::same_text(l, ".npm") || text::same_text(l, ".cargo") || text::same_text(
        l,
        ".rustup",
    ) || text::same_text(l, ".local") || text::same_text(l, "proc") || text::same_text(l, "sys")
        || text::same_text(l, "dev") || text::same_text(l, "lost+found") || text::same_text(
        l,
        "windows",
    ) || text::same_text(l, "winsxs") || text::same_text(l, "system32") || text::same_text(
        l,
        "syswow64",
    ) || text::same_text(l, "$recycle.bin") || text::same_text(l, "recycle.bin")
        || text::same_text(l, "trash") || text::same_text(l, ".trash") || text::same_text(l, "tmp")
        || text::same_text(l, "temp") || text::same_text(l, "shadercache") || text::same_text(
        l,
        "shader cache",
    ) || text::same_text(l, "steamapps/downloading") || text::same_text(l, "compatdata")
        || text::has_suffix(l, ".app") || (text::has_prefix(l, ".") && !text::same_text(l, ".wine")
        && !text::same_text(l, ".steam"))
}

/// The installs known after a look at one folder: a `Data` folder of Skyrim
/// shows that its parent is one.
pub open spec fn after_look(
    disk: DiskView,
    dir: Seq<char>,
    hits: Seq<Seq<char>>,
) -> Seq<Seq<char>> {
    if lower_name(dir) == "data"@ && is_game_data(disk, dir) {
        match paths::parent(dir) {
            Some(p) => with_place(disk, hits, p),
            None => hits,
        }
    } else if identified(disk, dir) is Some {
        with_place(disk, hits, dir)
    } else {
        hits
    }
}

/// The installs known after a search of a folder and those under it down to
/// `depth`.
pub open spec fn after_search(
    disk: DiskView,
    dir: Seq<char>,
    depth: nat,
    hits: Seq<Seq<char>>,
) -> Seq<Seq<char>>
    decreases depth, 1nat, 0nat,
{
    after_search_below(disk, dir, depth, after_look(disk, dir, hits))
}

/// The installs known after a search of the folders under `dir` down to `depth`.
pub open spec fn after_search_below(
    disk: DiskView,
    dir: Seq<char>,
    depth: nat,
    hits: Seq<Seq<char>>,
) -> Seq<Seq<char>>
    decreases depth, 0nat, 0nat,
{
    if depth == 0 {
        hits
    } else {
        after_searches(disk, dir, 0, (depth - 1) as nat, hits)
    }
}

/// The installs known after a search of the folders in `dir` from entry `k` on.
pub open spec fn after_searches(
    disk: DiskView,
    dir: Seq<char>,
    k: nat,
    depth: nat,
    hits: Seq<Seq<char>>,
) -> Seq<Seq<char>>
    decreases depth, 2nat, disk.items(dir).len() - k,
{
    if k >= disk.items(dir).len() {
        hits
    } else {
        let item = disk.items(dir)[k as int];
        let next = if item.real_dir && !is_skipped(item.name) {
            after_search(disk, paths::joined(dir, item.name), depth, hits)
        } else {
            hits
        };
        after_searches(disk, dir, k + 1, depth, next)
    }
}

/// The installs in a folder and under it down to `depth`. A link to a folder is
/// no install itself; what it leads to is searched.
pub open spec fn installs_under(disk: DiskView, root: Seq<char>, depth: nat) -> Seq<Seq<char>> {
    if disk.is_real_dir(root) {
        after_search(disk, root, depth, Seq::empty())
    } else {
        after_search_below(disk, root, depth, Seq::empty())
    }
}

fn push_unique_path(disk: &Disk, hits: &mut Vec<String>, path: String)
    ensures
        final(hits).deep_view() == with_place(disk@, old(hits).deep_view(), path@),
{
    let ghost hv = hits.deep_view();
    let key = text::to_lowercase(disk.canonical(path.as_str()).as_str());
    let mut i: usize = 0;
    while i < hits.len()
        invariant
            i <= hits@.len(),
            hv == hits.deep_view(),
            hv == old(hits).deep_view(),
            key@ == place_key(disk@, path@),
            forall|k: int| 0 <= k < i ==> place_key(disk@, #[trigger] hv[k]) != key@,
        decreases hits.len() - i,
    {
        let other = text::to_lowercase(disk.canonical(hits[i].as_str()).as_str());
        if text::same_text(other.as_str(), key.as_str()) {
            assert(place_key(disk@, hv[i as int]) == place_key(disk@, path@));
            return ;
        }
        i += 1;
    }
    hits.push(path);
    assert(hits.deep_view() =~= hv.push(path@));
}

fn look(disk: &Disk, dir: &str, hits: &mut Vec<String>)
    ensures
        final(hits).deep_view() == after_look(disk@, dir@, old(hits).deep_view()),
{
    if is_named_data(dir) && data_folder_looks_like_skyrim(disk, dir) {
        if let Some(p) = paths::parent_of(dir) {
            push_unique_path(disk, hits, p);
        }
        return ;
    }
    if identify_skyrim_at(disk, dir).is_some() {
        push_unique_path(disk, hits, dir.to_owned());
    }
}

fn search(disk: &Disk, dir: &str, depth: usize, hits: &mut Vec<String>)
    ensures
        final(hits).deep_view() == after_search(
            disk@,
            dir@,
            depth as nat,
            old(hits).deep_view(),
        ),
    decreases depth, 1nat,
{
    look(disk, dir, hits);
    search_below(disk, dir, depth, hits);
}

fn search_below(disk: &Disk, dir: &str, depth: usize, hits: &mut Vec<String>)
    ensures
        final(hits).deep_view() == after_search_below(
            disk@,
            dir@,
            depth as nat,
            old(hits).deep_view(),
        ),
    decreases depth, 0nat,
{
    if depth == 0 {
        return ;
    }
    let ghost looked = hits.deep_view();
    if let Some(f) = disk.folder(dir) {
        let ghost items = disk@.items(dir@);
        let mut k: usize = 0;
        while k < f.items.len()
            invariant
                k <= f.items@.len(),
                depth > 0,
                items == f.items.deep_view(),
                items == disk@.items(dir@),
                after_searches(disk@, dir@, 0, (depth - 1) as nat, looked) == after_searches(
                    disk@,
                    dir@,
                    k as nat,
                    (depth - 1) as nat,
                    hits.deep_view(),
                ),
            decreases f.items.len() - k,
        {
            let item = &f.items[k];
            assert(items[k as int] == item.deep_view());
            if item.real_dir && !should_skip_dir_name(item.name.as_str()) {
                let sub = paths::join(dir, item.name.as_str());
                search(disk, sub.as_str(), depth - 1, hits);
            }
            k += 1;
        }
    }
}

/// Searches a folder and those under it for installs.
fn scan_tree_for_install_dirs(disk: &Disk, root: &str, max_depth: usize) -> (r: Vec<String>)
    ensures
        r.deep_view() == installs_under(disk@, root@, max_depth as nat),
{
    let mut hits: Vec<String> = Vec::new();
    assert(hits.deep_view() =~= Seq::<Seq<char>>::empty());
    if disk.is_real_dir(root) {
        search(disk, root, max_depth, &mut hits);
    } else {
        search_below(disk, root, max_depth, &mut hits);
    }
    hits
}

/// No folder is listed twice.
pub open spec fn places_distinct(disk: DiskView, hits: Seq<Seq<char>>) -> bool {
    forall|a: int, b: int|
        0 <= a < b < hits.len() ==> place_key(disk, #[trigger] hits[a]) != place_key(
            disk,
            #[trigger] hits[b],
        )
}

proof fn lemma_with_place_distinct(disk: DiskView, hits: Seq<Seq<char>>, path: Seq<char>)
    requires
        places_distinct(disk, hits),
    ensures
        places_distinct(disk, with_place(disk, hits, path)),
{
    if !knows_place(disk, hits, path) {
        let after = hits.push(path);
        assert forall|a: int, b: int| 0 <= a < b < after.len() implies place_key(
            disk,
            #[trigger] after[a],
        ) != place_key(disk, #[trigger] after[b]) by {
            assert(after[a] == hits[a]);
            if b < hits.len() {
                assert(after[b] == hits[b]);
            }
        }
    }
}

proof fn lemma_search_distinct(disk: DiskView, dir: Seq<char>, depth: nat, hits: Seq<Seq<char>>)
    requires
        places_distinct(disk, hits),
    ensures
        places_distinct(disk, after_search(disk, dir, depth, hits)),
    decreases depth, 1nat, 0nat,
{
    let looked = after_look(disk, dir, hits);
    lemma_with_place_distinct(disk, hits, dir);
    if paths::parent(dir) is Some {
        lemma_with_place_distinct(disk, hits, paths::parent(dir)->0);
    }
    lemma_search_below_distinct(disk, dir, depth, looked);
}

proof fn lemma_search_below_distinct(
    disk: DiskView,
    dir: Seq<char>,
    depth: nat,
    hits: Seq<Seq<char>>,
)
    requires
        places_distinct(disk, hits),
    ensures
        places_distinct(disk, after_search_below(disk, dir, depth, hits)),
    decreases depth, 0nat, 0nat,
{
    if depth > 0 {
        lemma_searches_distinct(disk, dir, 0, (depth - 1) as nat, hits);
    }
}

proof fn lemma_searches_distinct(
    disk: DiskView,
    dir: Seq<char>,
    k: nat,
    depth: nat,
    hits: Seq<Seq<char>>,
)
    requires
        places_distinct(disk, hits),
    ensures
        places_distinct(disk, after_searches(disk, dir, k, depth, hits)),
    decreases depth, 2nat, disk.items(dir).len() - k,
{
    if k < disk.items(dir).len() {
        let item = disk.items(dir)[k as int];
        let next = if item.real_dir && !is_skipped(item.name) {
            after_search(disk, paths::joined(dir, item.name), depth, hits)
        } else {
            hits
        };
        if item.real_dir && !is_skipped(item.name) {
            lemma_search_distinct(disk, paths::joined(dir, item.name), depth, hits);
        }
        lemma_searches_distinct(disk, dir, k + 1, depth, next);
    }
}

/// A search lists no folder twice.
pub proof fn lemma_installs_distinct(disk: DiskView, root: Seq<char>, depth: nat)
    ensures
        places_distinct(disk, installs_under(disk, root, depth)),
{
    lemma_search_distinct(disk, root, depth, Seq::empty());
    lemma_search_below_distinct(disk, root, depth, Seq::empty());
}

// ---------------------------------------------------------------------------
// Searching prefixes
// ---------------------------------------------------------------------------

/// How deep `drive_c` of a prefix is searched.
pub const DRIVE_DEPTH: usize = 10;

/// How deep the other places of a prefix are searched.
pub const PLACE_DEPTH: usize = 6;

/// How deep the usual folders under the home folder are searched.
pub const USUAL_DEPTH: usize = 5;

/// How deep the home folder itself is searched.
pub const HOME_DEPTH: usize = 2;

/// How deep the folders that a person added are searched.
pub const EXTRA_DEPTH: usize = 8;

/// How deep mounted drives are searched.
pub const MOUNT_DEPTH: usize = 6;

/// The folder above a prefix that may hold the game: for a prefix that Steam
/// made, `compatdata/<app id>/pfx`, the one that `compatdata` is in; otherwise
/// the one two steps up.
pub open spec fn folder_above(prefix_root: Seq<char>) -> Option<Seq<char>> {
    match paths::parent(prefix_root) {
        Some(q) => match paths::parent(q) {
            Some(l) => if paths::file_name(l) == Some("compatdata"@) {
                paths::parent(l)
            } else {
                Some(l)
            },
            None => None,
        },
        None => None,
    }
}

/// Where the game may be for a prefix: for Steam next to the prefixes, and at
/// the usual places inside.
pub open spec fn prefix_roots(p: WinePrefixView) -> Seq<Seq<char>> {
    let c = p.drive_c();
    let common = |base: Seq<char>|
        paths::joined(paths::joined(paths::joined(base, "Steam"@), "steamapps"@), "common"@);
    let library = match folder_above(p.prefix_root) {
        Some(l) => seq![paths::joined(l, "common"@), l],
        None => Seq::empty(),
    };
    library + seq![
        c,
        common(paths::joined(c, "Program Files (x86)"@)),
        common(paths::joined(c, "Program Files"@)),
        paths::joined(c, "Games"@),
        paths::joined(c, "Program Files/Games"@),
        paths::joined(c, "users/Public/Games"@),
        paths::joined(c, "GOG Games"@),
    ]
}

/// The installs known after a look at a folder of Steam's naming.
pub open spec fn after_named(
    disk: DiskView,
    root: Seq<char>,
    name: Seq<char>,
    hits: Seq<Seq<char>>,
) -> Seq<Seq<char>> {
    let dir = paths::joined(root, name);
    if identified(disk, dir) is Some || edition_in(disk, dir) is Some {
        with_place(disk, hits, dir)
    } else {
        hits
    }
}

/// The paths with others, those of folders that are there left out.
pub open spec fn with_places(
    disk: DiskView,
    hits: Seq<Seq<char>>,
    more: Seq<Seq<char>>,
) -> Seq<Seq<char>>
    decreases more.len(),
{
    if more.len() == 0 {
        hits
    } else {
        with_place(disk, with_places(disk, hits, more.drop_last()), more.last())
    }
}

/// The installs known after a search of one root of a prefix.
pub open spec fn after_root(
    disk: DiskView,
    p: WinePrefixView,
    root: Seq<char>,
    hits: Seq<Seq<char>>,
) -> Seq<Seq<char>> {
    if !disk.is_dir(root) {
        hits
    } else {
        let named = after_named(
            disk,
            root,
            "SkyrimVR"@,
            after_named(
                disk,
                root,
                "Skyrim"@,
                after_named(disk, root, "Skyrim Special Edition"@, hits),
            ),
        );
        with_places(disk, named, installs_under(disk, root, depth_in(p, root)))
    }
}

/// How deep a place is searched for a prefix.
pub open spec fn depth_in(p: WinePrefixView, root: Seq<char>) -> nat {
    if paths::same_path(root, p.drive_c()) {
        DRIVE_DEPTH as nat
    } else {
        PLACE_DEPTH as nat
    }
}

/// The installs known after a search of all these roots.
pub open spec fn after_roots(
    disk: DiskView,
    p: WinePrefixView,
    roots: Seq<Seq<char>>,
) -> Seq<Seq<char>>
    decreases roots.len(),
{
    if roots.len() == 0 {
        Seq::empty()
    } else {
        after_root(disk, p, roots.last(), after_roots(disk, p, roots.drop_last()))
    }
}

/// The installs at these paths, those that are none left out.
pub open spec fn prefix_games(
    disk: DiskView,
    p: WinePrefixView,
    dirs: Seq<Seq<char>>,
) -> Seq<GameInstallView>
    decreases dirs.len(),
{
    if dirs.len() == 0 {
        Seq::empty()
    } else {
        let before = prefix_games(disk, p, dirs.drop_last());
        match identified(disk, dirs.last()) {
            Some(e) => before.push(
                game_in(disk, dirs.last(), e, Some(p), Some(p.my_games_dir()), None),
            ),
            None => before,
        }
    }
}

/// All installs that belong to a prefix.
pub open spec fn games_in_prefix(disk: DiskView, p: WinePrefixView) -> Seq<GameInstallView> {
    prefix_games(disk, p, after_roots(disk, p, prefix_roots(p)))
}

fn steam_common(base: &str) -> (r: String)
    ensures
        r@ == paths::joined(
            paths::joined(paths::joined(base@, "Steam"@), "steamapps"@),
            "common"@,
        ),
{
    paths::join(paths::join3(base, "Steam", "steamapps").as_str(), "common")
}

fn library_above(prefix_root: &str) -> (r: Option<String>)
    ensures
        r.deep_view() == folder_above(prefix_root@),
{
    if let Some(q) = paths::parent_of(prefix_root) {
        if let Some(l) = paths::parent_of(q.as_str()) {
            let of_steam = match paths::last_step(l.as_str()) {
                Some(n) => text::same_text(n.as_str(), "compatdata"),
                None => false,
            };
            if of_steam {
                return paths::parent_of(l.as_str());
            }
            return Some(l);
        }
    }
    None
}

/// How deep a place is searched for a prefix.
pub fn search_depth(p: &WinePrefix, root: &str) -> (r: usize)
    ensures
        r == depth_in(p.deep_view(), root@),
{
    if paths::are_same(root, p.drive_c().as_str()) {
        DRIVE_DEPTH
    } else {
        PLACE_DEPTH
    }
}

/// The places that are searched for a prefix.
pub fn candidate_roots(p: &WinePrefix) -> (r: Vec<String>)
    ensures
        r.deep_view() == prefix_roots(p.deep_view()),
{
    let mut roots: Vec<String> = Vec::new();
    if let Some(l) = library_above(p.prefix_root.as_str()) {
        roots.push(paths::join(l.as_str(), "common"));
        roots.push(l);
    }
    let c = p.drive_c();
    let ghost cv = c@;
    roots.push(c.clone());
    roots.push(steam_common(paths::join(c.as_str(), "Program Files (x86)").as_str()));
    roots.push(steam_common(paths::join(c.as_str(), "Program Files").as_str()));
    roots.push(paths::join(c.as_str(), "Games"));
    roots.push(paths::join(c.as_str(), "Program Files/Games"));
    roots.push(paths::join(c.as_str(), "users/Public/Games"));
    roots.push(paths::join(c.as_str(), "GOG Games"));
    assert(roots.deep_view() =~= prefix_roots(p.deep_view()));
    roots
}

fn look_named(disk: &Disk, root: &str, name: &str, hits: &mut Vec<String>)
    ensures
        final(hits).deep_view() == after_named(disk@, root@, name@, old(hits).deep_view()),
{
    let dir = paths::join(root, name);
    if identify_skyrim_at(disk, dir.as_str()).is_some() || edition_from_exes(
        disk,
        dir.as_str(),
    ).is_some() {
        push_unique_path(disk, hits, dir);
    }
}

fn push_unique_paths(disk: &Disk, hits: &mut Vec<String>, more: &Vec<String>)
    ensures
        final(hits).deep_view() == with_places(disk@, old(hits).deep_view(), more.deep_view()),
{
    let ghost hv = hits.deep_view();
    let ghost mv = more.deep_view();
    let mut i: usize = 0;
    assert(mv.take(0) =~= Seq::<Seq<char>>::empty());
    while i < more.len()
        invariant
            i <= more@.len(),
            mv == more.deep_view(),
            hits.deep_view() == with_places(disk@, hv, mv.take(i as int)),
        decreases more.len() - i,
    {
        assert(mv.take(i + 1).drop_last() =~= mv.take(i as int));
        assert(mv.take(i + 1).last() == more@[i as int]@);
        push_unique_path(disk, hits, more[i].clone());
        i += 1;
    }
    assert(mv.take(i as int) =~= mv);
}

fn search_root(disk: &Disk, p: &WinePrefix, root: &str, hits: &mut Vec<String>)
    ensures
        final(hits).deep_view() == after_root(
            disk@,
            p.deep_view(),
            root@,
            old(hits).deep_view(),
        ),
{
    if !disk.is_dir(root) {
        return ;
    }
    look_named(disk, root, "Skyrim Special Edition", hits);
    look_named(disk, root, "Skyrim", hits);
    look_named(disk, root, "SkyrimVR", hits);
    let found = scan_tree_for_install_dirs(disk, root, search_depth(p, root));
    push_unique_paths(disk, hits, &found);
}

/// All installs that belong to a prefix: some people have more than one.
pub fn find_all_skyrim_in_prefix(disk: &Disk, p: &WinePrefix) -> (r: Vec<GameInstall>)
    ensures
        r.deep_view() == games_in_prefix(disk@, p.deep_view()),
{
    let ghost pv = p.deep_view();
    let roots = candidate_roots(p);
    let ghost rv = roots.deep_view();
    let mut hits: Vec<String> = Vec::new();
    let mut i: usize = 0;
    assert(rv.take(0) =~= Seq::<Seq<char>>::empty());
    assert(hits.deep_view() =~= Seq::<Seq<char>>::empty());
    while i < roots.len()
        invariant
            i <= roots@.len(),
            rv == roots.deep_view(),
            pv == p.deep_view(),
            hits.deep_view() == after_roots(disk@, pv, rv.take(i as int)),
        decreases roots.len() - i,
    {
        assert(rv.take(i + 1).drop_last() =~= rv.take(i as int));
        assert(rv.take(i + 1).last() == roots@[i as int]@);
        search_root(disk, p, roots[i].as_str(), &mut hits);
        i += 1;
    }
    assert(rv.take(i as int) =~= rv);
    let ghost hv = hits.deep_view();
    let mut out: Vec<GameInstall> = Vec::new();
    let mut k: usize = 0;
    let no_documents: Option<String> = None;
    assert(hv.take(0) =~= Seq::<Seq<char>>::empty());
    assert(out.deep_view() =~= Seq::<GameInstallView>::empty());
    while k < hits.len()
        invariant
            k <= hits@.len(),
            hv == hits.deep_view(),
            pv == p.deep_view(),
            no_documents is None,
            out.deep_view() == prefix_games(disk@, pv, hv.take(k as int)),
        decreases hits.len() - k,
    {
        assert(hv.take(k + 1).drop_last() =~= hv.take(k as int));
        assert(hv.take(k + 1).last() == hits@[k as int]@);
        if let Some(e) = identify_skyrim_at(disk, hits[k].as_str()) {
            let ghost before = out.deep_view();
            let game = build_game(
                disk,
                hits[k].as_str(),
                e,
                Some(p.copy()),
                Some(p.my_games_dir()),
                &no_documents,
            );
            let ghost g = game.deep_view();
            out.push(game);
            assert(out.deep_view() =~= before.push(g));
        }
        k += 1;
    }
    assert(hv.take(k as int) =~= hv);
    out
}

/// The first install that belongs to a prefix.
pub fn find_skyrim_in_prefix(disk: &Disk, p: &WinePrefix) -> (r: Option<GameInstall>)
    ensures
        r.deep_view() == (if games_in_prefix(disk@, p.deep_view()).len() > 0 {
            Some(games_in_prefix(disk@, p.deep_view())[0])
        } else {
            None
        }),
{
    let all = find_all_skyrim_in_prefix(disk, p);
    assert(all.deep_view().len() == all@.len());
    if all.len() > 0 {
        Some(all[0].copy())
    } else {
        None
    }
}

// ---------------------------------------------------------------------------
// Everything that is found
// ---------------------------------------------------------------------------

/// An install with a label and the time of its `Data` folder.
pub open spec fn detected(disk: DiskView, game: GameInstallView, label: Seq<char>) -> DetectedGameView {
    DetectedGameView {
        game,
        source_label: label,
        data_dir_modified_secs: disk.modified(game.data_dir),
    }
}

fn to_detected(disk: &Disk, game: GameInstall, source_label: String) -> (r: DetectedGame)
    ensures
        r.deep_view() == detected(disk@, game.deep_view(), source_label@),
{
    let secs = disk.modified(game.data_dir.as_str());
    DetectedGame { game, source_label, data_dir_modified_secs: secs }
}

/// Whether one of the installs is in the same folder.
pub open spec fn knows_install(
    disk: DiskView,
    list: Seq<DetectedGameView>,
    dir: Seq<char>,
) -> bool {
    exists|k: int|
        0 <= k < list.len() && place_key(disk, (#[trigger] list[k]).game.install_dir) == place_key(
            disk,
            dir,
        )
}

/// The installs, of several in one folder only the first.
pub open spec fn deduped(disk: DiskView, list: Seq<DetectedGameView>) -> Seq<DetectedGameView>
    decreases list.len(),
{
    if list.len() == 0 {
        Seq::empty()
    } else {
        let before = deduped(disk, list.drop_last());
        if knows_install(disk, before, list.last().game.install_dir) {
            before
        } else {
            before.push(list.last())
        }
    }
}

/// No folder's install is listed twice.
pub proof fn lemma_deduped_distinct(disk: DiskView, list: Seq<DetectedGameView>, a: int, b: int)
    requires
        0 <= a < b < deduped(disk, list).len(),
    ensures
        place_key(disk, deduped(disk, list)[a].game.install_dir) != place_key(
            disk,
            deduped(disk, list)[b].game.install_dir,
        ),
    decreases list.len(),
{
    if list.len() > 0 {
        let before = deduped(disk, list.drop_last());
        if b < before.len() {
            lemma_deduped_distinct(disk, list.drop_last(), a, b);
        }
    }
}

/// Every folder with an install stays listed.
pub proof fn lemma_deduped_covers(disk: DiskView, list: Seq<DetectedGameView>, i: int)
    requires
        0 <= i < list.len(),
    ensures
        knows_install(disk, deduped(disk, list), list[i].game.install_dir),
    decreases list.len(),
{
    let before = deduped(disk, list.drop_last());
    let after = deduped(disk, list);
    if i < list.len() - 1 {
        lemma_deduped_covers(disk, list.drop_last(), i);
        let k = choose|k: int|
            0 <= k < before.len() && place_key(disk, (#[trigger] before[k]).game.install_dir)
                == place_key(disk, list[i].game.install_dir);
        assert(after[k] == before[k]);
    } else if !knows_install(disk, before, list.last().game.install_dir) {
        assert(after[after.len() - 1] == list.last());
    }
}

fn dedupe_detected(disk: &Disk, list: Vec<DetectedGame>) -> (r: Vec<DetectedGame>)
    ensures
        r.deep_view() == deduped(disk@, list.deep_view()),
{
    let ghost lv = list.deep_view();
    let mut out: Vec<DetectedGame> = Vec::new();
    let mut i: usize = 0;
    assert(lv.take(0) =~= Seq::<DetectedGameView>::empty());
    assert(out.deep_view() =~= Seq::<DetectedGameView>::empty());
    while i < list.len()
        invariant
            i <= list@.len(),
            lv == list.deep_view(),
            out.deep_view() == deduped(disk@, lv.take(i as int)),
        decreases list.len() - i,
    {
        assert(lv.take(i + 1).drop_last() =~= lv.take(i as int));
        assert(lv.take(i + 1).last() == list@[i as int].deep_view());
        if !is_known_install(disk, &out, list[i].game.install_dir.as_str()) {
            let ghost before = out.deep_view();
            let d = &list[i];
            let copy = DetectedGame {
                game: d.game.copy(),
                source_label: d.source_label.clone(),
                data_dir_modified_secs: d.data_dir_modified_secs,
            };
            out.push(copy);
            assert(out.deep_view() =~= before.push(lv[i as int]));
        }
        i += 1;
    }
    assert(lv.take(i as int) =~= lv);
    out
}

fn is_known_install(disk: &Disk, list: &Vec<DetectedGame>, dir: &str) -> (r: bool)
    ensures
        r == knows_install(disk@, list.deep_view(), dir@),
{
    let ghost lv = list.deep_view();
    let key = text::to_lowercase(disk.canonical(dir).as_str());
    let mut i: usize = 0;
    while i < list.len()
        invariant
            i <= list@.len(),
            lv == list.deep_view(),
            key@ == place_key(disk@, dir@),
            forall|k: int|
                0 <= k < i ==> place_key(disk@, (#[trigger] lv[k]).game.install_dir) != key@,
        decreases list.len() - i,
    {
        let other = text::to_lowercase(disk.canonical(list[i].game.install_dir.as_str()).as_str());
        if text::same_text(other.as_str(), key.as_str()) {
            assert(place_key(disk@, lv[i as int].game.install_dir) == place_key(disk@, dir@));
            return true;
        }
        i += 1;
    }
    false
}

/// The installs, each under this label.
pub open spec fn labelled(
    disk: DiskView,
    games: Seq<GameInstallView>,
    label: Seq<char>,
) -> Seq<DetectedGameView> {
    games.map_values(|g: GameInstallView| detected(disk, g, label))
}

/// The installs of all these prefixes, each labelled with its prefix and
/// `suffix`.
pub open spec fn found_in_prefixes(
    disk: DiskView,
    prefixes: Seq<WinePrefixView>,
    suffix: Seq<char>,
) -> Seq<DetectedGameView>
    decreases prefixes.len(),
{
    if prefixes.len() == 0 {
        Seq::empty()
    } else {
        found_in_prefixes(disk, prefixes.drop_last(), suffix) + labelled(
            disk,
            games_in_prefix(disk, prefixes.last()),
            prefix::label_of(prefixes.last().source) + suffix,
        )
    }
}

fn add_from_prefixes(
    disk: &Disk,
    results: &mut Vec<DetectedGame>,
    prefixes: &Vec<WinePrefix>,
    suffix: &str,
)
    ensures
        final(results).deep_view() == old(results).deep_view() + found_in_prefixes(
            disk@,
            prefixes.deep_view(),
            suffix@,
        ),
{
    let ghost before = results.deep_view();
    let ghost pv = prefixes.deep_view();
    let mut i: usize = 0;
    assert(pv.take(0) =~= Seq::<WinePrefixView>::empty());
    assert(before + found_in_prefixes(disk@, pv.take(0), suffix@) =~= before);
    while i < prefixes.len()
        invariant
            i <= prefixes@.len(),
            pv == prefixes.deep_view(),
            results.deep_view() == before + found_in_prefixes(disk@, pv.take(i as int), suffix@),
        decreases prefixes.len() - i,
    {
        assert(pv.take(i + 1).drop_last() =~= pv.take(i as int));
        assert(pv.take(i + 1).last() == prefixes@[i as int].deep_view());
        let label = text::concat(prefixes[i].source.label().as_str(), suffix);
        let games = find_all_skyrim_in_prefix(disk, &prefixes[i]);
        let ghost here = results.deep_view();
        let ghost all = labelled(disk@, games.deep_view(), label@);
        let mut k: usize = 0;
        assert(here + all.take(0) =~= here);
        while k < games.len()
            invariant
                k <= games@.len(),
                all == labelled(disk@, games.deep_view(), label@),
                results.deep_view() == here + all.take(k as int),
            decreases games.len() - k,
        {
            let ghost sofar = results.deep_view();
            let d = to_detected(disk, games[k].copy(), label.clone());
            results.push(d);
            k += 1;
            assert(results.deep_view() =~= sofar.push(all[k - 1]));
            assert(results.deep_view() =~= here + all.take(k as int));
        }
        assert(all.take(k as int) =~= all);
        i += 1;
        assert(results.deep_view() =~= before + found_in_prefixes(
            disk@,
            pv.take(i as int),
            suffix@,
        ));
    }
    assert(pv.take(i as int) =~= pv);
}

/// Scans prefixes for installs.
pub fn scan_all_prefixes_for_skyrim(disk: &Disk, prefixes: &Vec<WinePrefix>) -> (r: Vec<
    DetectedGame,
>)
    ensures
        r.deep_view() == deduped(
            disk@,
            found_in_prefixes(disk@, prefixes.deep_view(), Seq::empty()),
        ),
{
    let mut results: Vec<DetectedGame> = Vec::new();
    assert(results.deep_view() =~= Seq::<DetectedGameView>::empty());
    assert(""@ =~= Seq::<char>::empty()) by {
        reveal_strlit("");
    }
    add_from_prefixes(disk, &mut results, prefixes, "");
    assert(results.deep_view() =~= found_in_prefixes(disk@, prefixes.deep_view(), Seq::empty()));
    dedupe_detected(disk, results)
}

/// The installs in these folders, outside prefixes.
pub open spec fn loose_games(
    disk: DiskView,
    dirs: Seq<Seq<char>>,
    documents: Option<Seq<char>>,
) -> Seq<DetectedGameView>
    decreases dirs.len(),
{
    if dirs.len() == 0 {
        Seq::empty()
    } else {
        let before = loose_games(disk, dirs.drop_last(), documents);
        match identified(disk, dirs.last()) {
            Some(e) => before.push(
                detected(
                    disk,
                    game_in(disk, dirs.last(), e, None, None, documents),
                    "Found at "@ + dirs.last(),
                ),
            ),
            None => before,
        }
    }
}

/// The installs in a folder and under it down to `depth`.
pub open spec fn found_under(
    disk: DiskView,
    root: Seq<char>,
    depth: nat,
    documents: Option<Seq<char>>,
) -> Seq<DetectedGameView> {
    loose_games(disk, installs_under(disk, root, depth), documents)
}

/// Searches a folder and those under it, down to `max_depth`, for installs.
pub fn scan_folder_for_skyrim(
    disk: &Disk,
    root: &str,
    max_depth: usize,
    documents: &Option<String>,
) -> (r: Vec<DetectedGame>)
    ensures
        r.deep_view() == found_under(disk@, root@, max_depth as nat, documents.deep_view()),
{
    let dirs = scan_tree_for_install_dirs(disk, root, max_depth);
    let ghost dv = dirs.deep_view();
    let ghost docs = documents.deep_view();
    let mut out: Vec<DetectedGame> = Vec::new();
    let mut i: usize = 0;
    assert(dv.take(0) =~= Seq::<Seq<char>>::empty());
    assert(out.deep_view() =~= Seq::<DetectedGameView>::empty());
    while i < dirs.len()
        invariant
            i <= dirs@.len(),
            dv == dirs.deep_view(),
            docs == documents.deep_view(),
            out.deep_view() == loose_games(disk@, dv.take(i as int), docs),
        decreases dirs.len() - i,
    {
        assert(dv.take(i + 1).drop_last() =~= dv.take(i as int));
        assert(dv.take(i + 1).last() == dirs@[i as int]@);
        if let Some(e) = identify_skyrim_at(disk, dirs[i].as_str()) {
            let ghost before = out.deep_view();
            let game = build_game(disk, dirs[i].as_str(), e, None, None, documents);
            let d = to_detected(disk, game, text::concat("Found at ", dirs[i].as_str()));
            let ghost g = d.deep_view();
            out.push(d);
            assert(out.deep_view() =~= before.push(g));
        }
        i += 1;
    }
    assert(dv.take(i as int) =~= dv);
    out
}

/// The installs under several roots, down to the same depth.
pub open spec fn found_under_all(
    disk: DiskView,
    roots: Seq<Seq<char>>,
    depth: nat,
    documents: Option<Seq<char>>,
) -> Seq<DetectedGameView>
    decreases roots.len(),
{
    if roots.len() == 0 {
        Seq::empty()
    } else {
        found_under_all(disk, roots.drop_last(), depth, documents) + found_under(
            disk,
            roots.last(),
            depth,
            documents,
        )
    }
}

fn add_under_all(
    disk: &Disk,
    results: &mut Vec<DetectedGame>,
    roots: &Vec<String>,
    depth: usize,
    documents: &Option<String>,
)
    ensures
        final(results).deep_view() == old(results).deep_view() + found_under_all(
            disk@,
            roots.deep_view(),
            depth as nat,
            documents.deep_view(),
        ),
{
    let ghost before = results.deep_view();
    let ghost rv = roots.deep_view();
    let ghost docs = documents.deep_view();
    let mut i: usize = 0;
    assert(rv.take(0) =~= Seq::<Seq<char>>::empty());
    assert(before + found_under_all(disk@, rv.take(0), depth as nat, docs) =~= before);
    while i < roots.len()
        invariant
            i <= roots@.len(),
            rv == roots.deep_view(),
            docs == documents.deep_view(),
            results.deep_view() == before + found_under_all(
                disk@,
                rv.take(i as int),
                depth as nat,
                docs,
            ),
        decreases roots.len() - i,
    {
        assert(rv.take(i + 1).drop_last() =~= rv.take(i as int));
        assert(rv.take(i + 1).last() == roots@[i as int]@);
        let ghost here = results.deep_view();
        let mut more = scan_folder_for_skyrim(disk, roots[i].as_str(), depth, documents);
        let ghost mv = more.deep_view();
        results.append(&mut more);
        i += 1;
        assert(results.deep_view() =~= here + mv);
        assert(results.deep_view() =~= before + found_under_all(
            disk@,
            rv.take(i as int),
            depth as nat,
            docs,
        ));
    }
    assert(rv.take(i as int) =~= rv);
}

/// The folders under the home folder that are searched.
pub open spec fn home_folders(home: Seq<char>) -> Seq<Seq<char>> {
    seq![
        paths::joined(home, "Downloads"@),
        paths::joined(home, "Games"@),
        paths::joined(home, "Desktop"@),
        paths::joined(home, "Documents"@),
        paths::joined(home, "bin"@),
        paths::joined(home, "opt"@),
        paths::joined(home, "skyrim"@),
        paths::joined(home, "Skyrim"@),
        paths::joined(home, "Skyrim Special Edition"@),
        paths::joined(home, "GOG Games"@),
        paths::joined(home, "Epic Games"@),
    ]
}

/// Where other drives are mounted.
pub open spec fn mount_roots() -> Seq<Seq<char>> {
    seq!["/mnt"@, "/media"@, "/run/media"@]
}

/// The installs at the usual places of the home folder and in it, at further
/// places, and on mounted drives.
pub open spec fn found_in_locations(
    disk: DiskView,
    home: Option<Seq<char>>,
    extra: Seq<Seq<char>>,
    documents: Option<Seq<char>>,
) -> Seq<DetectedGameView> {
    let at_home = match home {
        Some(h) => found_under_all(
            disk,
            home_folders(h),
            USUAL_DEPTH as nat,
            documents,
        ) + found_under(disk, h, HOME_DEPTH as nat, documents),
        None => Seq::empty(),
    };
    at_home + found_under_all(disk, extra, EXTRA_DEPTH as nat, documents) + found_under_all(
        disk,
        mount_roots(),
        MOUNT_DEPTH as nat,
        documents,
    )
}

/// The folders under the home folder that are searched.
pub fn default_scan_folders(home: &str) -> (r: Vec<String>)
    ensures
        r.deep_view() == home_folders(home@),
{
    let mut out: Vec<String> = Vec::new();
    out.push(paths::join(home, "Downloads"));
    out.push(paths::join(home, "Games"));
    out.push(paths::join(home, "Desktop"));
    out.push(paths::join(home, "Documents"));
    out.push(paths::join(home, "bin"));
    out.push(paths::join(home, "opt"));
    out.push(paths::join(home, "skyrim"));
    out.push(paths::join(home, "Skyrim"));
    out.push(paths::join(home, "Skyrim Special Edition"));
    out.push(paths::join(home, "GOG Games"));
    out.push(paths::join(home, "Epic Games"));
    assert(out.deep_view() =~= home_folders(home@));
    out
}

/// Where other drives are mounted.
pub fn default_mount_roots() -> (r: Vec<String>)
    ensures
        r.deep_view() == mount_roots(),
{
    let mut out: Vec<String> = Vec::new();
    out.push("/mnt".to_owned());
    out.push("/media".to_owned());
    out.push("/run/media".to_owned());
    assert(out.deep_view() =~= mount_roots());
    out
}

/// Scans the usual folders and further ones for installs outside prefixes.
pub fn scan_custom_locations(
    disk: &Disk,
    home: &Option<String>,
    extra_search_paths: &Vec<String>,
    documents: &Option<String>,
) -> (r: Vec<DetectedGame>)
    ensures
        r.deep_view() == deduped(
            disk@,
            found_in_locations(
                disk@,
                home.deep_view(),
                extra_search_paths.deep_view(),
                documents.deep_view(),
            ),
        ),
{
    let ghost docs = documents.deep_view();
    let mut results: Vec<DetectedGame> = Vec::new();
    assert(results.deep_view() =~= Seq::<DetectedGameView>::empty());
    if let Some(h) = home {
        let folders = default_scan_folders(h.as_str());
        add_under_all(disk, &mut results, &folders, USUAL_DEPTH, documents);
        let ghost here = results.deep_view();
        let mut more = scan_folder_for_skyrim(disk, h.as_str(), HOME_DEPTH, documents);
        let ghost mv = more.deep_view();
        results.append(&mut more);
        assert(results.deep_view() =~= here + mv);
    }
    add_under_all(disk, &mut results, extra_search_paths, EXTRA_DEPTH, documents);
    let mounts = default_mount_roots();
    add_under_all(disk, &mut results, &mounts, MOUNT_DEPTH, documents);
    assert(results.deep_view() =~= found_in_locations(
        disk@,
        home.deep_view(),
        extra_search_paths.deep_view(),
        docs,
    ));
    dedupe_detected(disk, results)
}

/// The full scan: known prefixes, and the usual and further folders.
pub fn scan_all_locations(
    disk: &Disk,
    prefixes: &Vec<WinePrefix>,
    home: &Option<String>,
    extra_search_paths: &Vec<String>,
    documents: &Option<String>,
) -> (r: Vec<DetectedGame>)
    ensures
        r.deep_view() == deduped(
            disk@,
            deduped(disk@, found_in_prefixes(disk@, prefixes.deep_view(), Seq::empty())) + deduped(
                disk@,
                found_in_locations(
                    disk@,
                    home.deep_view(),
                    extra_search_paths.deep_view(),
                    documents.deep_view(),
                ),
            ),
        ),
{
    let mut results = scan_all_prefixes_for_skyrim(disk, prefixes);
    let ghost here = results.deep_view();
    let mut more = scan_custom_locations(disk, home, extra_search_paths, documents);
    let ghost mv = more.deep_view();
    results.append(&mut more);
    assert(results.deep_view() =~= here + mv);
    dedupe_detected(disk, results)
}

/// What a deep scan goes through.
#[derive(Debug, Clone)]
pub struct DeepScanOptions {
    /// Where to start. Where none is given, the defaults are used.
    pub roots: Vec<String>,
    /// How deep to go from each.
    pub max_depth: usize,
    /// Whether prefixes are scanned too.
    pub include_prefixes: bool,
}

impl Default for DeepScanOptions {
    fn default() -> (r: Self)
        ensures
            r.roots@.len() == 0,
            r.max_depth == 12,
            r.include_prefixes,
    {
        DeepScanOptions { roots: Vec::new(), max_depth: 12, include_prefixes: true }
    }
}

/// The given folders that exist, after those that came before.
pub open spec fn existing(disk: DiskView, dirs: Seq<Seq<char>>) -> Seq<Seq<char>>
    decreases dirs.len(),
{
    if dirs.len() == 0 {
        Seq::empty()
    } else {
        let before = existing(disk, dirs.drop_last());
        if disk.is_dir(dirs.last()) {
            before.push(dirs.last())
        } else {
            before
        }
    }
}

/// Folders under the home folder that a deep scan starts from.
pub open spec fn deep_home_folders(home: Seq<char>) -> Seq<Seq<char>> {
    seq![
        paths::joined(home, "Games"@),
        paths::joined(home, "Downloads"@),
        paths::joined(home, "Desktop"@),
        paths::joined(home, "Documents"@),
        paths::joined(home, ".steam"@),
        paths::joined(home, ".local/share/Steam"@),
        paths::joined(home, ".wine"@),
        paths::joined(home, ".var/app"@),
        paths::joined(home, "PortProton"@),
        paths::joined(home, ".PortProton"@),
    ]
}

/// Folders of the system that a deep scan starts from.
pub open spec fn deep_system_folders() -> Seq<Seq<char>> {
    seq!["/mnt"@, "/media"@, "/run/media"@, "/opt"@, "/usr/local/games"@, "/var/games"@]
}

/// Where a deep scan starts where it is not told.
pub open spec fn deep_roots(disk: DiskView, home: Option<Seq<char>>) -> Seq<Seq<char>> {
    let at_home = match home {
        Some(h) => seq![h] + existing(disk, deep_home_folders(h)),
        None => Seq::empty(),
    };
    at_home + existing(disk, deep_system_folders())
}

fn add_existing(disk: &Disk, roots: &mut Vec<String>, dirs: &Vec<String>)
    ensures
        final(roots).deep_view() == old(roots).deep_view() + existing(disk@, dirs.deep_view()),
{
    let ghost before = roots.deep_view();
    let ghost dv = dirs.deep_view();
    let mut i: usize = 0;
    assert(dv.take(0) =~= Seq::<Seq<char>>::empty());
    assert(before + existing(disk@, dv.take(0)) =~= before);
    while i < dirs.len()
        invariant
            i <= dirs@.len(),
            dv == dirs.deep_view(),
            roots.deep_view() == before + existing(disk@, dv.take(i as int)),
        decreases dirs.len() - i,
    {
        assert(dv.take(i + 1).drop_last() =~= dv.take(i as int));
        assert(dv.take(i + 1).last() == dirs@[i as int]@);
        let ghost sofar = roots.deep_view();
        if disk.is_dir(dirs[i].as_str()) {
            roots.push(dirs[i].clone());
            assert(roots.deep_view() =~= sofar.push(dv[i as int]));
        }
        i += 1;
        assert(roots.deep_view() =~= before + existing(disk@, dv.take(i as int)));
    }
    assert(dv.take(i as int) =~= dv);
}

/// Where a deep scan starts where it is not told.
pub fn default_deep_roots(disk: &Disk, home: &Option<String>) -> (r: Vec<String>)
    ensures
        r.deep_view() == deep_roots(disk@, home.deep_view()),
{
    let mut roots: Vec<String> = Vec::new();
    assert(roots.deep_view() =~= Seq::<Seq<char>>::empty());
    if let Some(home_dir) = home {
        let h = home_dir.as_str();
        roots.push(home_dir.clone());
        assert(roots.deep_view() =~= seq![h@]);
        let mut dirs: Vec<String> = Vec::new();
        dirs.push(paths::join(h, "Games"));
        dirs.push(paths::join(h, "Downloads"));
        dirs.push(paths::join(h, "Desktop"));
        dirs.push(paths::join(h, "Documents"));
        dirs.push(paths::join(h, ".steam"));
        dirs.push(paths::join(h, ".local/share/Steam"));
        dirs.push(paths::join(h, ".wine"));
        dirs.push(paths::join(h, ".var/app"));
        dirs.push(paths::join(h, "PortProton"));
        dirs.push(paths::join(h, ".PortProton"));
        assert(dirs.deep_view() =~= deep_home_folders(h@));
        add_existing(disk, &mut roots, &dirs);
    }
    let mut system: Vec<String> = Vec::new();
    system.push("/mnt".to_owned());
    system.push("/media".to_owned());
    system.push("/run/media".to_owned());
    system.push("/opt".to_owned());
    system.push("/usr/local/games".to_owned());
    system.push("/var/games".to_owned());
    assert(system.deep_view() =~= deep_system_folders());
    add_existing(disk, &mut roots, &system);
    assert(roots.deep_view() =~= deep_roots(disk@, home.deep_view()));
    roots
}

/// The installs in these folders, each with the prefix that contains it.
pub open spec fn deep_games(
    disk: DiskView,
    prefixes: Seq<WinePrefixView>,
    dirs: Seq<Seq<char>>,
    documents: Option<Seq<char>>,
) -> Seq<DetectedGameView>
    decreases dirs.len(),
{
    if dirs.len() == 0 {
        Seq::empty()
    } else {
        let before = deep_games(disk, prefixes, dirs.drop_last(), documents);
        let dir = dirs.last();
        let p = prefix::enclosing(prefixes, dir);
        match identified(disk, dir) {
            Some(e) => before.push(
                detected(
                    disk,
                    game_in(
                        disk,
                        dir,
                        e,
                        p,
                        match p {
                            Some(q) => Some(q.my_games_dir()),
                            None => None,
                        },
                        documents,
                    ),
                    match p {
                        Some(q) => prefix::label_of(q.source) + " — "@ + dir,
                        None => "Deep scan — "@ + dir,
                    },
                ),
            ),
            None => before,
        }
    }
}

/// The installs under all these roots.
pub open spec fn deep_found(
    disk: DiskView,
    prefixes: Seq<WinePrefixView>,
    roots: Seq<Seq<char>>,
    depth: nat,
    documents: Option<Seq<char>>,
) -> Seq<DetectedGameView>
    decreases roots.len(),
{
    if roots.len() == 0 {
        Seq::empty()
    } else {
        deep_found(disk, prefixes, roots.drop_last(), depth, documents) + deep_games(
            disk,
            prefixes,
            installs_under(disk, roots.last(), depth),
            documents,
        )
    }
}

fn scan_deep(
    disk: &Disk,
    prefixes: &Vec<WinePrefix>,
    root: &str,
    depth: usize,
    documents: &Option<String>,
) -> (r: Vec<DetectedGame>)
    ensures
        r.deep_view() == deep_games(
            disk@,
            prefixes.deep_view(),
            installs_under(disk@, root@, depth as nat),
            documents.deep_view(),
        ),
{
    let dirs = scan_tree_for_install_dirs(disk, root, depth);
    let ghost dv = dirs.deep_view();
    let ghost pv = prefixes.deep_view();
    let ghost docs = documents.deep_view();
    let mut out: Vec<DetectedGame> = Vec::new();
    let mut i: usize = 0;
    assert(dv.take(0) =~= Seq::<Seq<char>>::empty());
    assert(out.deep_view() =~= Seq::<DetectedGameView>::empty());
    while i < dirs.len()
        invariant
            i <= dirs@.len(),
            dv == dirs.deep_view(),
            pv == prefixes.deep_view(),
            docs == documents.deep_view(),
            out.deep_view() == deep_games(disk@, pv, dv.take(i as int), docs),
        decreases dirs.len() - i,
    {
        assert(dv.take(i + 1).drop_last() =~= dv.take(i as int));
        assert(dv.take(i + 1).last() == dirs@[i as int]@);
        let dir = dirs[i].as_str();
        if let Some(e) = identify_skyrim_at(disk, dir) {
            let ghost before = out.deep_view();
            let p = prefix::find_prefix_containing(prefixes, dir);
            let (label, my_games) = match &p {
                Some(q) => (
                    text::concat3(q.source.label().as_str(), " — ", dir),
                    Some(q.my_games_dir()),
                ),
                None => (text::concat("Deep scan — ", dir), None),
            };
            let game = build_game(disk, dir, e, p, my_games, documents);
            let d = to_detected(disk, game, label);
            let ghost g = d.deep_view();
            out.push(d);
            assert(out.deep_view() =~= before.push(g));
        }
        i += 1;
    }
    assert(dv.take(i as int) =~= dv);
    out
}

/// Scans all prefixes that are known, and deep under the given roots or the
/// default ones. For installs that the usual scan does not find.
pub fn deep_scan_for_skyrim(
    disk: &Disk,
    opts: &DeepScanOptions,
    prefixes: &Vec<WinePrefix>,
    home: &Option<String>,
    documents: &Option<String>,
) -> (r: Vec<DetectedGame>)
    ensures
        r.deep_view() == ({
            let pv = prefixes.deep_view();
            let roots = if opts.roots@.len() == 0 {
                deep_roots(disk@, home.deep_view())
            } else {
                opts.roots.deep_view()
            };
            let inside = if opts.include_prefixes {
                found_in_prefixes(disk@, pv, " (deep)"@)
            } else {
                Seq::empty()
            };
            deduped(
                disk@,
                inside + deep_found(
                    disk@,
                    pv,
                    roots,
                    opts.max_depth as nat,
                    documents.deep_view(),
                ),
            )
        }),
{
    let ghost pv = prefixes.deep_view();
    let ghost docs = documents.deep_view();
    let mut results: Vec<DetectedGame> = Vec::new();
    assert(results.deep_view() =~= Seq::<DetectedGameView>::empty());
    if opts.include_prefixes {
        add_from_prefixes(disk, &mut results, prefixes, " (deep)");
    }
    let ghost inside = results.deep_view();
    assert(inside =~= if opts.include_prefixes {
        found_in_prefixes(disk@, pv, " (deep)"@)
    } else {
        Seq::empty()
    });
    let roots = if opts.roots.len() == 0 {
        default_deep_roots(disk, home)
    } else {
        text::copy_list(&opts.roots)
    };
    let ghost rv = roots.deep_view();
    let depth: usize = opts.max_depth;
    let mut i: usize = 0;
    assert(rv.take(0) =~= Seq::<Seq<char>>::empty());
    assert(inside + deep_found(disk@, pv, rv.take(0), depth as nat, docs) =~= inside);
    while i < roots.len()
        invariant
            i <= roots@.len(),
            rv == roots.deep_view(),
            pv == prefixes.deep_view(),
            docs == documents.deep_view(),
            results.deep_view() == inside + deep_found(
                disk@,
                pv,
                rv.take(i as int),
                depth as nat,
                docs,
            ),
        decreases roots.len() - i,
    {
        assert(rv.take(i + 1).drop_last() =~= rv.take(i as int));
        assert(rv.take(i + 1).last() == roots@[i as int]@);
        let ghost here = results.deep_view();
        let mut more = scan_deep(disk, prefixes, roots[i].as_str(), depth, documents);
        let ghost mv = more.deep_view();
        results.append(&mut more);
        i += 1;
        assert(results.deep_view() =~= here + mv);
        assert(results.deep_view() =~= inside + deep_found(
            disk@,
            pv,
            rv.take(i as int),
            depth as nat,
            docs,
        ));
    }
    assert(rv.take(i as int) =~= rv);
    dedupe_detected(disk, results)
}

/// The install at a path, which may be that of its `Data` folder.
pub open spec fn found_at(
    disk: DiskView,
    path: Seq<char>,
    prefixes: Seq<WinePrefixView>,
    my_games: Option<Seq<char>>,
    documents: Option<Seq<char>>,
) -> Option<GameInstallView> {
    let dir = install_dir_for(disk, path);
    match identified(disk, dir) {
        Some(e) => Some(
            game_in(disk, dir, e, prefix::enclosing(prefixes, dir), my_games, documents),
        ),
        None => None,
    }
}

/// Finds the install at a path, which may be that of its `Data` folder, for a
/// game that keeps its files under `my_games_root`.
pub fn find_skyrim_at(
    disk: &Disk,
    install_dir: &str,
    my_games_root: &str,
    prefixes: &Vec<WinePrefix>,
) -> (r: Option<GameInstall>)
    ensures
        r.deep_view() == found_at(
            disk@,
            install_dir@,
            prefixes.deep_view(),
            Some(my_games_root@),
            None,
        ),
{
    let dir = normalize_install_dir(disk, install_dir);
    match identify_skyrim_at(disk, dir.as_str()) {
        None => None,
        Some(e) => {
            let p = prefix::find_prefix_containing(prefixes, dir.as_str());
            let none: Option<String> = None;
            Some(build_game(disk, dir.as_str(), e, p, Some(my_games_root.to_owned()), &none))
        },
    }
}

/// Where a game in this folder keeps its files: under the prefix that contains
/// it, or under the user's documents, or in the folder itself.
pub open spec fn best_my_games(
    dir: Seq<char>,
    p: Option<WinePrefixView>,
    documents: Option<Seq<char>>,
) -> Seq<char> {
    match (p, documents) {
        (Some(q), _) => q.my_games_dir(),
        (None, Some(d)) => paths::joined(d, "My Games"@),
        (None, None) => dir,
    }
}

/// Finds the install at a path, which may be that of its `Data` folder. The
/// game keeps its files under the prefix that contains it, or under the user's
/// documents, or in the install folder.
pub fn find_skyrim_at_smart(
    disk: &Disk,
    path: &str,
    prefixes: &Vec<WinePrefix>,
    documents: &Option<String>,
) -> (r: Option<GameInstall>)
    ensures
        r.deep_view() == ({
            let dir = install_dir_for(disk@, path@);
            found_at(
                disk@,
                path@,
                prefixes.deep_view(),
                Some(
                    best_my_games(
                        dir,
                        prefix::enclosing(prefixes.deep_view(), dir),
                        documents.deep_view(),
                    ),
                ),
                None,
            )
        }),
{
    let dir = normalize_install_dir(disk, path);
    match identify_skyrim_at(disk, dir.as_str()) {
        None => None,
        Some(e) => {
            let p = prefix::find_prefix_containing(prefixes, dir.as_str());
            let my_games = match &p {
                Some(q) => q.my_games_dir(),
                None => match documents {
                    Some(d) => paths::join(d.as_str(), "My Games"),
                    None => dir.clone(),
                },
            };
            let none: Option<String> = None;
            Some(build_game(disk, dir.as_str(), e, p, Some(my_games), &none))
        },
    }
}

/// Two installs found in one folder have the same id, whatever else is known
/// of them.
pub proof fn lemma_id_is_deterministic(
    disk: DiskView,
    path: Seq<char>,
    e: GameEdition,
    p: Option<WinePrefixView>,
    m: Option<Seq<char>>,
    d: Option<Seq<char>>,
    e2: GameEdition,
    p2: Option<WinePrefixView>,
    m2: Option<Seq<char>>,
    d2: Option<Seq<char>>,
)
    ensures
        game_in(disk, path, e, p, m, d).id == game_in(disk, path, e2, p2, m2, d2).id,
{
}

/// Whether a character is a lower-case hexadecimal digit.
pub open spec fn is_hex(c: char) -> bool {
    '0' <= c <= '9' || 'a' <= c <= 'f'
}

proof fn lemma_hex_digits(n: nat, k: nat)
    ensures
        hex(n, k).len() == k,
        forall|i: int| 0 <= i < k ==> is_hex(#[trigger] hex(n, k)[i]),
    decreases k,
{
    if k > 0 {
        lemma_hex_digits(n / 16, (k - 1) as nat);
        let d = n % 16;
        assert(is_hex(hex_digit(d)));
    }
}

/// Whether a folder is not called `Data`, whatever the case of its letters.
pub open spec fn is_not_data(dir: Seq<char>) -> bool {
    match paths::file_name(dir) {
        Some(n) => text::ascii_fold(n) != "data"@ && text::lowercase(n) != "data"@,
        None => true,
    }
}

/// A folder with the program of the Special Edition, none of the VR edition's
/// and a `Data` folder is found as an install of the Special Edition. Its id is
/// sixteen hexadecimal digits that depend on the folder with all links resolved
/// alone, not on where the game keeps its files.
pub proof fn lemma_special_edition_is_found(
    disk: DiskView,
    dir: Seq<char>,
    prefixes: Seq<WinePrefixView>,
    my_games_root: Seq<char>,
)
    requires
        disk.is_dir(dir),
        is_not_data(dir),
        disk.has_file(dir, "SkyrimSE.exe"@),
        !disk.has_file(dir, "SkyrimVR.exe"@),
        !disk.has_file(dir, "sksevr_loader.exe"@),
        disk.is_dir(paths::joined(dir, "Data"@)),
        prefix::enclosing(prefixes, dir) is None,
    ensures
        found_at(disk, dir, prefixes, Some(my_games_root), None) == Some(
            GameInstallView {
                id: id_of(disk.canonical(dir)),
                edition: GameEdition::SE,
                install_dir: dir,
                data_dir: paths::joined(dir, "Data"@),
                plugins_txt: paths::joined(
                    paths::joined(my_games_root, "Skyrim Special Edition"@),
                    "plugins.txt"@,
                ),
                wine_prefix: None,
            },
        ),
        id_of(disk.canonical(dir)).len() == 16,
        forall|i: int|
            0 <= i < 16 ==> is_hex(#[trigger] id_of(disk.canonical(dir))[i]),
{
    lemma_hex_digits(path_hash(disk.canonical(dir)) as nat, 16);
    assert(install_dir_for(disk, dir) == dir);
    reveal_strlit("data");
    assert(lower_name(dir) != "data"@) by {
        if paths::file_name(dir) is None {
            assert(lower_name(dir).len() == 0);
        }
    }
}

// ---------------------------------------------------------------------------
// What a search finds
// ---------------------------------------------------------------------------

/// Whether these names lead from folder to folder, each of them a folder itself
/// that searches go into.
pub open spec fn leads_down(disk: DiskView, dir: Seq<char>, names: Seq<Seq<char>>) -> bool
    decreases names.len(),
{
    names.len() == 0 || {
        &&& exists|k: int|
            0 <= k < disk.items(dir).len() && (#[trigger] disk.items(dir)[k]).real_dir
                && disk.items(dir)[k].name == names[0]
        &&& !is_skipped(names[0])
        &&& leads_down(disk, paths::joined(dir, names[0]), names.drop_first())
    }
}

/// Where names lead.
pub open spec fn end_of(dir: Seq<char>, names: Seq<Seq<char>>) -> Seq<char>
    decreases names.len(),
{
    if names.len() == 0 {
        dir
    } else {
        end_of(paths::joined(dir, names[0]), names.drop_first())
    }
}

/// Whether a folder shows that `install` is one: it is an install, or it is the
/// `Data` folder of one.
pub open spec fn shows(disk: DiskView, dir: Seq<char>, install: Seq<char>) -> bool {
    if lower_name(dir) == "data"@ && is_game_data(disk, dir) {
        paths::parent(dir) == Some(install)
    } else {
        identified(disk, dir) is Some && install == dir
    }
}

proof fn lemma_with_place_keeps(
    disk: DiskView,
    hits: Seq<Seq<char>>,
    more: Seq<char>,
    path: Seq<char>,
)
    ensures
        knows_place(disk, hits, path) ==> knows_place(disk, with_place(disk, hits, more), path),
        knows_place(disk, with_place(disk, hits, more), more),
{
    let after = with_place(disk, hits, more);
    if knows_place(disk, hits, path) {
        let k = choose|k: int|
            0 <= k < hits.len() && place_key(disk, #[trigger] hits[k]) == place_key(disk, path);
        assert(after[k] == hits[k]);
    }
    if !knows_place(disk, hits, more) {
        assert(after[hits.len() as int] == more);
    }
}

proof fn lemma_search_keeps(
    disk: DiskView,
    dir: Seq<char>,
    depth: nat,
    hits: Seq<Seq<char>>,
    path: Seq<char>,
)
    requires
        knows_place(disk, hits, path),
    ensures
        knows_place(disk, after_search(disk, dir, depth, hits), path),
    decreases depth, 1nat, 0nat,
{
    lemma_with_place_keeps(disk, hits, dir, path);
    if paths::parent(dir) is Some {
        lemma_with_place_keeps(disk, hits, paths::parent(dir)->0, path);
    }
    lemma_search_below_keeps(disk, dir, depth, after_look(disk, dir, hits), path);
}

proof fn lemma_search_below_keeps(
    disk: DiskView,
    dir: Seq<char>,
    depth: nat,
    hits: Seq<Seq<char>>,
    path: Seq<char>,
)
    requires
        knows_place(disk, hits, path),
    ensures
        knows_place(disk, after_search_below(disk, dir, depth, hits), path),
    decreases depth, 0nat, 0nat,
{
    if depth > 0 {
        lemma_searches_keep(disk, dir, 0, (depth - 1) as nat, hits, path);
    }
}

proof fn lemma_searches_keep(
    disk: DiskView,
    dir: Seq<char>,
    k: nat,
    depth: nat,
    hits: Seq<Seq<char>>,
    path: Seq<char>,
)
    requires
        knows_place(disk, hits, path),
    ensures
        knows_place(disk, after_searches(disk, dir, k, depth, hits), path),
    decreases depth, 2nat, disk.items(dir).len() - k,
{
    if k < disk.items(dir).len() {
        let item = disk.items(dir)[k as int];
        let next = if item.real_dir && !is_skipped(item.name) {
            after_search(disk, paths::joined(dir, item.name), depth, hits)
        } else {
            hits
        };
        if item.real_dir && !is_skipped(item.name) {
            lemma_search_keeps(disk, paths::joined(dir, item.name), depth, hits, path);
        }
        lemma_searches_keep(disk, dir, k + 1, depth, next, path);
    }
}

proof fn lemma_search_finds(
    disk: DiskView,
    dir: Seq<char>,
    names: Seq<Seq<char>>,
    depth: nat,
    hits: Seq<Seq<char>>,
    install: Seq<char>,
)
    requires
        leads_down(disk, dir, names),
        names.len() <= depth,
        shows(disk, end_of(dir, names), install),
    ensures
        knows_place(disk, after_search(disk, dir, depth, hits), install),
    decreases names.len(), 1nat, 0nat,
{
    let looked = after_look(disk, dir, hits);
    if names.len() == 0 {
        lemma_with_place_keeps(disk, hits, install, install);
        lemma_search_below_keeps(disk, dir, depth, looked, install);
    } else {
        lemma_search_below_finds(disk, dir, names, depth, looked, install);
    }
}

proof fn lemma_search_below_finds(
    disk: DiskView,
    dir: Seq<char>,
    names: Seq<Seq<char>>,
    depth: nat,
    hits: Seq<Seq<char>>,
    install: Seq<char>,
)
    requires
        names.len() > 0,
        leads_down(disk, dir, names),
        names.len() <= depth,
        shows(disk, end_of(dir, names), install),
    ensures
        knows_place(disk, after_search_below(disk, dir, depth, hits), install),
    decreases names.len(), 0nat, 0nat,
{
    let at = choose|at: int|
        0 <= at < disk.items(dir).len() && (#[trigger] disk.items(dir)[at]).real_dir
            && disk.items(dir)[at].name == names[0];
    lemma_searches_find(disk, dir, names, 0, at, (depth - 1) as nat, hits, install);
}

proof fn lemma_searches_find(
    disk: DiskView,
    dir: Seq<char>,
    names: Seq<Seq<char>>,
    k: nat,
    at: int,
    depth: nat,
    hits: Seq<Seq<char>>,
    install: Seq<char>,
)
    requires
        names.len() > 0,
        leads_down(disk, dir, names),
        names.len() <= depth + 1,
        shows(disk, end_of(dir, names), install),
        k <= at < disk.items(dir).len(),
        disk.items(dir)[at].real_dir,
        disk.items(dir)[at].name == names[0],
    ensures
        knows_place(disk, after_searches(disk, dir, k, depth, hits), install),
    decreases names.len() - 1, 2nat, at - k,
{
    let item = disk.items(dir)[k as int];
    let next = if item.real_dir && !is_skipped(item.name) {
        after_search(disk, paths::joined(dir, item.name), depth, hits)
    } else {
        hits
    };
    if k == at {
        lemma_search_finds(
            disk,
            paths::joined(dir, names[0]),
            names.drop_first(),
            depth,
            hits,
            install,
        );
        lemma_searches_keep(disk, dir, k + 1, depth, next, install);
    } else {
        lemma_searches_find(disk, dir, names, k + 1, at, depth, next, install);
    }
}

/// A search finds every install that is no deeper than it goes and that no
/// folder on the way hides from it, be it by its program, by what it holds or by
/// its `Data` folder.
pub proof fn lemma_search_finds_every_install(
    disk: DiskView,
    root: Seq<char>,
    names: Seq<Seq<char>>,
    depth: nat,
    install: Seq<char>,
)
    requires
        leads_down(disk, root, names),
        names.len() <= depth,
        disk.is_real_dir(root) || names.len() > 0,
        shows(disk, end_of(root, names), install),
    ensures
        knows_place(disk, installs_under(disk, root, depth), install),
{
    if disk.is_real_dir(root) {
        lemma_search_finds(disk, root, names, depth, Seq::empty(), install);
    } else {
        lemma_search_below_finds(disk, root, names, depth, Seq::empty(), install);
    }
}

/// Whether an install is shown by a folder that is no deeper than `depth` below
/// the root.
pub open spec fn is_shown_below(
    disk: DiskView,
    root: Seq<char>,
    depth: nat,
    install: Seq<char>,
) -> bool {
    exists|names: Seq<Seq<char>>| #[trigger]
        leads_down(disk, root, names) && names.len() <= depth && shows(
            disk,
            end_of(root, names),
            install,
        )
}

spec fn all_shown(disk: DiskView, root: Seq<char>, depth: nat, hits: Seq<Seq<char>>) -> bool {
    forall|k: int| 0 <= k < hits.len() ==> is_shown_below(disk, root, depth, #[trigger] hits[k])
}

proof fn lemma_leads_further(
    disk: DiskView,
    root: Seq<char>,
    names: Seq<Seq<char>>,
    k: int,
)
    requires
        leads_down(disk, root, names),
        0 <= k < disk.items(end_of(root, names)).len(),
        disk.items(end_of(root, names))[k].real_dir,
        !is_skipped(disk.items(end_of(root, names))[k].name),
    ensures
        ({
            let name = disk.items(end_of(root, names))[k].name;
            &&& leads_down(disk, root, names.push(name))
            &&& end_of(root, names.push(name)) == paths::joined(end_of(root, names), name)
        }),
    decreases names.len(),
{
    let name = disk.items(end_of(root, names))[k].name;
    let more = names.push(name);
    if names.len() == 0 {
        assert(more.drop_first() =~= Seq::<Seq<char>>::empty());
        assert(leads_down(disk, paths::joined(root, name), more.drop_first()));
        assert(end_of(paths::joined(root, name), more.drop_first()) == paths::joined(root, name));
        assert(disk.items(root)[k].name == more[0]);
    } else {
        let next = paths::joined(root, names[0]);
        lemma_leads_further(disk, next, names.drop_first(), k);
        assert(more.drop_first() =~= names.drop_first().push(name));
        assert(more[0] == names[0]);
    }
}

proof fn lemma_look_is_shown(
    disk: DiskView,
    root: Seq<char>,
    total: nat,
    names: Seq<Seq<char>>,
    hits: Seq<Seq<char>>,
)
    requires
        leads_down(disk, root, names),
        names.len() <= total,
        all_shown(disk, root, total, hits),
    ensures
        all_shown(disk, root, total, after_look(disk, end_of(root, names), hits)),
{
    let dir = end_of(root, names);
    let after = after_look(disk, dir, hits);
    assert forall|k: int| 0 <= k < after.len() implies is_shown_below(
        disk,
        root,
        total,
        #[trigger] after[k],
    ) by {
        if k < hits.len() {
            assert(after[k] == hits[k]);
        } else {
            assert(shows(disk, end_of(root, names), after[k]));
        }
    }
}

proof fn lemma_search_is_shown(
    disk: DiskView,
    root: Seq<char>,
    total: nat,
    names: Seq<Seq<char>>,
    depth: nat,
    hits: Seq<Seq<char>>,
)
    requires
        leads_down(disk, root, names),
        names.len() + depth <= total,
        all_shown(disk, root, total, hits),
    ensures
        all_shown(disk, root, total, after_search(disk, end_of(root, names), depth, hits)),
    decreases depth, 1nat, 0nat,
{
    lemma_look_is_shown(disk, root, total, names, hits);
    lemma_search_below_is_shown(
        disk,
        root,
        total,
        names,
        depth,
        after_look(disk, end_of(root, names), hits),
    );
}

proof fn lemma_search_below_is_shown(
    disk: DiskView,
    root: Seq<char>,
    total: nat,
    names: Seq<Seq<char>>,
    depth: nat,
    hits: Seq<Seq<char>>,
)
    requires
        leads_down(disk, root, names),
        names.len() + depth <= total,
        all_shown(disk, root, total, hits),
    ensures
        all_shown(disk, root, total, after_search_below(disk, end_of(root, names), depth, hits)),
    decreases depth, 0nat, 0nat,
{
    if depth > 0 {
        lemma_searches_are_shown(disk, root, total, names, 0, (depth - 1) as nat, hits);
    }
}

proof fn lemma_searches_are_shown(
    disk: DiskView,
    root: Seq<char>,
    total: nat,
    names: Seq<Seq<char>>,
    k: nat,
    depth: nat,
    hits: Seq<Seq<char>>,
)
    requires
        leads_down(disk, root, names),
        names.len() + depth + 1 <= total,
        all_shown(disk, root, total, hits),
    ensures
        all_shown(disk, root, total, after_searches(disk, end_of(root, names), k, depth, hits)),
    decreases depth, 2nat, disk.items(end_of(root, names)).len() - k,
{
    let dir = end_of(root, names);
    if k < disk.items(dir).len() {
        let item = disk.items(dir)[k as int];
        let next = if item.real_dir && !is_skipped(item.name) {
            after_search(disk, paths::joined(dir, item.name), depth, hits)
        } else {
            hits
        };
        if item.real_dir && !is_skipped(item.name) {
            lemma_leads_further(disk, root, names, k as int);
            lemma_search_is_shown(disk, root, total, names.push(item.name), depth, hits);
        }
        lemma_searches_are_shown(disk, root, total, names, k + 1, depth, next);
    }
}

/// Whatever a search finds is shown by a folder that is no deeper than it goes,
/// on a way on which no folder is skipped.
pub proof fn lemma_search_finds_nothing_else(
    disk: DiskView,
    root: Seq<char>,
    depth: nat,
    k: int,
)
    requires
        0 <= k < installs_under(disk, root, depth).len(),
    ensures
        is_shown_below(disk, root, depth, installs_under(disk, root, depth)[k]),
{
    let none = Seq::<Seq<char>>::empty();
    assert(leads_down(disk, root, none));
    assert(end_of(root, none) == root);
    assert(all_shown(disk, root, depth, none));
    lemma_search_is_shown(disk, root, depth, none, depth, none);
    lemma_search_below_is_shown(disk, root, depth, none, depth, none);
}

/// Searches do not go into folders of these names, whatever the case of letters,
/// nor into application bundles and hidden folders but those of Wine and Steam;
/// they go into all others.
pub proof fn lemma_skipped_folders(name: Seq<char>)
    ensures
        is_skipped(name) <==> {
            let l = text::lowercase(name);
            ||| seq![
                ".git"@, ".svn"@, ".hg"@, "node_modules"@, "__pycache__"@, ".cache"@, "cache"@,
                "caches"@, ".npm"@, ".cargo"@, ".rustup"@, ".local"@, "proc"@, "sys"@, "dev"@,
                "lost+found"@, "windows"@, "winsxs"@, "system32"@, "syswow64"@, "$recycle.bin"@,
                "recycle.bin"@, "trash"@, ".trash"@, "tmp"@, "temp"@, "shadercache"@,
                "shader cache"@, "steamapps/downloading"@, "compatdata"@,
            ].contains(l)
            ||| text::ends_in(l, ".app"@)
            ||| l.len() > 0 && l[0] == '.' && l != ".wine"@ && l != ".steam"@
        },
{
    let l = text::lowercase(name);
    let list = seq![
        ".git"@, ".svn"@, ".hg"@, "node_modules"@, "__pycache__"@, ".cache"@, "cache"@, "caches"@,
        ".npm"@, ".cargo"@, ".rustup"@, ".local"@, "proc"@, "sys"@, "dev"@, "lost+found"@,
        "windows"@, "winsxs"@, "system32"@, "syswow64"@, "$recycle.bin"@, "recycle.bin"@, "trash"@,
        ".trash"@, "tmp"@, "temp"@, "shadercache"@, "shader cache"@, "steamapps/downloading"@,
        "compatdata"@,
    ];
    assert(list[0] == ".git"@ && list[1] == ".svn"@ && list[2] == ".hg"@ && list[3]
        == "node_modules"@ && list[4] == "__pycache__"@ && list[5] == ".cache"@ && list[6]
        == "cache"@ && list[7] == "caches"@ && list[8] == ".npm"@ && list[9] == ".cargo"@
        && list[10] == ".rustup"@ && list[11] == ".local"@ && list[12] == "proc"@ && list[13]
        == "sys"@ && list[14] == "dev"@ && list[15] == "lost+found"@ && list[16] == "windows"@
        && list[17] == "winsxs"@ && list[18] == "system32"@ && list[19] == "syswow64"@ && list[20]
        == "$recycle.bin"@ && list[21] == "recycle.bin"@ && list[22] == "trash"@ && list[23]
        == ".trash"@ && list[24] == "tmp"@ && list[25] == "temp"@ && list[26] == "shadercache"@
        && list[27] == "shader cache"@ && list[28] == "steamapps/downloading"@ && list[29]
        == "compatdata"@);
    if list.contains(l) {
        let k = choose|k: int| 0 <= k < list.len() && list[k] == l;
        assert(0 <= k < 30);
    }
    reveal_strlit(".");
    if text::holds_at(l, "."@, 0) {
        assert(l.subrange(0, 1)[0] == l[0]);
    }
    if l.len() > 0 && l[0] == '.' {
        assert(l.subrange(0, 1) =~= "."@);
    }
}

/// The programs that tell the edition by their exact names: that of the VR
/// edition counts most, then those of the Special Edition, then those of the
/// first one.
pub proof fn lemma_programs_tell_the_edition(disk: DiskView, dir: Seq<char>)
    ensures
        ({
            let vr = disk.has_file(dir, "SkyrimVR.exe"@) || disk.has_file(
                dir,
                "sksevr_loader.exe"@,
            );
            let se = disk.has_file(dir, "SkyrimSE.exe"@) || disk.has_file(
                dir,
                "SkyrimSELauncher.exe"@,
            ) || disk.has_file(dir, "skse64_loader.exe"@) || disk.has_file(dir, "skse64_loader"@);
            let le = disk.has_file(dir, "TESV.exe"@) || disk.has_file(dir, "SkyrimLauncher.exe"@)
                || disk.has_file(dir, "skse_loader.exe"@) || disk.has_file(dir, "skse_loader"@);
            &&& vr ==> edition_in(disk, dir) == Some(GameEdition::VR)
            &&& !vr && se ==> edition_in(disk, dir) == Some(GameEdition::SE)
            &&& !vr && !se && le ==> edition_in(disk, dir) == Some(GameEdition::LE)
        }),
{
}

/// Where no program has its exact name, the first file with one in other letters
/// tells the edition.
pub proof fn lemma_renamed_programs_tell_the_edition(items: Seq<DirItemView>, i: int, k: int)
    requires
        0 <= i <= k < items.len(),
        items[k].real_file,
        forall|j: int|
            i <= j < k ==> !(#[trigger] items[j]).real_file || edition_of_name(
                text::lowercase(items[j].name),
            ) is None,
    ensures
        ({
            let l = text::lowercase(items[k].name);
            &&& l == "skyrimvr.exe"@ || l == "sksevr_loader.exe"@ ==> edition_in_items(items, i)
                == Some(GameEdition::VR)
            &&& l == "skyrimse.exe"@ || l == "skyrimselauncher.exe"@ || l == "skse64_loader.exe"@
                || l == "skse64_loader"@ ==> edition_in_items(items, i) == Some(GameEdition::SE)
            &&& l == "tesv.exe"@ || l == "skyrimlauncher.exe"@ || l == "skse_loader.exe"@ || l
                == "skse_loader"@ ==> edition_in_items(items, i) == Some(GameEdition::LE)
        }),
    decreases k - i,
{
    reveal_strlit("skyrimvr.exe");
    reveal_strlit("sksevr_loader.exe");
    reveal_strlit("skyrimse.exe");
    reveal_strlit("skyrimselauncher.exe");
    reveal_strlit("skse64_loader.exe");
    reveal_strlit("skse64_loader");
    reveal_strlit("tesv.exe");
    reveal_strlit("skyrimlauncher.exe");
    reveal_strlit("skse_loader.exe");
    reveal_strlit("skse_loader");
    assert("skyrimvr.exe"@.len() == 12 && "sksevr_loader.exe"@.len() == 17 && "skyrimse.exe"@.len()
        == 12 && "skyrimselauncher.exe"@.len() == 20 && "skse64_loader.exe"@.len() == 17
        && "skse64_loader"@.len() == 13 && "tesv.exe"@.len() == 8 && "skyrimlauncher.exe"@.len()
        == 18 && "skse_loader.exe"@.len() == 15 && "skse_loader"@.len() == 11);
    assert("skyrimvr.exe"@[6] != "skyrimse.exe"@[6]);
    assert("sksevr_loader.exe"@[4] != "skse64_loader.exe"@[4]);
    if i < k {
        lemma_renamed_programs_tell_the_edition(items, i + 1, k);
    }
}

/// The files that only Skyrim ships, whatever the case of letters: its masters,
/// and the archives whose names begin with the game's.
pub proof fn lemma_game_files(lower: Seq<char>, middle: Seq<char>)
    ensures
        is_game_file(lower) <== seq![
            "skyrim.esm"@,
            "update.esm"@,
            "dawnguard.esm"@,
            "hearthfires.esm"@,
            "dragonborn.esm"@,
        ].contains(lower),
        is_game_file("skyrim - "@ + middle + ".bsa"@),
        is_game_file(lower) ==> text::ends_in(lower, ".esm"@) || text::ends_in(lower, ".bsa"@),
{
    let list = seq![
        "skyrim.esm"@,
        "update.esm"@,
        "dawnguard.esm"@,
        "hearthfires.esm"@,
        "dragonborn.esm"@,
    ];
    assert(list[0] == "skyrim.esm"@ && list[1] == "update.esm"@ && list[2] == "dawnguard.esm"@
        && list[3] == "hearthfires.esm"@ && list[4] == "dragonborn.esm"@);
    if list.contains(lower) {
        let k = choose|k: int| 0 <= k < list.len() && list[k] == lower;
        assert(0 <= k < 5);
    }
    let bsa = "skyrim - "@ + middle + ".bsa"@;
    text::lemma_parts_of_a_text("skyrim - "@ + middle, ".bsa"@, Seq::empty(), ' ', ' ');
    text::lemma_parts_of_a_text(Seq::empty(), "skyrim - "@, middle + ".bsa"@, ' ', ' ');
    assert("skyrim - "@ + (middle + ".bsa"@) =~= bsa);
    reveal_strlit("skyrim.esm");
    reveal_strlit("update.esm");
    reveal_strlit("dawnguard.esm");
    reveal_strlit("hearthfires.esm");
    reveal_strlit("dragonborn.esm");
    reveal_strlit(".esm");
    if is_game_file(lower) && !text::ends_in(lower, ".bsa"@) {
        assert(lower.subrange(lower.len() - 4, lower.len() as int) =~= ".esm"@);
    }
}

/// A folder with one of these files, under its exact name or in other letters,
/// is Skyrim's `Data` folder; one that does not exist never is.
pub proof fn lemma_what_shows_the_data_folder(disk: DiskView, dir: Seq<char>, k: int)
    ensures
        is_game_data(disk, dir) ==> disk.is_dir(dir),
        disk.is_dir(dir) && 0 <= k < disk.items(dir).len() && is_game_file(
            text::lowercase(disk.items(dir)[k].name),
        ) ==> is_game_data(disk, dir),
        disk.is_dir(dir) && (disk.has_file(dir, "Skyrim.esm"@) || disk.has_file(
            dir,
            "Update.esm"@,
        )) ==> is_game_data(disk, dir),
{
}

/// A folder is an install exactly where it exists and is, has a program of, or
/// has the `Data` folder of the game.
pub proof fn lemma_what_is_an_install(disk: DiskView, dir: Seq<char>)
    ensures
        !disk.is_dir(dir) ==> identified(disk, dir) is None,
        disk.is_dir(dir) && lower_name(dir) == "data"@ ==> (identified(disk, dir) is Some
            <==> is_game_data(disk, dir)),
        disk.is_dir(dir) && lower_name(dir) != "data"@ ==> {
            &&& edition_in(disk, dir) is Some ==> identified(disk, dir) == edition_in(disk, dir)
            &&& edition_in(disk, dir) is None ==> (identified(disk, dir) == Some(GameEdition::SE)
                <==> is_game_data(disk, paths::joined(dir, "Data"@)) || holds_game_data(disk, dir))
            &&& edition_in(disk, dir) is None && identified(disk, dir) is Some ==> identified(
                disk,
                dir,
            ) == Some(GameEdition::SE)
        },
{
}

/// The `Data` folder of an install is the one of that name, or where there is
/// none the first with that name in other letters; it is always directly in the
/// install.
pub proof fn lemma_data_folder_of_an_install(disk: DiskView, dir: Seq<char>, k: int)
    ensures
        disk.is_dir(paths::joined(dir, "Data"@)) ==> data_dir_of(disk, dir) == paths::joined(
            dir,
            "Data"@,
        ),
        !disk.is_dir(paths::joined(dir, "Data"@)) && 0 <= k < disk.items(dir).len()
            && disk.items(dir)[k].real_dir && text::ascii_fold(disk.items(dir)[k].name) == "data"@
            && (forall|j: int|
            0 <= j < k ==> !((#[trigger] disk.items(dir)[j]).real_dir && text::ascii_fold(
                disk.items(dir)[j].name,
            ) == "data"@)) ==> data_dir_of(disk, dir) == paths::joined(
            dir,
            disk.items(dir)[k].name,
        ),
{
    let items = disk.items(dir);
    if 0 <= k < items.len() && is_data_item(items[k]) && (forall|j: int|
        0 <= j < k ==> !((#[trigger] items[j]).real_dir && text::ascii_fold(items[j].name)
            == "data"@)) {
        lemma_data_item(items, 0, k);
    }
}

proof fn lemma_data_item(items: Seq<DirItemView>, i: int, k: int)
    requires
        0 <= i <= k < items.len(),
        is_data_item(items[k]),
        forall|j: int|
            i <= j < k ==> !((#[trigger] items[j]).real_dir && text::ascii_fold(items[j].name)
                == "data"@),
    ensures
        data_item_at(items, i) == k,
    decreases k - i,
{
    if i < k {
        assert(!is_data_item(items[i]));
        lemma_data_item(items, i + 1, k);
    }
}

/// An install is known by its folder with all links resolved, and its
/// `plugins.txt` is in the game's own folder of the edition: below the folder
/// that was given, or else that of the prefix, or else the documents.
pub proof fn lemma_install_record(
    disk: DiskView,
    path: Seq<char>,
    edition: GameEdition,
    prefix: Option<WinePrefixView>,
    my_games: Option<Seq<char>>,
    documents: Option<Seq<char>>,
)
    ensures
        ({
            let g = game_in(disk, path, edition, prefix, my_games, documents);
            let dir = install_dir_for(disk, path);
            let below = |base: Seq<char>|
                paths::joined(paths::joined(base, my_games_name(edition)), "plugins.txt"@);
            &&& g.id == id_of(disk.canonical(dir))
            &&& g.edition == edition
            &&& g.install_dir == dir
            &&& g.data_dir == data_dir_of(disk, dir)
            &&& g.wine_prefix == prefix
            &&& my_games is Some ==> g.plugins_txt == below(my_games->0)
            &&& my_games is None && prefix is Some ==> g.plugins_txt == below(
                (prefix->0).my_games_dir(),
            )
            &&& my_games is None && prefix is None && documents is Some ==> g.plugins_txt == below(
                paths::joined(documents->0, "My Games"@),
            )
        }),
{
}

/// Of several installs in one folder the first is kept and the others are not,
/// whatever the case of letters in their paths; the order stays.
pub proof fn lemma_first_of_each_folder_is_kept(disk: DiskView, list: Seq<DetectedGameView>)
    ensures
        deduped(disk, list) == lists::places(list.len()).filter(
            |i: int|
                forall|j: int|
                    0 <= j < i ==> text::lowercase(
                        disk.canonical((#[trigger] list[j]).game.install_dir),
                    ) != text::lowercase(disk.canonical(list[i].game.install_dir)),
        ).map_values(|i: int| list[i]),
    decreases list.len(),
{
    let pred = |i: int|
        forall|j: int|
            0 <= j < i ==> text::lowercase(disk.canonical((#[trigger] list[j]).game.install_dir))
                != text::lowercase(disk.canonical(list[i].game.install_dir));
    let f = |i: int| list[i];
    if list.len() == 0 {
        lists::lemma_filter_map_none(lists::places(0), pred, f);
    } else {
        let t = list.drop_last();
        let n = t.len();
        lemma_first_of_each_folder_is_kept(disk, t);
        let q = |i: int|
            forall|j: int|
                0 <= j < i ==> text::lowercase(disk.canonical((#[trigger] t[j]).game.install_dir))
                    != text::lowercase(disk.canonical(t[i].game.install_dir));
        let g = |i: int| t[i];
        let p = lists::places(n);
        assert forall|k: int| 0 <= k < p.len() implies pred(#[trigger] p[k]) == q(p[k]) by {
            assert(t[k] == list[k]);
            assert forall|j: int| 0 <= j < k implies #[trigger] t[j] == list[j] by {}
            if pred(k) {
                assert forall|j: int| 0 <= j < k implies text::lowercase(
                    disk.canonical((#[trigger] t[j]).game.install_dir),
                ) != text::lowercase(disk.canonical(t[k].game.install_dir)) by {
                    assert(list[j] == t[j]);
                }
            }
            if q(k) {
                assert forall|j: int| 0 <= j < k implies text::lowercase(
                    disk.canonical((#[trigger] list[j]).game.install_dir),
                ) != text::lowercase(disk.canonical(list[k].game.install_dir)) by {
                    assert(list[j] == t[j]);
                }
            }
        }
        lists::lemma_filter_alike(p, pred, q);
        assert(p.filter(q).map_values(g) =~= p.filter(q).map_values(f)) by {
            assert forall|k: int| 0 <= k < p.filter(q).len() implies g(#[trigger] p.filter(q)[k])
                == f(p.filter(q)[k]) by {
                p.lemma_filter_contains_rev(q, p.filter(q)[k]);
                let m = choose|m: int| 0 <= m < p.len() && p[m] == p.filter(q)[k];
                assert(t[m] == list[m]);
            }
        }
        lists::lemma_places_filter_map(n, pred, f);
        let before = deduped(disk, t);
        let last = list.last();
        assert(last == list[n as int]);
        assert(pred(n as int) == !knows_install(disk, before, last.game.install_dir)) by {
            if knows_install(disk, before, last.game.install_dir) {
                let k = choose|k: int|
                    0 <= k < before.len() && place_key(disk, (#[trigger] before[k]).game.install_dir)
                        == place_key(disk, last.game.install_dir);
                let m = p.filter(q)[k];
                p.lemma_filter_contains_rev(q, m);
                let at = choose|at: int| 0 <= at < p.len() && p[at] == m;
                assert(before[k] == t[m]);
                assert(list[m] == t[m]);
            }
            if !pred(n as int) {
                let j = choose|j: int|
                    0 <= j < n && text::lowercase(
                        disk.canonical((#[trigger] list[j]).game.install_dir),
                    ) == text::lowercase(disk.canonical(list[n as int].game.install_dir));
                assert(t[j] == list[j]);
                lemma_deduped_covers(disk, t, j);
                let k = choose|k: int|
                    0 <= k < before.len() && place_key(disk, (#[trigger] before[k]).game.install_dir)
                        == place_key(disk, t[j].game.install_dir);
                assert(place_key(disk, before[k].game.install_dir) == place_key(
                    disk,
                    last.game.install_dir,
                ));
            }
        }
        assert(list.len() == n + 1);
    }
}

/// Every folder that is an install becomes one, with its own edition, and no
/// other folder does: in a prefix, outside of them, and in a deep scan.
pub proof fn lemma_every_install_is_listed(
    disk: DiskView,
    p: WinePrefixView,
    dirs: Seq<Seq<char>>,
    documents: Option<Seq<char>>,
)
    ensures
        prefix_games(disk, p, dirs) == dirs.filter(
            |d: Seq<char>| identified(disk, d) is Some,
        ).map_values(
            |d: Seq<char>|
                game_in(disk, d, identified(disk, d)->0, Some(p), Some(p.my_games_dir()), None),
        ),
        loose_games(disk, dirs, documents) == dirs.filter(
            |d: Seq<char>| identified(disk, d) is Some,
        ).map_values(
            |d: Seq<char>|
                DetectedGameView {
                    game: game_in(disk, d, identified(disk, d)->0, None, None, documents),
                    source_label: "Found at "@ + d,
                    data_dir_modified_secs: disk.modified(
                        game_in(disk, d, identified(disk, d)->0, None, None, documents).data_dir,
                    ),
                },
        ),
    decreases dirs.len(),
{
    let pred = |d: Seq<char>| identified(disk, d) is Some;
    let f = |d: Seq<char>|
        game_in(disk, d, identified(disk, d)->0, Some(p), Some(p.my_games_dir()), None);
    let g = |d: Seq<char>|
        DetectedGameView {
            game: game_in(disk, d, identified(disk, d)->0, None, None, documents),
            source_label: "Found at "@ + d,
            data_dir_modified_secs: disk.modified(
                game_in(disk, d, identified(disk, d)->0, None, None, documents).data_dir,
            ),
        };
    if dirs.len() == 0 {
        lists::lemma_filter_map_none(dirs, pred, f);
        lists::lemma_filter_map_none(dirs, pred, g);
    } else {
        let t = dirs.drop_last();
        lemma_every_install_is_listed(disk, p, t, documents);
        lists::lemma_filter_map_push(t, dirs.last(), pred, f);
        lists::lemma_filter_map_push(t, dirs.last(), pred, g);
        assert(t.push(dirs.last()) =~= dirs);
    }
}

/// Every prefix is searched; what one gives does not depend on the others.
#[verifier::spinoff_prover]
pub proof fn lemma_every_prefix_is_searched(
    disk: DiskView,
    prefixes: Seq<WinePrefixView>,
    suffix: Seq<char>,
)
    ensures
        found_in_prefixes(disk, prefixes, suffix) == prefixes.map_values(
            |p: WinePrefixView|
                labelled(disk, games_in_prefix(disk, p), prefix::label_of(p.source) + suffix),
        ).flatten(),
    decreases prefixes.len(),
{
    let f = |p: WinePrefixView|
        labelled(disk, games_in_prefix(disk, p), prefix::label_of(p.source) + suffix);
    lists::lemma_map_flatten_last(prefixes, f);
    if prefixes.len() > 0 {
        lemma_every_prefix_is_searched(disk, prefixes.drop_last(), suffix);
    }
}

/// Every game gets the label, and the time of its own `Data` folder.
#[verifier::spinoff_prover]
pub proof fn lemma_every_game_is_labelled(
    disk: DiskView,
    games: Seq<GameInstallView>,
    label: Seq<char>,
)
    ensures
        labelled(disk, games, label) == games.map_values(
            |g: GameInstallView|
                DetectedGameView {
                    game: g,
                    source_label: label,
                    data_dir_modified_secs: disk.modified(g.data_dir),
                },
        ),
{
    let f = |g: GameInstallView|
        DetectedGameView {
            game: g,
            source_label: label,
            data_dir_modified_secs: disk.modified(g.data_dir),
        };
    assert(labelled(disk, games, label) =~= games.map_values(f));
}

/// Every root is searched; what one gives does not depend on the others.
pub proof fn lemma_every_root_is_searched(
    disk: DiskView,
    roots: Seq<Seq<char>>,
    depth: nat,
    documents: Option<Seq<char>>,
)
    ensures
        found_under_all(disk, roots, depth, documents) == roots.map_values(
            |r: Seq<char>| loose_games(disk, installs_under(disk, r, depth), documents),
        ).flatten(),
    decreases roots.len(),
{
    let h = |r: Seq<char>| loose_games(disk, installs_under(disk, r, depth), documents);
    lists::lemma_map_flatten_last(roots, h);
    if roots.len() > 0 {
        lemma_every_root_is_searched(disk, roots.drop_last(), depth, documents);
    }
}

/// So is every root of a deep scan.
pub proof fn lemma_every_root_is_scanned(
    disk: DiskView,
    prefixes: Seq<WinePrefixView>,
    roots: Seq<Seq<char>>,
    depth: nat,
    documents: Option<Seq<char>>,
)
    ensures
        deep_found(disk, prefixes, roots, depth, documents) == roots.map_values(
            |r: Seq<char>| deep_games(disk, prefixes, installs_under(disk, r, depth), documents),
        ).flatten(),
    decreases roots.len(),
{
    let d = |r: Seq<char>| deep_games(disk, prefixes, installs_under(disk, r, depth), documents);
    lists::lemma_map_flatten_last(roots, d);
    if roots.len() > 0 {
        lemma_every_root_is_scanned(disk, prefixes, roots.drop_last(), depth, documents);
    }
}

/// Of the places to search those are taken that are there.
pub proof fn lemma_places_that_are_there(disk: DiskView, roots: Seq<Seq<char>>)
    ensures
        existing(disk, roots) == roots.filter(|r: Seq<char>| disk.is_dir(r)),
    decreases roots.len(),
{
    reveal(Seq::filter);
    if roots.len() > 0 {
        lemma_places_that_are_there(disk, roots.drop_last());
    }
    assert(existing(disk, roots) =~= roots.filter(|r: Seq<char>| disk.is_dir(r)));
}

/// In a deep scan every folder that is an install becomes one, with the prefix
/// that contains it, and the label tells of that.
pub proof fn lemma_deep_scan_lists_every_install(
    disk: DiskView,
    prefixes: Seq<WinePrefixView>,
    dirs: Seq<Seq<char>>,
    documents: Option<Seq<char>>,
)
    ensures
        deep_games(disk, prefixes, dirs, documents) == dirs.filter(
            |d: Seq<char>| identified(disk, d) is Some,
        ).map_values(
            |d: Seq<char>|
                match prefix::enclosing(prefixes, d) {
                    Some(q) => detected(
                        disk,
                        game_in(
                            disk,
                            d,
                            identified(disk, d)->0,
                            Some(q),
                            Some(q.my_games_dir()),
                            documents,
                        ),
                        prefix::label_of(q.source) + " — "@ + d,
                    ),
                    None => detected(
                        disk,
                        game_in(disk, d, identified(disk, d)->0, None, None, documents),
                        "Deep scan — "@ + d,
                    ),
                },
        ),
    decreases dirs.len(),
{
    let pred = |d: Seq<char>| identified(disk, d) is Some;
    let f = |d: Seq<char>|
        match prefix::enclosing(prefixes, d) {
            Some(q) => detected(
                disk,
                game_in(
                    disk,
                    d,
                    identified(disk, d)->0,
                    Some(q),
                    Some(q.my_games_dir()),
                    documents,
                ),
                prefix::label_of(q.source) + " — "@ + d,
            ),
            None => detected(
                disk,
                game_in(disk, d, identified(disk, d)->0, None, None, documents),
                "Deep scan — "@ + d,
            ),
        };
    if dirs.len() == 0 {
        lists::lemma_filter_map_none(dirs, pred, f);
    } else {
        let t = dirs.drop_last();
        lemma_deep_scan_lists_every_install(disk, prefixes, t, documents);
        lists::lemma_filter_map_push(t, dirs.last(), pred, f);
        assert(t.push(dirs.last()) =~= dirs);
    }
}

/// Whatever stands in one of the places of a prefix is among its installs: the
/// search of each root keeps what the others found.
pub proof fn lemma_every_root_of_a_prefix_counts(
    disk: DiskView,
    p: WinePrefixView,
    roots: Seq<Seq<char>>,
    r: int,
    install: Seq<char>,
)
    requires
        0 <= r < roots.len(),
        disk.is_dir(roots[r]),
        knows_place(
            disk,
            installs_under(
                disk,
                roots[r],
                if paths::same_path(roots[r], p.drive_c()) {
                    10
                } else {
                    6
                },
            ),
            install,
        ) || {
            &&& install == paths::joined(roots[r], "Skyrim Special Edition"@) || install
                == paths::joined(roots[r], "Skyrim"@) || install == paths::joined(
                roots[r],
                "SkyrimVR"@,
            )
            &&& identified(disk, install) is Some
        },
    ensures
        knows_place(disk, after_roots(disk, p, roots), install),
    decreases roots.len(),
{
    let t = roots.drop_last();
    let before = after_roots(disk, p, t);
    let root = roots.last();
    let a = after_named(disk, root, "Skyrim Special Edition"@, before);
    let b = after_named(disk, root, "Skyrim"@, a);
    let c = after_named(disk, root, "SkyrimVR"@, b);
    let more = installs_under(disk, root, depth_in(p, root));
    lemma_with_place_keeps(disk, before, paths::joined(root, "Skyrim Special Edition"@), install);
    lemma_with_place_keeps(disk, a, paths::joined(root, "Skyrim"@), install);
    lemma_with_place_keeps(disk, b, paths::joined(root, "SkyrimVR"@), install);
    if r < t.len() {
        assert(t[r] == roots[r]);
        lemma_every_root_of_a_prefix_counts(disk, p, t, r, install);
        lemma_with_places_keep(disk, c, more, install);
    } else {
        lemma_with_places_keep(disk, c, more, install);
    }
}

proof fn lemma_with_places_keep(
    disk: DiskView,
    hits: Seq<Seq<char>>,
    more: Seq<Seq<char>>,
    path: Seq<char>,
)
    ensures
        knows_place(disk, hits, path) ==> knows_place(disk, with_places(disk, hits, more), path),
        knows_place(disk, more, path) ==> knows_place(disk, with_places(disk, hits, more), path),
    decreases more.len(),
{
    if more.len() > 0 {
        let t = more.drop_last();
        lemma_with_places_keep(disk, hits, t, path);
        let before = with_places(disk, hits, t);
        lemma_with_place_keeps(disk, before, more.last(), path);
        if knows_place(disk, more, path) {
            let k = choose|k: int|
                0 <= k < more.len() && place_key(disk, #[trigger] more[k]) == place_key(disk, path);
            if k < t.len() {
                assert(t[k] == more[k]);
            } else {
                let after = with_places(disk, hits, more);
                let m = choose|m: int|
                    0 <= m < after.len() && place_key(disk, #[trigger] after[m]) == place_key(
                        disk,
                        more.last(),
                    );
                assert(place_key(disk, after[m]) == place_key(disk, path));
            }
        }
    }
}

// ---------------------------------------------------------------------------
// Ids
// ---------------------------------------------------------------------------

spec fn sixteen_to(k: nat) -> nat
    decreases k,
{
    if k == 0 {
        1
    } else {
        16 * sixteen_to((k - 1) as nat)
    }
}

proof fn lemma_hex_tells_apart(a: nat, b: nat, k: nat)
    requires
        a < sixteen_to(k),
        b < sixteen_to(k),
        hex(a, k) == hex(b, k),
    ensures
        a == b,
    decreases k,
{
    if k > 0 {
        let m = (k - 1) as nat;
        let x = hex(a / 16, m).push(hex_digit(a % 16));
        let y = hex(b / 16, m).push(hex_digit(b % 16));
        assert(x == y);
        assert(x.last() == hex_digit(a % 16));
        assert(y.last() == hex_digit(b % 16));
        assert(x.drop_last() =~= hex(a / 16, m));
        assert(y.drop_last() =~= hex(b / 16, m));
        assert(a % 16 == b % 16);
        lemma_hex_tells_apart(a / 16, b / 16, m);
    }
}

/// Installs whose paths have different hashes have different ids.
pub proof fn lemma_different_hashes_different_ids(a: Seq<char>, b: Seq<char>)
    ensures
        id_of(a) == id_of(b) <==> path_hash(a) == path_hash(b),
{
    if id_of(a) == id_of(b) {
        reveal_with_fuel(sixteen_to, 17);
        assert(sixteen_to(16) == 0x1_0000_0000_0000_0000);
        lemma_hex_tells_apart(path_hash(a) as nat, path_hash(b) as nat, 16);
    }
}

// ---------------------------------------------------------------------------
// Where installs are looked for
// ---------------------------------------------------------------------------

/// The path of an install's `Data` folder finds the install as that of the
/// install itself does.
pub proof fn lemma_found_by_its_data_folder(
    disk: DiskView,
    dir: Seq<char>,
    name: Seq<char>,
    prefixes: Seq<WinePrefixView>,
    my_games: Option<Seq<char>>,
    documents: Option<Seq<char>>,
)
    requires
        dir.len() > 0,
        dir == seq!['/'] || dir.last() != '/',
        paths::settled(dir) == dir,
        is_not_data(dir),
        text::ascii_fold(name) == "data"@,
        text::lacks(name, '/'),
        is_game_data(disk, paths::joined(dir, name)),
    ensures
        found_at(disk, paths::joined(dir, name), prefixes, my_games, documents) == found_at(
            disk,
            dir,
            prefixes,
            my_games,
            documents,
        ),
{
    reveal_strlit("data");
    assert(text::ascii_fold(name).len() == 4);
    assert(name.len() == 4);
    if name == seq!['.'] {
        assert(name.len() == 1);
    }
    if name == seq!['.', '.'] {
        assert(name.len() == 2);
    }
    paths::lemma_parent_of_joined(dir, name);
    paths::lemma_name_of_joined(dir, name);
    assert(install_dir_for(disk, paths::joined(dir, name)) == dir);
    assert(install_dir_for(disk, dir) == dir);
}

/// An install is found exactly where the folder is one; it has the edition that
/// shows there, and the deepest of the prefixes that contain it.
pub proof fn lemma_what_is_found_at_a_path(
    disk: DiskView,
    path: Seq<char>,
    prefixes: Seq<WinePrefixView>,
    my_games: Option<Seq<char>>,
    documents: Option<Seq<char>>,
)
    requires
        is_not_data(path),
    ensures
        found_at(disk, path, prefixes, my_games, documents) is Some <==> identified(
            disk,
            path,
        ) is Some,
        found_at(disk, path, prefixes, my_games, documents) matches Some(g) ==> {
            &&& identified(disk, path) == Some(g.edition)
            &&& g.install_dir == path
            &&& g.wine_prefix == prefix::enclosing(prefixes, path)
        },
{
}

/// A game's own files are looked for in the prefix that contains it, else under
/// the documents, else in its folder.
pub proof fn lemma_where_a_game_keeps_its_files(
    dir: Seq<char>,
    p: WinePrefixView,
    documents: Seq<char>,
    maybe: Option<Seq<char>>,
)
    ensures
        best_my_games(dir, Some(p), maybe) == paths::joined(
            paths::joined(p.windows_user_dir, "Documents"@),
            "My Games"@,
        ),
        best_my_games(dir, None, Some(documents)) == paths::joined(documents, "My Games"@),
        best_my_games(dir, None, None) == dir,
{
}

/// For a prefix that Steam made the library that it belongs to is searched.
pub proof fn lemma_library_of_a_steam_prefix(library: Seq<char>, app_id: Seq<char>)
    requires
        library.len() > 0,
        library.last() != '/',
        paths::settled(library) == library,
        app_id.len() > 0,
        text::lacks(app_id, '/'),
        app_id != seq!['.'],
    ensures
        folder_above(
            paths::joined(paths::joined(paths::joined(library, "compatdata"@), app_id), "pfx"@),
        ) == Some(library),
{
    reveal_strlit("compatdata");
    reveal_strlit("pfx");
    let data = paths::joined(library, "compatdata"@);
    let one = paths::joined(data, app_id);
    if "compatdata"@ == seq!['.'] || "compatdata"@ == seq!['.', '.'] {
        assert("compatdata"@.len() == 10);
    }
    if "pfx"@ == seq!['.'] {
        assert("pfx"@.len() == 3);
    }
    paths::lemma_parent_of_joined(library, "compatdata"@);
    paths::lemma_name_of_joined(library, "compatdata"@);
    paths::lemma_settled_joined(library, "compatdata"@);
    assert(data.last() == 'a');
    paths::lemma_parent_of_joined(data, app_id);
    paths::lemma_settled_joined(data, app_id);
    assert(one.last() == app_id[app_id.len() - 1]);
    paths::lemma_parent_of_joined(one, "pfx"@);
}

/// In a prefix the whole drive is searched and each of the usual places on it,
/// and beside it the library that it belongs to.
pub proof fn lemma_places_of_a_prefix(p: WinePrefixView)
    ensures
        ({
            let c = paths::joined(p.prefix_root, "drive_c"@);
            let all = prefix_roots(p);
            &&& all.contains(c)
            &&& all.contains(
                paths::joined(
                    paths::joined(
                        paths::joined(paths::joined(c, "Program Files (x86)"@), "Steam"@),
                        "steamapps"@,
                    ),
                    "common"@,
                ),
            )
            &&& all.contains(
                paths::joined(
                    paths::joined(
                        paths::joined(paths::joined(c, "Program Files"@), "Steam"@),
                        "steamapps"@,
                    ),
                    "common"@,
                ),
            )
            &&& all.contains(paths::joined(c, "Games"@))
            &&& all.contains(paths::joined(c, "Program Files/Games"@))
            &&& all.contains(paths::joined(c, "users/Public/Games"@))
            &&& all.contains(paths::joined(c, "GOG Games"@))
            &&& folder_above(p.prefix_root) matches Some(l) ==> all.contains(l) && all.contains(
                paths::joined(l, "common"@),
            )
        }),
{
    let all = prefix_roots(p);
    let n: int = if folder_above(p.prefix_root) is Some {
        2
    } else {
        0
    };
    assert(all.len() == n + 7);
    assert(all.contains(all[n]));
    assert(all.contains(all[n + 1]));
    assert(all.contains(all[n + 2]));
    assert(all.contains(all[n + 3]));
    assert(all.contains(all[n + 4]));
    assert(all.contains(all[n + 5]));
    assert(all.contains(all[n + 6]));
    if n == 2 {
        assert(all.contains(all[0]));
        assert(all.contains(all[1]));
    }
}

/// Whatever is found in one of the usual folders at home, in the home folder,
/// in a further place or on a mounted drive is among all that is found.
pub proof fn lemma_every_location_counts(
    disk: DiskView,
    home: Seq<char>,
    extra: Seq<Seq<char>>,
    documents: Option<Seq<char>>,
    g: DetectedGameView,
)
    ensures
        found_under_all(disk, home_folders(home), 5, documents).contains(g)
            ==> found_in_locations(disk, Some(home), extra, documents).contains(g),
        found_under(disk, home, 2, documents).contains(g) ==> found_in_locations(
            disk,
            Some(home),
            extra,
            documents,
        ).contains(g),
        found_under_all(disk, extra, 8, documents).contains(g) ==> found_in_locations(
            disk,
            Some(home),
            extra,
            documents,
        ).contains(g) && found_in_locations(disk, None, extra, documents).contains(g),
        found_under_all(disk, seq!["/mnt"@, "/media"@, "/run/media"@], 6, documents).contains(g)
            ==> found_in_locations(disk, Some(home), extra, documents).contains(g)
            && found_in_locations(disk, None, extra, documents).contains(g),
{
    let a = found_under_all(disk, home_folders(home), 5, documents);
    let b = found_under(disk, home, 2, documents);
    let c = found_under_all(disk, extra, 8, documents);
    let d = found_under_all(disk, mount_roots(), 6, documents);
    assert(mount_roots() =~= seq!["/mnt"@, "/media"@, "/run/media"@]);
    let with = found_in_locations(disk, Some(home), extra, documents);
    let without = found_in_locations(disk, None, extra, documents);
    assert(with =~= a + b + c + d);
    assert(without =~= c + d);
    if a.contains(g) {
        let k = choose|k: int| 0 <= k < a.len() && a[k] == g;
        assert(with[k] == g);
    }
    if b.contains(g) {
        let k = choose|k: int| 0 <= k < b.len() && b[k] == g;
        assert(with[a.len() + k] == g);
    }
    if c.contains(g) {
        let k = choose|k: int| 0 <= k < c.len() && c[k] == g;
        assert(with[a.len() + b.len() + k] == g);
        assert(without[k] == g);
    }
    if d.contains(g) {
        let k = choose|k: int| 0 <= k < d.len() && d[k] == g;
        assert(with[a.len() + b.len() + c.len() + k] == g);
        assert(without[c.len() + k] == g);
    }
}

/// A deep scan that is not told where to start begins at home, in those of its
/// usual folders that are there, and in the folders of the system.
pub proof fn lemma_where_a_deep_scan_starts(disk: DiskView, home: Seq<char>, dir: Seq<char>)
    ensures
        deep_roots(disk, Some(home))[0] == home,
        deep_home_folders(home).contains(dir) && disk.is_dir(dir) ==> deep_roots(
            disk,
            Some(home),
        ).contains(dir),
        seq![
            "/mnt"@, "/media"@, "/run/media"@, "/opt"@, "/usr/local/games"@, "/var/games"@,
        ].contains(dir) && disk.is_dir(dir) ==> deep_roots(disk, Some(home)).contains(dir)
            && deep_roots(disk, None).contains(dir),
{
    let a = deep_home_folders(home);
    let b = deep_system_folders();
    let pred = |r: Seq<char>| disk.is_dir(r);
    lemma_places_that_are_there(disk, a);
    lemma_places_that_are_there(disk, b);
    let x = existing(disk, a);
    let y = existing(disk, b);
    let with = deep_roots(disk, Some(home));
    let without = deep_roots(disk, None);
    assert(with =~= seq![home] + x + y);
    assert(without =~= y);
    assert(b =~= seq![
        "/mnt"@, "/media"@, "/run/media"@, "/opt"@, "/usr/local/games"@, "/var/games"@,
    ]);
    if a.contains(dir) && disk.is_dir(dir) {
        let k = choose|k: int| 0 <= k < a.len() && a[k] == dir;
        a.lemma_filter_contains(pred, k);
        let j = choose|j: int| 0 <= j < x.len() && x[j] == dir;
        assert(with[1 + j] == dir);
    }
    if b.contains(dir) && disk.is_dir(dir) {
        let k = choose|k: int| 0 <= k < b.len() && b[k] == dir;
        b.lemma_filter_contains(pred, k);
        let j = choose|j: int| 0 <= j < y.len() && y[j] == dir;
        assert(with[1 + x.len() + j] == dir);
        assert(without[j] == dir);
    }
}

/// What each edition is called on disk and in the store. The Special and the
/// Anniversary Edition are the same game there.
pub proof fn lemma_names_of_editions()
    ensures
        my_games_name(GameEdition::LE) == "Skyrim"@,
        my_games_name(GameEdition::SE) == "Skyrim Special Edition"@,
        my_games_name(GameEdition::AE) == my_games_name(GameEdition::SE),
        my_games_name(GameEdition::VR) == "Skyrim VR"@,
        exe_and_appid_of(GameEdition::LE) == ("TESV.exe"@, "72850"@),
        exe_and_appid_of(GameEdition::SE) == ("SkyrimSE.exe"@, "489830"@),
        exe_and_appid_of(GameEdition::AE) == exe_and_appid_of(GameEdition::SE),
        exe_and_appid_of(GameEdition::VR) == ("SkyrimVR.exe"@, "611670"@),
{
}

/// A folder is Skyrim's `Data` folder exactly where it has one of these files,
/// or one that only Skyrim ships in other letters.
pub proof fn lemma_files_of_the_data_folder(disk: DiskView, dir: Seq<char>)
    requires
        disk.is_dir(dir),
    ensures
        is_game_data(disk, dir) <==> {
            ||| exists|k: int|
                0 <= k < disk.items(dir).len() && is_game_file(
                    text::lowercase((#[trigger] disk.items(dir)[k]).name),
                )
            ||| disk.has_file(dir, "Skyrim.esm"@) || disk.has_file(dir, "Update.esm"@)
            ||| disk.has_file(dir, "Skyrim - Interface.bsa"@)
            ||| disk.has_file(dir, "Skyrim - Meshes0.bsa"@) || disk.has_file(
                dir,
                "Skyrim - Meshes.bsa"@,
            )
            ||| disk.has_file(dir, "Skyrim - Textures0.bsa"@) || disk.has_file(
                dir,
                "Skyrim - Textures.bsa"@,
            )
        },
{
}

} // verus!
