//! Wine and Proton prefixes, and inside each the `drive_c/users/<name>` folder
//! that is in use: Proton always uses `steamuser`, while other launchers mostly
//! use the real user name.

use crate::disk::{DirItem, DirItemView, Disk, DiskView};
use crate::lists;
use crate::paths;
use crate::text;
use vstd::prelude::*;

verus! {

/// A prefix.
#[derive(Debug, Clone)]
pub struct WinePrefix {
    /// The folder that contains `drive_c`.
    pub prefix_root: String,
    /// The user folder inside `drive_c/users` that is in use.
    pub windows_user_dir: String,
    /// Where the prefix comes from, for display.
    pub source: PrefixSource,
}

/// Where a prefix comes from.
#[derive(Debug, Clone)]
pub enum PrefixSource {
    /// A Steam/Proton prefix, with the game's name as Steam gives it.
    SteamProton { app_id: String, game_name: Option<String> },
    Lutris { name: String },
    Heroic { name: String },
    Bottles { name: String },
    PortProton { name: String },
    CrossOver { name: String },
    /// `~/.wine`, the prefix that Wine itself uses.
    PlainWine,
    Custom { path: String },
}

/// The mathematical content of a [`PrefixSource`].
pub enum PrefixSourceView {
    SteamProton { app_id: Seq<char>, game_name: Option<Seq<char>> },
    Lutris { name: Seq<char> },
    Heroic { name: Seq<char> },
    Bottles { name: Seq<char> },
    PortProton { name: Seq<char> },
    CrossOver { name: Seq<char> },
    PlainWine,
    Custom { path: Seq<char> },
}

/// The mathematical content of a [`WinePrefix`].
pub struct WinePrefixView {
    pub prefix_root: Seq<char>,
    pub windows_user_dir: Seq<char>,
    pub source: PrefixSourceView,
}

impl DeepView for PrefixSource {
    type V = PrefixSourceView;

    open spec fn deep_view(&self) -> PrefixSourceView {
        match self {
            PrefixSource::SteamProton { app_id, game_name } => PrefixSourceView::SteamProton {
                app_id: app_id@,
                game_name: game_name.deep_view(),
            },
            PrefixSource::Lutris { name } => PrefixSourceView::Lutris { name: name@ },
            PrefixSource::Heroic { name } => PrefixSourceView::Heroic { name: name@ },
            PrefixSource::Bottles { name } => PrefixSourceView::Bottles { name: name@ },
            PrefixSource::PortProton { name } => PrefixSourceView::PortProton { name: name@ },
            PrefixSource::CrossOver { name } => PrefixSourceView::CrossOver { name: name@ },
            PrefixSource::PlainWine => PrefixSourceView::PlainWine,
            PrefixSource::Custom { path } => PrefixSourceView::Custom { path: path@ },
        }
    }
}

impl DeepView for WinePrefix {
    type V = WinePrefixView;

    open spec fn deep_view(&self) -> WinePrefixView {
        WinePrefixView {
            prefix_root: self.prefix_root@,
            windows_user_dir: self.windows_user_dir@,
            source: self.source.deep_view(),
        }
    }
}

/// The one-line label of a source.
pub open spec fn label_of(source: PrefixSourceView) -> Seq<char> {
    match source {
        PrefixSourceView::SteamProton { app_id, game_name } => match game_name {
            Some(name) => "Steam/Proton — "@ + name + " (appid "@ + app_id + ")"@,
            None => "Steam/Proton — appid "@ + app_id,
        },
        PrefixSourceView::Lutris { name } => "Lutris — "@ + name,
        PrefixSourceView::Heroic { name } => "Heroic Games Launcher — "@ + name,
        PrefixSourceView::Bottles { name } => "Bottles — "@ + name,
        PrefixSourceView::PortProton { name } => "PortProton — "@ + name,
        PrefixSourceView::CrossOver { name } => "CrossOver — "@ + name,
        PrefixSourceView::PlainWine => "Plain Wine (~/.wine)"@,
        PrefixSourceView::Custom { path } => "Custom prefix — "@ + path,
    }
}

impl PrefixSource {
    /// A one-line label to tell prefixes apart by, such as
    /// `Steam/Proton — Skyrim Special Edition (appid 489830)`.
    pub fn label(&self) -> (r: String)
        ensures
            r@ == label_of(self.deep_view()),
    {
        match self {
            PrefixSource::SteamProton { app_id, game_name } => match game_name {
                Some(name) => {
                    let mut s = text::concat3("Steam/Proton — ", name.as_str(), " (appid ");
                    s.append(app_id.as_str());
                    s.append(")");
                    s
                },
                None => text::concat("Steam/Proton — appid ", app_id.as_str()),
            },
            PrefixSource::Lutris { name } => text::concat("Lutris — ", name.as_str()),
            PrefixSource::Heroic { name } => text::concat("Heroic Games Launcher — ", name.as_str()),
            PrefixSource::Bottles { name } => text::concat("Bottles — ", name.as_str()),
            PrefixSource::PortProton { name } => text::concat("PortProton — ", name.as_str()),
            PrefixSource::CrossOver { name } => text::concat("CrossOver — ", name.as_str()),
            PrefixSource::PlainWine => "Plain Wine (~/.wine)".to_owned(),
            PrefixSource::Custom { path } => text::concat("Custom prefix — ", path.as_str()),
        }
    }

    /// A copy of the source.
    pub fn copy(&self) -> (r: Self)
        ensures
            r.deep_view() == self.deep_view(),
    {
        match self {
            PrefixSource::SteamProton { app_id, game_name } => PrefixSource::SteamProton {
                app_id: app_id.clone(),
                game_name: match game_name {
                    Some(n) => Some(n.clone()),
                    None => None,
                },
            },
            PrefixSource::Lutris { name } => PrefixSource::Lutris { name: name.clone() },
            PrefixSource::Heroic { name } => PrefixSource::Heroic { name: name.clone() },
            PrefixSource::Bottles { name } => PrefixSource::Bottles { name: name.clone() },
            PrefixSource::PortProton { name } => PrefixSource::PortProton { name: name.clone() },
            PrefixSource::CrossOver { name } => PrefixSource::CrossOver { name: name.clone() },
            PrefixSource::PlainWine => PrefixSource::PlainWine,
            PrefixSource::Custom { path } => PrefixSource::Custom { path: path.clone() },
        }
    }
}

impl WinePrefixView {
    pub open spec fn drive_c(self) -> Seq<char> {
        paths::joined(self.prefix_root, "drive_c"@)
    }

    pub open spec fn my_games_dir(self) -> Seq<char> {
        paths::joined(paths::joined(self.windows_user_dir, "Documents"@), "My Games"@)
    }
}

impl WinePrefix {
    /// The path of `drive_c`.
    pub fn drive_c(&self) -> (r: String)
        ensures
            r@ == self.deep_view().drive_c(),
    {
        paths::join(self.prefix_root.as_str(), "drive_c")
    }

    /// Where the game keeps its INI files and saves.
    pub fn my_games_dir(&self) -> (r: String)
        ensures
            r@ == self.deep_view().my_games_dir(),
    {
        paths::join3(self.windows_user_dir.as_str(), "Documents", "My Games")
    }

    /// A copy of the prefix.
    pub fn copy(&self) -> (r: Self)
        ensures
            r.deep_view() == self.deep_view(),
    {
        WinePrefix {
            prefix_root: self.prefix_root.clone(),
            windows_user_dir: self.windows_user_dir.clone(),
            source: self.source.copy(),
        }
    }
}

// ---------------------------------------------------------------------------
// The user folder
// ---------------------------------------------------------------------------

/// Why there is no user folder to be had.
#[derive(Debug, Clone, Copy, PartialEq, Eq, Structural)]
pub enum PrefixError {
    NoUserDir,
}

/// The first entry from `i` on that meets a condition, or the number of
/// entries.
pub open spec fn first_where(
    items: Seq<DirItemView>,
    meets: spec_fn(DirItemView) -> bool,
    i: int,
) -> int
    decreases items.len() - i,
{
    if i >= items.len() || meets(items[i]) {
        i
    } else {
        first_where(items, meets, i + 1)
    }
}

/// Whether one of the entries is Skyrim's.
pub open spec fn has_skyrim_entry(items: Seq<DirItemView>) -> bool {
    exists|k: int|
        0 <= k < items.len() && text::holds_at(
            text::lowercase((#[trigger] items[k]).name),
            "skyrim"@,
            0,
        )
}

/// The condition to be a user folder that Skyrim has been run under.
pub open spec fn has_run_skyrim(disk: DiskView, users: Seq<char>) -> spec_fn(DirItemView) -> bool {
    |u: DirItemView|
        u.is_dir && has_skyrim_entry(
            disk.items(
                paths::joined(
                    paths::joined(paths::joined(users, u.name), "Documents"@),
                    "My Games"@,
                ),
            ),
        )
}

/// The condition to be a user folder of this name.
pub open spec fn is_user(name: Seq<char>) -> spec_fn(DirItemView) -> bool {
    |u: DirItemView| u.is_dir && u.name == name
}

/// The condition to be a user folder that belongs to a person.
pub open spec fn is_personal() -> spec_fn(DirItemView) -> bool {
    |u: DirItemView|
        {
            let lower = text::lowercase(u.name);
            u.is_dir && lower != "public"@ && lower != "default"@ && lower != "all users"@
        }
}

/// The user folder of a prefix that is in use: one that Skyrim has been run
/// under, or else that of Proton, or that of the real user, or the first that
/// belongs to a person.
pub open spec fn user_dir_in(
    disk: DiskView,
    prefix_root: Seq<char>,
    user: Option<Seq<char>>,
) -> Option<Seq<char>> {
    let users = paths::joined(paths::joined(prefix_root, "drive_c"@), "users"@);
    let items = disk.items(users);
    let n = items.len() as int;
    let used = first_where(items, has_run_skyrim(disk, users), 0);
    let proton = first_where(items, is_user("steamuser"@), 0);
    let own = match user {
        Some(name) => first_where(items, is_user(name), 0),
        None => n,
    };
    let other = first_where(items, is_personal(), 0);
    let pick = if used < n {
        used
    } else if proton < n {
        proton
    } else if own < n {
        own
    } else {
        other
    };
    if pick < n {
        Some(paths::joined(users, items[pick].name))
    } else {
        None
    }
}

fn find_used(disk: &Disk, users: &str, items: &Vec<DirItem>) -> (r: usize)
    ensures
        r <= items@.len(),
        r == first_where(items.deep_view(), has_run_skyrim(disk@, users@), 0),
{
    let ghost iv = items.deep_view();
    let mut i: usize = 0;
    while i < items.len()
        invariant
            i <= items@.len(),
            iv == items.deep_view(),
            first_where(iv, has_run_skyrim(disk@, users@), 0) == first_where(
                iv,
                has_run_skyrim(disk@, users@),
                i as int,
            ),
        decreases items.len() - i,
    {
        if items[i].is_dir {
            let my_games = paths::join3(
                paths::join(users, items[i].name.as_str()).as_str(),
                "Documents",
                "My Games",
            );
            if lists_skyrim(disk, my_games.as_str()) {
                return i;
            }
        }
        i += 1;
    }
    i
}

fn lists_skyrim(disk: &Disk, dir: &str) -> (r: bool)
    ensures
        r == has_skyrim_entry(disk@.items(dir@)),
{
    match disk.folder(dir) {
        None => false,
        Some(f) => {
            let ghost iv = f.items.deep_view();
            let mut i: usize = 0;
            while i < f.items.len()
                invariant
                    i <= f.items@.len(),
                    iv == f.items.deep_view(),
                    iv == disk@.items(dir@),
                    forall|k: int|
                        0 <= k < i ==> !text::holds_at(
                            text::lowercase((#[trigger] iv[k]).name),
                            "skyrim"@,
                            0,
                        ),
                decreases f.items.len() - i,
            {
                let lower = text::to_lowercase(f.items[i].name.as_str());
                if text::has_prefix(lower.as_str(), "skyrim") {
                    assert(text::holds_at(text::lowercase(iv[i as int].name), "skyrim"@, 0));
                    return true;
                }
                i += 1;
            }
            false
        },
    }
}

fn find_user(items: &Vec<DirItem>, name: &str) -> (r: usize)
    ensures
        r <= items@.len(),
        r == first_where(items.deep_view(), is_user(name@), 0),
{
    let ghost iv = items.deep_view();
    let mut i: usize = 0;
    while i < items.len() && !(items[i].is_dir && text::same_text(items[i].name.as_str(), name))
        invariant
            i <= items@.len(),
            iv == items.deep_view(),
            first_where(iv, is_user(name@), 0) == first_where(iv, is_user(name@), i as int),
        decreases items.len() - i,
    {
        i += 1;
    }
    i
}

fn is_shared_user(name: &str) -> (r: bool)
    ensures
        r == ({
            let lower = text::lowercase(name@);
            lower == "public"@ || lower == "default"@ || lower == "all users"@
        }),
{
    let lower = text::to_lowercase(name);
    let l = lower.as_str();
    text::same_text(l, "public") || text::same_text(l, "default") || text::same_text(l, "all users")
}

fn find_personal(items: &Vec<DirItem>) -> (r: usize)
    ensures
        r <= items@.len(),
        r == first_where(items.deep_view(), is_personal(), 0),
{
    let ghost iv = items.deep_view();
    let mut i: usize = 0;
    while i < items.len() && !(items[i].is_dir && !is_shared_user(items[i].name.as_str()))
        invariant
            i <= items@.len(),
            iv == items.deep_view(),
            first_where(iv, is_personal(), 0) == first_where(iv, is_personal(), i as int),
        decreases items.len() - i,
    {
        i += 1;
    }
    i
}

/// Finds the user folder of a prefix that is in use, without a guess at its
/// name. Preferred, in this order, is a folder under which Skyrim has been run,
/// then Proton's `steamuser`, then that of the real `user`, then the first that
/// is none of the shared ones.
pub fn resolve_windows_user_dir(disk: &Disk, prefix_root: &str, user: &Option<String>) -> (r: Result<
    String,
    PrefixError,
>)
    ensures
        match r {
            Ok(dir) => user_dir_in(disk@, prefix_root@, user.deep_view()) == Some(dir@),
            Err(e) => user_dir_in(disk@, prefix_root@, user.deep_view()) is None && e
                == PrefixError::NoUserDir,
        },
{
    let users = paths::join3(prefix_root, "drive_c", "users");
    match disk.folder(users.as_str()) {
        None => Err(PrefixError::NoUserDir),
        Some(f) => {
            let items = &f.items;
            let n: usize = items.len();
            let ghost iv = disk@.items(users@);
            assert(iv.len() == n);
            let mut pick: usize = find_used(disk, users.as_str(), items);
            if pick >= n {
                pick = find_user(items, "steamuser");
            }
            if pick >= n {
                if let Some(name) = user {
                    pick = find_user(items, name.as_str());
                }
            }
            if pick >= n {
                pick = find_personal(items);
            }
            if pick < n {
                Ok(paths::join(users.as_str(), items[pick].name.as_str()))
            } else {
                Err(PrefixError::NoUserDir)
            }
        },
    }
}

// ---------------------------------------------------------------------------
// Steam's own files
// ---------------------------------------------------------------------------

/// The condition not to be blank.
pub open spec fn is_not_blank() -> spec_fn(Seq<char>) -> bool {
    |p: Seq<char>| text::trimmed(p).len() > 0
}

/// The last piece between quotes of a line that is not blank.
pub open spec fn last_quoted(line: Seq<char>) -> Option<Seq<char>> {
    let parts = text::pieces(line, '"').filter(is_not_blank());
    if parts.len() > 0 {
        Some(parts.last())
    } else {
        None
    }
}

/// The value of the first line with this quoted key.
pub open spec fn first_value(lines: Seq<Seq<char>>, key: Seq<char>, i: int) -> Option<Seq<char>>
    decreases lines.len() - i,
{
    if i >= lines.len() {
        None
    } else {
        let line = text::trimmed(lines[i]);
        if text::holds_at(line, key, 0) {
            last_quoted(line)
        } else {
            first_value(lines, key, i + 1)
        }
    }
}

/// The values of all lines with this quoted key.
pub open spec fn all_values(lines: Seq<Seq<char>>, key: Seq<char>) -> Seq<Seq<char>>
    decreases lines.len(),
{
    if lines.len() == 0 {
        Seq::empty()
    } else {
        let before = all_values(lines.drop_last(), key);
        let line = text::trimmed(lines.last());
        if text::holds_at(line, key, 0) {
            match last_quoted(line) {
                Some(v) => before.push(v),
                None => before,
            }
        } else {
            before
        }
    }
}

fn find_last_quoted(line: &str) -> (r: Option<String>)
    ensures
        r.deep_view() == last_quoted(line@),
{
    let parts = text::split(line, '"');
    let ghost all = parts.deep_view();
    let mut i: usize = parts.len();
    assert(all.take(i as int) =~= all);
    while i > 0
        invariant
            i <= parts@.len(),
            all == parts.deep_view(),
            all == text::pieces(line@, '"'),
            all.filter(is_not_blank()) == all.take(i as int).filter(is_not_blank()),
        decreases i,
    {
        reveal(Seq::filter);
        let ghost t = all.take(i as int);
        assert(t.drop_last() =~= all.take(i - 1));
        assert(t.last() == parts@[i - 1]@);
        if !text::trim(parts[i - 1].as_str()).as_str().is_empty() {
            assert(all.filter(is_not_blank()).last() == parts@[i - 1]@);
            return Some(parts[i - 1].clone());
        }
        i -= 1;
    }
    reveal(Seq::filter);
    None
}

/// The game's name in the text of an `appmanifest_<appid>.acf`.
pub fn manifest_name(contents: &str) -> (r: Option<String>)
    ensures
        r.deep_view() == first_value(text::lines(contents@), "\"name\""@, 0),
{
    let lines = text::split_lines(contents);
    let ghost all = lines.deep_view();
    let mut i: usize = 0;
    while i < lines.len()
        invariant
            i <= lines@.len(),
            all == lines.deep_view(),
            all == text::lines(contents@),
            first_value(all, "\"name\""@, 0) == first_value(all, "\"name\""@, i as int),
        decreases lines.len() - i,
    {
        let line = text::trim(lines[i].as_str());
        if text::has_prefix(line.as_str(), "\"name\"") {
            return find_last_quoted(line.as_str());
        }
        i += 1;
    }
    None
}

/// The library folders in the text of a `libraryfolders.vdf`.
pub fn library_paths(contents: &str) -> (r: Vec<String>)
    ensures
        r.deep_view() == all_values(text::lines(contents@), "\"path\""@),
{
    let lines = text::split_lines(contents);
    let ghost all = lines.deep_view();
    let mut out: Vec<String> = Vec::new();
    let mut i: usize = 0;
    assert(all.take(0) =~= Seq::<Seq<char>>::empty());
    assert(out.deep_view() =~= Seq::<Seq<char>>::empty());
    while i < lines.len()
        invariant
            i <= lines@.len(),
            all == lines.deep_view(),
            out.deep_view() == all_values(all.take(i as int), "\"path\""@),
        decreases lines.len() - i,
    {
        assert(all.take(i + 1).drop_last() =~= all.take(i as int));
        assert(all.take(i + 1).last() == lines@[i as int]@);
        let line = text::trim(lines[i].as_str());
        if text::has_prefix(line.as_str(), "\"path\"") {
            if let Some(v) = find_last_quoted(line.as_str()) {
                let ghost before = out.deep_view();
                out.push(v);
                assert(out.deep_view() =~= before.push(v@));
            }
        }
        i += 1;
    }
    assert(all.take(i as int) =~= all);
    out
}

// ---------------------------------------------------------------------------
// Discovery
// ---------------------------------------------------------------------------

/// The prefix at this path, if there is one with a user folder.
pub open spec fn prefix_at(
    disk: DiskView,
    root: Seq<char>,
    user: Option<Seq<char>>,
    source: PrefixSourceView,
) -> Seq<WinePrefixView> {
    if disk.is_dir(paths::joined(root, "drive_c"@)) {
        match user_dir_in(disk, root, user) {
            Some(dir) => seq![WinePrefixView { prefix_root: root, windows_user_dir: dir, source }],
            None => Seq::empty(),
        }
    } else {
        Seq::empty()
    }
}

/// Launchers that keep their prefixes in one folder.
#[derive(Debug, Clone, Copy, PartialEq, Eq, Structural)]
pub enum Launcher {
    Lutris,
    Heroic,
    Bottles,
    PortProton,
    CrossOver,
}

/// The source that a launcher's prefix of this name has.
pub open spec fn launcher_source(launcher: Launcher, name: Seq<char>) -> PrefixSourceView {
    match launcher {
        Launcher::Lutris => PrefixSourceView::Lutris { name },
        Launcher::Heroic => PrefixSourceView::Heroic { name },
        Launcher::Bottles => PrefixSourceView::Bottles { name },
        Launcher::PortProton => PrefixSourceView::PortProton { name },
        Launcher::CrossOver => PrefixSourceView::CrossOver { name },
    }
}

/// The prefixes among the first `n` entries of a launcher's folder, each at the
/// entry itself, and also at `sub` under it where that is given.
pub open spec fn simple_prefixes(
    disk: DiskView,
    root: Seq<char>,
    sub: Option<Seq<char>>,
    user: Option<Seq<char>>,
    launcher: Launcher,
    n: int,
) -> Seq<WinePrefixView>
    decreases n,
{
    if n <= 0 {
        Seq::empty()
    } else {
        let name = disk.items(root)[n - 1].name;
        let base = paths::joined(root, name);
        let source = launcher_source(launcher, name);
        simple_prefixes(disk, root, sub, user, launcher, n - 1) + prefix_at(
            disk,
            base,
            user,
            source,
        ) + (match sub {
            Some(s) => prefix_at(disk, paths::joined(base, s), user, source),
            None => Seq::empty(),
        })
    }
}

/// The prefixes in a launcher's folder.
pub open spec fn launcher_prefixes(
    disk: DiskView,
    root: Seq<char>,
    sub: Option<Seq<char>>,
    user: Option<Seq<char>>,
    launcher: Launcher,
) -> Seq<WinePrefixView> {
    simple_prefixes(disk, root, sub, user, launcher, disk.items(root).len() as int)
}

/// The name of the game with this id in a Steam library.
pub open spec fn game_name_in(disk: DiskView, steam_root: Seq<char>, app_id: Seq<char>) -> Option<
    Seq<char>,
> {
    let path = paths::joined(
        paths::joined(steam_root, "steamapps"@),
        "appmanifest_"@ + app_id + ".acf"@,
    );
    if disk.texts.contains_key(path) {
        first_value(text::lines(disk.texts[path]), "\"name\""@, 0)
    } else {
        None
    }
}

/// The folder of a Steam library that holds its prefixes.
pub open spec fn compatdata(steam_root: Seq<char>) -> Seq<char> {
    paths::joined(paths::joined(steam_root, "steamapps"@), "compatdata"@)
}

/// The prefixes among the first `n` entries of a Steam library.
pub open spec fn steam_prefixes_upto(
    disk: DiskView,
    steam_root: Seq<char>,
    user: Option<Seq<char>>,
    n: int,
) -> Seq<WinePrefixView>
    decreases n,
{
    if n <= 0 {
        Seq::empty()
    } else {
        let app_id = disk.items(compatdata(steam_root))[n - 1].name;
        let pfx = paths::joined(paths::joined(compatdata(steam_root), app_id), "pfx"@);
        steam_prefixes_upto(disk, steam_root, user, n - 1) + prefix_at(
            disk,
            pfx,
            user,
            PrefixSourceView::SteamProton {
                app_id,
                game_name: game_name_in(disk, steam_root, app_id),
            },
        )
    }
}

/// The prefixes of a Steam library.
pub open spec fn steam_prefixes(
    disk: DiskView,
    steam_root: Seq<char>,
    user: Option<Seq<char>>,
) -> Seq<WinePrefixView> {
    steam_prefixes_upto(disk, steam_root, user, disk.items(compatdata(steam_root)).len() as int)
}

/// The further libraries that a Steam library names.
pub open spec fn further_libraries(disk: DiskView, steam_root: Seq<char>) -> Seq<Seq<char>> {
    let path = paths::joined(paths::joined(steam_root, "steamapps"@), "libraryfolders.vdf"@);
    if disk.texts.contains_key(path) {
        all_values(text::lines(disk.texts[path]), "\"path\""@)
    } else {
        Seq::empty()
    }
}

/// The prefixes of all these libraries, in order.
pub open spec fn libraries_prefixes(
    disk: DiskView,
    libraries: Seq<Seq<char>>,
    user: Option<Seq<char>>,
) -> Seq<WinePrefixView>
    decreases libraries.len(),
{
    if libraries.len() == 0 {
        Seq::empty()
    } else {
        libraries_prefixes(disk, libraries.drop_last(), user) + steam_prefixes(
            disk,
            libraries.last(),
            user,
        )
    }
}

/// The prefixes of a Steam installation: those of its own library, then those
/// of the libraries that it names.
pub open spec fn steam_install_prefixes(
    disk: DiskView,
    steam_root: Seq<char>,
    user: Option<Seq<char>>,
) -> Seq<WinePrefixView> {
    steam_prefixes(disk, steam_root, user) + libraries_prefixes(
        disk,
        further_libraries(disk, steam_root),
        user,
    )
}

/// Where Steam may be installed under a home folder: as a native package, for
/// Flatpak and for Snap.
pub open spec fn steam_folders(home: Seq<char>) -> Seq<Seq<char>> {
    seq![
        paths::joined(home, ".steam/steam"@),
        paths::joined(home, ".local/share/Steam"@),
        paths::joined(home, ".var/app/com.valvesoftware.Steam/.local/share/Steam"@),
        paths::joined(home, "snap/steam/common/.local/share/Steam"@),
    ]
}

/// The prefixes of all these Steam installations, in order.
pub open spec fn steam_installs_prefixes(
    disk: DiskView,
    roots: Seq<Seq<char>>,
    user: Option<Seq<char>>,
) -> Seq<WinePrefixView>
    decreases roots.len(),
{
    if roots.len() == 0 {
        Seq::empty()
    } else {
        steam_installs_prefixes(disk, roots.drop_last(), user) + steam_install_prefixes(
            disk,
            roots.last(),
            user,
        )
    }
}

/// A folder in which a launcher keeps prefixes: each entry may be one, and also
/// what stands at `sub` under it.
#[derive(Debug)]
pub struct LauncherFolder {
    pub root: String,
    pub sub: Option<String>,
    pub launcher: Launcher,
}

/// The mathematical content of a [`LauncherFolder`].
#[verifier::ext_equal]
pub struct LauncherFolderView {
    pub root: Seq<char>,
    pub sub: Option<Seq<char>>,
    pub launcher: Launcher,
}

impl DeepView for LauncherFolder {
    type V = LauncherFolderView;

    open spec fn deep_view(&self) -> LauncherFolderView {
        LauncherFolderView {
            root: self.root@,
            sub: self.sub.deep_view(),
            launcher: self.launcher,
        }
    }
}

/// A launcher's folder under a home folder.
pub open spec fn folder_for(
    home: Seq<char>,
    rel: Seq<char>,
    sub: Option<Seq<char>>,
    launcher: Launcher,
) -> LauncherFolderView {
    LauncherFolderView { root: paths::joined(home, rel), sub, launcher }
}

/// The folders in which launchers keep prefixes under a home folder.
pub open spec fn launcher_folders(home: Seq<char>) -> Seq<LauncherFolderView> {
    let games = Some("prefix"@);
    seq![
        folder_for(home, "Games"@, games, Launcher::Lutris),
        folder_for(home, ".local/share/lutris/runners/wine"@, games, Launcher::Lutris),
        folder_for(home, "Games/Heroic/Prefixes"@, None, Launcher::Heroic),
        folder_for(home, ".config/heroic/Prefixes"@, None, Launcher::Heroic),
        folder_for(home, ".local/share/bottles/bottles"@, None, Launcher::Bottles),
        folder_for(
            home,
            ".var/app/com.usebottles.bottles/data/bottles/bottles"@,
            None,
            Launcher::Bottles,
        ),
        folder_for(home, ".local/share/PortProton/data/prefixes"@, None, Launcher::PortProton),
        folder_for(
            home,
            ".var/app/ru.linux_gaming.PortProton/data/prefixes"@,
            None,
            Launcher::PortProton,
        ),
        folder_for(home, ".PortProton/data/prefixes"@, None, Launcher::PortProton),
        folder_for(home, ".cxoffice"@, None, Launcher::CrossOver),
    ]
}

/// The prefixes in all these folders, in order.
pub open spec fn launchers_prefixes(
    disk: DiskView,
    folders: Seq<LauncherFolderView>,
    user: Option<Seq<char>>,
) -> Seq<WinePrefixView>
    decreases folders.len(),
{
    if folders.len() == 0 {
        Seq::empty()
    } else {
        launchers_prefixes(disk, folders.drop_last(), user) + launcher_prefixes(
            disk,
            folders.last().root,
            folders.last().sub,
            user,
            folders.last().launcher,
        )
    }
}

/// All prefixes at the usual places under a home folder, and that of the
/// `WINEPREFIX` variable.
pub open spec fn prefixes_in(
    disk: DiskView,
    home: Option<Seq<char>>,
    user: Option<Seq<char>>,
    wineprefix: Option<Seq<char>>,
) -> Seq<WinePrefixView> {
    match home {
        None => Seq::empty(),
        Some(h) => {
            steam_installs_prefixes(disk, steam_folders(h), user) + launchers_prefixes(
                disk,
                launcher_folders(h),
                user,
            ) + prefix_at(
                disk,
                paths::joined(h, ".wine"@),
                user,
                PrefixSourceView::PlainWine,
            ) + match wineprefix {
                Some(path) => prefix_at(disk, path, user, PrefixSourceView::Custom { path }),
                None => Seq::empty(),
            }
        },
    }
}

/// Adds the prefix at this path, if there is one.
fn add_prefix_at(
    found: &mut Vec<WinePrefix>,
    disk: &Disk,
    root: &str,
    user: &Option<String>,
    source: PrefixSource,
)
    ensures
        final(found).deep_view() == old(found).deep_view() + prefix_at(
            disk@,
            root@,
            user.deep_view(),
            source.deep_view(),
        ),
{
    let ghost before = found.deep_view();
    let ghost goal = prefix_at(disk@, root@, user.deep_view(), source.deep_view());
    if disk.is_dir(paths::join(root, "drive_c").as_str()) {
        if let Ok(dir) = resolve_windows_user_dir(disk, root, user) {
            let p = WinePrefix { prefix_root: root.to_owned(), windows_user_dir: dir, source };
            let ghost pv = p.deep_view();
            found.push(p);
            assert(goal =~= seq![pv]);
            assert(found.deep_view() =~= before + goal);
            return ;
        }
    }
    assert(goal =~= Seq::<WinePrefixView>::empty());
    assert(found.deep_view() =~= before + goal);
}

fn source_for(launcher: Launcher, name: String) -> (r: PrefixSource)
    ensures
        r.deep_view() == launcher_source(launcher, name@),
{
    match launcher {
        Launcher::Lutris => PrefixSource::Lutris { name },
        Launcher::Heroic => PrefixSource::Heroic { name },
        Launcher::Bottles => PrefixSource::Bottles { name },
        Launcher::PortProton => PrefixSource::PortProton { name },
        Launcher::CrossOver => PrefixSource::CrossOver { name },
    }
}

/// Adds the prefixes in a launcher's folder.
fn collect_simple_prefixes(
    found: &mut Vec<WinePrefix>,
    disk: &Disk,
    root: &str,
    sub: Option<&str>,
    user: &Option<String>,
    launcher: Launcher,
)
    ensures
        final(found).deep_view() == old(found).deep_view() + launcher_prefixes(
            disk@,
            root@,
            match sub {
                Some(s) => Some(s@),
                None => None,
            },
            user.deep_view(),
            launcher,
        ),
{
    let ghost before = found.deep_view();
    let ghost sv: Option<Seq<char>> = match sub {
        Some(s) => Some(s@),
        None => None,
    };
    let ghost uv = user.deep_view();
    match disk.folder(root) {
        None => {
            assert(found.deep_view() =~= before + launcher_prefixes(disk@, root@, sv, uv, launcher));
        },
        Some(f) => {
            let ghost items = disk@.items(root@);
            let mut i: usize = 0;
            assert(before + simple_prefixes(disk@, root@, sv, uv, launcher, 0) =~= before);
            while i < f.items.len()
                invariant
                    i <= f.items@.len(),
                    items == f.items.deep_view(),
                    items == disk@.items(root@),
                    uv == user.deep_view(),
                    sv == (match sub {
                        Some(s) => Some(s@),
                        None => None,
                    }),
                    found.deep_view() == before + simple_prefixes(
                        disk@,
                        root@,
                        sv,
                        uv,
                        launcher,
                        i as int,
                    ),
                decreases f.items.len() - i,
            {
                let ghost here = found.deep_view();
                let name = f.items[i].name.clone();
                let base = paths::join(root, name.as_str());
                let source = source_for(launcher, name.clone());
                add_prefix_at(found, disk, base.as_str(), user, source);
                if let Some(s) = sub {
                    let below = paths::join(base.as_str(), s);
                    let source = source_for(launcher, name);
                    add_prefix_at(found, disk, below.as_str(), user, source);
                }
                i += 1;
                assert(found.deep_view() =~= before + simple_prefixes(
                    disk@,
                    root@,
                    sv,
                    uv,
                    launcher,
                    i as int,
                ));
            }
        },
    }
}

/// The name of the game with this id in a Steam library.
fn read_appmanifest_name(disk: &Disk, steam_root: &str, app_id: &str) -> (r: Option<String>)
    ensures
        r.deep_view() == game_name_in(disk@, steam_root@, app_id@),
{
    let file = text::concat3("appmanifest_", app_id, ".acf");
    let path = paths::join3(steam_root, "steamapps", file.as_str());
    match disk.read_text(path.as_str()) {
        Some(contents) => manifest_name(contents.as_str()),
        None => None,
    }
}

/// Adds the prefixes of a Steam library.
fn collect_steam_compatdata(
    found: &mut Vec<WinePrefix>,
    disk: &Disk,
    steam_root: &str,
    user: &Option<String>,
)
    ensures
        final(found).deep_view() == old(found).deep_view() + steam_prefixes(
            disk@,
            steam_root@,
            user.deep_view(),
        ),
{
    let ghost before = found.deep_view();
    let ghost uv = user.deep_view();
    let data = paths::join3(steam_root, "steamapps", "compatdata");
    match disk.folder(data.as_str()) {
        None => {
            assert(found.deep_view() =~= before + steam_prefixes(disk@, steam_root@, uv));
        },
        Some(f) => {
            let ghost items = disk@.items(data@);
            let mut i: usize = 0;
            assert(before + steam_prefixes_upto(disk@, steam_root@, uv, 0) =~= before);
            while i < f.items.len()
                invariant
                    i <= f.items@.len(),
                    data@ == compatdata(steam_root@),
                    items == f.items.deep_view(),
                    items == disk@.items(data@),
                    uv == user.deep_view(),
                    found.deep_view() == before + steam_prefixes_upto(
                        disk@,
                        steam_root@,
                        uv,
                        i as int,
                    ),
                decreases f.items.len() - i,
            {
                let app_id = f.items[i].name.clone();
                let pfx = paths::join3(data.as_str(), app_id.as_str(), "pfx");
                let game_name = read_appmanifest_name(disk, steam_root, app_id.as_str());
                let source = PrefixSource::SteamProton { app_id, game_name };
                add_prefix_at(found, disk, pfx.as_str(), user, source);
                i += 1;
                assert(found.deep_view() =~= before + steam_prefixes_upto(
                    disk@,
                    steam_root@,
                    uv,
                    i as int,
                ));
            }
        },
    }
}

/// The further libraries that a Steam library names.
fn additional_steam_libraries(disk: &Disk, steam_root: &str) -> (r: Vec<String>)
    ensures
        r.deep_view() == further_libraries(disk@, steam_root@),
{
    let path = paths::join3(steam_root, "steamapps", "libraryfolders.vdf");
    match disk.read_text(path.as_str()) {
        Some(contents) => library_paths(contents.as_str()),
        None => {
            let none: Vec<String> = Vec::new();
            assert(none.deep_view() =~= Seq::<Seq<char>>::empty());
            none
        },
    }
}

/// Adds the prefixes of a Steam installation.
fn collect_steam_install(
    found: &mut Vec<WinePrefix>,
    disk: &Disk,
    steam_root: &str,
    user: &Option<String>,
)
    ensures
        final(found).deep_view() == old(found).deep_view() + steam_install_prefixes(
            disk@,
            steam_root@,
            user.deep_view(),
        ),
{
    let ghost before = found.deep_view();
    let ghost uv = user.deep_view();
    collect_steam_compatdata(found, disk, steam_root, user);
    let ghost own = found.deep_view();
    let libs = additional_steam_libraries(disk, steam_root);
    let ghost lv = libs.deep_view();
    let mut i: usize = 0;
    assert(lv.take(0) =~= Seq::<Seq<char>>::empty());
    assert(own + libraries_prefixes(disk@, lv.take(0), uv) =~= own);
    while i < libs.len()
        invariant
            i <= libs@.len(),
            lv == libs.deep_view(),
            uv == user.deep_view(),
            found.deep_view() == own + libraries_prefixes(disk@, lv.take(i as int), uv),
        decreases libs.len() - i,
    {
        assert(lv.take(i + 1).drop_last() =~= lv.take(i as int));
        collect_steam_compatdata(found, disk, libs[i].as_str(), user);
        i += 1;
        assert(found.deep_view() =~= own + libraries_prefixes(disk@, lv.take(i as int), uv));
    }
    assert(lv.take(i as int) =~= lv);
    assert(found.deep_view() =~= before + steam_install_prefixes(disk@, steam_root@, uv));
}

/// Where Steam may be installed under a home folder.
pub fn steam_roots(home: &str) -> (r: Vec<String>)
    ensures
        r.deep_view() == steam_folders(home@),
{
    let mut out: Vec<String> = Vec::new();
    out.push(paths::join(home, ".steam/steam"));
    out.push(paths::join(home, ".local/share/Steam"));
    out.push(paths::join(home, ".var/app/com.valvesoftware.Steam/.local/share/Steam"));
    out.push(paths::join(home, "snap/steam/common/.local/share/Steam"));
    assert(out.deep_view() =~= steam_folders(home@));
    out
}

fn launcher_folder(home: &str, rel: &str, sub: Option<String>, launcher: Launcher) -> (r:
    LauncherFolder)
    ensures
        r.deep_view() == folder_for(home@, rel@, sub.deep_view(), launcher),
{
    LauncherFolder { root: paths::join(home, rel), sub, launcher }
}

/// The folders in which launchers keep prefixes under a home folder.
pub fn launcher_roots(home: &str) -> (r: Vec<LauncherFolder>)
    ensures
        r.deep_view() == launcher_folders(home@),
{
    let mut out: Vec<LauncherFolder> = Vec::new();
    let games = Some("prefix".to_owned());
    out.push(launcher_folder(home, "Games", games, Launcher::Lutris));
    let games = Some("prefix".to_owned());
    out.push(
        launcher_folder(home, ".local/share/lutris/runners/wine", games, Launcher::Lutris),
    );
    out.push(launcher_folder(home, "Games/Heroic/Prefixes", None, Launcher::Heroic));
    out.push(launcher_folder(home, ".config/heroic/Prefixes", None, Launcher::Heroic));
    out.push(launcher_folder(home, ".local/share/bottles/bottles", None, Launcher::Bottles));
    out.push(
        launcher_folder(
            home,
            ".var/app/com.usebottles.bottles/data/bottles/bottles",
            None,
            Launcher::Bottles,
        ),
    );
    out.push(
        launcher_folder(
            home,
            ".local/share/PortProton/data/prefixes",
            None,
            Launcher::PortProton,
        ),
    );
    out.push(
        launcher_folder(
            home,
            ".var/app/ru.linux_gaming.PortProton/data/prefixes",
            None,
            Launcher::PortProton,
        ),
    );
    out.push(launcher_folder(home, ".PortProton/data/prefixes", None, Launcher::PortProton));
    out.push(launcher_folder(home, ".cxoffice", None, Launcher::CrossOver));
    assert(out.deep_view() =~= launcher_folders(home@));
    out
}

fn collect_steam_installs(
    found: &mut Vec<WinePrefix>,
    disk: &Disk,
    roots: &Vec<String>,
    user: &Option<String>,
)
    ensures
        final(found).deep_view() == old(found).deep_view() + steam_installs_prefixes(
            disk@,
            roots.deep_view(),
            user.deep_view(),
        ),
{
    let ghost before = found.deep_view();
    let ghost rv = roots.deep_view();
    let ghost uv = user.deep_view();
    let mut i: usize = 0;
    assert(rv.take(0) =~= Seq::<Seq<char>>::empty());
    assert(before + steam_installs_prefixes(disk@, rv.take(0), uv) =~= before);
    while i < roots.len()
        invariant
            i <= roots@.len(),
            rv == roots.deep_view(),
            uv == user.deep_view(),
            found.deep_view() == before + steam_installs_prefixes(disk@, rv.take(i as int), uv),
        decreases roots.len() - i,
    {
        assert(rv.take(i + 1).drop_last() =~= rv.take(i as int));
        assert(rv.take(i + 1).last() == roots@[i as int]@);
        collect_steam_install(found, disk, roots[i].as_str(), user);
        i += 1;
        assert(found.deep_view() =~= before + steam_installs_prefixes(
            disk@,
            rv.take(i as int),
            uv,
        ));
    }
    assert(rv.take(i as int) =~= rv);
}

fn collect_launchers(
    found: &mut Vec<WinePrefix>,
    disk: &Disk,
    folders: &Vec<LauncherFolder>,
    user: &Option<String>,
)
    ensures
        final(found).deep_view() == old(found).deep_view() + launchers_prefixes(
            disk@,
            folders.deep_view(),
            user.deep_view(),
        ),
{
    let ghost before = found.deep_view();
    let ghost fv = folders.deep_view();
    let ghost uv = user.deep_view();
    let mut i: usize = 0;
    assert(fv.take(0) =~= Seq::<LauncherFolderView>::empty());
    assert(before + launchers_prefixes(disk@, fv.take(0), uv) =~= before);
    while i < folders.len()
        invariant
            i <= folders@.len(),
            fv == folders.deep_view(),
            uv == user.deep_view(),
            found.deep_view() == before + launchers_prefixes(disk@, fv.take(i as int), uv),
        decreases folders.len() - i,
    {
        assert(fv.take(i + 1).drop_last() =~= fv.take(i as int));
        assert(fv.take(i + 1).last() == folders@[i as int].deep_view());
        let f = &folders[i];
        let sub = match &f.sub {
            Some(s) => Some(s.as_str()),
            None => None,
        };
        collect_simple_prefixes(found, disk, f.root.as_str(), sub, user, f.launcher);
        i += 1;
        assert(found.deep_view() =~= before + launchers_prefixes(disk@, fv.take(i as int), uv));
    }
    assert(fv.take(i as int) =~= fv);
}

/// Scans the usual locations under the home folder for prefixes: Steam with
/// its libraries, Lutris, Heroic, Bottles, PortProton, CrossOver and plain
/// Wine, and the one that the `WINEPREFIX` variable names.
pub fn discover_prefixes(
    disk: &Disk,
    home: &Option<String>,
    user: &Option<String>,
    wineprefix: &Option<String>,
) -> (r: Vec<WinePrefix>)
    ensures
        r.deep_view() == prefixes_in(
            disk@,
            home.deep_view(),
            user.deep_view(),
            wineprefix.deep_view(),
        ),
{
    let mut found: Vec<WinePrefix> = Vec::new();
    let ghost goal = prefixes_in(
        disk@,
        home.deep_view(),
        user.deep_view(),
        wineprefix.deep_view(),
    );
    assert(found.deep_view() =~= Seq::<WinePrefixView>::empty());
    let h = match home {
        Some(h) => h.as_str(),
        None => {
            return found;
        },
    };
    collect_steam_installs(&mut found, disk, &steam_roots(h), user);
    collect_launchers(&mut found, disk, &launcher_roots(h), user);
    add_prefix_at(
        &mut found,
        disk,
        paths::join(h, ".wine").as_str(),
        user,
        PrefixSource::PlainWine,
    );
    if let Some(path) = wineprefix {
        add_prefix_at(
            &mut found,
            disk,
            path.as_str(),
            user,
            PrefixSource::Custom { path: path.clone() },
        );
    } else {
        assert(found.deep_view() + Seq::<WinePrefixView>::empty() =~= found.deep_view());
    }
    assert(found.deep_view() =~= goal);
    found
}

/// Whether a path is at or under a folder.
pub open spec fn is_within(path: Seq<char>, dir: Seq<char>) -> bool {
    path == dir || text::holds_at(path, dir + seq!['/'], 0)
}

/// Which of the prefixes contains a path, the deepest where several do.
pub open spec fn enclosing(prefixes: Seq<WinePrefixView>, path: Seq<char>) -> Option<WinePrefixView>
    decreases prefixes.len(),
{
    if prefixes.len() == 0 {
        None
    } else {
        let before = enclosing(prefixes.drop_last(), path);
        let p = prefixes.last();
        if is_within(path, p.prefix_root) && (before is None || before->0.prefix_root.len()
            < p.prefix_root.len()) {
            Some(p)
        } else {
            before
        }
    }
}

/// The prefix that contains a path, the deepest where several do.
pub fn find_prefix_containing(prefixes: &Vec<WinePrefix>, path: &str) -> (r: Option<WinePrefix>)
    ensures
        r.deep_view() == enclosing(prefixes.deep_view(), path@),
{
    let ghost all = prefixes.deep_view();
    let mut best: Option<usize> = None;
    let mut i: usize = 0;
    proof {
        reveal_strlit("/");
    }
    assert("/"@ =~= seq!['/']);
    assert(all.take(0) =~= Seq::<WinePrefixView>::empty());
    while i < prefixes.len()
        invariant
            i <= prefixes@.len(),
            all == prefixes.deep_view(),
            "/"@ == seq!['/'],
            match best {
                Some(b) => b < prefixes@.len() && enclosing(all.take(i as int), path@) == Some(
                    all[b as int],
                ),
                None => enclosing(all.take(i as int), path@) is None,
            },
        decreases prefixes.len() - i,
    {
        assert(all.take(i + 1).drop_last() =~= all.take(i as int));
        assert(all.take(i + 1).last() == prefixes@[i as int].deep_view());
        let root = &prefixes[i].prefix_root;
        let inside = text::same_text(path, root.as_str()) || text::has_prefix(
            path,
            text::concat(root.as_str(), "/").as_str(),
        );
        let deeper = match best {
            Some(b) => text::chars_of(prefixes[b].prefix_root.as_str()).len() < text::chars_of(
                root.as_str(),
            ).len(),
            None => true,
        };
        if inside && deeper {
            best = Some(i);
        }
        i += 1;
    }
    assert(all.take(i as int) =~= all);
    match best {
        Some(b) => Some(prefixes[b].copy()),
        None => None,
    }
}

// ---------------------------------------------------------------------------
// What a search for prefixes gives
// ---------------------------------------------------------------------------

proof fn lemma_first_where(
    items: Seq<DirItemView>,
    meets: spec_fn(DirItemView) -> bool,
    i: int,
)
    requires
        0 <= i <= items.len(),
    ensures
        ({
            let k = first_where(items, meets, i);
            &&& i <= k <= items.len()
            &&& k < items.len() ==> meets(items[k])
            &&& forall|j: int| i <= j < k ==> !meets(#[trigger] items[j])
        }),
    decreases items.len() - i,
{
    if i < items.len() && !meets(items[i]) {
        lemma_first_where(items, meets, i + 1);
    }
}

/// Whether a user's `Documents/My Games` holds something of Skyrim's.
pub open spec fn saved_by_skyrim(disk: DiskView, users: Seq<char>, name: Seq<char>) -> bool {
    let documents = paths::joined(paths::joined(users, name), "Documents"@);
    let saved = disk.items(paths::joined(documents, "My Games"@));
    exists|m: int|
        0 <= m < saved.len() && text::holds_at(
            text::lowercase((#[trigger] saved[m]).name),
            "skyrim"@,
            0,
        )
}

/// The user folder that is in use: the first under which Skyrim has left
/// something in `Documents/My Games`; where none has that, `steamuser`; where
/// that is missing too, the one of the real user; and else the first that is
/// none of the shared ones.
pub proof fn lemma_which_user_folder_is_in_use(
    disk: DiskView,
    root: Seq<char>,
    user: Option<Seq<char>>,
    k: int,
)
    requires
        0 <= k < disk.items(paths::joined(paths::joined(root, "drive_c"@), "users"@)).len(),
        disk.items(paths::joined(paths::joined(root, "drive_c"@), "users"@))[k].is_dir,
    ensures
        ({
            let users = paths::joined(paths::joined(root, "drive_c"@), "users"@);
            let items = disk.items(users);
            let used = |j: int| items[j].is_dir && saved_by_skyrim(disk, users, items[j].name);
            let none_used = forall|j: int| 0 <= j < items.len() ==> !#[trigger] used(j);
            let named = |name: Seq<char>, j: int| items[j].is_dir && items[j].name == name;
            let own = |j: int| items[j].is_dir && user is Some && items[j].name == user->0;
            let shared = |j: int|
                !items[j].is_dir || text::lowercase(items[j].name) == "public"@ || text::lowercase(
                    items[j].name,
                ) == "default"@ || text::lowercase(items[j].name) == "all users"@;
            let picked = user_dir_in(disk, root, user) == Some(
                paths::joined(users, items[k].name),
            );
            &&& used(k) && (forall|j: int| 0 <= j < k ==> !#[trigger] used(j)) ==> picked
            &&& none_used && items[k].name == "steamuser"@ ==> picked
            &&& none_used && (forall|j: int|
                0 <= j < items.len() ==> !#[trigger] named("steamuser"@, j)) && own(k) ==> picked
            &&& none_used && (forall|j: int|
                0 <= j < items.len() ==> !#[trigger] named("steamuser"@, j)) && (forall|j: int|
                0 <= j < items.len() ==> !#[trigger] own(j)) && !shared(k) && (forall|j: int|
                0 <= j < k ==> #[trigger] shared(j)) ==> picked
        }),
{
    let users = paths::joined(paths::joined(root, "drive_c"@), "users"@);
    let items = disk.items(users);
    let used = |j: int| items[j].is_dir && saved_by_skyrim(disk, users, items[j].name);
    let named = |name: Seq<char>, j: int| items[j].is_dir && items[j].name == name;
    let own = |j: int| items[j].is_dir && user is Some && items[j].name == user->0;
    let shared = |j: int|
        !items[j].is_dir || text::lowercase(items[j].name) == "public"@ || text::lowercase(
            items[j].name,
        ) == "default"@ || text::lowercase(items[j].name) == "all users"@;
    let n = items.len() as int;
    let run = has_run_skyrim(disk, users);
    assert forall|j: int| 0 <= j < n implies run(#[trigger] items[j]) == used(j) by {}
    lemma_first_where(items, run, 0);
    lemma_first_where(items, is_user("steamuser"@), 0);
    lemma_first_where(items, is_personal(), 0);
    let a = first_where(items, run, 0);
    let b = first_where(items, is_user("steamuser"@), 0);
    let d = first_where(items, is_personal(), 0);
    assert(a < n ==> used(a));
    assert(b < n ==> named("steamuser"@, b));
    assert(d < n ==> !shared(d));
    assert(used(k) == run(items[k]));
    assert(named("steamuser"@, k) == is_user("steamuser"@)(items[k]));
    assert(shared(k) == !is_personal()(items[k]));
    if user is Some {
        lemma_first_where(items, is_user(user->0), 0);
        let c = first_where(items, is_user(user->0), 0);
        assert(c < n ==> own(c));
        assert(own(k) == is_user(user->0)(items[k]));
    }
}

/// There is no user folder in use exactly where all are shared ones, or there
/// is none: whoever ran Skyrim, Proton's and the real user's count though they
/// be named like a shared one.
pub proof fn lemma_no_user_folder(disk: DiskView, root: Seq<char>, user: Option<Seq<char>>)
    ensures
        ({
            let items = disk.items(paths::joined(paths::joined(root, "drive_c"@), "users"@));
            (forall|j: int| 0 <= j < items.len() ==> !(#[trigger] items[j]).is_dir) ==> user_dir_in(
                disk,
                root,
                user,
            ) is None
        }),
        ({
            let items = disk.items(paths::joined(paths::joined(root, "drive_c"@), "users"@));
            (exists|j: int|
                0 <= j < items.len() && (#[trigger] items[j]).is_dir && text::lowercase(
                    items[j].name,
                ) != "public"@ && text::lowercase(items[j].name) != "default"@ && text::lowercase(
                    items[j].name,
                ) != "all users"@) ==> user_dir_in(disk, root, user) is Some
        }),
{
    let users = paths::joined(paths::joined(root, "drive_c"@), "users"@);
    let items = disk.items(users);
    lemma_first_where(items, has_run_skyrim(disk, users), 0);
    lemma_first_where(items, is_user("steamuser"@), 0);
    lemma_first_where(items, is_personal(), 0);
    if user is Some {
        lemma_first_where(items, is_user(user->0), 0);
    }
    if exists|j: int|
        0 <= j < items.len() && (#[trigger] items[j]).is_dir && text::lowercase(items[j].name)
            != "public"@ && text::lowercase(items[j].name) != "default"@ && text::lowercase(
            items[j].name,
        ) != "all users"@ {
        let j = choose|j: int|
            0 <= j < items.len() && (#[trigger] items[j]).is_dir && text::lowercase(items[j].name)
                != "public"@ && text::lowercase(items[j].name) != "default"@ && text::lowercase(
                items[j].name,
            ) != "all users"@;
        assert(is_personal()(items[j]));
    }
}

/// The quoted value at the end of a line is read, whatever stands before its
/// opening quote.
pub proof fn lemma_quoted_value_is_read(front: Seq<char>, value: Seq<char>)
    requires
        text::lacks(value, '"'),
        text::trimmed(value).len() > 0,
    ensures
        last_quoted(front + seq!['"'] + value + seq!['"']) == Some(value),
{
    let open = front + seq!['"'] + value;
    let line = open + seq!['"'] + Seq::<char>::empty();
    let empty = Seq::<char>::empty();
    assert(front + seq!['"'] + value + seq!['"'] =~= line);
    text::lemma_pieces_of_two(open, empty, '"');
    text::lemma_pieces_of_two(front, value, '"');
    text::lemma_one_piece(value, '"');
    text::lemma_one_piece(empty, '"');
    let blank = is_not_blank();
    let p = text::pieces(front, '"');
    assert(text::pieces(line, '"') =~= p.push(value).push(empty));
    assert(text::trimmed(empty).len() == 0);
    assert(!blank(empty));
    assert(blank(value));
    reveal(Seq::filter);
    assert(p.push(value).push(empty).drop_last() =~= p.push(value));
    assert(p.push(value).drop_last() =~= p);
    assert(p.push(value).last() == value);
    assert(p.push(value).filter(blank) == p.filter(blank).push(value));
    assert(p.push(value).push(empty).last() == empty);
    assert(p.push(value).push(empty).filter(blank) == p.push(value).filter(blank));
}

/// Every line with the key gives its value, and no other line gives one.
pub proof fn lemma_values_of_each_line(lines: Seq<Seq<char>>, key: Seq<char>)
    ensures
        all_values(lines, key) == lines.filter(
            |l: Seq<char>|
                text::holds_at(text::trimmed(l), key, 0) && last_quoted(text::trimmed(l)) is Some,
        ).map_values(|l: Seq<char>| last_quoted(text::trimmed(l))->0),
    decreases lines.len(),
{
    let pred = |l: Seq<char>|
        text::holds_at(text::trimmed(l), key, 0) && last_quoted(text::trimmed(l)) is Some;
    let f = |l: Seq<char>| last_quoted(text::trimmed(l))->0;
    if lines.len() == 0 {
        lists::lemma_filter_map_none(lines, pred, f);
    } else {
        let t = lines.drop_last();
        lemma_values_of_each_line(t, key);
        lists::lemma_filter_map_push(t, lines.last(), pred, f);
        assert(t.push(lines.last()) =~= lines);
    }
}

/// The first line with the key gives the value, and without such a line there
/// is none.
pub proof fn lemma_value_of_the_first_line(lines: Seq<Seq<char>>, key: Seq<char>, i: int, k: int)
    requires
        0 <= i <= k <= lines.len(),
        forall|j: int| i <= j < k ==> !text::holds_at(text::trimmed(#[trigger] lines[j]), key, 0),
        k < lines.len() ==> text::holds_at(text::trimmed(lines[k]), key, 0),
    ensures
        k < lines.len() ==> first_value(lines, key, i) == last_quoted(text::trimmed(lines[k])),
        k == lines.len() ==> first_value(lines, key, i) is None,
    decreases k - i,
{
    if i < k {
        lemma_value_of_the_first_line(lines, key, i + 1, k);
    }
}

/// A folder is a prefix exactly where it has a `drive_c` and a user folder.
pub proof fn lemma_what_is_a_prefix(
    disk: DiskView,
    root: Seq<char>,
    user: Option<Seq<char>>,
    source: PrefixSourceView,
)
    ensures
        prefix_at(disk, root, user, source).len() <= 1,
        prefix_at(disk, root, user, source).len() == 1 <==> disk.is_dir(
            paths::joined(root, "drive_c"@),
        ) && user_dir_in(disk, root, user) is Some,
        prefix_at(disk, root, user, source).len() == 1 ==> {
            let p = prefix_at(disk, root, user, source)[0];
            &&& p.prefix_root == root
            &&& p.source == source
            &&& user_dir_in(disk, root, user) == Some(p.windows_user_dir)
        },
{
}

/// Every entry of a launcher's folder is looked at, the entry itself and what is
/// below it, and every entry of a Steam library.
pub proof fn lemma_every_entry_is_looked_at(
    disk: DiskView,
    root: Seq<char>,
    sub: Option<Seq<char>>,
    user: Option<Seq<char>>,
    launcher: Launcher,
    n: nat,
)
    ensures
        simple_prefixes(disk, root, sub, user, launcher, n as int) == lists::places(n).map_values(
            |k: int|
                {
                    let name = disk.items(root)[k].name;
                    let source = launcher_source(launcher, name);
                    let here = prefix_at(disk, paths::joined(root, name), user, source);
                    if sub is Some {
                        here + prefix_at(
                            disk,
                            paths::joined(paths::joined(root, name), sub->0),
                            user,
                            source,
                        )
                    } else {
                        here
                    }
                },
        ).flatten(),
        steam_prefixes_upto(disk, root, user, n as int) == lists::places(n).map_values(
            |k: int|
                {
                    let data = paths::joined(paths::joined(root, "steamapps"@), "compatdata"@);
                    let app_id = disk.items(data)[k].name;
                    prefix_at(
                        disk,
                        paths::joined(paths::joined(data, app_id), "pfx"@),
                        user,
                        PrefixSourceView::SteamProton {
                            app_id,
                            game_name: game_name_in(disk, root, app_id),
                        },
                    )
                },
        ).flatten(),
    decreases n,
{
    let f = |k: int|
        {
            let name = disk.items(root)[k].name;
            let source = launcher_source(launcher, name);
            let here = prefix_at(disk, paths::joined(root, name), user, source);
            if sub is Some {
                here + prefix_at(
                    disk,
                    paths::joined(paths::joined(root, name), sub->0),
                    user,
                    source,
                )
            } else {
                here
            }
        };
    let g = |k: int|
        {
            let data = paths::joined(paths::joined(root, "steamapps"@), "compatdata"@);
            let app_id = disk.items(data)[k].name;
            prefix_at(
                disk,
                paths::joined(paths::joined(data, app_id), "pfx"@),
                user,
                PrefixSourceView::SteamProton {
                    app_id,
                    game_name: game_name_in(disk, root, app_id),
                },
            )
        };
    let p = lists::places(n);
    if n == 0 {
        assert(p.map_values(f).flatten() =~= Seq::<WinePrefixView>::empty());
        assert(p.map_values(g).flatten() =~= Seq::<WinePrefixView>::empty());
    } else {
        let m = (n - 1) as nat;
        let t = lists::places(m);
        lemma_every_entry_is_looked_at(disk, root, sub, user, launcher, m);
        lists::lemma_places_push(m);
        assert(p.map_values(f) =~= t.map_values(f).push(f(m as int)));
        assert(p.map_values(g) =~= t.map_values(g).push(g(m as int)));
        lists::lemma_flatten_push(t.map_values(f), f(m as int));
        lists::lemma_flatten_push(t.map_values(g), g(m as int));
        assert(simple_prefixes(disk, root, sub, user, launcher, n as int) =~= p.map_values(
            f,
        ).flatten());
        assert(steam_prefixes_upto(disk, root, user, n as int) =~= p.map_values(g).flatten());
    }
}

/// Every library counts, in order.
#[verifier::spinoff_prover]
pub proof fn lemma_every_library_counts(
    disk: DiskView,
    libraries: Seq<Seq<char>>,
    user: Option<Seq<char>>,
)
    ensures
        libraries_prefixes(disk, libraries, user) == libraries.map_values(
            |l: Seq<char>| steam_prefixes(disk, l, user),
        ).flatten(),
    decreases libraries.len(),
{
    let f = |l: Seq<char>| steam_prefixes(disk, l, user);
    lists::lemma_map_flatten_last(libraries, f);
    if libraries.len() > 0 {
        lemma_every_library_counts(disk, libraries.drop_last(), user);
    }
}

/// Every Steam installation counts, with its own library and with each that it
/// names.
#[verifier::spinoff_prover]
pub proof fn lemma_every_steam_counts(
    disk: DiskView,
    roots: Seq<Seq<char>>,
    user: Option<Seq<char>>,
)
    ensures
        steam_installs_prefixes(disk, roots, user) == roots.map_values(
            |l: Seq<char>|
                steam_prefixes(disk, l, user) + libraries_prefixes(
                    disk,
                    further_libraries(disk, l),
                    user,
                ),
        ).flatten(),
    decreases roots.len(),
{
    let f = |l: Seq<char>|
        steam_prefixes(disk, l, user) + libraries_prefixes(disk, further_libraries(disk, l), user);
    lists::lemma_map_flatten_last(roots, f);
    if roots.len() > 0 {
        lemma_every_steam_counts(disk, roots.drop_last(), user);
    }
}

/// Every folder of a launcher counts.
#[verifier::spinoff_prover]
pub proof fn lemma_every_launcher_counts(
    disk: DiskView,
    folders: Seq<LauncherFolderView>,
    user: Option<Seq<char>>,
)
    ensures
        launchers_prefixes(disk, folders, user) == folders.map_values(
            |l: LauncherFolderView| launcher_prefixes(disk, l.root, l.sub, user, l.launcher),
        ).flatten(),
    decreases folders.len(),
{
    let f = |l: LauncherFolderView| launcher_prefixes(disk, l.root, l.sub, user, l.launcher);
    lists::lemma_map_flatten_last(folders, f);
    if folders.len() > 0 {
        lemma_every_launcher_counts(disk, folders.drop_last(), user);
    }
}

/// A prefix in any of the usual places is discovered: in a Steam library, in a
/// launcher's folder, as `~/.wine`, or where `WINEPREFIX` points.
pub proof fn lemma_prefixes_are_discovered(
    disk: DiskView,
    home: Seq<char>,
    user: Option<Seq<char>>,
    wineprefix: Option<Seq<char>>,
    p: WinePrefixView,
)
    ensures
        (exists|k: int, m: int|
            0 <= k < steam_folders(home).len() && 0 <= m < steam_install_prefixes(
                disk,
                steam_folders(home)[k],
                user,
            ).len() && #[trigger] steam_install_prefixes(disk, steam_folders(home)[k], user)[m]
                == p) ==> prefixes_in(disk, Some(home), user, wineprefix).contains(p),
        launchers_prefixes(disk, launcher_folders(home), user).contains(p) ==> prefixes_in(
            disk,
            Some(home),
            user,
            wineprefix,
        ).contains(p),
        prefix_at(
            disk,
            paths::joined(home, ".wine"@),
            user,
            PrefixSourceView::PlainWine,
        ).contains(p) ==> prefixes_in(disk, Some(home), user, wineprefix).contains(p),
        wineprefix is Some && prefix_at(
            disk,
            wineprefix->0,
            user,
            PrefixSourceView::Custom { path: wineprefix->0 },
        ).contains(p) ==> prefixes_in(disk, Some(home), user, wineprefix).contains(p),
{
    let roots = steam_folders(home);
    let a = steam_installs_prefixes(disk, roots, user);
    let b = launchers_prefixes(disk, launcher_folders(home), user);
    let c = prefix_at(disk, paths::joined(home, ".wine"@), user, PrefixSourceView::PlainWine);
    let all = prefixes_in(disk, Some(home), user, wineprefix);
    if exists|k: int, m: int|
        0 <= k < roots.len() && 0 <= m < steam_install_prefixes(disk, roots[k], user).len()
            && #[trigger] steam_install_prefixes(disk, roots[k], user)[m] == p {
        let (k, m) = choose|k: int, m: int|
            0 <= k < roots.len() && 0 <= m < steam_install_prefixes(disk, roots[k], user).len()
                && #[trigger] steam_install_prefixes(disk, roots[k], user)[m] == p;
        lemma_installs_hold(disk, roots, user, k);
        let at = choose|at: int| 0 <= at < a.len() && a[at] == p;
        assert(all[at] == p);
    }
    if b.contains(p) {
        let at = choose|at: int| 0 <= at < b.len() && b[at] == p;
        assert(all[a.len() + at] == p);
    }
    if c.contains(p) {
        let at = choose|at: int| 0 <= at < c.len() && c[at] == p;
        assert(all[a.len() + b.len() + at] == p);
    }
    if wineprefix is Some {
        let d = prefix_at(
            disk,
            wineprefix->0,
            user,
            PrefixSourceView::Custom { path: wineprefix->0 },
        );
        if d.contains(p) {
            let at = choose|at: int| 0 <= at < d.len() && d[at] == p;
            assert(all[a.len() + b.len() + c.len() + at] == p);
        }
    }
}

proof fn lemma_installs_hold(
    disk: DiskView,
    roots: Seq<Seq<char>>,
    user: Option<Seq<char>>,
    k: int,
)
    requires
        0 <= k < roots.len(),
    ensures
        forall|m: int|
            0 <= m < steam_install_prefixes(disk, roots[k], user).len()
                ==> steam_installs_prefixes(disk, roots, user).contains(
                #[trigger] steam_install_prefixes(disk, roots[k], user)[m],
            ),
    decreases roots.len(),
{
    let all = steam_installs_prefixes(disk, roots, user);
    let one = steam_install_prefixes(disk, roots[k], user);
    let t = roots.drop_last();
    let before = steam_installs_prefixes(disk, t, user);
    if k < t.len() {
        lemma_installs_hold(disk, t, user, k);
        assert(t[k] == roots[k]);
        assert forall|m: int| 0 <= m < one.len() implies all.contains(#[trigger] one[m]) by {
            let at = choose|at: int| 0 <= at < before.len() && before[at] == one[m];
            assert(all[at] == one[m]);
        }
    } else {
        assert forall|m: int| 0 <= m < one.len() implies all.contains(#[trigger] one[m]) by {
            assert(all[before.len() + m] == one[m]);
        }
    }
}

/// A path is within a folder exactly where it is the folder, or goes on behind
/// it with a slash.
pub proof fn lemma_what_is_within(path: Seq<char>, dir: Seq<char>, rest: Seq<char>)
    ensures
        is_within(dir, dir),
        is_within(dir + seq!['/'] + rest, dir),
        is_within(path, dir) && path.len() > dir.len() ==> path == dir + seq!['/'] + path.skip(
            dir.len() as int + 1,
        ),
        is_within(path, dir) && path.len() <= dir.len() ==> path == dir,
{
    let below = dir + seq!['/'] + rest;
    assert(below.subrange(0, dir.len() as int + 1) =~= dir + seq!['/']);
    if is_within(path, dir) && path.len() > dir.len() {
        let front = path.subrange(0, dir.len() as int + 1);
        assert(front == dir + seq!['/']);
        assert(path =~= front + path.skip(dir.len() as int + 1));
    }
}

/// The prefix of a path is one that contains it, none that contains it is
/// deeper, and there is one exactly where some prefix contains the path.
pub proof fn lemma_deepest_prefix_contains(prefixes: Seq<WinePrefixView>, path: Seq<char>)
    ensures
        match enclosing(prefixes, path) {
            Some(p) => {
                &&& prefixes.contains(p)
                &&& is_within(path, p.prefix_root)
                &&& forall|k: int|
                    0 <= k < prefixes.len() && is_within(
                        path,
                        (#[trigger] prefixes[k]).prefix_root,
                    ) ==> prefixes[k].prefix_root.len() <= p.prefix_root.len()
            },
            None => forall|k: int|
                0 <= k < prefixes.len() ==> !is_within(path, (#[trigger] prefixes[k]).prefix_root),
        },
    decreases prefixes.len(),
{
    if prefixes.len() > 0 {
        let t = prefixes.drop_last();
        lemma_deepest_prefix_contains(t, path);
        assert forall|k: int| 0 <= k < t.len() implies #[trigger] prefixes[k] == t[k] by {}
        if enclosing(t, path) is Some {
            let k = choose|k: int| 0 <= k < t.len() && t[k] == enclosing(t, path)->0;
            assert(prefixes[k] == t[k]);
        }
        assert(prefixes[prefixes.len() - 1] == prefixes.last());
    }
}

/// Of prefixes that are equally deep the first is taken.
pub proof fn lemma_first_of_equal_prefixes(prefixes: Seq<WinePrefixView>, path: Seq<char>, k: int)
    requires
        0 <= k < prefixes.len(),
        is_within(path, prefixes[k].prefix_root),
        forall|j: int|
            0 <= j < prefixes.len() && is_within(path, (#[trigger] prefixes[j]).prefix_root)
                ==> prefixes[j].prefix_root.len() <= prefixes[k].prefix_root.len(),
        forall|j: int|
            0 <= j < k && is_within(path, (#[trigger] prefixes[j]).prefix_root)
                ==> prefixes[j].prefix_root.len() < prefixes[k].prefix_root.len(),
    ensures
        enclosing(prefixes, path) == Some(prefixes[k]),
    decreases prefixes.len(),
{
    let t = prefixes.drop_last();
    let n = t.len() as int;
    assert forall|j: int| 0 <= j < n implies #[trigger] t[j] == prefixes[j] by {}
    assert(prefixes[n] == prefixes.last());
    if k < n {
        lemma_first_of_equal_prefixes(t, path, k);
    } else {
        lemma_deepest_prefix_contains(t, path);
        if enclosing(t, path) is Some {
            let j = choose|j: int| 0 <= j < t.len() && t[j] == enclosing(t, path)->0;
            assert(prefixes[j] == t[j]);
        }
    }
}

} // verus!
