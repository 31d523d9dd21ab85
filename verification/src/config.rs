//! Persisted state: every install that the person has confirmed, which one is
//! in use, and with which profile.

use crate::game::{GameInstall, GameInstallView};
use crate::lists;
use crate::paths;
use crate::text;
use vstd::prelude::*;

verus! {

/// What was found where a value is kept.
#[derive(Debug)]
pub enum Stored<T> {
    /// There is no file.
    Missing,
    /// The file holds this value.
    Parsed(T),
    /// There is a file, but it does not parse.
    Corrupt,
}

/// How loading went where the file may have been corrupt.
#[derive(Debug)]
pub enum LoadOutcome<T> {
    /// Loaded.
    Loaded(T),
    /// There was no file; the defaults are used.
    Missing(T),
    /// The file was corrupt. The defaults are used, and the broken file is
    /// moved to `backup_path`, so that nothing is lost.
    Repaired { value: T, backup_path: String },
}

/// The persisted state.
#[derive(Debug)]
pub struct Config {
    pub known_games: Vec<GameInstall>,
    pub active_game_id: Option<String>,
    pub active_profile: Option<String>,
    /// Further folders to search for installs.
    pub extra_search_paths: Vec<String>,
    /// Whether the explanation of backups has been shown.
    pub backup_intro_seen: bool,
    /// Whether mods went into the last backup.
    pub backup_include_mods: bool,
    /// Whether saves went into the last backup.
    pub backup_include_saves: bool,
}

/// The mathematical content of a [`Config`].
pub struct ConfigView {
    pub known_games: Seq<GameInstallView>,
    pub active_game_id: Option<Seq<char>>,
    pub active_profile: Option<Seq<char>>,
    pub extra_search_paths: Seq<Seq<char>>,
    pub backup_intro_seen: bool,
    pub backup_include_mods: bool,
    pub backup_include_saves: bool,
}

impl DeepView for Config {
    type V = ConfigView;

    open spec fn deep_view(&self) -> ConfigView {
        ConfigView {
            known_games: self.known_games.deep_view(),
            active_game_id: self.active_game_id.deep_view(),
            active_profile: self.active_profile.deep_view(),
            extra_search_paths: self.extra_search_paths.deep_view(),
            backup_intro_seen: self.backup_intro_seen,
            backup_include_mods: self.backup_include_mods,
            backup_include_saves: self.backup_include_saves,
        }
    }
}

/// The state of a first start.
pub open spec fn default_config() -> ConfigView {
    ConfigView {
        known_games: Seq::empty(),
        active_game_id: None,
        active_profile: None,
        extra_search_paths: Seq::empty(),
        backup_intro_seen: false,
        backup_include_mods: true,
        backup_include_saves: true,
    }
}

impl Default for Config {
    fn default() -> (r: Self)
        ensures
            r.deep_view() == default_config(),
    {
        let r = Config {
            known_games: Vec::new(),
            active_game_id: None,
            active_profile: None,
            extra_search_paths: Vec::new(),
            backup_intro_seen: false,
            backup_include_mods: true,
            backup_include_saves: true,
        };
        assert(r.known_games.deep_view() =~= Seq::<GameInstallView>::empty());
        assert(r.extra_search_paths.deep_view() =~= Seq::<Seq<char>>::empty());
        r
    }
}

/// The place of the first game with this id, or the number of games.
pub open spec fn game_at(games: Seq<GameInstallView>, id: Seq<char>, i: int) -> int
    decreases games.len() - i,
{
    if i >= games.len() || games[i].id == id {
        i
    } else {
        game_at(games, id, i + 1)
    }
}

/// The active game, if it is known.
pub open spec fn active_in(c: ConfigView) -> Option<GameInstallView> {
    match c.active_game_id {
        None => None,
        Some(id) => {
            let i = game_at(c.known_games, id, 0);
            if i < c.known_games.len() {
                Some(c.known_games[i])
            } else {
                None
            }
        },
    }
}

/// The place of the first game in this folder, or the number of games.
pub open spec fn game_in_dir(games: Seq<GameInstallView>, dir: Seq<char>, i: int) -> int
    decreases games.len() - i,
{
    if i >= games.len() || paths::same_path(games[i].install_dir, dir) {
        i
    } else {
        game_in_dir(games, dir, i + 1)
    }
}

proof fn lemma_game_at(games: Seq<GameInstallView>, id: Seq<char>, i: int)
    requires
        0 <= i <= games.len(),
    ensures
        i <= game_at(games, id, i) <= games.len(),
        game_at(games, id, i) < games.len() ==> games[game_at(games, id, i)].id == id,
        forall|j: int| i <= j < game_at(games, id, i) ==> (#[trigger] games[j]).id != id,
    decreases games.len() - i,
{
    if i < games.len() && games[i].id != id {
        lemma_game_at(games, id, i + 1);
    }
}

proof fn lemma_game_at_eq(games: Seq<GameInstallView>, id: Seq<char>, i: int, k: int)
    requires
        0 <= i <= k <= games.len(),
        k < games.len() ==> games[k].id == id,
        forall|j: int| i <= j < k ==> (#[trigger] games[j]).id != id,
    ensures
        game_at(games, id, i) == k,
    decreases k - i,
{
    if i < k {
        assert(games[i].id != id);
        lemma_game_at_eq(games, id, i + 1, k);
    }
}

proof fn lemma_game_in_dir(games: Seq<GameInstallView>, dir: Seq<char>, i: int)
    requires
        0 <= i <= games.len(),
    ensures
        i <= game_in_dir(games, dir, i) <= games.len(),
        game_in_dir(games, dir, i) < games.len() ==> paths::same_path(
            games[game_in_dir(games, dir, i)].install_dir,
            dir,
        ),
        forall|j: int|
            i <= j < game_in_dir(games, dir, i) ==> !paths::same_path(
                (#[trigger] games[j]).install_dir,
                dir,
            ),
    decreases games.len() - i,
{
    if i < games.len() && !paths::same_path(games[i].install_dir, dir) {
        lemma_game_in_dir(games, dir, i + 1);
    }
}

proof fn lemma_game_in_dir_eq(games: Seq<GameInstallView>, dir: Seq<char>, i: int, k: int)
    requires
        0 <= i <= k <= games.len(),
        k < games.len() ==> paths::same_path(games[k].install_dir, dir),
        forall|j: int|
            i <= j < k ==> !paths::same_path((#[trigger] games[j]).install_dir, dir),
    ensures
        game_in_dir(games, dir, i) == k,
    decreases k - i,
{
    if i < k {
        assert(!paths::same_path(games[i].install_dir, dir));
        lemma_game_in_dir_eq(games, dir, i + 1, k);
    }
}

/// The problems of the first `n` games.
pub open spec fn game_problems(games: Seq<GameInstallView>, n: int) -> Seq<Seq<char>>
    decreases n,
{
    if n <= 0 {
        Seq::empty()
    } else {
        let g = games[n - 1];
        let before = game_problems(games, n - 1);
        let no_dir = if g.install_dir.len() == 0 {
            before.push("known game "@ + g.id + " has empty install_dir"@)
        } else {
            before
        };
        if g.id.len() == 0 {
            no_dir.push("a known game has an empty id"@)
        } else {
            no_dir
        }
    }
}

/// Whether the active game is not one of the known ones.
pub open spec fn is_dangling(c: ConfigView) -> bool {
    match c.active_game_id {
        Some(id) => game_at(c.known_games, id, 0) == c.known_games.len(),
        None => false,
    }
}

/// The problems of a state, in words.
pub open spec fn problems_of(c: ConfigView) -> Seq<Seq<char>> {
    let dangling = if is_dangling(c) {
        seq![
            "active_game_id '"@ + c.active_game_id->0
                + "' does not match any known game — run detect-game or use-game"@,
        ]
    } else {
        Seq::empty()
    };
    dangling + game_problems(c.known_games, c.known_games.len() as int)
}

/// The state with a dangling active game replaced by the first known one.
pub open spec fn repaired(c: ConfigView) -> ConfigView {
    if is_dangling(c) {
        ConfigView {
            active_game_id: if c.known_games.len() > 0 {
                Some(c.known_games[0].id)
            } else {
                None
            },
            ..c
        }
    } else {
        c
    }
}

/// The state after a game was confirmed: one that is known in that folder is
/// updated and keeps its id, another is added; either is then active.
pub open spec fn with_game(c: ConfigView, game: GameInstallView) -> ConfigView {
    let i = game_in_dir(c.known_games, game.install_dir, 0);
    if i < c.known_games.len() {
        let id = c.known_games[i].id;
        ConfigView {
            known_games: c.known_games.update(i, (GameInstallView { id, ..game })),
            active_game_id: Some(id),
            ..c
        }
    } else {
        ConfigView {
            known_games: c.known_games.push(game),
            active_game_id: Some(game.id),
            ..c
        }
    }
}

/// The condition to be another path.
pub open spec fn differs_from(path: Seq<char>) -> spec_fn(Seq<char>) -> bool {
    |p: Seq<char>| !paths::same_path(p, path)
}

/// Whether one of the paths is the same.
pub open spec fn lists_path(list: Seq<Seq<char>>, path: Seq<char>) -> bool {
    exists|k: int| 0 <= k < list.len() && paths::same_path(#[trigger] list[k], path)
}

impl Config {
    /// What to go on with, given what was found where the state is kept: the
    /// defaults where nothing was, and where what was there does not parse,
    /// with the broken file set aside.
    pub fn load_with_repair(found: Stored<Config>, root: &str, now: u64) -> (r: LoadOutcome<Config>)
        ensures
            match found {
                Stored::Missing => r matches LoadOutcome::Missing(c) && c.deep_view()
                    == default_config(),
                Stored::Parsed(c) => r == LoadOutcome::Loaded(c),
                Stored::Corrupt => r matches LoadOutcome::Repaired { value, backup_path }
                    && value.deep_view() == default_config() && backup_path@ == paths::joined(
                    root@,
                    "config.json.corrupt."@ + text::decimal(now as nat),
                ),
            },
    {
        match found {
            Stored::Missing => LoadOutcome::Missing(Config::default()),
            Stored::Parsed(c) => LoadOutcome::Loaded(c),
            Stored::Corrupt => {
                let name = text::concat("config.json.corrupt.", text::number_text(now).as_str());
                LoadOutcome::Repaired {
                    value: Config::default(),
                    backup_path: paths::join(root, name.as_str()),
                }
            },
        }
    }

    /// The state that loading gives, and the warning to show where what was
    /// kept had to be set aside.
    pub fn load(outcome: LoadOutcome<Config>) -> (r: (Config, Option<String>))
        ensures
            match outcome {
                LoadOutcome::Loaded(c) => r.0 == c && r.1 is None,
                LoadOutcome::Missing(c) => r.0 == c && r.1 is None,
                LoadOutcome::Repaired { value, backup_path } => r.0 == value && r.1 is Some && (
                r.1->0)@
                    == "config.json was corrupt and has been reset to defaults. Broken file kept at "@
                    + backup_path@ + " — re-run detect-game to re-register installs."@,
            },
    {
        match outcome {
            LoadOutcome::Loaded(c) => (c, None),
            LoadOutcome::Missing(c) => (c, None),
            LoadOutcome::Repaired { value, backup_path } => {
                let warning = text::concat3(
                    "config.json was corrupt and has been reset to defaults. Broken file kept at ",
                    backup_path.as_str(),
                    " — re-run detect-game to re-register installs.",
                );
                (value, Some(warning))
            },
        }
    }

    fn place_of(&self, id: &str) -> (i: usize)
        ensures
            i <= self.known_games@.len(),
            i == game_at(self.deep_view().known_games, id@, 0),
    {
        let ghost games = self.deep_view().known_games;
        let mut i: usize = 0;
        while i < self.known_games.len() && !text::same_text(self.known_games[i].id.as_str(), id)
            invariant
                i <= self.known_games@.len(),
                games == self.deep_view().known_games,
                game_at(games, id@, 0) == game_at(games, id@, i as int),
            decreases self.known_games.len() - i,
        {
            i += 1;
        }
        i
    }

    /// Whether the active game is not one of the known ones.
    fn dangles(&self) -> (r: bool)
        ensures
            r == is_dangling(self.deep_view()),
    {
        match &self.active_game_id {
            Some(id) => self.place_of(id.as_str()) == self.known_games.len(),
            None => false,
        }
    }

    /// What is wrong with the state, in words; nothing where it is sound.
    pub fn validate(&self) -> (r: Vec<String>)
        ensures
            r.deep_view() == problems_of(self.deep_view()),
    {
        let ghost c = self.deep_view();
        let mut out: Vec<String> = Vec::new();
        assert(out.deep_view() =~= Seq::<Seq<char>>::empty());
        if self.dangles() {
            if let Some(id) = &self.active_game_id {
                let problem = text::concat3(
                    "active_game_id '",
                    id.as_str(),
                    "' does not match any known game — run detect-game or use-game",
                );
                out.push(problem);
                assert(out.deep_view() =~= seq![problem@]);
            }
        }
        let ghost first = out.deep_view();
        let ghost games = c.known_games;
        let mut i: usize = 0;
        assert(first + game_problems(games, 0) =~= first);
        while i < self.known_games.len()
            invariant
                i <= self.known_games@.len(),
                games == self.known_games.deep_view(),
                out.deep_view() == first + game_problems(games, i as int),
            decreases self.known_games.len() - i,
        {
            let g = &self.known_games[i];
            let ghost before = out.deep_view();
            if g.install_dir.as_str().is_empty() {
                let problem = text::concat3("known game ", g.id.as_str(), " has empty install_dir");
                out.push(problem);
                assert(out.deep_view() =~= before.push(problem@));
            }
            let ghost middle = out.deep_view();
            if g.id.as_str().is_empty() {
                out.push("a known game has an empty id".to_owned());
                assert(out.deep_view() =~= middle.push("a known game has an empty id"@));
            }
            i += 1;
            assert(out.deep_view() =~= first + game_problems(games, i as int));
        }
        out
    }

    /// Replaces a dangling active game by the first known one, or by none.
    pub fn repair_in_memory(&mut self)
        ensures
            final(self).deep_view() == repaired(old(self).deep_view()),
    {
        if self.dangles() {
            self.active_game_id = if self.known_games.len() > 0 {
                Some(self.known_games[0].id.clone())
            } else {
                None
            };
        }
    }

    /// Remembers a confirmed install and makes it active. One that is known in
    /// that folder is updated and keeps its id.
    pub fn remember_game(&mut self, game: GameInstall)
        ensures
            final(self).deep_view() == with_game(old(self).deep_view(), game.deep_view()),
    {
        let ghost before = self.deep_view();
        let ghost gv = game.deep_view();
        let mut i: usize = 0;
        while i < self.known_games.len() && !paths::are_same(
            self.known_games[i].install_dir.as_str(),
            game.install_dir.as_str(),
        )
            invariant
                i <= self.known_games@.len(),
                before == self.deep_view(),
                game_in_dir(before.known_games, game.install_dir@, 0) == game_in_dir(
                    before.known_games,
                    game.install_dir@,
                    i as int,
                ),
            decreases self.known_games.len() - i,
        {
            i += 1;
        }
        if i < self.known_games.len() {
            let id = self.known_games[i].id.clone();
            let mut updated = game;
            updated.id = id.clone();
            let ghost uv = updated.deep_view();
            self.known_games.set(i, updated);
            self.active_game_id = Some(id);
            assert(self.known_games.deep_view() =~= before.known_games.update(i as int, uv));
        } else {
            self.active_game_id = Some(game.id.clone());
            self.known_games.push(game);
            assert(self.known_games.deep_view() =~= before.known_games.push(gv));
        }
    }

    /// The active game, if it is known.
    pub fn active_game(&self) -> (r: Option<&GameInstall>)
        ensures
            match r {
                Some(g) => active_in(self.deep_view()) == Some(g.deep_view()),
                None => active_in(self.deep_view()) is None,
            },
            match self.active_game_id {
                None => r is None,
                Some(id) => {
                    let i = game_at(self.deep_view().known_games, id@, 0);
                    if i < self.known_games@.len() {
                        r == Some(&self.known_games@[i])
                    } else {
                        r is None
                    }
                },
            },
    {
        match &self.active_game_id {
            None => None,
            Some(id) => {
                let i: usize = self.place_of(id.as_str());
                if i < self.known_games.len() {
                    Some(&self.known_games[i])
                } else {
                    None
                }
            },
        }
    }

    /// Adds a folder to search, unless it is there.
    pub fn add_search_path(&mut self, path: String)
        ensures
            final(self).deep_view() == ({
                let c = old(self).deep_view();
                if lists_path(c.extra_search_paths, path@) {
                    c
                } else {
                    ConfigView { extra_search_paths: c.extra_search_paths.push(path@), ..c }
                }
            }),
    {
        let ghost list = self.extra_search_paths.deep_view();
        let mut i: usize = 0;
        while i < self.extra_search_paths.len()
            invariant
                i <= self.extra_search_paths@.len(),
                self.deep_view() == old(self).deep_view(),
                list == self.extra_search_paths.deep_view(),
                forall|k: int| 0 <= k < i ==> !paths::same_path(#[trigger] list[k], path@),
            decreases self.extra_search_paths.len() - i,
        {
            if paths::are_same(self.extra_search_paths[i].as_str(), path.as_str()) {
                assert(paths::same_path(list[i as int], path@));
                return ;
            }
            i += 1;
        }
        self.extra_search_paths.push(path);
        assert(self.extra_search_paths.deep_view() =~= list.push(path@));
    }

    /// Takes a folder out of those to search.
    pub fn remove_search_path(&mut self, path: &str)
        ensures
            final(self).deep_view() == (ConfigView {
                extra_search_paths: old(self).deep_view().extra_search_paths.filter(
                    differs_from(path@),
                ),
                ..old(self).deep_view()
            }),
    {
        let ghost list = self.extra_search_paths.deep_view();
        let mut kept: Vec<String> = Vec::new();
        let mut i: usize = 0;
        reveal(Seq::filter);
        assert(list.take(0) =~= Seq::<Seq<char>>::empty());
        assert(kept.deep_view() =~= Seq::<Seq<char>>::empty());
        while i < self.extra_search_paths.len()
            invariant
                i <= self.extra_search_paths@.len(),
                self.deep_view() == old(self).deep_view(),
                list == self.extra_search_paths.deep_view(),
                kept.deep_view() == list.take(i as int).filter(differs_from(path@)),
            decreases self.extra_search_paths.len() - i,
        {
            reveal(Seq::filter);
            assert(list.take(i + 1).drop_last() =~= list.take(i as int));
            assert(list.take(i + 1).last() == self.extra_search_paths@[i as int]@);
            if !paths::are_same(self.extra_search_paths[i].as_str(), path) {
                let ghost before = kept.deep_view();
                kept.push(self.extra_search_paths[i].clone());
                assert(kept.deep_view() =~= before.push(list[i as int]));
            }
            i += 1;
        }
        assert(list.take(i as int) =~= list);
        self.extra_search_paths = kept;
    }
}

// ---------------------------------------------------------------------------
// Laws
// ---------------------------------------------------------------------------

/// After a repair the active game is known, or there is none.
pub proof fn lemma_repaired_does_not_dangle(c: ConfigView)
    ensures
        !is_dangling(repaired(c)),
{
    if is_dangling(c) && c.known_games.len() > 0 {
        lemma_game_at_eq(c.known_games, c.known_games[0].id, 0, 0);
    }
}

/// Repairing what is repaired changes nothing.
pub proof fn lemma_repair_twice(c: ConfigView)
    ensures
        repaired(repaired(c)) == repaired(c),
{
    lemma_repaired_does_not_dangle(c);
}

/// A remembered game is active, and known in its folder.
pub proof fn lemma_remembered_is_active(c: ConfigView, game: GameInstallView)
    ensures
        ({
            let after = with_game(c, game);
            let i = game_in_dir(after.known_games, game.install_dir, 0);
            &&& i < after.known_games.len()
            &&& after.active_game_id == Some(after.known_games[i].id)
            &&& after.known_games[i].edition == game.edition
            &&& after.known_games[i].data_dir == game.data_dir
            &&& after.known_games[i].plugins_txt == game.plugins_txt
            &&& !is_dangling(after)
        }),
{
    let after = with_game(c, game);
    let i = game_in_dir(c.known_games, game.install_dir, 0);
    lemma_game_in_dir(c.known_games, game.install_dir, 0);
    assert forall|j: int| 0 <= j < i implies !paths::same_path(
        (#[trigger] after.known_games[j]).install_dir,
        game.install_dir,
    ) by {
        assert(after.known_games[j] == c.known_games[j]);
    }
    lemma_game_in_dir_eq(after.known_games, game.install_dir, 0, i);
    lemma_game_at(after.known_games, after.known_games[i].id, 0);
}

/// A game that is remembered again keeps the id under which it was first
/// known, whatever id it comes with.
pub proof fn lemma_remembered_keeps_id(c: ConfigView, game: GameInstallView)
    requires
        game_in_dir(c.known_games, game.install_dir, 0) < c.known_games.len(),
    ensures
        ({
            let i = game_in_dir(c.known_games, game.install_dir, 0);
            let after = with_game(c, game);
            after.known_games.len() == c.known_games.len() && after.known_games[i].id
                == c.known_games[i].id
        }),
{
    lemma_game_in_dir(c.known_games, game.install_dir, 0);
}

/// Remembering a game twice is remembering it once.
pub proof fn lemma_remember_twice(c: ConfigView, game: GameInstallView)
    ensures
        with_game(with_game(c, game), game) == with_game(c, game),
{
    let once = with_game(c, game);
    let i = game_in_dir(c.known_games, game.install_dir, 0);
    lemma_game_in_dir(c.known_games, game.install_dir, 0);
    assert forall|j: int| 0 <= j < i implies !paths::same_path(
        (#[trigger] once.known_games[j]).install_dir,
        game.install_dir,
    ) by {
        assert(once.known_games[j] == c.known_games[j]);
    }
    lemma_game_in_dir_eq(once.known_games, game.install_dir, 0, i);
    assert(with_game(once, game).known_games =~= once.known_games);
}

/// Remembering a game enters it in the place of the first known one in its
/// folder, which keeps its id, or behind all others; it is then the active game,
/// and nothing else changes. The ids of known games are to differ, and a game in
/// a new folder is to come with a new id.
pub proof fn lemma_remember_game(c: ConfigView, game: GameInstallView)
    requires
        forall|a: int, b: int|
            0 <= a < b < c.known_games.len() ==> (#[trigger] c.known_games[a]).id != (
            #[trigger] c.known_games[b]).id,
        game_in_dir(c.known_games, game.install_dir, 0) == c.known_games.len() ==> game_at(
            c.known_games,
            game.id,
            0,
        ) == c.known_games.len(),
    ensures
        ({
            let old = c.known_games;
            let i = game_in_dir(old, game.install_dir, 0);
            let after = with_game(c, game);
            &&& i < old.len() ==> after.known_games == old.update(
                i,
                (GameInstallView { id: old[i].id, ..game }),
            )
            &&& i == old.len() ==> after.known_games == old.push(game)
            &&& active_in(after) == Some(after.known_games[i])
            &&& after.known_games[i].install_dir == game.install_dir
            &&& after == (ConfigView {
                known_games: after.known_games,
                active_game_id: after.active_game_id,
                ..c
            })
            &&& with_game(after, game).known_games.len() == after.known_games.len()
        }),
{
    let old = c.known_games;
    let i = game_in_dir(old, game.install_dir, 0);
    let after = with_game(c, game);
    lemma_game_in_dir(old, game.install_dir, 0);
    lemma_game_at(old, game.id, 0);
    let id = after.known_games[i].id;
    assert forall|j: int| 0 <= j < i implies (#[trigger] after.known_games[j]).id != id by {
        assert(after.known_games[j] == old[j]);
        if i < old.len() {
            assert(old[j].id != old[i].id);
        }
    }
    lemma_game_at_eq(after.known_games, id, 0, i);
    lemma_remember_twice(c, game);
}

/// A folder that was removed is no longer listed.
pub proof fn lemma_removed_path_is_gone(list: Seq<Seq<char>>, path: Seq<char>)
    ensures
        !lists_path(list.filter(differs_from(path)), path),
    decreases list.len(),
{
    reveal(Seq::filter);
    let kept = list.filter(differs_from(path));
    if list.len() > 0 {
        let before = list.drop_last().filter(differs_from(path));
        lemma_removed_path_is_gone(list.drop_last(), path);
        assert forall|k: int| 0 <= k < kept.len() implies !paths::same_path(
            #[trigger] kept[k],
            path,
        ) by {
            if k < before.len() {
                assert(kept[k] == before[k]);
            }
        }
    }
}

/// Taking a folder out of those to search leaves all that are not the same, in
/// their order.
pub proof fn lemma_other_paths_stay(list: Seq<Seq<char>>, path: Seq<char>)
    ensures
        list.filter(differs_from(path)) == list.filter(
            |p: Seq<char>| !paths::same_path(p, path),
        ),
{
    let pred = |p: Seq<char>| !paths::same_path(p, path);
    assert(differs_from(path) =~= pred);
}

/// A repair touches nothing but an active game that is not known: that becomes
/// the first known one, or none where there is none.
pub proof fn lemma_repair_touches_the_active_game_only(c: ConfigView, id: Seq<char>)
    requires
        c.active_game_id == Some(id),
    ensures
        repaired(c) == (ConfigView { active_game_id: repaired(c).active_game_id, ..c }),
        (exists|k: int| 0 <= k < c.known_games.len() && (#[trigger] c.known_games[k]).id == id)
            ==> repaired(c) == c && !is_dangling(c),
        (forall|k: int| 0 <= k < c.known_games.len() ==> (#[trigger] c.known_games[k]).id != id)
            ==> is_dangling(c) && repaired(c).active_game_id == (if c.known_games.len() > 0 {
            Some(c.known_games[0].id)
        } else {
            None
        }),
{
    lemma_game_at(c.known_games, id, 0);
}

/// A state has a problem exactly where the active game is not known or a known
/// game has no folder or no id.
pub proof fn lemma_sound_state_has_no_problems(c: ConfigView)
    ensures
        problems_of(c).len() == 0 <==> !is_dangling(c) && forall|k: int|
            0 <= k < c.known_games.len() ==> (#[trigger] c.known_games[k]).install_dir.len() > 0
                && c.known_games[k].id.len() > 0,
{
    lemma_game_problems(c.known_games, c.known_games.len() as int);
}

proof fn lemma_game_problems(games: Seq<GameInstallView>, n: int)
    requires
        0 <= n <= games.len(),
    ensures
        game_problems(games, n).len() == 0 <==> forall|k: int|
            0 <= k < n ==> (#[trigger] games[k]).install_dir.len() > 0 && games[k].id.len() > 0,
    decreases n,
{
    if n > 0 {
        lemma_game_problems(games, n - 1);
    }
}

/// Every known game is looked at: its problems come in the order of the games,
/// and those of one game do not depend on the others.
pub proof fn lemma_problems_of_each_game(games: Seq<GameInstallView>, n: int)
    requires
        0 <= n <= games.len(),
    ensures
        game_problems(games, n) == Seq::new(
            n as nat,
            |k: int|
                (if games[k].install_dir.len() == 0 {
                    seq!["known game "@ + games[k].id + " has empty install_dir"@]
                } else {
                    Seq::empty()
                }) + (if games[k].id.len() == 0 {
                    seq!["a known game has an empty id"@]
                } else {
                    Seq::empty()
                }),
        ).flatten(),
    decreases n,
{
    let f = |k: int|
        (if games[k].install_dir.len() == 0 {
            seq!["known game "@ + games[k].id + " has empty install_dir"@]
        } else {
            Seq::empty()
        }) + (if games[k].id.len() == 0 {
            seq!["a known game has an empty id"@]
        } else {
            Seq::empty()
        });
    if n == 0 {
        assert(game_problems(games, n) =~= Seq::new(0nat, f).flatten());
    } else {
        lemma_problems_of_each_game(games, n - 1);
        let before = Seq::new((n - 1) as nat, f);
        assert(Seq::new(n as nat, f) =~= before.push(f(n - 1)));
        lists::lemma_flatten_push(before, f(n - 1));
        assert(game_problems(games, n) =~= game_problems(games, n - 1) + f(n - 1));
    }
}

} // verus!
