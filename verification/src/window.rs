//! What the window decides: which tab is shown, what is picked in lists, and
//! what a click leads to.

use crate::backup::{BackupResult, BackupSelection, BackupSelectionView};
use crate::commands;
use crate::profile;
use crate::profile::Profile;
use crate::saves::{SaveFile, SaveFileView};
use crate::store::ModEntry;
use crate::text;
use vstd::prelude::*;

verus! {

// ---------------------------------------------------------------------------
// Picks
// ---------------------------------------------------------------------------

/// Names that are picked in a list, each once.
#[derive(Debug)]
pub struct Picks {
    names: Vec<String>,
}

impl Picks {
    #[verifier::type_invariant]
    spec fn well_formed(self) -> bool {
        self.names.deep_view().no_duplicates()
    }

    /// The names that are picked, in the order in which they were.
    pub closed spec fn list(&self) -> Seq<Seq<char>> {
        self.names.deep_view()
    }

    /// The names that are picked.
    pub open spec fn view(&self) -> Set<Seq<char>> {
        self.list().to_set()
    }

    /// Nothing picked.
    pub fn new() -> (r: Self)
        ensures
            r@ == Set::<Seq<char>>::empty(),
            r.list() == Seq::<Seq<char>>::empty(),
    {
        let names: Vec<String> = Vec::new();
        assert(names.deep_view() =~= Seq::<Seq<char>>::empty());
        let r = Picks { names };
        assert(r.list().to_set() =~= Set::<Seq<char>>::empty());
        r
    }

    /// How many names are picked.
    pub fn len(&self) -> (r: usize)
        ensures
            r == self@.len(),
            self@.finite(),
    {
        proof {
            use_type_invariant(self);
            self.list().unique_seq_to_set();
        }
        self.names.len()
    }

    /// Whether a name is picked.
    pub fn contains(&self, name: &str) -> (r: bool)
        ensures
            r == self@.contains(name@),
    {
        text::is_in(&self.names, name)
    }

    /// Picks a name.
    pub fn insert(&mut self, name: &str)
        ensures
            final(self)@ == old(self)@.insert(name@),
            final(self).list() == (if old(self)@.contains(name@) {
                old(self).list()
            } else {
                old(self).list().push(name@)
            }),
    {
        proof {
            use_type_invariant(&*self);
        }
        let ghost before = self.names.deep_view();
        if !text::is_in(&self.names, name) {
            let mut names: Vec<String> = Vec::new();
            assert(names.deep_view() =~= Seq::<Seq<char>>::empty());
            std::mem::swap(&mut names, &mut self.names);
            names.push(name.to_owned());
            assert(names.deep_view() =~= before.push(name@));
            self.names = names;
        }
        proof {
            lemma_push_to_set(before, name@);
            if before.contains(name@) {
                assert(before.to_set() =~= before.to_set().insert(name@));
            }
        }
    }

    /// Picks nothing any more.
    pub fn clear(&mut self)
        ensures
            final(self)@ == Set::<Seq<char>>::empty(),
            final(self).list() == Seq::<Seq<char>>::empty(),
    {
        *self = Picks::new();
    }

    /// Keeps the picks that meet a condition: those that are in `list`, or
    /// those that are not.
    fn keep(&mut self, list: &Vec<String>, in_list: bool)
        ensures
            final(self)@ == old(self)@.filter(|s: Seq<char>| list.deep_view().contains(s) == in_list),
    {
        let ghost all = self.list();
        let ghost lv = list.deep_view();
        let mut kept = Picks::new();
        let mut i: usize = 0;
        proof {
            assert(kept@ =~= all.take(0).to_set().filter(
                |s: Seq<char>| lv.contains(s) == in_list,
            ));
        }
        while i < self.names.len()
            invariant
                i <= self.names@.len(),
                all == self.names.deep_view(),
                lv == list.deep_view(),
                kept@ == all.take(i as int).to_set().filter(
                    |s: Seq<char>| lv.contains(s) == in_list,
                ),
            decreases self.names.len() - i,
        {
            let ghost before = all.take(i as int).to_set();
            let ghost after = all.take(i + 1).to_set();
            proof {
                assert(all.take(i + 1) =~= all.take(i as int).push(all[i as int]));
                lemma_push_to_set(all.take(i as int), all[i as int]);
            }
            if text::is_in(list, self.names[i].as_str()) == in_list {
                kept.insert(self.names[i].as_str());
            }
            i += 1;
            assert(kept@ =~= after.filter(|s: Seq<char>| lv.contains(s) == in_list));
        }
        assert(all.take(i as int) =~= all);
        *self = kept;
    }

    /// Picks a name no more.
    pub fn remove(&mut self, name: &str)
        ensures
            final(self)@ == old(self)@.remove(name@),
    {
        let one = vec![name.to_owned()];
        let ghost ov = one.deep_view();
        self.keep(&one, false);
        proof {
            assert(ov =~= seq![name@]);
            assert(self@ =~= old(self)@.remove(name@)) by {
                assert forall|s: Seq<char>| ov.contains(s) == (s == name@) by {
                    assert(ov[0] == name@);
                }
            }
        }
    }

    /// Keeps only the picks that are in the list.
    pub fn retain(&mut self, list: &Vec<String>)
        ensures
            final(self)@ == old(self)@.intersect(list.deep_view().to_set()),
    {
        self.keep(list, true);
        assert(self@ =~= old(self)@.intersect(list.deep_view().to_set()));
    }

    /// Picks exactly the names in a list.
    pub fn select_all(&mut self, list: &Vec<String>)
        ensures
            final(self)@ == list.deep_view().to_set(),
    {
        let ghost lv = list.deep_view();
        let mut picks = Picks::new();
        let mut i: usize = 0;
        assert(picks@ =~= lv.take(0).to_set());
        while i < list.len()
            invariant
                i <= list@.len(),
                lv == list.deep_view(),
                picks@ == lv.take(i as int).to_set(),
            decreases list.len() - i,
        {
            picks.insert(list[i].as_str());
            proof {
                assert(lv.take(i + 1) =~= lv.take(i as int).push(lv[i as int]));
                lemma_push_to_set(lv.take(i as int), lv[i as int]);
            }
            i += 1;
        }
        assert(lv.take(i as int) =~= lv);
        *self = picks;
    }

    /// The names that are picked, in the order in which they were.
    pub fn names(&self) -> (r: Vec<String>)
        ensures
            r.deep_view() == self.list(),
    {
        text::copy_list(&self.names)
    }
}

proof fn lemma_push_contains<A>(s: Seq<A>, x: A, y: A)
    ensures
        s.push(x).contains(y) == (s.contains(y) || y == x),
{
    let t = s.push(x);
    if s.contains(y) {
        let k = choose|k: int| 0 <= k < s.len() && s[k] == y;
        assert(t[k] == y);
    }
    if y == x {
        assert(t[t.len() - 1] == y);
    }
    if t.contains(y) {
        let k = choose|k: int| 0 <= k < t.len() && t[k] == y;
        if k < s.len() {
            assert(s[k] == y);
        }
    }
}

proof fn lemma_push_to_set<A>(s: Seq<A>, x: A)
    ensures
        s.push(x).to_set() == s.to_set().insert(x),
{
    assert forall|y: A| s.push(x).to_set().contains(y) == s.to_set().insert(x).contains(y) by {
        lemma_push_contains(s, x, y);
    }
    assert(s.push(x).to_set() =~= s.to_set().insert(x));
}

/// Turns picking some of a list on or off. Where it is turned on and nothing is
/// picked, all are.
pub fn toggle_pick(picks: &mut Picks, pick: bool, all: &Vec<String>)
    ensures
        final(picks)@ == (if pick && old(picks)@.len() == 0 {
            all.deep_view().to_set()
        } else {
            old(picks)@
        }),
{
    if pick && picks.len() == 0 {
        picks.select_all(all);
    }
}

/// What a backup is to hold, from what is ticked and picked in the window: all
/// where picking is off.
pub open spec fn selection_of(
    include_mods: bool,
    pick_mods: bool,
    mod_ids: Seq<Seq<char>>,
    include_saves: bool,
    pick_saves: bool,
    save_names: Seq<Seq<char>>,
) -> BackupSelectionView {
    BackupSelectionView {
        include_mods,
        mod_ids: if include_mods && pick_mods {
            mod_ids
        } else {
            Seq::empty()
        },
        include_saves,
        save_names: if include_saves && pick_saves {
            save_names
        } else {
            Seq::empty()
        },
    }
}

/// What a backup is to hold, from what is ticked and picked in the window.
pub fn backup_selection(
    include_mods: bool,
    pick_mods: bool,
    mod_ids: &Picks,
    include_saves: bool,
    pick_saves: bool,
    save_names: &Picks,
) -> (r: BackupSelection)
    ensures
        r.deep_view() == selection_of(
            include_mods,
            pick_mods,
            mod_ids.list(),
            include_saves,
            pick_saves,
            save_names.list(),
        ),
{
    let mut r = BackupSelection {
        include_mods,
        mod_ids: Vec::new(),
        include_saves,
        save_names: Vec::new(),
    };
    if include_mods && pick_mods {
        r.mod_ids = mod_ids.names();
    } else {
        assert(r.mod_ids.deep_view() =~= Seq::<Seq<char>>::empty());
    }
    if include_saves && pick_saves {
        r.save_names = save_names.names();
    } else {
        assert(r.save_names.deep_view() =~= Seq::<Seq<char>>::empty());
    }
    r
}

/// The saves that are picked, in the order in which they are listed.
pub open spec fn picked_of(saves: Seq<SaveFileView>, picks: Set<Seq<char>>) -> Seq<SaveFileView>
    decreases saves.len(),
{
    if saves.len() == 0 {
        Seq::empty()
    } else {
        let before = picked_of(saves.drop_last(), picks);
        if picks.contains(saves.last().name) {
            before.push(saves.last())
        } else {
            before
        }
    }
}

/// The saves that are picked, in the order in which they are listed.
pub fn picked_saves(saves: &Vec<SaveFile>, picks: &Picks) -> (r: Vec<SaveFile>)
    ensures
        r.deep_view() == picked_of(saves.deep_view(), picks@),
{
    let ghost sv = saves.deep_view();
    let mut out: Vec<SaveFile> = Vec::new();
    let mut i: usize = 0;
    assert(sv.take(0) =~= Seq::<SaveFileView>::empty());
    assert(out.deep_view() =~= Seq::<SaveFileView>::empty());
    while i < saves.len()
        invariant
            i <= saves@.len(),
            sv == saves.deep_view(),
            out.deep_view() == picked_of(sv.take(i as int), picks@),
        decreases saves.len() - i,
    {
        assert(sv.take(i + 1).drop_last() =~= sv.take(i as int));
        assert(sv.take(i + 1).last() == saves@[i as int].deep_view());
        if picks.contains(saves[i].name.as_str()) {
            let ghost before = out.deep_view();
            out.push(saves[i].copy());
            assert(out.deep_view() =~= before.push(sv[i as int]));
        }
        i += 1;
    }
    assert(sv.take(i as int) =~= sv);
    out
}

/// Whether a mod is shown where this is typed into the search field.
pub fn shows_mod(m: &ModEntry, typed: &str) -> (r: bool)
    ensures
        r == (text::lowercase(typed@).len() == 0 || commands::mentions(
            m.deep_view(),
            text::lowercase(typed@),
        )),
{
    let term = text::to_lowercase(typed);
    term.as_str().is_empty() || commands::mod_mentions(m, term.as_str())
}

/// Whether a mod is enabled in a profile.
pub open spec fn is_enabled(order: Seq<profile::ProfileModEntryView>, id: Seq<char>) -> bool {
    let i = profile::entry_at(order, id, 0);
    i < order.len() && order[i].enabled
}

/// Whether a mod is enabled in a profile.
pub fn mod_is_enabled(p: &Profile, id: &str) -> (r: bool)
    ensures
        r == is_enabled(p.deep_view().mod_order, id@),
{
    let i: usize = p.place_of(id);
    if i < p.mod_order.len() {
        assert(p.deep_view().mod_order[i as int] == p.mod_order@[i as int].deep_view());
        p.mod_order[i].enabled
    } else {
        false
    }
}

/// What is said of a finished backup. `size` is its size in words.
pub fn backup_status(result: &BackupResult, size: &str) -> (r: String)
    ensures
        r@ == "Backup complete: "@ + text::decimal(result.mods_backed_up as nat) + " mod(s), "@
            + text::decimal(result.saves_backed_up as nat) + " save(s), "@ + text::decimal(
            result.total_files as nat,
        ) + " file(s) ("@ + size@ + ") → "@ + result.dest@,
{
    let mut out = text::concat3(
        "Backup complete: ",
        text::number_text(result.mods_backed_up as u64).as_str(),
        " mod(s), ",
    );
    out.append(text::number_text(result.saves_backed_up as u64).as_str());
    out.append(" save(s), ");
    out.append(text::number_text(result.total_files).as_str());
    out.append(" file(s) (");
    out.append(size);
    out.append(") → ");
    out.append(result.dest.as_str());
    out
}

// ---------------------------------------------------------------------------
// Clicks
// ---------------------------------------------------------------------------

/// The tabs.
#[derive(Debug, Clone, Copy, PartialEq, Eq, Structural)]
pub enum Tab {
    Mods,
    Profile,
    Saves,
    Backup,
    Deploy,
}

/// What is shown.
#[derive(Debug, Clone, Copy, PartialEq, Eq, Structural)]
pub struct Shown {
    pub tab: Tab,
    /// Whether the list of saves is up to date.
    pub saves_loaded: bool,
    /// Whether a person is asked to pick a game.
    pub game_picker: bool,
    /// Whether the introduction to backups is open.
    pub backup_intro: bool,
    /// Whether it was seen.
    pub intro_seen: bool,
}

/// What happens in the window.
#[derive(Debug, Clone, Copy, PartialEq, Eq, Structural)]
pub enum Click {
    Tab(Tab),
    /// The button that leads to backups.
    Backup,
    /// The button that makes one.
    CreateBackup,
    ShowIntro,
    IntroAccepted,
    IntroCancelled,
    /// A game was picked.
    GamePicked,
    PickerCancelled,
    /// A scan found so many games.
    Detected(usize),
}

/// What is to be done then.
#[derive(Debug, Clone, Copy, PartialEq, Eq, Structural)]
pub struct Effects {
    /// Read the list of saves.
    pub load_saves: bool,
    /// Note down that the introduction was seen.
    pub note_intro: bool,
    /// Remember the game that was picked or found.
    pub remember_game: bool,
    /// Make a backup.
    pub run_backup: bool,
}

/// Nothing to be done.
pub open spec fn no_effects() -> Effects {
    Effects { load_saves: false, note_intro: false, remember_game: false, run_backup: false }
}

/// A tab opened: the tabs that show saves want the list.
pub open spec fn opened(s: Shown, tab: Tab) -> (Shown, Effects) {
    let wants = (tab is Saves || tab is Backup) && !s.saves_loaded;
    (
        Shown { tab, saves_loaded: s.saves_loaded || wants, ..s },
        Effects { load_saves: wants, ..no_effects() },
    )
}

/// What a click leads to.
pub open spec fn after_click(s: Shown, click: Click) -> (Shown, Effects) {
    match click {
        Click::Tab(tab) => opened(s, tab),
        Click::Backup => if s.intro_seen {
            opened(s, Tab::Backup)
        } else {
            (Shown { backup_intro: true, ..s }, no_effects())
        },
        Click::CreateBackup => if s.intro_seen {
            (s, Effects { run_backup: true, ..no_effects() })
        } else {
            (Shown { backup_intro: true, ..s }, no_effects())
        },
        Click::ShowIntro => (Shown { backup_intro: true, ..s }, no_effects()),
        Click::IntroAccepted => {
            let (t, e) = opened(
                Shown { backup_intro: false, intro_seen: true, ..s },
                Tab::Backup,
            );
            (t, Effects { note_intro: true, ..e })
        },
        Click::IntroCancelled => (
            Shown { backup_intro: false, intro_seen: true, ..s },
            Effects { note_intro: true, ..no_effects() },
        ),
        Click::GamePicked => (
            Shown { game_picker: false, saves_loaded: false, ..s },
            Effects { remember_game: true, ..no_effects() },
        ),
        Click::PickerCancelled => (Shown { game_picker: false, ..s }, no_effects()),
        Click::Detected(n) => if n == 0 {
            (s, no_effects())
        } else if n == 1 {
            (
                Shown { saves_loaded: false, ..s },
                Effects { remember_game: true, ..no_effects() },
            )
        } else {
            (Shown { game_picker: true, ..s }, no_effects())
        },
    }
}

impl Shown {
    fn open(&mut self, tab: Tab) -> (r: Effects)
        ensures
            (*final(self), r) == opened(*old(self), tab),
    {
        let wants = (tab == Tab::Saves || tab == Tab::Backup) && !self.saves_loaded;
        self.tab = tab;
        self.saves_loaded = self.saves_loaded || wants;
        Effects { load_saves: wants, note_intro: false, remember_game: false, run_backup: false }
    }

    /// Takes note of a click, and tells what is to be done.
    pub fn clicked(&mut self, click: Click) -> (r: Effects)
        ensures
            (*final(self), r) == after_click(*old(self), click),
    {
        let mut e = Effects {
            load_saves: false,
            note_intro: false,
            remember_game: false,
            run_backup: false,
        };
        match click {
            Click::Tab(tab) => {
                e = self.open(tab);
            },
            Click::Backup => {
                if self.intro_seen {
                    e = self.open(Tab::Backup);
                } else {
                    self.backup_intro = true;
                }
            },
            Click::CreateBackup => {
                if self.intro_seen {
                    e.run_backup = true;
                } else {
                    self.backup_intro = true;
                }
            },
            Click::ShowIntro => {
                self.backup_intro = true;
            },
            Click::IntroAccepted => {
                self.backup_intro = false;
                self.intro_seen = true;
                e = self.open(Tab::Backup);
                e.note_intro = true;
            },
            Click::IntroCancelled => {
                self.backup_intro = false;
                self.intro_seen = true;
                e.note_intro = true;
            },
            Click::GamePicked => {
                self.game_picker = false;
                self.saves_loaded = false;
                e.remember_game = true;
            },
            Click::PickerCancelled => {
                self.game_picker = false;
            },
            Click::Detected(n) => {
                if n == 1 {
                    self.saves_loaded = false;
                    e.remember_game = true;
                } else if n > 1 {
                    self.game_picker = true;
                }
            },
        }
        e
    }
}

// ---------------------------------------------------------------------------
// Laws
// ---------------------------------------------------------------------------

/// Before the introduction was seen no backup is made, whatever is clicked.
pub proof fn lemma_intro_comes_first(s: Shown, click: Click)
    requires
        !s.intro_seen,
    ensures
        !after_click(s, click).1.run_backup,
{
}

/// Wherever saves are shown the list of saves is up to date.
pub proof fn lemma_shown_saves_are_loaded(s: Shown, tab: Tab)
    requires
        tab is Saves || tab is Backup,
    ensures
        after_click(s, Click::Tab(tab)).0.saves_loaded,
        after_click(s, Click::Tab(tab)).1.load_saves == !s.saves_loaded,
{
}

/// The saves that are picked are all those listed whose names are, in the order
/// of the list.
pub proof fn lemma_all_picked_saves(saves: Seq<SaveFileView>, picks: Set<Seq<char>>)
    ensures
        picked_of(saves, picks) == saves.filter(|s: SaveFileView| picks.contains(s.name)),
    decreases saves.len(),
{
    let pred = |s: SaveFileView| picks.contains(s.name);
    reveal(Seq::filter);
    if saves.len() > 0 {
        lemma_all_picked_saves(saves.drop_last(), picks);
    }
    assert(picked_of(saves, picks) =~= saves.filter(pred));
}

/// A mod is enabled exactly where its first entry in the profile is.
pub proof fn lemma_enabled_is_first_entry(
    order: Seq<profile::ProfileModEntryView>,
    id: Seq<char>,
)
    ensures
        is_enabled(order, id) <==> commands::is_on(order, id),
{
    profile::lemma_entry_at(order, id, 0);
    if commands::is_on(order, id) {
        let k = choose|k: int|
            0 <= k < order.len() && (#[trigger] order[k]).mod_id == id && order[k].enabled
                && forall|j: int| 0 <= j < k ==> (#[trigger] order[j]).mod_id != id;
        profile::lemma_entry_at_eq(order, id, 0, k);
    }
}

/// What is done on a click: a backup is made on its button alone and only once
/// the introduction was seen; a game is remembered where one was picked or a
/// scan found just one; that the introduction was seen is noted where it was
/// closed; and the saves are read where a tab comes up that shows them and they
/// are not up to date.
pub proof fn lemma_what_clicks_do(s: Shown, click: Click)
    ensures
        ({
            let (t, e) = after_click(s, click);
            &&& e.run_backup <==> click is CreateBackup && s.intro_seen
            &&& e.remember_game <==> click is GamePicked || click == Click::Detected(1)
            &&& e.note_intro <==> click is IntroAccepted || click is IntroCancelled
            &&& e.load_saves <==> !s.saves_loaded && (click == Click::Tab(Tab::Saves) || click
                == Click::Tab(Tab::Backup) || click is IntroAccepted || (click is Backup
                && s.intro_seen))
        }),
{
}

/// What is shown after a click: another tab only where it was clicked, or for
/// backups once the introduction was seen; the introduction where it was asked
/// for, or is still to be seen before a backup; the picker where a scan found
/// several games. Saves count as read once they were, until the game changes.
pub proof fn lemma_what_clicks_show(s: Shown, click: Click)
    ensures
        ({
            let (t, e) = after_click(s, click);
            &&& t.tab == (match click {
                Click::Tab(tab) => tab,
                Click::IntroAccepted => Tab::Backup,
                Click::Backup => if s.intro_seen {
                    Tab::Backup
                } else {
                    s.tab
                },
                _ => s.tab,
            })
            &&& t.intro_seen <==> s.intro_seen || click is IntroAccepted || click is IntroCancelled
            &&& t.backup_intro <==> click is ShowIntro || (!s.intro_seen && (click is Backup
                || click is CreateBackup)) || (s.backup_intro && !(click is IntroAccepted)
                && !(click is IntroCancelled))
            &&& t.game_picker <==> (click matches Click::Detected(n) && n > 1) || (s.game_picker
                && !(click is GamePicked) && !(click is PickerCancelled))
            &&& t.saves_loaded <==> (s.saves_loaded || e.load_saves) && !e.remember_game
        }),
{
}

/// A backup holds only the kinds of things that are ticked, all of a kind where
/// nothing of it is to be picked, and what is picked otherwise.
pub proof fn lemma_backup_is_what_was_ticked(
    mods: bool,
    pick_mods: bool,
    ids: Seq<Seq<char>>,
    saves: bool,
    pick_saves: bool,
    names: Seq<Seq<char>>,
)
    ensures
        ({
            let s = selection_of(mods, pick_mods, ids, saves, pick_saves, names);
            &&& s.include_mods == mods
            &&& s.include_saves == saves
            &&& mods && pick_mods ==> s.mod_ids == ids
            &&& !pick_mods ==> s.mod_ids.len() == 0
            &&& saves && pick_saves ==> s.save_names == names
            &&& !pick_saves ==> s.save_names.len() == 0
        }),
{
}

} // verus!
