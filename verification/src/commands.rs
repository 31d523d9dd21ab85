//! What the commands do to profiles and say about mods.

use crate::color;
use crate::config::{Config, ConfigView};
use crate::lists;
use crate::paths;
use crate::profile;
use crate::profile::{Profile, ProfileModEntryView, ProfileView};
use crate::sorting;
use crate::sorting::{Ranked, TextKeys};
use crate::store;
use crate::store::{ModEntry, ModEntryView, ModStore, SizeKeys};
use crate::text;
use crate::validate;
use crate::validate::NameTable;
use crate::vfs::{Contribution, ContributionView};
use vstd::prelude::*;

verus! {

// ---------------------------------------------------------------------------
// Profiles
// ---------------------------------------------------------------------------

/// The profile that a command works on: the one that was named, else the active
/// one. None where there is neither.
pub fn resolve_profile(config: &Config, given: &Option<String>) -> (r: Option<String>)
    ensures
        r.deep_view() == (match given.deep_view() {
            Some(name) => Some(name),
            None => config.deep_view().active_profile,
        }),
{
    match given {
        Some(name) => Some(name.clone()),
        None => match &config.active_profile {
            Some(name) => Some(name.clone()),
            None => None,
        },
    }
}

/// Keeps the active profile active under its new name. Tells whether anything
/// changed.
pub fn follow_rename(config: &mut Config, name: &str, new_name: &str) -> (changed: bool)
    ensures
        changed == (old(config).deep_view().active_profile == Some(name@)),
        final(config).deep_view() == (if changed {
            ConfigView { active_profile: Some(new_name@), ..old(config).deep_view() }
        } else {
            old(config).deep_view()
        }),
{
    let active = match &config.active_profile {
        Some(p) => text::same_text(p.as_str(), name),
        None => false,
    };
    if active {
        config.active_profile = Some(new_name.to_owned());
    }
    active
}

/// Leaves no profile active where the active one was deleted. Tells whether
/// anything changed.
pub fn follow_delete(config: &mut Config, name: &str) -> (changed: bool)
    ensures
        changed == (old(config).deep_view().active_profile == Some(name@)),
        final(config).deep_view() == (if changed {
            ConfigView { active_profile: None, ..old(config).deep_view() }
        } else {
            old(config).deep_view()
        }),
{
    let active = match &config.active_profile {
        Some(p) => text::same_text(p.as_str(), name),
        None => false,
    };
    if active {
        config.active_profile = None;
    }
    active
}

/// The plugins among the names in the top folder of the mod with this id.
pub open spec fn plugins_of(mods: Seq<ModEntryView>, names: Seq<Seq<Seq<char>>>, id: Seq<char>) -> Seq<
    Seq<char>,
> {
    let at = store::mod_at(mods, id);
    if at < mods.len() {
        names[at].filter(store::plugin_names())
    } else {
        Seq::empty()
    }
}

/// A profile with these mods enabled one after the other, and their plugins
/// registered. `names[i]` are the names in the top folder of the mod at place
/// `i`.
pub open spec fn with_enabled(
    p: ProfileView,
    mods: Seq<ModEntryView>,
    names: Seq<Seq<Seq<char>>>,
    ids: Seq<Seq<char>>,
) -> ProfileView
    decreases ids.len(),
{
    if ids.len() == 0 {
        p
    } else {
        let before = with_enabled(p, mods, names, ids.drop_last());
        ProfileView {
            mod_order: profile::enabled_in(before.mod_order, ids.last()),
            plugin_order: profile::with_plugins(
                before.plugin_order,
                plugins_of(mods, names, ids.last()),
            ),
            ..before
        }
    }
}

/// An order with these mods disabled one after the other.
pub open spec fn with_disabled(order: Seq<ProfileModEntryView>, ids: Seq<Seq<char>>) -> Seq<
    ProfileModEntryView,
>
    decreases ids.len(),
{
    if ids.len() == 0 {
        order
    } else {
        profile::disabled_in(with_disabled(order, ids.drop_last()), ids.last())
    }
}

/// Enables mods one after the other and registers their plugins. `names[i]` are
/// the names in the top folder of the mod at place `i` of the store.
pub fn enable_many(p: &mut Profile, store: &ModStore, names: &Vec<Vec<String>>, ids: &Vec<String>)
    requires
        names@.len() == store.mods@.len(),
    ensures
        final(p).deep_view() == with_enabled(
            old(p).deep_view(),
            store.deep_view(),
            names.deep_view(),
            ids.deep_view(),
        ),
{
    let ghost start = p.deep_view();
    let ghost iv = ids.deep_view();
    let none: Vec<String> = Vec::new();
    assert(none.deep_view() =~= Seq::<Seq<char>>::empty());
    let mut i: usize = 0;
    assert(iv.take(0) =~= Seq::<Seq<char>>::empty());
    while i < ids.len()
        invariant
            i <= ids@.len(),
            iv == ids.deep_view(),
            names@.len() == store.mods@.len(),
            none.deep_view() == Seq::<Seq<char>>::empty(),
            p.deep_view() == with_enabled(
                start,
                store.deep_view(),
                names.deep_view(),
                iv.take(i as int),
            ),
        decreases ids.len() - i,
    {
        assert(iv.take(i + 1).drop_last() =~= iv.take(i as int));
        assert(iv.take(i + 1).last() == ids@[i as int]@);
        let at: usize = store.place_of(ids[i].as_str());
        if at < store.mods.len() {
            p.enable_mod_with_plugins(store, ids[i].as_str(), &names[at]);
        } else {
            p.enable_mod_with_plugins(store, ids[i].as_str(), &none);
        }
        i += 1;
    }
    assert(iv.take(i as int) =~= iv);
}

/// Disables mods one after the other.
pub fn disable_many(p: &mut Profile, ids: &Vec<String>)
    ensures
        final(p).deep_view() == (ProfileView {
            mod_order: with_disabled(old(p).deep_view().mod_order, ids.deep_view()),
            ..old(p).deep_view()
        }),
{
    let ghost start = p.deep_view();
    let ghost iv = ids.deep_view();
    let mut i: usize = 0;
    assert(iv.take(0) =~= Seq::<Seq<char>>::empty());
    while i < ids.len()
        invariant
            i <= ids@.len(),
            iv == ids.deep_view(),
            p.deep_view() == (ProfileView {
                mod_order: with_disabled(start.mod_order, iv.take(i as int)),
                ..start
            }),
        decreases ids.len() - i,
    {
        assert(iv.take(i + 1).drop_last() =~= iv.take(i as int));
        assert(iv.take(i + 1).last() == ids@[i as int]@);
        p.disable_mod(ids[i].as_str());
        i += 1;
    }
    assert(iv.take(i as int) =~= iv);
}

/// The ids of all mods in the store.
pub fn store_ids(store: &ModStore) -> (r: Vec<String>)
    ensures
        r.deep_view() == store.deep_view().map_values(|m: ModEntryView| m.id),
{
    let ghost goal = store.deep_view().map_values(|m: ModEntryView| m.id);
    let mut out: Vec<String> = Vec::new();
    let mut i: usize = 0;
    while i < store.mods.len()
        invariant
            i <= store.mods@.len(),
            goal == store.deep_view().map_values(|m: ModEntryView| m.id),
            out.deep_view() == goal.take(i as int),
        decreases store.mods.len() - i,
    {
        let ghost before = out.deep_view();
        out.push(store.mods[i].id.clone());
        i += 1;
        assert(store.deep_view()[i - 1] == store.mods@[i - 1].deep_view());
        assert(out.deep_view() =~= before.push(goal[i - 1]));
        assert(out.deep_view() =~= goal.take(i as int));
    }
    assert(out.deep_view() =~= goal);
    out
}

/// The ids of all mods in a profile.
pub fn profile_ids(p: &Profile) -> (r: Vec<String>)
    ensures
        r.deep_view() == p.deep_view().mod_order.map_values(|e: ProfileModEntryView| e.mod_id),
{
    let ghost goal = p.deep_view().mod_order.map_values(|e: ProfileModEntryView| e.mod_id);
    let mut out: Vec<String> = Vec::new();
    let mut i: usize = 0;
    while i < p.mod_order.len()
        invariant
            i <= p.mod_order@.len(),
            goal == p.deep_view().mod_order.map_values(|e: ProfileModEntryView| e.mod_id),
            out.deep_view() == goal.take(i as int),
        decreases p.mod_order.len() - i,
    {
        let ghost before = out.deep_view();
        out.push(p.mod_order[i].mod_id.clone());
        i += 1;
        assert(p.deep_view().mod_order[i - 1] == p.mod_order@[i - 1].deep_view());
        assert(out.deep_view() =~= before.push(goal[i - 1]));
        assert(out.deep_view() =~= goal.take(i as int));
    }
    assert(out.deep_view() =~= goal);
    out
}

/// The line for a profile.
pub fn profile_line(config: &Config, name: &str) -> (r: String)
    ensures
        r@ == name@ + (if config.deep_view().active_profile == Some(name@) {
            " (active)"@
        } else {
            Seq::empty()
        }),
{
    let active = match &config.active_profile {
        Some(p) => text::same_text(p.as_str(), name),
        None => false,
    };
    if active {
        text::concat(name, " (active)")
    } else {
        assert(name@ + Seq::<char>::empty() =~= name@);
        name.to_owned()
    }
}

// ---------------------------------------------------------------------------
// Undo
// ---------------------------------------------------------------------------

/// A profile as it is saved and as it was before the last change, where these
/// are there.
#[derive(Debug, Clone)]
pub struct UndoState {
    /// What the profile was before the last change.
    pub slot: Option<Profile>,
    /// The profile.
    pub saved: Option<Profile>,
}

/// The mathematical content of an [`UndoState`].
pub struct UndoStateView {
    pub slot: Option<ProfileView>,
    pub saved: Option<ProfileView>,
}

impl DeepView for UndoState {
    type V = UndoStateView;

    open spec fn deep_view(&self) -> UndoStateView {
        UndoStateView { slot: self.slot.deep_view(), saved: self.saved.deep_view() }
    }
}

/// The state after an undo: the two change places. Where there is nothing to
/// undo, nothing changes; where the profile is gone, it comes back and the slot
/// stays.
pub open spec fn undone(s: UndoStateView) -> UndoStateView {
    match (s.slot, s.saved) {
        (Some(before), Some(now)) => UndoStateView { slot: Some(now), saved: Some(before) },
        (Some(before), None) => UndoStateView { slot: Some(before), saved: Some(before) },
        (None, _) => s,
    }
}

/// Undoes the last change to a profile.
pub fn undo(s: UndoState) -> (r: UndoState)
    ensures
        r.deep_view() == undone(s.deep_view()),
{
    match (s.slot, s.saved) {
        (Some(before), Some(now)) => UndoState { slot: Some(now), saved: Some(before) },
        (Some(before), None) => {
            let again = before.clone_as(before.name.as_str());
            UndoState { slot: Some(again), saved: Some(before) }
        },
        (None, saved) => UndoState { slot: None, saved },
    }
}

/// Undoing twice gives the first state back: the second undo is a redo.
pub proof fn lemma_undo_twice(s: UndoStateView)
    requires
        s.slot is Some ==> s.saved is Some,
    ensures
        undone(undone(s)) == s,
{
}

// ---------------------------------------------------------------------------
// Plugins on disk
// ---------------------------------------------------------------------------

/// The files that the names in a folder stand for, by lower-case name.
pub open spec fn with_names(
    table: Map<Seq<char>, Seq<char>>,
    dir: Seq<char>,
    names: Seq<Seq<char>>,
) -> Map<Seq<char>, Seq<char>>
    decreases names.len(),
{
    if names.len() == 0 {
        table
    } else {
        with_names(table, dir, names.drop_last()).insert(
            text::lowercase(names.last()),
            paths::joined(dir, names.last()),
        )
    }
}

/// The files in the top folders of these mods, by lower-case name; of two with
/// one name that of the later mod counts.
pub open spec fn lookup_of(
    mods: Seq<ModEntryView>,
    names: Seq<Seq<Seq<char>>>,
    ids: Seq<Seq<char>>,
) -> Map<Seq<char>, Seq<char>>
    decreases ids.len(),
{
    if ids.len() == 0 {
        Map::empty()
    } else {
        let before = lookup_of(mods, names, ids.drop_last());
        let at = store::mod_at(mods, ids.last());
        if at < mods.len() {
            with_names(before, mods[at].content_dir, names[at])
        } else {
            before
        }
    }
}

/// The texts in a table.
pub open spec fn texts_in(table: Map<Seq<char>, String>) -> Map<Seq<char>, Seq<char>> {
    table.map_values(|s: String| s@)
}

fn enter_names(table: &mut NameTable<String>, dir: &str, names: &Vec<String>)
    ensures
        texts_in(final(table)@) == with_names(texts_in(old(table)@), dir@, names.deep_view()),
{
    let ghost start = texts_in(table@);
    let ghost nv = names.deep_view();
    let mut i: usize = 0;
    assert(nv.take(0) =~= Seq::<Seq<char>>::empty());
    while i < names.len()
        invariant
            i <= names@.len(),
            nv == names.deep_view(),
            texts_in(table@) == with_names(start, dir@, nv.take(i as int)),
        decreases names.len() - i,
    {
        assert(nv.take(i + 1).drop_last() =~= nv.take(i as int));
        assert(nv.take(i + 1).last() == names@[i as int]@);
        let ghost before = table@;
        let path = paths::join(dir, names[i].as_str());
        let ghost pv = path;
        table.insert(names[i].as_str(), path);
        assert(texts_in(table@) =~= texts_in(before).insert(
            text::lowercase(names@[i as int]@),
            pv@,
        ));
        i += 1;
    }
    assert(nv.take(i as int) =~= nv);
}

/// Where the files in the top folders of a profile's enabled mods are, by name,
/// whatever the case of letters. `names[i]` are the names in the top folder of
/// the mod at place `i` of the store.
pub fn build_plugin_path_lookup(store: &ModStore, p: &Profile, names: &Vec<Vec<String>>) -> (r:
    NameTable<String>)
    requires
        names@.len() == store.mods@.len(),
    ensures
        texts_in(r@) == lookup_of(
            store.deep_view(),
            names.deep_view(),
            profile::enabled_ids(p.deep_view().mod_order),
        ),
{
    let ids = p.enabled_mods_in_order();
    let ghost iv = ids.deep_view();
    let ghost mods = store.deep_view();
    let ghost nv = names.deep_view();
    let mut table: NameTable<String> = NameTable::new();
    let mut i: usize = 0;
    assert(iv.take(0) =~= Seq::<Seq<char>>::empty());
    assert(texts_in(table@) =~= Map::<Seq<char>, Seq<char>>::empty());
    while i < ids.len()
        invariant
            i <= ids@.len(),
            iv == ids.deep_view(),
            mods == store.deep_view(),
            nv == names.deep_view(),
            names@.len() == store.mods@.len(),
            texts_in(table@) == lookup_of(mods, nv, iv.take(i as int)),
        decreases ids.len() - i,
    {
        assert(iv.take(i + 1).drop_last() =~= iv.take(i as int));
        assert(iv.take(i + 1).last() == ids@[i as int]@);
        let at: usize = store.place_of(ids[i].as_str());
        if at < store.mods.len() {
            assert(mods[at as int] == store.mods@[at as int].deep_view());
            enter_names(&mut table, store.mods[at].content_dir.as_str(), &names[at]);
        }
        i += 1;
    }
    assert(iv.take(i as int) =~= iv);
    table
}

/// What a sort of the load order does.
#[derive(Debug, Clone, Copy, PartialEq, Eq, Structural)]
pub enum SortOutcome {
    /// Nothing: the order was valid.
    Unchanged,
    /// Nothing: only a look at the order was asked for.
    Shown,
    /// The order is saved.
    Saved,
}

/// What a sort of the load order does with its result.
pub fn sort_outcome(before: &Vec<String>, after: &Vec<String>, dry_run: bool) -> (r: SortOutcome)
    ensures
        r == (if before.deep_view() == after.deep_view() {
            SortOutcome::Unchanged
        } else if dry_run {
            SortOutcome::Shown
        } else {
            SortOutcome::Saved
        }),
{
    let ghost bv = before.deep_view();
    let ghost av = after.deep_view();
    let mut same = before.len() == after.len();
    assert(bv.len() == before@.len() && av.len() == after@.len());
    let mut i: usize = 0;
    while same && i < before.len()
        invariant
            i <= before@.len(),
            bv == before.deep_view(),
            av == after.deep_view(),
            same ==> before@.len() == after@.len(),
            same ==> forall|k: int| 0 <= k < i ==> #[trigger] bv[k] == av[k],
            !same ==> bv != av,
        decreases before.len() - i,
    {
        if !text::same_text(before[i].as_str(), after[i].as_str()) {
            same = false;
            assert(bv[i as int] != av[i as int]);
        } else {
            assert(bv[i as int] == av[i as int]);
        }
        i += 1;
    }
    if same {
        assert(bv =~= av);
        SortOutcome::Unchanged
    } else if dry_run {
        SortOutcome::Shown
    } else {
        SortOutcome::Saved
    }
}

/// The line for a loop among plugins.
pub fn cycle_line(cycle: &Vec<String>) -> (r: String)
    ensures
        r@ == "Circular dependency: "@ + text::joined(cycle.deep_view(), " -> "@),
{
    text::concat("Circular dependency: ", text::join(cycle, " -> ").as_str())
}

// ---------------------------------------------------------------------------
// Listing mods
// ---------------------------------------------------------------------------

/// How mods are sorted.
#[derive(Debug, Clone, Copy, PartialEq, Eq, Structural)]
pub enum ModSort {
    /// As they were installed.
    Store,
    /// By name, whatever the case of letters.
    Name,
    /// The newest first.
    Date,
    /// The largest first.
    Size,
}

/// The way to sort that a word names. None where it names none.
pub fn mod_sort(word: &Option<String>) -> (r: Option<ModSort>)
    ensures
        r == (match word.deep_view() {
            None => Some(ModSort::Store),
            Some(w) => if w == "name"@ {
                Some(ModSort::Name)
            } else if w == "date"@ {
                Some(ModSort::Date)
            } else if w == "size"@ {
                Some(ModSort::Size)
            } else {
                None
            },
        }),
{
    match word {
        None => Some(ModSort::Store),
        Some(w) => if text::same_text(w.as_str(), "name") {
            Some(ModSort::Name)
        } else if text::same_text(w.as_str(), "date") {
            Some(ModSort::Date)
        } else if text::same_text(w.as_str(), "size") {
            Some(ModSort::Size)
        } else {
            None
        },
    }
}

/// Whether a mod's name or one of its tags contains this text in lower case.
pub open spec fn mentions(m: ModEntryView, term: Seq<char>) -> bool {
    text::holds(text::lowercase(m.name), term) || exists|k: int|
        0 <= k < m.tags.len() && text::holds(text::lowercase(#[trigger] m.tags[k]), term)
}

/// Whether a mod's name or one of its tags contains this text in lower case.
pub fn mod_mentions(m: &ModEntry, term: &str) -> (r: bool)
    ensures
        r == mentions(m.deep_view(), term@),
{
    let ghost tags = m.deep_view().tags;
    if text::has_substring(text::to_lowercase(m.name.as_str()).as_str(), term) {
        return true;
    }
    let mut i: usize = 0;
    while i < m.tags.len()
        invariant
            i <= m.tags@.len(),
            tags == m.deep_view().tags,
            forall|k: int| 0 <= k < i ==> !text::holds(text::lowercase(#[trigger] tags[k]), term@),
        decreases m.tags.len() - i,
    {
        assert(tags[i as int] == m.tags@[i as int]@);
        if text::has_substring(text::to_lowercase(m.tags[i].as_str()).as_str(), term) {
            assert(text::holds(text::lowercase(tags[i as int]), term@));
            return true;
        }
        i += 1;
    }
    false
}

/// Whether a mod is listed: it carries the tag and mentions the text that are
/// asked for.
pub open spec fn is_wanted(m: ModEntryView, tag: Option<Seq<char>>, search: Option<Seq<char>>) -> bool {
    &&& tag is Some ==> store::carries(tag->0)(m)
    &&& search is Some ==> mentions(m, text::lowercase(search->0))
}

/// The places of the mods that are listed, in order.
pub open spec fn wanted(
    mods: Seq<ModEntryView>,
    tag: Option<Seq<char>>,
    search: Option<Seq<char>>,
) -> Seq<usize>
    decreases mods.len(),
{
    if mods.len() == 0 {
        Seq::empty()
    } else {
        let before = wanted(mods.drop_last(), tag, search);
        if is_wanted(mods.last(), tag, search) {
            before.push((mods.len() - 1) as usize)
        } else {
            before
        }
    }
}

/// Whether `order` lists all places of `keys`, the lesser text first and equal
/// ones in order.
pub open spec fn is_by_text(keys: Seq<Seq<char>>, order: Seq<usize>) -> bool {
    &&& order.len() == keys.len()
    &&& order.no_duplicates()
    &&& forall|k: int| 0 <= k < order.len() ==> #[trigger] order[k] < keys.len()
    &&& forall|a: int, b: int|
        0 <= a < b < order.len() ==> text::text_less(
            keys[#[trigger] order[a] as int],
            keys[#[trigger] order[b] as int],
        ) || (keys[order[a] as int] == keys[order[b] as int] && order[a] < order[b])
}

/// The lower-case names of the mods at these places.
pub open spec fn name_keys(mods: Seq<ModEntryView>, places: Seq<usize>) -> Seq<Seq<char>> {
    places.map_values(|i: usize| text::lowercase(mods[i as int].name))
}

/// The times of install of the mods at these places.
pub open spec fn date_keys(mods: Seq<ModEntryView>, places: Seq<usize>) -> Seq<u64> {
    places.map_values(|i: usize| mods[i as int].installed_at)
}

/// The sizes of the mods at these places.
pub open spec fn size_keys(sizes: Seq<u64>, places: Seq<usize>) -> Seq<u64> {
    places.map_values(|i: usize| sizes[i as int])
}

/// What stands at the places that `order` lists.
pub open spec fn rearranged(places: Seq<usize>, order: Seq<usize>) -> Seq<usize> {
    order.map_values(|i: usize| places[i as int])
}

/// Whether `list` is `places` in the order that was asked for.
pub open spec fn is_sorted_list(
    mods: Seq<ModEntryView>,
    sizes: Seq<u64>,
    sort: ModSort,
    places: Seq<usize>,
    list: Seq<usize>,
) -> bool {
    match sort {
        ModSort::Store => list == places,
        ModSort::Name => exists|order: Seq<usize>|
            is_by_text(name_keys(mods, places), order) && list == #[trigger] rearranged(
                places,
                order,
            ),
        ModSort::Date => exists|order: Seq<usize>|
            store::is_by_size(date_keys(mods, places), order) && list == #[trigger] rearranged(
                places,
                order,
            ),
        ModSort::Size => exists|order: Seq<usize>|
            store::is_by_size(size_keys(sizes, places), order) && list == #[trigger] rearranged(
                places,
                order,
            ),
    }
}

fn wanted_places(store: &ModStore, tag: &Option<String>, search: &Option<String>) -> (r: Vec<usize>)
    ensures
        r@ == wanted(store.deep_view(), tag.deep_view(), search.deep_view()),
        forall|k: int| 0 <= k < r@.len() ==> #[trigger] r@[k] < store.mods@.len(),
{
    let ghost mods = store.deep_view();
    let term = match search {
        Some(s) => Some(text::to_lowercase(s.as_str())),
        None => None,
    };
    let mut out: Vec<usize> = Vec::new();
    let mut i: usize = 0;
    assert(mods.take(0) =~= Seq::<ModEntryView>::empty());
    while i < store.mods.len()
        invariant
            i <= store.mods@.len(),
            mods == store.deep_view(),
            term.deep_view() == (match search.deep_view() {
                Some(s) => Some(text::lowercase(s)),
                None => None,
            }),
            out@ == wanted(mods.take(i as int), tag.deep_view(), search.deep_view()),
            forall|k: int| 0 <= k < out@.len() ==> #[trigger] out@[k] < i,
        decreases store.mods.len() - i,
    {
        assert(mods.take(i + 1).drop_last() =~= mods.take(i as int));
        assert(mods.take(i + 1).last() == store.mods@[i as int].deep_view());
        let m = &store.mods[i];
        let tagged = match tag {
            Some(t) => text::is_in(&m.tags, t.as_str()),
            None => true,
        };
        let found = match &term {
            Some(t) => mod_mentions(m, t.as_str()),
            None => true,
        };
        if tagged && found {
            out.push(i);
        }
        i += 1;
    }
    assert(mods.take(i as int) =~= mods);
    out
}

fn arrange(places: &Vec<usize>, order: &Vec<usize>) -> (r: Vec<usize>)
    requires
        forall|k: int| 0 <= k < order@.len() ==> #[trigger] order@[k] < places@.len(),
    ensures
        r@ == rearranged(places@, order@),
{
    let mut out: Vec<usize> = Vec::new();
    let mut i: usize = 0;
    while i < order.len()
        invariant
            i <= order@.len(),
            forall|k: int| 0 <= k < order@.len() ==> #[trigger] order@[k] < places@.len(),
            out@ == rearranged(places@, order@).take(i as int),
        decreases order.len() - i,
    {
        assert(order@[i as int] < places@.len());
        out.push(places[order[i]]);
        i += 1;
        assert(out@ =~= rearranged(places@, order@).take(i as int));
    }
    assert(out@ =~= rearranged(places@, order@));
    out
}

fn largest_first(keys: &Vec<u64>) -> (r: Vec<usize>)
    ensures
        store::is_by_size(keys@, r@),
{
    let ranked = SizeKeys { sizes: keys };
    let order = sorting::sorted_places(&ranked, keys.len());
    assert forall|a: int, b: int| 0 <= a < b < order@.len() implies keys@[#[trigger] order@[a] as int]
        > keys@[#[trigger] order@[b] as int] || (keys@[order@[a] as int] == keys@[order@[b] as int]
        && order@[a] < order@[b]) by {
        assert(sorting::comes_before(&ranked, order@[a] as int, order@[b] as int));
    }
    order
}

fn first_in_order(keys: &Vec<String>) -> (r: Vec<usize>)
    ensures
        is_by_text(keys.deep_view(), r@),
{
    let ghost kv = keys.deep_view();
    let ranked = TextKeys { keys };
    let order = sorting::sorted_places(&ranked, keys.len());
    assert forall|a: int, b: int| 0 <= a < b < order@.len() implies text::text_less(
        kv[#[trigger] order@[a] as int],
        kv[#[trigger] order@[b] as int],
    ) || (kv[order@[a] as int] == kv[order@[b] as int] && order@[a] < order@[b]) by {
        assert(sorting::comes_before(&ranked, order@[a] as int, order@[b] as int));
        text::lemma_text_less_total(kv[order@[a] as int], kv[order@[b] as int]);
        if text::text_less(kv[order@[a] as int], kv[order@[b] as int]) {
        } else {
            assert(ranked.upto(order@[b] as int, order@[a] as int));
        }
    }
    order
}

/// The places of the mods that are listed: those that carry the tag and mention
/// the text that are asked for, in the order that is asked for. `sizes[i]` is
/// the size of the mod at place `i`.
pub fn list_mods(
    store: &ModStore,
    sizes: &Vec<u64>,
    tag: &Option<String>,
    search: &Option<String>,
    sort: ModSort,
) -> (r: Vec<usize>)
    requires
        sizes@.len() == store.mods@.len(),
    ensures
        is_sorted_list(
            store.deep_view(),
            sizes@,
            sort,
            wanted(store.deep_view(), tag.deep_view(), search.deep_view()),
            r@,
        ),
{
    let places = wanted_places(store, tag, search);
    let ghost mods = store.deep_view();
    match sort {
        ModSort::Store => places,
        ModSort::Name => {
            let mut keys: Vec<String> = Vec::new();
            let ghost goal = name_keys(mods, places@);
            let mut i: usize = 0;
            while i < places.len()
                invariant
                    i <= places@.len(),
                    mods == store.deep_view(),
                    goal == name_keys(mods, places@),
                    forall|k: int|
                        0 <= k < places@.len() ==> #[trigger] places@[k] < store.mods@.len(),
                    keys.deep_view() == goal.take(i as int),
                decreases places.len() - i,
            {
                let ghost before = keys.deep_view();
                assert(places@[i as int] < store.mods@.len());
                let key = text::to_lowercase(store.mods[places[i]].name.as_str());
                let ghost kv = key@;
                keys.push(key);
                assert(keys.deep_view() =~= before.push(kv));
                i += 1;
                assert(mods[places@[i - 1] as int] == store.mods@[places@[i - 1] as int].deep_view());
                assert(kv == goal[i - 1]);
                assert(keys.deep_view() =~= goal.take(i as int));
            }
            assert(keys.deep_view() =~= goal);
            let order = first_in_order(&keys);
            assert forall|k: int| 0 <= k < order@.len() implies #[trigger] order@[k]
                < places@.len() by {
                assert(order@[k] < goal.len());
            }
            let list = arrange(&places, &order);
            assert(list@ == rearranged(places@, order@));
            list
        },
        ModSort::Date => {
            let mut keys: Vec<u64> = Vec::new();
            let mut i: usize = 0;
            while i < places.len()
                invariant
                    i <= places@.len(),
                    mods == store.deep_view(),
                    forall|k: int|
                        0 <= k < places@.len() ==> #[trigger] places@[k] < store.mods@.len(),
                    keys@ == date_keys(mods, places@).take(i as int),
                decreases places.len() - i,
            {
                assert(places@[i as int] < store.mods@.len());
                keys.push(store.mods[places[i]].installed_at);
                i += 1;
                assert(mods[places@[i - 1] as int] == store.mods@[places@[i - 1] as int].deep_view());
                assert(keys@ =~= date_keys(mods, places@).take(i as int));
            }
            assert(keys@ =~= date_keys(mods, places@));
            let order = largest_first(&keys);
            assert forall|k: int| 0 <= k < order@.len() implies #[trigger] order@[k]
                < places@.len() by {
                assert(order@[k] < keys@.len());
            }
            let list = arrange(&places, &order);
            assert(list@ == rearranged(places@, order@));
            list
        },
        ModSort::Size => {
            let mut keys: Vec<u64> = Vec::new();
            let mut i: usize = 0;
            while i < places.len()
                invariant
                    i <= places@.len(),
                    sizes@.len() == store.mods@.len(),
                    forall|k: int|
                        0 <= k < places@.len() ==> #[trigger] places@[k] < store.mods@.len(),
                    keys@ == size_keys(sizes@, places@).take(i as int),
                decreases places.len() - i,
            {
                assert(places@[i as int] < store.mods@.len());
                keys.push(sizes[places[i]]);
                i += 1;
                assert(keys@ =~= size_keys(sizes@, places@).take(i as int));
            }
            assert(keys@ =~= size_keys(sizes@, places@));
            let order = largest_first(&keys);
            assert forall|k: int| 0 <= k < order@.len() implies #[trigger] order@[k]
                < places@.len() by {
                assert(order@[k] < keys@.len());
            }
            let list = arrange(&places, &order);
            assert(list@ == rearranged(places@, order@));
            list
        },
    }
}

/// The line for a mod: its id, its name, its tags and its folder.
pub open spec fn mod_text(m: ModEntryView) -> Seq<char> {
    m.id + "  "@ + m.name + (if m.tags.len() == 0 {
        Seq::empty()
    } else {
        " ["@ + text::joined(m.tags, ", "@) + "]"@
    }) + "  ("@ + m.content_dir + ")"@
}

/// The line for a mod: its id, its name, its tags and its folder.
pub fn mod_line(m: &ModEntry) -> (r: String)
    ensures
        r@ == mod_text(m.deep_view()),
{
    let mut out = text::concat3(m.id.as_str(), "  ", m.name.as_str());
    assert(m.deep_view().tags.len() == m.tags@.len());
    if m.tags.len() > 0 {
        out.append(text::concat3(" [", text::join(&m.tags, ", ").as_str(), "]").as_str());
    }
    out.append("  (");
    out.append(m.content_dir.as_str());
    out.append(")");
    assert(out@ =~= mod_text(m.deep_view()));
    out
}

// ---------------------------------------------------------------------------
// Conflicts
// ---------------------------------------------------------------------------

/// The line for a contribution to a path.
pub open spec fn contribution_line(
    mods: Seq<ModEntryView>,
    c: ContributionView,
    winner: Seq<char>,
    colored: bool,
) -> Seq<char> {
    "    ["@ + (if c.mod_id == winner {
        color::painted("32"@, "WINS"@, colored)
    } else {
        "    "@
    }) + "] "@ + profile::shown_name(mods, c.mod_id)
}

/// The lines for the contributions to a path.
pub open spec fn contribution_lines(
    mods: Seq<ModEntryView>,
    list: Seq<ContributionView>,
    winner: Seq<char>,
    colored: bool,
) -> Seq<Seq<char>> {
    list.map_values(|c: ContributionView| contribution_line(mods, c, winner, colored))
}

/// The lines of the conflict report: for each path that more than one mod
/// provides the path and a line for each of them.
pub open spec fn conflict_lines(
    mods: Seq<ModEntryView>,
    table: Seq<(Seq<char>, Seq<ContributionView>)>,
    colored: bool,
) -> Seq<Seq<char>>
    decreases table.len(),
{
    if table.len() == 0 {
        Seq::empty()
    } else {
        let before = conflict_lines(mods, table.drop_last(), colored);
        let row = table.last();
        if row.1.len() > 1 {
            before.push(row.0) + contribution_lines(mods, row.1, row.1.last().mod_id, colored)
        } else {
            before
        }
    }
}

fn append_contributions(
    out: &mut Vec<String>,
    store: &ModStore,
    list: &Vec<Contribution>,
    winner: &str,
    colored: bool,
)
    ensures
        final(out).deep_view() == old(out).deep_view() + contribution_lines(
            store.deep_view(),
            list.deep_view(),
            winner@,
            colored,
        ),
{
    let ghost start = out.deep_view();
    let ghost goal = contribution_lines(store.deep_view(), list.deep_view(), winner@, colored);
    let mut i: usize = 0;
    assert(out.deep_view() =~= start + goal.take(0));
    while i < list.len()
        invariant
            i <= list@.len(),
            goal == contribution_lines(store.deep_view(), list.deep_view(), winner@, colored),
            out.deep_view() == start + goal.take(i as int),
        decreases list.len() - i,
    {
        let ghost before = out.deep_view();
        let c = &list[i];
        let mark = if text::same_text(c.mod_id.as_str(), winner) {
            color::green("WINS", colored)
        } else {
            "    ".to_owned()
        };
        let name = profile::name_for(store, c.mod_id.as_str());
        let mut line = text::concat3("    [", mark.as_str(), "] ");
        line.append(name.as_str());
        let ghost lv = line@;
        out.push(line);
        assert(out.deep_view() =~= before.push(lv));
        i += 1;
        assert(list.deep_view()[i - 1] == list@[i - 1].deep_view());
        assert(lv == goal[i - 1]);
        assert(out.deep_view() =~= start + goal.take(i as int));
    }
    assert(goal.take(i as int) =~= goal);
}

/// The conflict report: every path that more than one enabled mod provides, and
/// who wins there.
pub fn conflict_report(store: &ModStore, table: &Vec<(String, Vec<Contribution>)>, colored: bool) -> (r:
    Vec<String>)
    ensures
        r.deep_view() == conflict_lines(store.deep_view(), table.deep_view(), colored),
{
    let ghost tv = table.deep_view();
    let ghost mods = store.deep_view();
    let mut out: Vec<String> = Vec::new();
    let mut i: usize = 0;
    assert(tv.take(0) =~= Seq::<(Seq<char>, Seq<ContributionView>)>::empty());
    assert(out.deep_view() =~= Seq::<Seq<char>>::empty());
    while i < table.len()
        invariant
            i <= table@.len(),
            tv == table.deep_view(),
            mods == store.deep_view(),
            out.deep_view() == conflict_lines(mods, tv.take(i as int), colored),
        decreases table.len() - i,
    {
        assert(tv.take(i + 1).drop_last() =~= tv.take(i as int));
        assert(tv.take(i + 1).last() == table@[i as int].deep_view());
        let list = &table[i].1;
        let n: usize = list.len();
        if n > 1 {
            let ghost before = out.deep_view();
            out.push(table[i].0.clone());
            assert(out.deep_view() =~= before.push(tv[i as int].0));
            let winner = list[n - 1].mod_id.clone();
            assert(tv[i as int].1.last() == list@[n - 1].deep_view());
            append_contributions(&mut out, store, list, winner.as_str(), colored);
        }
        i += 1;
    }
    assert(tv.take(i as int) =~= tv);
    out
}

/// The lines for archives that hold one path.
pub open spec fn archive_lines(mods: Seq<ModEntryView>, list: Seq<(Seq<char>, Seq<char>)>) -> Seq<
    Seq<char>,
> {
    list.map_values(
        |c: (Seq<char>, Seq<char>)|
            "        "@ + profile::shown_name(mods, c.0) + " ("@ + c.1 + ")"@,
    )
}

/// The lines of the report on archives: for each path the path and a line for
/// each archive.
pub open spec fn overlap_lines(
    mods: Seq<ModEntryView>,
    overlaps: Seq<(Seq<char>, Seq<(Seq<char>, Seq<char>)>)>,
) -> Seq<Seq<char>>
    decreases overlaps.len(),
{
    if overlaps.len() == 0 {
        Seq::empty()
    } else {
        overlap_lines(mods, overlaps.drop_last()).push(overlaps.last().0) + archive_lines(
            mods,
            overlaps.last().1,
        )
    }
}

/// The report on archives that hold the same paths. None of them is said to
/// win.
pub fn overlap_report(store: &ModStore, overlaps: &Vec<(String, Vec<(String, String)>)>) -> (r: Vec<
    String,
>)
    ensures
        r.deep_view() == overlap_lines(store.deep_view(), overlaps.deep_view()),
{
    let ghost ov = overlaps.deep_view();
    let ghost mods = store.deep_view();
    let mut out: Vec<String> = Vec::new();
    let mut i: usize = 0;
    assert(ov.take(0) =~= Seq::<(Seq<char>, Seq<(Seq<char>, Seq<char>)>)>::empty());
    assert(out.deep_view() =~= Seq::<Seq<char>>::empty());
    while i < overlaps.len()
        invariant
            i <= overlaps@.len(),
            ov == overlaps.deep_view(),
            mods == store.deep_view(),
            out.deep_view() == overlap_lines(mods, ov.take(i as int)),
        decreases overlaps.len() - i,
    {
        assert(ov.take(i + 1).drop_last() =~= ov.take(i as int));
        assert(ov.take(i + 1).last() == overlaps@[i as int].deep_view());
        let ghost before = out.deep_view();
        out.push(overlaps[i].0.clone());
        assert(out.deep_view() =~= before.push(ov[i as int].0));
        let ghost start = out.deep_view();
        let list = &overlaps[i].1;
        let ghost lv = list.deep_view();
        let ghost goal = archive_lines(mods, lv);
        let mut k: usize = 0;
        assert(out.deep_view() =~= start + goal.take(0));
        while k < list.len()
            invariant
                k <= list@.len(),
                lv == list.deep_view(),
                mods == store.deep_view(),
                goal == archive_lines(mods, lv),
                out.deep_view() == start + goal.take(k as int),
            decreases list.len() - k,
        {
            let ghost sofar = out.deep_view();
            let name = profile::name_for(store, list[k].0.as_str());
            let mut line = text::concat3("        ", name.as_str(), " (");
            line.append(list[k].1.as_str());
            line.append(")");
            let ghost nv = line@;
            out.push(line);
            assert(out.deep_view() =~= sofar.push(nv));
            k += 1;
            assert(lv[k - 1] == list@[k - 1].deep_view());
            assert(nv == goal[k - 1]);
            assert(out.deep_view() =~= start + goal.take(k as int));
        }
        assert(goal.take(k as int) =~= goal);
        i += 1;
    }
    assert(ov.take(i as int) =~= ov);
    out
}

// ---------------------------------------------------------------------------
// Laws
// ---------------------------------------------------------------------------

/// After all mods of a profile are disabled, where each stands in it once, none
/// is enabled.
pub proof fn lemma_disable_all(order: Seq<ProfileModEntryView>)
    requires
        forall|a: int, b: int| 0 <= a < b < order.len() ==> order[a].mod_id != order[b].mod_id,
    ensures
        ({
            let ids = order.map_values(|e: ProfileModEntryView| e.mod_id);
            profile::enabled_ids(with_disabled(order, ids)).len() == 0
        }),
{
    let ids = order.map_values(|e: ProfileModEntryView| e.mod_id);
    lemma_disable_first(order, ids, order.len() as int);
    assert(ids.take(order.len() as int) =~= ids);
    lemma_none_enabled(with_disabled(order, ids));
}

proof fn lemma_disable_first(order: Seq<ProfileModEntryView>, ids: Seq<Seq<char>>, n: int)
    requires
        forall|a: int, b: int| 0 <= a < b < order.len() ==> order[a].mod_id != order[b].mod_id,
        ids == order.map_values(|e: ProfileModEntryView| e.mod_id),
        0 <= n <= order.len(),
    ensures
        with_disabled(order, ids.take(n)).len() == order.len(),
        forall|k: int|
            0 <= k < order.len() ==> (#[trigger] with_disabled(order, ids.take(n))[k]).mod_id
                == order[k].mod_id,
        forall|k: int| 0 <= k < n ==> !(#[trigger] with_disabled(order, ids.take(n))[k]).enabled,
    decreases n,
{
    if n > 0 {
        lemma_disable_first(order, ids, n - 1);
        assert(ids.take(n).drop_last() =~= ids.take(n - 1));
        let before = with_disabled(order, ids.take(n - 1));
        let id = order[n - 1].mod_id;
        assert(ids.take(n).last() == id);
        assert(before[n - 1].mod_id == id);
        assert forall|j: int| 0 <= j < n - 1 implies (#[trigger] before[j]).mod_id != id by {
            assert(before[j].mod_id == order[j].mod_id);
            assert(order[j].mod_id != order[n - 1].mod_id);
        }
        profile::lemma_entry_at_eq(before, id, 0, n - 1);
    } else {
        assert(ids.take(0) =~= Seq::<Seq<char>>::empty());
    }
}

proof fn lemma_none_enabled(order: Seq<ProfileModEntryView>)
    requires
        forall|k: int| 0 <= k < order.len() ==> !(#[trigger] order[k]).enabled,
    ensures
        profile::enabled_ids(order).len() == 0,
    decreases order.len(),
{
    if order.len() > 0 {
        let t = order.drop_last();
        assert forall|k: int| 0 <= k < t.len() implies !(#[trigger] t[k]).enabled by {
            assert(t[k] == order[k]);
        }
        lemma_none_enabled(t);
        assert(!order[order.len() - 1].enabled);
    }
}

/// Every mod that is listed carries the tag and mentions the text, and every
/// such mod is listed.
pub proof fn lemma_wanted(
    mods: Seq<ModEntryView>,
    tag: Option<Seq<char>>,
    search: Option<Seq<char>>,
    i: usize,
)
    requires
        i < mods.len(),
        mods.len() <= usize::MAX,
    ensures
        wanted(mods, tag, search).contains(i) <==> is_wanted(mods[i as int], tag, search),
    decreases mods.len(),
{
    let t = mods.drop_last();
    let all = wanted(mods, tag, search);
    let before = wanted(t, tag, search);
    lemma_wanted_below(t, tag, search);
    let last = (mods.len() - 1) as usize;
    if i < t.len() {
        lemma_wanted(t, tag, search, i);
        if before.contains(i) {
            let k = choose|k: int| 0 <= k < before.len() && before[k] == i;
            assert(all[k] == i);
        }
        if all.contains(i) {
            let k = choose|k: int| 0 <= k < all.len() && all[k] == i;
            assert(before[k] == i);
        }
    } else {
        if is_wanted(mods.last(), tag, search) {
            assert(all[all.len() - 1] == last);
        } else if all.contains(i) {
            let k = choose|k: int| 0 <= k < all.len() && all[k] == i;
            assert(before[k] < t.len());
        }
    }
}

proof fn lemma_wanted_below(
    mods: Seq<ModEntryView>,
    tag: Option<Seq<char>>,
    search: Option<Seq<char>>,
)
    requires
        mods.len() <= usize::MAX,
    ensures
        forall|k: int|
            0 <= k < wanted(mods, tag, search).len() ==> #[trigger] wanted(mods, tag, search)[k]
                < mods.len(),
    decreases mods.len(),
{
    if mods.len() > 0 {
        lemma_wanted_below(mods.drop_last(), tag, search);
        let all = wanted(mods, tag, search);
        let before = wanted(mods.drop_last(), tag, search);
        assert forall|k: int| 0 <= k < all.len() implies #[trigger] all[k] < mods.len() by {
            if k < before.len() {
                assert(all[k] == before[k]);
            }
        }
    }
}

/// Whether the first entry of a mod is enabled, and there is one.
pub open spec fn is_on(order: Seq<ProfileModEntryView>, id: Seq<char>) -> bool {
    exists|k: int|
        0 <= k < order.len() && (#[trigger] order[k]).mod_id == id && order[k].enabled
            && forall|j: int| 0 <= j < k ==> (#[trigger] order[j]).mod_id != id
}

proof fn lemma_enabled_one(order: Seq<ProfileModEntryView>, id: Seq<char>, other: Seq<char>)
    ensures
        is_on(profile::enabled_in(order, id), id),
        is_on(order, other) ==> is_on(profile::enabled_in(order, id), other),
{
    let after = profile::enabled_in(order, id);
    profile::lemma_entry_at(order, id, 0);
    let i = profile::entry_at(order, id, 0);
    assert forall|j: int| 0 <= j < order.len() implies (#[trigger] after[j]).mod_id
        == order[j].mod_id by {}
    assert(after[i].mod_id == id && after[i].enabled);
    if is_on(order, other) {
        let k = choose|k: int|
            0 <= k < order.len() && (#[trigger] order[k]).mod_id == other && order[k].enabled
                && forall|j: int| 0 <= j < k ==> (#[trigger] order[j]).mod_id != other;
        assert(after[k].mod_id == other && after[k].enabled);
    }
}

/// After mods are enabled one after the other, each of them is. Those that were
/// in the profile stay where they are, the others stand behind them, and mods
/// that were not named are untouched. Nothing leaves the load order, and
/// nothing else of the profile changes.
pub proof fn lemma_all_named_mods_are_enabled(
    p: ProfileView,
    mods: Seq<ModEntryView>,
    names: Seq<Seq<Seq<char>>>,
    ids: Seq<Seq<char>>,
)
    ensures
        ({
            let after = with_enabled(p, mods, names, ids);
            let n = p.mod_order.len();
            &&& after.name == p.name
            &&& after.game_id == p.game_id
            &&& n <= after.mod_order.len()
            &&& forall|i: int| 0 <= i < ids.len() ==> is_on(after.mod_order, #[trigger] ids[i])
            &&& forall|k: int|
                0 <= k < n ==> (#[trigger] after.mod_order[k]).mod_id == p.mod_order[k].mod_id
            &&& forall|k: int|
                0 <= k < n && !ids.contains(p.mod_order[k].mod_id)
                    ==> #[trigger] after.mod_order[k] == p.mod_order[k]
            &&& forall|k: int|
                n <= k < after.mod_order.len() ==> ids.contains(
                    (#[trigger] after.mod_order[k]).mod_id,
                ) && after.mod_order[k].enabled
            &&& p.plugin_order.is_prefix_of(after.plugin_order)
        }),
    decreases ids.len(),
{
    if ids.len() > 0 {
        let t = ids.drop_last();
        let id = ids.last();
        let before = with_enabled(p, mods, names, t);
        let after = with_enabled(p, mods, names, ids);
        let n = p.mod_order.len();
        lemma_all_named_mods_are_enabled(p, mods, names, t);
        profile::lemma_entry_at(before.mod_order, id, 0);
        assert(ids[ids.len() - 1] == id);
        assert(ids.contains(id));
        assert forall|x: Seq<char>| t.contains(x) implies #[trigger] ids.contains(x) by {
            let i = choose|i: int| 0 <= i < t.len() && t[i] == x;
            assert(ids[i] == x);
        }
        assert forall|i: int| 0 <= i < ids.len() implies is_on(
            after.mod_order,
            #[trigger] ids[i],
        ) by {
            lemma_enabled_one(before.mod_order, id, ids[i]);
            if i < t.len() {
                assert(t[i] == ids[i]);
            }
        }
        assert forall|k: int| 0 <= k < n implies (#[trigger] after.mod_order[k]).mod_id
            == p.mod_order[k].mod_id by {
            assert(before.mod_order[k].mod_id == p.mod_order[k].mod_id);
        }
        assert forall|k: int|
            0 <= k < n && !ids.contains(p.mod_order[k].mod_id) implies #[trigger] after.mod_order[k]
            == p.mod_order[k] by {
            assert(before.mod_order[k] == p.mod_order[k]);
        }
        assert forall|k: int| n <= k < after.mod_order.len() implies ids.contains(
            (#[trigger] after.mod_order[k]).mod_id,
        ) && after.mod_order[k].enabled by {
            if k < before.mod_order.len() {
                assert(t.contains(before.mod_order[k].mod_id));
            }
        }
        let places = profile::lemma_registered_behind(
            before.plugin_order,
            plugins_of(mods, names, id),
        );
        let list = after.plugin_order;
        assert forall|k: int| 0 <= k < before.plugin_order.len() implies #[trigger] list[k]
            == before.plugin_order[k] by {
            assert(list.take(before.plugin_order.len() as int)[k] == list[k]);
        }
        assert forall|k: int| 0 <= k < p.plugin_order.len() implies #[trigger] list[k]
            == p.plugin_order[k] by {
            assert(before.plugin_order[k] == p.plugin_order[k]);
        }
    }
}

/// After mods are enabled, every plugin in the top folder of each of them is in
/// the load order.
pub proof fn lemma_all_plugins_are_registered(
    p: ProfileView,
    mods: Seq<ModEntryView>,
    names: Seq<Seq<Seq<char>>>,
    ids: Seq<Seq<char>>,
    i: int,
    at: int,
    k: int,
)
    requires
        0 <= i < ids.len(),
        0 <= at < mods.len(),
        mods[at].id == ids[i],
        forall|j: int| 0 <= j < at ==> (#[trigger] mods[j]).id != ids[i],
        0 <= k < names[at].len(),
        store::is_plugin_name(names[at][k]),
    ensures
        profile::lists_plugin(with_enabled(p, mods, names, ids).plugin_order, names[at][k]),
    decreases ids.len(),
{
    let t = ids.drop_last();
    let before = with_enabled(p, mods, names, t);
    let after = with_enabled(p, mods, names, ids);
    let plugins = plugins_of(mods, names, ids.last());
    let places = profile::lemma_registered_behind(before.plugin_order, plugins);
    let q = names[at][k];
    if i < t.len() {
        assert(t[i] == ids[i]);
        lemma_all_plugins_are_registered(p, mods, names, t, i, at, k);
        let m = choose|m: int|
            0 <= m < before.plugin_order.len() && text::ascii_fold(
                #[trigger] before.plugin_order[m],
            ) == text::ascii_fold(q);
        assert(after.plugin_order.take(before.plugin_order.len() as int)[m]
            == after.plugin_order[m]);
    } else {
        store::lemma_mod_at(mods, ids[i], at);
        names[at].lemma_filter_contains(store::plugin_names(), k);
        let m = choose|m: int| 0 <= m < plugins.len() && plugins[m] == q;
        assert(profile::lists_plugin(after.plugin_order, plugins[m]));
    }
}

/// After mods are disabled one after the other, none of them is enabled, and
/// all stay where they are; mods that were not named are untouched.
pub proof fn lemma_all_named_mods_are_disabled(
    order: Seq<ProfileModEntryView>,
    ids: Seq<Seq<char>>,
)
    ensures
        ({
            let after = with_disabled(order, ids);
            &&& after.len() == order.len()
            &&& forall|k: int|
                0 <= k < order.len() ==> (#[trigger] after[k]).mod_id == order[k].mod_id
            &&& forall|k: int|
                0 <= k < order.len() && !ids.contains(order[k].mod_id) ==> #[trigger] after[k]
                    == order[k]
            &&& forall|i: int| 0 <= i < ids.len() ==> !is_on(after, #[trigger] ids[i])
        }),
    decreases ids.len(),
{
    if ids.len() > 0 {
        let t = ids.drop_last();
        let id = ids.last();
        let before = with_disabled(order, t);
        let after = with_disabled(order, ids);
        lemma_all_named_mods_are_disabled(order, t);
        profile::lemma_entry_at(before, id, 0);
        let at = profile::entry_at(before, id, 0);
        assert(ids[ids.len() - 1] == id);
        assert forall|x: Seq<char>| t.contains(x) implies #[trigger] ids.contains(x) by {
            let i = choose|i: int| 0 <= i < t.len() && t[i] == x;
            assert(ids[i] == x);
        }
        assert forall|k: int| 0 <= k < order.len() implies (#[trigger] after[k]).mod_id
            == order[k].mod_id by {
            assert(before[k].mod_id == order[k].mod_id);
        }
        assert forall|k: int|
            0 <= k < order.len() && !ids.contains(order[k].mod_id) implies #[trigger] after[k]
            == order[k] by {
            assert(before[k] == order[k]);
        }
        assert forall|i: int| 0 <= i < ids.len() implies !is_on(after, #[trigger] ids[i]) by {
            if is_on(after, ids[i]) {
                let k = choose|k: int|
                    0 <= k < after.len() && (#[trigger] after[k]).mod_id == ids[i]
                        && after[k].enabled && forall|j: int|
                        0 <= j < k ==> (#[trigger] after[j]).mod_id != ids[i];
                assert forall|j: int| 0 <= j < k implies (#[trigger] before[j]).mod_id
                    != ids[i] by {
                    assert(after[j].mod_id == before[j].mod_id);
                }
                assert(after[k].mod_id == before[k].mod_id);
                if ids[i] == id {
                    profile::lemma_entry_at_eq(before, id, 0, k);
                } else {
                    assert(i < t.len());
                    assert(t[i] == ids[i]);
                    assert(after[k] == before[k]);
                    assert(is_on(before, t[i]));
                }
            }
        }
    }
}

/// An undo brings back what was before the last change, and keeps what it
/// replaces for the next one.
pub proof fn lemma_undo_brings_back(s: UndoStateView)
    ensures
        s.slot is Some ==> undone(s).saved == s.slot,
        s.slot is Some && s.saved is Some ==> undone(s).slot == s.saved,
        s.slot is None ==> undone(s) == s,
{
}

proof fn lemma_names_entered(
    table: Map<Seq<char>, Seq<char>>,
    dir: Seq<char>,
    names: Seq<Seq<char>>,
    lower: Seq<char>,
)
    ensures
        ({
            let after = with_names(table, dir, names);
            &&& (forall|k: int|
                0 <= k < names.len() ==> text::lowercase(#[trigger] names[k]) != lower) ==> (
            after.contains_key(lower) == table.contains_key(lower) && (table.contains_key(lower)
                ==> after[lower] == table[lower]))
            &&& forall|k: int|
                0 <= k < names.len() && text::lowercase(#[trigger] names[k]) == lower && (forall|
                    j: int,
                |
                    k < j < names.len() ==> text::lowercase(#[trigger] names[j]) != lower)
                    ==> after.contains_key(lower) && after[lower] == paths::joined(dir, names[k])
        }),
    decreases names.len(),
{
    if names.len() > 0 {
        let t = names.drop_last();
        lemma_names_entered(table, dir, t, lower);
        assert(names[names.len() - 1] == names.last());
        assert forall|k: int| 0 <= k < t.len() implies #[trigger] t[k] == names[k] by {}
        assert forall|k: int|
            0 <= k < names.len() && text::lowercase(#[trigger] names[k]) == lower && (forall|
                j: int,
            |
                k < j < names.len() ==> text::lowercase(#[trigger] names[j])
                    != lower) implies with_names(table, dir, names).contains_key(lower)
            && with_names(table, dir, names)[lower] == paths::joined(dir, names[k]) by {
            if k < t.len() {
                assert(text::lowercase(names[names.len() - 1]) != lower);
                assert(text::lowercase(t[k]) == lower);
            }
        }
    }
}

/// A file is looked up in the last of the mods that has it in its top folder,
/// whatever the case of letters, as the last mod wins everywhere.
pub proof fn lemma_lookup_finds_the_last(
    mods: Seq<ModEntryView>,
    names: Seq<Seq<Seq<char>>>,
    ids: Seq<Seq<char>>,
    i: int,
    k: int,
)
    requires
        0 <= i < ids.len(),
        store::mod_at(mods, ids[i]) < mods.len(),
        0 <= k < names[store::mod_at(mods, ids[i])].len(),
        forall|j: int|
            k < j < names[store::mod_at(mods, ids[i])].len() ==> text::lowercase(
                #[trigger] names[store::mod_at(mods, ids[i])][j],
            ) != text::lowercase(names[store::mod_at(mods, ids[i])][k]),
        forall|m: int, j: int|
            i < m < ids.len() && store::mod_at(mods, ids[m]) < mods.len() && 0 <= j
                < names[store::mod_at(mods, ids[m])].len() ==> text::lowercase(
                #[trigger] names[store::mod_at(mods, ids[m])][j],
            ) != text::lowercase(names[store::mod_at(mods, ids[i])][k]),
    ensures
        ({
            let at = store::mod_at(mods, ids[i]);
            let lower = text::lowercase(names[at][k]);
            &&& lookup_of(mods, names, ids).contains_key(lower)
            &&& lookup_of(mods, names, ids)[lower] == paths::joined(
                mods[at].content_dir,
                names[at][k],
            )
        }),
    decreases ids.len(),
{
    let at = store::mod_at(mods, ids[i]);
    let lower = text::lowercase(names[at][k]);
    let t = ids.drop_last();
    let before = lookup_of(mods, names, t);
    let last = store::mod_at(mods, ids.last());
    if last < mods.len() {
        lemma_names_entered(before, mods[last].content_dir, names[last], lower);
    }
    if i < t.len() {
        assert(t[i] == ids[i]);
        assert forall|m: int, j: int|
            i < m < t.len() && store::mod_at(mods, t[m]) < mods.len() && 0 <= j
                < names[store::mod_at(mods, t[m])].len() implies text::lowercase(
            #[trigger] names[store::mod_at(mods, t[m])][j],
        ) != text::lowercase(names[store::mod_at(mods, t[i])][k]) by {
            assert(t[m] == ids[m]);
            assert(text::lowercase(names[store::mod_at(mods, ids[m])][j]) != lower);
        }
        lemma_lookup_finds_the_last(mods, names, t, i, k);
        if last < mods.len() {
            let m = ids.len() - 1;
            assert forall|j: int| 0 <= j < names[last].len() implies text::lowercase(
                #[trigger] names[last][j],
            ) != lower by {
                assert(text::lowercase(names[store::mod_at(mods, ids[m])][j]) != lower);
            }
        }
    }
}

/// A file that none of the mods has in its top folder is not found.
pub proof fn lemma_lookup_finds_nothing_else(
    mods: Seq<ModEntryView>,
    names: Seq<Seq<Seq<char>>>,
    ids: Seq<Seq<char>>,
    lower: Seq<char>,
)
    requires
        forall|m: int, j: int|
            0 <= m < ids.len() && store::mod_at(mods, ids[m]) < mods.len() && 0 <= j
                < names[store::mod_at(mods, ids[m])].len() ==> text::lowercase(
                #[trigger] names[store::mod_at(mods, ids[m])][j],
            ) != lower,
    ensures
        !lookup_of(mods, names, ids).contains_key(lower),
    decreases ids.len(),
{
    if ids.len() > 0 {
        let t = ids.drop_last();
        assert forall|m: int, j: int|
            0 <= m < t.len() && store::mod_at(mods, t[m]) < mods.len() && 0 <= j
                < names[store::mod_at(mods, t[m])].len() implies text::lowercase(
            #[trigger] names[store::mod_at(mods, t[m])][j],
        ) != lower by {
            assert(t[m] == ids[m]);
            assert(text::lowercase(names[store::mod_at(mods, ids[m])][j]) != lower);
        }
        lemma_lookup_finds_nothing_else(mods, names, t, lower);
        let last = store::mod_at(mods, ids.last());
        if last < mods.len() {
            let m = ids.len() - 1;
            assert forall|j: int| 0 <= j < names[last].len() implies text::lowercase(
                #[trigger] names[last][j],
            ) != lower by {
                assert(text::lowercase(names[store::mod_at(mods, ids[m])][j]) != lower);
            }
            lemma_names_entered(
                lookup_of(mods, names, t),
                mods[last].content_dir,
                names[last],
                lower,
            );
        }
    }
}

/// The mods that are listed are those that carry the tag and have the text in
/// their name or in a tag, whatever the case of letters, in the order of the
/// store.
pub proof fn lemma_listed_are_the_wanted(
    mods: Seq<ModEntryView>,
    tag: Option<Seq<char>>,
    search: Option<Seq<char>>,
)
    ensures
        wanted(mods, tag, search) == lists::places(mods.len()).filter(
            |i: int|
                {
                    &&& tag is Some ==> mods[i].tags.contains(tag->0)
                    &&& search is Some ==> {
                        ||| text::holds(
                            text::lowercase(mods[i].name),
                            text::lowercase(search->0),
                        )
                        ||| exists|k: int|
                            0 <= k < mods[i].tags.len() && text::holds(
                                text::lowercase(#[trigger] mods[i].tags[k]),
                                text::lowercase(search->0),
                            )
                    }
                },
        ).map_values(|i: int| i as usize),
{
    let pred = |i: int|
        {
            &&& tag is Some ==> mods[i].tags.contains(tag->0)
            &&& search is Some ==> {
                ||| text::holds(text::lowercase(mods[i].name), text::lowercase(search->0))
                ||| exists|k: int|
                    0 <= k < mods[i].tags.len() && text::holds(
                        text::lowercase(#[trigger] mods[i].tags[k]),
                        text::lowercase(search->0),
                    )
            }
        };
    assert forall|i: int| 0 <= i < mods.len() implies #[trigger] pred(i) == is_wanted(
        mods[i],
        tag,
        search,
    ) by {}
    lemma_wanted_by_place(mods, tag, search, pred, mods.len());
    assert(mods.take(mods.len() as int) =~= mods);
}

proof fn lemma_wanted_by_place(
    mods: Seq<ModEntryView>,
    tag: Option<Seq<char>>,
    search: Option<Seq<char>>,
    pred: spec_fn(int) -> bool,
    n: nat,
)
    requires
        n <= mods.len(),
        forall|i: int| 0 <= i < mods.len() ==> #[trigger] pred(i) == is_wanted(mods[i], tag, search),
    ensures
        wanted(mods.take(n as int), tag, search) == lists::places(n).filter(pred).map_values(
            |i: int| i as usize,
        ),
    decreases n,
{
    let f = |i: int| i as usize;
    lists::lemma_places_filter_map((n - 1) as nat, pred, f);
    if n > 0 {
        let m = (n - 1) as nat;
        lemma_wanted_by_place(mods, tag, search, pred, m);
        let here = mods.take(n as int);
        assert(here.drop_last() =~= mods.take(m as int));
        assert(here.last() == mods[m as int]);
        assert(pred(m as int) == is_wanted(mods[m as int], tag, search));
    }
}

/// A sorted list has all mods that are to be listed and no others, and goes by
/// name whatever the case of letters, or from the newest or the largest down.
pub proof fn lemma_list_is_sorted(
    mods: Seq<ModEntryView>,
    sizes: Seq<u64>,
    sort: ModSort,
    places: Seq<usize>,
    list: Seq<usize>,
)
    requires
        places.len() <= usize::MAX,
        is_sorted_list(mods, sizes, sort, places, list),
    ensures
        list.len() == places.len(),
        forall|k: int| 0 <= k < places.len() ==> list.contains(#[trigger] places[k]),
        forall|k: int| 0 <= k < list.len() ==> places.contains(#[trigger] list[k]),
        forall|a: int, b: int|
            #![trigger list[a], list[b]]
            0 <= a < b < list.len() ==> match sort {
                ModSort::Store => list[a] == places[a] && list[b] == places[b],
                ModSort::Name => text::text_less(
                    text::lowercase(mods[list[a] as int].name),
                    text::lowercase(mods[list[b] as int].name),
                ) || text::lowercase(mods[list[a] as int].name) == text::lowercase(
                    mods[list[b] as int].name,
                ),
                ModSort::Date => mods[list[a] as int].installed_at
                    >= mods[list[b] as int].installed_at,
                ModSort::Size => sizes[list[a] as int] >= sizes[list[b] as int],
            },
{
    if sort != ModSort::Store {
        let names = name_keys(mods, places);
        let dates = date_keys(mods, places);
        let amounts = size_keys(sizes, places);
        let order = match sort {
            ModSort::Name => choose|order: Seq<usize>|
                is_by_text(names, order) && list == #[trigger] rearranged(places, order),
            ModSort::Date => choose|order: Seq<usize>|
                store::is_by_size(dates, order) && list == #[trigger] rearranged(places, order),
            _ => choose|order: Seq<usize>|
                store::is_by_size(amounts, order) && list == #[trigger] rearranged(places, order),
        };
        assert(order.len() == places.len());
        assert forall|k: int| 0 <= k < order.len() implies #[trigger] order[k]
            < places.len() by {}
        assert forall|k: int| 0 <= k < places.len() implies list.contains(#[trigger] places[k]) by {
            let v = k as usize;
            if !order.contains(v) {
                let t = order.push(v);
                assert(t.no_duplicates());
                crate::graph::lemma_distinct_below(t, places.len() as int);
            }
            let j = choose|j: int| 0 <= j < order.len() && order[j] == v;
            assert(list[j] == places[k]);
        }
        assert forall|k: int| 0 <= k < list.len() implies places.contains(#[trigger] list[k]) by {
            assert(list[k] == places[order[k] as int]);
        }
        assert forall|a: int, b: int|
            #![trigger list[a], list[b]]
            0 <= a < b < list.len() implies match sort {
            ModSort::Store => list[a] == places[a] && list[b] == places[b],
            ModSort::Name => text::text_less(
                text::lowercase(mods[list[a] as int].name),
                text::lowercase(mods[list[b] as int].name),
            ) || text::lowercase(mods[list[a] as int].name) == text::lowercase(
                mods[list[b] as int].name,
            ),
            ModSort::Date => mods[list[a] as int].installed_at >= mods[list[b] as int].installed_at,
            ModSort::Size => sizes[list[a] as int] >= sizes[list[b] as int],
        } by {
            let x = order[a];
            let y = order[b];
            assert(list[a] == places[x as int]);
            assert(list[b] == places[y as int]);
            assert(names[x as int] == text::lowercase(mods[list[a] as int].name));
            assert(names[y as int] == text::lowercase(mods[list[b] as int].name));
            assert(dates[x as int] == mods[list[a] as int].installed_at);
            assert(dates[y as int] == mods[list[b] as int].installed_at);
            assert(amounts[x as int] == sizes[list[a] as int]);
            assert(amounts[y as int] == sizes[list[b] as int]);
        }
    } else {
        assert forall|k: int| 0 <= k < places.len() implies list.contains(#[trigger] places[k]) by {
            assert(list[k] == places[k]);
        }
    }
}

/// The conflict report has every path that more than one mod provides, each
/// followed by a line for every mod that does; the last of them is marked as the
/// one that wins. Other paths are left out.
pub proof fn lemma_every_conflict_is_reported(
    mods: Seq<ModEntryView>,
    table: Seq<(Seq<char>, Seq<ContributionView>)>,
    colored: bool,
)
    ensures
        conflict_lines(mods, table, colored) == table.filter(
            |row: (Seq<char>, Seq<ContributionView>)| row.1.len() > 1,
        ).map_values(
            |row: (Seq<char>, Seq<ContributionView>)|
                seq![row.0] + row.1.map_values(
                    |c: ContributionView|
                        contribution_line(mods, c, row.1.last().mod_id, colored),
                ),
        ).flatten(),
    decreases table.len(),
{
    let pred = |row: (Seq<char>, Seq<ContributionView>)| row.1.len() > 1;
    let f = |row: (Seq<char>, Seq<ContributionView>)|
        seq![row.0] + row.1.map_values(
            |c: ContributionView| contribution_line(mods, c, row.1.last().mod_id, colored),
        );
    if table.len() == 0 {
        lists::lemma_filter_map_none(table, pred, f);
        assert(Seq::<Seq<Seq<char>>>::empty().flatten() =~= Seq::<Seq<char>>::empty());
    } else {
        let t = table.drop_last();
        let row = table.last();
        lemma_every_conflict_is_reported(mods, t, colored);
        lists::lemma_filter_map_push(t, row, pred, f);
        assert(t.push(row) =~= table);
        if row.1.len() > 1 {
            lists::lemma_flatten_push(t.filter(pred).map_values(f), f(row));
            let before = conflict_lines(mods, t, colored);
            assert(contribution_lines(mods, row.1, row.1.last().mod_id, colored)
                =~= row.1.map_values(
                |c: ContributionView| contribution_line(mods, c, row.1.last().mod_id, colored),
            ));
            assert(conflict_lines(mods, table, colored) =~= before + f(row));
        }
    }
}

/// The line of a mod that provides a path ends in its name, and says that it
/// wins exactly where it does.
pub proof fn lemma_who_wins_is_shown(
    mods: Seq<ModEntryView>,
    c: ContributionView,
    winner: Seq<char>,
)
    ensures
        c.mod_id == winner ==> contribution_line(mods, c, winner, false) == "    [WINS] "@
            + profile::shown_name(mods, c.mod_id),
        c.mod_id != winner ==> contribution_line(mods, c, winner, false) == "    [    ] "@
            + profile::shown_name(mods, c.mod_id),
{
    reveal_strlit("    [");
    reveal_strlit("WINS");
    reveal_strlit("    ");
    reveal_strlit("] ");
    reveal_strlit("    [WINS] ");
    reveal_strlit("    [    ] ");
    assert(color::painted("32"@, "WINS"@, false) == "WINS"@);
    assert("    ["@ + "WINS"@ + "] "@ =~= "    [WINS] "@);
    assert("    ["@ + "    "@ + "] "@ =~= "    [    ] "@);
}

/// The report on archives has every path, each followed by a line for every
/// archive that holds it.
pub proof fn lemma_every_overlap_is_shown(
    mods: Seq<ModEntryView>,
    overlaps: Seq<(Seq<char>, Seq<(Seq<char>, Seq<char>)>)>,
)
    ensures
        overlap_lines(mods, overlaps) == overlaps.map_values(
            |row: (Seq<char>, Seq<(Seq<char>, Seq<char>)>)|
                seq![row.0] + row.1.map_values(
                    |c: (Seq<char>, Seq<char>)|
                        "        "@ + profile::shown_name(mods, c.0) + " ("@ + c.1 + ")"@,
                ),
        ).flatten(),
    decreases overlaps.len(),
{
    let f = |row: (Seq<char>, Seq<(Seq<char>, Seq<char>)>)|
        seq![row.0] + row.1.map_values(
            |c: (Seq<char>, Seq<char>)|
                "        "@ + profile::shown_name(mods, c.0) + " ("@ + c.1 + ")"@,
        );
    if overlaps.len() == 0 {
        assert(overlaps.map_values(f).flatten() =~= Seq::<Seq<char>>::empty());
    } else {
        let t = overlaps.drop_last();
        let row = overlaps.last();
        lemma_every_overlap_is_shown(mods, t);
        assert(overlaps.map_values(f) =~= t.map_values(f).push(f(row)));
        lists::lemma_flatten_push(t.map_values(f), f(row));
        assert(archive_lines(mods, row.1) =~= row.1.map_values(
            |c: (Seq<char>, Seq<char>)|
                "        "@ + profile::shown_name(mods, c.0) + " ("@ + c.1 + ")"@,
        ));
        assert(overlap_lines(mods, overlaps) =~= overlap_lines(mods, t) + f(row));
    }
}

} // verus!
