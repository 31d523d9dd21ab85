//! Profiles: which mods are enabled and in which order they win, and the order
//! in which plugins load.

use crate::lists;
use crate::paths;
use crate::store;
use crate::store::{ModEntryView, ModStore};
use crate::text;
use vstd::prelude::*;

verus! {

/// One mod's place in a profile.
#[derive(Debug, Clone)]
pub struct ProfileModEntry {
    pub mod_id: String,
    pub enabled: bool,
}

/// A profile.
#[derive(Debug, Clone)]
pub struct Profile {
    pub name: String,
    /// The mods, lowest priority first: of two that provide a file the later
    /// one wins.
    pub mod_order: Vec<ProfileModEntry>,
    /// The plugins by file name, in load order.
    pub plugin_order: Vec<String>,
    /// The install that the profile is for.
    pub game_id: String,
}

/// The mathematical content of a [`ProfileModEntry`].
pub struct ProfileModEntryView {
    pub mod_id: Seq<char>,
    pub enabled: bool,
}

/// The mathematical content of a [`Profile`].
pub struct ProfileView {
    pub name: Seq<char>,
    pub mod_order: Seq<ProfileModEntryView>,
    pub plugin_order: Seq<Seq<char>>,
    pub game_id: Seq<char>,
}

impl DeepView for ProfileModEntry {
    type V = ProfileModEntryView;

    open spec fn deep_view(&self) -> ProfileModEntryView {
        ProfileModEntryView { mod_id: self.mod_id@, enabled: self.enabled }
    }
}

impl DeepView for Profile {
    type V = ProfileView;

    open spec fn deep_view(&self) -> ProfileView {
        ProfileView {
            name: self.name@,
            mod_order: self.mod_order.deep_view(),
            plugin_order: self.plugin_order.deep_view(),
            game_id: self.game_id@,
        }
    }
}

/// The name of what `char::is_alphanumeric` says of a character.
pub uninterp spec fn is_alphanumeric(c: char) -> bool;

/// Wraps `char::is_alphanumeric`, whose result depends on the character alone.
/// Of the ASCII characters the letters and digits are alphanumeric.
#[verifier::external_body]
fn alphanumeric_char(c: char) -> (r: bool)
    ensures
        r == is_alphanumeric(c),
        (c as u32) < 128 ==> r == ('0' <= c <= '9' || 'A' <= c <= 'Z' || 'a' <= c <= 'z'),
{
    c.is_alphanumeric()
}

/// The character that stands for `c` in a file name.
pub open spec fn safe_char(c: char) -> char {
    if is_alphanumeric(c) || c == '-' || c == '_' {
        c
    } else {
        '_'
    }
}

/// The file that a profile of this name is kept in.
pub open spec fn file_name_of(name: Seq<char>) -> Seq<char> {
    name.map_values(|c: char| safe_char(c)) + ".json"@
}

/// The place of the first entry for this mod, or the number of entries.
pub open spec fn entry_at(order: Seq<ProfileModEntryView>, id: Seq<char>, i: int) -> int
    decreases order.len() - i,
{
    if i >= order.len() || order[i].mod_id == id {
        i
    } else {
        entry_at(order, id, i + 1)
    }
}

pub proof fn lemma_entry_at(order: Seq<ProfileModEntryView>, id: Seq<char>, i: int)
    requires
        0 <= i <= order.len(),
    ensures
        i <= entry_at(order, id, i) <= order.len(),
        entry_at(order, id, i) < order.len() ==> order[entry_at(order, id, i)].mod_id == id,
        forall|j: int| i <= j < entry_at(order, id, i) ==> (#[trigger] order[j]).mod_id != id,
    decreases order.len() - i,
{
    if i < order.len() && order[i].mod_id != id {
        lemma_entry_at(order, id, i + 1);
    }
}

pub proof fn lemma_entry_at_eq(order: Seq<ProfileModEntryView>, id: Seq<char>, i: int, k: int)
    requires
        0 <= i <= k <= order.len(),
        k < order.len() ==> order[k].mod_id == id,
        forall|j: int| i <= j < k ==> (#[trigger] order[j]).mod_id != id,
    ensures
        entry_at(order, id, i) == k,
    decreases k - i,
{
    if i < k {
        assert(order[i].mod_id != id);
        lemma_entry_at_eq(order, id, i + 1, k);
    }
}

/// The order with a mod enabled: at the end, where it wins most conflicts,
/// unless it is there.
pub open spec fn enabled_in(order: Seq<ProfileModEntryView>, id: Seq<char>) -> Seq<
    ProfileModEntryView,
> {
    let i = entry_at(order, id, 0);
    let entry = ProfileModEntryView { mod_id: id, enabled: true };
    if i < order.len() {
        order.update(i, entry)
    } else {
        order.push(entry)
    }
}

/// The order with a mod disabled.
pub open spec fn disabled_in(order: Seq<ProfileModEntryView>, id: Seq<char>) -> Seq<
    ProfileModEntryView,
> {
    let i = entry_at(order, id, 0);
    if i < order.len() {
        order.update(i, ProfileModEntryView { mod_id: id, enabled: false })
    } else {
        order
    }
}

/// The order with a mod moved to a place, the end where there is no such place.
pub open spec fn moved_in(
    order: Seq<ProfileModEntryView>,
    id: Seq<char>,
    new_index: int,
) -> Seq<ProfileModEntryView> {
    let i = entry_at(order, id, 0);
    if i < order.len() {
        let rest = order.remove(i);
        let at = if new_index <= rest.len() {
            new_index
        } else {
            rest.len() as int
        };
        rest.insert(at, order[i])
    } else {
        order
    }
}

/// The ids of the enabled mods, in order.
pub open spec fn enabled_ids(order: Seq<ProfileModEntryView>) -> Seq<Seq<char>>
    decreases order.len(),
{
    if order.len() == 0 {
        Seq::empty()
    } else if order.last().enabled {
        enabled_ids(order.drop_last()).push(order.last().mod_id)
    } else {
        enabled_ids(order.drop_last())
    }
}

/// Whether a plugin is listed, whatever the case of its letters.
pub open spec fn lists_plugin(list: Seq<Seq<char>>, plugin: Seq<char>) -> bool {
    exists|k: int|
        0 <= k < list.len() && text::ascii_fold(#[trigger] list[k]) == text::ascii_fold(plugin)
}

/// The list with further plugins at its end, those that are listed left out.
pub open spec fn with_plugins(list: Seq<Seq<char>>, plugins: Seq<Seq<char>>) -> Seq<Seq<char>>
    decreases plugins.len(),
{
    if plugins.len() == 0 {
        list
    } else {
        let before = with_plugins(list, plugins.drop_last());
        if lists_plugin(before, plugins.last()) {
            before
        } else {
            before.push(plugins.last())
        }
    }
}

/// The profile with a mod enabled and its plugins registered.
pub open spec fn enabled_with(
    p: ProfileView,
    id: Seq<char>,
    plugins: Seq<Seq<char>>,
) -> ProfileView {
    ProfileView {
        mod_order: enabled_in(p.mod_order, id),
        plugin_order: with_plugins(p.plugin_order, plugins),
        ..p
    }
}

/// The condition not to be an entry of this mod.
pub open spec fn is_other(id: Seq<char>) -> spec_fn(ProfileModEntryView) -> bool {
    |e: ProfileModEntryView| e.mod_id != id
}

/// The name that a mod is shown under: that of the store, or its id.
pub open spec fn shown_name(mods: Seq<ModEntryView>, id: Seq<char>) -> Seq<char> {
    let i = store::mod_at(mods, id);
    if i < mods.len() {
        mods[i].name
    } else {
        id
    }
}

/// The lines for the mods of a profile.
pub open spec fn mod_lines(order: Seq<ProfileModEntryView>, mods: Seq<ModEntryView>) -> Seq<char>
    decreases order.len(),
{
    if order.len() == 0 {
        Seq::empty()
    } else {
        let e = order.last();
        mod_lines(order.drop_last(), mods) + "  ["@ + (if e.enabled {
            "x"@
        } else {
            " "@
        }) + "] "@ + shown_name(mods, e.mod_id) + "\n"@
    }
}

/// The lines for the plugins of a profile.
pub open spec fn plugin_lines(plugins: Seq<Seq<char>>) -> Seq<char>
    decreases plugins.len(),
{
    if plugins.len() == 0 {
        Seq::empty()
    } else {
        plugin_lines(plugins.drop_last()) + "  "@ + plugins.last() + "\n"@
    }
}

/// A profile in words.
pub open spec fn readable(p: ProfileView, mods: Seq<ModEntryView>) -> Seq<char> {
    "Profile: "@ + p.name + "\n\n"@
        + "Mod load order (top = lowest priority, bottom wins conflicts):\n"@ + mod_lines(
        p.mod_order,
        mods,
    ) + "\nPlugin load order:\n"@ + plugin_lines(p.plugin_order)
}

/// `s` without the stars that it begins with.
pub open spec fn without_stars(s: Seq<char>) -> Seq<char>
    decreases s.len(),
{
    if s.len() > 0 && s[0] == '*' {
        without_stars(s.drop_first())
    } else {
        s
    }
}

/// The plugins that the lines of a `plugins.txt` name: comments and empty lines
/// name none, and stars mark those that are enabled.
pub open spec fn plugins_in_lines(lines: Seq<Seq<char>>) -> Seq<Seq<char>>
    decreases lines.len(),
{
    if lines.len() == 0 {
        Seq::empty()
    } else {
        let before = plugins_in_lines(lines.drop_last());
        let l = text::trimmed(lines.last());
        if l.len() > 0 && l[0] != '#' {
            before.push(without_stars(l))
        } else {
            before
        }
    }
}

fn strip_stars(s: &str) -> (r: String)
    ensures
        r@ == without_stars(s@),
{
    let x = text::chars_of(s);
    let mut i: usize = 0;
    assert(x@.skip(0) =~= x@);
    while i < x.len() && x[i] == '*'
        invariant
            i <= x@.len(),
            without_stars(x@) == without_stars(x@.skip(i as int)),
        decreases x.len() - i,
    {
        assert(x@.skip(i as int).drop_first() =~= x@.skip(i + 1));
        i += 1;
    }
    assert(x@.subrange(i as int, x@.len() as int) =~= x@.skip(i as int));
    text::slice_text(&x, i, x.len())
}

/// What renaming a profile asks of its files.
#[derive(Debug, Clone)]
pub struct RenameFiles {
    /// The file to write the profile to.
    pub write: String,
    /// The file to remove then, where that is another.
    pub remove: Option<String>,
}

impl Profile {
    /// A profile without mods.
    pub fn new(name: &str, game_id: &str) -> (r: Self)
        ensures
            r.deep_view() == (ProfileView {
                name: name@,
                mod_order: Seq::empty(),
                plugin_order: Seq::empty(),
                game_id: game_id@,
            }),
    {
        let r = Profile {
            name: name.to_owned(),
            mod_order: Vec::new(),
            plugin_order: Vec::new(),
            game_id: game_id.to_owned(),
        };
        assert(r.mod_order.deep_view() =~= Seq::<ProfileModEntryView>::empty());
        assert(r.plugin_order.deep_view() =~= Seq::<Seq<char>>::empty());
        r
    }

    /// The file that a profile of this name is kept in.
    pub fn file_name(name: &str) -> (r: String)
        ensures
            r@ == file_name_of(name@),
    {
        let x = text::chars_of(name);
        let ghost goal = name@.map_values(|c: char| safe_char(c));
        let mut out: Vec<char> = Vec::new();
        let mut i: usize = 0;
        while i < x.len()
            invariant
                i <= x@.len(),
                x@ == name@,
                goal == name@.map_values(|c: char| safe_char(c)),
                out@ == goal.take(i as int),
            decreases x.len() - i,
        {
            let c = x[i];
            if alphanumeric_char(c) || c == '-' || c == '_' {
                out.push(c);
            } else {
                out.push('_');
            }
            i += 1;
            assert(out@ =~= goal.take(i as int));
        }
        assert(out@ =~= goal);
        text::concat(text::text_of(out.as_slice()).as_str(), ".json")
    }

    /// The names of the profiles among the files of the profile folder, given
    /// each file's name and the name of the profile in it, if it holds one.
    pub fn list_all(files: &Vec<(String, Option<String>)>) -> (r: Vec<String>)
        ensures
            r.deep_view() == names_in(files.deep_view()),
    {
        let ghost fv = files.deep_view();
        let mut out: Vec<String> = Vec::new();
        let mut i: usize = 0;
        assert(fv.take(0) =~= Seq::<(Seq<char>, Option<Seq<char>>)>::empty());
        assert(out.deep_view() =~= Seq::<Seq<char>>::empty());
        while i < files.len()
            invariant
                i <= files@.len(),
                fv == files.deep_view(),
                out.deep_view() == names_in(fv.take(i as int)),
            decreases files.len() - i,
        {
            assert(fv.take(i + 1).drop_last() =~= fv.take(i as int));
            assert(fv.take(i + 1).last() == files@[i as int].deep_view());
            let json = match paths::name_extension(files[i].0.as_str()) {
                Some(e) => text::same_text(e.as_str(), "json"),
                None => false,
            };
            if json {
                if let Some(name) = &files[i].1 {
                    let ghost before = out.deep_view();
                    out.push(name.clone());
                    assert(out.deep_view() =~= before.push(name@));
                }
            }
            i += 1;
        }
        assert(fv.take(i as int) =~= fv);
        out
    }

    /// Where the first entry for a mod stands, or the number of entries.
    pub fn place_of(&self, mod_id: &str) -> (i: usize)
        ensures
            i <= self.mod_order@.len(),
            i == entry_at(self.deep_view().mod_order, mod_id@, 0),
            i < self.mod_order@.len() ==> self.mod_order@[i as int].mod_id@ == mod_id@,
    {
        let ghost order = self.deep_view().mod_order;
        let mut i: usize = 0;
        while i < self.mod_order.len() && !text::same_text(
            self.mod_order[i].mod_id.as_str(),
            mod_id,
        )
            invariant
                i <= self.mod_order@.len(),
                order == self.deep_view().mod_order,
                entry_at(order, mod_id@, 0) == entry_at(order, mod_id@, i as int),
            decreases self.mod_order.len() - i,
        {
            i += 1;
        }
        i
    }

    /// Enables a mod: at the end of the order, where it wins most conflicts,
    /// unless it is there.
    pub fn enable_mod(&mut self, mod_id: &str)
        ensures
            final(self).deep_view() == (ProfileView {
                mod_order: enabled_in(old(self).deep_view().mod_order, mod_id@),
                ..old(self).deep_view()
            }),
    {
        let ghost order = self.mod_order.deep_view();
        let i: usize = self.place_of(mod_id);
        let entry = ProfileModEntry { mod_id: mod_id.to_owned(), enabled: true };
        let ghost ev = entry.deep_view();
        if i < self.mod_order.len() {
            self.mod_order.set(i, entry);
            assert(self.mod_order.deep_view() =~= order.update(i as int, ev));
        } else {
            self.mod_order.push(entry);
            assert(self.mod_order.deep_view() =~= order.push(ev));
        }
    }

    /// Disables a mod. It keeps its place.
    pub fn disable_mod(&mut self, mod_id: &str)
        ensures
            final(self).deep_view() == (ProfileView {
                mod_order: disabled_in(old(self).deep_view().mod_order, mod_id@),
                ..old(self).deep_view()
            }),
    {
        let ghost order = self.mod_order.deep_view();
        let i: usize = self.place_of(mod_id);
        if i < self.mod_order.len() {
            let entry = ProfileModEntry { mod_id: mod_id.to_owned(), enabled: false };
            let ghost ev = entry.deep_view();
            self.mod_order.set(i, entry);
            assert(self.mod_order.deep_view() =~= order.update(i as int, ev));
        }
    }

    /// Adds plugins at the end of the load order, those that are listed left
    /// out.
    fn register_plugins(&mut self, plugins: &Vec<String>)
        ensures
            final(self).deep_view() == (ProfileView {
                plugin_order: with_plugins(
                    old(self).deep_view().plugin_order,
                    plugins.deep_view(),
                ),
                ..old(self).deep_view()
            }),
    {
        let ghost start = self.deep_view();
        let ghost pv = plugins.deep_view();
        let mut i: usize = 0;
        assert(pv.take(0) =~= Seq::<Seq<char>>::empty());
        while i < plugins.len()
            invariant
                i <= plugins@.len(),
                pv == plugins.deep_view(),
                self.deep_view() == (ProfileView {
                    plugin_order: with_plugins(start.plugin_order, pv.take(i as int)),
                    ..start
                }),
            decreases plugins.len() - i,
        {
            assert(pv.take(i + 1).drop_last() =~= pv.take(i as int));
            assert(pv.take(i + 1).last() == plugins@[i as int]@);
            if !is_listed(&self.plugin_order, plugins[i].as_str()) {
                let ghost before = self.plugin_order.deep_view();
                self.plugin_order.push(plugins[i].clone());
                assert(self.plugin_order.deep_view() =~= before.push(pv[i as int]));
            }
            i += 1;
        }
        assert(pv.take(i as int) =~= pv);
    }

    /// Enables a mod and adds the plugins that it ships to the end of the load
    /// order, where they are not listed. `names` are those in the mod's top
    /// folder.
    pub fn enable_mod_with_plugins(&mut self, store: &ModStore, mod_id: &str, names: &Vec<String>)
        ensures
            final(self).deep_view() == enabled_with(
                old(self).deep_view(),
                mod_id@,
                if store::mod_at(store.deep_view(), mod_id@) < store.deep_view().len() {
                    names.deep_view().filter(store::plugin_names())
                } else {
                    Seq::empty()
                },
            ),
    {
        self.enable_mod(mod_id);
        let plugins = store.discover_plugins(mod_id, names);
        self.register_plugins(&plugins);
    }

    /// Moves a mod to a place in the order; 0 is the lowest priority.
    pub fn reorder(&mut self, mod_id: &str, new_index: usize)
        ensures
            final(self).deep_view() == (ProfileView {
                mod_order: moved_in(old(self).deep_view().mod_order, mod_id@, new_index as int),
                ..old(self).deep_view()
            }),
    {
        let ghost order = self.mod_order.deep_view();
        let i: usize = self.place_of(mod_id);
        if i < self.mod_order.len() {
            let entry = self.mod_order.remove(i);
            let ghost ev = entry.deep_view();
            let ghost rest = self.mod_order.deep_view();
            assert(rest =~= order.remove(i as int));
            let at: usize = if new_index <= self.mod_order.len() {
                new_index
            } else {
                self.mod_order.len()
            };
            self.mod_order.insert(at, entry);
            assert(self.mod_order.deep_view() =~= rest.insert(at as int, ev));
        }
    }

    /// The ids of the enabled mods, in order.
    pub fn enabled_mods_in_order(&self) -> (r: Vec<String>)
        ensures
            r.deep_view() == enabled_ids(self.deep_view().mod_order),
    {
        let ghost order = self.deep_view().mod_order;
        let mut out: Vec<String> = Vec::new();
        let mut i: usize = 0;
        assert(order.take(0) =~= Seq::<ProfileModEntryView>::empty());
        assert(out.deep_view() =~= Seq::<Seq<char>>::empty());
        while i < self.mod_order.len()
            invariant
                i <= self.mod_order@.len(),
                order == self.mod_order.deep_view(),
                out.deep_view() == enabled_ids(order.take(i as int)),
            decreases self.mod_order.len() - i,
        {
            assert(order.take(i + 1).drop_last() =~= order.take(i as int));
            assert(order.take(i + 1).last() == self.mod_order@[i as int].deep_view());
            if self.mod_order[i].enabled {
                let ghost before = out.deep_view();
                out.push(self.mod_order[i].mod_id.clone());
                assert(out.deep_view() =~= before.push(order[i as int].mod_id));
            }
            i += 1;
        }
        assert(order.take(i as int) =~= order);
        out
    }

    /// Takes a mod that left the store out of the order. Tells whether anything
    /// changed.
    pub fn scrub(&mut self, mod_id: &str) -> (changed: bool)
        ensures
            final(self).deep_view() == (ProfileView {
                mod_order: old(self).deep_view().mod_order.filter(is_other(mod_id@)),
                ..old(self).deep_view()
            }),
            changed == (final(self).deep_view().mod_order.len() != old(
                self,
            ).deep_view().mod_order.len()),
    {
        let ghost order = self.mod_order.deep_view();
        let mut kept: Vec<ProfileModEntry> = Vec::new();
        let mut i: usize = 0;
        reveal(Seq::filter);
        assert(order.take(0) =~= Seq::<ProfileModEntryView>::empty());
        assert(kept.deep_view() =~= Seq::<ProfileModEntryView>::empty());
        while i < self.mod_order.len()
            invariant
                i <= self.mod_order@.len(),
                self.deep_view() == old(self).deep_view(),
                order == self.mod_order.deep_view(),
                kept.deep_view() == order.take(i as int).filter(is_other(mod_id@)),
            decreases self.mod_order.len() - i,
        {
            reveal(Seq::filter);
            assert(order.take(i + 1).drop_last() =~= order.take(i as int));
            assert(order.take(i + 1).last() == self.mod_order@[i as int].deep_view());
            let e = &self.mod_order[i];
            if !text::same_text(e.mod_id.as_str(), mod_id) {
                let ghost before = kept.deep_view();
                kept.push(ProfileModEntry { mod_id: e.mod_id.clone(), enabled: e.enabled });
                assert(kept.deep_view() =~= before.push(order[i as int]));
            }
            i += 1;
        }
        assert(order.take(i as int) =~= order);
        let changed = kept.len() != self.mod_order.len();
        assert(kept.deep_view().len() == kept@.len());
        assert(order.len() == self.mod_order@.len());
        self.mod_order = kept;
        changed
    }

    /// A copy of the profile under another name.
    pub fn clone_as(&self, new_name: &str) -> (r: Profile)
        ensures
            r.deep_view() == (ProfileView { name: new_name@, ..self.deep_view() }),
    {
        let ghost order = self.mod_order.deep_view();
        let mut mod_order: Vec<ProfileModEntry> = Vec::new();
        let mut i: usize = 0;
        while i < self.mod_order.len()
            invariant
                i <= self.mod_order@.len(),
                order == self.mod_order.deep_view(),
                mod_order.deep_view() == order.take(i as int),
            decreases self.mod_order.len() - i,
        {
            let ghost before = mod_order.deep_view();
            let e = &self.mod_order[i];
            mod_order.push(ProfileModEntry { mod_id: e.mod_id.clone(), enabled: e.enabled });
            i += 1;
            assert(mod_order.deep_view() =~= before.push(order[i - 1]));
            assert(mod_order.deep_view() =~= order.take(i as int));
        }
        assert(mod_order.deep_view() =~= order);
        Profile {
            name: new_name.to_owned(),
            mod_order,
            plugin_order: text::copy_list(&self.plugin_order),
            game_id: self.game_id.clone(),
        }
    }

    /// Renames the profile, and tells which file to write and which to remove.
    pub fn rename(&mut self, profiles_dir: &str, new_name: &str) -> (r: RenameFiles)
        ensures
            final(self).deep_view() == (ProfileView { name: new_name@, ..old(self).deep_view() }),
            r.write@ == paths::joined(profiles_dir@, file_name_of(new_name@)),
            r.remove.deep_view() == (if file_name_of(old(self).deep_view().name) == file_name_of(
                new_name@,
            ) {
                None
            } else {
                Some(paths::joined(profiles_dir@, file_name_of(old(self).deep_view().name)))
            }),
    {
        let old_file = Profile::file_name(self.name.as_str());
        let new_file = Profile::file_name(new_name);
        self.name = new_name.to_owned();
        let remove = if text::same_text(old_file.as_str(), new_file.as_str()) {
            None
        } else {
            Some(paths::join(profiles_dir, old_file.as_str()))
        };
        RenameFiles { write: paths::join(profiles_dir, new_file.as_str()), remove }
    }

    /// A summary for people, of the mods by name and of the plugins.
    pub fn export_readable(&self, store: &ModStore) -> (r: String)
        ensures
            r@ == readable(self.deep_view(), store.deep_view()),
    {
        let ghost p = self.deep_view();
        let ghost mods = store.deep_view();
        let mut out = text::concat3("Profile: ", self.name.as_str(), "\n\n");
        out.append("Mod load order (top = lowest priority, bottom wins conflicts):\n");
        let ghost head = out@;
        let mut i: usize = 0;
        assert(p.mod_order.take(0) =~= Seq::<ProfileModEntryView>::empty());
        assert(head + mod_lines(p.mod_order.take(0), mods) =~= head);
        while i < self.mod_order.len()
            invariant
                i <= self.mod_order@.len(),
                p == self.deep_view(),
                mods == store.deep_view(),
                out@ == head + mod_lines(p.mod_order.take(i as int), mods),
            decreases self.mod_order.len() - i,
        {
            let ghost t = p.mod_order.take(i + 1);
            assert(t.drop_last() =~= p.mod_order.take(i as int));
            assert(t.last() == self.mod_order@[i as int].deep_view());
            let e = &self.mod_order[i];
            let name = name_for(store, e.mod_id.as_str());
            out.append("  [");
            out.append(
                if e.enabled {
                    "x"
                } else {
                    " "
                },
            );
            out.append("] ");
            out.append(name.as_str());
            out.append("\n");
            i += 1;
            assert(out@ =~= head + mod_lines(t, mods));
        }
        assert(p.mod_order.take(i as int) =~= p.mod_order);
        out.append("\nPlugin load order:\n");
        let ghost middle = out@;
        let mut k: usize = 0;
        assert(p.plugin_order.take(0) =~= Seq::<Seq<char>>::empty());
        assert(middle + plugin_lines(p.plugin_order.take(0)) =~= middle);
        while k < self.plugin_order.len()
            invariant
                k <= self.plugin_order@.len(),
                p == self.deep_view(),
                out@ == middle + plugin_lines(p.plugin_order.take(k as int)),
            decreases self.plugin_order.len() - k,
        {
            let ghost t = p.plugin_order.take(k + 1);
            assert(t.drop_last() =~= p.plugin_order.take(k as int));
            assert(t.last() == self.plugin_order@[k as int]@);
            out.append("  ");
            out.append(self.plugin_order[k].as_str());
            out.append("\n");
            k += 1;
            assert(out@ =~= middle + plugin_lines(t));
        }
        assert(p.plugin_order.take(k as int) =~= p.plugin_order);
        out
    }

    /// Replaces the load order by that in the text of a `plugins.txt`. Lines
    /// that begin with `#` are comments; stars at the start of a line, which
    /// mark enabled plugins, are left out.
    pub fn import_plugins_txt(&mut self, contents: &str)
        ensures
            final(self).deep_view() == (ProfileView {
                plugin_order: plugins_in_lines(text::lines(contents@)),
                ..old(self).deep_view()
            }),
    {
        let lines = text::split_lines(contents);
        let ghost lv = lines.deep_view();
        let mut out: Vec<String> = Vec::new();
        let mut i: usize = 0;
        assert(lv.take(0) =~= Seq::<Seq<char>>::empty());
        assert(out.deep_view() =~= Seq::<Seq<char>>::empty());
        while i < lines.len()
            invariant
                i <= lines@.len(),
                lv == lines.deep_view(),
                out.deep_view() == plugins_in_lines(lv.take(i as int)),
            decreases lines.len() - i,
        {
            assert(lv.take(i + 1).drop_last() =~= lv.take(i as int));
            assert(lv.take(i + 1).last() == lines@[i as int]@);
            let line = text::trim(lines[i].as_str());
            let x = text::chars_of(line.as_str());
            if x.len() > 0 && x[0] != '#' {
                let ghost before = out.deep_view();
                let plugin = strip_stars(line.as_str());
                out.push(plugin);
                assert(out.deep_view() =~= before.push(plugin@));
            }
            i += 1;
        }
        assert(lv.take(i as int) =~= lv);
        self.plugin_order = out;
    }
}

/// The names of profiles among files, given each file's name and the name of
/// the profile in it.
pub open spec fn names_in(files: Seq<(Seq<char>, Option<Seq<char>>)>) -> Seq<Seq<char>>
    decreases files.len(),
{
    if files.len() == 0 {
        Seq::empty()
    } else {
        let before = names_in(files.drop_last());
        let f = files.last();
        if paths::extension_of(f.0) == Some("json"@) && f.1 is Some {
            before.push(f.1->0)
        } else {
            before
        }
    }
}

fn is_listed(list: &Vec<String>, plugin: &str) -> (r: bool)
    ensures
        r == lists_plugin(list.deep_view(), plugin@),
{
    let ghost lv = list.deep_view();
    let mut i: usize = 0;
    while i < list.len()
        invariant
            i <= list@.len(),
            lv == list.deep_view(),
            forall|k: int|
                0 <= k < i ==> text::ascii_fold(#[trigger] lv[k]) != text::ascii_fold(plugin@),
        decreases list.len() - i,
    {
        if text::same_ignoring_case(list[i].as_str(), plugin) {
            assert(text::ascii_fold(lv[i as int]) == text::ascii_fold(plugin@));
            return true;
        }
        i += 1;
    }
    false
}

/// The name that a mod is shown under: that of the store, or its id.
pub fn name_for(store: &ModStore, id: &str) -> (r: String)
    ensures
        r@ == shown_name(store.deep_view(), id@),
{
    proof {
        store::lemma_mod_at_is(store.deep_view(), id@);
    }
    match store.get(id) {
        Some(m) => m.name.clone(),
        None => id.to_owned(),
    }
}

// ---------------------------------------------------------------------------
// Laws
// ---------------------------------------------------------------------------

/// Enabling a mod twice is enabling it once.
pub proof fn lemma_enable_twice(order: Seq<ProfileModEntryView>, id: Seq<char>)
    ensures
        enabled_in(enabled_in(order, id), id) == enabled_in(order, id),
{
    let once = enabled_in(order, id);
    let i = entry_at(order, id, 0);
    lemma_entry_at(order, id, 0);
    assert forall|j: int| 0 <= j < i implies (#[trigger] once[j]).mod_id != id by {
        assert(once[j] == order[j]);
    }
    lemma_entry_at_eq(once, id, 0, i);
    assert(enabled_in(once, id) =~= once);
}

/// An enabled mod is among those that are enabled.
pub proof fn lemma_enabled_is_listed(order: Seq<ProfileModEntryView>, id: Seq<char>)
    ensures
        enabled_ids(enabled_in(order, id)).contains(id),
{
    let once = enabled_in(order, id);
    let i = entry_at(order, id, 0);
    lemma_entry_at(order, id, 0);
    assert(once[i].enabled && once[i].mod_id == id);
    lemma_enabled_entry_listed(once, i);
}

proof fn lemma_enabled_entry_listed(order: Seq<ProfileModEntryView>, i: int)
    requires
        0 <= i < order.len(),
        order[i].enabled,
    ensures
        enabled_ids(order).contains(order[i].mod_id),
    decreases order.len(),
{
    let all = enabled_ids(order);
    let before = enabled_ids(order.drop_last());
    if i == order.len() - 1 {
        assert(all[all.len() - 1] == order[i].mod_id);
    } else {
        lemma_enabled_entry_listed(order.drop_last(), i);
        let k = choose|k: int| 0 <= k < before.len() && before[k] == order[i].mod_id;
        assert(all[k] == order[i].mod_id);
    }
}

/// A mod that stands in the order once and is disabled is not among those that
/// are enabled.
pub proof fn lemma_disabled_is_not_listed(order: Seq<ProfileModEntryView>, id: Seq<char>)
    requires
        forall|a: int, b: int| 0 <= a < b < order.len() ==> order[a].mod_id != order[b].mod_id,
    ensures
        !enabled_ids(disabled_in(order, id)).contains(id),
{
    let after = disabled_in(order, id);
    let i = entry_at(order, id, 0);
    lemma_entry_at(order, id, 0);
    assert forall|k: int| 0 <= k < after.len() && (#[trigger] after[k]).enabled implies after[k].mod_id
        != id by {
        if i < order.len() {
            if k < i {
                assert(order[k].mod_id != order[i].mod_id);
            } else if k > i {
                assert(order[i].mod_id != order[k].mod_id);
            }
        }
    }
    lemma_not_enabled_not_listed(after, id);
}

proof fn lemma_not_enabled_not_listed(order: Seq<ProfileModEntryView>, id: Seq<char>)
    requires
        forall|k: int| 0 <= k < order.len() && (#[trigger] order[k]).enabled ==> order[k].mod_id != id,
    ensures
        !enabled_ids(order).contains(id),
    decreases order.len(),
{
    if order.len() > 0 {
        let t = order.drop_last();
        assert forall|k: int| 0 <= k < t.len() && (#[trigger] t[k]).enabled implies t[k].mod_id != id by {
            assert(t[k] == order[k]);
        }
        lemma_not_enabled_not_listed(t, id);
        let all = enabled_ids(order);
        let before = enabled_ids(t);
        if all.contains(id) {
            let k = choose|k: int| 0 <= k < all.len() && all[k] == id;
            if k < before.len() {
                assert(before[k] == id);
            } else {
                assert(order[order.len() - 1].enabled);
            }
        }
    }
}

/// Moving a mod neither drops an entry nor adds one, and puts the mod where it
/// was asked to go.
pub proof fn lemma_reorder_moves(
    order: Seq<ProfileModEntryView>,
    id: Seq<char>,
    new_index: int,
)
    requires
        0 <= new_index,
    ensures
        moved_in(order, id, new_index).to_multiset() == order.to_multiset(),
        entry_at(order, id, 0) < order.len() && new_index < order.len() ==> moved_in(
            order,
            id,
            new_index,
        )[new_index] == order[entry_at(order, id, 0)],
{
    let i = entry_at(order, id, 0);
    lemma_entry_at(order, id, 0);
    if i < order.len() {
        let rest = order.remove(i);
        let at = if new_index <= rest.len() {
            new_index
        } else {
            rest.len() as int
        };
        let after = rest.insert(at, order[i]);
        order.to_multiset_ensures();
        rest.to_multiset_ensures();
        assert(rest.to_multiset() =~= order.to_multiset().remove(order[i]));
        lemma_insert_multiset(rest, at, order[i]);
        assert(order.to_multiset().count(order[i]) > 0) by {
            assert(order.contains(order[i]));
        }
        assert(after.to_multiset() =~= order.to_multiset());
    }
}

proof fn lemma_insert_multiset<A>(s: Seq<A>, at: int, x: A)
    requires
        0 <= at <= s.len(),
    ensures
        s.insert(at, x).to_multiset() == s.to_multiset().insert(x),
{
    let t = s.insert(at, x);
    t.to_multiset_ensures();
    s.to_multiset_ensures();
    assert(t.remove(at) =~= s);
    assert(t[at] == x);
    assert(t.contains(x));
    assert(t.to_multiset().remove(x).insert(x) =~= t.to_multiset());
}

/// A mod that left the store is in no profile's order any more.
pub proof fn lemma_scrubbed_is_gone(order: Seq<ProfileModEntryView>, id: Seq<char>)
    ensures
        entry_at(order.filter(is_other(id)), id, 0) == order.filter(is_other(id)).len(),
{
    let kept = order.filter(is_other(id));
    lemma_scrubbed_differ(order, id);
    lemma_entry_at_eq(kept, id, 0, kept.len() as int);
}

proof fn lemma_scrubbed_differ(order: Seq<ProfileModEntryView>, id: Seq<char>)
    ensures
        forall|k: int|
            0 <= k < order.filter(is_other(id)).len() ==> (#[trigger] order.filter(is_other(id))[k]).mod_id
                != id,
    decreases order.len(),
{
    reveal(Seq::filter);
    let kept = order.filter(is_other(id));
    if order.len() > 0 {
        let before = order.drop_last().filter(is_other(id));
        lemma_scrubbed_differ(order.drop_last(), id);
        assert forall|k: int| 0 <= k < kept.len() implies (#[trigger] kept[k]).mod_id != id by {
            if k < before.len() {
                assert(kept[k] == before[k]);
            }
        }
    }
}

/// Every plugin that was registered is listed, whatever the case of its
/// letters.
pub proof fn lemma_registered_are_listed(
    list: Seq<Seq<char>>,
    plugins: Seq<Seq<char>>,
    i: int,
)
    requires
        0 <= i < plugins.len(),
    ensures
        lists_plugin(with_plugins(list, plugins), plugins[i]),
    decreases plugins.len(),
{
    let before = with_plugins(list, plugins.drop_last());
    let after = with_plugins(list, plugins);
    if i < plugins.len() - 1 {
        lemma_registered_are_listed(list, plugins.drop_last(), i);
        let k = choose|k: int|
            0 <= k < before.len() && text::ascii_fold(#[trigger] before[k]) == text::ascii_fold(
                plugins[i],
            );
        assert(after[k] == before[k]);
    } else if !lists_plugin(before, plugins.last()) {
        assert(after[after.len() - 1] == plugins.last());
    }
}

/// Registering plugins that are all listed changes nothing.
pub proof fn lemma_register_listed(list: Seq<Seq<char>>, plugins: Seq<Seq<char>>)
    requires
        forall|i: int| 0 <= i < plugins.len() ==> lists_plugin(list, #[trigger] plugins[i]),
    ensures
        with_plugins(list, plugins) == list,
    decreases plugins.len(),
{
    if plugins.len() > 0 {
        let t = plugins.drop_last();
        assert forall|i: int| 0 <= i < t.len() implies lists_plugin(list, #[trigger] t[i]) by {
            assert(t[i] == plugins[i]);
        }
        lemma_register_listed(list, t);
        assert(lists_plugin(list, plugins[plugins.len() - 1]));
    }
}

/// Registering plugins leaves the list as it was and adds some of them behind
/// it, in their order and none that equals an earlier entry whatever the case of
/// letters; each of them is listed then. The places of those that are added are
/// returned.
pub proof fn lemma_registered_behind(list: Seq<Seq<char>>, plugins: Seq<Seq<char>>) -> (places: Seq<
    int,
>)
    ensures
        ({
            let after = with_plugins(list, plugins);
            &&& after.len() == list.len() + places.len()
            &&& after.take(list.len() as int) == list
            &&& forall|k: int|
                0 <= k < places.len() ==> 0 <= #[trigger] places[k] < plugins.len()
                    && after[list.len() + k] == plugins[places[k]]
            &&& forall|a: int, b: int|
                0 <= a < b < places.len() ==> #[trigger] places[a] < #[trigger] places[b]
            &&& forall|j: int, k: int|
                0 <= j < k && list.len() <= k < after.len() ==> text::ascii_fold(
                    #[trigger] after[j],
                ) != text::ascii_fold(#[trigger] after[k])
            &&& forall|i: int| 0 <= i < plugins.len() ==> lists_plugin(after, #[trigger] plugins[i])
        }),
    decreases plugins.len(),
{
    let after = with_plugins(list, plugins);
    assert forall|i: int| 0 <= i < plugins.len() implies lists_plugin(
        after,
        #[trigger] plugins[i],
    ) by {
        lemma_registered_are_listed(list, plugins, i);
    }
    if plugins.len() == 0 {
        assert(after.take(list.len() as int) =~= list);
        Seq::empty()
    } else {
        let t = plugins.drop_last();
        let before = with_plugins(list, t);
        let places = lemma_registered_behind(list, t);
        let n = list.len() as int;
        if lists_plugin(before, plugins.last()) {
            assert forall|k: int| 0 <= k < places.len() implies 0 <= #[trigger] places[k]
                < plugins.len() && after[n + k] == plugins[places[k]] by {
                assert(t[places[k]] == plugins[places[k]]);
            }
            places
        } else {
            let more = places.push(plugins.len() - 1);
            assert(after.take(n) =~= before.take(n));
            assert forall|k: int| 0 <= k < more.len() implies 0 <= #[trigger] more[k]
                < plugins.len() && after[n + k] == plugins[more[k]] by {
                if k < places.len() {
                    assert(more[k] == places[k]);
                    assert(after[n + k] == before[n + k]);
                    assert(t[places[k]] == plugins[places[k]]);
                }
            }
            assert forall|a: int, b: int| 0 <= a < b < more.len() implies #[trigger] more[a]
                < #[trigger] more[b] by {
                assert(more[a] == places[a]);
                assert(places[a] < t.len());
                if b < places.len() {
                    assert(more[b] == places[b]);
                }
            }
            assert forall|j: int, k: int| 0 <= j < k && n <= k < after.len() implies text::ascii_fold(
                #[trigger] after[j],
            ) != text::ascii_fold(#[trigger] after[k]) by {
                assert(after[j] == before[j]);
                if k < before.len() {
                    assert(after[k] == before[k]);
                }
            }
            more
        }
    }
}

/// Enabling a mod with its plugins a second time changes nothing.
pub proof fn lemma_enable_with_plugins_twice(
    p: ProfileView,
    id: Seq<char>,
    plugins: Seq<Seq<char>>,
)
    ensures
        enabled_with(enabled_with(p, id, plugins), id, plugins) == enabled_with(p, id, plugins),
{
    lemma_enable_twice(p.mod_order, id);
    let list = with_plugins(p.plugin_order, plugins);
    assert forall|i: int| 0 <= i < plugins.len() implies lists_plugin(
        list,
        #[trigger] plugins[i],
    ) by {
        lemma_registered_are_listed(p.plugin_order, plugins, i);
    }
    lemma_register_listed(list, plugins);
}

/// Moving a mod leaves all others in their order: without the mod's entry the
/// order is the same before and after. The entry itself is unchanged and stands
/// at the place that was asked for, or at the end where there is no such place.
pub proof fn lemma_reorder_keeps_the_others(
    order: Seq<ProfileModEntryView>,
    id: Seq<char>,
    new_index: int,
    i: int,
)
    requires
        0 <= new_index,
        0 <= i < order.len(),
        order[i].mod_id == id,
        forall|j: int| 0 <= j < i ==> (#[trigger] order[j]).mod_id != id,
    ensures
        ({
            let after = moved_in(order, id, new_index);
            let at = if new_index < order.len() {
                new_index
            } else {
                order.len() - 1
            };
            &&& after.len() == order.len()
            &&& after[at] == order[i]
            &&& after.remove(at) == order.remove(i)
        }),
{
    lemma_entry_at_eq(order, id, 0, i);
    let at = if new_index < order.len() {
        new_index
    } else {
        order.len() - 1
    };
    assert(moved_in(order, id, new_index).remove(at) =~= order.remove(i));
}

/// Moving a mod never changes which of two other mods wins.
pub proof fn lemma_reorder_keeps_who_wins(
    order: Seq<ProfileModEntryView>,
    id: Seq<char>,
    new_index: int,
)
    requires
        0 <= new_index,
    ensures
        moved_in(order, id, new_index).filter(|e: ProfileModEntryView| e.mod_id != id)
            == order.filter(|e: ProfileModEntryView| e.mod_id != id),
{
    let pred = |e: ProfileModEntryView| e.mod_id != id;
    lemma_entry_at(order, id, 0);
    let i = entry_at(order, id, 0);
    if i < order.len() {
        lemma_reorder_keeps_the_others(order, id, new_index, i);
        let after = moved_in(order, id, new_index);
        let at = if new_index < order.len() {
            new_index
        } else {
            order.len() - 1
        };
        lists::lemma_filter_remove(order, pred, i);
        lists::lemma_filter_remove(after, pred, at);
    }
}

/// A mod that is not in the order is not moved, and nothing else is.
pub proof fn lemma_reorder_unknown(
    order: Seq<ProfileModEntryView>,
    id: Seq<char>,
    new_index: int,
)
    requires
        forall|j: int| 0 <= j < order.len() ==> (#[trigger] order[j]).mod_id != id,
    ensures
        moved_in(order, id, new_index) == order,
        disabled_in(order, id) == order,
{
    lemma_entry_at_eq(order, id, 0, order.len() as int);
}

/// Enabling or disabling a mod that is in the order switches its first entry and
/// leaves every entry where it is. Enabling one that is not puts it behind all
/// others, where it wins.
pub proof fn lemma_switching_keeps_places(order: Seq<ProfileModEntryView>, id: Seq<char>, i: int)
    requires
        0 <= i <= order.len(),
        i < order.len() ==> order[i].mod_id == id,
        forall|j: int| 0 <= j < i ==> (#[trigger] order[j]).mod_id != id,
    ensures
        i < order.len() ==> {
            &&& enabled_in(order, id).len() == order.len()
            &&& disabled_in(order, id).len() == order.len()
            &&& enabled_in(order, id)[i].enabled
            &&& !disabled_in(order, id)[i].enabled
        },
        i == order.len() ==> enabled_in(order, id) == order.push(
            ProfileModEntryView { mod_id: id, enabled: true },
        ) && disabled_in(order, id) == order,
        forall|j: int|
            0 <= j < order.len() ==> enabled_in(order, id)[j].mod_id == (#[trigger] order[j]).mod_id
                && disabled_in(order, id)[j].mod_id == order[j].mod_id,
        forall|j: int|
            0 <= j < order.len() && j != i ==> enabled_in(order, id)[j] == #[trigger] order[j]
                && disabled_in(order, id)[j] == order[j],
{
    lemma_entry_at_eq(order, id, 0, i);
}

/// The enabled mods are those whose entry is enabled, each at its place in the
/// order and none left out.
pub proof fn lemma_enabled_ids_are_the_enabled(order: Seq<ProfileModEntryView>)
    ensures
        enabled_ids(order) == order.filter(|e: ProfileModEntryView| e.enabled).map_values(
            |e: ProfileModEntryView| e.mod_id,
        ),
    decreases order.len(),
{
    reveal(Seq::filter);
    let pred = |e: ProfileModEntryView| e.enabled;
    let f = |e: ProfileModEntryView| e.mod_id;
    if order.len() > 0 {
        lemma_enabled_ids_are_the_enabled(order.drop_last());
        let t = order.drop_last().filter(pred);
        if order.last().enabled {
            assert(t.push(order.last()).map_values(f) =~= t.map_values(f).push(order.last().mod_id));
        }
    } else {
        assert(order.filter(pred).map_values(f) =~= Seq::<Seq<char>>::empty());
    }
}

/// Taking a mod out of the order leaves exactly the entries of other mods, in
/// their order, whether enabled or not.
pub proof fn lemma_scrub_keeps_the_others(order: Seq<ProfileModEntryView>, id: Seq<char>)
    ensures
        order.filter(is_other(id)) == order.filter(|e: ProfileModEntryView| e.mod_id != id),
{
    let pred = |e: ProfileModEntryView| e.mod_id != id;
    assert(is_other(id) =~= pred);
}

/// What the lines of a `plugins.txt` name is read line by line: what comes
/// before and after a line does not change what it names.
pub proof fn lemma_plugins_read_line_by_line(a: Seq<Seq<char>>, b: Seq<Seq<char>>)
    ensures
        plugins_in_lines(a + b) == plugins_in_lines(a) + plugins_in_lines(b),
    decreases b.len(),
{
    if b.len() == 0 {
        assert(a + b =~= a);
        assert(plugins_in_lines(a) + plugins_in_lines(b) =~= plugins_in_lines(a));
    } else {
        lemma_plugins_read_line_by_line(a, b.drop_last());
        assert((a + b).drop_last() =~= a + b.drop_last());
        assert(plugins_in_lines(a + b) =~= plugins_in_lines(a) + plugins_in_lines(b));
    }
}

/// A line that is empty or of white space only, or that begins with `#`, names
/// no plugin; any other names one, and a star before it makes no difference.
pub proof fn lemma_plugin_of_a_line(line: Seq<char>, name: Seq<char>)
    ensures
        text::trimmed(line).len() == 0 ==> plugins_in_lines(seq![line]) == Seq::<Seq<char>>::empty(),
        text::trimmed(line).len() > 0 && text::trimmed(line)[0] == '#' ==> plugins_in_lines(seq![line])
            == Seq::<Seq<char>>::empty(),
        text::trimmed(line) == name && name.len() > 0 && name[0] != '#' && name[0] != '*'
            ==> plugins_in_lines(seq![line]) == seq![name],
        text::trimmed(line) == seq!['*'] + name && (name.len() == 0 || name[0] != '*')
            ==> plugins_in_lines(seq![line]) == seq![name],
{
    let one = seq![line];
    assert(one.drop_last() =~= Seq::<Seq<char>>::empty());
    assert(plugins_in_lines(one.drop_last()) =~= Seq::<Seq<char>>::empty());
    let t = text::trimmed(line);
    if t == seq!['*'] + name && (name.len() == 0 || name[0] != '*') {
        assert(t.drop_first() =~= name);
        assert(without_stars(t) == without_stars(name));
        assert(without_stars(name) == name);
    }
    assert(Seq::<Seq<char>>::empty().push(name) =~= seq![name]);
}

/// The profiles of a folder are those of its `.json` files that hold one, in the
/// order of the files.
pub proof fn lemma_names_of_each_file(
    a: Seq<(Seq<char>, Option<Seq<char>>)>,
    b: Seq<(Seq<char>, Option<Seq<char>>)>,
)
    ensures
        names_in(a + b) == names_in(a) + names_in(b),
    decreases b.len(),
{
    if b.len() == 0 {
        assert(a + b =~= a);
        assert(names_in(a) + names_in(b) =~= names_in(a));
    } else {
        lemma_names_of_each_file(a, b.drop_last());
        assert((a + b).drop_last() =~= a + b.drop_last());
        assert(names_in(a + b) =~= names_in(a) + names_in(b));
    }
}

/// One file gives the name of the profile in it, or none.
pub proof fn lemma_name_of_a_file(file: Seq<char>, stem: Seq<char>, name: Seq<char>)
    requires
        stem.len() > 0,
        file == stem + ".json"@,
    ensures
        names_in(seq![(file, Some(name))]) == seq![name],
        names_in(seq![(file, None)]) == Seq::<Seq<char>>::empty(),
{
    reveal_strlit(".json");
    reveal_strlit("json");
    paths::lemma_extension_behind_dot(stem, "json"@);
    assert(file =~= stem + seq!['.'] + "json"@);
    let a = seq![(file, Some(name))];
    let b = seq![(file, None::<Seq<char>>)];
    assert(a.drop_last() =~= Seq::<(Seq<char>, Option<Seq<char>>)>::empty());
    assert(b.drop_last() =~= Seq::<(Seq<char>, Option<Seq<char>>)>::empty());
    assert(names_in(a.drop_last()) =~= Seq::<Seq<char>>::empty());
    assert(names_in(b.drop_last()) =~= Seq::<Seq<char>>::empty());
    assert(names_in(a) =~= seq![name]);
}

/// A profile that was kept in its file is found again: the name of the file ends
/// in `.json`, and what is before that is as long as the profile's name and has
/// its letters, digits, hyphens and underscores where the name has them.
pub proof fn lemma_file_of_a_profile(name: Seq<char>, i: int)
    ensures
        file_name_of(name).len() == name.len() + 5,
        file_name_of(name).skip(name.len() as int) == ".json"@,
        0 <= i < name.len() ==> (if is_alphanumeric(name[i]) || name[i] == '-' || name[i] == '_' {
            file_name_of(name)[i] == name[i]
        } else {
            file_name_of(name)[i] == '_'
        }),
{
    reveal_strlit(".json");
    assert(file_name_of(name).skip(name.len() as int) =~= ".json"@);
}

/// A readable profile has a line for every mod, in the order of priority, that
/// tells whether it is enabled, and a line for every plugin.
pub proof fn lemma_readable_lists_all(
    order: Seq<ProfileModEntryView>,
    plugins: Seq<Seq<char>>,
    mods: Seq<ModEntryView>,
)
    ensures
        mod_lines(order, mods) == order.map_values(
            |e: ProfileModEntryView|
                "  ["@ + (if e.enabled {
                    "x"@
                } else {
                    " "@
                }) + "] "@ + shown_name(mods, e.mod_id) + "\n"@,
        ).flatten(),
        plugin_lines(plugins) == plugins.map_values(
            |p: Seq<char>| "  "@ + p + "\n"@,
        ).flatten(),
{
    lemma_readable_mods(order, mods);
    lemma_readable_plugins(plugins);
}

proof fn lemma_readable_mods(order: Seq<ProfileModEntryView>, mods: Seq<ModEntryView>)
    ensures
        mod_lines(order, mods) == order.map_values(
            |e: ProfileModEntryView|
                "  ["@ + (if e.enabled {
                    "x"@
                } else {
                    " "@
                }) + "] "@ + shown_name(mods, e.mod_id) + "\n"@,
        ).flatten(),
    decreases order.len(),
{
    let f = |e: ProfileModEntryView|
        "  ["@ + (if e.enabled {
            "x"@
        } else {
            " "@
        }) + "] "@ + shown_name(mods, e.mod_id) + "\n"@;
    if order.len() == 0 {
        assert(order.map_values(f).flatten() =~= Seq::<char>::empty());
    } else {
        let t = order.drop_last();
        lemma_readable_mods(t, mods);
        assert(order.map_values(f) =~= t.map_values(f).push(f(order.last())));
        crate::lists::lemma_flatten_push(t.map_values(f), f(order.last()));
        assert(mod_lines(order, mods) =~= mod_lines(t, mods) + f(order.last()));
    }
}

proof fn lemma_readable_plugins(plugins: Seq<Seq<char>>)
    ensures
        plugin_lines(plugins) == plugins.map_values(
            |p: Seq<char>| "  "@ + p + "\n"@,
        ).flatten(),
    decreases plugins.len(),
{
    let f = |p: Seq<char>| "  "@ + p + "\n"@;
    if plugins.len() == 0 {
        assert(plugins.map_values(f).flatten() =~= Seq::<char>::empty());
    } else {
        let t = plugins.drop_last();
        lemma_readable_plugins(t);
        assert(plugins.map_values(f) =~= t.map_values(f).push(f(plugins.last())));
        crate::lists::lemma_flatten_push(t.map_values(f), f(plugins.last()));
        assert(plugin_lines(plugins) =~= plugin_lines(t) + f(plugins.last()));
    }
}

} // verus!
