//! Deploying a profile: which file wins at each path, how the winners are
//! linked into a staging tree, and how that tree takes the place of the game's
//! `Data` folder and gives it back.

use crate::app_paths::{AppPaths, AppPathsView};
use crate::game::{GameInstall, GameInstallView};
use crate::lists;
use crate::mount::{FsStep, LinkBackend, Standing};
use crate::paths;
use crate::profile;
use crate::profile::Profile;
use crate::sorting;
use crate::sorting::Ranked;
use crate::store;
use crate::store::{ModEntryView, ModStore};
use crate::text;
use vstd::prelude::*;

verus! {

/// One mod's file at a path.
#[derive(Debug, Clone)]
pub struct Contribution {
    pub mod_id: String,
    /// The path below `Data`, as the mod writes it.
    pub relative_path: String,
    /// The file in the store.
    pub source_path: String,
}

/// The mathematical content of a [`Contribution`].
pub struct ContributionView {
    pub mod_id: Seq<char>,
    pub relative_path: Seq<char>,
    pub source_path: Seq<char>,
}

impl DeepView for Contribution {
    type V = ContributionView;

    open spec fn deep_view(&self) -> ContributionView {
        ContributionView {
            mod_id: self.mod_id@,
            relative_path: self.relative_path@,
            source_path: self.source_path@,
        }
    }
}

impl Contribution {
    /// A copy.
    pub fn copy(&self) -> (r: Self)
        ensures
            r.deep_view() == self.deep_view(),
    {
        Contribution {
            mod_id: self.mod_id.clone(),
            relative_path: self.relative_path.clone(),
            source_path: self.source_path.clone(),
        }
    }
}

// ---------------------------------------------------------------------------
// Conflicts
// ---------------------------------------------------------------------------

/// What a mod contributes, given the paths of its files.
pub open spec fn contributed_by(m: ModEntryView, files: Seq<Seq<char>>) -> Seq<ContributionView> {
    Seq::new(
        files.len(),
        |i: int|
            ContributionView {
                mod_id: m.id,
                relative_path: files[i],
                source_path: paths::joined(m.content_dir, files[i]),
            },
    )
}

/// What the mods with these ids contribute, in order. Ids that the store does
/// not know contribute nothing. `files[i]` lists the files of the mod at place
/// `i`.
pub open spec fn contributed(
    mods: Seq<ModEntryView>,
    files: Seq<Seq<Seq<char>>>,
    ids: Seq<Seq<char>>,
) -> Seq<ContributionView>
    decreases ids.len(),
{
    if ids.len() == 0 {
        Seq::empty()
    } else {
        let before = contributed(mods, files, ids.drop_last());
        let at = store::mod_at(mods, ids.last());
        if at < mods.len() {
            before + contributed_by(mods[at], files[at])
        } else {
            before
        }
    }
}

/// Everything that the enabled mods of a profile contribute, lowest priority
/// first.
pub open spec fn all_contributions(
    mods: Seq<ModEntryView>,
    order: Seq<profile::ProfileModEntryView>,
    files: Seq<Seq<Seq<char>>>,
) -> Seq<ContributionView> {
    contributed(mods, files, profile::enabled_ids(order))
}

/// What tells whether two contributions are the same file to the game: the
/// path, whatever the case of its letters.
pub open spec fn file_key(c: ContributionView) -> Seq<char> {
    text::lowercase(c.relative_path)
}

/// The condition to be a contribution under this key.
pub open spec fn is_under(key: Seq<char>) -> spec_fn(ContributionView) -> bool {
    |c: ContributionView| file_key(c) == key
}

/// A row of the conflict table: a key and the contributions under it, the
/// winner last.
pub type ConflictRow = (Seq<char>, Seq<ContributionView>);

/// Whether a table lists each key of the contributions once, in order, with
/// all that is contributed under it.
pub open spec fn is_conflict_table(all: Seq<ContributionView>, table: Seq<ConflictRow>) -> bool {
    &&& forall|k: int|
        0 <= k < table.len() ==> (#[trigger] table[k]).1 == all.filter(is_under(table[k].0))
            && table[k].1.len() > 0
    &&& forall|a: int, b: int|
        0 <= a < b < table.len() ==> text::text_less(
            (#[trigger] table[a]).0,
            (#[trigger] table[b]).0,
        )
    &&& forall|i: int| 0 <= i < all.len() ==> lists_key(table, file_key(#[trigger] all[i]))
}

/// Whether a table has a row for this key.
pub open spec fn lists_key(table: Seq<ConflictRow>, key: Seq<char>) -> bool {
    exists|k: int| 0 <= k < table.len() && (#[trigger] table[k]).0 == key
}

/// The winner of each row: its path and its file in the store.
pub open spec fn row_winners(table: Seq<ConflictRow>) -> Seq<(Seq<char>, Seq<char>)> {
    Seq::new(
        table.len(),
        |k: int| (table[k].1.last().relative_path, table[k].1.last().source_path),
    )
}

/// Whether the winner of row `i` comes before that of row `j`: by its path, and
/// among equals by the row.
pub open spec fn goes_before(rows: Seq<(Seq<char>, Seq<char>)>, i: int, j: int) -> bool {
    paths::path_less(rows[i].0, rows[j].0) || (!paths::path_less(rows[j].0, rows[i].0) && i < j)
}

/// Whether `order` lists every row once, in the order of the winners' paths.
pub open spec fn is_path_order(rows: Seq<(Seq<char>, Seq<char>)>, order: Seq<usize>) -> bool {
    &&& order.len() == rows.len()
    &&& order.no_duplicates()
    &&& forall|k: int| 0 <= k < order.len() ==> #[trigger] order[k] < rows.len()
    &&& forall|a: int, b: int|
        0 <= a < b < order.len() ==> #[trigger] goes_before(rows, order[a] as int, order[b] as int)
}

/// What stands at these places.
pub open spec fn at_rows(rows: Seq<(Seq<char>, Seq<char>)>, order: Seq<usize>) -> Seq<
    (Seq<char>, Seq<char>),
> {
    order.map_values(|i: usize| rows[i as int])
}

/// Whether `won` are the winners of the rows, in the order of their own paths.
pub open spec fn are_winners(table: Seq<ConflictRow>, won: Seq<(Seq<char>, Seq<char>)>) -> bool {
    exists|order: Seq<usize>| #[trigger]
        is_path_order(row_winners(table), order) && won == at_rows(row_winners(table), order)
}

/// The contributions of the rows with more than one.
pub open spec fn contested(table: Seq<ConflictRow>) -> Seq<Seq<ContributionView>>
    decreases table.len(),
{
    if table.len() == 0 {
        Seq::empty()
    } else {
        let before = contested(table.drop_last());
        if table.last().1.len() > 1 {
            before.push(table.last().1)
        } else {
            before
        }
    }
}

/// The place of the first row, from place `i` on, whose path is this one, with
/// forward slashes, or the number of rows.
pub open spec fn row_of(table: Seq<ConflictRow>, path: Seq<char>, i: int) -> int
    decreases table.len() - i,
{
    if i >= table.len() || text::replaced(table[i].0, '\\', '/') == path {
        i
    } else {
        row_of(table, path, i + 1)
    }
}

fn append_contributions(
    out: &mut Vec<Contribution>,
    mod_id: &str,
    content_dir: &str,
    files: &Vec<String>,
    Ghost(m): Ghost<ModEntryView>,
)
    requires
        m.id == mod_id@,
        m.content_dir == content_dir@,
    ensures
        final(out).deep_view() == old(out).deep_view() + contributed_by(m, files.deep_view()),
{
    let ghost start = out.deep_view();
    let ghost goal = contributed_by(m, files.deep_view());
    let mut k: usize = 0;
    assert(out.deep_view() =~= start + goal.take(0));
    while k < files.len()
        invariant
            k <= files@.len(),
            m.id == mod_id@,
            m.content_dir == content_dir@,
            goal == contributed_by(m, files.deep_view()),
            out.deep_view() == start + goal.take(k as int),
        decreases files.len() - k,
    {
        let ghost before = out.deep_view();
        let c = Contribution {
            mod_id: mod_id.to_owned(),
            relative_path: files[k].clone(),
            source_path: paths::join(content_dir, files[k].as_str()),
        };
        let ghost cv = c.deep_view();
        out.push(c);
        assert(out.deep_view() =~= before.push(cv));
        k += 1;
        assert(cv == goal[k - 1]);
        assert(out.deep_view() =~= start + goal.take(k as int));
    }
    assert(goal.take(k as int) =~= goal);
}

/// Everything that the enabled mods contribute, lowest priority first.
fn gather(store: &ModStore, profile: &Profile, files: &Vec<Vec<String>>) -> (r: Vec<Contribution>)
    requires
        files@.len() == store.mods@.len(),
    ensures
        r.deep_view() == all_contributions(
            store.deep_view(),
            profile.deep_view().mod_order,
            files.deep_view(),
        ),
{
    let ids = profile.enabled_mods_in_order();
    let ghost iv = ids.deep_view();
    let ghost mods = store.deep_view();
    let ghost fv = files.deep_view();
    let mut out: Vec<Contribution> = Vec::new();
    let mut i: usize = 0;
    assert(iv.take(0) =~= Seq::<Seq<char>>::empty());
    assert(out.deep_view() =~= Seq::<ContributionView>::empty());
    while i < ids.len()
        invariant
            i <= ids@.len(),
            iv == ids.deep_view(),
            mods == store.deep_view(),
            fv == files.deep_view(),
            files@.len() == store.mods@.len(),
            out.deep_view() == contributed(mods, fv, iv.take(i as int)),
        decreases ids.len() - i,
    {
        assert(iv.take(i + 1).drop_last() =~= iv.take(i as int));
        assert(iv.take(i + 1).last() == ids@[i as int]@);
        let at: usize = store.place_of(ids[i].as_str());
        if at < store.mods.len() {
            let m = &store.mods[at];
            proof {
                store::lemma_mod_at_is(mods, iv[i as int]);
            }
            append_contributions(
                &mut out,
                ids[i].as_str(),
                m.content_dir.as_str(),
                &files[at],
                Ghost(mods[at as int]),
            );
        }
        i += 1;
    }
    assert(iv.take(i as int) =~= iv);
    out
}

fn keys_of(all: &Vec<Contribution>) -> (r: Vec<String>)
    ensures
        r@.len() == all@.len(),
        forall|i: int|
            0 <= i < all@.len() ==> #[trigger] r.deep_view()[i] == file_key(all.deep_view()[i]),
{
    let mut out: Vec<String> = Vec::new();
    let mut i: usize = 0;
    while i < all.len()
        invariant
            i <= all@.len(),
            out@.len() == i,
            forall|k: int|
                0 <= k < i ==> #[trigger] out.deep_view()[k] == file_key(all.deep_view()[k]),
        decreases all.len() - i,
    {
        let ghost before = out.deep_view();
        let key = text::to_lowercase(all[i].relative_path.as_str());
        out.push(key);
        assert(out.deep_view() =~= before.push(key@));
        i += 1;
    }
    out
}

fn at_places(all: &Vec<Contribution>, group: &Vec<usize>) -> (r: Vec<Contribution>)
    requires
        forall|k: int| 0 <= k < group@.len() ==> #[trigger] group@[k] < all@.len(),
    ensures
        r.deep_view() == group@.map_values(|i: usize| all.deep_view()[i as int]),
{
    let ghost goal = group@.map_values(|i: usize| all.deep_view()[i as int]);
    let mut out: Vec<Contribution> = Vec::new();
    let mut k: usize = 0;
    while k < group.len()
        invariant
            k <= group@.len(),
            forall|j: int| 0 <= j < group@.len() ==> #[trigger] group@[j] < all@.len(),
            goal == group@.map_values(|i: usize| all.deep_view()[i as int]),
            out.deep_view() == goal.take(k as int),
        decreases group.len() - k,
    {
        let ghost before = out.deep_view();
        assert(group@[k as int] < all@.len());
        let c = all[group[k]].copy();
        let ghost cv = c.deep_view();
        out.push(c);
        assert(out.deep_view() =~= before.push(cv));
        k += 1;
        assert(cv == goal[k - 1]);
        assert(out.deep_view() =~= goal.take(k as int));
    }
    assert(out.deep_view() =~= goal);
    out
}

/// Every path that the enabled mods of a profile provide, by its lower case,
/// with all that contribute to it, lowest priority first, so that the last one
/// wins. Paths are the same file whatever the case of their letters, as they
/// are to the game. `files[i]` lists the files of the mod at place `i` of the
/// store, by their paths below its content folder.
pub fn resolve_conflicts_detailed(
    store: &ModStore,
    profile: &Profile,
    files: &Vec<Vec<String>>,
) -> (r: Vec<(String, Vec<Contribution>)>)
    requires
        files@.len() == store.mods@.len(),
    ensures
        is_conflict_table(
            all_contributions(
                store.deep_view(),
                profile.deep_view().mod_order,
                files.deep_view(),
            ),
            r.deep_view(),
        ),
{
    let all = gather(store, profile, files);
    let ghost av = all.deep_view();
    let keys = keys_of(&all);
    let ghost kv = keys.deep_view();
    let groups = sorting::group_places(&keys);
    let ghost gv = groups.deep_view();
    let count: usize = keys.len();
    assert(av.len() == count);
    let mut out: Vec<(String, Vec<Contribution>)> = Vec::new();
    let mut g: usize = 0;
    while g < groups.len()
        invariant
            g <= groups@.len(),
            av == all.deep_view(),
            kv == keys.deep_view(),
            gv == groups.deep_view(),
            kv.len() == av.len(),
            av.len() <= usize::MAX,
            forall|i: int| 0 <= i < av.len() ==> #[trigger] kv[i] == file_key(av[i]),
            sorting::is_grouping(kv, gv),
            out@.len() == g,
            forall|k: int|
                0 <= k < g ==> (#[trigger] out.deep_view()[k]).0 == sorting::key_of(kv, gv[k])
                    && out.deep_view()[k].1 == av.filter(is_under(out.deep_view()[k].0))
                    && out.deep_view()[k].1.len() > 0,
        decreases groups.len() - g,
    {
        let ghost before = out.deep_view();
        let ghost group = gv[g as int];
        assert(group =~= groups@[g as int]@);
        assert(sorting::is_group(kv, group));
        assert forall|k: int| 0 <= k < groups@[g as int]@.len() implies #[trigger] groups@[g as int]@[k]
            < all@.len() by {
            assert(group[k] < kv.len());
        }
        let list = at_places(&all, &groups[g]);
        let first: usize = groups[g][0];
        assert(group[0] < kv.len());
        let row = (keys[first].clone(), list);
        let ghost rv = row.deep_view();
        proof {
            let key = sorting::key_of(kv, group);
            assert(rv.0 == key);
            assert forall|i: int| 0 <= i < av.len() implies is_under(key)(#[trigger] av[i]) == (kv[i]
                == key) by {}
            sorting::lemma_group_is_filter(av, is_under(key), kv, gv, g as int);
            assert(rv.1 =~= group.map_values(|i: usize| av[i as int]));
        }
        out.push(row);
        assert(out.deep_view() =~= before.push(rv));
        g += 1;
    }
    proof {
        let table = out.deep_view();
        assert forall|a: int, b: int| 0 <= a < b < table.len() implies text::text_less(
            (#[trigger] table[a]).0,
            (#[trigger] table[b]).0,
        ) by {
            assert(text::text_less(
                sorting::key_of(kv, gv[a]),
                sorting::key_of(kv, gv[b]),
            ));
        }
        assert forall|i: int| 0 <= i < av.len() implies lists_key(
            table,
            file_key(#[trigger] av[i]),
        ) by {
            let h = sorting::lemma_key_grouped(kv, gv, i as usize);
            assert(table[h].0 == kv[i]);
        }
    }
    out
}

/// Winning files, ranked by the steps of their paths.
struct WinnerKeys<'a> {
    steps: &'a Vec<Vec<String>>,
}

impl<'a> Ranked for WinnerKeys<'a> {
    closed spec fn count(&self) -> nat {
        self.steps@.len()
    }

    closed spec fn upto(&self, i: int, j: int) -> bool {
        !paths::steps_less(self.steps@[j].deep_view(), self.steps@[i].deep_view())
    }

    proof fn upto_total(&self, i: int, j: int) {
        let a = self.steps@[i].deep_view();
        let b = self.steps@[j].deep_view();
        if paths::steps_less(a, b) && paths::steps_less(b, a) {
            paths::lemma_steps_less_transitive(a, b, a);
            paths::lemma_steps_less_irreflexive(a);
        }
    }

    proof fn upto_transitive(&self, i: int, j: int, k: int) {
        let a = self.steps@[i].deep_view();
        let b = self.steps@[j].deep_view();
        let c = self.steps@[k].deep_view();
        paths::lemma_steps_less_total(a, b);
        if paths::steps_less(c, a) && paths::steps_less(a, b) {
            paths::lemma_steps_less_transitive(c, a, b);
        }
    }

    fn is_upto(&self, i: usize, j: usize) -> (r: bool) {
        !paths::steps_before(&self.steps[j], &self.steps[i])
    }
}

/// The rows in the order of the winners' paths.
fn path_order(rows: &Vec<(String, String)>) -> (r: Vec<usize>)
    ensures
        is_path_order(rows.deep_view(), r@),
{
    let ghost rv = rows.deep_view();
    let mut steps: Vec<Vec<String>> = Vec::new();
    let mut i: usize = 0;
    while i < rows.len()
        invariant
            i <= rows@.len(),
            rv == rows.deep_view(),
            steps@.len() == i,
            forall|k: int|
                0 <= k < i ==> (#[trigger] steps@[k]).deep_view() == paths::steps(rv[k].0),
        decreases rows.len() - i,
    {
        steps.push(paths::split_steps(rows[i].0.as_str()));
        i += 1;
    }
    let keys = WinnerKeys { steps: &steps };
    let order = sorting::sorted_places(&keys, rows.len());
    proof {
        let o = order@;
        assert forall|a: int, b: int| 0 <= a < b < o.len() implies #[trigger] goes_before(
            rv,
            o[a] as int,
            o[b] as int,
        ) by {
            let i = o[a] as int;
            let j = o[b] as int;
            assert(o[a] < keys.count() && o[b] < keys.count());
            assert(sorting::comes_before(&keys, i, j));
            assert(steps@[i].deep_view() == paths::steps(rv[i].0));
            assert(steps@[j].deep_view() == paths::steps(rv[j].0));
        }
        assert forall|k: int| 0 <= k < o.len() implies #[trigger] o[k] < rv.len() by {
            assert(o[k] < keys.count());
        }
    }
    order
}

/// The winning file of each row.
fn last_of_rows(detailed: &Vec<(String, Vec<Contribution>)>) -> (r: Vec<(String, String)>)
    requires
        forall|j: int|
            0 <= j < detailed@.len() ==> (#[trigger] detailed.deep_view()[j]).1.len() > 0,
    ensures
        r.deep_view() == row_winners(detailed.deep_view()),
{
    let ghost table = detailed.deep_view();
    let ghost goal = row_winners(table);
    let mut out: Vec<(String, String)> = Vec::new();
    let mut k: usize = 0;
    while k < detailed.len()
        invariant
            k <= detailed@.len(),
            table == detailed.deep_view(),
            goal == row_winners(table),
            forall|j: int| 0 <= j < detailed@.len() ==> (#[trigger] table[j]).1.len() > 0,
            out.deep_view() == goal.take(k as int),
        decreases detailed.len() - k,
    {
        let ghost before = out.deep_view();
        let list = &detailed[k].1;
        assert(table[k as int].1.len() > 0);
        let n: usize = list.len();
        let w = &list[n - 1];
        assert(table[k as int].1.last() == list@[n - 1].deep_view());
        let pair = (w.relative_path.clone(), w.source_path.clone());
        out.push(pair);
        assert(out.deep_view() =~= before.push(pair.deep_view()));
        k += 1;
        assert(out.deep_view() =~= goal.take(k as int));
    }
    assert(out.deep_view() =~= goal);
    out
}

/// The winning file at each path, in the order of the paths: the path as its mod
/// writes it, and the file in the store.
pub fn resolve_conflicts(store: &ModStore, profile: &Profile, files: &Vec<Vec<String>>) -> (r: Vec<
    (String, String),
>)
    requires
        files@.len() == store.mods@.len(),
    ensures
        exists|table: Seq<ConflictRow>|
            is_conflict_table(
                all_contributions(
                    store.deep_view(),
                    profile.deep_view().mod_order,
                    files.deep_view(),
                ),
                table,
            ) && #[trigger] are_winners(table, r.deep_view()),
{
    let detailed = resolve_conflicts_detailed(store, profile, files);
    let ghost table = detailed.deep_view();
    assert forall|j: int| 0 <= j < detailed@.len() implies (#[trigger] table[j]).1.len() > 0 by {}
    let rows = last_of_rows(&detailed);
    let order = path_order(&rows);
    let ghost rv = rows.deep_view();
    let ghost goal = at_rows(rv, order@);
    let mut out: Vec<(String, String)> = Vec::new();
    let mut k: usize = 0;
    while k < order.len()
        invariant
            k <= order@.len(),
            rv == rows.deep_view(),
            is_path_order(rv, order@),
            goal == at_rows(rv, order@),
            out.deep_view() == goal.take(k as int),
        decreases order.len() - k,
    {
        let ghost before = out.deep_view();
        let i: usize = order[k];
        assert(order@[k as int] < rv.len());
        let pair = (rows[i].0.clone(), rows[i].1.clone());
        out.push(pair);
        assert(pair.deep_view() == rv[i as int]);
        assert(out.deep_view() =~= before.push(pair.deep_view()));
        k += 1;
        assert(out.deep_view() =~= goal.take(k as int));
    }
    assert(out.deep_view() =~= goal);
    assert(are_winners(table, out.deep_view()));
    out
}

/// What a deploy would do.
#[derive(Debug, Clone)]
pub struct DryRunReport {
    /// How many files it would link.
    pub total_files: usize,
    /// The paths that more than one mod provides: for each one all that
    /// contribute, the winner last.
    pub conflicts: Vec<Vec<Contribution>>,
}

fn copy_contributions(list: &Vec<Contribution>) -> (r: Vec<Contribution>)
    ensures
        r.deep_view() == list.deep_view(),
{
    let ghost lv = list.deep_view();
    let mut out: Vec<Contribution> = Vec::new();
    let mut i: usize = 0;
    while i < list.len()
        invariant
            i <= list@.len(),
            lv == list.deep_view(),
            out.deep_view() == lv.take(i as int),
        decreases list.len() - i,
    {
        let ghost before = out.deep_view();
        out.push(list[i].copy());
        assert(out.deep_view() =~= before.push(lv[i as int]));
        i += 1;
        assert(out.deep_view() =~= lv.take(i as int));
    }
    assert(out.deep_view() =~= lv);
    out
}

/// How many files a deploy would link, and which of them are contested.
pub fn deploy_dry_run(store: &ModStore, profile: &Profile, files: &Vec<Vec<String>>) -> (r:
    DryRunReport)
    requires
        files@.len() == store.mods@.len(),
    ensures
        exists|table: Seq<ConflictRow>|
            is_conflict_table(
                all_contributions(
                    store.deep_view(),
                    profile.deep_view().mod_order,
                    files.deep_view(),
                ),
                table,
            ) && r.total_files == table.len() && r.conflicts.deep_view() == #[trigger] contested(
                table,
            ),
{
    let detailed = resolve_conflicts_detailed(store, profile, files);
    let ghost table = detailed.deep_view();
    let mut conflicts: Vec<Vec<Contribution>> = Vec::new();
    let mut k: usize = 0;
    assert(table.take(0) =~= Seq::<ConflictRow>::empty());
    assert(conflicts.deep_view() =~= Seq::<Seq<ContributionView>>::empty());
    while k < detailed.len()
        invariant
            k <= detailed@.len(),
            table == detailed.deep_view(),
            conflicts.deep_view() == contested(table.take(k as int)),
        decreases detailed.len() - k,
    {
        assert(table.take(k + 1).drop_last() =~= table.take(k as int));
        assert(table.take(k + 1).last() == detailed@[k as int].deep_view());
        if detailed[k].1.len() > 1 {
            let ghost before = conflicts.deep_view();
            let list = copy_contributions(&detailed[k].1);
            let ghost lv = list.deep_view();
            conflicts.push(list);
            assert(conflicts.deep_view() =~= before.push(lv));
        }
        k += 1;
    }
    assert(table.take(k as int) =~= table);
    DryRunReport { total_files: detailed.len(), conflicts }
}

/// What the enabled mods contribute at the path `relative`, whatever the case of
/// letters and the kind of slashes; the last one wins. None where no mod
/// provides that path.
pub fn who_provides(
    store: &ModStore,
    profile: &Profile,
    files: &Vec<Vec<String>>,
    relative: &str,
) -> (r: Vec<Contribution>)
    requires
        files@.len() == store.mods@.len(),
    ensures
        exists|table: Seq<ConflictRow>|
            #[trigger] is_conflict_table(
                all_contributions(
                    store.deep_view(),
                    profile.deep_view().mod_order,
                    files.deep_view(),
                ),
                table,
            ) && r.deep_view() == provided(table, store::path_key(relative@)),
{
    let needle = text::to_lowercase(text::replace_char(relative, '\\', '/').as_str());
    let detailed = resolve_conflicts_detailed(store, profile, files);
    let ghost table = detailed.deep_view();
    let mut k: usize = 0;
    while k < detailed.len()
        invariant
            k <= detailed@.len(),
            table == detailed.deep_view(),
            needle@ == store::path_key(relative@),
            is_conflict_table(
                all_contributions(
                    store.deep_view(),
                    profile.deep_view().mod_order,
                    files.deep_view(),
                ),
                table,
            ),
            row_of(table, needle@, 0) == row_of(table, needle@, k as int),
        decreases detailed.len() - k,
    {
        assert(table[k as int].0 == detailed@[k as int].0@);
        let key = text::replace_char(detailed[k].0.as_str(), '\\', '/');
        if text::same_text(key.as_str(), needle.as_str()) {
            return copy_contributions(&detailed[k].1);
        }
        k += 1;
    }
    let none: Vec<Contribution> = Vec::new();
    assert(none.deep_view() =~= Seq::<ContributionView>::empty());
    none
}

/// The contributions of the row with this path.
pub open spec fn provided(table: Seq<ConflictRow>, path: Seq<char>) -> Seq<ContributionView> {
    let k = row_of(table, path, 0);
    if k < table.len() {
        table[k].1
    } else {
        Seq::empty()
    }
}

// ---------------------------------------------------------------------------
// Deploying
// ---------------------------------------------------------------------------

/// What a deploy is to do.
#[derive(Debug, Clone)]
pub struct DeployPlan {
    /// The name of the profile.
    pub profile: String,
    pub staging_dir: String,
    /// The files to link: each one's file in the store and its place in the
    /// staging tree.
    pub links: Vec<(String, String)>,
    pub data_dir: String,
    pub backup_dir: String,
    pub plugins_txt: String,
    /// The text for `plugins.txt`.
    pub plugins: String,
}

/// The mathematical content of a [`DeployPlan`].
pub struct DeployPlanView {
    pub profile: Seq<char>,
    pub staging_dir: Seq<char>,
    pub links: Seq<(Seq<char>, Seq<char>)>,
    pub data_dir: Seq<char>,
    pub backup_dir: Seq<char>,
    pub plugins_txt: Seq<char>,
    pub plugins: Seq<char>,
}

impl DeepView for DeployPlan {
    type V = DeployPlanView;

    open spec fn deep_view(&self) -> DeployPlanView {
        DeployPlanView {
            profile: self.profile@,
            staging_dir: self.staging_dir@,
            links: self.links.deep_view(),
            data_dir: self.data_dir@,
            backup_dir: self.backup_dir@,
            plugins_txt: self.plugins_txt@,
            plugins: self.plugins@,
        }
    }
}

/// How far a deploy has come.
#[derive(Debug, Clone, Copy, PartialEq, Eq, Structural)]
pub enum DeployStage {
    Clear,
    Create,
    /// Linking the file at this place.
    Link(usize),
    Mount,
    WritePlugins,
    SnapshotSaves,
    Done,
    /// Cleaning up after the link at this place failed.
    CleanAfterLink(usize),
    UndoMount,
    CleanAfterMount,
    ClearFailed,
    CreateFailed,
    LinkFailed(usize),
    MountFailed,
    PluginsFailed,
}

/// What a deploy has to do next.
#[derive(Debug, Clone)]
pub enum DeployAction {
    /// Remove a folder with all in it, where it exists.
    ClearFolder { path: String },
    /// Make a folder, with those that hold it.
    MakeFolder { path: String },
    /// Link a file of the store into the staging tree.
    LinkFile { source: String, dest: String },
    /// Put the staging tree in the place of the `Data` folder.
    Mount { staging: String, data: String, backup: String },
    /// Give the `Data` folder back.
    Unmount { data: String, backup: String },
    /// Remove a folder with all in it.
    RemoveFolder { path: String },
    /// Write a text to a file, with the folder that holds it.
    WriteText { path: String, text: String },
    /// Take a snapshot of the saves.
    SnapshotSaves,
    /// Nothing: so many files are linked.
    Finished { linked: usize },
    /// Nothing: the deploy failed here.
    Failed { message: String },
}

/// The mathematical content of a [`DeployAction`].
pub enum DeployActionView {
    ClearFolder { path: Seq<char> },
    MakeFolder { path: Seq<char> },
    LinkFile { source: Seq<char>, dest: Seq<char> },
    Mount { staging: Seq<char>, data: Seq<char>, backup: Seq<char> },
    Unmount { data: Seq<char>, backup: Seq<char> },
    RemoveFolder { path: Seq<char> },
    WriteText { path: Seq<char>, text: Seq<char> },
    SnapshotSaves,
    Finished { linked: nat },
    Failed { message: Seq<char> },
}

impl DeepView for DeployAction {
    type V = DeployActionView;

    open spec fn deep_view(&self) -> DeployActionView {
        match self {
            DeployAction::ClearFolder { path } => DeployActionView::ClearFolder { path: path@ },
            DeployAction::MakeFolder { path } => DeployActionView::MakeFolder { path: path@ },
            DeployAction::LinkFile { source, dest } => DeployActionView::LinkFile {
                source: source@,
                dest: dest@,
            },
            DeployAction::Mount { staging, data, backup } => DeployActionView::Mount {
                staging: staging@,
                data: data@,
                backup: backup@,
            },
            DeployAction::Unmount { data, backup } => DeployActionView::Unmount {
                data: data@,
                backup: backup@,
            },
            DeployAction::RemoveFolder { path } => DeployActionView::RemoveFolder { path: path@ },
            DeployAction::WriteText { path, text } => DeployActionView::WriteText {
                path: path@,
                text: text@,
            },
            DeployAction::SnapshotSaves => DeployActionView::SnapshotSaves,
            DeployAction::Finished { linked } => DeployActionView::Finished {
                linked: *linked as nat,
            },
            DeployAction::Failed { message } => DeployActionView::Failed { message: message@ },
        }
    }
}

/// The text of a `plugins.txt` that enables these plugins in this order.
pub open spec fn plugins_text(plugins: Seq<Seq<char>>) -> Seq<char>
    decreases plugins.len(),
{
    if plugins.len() == 0 {
        Seq::empty()
    } else {
        plugins_text(plugins.drop_last()) + "*"@ + plugins.last() + "\n"@
    }
}

/// The text of a `plugins.txt`: one line for each plugin, with the star that
/// marks it enabled.
pub fn write_plugins_txt(plugins: &Vec<String>) -> (r: String)
    ensures
        r@ == plugins_text(plugins.deep_view()),
{
    let ghost pv = plugins.deep_view();
    let mut out = text::concat("", "");
    proof {
        reveal_strlit("");
    }
    let mut i: usize = 0;
    assert(pv.take(0) =~= Seq::<Seq<char>>::empty());
    assert(out@ =~= Seq::<char>::empty());
    while i < plugins.len()
        invariant
            i <= plugins@.len(),
            pv == plugins.deep_view(),
            out@ == plugins_text(pv.take(i as int)),
        decreases plugins.len() - i,
    {
        assert(pv.take(i + 1).drop_last() =~= pv.take(i as int));
        assert(pv.take(i + 1).last() == plugins@[i as int]@);
        out.append("*");
        out.append(plugins[i].as_str());
        out.append("\n");
        i += 1;
    }
    assert(pv.take(i as int) =~= pv);
    out
}

/// The folder of all that is kept for a game.
pub open spec fn kept_dir_of(paths: AppPathsView, game: GameInstallView) -> Seq<char> {
    paths::joined(paths.backups, game.id)
}

/// Where a game's `Data` folder is backed up.
pub open spec fn backup_dir_of(paths: AppPathsView, game: GameInstallView) -> Seq<char> {
    paths::joined(kept_dir_of(paths, game), "Data"@)
}

/// Where a game's `Data` folder is backed up.
pub fn backup_dir(paths: &AppPaths, game: &GameInstall) -> (r: String)
    ensures
        r@ == backup_dir_of(paths.deep_view(), game.deep_view()),
{
    paths::join3(paths.backups.as_str(), game.id.as_str(), "Data")
}

/// The plan for a deploy with these winners.
pub open spec fn plan_of(
    paths: AppPathsView,
    won: Seq<(Seq<char>, Seq<char>)>,
    profile: profile::ProfileView,
    game: GameInstallView,
) -> DeployPlanView {
    let staging = paths::joined(paths::joined(paths.root, "staging"@), profile.name);
    DeployPlanView {
        profile: profile.name,
        staging_dir: staging,
        links: Seq::new(won.len(), |i: int| (won[i].1, paths::joined(staging, won[i].0))),
        data_dir: game.data_dir,
        backup_dir: backup_dir_of(paths, game),
        plugins_txt: game.plugins_txt,
        plugins: plugins_text(profile.plugin_order),
    }
}

/// The stage in which the file at place `i` is linked, or the next one where
/// there is none.
pub open spec fn link_stage(links: nat, i: int) -> DeployStage {
    if i < links {
        DeployStage::Link(i as usize)
    } else {
        DeployStage::Mount
    }
}

/// The stage after one whose action succeeded or failed.
pub open spec fn stage_after(links: nat, stage: DeployStage, ok: bool) -> DeployStage {
    match stage {
        DeployStage::Clear => if ok {
            DeployStage::Create
        } else {
            DeployStage::ClearFailed
        },
        DeployStage::Create => if ok {
            link_stage(links, 0)
        } else {
            DeployStage::CreateFailed
        },
        DeployStage::Link(i) => if ok {
            link_stage(links, i + 1)
        } else {
            DeployStage::CleanAfterLink(i)
        },
        DeployStage::Mount => if ok {
            DeployStage::WritePlugins
        } else {
            DeployStage::UndoMount
        },
        DeployStage::WritePlugins => if ok {
            DeployStage::Done
        } else {
            DeployStage::PluginsFailed
        },
        DeployStage::SnapshotSaves => DeployStage::Clear,
        DeployStage::CleanAfterLink(i) => DeployStage::LinkFailed(i),
        DeployStage::UndoMount => DeployStage::CleanAfterMount,
        DeployStage::CleanAfterMount => DeployStage::MountFailed,
        _ => stage,
    }
}

/// What to do in a stage.
pub open spec fn action_in(plan: DeployPlanView, stage: DeployStage) -> DeployActionView {
    match stage {
        DeployStage::Clear => DeployActionView::ClearFolder { path: plan.staging_dir },
        DeployStage::Create => DeployActionView::MakeFolder { path: plan.staging_dir },
        DeployStage::Link(i) => DeployActionView::LinkFile {
            source: plan.links[i as int].0,
            dest: plan.links[i as int].1,
        },
        DeployStage::Mount => DeployActionView::Mount {
            staging: plan.staging_dir,
            data: plan.data_dir,
            backup: plan.backup_dir,
        },
        DeployStage::WritePlugins => DeployActionView::WriteText {
            path: plan.plugins_txt,
            text: plan.plugins,
        },
        DeployStage::SnapshotSaves => DeployActionView::SnapshotSaves,
        DeployStage::Done => DeployActionView::Finished { linked: plan.links.len() },
        DeployStage::CleanAfterLink(_) | DeployStage::CleanAfterMount => DeployActionView::RemoveFolder {
            path: plan.staging_dir,
        },
        DeployStage::UndoMount => DeployActionView::Unmount {
            data: plan.data_dir,
            backup: plan.backup_dir,
        },
        DeployStage::ClearFailed => DeployActionView::Failed {
            message: "clearing previous staging dir "@ + plan.staging_dir,
        },
        DeployStage::CreateFailed => DeployActionView::Failed {
            message: "creating staging dir "@ + plan.staging_dir,
        },
        DeployStage::LinkFailed(i) => DeployActionView::Failed {
            message: "linking "@ + plan.links[i as int].0 + " -> "@ + plan.links[i as int].1
                + " during deploy of profile '"@ + plan.profile + "'"@,
        },
        DeployStage::MountFailed => DeployActionView::Failed {
            message: "mounting staging over Data at "@ + plan.data_dir + " (profile '"@
                + plan.profile + "')"@,
        },
        DeployStage::PluginsFailed => DeployActionView::Failed {
            message: "writing plugins.txt at "@ + plan.plugins_txt
                + " after successful Data mount"@,
        },
    }
}

/// Whether a stage speaks of files that are there.
pub open spec fn is_stage_of(links: nat, stage: DeployStage) -> bool {
    match stage {
        DeployStage::Link(i) => i < links,
        DeployStage::CleanAfterLink(i) => i < links,
        DeployStage::LinkFailed(i) => i < links,
        _ => true,
    }
}

/// A deploy on its way. Take the action that [`Deploy::next`] tells, tell
/// [`Deploy::advance`] whether it succeeded, and go on until it is finished or
/// has failed.
#[derive(Debug)]
pub struct Deploy {
    plan: DeployPlan,
    stage: DeployStage,
}

impl Deploy {
    #[verifier::type_invariant]
    spec fn well_formed(self) -> bool {
        is_stage_of(self.plan.links@.len(), self.stage)
    }

    pub closed spec fn plan(&self) -> DeployPlanView {
        self.plan.deep_view()
    }

    pub closed spec fn stage(&self) -> DeployStage {
        self.stage
    }

    /// The stage that the deploy is in.
    pub fn current(&self) -> (r: DeployStage)
        ensures
            r == self.stage(),
            is_stage_of(self.plan().links.len(), r),
    {
        proof {
            use_type_invariant(self);
        }
        self.stage
    }

    /// What to do next.
    pub fn next(&self) -> (r: DeployAction)
        ensures
            r.deep_view() == action_in(self.plan(), self.stage()),
    {
        proof {
            use_type_invariant(self);
        }
        let p = &self.plan;
        match self.stage {
            DeployStage::Clear => DeployAction::ClearFolder { path: p.staging_dir.clone() },
            DeployStage::Create => DeployAction::MakeFolder { path: p.staging_dir.clone() },
            DeployStage::Link(i) => DeployAction::LinkFile {
                source: p.links[i].0.clone(),
                dest: p.links[i].1.clone(),
            },
            DeployStage::Mount => DeployAction::Mount {
                staging: p.staging_dir.clone(),
                data: p.data_dir.clone(),
                backup: p.backup_dir.clone(),
            },
            DeployStage::WritePlugins => DeployAction::WriteText {
                path: p.plugins_txt.clone(),
                text: p.plugins.clone(),
            },
            DeployStage::SnapshotSaves => DeployAction::SnapshotSaves,
            DeployStage::Done => DeployAction::Finished { linked: p.links.len() },
            DeployStage::CleanAfterLink(_) | DeployStage::CleanAfterMount => DeployAction::RemoveFolder {
                path: p.staging_dir.clone(),
            },
            DeployStage::UndoMount => DeployAction::Unmount {
                data: p.data_dir.clone(),
                backup: p.backup_dir.clone(),
            },
            DeployStage::ClearFailed => DeployAction::Failed {
                message: text::concat("clearing previous staging dir ", p.staging_dir.as_str()),
            },
            DeployStage::CreateFailed => DeployAction::Failed {
                message: text::concat("creating staging dir ", p.staging_dir.as_str()),
            },
            DeployStage::LinkFailed(i) => {
                let mut message = text::concat3("linking ", p.links[i].0.as_str(), " -> ");
                message.append(p.links[i].1.as_str());
                message.append(" during deploy of profile '");
                message.append(p.profile.as_str());
                message.append("'");
                DeployAction::Failed { message }
            },
            DeployStage::MountFailed => {
                let mut message = text::concat3(
                    "mounting staging over Data at ",
                    p.data_dir.as_str(),
                    " (profile '",
                );
                message.append(p.profile.as_str());
                message.append("')");
                DeployAction::Failed { message }
            },
            DeployStage::PluginsFailed => DeployAction::Failed {
                message: text::concat3(
                    "writing plugins.txt at ",
                    p.plugins_txt.as_str(),
                    " after successful Data mount",
                ),
            },
        }
    }

    /// Goes on after the action succeeded or failed.
    pub fn advance(&mut self, ok: bool)
        ensures
            final(self).plan() == old(self).plan(),
            final(self).stage() == stage_after(
                old(self).plan().links.len(),
                old(self).stage(),
                ok,
            ),
    {
        proof {
            use_type_invariant(&*self);
        }
        let n: usize = self.plan.links.len();
        let next = match self.stage {
            DeployStage::Clear => if ok {
                DeployStage::Create
            } else {
                DeployStage::ClearFailed
            },
            DeployStage::Create => if !ok {
                DeployStage::CreateFailed
            } else if n > 0 {
                DeployStage::Link(0)
            } else {
                DeployStage::Mount
            },
            DeployStage::Link(i) => if !ok {
                DeployStage::CleanAfterLink(i)
            } else if i + 1 < n {
                DeployStage::Link(i + 1)
            } else {
                DeployStage::Mount
            },
            DeployStage::Mount => if ok {
                DeployStage::WritePlugins
            } else {
                DeployStage::UndoMount
            },
            DeployStage::WritePlugins => if ok {
                DeployStage::Done
            } else {
                DeployStage::PluginsFailed
            },
            DeployStage::SnapshotSaves => DeployStage::Clear,
            DeployStage::CleanAfterLink(i) => DeployStage::LinkFailed(i),
            DeployStage::UndoMount => DeployStage::CleanAfterMount,
            DeployStage::CleanAfterMount => DeployStage::MountFailed,
            other => other,
        };
        self.stage = next;
    }
}

/// Starts a deploy: first the saves are copied; then the winning files are
/// linked into a fresh staging tree, which takes the place of the game's `Data`
/// folder, and the plugins are written. Where linking or mounting fails, the
/// staging tree is removed and a mount is undone.
pub fn deploy(
    paths: &AppPaths,
    store: &ModStore,
    profile: &Profile,
    files: &Vec<Vec<String>>,
    game: &GameInstall,
) -> (r: Deploy)
    requires
        files@.len() == store.mods@.len(),
    ensures
        r.stage() == DeployStage::SnapshotSaves,
        exists|table: Seq<ConflictRow>, won: Seq<(Seq<char>, Seq<char>)>|
            is_conflict_table(
                all_contributions(
                    store.deep_view(),
                    profile.deep_view().mod_order,
                    files.deep_view(),
                ),
                table,
            ) && #[trigger] are_winners(table, won) && r.plan() == plan_of(
                paths.deep_view(),
                won,
                profile.deep_view(),
                game.deep_view(),
            ),
{
    let won = resolve_conflicts(store, profile, files);
    let ghost wv = won.deep_view();
    let staging_dir = paths::join3(paths.root.as_str(), "staging", profile.name.as_str());
    let ghost goal = plan_of(
        paths.deep_view(),
        wv,
        profile.deep_view(),
        game.deep_view(),
    );
    let mut links: Vec<(String, String)> = Vec::new();
    let mut i: usize = 0;
    while i < won.len()
        invariant
            i <= won@.len(),
            wv == won.deep_view(),
            staging_dir@ == goal.staging_dir,
            goal == plan_of(paths.deep_view(), wv, profile.deep_view(), game.deep_view()),
            links.deep_view() == goal.links.take(i as int),
        decreases won.len() - i,
    {
        let ghost before = links.deep_view();
        let pair = (won[i].1.clone(), paths::join(staging_dir.as_str(), won[i].0.as_str()));
        links.push(pair);
        assert(links.deep_view() =~= before.push(pair.deep_view()));
        i += 1;
        assert(pair.deep_view() == goal.links[i - 1]);
        assert(links.deep_view() =~= goal.links.take(i as int));
    }
    assert(goal.links.take(i as int) =~= goal.links);
    let plan = DeployPlan {
        profile: profile.name.clone(),
        staging_dir,
        links,
        data_dir: game.data_dir.clone(),
        backup_dir: backup_dir(paths, game),
        plugins_txt: game.plugins_txt.clone(),
        plugins: write_plugins_txt(&profile.plugin_order),
    };
    Deploy { plan, stage: DeployStage::SnapshotSaves }
}

/// Undoes a deploy: the steps that give the vanilla `Data` folder back. There
/// are none where nothing was deployed.
pub fn restore<B: LinkBackend>(
    paths: &AppPaths,
    backend: &B,
    game: &GameInstall,
    standing: Standing,
    backed_up: bool,
) -> (r: Vec<FsStep>)
    ensures
        r.deep_view() == crate::mount::unmount_by(
            backend.kind(),
            game.deep_view().data_dir,
            backup_dir_of(paths.deep_view(), game.deep_view()),
            standing,
            backed_up,
        ),
{
    let backup = backup_dir(paths, game);
    backend.unmount(game.data_dir.as_str(), backup.as_str(), standing, backed_up)
}

/// A snapshot of saves: the folder to make and the files to copy, each with its
/// source and its target.
#[derive(Debug, Clone)]
pub struct SavesSnapshot {
    pub dest: String,
    pub copies: Vec<(String, String)>,
}

/// The folder for a snapshot at this time: beside the backup of `Data`, so that
/// a restore leaves it where it is.
pub open spec fn snapshot_dir(paths: AppPathsView, game: GameInstallView, now: nat) -> Seq<char> {
    paths::joined(
        paths::joined(kept_dir_of(paths, game), "saves"@),
        text::decimal(now),
    )
}

/// The copies of a snapshot of files from one folder to another.
pub open spec fn copies_between(from: Seq<char>, to: Seq<char>, files: Seq<Seq<char>>) -> Seq<
    (Seq<char>, Seq<char>),
> {
    Seq::new(
        files.len(),
        |i: int| (paths::joined(from, files[i]), paths::joined(to, files[i])),
    )
}

/// The copies from one folder to another of the files at these paths.
pub fn plan_copies(from: &str, to: &str, files: &Vec<String>) -> (r: Vec<(String, String)>)
    ensures
        r.deep_view() == copies_between(from@, to@, files.deep_view()),
{
    let ghost goal = copies_between(from@, to@, files.deep_view());
    let mut out: Vec<(String, String)> = Vec::new();
    let mut i: usize = 0;
    while i < files.len()
        invariant
            i <= files@.len(),
            goal == copies_between(from@, to@, files.deep_view()),
            out.deep_view() == goal.take(i as int),
        decreases files.len() - i,
    {
        let ghost before = out.deep_view();
        let pair = (paths::join(from, files[i].as_str()), paths::join(to, files[i].as_str()));
        out.push(pair);
        assert(out.deep_view() =~= before.push(pair.deep_view()));
        i += 1;
        assert(pair.deep_view() == goal[i - 1]);
        assert(out.deep_view() =~= goal.take(i as int));
    }
    assert(out.deep_view() =~= goal);
    out
}

/// The snapshot of a game's saves that a deploy takes, so that no combination
/// of mods costs a save. None where the game has no folder of saves. `files`
/// are the files below that folder, by their paths below it.
pub fn backup_saves(
    paths: &AppPaths,
    game: &GameInstall,
    saves_exist: bool,
    files: &Vec<String>,
    now: u64,
) -> (r: Option<SavesSnapshot>)
    ensures
        match crate::saves::saves_path(game.deep_view()) {
            Some(dir) if saves_exist => {
                &&& r is Some
                &&& r->0.dest@ == snapshot_dir(paths.deep_view(), game.deep_view(), now as nat)
                &&& r->0.copies.deep_view() == copies_between(dir, r->0.dest@, files.deep_view())
            },
            _ => r is None,
        },
{
    let dir = match crate::saves::saves_dir(game) {
        Some(d) => d,
        None => {
            return None;
        },
    };
    if !saves_exist {
        return None;
    }
    let dest = paths::join(
        paths::join3(paths.backups.as_str(), game.id.as_str(), "saves").as_str(),
        text::number_text(now).as_str(),
    );
    let copies = plan_copies(dir.as_str(), dest.as_str(), files);
    Some(SavesSnapshot { dest, copies })
}

// ---------------------------------------------------------------------------
// Laws
// ---------------------------------------------------------------------------

/// The last of what filtering leaves is the last entry that meets the
/// condition.
proof fn lemma_filter_last<A>(s: Seq<A>, pred: spec_fn(A) -> bool, i: int)
    requires
        0 <= i < s.len(),
        pred(s[i]),
    ensures
        s.filter(pred).len() > 0,
        exists|j: int|
            i <= j < s.len() && #[trigger] s[j] == s.filter(pred).last() && pred(s[j]) && (forall|
                k: int,
            |
                j < k < s.len() ==> !pred(#[trigger] s[k])),
    decreases s.len(),
{
    reveal(Seq::filter);
    let n = s.len() - 1;
    if pred(s[n]) {
        assert(s[n] == s.filter(pred).last());
    } else {
        let t = s.drop_last();
        lemma_filter_last(t, pred, i);
        let j = choose|j: int|
            i <= j < t.len() && #[trigger] t[j] == t.filter(pred).last() && pred(t[j]) && (forall|
                k: int,
            |
                j < k < t.len() ==> !pred(#[trigger] t[k]));
        assert(s[j] == t[j]);
        assert forall|k: int| j < k < s.len() implies !pred(#[trigger] s[k]) by {
            if k < n {
                assert(t[k] == s[k]);
            }
        }
    }
}

/// At every path the last contribution in load order wins: the winner of a row
/// is the contribution under its key that no other one under that key follows.
pub proof fn lemma_last_contribution_wins(
    all: Seq<ContributionView>,
    table: Seq<ConflictRow>,
    i: int,
)
    requires
        is_conflict_table(all, table),
        0 <= i < all.len(),
    ensures
        exists|r: int, j: int|
            0 <= r < table.len() && (#[trigger] table[r]).0 == file_key(all[i]) && i <= j < all.len()
                && #[trigger] all[j] == table[r].1.last() && file_key(all[j]) == file_key(all[i]) && (
            forall|k: int| j < k < all.len() ==> file_key(#[trigger] all[k]) != file_key(all[i])),
{
    let key = file_key(all[i]);
    assert(lists_key(table, key));
    let r = choose|r: int| 0 <= r < table.len() && (#[trigger] table[r]).0 == key;
    let pred = is_under(key);
    lemma_filter_last(all, pred, i);
    let j = choose|j: int|
        i <= j < all.len() && #[trigger] all[j] == all.filter(pred).last() && pred(all[j]) && (forall|
            k: int,
        |
            j < k < all.len() ==> !pred(#[trigger] all[k]));
    assert forall|k: int| j < k < all.len() implies file_key(#[trigger] all[k]) != key by {
        assert(!pred(all[k]));
    }
    assert(table[r].0 == key && all[j] == table[r].1.last());
}

/// Every row of the table has some contribution, so its key is that of one.
proof fn lemma_row_has_contribution(all: Seq<ContributionView>, table: Seq<ConflictRow>, r: int) -> (i:
    int)
    requires
        is_conflict_table(all, table),
        0 <= r < table.len(),
    ensures
        0 <= i < all.len(),
        file_key(all[i]) == table[r].0,
{
    let pred = is_under(table[r].0);
    assert(table[r].1 == all.filter(pred) && table[r].1.len() > 0);
    lemma_filter_source(all, pred)
}

proof fn lemma_filter_source<A>(s: Seq<A>, pred: spec_fn(A) -> bool) -> (i: int)
    requires
        s.filter(pred).len() > 0,
    ensures
        0 <= i < s.len(),
        pred(s[i]),
    decreases s.len(),
{
    reveal(Seq::filter);
    if s.len() > 0 && pred(s.last()) {
        s.len() - 1
    } else {
        lemma_filter_source(s.drop_last(), pred)
    }
}

/// The contributions decide the table: there is one only.
pub proof fn lemma_table_unique(
    all: Seq<ContributionView>,
    s: Seq<ConflictRow>,
    t: Seq<ConflictRow>,
)
    requires
        is_conflict_table(all, s),
        is_conflict_table(all, t),
    ensures
        s == t,
{
    lemma_rows_agree(all, s, t, s.len() as int);
    lemma_rows_agree(all, t, s, t.len() as int);
    assert(s =~= t);
}

proof fn lemma_rows_agree(
    all: Seq<ContributionView>,
    s: Seq<ConflictRow>,
    t: Seq<ConflictRow>,
    n: int,
)
    requires
        is_conflict_table(all, s),
        is_conflict_table(all, t),
        0 <= n <= s.len(),
    ensures
        n <= t.len(),
        forall|k: int| 0 <= k < n ==> #[trigger] s[k] == t[k],
    decreases n,
{
    if n > 0 {
        lemma_rows_agree(all, s, t, n - 1);
        let k = n - 1;
        let i = lemma_row_has_contribution(all, s, k);
        assert(lists_key(t, file_key(all[i])));
        let m = choose|m: int| 0 <= m < t.len() && (#[trigger] t[m]).0 == s[k].0;
        if m < k {
            assert(s[m] == t[m]);
            assert(text::text_less(s[m].0, s[k].0));
            text::lemma_text_less_irreflexive(s[k].0);
        }
        assert(k < t.len());
        if m > k {
            assert(text::text_less(t[k].0, t[m].0));
            let j = lemma_row_has_contribution(all, t, k);
            assert(lists_key(s, file_key(all[j])));
            let q = choose|q: int| 0 <= q < s.len() && (#[trigger] s[q]).0 == t[k].0;
            text::lemma_text_less_irreflexive(t[k].0);
            if q < k {
                assert(s[q] == t[q]);
                assert(text::text_less(t[q].0, t[k].0));
            } else if q > k {
                assert(text::text_less(s[k].0, s[q].0));
                text::lemma_text_less_transitive(t[k].0, s[k].0, t[k].0);
            }
        }
        assert(s[k].1 == all.filter(is_under(s[k].0)));
        assert(t[k].1 == all.filter(is_under(t[k].0)));
    }
}

/// The contested rows are rows of the table with more than one contribution.
proof fn lemma_contested_rows(table: Seq<ConflictRow>, c: int) -> (r: int)
    requires
        0 <= c < contested(table).len(),
    ensures
        0 <= r < table.len(),
        table[r].1 == contested(table)[c],
        table[r].1.len() > 1,
    decreases table.len(),
{
    let t = table.drop_last();
    if c < contested(t).len() {
        let r = lemma_contested_rows(t, c);
        assert(table[r] == t[r]);
        r
    } else {
        table.len() - 1
    }
}

proof fn lemma_order_covers(rows: Seq<(Seq<char>, Seq<char>)>, order: Seq<usize>, r: int) -> (k:
    int)
    requires
        is_path_order(rows, order),
        0 <= r < rows.len(),
    ensures
        0 <= k < order.len(),
        order[k] == r,
{
    crate::graph::lemma_distinct_below(order, usize::MAX + 1);
    let v = r as usize;
    if !order.contains(v) {
        let t = order.push(v);
        assert(t.no_duplicates());
        crate::graph::lemma_distinct_below(t, rows.len() as int);
    }
    choose|k: int| 0 <= k < order.len() && order[k] == v
}

/// The winners are the winners of the rows, each once.
pub proof fn lemma_winners_are_of_rows(
    table: Seq<ConflictRow>,
    won: Seq<(Seq<char>, Seq<char>)>,
    r: int,
)
    requires
        are_winners(table, won),
        0 <= r < table.len(),
    ensures
        won.len() == table.len(),
        won.contains(row_winners(table)[r]),
        row_winners(table).contains(won[r]),
{
    let rows = row_winners(table);
    let order = choose|order: Seq<usize>| #[trigger]
        is_path_order(rows, order) && won == at_rows(rows, order);
    let k = lemma_order_covers(rows, order, r);
    assert(won[k] == rows[r]);
    assert(order[r] < rows.len());
    assert(won[r] == rows[order[r] as int]);
}

/// The winners come in the order of their paths.
pub proof fn lemma_winners_in_order(
    table: Seq<ConflictRow>,
    won: Seq<(Seq<char>, Seq<char>)>,
    a: int,
    b: int,
)
    requires
        are_winners(table, won),
        0 <= a < b < won.len(),
    ensures
        !paths::path_less(won[b].0, won[a].0),
{
    let rows = row_winners(table);
    let order = choose|order: Seq<usize>| #[trigger]
        is_path_order(rows, order) && won == at_rows(rows, order);
    assert(goes_before(rows, order[a] as int, order[b] as int));
    let x = paths::steps(won[a].0);
    let y = paths::steps(won[b].0);
    if paths::steps_less(x, y) && paths::steps_less(y, x) {
        paths::lemma_steps_less_transitive(x, y, x);
        paths::lemma_steps_less_irreflexive(x);
    }
}

proof fn lemma_goes_before_one_way(rows: Seq<(Seq<char>, Seq<char>)>, i: int, j: int)
    requires
        goes_before(rows, i, j),
    ensures
        !goes_before(rows, j, i),
{
    let x = paths::steps(rows[i].0);
    let y = paths::steps(rows[j].0);
    if paths::steps_less(x, y) && paths::steps_less(y, x) {
        paths::lemma_steps_less_transitive(x, y, x);
        paths::lemma_steps_less_irreflexive(x);
    }
}

proof fn lemma_orders_agree(
    rows: Seq<(Seq<char>, Seq<char>)>,
    p: Seq<usize>,
    q: Seq<usize>,
    n: int,
)
    requires
        is_path_order(rows, p),
        is_path_order(rows, q),
        0 <= n <= rows.len(),
    ensures
        p.take(n) == q.take(n),
    decreases n,
{
    if n > 0 {
        let m = n - 1;
        lemma_orders_agree(rows, p, q, m);
        assert forall|k: int| 0 <= k < m implies #[trigger] p[k] == q[k] by {
            assert(p.take(m)[k] == q.take(m)[k]);
        }
        if p[m] != q[m] {
            assert(p[m] < rows.len() && q[m] < rows.len());
            let i = lemma_order_covers(rows, q, p[m] as int);
            let j = lemma_order_covers(rows, p, q[m] as int);
            assert(i > m) by {
                if i < m {
                    assert(p[i] == q[i]);
                }
            }
            assert(j > m) by {
                if j < m {
                    assert(p[j] == q[j]);
                }
            }
            assert(goes_before(rows, q[m] as int, q[i] as int));
            assert(goes_before(rows, p[m] as int, p[j] as int));
            lemma_goes_before_one_way(rows, p[m] as int, q[m] as int);
        }
        assert(p.take(n) =~= p.take(m).push(p[m]));
        assert(q.take(n) =~= q.take(m).push(q[m]));
    }
}

/// One conflict table has one list of winners.
pub proof fn lemma_winners_unique(
    table: Seq<ConflictRow>,
    a: Seq<(Seq<char>, Seq<char>)>,
    b: Seq<(Seq<char>, Seq<char>)>,
)
    requires
        are_winners(table, a),
        are_winners(table, b),
    ensures
        a == b,
{
    let rows = row_winners(table);
    let p = choose|p: Seq<usize>| #[trigger] is_path_order(rows, p) && a == at_rows(rows, p);
    let q = choose|q: Seq<usize>| #[trigger] is_path_order(rows, q) && b == at_rows(rows, q);
    lemma_orders_agree(rows, p, q, rows.len() as int);
    assert(p.take(rows.len() as int) =~= p);
    assert(q.take(rows.len() as int) =~= q);
}

/// A dry run, the detailed table and a deploy agree: the dry run counts exactly
/// the rows of the table and the files that are linked, its conflicts are the
/// rows with more than one contribution, and the last contribution of each is
/// linked.
pub proof fn lemma_dry_run_agrees(
    all: Seq<ContributionView>,
    dry: Seq<ConflictRow>,
    detailed: Seq<ConflictRow>,
    linked: Seq<ConflictRow>,
    won: Seq<(Seq<char>, Seq<char>)>,
)
    requires
        is_conflict_table(all, dry),
        is_conflict_table(all, detailed),
        is_conflict_table(all, linked),
        are_winners(linked, won),
    ensures
        dry.len() == won.len(),
        dry.len() == detailed.len(),
        contested(dry) == contested(detailed),
        forall|c: int|
            0 <= c < contested(dry).len() ==> (#[trigger] contested(dry)[c]).len() > 1
                && won.contains(
                (contested(dry)[c].last().relative_path, contested(dry)[c].last().source_path),
            ),
{
    lemma_table_unique(all, dry, linked);
    lemma_table_unique(all, dry, detailed);
    assert forall|c: int| 0 <= c < contested(dry).len() implies (#[trigger] contested(dry)[c]).len()
        > 1 && won.contains(
        (contested(dry)[c].last().relative_path, contested(dry)[c].last().source_path),
    ) by {
        let r = lemma_contested_rows(dry, c);
        assert(row_winners(linked)[r] == (
            contested(dry)[c].last().relative_path,
            contested(dry)[c].last().source_path,
        ));
        lemma_winners_are_of_rows(linked, won, r);
    }
}

proof fn lemma_row_of(table: Seq<ConflictRow>, path: Seq<char>, i: int)
    requires
        0 <= i <= table.len(),
    ensures
        i <= row_of(table, path, i) <= table.len(),
        row_of(table, path, i) < table.len() ==> text::replaced(
            table[row_of(table, path, i)].0,
            '\\',
            '/',
        ) == path,
        forall|k: int|
            i <= k < row_of(table, path, i) ==> text::replaced((#[trigger] table[k]).0, '\\', '/')
                != path,
    decreases table.len() - i,
{
    if i < table.len() && text::replaced(table[i].0, '\\', '/') != path {
        lemma_row_of(table, path, i + 1);
    }
}

/// What provides a path is all that is contributed under it, in load order, as
/// long as no file's own name holds a backslash.
pub proof fn lemma_provided_is_contributed(
    all: Seq<ContributionView>,
    table: Seq<ConflictRow>,
    path: Seq<char>,
)
    requires
        is_conflict_table(all, table),
        forall|i: int| 0 <= i < all.len() ==> text::lacks(file_key(#[trigger] all[i]), '\\'),
    ensures
        provided(table, path) == all.filter(is_under(path)),
{
    assert forall|k: int| 0 <= k < table.len() implies text::replaced(
        (#[trigger] table[k]).0,
        '\\',
        '/',
    ) == table[k].0 by {
        let i = lemma_row_has_contribution(all, table, k);
        assert(text::lacks(file_key(all[i]), '\\'));
        assert(text::replaced(table[k].0, '\\', '/') =~= table[k].0);
    }
    lemma_row_of(table, path, 0);
    let k = row_of(table, path, 0);
    if k < table.len() {
        assert(table[k].0 == path);
    } else {
        if all.filter(is_under(path)).len() > 0 {
            let i = lemma_filter_source(all, is_under(path));
            assert(lists_key(table, file_key(all[i])));
            let m = choose|m: int| 0 <= m < table.len() && (#[trigger] table[m]).0 == path;
            assert(text::replaced(table[m].0, '\\', '/') != path);
        }
        assert(all.filter(is_under(path)) =~= Seq::<ContributionView>::empty());
    }
}

/// Of what provides a path the last one is what a deploy links.
pub proof fn lemma_last_provider_wins(
    all: Seq<ContributionView>,
    table: Seq<ConflictRow>,
    won: Seq<(Seq<char>, Seq<char>)>,
    path: Seq<char>,
)
    requires
        is_conflict_table(all, table),
        are_winners(table, won),
        provided(table, path).len() > 0,
    ensures
        won.contains(
            (provided(table, path).last().relative_path, provided(table, path).last().source_path),
        ),
{
    lemma_row_of(table, path, 0);
    let k = row_of(table, path, 0);
    assert(row_winners(table)[k] == (
        provided(table, path).last().relative_path,
        provided(table, path).last().source_path,
    ));
    lemma_winners_are_of_rows(table, won, k);
}

/// No two files are linked at the same path, whatever the case of letters.
pub proof fn lemma_winners_distinct(
    all: Seq<ContributionView>,
    table: Seq<ConflictRow>,
    won: Seq<(Seq<char>, Seq<char>)>,
    a: int,
    b: int,
)
    requires
        is_conflict_table(all, table),
        are_winners(table, won),
        0 <= a < b < won.len(),
    ensures
        text::lowercase(won[a].0) != text::lowercase(won[b].0),
{
    let rows = row_winners(table);
    let order = choose|order: Seq<usize>| #[trigger]
        is_path_order(rows, order) && won == at_rows(rows, order);
    let i = order[a] as int;
    let j = order[b] as int;
    assert(order[a] < rows.len() && order[b] < rows.len());
    assert(i != j);
    if i < j {
        assert(text::text_less(table[i].0, table[j].0));
    } else {
        assert(text::text_less(table[j].0, table[i].0));
    }
    text::lemma_text_less_irreflexive(table[i].0);
    lemma_winner_key(all, table, i);
    lemma_winner_key(all, table, j);
}

proof fn lemma_winner_key(all: Seq<ContributionView>, table: Seq<ConflictRow>, r: int)
    requires
        is_conflict_table(all, table),
        0 <= r < table.len(),
    ensures
        file_key(table[r].1.last()) == table[r].0,
{
    let pred = is_under(table[r].0);
    let i = lemma_row_has_contribution(all, table, r);
    lemma_filter_last(all, pred, i);
    assert(table[r].1 == all.filter(pred));
}

/// Whether a plugin's name can be told from a line of `plugins.txt`: it is one
/// line, does not begin with a star and does not end in white space.
pub open spec fn is_plain_plugin(p: Seq<char>) -> bool {
    &&& text::lacks(p, '\n')
    &&& p.len() > 0 ==> p[0] != '*' && !text::is_space(p.last())
}

/// A plugin's line.
pub open spec fn starred(p: Seq<char>) -> Seq<char> {
    seq!['*'] + p
}

proof fn lemma_starred_line(p: Seq<char>)
    requires
        is_plain_plugin(p),
    ensures
        text::lacks(starred(p), '\n'),
        text::trimmed(text::without_cr(starred(p))) == starred(p),
        profile::without_stars(starred(p)) == p,
{
    let s = starred(p);
    assert(s[0] == '*');
    assert forall|j: int| 0 <= j < s.len() implies #[trigger] s[j] != '\n' by {
        if j > 0 {
            assert(s[j] == p[j - 1]);
        }
    }
    text::lemma_trimmed_without_cr(s);
    if p.len() > 0 {
        assert(s[s.len() - 1] == p.last());
    }
    text::lemma_trimmed_eq(s, 0, s.len() as int);
    assert(s.subrange(0, s.len() as int) =~= s);
    assert(s.drop_first() =~= p);
    reveal_with_fuel(profile::without_stars, 2);
}

proof fn lemma_plugins_text_joined(plugins: Seq<Seq<char>>)
    requires
        plugins.len() > 0,
    ensures
        plugins_text(plugins) == text::joined(
            plugins.map_values(|p: Seq<char>| starred(p)),
            seq!['\n'],
        ) + seq!['\n'],
    decreases plugins.len(),
{
    let f = |p: Seq<char>| starred(p);
    let parts = plugins.map_values(f);
    let before = plugins.drop_last();
    reveal_strlit("*");
    reveal_strlit("\n");
    assert("*"@ =~= seq!['*']);
    assert("\n"@ =~= seq!['\n']);
    assert(parts.last() == starred(plugins.last()));
    if plugins.len() == 1 {
        assert(before =~= Seq::<Seq<char>>::empty());
        assert(plugins_text(before) =~= Seq::<char>::empty());
        assert(text::joined(parts, seq!['\n']) == parts[0]);
        assert(plugins_text(plugins) =~= parts[0] + seq!['\n']);
    } else {
        lemma_plugins_text_joined(before);
        assert(parts.drop_last() =~= before.map_values(f));
        assert(plugins_text(plugins) =~= text::joined(parts.drop_last(), seq!['\n']) + seq!['\n']
            + parts.last() + seq!['\n']);
    }
}

proof fn lemma_plugins_in_starred(plugins: Seq<Seq<char>>, lines: Seq<Seq<char>>)
    requires
        lines.len() == plugins.len(),
        forall|k: int| 0 <= k < plugins.len() ==> is_plain_plugin(#[trigger] plugins[k]),
        forall|k: int|
            0 <= k < plugins.len() ==> #[trigger] lines[k] == text::without_cr(starred(plugins[k])),
    ensures
        profile::plugins_in_lines(lines) == plugins,
    decreases plugins.len(),
{
    if plugins.len() == 0 {
        assert(profile::plugins_in_lines(lines) =~= plugins);
    } else {
        let t = plugins.drop_last();
        let l = lines.drop_last();
        assert forall|k: int| 0 <= k < t.len() implies is_plain_plugin(#[trigger] t[k]) by {
            assert(t[k] == plugins[k]);
        }
        assert forall|k: int| 0 <= k < t.len() implies #[trigger] l[k] == text::without_cr(
            starred(t[k]),
        ) by {
            assert(l[k] == lines[k]);
        }
        lemma_plugins_in_starred(t, l);
        let p = plugins[plugins.len() - 1];
        assert(is_plain_plugin(p));
        lemma_starred_line(p);
        assert(lines[lines.len() - 1] == text::without_cr(starred(p)));
        assert(starred(p)[0] == '*');
        assert(profile::plugins_in_lines(lines) =~= t.push(p));
        assert(t.push(p) =~= plugins);
    }
}

/// Importing the `plugins.txt` that a deploy wrote gives the load order back,
/// for names that a line can tell.
pub proof fn lemma_plugins_txt_roundtrip(plugins: Seq<Seq<char>>)
    requires
        forall|k: int| 0 <= k < plugins.len() ==> is_plain_plugin(#[trigger] plugins[k]),
    ensures
        profile::plugins_in_lines(text::lines(plugins_text(plugins))) == plugins,
{
    let parts = plugins.map_values(|p: Seq<char>| starred(p));
    if plugins.len() == 0 {
        assert(plugins_text(plugins) =~= Seq::<char>::empty());
        lemma_plugins_in_starred(plugins, Seq::empty());
    } else {
        lemma_plugins_text_joined(plugins);
        assert forall|k: int| 0 <= k < parts.len() implies text::lacks(
            #[trigger] parts[k],
            '\n',
        ) by {
            assert(is_plain_plugin(plugins[k]));
            lemma_starred_line(plugins[k]);
        }
        text::lemma_lines_of_joined(parts);
        lemma_plugins_in_starred(plugins, text::lines(plugins_text(plugins)));
    }
}

/// The files of a snapshot, each given by its path in the folder of saves and
/// its content, by the paths that they are copied to.
pub open spec fn snapshot_copies(
    paths: AppPathsView,
    game: GameInstallView,
    now: nat,
    saves: Seq<(Seq<char>, Seq<u8>)>,
) -> Seq<(Seq<char>, Seq<u8>)> {
    Seq::new(
        saves.len(),
        |i: int| (paths::joined(snapshot_dir(paths, game, now), saves[i].0), saves[i].1),
    )
}

/// Whether a path is relative and not empty.
pub open spec fn is_below(path: Seq<char>) -> bool {
    path.len() > 0 && path[0] != '/'
}

/// A snapshot of saves lies neither in the game's folder nor in its backup,
/// where the game's folder is apart from what is kept for the game.
proof fn lemma_snapshot_elsewhere(
    paths: AppPathsView,
    game: GameInstallView,
    now: nat,
    saves: Seq<(Seq<char>, Seq<u8>)>,
)
    requires
        crate::mount::apart(game.data_dir, kept_dir_of(paths, game)),
        forall|i: int| 0 <= i < saves.len() ==> is_below((#[trigger] saves[i]).0),
    ensures
        crate::mount::are_elsewhere(
            game.data_dir,
            backup_dir_of(paths, game),
            snapshot_copies(paths, game, now, saves),
        ),
{
    let kept = kept_dir_of(paths, game);
    let p = crate::mount::inside(kept);
    let data = game.data_dir;
    let d = crate::mount::inside(data);
    let backup = backup_dir_of(paths, game);
    let b = crate::mount::inside(backup);
    let copies = snapshot_copies(paths, game, now, saves);
    reveal_strlit("Data");
    reveal_strlit("saves");
    assert(backup =~= p + "Data"@);
    assert(b =~= p + "Data"@ + seq!['/']);
    let saves_dir = paths::joined(kept, "saves"@);
    assert(saves_dir =~= p + "saves"@);
    text::lemma_decimal_digits(now);
    let dec = text::decimal(now);
    assert(text::is_digit(dec[0]) && text::is_digit(dec[dec.len() - 1]));
    let dir = snapshot_dir(paths, game, now);
    assert(dir =~= p + "saves/"@ + dec) by {
        reveal_strlit("saves/");
    }
    assert forall|i: int| 0 <= i < copies.len() implies !crate::mount::lies_in(
        data,
        (#[trigger] copies[i]).0,
    ) && !crate::mount::lies_in(backup, copies[i].0) by {
        let to = copies[i].0;
        let f = saves[i].0;
        assert(is_below(f));
        reveal_strlit("saves/");
        assert(to =~= p + "saves/"@ + dec + seq!['/'] + f);
        assert(to.take(p.len() as int) =~= p);
        if crate::mount::lies_in(backup, to) {
            assert(to.take(b.len() as int)[p.len() as int] == b[p.len() as int]);
        }
        if crate::mount::lies_in(data, to) {
            if d.len() < kept.len() {
                assert(kept.take(d.len() as int) =~= to.take(d.len() as int)) by {
                    assert(p.take(kept.len() as int) =~= kept);
                    assert forall|j: int| 0 <= j < d.len() implies kept[j] == to[j] by {
                        assert(p[j] == to.take(p.len() as int)[j]);
                    }
                }
                assert(crate::mount::lies_in(data, kept));
            } else if d.len() <= p.len() {
                if d.len() == p.len() {
                    assert(d =~= p) by {
                        assert forall|j: int| 0 <= j < p.len() implies d[j] == p[j] by {
                            assert(to.take(d.len() as int)[j] == d[j]);
                            assert(to.take(p.len() as int)[j] == p[j]);
                        }
                    }
                } else {
                    let k = d.len() - 1;
                    assert(d.len() == kept.len());
                    assert(kept =~= d) by {
                        assert forall|j: int| 0 <= j < d.len() implies kept[j] == d[j] by {
                            assert(to.take(d.len() as int)[j] == d[j]);
                            assert(to.take(p.len() as int)[j] == p[j]);
                        }
                    }
                }
            } else {
                assert forall|j: int| 0 <= j < p.len() implies data.take(p.len() as int)[j] == p[j] by {
                    assert(d[j] == to.take(d.len() as int)[j]);
                    assert(to.take(p.len() as int)[j] == p[j]);
                }
                if data.len() > p.len() {
                    assert(data.take(p.len() as int) =~= p);
                    assert(crate::mount::lies_in(kept, data));
                } else {
                    assert(data.len() == p.len());
                    assert(data =~= p) by {
                        assert forall|j: int| 0 <= j < p.len() implies data[j] == p[j] by {
                            assert(d[j] == to.take(d.len() as int)[j]);
                            assert(to.take(p.len() as int)[j] == p[j]);
                        }
                    }
                }
            }
        }
    }
}

/// What a deploy of the game at this time does to its files.
pub open spec fn run_of(
    paths: AppPathsView,
    game: GameInstallView,
    now: nat,
    saves: Seq<(Seq<char>, Seq<u8>)>,
    staging: Seq<char>,
) -> crate::mount::DeployRun {
    crate::mount::DeployRun { copies: snapshot_copies(paths, game, now, saves), staging }
}

/// However often and with whatever profiles and saves a game was deployed, a
/// restore gives its vanilla `Data` folder back as it was, with nothing added,
/// and another restore does nothing. The game's folder only has to be apart
/// from the folder of what is kept for it.
pub proof fn lemma_restore_gives_vanilla_back(
    kind: crate::mount::LinkKind,
    paths: AppPathsView,
    game: GameInstallView,
    files: crate::mount::Files,
    elsewhere: crate::mount::Files,
    times: Seq<nat>,
    saves: Seq<Seq<(Seq<char>, Seq<u8>)>>,
    stagings: Seq<Seq<char>>,
)
    requires
        crate::mount::apart(game.data_dir, kept_dir_of(paths, game)),
        times.len() > 0,
        saves.len() == times.len(),
        stagings.len() == times.len(),
        forall|k: int, i: int|
            0 <= k < saves.len() && 0 <= i < saves[k].len() ==> is_below(
                (#[trigger] saves[k][i]).0,
            ),
    ensures
        ({
            let data = game.data_dir;
            let backup = backup_dir_of(paths, game);
            let start = crate::mount::GameFiles {
                folders: crate::mount::GameFolders {
                    data: crate::mount::Place::Folder(files),
                    backup: crate::mount::Place::Nothing,
                },
                elsewhere,
            };
            let runs = Seq::new(
                times.len(),
                |k: int| run_of(paths, game, times[k], saves[k], stagings[k]),
            );
            let deployed = crate::mount::after_runs(kind, start, data, backup, runs);
            let restored = crate::mount::after_unmount(kind, deployed->0.folders, data, backup);
            &&& deployed is Some
            &&& restored == Some(start.folders)
            &&& crate::mount::after_unmount(kind, restored->0, data, backup) == Some(start.folders)
        }),
{
    let data = game.data_dir;
    let backup = backup_dir_of(paths, game);
    let runs = Seq::new(
        times.len(),
        |k: int| run_of(paths, game, times[k], saves[k], stagings[k]),
    );
    assert forall|k: int| 0 <= k < runs.len() implies crate::mount::are_elsewhere(
        data,
        backup,
        (#[trigger] runs[k]).copies,
    ) by {
        assert forall|i: int| 0 <= i < saves[k].len() implies is_below(
            (#[trigger] saves[k][i]).0,
        ) by {}
        lemma_snapshot_elsewhere(paths, game, times[k], saves[k]);
    }
    assert(data != backup) by {
        let p = crate::mount::inside(kept_dir_of(paths, game));
        reveal_strlit("Data");
        assert(backup =~= p + "Data"@);
        assert(backup.take(p.len() as int) =~= p);
    }
    crate::mount::lemma_deploy_restore_roundtrip(kind, files, elsewhere, data, backup, runs);
}

/// Whether a deploy in this stage has come to its end.
pub open spec fn is_end(stage: DeployStage) -> bool {
    stage is Done || stage is ClearFailed || stage is CreateFailed || stage is LinkFailed
        || stage is MountFailed || stage is PluginsFailed
}

/// How many actions a deploy in this stage may still take.
pub open spec fn actions_left(links: nat, stage: DeployStage) -> nat {
    match stage {
        DeployStage::SnapshotSaves => links + 9,
        DeployStage::Clear => links + 8,
        DeployStage::Create => links + 7,
        DeployStage::Link(i) => if i < links {
            (links - i + 6) as nat
        } else {
            6
        },
        DeployStage::Mount => 5,
        DeployStage::WritePlugins => 4,
        DeployStage::UndoMount => 3,
        DeployStage::CleanAfterMount => 2,
        DeployStage::CleanAfterLink(_) => 2,
        _ => 0,
    }
}

/// The actions of a deploy from a stage on, where `ok` says which succeed. The
/// last one tells how it ended.
pub open spec fn actions_from(
    plan: DeployPlanView,
    stage: DeployStage,
    ok: spec_fn(DeployActionView) -> bool,
) -> Seq<DeployActionView>
    decreases actions_left(plan.links.len(), stage),
        when plan.links.len() <= usize::MAX
{
    let a = action_in(plan, stage);
    if is_end(stage) {
        seq![a]
    } else {
        seq![a] + actions_from(plan, stage_after(plan.links.len(), stage, ok(a)), ok)
    }
}

/// The actions that link the files from one place up to another.
pub open spec fn link_actions(plan: DeployPlanView, from: int, to: int) -> Seq<DeployActionView> {
    Seq::new(
        (to - from) as nat,
        |i: int|
            DeployActionView::LinkFile {
                source: plan.links[from + i].0,
                dest: plan.links[from + i].1,
            },
    )
}

proof fn lemma_link_actions(
    plan: DeployPlanView,
    from: int,
    to: int,
    ok: spec_fn(DeployActionView) -> bool,
)
    requires
        plan.links.len() <= usize::MAX,
        0 <= from <= to <= plan.links.len(),
        forall|i: int|
            from <= i < to ==> ok(
                DeployActionView::LinkFile {
                    source: (#[trigger] plan.links[i]).0,
                    dest: plan.links[i].1,
                },
            ),
    ensures
        actions_from(plan, link_stage(plan.links.len(), from), ok) == link_actions(plan, from, to)
            + actions_from(plan, link_stage(plan.links.len(), to), ok),
    decreases to - from,
{
    let n = plan.links.len();
    if from == to {
        assert(link_actions(plan, from, to) + actions_from(plan, link_stage(n, to), ok)
            =~= actions_from(plan, link_stage(n, to), ok));
    } else {
        lemma_link_actions(plan, from + 1, to, ok);
        let stage = link_stage(n, from);
        let a = action_in(plan, stage);
        assert(plan.links[from] == plan.links[from]);
        assert(ok(a));
        assert(stage_after(n, stage, true) == link_stage(n, from + 1));
        assert(link_actions(plan, from, to) =~= seq![a] + link_actions(plan, from + 1, to));
        assert(actions_from(plan, stage, ok) =~= link_actions(plan, from, to) + actions_from(
            plan,
            link_stage(n, to),
            ok,
        ));
    }
}

/// The actions that come before the first link.
pub open spec fn first_actions(plan: DeployPlanView) -> Seq<DeployActionView> {
    seq![
        action_in(plan, DeployStage::SnapshotSaves),
        action_in(plan, DeployStage::Clear),
        action_in(plan, DeployStage::Create),
    ]
}

/// Whether clearing and making the staging folder succeeds.
pub open spec fn staging_is_made(
    plan: DeployPlanView,
    ok: spec_fn(DeployActionView) -> bool,
) -> bool {
    ok(action_in(plan, DeployStage::Clear)) && ok(action_in(plan, DeployStage::Create))
}

/// Whether linking the file at place `i` succeeds.
pub open spec fn is_linked(
    plan: DeployPlanView,
    ok: spec_fn(DeployActionView) -> bool,
    i: int,
) -> bool {
    ok(DeployActionView::LinkFile { source: plan.links[i].0, dest: plan.links[i].1 })
}

proof fn lemma_actions_to_link(
    plan: DeployPlanView,
    ok: spec_fn(DeployActionView) -> bool,
    k: int,
)
    requires
        plan.links.len() <= usize::MAX,
        staging_is_made(plan, ok),
        0 <= k <= plan.links.len(),
        forall|i: int| 0 <= i < k ==> #[trigger] is_linked(plan, ok, i),
    ensures
        actions_from(plan, DeployStage::SnapshotSaves, ok) == first_actions(plan) + link_actions(plan, 0, k)
            + actions_from(plan, link_stage(plan.links.len(), k), ok),
{
    let n = plan.links.len();
    let c = action_in(plan, DeployStage::Clear);
    let m = action_in(plan, DeployStage::Create);
    assert forall|i: int| 0 <= i < k implies ok(
        DeployActionView::LinkFile { source: (#[trigger] plan.links[i]).0, dest: plan.links[i].1 },
    ) by {
        assert(is_linked(plan, ok, i));
    }
    lemma_link_actions(plan, 0, k, ok);
    assert(actions_from(plan, DeployStage::Create, ok) == seq![m] + actions_from(
        plan,
        link_stage(n, 0),
        ok,
    ));
    assert(actions_from(plan, DeployStage::Clear, ok) == seq![c] + actions_from(
        plan,
        DeployStage::Create,
        ok,
    ));
    assert(actions_from(plan, DeployStage::SnapshotSaves, ok) =~= first_actions(plan) + link_actions(
        plan,
        0,
        k,
    ) + actions_from(plan, link_stage(n, k), ok));
}

/// A deploy in which nothing fails copies the saves, links every file, mounts,
/// writes the plugins and ends with the number of files. That the saves could
/// not be copied does not stop it.
pub proof fn lemma_deploy_succeeds(plan: DeployPlanView, ok: spec_fn(DeployActionView) -> bool)
    requires
        plan.links.len() <= usize::MAX,
        staging_is_made(plan, ok),
        forall|i: int| 0 <= i < plan.links.len() ==> #[trigger] is_linked(plan, ok, i),
        ok(action_in(plan, DeployStage::Mount)),
        ok(action_in(plan, DeployStage::WritePlugins)),
    ensures
        actions_from(plan, DeployStage::SnapshotSaves, ok) == first_actions(plan) + link_actions(
            plan,
            0,
            plan.links.len() as int,
        ) + seq![
            action_in(plan, DeployStage::Mount),
            action_in(plan, DeployStage::WritePlugins),
            DeployActionView::Finished { linked: plan.links.len() },
        ],
{
    let n = plan.links.len();
    lemma_actions_to_link(plan, ok, n as int);
    reveal_with_fuel(actions_from, 5);
    assert(actions_from(plan, DeployStage::Mount, ok) =~= seq![
        action_in(plan, DeployStage::Mount),
        action_in(plan, DeployStage::WritePlugins),
        DeployActionView::Finished { linked: n },
    ]);
}

/// Where a link fails, the staging tree is removed and the deploy fails. The
/// game's folder is never touched.
pub proof fn lemma_failed_link_is_cleaned_up(
    plan: DeployPlanView,
    ok: spec_fn(DeployActionView) -> bool,
    k: int,
)
    requires
        plan.links.len() <= usize::MAX,
        staging_is_made(plan, ok),
        0 <= k < plan.links.len(),
        forall|i: int| 0 <= i < k ==> #[trigger] is_linked(plan, ok, i),
        !is_linked(plan, ok, k),
    ensures
        actions_from(plan, DeployStage::SnapshotSaves, ok) == first_actions(plan) + link_actions(
            plan,
            0,
            k + 1,
        ) + seq![
            DeployActionView::RemoveFolder { path: plan.staging_dir },
            action_in(plan, DeployStage::LinkFailed(k as usize)),
        ],
        forall|i: int|
            0 <= i < actions_from(plan, DeployStage::SnapshotSaves, ok).len() ==> !(#[trigger] actions_from(
                plan,
                DeployStage::SnapshotSaves,
                ok,
            )[i] is Mount),
{
    lemma_actions_to_link(plan, ok, k);
    reveal_with_fuel(actions_from, 4);
    let a = action_in(plan, DeployStage::Link(k as usize));
    let all = actions_from(plan, DeployStage::SnapshotSaves, ok);
    let tail = seq![
        DeployActionView::RemoveFolder { path: plan.staging_dir },
        action_in(plan, DeployStage::LinkFailed(k as usize)),
    ];
    assert(actions_from(plan, DeployStage::Link(k as usize), ok) =~= seq![a] + tail);
    assert(link_actions(plan, 0, k + 1) =~= link_actions(plan, 0, k) + seq![a]);
    assert(all =~= first_actions(plan) + link_actions(plan, 0, k + 1) + tail);
}

/// Where the mount fails, it is undone, the staging tree is removed and the
/// deploy fails.
pub proof fn lemma_failed_mount_is_cleaned_up(
    plan: DeployPlanView,
    ok: spec_fn(DeployActionView) -> bool,
)
    requires
        plan.links.len() <= usize::MAX,
        staging_is_made(plan, ok),
        forall|i: int| 0 <= i < plan.links.len() ==> #[trigger] is_linked(plan, ok, i),
        !ok(action_in(plan, DeployStage::Mount)),
    ensures
        actions_from(plan, DeployStage::SnapshotSaves, ok) == first_actions(plan) + link_actions(
            plan,
            0,
            plan.links.len() as int,
        ) + seq![
            action_in(plan, DeployStage::Mount),
            DeployActionView::Unmount { data: plan.data_dir, backup: plan.backup_dir },
            DeployActionView::RemoveFolder { path: plan.staging_dir },
            action_in(plan, DeployStage::MountFailed),
        ],
{
    let n = plan.links.len();
    lemma_actions_to_link(plan, ok, n as int);
    reveal_with_fuel(actions_from, 5);
    assert(actions_from(plan, DeployStage::Mount, ok) =~= seq![
        action_in(plan, DeployStage::Mount),
        DeployActionView::Unmount { data: plan.data_dir, backup: plan.backup_dir },
        DeployActionView::RemoveFolder { path: plan.staging_dir },
        action_in(plan, DeployStage::MountFailed),
    ]);
}

/// Where only the plugins cannot be written, the deploy fails with the mods in
/// place: nothing is unmounted.
pub proof fn lemma_failed_plugins_stay_mounted(
    plan: DeployPlanView,
    ok: spec_fn(DeployActionView) -> bool,
)
    requires
        plan.links.len() <= usize::MAX,
        staging_is_made(plan, ok),
        forall|i: int| 0 <= i < plan.links.len() ==> #[trigger] is_linked(plan, ok, i),
        ok(action_in(plan, DeployStage::Mount)),
        !ok(action_in(plan, DeployStage::WritePlugins)),
    ensures
        actions_from(plan, DeployStage::SnapshotSaves, ok) == first_actions(plan) + link_actions(
            plan,
            0,
            plan.links.len() as int,
        ) + seq![
            action_in(plan, DeployStage::Mount),
            action_in(plan, DeployStage::WritePlugins),
            action_in(plan, DeployStage::PluginsFailed),
        ],
{
    let n = plan.links.len();
    lemma_actions_to_link(plan, ok, n as int);
    reveal_with_fuel(actions_from, 4);
    assert(actions_from(plan, DeployStage::Mount, ok) =~= seq![
        action_in(plan, DeployStage::Mount),
        action_in(plan, DeployStage::WritePlugins),
        action_in(plan, DeployStage::PluginsFailed),
    ]);
}

// ---------------------------------------------------------------------------
// What is contributed, who wins and what is linked
// ---------------------------------------------------------------------------

/// The enabled mods contribute all their files: mod by mod in the order of the
/// ids, and file by file, each with the mod's id, its own path and its place in
/// the mod's folder. A mod that the store does not know contributes nothing.
pub proof fn lemma_every_file_is_contributed(
    mods: Seq<ModEntryView>,
    files: Seq<Seq<Seq<char>>>,
    ids: Seq<Seq<char>>,
)
    ensures
        contributed(mods, files, ids) == ids.map_values(
            |id: Seq<char>|
                if store::mod_at(mods, id) < mods.len() {
                    files[store::mod_at(mods, id)].map_values(
                        |f: Seq<char>|
                            ContributionView {
                                mod_id: mods[store::mod_at(mods, id)].id,
                                relative_path: f,
                                source_path: paths::joined(
                                    mods[store::mod_at(mods, id)].content_dir,
                                    f,
                                ),
                            },
                    )
                } else {
                    Seq::empty()
                },
        ).flatten(),
    decreases ids.len(),
{
    let h = |id: Seq<char>|
        if store::mod_at(mods, id) < mods.len() {
            files[store::mod_at(mods, id)].map_values(
                |f: Seq<char>|
                    ContributionView {
                        mod_id: mods[store::mod_at(mods, id)].id,
                        relative_path: f,
                        source_path: paths::joined(mods[store::mod_at(mods, id)].content_dir, f),
                    },
            )
        } else {
            Seq::empty()
        };
    if ids.len() == 0 {
        assert(contributed(mods, files, ids) =~= ids.map_values(h).flatten());
    } else {
        let t = ids.drop_last();
        let id = ids.last();
        lemma_every_file_is_contributed(mods, files, t);
        assert(ids.map_values(h) =~= t.map_values(h).push(h(id)));
        lists::lemma_flatten_push(t.map_values(h), h(id));
        let at = store::mod_at(mods, id);
        if at < mods.len() {
            assert(contributed_by(mods[at], files[at]) =~= h(id));
        } else {
            assert(t.map_values(h).flatten() + h(id) =~= t.map_values(h).flatten());
        }
    }
}

/// Only the enabled mods of a profile contribute, in the profile's order.
pub proof fn lemma_only_enabled_mods_contribute(
    mods: Seq<ModEntryView>,
    order: Seq<profile::ProfileModEntryView>,
    files: Seq<Seq<Seq<char>>>,
)
    ensures
        all_contributions(mods, order, files) == contributed(
            mods,
            files,
            order.filter(|e: profile::ProfileModEntryView| e.enabled).map_values(
                |e: profile::ProfileModEntryView| e.mod_id,
            ),
        ),
{
    profile::lemma_enabled_ids_are_the_enabled(order);
}

/// Two files are in one row of the table exactly where their paths are the same
/// in lower case.
pub proof fn lemma_same_path_whatever_the_case(
    all: Seq<ContributionView>,
    table: Seq<ConflictRow>,
    i: int,
    j: int,
)
    requires
        is_conflict_table(all, table),
        0 <= i < all.len(),
        0 <= j < all.len(),
    ensures
        text::lowercase(all[i].relative_path) == text::lowercase(all[j].relative_path)
            <==> exists|r: int|
            0 <= r < table.len() && (#[trigger] table[r]).1.contains(all[i]) && table[r].1.contains(
                all[j],
            ),
{
    let key = file_key(all[i]);
    assert(lists_key(table, key));
    let r = choose|r: int| 0 <= r < table.len() && (#[trigger] table[r]).0 == key;
    assert(table[r].1 == all.filter(is_under(key)));
    all.lemma_filter_contains(is_under(key), i);
    if text::lowercase(all[i].relative_path) == text::lowercase(all[j].relative_path) {
        all.lemma_filter_contains(is_under(key), j);
        assert(table[r].1.contains(all[i]) && table[r].1.contains(all[j]));
    }
    if exists|r: int|
        0 <= r < table.len() && (#[trigger] table[r]).1.contains(all[i]) && table[r].1.contains(
            all[j],
        ) {
        let q = choose|q: int|
            0 <= q < table.len() && (#[trigger] table[q]).1.contains(all[i]) && table[q].1.contains(
                all[j],
            );
        let pred = is_under(table[q].0);
        assert(table[q].1 == all.filter(pred));
        let a = choose|a: int| 0 <= a < table[q].1.len() && table[q].1[a] == all[i];
        let b = choose|b: int| 0 <= b < table[q].1.len() && table[q].1[b] == all[j];
        all.lemma_filter_pred(pred, a);
        all.lemma_filter_pred(pred, b);
    }
}

/// Whatever file an enabled mod provides, what is linked at its path is the file
/// of the last mod in load order that provides that path, whatever the case of
/// letters, under that mod's own spelling.
pub proof fn lemma_last_mod_is_linked(
    all: Seq<ContributionView>,
    table: Seq<ConflictRow>,
    won: Seq<(Seq<char>, Seq<char>)>,
    i: int,
) -> (r: (int, int))
    requires
        is_conflict_table(all, table),
        are_winners(table, won),
        0 <= i < all.len(),
    ensures
        0 <= r.0 < won.len(),
        i <= r.1 < all.len(),
        won[r.0] == (all[r.1].relative_path, all[r.1].source_path),
        text::lowercase(all[r.1].relative_path) == text::lowercase(all[i].relative_path),
        forall|k: int|
            r.1 < k < all.len() ==> text::lowercase((#[trigger] all[k]).relative_path)
                != text::lowercase(all[i].relative_path),
{
    lemma_last_contribution_wins(all, table, i);
    let (row, j) = choose|row: int, j: int|
        0 <= row < table.len() && (#[trigger] table[row]).0 == file_key(all[i]) && i <= j < all.len()
            && #[trigger] all[j] == table[row].1.last() && file_key(all[j]) == file_key(all[i]) && (
        forall|k: int| j < k < all.len() ==> file_key(#[trigger] all[k]) != file_key(all[i]));
    lemma_winners_are_of_rows(table, won, row);
    let w = choose|w: int| 0 <= w < won.len() && won[w] == row_winners(table)[row];
    assert forall|k: int| j < k < all.len() implies text::lowercase((#[trigger] all[k]).relative_path)
        != text::lowercase(all[i].relative_path) by {
        assert(file_key(all[k]) != file_key(all[i]));
    }
    (w, j)
}

/// Nothing is linked that no enabled mod provides.
pub proof fn lemma_linked_is_provided(
    all: Seq<ContributionView>,
    table: Seq<ConflictRow>,
    won: Seq<(Seq<char>, Seq<char>)>,
    w: int,
) -> (i: int)
    requires
        is_conflict_table(all, table),
        are_winners(table, won),
        0 <= w < won.len(),
    ensures
        0 <= i < all.len(),
        won[w] == (all[i].relative_path, all[i].source_path),
{
    let rows = row_winners(table);
    let order = choose|order: Seq<usize>| #[trigger]
        is_path_order(rows, order) && won == at_rows(rows, order);
    let r = order[w] as int;
    assert(order[w] < rows.len());
    let k = lemma_row_has_contribution(all, table, r);
    let pred = is_under(table[r].0);
    lemma_filter_last(all, pred, k);
    assert(table[r].1 == all.filter(pred));
    let i = choose|i: int| k <= i < all.len() && #[trigger] all[i] == all.filter(pred).last();
    i
}

/// The conflicts are the rows with more than one contribution, all of them and
/// in order.
pub proof fn lemma_contested_are_the_shared_rows(table: Seq<ConflictRow>)
    ensures
        contested(table) == table.filter(|row: ConflictRow| row.1.len() > 1).map_values(
            |row: ConflictRow| row.1,
        ),
    decreases table.len(),
{
    let pred = |row: ConflictRow| row.1.len() > 1;
    let f = |row: ConflictRow| row.1;
    if table.len() == 0 {
        reveal(Seq::filter);
        assert(contested(table) =~= table.filter(pred).map_values(f));
    } else {
        let t = table.drop_last();
        lemma_contested_are_the_shared_rows(t);
        lists::lemma_filter_map_push(t, table.last(), pred, f);
        assert(t.push(table.last()) =~= table);
    }
}

/// A deploy links every winner and nothing else: at its path below the staging
/// folder of the profile, which lies in the application's own folder. It mounts
/// that over the game's `Data` folder and enables exactly the plugins of the
/// profile.
pub proof fn lemma_plan_links_the_winners(
    paths: AppPathsView,
    won: Seq<(Seq<char>, Seq<char>)>,
    profile: profile::ProfileView,
    game: GameInstallView,
)
    ensures
        ({
            let plan = plan_of(paths, won, profile, game);
            let staging = paths::joined(paths::joined(paths.root, "staging"@), profile.name);
            &&& plan.staging_dir == staging
            &&& plan.links == won.map_values(
                |w: (Seq<char>, Seq<char>)| (w.1, paths::joined(staging, w.0)),
            )
            &&& plan.data_dir == game.data_dir
            &&& plan.backup_dir == paths::joined(
                paths::joined(paths.backups, game.id),
                "Data"@,
            )
            &&& plan.plugins_txt == game.plugins_txt
            &&& plan.plugins == profile.plugin_order.map_values(
                |p: Seq<char>| seq!['*'] + p + seq!['\n'],
            ).flatten()
        }),
{
    let plan = plan_of(paths, won, profile, game);
    let staging = plan.staging_dir;
    assert(plan.links =~= won.map_values(
        |w: (Seq<char>, Seq<char>)| (w.1, paths::joined(staging, w.0)),
    ));
    lemma_plugins_text_is(profile.plugin_order);
}

proof fn lemma_plugins_text_is(plugins: Seq<Seq<char>>)
    ensures
        plugins_text(plugins) == plugins.map_values(
            |p: Seq<char>| seq!['*'] + p + seq!['\n'],
        ).flatten(),
    decreases plugins.len(),
{
    let f = |p: Seq<char>| seq!['*'] + p + seq!['\n'];
    if plugins.len() == 0 {
        assert(plugins_text(plugins) =~= plugins.map_values(f).flatten());
    } else {
        let t = plugins.drop_last();
        lemma_plugins_text_is(t);
        assert(plugins.map_values(f) =~= t.map_values(f).push(f(plugins.last())));
        lists::lemma_flatten_push(t.map_values(f), f(plugins.last()));
        reveal_strlit("*");
        reveal_strlit("\n");
        assert(plugins_text(plugins) =~= plugins_text(t) + f(plugins.last()));
    }
}

/// A snapshot copies every file, from its place in one folder to the same place
/// in the other.
pub proof fn lemma_every_file_is_copied(from: Seq<char>, to: Seq<char>, files: Seq<Seq<char>>)
    ensures
        copies_between(from, to, files) == files.map_values(
            |f: Seq<char>| (paths::joined(from, f), paths::joined(to, f)),
        ),
{
    assert(copies_between(from, to, files) =~= files.map_values(
        |f: Seq<char>| (paths::joined(from, f), paths::joined(to, f)),
    ));
}

/// Snapshots of one game that are taken at different times do not get into each
/// other's way, and neither into that of the backup of `Data`.
pub proof fn lemma_snapshots_are_apart(
    paths: AppPathsView,
    game: GameInstallView,
    now: nat,
    later: nat,
)
    requires
        now != later,
    ensures
        snapshot_dir(paths, game, now) != snapshot_dir(paths, game, later),
{
    let base = paths::joined(kept_dir_of(paths, game), "saves"@);
    let a = text::decimal(now);
    let b = text::decimal(later);
    text::lemma_decimal_is_read_back(now);
    text::lemma_decimal_is_read_back(later);
    assert(a[0] != '/' && b[0] != '/');
    assert(a != b);
    let x = snapshot_dir(paths, game, now);
    let y = snapshot_dir(paths, game, later);
    if x == y {
        let n = x.len() - a.len();
        assert(x.skip(n) =~= a);
        if a.len() == b.len() {
            assert(y.skip(n) =~= b);
        }
    }
}

/// What a deploy does, in this order, where nothing fails: the saves are copied,
/// the staging folder is cleared and made anew, every winner is linked into it,
/// it is mounted over the game's folder, and the plugins are written.
pub proof fn lemma_actions_of_a_deploy(plan: DeployPlanView, ok: spec_fn(DeployActionView) -> bool)
    requires
        plan.links.len() <= usize::MAX,
        forall|a: DeployActionView| #[trigger] ok(a),
    ensures
        actions_from(plan, DeployStage::SnapshotSaves, ok) == seq![
            DeployActionView::SnapshotSaves,
            DeployActionView::ClearFolder { path: plan.staging_dir },
            DeployActionView::MakeFolder { path: plan.staging_dir },
        ] + plan.links.map_values(
            |l: (Seq<char>, Seq<char>)| DeployActionView::LinkFile { source: l.0, dest: l.1 },
        ) + seq![
            DeployActionView::Mount {
                staging: plan.staging_dir,
                data: plan.data_dir,
                backup: plan.backup_dir,
            },
            DeployActionView::WriteText { path: plan.plugins_txt, text: plan.plugins },
            DeployActionView::Finished { linked: plan.links.len() },
        ],
{
    lemma_deploy_succeeds(plan, ok);
    assert(link_actions(plan, 0, plan.links.len() as int) =~= plan.links.map_values(
        |l: (Seq<char>, Seq<char>)| DeployActionView::LinkFile { source: l.0, dest: l.1 },
    ));
    assert(first_actions(plan) =~= seq![
        DeployActionView::SnapshotSaves,
        DeployActionView::ClearFolder { path: plan.staging_dir },
        DeployActionView::MakeFolder { path: plan.staging_dir },
    ]);
}

} // verus!
