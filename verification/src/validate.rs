//! Plugin headers and load orders: which masters a plugin requires, whether
//! they are enabled, whether they form a loop, and an order in which every
//! master loads before the plugins that require it.
//!
//! Only the `TES4` record at the start of a plugin is read. Its header is 24
//! bytes long, with the size of what follows at offset 4; what follows is a
//! row of subrecords, each a four-byte tag, a 16-bit size and that many bytes.
//! A `MAST` subrecord holds a master's file name, ended by a zero byte.

use crate::bytes;
use crate::graph;
use crate::text;
use vstd::prelude::*;

verus! {

/// The length of a record header.
pub const HEADER_LEN: usize = 24;

/// The master that a `MAST` subrecord with this content names, if any.
pub open spec fn master_name(data: Seq<u8>) -> Option<Seq<char>> {
    let name = bytes::up_to_zero(data);
    if name.len() > 0 && vstd::utf8::valid_utf8(name) {
        Some(vstd::utf8::decode_utf8(name))
    } else {
        None
    }
}

/// The masters that the subrecords of `b` from `i` on name, in order. A
/// subrecord that claims more bytes than there are ends with `b`.
pub open spec fn masters_from(b: Seq<u8>, i: int) -> Seq<Seq<char>>
    decreases b.len() - i,
{
    if 0 <= i && i + 6 <= b.len() {
        let size = bytes::le16_at(b, i + 4);
        let end = if i + 6 + size <= b.len() { i + 6 + size } else { b.len() as int };
        let rest = masters_from(b, end);
        if bytes::tag_at(b, i, 'M' as u8, 'A' as u8, 'S' as u8, 'T' as u8) {
            match master_name(b.subrange(i + 6, end)) {
                Some(name) => seq![name] + rest,
                None => rest,
            }
        } else {
            rest
        }
    } else {
        Seq::empty()
    }
}

/// The masters that a plugin with this content requires, in order. None where
/// it does not start with a whole `TES4` header.
pub open spec fn masters_in(b: Seq<u8>) -> Seq<Seq<char>> {
    if b.len() < HEADER_LEN || !bytes::tag_at(b, 0, 'T' as u8, 'E' as u8, 'S' as u8, '4' as u8) {
        Seq::empty()
    } else {
        let size = bytes::le32_at(b, 4);
        let end = if HEADER_LEN + size <= b.len() { HEADER_LEN + size } else { b.len() as int };
        masters_from(b.take(end), HEADER_LEN as int)
    }
}

/// The master file names that a plugin with this content requires. Empty for
/// anything that does not parse.
pub fn read_masters_from_bytes(b: &[u8]) -> (r: Vec<String>)
    ensures
        r.deep_view() == masters_in(b@),
{
    let mut out: Vec<String> = Vec::new();
    if b.len() < HEADER_LEN || !(b[0] == 'T' as u8 && b[1] == 'E' as u8 && b[2] == 'S' as u8 && b[3]
        == '4' as u8) {
        assert(out.deep_view() =~= Seq::<Seq<char>>::empty());
        return out;
    }
    let size: u32 = bytes::read_le32(b, 4);
    let room: usize = b.len() - HEADER_LEN;
    let end: usize = if (size as u64) <= (room as u64) {
        HEADER_LEN + size as usize
    } else {
        b.len()
    };
    let ghost body = b@.take(end as int);
    let mut i: usize = HEADER_LEN;
    assert(out.deep_view() + masters_from(body, i as int) =~= masters_in(b@));
    while end - i >= 6
        invariant
            HEADER_LEN <= i <= end <= b@.len(),
            body == b@.take(end as int),
            out.deep_view() + masters_from(body, i as int) == masters_in(b@),
        decreases end - i,
    {
        let field: usize = bytes::read_le16(b, i + 4) as usize;
        let start: usize = i + 6;
        let stop: usize = if field <= end - start {
            start + field
        } else {
            end
        };
        assert(bytes::le16_at(body, i + 4) == field);
        assert(body.subrange(start as int, stop as int) =~= b@.subrange(start as int, stop as int));
        let ghost before = out.deep_view();
        let ghost rest = masters_from(body, stop as int);
        if b[i] == 'M' as u8 && b[i + 1] == 'A' as u8 && b[i + 2] == 'S' as u8 && b[i + 3]
            == 'T' as u8 {
            let zero: usize = bytes::find_zero(b, start, stop);
            if zero > start {
                let name = text::utf8_text(vstd::slice::slice_subrange(b, start, zero));
                if let Some(name) = name {
                    out.push(name);
                    assert(out.deep_view() =~= before.push(name@));
                    assert(before + (seq![name@] + rest) =~= out.deep_view() + rest);
                }
            }
        }
        i = stop;
    }
    assert(masters_from(body, i as int) =~= Seq::<Seq<char>>::empty());
    assert(out.deep_view() + masters_from(body, i as int) =~= out.deep_view());
    out
}

/// What is known by file name, whatever the case of its letters. Of two
/// entries under one name the later counts.
pub struct NameTable<V> {
    entries: Vec<(String, V)>,
}

/// The entries as a map from lower-case name to value.
pub open spec fn table_of<V>(entries: Seq<(String, V)>) -> Map<Seq<char>, V>
    decreases entries.len(),
{
    if entries.len() == 0 {
        Map::empty()
    } else {
        table_of(entries.drop_last()).insert(entries.last().0@, entries.last().1)
    }
}

impl<V> NameTable<V> {
    /// The map from lower-case name to value.
    pub closed spec fn view(&self) -> Map<Seq<char>, V> {
        table_of(self.entries@)
    }

    pub fn new() -> (r: Self)
        ensures
            r@ == Map::<Seq<char>, V>::empty(),
    {
        NameTable { entries: Vec::new() }
    }

    /// Enters `value` under `name`, in place of what stood there.
    pub fn insert(&mut self, name: &str, value: V)
        ensures
            final(self)@ == old(self)@.insert(text::lowercase(name@), value),
    {
        let key = text::to_lowercase(name);
        self.entries.push((key, value));
        assert(self.entries@.drop_last() =~= old(self).entries@);
    }

    /// What stands under `name`.
    pub fn get(&self, name: &str) -> (r: Option<&V>)
        ensures
            match r {
                Some(v) => self@.contains_key(text::lowercase(name@)) && self@[text::lowercase(
                    name@,
                )] == *v,
                None => !self@.contains_key(text::lowercase(name@)),
            },
    {
        let key = text::to_lowercase(name);
        let mut i: usize = self.entries.len();
        assert(self.entries@.take(i as int) =~= self.entries@);
        while i > 0
            invariant
                i <= self.entries@.len(),
                key@ == text::lowercase(name@),
                self@.contains_key(key@) == table_of(self.entries@.take(i as int)).contains_key(
                    key@,
                ),
                self@[key@] == table_of(self.entries@.take(i as int))[key@],
            decreases i,
        {
            i -= 1;
            assert(self.entries@.take(i + 1).drop_last() =~= self.entries@.take(i as int));
            if text::same_text(self.entries[i].0.as_str(), key.as_str()) {
                return Some(&self.entries[i].1);
            }
        }
        None
    }
}

/// The names in lower case.
pub open spec fn lowered(names: Seq<Seq<char>>) -> Seq<Seq<char>> {
    names.map_values(|n: Seq<char>| text::lowercase(n))
}

fn lower_all(names: &Vec<String>) -> (r: Vec<String>)
    ensures
        r.deep_view() == lowered(names.deep_view()),
{
    let mut out: Vec<String> = Vec::new();
    let mut i: usize = 0;
    while i < names.len()
        invariant
            i <= names@.len(),
            out.deep_view() == lowered(names.deep_view()).take(i as int),
        decreases names.len() - i,
    {
        let ghost before = out.deep_view();
        out.push(text::to_lowercase(names[i].as_str()));
        i += 1;
        assert(out.deep_view() =~= before.push(text::lowercase(names@[i - 1]@)));
        assert(out.deep_view() =~= lowered(names.deep_view()).take(i as int));
    }
    assert(out.deep_view() =~= lowered(names.deep_view()));
    out
}

/// One plugin's missing-master problem: the plugin that needs a master, and
/// the required masters that are not in the enabled plugin list.
#[derive(Debug, Clone)]
pub struct MissingMasters {
    pub plugin: String,
    pub missing: Vec<String>,
}

/// The mathematical content of a [`MissingMasters`].
pub struct MissingMastersView {
    pub plugin: Seq<char>,
    pub missing: Seq<Seq<char>>,
}

impl DeepView for MissingMasters {
    type V = MissingMastersView;

    open spec fn deep_view(&self) -> MissingMastersView {
        MissingMastersView { plugin: self.plugin@, missing: self.missing.deep_view() }
    }
}

/// Of `masters`, those that are not in `enabled` whatever the case of their
/// letters.
pub open spec fn missing_of(masters: Seq<Seq<char>>, enabled: Seq<Seq<char>>) -> Seq<Seq<char>> {
    masters.filter(|m: Seq<char>| !lowered(enabled).contains(text::lowercase(m)))
}

/// The masters that `plugin` requires, as far as its file is known.
pub open spec fn known_masters(files: Map<Seq<char>, Vec<u8>>, plugin: Seq<char>) -> Seq<
    Seq<char>,
> {
    if files.contains_key(text::lowercase(plugin)) {
        masters_in(files[text::lowercase(plugin)]@)
    } else {
        Seq::empty()
    }
}

/// The problems of `plugins` in order, against the full list `enabled`.
pub open spec fn problems_of(
    plugins: Seq<Seq<char>>,
    enabled: Seq<Seq<char>>,
    files: Map<Seq<char>, Vec<u8>>,
) -> Seq<MissingMastersView>
    decreases plugins.len(),
{
    if plugins.len() == 0 {
        Seq::empty()
    } else {
        let before = problems_of(plugins.drop_last(), enabled, files);
        let missing = missing_of(known_masters(files, plugins.last()), enabled);
        if missing.len() > 0 {
            before.push(MissingMastersView { plugin: plugins.last(), missing })
        } else {
            before
        }
    }
}

/// The masters in `masters` that `enabled` lacks.
fn missing_among(masters: &Vec<String>, lower: &Vec<String>, enabled: Ghost<Seq<Seq<char>>>) -> (r:
    Vec<String>)
    requires
        lower.deep_view() == lowered(enabled@),
    ensures
        r.deep_view() == missing_of(masters.deep_view(), enabled@),
{
    let mut out: Vec<String> = Vec::new();
    let mut i: usize = 0;
    let ghost all = masters.deep_view();
    let ghost absent = |m: Seq<char>| !lowered(enabled@).contains(text::lowercase(m));
    assert(all.take(0) =~= Seq::<Seq<char>>::empty());
    reveal(Seq::filter);
    while i < masters.len()
        invariant
            i <= masters@.len(),
            all == masters.deep_view(),
            lower.deep_view() == lowered(enabled@),
            absent == (|m: Seq<char>| !lowered(enabled@).contains(text::lowercase(m))),
            out.deep_view() == all.take(i as int).filter(absent),
        decreases masters.len() - i,
    {
        let ghost before = out.deep_view();
        let key = text::to_lowercase(masters[i].as_str());
        assert(all.take(i + 1).drop_last() =~= all.take(i as int));
        assert(all.take(i + 1).last() == masters@[i as int]@);
        reveal(Seq::filter);
        if !text::is_in(lower, key.as_str()) {
            out.push(masters[i].clone());
            assert(out.deep_view() =~= before.push(masters@[i as int]@));
        }
        i += 1;
    }
    assert(all.take(i as int) =~= all);
    out
}

/// Checks every enabled plugin's masters against the full enabled list,
/// whatever the case of letters. `files` holds the content of the plugins that
/// were found; a plugin that was not found is passed over, since a stale entry
/// in a plugin list is another problem than a missing master.
pub fn check_missing_masters(enabled_plugins: &Vec<String>, files: &NameTable<Vec<u8>>) -> (r: Vec<
    MissingMasters,
>)
    ensures
        r.deep_view() == problems_of(
            enabled_plugins.deep_view(),
            enabled_plugins.deep_view(),
            files@,
        ),
{
    let lower = lower_all(enabled_plugins);
    let ghost all = enabled_plugins.deep_view();
    let mut out: Vec<MissingMasters> = Vec::new();
    let mut i: usize = 0;
    assert(all.take(0) =~= Seq::<Seq<char>>::empty());
    assert(out.deep_view() =~= Seq::<MissingMastersView>::empty());
    while i < enabled_plugins.len()
        invariant
            i <= enabled_plugins@.len(),
            all == enabled_plugins.deep_view(),
            lower.deep_view() == lowered(all),
            out.deep_view() == problems_of(all.take(i as int), all, files@),
        decreases enabled_plugins.len() - i,
    {
        let ghost before = out.deep_view();
        assert(all.take(i + 1).drop_last() =~= all.take(i as int));
        assert(all.take(i + 1).last() == enabled_plugins@[i as int]@);
        let masters = masters_of_plugin(enabled_plugins[i].as_str(), files);
        let missing = missing_among(&masters, &lower, Ghost(all));
        if missing.len() > 0 {
            let problem = MissingMasters { plugin: enabled_plugins[i].clone(), missing };
            out.push(problem);
            assert(out.deep_view() =~= before.push(problem.deep_view()));
        }
        i += 1;
    }
    assert(all.take(i as int) =~= all);
    out
}

/// The masters that `plugin` requires, as far as its file is known.
fn masters_of_plugin(plugin: &str, files: &NameTable<Vec<u8>>) -> (r: Vec<String>)
    ensures
        r.deep_view() == known_masters(files@, plugin@),
{
    match files.get(plugin) {
        Some(content) => read_masters_from_bytes(content.as_slice()),
        None => {
            let none: Vec<String> = Vec::new();
            assert(none.deep_view() =~= Seq::<Seq<char>>::empty());
            none
        },
    }
}

/// Where `x` last stands in `list`, or -1.
pub open spec fn last_place(list: Seq<Seq<char>>, x: Seq<char>) -> int
    decreases list.len(),
{
    if list.len() == 0 {
        -1
    } else if list.last() == x {
        list.len() - 1
    } else {
        last_place(list.drop_last(), x)
    }
}

/// The plugins of the list that `masters`, required by plugin `i`, stand for:
/// of each master the last plugin of that name whatever its case, unless that
/// is plugin `i` by name again.
pub open spec fn depends_on(
    plugins: Seq<Seq<char>>,
    masters: Seq<Seq<char>>,
    i: int,
) -> Seq<usize>
    decreases masters.len(),
{
    if masters.len() == 0 {
        Seq::empty()
    } else {
        let before = depends_on(plugins, masters.drop_last(), i);
        let j = last_place(lowered(plugins), text::lowercase(masters.last()));
        if j >= 0 && text::ascii_fold(plugins[j]) != text::ascii_fold(plugins[i]) {
            before.push(j as usize)
        } else {
            before
        }
    }
}

/// The graph in which each plugin points to its masters in the list.
pub open spec fn master_graph(
    plugins: Seq<Seq<char>>,
    files: Map<Seq<char>, Vec<u8>>,
) -> Seq<Seq<usize>> {
    Seq::new(plugins.len(), |i: int| depends_on(plugins, known_masters(files, plugins[i]), i))
}

proof fn lemma_last_place(list: Seq<Seq<char>>, x: Seq<char>, i: int)
    requires
        -1 <= i < list.len(),
        i >= 0 ==> list[i] == x,
        forall|j: int| i < j < list.len() ==> #[trigger] list[j] != x,
    ensures
        last_place(list, x) == i,
    decreases list.len(),
{
    if list.len() > 0 && list.last() != x {
        let t = list.drop_last();
        assert forall|j: int| i < j < t.len() implies #[trigger] t[j] != x by {
            assert(t[j] == list[j]);
        }
        lemma_last_place(t, x, i);
    } else if list.len() > 0 && i != list.len() - 1 {
        assert(list[list.len() - 1] != x);
    }
}

proof fn lemma_last_place_below(list: Seq<Seq<char>>, x: Seq<char>)
    ensures
        -1 <= last_place(list, x) < list.len(),
    decreases list.len(),
{
    if list.len() > 0 && list.last() != x {
        lemma_last_place_below(list.drop_last(), x);
    }
}

proof fn lemma_depends_on_below(plugins: Seq<Seq<char>>, masters: Seq<Seq<char>>, i: int)
    requires
        plugins.len() <= usize::MAX,
    ensures
        forall|k: int|
            0 <= k < depends_on(plugins, masters, i).len() ==> #[trigger] depends_on(
                plugins,
                masters,
                i,
            )[k] < plugins.len(),
    decreases masters.len(),
{
    if masters.len() > 0 {
        lemma_depends_on_below(plugins, masters.drop_last(), i);
        lemma_last_place_below(lowered(plugins), text::lowercase(masters.last()));
        let all = depends_on(plugins, masters, i);
        let before = depends_on(plugins, masters.drop_last(), i);
        assert forall|k: int| 0 <= k < all.len() implies #[trigger] all[k] < plugins.len() by {
            if k < before.len() {
                assert(all[k] == before[k]);
            }
        }
    }
}

/// Every master that a plugin points to is a plugin of the list.
pub proof fn lemma_master_graph_closed(plugins: Seq<Seq<char>>, files: Map<Seq<char>, Vec<u8>>)
    requires
        plugins.len() <= usize::MAX,
    ensures
        graph::closed_graph(master_graph(plugins, files)),
{
    let g = master_graph(plugins, files);
    assert forall|a: usize, b: usize| graph::edge(g, a, b) implies b < g.len() by {
        lemma_depends_on_below(plugins, known_masters(files, plugins[a as int]), a as int);
    }
}

/// Builds the graph in which each plugin points to its masters in the list.
fn master_edges(plugins: &Vec<String>, lower: &Vec<String>, files: &NameTable<Vec<u8>>) -> (r: Vec<
    Vec<usize>,
>)
    requires
        lower.deep_view() == lowered(plugins.deep_view()),
    ensures
        r.deep_view() == master_graph(plugins.deep_view(), files@),
        r@.len() == plugins@.len(),
{
    let ghost names = plugins.deep_view();
    let ghost goal = master_graph(names, files@);
    let mut out: Vec<Vec<usize>> = Vec::new();
    let mut i: usize = 0;
    while i < plugins.len()
        invariant
            i <= plugins@.len(),
            names == plugins.deep_view(),
            lower.deep_view() == lowered(names),
            goal == master_graph(names, files@),
            out.deep_view() == goal.take(i as int),
        decreases plugins.len() - i,
    {
        let masters = masters_of_plugin(plugins[i].as_str(), files);
        let deps = edges_of(plugins, lower, &masters, i);
        let ghost before = out.deep_view();
        let ghost d = deps@;
        out.push(deps);
        i += 1;
        assert(out@.last().deep_view() =~= d);
        assert(out.deep_view() =~= before.push(d));
        assert(out.deep_view() =~= goal.take(i as int));
    }
    assert(out.deep_view() =~= goal);
    assert(out.deep_view().len() == out@.len());
    out
}

fn edges_of(plugins: &Vec<String>, lower: &Vec<String>, masters: &Vec<String>, i: usize) -> (r: Vec<
    usize,
>)
    requires
        lower.deep_view() == lowered(plugins.deep_view()),
        i < plugins@.len(),
    ensures
        r@ == depends_on(plugins.deep_view(), masters.deep_view(), i as int),
{
    let ghost names = plugins.deep_view();
    let ghost all = masters.deep_view();
    let mut out: Vec<usize> = Vec::new();
    let mut k: usize = 0;
    assert(all.take(0) =~= Seq::<Seq<char>>::empty());
    while k < masters.len()
        invariant
            k <= masters@.len(),
            i < plugins@.len(),
            names == plugins.deep_view(),
            all == masters.deep_view(),
            lower.deep_view() == lowered(names),
            out@ == depends_on(names, all.take(k as int), i as int),
        decreases masters.len() - k,
    {
        assert(all.take(k + 1).drop_last() =~= all.take(k as int));
        assert(all.take(k + 1).last() == masters@[k as int]@);
        let key = text::to_lowercase(masters[k].as_str());
        let mut j: usize = lower.len();
        while j > 0 && !text::same_text(lower[j - 1].as_str(), key.as_str())
            invariant
                j <= lower@.len(),
                forall|m: int| j <= m < lower@.len() ==> lower.deep_view()[m] != key@,
            decreases j,
        {
            assert(lower.deep_view()[j - 1] != key@);
            j -= 1;
        }
        proof {
            lemma_last_place(lower.deep_view(), key@, j - 1);
            assert(lower.deep_view().len() == names.len());
        }
        if j > 0 && !text::same_ignoring_case(plugins[j - 1].as_str(), plugins[i].as_str()) {
            out.push(j - 1);
        }
        k += 1;
    }
    assert(all.take(k as int) =~= all);
    out
}

/// The names of the plugins along each list of places.
pub open spec fn named(plugins: Seq<Seq<char>>, places: Seq<usize>) -> Seq<Seq<char>> {
    places.map_values(|v: usize| plugins[v as int])
}

/// Where `x` first stands in `list`, or the length of `list`.
pub open spec fn first_place<K>(list: Seq<K>, x: K) -> int
    decreases list.len(),
{
    if list.len() == 0 || list[0] == x {
        0
    } else {
        1 + first_place(list.drop_first(), x)
    }
}

/// For each place the first one at which the same stands.
pub open spec fn classes_by<K>(list: Seq<K>) -> Seq<usize> {
    Seq::new(list.len(), |i: int| first_place(list, list[i]) as usize)
}

/// Each name in lower case and with its ASCII capitals made small. Names for
/// which these agree are the same but for the case of ASCII letters.
pub open spec fn spellings(names: Seq<Seq<char>>) -> Seq<(Seq<char>, Seq<char>)> {
    names.map_values(|n: Seq<char>| (text::lowercase(n), text::ascii_fold(n)))
}

/// Whether names that are the same in lower case differ in the case of ASCII
/// letters only.
pub open spec fn vary_in_ascii(names: Seq<Seq<char>>) -> bool {
    forall|a: int, b: int|
        0 <= a < names.len() && 0 <= b < names.len() && text::lowercase(#[trigger] names[a])
            == text::lowercase(#[trigger] names[b]) ==> text::ascii_fold(names[a])
            == text::ascii_fold(names[b])
}

/// The loops among the plugins' masters, by name, each ending with the name
/// that it began with. Plugins of one name, whatever its case, count as one.
pub open spec fn cycles_of(plugins: Seq<Seq<char>>, files: Map<Seq<char>, Vec<u8>>) -> Seq<
    Seq<Seq<char>>,
> {
    graph::loops_met(
        master_graph(plugins, files),
        classes_by(lowered(plugins)),
        classes_by(spellings(plugins)),
    ).map_values(|c: Seq<usize>| named(plugins, c))
}

proof fn lemma_first_place<K>(list: Seq<K>, x: K, i: int)
    requires
        0 <= i < list.len(),
        list[i] == x,
        forall|j: int| 0 <= j < i ==> #[trigger] list[j] != x,
    ensures
        first_place(list, x) == i,
    decreases list.len(),
{
    if i > 0 {
        let t = list.drop_first();
        assert(list[0] != x);
        assert forall|j: int| 0 <= j < i - 1 implies #[trigger] t[j] != x by {
            assert(t[j] == list[j + 1]);
        }
        lemma_first_place(t, x, i - 1);
    }
}

proof fn lemma_first_place_is<K>(list: Seq<K>, i: int)
    requires
        0 <= i < list.len(),
    ensures
        0 <= first_place(list, list[i]) <= i,
        list[first_place(list, list[i])] == list[i],
    decreases list.len(),
{
    if list[0] != list[i] {
        lemma_first_place_is(list.drop_first(), i - 1);
    }
}

/// Two places are of one class exactly where the same stands at them, and a
/// class is named by one of its places.
proof fn lemma_classes<K>(list: Seq<K>)
    requires
        list.len() <= usize::MAX,
    ensures
        graph::are_classes(classes_by(list), list.len() as int),
        forall|i: int|
            0 <= i < list.len() ==> classes_by(list)[#[trigger] classes_by(list)[i] as int]
                == classes_by(list)[i],
        forall|a: int, b: int|
            0 <= a < list.len() && 0 <= b < list.len() ==> (#[trigger] classes_by(list)[a]
                == #[trigger] classes_by(list)[b] <==> list[a] == list[b]),
{
    let c = classes_by(list);
    assert forall|i: int| 0 <= i < list.len() implies #[trigger] c[i] < list.len() && list[c[i] as int]
        == list[i] by {
        lemma_first_place_is(list, i);
    }
    assert forall|a: int, b: int| 0 <= a < list.len() && 0 <= b < list.len() implies (
    #[trigger] c[a] == #[trigger] c[b] <==> list[a] == list[b]) by {
        assert(list[c[a] as int] == list[a] && list[c[b] as int] == list[b]);
    }
    assert forall|i: int| 0 <= i < list.len() implies c[#[trigger] c[i] as int] == c[i] by {
        assert(list[c[i] as int] == list[i]);
        let k = c[i] as int;
        assert(c[k] == first_place(list, list[k]) as usize);
    }
}

/// Which plugins a plugin depends on rests on its name and not on its case.
proof fn lemma_depends_on_alike(
    plugins: Seq<Seq<char>>,
    masters: Seq<Seq<char>>,
    a: int,
    b: int,
)
    requires
        text::ascii_fold(plugins[a]) == text::ascii_fold(plugins[b]),
    ensures
        depends_on(plugins, masters, a) == depends_on(plugins, masters, b),
    decreases masters.len(),
{
    if masters.len() > 0 {
        lemma_depends_on_alike(plugins, masters.drop_last(), a, b);
    }
}

proof fn lemma_same_names_point_alike(plugins: Seq<Seq<char>>, files: Map<Seq<char>, Vec<u8>>)
    requires
        plugins.len() <= usize::MAX,
    ensures
        graph::kin_point_alike(master_graph(plugins, files), classes_by(spellings(plugins))),
{
    let kin = classes_by(spellings(plugins));
    let g = master_graph(plugins, files);
    lemma_classes(spellings(plugins));
    assert forall|a: int, b: int|
        0 <= a < g.len() && 0 <= b < g.len() && #[trigger] kin[a] == #[trigger] kin[b] implies g[a]
        == g[b] by {
        assert(spellings(plugins)[a] == spellings(plugins)[b]);
        lemma_depends_on_alike(plugins, known_masters(files, plugins[a]), a, b);
    }
}

proof fn lemma_classes_agree(plugins: Seq<Seq<char>>)
    requires
        plugins.len() <= usize::MAX,
        vary_in_ascii(plugins),
    ensures
        classes_by(lowered(plugins)) == classes_by(spellings(plugins)),
{
    let one = classes_by(lowered(plugins));
    let kin = classes_by(spellings(plugins));
    lemma_classes(lowered(plugins));
    lemma_classes(spellings(plugins));
    let l = lowered(plugins);
    let s = spellings(plugins);
    assert forall|i: int| 0 <= i < plugins.len() implies #[trigger] one[i] == kin[i] by {
        lemma_first_place_is(l, i);
        lemma_first_place_is(s, i);
        let a = first_place(l, l[i]);
        let b = first_place(s, s[i]);
        assert(text::lowercase(plugins[a]) == text::lowercase(plugins[i]));
        assert(s[a] == s[i]);
        assert(kin[a] == kin[i]);
        assert(l[b] == l[i]);
        assert(one[b] == one[i]);
        assert(one[b] <= b && kin[a] <= a) by {
            lemma_first_place_is(l, b);
            lemma_first_place_is(s, a);
        }
    }
    assert(one =~= kin);
}

/// Masters form a loop wherever one is reported. Where names that are the same
/// in lower case differ in the case of ASCII letters only, one is reported
/// wherever they form one.
pub proof fn lemma_cycles_tell_loops(plugins: Seq<Seq<char>>, files: Map<Seq<char>, Vec<u8>>)
    requires
        plugins.len() <= usize::MAX,
    ensures
        cycles_of(plugins, files).len() > 0 ==> graph::has_loop(master_graph(plugins, files)),
        vary_in_ascii(plugins) && graph::has_loop(master_graph(plugins, files)) ==> cycles_of(
            plugins,
            files,
        ).len() > 0,
{
    let g = master_graph(plugins, files);
    let one = classes_by(lowered(plugins));
    let kin = classes_by(spellings(plugins));
    lemma_master_graph_closed(plugins, files);
    lemma_classes(lowered(plugins));
    lemma_classes(spellings(plugins));
    lemma_same_names_point_alike(plugins, files);
    if graph::loops_met(g, one, kin).len() > 0 {
        graph::lemma_loops_met_are_rounds(g, one, kin);
        graph::lemma_round_shows_loop(g, kin, graph::loops_met(g, one, kin)[0]);
    }
    if vary_in_ascii(plugins) {
        lemma_classes_agree(plugins);
        graph::lemma_loop_met_iff_there(g, one);
    }
}

/// For each name the first place with the same name in lower case.
fn name_classes(lower: &Vec<String>) -> (r: Vec<usize>)
    ensures
        r@ == classes_by(lower.deep_view()),
{
    let ghost list = lower.deep_view();
    let mut out: Vec<usize> = Vec::new();
    let mut i: usize = 0;
    while i < lower.len()
        invariant
            i <= lower@.len(),
            list == lower.deep_view(),
            out@ == classes_by(list).take(i as int),
        decreases lower.len() - i,
    {
        let mut k: usize = 0;
        while !text::same_text(lower[k].as_str(), lower[i].as_str())
            invariant
                k <= i < lower@.len(),
                list == lower.deep_view(),
                forall|j: int| 0 <= j < k ==> #[trigger] list[j] != list[i as int],
            decreases i - k,
        {
            assert(list[k as int] != list[i as int]);
            k += 1;
        }
        proof {
            lemma_first_place(list, list[i as int], k as int);
        }
        out.push(k);
        i += 1;
        assert(out@ =~= classes_by(list).take(i as int));
    }
    assert(out@ =~= classes_by(list));
    out
}

/// For each name the first place with the same name but for the case of ASCII
/// letters.
fn spelling_classes(names: &Vec<String>, lower: &Vec<String>) -> (r: Vec<usize>)
    requires
        lower.deep_view() == lowered(names.deep_view()),
    ensures
        r@ == classes_by(spellings(names.deep_view())),
{
    let ghost nv = names.deep_view();
    let ghost list = spellings(nv);
    assert(lower@.len() == names@.len()) by {
        assert(lower.deep_view().len() == lower@.len());
        assert(nv.len() == names@.len());
    }
    let mut out: Vec<usize> = Vec::new();
    let mut i: usize = 0;
    while i < names.len()
        invariant
            i <= names@.len(),
            lower@.len() == names@.len(),
            nv == names.deep_view(),
            lower.deep_view() == lowered(nv),
            list == spellings(nv),
            out@ == classes_by(list).take(i as int),
        decreases names.len() - i,
    {
        let mut k: usize = 0;
        while !(text::same_text(lower[k].as_str(), lower[i].as_str())
            && text::same_ignoring_case(names[k].as_str(), names[i].as_str()))
            invariant
                k <= i < names@.len(),
                lower@.len() == names@.len(),
                nv == names.deep_view(),
                lower.deep_view() == lowered(nv),
                list == spellings(nv),
                forall|j: int| 0 <= j < k ==> #[trigger] list[j] != list[i as int],
            decreases i - k,
        {
            assert(lower.deep_view()[k as int] == lower@[k as int]@);
            assert(lower.deep_view()[i as int] == lower@[i as int]@);
            assert(list[k as int] != list[i as int]);
            k += 1;
        }
        proof {
            assert(lower.deep_view()[k as int] == lower@[k as int]@);
            assert(lower.deep_view()[i as int] == lower@[i as int]@);
            assert(list[k as int] == list[i as int]);
            lemma_first_place(list, list[i as int], k as int);
        }
        out.push(k);
        i += 1;
        assert(out@ =~= classes_by(list).take(i as int));
    }
    assert(out@ =~= classes_by(list));
    out
}

fn names_at(plugins: &Vec<String>, places: &Vec<usize>) -> (r: Vec<String>)
    requires
        forall|k: int| 0 <= k < places@.len() ==> #[trigger] places@[k] < plugins@.len(),
    ensures
        r.deep_view() == named(plugins.deep_view(), places@),
{
    let ghost goal = named(plugins.deep_view(), places@);
    let mut out: Vec<String> = Vec::new();
    let mut i: usize = 0;
    while i < places.len()
        invariant
            i <= places@.len(),
            goal == named(plugins.deep_view(), places@),
            forall|k: int| 0 <= k < places@.len() ==> #[trigger] places@[k] < plugins@.len(),
            out.deep_view() == goal.take(i as int),
        decreases places.len() - i,
    {
        let ghost before = out.deep_view();
        out.push(plugins[places[i]].clone());
        i += 1;
        assert(out.deep_view() =~= before.push(goal[i - 1]));
        assert(out.deep_view() =~= goal.take(i as int));
    }
    assert(out.deep_view() =~= goal);
    out
}

/// Circular master dependencies among the plugins. Each is a list of names
/// that ends with its first name again, so that it reads as a loop
/// (`A -> B -> A`). Plugins of one name, whatever its case, count as one, and
/// each name is spelled as the list spells the plugin that was come upon. A loop
/// that closes on a name which differs in the case of other than ASCII letters
/// is not told.
pub fn find_cycles(plugins: &Vec<String>, files: &NameTable<Vec<u8>>) -> (r: Vec<Vec<String>>)
    ensures
        r.deep_view() == cycles_of(plugins.deep_view(), files@),
        r@.len() > 0 ==> graph::has_loop(master_graph(plugins.deep_view(), files@)),
        vary_in_ascii(plugins.deep_view()) && graph::has_loop(
            master_graph(plugins.deep_view(), files@),
        ) ==> r@.len() > 0,
{
    let lower = lower_all(plugins);
    let count: usize = plugins.len();
    let ghost names = plugins.deep_view();
    assert(names.len() == count);
    assert(lower@.len() == names.len()) by {
        assert(lower.deep_view().len() == lower@.len());
    }
    let g = master_edges(plugins, &lower, files);
    let one = name_classes(&lower);
    let kin = spelling_classes(plugins, &lower);
    proof {
        lemma_classes(lowered(names));
        lemma_classes(spellings(names));
    }
    let loops = graph::find_loops(&g, &one, &kin);
    let ghost goal = cycles_of(names, files@);
    let mut out: Vec<Vec<String>> = Vec::new();
    let mut i: usize = 0;
    while i < loops.len()
        invariant
            i <= loops@.len(),
            names == plugins.deep_view(),
            goal == cycles_of(names, files@),
            graph::nodes_below(loops@, plugins@.len() as int),
            loops.deep_view() == graph::loops_met(
                master_graph(names, files@),
                classes_by(lowered(names)),
                classes_by(spellings(names)),
            ),
            out.deep_view() == goal.take(i as int),
        decreases loops.len() - i,
    {
        assert forall|k: int| 0 <= k < loops@[i as int]@.len() implies #[trigger] loops@[i as int]@[k]
            < plugins@.len() by {}
        let c = names_at(plugins, &loops[i]);
        let ghost before = out.deep_view();
        let ghost cv = c.deep_view();
        out.push(c);
        assert(loops.deep_view()[i as int] =~= loops@[i as int]@);
        i += 1;
        assert(out.deep_view() =~= before.push(cv));
        assert(out.deep_view() =~= goal.take(i as int));
    }
    assert(goal.len() == loops.deep_view().len());
    assert(out.deep_view() =~= goal);
    proof {
        lemma_cycles_tell_loops(names, files@);
        assert(out.deep_view().len() == out@.len());
    }
    out
}

/// Sorts plugins so that every master loads before the plugins that require
/// it, and otherwise keeps the order of the list: next comes always the first
/// plugin of the list whose masters have all come. Where masters form a loop
/// there is no such order, and the loops are returned, as [`find_cycles`]
/// gives them, which may be none where names differ in the case of other than
/// ASCII letters.
pub fn sort_plugins(plugins: &Vec<String>, files: &NameTable<Vec<u8>>) -> (r: Result<
    Vec<String>,
    Vec<Vec<String>>,
>)
    ensures
        r is Err <==> graph::has_loop(master_graph(plugins.deep_view(), files@)),
        match r {
            Ok(sorted) => {
                &&& exists|order: Seq<usize>|
                    graph::is_load_order(master_graph(plugins.deep_view(), files@), order)
                        && sorted.deep_view() == #[trigger] named(plugins.deep_view(), order)
                &&& masters_lead(sorted.deep_view(), files@)
                &&& sorted.deep_view().to_multiset() == plugins.deep_view().to_multiset()
            },
            Err(cycles) => cycles.deep_view() == cycles_of(plugins.deep_view(), files@),
        },
{
    let cycles = find_cycles(plugins, files);
    if cycles.len() > 0 {
        return Err(cycles);
    }
    let ghost names = plugins.deep_view();
    let ghost gv = master_graph(names, files@);
    let count: usize = plugins.len();
    assert(names.len() == count);
    let lower = lower_all(plugins);
    let g = master_edges(plugins, &lower, files);
    proof {
        lemma_master_graph_closed(names, files@);
    }
    match graph::order_nodes(&g) {
        Some(order) => {
            proof {
                graph::lemma_load_order(gv, order@);
            }
            let sorted = names_at(plugins, &order);
            assert(sorted.deep_view() == named(names, order@));
            proof {
                lemma_sorted_masters_lead(names, files@, order@);
                lemma_sorted_is_permutation(names, files@, order@);
            }
            Ok(sorted)
        },
        None => Err(cycles),
    }
}

/// Only the declared data of a plugin's header is read: whatever follows it in
/// the file changes nothing.
pub proof fn lemma_only_declared_data_counts(b: Seq<u8>, suffix: Seq<u8>)
    requires
        HEADER_LEN <= b.len(),
        bytes::tag_at(b, 0, 'T' as u8, 'E' as u8, 'S' as u8, '4' as u8),
        HEADER_LEN + bytes::le32_at(b, 4) <= b.len(),
    ensures
        masters_in(b + suffix) == masters_in(b),
{
    let size = bytes::le32_at(b, 4);
    assert(bytes::le32_at(b + suffix, 4) == size);
    assert((b + suffix).take(HEADER_LEN + size) =~= b.take(HEADER_LEN + size));
}

/// A zero character is written as a zero byte.
proof fn lemma_zero_is_encoded(name: Seq<char>, i: int) -> (j: int)
    requires
        0 <= i < name.len(),
        name[i] == '\0',
    ensures
        0 <= j < vstd::utf8::encode_utf8(name).len(),
        vstd::utf8::encode_utf8(name)[j] == 0,
    decreases name.len(),
{
    let rest = name.drop_first();
    let first = vstd::utf8::encode_scalar(name[0] as u32);
    let all = vstd::utf8::encode_utf8(name);
    if i == 0 {
        assert((0u32 & 0x7f) as u8 == 0) by (bit_vector);
        assert(all[0] == first[0]);
        0
    } else {
        let j = lemma_zero_is_encoded(rest, i - 1);
        assert(all[first.len() + j] == vstd::utf8::encode_utf8(rest)[j]);
        first.len() + j
    }
}

/// A text that is decoded from bytes without a zero holds no zero character.
proof fn lemma_decoded_without_zero(b: Seq<u8>)
    requires
        vstd::utf8::valid_utf8(b),
        forall|i: int| 0 <= i < b.len() ==> #[trigger] b[i] != 0,
    ensures
        b.len() > 0 ==> vstd::utf8::decode_utf8(b).len() > 0,
        text::lacks(vstd::utf8::decode_utf8(b), '\0'),
{
    let all = vstd::utf8::decode_utf8(b);
    vstd::utf8::decode_utf8_encode_utf8(b);
    assert forall|i: int| 0 <= i < all.len() implies #[trigger] all[i] != '\0' by {
        if all[i] == '\0' {
            let j = lemma_zero_is_encoded(all, i);
            assert(b[j] == 0);
        }
    }
}

proof fn lemma_up_to_zero_holds_none(s: Seq<u8>)
    ensures
        forall|i: int| 0 <= i < bytes::up_to_zero(s).len() ==> #[trigger] bytes::up_to_zero(s)[i] != 0,
    decreases s.len(),
{
    if s.len() > 0 && s[0] != 0 {
        lemma_up_to_zero_holds_none(s.drop_first());
        let all = bytes::up_to_zero(s);
        assert forall|i: int| 0 <= i < all.len() implies #[trigger] all[i] != 0 by {
            if i > 0 {
                assert(all[i] == bytes::up_to_zero(s.drop_first())[i - 1]);
            }
        }
    }
}

proof fn lemma_master_names_from(b: Seq<u8>, i: int)
    ensures
        forall|k: int|
            0 <= k < masters_from(b, i).len() ==> (#[trigger] masters_from(b, i)[k]).len() > 0
                && text::lacks(masters_from(b, i)[k], '\0'),
    decreases b.len() - i,
{
    if 0 <= i && i + 6 <= b.len() {
        let size = bytes::le16_at(b, i + 4);
        let end = if i + 6 + size <= b.len() {
            i + 6 + size
        } else {
            b.len() as int
        };
        lemma_master_names_from(b, end);
        let data = b.subrange(i + 6, end);
        let name = bytes::up_to_zero(data);
        lemma_up_to_zero_holds_none(data);
        if name.len() > 0 && vstd::utf8::valid_utf8(name) {
            lemma_decoded_without_zero(name);
        }
        let all = masters_from(b, i);
        let rest = masters_from(b, end);
        assert forall|k: int| 0 <= k < all.len() implies (#[trigger] all[k]).len() > 0
            && text::lacks(all[k], '\0') by {
            if all.len() == rest.len() {
                assert(all == rest);
            } else if k > 0 {
                assert(all[k] == rest[k - 1]);
            }
        }
    }
}

/// Every master that a plugin is read to require has a name, and it holds no
/// zero character.
pub proof fn lemma_master_names(b: Seq<u8>)
    ensures
        forall|k: int|
            0 <= k < masters_in(b).len() ==> (#[trigger] masters_in(b)[k]).len() > 0
                && text::lacks(masters_in(b)[k], '\0'),
{
    let size = bytes::le32_at(b, 4);
    let end = if HEADER_LEN + size <= b.len() {
        HEADER_LEN + size
    } else {
        b.len() as int
    };
    lemma_master_names_from(b.take(end), HEADER_LEN as int);
}

/// In a sorted list every master comes before the plugin that requires it.
pub proof fn lemma_masters_load_first(
    plugins: Seq<Seq<char>>,
    files: Map<Seq<char>, Vec<u8>>,
    order: Seq<usize>,
    i: int,
    j: int,
)
    requires
        plugins.len() <= usize::MAX,
        graph::is_load_order(master_graph(plugins, files), order),
        0 <= i < order.len(),
        0 <= j < order.len(),
        graph::edge(master_graph(plugins, files), order[i], order[j]),
    ensures
        j < i,
{
    graph::lemma_load_order(master_graph(plugins, files), order);
    let t = order.take(i);
    assert(t.contains(order[j]));
    let k = choose|k: int| 0 <= k < t.len() && t[k] == order[j];
    assert(order[k] == order[j]);
}

/// Sorting neither drops a plugin nor adds one.
pub proof fn lemma_sorted_is_permutation(
    plugins: Seq<Seq<char>>,
    files: Map<Seq<char>, Vec<u8>>,
    order: Seq<usize>,
)
    requires
        plugins.len() <= usize::MAX,
        graph::is_load_order(master_graph(plugins, files), order),
    ensures
        named(plugins, order).to_multiset() == plugins.to_multiset(),
{
    graph::lemma_load_order(master_graph(plugins, files), order);
    let n = plugins.len() as int;
    let ids = Seq::new(plugins.len(), |i: int| i as usize);
    assert(order.to_multiset() =~= ids.to_multiset()) by {
        order.lemma_multiset_has_no_duplicates();
        assert(ids.no_duplicates());
        ids.lemma_multiset_has_no_duplicates();
        assert forall|v: usize| order.to_multiset().count(v) == ids.to_multiset().count(v) by {
            order.to_multiset_ensures();
            ids.to_multiset_ensures();
            if v < n {
                graph::lemma_load_order_covers(master_graph(plugins, files), order, v);
                assert(ids[v as int] == v);
                assert(order.contains(v) && ids.contains(v));
            } else {
                assert(!order.contains(v)) by {
                    if order.contains(v) {
                        let k = choose|k: int| 0 <= k < order.len() && order[k] == v;
                        assert(order[k] < n);
                    }
                }
            }
        }
    }
    let f = |v: usize| plugins[v as int];
    lemma_map_keeps_multiset(order, ids, f);
    assert(ids.map_values(f) =~= plugins);
    assert(named(plugins, order) =~= order.map_values(f));
}

proof fn lemma_map_keeps_multiset<A, B>(a: Seq<A>, b: Seq<A>, f: spec_fn(A) -> B)
    requires
        a.to_multiset() == b.to_multiset(),
    ensures
        a.map_values(f).to_multiset() == b.map_values(f).to_multiset(),
    decreases a.len(),
{
    a.to_multiset_ensures();
    b.to_multiset_ensures();
    if a.len() == 0 {
        assert(b.len() == 0);
        assert(a.map_values(f) =~= b.map_values(f));
    } else {
        let x = a.last();
        assert(a.contains(x));
        assert(b.to_multiset().count(x) > 0);
        assert(b.contains(x));
        let i = choose|i: int| 0 <= i < b.len() && b[i] == x;
        let a1 = a.drop_last();
        let b1 = b.remove(i);
        assert(a1.to_multiset() =~= a.to_multiset().remove(x)) by {
            assert(a1 =~= a.remove(a.len() - 1));
        }
        assert(b1.to_multiset() =~= b.to_multiset().remove(x));
        lemma_map_keeps_multiset(a1, b1, f);
        let am = a.map_values(f);
        let bm = b.map_values(f);
        assert(a1.map_values(f) =~= am.remove(am.len() - 1));
        assert(b1.map_values(f) =~= bm.remove(i));
        am.to_multiset_ensures();
        bm.to_multiset_ensures();
        assert(am.to_multiset().remove(f(x)).insert(f(x)) =~= am.to_multiset()) by {
            assert(am.contains(f(x))) by {
                assert(am[am.len() - 1] == f(x));
            }
        }
        assert(bm.to_multiset().remove(f(x)).insert(f(x)) =~= bm.to_multiset()) by {
            assert(bm.contains(f(x))) by {
                assert(bm[i] == f(x));
            }
        }
    }
}

/// A plugin falls behind one that was listed after it only where it requires
/// that plugin, or one listed later still, directly or through its masters.
pub proof fn lemma_independent_plugins_keep_order(
    plugins: Seq<Seq<char>>,
    files: Map<Seq<char>, Vec<u8>>,
    order: Seq<usize>,
    i: int,
    j: int,
)
    requires
        plugins.len() <= usize::MAX,
        graph::is_load_order(master_graph(plugins, files), order),
        0 <= i < j < order.len(),
        order[j] < order[i],
    ensures
        exists|w: Seq<usize>|
            graph::leads_past(master_graph(plugins, files), w, order[j], order[i]),
{
    graph::lemma_passed_by_needed(master_graph(plugins, files), order, i, j);
}

/// A list in which every plugin comes after its masters stays as it is.
pub proof fn lemma_valid_order_is_kept(
    plugins: Seq<Seq<char>>,
    files: Map<Seq<char>, Vec<u8>>,
    order: Seq<usize>,
)
    requires
        plugins.len() <= usize::MAX,
        graph::is_load_order(master_graph(plugins, files), order),
        forall|a: usize, b: usize|
            #[trigger] graph::edge(master_graph(plugins, files), a, b) ==> b < a,
    ensures
        named(plugins, order) == plugins,
{
    graph::lemma_ordered_stays(master_graph(plugins, files), order);
    assert(named(plugins, order) =~= plugins);
}

/// Every reported cycle is a loop: it has at least two names, it ends with the
/// name that it began with but for the case of ASCII letters, and each plugin on
/// it requires the next.
pub proof fn lemma_cycles_are_loops(
    plugins: Seq<Seq<char>>,
    files: Map<Seq<char>, Vec<u8>>,
    k: int,
) -> (c: Seq<usize>)
    requires
        plugins.len() <= usize::MAX,
        0 <= k < cycles_of(plugins, files).len(),
    ensures
        cycles_of(plugins, files)[k] == named(plugins, c),
        c.len() >= 2,
        graph::is_walk(master_graph(plugins, files), c),
        text::lowercase(plugins[c[0] as int]) == text::lowercase(plugins[c.last() as int]),
        text::ascii_fold(plugins[c[0] as int]) == text::ascii_fold(plugins[c.last() as int]),
{
    let g = master_graph(plugins, files);
    let one = classes_by(lowered(plugins));
    let kin = classes_by(spellings(plugins));
    graph::lemma_loops_met_are_rounds(g, one, kin);
    let c = graph::loops_met(g, one, kin)[k];
    assert(graph::is_round(g, kin, c));
    lemma_classes(spellings(plugins));
    lemma_master_graph_closed(plugins, files);
    assert(graph::edge_at(g, c, 0));
    assert(graph::edge_at(g, c, c.len() - 2));
    assert(spellings(plugins)[c[0] as int] == spellings(plugins)[c.last() as int]);
    c
}

/// Only a plugin whose file is known is reported.
pub proof fn lemma_reported_plugins_are_known(
    plugins: Seq<Seq<char>>,
    enabled: Seq<Seq<char>>,
    files: Map<Seq<char>, Vec<u8>>,
    k: int,
)
    requires
        0 <= k < problems_of(plugins, enabled, files).len(),
    ensures
        files.contains_key(text::lowercase(problems_of(plugins, enabled, files)[k].plugin)),
    decreases plugins.len(),
{
    reveal(Seq::filter);
    let before = problems_of(plugins.drop_last(), enabled, files);
    if k < before.len() {
        lemma_reported_plugins_are_known(plugins.drop_last(), enabled, files, k);
    }
}

// ---------------------------------------------------------------------------
// What a sorted list and the reported problems have to do with the headers
// ---------------------------------------------------------------------------

/// Whether the header of the plugin at `p` names the plugin at `x` as a master,
/// and that is not the plugin itself.
pub open spec fn needs(
    list: Seq<Seq<char>>,
    files: Map<Seq<char>, Vec<u8>>,
    p: int,
    x: int,
) -> bool {
    &&& files.contains_key(text::lowercase(list[p]))
    &&& exists|k: int|
        0 <= k < masters_in(files[text::lowercase(list[p])]@).len() && text::lowercase(
            #[trigger] masters_in(files[text::lowercase(list[p])]@)[k],
        ) == text::lowercase(list[x])
    &&& forall|y: int|
        0 <= y < list.len() && text::lowercase(#[trigger] list[y]) == text::lowercase(list[x])
            ==> text::ascii_fold(list[y]) != text::ascii_fold(list[p])
}

/// Whether before the place `p` a plugin of this name stands, whatever its case.
pub open spec fn stands_before(list: Seq<Seq<char>>, name: Seq<char>, p: int) -> bool {
    exists|q: int| 0 <= q < p && text::lowercase(#[trigger] list[q]) == text::lowercase(name)
}

/// Whether each plugin of the list comes behind all plugins of the list that its
/// header names as masters.
pub open spec fn masters_lead(list: Seq<Seq<char>>, files: Map<Seq<char>, Vec<u8>>) -> bool {
    forall|p: int, x: int|
        0 <= p < list.len() && 0 <= x < list.len() && #[trigger] needs(list, files, p, x)
            ==> stands_before(list, list[x], p)
}

/// The masters of a plugin are looked at one by one: what comes before and after
/// one does not change what it stands for.
pub proof fn lemma_masters_count_one_by_one(
    plugins: Seq<Seq<char>>,
    a: Seq<Seq<char>>,
    b: Seq<Seq<char>>,
    i: int,
)
    ensures
        depends_on(plugins, a + b, i) == depends_on(plugins, a, i) + depends_on(plugins, b, i),
    decreases b.len(),
{
    if b.len() == 0 {
        assert(a + b =~= a);
        assert(depends_on(plugins, a, i) + depends_on(plugins, b, i) =~= depends_on(plugins, a, i));
    } else {
        lemma_masters_count_one_by_one(plugins, a, b.drop_last(), i);
        assert((a + b).drop_last() =~= a + b.drop_last());
        assert(depends_on(plugins, a + b, i) =~= depends_on(plugins, a, i) + depends_on(
            plugins,
            b,
            i,
        ));
    }
}

/// A master stands for the last plugin of the list that has its name in lower
/// case, and for none where there is no such plugin or it is the one that
/// requires it.
pub proof fn lemma_what_a_master_stands_for(
    plugins: Seq<Seq<char>>,
    master: Seq<char>,
    i: int,
    j: int,
)
    requires
        plugins.len() <= usize::MAX,
        -1 <= j < plugins.len(),
        j >= 0 ==> text::lowercase(plugins[j]) == text::lowercase(master),
        forall|m: int|
            j < m < plugins.len() ==> text::lowercase(#[trigger] plugins[m]) != text::lowercase(
                master,
            ),
    ensures
        depends_on(plugins, seq![master], i) == (if j >= 0 && text::ascii_fold(plugins[j])
            != text::ascii_fold(plugins[i]) {
            seq![j as usize]
        } else {
            Seq::empty()
        }),
{
    let one = seq![master];
    assert(one.drop_last() =~= Seq::<Seq<char>>::empty());
    assert(depends_on(plugins, one.drop_last(), i) =~= Seq::<usize>::empty());
    let l = lowered(plugins);
    assert forall|m: int| j < m < l.len() implies #[trigger] l[m] != text::lowercase(master) by {
        assert(text::lowercase(plugins[m]) != text::lowercase(master));
    }
    lemma_last_place(l, text::lowercase(master), j);
    assert(Seq::<usize>::empty().push(j as usize) =~= seq![j as usize]);
}

/// Every master that the header of a plugin names is an edge: the graph has one
/// to the last plugin of the list of that name, unless that is the plugin
/// itself.
pub proof fn lemma_every_master_is_an_edge(
    plugins: Seq<Seq<char>>,
    files: Map<Seq<char>, Vec<u8>>,
    i: usize,
    k: int,
    j: usize,
)
    requires
        plugins.len() <= usize::MAX,
        i < plugins.len(),
        j < plugins.len(),
        files.contains_key(text::lowercase(plugins[i as int])),
        0 <= k < masters_in(files[text::lowercase(plugins[i as int])]@).len(),
        text::lowercase(plugins[j as int]) == text::lowercase(
            masters_in(files[text::lowercase(plugins[i as int])]@)[k],
        ),
        forall|m: int|
            j < m < plugins.len() ==> text::lowercase(#[trigger] plugins[m]) != text::lowercase(
                plugins[j as int],
            ),
        text::ascii_fold(plugins[j as int]) != text::ascii_fold(plugins[i as int]),
    ensures
        graph::edge(master_graph(plugins, files), i, j),
{
    let masters = masters_in(files[text::lowercase(plugins[i as int])]@);
    let a = masters.take(k);
    let b = masters.skip(k + 1);
    let one = seq![masters[k]];
    assert(masters =~= a + one + b);
    lemma_masters_count_one_by_one(plugins, a + one, b, i as int);
    lemma_masters_count_one_by_one(plugins, a, one, i as int);
    lemma_what_a_master_stands_for(plugins, masters[k], i as int, j as int);
    let before = depends_on(plugins, a, i as int);
    let all = master_graph(plugins, files)[i as int];
    assert(all[before.len() as int] == j);
}

/// Every edge comes from a master that the header of the plugin names.
pub proof fn lemma_every_edge_is_a_master(
    plugins: Seq<Seq<char>>,
    files: Map<Seq<char>, Vec<u8>>,
    i: usize,
    j: usize,
) -> (k: int)
    requires
        plugins.len() <= usize::MAX,
        graph::edge(master_graph(plugins, files), i, j),
    ensures
        files.contains_key(text::lowercase(plugins[i as int])),
        0 <= k < masters_in(files[text::lowercase(plugins[i as int])]@).len(),
        text::lowercase(plugins[j as int]) == text::lowercase(
            masters_in(files[text::lowercase(plugins[i as int])]@)[k],
        ),
        text::ascii_fold(plugins[j as int]) != text::ascii_fold(plugins[i as int]),
{
    lemma_edge_source(plugins, known_masters(files, plugins[i as int]), i as int, j)
}

proof fn lemma_edge_source(
    plugins: Seq<Seq<char>>,
    masters: Seq<Seq<char>>,
    i: int,
    j: usize,
) -> (k: int)
    requires
        plugins.len() <= usize::MAX,
        depends_on(plugins, masters, i).contains(j),
    ensures
        0 <= k < masters.len(),
        text::lowercase(plugins[j as int]) == text::lowercase(masters[k]),
        text::ascii_fold(plugins[j as int]) != text::ascii_fold(plugins[i]),
    decreases masters.len(),
{
    let all = depends_on(plugins, masters, i);
    assert(masters.len() > 0);
    let before = depends_on(plugins, masters.drop_last(), i);
    if before.contains(j) {
        lemma_edge_source(plugins, masters.drop_last(), i, j)
    } else {
        let l = lowered(plugins);
        let x = text::lowercase(masters.last());
        let at = choose|at: int| 0 <= at < all.len() && all[at] == j;
        if at < before.len() {
            assert(before[at] == j);
        }
        lemma_last_place_below(l, x);
        lemma_last_place_holds(l, x);
        assert(l[j as int] == text::lowercase(plugins[j as int]));
        masters.len() - 1
    }
}

proof fn lemma_last_place_holds(list: Seq<Seq<char>>, x: Seq<char>)
    ensures
        last_place(list, x) >= 0 ==> list[last_place(list, x)] == x,
        last_place(list, x) < 0 ==> forall|j: int| 0 <= j < list.len() ==> #[trigger] list[j] != x,
        forall|j: int| last_place(list, x) < j < list.len() ==> #[trigger] list[j] != x,
    decreases list.len(),
{
    if list.len() > 0 && list.last() != x {
        let t = list.drop_last();
        lemma_last_place_holds(t, x);
        lemma_last_place_below(t, x);
        assert forall|j: int| last_place(list, x) < j < list.len() implies #[trigger] list[j] != x by {
            if j < t.len() {
                assert(t[j] == list[j]);
            }
        }
    }
}

/// In a sorted list every plugin comes behind all plugins of the list that its
/// header names as masters.
pub proof fn lemma_sorted_masters_lead(
    plugins: Seq<Seq<char>>,
    files: Map<Seq<char>, Vec<u8>>,
    order: Seq<usize>,
)
    requires
        plugins.len() <= usize::MAX,
        graph::is_load_order(master_graph(plugins, files), order),
    ensures
        masters_lead(named(plugins, order), files),
{
    let g = master_graph(plugins, files);
    let list = named(plugins, order);
    graph::lemma_load_order(g, order);
    assert forall|p: int, x: int|
        0 <= p < list.len() && 0 <= x < list.len() && #[trigger] needs(
            list,
            files,
            p,
            x,
        ) implies stands_before(list, list[x], p) by {
        let masters = masters_in(files[text::lowercase(list[p])]@);
        let k = choose|k: int|
            0 <= k < masters.len() && text::lowercase(#[trigger] masters[k]) == text::lowercase(
                list[x],
            );
        let l = lowered(plugins);
        let j = last_place(l, text::lowercase(list[x]));
        lemma_last_place_below(l, text::lowercase(list[x]));
        lemma_last_place_holds(l, text::lowercase(list[x]));
        assert(order[x] < plugins.len() && order[p] < plugins.len());
        assert(l[order[x] as int] == text::lowercase(list[x]));
        assert(j >= 0);
        let at = j as usize;
        graph::lemma_load_order_covers(g, order, at);
        let y = choose|y: int| 0 <= y < order.len() && order[y] == at;
        assert(list[y] == plugins[j]);
        assert(l[j] == text::lowercase(plugins[j]));
        assert forall|m: int| j < m < plugins.len() implies text::lowercase(#[trigger] plugins[m])
            != text::lowercase(plugins[j]) by {
            assert(l[m] != text::lowercase(list[x]));
        }
        lemma_every_master_is_an_edge(plugins, files, order[p], k, at);
        assert(order.take(p).contains(at));
        let q = choose|q: int| 0 <= q < p && order.take(p)[q] == at;
        assert(list[q] == plugins[j]);
    }
}

/// Each plugin is checked on its own: the problems of two lists, against the same
/// enabled plugins, are those of the first and then those of the second.
pub proof fn lemma_problems_of_each_plugin(
    a: Seq<Seq<char>>,
    b: Seq<Seq<char>>,
    enabled: Seq<Seq<char>>,
    files: Map<Seq<char>, Vec<u8>>,
)
    ensures
        problems_of(a + b, enabled, files) == problems_of(a, enabled, files) + problems_of(
            b,
            enabled,
            files,
        ),
    decreases b.len(),
{
    if b.len() == 0 {
        assert(a + b =~= a);
        assert(problems_of(a, enabled, files) + problems_of(b, enabled, files) =~= problems_of(
            a,
            enabled,
            files,
        ));
    } else {
        lemma_problems_of_each_plugin(a, b.drop_last(), enabled, files);
        assert((a + b).drop_last() =~= a + b.drop_last());
        assert(problems_of(a + b, enabled, files) =~= problems_of(a, enabled, files) + problems_of(
            b,
            enabled,
            files,
        ));
    }
}

/// A plugin has a problem exactly where its header names a master that is not
/// enabled, and the problem lists all of these and no others, in the order of
/// the header.
pub proof fn lemma_problem_of_a_plugin(
    plugin: Seq<char>,
    enabled: Seq<Seq<char>>,
    files: Map<Seq<char>, Vec<u8>>,
)
    ensures
        ({
            let masters = if files.contains_key(text::lowercase(plugin)) {
                masters_in(files[text::lowercase(plugin)]@)
            } else {
                Seq::empty()
            };
            let missing = masters.filter(
                |m: Seq<char>|
                    forall|e: int|
                        0 <= e < enabled.len() ==> text::lowercase(#[trigger] enabled[e])
                            != text::lowercase(m),
            );
            problems_of(seq![plugin], enabled, files) == (if missing.len() > 0 {
                seq![MissingMastersView { plugin, missing }]
            } else {
                Seq::empty()
            })
        }),
{
    let masters = known_masters(files, plugin);
    let p = |m: Seq<char>| !lowered(enabled).contains(text::lowercase(m));
    let q = |m: Seq<char>|
        forall|e: int|
            0 <= e < enabled.len() ==> text::lowercase(#[trigger] enabled[e]) != text::lowercase(m);
    assert forall|m: Seq<char>| #[trigger] p(m) == q(m) by {
        let l = lowered(enabled);
        if l.contains(text::lowercase(m)) {
            let e = choose|e: int| 0 <= e < l.len() && l[e] == text::lowercase(m);
            assert(text::lowercase(enabled[e]) == text::lowercase(m));
        }
        if !q(m) {
            let e = choose|e: int|
                0 <= e < enabled.len() && text::lowercase(#[trigger] enabled[e])
                    == text::lowercase(m);
            assert(l[e] == text::lowercase(m));
        }
    }
    assert(p =~= q);
    let one = seq![plugin];
    assert(one.drop_last() =~= Seq::<Seq<char>>::empty());
    assert(problems_of(one.drop_last(), enabled, files) =~= Seq::<MissingMastersView>::empty());
    assert(one.last() == plugin);
    assert(problems_of(one, enabled, files) =~= (if masters.filter(q).len() > 0 {
        seq![MissingMastersView { plugin, missing: masters.filter(q) }]
    } else {
        Seq::empty()
    }));
}

/// No loop among masters is passed over: where names that are the same in lower
/// case differ in the case of ASCII letters only, every loop takes a step that
/// closes one of the reported cycles.
pub proof fn lemma_every_loop_is_reported(
    plugins: Seq<Seq<char>>,
    files: Map<Seq<char>, Vec<u8>>,
    w: Seq<usize>,
)
    requires
        plugins.len() <= usize::MAX,
        vary_in_ascii(plugins),
        graph::is_loop(master_graph(plugins, files), w),
    ensures
        exists|c: int, j: int|
            0 <= c < cycles_of(plugins, files).len() && 0 <= j < w.len() - 1 && {
                let met = #[trigger] cycles_of(plugins, files)[c];
                &&& met.len() >= 2
                &&& text::lowercase(met[met.len() - 2]) == text::lowercase(
                    plugins[#[trigger] w[j] as int],
                )
                &&& text::lowercase(met.last()) == text::lowercase(plugins[w[j + 1] as int])
            },
{
    let g = master_graph(plugins, files);
    let one = classes_by(lowered(plugins));
    lemma_classes_agree(plugins);
    lemma_master_graph_closed(plugins, files);
    lemma_classes(lowered(plugins));
    lemma_same_names_point_alike(plugins, files);
    graph::lemma_every_loop_is_met(g, one, w);
    let met = graph::loops_met(g, one, one);
    let (c, j) = choose|c: int, j: int|
        0 <= c < met.len() && 0 <= j < w.len() - 1 && {
            let m = #[trigger] met[c];
            &&& m.len() >= 2
            &&& one[m[m.len() - 2] as int] == one[#[trigger] w[j] as int]
            &&& one[m.last() as int] == one[w[j + 1] as int]
        };
    let m = met[c];
    graph::lemma_loops_met_are_rounds(g, one, one);
    assert(graph::is_round(g, one, m));
    assert(graph::edge_at(g, m, m.len() - 2));
    assert(graph::edge_at(g, w, j));
    let l = lowered(plugins);
    assert(l[m[m.len() - 2] as int] == l[w[j] as int]);
    assert(l[m.last() as int] == l[w[j + 1] as int]);
    let found = cycles_of(plugins, files)[c];
    assert(found =~= named(plugins, m));
    assert(found[found.len() - 2] == plugins[m[m.len() - 2] as int]);
    assert(found.last() == plugins[m.last() as int]);
}

} // verus!
