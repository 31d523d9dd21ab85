//! What the doctor makes of the things that it tries out: installs and deploys
//! in scratch folders, and the tools that it runs on the sources.

use crate::check;
use crate::check::{CheckItem, CheckItemView, Report};
use crate::game;
use crate::lists;
use crate::sorting;
use crate::tes4;
use crate::text;
use crate::validate;
use crate::validate::NameTable;
use crate::vfs::{Contribution, ContributionView};
use std::hash::{Hash, Hasher};
use vstd::prelude::*;

verus! {

fn push_item(items: &mut Vec<CheckItem>, it: CheckItem)
    ensures
        final(items).deep_view() == old(items).deep_view().push(it.deep_view()),
{
    let ghost before = items.deep_view();
    let ghost iv = it.deep_view();
    items.push(it);
    assert(items.deep_view() =~= before.push(iv));
}

/// The word for a truth value.
pub open spec fn bool_text(b: bool) -> Seq<char> {
    if b {
        "true"@
    } else {
        "false"@
    }
}

fn bool_word(b: bool) -> (r: &'static str)
    ensures
        r@ == bool_text(b),
{
    if b {
        "true"
    } else {
        "false"
    }
}

/// The name of how a text is written between quotes.
pub uninterp spec fn quoted_text(s: Seq<char>) -> Seq<char>;

/// Wraps the `Debug` format of `str`, which depends on the text alone: the text
/// between double quotes, with what cannot stand there escaped.
#[verifier::external_body]
fn quoted(s: &str) -> (r: String)
    ensures
        r@ == quoted_text(s@),
{
    format!("{s:?}")
}

/// A list of texts between quotes, as far as commas and brackets go.
pub open spec fn list_text(list: Seq<Seq<char>>) -> Seq<char> {
    "["@ + text::joined(list.map_values(|s: Seq<char>| quoted_text(s)), ", "@) + "]"@
}

fn list_words(list: &Vec<String>) -> (r: String)
    ensures
        r@ == list_text(list.deep_view()),
{
    let ghost lv = list.deep_view();
    let ghost goal = lv.map_values(|s: Seq<char>| quoted_text(s));
    let mut parts: Vec<String> = Vec::new();
    let mut i: usize = 0;
    while i < list.len()
        invariant
            i <= list@.len(),
            lv == list.deep_view(),
            goal == lv.map_values(|s: Seq<char>| quoted_text(s)),
            parts.deep_view() == goal.take(i as int),
        decreases list.len() - i,
    {
        let ghost before = parts.deep_view();
        let q = quoted(list[i].as_str());
        let ghost qv = q@;
        parts.push(q);
        assert(parts.deep_view() =~= before.push(qv));
        i += 1;
        assert(qv == goal[i - 1]);
        assert(parts.deep_view() =~= goal.take(i as int));
    }
    assert(parts.deep_view() =~= goal);
    text::concat3("[", text::join(&parts, ", ").as_str(), "]")
}

/// A text that may be missing.
pub open spec fn option_text(s: Option<Seq<char>>) -> Seq<char> {
    match s {
        Some(t) => "Some("@ + quoted_text(t) + ")"@,
        None => "None"@,
    }
}

fn option_words(s: &Option<String>) -> (r: String)
    ensures
        r@ == option_text(s.deep_view()),
{
    match s {
        Some(t) => text::concat3("Some(", quoted(t.as_str()).as_str(), ")"),
        None => "None".to_owned(),
    }
}

// ---------------------------------------------------------------------------
// Mistakes that were made once
// ---------------------------------------------------------------------------

/// The category of the checks against mistakes that were made once.
pub open spec fn regression() -> Seq<char> {
    "Regression corpus"@
}

/// Two detections of one install give the same id.
pub open spec fn id_item(first: Seq<char>, second: Seq<char>) -> CheckItemView {
    let ok = first == second && first.len() > 0;
    check::item_of(
        regression(),
        "Deterministic game IDs across re-detect"@,
        ok,
        if ok {
            "id stable at "@ + first
        } else {
            "ids diverged: "@ + first + " vs "@ + second
        },
    )
}

/// How many rows of a conflict table are contested.
pub open spec fn contested_rows(table: Seq<(Seq<char>, Seq<ContributionView>)>) -> nat
    decreases table.len(),
{
    if table.len() == 0 {
        0
    } else {
        contested_rows(table.drop_last()) + (if table.last().1.len() > 1 {
            1nat
        } else {
            0nat
        })
    }
}

/// The mod that wins the first row of a conflict table.
pub open spec fn first_winner(table: Seq<(Seq<char>, Seq<ContributionView>)>) -> Seq<char> {
    if table.len() > 0 && table[0].1.len() > 0 {
        table[0].1.last().mod_id
    } else {
        "?"@
    }
}

/// Two mods that write one path in different case conflict, and the later one
/// wins.
pub open spec fn conflict_item(
    table: Seq<(Seq<char>, Seq<ContributionView>)>,
    later: Seq<char>,
) -> CheckItemView {
    let ok = contested_rows(table) == 1 && table.len() == 1;
    let winner = first_winner(table);
    check::item_of(
        regression(),
        "Case-insensitive file conflict (armor.nif vs Armor.nif)"@,
        ok && winner == later,
        if ok {
            "one conflict key, winner = higher-priority mod ("@ + winner + ")"@
        } else {
            "expected 1 conflict path with B winning; got "@ + text::decimal(table.len())
                + " keys, winner="@ + winner
        },
    )
}

/// The masters of the header that is tried out.
pub open spec fn tried_masters() -> Seq<Seq<char>> {
    seq!["Skyrim.esm"@, "Update.esm"@]
}

/// A header's masters are read.
pub open spec fn header_item(read: Seq<Seq<char>>) -> CheckItemView {
    check::item_of(
        regression(),
        "TES4/MAST header parsing"@,
        read == tried_masters(),
        "masters = "@ + list_text(read),
    )
}

/// What is no header has no masters.
pub open spec fn junk_item(empty: Seq<Seq<char>>, junk: Seq<Seq<char>>) -> CheckItemView {
    check::item_of(
        regression(),
        "TES4 parser tolerates corrupt/truncated input"@,
        empty.len() == 0 && junk.len() == 0,
        "empty and non-TES4 inputs return empty master lists (no panic)"@,
    )
}

/// Plugins that are not on disk are not reported.
pub open spec fn stale_item(reported: nat) -> CheckItemView {
    check::item_of(
        regression(),
        "Missing-master check skips plugins not on disk"@,
        reported == 0,
        "stale plugin_order entries are not reported as missing masters"@,
    )
}

/// A wrapper folder is removed on install.
pub open spec fn wrapper_item(unwrapped: bool) -> CheckItemView {
    check::item_of(
        regression(),
        "Wrapper folder unwrap on install"@,
        unwrapped,
        if unwrapped {
            "meshes/ landed at content root"@
        } else {
            "wrapper was not unwrapped"@
        },
    )
}

/// Eighteen bytes that are no header.
pub open spec fn junk_bytes() -> Seq<u8> {
    seq![
        'N' as u8,
        'O' as u8,
        'T' as u8,
        'A' as u8,
        'T' as u8,
        'E' as u8,
        'S' as u8,
        '4' as u8,
        'H' as u8,
        'E' as u8,
        'A' as u8,
        'D' as u8,
        'E' as u8,
        'R' as u8,
        '!' as u8,
        '!' as u8,
        '!' as u8,
        '!' as u8,
    ]
}

fn contested_count(table: &Vec<(String, Vec<Contribution>)>) -> (r: usize)
    ensures
        r == contested_rows(table.deep_view()),
{
    let ghost tv = table.deep_view();
    let mut n: usize = 0;
    let mut i: usize = 0;
    assert(tv.take(0) =~= Seq::<(Seq<char>, Seq<ContributionView>)>::empty());
    while i < table.len()
        invariant
            i <= table@.len(),
            n <= i,
            tv == table.deep_view(),
            n == contested_rows(tv.take(i as int)),
        decreases table.len() - i,
    {
        assert(tv.take(i + 1).drop_last() =~= tv.take(i as int));
        assert(tv.take(i + 1).last() == table@[i as int].deep_view());
        if table[i].1.len() > 1 {
            n += 1;
        }
        i += 1;
    }
    assert(tv.take(i as int) =~= tv);
    n
}

fn winner_of_first(table: &Vec<(String, Vec<Contribution>)>) -> (r: String)
    ensures
        r@ == first_winner(table.deep_view()),
{
    if table.len() > 0 {
        let list = &table[0].1;
        let n: usize = list.len();
        assert(table.deep_view()[0].1 == list.deep_view());
        if n > 0 {
            return list[n - 1].mod_id.clone();
        }
    }
    "?".to_owned()
}

/// What is known of the masters of the header that is tried out, of no bytes
/// and of bytes that are no header.
fn header_items() -> (r: Vec<CheckItem>)
    ensures
        r.deep_view() == seq![
            header_item(validate::masters_in(tes4::tes4(tried_masters()))),
            junk_item(
                validate::masters_in(Seq::empty()),
                validate::masters_in(junk_bytes()),
            ),
        ],
{
    let names: [&str; 2] = ["Skyrim.esm", "Update.esm"];
    let header = tes4::fake_tes4_with_masters(names.as_slice());
    assert(names@.map_values(|m: &str| m@) =~= tried_masters());
    let masters = validate::read_masters_from_bytes(header.as_slice());
    let ghost mv = masters.deep_view();
    let ok = masters.len() == 2 && text::same_text(masters[0].as_str(), "Skyrim.esm")
        && text::same_text(masters[1].as_str(), "Update.esm");
    assert(ok == (mv == tried_masters())) by {
        assert(mv.len() == masters@.len());
        if ok {
            assert(mv[0] == masters@[0]@);
            assert(mv[1] == masters@[1]@);
            assert(mv =~= tried_masters());
        }
        if mv == tried_masters() {
            assert(mv[0] == masters@[0]@);
            assert(mv[1] == masters@[1]@);
            assert(tried_masters()[0] == "Skyrim.esm"@);
            assert(tried_masters()[1] == "Update.esm"@);
        }
    }
    let mut items: Vec<CheckItem> = Vec::new();
    assert(items.deep_view() =~= Seq::<CheckItemView>::empty());
    push_item(
        &mut items,
        check::item(
            "Regression corpus",
            "TES4/MAST header parsing",
            ok,
            text::concat("masters = ", list_words(&masters).as_str()).as_str(),
        ),
    );
    let nothing: Vec<u8> = Vec::new();
    let empty = validate::read_masters_from_bytes(nothing.as_slice());
    let bytes: Vec<u8> = vec![
        'N' as u8,
        'O' as u8,
        'T' as u8,
        'A' as u8,
        'T' as u8,
        'E' as u8,
        'S' as u8,
        '4' as u8,
        'H' as u8,
        'E' as u8,
        'A' as u8,
        'D' as u8,
        'E' as u8,
        'R' as u8,
        '!' as u8,
        '!' as u8,
        '!' as u8,
        '!' as u8,
    ];
    assert(nothing@ =~= Seq::<u8>::empty());
    assert(bytes@ =~= junk_bytes());
    let junk = validate::read_masters_from_bytes(bytes.as_slice());
    assert(empty.deep_view().len() == empty@.len());
    assert(junk.deep_view().len() == junk@.len());
    push_item(
        &mut items,
        check::item(
            "Regression corpus",
            "TES4 parser tolerates corrupt/truncated input",
            empty.len() == 0 && junk.len() == 0,
            "empty and non-TES4 inputs return empty master lists (no panic)",
        ),
    );
    assert(items.deep_view() =~= seq![
        header_item(validate::masters_in(tes4::tes4(tried_masters()))),
        junk_item(validate::masters_in(Seq::empty()), validate::masters_in(junk_bytes())),
    ]);
    items
}

/// The checks against mistakes that were made once: the ids that two
/// detections of one install gave, the conflict table of two mods that write
/// one path in different case (`later` has the higher priority), and whether a
/// wrapper folder was removed.
pub fn check_regression_fixtures(
    first_id: &str,
    second_id: &str,
    table: &Vec<(String, Vec<Contribution>)>,
    later: &str,
    unwrapped: bool,
) -> (r: Vec<CheckItem>)
    ensures
        r.deep_view() == seq![
            id_item(first_id@, second_id@),
            conflict_item(table.deep_view(), later@),
            header_item(validate::masters_in(tes4::tes4(tried_masters()))),
            junk_item(
                validate::masters_in(Seq::empty()),
                validate::masters_in(junk_bytes()),
            ),
            stale_item(0),
            wrapper_item(unwrapped),
        ],
{
    let mut items: Vec<CheckItem> = Vec::new();
    assert(items.deep_view() =~= Seq::<CheckItemView>::empty());
    let stable = text::same_text(first_id, second_id) && !first_id.is_empty();
    let detail = if stable {
        text::concat("id stable at ", first_id)
    } else {
        let mut d = text::concat3("ids diverged: ", first_id, " vs ");
        d.append(second_id);
        d
    };
    push_item(
        &mut items,
        check::item(
            "Regression corpus",
            "Deterministic game IDs across re-detect",
            stable,
            detail.as_str(),
        ),
    );
    let contested: usize = contested_count(table);
    assert(table.deep_view().len() == table@.len());
    let ok = contested == 1 && table.len() == 1;
    let winner = winner_of_first(table);
    let detail = if ok {
        text::concat3(
            "one conflict key, winner = higher-priority mod (",
            winner.as_str(),
            ")",
        )
    } else {
        let mut d = text::concat3(
            "expected 1 conflict path with B winning; got ",
            text::number_text(table.len() as u64).as_str(),
            " keys, winner=",
        );
        d.append(winner.as_str());
        d
    };
    push_item(
        &mut items,
        check::item(
            "Regression corpus",
            "Case-insensitive file conflict (armor.nif vs Armor.nif)",
            ok && text::same_text(winner.as_str(), later),
            detail.as_str(),
        ),
    );
    let ghost two = items.deep_view();
    let mut headers = header_items();
    let ghost hv = headers.deep_view();
    items.append(&mut headers);
    assert(items.deep_view() =~= two + hv);
    let plugins: Vec<String> = vec!["MyMod.esp".to_owned(), "Skyrim.esm".to_owned()];
    let on_disk: NameTable<Vec<u8>> = NameTable::new();
    let missing = validate::check_missing_masters(&plugins, &on_disk);
    proof {
        let pv = plugins.deep_view();
        if missing.deep_view().len() > 0 {
            validate::lemma_reported_plugins_are_known(pv, pv, on_disk@, 0);
        }
    }
    assert(missing.deep_view().len() == missing@.len());
    push_item(
        &mut items,
        check::item(
            "Regression corpus",
            "Missing-master check skips plugins not on disk",
            missing.len() == 0,
            "stale plugin_order entries are not reported as missing masters",
        ),
    );
    push_item(
        &mut items,
        check::item(
            "Regression corpus",
            "Wrapper folder unwrap on install",
            unwrapped,
            if unwrapped {
                "meshes/ landed at content root"
            } else {
                "wrapper was not unwrapped"
            },
        ),
    );
    assert(items.deep_view() =~= seq![
        id_item(first_id@, second_id@),
        conflict_item(table.deep_view(), later@),
        header_item(validate::masters_in(tes4::tes4(tried_masters()))),
        junk_item(validate::masters_in(Seq::empty()), validate::masters_in(junk_bytes())),
        stale_item(0),
        wrapper_item(unwrapped),
    ]);
    items
}

// ---------------------------------------------------------------------------
// Broken inputs
// ---------------------------------------------------------------------------

/// What came of an install.
#[derive(Debug, Clone)]
pub enum Attempt {
    Installed { id: String },
    Failed { error: String },
}

/// What came of an install of a file with an odd name.
#[derive(Debug, Clone, Copy, PartialEq, Eq, Structural)]
pub enum NameTrial {
    /// The file system takes no such name.
    Rejected,
    /// The install ended, well or not.
    Returned,
    Panicked,
}

/// What came of installs of broken things.
#[derive(Debug, Clone)]
pub struct BrokenInputs {
    /// An archive that is cut off.
    pub truncated: Attempt,
    /// An archive of no bytes.
    pub empty: Attempt,
    /// A plugin whose header is cut off.
    pub broken_plugin: Attempt,
    /// An empty folder.
    pub empty_folder: Attempt,
    /// A file with a very long name.
    pub long_name: NameTrial,
    /// A file with a name beyond ASCII.
    pub odd_name: NameTrial,
    /// A file that is not there.
    pub missing: Attempt,
}

/// The category of the checks with broken inputs.
pub open spec fn fuzz() -> Seq<char> {
    "Fuzz: install/deploy pipeline"@
}

/// An install that ought to fail.
pub open spec fn must_fail(name: Seq<char>, a: Attempt) -> CheckItemView {
    check::item_of(
        fuzz(),
        name,
        a is Failed,
        match a {
            Attempt::Failed { error } => "error: "@ + error@,
            Attempt::Installed { id } => "unexpectedly succeeded as "@ + id@,
        },
    )
}

/// The outcome of the checks with broken inputs.
pub open spec fn fuzz_items(b: BrokenInputs) -> Seq<CheckItemView> {
    seq![
        must_fail("Truncated zip errors cleanly (no panic)"@, b.truncated),
        must_fail("Zero-byte .zip errors cleanly"@, b.empty),
        check::item_of(
            fuzz(),
            "Corrupt TES4 loose file installs without panic"@,
            b.broken_plugin is Installed,
            match b.broken_plugin {
                Attempt::Installed { id } => "installed; master parse returned empty"@,
                Attempt::Failed { error } => "install failed: "@ + error@,
            },
        ),
        check::item_of(
            fuzz(),
            "Empty mod folder installs (no content, no panic)"@,
            b.empty_folder is Installed,
            match b.empty_folder {
                Attempt::Installed { id } => "id="@ + id@,
                Attempt::Failed { error } => "error: "@ + error@,
            },
        ),
        check::item_of(
            fuzz(),
            "Very long filename does not panic"@,
            !(b.long_name is Panicked),
            match b.long_name {
                NameTrial::Rejected => "filesystem rejected the name — skipped"@,
                NameTrial::Returned => "install returned Result (Ok or Err)"@,
                NameTrial::Panicked => "panicked"@,
            },
        ),
        check::item_of(
            fuzz(),
            "Unicode/emoji filename does not panic"@,
            !(b.odd_name is Panicked),
            match b.odd_name {
                NameTrial::Rejected => "filesystem rejected unicode name — skipped"@,
                NameTrial::Returned => "install returned Result"@,
                NameTrial::Panicked => "panicked"@,
            },
        ),
        check::item_of(
            fuzz(),
            "Missing source path errors cleanly"@,
            b.missing is Failed,
            match b.missing {
                Attempt::Failed { error } => error@,
                Attempt::Installed { id } => "unexpected success"@,
            },
        ),
    ]
}

fn failing(name: &str, a: &Attempt) -> (r: CheckItem)
    ensures
        r.deep_view() == must_fail(name@, *a),
{
    match a {
        Attempt::Failed { error } => check::item(
            "Fuzz: install/deploy pipeline",
            name,
            true,
            text::concat("error: ", error.as_str()).as_str(),
        ),
        Attempt::Installed { id } => check::item(
            "Fuzz: install/deploy pipeline",
            name,
            false,
            text::concat("unexpectedly succeeded as ", id.as_str()).as_str(),
        ),
    }
}

/// The outcome of the checks with broken inputs: nothing broken installs, and
/// nothing odd makes the program panic.
pub fn check_fuzz_install_deploy(b: &BrokenInputs) -> (r: Vec<CheckItem>)
    ensures
        r.deep_view() == fuzz_items(*b),
{
    let cat = "Fuzz: install/deploy pipeline";
    let mut items: Vec<CheckItem> = Vec::new();
    assert(items.deep_view() =~= Seq::<CheckItemView>::empty());
    push_item(&mut items, failing("Truncated zip errors cleanly (no panic)", &b.truncated));
    push_item(&mut items, failing("Zero-byte .zip errors cleanly", &b.empty));
    let name = "Corrupt TES4 loose file installs without panic";
    push_item(
        &mut items,
        match &b.broken_plugin {
            Attempt::Installed { id } => check::item(
                cat,
                name,
                true,
                "installed; master parse returned empty",
            ),
            Attempt::Failed { error } => check::item(
                cat,
                name,
                false,
                text::concat("install failed: ", error.as_str()).as_str(),
            ),
        },
    );
    let name = "Empty mod folder installs (no content, no panic)";
    push_item(
        &mut items,
        match &b.empty_folder {
            Attempt::Installed { id } => check::item(
                cat,
                name,
                true,
                text::concat("id=", id.as_str()).as_str(),
            ),
            Attempt::Failed { error } => check::item(
                cat,
                name,
                false,
                text::concat("error: ", error.as_str()).as_str(),
            ),
        },
    );
    let name = "Very long filename does not panic";
    push_item(
        &mut items,
        match b.long_name {
            NameTrial::Rejected => check::item(
                cat,
                name,
                true,
                "filesystem rejected the name — skipped",
            ),
            NameTrial::Returned => check::item(
                cat,
                name,
                true,
                "install returned Result (Ok or Err)",
            ),
            NameTrial::Panicked => check::item(cat, name, false, "panicked"),
        },
    );
    let name = "Unicode/emoji filename does not panic";
    push_item(
        &mut items,
        match b.odd_name {
            NameTrial::Rejected => check::item(
                cat,
                name,
                true,
                "filesystem rejected unicode name — skipped",
            ),
            NameTrial::Returned => check::item(cat, name, true, "install returned Result"),
            NameTrial::Panicked => check::item(cat, name, false, "panicked"),
        },
    );
    let name = "Missing source path errors cleanly";
    push_item(
        &mut items,
        match &b.missing {
            Attempt::Failed { error } => check::item(cat, name, true, error.as_str()),
            Attempt::Installed { id } => check::item(cat, name, false, "unexpected success"),
        },
    );
    assert(items.deep_view() =~= fuzz_items(*b));
    items
}

// ---------------------------------------------------------------------------
// Deploying and restoring
// ---------------------------------------------------------------------------

/// What came of a deploy: how many files it linked, or its error.
#[derive(Debug, Clone)]
pub enum DeployTrial {
    Linked { files: usize },
    Failed { error: String },
}

/// The outcome of a deploy and a restore: `before` and `after` are the
/// fingerprints of the game's folder, the second where there is a folder.
pub open spec fn roundtrip_items(
    deployed: DeployTrial,
    restore_error: Option<Seq<char>>,
    before: Seq<char>,
    after: Option<Seq<char>>,
) -> Seq<CheckItemView> {
    let cat = "Round-trip deploy/restore"@;
    seq![
        check::item_of(
            cat,
            "Deploy succeeds on synthetic install"@,
            deployed is Linked,
            match deployed {
                DeployTrial::Linked { files } => text::decimal(files as nat) + " files linked"@,
                DeployTrial::Failed { error } => error@,
            },
        ),
        check::item_of(
            cat,
            "Restore succeeds"@,
            restore_error is None,
            match restore_error {
                None => "ok"@,
                Some(e) => e,
            },
        ),
        check::item_of(
            cat,
            "Data folder byte-identical after restore (hash)"@,
            after == Some(before),
            if after == Some(before) {
                "hash="@ + before
            } else {
                "pre="@ + before + " post="@ + option_text(after)
            },
        ),
    ]
}

/// The outcome of a deploy and a restore in a scratch folder.
pub fn check_deploy_roundtrip(
    deployed: &DeployTrial,
    restore_error: &Option<String>,
    before: &str,
    after: &Option<String>,
) -> (r: Vec<CheckItem>)
    ensures
        r.deep_view() == roundtrip_items(
            *deployed,
            restore_error.deep_view(),
            before@,
            after.deep_view(),
        ),
{
    let cat = "Round-trip deploy/restore";
    let mut items: Vec<CheckItem> = Vec::new();
    assert(items.deep_view() =~= Seq::<CheckItemView>::empty());
    let name = "Deploy succeeds on synthetic install";
    push_item(
        &mut items,
        match deployed {
            DeployTrial::Linked { files } => check::item(
                cat,
                name,
                true,
                text::concat(text::number_text(*files as u64).as_str(), " files linked").as_str(),
            ),
            DeployTrial::Failed { error } => check::item(cat, name, false, error.as_str()),
        },
    );
    push_item(
        &mut items,
        match restore_error {
            None => check::item(cat, "Restore succeeds", true, "ok"),
            Some(e) => check::item(cat, "Restore succeeds", false, e.as_str()),
        },
    );
    let identical = match after {
        Some(a) => text::same_text(a.as_str(), before),
        None => false,
    };
    let detail = if identical {
        text::concat("hash=", before)
    } else {
        let mut d = text::concat3("pre=", before, " post=");
        d.append(option_words(after).as_str());
        d
    };
    push_item(
        &mut items,
        check::item(
            cat,
            "Data folder byte-identical after restore (hash)",
            identical,
            detail.as_str(),
        ),
    );
    assert(items.deep_view() =~= roundtrip_items(
        *deployed,
        restore_error.deep_view(),
        before@,
        after.deep_view(),
    ));
    items
}

/// What stands in the place of the game's folder after a restore.
pub open spec fn cleanup_items(
    is_link: bool,
    is_dir: bool,
    has_marker: bool,
    again_error: Option<Seq<char>>,
) -> Seq<CheckItemView> {
    let cat = "Symlink cleanup on failure"@;
    seq![
        check::item_of(
            cat,
            "After restore, Data is not a dangling symlink"@,
            !is_link && is_dir,
            "is_symlink="@ + bool_text(is_link) + " is_dir="@ + bool_text(is_dir),
        ),
        check::item_of(
            cat,
            "After restore, vanilla contents are present"@,
            has_marker,
            if has_marker {
                "marker file restored"@
            } else {
                "marker missing — vanilla Data incomplete"@
            },
        ),
        check::item_of(
            cat,
            "Double restore is safe"@,
            again_error is None,
            match again_error {
                None => "ok"@,
                Some(e) => e,
            },
        ),
    ]
}

/// The outcome of a restore in a scratch folder: what stands in the place of
/// the game's folder, whether its content is back, and what a second restore
/// gave.
pub fn check_symlink_cleanup_on_failure(
    is_link: bool,
    is_dir: bool,
    has_marker: bool,
    again_error: &Option<String>,
) -> (r: Vec<CheckItem>)
    ensures
        r.deep_view() == cleanup_items(is_link, is_dir, has_marker, again_error.deep_view()),
{
    let cat = "Symlink cleanup on failure";
    let mut items: Vec<CheckItem> = Vec::new();
    assert(items.deep_view() =~= Seq::<CheckItemView>::empty());
    let mut detail = text::concat3("is_symlink=", bool_word(is_link), " is_dir=");
    detail.append(bool_word(is_dir));
    push_item(
        &mut items,
        check::item(
            cat,
            "After restore, Data is not a dangling symlink",
            !is_link && is_dir,
            detail.as_str(),
        ),
    );
    push_item(
        &mut items,
        check::item(
            cat,
            "After restore, vanilla contents are present",
            has_marker,
            if has_marker {
                "marker file restored"
            } else {
                "marker missing — vanilla Data incomplete"
            },
        ),
    );
    push_item(
        &mut items,
        match again_error {
            None => check::item(cat, "Double restore is safe", true, "ok"),
            Some(e) => check::item(cat, "Double restore is safe", false, e.as_str()),
        },
    );
    assert(items.deep_view() =~= cleanup_items(
        is_link,
        is_dir,
        has_marker,
        again_error.deep_view(),
    ));
    items
}

// ---------------------------------------------------------------------------
// Tools
// ---------------------------------------------------------------------------

/// What came of running a tool.
#[derive(Debug, Clone)]
pub enum ToolRun {
    /// It ran, and told whether it succeeded.
    Ran { ok: bool, stdout: String, stderr: String },
    /// It could not be started.
    NotStarted { error: String },
}

/// All that a tool wrote.
pub open spec fn output_of(stdout: Seq<char>, stderr: Seq<char>) -> Seq<char> {
    stdout + "\n"@ + stderr
}

/// The last `n` lines of a text.
pub open spec fn tail_of(s: Seq<char>, n: nat) -> Seq<char> {
    let all = text::lines(s);
    text::joined(
        if all.len() > n {
            all.skip(all.len() - n)
        } else {
            all
        },
        "\n"@,
    )
}

/// The last `n` lines of a text.
pub fn tail_lines(s: &str, n: usize) -> (r: String)
    ensures
        r@ == tail_of(s@, n as nat),
{
    let lines = text::split_lines(s);
    let ghost lv = lines.deep_view();
    let from: usize = if lines.len() > n {
        lines.len() - n
    } else {
        0
    };
    let ghost goal = lv.skip(from as int);
    let mut kept: Vec<String> = Vec::new();
    let mut i: usize = from;
    assert(kept.deep_view() =~= goal.take(0));
    while i < lines.len()
        invariant
            from <= i <= lines@.len(),
            lv == lines.deep_view(),
            goal == lv.skip(from as int),
            kept.deep_view() == goal.take(i - from),
        decreases lines.len() - i,
    {
        let ghost before = kept.deep_view();
        kept.push(lines[i].clone());
        i += 1;
        assert(kept.deep_view() =~= before.push(lv[i - 1]));
        assert(kept.deep_view() =~= goal.take(i - from));
    }
    assert(kept.deep_view() =~= goal);
    assert(lv.len() == lines@.len());
    assert(from == 0 ==> goal =~= lv);
    text::join(&kept, "\n")
}

/// What marks the lines that sum up a run of tests.
pub open spec fn summary_marks() -> Seq<Seq<char>> {
    seq!["test result:"@, "FAILED"@, "ok."@]
}

/// The lines that sum up a run of tests: no more than eight.
pub open spec fn test_summary(output: Seq<char>) -> Seq<char> {
    text::joined(
        text::first_of(text::lines(output).filter(text::line_with(summary_marks())), 8),
        "\n"@,
    )
}

/// The outcome of the test suite.
pub open spec fn test_item(run: ToolRun) -> CheckItemView {
    match run {
        ToolRun::Ran { ok, stdout, stderr } => {
            let output = output_of(stdout@, stderr@);
            let summary = test_summary(output);
            check::item_of(
                "cargo test"@,
                "Full test suite (cargo test --no-default-features)"@,
                ok,
                if summary.len() == 0 {
                    if ok {
                        "all tests passed"@
                    } else {
                        tail_of(output, 30)
                    }
                } else if ok {
                    summary
                } else {
                    summary + "\n"@ + tail_of(output, 20)
                },
            )
        },
        ToolRun::NotStarted { error } => check::item_of(
            "cargo test"@,
            "Full test suite (cargo test)"@,
            false,
            "failed to invoke cargo: "@ + error@,
        ),
    }
}

/// The outcome of the test suite.
pub fn check_cargo_test(run: &ToolRun) -> (r: Vec<CheckItem>)
    ensures
        r.deep_view() == seq![test_item(*run)],
{
    let it = match run {
        ToolRun::Ran { ok, stdout, stderr } => {
            let output = text::concat3(stdout.as_str(), "\n", stderr.as_str());
            let marks: Vec<&str> = vec!["test result:", "FAILED", "ok."];
            assert(marks.deep_view() =~= summary_marks());
            let lines = text::first_texts(&text::lines_with_any(output.as_str(), &marks), 8);
            let summary = text::join(&lines, "\n");
            let detail = if summary.as_str().is_empty() {
                if *ok {
                    "all tests passed".to_owned()
                } else {
                    tail_lines(output.as_str(), 30)
                }
            } else if *ok {
                summary
            } else {
                text::concat3(
                    summary.as_str(),
                    "\n",
                    tail_lines(output.as_str(), 20).as_str(),
                )
            };
            check::item(
                "cargo test",
                "Full test suite (cargo test --no-default-features)",
                *ok,
                detail.as_str(),
            )
        },
        ToolRun::NotStarted { error } => check::item(
            "cargo test",
            "Full test suite (cargo test)",
            false,
            text::concat("failed to invoke cargo: ", error.as_str()).as_str(),
        ),
    };
    let r = vec![it];
    assert(r.deep_view() =~= seq![test_item(*run)]);
    r
}

/// What marks the lines of a linter's warnings.
pub open spec fn warning_marks() -> Seq<Seq<char>> {
    seq!["warning:"@, "error:"@]
}

/// Whether a linter's output says that there is no linter.
pub open spec fn lacks_clippy(output: Seq<char>) -> bool {
    text::holds(output, "no such command"@) || (text::holds(output, "`clippy`"@) && text::holds(
        output,
        "not installed"@,
    ))
}

/// The outcome of the linter.
pub open spec fn clippy_item(run: ToolRun) -> CheckItemView {
    let cat = "Clippy"@;
    let name = "Clippy lint pass"@;
    match run {
        ToolRun::Ran { ok, stdout, stderr } => {
            let output = output_of(stdout@, stderr@);
            let warnings = text::lines(output).filter(text::line_with(warning_marks()));
            if lacks_clippy(output) {
                check::item_of(
                    cat,
                    name,
                    true,
                    "clippy not installed — skipped (install via rustup component add clippy)"@,
                )
            } else {
                check::item_of(
                    cat,
                    name,
                    ok,
                    if warnings.len() == 0 {
                        if ok {
                            "no warnings"@
                        } else {
                            tail_of(output, 25)
                        }
                    } else {
                        text::decimal(warnings.len()) + " warning/error line(s):\n"@ + text::joined(
                            text::first_of(warnings, 25),
                            "\n"@,
                        )
                    },
                )
            }
        },
        ToolRun::NotStarted { error } => check::item_of(
            cat,
            name,
            true,
            "clippy unavailable ("@ + error@ + ") — skipped"@,
        ),
    }
}

/// The outcome of the linter. It passes where there is no linter.
pub fn check_clippy(run: &ToolRun) -> (r: Vec<CheckItem>)
    ensures
        r.deep_view() == seq![clippy_item(*run)],
{
    let cat = "Clippy";
    let name = "Clippy lint pass";
    let it = match run {
        ToolRun::Ran { ok, stdout, stderr } => {
            let output = text::concat3(stdout.as_str(), "\n", stderr.as_str());
            let marks: Vec<&str> = vec!["warning:", "error:"];
            assert(marks.deep_view() =~= warning_marks());
            let warnings = text::lines_with_any(output.as_str(), &marks);
            assert(warnings.deep_view().len() == warnings@.len());
            if text::has_substring(output.as_str(), "no such command") || (text::has_substring(
                output.as_str(),
                "`clippy`",
            ) && text::has_substring(output.as_str(), "not installed")) {
                check::item(
                    cat,
                    name,
                    true,
                    "clippy not installed — skipped (install via rustup component add clippy)",
                )
            } else {
                let detail = if warnings.len() == 0 {
                    if *ok {
                        "no warnings".to_owned()
                    } else {
                        tail_lines(output.as_str(), 25)
                    }
                } else {
                    text::concat3(
                        text::number_text(warnings.len() as u64).as_str(),
                        " warning/error line(s):\n",
                        text::join(&text::first_texts(&warnings, 25), "\n").as_str(),
                    )
                };
                check::item(cat, name, *ok, detail.as_str())
            }
        },
        ToolRun::NotStarted { error } => check::item(
            cat,
            name,
            true,
            text::concat3("clippy unavailable (", error.as_str(), ") — skipped").as_str(),
        ),
    };
    let r = vec![it];
    assert(r.deep_view() =~= seq![clippy_item(*run)]);
    r
}

/// The outcome of a build.
pub open spec fn build_item(label: Seq<char>, run: ToolRun) -> CheckItemView {
    let cat = "Feature compile matrix"@;
    match run {
        ToolRun::Ran { ok, stdout, stderr } => check::item_of(
            cat,
            label,
            ok,
            if ok {
                "compiles"@
            } else {
                tail_of(stderr@, 25)
            },
        ),
        ToolRun::NotStarted { error } => check::item_of(
            cat,
            label,
            false,
            "cargo failed: "@ + error@,
        ),
    }
}

fn built(label: &str, run: &ToolRun) -> (r: CheckItem)
    ensures
        r.deep_view() == build_item(label@, *run),
{
    let cat = "Feature compile matrix";
    match run {
        ToolRun::Ran { ok, stdout, stderr } => {
            let detail = if *ok {
                "compiles".to_owned()
            } else {
                tail_lines(stderr.as_str(), 25)
            };
            check::item(cat, label, *ok, detail.as_str())
        },
        ToolRun::NotStarted { error } => check::item(
            cat,
            label,
            false,
            text::concat("cargo failed: ", error.as_str()).as_str(),
        ),
    }
}

/// The outcome of the builds without and with the window.
pub fn check_feature_builds(cli: &ToolRun, gui: &ToolRun) -> (r: Vec<CheckItem>)
    ensures
        r.deep_view() == seq![
            build_item("CLI only (--no-default-features)"@, *cli),
            build_item("GUI build (--features gui)"@, *gui),
        ],
{
    let r = vec![
        built("CLI only (--no-default-features)", cli),
        built("GUI build (--features gui)", gui),
    ];
    assert(r.deep_view() =~= seq![
        build_item("CLI only (--no-default-features)"@, *cli),
        build_item("GUI build (--features gui)"@, *gui),
    ]);
    r
}

/// What says that there is no tool to look for known weaknesses.
pub open spec fn no_audit_marks() -> Seq<Seq<char>> {
    seq!["no such command"@, "is not installed"@, "could not find"@]
}

/// The outcome of the look at dependencies.
pub open spec fn audit_item(run: ToolRun) -> CheckItemView {
    let cat = "Dependency audit"@;
    match run {
        ToolRun::Ran { ok, stdout, stderr } => {
            let output = output_of(stdout@, stderr@);
            if text::holds_any(output, no_audit_marks()) {
                check::item_of(
                    cat,
                    "cargo audit"@,
                    true,
                    "cargo-audit not installed — skipped (install: cargo install cargo-audit)"@,
                )
            } else {
                check::item_of(
                    cat,
                    "cargo audit (known vulnerable crates)"@,
                    ok,
                    if ok {
                        "no known vulnerabilities"@
                    } else {
                        tail_of(output, 30)
                    },
                )
            }
        },
        ToolRun::NotStarted { error } => check::item_of(
            cat,
            "cargo audit"@,
            true,
            "cargo-audit not installed — skipped"@,
        ),
    }
}

/// The outcome of the look at dependencies. It passes where there is no tool
/// for it.
pub fn check_cargo_audit(run: &ToolRun) -> (r: Vec<CheckItem>)
    ensures
        r.deep_view() == seq![audit_item(*run)],
{
    let cat = "Dependency audit";
    let it = match run {
        ToolRun::Ran { ok, stdout, stderr } => {
            let output = text::concat3(stdout.as_str(), "\n", stderr.as_str());
            let marks: Vec<&str> = vec!["no such command", "is not installed", "could not find"];
            assert(marks.deep_view() =~= no_audit_marks());
            if text::has_any(output.as_str(), &marks) {
                check::item(
                    cat,
                    "cargo audit",
                    true,
                    "cargo-audit not installed — skipped (install: cargo install cargo-audit)",
                )
            } else {
                let detail = if *ok {
                    "no known vulnerabilities".to_owned()
                } else {
                    tail_lines(output.as_str(), 30)
                };
                check::item(
                    cat,
                    "cargo audit (known vulnerable crates)",
                    *ok,
                    detail.as_str(),
                )
            }
        },
        ToolRun::NotStarted { error } => check::item(
            cat,
            "cargo audit",
            true,
            "cargo-audit not installed — skipped",
        ),
    };
    let r = vec![it];
    assert(r.deep_view() =~= seq![audit_item(*run)]);
    r
}

// ---------------------------------------------------------------------------
// Putting the report together
// ---------------------------------------------------------------------------

/// The place of the first folder, from place `i` on, with this project's
/// manifest, or the number of folders.
pub open spec fn root_at(dirs: Seq<(Seq<char>, Option<Seq<char>>)>, i: int) -> int
    decreases dirs.len() - i,
{
    if i >= dirs.len() || (dirs[i].1 is Some && text::holds(
        dirs[i].1->0,
        "name = \"skyrim_modmgr\""@,
    )) {
        i
    } else {
        root_at(dirs, i + 1)
    }
}

/// The folder of the sources: the one that is known, where it has a manifest,
/// or the first of `dirs` with this project's manifest. `dirs` are the current
/// folder and those that hold it, each with the text of its manifest.
pub fn find_crate_root(known: &str, known_has_manifest: bool, dirs: &Vec<(String, Option<String>)>) -> (r:
    Option<String>)
    ensures
        r.deep_view() == (if known_has_manifest {
            Some(known@)
        } else if root_at(dirs.deep_view(), 0) < dirs.deep_view().len() {
            Some(dirs.deep_view()[root_at(dirs.deep_view(), 0)].0)
        } else {
            None
        }),
{
    if known_has_manifest {
        return Some(known.to_owned());
    }
    let ghost dv = dirs.deep_view();
    let mut i: usize = 0;
    while i < dirs.len()
        invariant
            i <= dirs@.len(),
            dv == dirs.deep_view(),
            !known_has_manifest,
            root_at(dv, 0) == root_at(dv, i as int),
        decreases dirs.len() - i,
    {
        assert(dv[i as int] == dirs@[i as int].deep_view());
        if let Some(manifest) = &dirs[i].1 {
            if text::has_substring(manifest.as_str(), "name = \"skyrim_modmgr\"") {
                return Some(dirs[i].0.clone());
            }
        }
        i += 1;
    }
    None
}

/// All checks of all groups, in order.
pub open spec fn all_items(groups: Seq<Seq<CheckItemView>>) -> Seq<CheckItemView>
    decreases groups.len(),
{
    if groups.len() == 0 {
        Seq::empty()
    } else {
        all_items(groups.drop_last()) + groups.last()
    }
}

/// What is said where there are no sources.
pub open spec fn no_sources() -> CheckItemView {
    check::item_of(
        "Source tree"@,
        "Locate crate root"@,
        false,
        "Could not find Cargo.toml for skyrim_modmgr — static/compile checks skipped. Run `doctor` from the project directory."@,
    )
}

/// Puts the report together: the checks that are always made, and those on the
/// sources, where there are sources.
pub fn run_all(
    always: Vec<Vec<CheckItem>>,
    on_sources: Option<Vec<Vec<CheckItem>>>,
    duration_ms: u128,
) -> (r: Report)
    ensures
        r.duration_ms == duration_ms,
        r.items.deep_view() == all_items(always.deep_view()) + (match on_sources.deep_view() {
            Some(groups) => all_items(groups),
            None => seq![no_sources()],
        }),
{
    let ghost first = all_items(always.deep_view());
    let mut items = join_groups(always);
    match on_sources {
        Some(groups) => {
            let ghost gv = groups.deep_view();
            let mut more = join_groups(groups);
            let ghost mv = more.deep_view();
            let ghost before = items.deep_view();
            items.append(&mut more);
            assert(items.deep_view() =~= before + mv);
        },
        None => {
            push_item(
                &mut items,
                check::item(
                    "Source tree",
                    "Locate crate root",
                    false,
                    "Could not find Cargo.toml for skyrim_modmgr — static/compile checks skipped. Run `doctor` from the project directory.",
                ),
            );
            assert(items.deep_view() =~= first + seq![no_sources()]);
        },
    }
    Report { items, duration_ms }
}

fn join_groups(groups: Vec<Vec<CheckItem>>) -> (r: Vec<CheckItem>)
    ensures
        r.deep_view() == all_items(groups.deep_view()),
{
    let ghost gv = groups.deep_view();
    let count: usize = groups.len();
    let mut left = groups;
    let mut out: Vec<CheckItem> = Vec::new();
    assert(out.deep_view() =~= Seq::<CheckItemView>::empty());
    assert(gv.skip(0) =~= gv);
    assert(gv.take(0) =~= Seq::<Seq<CheckItemView>>::empty());
    let mut i: usize = 0;
    while i < count
        invariant
            i <= count,
            count == gv.len(),
            left.deep_view() == gv.skip(i as int),
            out.deep_view() == all_items(gv.take(i as int)),
        decreases count - i,
    {
        let ghost lv = left.deep_view();
        assert(lv.len() == left@.len());
        let mut group = left.remove(0);
        let ghost group_view = group.deep_view();
        let ghost before = out.deep_view();
        assert(group_view == lv[0]);
        assert(left.deep_view() =~= lv.remove(0));
        out.append(&mut group);
        assert(out.deep_view() =~= before + group_view);
        i += 1;
        assert(gv.take(i as int).drop_last() =~= gv.take(i - 1));
        assert(gv.take(i as int).last() == group_view);
        assert(left.deep_view() =~= gv.skip(i as int));
    }
    assert(gv.take(i as int) =~= gv);
    out
}

// ---------------------------------------------------------------------------
// The content of a folder
// ---------------------------------------------------------------------------

/// The name of what hashing a file's bytes and then its path with a fresh
/// `DefaultHasher` gives.
pub uninterp spec fn file_hash(bytes: Seq<u8>, path: Seq<char>) -> u64;

/// Wraps the `Hash` of `Vec<u8>` and of `str`, one after the other, with a hasher
/// from `DefaultHasher::new`. All hashers made by `new` are the same, so the
/// result depends on the bytes and the path alone. The standard library does not
/// promise that another release of it, or another platform, gives the same
/// number.
#[verifier::external_body]
fn hash_file(bytes: &Vec<u8>, path: &str) -> (r: u64)
    ensures
        r == file_hash(bytes@, path@),
{
    let mut hasher = std::collections::hash_map::DefaultHasher::new();
    bytes.hash(&mut hasher);
    path.hash(&mut hasher);
    hasher.finish()
}

/// The name of what hashing a row of paths and numbers with a fresh
/// `DefaultHasher` gives.
pub uninterp spec fn rows_hash(rows: Seq<(Seq<char>, u64)>) -> u64;

/// Wraps the `Hash` of a slice of pairs with a hasher from `DefaultHasher::new`.
/// The result depends on the pairs alone, as far as one release of the standard
/// library on one platform goes.
#[verifier::external_body]
fn hash_rows(rows: &Vec<(String, u64)>) -> (r: u64)
    ensures
        r == rows_hash(rows.deep_view()),
{
    let mut hasher = std::collections::hash_map::DefaultHasher::new();
    std::hash::Hash::hash_slice(rows.as_slice(), &mut hasher);
    hasher.finish()
}

/// A file by its path, with its bytes.
pub type FoundFile = (Seq<char>, Seq<u8>);

/// Whether the file at place `i` is the last whose path is this one in lower
/// case.
pub open spec fn is_last_at(files: Seq<FoundFile>, key: Seq<char>, i: int) -> bool {
    &&& 0 <= i < files.len()
    &&& text::lowercase(files[i].0) == key
    &&& forall|j: int| i < j < files.len() ==> text::lowercase((#[trigger] files[j]).0) != key
}

/// Whether a row is a path with the hash of the last file at that path.
pub open spec fn is_row_of(files: Seq<FoundFile>, row: (Seq<char>, u64)) -> bool {
    exists|i: int|
        #[trigger] is_last_at(files, row.0, i) && row.1 == file_hash(files[i].1, row.0)
}

/// Whether `rows` lists each path of the files in lower case once, in order, with
/// the hash of the last file at that path.
pub open spec fn is_hash_table(files: Seq<FoundFile>, rows: Seq<(Seq<char>, u64)>) -> bool {
    &&& forall|a: int, b: int|
        0 <= a < b < rows.len() ==> text::text_less((#[trigger] rows[a]).0, (#[trigger] rows[b]).0)
    &&& forall|k: int| 0 <= k < rows.len() ==> is_row_of(files, #[trigger] rows[k])
    &&& forall|i: int|
        0 <= i < files.len() ==> has_row(rows, text::lowercase((#[trigger] files[i]).0))
}

/// Whether there is a row for this path.
pub open spec fn has_row(rows: Seq<(Seq<char>, u64)>, key: Seq<char>) -> bool {
    exists|k: int| 0 <= k < rows.len() && (#[trigger] rows[k]).0 == key
}

/// A hash over all files of a folder, given by their paths below it and their
/// bytes, in sixteen hexadecimal digits. It does not depend on the order of the
/// files nor on the case of letters in their paths.
pub fn hash_contents(files: &Vec<(String, Vec<u8>)>) -> (r: String)
    ensures
        exists|rows: Seq<(Seq<char>, u64)>|
            is_hash_table(files.deep_view(), rows) && r@ == game::hex(
                #[trigger] rows_hash(rows) as nat,
                16,
            ),
{
    let ghost fv = files.deep_view();
    let mut keys: Vec<String> = Vec::new();
    let mut i: usize = 0;
    while i < files.len()
        invariant
            i <= files@.len(),
            fv == files.deep_view(),
            keys@.len() == i,
            forall|j: int|
                0 <= j < i ==> #[trigger] keys.deep_view()[j] == text::lowercase(fv[j].0),
        decreases files.len() - i,
    {
        let ghost before = keys.deep_view();
        let key = text::to_lowercase(files[i].0.as_str());
        keys.push(key);
        assert(keys.deep_view() =~= before.push(key@));
        i += 1;
    }
    let ghost kv = keys.deep_view();
    let groups = sorting::group_places(&keys);
    let ghost gv = groups.deep_view();
    let mut rows: Vec<(String, u64)> = Vec::new();
    let mut g: usize = 0;
    while g < groups.len()
        invariant
            g <= groups@.len(),
            fv == files.deep_view(),
            kv == keys.deep_view(),
            gv == groups.deep_view(),
            kv.len() == fv.len(),
            keys@.len() == files@.len(),
            forall|j: int| 0 <= j < fv.len() ==> #[trigger] kv[j] == text::lowercase(fv[j].0),
            sorting::is_grouping(kv, gv),
            rows@.len() == g,
            forall|k: int|
                0 <= k < g ==> (#[trigger] rows.deep_view()[k]).0 == sorting::key_of(kv, gv[k])
                    && is_last_at(fv, rows.deep_view()[k].0, gv[k].last() as int)
                    && rows.deep_view()[k].1 == file_hash(
                    fv[gv[k].last() as int].1,
                    rows.deep_view()[k].0,
                ),
        decreases groups.len() - g,
    {
        let ghost before = rows.deep_view();
        let ghost group = gv[g as int];
        assert(group =~= groups@[g as int]@);
        assert(sorting::is_group(kv, group));
        let n: usize = groups[g].len();
        let last: usize = groups[g][n - 1];
        assert(group[n - 1] < kv.len());
        let key = keys[last].clone();
        let hash: u64 = hash_file(&files[last].1, key.as_str());
        proof {
            assert(key@ == sorting::key_of(kv, group));
            assert(kv[last as int] == text::lowercase(fv[last as int].0));
            assert forall|j: int| last < j < fv.len() implies text::lowercase(
                (#[trigger] fv[j]).0,
            ) != key@ by {
                assert(kv[j] == text::lowercase(fv[j].0));
                assert(j < keys@.len() <= usize::MAX);
                assert(group[n - 1] == last);
                if kv[j] == key@ {
                    assert(kv[j as usize as int] == sorting::key_of(kv, gv[g as int]));
                    sorting::lemma_group_complete(kv, gv, g as int, j as usize);
                    assert(group.contains(j as usize));
                    let m = choose|m: int| 0 <= m < group.len() && group[m] == j as usize;
                    assert(group[m] == j);
                    if m < n - 1 {
                        assert(group[m] < group[n - 1]);
                    }
                    assert(false);
                }
            }
            assert(is_last_at(fv, key@, last as int));
            assert(files@[last as int].1@ == fv[last as int].1);
        }
        let row = (key, hash);
        let ghost rv = row.deep_view();
        rows.push(row);
        assert(rows.deep_view() =~= before.push(rv));
        g += 1;
    }
    let ghost table = rows.deep_view();
    proof {
        assert(table.len() == gv.len());
        assert forall|a: int, b: int| 0 <= a < b < table.len() implies text::text_less(
            (#[trigger] table[a]).0,
            (#[trigger] table[b]).0,
        ) by {
            assert(text::text_less(
                sorting::key_of(kv, gv[a]),
                sorting::key_of(kv, gv[b]),
            ));
        }
        assert forall|k: int| 0 <= k < table.len() implies is_row_of(fv, #[trigger] table[k]) by {
            assert(is_last_at(fv, table[k].0, gv[k].last() as int));
        }
        assert forall|i: int| 0 <= i < fv.len() implies has_row(
            table,
            text::lowercase((#[trigger] fv[i]).0),
        ) by {
            let h = sorting::lemma_key_grouped(kv, gv, i as usize);
            assert(table[h].0 == kv[i]);
        }
    }
    let r = text::text_of(game::hex_chars(hash_rows(&rows), 16).as_slice());
    assert(r@ == game::hex(rows_hash(table) as nat, 16));
    r
}

/// The files of a folder decide its hash: there is one table only.
pub proof fn lemma_hash_table_unique(
    files: Seq<FoundFile>,
    s: Seq<(Seq<char>, u64)>,
    t: Seq<(Seq<char>, u64)>,
)
    requires
        is_hash_table(files, s),
        is_hash_table(files, t),
    ensures
        s == t,
{
    lemma_hash_rows_agree(files, s, t, s.len() as int);
    lemma_hash_rows_agree(files, t, s, t.len() as int);
    assert(s =~= t);
}

proof fn lemma_row_key_known(files: Seq<FoundFile>, s: Seq<(Seq<char>, u64)>, k: int) -> (i: int)
    requires
        is_hash_table(files, s),
        0 <= k < s.len(),
    ensures
        is_last_at(files, s[k].0, i),
        s[k].1 == file_hash(files[i].1, s[k].0),
{
    assert(is_row_of(files, s[k]));
    choose|i: int|
        #[trigger] is_last_at(files, s[k].0, i) && s[k].1 == file_hash(files[i].1, s[k].0)
}

proof fn lemma_hash_rows_agree(
    files: Seq<FoundFile>,
    s: Seq<(Seq<char>, u64)>,
    t: Seq<(Seq<char>, u64)>,
    n: int,
)
    requires
        is_hash_table(files, s),
        is_hash_table(files, t),
        0 <= n <= s.len(),
    ensures
        n <= t.len(),
        forall|k: int| 0 <= k < n ==> #[trigger] s[k] == t[k],
    decreases n,
{
    if n > 0 {
        lemma_hash_rows_agree(files, s, t, n - 1);
        let k = n - 1;
        let i = lemma_row_key_known(files, s, k);
        assert(has_row(t, text::lowercase(files[i].0)));
        let m = choose|m: int| 0 <= m < t.len() && (#[trigger] t[m]).0 == s[k].0;
        if m < k {
            assert(s[m] == t[m]);
            assert(text::text_less(s[m].0, s[k].0));
            text::lemma_text_less_irreflexive(s[k].0);
        }
        assert(k < t.len());
        let j = lemma_row_key_known(files, t, k);
        if m > k {
            assert(text::text_less(t[k].0, t[m].0));
            assert(has_row(s, text::lowercase(files[j].0)));
            let q = choose|q: int| 0 <= q < s.len() && (#[trigger] s[q]).0 == t[k].0;
            text::lemma_text_less_irreflexive(t[k].0);
            if q < k {
                assert(s[q] == t[q]);
                assert(text::text_less(t[q].0, t[k].0));
            } else if q > k {
                assert(text::text_less(s[k].0, s[q].0));
                text::lemma_text_less_transitive(t[k].0, s[k].0, t[k].0);
            }
        }
        assert(t[k].0 == s[k].0);
        if i < j {
            assert(text::lowercase(files[j].0) != s[k].0);
        } else if j < i {
            assert(text::lowercase(files[i].0) != t[k].0);
        }
    }
}

/// The contested rows are counted: those that more than one mod provides.
pub proof fn lemma_contested_rows_are_counted(table: Seq<(Seq<char>, Seq<ContributionView>)>)
    ensures
        contested_rows(table) == table.filter(
            |row: (Seq<char>, Seq<ContributionView>)| row.1.len() > 1,
        ).len(),
    decreases table.len(),
{
    reveal(Seq::filter);
    if table.len() > 0 {
        lemma_contested_rows_are_counted(table.drop_last());
    }
}

/// The report has the checks of every group, in order.
pub proof fn lemma_every_group_is_in_the_report(groups: Seq<Seq<CheckItemView>>)
    ensures
        all_items(groups) == groups.flatten(),
    decreases groups.len(),
{
    if groups.len() == 0 {
        assert(groups.flatten() =~= Seq::<CheckItemView>::empty());
    } else {
        let t = groups.drop_last();
        lemma_every_group_is_in_the_report(t);
        lists::lemma_flatten_push(t, groups.last());
        assert(t.push(groups.last()) =~= groups);
    }
}

/// The folder of the sources is the first with this project's manifest.
pub proof fn lemma_first_root_is_taken(
    dirs: Seq<(Seq<char>, Option<Seq<char>>)>,
    i: int,
    k: int,
)
    requires
        0 <= i <= k <= dirs.len(),
        forall|j: int|
            i <= j < k ==> (#[trigger] dirs[j]).1 is None || !text::holds(
                dirs[j].1->0,
                "name = \"skyrim_modmgr\""@,
            ),
        k < dirs.len() ==> dirs[k].1 is Some && text::holds(
            dirs[k].1->0,
            "name = \"skyrim_modmgr\""@,
        ),
    ensures
        root_at(dirs, i) == k,
    decreases k - i,
{
    if i < k {
        lemma_first_root_is_taken(dirs, i + 1, k);
    }
}

/// When the checks pass: two detections agree on an id, just one path is
/// contested and the later mod wins it, the masters are read, what is no header
/// has none, and a wrapper is gone.
pub proof fn lemma_when_regressions_pass(
    first: Seq<char>,
    second: Seq<char>,
    table: Seq<(Seq<char>, Seq<ContributionView>)>,
    later: Seq<char>,
    read: Seq<Seq<char>>,
    junk: Seq<Seq<char>>,
    unwrapped: bool,
)
    ensures
        id_item(first, second).passed <==> first == second && first.len() > 0,
        conflict_item(table, later).passed <==> table.len() == 1 && table[0].1.len() > 1
            && table[0].1.last().mod_id == later,
        header_item(read).passed <==> read == seq!["Skyrim.esm"@, "Update.esm"@],
        junk_item(read, junk).passed <==> read.len() == 0 && junk.len() == 0,
        wrapper_item(unwrapped).passed <==> unwrapped,
{
    if table.len() == 1 {
        let t = table.drop_last();
        assert(contested_rows(t) == 0);
        assert(table.last() == table[0]);
    }
    assert(read == tried_masters() <==> read == seq!["Skyrim.esm"@, "Update.esm"@]);
}

/// When the checks on tools pass: where the tool ran and succeeded. A missing
/// linter or audit passes too, and tests or builds that could not be started do
/// not.
pub proof fn lemma_when_tools_pass(run: ToolRun, label: Seq<char>)
    ensures
        match run {
            ToolRun::Ran { ok, stdout, stderr } => {
                let output = stdout@ + "\n"@ + stderr@;
                &&& test_item(run).passed == ok
                &&& build_item(label, run).passed == ok
                &&& clippy_item(run).passed == (ok || text::holds(output, "no such command"@) || (
                text::holds(output, "`clippy`"@) && text::holds(output, "not installed"@)))
                &&& audit_item(run).passed == (ok || text::holds(output, "no such command"@)
                    || text::holds(output, "is not installed"@) || text::holds(
                    output,
                    "could not find"@,
                ))
            },
            ToolRun::NotStarted { .. } => {
                &&& !test_item(run).passed
                &&& !build_item(label, run).passed
                &&& clippy_item(run).passed
                &&& audit_item(run).passed
            },
        },
{
    let marks = no_audit_marks();
    assert(marks[0] == "no such command"@ && marks[1] == "is not installed"@ && marks[2]
        == "could not find"@);
    match run {
        ToolRun::Ran { ok, stdout, stderr } => {
            let output = output_of(stdout@, stderr@);
            if text::holds_any(output, marks) {
                let k = choose|k: int|
                    0 <= k < marks.len() && text::holds(output, #[trigger] marks[k]);
                assert(0 <= k < 3);
            }
        },
        ToolRun::NotStarted { .. } => {},
    }
}

/// When the checks of a deploy and a restore pass: both succeed, and the game's
/// folder is as it was, with its content, and no link.
pub proof fn lemma_when_roundtrip_passes(
    deployed: DeployTrial,
    restore_error: Option<Seq<char>>,
    before: Seq<char>,
    after: Option<Seq<char>>,
    is_link: bool,
    is_dir: bool,
    has_marker: bool,
)
    ensures
        check::all_passed(roundtrip_items(deployed, restore_error, before, after)) <==> {
            &&& deployed is Linked
            &&& restore_error is None
            &&& after == Some(before)
        },
        check::all_passed(cleanup_items(is_link, is_dir, has_marker, restore_error)) <==> {
            &&& !is_link
            &&& is_dir
            &&& has_marker
            &&& restore_error is None
        },
{
    let a = roundtrip_items(deployed, restore_error, before, after);
    let b = cleanup_items(is_link, is_dir, has_marker, restore_error);
    assert(a.len() == 3 && b.len() == 3);
    assert(a[0].passed == (deployed is Linked));
    assert(a[1].passed == (restore_error is None));
    assert(a[2].passed == (after == Some(before)));
    assert(b[0].passed == (!is_link && is_dir));
    assert(b[1].passed == has_marker);
    assert(b[2].passed == (restore_error is None));
}

/// When the checks with broken inputs pass: what is broken does not install,
/// what is merely odd does, and nothing panics.
pub proof fn lemma_when_broken_inputs_pass(b: BrokenInputs)
    ensures
        check::all_passed(fuzz_items(b)) <==> {
            &&& b.truncated is Failed
            &&& b.empty is Failed
            &&& b.broken_plugin is Installed
            &&& b.empty_folder is Installed
            &&& !(b.long_name is Panicked)
            &&& !(b.odd_name is Panicked)
            &&& b.missing is Failed
        },
{
    let items = fuzz_items(b);
    assert(items.len() == 7);
    assert(items[0].passed == (b.truncated is Failed));
    assert(items[1].passed == (b.empty is Failed));
    assert(items[2].passed == (b.broken_plugin is Installed));
    assert(items[3].passed == (b.empty_folder is Installed));
    assert(items[4].passed == !(b.long_name is Panicked));
    assert(items[5].passed == !(b.odd_name is Panicked));
    assert(items[6].passed == (b.missing is Failed));
}

/// The hash of a folder does not depend on the order in which its files are
/// found, where no two paths are the same but for the case of letters.
pub proof fn lemma_order_of_files_does_not_matter(
    a: Seq<FoundFile>,
    b: Seq<FoundFile>,
    rows: Seq<(Seq<char>, u64)>,
)
    requires
        is_hash_table(a, rows),
        forall|i: int, j: int|
            0 <= i < j < b.len() ==> text::lowercase((#[trigger] b[i]).0) != text::lowercase(
                (#[trigger] b[j]).0,
            ),
        forall|i: int| 0 <= i < a.len() ==> b.contains(#[trigger] a[i]),
        forall|i: int| 0 <= i < b.len() ==> a.contains(#[trigger] b[i]),
    ensures
        is_hash_table(b, rows),
{
    assert forall|k: int| 0 <= k < rows.len() implies is_row_of(b, #[trigger] rows[k]) by {
        let i = lemma_row_key_known(a, rows, k);
        assert(b.contains(a[i]));
        let j = choose|j: int| 0 <= j < b.len() && b[j] == a[i];
        assert(is_last_at(b, rows[k].0, j)) by {
            assert forall|m: int| j < m < b.len() implies text::lowercase((#[trigger] b[m]).0)
                != rows[k].0 by {
                assert(text::lowercase(b[j].0) != text::lowercase(b[m].0));
            }
        }
    }
    assert forall|i: int| 0 <= i < b.len() implies has_row(
        rows,
        text::lowercase((#[trigger] b[i]).0),
    ) by {
        assert(a.contains(b[i]));
        let j = choose|j: int| 0 <= j < a.len() && a[j] == b[i];
        assert(has_row(rows, text::lowercase(a[j].0)));
    }
}

} // verus!
