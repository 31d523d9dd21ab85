//! The doctor: what it makes of the checks that it runs, and its report.

use crate::color;
use crate::lists;
use crate::text;
use vstd::prelude::*;

verus! {

/// The outcome of one check.
#[derive(Debug, Clone)]
pub struct CheckItem {
    pub name: String,
    pub category: String,
    pub passed: bool,
    pub detail: String,
    pub location: Option<String>,
}

/// The mathematical content of a [`CheckItem`].
pub struct CheckItemView {
    pub name: Seq<char>,
    pub category: Seq<char>,
    pub passed: bool,
    pub detail: Seq<char>,
    pub location: Option<Seq<char>>,
}

impl DeepView for CheckItem {
    type V = CheckItemView;

    open spec fn deep_view(&self) -> CheckItemView {
        CheckItemView {
            name: self.name@,
            category: self.category@,
            passed: self.passed,
            detail: self.detail@,
            location: self.location.deep_view(),
        }
    }
}

/// The outcome of all checks.
#[derive(Debug, Clone)]
pub struct Report {
    pub items: Vec<CheckItem>,
    pub duration_ms: u128,
}

/// The outcome of a check that is not about one place.
pub open spec fn item_of(
    category: Seq<char>,
    name: Seq<char>,
    passed: bool,
    detail: Seq<char>,
) -> CheckItemView {
    CheckItemView { name, category, passed, detail, location: None }
}

/// The outcome of a check that is not about one place.
pub fn item(category: &str, name: &str, passed: bool, detail: &str) -> (r: CheckItem)
    ensures
        r.deep_view() == item_of(category@, name@, passed, detail@),
{
    CheckItem {
        name: name.to_owned(),
        category: category.to_owned(),
        passed,
        detail: detail.to_owned(),
        location: None,
    }
}

/// How many checks passed.
pub open spec fn count_passed(items: Seq<CheckItemView>) -> nat
    decreases items.len(),
{
    if items.len() == 0 {
        0
    } else {
        count_passed(items.drop_last()) + (if items.last().passed {
            1nat
        } else {
            0nat
        })
    }
}

/// How many checks failed.
pub open spec fn count_failed(items: Seq<CheckItemView>) -> nat
    decreases items.len(),
{
    if items.len() == 0 {
        0
    } else {
        count_failed(items.drop_last()) + (if items.last().passed {
            0nat
        } else {
            1nat
        })
    }
}

/// Whether all checks passed.
pub open spec fn all_passed(items: Seq<CheckItemView>) -> bool {
    forall|i: int| 0 <= i < items.len() ==> (#[trigger] items[i]).passed
}

/// The category of the last of these checks; the empty text where there is none.
pub open spec fn last_category(items: Seq<CheckItemView>) -> Seq<char> {
    if items.len() == 0 {
        Seq::empty()
    } else {
        items.last().category
    }
}

/// The lines of a detail, one below the other and indented.
pub open spec fn detail_lines(lines: Seq<Seq<char>>) -> Seq<char>
    decreases lines.len(),
{
    if lines.len() == 0 {
        Seq::empty()
    } else {
        detail_lines(lines.drop_last()) + "         "@ + lines.last() + "\n"@
    }
}

/// The heading before a check, where it begins another category.
pub open spec fn terminal_heading(before: Seq<char>, category: Seq<char>, colored: bool) -> Seq<char> {
    if category != before {
        "\n"@ + color::painted("36"@, "▸"@, colored) + " "@ + color::painted("1"@, category, colored)
            + "\n"@
    } else {
        Seq::empty()
    }
}

/// A check as it is shown in a terminal.
pub open spec fn terminal_item(it: CheckItemView, colored: bool) -> Seq<char> {
    "  ["@ + (if it.passed {
        color::painted("32"@, "PASS"@, colored)
    } else {
        color::painted("31"@, "FAIL"@, colored)
    }) + "] "@ + it.name + "\n"@ + detail_lines(text::lines(it.detail)) + (match it.location {
        Some(l) => "         @ "@ + l + "\n"@,
        None => Seq::empty(),
    })
}

/// The checks as they are shown in a terminal, under headings.
pub open spec fn terminal_items(items: Seq<CheckItemView>, colored: bool) -> Seq<char>
    decreases items.len(),
{
    if items.len() == 0 {
        Seq::empty()
    } else {
        terminal_items(items.drop_last(), colored) + terminal_heading(
            last_category(items.drop_last()),
            items.last().category,
            colored,
        ) + terminal_item(items.last(), colored)
    }
}

/// The report as it is shown in a terminal. `seconds` is how long the checks
/// took.
pub open spec fn terminal_report(items: Seq<CheckItemView>, colored: bool, seconds: Seq<char>) -> Seq<
    char,
> {
    color::painted("1"@, "skyrim-modmgr doctor — automated checks"@, colored) + "\n\n"@
        + terminal_items(items, colored) + "\n"@ + (if all_passed(items) {
        color::painted("32"@, "RESULT: OK"@, colored)
    } else {
        color::painted("31"@, "RESULT: PROBLEMS FOUND"@, colored)
    }) + "  "@ + text::decimal(count_passed(items)) + " passed, "@ + text::decimal(
        count_failed(items),
    ) + " failed  ("@ + seconds + "s)\n"@
}

/// A detail with each of its lines a point of a list.
pub open spec fn as_points(s: Seq<char>) -> Seq<char>
    decreases s.len(),
{
    if s.len() == 0 {
        Seq::empty()
    } else {
        as_points(s.drop_last()) + (if s.last() == '\n' {
            "\n  - "@
        } else {
            seq![s.last()]
        })
    }
}

/// A check as it is written in markdown.
pub open spec fn markdown_item(it: CheckItemView) -> Seq<char> {
    "- "@ + (if it.passed {
        "✅"@
    } else {
        "❌"@
    }) + " **"@ + it.name + "**\n"@ + (if it.detail.len() > 0 {
        "  - "@ + as_points(it.detail) + "\n"@
    } else {
        Seq::empty()
    }) + (match it.location {
        Some(l) => "  - location: `"@ + l + "`\n"@,
        None => Seq::empty(),
    })
}

/// The checks as they are written in markdown, under headings.
pub open spec fn markdown_items(items: Seq<CheckItemView>) -> Seq<char>
    decreases items.len(),
{
    if items.len() == 0 {
        Seq::empty()
    } else {
        markdown_items(items.drop_last()) + (if items.last().category != last_category(
            items.drop_last(),
        ) {
            "\n## "@ + items.last().category + "\n\n"@
        } else {
            Seq::empty()
        }) + markdown_item(items.last())
    }
}

/// The report in markdown. `seconds` is how long the checks took.
pub open spec fn markdown_report(items: Seq<CheckItemView>, seconds: Seq<char>) -> Seq<char> {
    "# skyrim-modmgr doctor report\n\n"@ + "**"@ + (if all_passed(items) {
        "OK"@
    } else {
        "PROBLEMS FOUND"@
    }) + "** — "@ + text::decimal(count_passed(items)) + " passed, "@ + text::decimal(
        count_failed(items),
    ) + " failed ("@ + seconds + "s)\n\n"@ + markdown_items(items) + "\n"@
}

fn detail_text(detail: &str) -> (r: String)
    ensures
        r@ == detail_lines(text::lines(detail@)),
{
    let lines = text::split_lines(detail);
    let ghost lv = lines.deep_view();
    let mut out = String::new();
    let mut i: usize = 0;
    assert(lv.take(0) =~= Seq::<Seq<char>>::empty());
    while i < lines.len()
        invariant
            i <= lines@.len(),
            lv == lines.deep_view(),
            out@ == detail_lines(lv.take(i as int)),
        decreases lines.len() - i,
    {
        assert(lv.take(i + 1).drop_last() =~= lv.take(i as int));
        assert(lv.take(i + 1).last() == lines@[i as int]@);
        out.append("         ");
        out.append(lines[i].as_str());
        out.append("\n");
        i += 1;
    }
    assert(lv.take(i as int) =~= lv);
    out
}

fn points_text(detail: &str) -> (r: String)
    ensures
        r@ == as_points(detail@),
{
    let x = text::chars_of(detail);
    let mut out: Vec<char> = Vec::new();
    let mut i: usize = 0;
    assert(x@.take(0) =~= Seq::<char>::empty());
    while i < x.len()
        invariant
            i <= x@.len(),
            out@ == as_points(x@.take(i as int)),
        decreases x.len() - i,
    {
        let ghost t = x@.take(i + 1);
        let ghost before = out@;
        assert(t.drop_last() =~= x@.take(i as int));
        assert(t.last() == x@[i as int]);
        if x[i] == '\n' {
            proof {
                reveal_strlit("\n  - ");
            }
            out.push('\n');
            out.push(' ');
            out.push(' ');
            out.push('-');
            out.push(' ');
            assert(out@ =~= before + "\n  - "@);
        } else {
            out.push(x[i]);
            assert(out@ =~= before + seq![x@[i as int]]);
        }
        i += 1;
    }
    assert(x@.take(i as int) =~= x@);
    text::text_of(out.as_slice())
}

impl CheckItem {
    fn to_terminal(&self, colored: bool) -> (r: String)
        ensures
            r@ == terminal_item(self.deep_view(), colored),
    {
        let mark = if self.passed {
            color::green("PASS", colored)
        } else {
            color::red("FAIL", colored)
        };
        let mut out = text::concat3("  [", mark.as_str(), "] ");
        out.append(self.name.as_str());
        out.append("\n");
        out.append(detail_text(self.detail.as_str()).as_str());
        if let Some(l) = &self.location {
            out.append(text::concat3("         @ ", l.as_str(), "\n").as_str());
        }
        assert(out@ =~= terminal_item(self.deep_view(), colored));
        out
    }

    fn to_markdown(&self) -> (r: String)
        ensures
            r@ == markdown_item(self.deep_view()),
    {
        let mark = if self.passed {
            "✅"
        } else {
            "❌"
        };
        let mut out = text::concat3("- ", mark, " **");
        out.append(self.name.as_str());
        out.append("**\n");
        if !self.detail.as_str().is_empty() {
            out.append(
                text::concat3("  - ", points_text(self.detail.as_str()).as_str(), "\n").as_str(),
            );
        }
        if let Some(l) = &self.location {
            out.append(text::concat3("  - location: `", l.as_str(), "`\n").as_str());
        }
        assert(out@ =~= markdown_item(self.deep_view()));
        out
    }
}

/// The heading before a check, where it begins another category.
fn heading_of(before: &str, category: &str, colored: bool) -> (r: String)
    ensures
        r@ == terminal_heading(before@, category@, colored),
{
    if text::same_text(category, before) {
        return String::new();
    }
    let mut line = text::concat3("\n", color::cyan("▸", colored).as_str(), " ");
    line.append(color::bold(category, colored).as_str());
    line.append("\n");
    line
}

impl Report {
    /// Whether all checks passed.
    pub fn passed(&self) -> (r: bool)
        ensures
            r == all_passed(self.items.deep_view()),
    {
        let ghost iv = self.items.deep_view();
        let mut i: usize = 0;
        while i < self.items.len()
            invariant
                i <= self.items@.len(),
                iv == self.items.deep_view(),
                forall|k: int| 0 <= k < i ==> (#[trigger] iv[k]).passed,
            decreases self.items.len() - i,
        {
            if !self.items[i].passed {
                assert(!iv[i as int].passed);
                return false;
            }
            i += 1;
        }
        true
    }

    /// How many checks failed.
    pub fn fail_count(&self) -> (r: usize)
        ensures
            r == count_failed(self.items.deep_view()),
    {
        let ghost iv = self.items.deep_view();
        let mut n: usize = 0;
        let mut i: usize = 0;
        assert(iv.take(0) =~= Seq::<CheckItemView>::empty());
        while i < self.items.len()
            invariant
                i <= self.items@.len(),
                n <= i,
                iv == self.items.deep_view(),
                n == count_failed(iv.take(i as int)),
            decreases self.items.len() - i,
        {
            assert(iv.take(i + 1).drop_last() =~= iv.take(i as int));
            assert(iv.take(i + 1).last() == self.items@[i as int].deep_view());
            if !self.items[i].passed {
                n += 1;
            }
            i += 1;
        }
        assert(iv.take(i as int) =~= iv);
        n
    }

    /// How many checks passed.
    pub fn pass_count(&self) -> (r: usize)
        ensures
            r == count_passed(self.items.deep_view()),
    {
        let ghost iv = self.items.deep_view();
        let mut n: usize = 0;
        let mut i: usize = 0;
        assert(iv.take(0) =~= Seq::<CheckItemView>::empty());
        while i < self.items.len()
            invariant
                i <= self.items@.len(),
                n <= i,
                iv == self.items.deep_view(),
                n == count_passed(iv.take(i as int)),
            decreases self.items.len() - i,
        {
            assert(iv.take(i + 1).drop_last() =~= iv.take(i as int));
            assert(iv.take(i + 1).last() == self.items@[i as int].deep_view());
            if self.items[i].passed {
                n += 1;
            }
            i += 1;
        }
        assert(iv.take(i as int) =~= iv);
        n
    }

    /// The report as it is shown in a terminal. `seconds` is the duration, in
    /// seconds with one decimal.
    pub fn to_terminal(&self, colored: bool, seconds: &str) -> (r: String)
        ensures
            r@ == terminal_report(self.items.deep_view(), colored, seconds@),
    {
        let ghost iv = self.items.deep_view();
        let mut out = color::bold("skyrim-modmgr doctor — automated checks", colored);
        out.append("\n\n");
        let ghost head = out@;
        let mut current = String::new();
        let mut i: usize = 0;
        assert(iv.take(0) =~= Seq::<CheckItemView>::empty());
        assert(out@ =~= head + terminal_items(iv.take(0), colored));
        while i < self.items.len()
            invariant
                i <= self.items@.len(),
                iv == self.items.deep_view(),
                current@ == last_category(iv.take(i as int)),
                out@ == head + terminal_items(iv.take(i as int), colored),
            decreases self.items.len() - i,
        {
            let ghost t = iv.take(i + 1);
            let ghost before = out@;
            assert(t.drop_last() =~= iv.take(i as int));
            assert(t.last() == self.items@[i as int].deep_view());
            let it = &self.items[i];
            let heading = heading_of(current.as_str(), it.category.as_str(), colored);
            out.append(heading.as_str());
            current = it.category.clone();
            out.append(it.to_terminal(colored).as_str());
            i += 1;
            proof {
                let mark = terminal_item(t.last(), colored);
                assert(out@ == before + heading@ + mark);
                assert(out@ =~= head + (terminal_items(t.drop_last(), colored) + heading@ + mark));
            }
        }
        assert(iv.take(i as int) =~= iv);
        out.append("\n");
        out.append(
            if self.passed() {
                color::green("RESULT: OK", colored)
            } else {
                color::red("RESULT: PROBLEMS FOUND", colored)
            }.as_str(),
        );
        out.append("  ");
        out.append(text::number_text(self.pass_count() as u64).as_str());
        out.append(" passed, ");
        out.append(text::number_text(self.fail_count() as u64).as_str());
        out.append(" failed  (");
        out.append(seconds);
        out.append("s)\n");
        assert(out@ =~= terminal_report(iv, colored, seconds@));
        out
    }

    /// The report in markdown, to keep and to share. `seconds` is the duration,
    /// in seconds with one decimal.
    pub fn to_markdown(&self, seconds: &str) -> (r: String)
        ensures
            r@ == markdown_report(self.items.deep_view(), seconds@),
    {
        let ghost iv = self.items.deep_view();
        let mut out = text::concat("# skyrim-modmgr doctor report\n\n", "**");
        out.append(
            if self.passed() {
                "OK"
            } else {
                "PROBLEMS FOUND"
            },
        );
        out.append("** — ");
        out.append(text::number_text(self.pass_count() as u64).as_str());
        out.append(" passed, ");
        out.append(text::number_text(self.fail_count() as u64).as_str());
        out.append(" failed (");
        out.append(seconds);
        out.append("s)\n\n");
        let ghost head = out@;
        let mut current = String::new();
        let mut i: usize = 0;
        assert(iv.take(0) =~= Seq::<CheckItemView>::empty());
        assert(out@ =~= head + markdown_items(iv.take(0)));
        while i < self.items.len()
            invariant
                i <= self.items@.len(),
                iv == self.items.deep_view(),
                current@ == last_category(iv.take(i as int)),
                out@ == head + markdown_items(iv.take(i as int)),
            decreases self.items.len() - i,
        {
            let ghost t = iv.take(i + 1);
            let ghost before = out@;
            assert(t.drop_last() =~= iv.take(i as int));
            assert(t.last() == self.items@[i as int].deep_view());
            let it = &self.items[i];
            if !text::same_text(it.category.as_str(), current.as_str()) {
                let line = text::concat3("\n## ", it.category.as_str(), "\n\n");
                out.append(line.as_str());
                current = it.category.clone();
            }
            out.append(it.to_markdown().as_str());
            i += 1;
            assert(out@ =~= head + markdown_items(t));
        }
        assert(iv.take(i as int) =~= iv);
        out.append("\n");
        assert(out@ =~= markdown_report(iv, seconds@));
        out
    }
}

// ---------------------------------------------------------------------------
// Progress
// ---------------------------------------------------------------------------

/// A line that tells how far the work has come and writes over the one before.
pub fn progress_line(msg: &str, colored: bool) -> (r: String)
    ensures
        r@ == "\r"@ + color::painted("36"@, "…"@, colored) + text::padded(msg@, 60),
{
    text::concat3("\r", color::cyan("…", colored).as_str(), text::pad(msg, 60).as_str())
}

/// What wipes the line that tells how far the work has come.
pub fn progress_done() -> (r: String)
    ensures
        r@ == "\r"@ + text::padded(Seq::empty(), 70) + "\r"@,
{
    proof {
        reveal_strlit("");
    }
    assert(""@ =~= Seq::<char>::empty());
    text::concat3("\r", text::pad("", 70).as_str(), "\r")
}

// ---------------------------------------------------------------------------
// Laws
// ---------------------------------------------------------------------------

/// Every check passed or failed.
pub proof fn lemma_counts_add_up(items: Seq<CheckItemView>)
    ensures
        count_passed(items) + count_failed(items) == items.len(),
    decreases items.len(),
{
    if items.len() > 0 {
        lemma_counts_add_up(items.drop_last());
    }
}

/// All checks passed if and only if none failed.
pub proof fn lemma_passed_means_none_failed(items: Seq<CheckItemView>)
    ensures
        all_passed(items) <==> count_failed(items) == 0,
    decreases items.len(),
{
    if items.len() > 0 {
        let t = items.drop_last();
        lemma_passed_means_none_failed(t);
        if all_passed(items) {
            assert forall|i: int| 0 <= i < t.len() implies (#[trigger] t[i]).passed by {
                assert(items[i].passed);
            }
            assert(items[items.len() - 1].passed);
        }
        if count_failed(items) == 0 {
            assert forall|i: int| 0 <= i < items.len() implies (#[trigger] items[i]).passed by {
                if i < t.len() {
                    assert(t[i].passed);
                }
            }
        }
    }
}

/// The counts are those of the checks that passed and of those that failed.
pub proof fn lemma_counts_are_of_all(items: Seq<CheckItemView>)
    ensures
        count_passed(items) == items.filter(|i: CheckItemView| i.passed).len(),
        count_failed(items) == items.filter(|i: CheckItemView| !i.passed).len(),
    decreases items.len(),
{
    reveal(Seq::filter);
    if items.len() > 0 {
        lemma_counts_are_of_all(items.drop_last());
    }
}

/// Every line of a detail is shown, in order.
pub proof fn lemma_every_detail_line_is_shown(lines: Seq<Seq<char>>)
    ensures
        detail_lines(lines) == lines.map_values(
            |l: Seq<char>| "         "@ + l + "\n"@,
        ).flatten(),
    decreases lines.len(),
{
    let f = |l: Seq<char>| "         "@ + l + "\n"@;
    if lines.len() == 0 {
        assert(lines.map_values(f).flatten() =~= Seq::<char>::empty());
    } else {
        let t = lines.drop_last();
        lemma_every_detail_line_is_shown(t);
        assert(lines.map_values(f) =~= t.map_values(f).push(f(lines.last())));
        lists::lemma_flatten_push(t.map_values(f), f(lines.last()));
        assert(detail_lines(lines) =~= detail_lines(t) + f(lines.last()));
    }
}

/// What a list of checks adds for the check at place `k`: each is shown, and a
/// heading comes before it exactly where its category is not that of the check
/// before it.
spec fn shown_at(items: Seq<CheckItemView>, colored: bool) -> spec_fn(int) -> Seq<char> {
    |k: int|
        terminal_heading(
            if k == 0 {
                Seq::empty()
            } else {
                items[k - 1].category
            },
            items[k].category,
            colored,
        ) + terminal_item(items[k], colored)
}

spec fn written_at(items: Seq<CheckItemView>) -> spec_fn(int) -> Seq<char> {
    |k: int|
        (if items[k].category != (if k == 0 {
            Seq::empty()
        } else {
            items[k - 1].category
        }) {
            "\n## "@ + items[k].category + "\n\n"@
        } else {
            Seq::empty()
        }) + markdown_item(items[k])
}

proof fn lemma_shown_one_by_one(items: Seq<CheckItemView>, colored: bool)
    ensures
        terminal_items(items, colored) == lists::places(items.len()).map_values(
            shown_at(items, colored),
        ).flatten(),
    decreases items.len(),
{
    let f = shown_at(items, colored);
    let p = lists::places(items.len());
    if items.len() == 0 {
        assert(p.map_values(f).flatten() =~= Seq::<char>::empty());
    } else {
        let t = items.drop_last();
        let m = t.len();
        let q = lists::places(m);
        lemma_shown_one_by_one(t, colored);
        let f0 = shown_at(t, colored);
        assert forall|k: int| 0 <= k < m implies #[trigger] f0(k) == f(k) by {
            assert(t[k] == items[k]);
            if k > 0 {
                assert(t[k - 1] == items[k - 1]);
            }
        }
        assert forall|k: int| 0 <= k < m implies #[trigger] q.map_values(f0)[k]
            == q.map_values(f)[k] by {
            assert(q[k] == k);
            assert(f0(k) == f(k));
        }
        assert(q.map_values(f0) =~= q.map_values(f));
        lists::lemma_places_push(m);
        assert(p.map_values(f) =~= q.map_values(f).push(f(m as int)));
        lists::lemma_flatten_push(q.map_values(f), f(m as int));
        let last = items.last();
        let before = last_category(t);
        assert(before == (if m == 0 {
            Seq::empty()
        } else {
            items[m - 1].category
        }));
        assert(f(m as int) == terminal_heading(before, last.category, colored) + terminal_item(
            last,
            colored,
        ));
        lemma_append_two(
            terminal_items(t, colored),
            terminal_heading(before, last.category, colored),
            terminal_item(last, colored),
        );
    }
}

proof fn lemma_append_two(a: Seq<char>, b: Seq<char>, c: Seq<char>)
    ensures
        a + b + c == a + (b + c),
{
    assert(a + b + c =~= a + (b + c));
}

proof fn lemma_written_one_by_one(items: Seq<CheckItemView>)
    ensures
        markdown_items(items) == lists::places(items.len()).map_values(written_at(items)).flatten(),
    decreases items.len(),
{
    let f = written_at(items);
    let p = lists::places(items.len());
    if items.len() == 0 {
        assert(p.map_values(f).flatten() =~= Seq::<char>::empty());
    } else {
        let t = items.drop_last();
        let m = t.len();
        let q = lists::places(m);
        lemma_written_one_by_one(t);
        let f0 = written_at(t);
        assert forall|k: int| 0 <= k < m implies #[trigger] f0(k) == f(k) by {
            assert(t[k] == items[k]);
            if k > 0 {
                assert(t[k - 1] == items[k - 1]);
            }
        }
        assert forall|k: int| 0 <= k < m implies #[trigger] q.map_values(f0)[k]
            == q.map_values(f)[k] by {
            assert(q[k] == k);
            assert(f0(k) == f(k));
        }
        assert(q.map_values(f0) =~= q.map_values(f));
        lists::lemma_places_push(m);
        assert(p.map_values(f) =~= q.map_values(f).push(f(m as int)));
        lists::lemma_flatten_push(q.map_values(f), f(m as int));
        let last = items.last();
        let before = last_category(t);
        assert(before == (if m == 0 {
            Seq::empty()
        } else {
            items[m - 1].category
        }));
        let heading = if last.category != before {
            "\n## "@ + last.category + "\n\n"@
        } else {
            Seq::empty()
        };
        assert(f(m as int) == heading + markdown_item(last));
        lemma_append_two(markdown_items(t), heading, markdown_item(last));
    }
}

/// Every check is shown, in order, and a heading comes before it exactly where
/// its category is not that of the check before it.
pub proof fn lemma_every_check_is_shown(items: Seq<CheckItemView>, colored: bool)
    ensures
        terminal_items(items, colored) == lists::places(items.len()).map_values(
            |k: int|
                terminal_heading(
                    if k == 0 {
                        Seq::empty()
                    } else {
                        items[k - 1].category
                    },
                    items[k].category,
                    colored,
                ) + terminal_item(items[k], colored),
        ).flatten(),
{
    lemma_shown_one_by_one(items, colored);
    let p = lists::places(items.len());
    let f = |k: int|
        terminal_heading(
            if k == 0 {
                Seq::empty()
            } else {
                items[k - 1].category
            },
            items[k].category,
            colored,
        ) + terminal_item(items[k], colored);
    let g = shown_at(items, colored);
    assert forall|k: int| 0 <= k < items.len() implies #[trigger] p.map_values(f)[k]
        == p.map_values(g)[k] by {
        assert(f(k) == g(k));
    }
    assert(p.map_values(f) =~= p.map_values(g));
}

/// So is every check in markdown.
pub proof fn lemma_every_check_is_written(items: Seq<CheckItemView>)
    ensures
        markdown_items(items) == lists::places(items.len()).map_values(
            |k: int|
                (if items[k].category != (if k == 0 {
                    Seq::empty()
                } else {
                    items[k - 1].category
                }) {
                    "\n## "@ + items[k].category + "\n\n"@
                } else {
                    Seq::empty()
                }) + markdown_item(items[k]),
        ).flatten(),
{
    lemma_written_one_by_one(items);
    let p = lists::places(items.len());
    let f = |k: int|
        (if items[k].category != (if k == 0 {
            Seq::empty()
        } else {
            items[k - 1].category
        }) {
            "\n## "@ + items[k].category + "\n\n"@
        } else {
            Seq::empty()
        }) + markdown_item(items[k]);
    let g = written_at(items);
    assert forall|k: int| 0 <= k < items.len() implies #[trigger] p.map_values(f)[k]
        == p.map_values(g)[k] by {
        assert(f(k) == g(k));
    }
    assert(p.map_values(f) =~= p.map_values(g));
}

/// Every line of a detail becomes a point, and its text stays.
pub proof fn lemma_every_line_is_a_point(a: Seq<char>, b: Seq<char>)
    ensures
        text::lacks(a, '\n') ==> as_points(a) == a,
        as_points(a + seq!['\n'] + b) == as_points(a) + "\n  - "@ + as_points(b),
    decreases a.len() + b.len(),
{
    if b.len() > 0 {
        lemma_every_line_is_a_point(a, b.drop_last());
        let s = a + seq!['\n'] + b;
        assert(s.drop_last() =~= a + seq!['\n'] + b.drop_last());
        assert(s.last() == b.last());
        assert(as_points(s) =~= as_points(a) + "\n  - "@ + as_points(b));
    } else {
        let s = a + seq!['\n'] + b;
        assert(s.drop_last() =~= a);
        assert(s.last() == '\n');
        assert(as_points(s) =~= as_points(a) + "\n  - "@ + as_points(b));
        if text::lacks(a, '\n') && a.len() > 0 {
            let t = a.drop_last();
            assert forall|j: int| 0 <= j < t.len() implies #[trigger] t[j] != '\n' by {
                assert(t[j] == a[j]);
            }
            lemma_every_line_is_a_point(t, Seq::empty());
            assert(a.last() == a[a.len() - 1]);
            assert(as_points(a) =~= a);
        }
    }
    if text::lacks(a, '\n') && a.len() == 0 {
        assert(as_points(a) =~= a);
    }
}

/// A check that passed is shown as such, and one that failed too.
pub proof fn lemma_outcome_is_shown(it: CheckItemView)
    ensures
        it.passed ==> text::holds_at(terminal_item(it, false), "  [PASS] "@ + it.name, 0),
        !it.passed ==> text::holds_at(terminal_item(it, false), "  [FAIL] "@ + it.name, 0),
        it.passed ==> text::holds_at(markdown_item(it), "- ✅ **"@ + it.name, 0),
        !it.passed ==> text::holds_at(markdown_item(it), "- ❌ **"@ + it.name, 0),
{
    reveal_strlit("  [");
    reveal_strlit("PASS");
    reveal_strlit("FAIL");
    reveal_strlit("] ");
    reveal_strlit("  [PASS] ");
    reveal_strlit("  [FAIL] ");
    reveal_strlit("- ");
    reveal_strlit("✅");
    reveal_strlit("❌");
    reveal_strlit(" **");
    reveal_strlit("- ✅ **");
    reveal_strlit("- ❌ **");
    let shown = terminal_item(it, false);
    let written = markdown_item(it);
    let a = if it.passed {
        "  [PASS] "@ + it.name
    } else {
        "  [FAIL] "@ + it.name
    };
    let b = if it.passed {
        "- ✅ **"@ + it.name
    } else {
        "- ❌ **"@ + it.name
    };
    assert("  ["@ + "PASS"@ + "] "@ =~= "  [PASS] "@);
    assert("  ["@ + "FAIL"@ + "] "@ =~= "  [FAIL] "@);
    assert("- "@ + "✅"@ + " **"@ =~= "- ✅ **"@);
    assert("- "@ + "❌"@ + " **"@ =~= "- ❌ **"@);
    assert(shown.subrange(0, a.len() as int) =~= a);
    assert(written.subrange(0, b.len() as int) =~= b);
}

} // verus!
