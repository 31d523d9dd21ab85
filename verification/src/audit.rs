//! Scans of a program's source files for lines that deserve a second look.

use crate::check;
use crate::check::{CheckItem, CheckItemView};
use crate::lists;
use crate::text;
use vstd::prelude::*;

verus! {

// ---------------------------------------------------------------------------
// Test modules
// ---------------------------------------------------------------------------

/// How often `c` occurs in `s`.
pub open spec fn occurrences(s: Seq<char>, c: char) -> nat
    decreases s.len(),
{
    if s.len() == 0 {
        0
    } else {
        occurrences(s.drop_last(), c) + (if s.last() == c {
            1nat
        } else {
            0nat
        })
    }
}

fn count_char(s: &str, c: char) -> (r: usize)
    ensures
        r == occurrences(s@, c),
        r <= s@.len(),
{
    let x = text::chars_of(s);
    let mut n: usize = 0;
    let mut i: usize = 0;
    assert(x@.take(0) =~= Seq::<char>::empty());
    while i < x.len()
        invariant
            i <= x@.len(),
            n <= i,
            n == occurrences(x@.take(i as int), c),
        decreases x.len() - i,
    {
        assert(x@.take(i + 1).drop_last() =~= x@.take(i as int));
        assert(x@.take(i + 1).last() == x@[i as int]);
        if x[i] == c {
            n += 1;
        }
        i += 1;
    }
    assert(x@.take(i as int) =~= x@);
    n
}

/// Where a reader of a source file stands after some lines.
pub struct MaskState {
    /// Whether in a test module.
    pub in_tests: bool,
    /// How deep the braces of that module nest.
    pub tests_depth: int,
    /// How deep braces nest here.
    pub depth: int,
    /// Whether a test attribute waits for its module.
    pub pending: bool,
}

/// Where the reader stands after one more line.
pub open spec fn after_line(s: MaskState, line: Seq<char>) -> MaskState {
    let t = text::trimmed(line);
    let opens = occurrences(t, '{') as int;
    let closes = occurrences(t, '}') as int;
    let pending = s.pending || text::holds_at(t, "#[cfg(test)]"@, 0);
    let enters = pending && text::holds_at(t, "mod "@, 0) && opens > 0;
    let depth = s.depth + opens - closes;
    let tests_depth = if enters {
        s.depth + opens
    } else {
        s.tests_depth
    };
    MaskState {
        in_tests: (s.in_tests || enters) && depth >= tests_depth,
        tests_depth,
        depth,
        pending: pending && !enters,
    }
}

/// Where the reader stands after these lines.
pub open spec fn after_lines(lines: Seq<Seq<char>>) -> MaskState
    decreases lines.len(),
{
    if lines.len() == 0 {
        MaskState { in_tests: false, tests_depth: 0, depth: 0, pending: false }
    } else {
        after_line(after_lines(lines.drop_last()), lines.last())
    }
}

/// For each line, whether it stands in a test module.
pub open spec fn test_mask(lines: Seq<Seq<char>>) -> Seq<bool> {
    Seq::new(lines.len(), |i: int| after_lines(lines.take(i + 1)).in_tests)
}

/// The number of characters in all lines.
pub open spec fn total_len(lines: Seq<Seq<char>>) -> nat
    decreases lines.len(),
{
    if lines.len() == 0 {
        0
    } else {
        total_len(lines.drop_last()) + lines.last().len()
    }
}

proof fn lemma_total_len_first(lines: Seq<Seq<char>>)
    requires
        lines.len() > 0,
    ensures
        total_len(lines) == lines[0].len() + total_len(lines.drop_first()),
    decreases lines.len(),
{
    if lines.len() == 1 {
        assert(lines.drop_last() =~= Seq::<Seq<char>>::empty());
        assert(lines.drop_first() =~= Seq::<Seq<char>>::empty());
        reveal_with_fuel(total_len, 2);
    } else {
        lemma_total_len_first(lines.drop_last());
        assert(lines.drop_last().drop_first() =~= lines.drop_first().drop_last());
    }
}

proof fn lemma_total_len_of_lines(s: Seq<char>)
    ensures
        total_len(text::lines(s)) <= s.len(),
    decreases s.len(),
{
    if s.len() > 0 {
        let i = text::position(s, '\n');
        let all = text::lines(s);
        if 0 <= i < s.len() {
            lemma_total_len_of_lines(s.skip(i + 1));
            lemma_total_len_first(all);
            assert(all.drop_first() =~= text::lines(s.skip(i + 1)));
        } else {
            lemma_total_len_first(all);
            assert(all.drop_first() =~= Seq::<Seq<char>>::empty());
        }
    }
}

proof fn lemma_total_len_prefix(lines: Seq<Seq<char>>, k: int)
    requires
        0 <= k <= lines.len(),
    ensures
        total_len(lines.take(k)) <= total_len(lines),
    decreases lines.len() - k,
{
    if k < lines.len() {
        lemma_total_len_prefix(lines, k + 1);
        assert(lines.take(k + 1).drop_last() =~= lines.take(k));
    } else {
        assert(lines.take(k) =~= lines);
    }
}

/// For each line of a source file, whether it stands in a test module, where
/// scans are not to look.
pub fn test_module_mask(source: &str) -> (r: Vec<bool>)
    ensures
        r@ == test_mask(text::lines(source@)),
{
    let lines = text::split_lines(source);
    let ghost lv = lines.deep_view();
    let bound: usize = text::chars_of(source).len();
    let mut mask: Vec<bool> = Vec::new();
    let mut in_tests = false;
    let mut tests_depth: i128 = 0;
    let mut depth: i128 = 0;
    let mut pending = false;
    let mut i: usize = 0;
    proof {
        lemma_total_len_of_lines(source@);
    }
    assert(lv.take(0) =~= Seq::<Seq<char>>::empty());
    while i < lines.len()
        invariant
            i <= lines@.len(),
            lv == lines.deep_view(),
            total_len(lv) <= bound,
            mask@ == test_mask(lv).take(i as int),
            after_lines(lv.take(i as int)) == (MaskState {
                in_tests,
                tests_depth: tests_depth as int,
                depth: depth as int,
                pending,
            }),
            -total_len(lv.take(i as int)) <= depth <= total_len(lv.take(i as int)),
        decreases lines.len() - i,
    {
        let ghost t = lv.take(i + 1);
        proof {
            assert(t.drop_last() =~= lv.take(i as int));
            assert(t.last() == lines@[i as int]@);
            lemma_total_len_prefix(lv, i + 1);
            let (a, b) = text::lemma_trimmed_is(t.last());
        }
        let line = text::trim(lines[i].as_str());
        assert(line@.len() <= t.last().len());
        if text::has_prefix(line.as_str(), "#[cfg(test)]") {
            pending = true;
        }
        let opens: usize = count_char(line.as_str(), '{');
        let closes: usize = count_char(line.as_str(), '}');
        if pending && text::has_prefix(line.as_str(), "mod ") && opens > 0 {
            in_tests = true;
            tests_depth = depth + opens as i128;
            pending = false;
        }
        depth = depth + opens as i128 - closes as i128;
        if in_tests && depth < tests_depth {
            in_tests = false;
        }
        mask.push(in_tests);
        proof {
            lemma_depth_bound(line@);
        }
        i += 1;
        assert(mask@ =~= test_mask(lv).take(i as int));
    }
    assert(mask@ =~= test_mask(lv));
    mask
}

/// The braces of both kinds in a text are no more than its characters.
proof fn lemma_depth_bound(s: Seq<char>)
    ensures
        occurrences(s, '{') + occurrences(s, '}') <= s.len(),
    decreases s.len(),
{
    if s.len() > 0 {
        lemma_depth_bound(s.drop_last());
    }
}

// ---------------------------------------------------------------------------
// Lines that may panic
// ---------------------------------------------------------------------------

/// The place of a line: its file and its number.
pub open spec fn site(rel: Seq<char>, number: nat) -> Seq<char> {
    rel + ":"@ + text::decimal(number)
}

fn site_text(rel: &str, number: usize) -> (r: String)
    ensures
        r@ == site(rel@, number as nat),
{
    text::concat3(rel, ":", text::number_text(number as u64).as_str())
}

/// What marks a line that may panic.
pub open spec fn panic_marks() -> Seq<Seq<char>> {
    seq![".unwrap()"@, ".expect("@]
}

/// What marks a line that may panic on a mistake of the program alone.
pub open spec fn allowed_marks() -> Seq<Seq<char>> {
    seq![
        "expect(\"at least one contributor\")"@,
        "expect(\"walked path is under content_dir\")"@,
        "expect(\"could not set up app data directories\")"@,
    ]
}

/// What marks a line that works on what a person or a file gave.
pub open spec fn input_marks() -> Seq<Seq<char>> {
    seq![
        "fs::"@,
        "read_"@,
        "Path"@,
        "path"@,
        "from_str"@,
        "parse("@,
        "last().unwrap"@,
        "first().unwrap"@,
        "parent().unwrap"@,
        "file_name().unwrap"@,
        "to_str().unwrap"@,
    ]
}

/// Whether a line may panic on what a person or a file gave.
pub open spec fn is_risky(line: Seq<char>) -> bool {
    &&& !text::holds_at(line, "//"@, 0)
    &&& text::holds_any(line, panic_marks())
    &&& !text::holds_any(line, allowed_marks())
    &&& text::holds_any(line, input_marks())
}

/// The risky lines of a file, outside its test modules.
pub open spec fn risky_in(rel: Seq<char>, lines: Seq<Seq<char>>) -> Seq<Seq<char>>
    decreases lines.len(),
{
    if lines.len() == 0 {
        Seq::empty()
    } else {
        let before = risky_in(rel, lines.drop_last());
        let t = text::trimmed(lines.last());
        if !after_lines(lines).in_tests && is_risky(t) {
            before.push(site(rel, lines.len()) + ": "@ + t)
        } else {
            before
        }
    }
}

/// The risky lines of all files.
pub open spec fn risky_sites(files: Seq<(Seq<char>, Seq<char>)>) -> Seq<Seq<char>>
    decreases files.len(),
{
    if files.len() == 0 {
        Seq::empty()
    } else {
        risky_sites(files.drop_last()) + risky_in(files.last().0, text::lines(files.last().1))
    }
}

fn risky_line(line: &str) -> (r: bool)
    ensures
        r == is_risky(line@),
{
    if text::has_prefix(line, "//") {
        return false;
    }
    let panics: Vec<&str> = vec![".unwrap()", ".expect("];
    assert(panics.deep_view() =~= panic_marks());
    if !text::has_any(line, &panics) {
        return false;
    }
    let allowed: Vec<&str> = vec![
        "expect(\"at least one contributor\")",
        "expect(\"walked path is under content_dir\")",
        "expect(\"could not set up app data directories\")",
    ];
    assert(allowed.deep_view() =~= allowed_marks());
    if text::has_any(line, &allowed) {
        return false;
    }
    let inputs: Vec<&str> = vec![
        "fs::",
        "read_",
        "Path",
        "path",
        "from_str",
        "parse(",
        "last().unwrap",
        "first().unwrap",
        "parent().unwrap",
        "file_name().unwrap",
        "to_str().unwrap",
    ];
    assert(inputs.deep_view() =~= input_marks());
    text::has_any(line, &inputs)
}

fn append_risky(out: &mut Vec<String>, rel: &str, source: &str)
    ensures
        final(out).deep_view() == old(out).deep_view() + risky_in(rel@, text::lines(source@)),
{
    let ghost start = out.deep_view();
    let lines = text::split_lines(source);
    let mask = test_module_mask(source);
    let ghost lv = lines.deep_view();
    let mut i: usize = 0;
    assert(lv.take(0) =~= Seq::<Seq<char>>::empty());
    assert(out.deep_view() =~= start + risky_in(rel@, lv.take(0)));
    while i < lines.len()
        invariant
            i <= lines@.len(),
            lv == lines.deep_view(),
            mask@ == test_mask(lv),
            out.deep_view() == start + risky_in(rel@, lv.take(i as int)),
        decreases lines.len() - i,
    {
        let ghost t = lv.take(i + 1);
        let ghost before = out.deep_view();
        assert(t.drop_last() =~= lv.take(i as int));
        assert(t.last() == lines@[i as int]@);
        assert(mask@[i as int] == after_lines(t).in_tests);
        if !mask[i] {
            let line = text::trim(lines[i].as_str());
            if risky_line(line.as_str()) {
                let found = text::concat3(
                    site_text(rel, i + 1).as_str(),
                    ": ",
                    line.as_str(),
                );
                let ghost fv = found@;
                out.push(found);
                assert(out.deep_view() =~= before.push(fv));
                assert(out.deep_view() =~= start + risky_in(rel@, t));
            }
        }
        i += 1;
    }
    assert(lv.take(i as int) =~= lv);
}

/// The outcome of the scan for risky lines.
pub open spec fn unwrap_audit(sites: Seq<Seq<char>>) -> CheckItemView {
    check::item_of(
        "unwrap()/expect() audit"@,
        "No high-risk unwrap/expect on user-controlled paths"@,
        sites.len() == 0,
        if sites.len() == 0 {
            "no risky unwrap/expect sites flagged"@
        } else {
            text::decimal(sites.len()) + " site(s) that may panic on bad input:\n"@ + text::joined(
                sites,
                "\n"@,
            )
        },
    )
}

/// Scans source files, given by path and content, for lines that may panic on
/// what a person or a file gave.
pub fn check_unwrap_audit(files: &Vec<(String, String)>) -> (r: Vec<CheckItem>)
    ensures
        r.deep_view() == seq![unwrap_audit(risky_sites(files.deep_view()))],
{
    let ghost fv = files.deep_view();
    let mut sites: Vec<String> = Vec::new();
    let mut i: usize = 0;
    assert(fv.take(0) =~= Seq::<(Seq<char>, Seq<char>)>::empty());
    assert(sites.deep_view() =~= Seq::<Seq<char>>::empty());
    while i < files.len()
        invariant
            i <= files@.len(),
            fv == files.deep_view(),
            sites.deep_view() == risky_sites(fv.take(i as int)),
        decreases files.len() - i,
    {
        assert(fv.take(i + 1).drop_last() =~= fv.take(i as int));
        assert(fv.take(i + 1).last() == files@[i as int].deep_view());
        append_risky(&mut sites, files[i].0.as_str(), files[i].1.as_str());
        i += 1;
    }
    assert(fv.take(i as int) =~= fv);
    assert(sites@.len() == sites.deep_view().len());
    let detail = if sites.len() == 0 {
        "no risky unwrap/expect sites flagged".to_owned()
    } else {
        text::concat3(
            text::number_text(sites.len() as u64).as_str(),
            " site(s) that may panic on bad input:\n",
            text::join(&sites, "\n").as_str(),
        )
    };
    let it = check::item(
        "unwrap()/expect() audit",
        "No high-risk unwrap/expect on user-controlled paths",
        sites.len() == 0,
        detail.as_str(),
    );
    let r = vec![it];
    assert(r.deep_view() =~= seq![unwrap_audit(risky_sites(fv))]);
    r
}

// ---------------------------------------------------------------------------
// Paths that hold on one platform only
// ---------------------------------------------------------------------------

/// What marks a line with a path from the root of a Unix system.
pub open spec fn root_marks() -> Seq<Seq<char>> {
    seq!["\"/home/"@, "\"/mnt/"@, "\"/usr/"@]
}

/// What marks a file that is for one platform.
pub open spec fn platform_marks() -> Seq<Seq<char>> {
    seq!["prefix.rs"@, "linux.rs"@]
}

/// What is found in a line.
pub open spec fn path_findings(rel: Seq<char>, number: nat, line: Seq<char>) -> Seq<Seq<char>> {
    let rooted = text::holds_any(line, root_marks()) && !text::holds(line, "dirs::"@);
    if text::holds_at(line, "//"@, 0) || (rooted && text::holds_any(rel, platform_marks())) {
        Seq::empty()
    } else {
        (if rooted {
            seq![site(rel, number) + ": "@ + line]
        } else {
            Seq::empty()
        }) + (if text::holds(line, "\\\\"@) && text::holds(line, "Path"@) {
            seq![site(rel, number) + ": possible Windows-only path literal: "@ + line]
        } else {
            Seq::empty()
        })
    }
}

/// What is found in a file.
pub open spec fn paths_in(rel: Seq<char>, lines: Seq<Seq<char>>) -> Seq<Seq<char>>
    decreases lines.len(),
{
    if lines.len() == 0 {
        Seq::empty()
    } else {
        paths_in(rel, lines.drop_last()) + path_findings(
            rel,
            lines.len(),
            text::trimmed(lines.last()),
        )
    }
}

/// The names of the files that hold the scans, whose own patterns are no
/// findings.
pub open spec fn own_marks() -> Seq<Seq<char>> {
    seq!["check.rs"@, "audit.rs"@]
}

/// Whether a file is one of the scans' own.
pub open spec fn is_own(rel: Seq<char>) -> bool {
    text::holds_any(rel, own_marks())
}

fn is_own_file(rel: &str) -> (r: bool)
    ensures
        r == is_own(rel@),
{
    let marks: Vec<&str> = vec!["check.rs", "audit.rs"];
    assert(marks.deep_view() =~= own_marks());
    text::has_any(rel, &marks)
}

/// What is found in all files but the scans' own.
pub open spec fn path_sites(files: Seq<(Seq<char>, Seq<char>)>) -> Seq<Seq<char>>
    decreases files.len(),
{
    if files.len() == 0 {
        Seq::empty()
    } else {
        let before = path_sites(files.drop_last());
        if is_own(files.last().0) {
            before
        } else {
            before + paths_in(files.last().0, text::lines(files.last().1))
        }
    }
}

fn append_findings(out: &mut Vec<String>, rel: &str, number: usize, line: &str)
    ensures
        final(out).deep_view() == old(out).deep_view() + path_findings(rel@, number as nat, line@),
{
    let ghost start = out.deep_view();
    if text::has_prefix(line, "//") {
        assert(out.deep_view() =~= start + path_findings(rel@, number as nat, line@));
        return ;
    }
    let roots: Vec<&str> = vec!["\"/home/", "\"/mnt/", "\"/usr/"];
    assert(roots.deep_view() =~= root_marks());
    let rooted = text::has_any(line, &roots) && !text::has_substring(line, "dirs::");
    if rooted {
        let platforms: Vec<&str> = vec!["prefix.rs", "linux.rs"];
        assert(platforms.deep_view() =~= platform_marks());
        if text::has_any(rel, &platforms) {
            assert(out.deep_view() =~= start + path_findings(rel@, number as nat, line@));
            return ;
        }
        let found = text::concat3(site_text(rel, number).as_str(), ": ", line);
        let ghost fv = found@;
        out.push(found);
        assert(out.deep_view() =~= start + seq![fv]);
    }
    let ghost middle = out.deep_view();
    if text::has_substring(line, "\\\\") && text::has_substring(line, "Path") {
        let found = text::concat3(
            site_text(rel, number).as_str(),
            ": possible Windows-only path literal: ",
            line,
        );
        let ghost fv = found@;
        out.push(found);
        assert(out.deep_view() =~= middle + seq![fv]);
    }
    assert(out.deep_view() =~= start + path_findings(rel@, number as nat, line@));
}

fn append_paths(out: &mut Vec<String>, rel: &str, source: &str)
    ensures
        final(out).deep_view() == old(out).deep_view() + paths_in(rel@, text::lines(source@)),
{
    let ghost start = out.deep_view();
    let lines = text::split_lines(source);
    let ghost lv = lines.deep_view();
    let mut i: usize = 0;
    assert(lv.take(0) =~= Seq::<Seq<char>>::empty());
    assert(out.deep_view() =~= start + paths_in(rel@, lv.take(0)));
    while i < lines.len()
        invariant
            i <= lines@.len(),
            lv == lines.deep_view(),
            out.deep_view() == start + paths_in(rel@, lv.take(i as int)),
        decreases lines.len() - i,
    {
        let ghost t = lv.take(i + 1);
        assert(t.drop_last() =~= lv.take(i as int));
        assert(t.last() == lines@[i as int]@);
        let line = text::trim(lines[i].as_str());
        append_findings(out, rel, i + 1, line.as_str());
        i += 1;
        assert(out.deep_view() =~= start + paths_in(rel@, t));
    }
    assert(lv.take(i as int) =~= lv);
}

/// The outcome of the scan for paths.
pub open spec fn path_audit(sites: Seq<Seq<char>>) -> CheckItemView {
    check::item_of(
        "Cross-platform path assumptions"@,
        "No suspicious hardcoded absolute/case-sensitive path assumptions in shared code"@,
        sites.len() == 0,
        if sites.len() == 0 {
            "clean"@
        } else {
            text::joined(sites, "\n"@)
        },
    )
}

/// Scans source files, given by path and content, for paths that hold on one
/// platform only.
pub fn check_path_assumptions(files: &Vec<(String, String)>) -> (r: Vec<CheckItem>)
    ensures
        r.deep_view() == seq![path_audit(path_sites(files.deep_view()))],
{
    let ghost fv = files.deep_view();
    let mut sites: Vec<String> = Vec::new();
    let mut i: usize = 0;
    assert(fv.take(0) =~= Seq::<(Seq<char>, Seq<char>)>::empty());
    assert(sites.deep_view() =~= Seq::<Seq<char>>::empty());
    while i < files.len()
        invariant
            i <= files@.len(),
            fv == files.deep_view(),
            sites.deep_view() == path_sites(fv.take(i as int)),
        decreases files.len() - i,
    {
        assert(fv.take(i + 1).drop_last() =~= fv.take(i as int));
        assert(fv.take(i + 1).last() == files@[i as int].deep_view());
        if !is_own_file(files[i].0.as_str()) {
            append_paths(&mut sites, files[i].0.as_str(), files[i].1.as_str());
        }
        i += 1;
    }
    assert(fv.take(i as int) =~= fv);
    assert(sites@.len() == sites.deep_view().len());
    let detail = if sites.len() == 0 {
        "clean".to_owned()
    } else {
        text::join(&sites, "\n")
    };
    let it = check::item(
        "Cross-platform path assumptions",
        "No suspicious hardcoded absolute/case-sensitive path assumptions in shared code",
        sites.len() == 0,
        detail.as_str(),
    );
    let r = vec![it];
    assert(r.deep_view() =~= seq![path_audit(path_sites(fv))]);
    r
}

// ---------------------------------------------------------------------------
// Writes whose errors tell nothing of the file
// ---------------------------------------------------------------------------

/// What marks a line that writes to the file system.
pub open spec fn write_marks() -> Seq<Seq<char>> {
    seq![
        "fs::write("@,
        "fs::copy("@,
        "fs::rename("@,
        "fs::create_dir_all("@,
        "fs::remove_file("@,
        "fs::remove_dir_all("@,
    ]
}

/// Whether a line writes to the file system and hands an error on as it is.
pub open spec fn is_bare_write(line: Seq<char>) -> bool {
    &&& !text::holds_at(line, "//"@, 0)
    &&& text::holds_any(line, write_marks())
    &&& text::ends_in(line, "?;"@)
    &&& !text::holds(line, "with_context"@)
}

/// The bare writes of a file.
pub open spec fn bare_in(rel: Seq<char>, lines: Seq<Seq<char>>) -> Seq<Seq<char>>
    decreases lines.len(),
{
    if lines.len() == 0 {
        Seq::empty()
    } else {
        let before = bare_in(rel, lines.drop_last());
        if is_bare_write(text::trimmed(lines.last())) {
            before.push(site(rel, lines.len()))
        } else {
            before
        }
    }
}

/// The bare writes of all files but the scans' own.
pub open spec fn bare_sites(files: Seq<(Seq<char>, Seq<char>)>) -> Seq<Seq<char>>
    decreases files.len(),
{
    if files.len() == 0 {
        Seq::empty()
    } else {
        let before = bare_sites(files.drop_last());
        if is_own(files.last().0) {
            before
        } else {
            before + bare_in(files.last().0, text::lines(files.last().1))
        }
    }
}

fn bare_write(line: &str) -> (r: bool)
    ensures
        r == is_bare_write(line@),
{
    let writes: Vec<&str> = vec![
        "fs::write(",
        "fs::copy(",
        "fs::rename(",
        "fs::create_dir_all(",
        "fs::remove_file(",
        "fs::remove_dir_all(",
    ];
    assert(writes.deep_view() =~= write_marks());
    !text::has_prefix(line, "//") && text::has_any(line, &writes) && text::has_suffix(line, "?;")
        && !text::has_substring(line, "with_context")
}

fn append_bare(out: &mut Vec<String>, rel: &str, source: &str)
    ensures
        final(out).deep_view() == old(out).deep_view() + bare_in(rel@, text::lines(source@)),
{
    let ghost start = out.deep_view();
    let lines = text::split_lines(source);
    let ghost lv = lines.deep_view();
    let mut i: usize = 0;
    assert(lv.take(0) =~= Seq::<Seq<char>>::empty());
    assert(out.deep_view() =~= start + bare_in(rel@, lv.take(0)));
    while i < lines.len()
        invariant
            i <= lines@.len(),
            lv == lines.deep_view(),
            out.deep_view() == start + bare_in(rel@, lv.take(i as int)),
        decreases lines.len() - i,
    {
        let ghost t = lv.take(i + 1);
        let ghost before = out.deep_view();
        assert(t.drop_last() =~= lv.take(i as int));
        assert(t.last() == lines@[i as int]@);
        let line = text::trim(lines[i].as_str());
        if bare_write(line.as_str()) {
            let found = site_text(rel, i + 1);
            let ghost fv = found@;
            out.push(found);
            assert(out.deep_view() =~= before.push(fv));
            assert(out.deep_view() =~= start + bare_in(rel@, t));
        }
        i += 1;
    }
    assert(lv.take(i as int) =~= lv);
}

/// The outcome of the scan for bare writes: a list for whoever looks into it,
/// of no more than forty.
pub open spec fn write_audit(sites: Seq<Seq<char>>) -> CheckItemView {
    check::item_of(
        "Filesystem write error context"@,
        "Filesystem writes propagate errors (advisory inventory)"@,
        true,
        if sites.len() == 0 {
            "all scanned writes include on-line context or none found"@
        } else {
            text::decimal(sites.len())
                + " write site(s) without on-line with_context (errors still propagate via ?):\n"@
                + text::joined(text::first_of(sites, 40), "\n"@)
        },
    )
}

/// Scans source files, given by path and content, for writes whose errors tell
/// nothing of the file.
pub fn check_error_context(files: &Vec<(String, String)>) -> (r: Vec<CheckItem>)
    ensures
        r.deep_view() == seq![write_audit(bare_sites(files.deep_view()))],
{
    let ghost fv = files.deep_view();
    let mut sites: Vec<String> = Vec::new();
    let mut i: usize = 0;
    assert(fv.take(0) =~= Seq::<(Seq<char>, Seq<char>)>::empty());
    assert(sites.deep_view() =~= Seq::<Seq<char>>::empty());
    while i < files.len()
        invariant
            i <= files@.len(),
            fv == files.deep_view(),
            sites.deep_view() == bare_sites(fv.take(i as int)),
        decreases files.len() - i,
    {
        assert(fv.take(i + 1).drop_last() =~= fv.take(i as int));
        assert(fv.take(i + 1).last() == files@[i as int].deep_view());
        if !is_own_file(files[i].0.as_str()) {
            append_bare(&mut sites, files[i].0.as_str(), files[i].1.as_str());
        }
        i += 1;
    }
    assert(fv.take(i as int) =~= fv);
    assert(sites@.len() == sites.deep_view().len());
    let detail = if sites.len() == 0 {
        "all scanned writes include on-line context or none found".to_owned()
    } else {
        text::concat3(
            text::number_text(sites.len() as u64).as_str(),
            " write site(s) without on-line with_context (errors still propagate via ?):\n",
            text::join(&text::first_texts(&sites, 40), "\n").as_str(),
        )
    };
    let it = check::item(
        "Filesystem write error context",
        "Filesystem writes propagate errors (advisory inventory)",
        true,
        detail.as_str(),
    );
    let r = vec![it];
    assert(r.deep_view() =~= seq![write_audit(bare_sites(fv))]);
    r
}

// ---------------------------------------------------------------------------
// Laws
// ---------------------------------------------------------------------------

/// Characters are counted wherever they stand.
pub proof fn lemma_occurrences_add_up(a: Seq<char>, b: Seq<char>, c: char)
    ensures
        occurrences(a + b, c) == occurrences(a, c) + occurrences(b, c),
        occurrences(seq![c], c) == 1,
        text::lacks(a, c) ==> occurrences(a, c) == 0,
    decreases a.len() + b.len(),
{
    let one = seq![c];
    assert(one.drop_last() =~= Seq::<char>::empty());
    assert(one.last() == c);
    assert(occurrences(one.drop_last(), c) == 0);
    if b.len() > 0 {
        lemma_occurrences_add_up(a, b.drop_last(), c);
        assert((a + b).drop_last() =~= a + b.drop_last());
        assert((a + b).last() == b.last());
    } else {
        assert(a + b =~= a);
        if a.len() > 0 && text::lacks(a, c) {
            let t = a.drop_last();
            assert forall|j: int| 0 <= j < t.len() implies #[trigger] t[j] != c by {
                assert(t[j] == a[j]);
            }
            lemma_occurrences_add_up(t, Seq::empty(), c);
            assert(a[a.len() - 1] == a.last());
        }
    }
}

/// How deep braces nest after some lines: each line adds what it opens and takes
/// what it closes.
pub proof fn lemma_depth_follows_braces(lines: Seq<Seq<char>>, line: Seq<char>)
    ensures
        after_lines(lines.push(line)).depth == after_lines(lines).depth + occurrences(
            text::trimmed(line),
            '{',
        ) - occurrences(text::trimmed(line), '}'),
        after_lines(Seq::empty()).depth == 0,
        !after_lines(Seq::empty()).in_tests,
{
    assert(lines.push(line).drop_last() =~= lines);
    assert(lines.push(line).last() == line);
}

/// A test module is masked from its heading to the line that closes it, and what
/// follows is not: line `a` is the test attribute, the next one opens the
/// module, and line `e` is the first behind it after which braces nest less
/// deeply than in the module.
pub proof fn lemma_test_module_is_masked(lines: Seq<Seq<char>>, a: int, e: int, k: int)
    requires
        0 <= a,
        a + 1 < e < lines.len(),
        !after_lines(lines.take(a)).in_tests,
        text::holds_at(text::trimmed(lines[a]), "#[cfg(test)]"@, 0),
        !text::holds_at(text::trimmed(lines[a]), "mod "@, 0),
        text::holds_at(text::trimmed(lines[a + 1]), "mod "@, 0),
        occurrences(text::trimmed(lines[a + 1]), '{') > 0,
        occurrences(text::trimmed(lines[a + 1]), '}') == 0,
        forall|j: int|
            a + 1 < j <= e ==> !text::holds_at(
                text::trimmed(#[trigger] lines[j]),
                "#[cfg(test)]"@,
                0,
            ),
        forall|j: int|
            a + 1 < j < e ==> after_lines(#[trigger] lines.take(j + 1)).depth >= after_lines(
                lines.take(a + 2),
            ).depth,
        after_lines(lines.take(e + 1)).depth < after_lines(lines.take(a + 2)).depth,
        a + 1 <= k <= e,
    ensures
        k < e ==> test_mask(lines)[k],
        !test_mask(lines)[e],
{
    lemma_in_test_module(lines, a, e, if k < e {
        k
    } else {
        e - 1
    });
    lemma_in_test_module(lines, a, e, e - 1);
    lemma_one_more_line(lines, e);
}

proof fn lemma_one_more_line(lines: Seq<Seq<char>>, j: int)
    requires
        0 <= j < lines.len(),
    ensures
        after_lines(lines.take(j + 1)) == after_line(after_lines(lines.take(j)), lines[j]),
{
    assert(lines.take(j + 1).drop_last() =~= lines.take(j));
    assert(lines.take(j + 1).last() == lines[j]);
}

proof fn lemma_in_test_module(lines: Seq<Seq<char>>, a: int, e: int, k: int)
    requires
        0 <= a,
        a + 1 < e < lines.len(),
        !after_lines(lines.take(a)).in_tests,
        text::holds_at(text::trimmed(lines[a]), "#[cfg(test)]"@, 0),
        !text::holds_at(text::trimmed(lines[a]), "mod "@, 0),
        text::holds_at(text::trimmed(lines[a + 1]), "mod "@, 0),
        occurrences(text::trimmed(lines[a + 1]), '{') > 0,
        occurrences(text::trimmed(lines[a + 1]), '}') == 0,
        forall|j: int|
            a + 1 < j <= e ==> !text::holds_at(
                text::trimmed(#[trigger] lines[j]),
                "#[cfg(test)]"@,
                0,
            ),
        forall|j: int|
            a + 1 < j < e ==> after_lines(#[trigger] lines.take(j + 1)).depth >= after_lines(
                lines.take(a + 2),
            ).depth,
        a + 1 <= k < e,
    ensures
        ({
            let s = after_lines(lines.take(k + 1));
            &&& s.in_tests
            &&& !s.pending
            &&& s.tests_depth == after_lines(lines.take(a + 2)).depth
        }),
    decreases k,
{
    if k == a + 1 {
        lemma_one_more_line(lines, a);
        lemma_one_more_line(lines, a + 1);
        assert(after_lines(lines.take(a + 1)).pending);
    } else {
        lemma_in_test_module(lines, a, e, k - 1);
        lemma_one_more_line(lines, k);
        assert(!text::holds_at(text::trimmed(lines[k]), "#[cfg(test)]"@, 0));
        assert(after_lines(lines.take(k + 1)).depth >= after_lines(lines.take(a + 2)).depth);
    }
}

/// Every risky line outside of test modules is told of, with its file and its
/// number, and no other line is.
pub proof fn lemma_every_risky_line_is_told(rel: Seq<char>, lines: Seq<Seq<char>>)
    ensures
        risky_in(rel, lines) == lists::places(lines.len()).filter(
            |k: int| !test_mask(lines)[k] && is_risky(text::trimmed(lines[k])),
        ).map_values(
            |k: int|
                rel + ":"@ + text::decimal((k + 1) as nat) + ": "@ + text::trimmed(lines[k]),
        ),
        bare_in(rel, lines) == lists::places(lines.len()).filter(
            |k: int| is_bare_write(text::trimmed(lines[k])),
        ).map_values(|k: int| rel + ":"@ + text::decimal((k + 1) as nat)),
{
    let p = |k: int| !test_mask(lines)[k] && is_risky(text::trimmed(lines[k]));
    let f = |k: int| rel + ":"@ + text::decimal((k + 1) as nat) + ": "@ + text::trimmed(lines[k]);
    let q = |k: int| is_bare_write(text::trimmed(lines[k]));
    let g = |k: int| rel + ":"@ + text::decimal((k + 1) as nat);
    lemma_lines_told_upto(rel, lines, p, f, q, g, lines.len());
    assert(lines.take(lines.len() as int) =~= lines);
}

proof fn lemma_lines_told_upto(
    rel: Seq<char>,
    lines: Seq<Seq<char>>,
    p: spec_fn(int) -> bool,
    f: spec_fn(int) -> Seq<char>,
    q: spec_fn(int) -> bool,
    g: spec_fn(int) -> Seq<char>,
    n: nat,
)
    requires
        n <= lines.len(),
        forall|k: int|
            0 <= k < lines.len() ==> #[trigger] p(k) == (!test_mask(lines)[k] && is_risky(
                text::trimmed(lines[k]),
            )),
        forall|k: int|
            0 <= k < lines.len() ==> #[trigger] f(k) == site(rel, (k + 1) as nat) + ": "@
                + text::trimmed(lines[k]),
        forall|k: int|
            0 <= k < lines.len() ==> #[trigger] q(k) == is_bare_write(text::trimmed(lines[k])),
        forall|k: int| 0 <= k < lines.len() ==> #[trigger] g(k) == site(rel, (k + 1) as nat),
    ensures
        risky_in(rel, lines.take(n as int)) == lists::places(n).filter(p).map_values(f),
        bare_in(rel, lines.take(n as int)) == lists::places(n).filter(q).map_values(g),
    decreases n,
{
    lists::lemma_places_filter_map((n - 1) as nat, p, f);
    lists::lemma_places_filter_map((n - 1) as nat, q, g);
    if n > 0 {
        let m = (n - 1) as nat;
        lemma_lines_told_upto(rel, lines, p, f, q, g, m);
        let here = lines.take(n as int);
        assert(here.drop_last() =~= lines.take(m as int));
        assert(here.last() == lines[m as int]);
        assert(p(m as int) == (!test_mask(lines)[m as int] && is_risky(
            text::trimmed(lines[m as int]),
        )));
        assert(test_mask(lines)[m as int] == after_lines(here).in_tests);
        assert(f(m as int) == site(rel, n) + ": "@ + text::trimmed(lines[m as int]));
        assert(q(m as int) == is_bare_write(text::trimmed(lines[m as int])));
        assert(g(m as int) == site(rel, n));
    }
}

/// Every line is looked at for paths.
pub proof fn lemma_every_line_is_looked_at_for_paths(rel: Seq<char>, lines: Seq<Seq<char>>)
    ensures
        paths_in(rel, lines) == lists::places(lines.len()).map_values(
            |k: int| path_findings(rel, (k + 1) as nat, text::trimmed(lines[k])),
        ).flatten(),
    decreases lines.len(),
{
    let f = |k: int| path_findings(rel, (k + 1) as nat, text::trimmed(lines[k]));
    let p = lists::places(lines.len());
    if lines.len() == 0 {
        assert(p.map_values(f).flatten() =~= Seq::<Seq<char>>::empty());
    } else {
        let t = lines.drop_last();
        let m = t.len();
        let q = lists::places(m);
        lemma_every_line_is_looked_at_for_paths(rel, t);
        let g = |k: int| path_findings(rel, (k + 1) as nat, text::trimmed(t[k]));
        assert forall|k: int| 0 <= k < m implies #[trigger] q.map_values(g)[k] == q.map_values(
            f,
        )[k] by {
            assert(t[k] == lines[k]);
        }
        assert(q.map_values(g) =~= q.map_values(f));
        lists::lemma_places_push(m);
        assert(p.map_values(f) =~= q.map_values(f).push(f(m as int)));
        lists::lemma_flatten_push(q.map_values(f), f(m as int));
    }
}

/// Every file is scanned, but for the scans' own where paths and writes are
/// looked for.
pub proof fn lemma_every_file_is_scanned(files: Seq<(Seq<char>, Seq<char>)>)
    ensures
        risky_sites(files) == files.map_values(
            |f: (Seq<char>, Seq<char>)| risky_in(f.0, text::lines(f.1)),
        ).flatten(),
        path_sites(files) == files.filter(
            |f: (Seq<char>, Seq<char>)|
                !text::holds(f.0, "check.rs"@) && !text::holds(f.0, "audit.rs"@),
        ).map_values(|f: (Seq<char>, Seq<char>)| paths_in(f.0, text::lines(f.1))).flatten(),
        bare_sites(files) == files.filter(
            |f: (Seq<char>, Seq<char>)|
                !text::holds(f.0, "check.rs"@) && !text::holds(f.0, "audit.rs"@),
        ).map_values(|f: (Seq<char>, Seq<char>)| bare_in(f.0, text::lines(f.1))).flatten(),
    decreases files.len(),
{
    let own = |f: (Seq<char>, Seq<char>)|
        !text::holds(f.0, "check.rs"@) && !text::holds(f.0, "audit.rs"@);
    let r = |f: (Seq<char>, Seq<char>)| risky_in(f.0, text::lines(f.1));
    let p = |f: (Seq<char>, Seq<char>)| paths_in(f.0, text::lines(f.1));
    let b = |f: (Seq<char>, Seq<char>)| bare_in(f.0, text::lines(f.1));
    let none = Seq::<Seq<Seq<char>>>::empty();
    assert(none.flatten() =~= Seq::<Seq<char>>::empty());
    if files.len() == 0 {
        assert(files.map_values(r) =~= none);
        lists::lemma_filter_map_none(files, own, p);
        lists::lemma_filter_map_none(files, own, b);
    } else {
        let t = files.drop_last();
        let last = files.last();
        lemma_every_file_is_scanned(t);
        assert(t.push(last) =~= files);
        assert(files.map_values(r) =~= t.map_values(r).push(r(last)));
        lists::lemma_flatten_push(t.map_values(r), r(last));
        lists::lemma_filter_map_push(t, last, own, p);
        lists::lemma_filter_map_push(t, last, own, b);
        lists::lemma_flatten_push(t.filter(own).map_values(p), p(last));
        lists::lemma_flatten_push(t.filter(own).map_values(b), b(last));
        let marks = own_marks();
        assert(marks[0] == "check.rs"@ && marks[1] == "audit.rs"@);
        if is_own(last.0) {
            let k = choose|k: int| 0 <= k < marks.len() && text::holds(last.0, #[trigger] marks[k]);
            assert(0 <= k < 2);
        }
        assert(own(last) == !is_own(last.0));
    }
}

/// A line that unwraps what was read or given is risky, unless it is a comment
/// or one of the few that fail on a mistake of the program alone.
pub proof fn lemma_what_is_risky(line: Seq<char>, mark: Seq<char>)
    requires
        seq![
            "fs::"@, "read_"@, "Path"@, "path"@, "from_str"@, "parse("@, "last().unwrap"@,
            "first().unwrap"@, "parent().unwrap"@, "file_name().unwrap"@, "to_str().unwrap"@,
        ].contains(mark),
        text::holds(line, mark),
        text::holds(line, ".unwrap()"@) || text::holds(line, ".expect("@),
        !text::holds_at(line, "//"@, 0),
        !text::holds(line, "expect(\"at least one contributor\")"@),
        !text::holds(line, "expect(\"walked path is under content_dir\")"@),
        !text::holds(line, "expect(\"could not set up app data directories\")"@),
    ensures
        is_risky(line),
{
    let given = seq![
        "fs::"@, "read_"@, "Path"@, "path"@, "from_str"@, "parse("@, "last().unwrap"@,
        "first().unwrap"@, "parent().unwrap"@, "file_name().unwrap"@, "to_str().unwrap"@,
    ];
    let inputs = input_marks();
    assert(given =~= inputs);
    let k = choose|k: int| 0 <= k < given.len() && given[k] == mark;
    assert(inputs[k] == mark);
    let panics = panic_marks();
    assert(panics[0] == ".unwrap()"@ && panics[1] == ".expect("@);
    let allowed = allowed_marks();
    assert(allowed[0] == "expect(\"at least one contributor\")"@ && allowed[1]
        == "expect(\"walked path is under content_dir\")"@ && allowed[2]
        == "expect(\"could not set up app data directories\")"@);
    if text::holds_any(line, allowed) {
        let j = choose|j: int| 0 <= j < allowed.len() && text::holds(line, #[trigger] allowed[j]);
        assert(0 <= j < 3);
    }
}

/// A comment, and a line that neither unwraps nor expects, is never risky.
pub proof fn lemma_what_is_not_risky(line: Seq<char>)
    requires
        text::holds_at(line, "//"@, 0) || (!text::holds(line, ".unwrap()"@) && !text::holds(
            line,
            ".expect("@,
        )),
    ensures
        !is_risky(line),
{
    let panics = panic_marks();
    assert(panics[0] == ".unwrap()"@ && panics[1] == ".expect("@);
    if text::holds_any(line, panics) {
        let j = choose|j: int| 0 <= j < panics.len() && text::holds(line, #[trigger] panics[j]);
        assert(0 <= j < 2);
    }
}

/// A line that writes and hands an error on without saying of which file is a
/// bare write; one that says so, or does not hand it on, is none.
pub proof fn lemma_what_is_a_bare_write(line: Seq<char>, mark: Seq<char>)
    requires
        seq![
            "fs::write("@, "fs::copy("@, "fs::rename("@, "fs::create_dir_all("@,
            "fs::remove_file("@, "fs::remove_dir_all("@,
        ].contains(mark),
        text::holds(line, mark),
    ensures
        is_bare_write(line) <==> !text::holds_at(line, "//"@, 0) && text::ends_in(line, "?;"@)
            && !text::holds(line, "with_context"@),
{
    let given = seq![
        "fs::write("@, "fs::copy("@, "fs::rename("@, "fs::create_dir_all("@,
        "fs::remove_file("@, "fs::remove_dir_all("@,
    ];
    let marks = write_marks();
    assert(given =~= marks);
    let k = choose|k: int| 0 <= k < given.len() && given[k] == mark;
    assert(marks[k] == mark);
}

/// A line with a path from the root of a Unix system is found, outside of
/// comments, of files that are for one platform, and of lines that ask the
/// system for its folders.
pub proof fn lemma_rooted_paths_are_found(
    rel: Seq<char>,
    number: nat,
    line: Seq<char>,
    mark: Seq<char>,
)
    requires
        seq!["\"/home/"@, "\"/mnt/"@, "\"/usr/"@].contains(mark),
        text::holds(line, mark),
        !text::holds(line, "dirs::"@),
        !text::holds_at(line, "//"@, 0),
    ensures
        text::holds(rel, "prefix.rs"@) || text::holds(rel, "linux.rs"@) ==> path_findings(
            rel,
            number,
            line,
        ).len() == 0,
        !text::holds(rel, "prefix.rs"@) && !text::holds(rel, "linux.rs"@) ==> path_findings(
            rel,
            number,
            line,
        ).len() > 0 && path_findings(rel, number, line)[0] == rel + ":"@ + text::decimal(number)
            + ": "@ + line,
{
    let given = seq!["\"/home/"@, "\"/mnt/"@, "\"/usr/"@];
    let marks = root_marks();
    assert(given =~= marks);
    let k = choose|k: int| 0 <= k < given.len() && given[k] == mark;
    assert(marks[k] == mark);
    let platforms = platform_marks();
    assert(platforms[0] == "prefix.rs"@ && platforms[1] == "linux.rs"@);
    if text::holds_any(rel, platforms) {
        let j = choose|j: int| 0 <= j < platforms.len() && text::holds(rel, #[trigger] platforms[j]);
        assert(0 <= j < 2);
    }
}

/// The scans for risky lines and for paths pass exactly where they find nothing.
pub proof fn lemma_when_scans_pass(sites: Seq<Seq<char>>)
    ensures
        unwrap_audit(sites).passed <==> sites.len() == 0,
        path_audit(sites).passed <==> sites.len() == 0,
        write_audit(sites).passed,
{
}

} // verus!
