//! Slash-separated paths as text.

use crate::text;
use vstd::prelude::*;

verus! {

/// `rel` under `base`: `base` itself plays no part where `rel` is absolute.
pub open spec fn joined(base: Seq<char>, rel: Seq<char>) -> Seq<char> {
    if base.len() == 0 || (rel.len() > 0 && rel[0] == '/') {
        rel
    } else if base.last() == '/' {
        base + rel
    } else {
        base + seq!['/'] + rel
    }
}

/// The condition to name a step of a path: neither empty nor a single dot.
pub open spec fn is_step() -> spec_fn(Seq<char>) -> bool {
    |c: Seq<char>| c.len() > 0 && c != seq!['.']
}

/// The steps of a path.
pub open spec fn steps(path: Seq<char>) -> Seq<Seq<char>> {
    text::pieces(path, '/').filter(is_step())
}

/// The last step of a path, unless it leads up.
pub open spec fn file_name(path: Seq<char>) -> Option<Seq<char>> {
    let s = steps(path);
    if s.len() == 0 || s.last() == seq!['.', '.'] {
        None
    } else {
        Some(s.last())
    }
}

/// The position of the last `c` in `s`, or -1.
pub open spec fn last_position(s: Seq<char>, c: char) -> int
    decreases s.len(),
{
    if s.len() == 0 {
        -1
    } else if s.last() == c {
        s.len() - 1
    } else {
        last_position(s.drop_last(), c)
    }
}

/// What follows the last dot of a file name, where there is a dot that is not
/// the first character.
pub open spec fn extension_of(name: Seq<char>) -> Option<Seq<char>> {
    let i = last_position(name, '.');
    if i <= 0 {
        None
    } else {
        Some(name.skip(i + 1))
    }
}

/// A file name without its extension.
pub open spec fn stem_of(name: Seq<char>) -> Seq<char> {
    let i = last_position(name, '.');
    if i <= 0 {
        name
    } else {
        name.take(i)
    }
}

/// The extension of the file that a path names.
pub open spec fn extension(path: Seq<char>) -> Option<Seq<char>> {
    match file_name(path) {
        Some(name) => extension_of(name),
        None => None,
    }
}

/// How many characters of a path do not belong to a step after its start: the
/// slash of an absolute path, and a single dot as the first step.
pub open spec fn head_len(path: Seq<char>) -> int {
    if path.len() > 0 && (path[0] == '/' || (path[0] == '.' && (path.len() == 1 || path[1]
        == '/'))) {
        1
    } else {
        0
    }
}

/// A path without slashes and single dots behind its last step.
pub open spec fn settled(path: Seq<char>) -> Seq<char>
    decreases path.len(),
{
    let n = path.len() as int;
    if n > head_len(path) && (path[n - 1] == '/' || (n >= 2 && path[n - 1] == '.' && path[n - 2]
        == '/')) {
        settled(path.drop_last())
    } else {
        path
    }
}

/// The folder that holds what a path names: the path without its last step, and
/// without slashes and single dots before and behind that. The root and the
/// empty path have none.
pub open spec fn parent(path: Seq<char>) -> Option<Seq<char>> {
    let p = settled(path);
    if p.len() == 0 || p == seq!['/'] {
        None
    } else if p == seq!['.'] {
        Some(Seq::empty())
    } else {
        Some(settled(p.take(last_position(p, '/') + 1)))
    }
}

/// `rel` under `base`.
pub fn join(base: &str, rel: &str) -> (r: String)
    ensures
        r@ == joined(base@, rel@),
{
    let b = text::chars_of(base);
    let x = text::chars_of(rel);
    if b.len() == 0 || (x.len() > 0 && x[0] == '/') {
        return rel.to_owned();
    }
    if b[b.len() - 1] == '/' {
        return text::concat(base, rel);
    }
    proof {
        reveal_strlit("/");
    }
    assert("/"@ =~= seq!['/']);
    text::concat3(base, "/", rel)
}

/// `b` under `a`, and `c` under that.
pub fn join3(a: &str, b: &str, c: &str) -> (r: String)
    ensures
        r@ == joined(joined(a@, b@), c@),
{
    join(join(a, b).as_str(), c)
}

proof fn lemma_last_position(s: Seq<char>, c: char, i: int)
    requires
        -1 <= i < s.len(),
        i >= 0 ==> s[i] == c,
        forall|j: int| i < j < s.len() ==> #[trigger] s[j] != c,
    ensures
        last_position(s, c) == i,
    decreases s.len(),
{
    if s.len() > 0 && s.last() != c {
        let t = s.drop_last();
        assert forall|j: int| i < j < t.len() implies #[trigger] t[j] != c by {
            assert(t[j] == s[j]);
        }
        lemma_last_position(t, c, i);
    } else if s.len() > 0 && i != s.len() - 1 {
        assert(s[s.len() - 1] != c);
    }
}

/// One more than the position of the last `c` among the first `n` characters, or
/// 0.
fn after_last_before(s: &Vec<char>, c: char, n: usize) -> (i: usize)
    requires
        n <= s@.len(),
    ensures
        i <= n,
        i - 1 == last_position(s@.take(n as int), c),
{
    let mut i: usize = n;
    while i > 0 && s[i - 1] != c
        invariant
            i <= n <= s@.len(),
            forall|j: int| i <= j < n ==> #[trigger] s@[j] != c,
        decreases i,
    {
        i -= 1;
    }
    proof {
        let t = s@.take(n as int);
        assert forall|j: int| i - 1 < j < t.len() implies #[trigger] t[j] != c by {
            assert(t[j] == s@[j]);
        }
        lemma_last_position(t, c, i - 1);
    }
    i
}

/// One more than the position of the last `c`, or 0.
fn after_last(s: &Vec<char>, c: char) -> (i: usize)
    ensures
        i <= s@.len(),
        i - 1 == last_position(s@, c),
{
    assert(s@.take(s@.len() as int) =~= s@);
    after_last_before(s, c, s.len())
}

/// What follows the last dot of a file name.
pub fn name_extension(name: &str) -> (r: Option<String>)
    ensures
        match r {
            Some(e) => extension_of(name@) == Some(e@),
            None => extension_of(name@) is None,
        },
{
    let x = text::chars_of(name);
    let i: usize = after_last(&x, '.');
    if i <= 1 {
        return None;
    }
    assert(x@.subrange(i as int, x@.len() as int) =~= x@.skip(i as int));
    Some(text::slice_text(&x, i, x.len()))
}

/// A file name without its extension.
pub fn name_stem(name: &str) -> (r: String)
    ensures
        r@ == stem_of(name@),
{
    let x = text::chars_of(name);
    let i: usize = after_last(&x, '.');
    if i <= 1 {
        return name.to_owned();
    }
    assert(x@.subrange(0, i - 1) =~= x@.take(i - 1));
    text::slice_text(&x, 0, i - 1)
}

/// The last step of a path, unless it leads up.
pub fn last_step(path: &str) -> (r: Option<String>)
    ensures
        match r {
            Some(n) => file_name(path@) == Some(n@),
            None => file_name(path@) is None,
        },
{
    let parts = text::split(path, '/');
    let ghost all = parts.deep_view();
    let mut i: usize = parts.len();
    assert(all.take(i as int) =~= all);
    proof {
        reveal_strlit(".");
        reveal_strlit("..");
    }
    assert("."@ =~= seq!['.']);
    assert(".."@ =~= seq!['.', '.']);
    while i > 0
        invariant
            i <= parts@.len(),
            all == parts.deep_view(),
            all == text::pieces(path@, '/'),
            "."@ == seq!['.'],
            ".."@ == seq!['.', '.'],
            steps(path@) == all.take(i as int).filter(is_step()),
        decreases i,
    {
        let ghost t = all.take(i as int);
        reveal(Seq::filter);
        assert(t.drop_last() =~= all.take(i - 1));
        assert(t.last() == parts@[i - 1]@);
        let part = &parts[i - 1];
        if !part.as_str().is_empty() && !text::same_text(part.as_str(), ".") {
            assert(steps(path@).last() == part@);
            if text::same_text(part.as_str(), "..") {
                return None;
            }
            return Some(part.clone());
        }
        i -= 1;
    }
    reveal(Seq::filter);
    None
}

/// The extension of the file that a path names.
pub fn path_extension(path: &str) -> (r: Option<String>)
    ensures
        match r {
            Some(e) => extension(path@) == Some(e@),
            None => extension(path@) is None,
        },
{
    match last_step(path) {
        Some(name) => name_extension(name.as_str()),
        None => None,
    }
}

/// The length of what is left of the first `n` characters when they are settled.
fn settled_len(s: &Vec<char>, n: usize) -> (i: usize)
    requires
        n <= s@.len(),
    ensures
        i <= n,
        settled(s@.take(n as int)) == s@.take(i as int),
{
    let mut i: usize = n;
    loop
        invariant
            i <= n <= s@.len(),
            settled(s@.take(n as int)) == settled(s@.take(i as int)),
        decreases i,
    {
        let ghost t = s@.take(i as int);
        let head: usize = if i > 0 && (s[0] == '/' || (s[0] == '.' && (i == 1 || s[1] == '/'))) {
            1
        } else {
            0
        };
        assert(head == head_len(t));
        if i > head && (s[i - 1] == '/' || (i >= 2 && s[i - 1] == '.' && s[i - 2] == '/')) {
            assert(t.drop_last() =~= s@.take(i - 1));
            i -= 1;
        } else {
            return i;
        }
    }
}

/// The folder that holds what a path names.
pub fn parent_of(path: &str) -> (r: Option<String>)
    ensures
        match r {
            Some(p) => parent(path@) == Some(p@),
            None => parent(path@) is None,
        },
{
    let x = text::chars_of(path);
    assert(x@.take(x@.len() as int) =~= x@);
    let n: usize = settled_len(&x, x.len());
    let ghost p = x@.take(n as int);
    if n == 0 {
        return None;
    }
    if n == 1 && x[0] == '/' {
        assert(p =~= seq!['/']);
        return None;
    }
    if n == 1 && x[0] == '.' {
        assert(p =~= seq!['.']);
        assert(""@ =~= Seq::<char>::empty()) by {
            reveal_strlit("");
        }
        return Some(String::new());
    }
    let i: usize = after_last_before(&x, '/', n);
    let q: usize = settled_len(&x, i);
    proof {
        assert(p.take(i as int) =~= x@.take(i as int));
        assert(p != seq!['/']) by {
            if p == seq!['/'] {
                assert(p[0] == '/');
            }
        }
        assert(p != seq!['.']) by {
            if p == seq!['.'] {
                assert(p[0] == '.');
            }
        }
        assert(x@.subrange(0, q as int) =~= x@.take(q as int));
    }
    Some(text::slice_text(&x, 0, q))
}

/// A path with its file's extension replaced, or added where there is none. A
/// path that names no file is left as it is.
pub open spec fn with_extension(path: Seq<char>, ext: Seq<char>) -> Seq<char> {
    let p = settled(path);
    let i = last_position(p, '/') + 1;
    if file_name(path) is None {
        path
    } else {
        p.take(i) + stem_of(p.skip(i)) + "."@ + ext
    }
}

/// A path with its file's extension replaced, or added where there is none.
pub fn replace_extension(path: &str, ext: &str) -> (r: String)
    ensures
        r@ == with_extension(path@, ext@),
{
    if last_step(path).is_none() {
        return path.to_owned();
    }
    let x = text::chars_of(path);
    assert(x@.take(x@.len() as int) =~= x@);
    let n: usize = settled_len(&x, x.len());
    let ghost p = x@.take(n as int);
    let i: usize = after_last_before(&x, '/', n);
    proof {
        assert(p.take(i as int) =~= x@.subrange(0, i as int));
        assert(p.skip(i as int) =~= x@.subrange(i as int, n as int));
    }
    let stem = name_stem(text::slice_text(&x, i, n).as_str());
    let mut out = text::slice_text(&x, 0, i);
    out.append(stem.as_str());
    out.append(".");
    out.append(ext);
    out
}

/// Whether two paths are the same step by step: slashes at the end, doubled
/// slashes and single dots after the start make no difference.
pub open spec fn same_path(a: Seq<char>, b: Seq<char>) -> bool {
    &&& holds_start(a, '/') == holds_start(b, '/')
    &&& starts_with_dot(a) == starts_with_dot(b)
    &&& steps(a) == steps(b)
}

pub open spec fn holds_start(s: Seq<char>, c: char) -> bool {
    s.len() > 0 && s[0] == c
}

/// Whether the first step of a path is a single dot.
pub open spec fn starts_with_dot(p: Seq<char>) -> bool {
    text::pieces(p, '/')[0] == seq!['.']
}

/// The steps of a path.
pub fn split_steps(path: &str) -> (r: Vec<String>)
    ensures
        r.deep_view() == steps(path@),
{
    let parts = text::split(path, '/');
    let ghost all = parts.deep_view();
    let mut out: Vec<String> = Vec::new();
    let mut i: usize = 0;
    proof {
        reveal_strlit(".");
    }
    assert("."@ =~= seq!['.']);
    reveal(Seq::filter);
    assert(all.take(0) =~= Seq::<Seq<char>>::empty());
    assert(out.deep_view() =~= Seq::<Seq<char>>::empty());
    while i < parts.len()
        invariant
            i <= parts@.len(),
            all == parts.deep_view(),
            "."@ == seq!['.'],
            out.deep_view() == all.take(i as int).filter(is_step()),
        decreases parts.len() - i,
    {
        reveal(Seq::filter);
        assert(all.take(i + 1).drop_last() =~= all.take(i as int));
        assert(all.take(i + 1).last() == parts@[i as int]@);
        if !parts[i].as_str().is_empty() && !text::same_text(parts[i].as_str(), ".") {
            let ghost before = out.deep_view();
            out.push(parts[i].clone());
            assert(out.deep_view() =~= before.push(all[i as int]));
        }
        i += 1;
    }
    assert(all.take(i as int) =~= all);
    out
}

fn dot_first(path: &str) -> (r: bool)
    ensures
        r == starts_with_dot(path@),
{
    let parts = text::split(path, '/');
    proof {
        reveal_strlit(".");
        text::lemma_pieces_some(path@, '/');
        assert(parts.deep_view().len() == parts@.len());
    }
    assert("."@ =~= seq!['.']);
    text::same_text(parts[0].as_str(), ".")
}

fn slash_first(path: &str) -> (r: bool)
    ensures
        r == holds_start(path@, '/'),
{
    let x = text::chars_of(path);
    x.len() > 0 && x[0] == '/'
}

fn same_list(a: &Vec<String>, b: &Vec<String>) -> (r: bool)
    ensures
        r == (a.deep_view() == b.deep_view()),
{
    let ghost av = a.deep_view();
    let ghost bv = b.deep_view();
    if a.len() != b.len() {
        assert(av.len() != bv.len());
        return false;
    }
    let mut i: usize = 0;
    while i < a.len()
        invariant
            i <= a@.len(),
            a@.len() == b@.len(),
            av == a.deep_view(),
            bv == b.deep_view(),
            forall|k: int| 0 <= k < i ==> #[trigger] av[k] == bv[k],
        decreases a.len() - i,
    {
        if !text::same_text(a[i].as_str(), b[i].as_str()) {
            assert(av[i as int] != bv[i as int]);
            return false;
        }
        i += 1;
    }
    assert(av =~= bv);
    true
}

/// Whether two paths are the same step by step.
pub fn are_same(a: &str, b: &str) -> (r: bool)
    ensures
        r == same_path(a@, b@),
{
    slash_first(a) == slash_first(b) && dot_first(a) == dot_first(b) && same_list(
        &split_steps(a),
        &split_steps(b),
    )
}

/// Whether `a` comes before `b` step by step: at the first step where they
/// differ, or because it ends there.
pub open spec fn steps_less(a: Seq<Seq<char>>, b: Seq<Seq<char>>) -> bool
    decreases a.len(),
{
    if a.len() == 0 {
        b.len() > 0
    } else if b.len() == 0 {
        false
    } else if a[0] != b[0] {
        text::text_less(a[0], b[0])
    } else {
        steps_less(a.drop_first(), b.drop_first())
    }
}

/// Whether the path `a` comes before the path `b`, both below one folder. What
/// lies in a folder comes right behind it: `a/b` comes before `a.b`.
pub open spec fn path_less(a: Seq<char>, b: Seq<char>) -> bool {
    steps_less(steps(a), steps(b))
}

pub proof fn lemma_steps_less_irreflexive(a: Seq<Seq<char>>)
    ensures
        !steps_less(a, a),
    decreases a.len(),
{
    if a.len() > 0 {
        lemma_steps_less_irreflexive(a.drop_first());
    }
}

pub proof fn lemma_steps_less_transitive(
    a: Seq<Seq<char>>,
    b: Seq<Seq<char>>,
    c: Seq<Seq<char>>,
)
    requires
        steps_less(a, b),
        steps_less(b, c),
    ensures
        steps_less(a, c),
    decreases a.len(),
{
    if a.len() > 0 && b.len() > 0 && c.len() > 0 {
        if a[0] == b[0] && b[0] == c[0] {
            lemma_steps_less_transitive(a.drop_first(), b.drop_first(), c.drop_first());
        } else if a[0] != b[0] && b[0] != c[0] {
            text::lemma_text_less_transitive(a[0], b[0], c[0]);
            text::lemma_text_less_irreflexive(a[0]);
        }
    }
}

pub proof fn lemma_steps_less_total(a: Seq<Seq<char>>, b: Seq<Seq<char>>)
    ensures
        steps_less(a, b) || a == b || steps_less(b, a),
    decreases a.len(),
{
    if a.len() > 0 && b.len() > 0 {
        if a[0] == b[0] {
            lemma_steps_less_total(a.drop_first(), b.drop_first());
            if a.drop_first() == b.drop_first() {
                assert(a =~= seq![a[0]] + a.drop_first());
                assert(b =~= seq![b[0]] + b.drop_first());
            }
        } else {
            text::lemma_text_less_total(a[0], b[0]);
        }
    } else if a.len() == 0 && b.len() == 0 {
        assert(a =~= b);
    }
}

proof fn lemma_steps_less_from(a: Seq<Seq<char>>, b: Seq<Seq<char>>, i: int)
    requires
        0 <= i <= a.len(),
        i <= b.len(),
        forall|j: int| 0 <= j < i ==> #[trigger] a[j] == b[j],
    ensures
        steps_less(a, b) == steps_less(a.skip(i), b.skip(i)),
    decreases i,
{
    if i > 0 {
        let x = a.drop_first();
        let y = b.drop_first();
        assert(a[0] == b[0]);
        assert forall|j: int| 0 <= j < i - 1 implies #[trigger] x[j] == y[j] by {
            assert(a[j + 1] == b[j + 1]);
        }
        lemma_steps_less_from(x, y, i - 1);
        assert(x.skip(i - 1) =~= a.skip(i));
        assert(y.skip(i - 1) =~= b.skip(i));
    } else {
        assert(a.skip(0) =~= a);
        assert(b.skip(0) =~= b);
    }
}

/// Whether the steps `a` come before the steps `b`.
pub fn steps_before(a: &Vec<String>, b: &Vec<String>) -> (r: bool)
    ensures
        r == steps_less(a.deep_view(), b.deep_view()),
{
    let ghost av = a.deep_view();
    let ghost bv = b.deep_view();
    let mut i: usize = 0;
    while i < a.len() && i < b.len() && text::same_text(a[i].as_str(), b[i].as_str())
        invariant
            i <= a@.len(),
            i <= b@.len(),
            av == a.deep_view(),
            bv == b.deep_view(),
            forall|j: int| 0 <= j < i ==> #[trigger] av[j] == bv[j],
        decreases a.len() - i,
    {
        i += 1;
    }
    proof {
        lemma_steps_less_from(av, bv, i as int);
    }
    if i == a.len() {
        i < b.len()
    } else if i == b.len() {
        false
    } else {
        text::less(a[i].as_str(), b[i].as_str())
    }
}

/// What follows a dot that is not the first character of a name, and holds no
/// further dot, is the name's extension, and what is before it the stem.
pub proof fn lemma_extension_behind_dot(stem: Seq<char>, ext: Seq<char>)
    requires
        stem.len() > 0,
        text::lacks(ext, '.'),
    ensures
        extension_of(stem + seq!['.'] + ext) == Some(ext),
        stem_of(stem + seq!['.'] + ext) == stem,
{
    let name = stem + seq!['.'] + ext;
    let n = stem.len() as int;
    assert forall|j: int| n < j < name.len() implies #[trigger] name[j] != '.' by {
        assert(name[j] == ext[j - n - 1]);
    }
    lemma_last_position(name, '.', n);
    assert(name.skip(n + 1) =~= ext);
    assert(name.take(n) =~= stem);
}

/// A name without a dot, or with one only at its start, has no extension.
pub proof fn lemma_no_extension(name: Seq<char>)
    requires
        forall|j: int| 0 < j < name.len() ==> #[trigger] name[j] != '.',
    ensures
        extension_of(name) is None,
        stem_of(name) == name,
{
    if name.len() > 0 && name[0] == '.' {
        lemma_last_position(name, '.', 0);
    } else {
        lemma_last_position(name, '.', -1);
    }
}

/// What is joined to a folder is found below it: its steps come behind those of
/// the folder.
pub proof fn lemma_steps_of_joined(base: Seq<char>, rel: Seq<char>)
    requires
        rel.len() == 0 || rel[0] != '/',
    ensures
        steps(joined(base, rel)) == steps(base) + steps(rel),
{
    let pred = is_step();
    if base.len() == 0 {
        assert(text::pieces(base, '/') =~= seq![base]);
        crate::lists::lemma_filter_one(base, pred);
        assert(steps(base) + steps(rel) =~= steps(rel));
    } else if base.last() == '/' {
        let b = base.drop_last();
        assert(base =~= b + seq!['/']);
        assert(base =~= b + seq!['/'] + Seq::<char>::empty());
        text::lemma_pieces_of_two(b, rel, '/');
        text::lemma_pieces_of_two(b, Seq::empty(), '/');
        assert(joined(base, rel) =~= b + seq!['/'] + rel);
        Seq::filter_distributes_over_add(text::pieces(b, '/'), text::pieces(rel, '/'), pred);
        let none = Seq::<char>::empty();
        assert(text::pieces(none, '/') =~= seq![none]);
        Seq::filter_distributes_over_add(text::pieces(b, '/'), seq![none], pred);
        crate::lists::lemma_filter_one(none, pred);
        assert(text::pieces(b, '/').filter(pred) + Seq::<Seq<char>>::empty() =~= text::pieces(
            b,
            '/',
        ).filter(pred));
    } else {
        text::lemma_pieces_of_two(base, rel, '/');
        Seq::filter_distributes_over_add(text::pieces(base, '/'), text::pieces(rel, '/'), pred);
    }
}

/// What is joined to a folder by a plain name is called by that name.
pub proof fn lemma_name_of_joined(base: Seq<char>, name: Seq<char>)
    requires
        name.len() > 0,
        text::lacks(name, '/'),
        name != seq!['.'],
        name != seq!['.', '.'],
    ensures
        file_name(joined(base, name)) == Some(name),
        steps(joined(base, name)) == steps(base).push(name),
{
    lemma_steps_of_joined(base, name);
    text::lemma_position(name, '/', name.len() as int);
    assert(text::pieces(name, '/') =~= seq![name]);
    crate::lists::lemma_filter_one(name, is_step());
    assert(steps(base) + seq![name] =~= steps(base).push(name));
}

proof fn lemma_joined_is_settled(base: Seq<char>, name: Seq<char>)
    requires
        base.len() > 0,
        base == seq!['/'] || base.last() != '/',
        name.len() > 0,
        text::lacks(name, '/'),
        name != seq!['.'],
    ensures
        settled(joined(base, name)) == joined(base, name),
        last_position(joined(base, name), '/') == joined(base, name).len() - name.len() - 1,
{
    let p = joined(base, name);
    let n = p.len() as int;
    let i = n - name.len() - 1;
    assert(p.skip(i + 1) =~= name);
    assert forall|j: int| i < j < n implies #[trigger] p[j] != '/' by {
        assert(p[j] == name[j - i - 1]);
    }
    assert(p[i] == '/');
    lemma_last_position(p, '/', i);
    assert(p[n - 1] == name[name.len() - 1]);
    if p[n - 1] == '.' && p[n - 2] == '/' {
        assert(name =~= seq!['.']);
    }
}

/// What is joined to a folder by a plain name is held by that folder.
pub proof fn lemma_parent_of_joined(base: Seq<char>, name: Seq<char>)
    requires
        base.len() > 0,
        base == seq!['/'] || base.last() != '/',
        settled(base) == base,
        name.len() > 0,
        text::lacks(name, '/'),
        name != seq!['.'],
    ensures
        parent(joined(base, name)) == Some(base),
{
    let p = joined(base, name);
    lemma_joined_is_settled(base, name);
    let i = last_position(p, '/');
    if p == seq!['/'] {
        assert(p.len() == 1);
    }
    if p == seq!['.'] {
        assert(p.len() == 1);
    }
    let q = p.take(i + 1);
    if base == seq!['/'] {
        assert(q =~= base);
    } else {
        assert(q =~= base + seq!['/']);
        assert(q.drop_last() =~= base);
        assert(q[q.len() - 1] == '/');
    }
}

proof fn lemma_last_position_bound(s: Seq<char>, c: char)
    ensures
        -1 <= last_position(s, c) < s.len(),
    decreases s.len(),
{
    if s.len() > 0 {
        lemma_last_position_bound(s.drop_last(), c);
    }
}

/// A path with a plain name at its end gets another extension in the place of
/// the one that it has, and one where it has none; the folder stays.
pub proof fn lemma_extension_is_replaced(base: Seq<char>, name: Seq<char>, ext: Seq<char>)
    requires
        base.len() > 0,
        base == seq!['/'] || base.last() != '/',
        name.len() > 0,
        text::lacks(name, '/'),
        name != seq!['.'],
        name != seq!['.', '.'],
    ensures
        with_extension(joined(base, name), ext) == joined(base, stem_of(name) + "."@ + ext),
{
    let p = joined(base, name);
    lemma_joined_is_settled(base, name);
    lemma_name_of_joined(base, name);
    let i = last_position(p, '/') + 1;
    assert(p.skip(i) =~= name);
    let stem = stem_of(name);
    let other = stem + "."@ + ext;
    lemma_last_position_bound(name, '.');
    reveal_strlit(".");
    assert(stem.len() > 0);
    assert(stem[0] == name[0]);
    assert(other[0] == stem[0]);
    assert(other[0] != '/');
    assert(with_extension(p, ext) =~= joined(base, other));
}

/// A path is the same as itself, also with a slash or a single dot behind it.
pub proof fn lemma_same_path_but_for_slashes(p: Seq<char>)
    requires
        p.len() > 0,
    ensures
        same_path(p, p),
        same_path(p + seq!['/'], p),
        same_path(p + seq!['/'] + seq!['.'], p),
{
    let none = Seq::<char>::empty();
    let dot = seq!['.'];
    text::lemma_pieces_some(p, '/');
    let all = text::pieces(p, '/');
    text::lemma_pieces_of_two(p, none, '/');
    text::lemma_pieces_of_two(p, dot, '/');
    text::lemma_one_piece(none, '/');
    text::lemma_one_piece(dot, '/');
    assert(p + seq!['/'] + none =~= p + seq!['/']);
    Seq::filter_distributes_over_add(all, seq![none], is_step());
    Seq::filter_distributes_over_add(all, seq![dot], is_step());
    crate::lists::lemma_filter_one(none, is_step());
    crate::lists::lemma_filter_one(dot, is_step());
    assert(steps(p + seq!['/']) =~= steps(p));
    assert(steps(p + seq!['/'] + dot) =~= steps(p));
    assert((all + seq![none])[0] == all[0]);
    assert((all + seq![dot])[0] == all[0]);
}

/// A folder with a plain name joined to it has no slash or single dot to lose.
pub proof fn lemma_settled_joined(base: Seq<char>, name: Seq<char>)
    requires
        base.len() > 0,
        base == seq!['/'] || base.last() != '/',
        name.len() > 0,
        text::lacks(name, '/'),
        name != seq!['.'],
    ensures
        settled(joined(base, name)) == joined(base, name),
{
    lemma_joined_is_settled(base, name);
}

/// The order of paths: the first step in which they differ decides, and what
/// holds something comes before it.
pub proof fn lemma_order_of_steps(
    p: Seq<Seq<char>>,
    a: Seq<Seq<char>>,
    b: Seq<Seq<char>>,
)
    ensures
        b.len() > 0 ==> steps_less(p, p + b) && !steps_less(p + b, p),
        a.len() > 0 && b.len() > 0 && a[0] != b[0] ==> (steps_less(p + a, p + b)
            <==> text::text_less(a[0], b[0])),
    decreases p.len(),
{
    if p.len() > 0 {
        let t = p.drop_first();
        lemma_order_of_steps(t, a, b);
        assert((p + a).drop_first() =~= t + a);
        assert((p + b).drop_first() =~= t + b);
        assert((p + a)[0] == p[0] && (p + b)[0] == p[0]);
    } else {
        assert(p + a =~= a);
        assert(p + b =~= b);
    }
}

} // verus!
