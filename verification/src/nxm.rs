//! Nexus Mods `nxm://` links and the desktop entry that hands them to this
//! program. Downloading needs the Nexus API and is not done here: a link is
//! taken apart so that what was asked for can be shown.

use crate::paths;
use crate::text;
use vstd::prelude::*;

verus! {

/// A download link from Nexus.
#[derive(Debug, Clone, PartialEq, Eq)]
pub struct NxmLink {
    /// Game domain, such as `skyrimspecialedition`.
    pub game_domain: String,
    /// Nexus mod id.
    pub mod_id: u64,
    /// Nexus file id within that mod.
    pub file_id: u64,
    /// The `key` and `expires` parameters, which recent links have.
    pub key: Option<String>,
    pub expires: Option<String>,
}

/// The mathematical content of an [`NxmLink`].
pub struct NxmLinkView {
    pub game_domain: Seq<char>,
    pub mod_id: u64,
    pub file_id: u64,
    pub key: Option<Seq<char>>,
    pub expires: Option<Seq<char>>,
}

impl DeepView for NxmLink {
    type V = NxmLinkView;

    open spec fn deep_view(&self) -> NxmLinkView {
        NxmLinkView {
            game_domain: self.game_domain@,
            mod_id: self.mod_id,
            file_id: self.file_id,
            key: self.key.deep_view(),
            expires: self.expires.deep_view(),
        }
    }
}

/// Why a text is not a download link.
#[derive(Debug, Clone, Copy, PartialEq, Eq, Structural)]
pub enum NxmError {
    /// It does not begin with `nxm://`.
    NotNxm,
    /// It is not of the form `nxm://<game>/mods/<id>/files/<id>`.
    UnknownShape,
    /// The mod id is not a number.
    BadModId,
    /// The file id is not a number, or is missing.
    BadFileId,
}

/// The condition not to be empty.
pub open spec fn is_filled() -> spec_fn(Seq<char>) -> bool {
    |s: Seq<char>| s.len() > 0
}

/// Whether a text begins with the scheme, whatever the case of its letters.
pub open spec fn has_scheme(url: Seq<char>) -> bool {
    url.len() >= 6 && text::ascii_fold(url.take(6)) == "nxm://"@
}

/// What follows the scheme.
pub open spec fn after_scheme(url: Seq<char>) -> Seq<char> {
    if url.len() >= 6 {
        url.skip(6)
    } else {
        Seq::empty()
    }
}

/// What stands between the scheme and the query.
pub open spec fn path_part(url: Seq<char>) -> Seq<char> {
    let rest = after_scheme(url);
    rest.take(text::position(rest, '?'))
}

/// The parameters after the question mark, of the form `name=value`.
pub open spec fn query_pairs(url: Seq<char>) -> Seq<Seq<char>> {
    let rest = after_scheme(url);
    let q = text::position(rest, '?');
    if q < rest.len() {
        text::pieces(rest.skip(q + 1), '&')
    } else {
        Seq::empty()
    }
}

/// The value of the last parameter of this name.
pub open spec fn parameter(pairs: Seq<Seq<char>>, name: Seq<char>) -> Option<Seq<char>>
    decreases pairs.len(),
{
    if pairs.len() == 0 {
        None
    } else {
        let p = pairs.last();
        let i = text::position(p, '=');
        if i < p.len() && p.take(i) == name {
            Some(p.skip(i + 1))
        } else {
            parameter(pairs.drop_last(), name)
        }
    }
}

/// The number that a text writes, where it fits in 64 bits.
pub open spec fn id_in(s: Seq<char>) -> Option<u64> {
    match text::number_in(s) {
        Some(n) => if n <= u64::MAX {
            Some(n as u64)
        } else {
            None
        },
        None => None,
    }
}

/// The link that a text writes, or why it writes none. White space around it
/// does not count.
pub open spec fn link_in(text_: Seq<char>) -> Result<NxmLinkView, NxmError> {
    let url = text::trimmed(text_);
    let segments = segments_of(url);
    let pairs = query_pairs(url);
    if !has_scheme(url) {
        Err(NxmError::NotNxm)
    } else if segments.len() < 4 || text::ascii_fold(segments[1]) != "mods"@ || text::ascii_fold(
        segments[3],
    ) != "files"@ {
        Err(NxmError::UnknownShape)
    } else if id_in(segments[2]) is None {
        Err(NxmError::BadModId)
    } else if segments.len() < 5 || id_in(segments[4]) is None {
        Err(NxmError::BadFileId)
    } else {
        Ok(
            NxmLinkView {
                game_domain: segments[0],
                mod_id: id_in(segments[2])->0,
                file_id: id_in(segments[4])->0,
                key: parameter(pairs, "key"@),
                expires: parameter(pairs, "expires"@),
            },
        )
    }
}

/// The parts of a link's path.
pub open spec fn segments_of(url: Seq<char>) -> Seq<Seq<char>> {
    text::pieces(path_part(url), '/').filter(is_filled())
}

/// The part at this place, or nothing where there are fewer.
pub open spec fn part_at(parts: Seq<Seq<char>>, i: int) -> Seq<char> {
    if i < parts.len() {
        parts[i]
    } else {
        Seq::empty()
    }
}

/// Why a text writes no link, in words.
pub open spec fn failure_in(e: NxmError, text_: Seq<char>) -> Seq<char> {
    let url = text::trimmed(text_);
    let parts = segments_of(url);
    match e {
        NxmError::NotNxm => "not an nxm:// URL: "@ + url,
        NxmError::UnknownShape => {
            "unrecognized nxm URL shape (expected nxm://<game>/mods/<id>/files/<id>): "@ + url
        },
        NxmError::BadModId => "invalid mod id '"@ + part_at(parts, 2) + "'"@,
        NxmError::BadFileId => "invalid file id '"@ + (if parts.len() >= 5 {
            parts[4]
        } else {
            part_at(parts, 3)
        }) + "' in "@ + url,
    }
}

/// Whether a text is a lower-case word but for the case of its letters.
fn is_word(s: &str, word: &str) -> (r: bool)
    requires
        text::ascii_fold(word@) == word@,
    ensures
        r == (text::ascii_fold(s@) == word@),
{
    text::same_ignoring_case(s, word)
}

fn filled_pieces(s: &str, c: char) -> (r: Vec<String>)
    ensures
        r.deep_view() == text::pieces(s@, c).filter(is_filled()),
{
    let all = text::split(s, c);
    let ghost av = all.deep_view();
    let mut out: Vec<String> = Vec::new();
    let mut i: usize = 0;
    reveal(Seq::filter);
    assert(av.take(0) =~= Seq::<Seq<char>>::empty());
    assert(out.deep_view() =~= Seq::<Seq<char>>::empty());
    while i < all.len()
        invariant
            i <= all@.len(),
            av == all.deep_view(),
            out.deep_view() == av.take(i as int).filter(is_filled()),
        decreases all.len() - i,
    {
        reveal(Seq::filter);
        assert(av.take(i + 1).drop_last() =~= av.take(i as int));
        assert(av.take(i + 1).last() == all@[i as int]@);
        if !all[i].as_str().is_empty() {
            let ghost before = out.deep_view();
            out.push(all[i].clone());
            assert(out.deep_view() =~= before.push(all@[i as int]@));
        }
        i += 1;
    }
    assert(av.take(i as int) =~= av);
    out
}

/// The value of the last parameter of this name.
fn find_parameter(pairs: &Vec<String>, name: &str) -> (r: Option<String>)
    ensures
        r.deep_view() == parameter(pairs.deep_view(), name@),
{
    let ghost all = pairs.deep_view();
    let mut i: usize = pairs.len();
    assert(all.take(i as int) =~= all);
    while i > 0
        invariant
            i <= pairs@.len(),
            all == pairs.deep_view(),
            parameter(all, name@) == parameter(all.take(i as int), name@),
        decreases i,
    {
        assert(all.take(i as int).drop_last() =~= all.take(i - 1));
        assert(all.take(i as int).last() == pairs@[i - 1]@);
        if let Some(p) = text::split_once(pairs[i - 1].as_str(), '=') {
            if text::same_text(p.0.as_str(), name) {
                return Some(p.1);
            }
        }
        i -= 1;
    }
    None
}

fn parse_id(s: &str) -> (r: Option<u64>)
    ensures
        r == id_in(s@),
{
    text::parse_u64(s)
}

/// Takes an `nxm://` link apart.
///
/// Understood, whatever the case of the scheme:
/// - `nxm://skyrimspecialedition/mods/12345/files/67890`
/// - `nxm://skyrimspecialedition/mods/12345/files/67890?key=...&expires=...`
pub fn parse_nxm_url(url: &str) -> (r: Result<NxmLink, NxmError>)
    ensures
        match r {
            Ok(link) => link_in(url@) == Ok::<NxmLinkView, NxmError>(link.deep_view()),
            Err(e) => link_in(url@) == Err::<NxmLinkView, NxmError>(e),
        },
{
    proof {
        reveal_strlit("nxm://");
        reveal_strlit("mods");
        reveal_strlit("files");
        assert(text::ascii_fold("nxm://"@) =~= "nxm://"@);
        assert(text::ascii_fold("mods"@) =~= "mods"@);
        assert(text::ascii_fold("files"@) =~= "files"@);
    }
    let trimmed = text::trim(url);
    let chars = text::chars_of(trimmed.as_str());
    let ghost u = trimmed@;
    if chars.len() < 6 {
        return Err(NxmError::NotNxm);
    }
    assert(u.subrange(0, 6) =~= u.take(6));
    if !is_word(text::slice_text(&chars, 0, 6).as_str(), "nxm://") {
        return Err(NxmError::NotNxm);
    }
    assert(u.subrange(6, u.len() as int) =~= u.skip(6));
    let rest = text::slice_text(&chars, 6, chars.len());
    let mut path = rest.clone();
    let mut pairs: Vec<String> = Vec::new();
    assert(pairs.deep_view() =~= Seq::<Seq<char>>::empty());
    if let Some(p) = text::split_once(rest.as_str(), '?') {
        path = p.0;
        pairs = text::split(p.1.as_str(), '&');
    } else {
        assert(rest@.take(rest@.len() as int) =~= rest@);
    }
    assert(path@ == path_part(u));
    let segments = filled_pieces(path.as_str(), '/');
    assert(segments.deep_view().len() == segments@.len());
    if segments.len() < 4 || !is_word(segments[1].as_str(), "mods") || !is_word(
        segments[3].as_str(),
        "files",
    ) {
        return Err(NxmError::UnknownShape);
    }
    let mod_id: u64 = match parse_id(segments[2].as_str()) {
        Some(n) => n,
        None => {
            return Err(NxmError::BadModId);
        },
    };
    if segments.len() < 5 {
        return Err(NxmError::BadFileId);
    }
    let file_id: u64 = match parse_id(segments[4].as_str()) {
        Some(n) => n,
        None => {
            return Err(NxmError::BadFileId);
        },
    };
    let key = find_parameter(&pairs, "key");
    let expires = find_parameter(&pairs, "expires");
    Ok(NxmLink { game_domain: segments[0].clone(), mod_id, file_id, key, expires })
}

fn copy_at(parts: &Vec<String>, i: usize) -> (r: String)
    ensures
        r@ == part_at(parts.deep_view(), i as int),
{
    assert(parts.deep_view().len() == parts@.len());
    if i < parts.len() {
        parts[i].clone()
    } else {
        String::new()
    }
}

impl NxmError {
    /// Why this text writes no link, in words.
    pub fn message(self, url: &str) -> (r: String)
        ensures
            r@ == failure_in(self, url@),
    {
        let trimmed = text::trim(url);
        let chars = text::chars_of(trimmed.as_str());
        let ghost u = trimmed@;
        match self {
            NxmError::NotNxm => {
                return text::concat("not an nxm:// URL: ", trimmed.as_str());
            },
            NxmError::UnknownShape => {
                return text::concat(
                    "unrecognized nxm URL shape (expected nxm://<game>/mods/<id>/files/<id>): ",
                    trimmed.as_str(),
                );
            },
            _ => {},
        }
        let from: usize = if chars.len() < 6 {
            chars.len()
        } else {
            6
        };
        let rest = text::slice_text(&chars, from, chars.len());
        proof {
            if u.len() >= 6 {
                assert(u.subrange(6, u.len() as int) =~= u.skip(6));
            }
            assert(rest@ =~= after_scheme(u));
        }
        let path = match text::split_once(rest.as_str(), '?') {
            Some(p) => p.0,
            None => {
                assert(rest@.take(rest@.len() as int) =~= rest@);
                rest
            },
        };
        let parts = filled_pieces(path.as_str(), '/');
        assert(parts.deep_view().len() == parts@.len());
        match self {
            NxmError::BadModId => text::concat3("invalid mod id '", copy_at(&parts, 2).as_str(), "'"),
            _ => {
                let place: usize = if parts.len() >= 5 {
                    4
                } else {
                    3
                };
                let start = text::concat3("invalid file id '", copy_at(&parts, place).as_str(), "' in ");
                text::concat(start.as_str(), trimmed.as_str())
            },
        }
    }
}

/// The file name of the desktop entry.
pub open spec fn desktop_file() -> Seq<char> {
    "skyrim-modmgr-nxm.desktop"@
}

/// Where the desktop entry goes.
pub fn desktop_path(apps_dir: &str) -> (r: String)
    ensures
        r@ == paths::joined(apps_dir@, desktop_file()),
{
    paths::join(apps_dir, "skyrim-modmgr-nxm.desktop")
}

/// The desktop entry that has `nxm://` links opened by `binary_path`.
pub fn desktop_entry(binary_path: &str) -> (r: String)
    ensures
        r@
            == "[Desktop Entry]\nType=Application\nName=Skyrim Mod Manager (Nexus Download)\nExec=\""@
            + binary_path@
            + "\" handle-nxm %u\nStartupNotify=false\nNoDisplay=true\nMimeType=x-scheme-handler/nxm;\nCategories=Game;\n"@,
{
    text::concat3(
        "[Desktop Entry]\nType=Application\nName=Skyrim Mod Manager (Nexus Download)\nExec=\"",
        binary_path,
        "\" handle-nxm %u\nStartupNotify=false\nNoDisplay=true\nMimeType=x-scheme-handler/nxm;\nCategories=Game;\n",
    )
}

// ---------------------------------------------------------------------------
// Laws
// ---------------------------------------------------------------------------

/// The link to a file of a mod, as it is written, with this scheme and this
/// query.
pub open spec fn link_text(
    scheme: Seq<char>,
    game: Seq<char>,
    mod_id: u64,
    file_id: u64,
    query: Seq<char>,
) -> Seq<char> {
    scheme + (game + "/mods/"@ + text::decimal(mod_id as nat) + "/files/"@ + text::decimal(
        file_id as nat,
    )) + query
}

proof fn lemma_decimal_lacks(n: nat, c: char)
    requires
        !text::is_digit(c),
    ensures
        text::lacks(text::decimal(n), c),
{
    text::lemma_decimal_is_read_back(n);
    let d = text::decimal(n);
    assert forall|i: int| 0 <= i < d.len() implies #[trigger] d[i] != c by {
        assert(text::is_digit(d[i]));
    }
}

proof fn lemma_path_segments(game: Seq<char>, m: Seq<char>, f: Seq<char>)
    requires
        game.len() > 0 && m.len() > 0 && f.len() > 0,
        text::lacks(game, '/') && text::lacks(m, '/') && text::lacks(f, '/'),
    ensures
        text::pieces(game + "/mods/"@ + m + "/files/"@ + f, '/').filter(is_filled()) == seq![
            game,
            "mods"@,
            m,
            "files"@,
            f,
        ],
{
    reveal_strlit("/mods/");
    reveal_strlit("/files/");
    reveal_strlit("mods");
    reveal_strlit("files");
    let all = game + "/mods/"@ + m + "/files/"@ + f;
    let r3 = "files"@ + seq!['/'] + f;
    let r2 = m + seq!['/'] + r3;
    let r1 = "mods"@ + seq!['/'] + r2;
    assert(all =~= game + seq!['/'] + r1);
    text::lemma_pieces_of_two(game, r1, '/');
    text::lemma_pieces_of_two("mods"@, r2, '/');
    text::lemma_pieces_of_two(m, r3, '/');
    text::lemma_pieces_of_two("files"@, f, '/');
    text::lemma_one_piece(game, '/');
    text::lemma_one_piece("mods"@, '/');
    text::lemma_one_piece(m, '/');
    text::lemma_one_piece("files"@, '/');
    text::lemma_one_piece(f, '/');
    let list = seq![game, "mods"@, m, "files"@, f];
    assert(text::pieces(all, '/') =~= list);
    assert forall|k: int| 0 <= k < list.len() implies is_filled()(#[trigger] list[k]) by {}
    lemma_all_kept(list);
}

proof fn lemma_all_kept(list: Seq<Seq<char>>)
    requires
        forall|k: int| 0 <= k < list.len() ==> is_filled()(#[trigger] list[k]),
    ensures
        list.filter(is_filled()) == list,
    decreases list.len(),
{
    reveal(Seq::filter);
    if list.len() > 0 {
        let t = list.drop_last();
        assert forall|k: int| 0 <= k < t.len() implies is_filled()(#[trigger] t[k]) by {
            assert(t[k] == list[k]);
        }
        lemma_all_kept(t);
        assert(is_filled()(list[list.len() - 1]));
        assert(t.push(list.last()) =~= list);
    }
}

/// A link that is written is read back: the game, the mod and the file, and the
/// key and the time from its query, whatever the case of the scheme and whatever
/// white space is around it.
pub proof fn lemma_link_is_read_back(
    before: Seq<char>,
    scheme: Seq<char>,
    game: Seq<char>,
    mod_id: u64,
    file_id: u64,
    key: Seq<char>,
    expires: Seq<char>,
    after: Seq<char>,
)
    requires
        scheme.len() == 6,
        text::ascii_fold(scheme) == "nxm://"@,
        game.len() > 0,
        text::lacks(game, '/'),
        text::lacks(game, '?'),
        text::lacks(key, '&'),
        text::lacks(expires, '&'),
        expires.len() > 0 && !text::is_space(expires.last()),
        forall|i: int| 0 <= i < before.len() ==> text::is_space(#[trigger] before[i]),
        forall|i: int| 0 <= i < after.len() ==> text::is_space(#[trigger] after[i]),
    ensures
        link_in(
            before + link_text(
                scheme,
                game,
                mod_id,
                file_id,
                "?key="@ + key + "&expires="@ + expires,
            ) + after,
        ) == Ok::<NxmLinkView, NxmError>(
            NxmLinkView {
                game_domain: game,
                mod_id,
                file_id,
                key: Some(key),
                expires: Some(expires),
            },
        ),
{
    reveal_strlit("?key=");
    reveal_strlit("&expires=");
    reveal_strlit("key");
    reveal_strlit("expires");
    reveal_strlit("nxm://");
    let query = "?key="@ + key + "&expires="@ + expires;
    let url = link_text(scheme, game, mod_id, file_id, query);
    let whole = before + url + after;
    let m = text::decimal(mod_id as nat);
    let f = text::decimal(file_id as nat);
    let path = game + "/mods/"@ + m + "/files/"@ + f;
    text::lemma_decimal_is_read_back(mod_id as nat);
    text::lemma_decimal_is_read_back(file_id as nat);
    lemma_decimal_lacks(mod_id as nat, '/');
    lemma_decimal_lacks(file_id as nat, '/');
    lemma_decimal_lacks(mod_id as nat, '?');
    lemma_decimal_lacks(file_id as nat, '?');
    assert(url =~= scheme + path + query);
    lemma_scheme_is_no_space(scheme);
    lemma_trimmed_of(before, url, after);
    assert(url.take(6) =~= scheme);
    let rest = path + query;
    assert(url.skip(6) =~= rest);
    assert(text::lacks(path, '?')) by {
        reveal_strlit("/mods/");
        reveal_strlit("/files/");
        assert forall|i: int| 0 <= i < path.len() implies #[trigger] path[i] != '?' by {
            if i < game.len() {
                assert(path[i] == game[i]);
            } else if i < game.len() + 6 {
                assert(path[i] == "/mods/"@[i - game.len()]);
            } else if i < game.len() + 6 + m.len() {
                assert(path[i] == m[i - game.len() - 6]);
            } else if i < game.len() + 13 + m.len() {
                assert(path[i] == "/files/"@[i - game.len() - 6 - m.len()]);
            } else {
                assert(path[i] == f[i - game.len() - 13 - m.len()]);
            }
        }
    }
    assert forall|j: int| 0 <= j < path.len() implies #[trigger] rest[j] != '?' by {
        assert(rest[j] == path[j]);
    }
    assert(rest[path.len() as int] == '?') by {
        assert(query[0] == '?');
    }
    text::lemma_position(rest, '?', path.len() as int);
    assert(rest.take(path.len() as int) =~= path);
    lemma_path_segments(game, m, f);
    let a = "key="@ + key;
    let b = "expires="@ + expires;
    reveal_strlit("key=");
    reveal_strlit("expires=");
    assert(rest.skip(path.len() as int + 1) =~= a + seq!['&'] + b);
    text::lemma_pieces_of_two(a, b, '&');
    assert(text::lacks(a, '&')) by {
        assert forall|i: int| 0 <= i < a.len() implies #[trigger] a[i] != '&' by {
            if i >= 4 {
                assert(a[i] == key[i - 4]);
            }
        }
    }
    assert(text::lacks(b, '&')) by {
        assert forall|i: int| 0 <= i < b.len() implies #[trigger] b[i] != '&' by {
            if i >= 8 {
                assert(b[i] == expires[i - 8]);
            }
        }
    }
    text::lemma_one_piece(a, '&');
    text::lemma_one_piece(b, '&');
    let pairs = seq![a, b];
    assert(text::pieces(a + seq!['&'] + b, '&') =~= pairs);
    text::lemma_position(a, '=', 3);
    text::lemma_position(b, '=', 7);
    assert(a.take(3) =~= "key"@);
    assert(a.skip(4) =~= key);
    assert(b.take(7) =~= "expires"@);
    assert(b.skip(8) =~= expires);
    assert(pairs.drop_last() =~= seq![a]);
    assert("key"@.len() == 3 && "expires"@.len() == 7);
    assert(parameter(pairs, "expires"@) == Some(expires));
    assert(parameter(seq![a], "key"@) == Some(key));
    assert(parameter(pairs, "key"@) == Some(key));
    lemma_words_fold();
}

/// A link without a query is read back too, without key and time.
pub proof fn lemma_plain_link_is_read_back(
    scheme: Seq<char>,
    game: Seq<char>,
    mod_id: u64,
    file_id: u64,
)
    requires
        scheme.len() == 6,
        text::ascii_fold(scheme) == "nxm://"@,
        game.len() > 0,
        text::lacks(game, '/'),
        text::lacks(game, '?'),
    ensures
        link_in(link_text(scheme, game, mod_id, file_id, Seq::empty())) == Ok::<
            NxmLinkView,
            NxmError,
        >(NxmLinkView { game_domain: game, mod_id, file_id, key: None, expires: None }),
{
    reveal_strlit("nxm://");
    let none = Seq::<char>::empty();
    let url = link_text(scheme, game, mod_id, file_id, none);
    let m = text::decimal(mod_id as nat);
    let f = text::decimal(file_id as nat);
    let path = game + "/mods/"@ + m + "/files/"@ + f;
    text::lemma_decimal_is_read_back(mod_id as nat);
    text::lemma_decimal_is_read_back(file_id as nat);
    lemma_decimal_lacks(mod_id as nat, '/');
    lemma_decimal_lacks(file_id as nat, '/');
    lemma_decimal_lacks(mod_id as nat, '?');
    lemma_decimal_lacks(file_id as nat, '?');
    assert(url =~= scheme + path);
    lemma_scheme_is_no_space(scheme);
    assert(url.last() == f.last());
    assert(text::is_digit(f[f.len() - 1]));
    lemma_trimmed_of(none, url, none);
    assert(none + url + none =~= url);
    assert(url.take(6) =~= scheme);
    assert(url.skip(6) =~= path);
    assert(text::lacks(path, '?')) by {
        reveal_strlit("/mods/");
        reveal_strlit("/files/");
        assert forall|i: int| 0 <= i < path.len() implies #[trigger] path[i] != '?' by {
            if i < game.len() {
                assert(path[i] == game[i]);
            } else if i < game.len() + 6 {
                assert(path[i] == "/mods/"@[i - game.len()]);
            } else if i < game.len() + 6 + m.len() {
                assert(path[i] == m[i - game.len() - 6]);
            } else if i < game.len() + 13 + m.len() {
                assert(path[i] == "/files/"@[i - game.len() - 6 - m.len()]);
            } else {
                assert(path[i] == f[i - game.len() - 13 - m.len()]);
            }
        }
    }
    text::lemma_one_piece(path, '?');
    assert(path.take(path.len() as int) =~= path);
    lemma_path_segments(game, m, f);
    lemma_words_fold();
}

proof fn lemma_words_fold()
    ensures
        text::ascii_fold("mods"@) == "mods"@,
        text::ascii_fold("files"@) == "files"@,
{
    reveal_strlit("mods");
    reveal_strlit("files");
    assert(text::ascii_fold("mods"@) =~= "mods"@);
    assert(text::ascii_fold("files"@) =~= "files"@);
}

proof fn lemma_scheme_is_no_space(scheme: Seq<char>)
    requires
        scheme.len() == 6,
        text::ascii_fold(scheme) == "nxm://"@,
    ensures
        !text::is_space(scheme[0]),
{
    reveal_strlit("nxm://");
    assert(text::ascii_fold(scheme)[0] == text::ascii_lower(scheme[0]));
    assert("nxm://"@[0] == 'n');
    assert(text::ascii_lower(scheme[0]) == 'n');
}

proof fn lemma_trimmed_of(before: Seq<char>, s: Seq<char>, after: Seq<char>)
    requires
        s.len() > 0,
        !text::is_space(s[0]),
        !text::is_space(s.last()),
        forall|i: int| 0 <= i < before.len() ==> text::is_space(#[trigger] before[i]),
        forall|i: int| 0 <= i < after.len() ==> text::is_space(#[trigger] after[i]),
    ensures
        text::trimmed(before + s + after) == s,
{
    let all = before + s + after;
    let a = before.len() as int;
    let b = a + s.len();
    assert forall|i: int| 0 <= i < a implies text::is_space(#[trigger] all[i]) by {
        assert(all[i] == before[i]);
    }
    assert forall|i: int| b <= i < all.len() implies text::is_space(#[trigger] all[i]) by {
        assert(all[i] == after[i - b]);
    }
    assert(all[a] == s[0]);
    assert(all[b - 1] == s.last());
    text::lemma_trimmed_eq(all, a, b);
    assert(all.subrange(a, b) =~= s);
}

/// What does not begin with the scheme is no link.
pub proof fn lemma_other_schemes_are_no_links(url: Seq<char>)
    requires
        text::trimmed(url).len() < 6 || text::ascii_fold(text::trimmed(url).take(6)) != "nxm://"@,
    ensures
        link_in(url) == Err::<NxmLinkView, NxmError>(NxmError::NotNxm),
{
}

/// When a text is a link: it has the scheme, and its path names a game, `mods`
/// and the number of a mod, `files` and the number of a file, whatever the case
/// of letters in these words and whatever follows. The first of these that is
/// not so is what the error tells.
pub proof fn lemma_when_a_text_is_a_link(text_: Seq<char>)
    ensures
        ({
            let url = text::trimmed(text_);
            let s = segments_of(url);
            let named = s.len() >= 4 && text::ascii_fold(s[1]) == "mods"@ && text::ascii_fold(s[3])
                == "files"@;
            let number = |t: Seq<char>|
                text::number_in(t) is Some && text::number_in(t)->0 <= u64::MAX;
            &&& link_in(text_) is Ok <==> has_scheme(url) && named && number(s[2]) && s.len() >= 5
                && number(s[4])
            &&& link_in(text_) == Err::<NxmLinkView, NxmError>(NxmError::NotNxm) <==> !has_scheme(
                url,
            )
            &&& link_in(text_) == Err::<NxmLinkView, NxmError>(NxmError::UnknownShape)
                <==> has_scheme(url) && !named
            &&& link_in(text_) == Err::<NxmLinkView, NxmError>(NxmError::BadModId) <==> has_scheme(
                url,
            ) && named && !number(s[2])
            &&& link_in(text_) == Err::<NxmLinkView, NxmError>(NxmError::BadFileId)
                <==> has_scheme(url) && named && number(s[2]) && !(s.len() >= 5 && number(s[4]))
            &&& link_in(text_) matches Ok(link) ==> {
                &&& link.game_domain == s[0]
                &&& Some(link.mod_id as nat) == text::number_in(s[2])
                &&& Some(link.file_id as nat) == text::number_in(s[4])
            }
        }),
{
}

} // verus!
