//! What the commands decide and say.

use crate::color;
use crate::config::{Config, ConfigView};
use crate::fomod::{FomodOption, GroupType};
use crate::game;
use crate::game::{DetectedGame, DetectedGameView, GameEdition, GameInstall, GameInstallView};
use crate::lists;
use crate::paths;
use crate::text;
use vstd::prelude::*;

verus! {

// ---------------------------------------------------------------------------
// Questions
// ---------------------------------------------------------------------------

/// Whether an answer says yes. Anything but `y` and `yes` says no.
pub open spec fn says_yes(answer: Seq<char>) -> bool {
    let a = text::lowercase(text::trimmed(answer));
    a == "y"@ || a == "yes"@
}

/// Whether an answer says yes. A destructive action is never taken on a stray
/// key.
pub fn confirm(answer: &str) -> (r: bool)
    ensures
        r == says_yes(answer@),
{
    let a = text::to_lowercase(text::trim(answer).as_str());
    text::same_text(a.as_str(), "y") || text::same_text(a.as_str(), "yes")
}

/// The question before a destructive action.
pub fn confirm_prompt(message: &str) -> (r: String)
    ensures
        r@ == message@ + " [y/N]: "@,
{
    text::concat(message, " [y/N]: ")
}

/// Why an answer picks nothing.
#[derive(Debug, Clone)]
pub enum PickError {
    NotANumber,
    /// In a group that may be left out.
    NotANumberNorBlank,
    OutOfRange { count: usize },
    /// One of several is no number.
    PartIsNoNumber { part: String },
    /// One of several is out of range.
    PartOutOfRange { choice: usize, count: usize },
    NothingPicked,
}

/// The mathematical content of a [`PickError`].
pub enum PickErrorView {
    NotANumber,
    NotANumberNorBlank,
    OutOfRange { count: nat },
    PartIsNoNumber { part: Seq<char> },
    PartOutOfRange { choice: nat, count: nat },
    NothingPicked,
}

impl DeepView for PickError {
    type V = PickErrorView;

    open spec fn deep_view(&self) -> PickErrorView {
        match self {
            PickError::NotANumber => PickErrorView::NotANumber,
            PickError::NotANumberNorBlank => PickErrorView::NotANumberNorBlank,
            PickError::OutOfRange { count } => PickErrorView::OutOfRange { count: *count as nat },
            PickError::PartIsNoNumber { part } => PickErrorView::PartIsNoNumber { part: part@ },
            PickError::PartOutOfRange { choice, count } => PickErrorView::PartOutOfRange {
                choice: *choice as nat,
                count: *count as nat,
            },
            PickError::NothingPicked => PickErrorView::NothingPicked,
        }
    }
}

/// An error in words.
pub open spec fn pick_message(e: PickErrorView) -> Seq<char> {
    match e {
        PickErrorView::NotANumber => "not a number — enter the index shown in brackets"@,
        PickErrorView::NotANumberNorBlank => {
            "not a number — enter the index shown in brackets, or leave blank"@
        },
        PickErrorView::OutOfRange { count } => "choice out of range (need 1–"@ + text::decimal(
            count,
        ) + ")"@,
        PickErrorView::PartIsNoNumber { part } => "'"@ + part + "' is not a number"@,
        PickErrorView::PartOutOfRange { choice, count } => "choice "@ + text::decimal(choice)
            + " out of range (need 1–"@ + text::decimal(count) + ")"@,
        PickErrorView::NothingPicked => "this group requires at least one selection"@,
    }
}

impl PickError {
    /// The error in words.
    pub fn message(&self) -> (r: String)
        ensures
            r@ == pick_message(self.deep_view()),
    {
        match self {
            PickError::NotANumber => "not a number — enter the index shown in brackets".to_owned(),
            PickError::NotANumberNorBlank => {
                "not a number — enter the index shown in brackets, or leave blank".to_owned()
            },
            PickError::OutOfRange { count } => text::concat3(
                "choice out of range (need 1–",
                text::number_text(*count as u64).as_str(),
                ")",
            ),
            PickError::PartIsNoNumber { part } => text::concat3(
                "'",
                part.as_str(),
                "' is not a number",
            ),
            PickError::PartOutOfRange { choice, count } => {
                let mut m = text::concat3(
                    "choice ",
                    text::number_text(*choice as u64).as_str(),
                    " out of range (need 1–",
                );
                m.append(text::number_text(*count as u64).as_str());
                m.append(")");
                m
            },
            PickError::NothingPicked => "this group requires at least one selection".to_owned(),
        }
    }
}

/// The number that a text writes, where a machine word holds it.
pub open spec fn word_in(s: Seq<char>) -> Option<nat> {
    match text::number_in(s) {
        Some(n) => if n <= usize::MAX {
            Some(n)
        } else {
            None
        },
        None => None,
    }
}

fn parse_word(s: &str) -> (r: Option<usize>)
    ensures
        match r {
            Some(n) => word_in(s@) == Some(n as nat),
            None => word_in(s@) is None,
        },
{
    match text::parse_u64(s) {
        Some(n) => if n <= usize::MAX as u64 {
            Some(n as usize)
        } else {
            None
        },
        None => None,
    }
}

/// What a number from 1 to `count` picks, counted from 0; `bad` is the error
/// where the text is no number.
pub open spec fn picked(s: Seq<char>, count: nat, bad: PickErrorView) -> Result<nat, PickErrorView> {
    match word_in(s) {
        Some(n) => if n == 0 || n > count {
            Err(PickErrorView::OutOfRange { count })
        } else {
            Ok((n - 1) as nat)
        },
        None => Err(bad),
    }
}

/// The question that asks for one of several.
pub fn pick_prompt(count: usize) -> (r: String)
    ensures
        r@ == "Pick one [1-"@ + text::decimal(count as nat) + "]: "@,
{
    text::concat3("Pick one [1-", text::number_text(count as u64).as_str(), "]: ")
}

/// What an answer picks of `count` things, counted from 0.
pub fn prompt_pick(answer: &str, count: usize) -> (r: Result<usize, PickError>)
    ensures
        match r {
            Ok(i) => picked(text::trimmed(answer@), count as nat, PickErrorView::NotANumber) == Ok::<
                nat,
                PickErrorView,
            >(i as nat),
            Err(e) => picked(text::trimmed(answer@), count as nat, PickErrorView::NotANumber)
                == Err::<nat, PickErrorView>(e.deep_view()),
        },
{
    match parse_word(text::trim(answer).as_str()) {
        Some(n) => if n == 0 || n > count {
            Err(PickError::OutOfRange { count })
        } else {
            Ok(n - 1)
        },
        None => Err(PickError::NotANumber),
    }
}

/// What the parts of an answer pick, or the first error.
pub open spec fn picked_parts(parts: Seq<Seq<char>>, count: nat) -> Result<Seq<nat>, PickErrorView>
    decreases parts.len(),
{
    if parts.len() == 0 {
        Ok(Seq::empty())
    } else {
        match picked_parts(parts.drop_last(), count) {
            Err(e) => Err(e),
            Ok(before) => match word_in(text::trimmed(parts.last())) {
                Some(n) => if n == 0 || n > count {
                    Err(PickErrorView::PartOutOfRange { choice: n, count })
                } else {
                    Ok(before.push((n - 1) as nat))
                },
                None => Err(PickErrorView::PartIsNoNumber { part: parts.last() }),
            },
        }
    }
}

/// What an answer picks of a group's options.
pub open spec fn group_choice(kind: GroupType, count: nat, answer: Seq<char>) -> Result<
    Seq<nat>,
    PickErrorView,
> {
    let a = text::trimmed(answer);
    if count == 0 {
        Ok(Seq::empty())
    } else {
        match kind {
            GroupType::SelectAll => Ok(Seq::new(count, |i: int| i as nat)),
            GroupType::SelectExactlyOne => match picked(a, count, PickErrorView::NotANumber) {
                Ok(i) => Ok(seq![i]),
                Err(e) => Err(e),
            },
            GroupType::SelectAtMostOne => if a.len() == 0 {
                Ok(Seq::empty())
            } else {
                match picked(a, count, PickErrorView::NotANumberNorBlank) {
                    Ok(i) => Ok(seq![i]),
                    Err(e) => Err(e),
                }
            },
            GroupType::SelectAny | GroupType::SelectAtLeastOne => if a.len() == 0 {
                if kind is SelectAtLeastOne {
                    Err(PickErrorView::NothingPicked)
                } else {
                    Ok(Seq::empty())
                }
            } else {
                picked_parts(text::pieces(a, ','), count)
            },
        }
    }
}

/// What to say or ask before an option group's choice.
#[derive(Debug, Clone)]
pub enum GroupPrompt {
    Nothing,
    /// Say this; no answer is needed.
    Tell { line: String },
    /// Ask this.
    Ask { question: String },
}

/// What to say or ask before the choice in a group with `count` options.
pub fn group_prompt(kind: GroupType, count: usize) -> (r: GroupPrompt)
    ensures
        match r {
            GroupPrompt::Nothing => count == 0,
            GroupPrompt::Tell { line } => count > 0 && kind is SelectAll && line@
                == "  (all options in this group are installed)"@,
            GroupPrompt::Ask { question } => count > 0 && !(kind is SelectAll) && question@ == (
            match kind {
                GroupType::SelectExactlyOne => "Pick one [1-"@ + text::decimal(count as nat) + "]: "@,
                GroupType::SelectAtMostOne => "  Pick one [1-"@ + text::decimal(count as nat)
                    + "], or press Enter for none: "@,
                _ => "  Pick any number, comma-separated [1-"@ + text::decimal(count as nat)
                    + "]: "@,
            }),
        },
{
    if count == 0 {
        return GroupPrompt::Nothing;
    }
    let n = text::number_text(count as u64);
    match kind {
        GroupType::SelectAll => GroupPrompt::Tell {
            line: "  (all options in this group are installed)".to_owned(),
        },
        GroupType::SelectExactlyOne => GroupPrompt::Ask { question: pick_prompt(count) },
        GroupType::SelectAtMostOne => GroupPrompt::Ask {
            question: text::concat3(
                "  Pick one [1-",
                n.as_str(),
                "], or press Enter for none: ",
            ),
        },
        _ => GroupPrompt::Ask {
            question: text::concat3("  Pick any number, comma-separated [1-", n.as_str(), "]: "),
        },
    }
}

/// The numbers in a list of machine words.
pub open spec fn as_nats(list: Seq<usize>) -> Seq<nat> {
    list.map_values(|i: usize| i as nat)
}

fn all_places(count: usize) -> (r: Vec<usize>)
    ensures
        as_nats(r@) == Seq::new(count as nat, |i: int| i as nat),
{
    let mut out: Vec<usize> = Vec::new();
    let mut i: usize = 0;
    while i < count
        invariant
            i <= count,
            out@.len() == i,
            forall|k: int| 0 <= k < i ==> #[trigger] out@[k] == k,
        decreases count - i,
    {
        out.push(i);
        i += 1;
    }
    assert(as_nats(out@) =~= Seq::new(count as nat, |i: int| i as nat));
    out
}

fn one_place(i: usize) -> (r: Vec<usize>)
    ensures
        as_nats(r@) == seq![i as nat],
{
    let r = vec![i];
    assert(as_nats(r@) =~= seq![i as nat]);
    r
}

fn pick_parts(parts: &Vec<String>, count: usize) -> (r: Result<Vec<usize>, PickError>)
    ensures
        match r {
            Ok(list) => picked_parts(parts.deep_view(), count as nat) == Ok::<
                Seq<nat>,
                PickErrorView,
            >(as_nats(list@)),
            Err(e) => picked_parts(parts.deep_view(), count as nat) == Err::<
                Seq<nat>,
                PickErrorView,
            >(e.deep_view()),
        },
{
    let ghost pv = parts.deep_view();
    let mut out: Vec<usize> = Vec::new();
    let mut i: usize = 0;
    assert(pv.take(0) =~= Seq::<Seq<char>>::empty());
    assert(as_nats(out@) =~= Seq::<nat>::empty());
    while i < parts.len()
        invariant
            i <= parts@.len(),
            pv == parts.deep_view(),
            picked_parts(pv.take(i as int), count as nat) == Ok::<Seq<nat>, PickErrorView>(
                as_nats(out@),
            ),
        decreases parts.len() - i,
    {
        let ghost t = pv.take(i + 1);
        assert(t.drop_last() =~= pv.take(i as int));
        assert(t.last() == parts@[i as int]@);
        let e = match parse_word(text::trim(parts[i].as_str()).as_str()) {
            Some(n) => if n == 0 || n > count {
                Some(PickError::PartOutOfRange { choice: n, count })
            } else {
                let ghost before = as_nats(out@);
                out.push(n - 1);
                assert(as_nats(out@) =~= before.push((n - 1) as nat));
                None
            },
            None => Some(PickError::PartIsNoNumber { part: parts[i].clone() }),
        };
        if let Some(e) = e {
            proof {
                lemma_part_error_stays(pv, count as nat, i + 1);
            }
            return Err(e);
        }
        i += 1;
    }
    assert(pv.take(i as int) =~= pv);
    Ok(out)
}

proof fn lemma_part_error_stays(parts: Seq<Seq<char>>, count: nat, k: int)
    requires
        0 <= k <= parts.len(),
        picked_parts(parts.take(k), count) is Err,
    ensures
        picked_parts(parts, count) == picked_parts(parts.take(k), count),
    decreases parts.len() - k,
{
    if k == parts.len() {
        assert(parts.take(k) =~= parts);
    } else {
        assert(parts.take(k + 1).drop_last() =~= parts.take(k));
        lemma_part_error_stays(parts, count, k + 1);
    }
}

/// What an answer picks of a group's options, by the kind of the group: one,
/// one or none, or any number between commas. Where all are installed no
/// answer is needed.
pub fn prompt_group_choice(kind: GroupType, count: usize, answer: &str) -> (r: Result<
    Vec<usize>,
    PickError,
>)
    ensures
        match r {
            Ok(list) => group_choice(kind, count as nat, answer@) == Ok::<Seq<nat>, PickErrorView>(
                as_nats(list@),
            ),
            Err(e) => group_choice(kind, count as nat, answer@) == Err::<Seq<nat>, PickErrorView>(
                e.deep_view(),
            ),
        },
{
    let none: Vec<usize> = Vec::new();
    assert(as_nats(none@) =~= Seq::<nat>::empty());
    if count == 0 {
        return Ok(none);
    }
    let a = text::trim(answer);
    match kind {
        GroupType::SelectAll => Ok(all_places(count)),
        GroupType::SelectExactlyOne => match prompt_pick(answer, count) {
            Ok(i) => Ok(one_place(i)),
            Err(e) => Err(e),
        },
        GroupType::SelectAtMostOne => {
            if a.as_str().is_empty() {
                return Ok(none);
            }
            match parse_word(a.as_str()) {
                Some(n) => if n == 0 || n > count {
                    Err(PickError::OutOfRange { count })
                } else {
                    Ok(one_place(n - 1))
                },
                None => Err(PickError::NotANumberNorBlank),
            }
        },
        GroupType::SelectAny | GroupType::SelectAtLeastOne => {
            if a.as_str().is_empty() {
                if kind == GroupType::SelectAtLeastOne {
                    return Err(PickError::NothingPicked);
                }
                return Ok(none);
            }
            let parts = text::split(a.as_str(), ',');
            pick_parts(&parts, count)
        },
    }
}

/// The line for an option of a group.
pub fn option_line(place: usize, option: &FomodOption) -> (r: String)
    requires
        place < usize::MAX,
    ensures
        r@ == "  ["@ + text::decimal((place + 1) as nat) + "] "@ + option.name@ + (
        if option.description@.len() == 0 {
            Seq::empty()
        } else {
            " — "@ + option.description@
        }),
{
    let mut line = text::concat3("  [", text::number_text((place + 1) as u64).as_str(), "] ");
    line.append(option.name.as_str());
    if !option.description.as_str().is_empty() {
        line.append(text::concat(" — ", option.description.as_str()).as_str());
    }
    assert(line@ =~= "  ["@ + text::decimal((place + 1) as nat) + "] "@ + option.name@ + (
    if option.description@.len() == 0 {
        Seq::empty()
    } else {
        " — "@ + option.description@
    }));
    line
}

// ---------------------------------------------------------------------------
// Choosing a game
// ---------------------------------------------------------------------------

/// The short name of an edition.
pub open spec fn edition_name(e: GameEdition) -> Seq<char> {
    match e {
        GameEdition::LE => "LE"@,
        GameEdition::SE => "SE"@,
        GameEdition::AE => "AE"@,
        GameEdition::VR => "VR"@,
    }
}

/// The short name of an edition.
pub fn edition_text(e: GameEdition) -> (r: &'static str)
    ensures
        r@ == edition_name(e),
{
    match e {
        GameEdition::LE => "LE",
        GameEdition::SE => "SE",
        GameEdition::AE => "AE",
        GameEdition::VR => "VR",
    }
}

/// How many whole days lie between two times; none where the first is later.
pub open spec fn days_between(then_: nat, now: nat) -> nat {
    if then_ <= now {
        ((now - then_) / 86400) as nat
    } else {
        0
    }
}

/// When a game's folder was last touched, in words.
pub open spec fn touched(modified: Option<u64>, now: u64) -> Seq<char> {
    match modified {
        None => "no timestamp available"@,
        Some(secs) => {
            let days = days_between(secs as nat, now as nat);
            if days == 0 {
                "Data folder touched today"@
            } else {
                "Data folder last touched "@ + text::decimal(days) + " day(s) ago"@
            }
        },
    }
}

/// When a game's folder was last touched, in words.
pub fn last_touched(modified: Option<u64>, now: u64) -> (r: String)
    ensures
        r@ == touched(modified, now),
{
    match modified {
        None => "no timestamp available".to_owned(),
        Some(secs) => {
            let days: u64 = if secs <= now {
                (now - secs) / 86400
            } else {
                0
            };
            if days == 0 {
                "Data folder touched today".to_owned()
            } else {
                text::concat3(
                    "Data folder last touched ",
                    text::number_text(days).as_str(),
                    " day(s) ago",
                )
            }
        },
    }
}

/// The lines for a game that was found.
pub open spec fn found_text(place: nat, d: DetectedGameView, now: u64) -> Seq<char> {
    "  ["@ + text::decimal(place + 1) + "] "@ + edition_name(d.game.edition) + " — "@
        + d.source_label + "\n        "@ + d.game.install_dir + "\n        "@ + touched(
        d.data_dir_modified_secs,
        now,
    )
}

/// The lines for a game that was found: its edition, where it was found, its
/// folder and when that was last touched.
pub fn found_line(place: usize, d: &DetectedGame, now: u64) -> (r: String)
    requires
        place < usize::MAX,
    ensures
        r@ == found_text(place as nat, d.deep_view(), now),
{
    let mut out = text::concat3("  [", text::number_text((place + 1) as u64).as_str(), "] ");
    out.append(edition_text(d.game.edition));
    out.append(" — ");
    out.append(d.source_label.as_str());
    out.append("\n        ");
    out.append(d.game.install_dir.as_str());
    out.append("\n        ");
    out.append(last_touched(d.data_dir_modified_secs, now).as_str());
    out
}

/// What to do with the games that a scan found.
#[derive(Debug, Clone, Copy, PartialEq, Eq, Structural)]
pub enum ScanOutcome {
    NoneFound,
    /// There is one: it is taken.
    TakeIt,
    /// There are several: a person picks.
    Ask,
}

/// What to do with the games that a scan found.
pub fn scan_outcome(found: usize) -> (r: ScanOutcome)
    ensures
        r == (if found == 0 {
            ScanOutcome::NoneFound
        } else if found == 1 {
            ScanOutcome::TakeIt
        } else {
            ScanOutcome::Ask
        }),
{
    if found == 0 {
        ScanOutcome::NoneFound
    } else if found == 1 {
        ScanOutcome::TakeIt
    } else {
        ScanOutcome::Ask
    }
}

/// Which game a command works on.
#[derive(Debug, Clone)]
pub enum GameChoice {
    /// This one.
    Use { game: GameInstall },
    /// The one that a scan finds: none is known yet.
    Scan,
    /// None: games are known, and none is active.
    NoneActive,
}

/// Which game a command works on: the active one, or, where none is known yet,
/// the one that a scan finds. Where games are known and none is active, none
/// is picked unasked.
pub fn ensure_active_game(config: &Config) -> (r: GameChoice)
    ensures
        match r {
            GameChoice::Use { game } => crate::config::active_in(config.deep_view()) == Some(
                game.deep_view(),
            ),
            GameChoice::Scan => crate::config::active_in(config.deep_view()) is None
                && config.deep_view().known_games.len() == 0,
            GameChoice::NoneActive => crate::config::active_in(config.deep_view()) is None
                && config.deep_view().known_games.len() > 0,
        },
{
    assert(config.deep_view().known_games.len() == config.known_games@.len());
    match config.active_game() {
        Some(g) => GameChoice::Use { game: g.copy() },
        None => if config.known_games.len() == 0 {
            GameChoice::Scan
        } else {
            GameChoice::NoneActive
        },
    }
}

/// The place of the first game, from place `i` on, whose id begins with this
/// text, or the number of games.
pub open spec fn game_with_prefix(games: Seq<GameInstallView>, prefix: Seq<char>, i: int) -> int
    decreases games.len() - i,
{
    if i >= games.len() || text::holds_at(games[i].id, prefix, 0) {
        i
    } else {
        game_with_prefix(games, prefix, i + 1)
    }
}

/// Makes the first known game whose id begins with this text the active one,
/// and tells its folder. None where there is no such game.
pub fn use_game(config: &mut Config, prefix: &str) -> (r: Option<String>)
    ensures
        ({
            let games = old(config).deep_view().known_games;
            let i = game_with_prefix(games, prefix@, 0);
            if i < games.len() {
                &&& r.deep_view() == Some(games[i].install_dir)
                &&& final(config).deep_view() == (ConfigView {
                    active_game_id: Some(games[i].id),
                    ..old(config).deep_view()
                })
            } else {
                r is None && final(config).deep_view() == old(config).deep_view()
            }
        }),
{
    let ghost games = config.deep_view().known_games;
    let mut i: usize = 0;
    while i < config.known_games.len()
        invariant
            i <= config.known_games@.len(),
            games == config.deep_view().known_games,
            config.deep_view() == old(config).deep_view(),
            game_with_prefix(games, prefix@, 0) == game_with_prefix(games, prefix@, i as int),
        decreases config.known_games.len() - i,
    {
        assert(games[i as int] == config.known_games@[i as int].deep_view());
        if text::has_prefix(config.known_games[i].id.as_str(), prefix) {
            let id = config.known_games[i].id.clone();
            let dir = config.known_games[i].install_dir.clone();
            config.active_game_id = Some(id);
            return Some(dir);
        }
        i += 1;
    }
    None
}

/// The line for a known game.
pub fn game_line(config: &Config, place: usize, colored: bool) -> (r: String)
    requires
        place < config.known_games@.len(),
    ensures
        ({
            let g = config.deep_view().known_games[place as int];
            r@ == g.id + "  "@ + edition_name(g.edition) + "  "@ + g.install_dir + (
            if config.deep_view().active_game_id == Some(g.id) {
                color::painted("32"@, " (active)"@, colored)
            } else {
                Seq::empty()
            })
        }),
{
    let g = &config.known_games[place];
    assert(config.deep_view().known_games[place as int] == g.deep_view());
    let mut out = text::concat3(g.id.as_str(), "  ", edition_text(g.edition));
    out.append("  ");
    out.append(g.install_dir.as_str());
    let active = match &config.active_game_id {
        Some(id) => text::same_text(id.as_str(), g.id.as_str()),
        None => false,
    };
    let ghost line = out@;
    if active {
        out.append(color::green(" (active)", colored).as_str());
    } else {
        assert(line + Seq::<char>::empty() =~= line);
    }
    out
}

// ---------------------------------------------------------------------------
// Errors
// ---------------------------------------------------------------------------

/// What may help against an error with this text.
pub open spec fn hint_for(message: Seq<char>) -> Option<Seq<char>> {
    if text::holds(message, "No such file"@) || text::holds(message, "does not exist"@) {
        Some("Hint: check the path exists and you have permission to read it."@)
    } else if text::holds(message, "Permission denied"@) {
        Some(
            "Hint: check file ownership/permissions, or that the game isn't locking Data."@,
        )
    } else if text::holds(message, "no active game"@) {
        Some("Hint: run detect-game once and pick your install."@)
    } else if text::holds(message, "corrupt"@) {
        Some(
            "Hint: the broken file was quarantined with a .corrupt.* suffix; defaults were restored."@,
        )
    } else {
        None
    }
}

/// What may help against an error with this text.
pub fn friendly_err(message: &str) -> (r: Option<&'static str>)
    ensures
        match r {
            Some(h) => hint_for(message@) == Some(h@),
            None => hint_for(message@) is None,
        },
{
    if text::has_substring(message, "No such file") || text::has_substring(
        message,
        "does not exist",
    ) {
        Some("Hint: check the path exists and you have permission to read it.")
    } else if text::has_substring(message, "Permission denied") {
        Some("Hint: check file ownership/permissions, or that the game isn't locking Data.")
    } else if text::has_substring(message, "no active game") {
        Some("Hint: run detect-game once and pick your install.")
    } else if text::has_substring(message, "corrupt") {
        Some(
            "Hint: the broken file was quarantined with a .corrupt.* suffix; defaults were restored.",
        )
    } else {
        None
    }
}

// ---------------------------------------------------------------------------
// Lists between commas
// ---------------------------------------------------------------------------

/// What stands between commas, without white space around it; what is empty
/// then is left out.
pub open spec fn listed(parts: Seq<Seq<char>>) -> Seq<Seq<char>>
    decreases parts.len(),
{
    if parts.len() == 0 {
        Seq::empty()
    } else {
        let before = listed(parts.drop_last());
        let p = text::trimmed(parts.last());
        if p.len() > 0 {
            before.push(p)
        } else {
            before
        }
    }
}

/// What stands between commas: tags or ids.
pub fn split_list(list: &str) -> (r: Vec<String>)
    ensures
        r.deep_view() == listed(text::pieces(list@, ',')),
{
    let parts = text::split(list, ',');
    let ghost pv = parts.deep_view();
    let mut out: Vec<String> = Vec::new();
    let mut i: usize = 0;
    assert(pv.take(0) =~= Seq::<Seq<char>>::empty());
    assert(out.deep_view() =~= Seq::<Seq<char>>::empty());
    while i < parts.len()
        invariant
            i <= parts@.len(),
            pv == parts.deep_view(),
            out.deep_view() == listed(pv.take(i as int)),
        decreases parts.len() - i,
    {
        assert(pv.take(i + 1).drop_last() =~= pv.take(i as int));
        assert(pv.take(i + 1).last() == parts@[i as int]@);
        let p = text::trim(parts[i].as_str());
        if !p.as_str().is_empty() {
            let ghost before = out.deep_view();
            let ghost v = p@;
            out.push(p);
            assert(out.deep_view() =~= before.push(v));
        }
        i += 1;
    }
    assert(pv.take(i as int) =~= pv);
    out
}

// ---------------------------------------------------------------------------
// Installing
// ---------------------------------------------------------------------------

/// Whether space looks tight: less than twice what the install takes.
pub fn space_is_tight(free: u64, bytes: u64) -> (r: bool)
    ensures
        r == (bytes > 0 && (if 2 * bytes <= u64::MAX {
            free < 2 * bytes
        } else {
            free < u64::MAX
        })),
{
    let twice: u64 = if bytes <= u64::MAX / 2 {
        2 * bytes
    } else {
        u64::MAX
    };
    bytes > 0 && free < twice
}

/// Whether an install takes more than the space that is free.
pub fn exceeds_space(free: u64, bytes: u64) -> (r: bool)
    ensures
        r == (free < bytes),
{
    free < bytes
}

/// The name that a mod with an installer is shown under.
pub open spec fn installer_name(
    given: Option<Seq<char>>,
    module_name: Seq<char>,
    source: Seq<char>,
) -> Seq<char> {
    match given {
        Some(n) => n,
        None => if module_name.len() > 0 {
            module_name
        } else {
            match paths::file_name(source) {
                Some(f) => paths::stem_of(f),
                None => "FOMOD Mod"@,
            }
        },
    }
}

/// The name that a mod with an installer is shown under: the one that was
/// given, the installer's own, or the archive's.
pub fn fomod_display_name(given: Option<String>, module_name: &str, source: &str) -> (r: String)
    ensures
        r@ == installer_name(given.deep_view(), module_name@, source@),
{
    match given {
        Some(n) => n,
        None => if !module_name.is_empty() {
            module_name.to_owned()
        } else {
            match paths::last_step(source) {
                Some(f) => paths::name_stem(f.as_str()),
                None => "FOMOD Mod".to_owned(),
            }
        },
    }
}

/// The root of an archive, given where its installer was found: two folders up.
pub open spec fn root_above(config_path: Seq<char>, scratch: Seq<char>) -> Seq<char> {
    match paths::parent(config_path) {
        Some(p) => match paths::parent(p) {
            Some(root) => root,
            None => scratch,
        },
        None => scratch,
    }
}

/// The root of an archive, given where its installer was found.
pub fn archive_root(config_path: &str, scratch: &str) -> (r: String)
    ensures
        r@ == root_above(config_path@, scratch@),
{
    match paths::parent_of(config_path) {
        Some(p) => match paths::parent_of(p.as_str()) {
            Some(root) => root,
            None => scratch.to_owned(),
        },
        None => scratch.to_owned(),
    }
}

/// The program to launch: the script extender's loader where it is there, else
/// the game.
pub fn launch_path(install_dir: &str, edition: GameEdition, has_loader: bool) -> (r: String)
    ensures
        r@ == paths::joined(
            install_dir@,
            if has_loader {
                "skse64_loader.exe"@
            } else {
                game::exe_and_appid_of(edition).0
            },
        ),
{
    if has_loader {
        paths::join(install_dir, "skse64_loader.exe")
    } else {
        paths::join(install_dir, edition.exe_and_appid().0)
    }
}

/// Where the loader would be.
pub fn loader_path(install_dir: &str) -> (r: String)
    ensures
        r@ == paths::joined(install_dir@, "skse64_loader.exe"@),
{
    paths::join(install_dir, "skse64_loader.exe")
}

// ---------------------------------------------------------------------------
// Completions
// ---------------------------------------------------------------------------

/// The commands that are completed.
pub open spec fn command_names() -> Seq<Seq<char>> {
    seq![
        "detect-game"@,
        "list-games"@,
        "use-game"@,
        "install"@,
        "estimate-size"@,
        "update"@,
        "remove"@,
        "list-mods"@,
        "tag"@,
        "disk-usage"@,
        "which-mod"@,
        "new-profile"@,
        "list-profiles"@,
        "clone-profile"@,
        "rename-profile"@,
        "delete-profile"@,
        "enable"@,
        "disable"@,
        "enable-many"@,
        "disable-many"@,
        "reorder"@,
        "export-profile"@,
        "import-plugins"@,
        "conflicts"@,
        "validate"@,
        "dry-run"@,
        "deploy"@,
        "restore"@,
        "set-ini"@,
        "get-ini"@,
        "doctor"@,
        "completions"@,
    ]
}

fn commands() -> (r: Vec<String>)
    ensures
        r.deep_view() == command_names(),
{
    let names: Vec<&str> = vec![
        "detect-game",
        "list-games",
        "use-game",
        "install",
        "estimate-size",
        "update",
        "remove",
        "list-mods",
        "tag",
        "disk-usage",
        "which-mod",
        "new-profile",
        "list-profiles",
        "clone-profile",
        "rename-profile",
        "delete-profile",
        "enable",
        "disable",
        "enable-many",
        "disable-many",
        "reorder",
        "export-profile",
        "import-plugins",
        "conflicts",
        "validate",
        "dry-run",
        "deploy",
        "restore",
        "set-ini",
        "get-ini",
        "doctor",
        "completions",
    ];
    let ghost nv = names.deep_view();
    assert(nv =~= command_names());
    let mut out: Vec<String> = Vec::new();
    let mut i: usize = 0;
    while i < names.len()
        invariant
            i <= names@.len(),
            nv == names.deep_view(),
            out.deep_view() == nv.take(i as int),
        decreases names.len() - i,
    {
        let ghost before = out.deep_view();
        out.push(names[i].to_owned());
        i += 1;
        assert(out.deep_view() =~= before.push(nv[i - 1]));
        assert(out.deep_view() =~= nv.take(i as int));
    }
    assert(nv.take(i as int) =~= nv);
    out
}

/// Texts with something before and after each.
pub open spec fn wrapped(list: Seq<Seq<char>>, before: Seq<char>, after: Seq<char>) -> Seq<Seq<char>> {
    list.map_values(|s: Seq<char>| before + s + after)
}

fn wrap_all(list: &Vec<String>, before: &str, after: &str) -> (r: Vec<String>)
    ensures
        r.deep_view() == wrapped(list.deep_view(), before@, after@),
{
    let ghost goal = wrapped(list.deep_view(), before@, after@);
    let mut out: Vec<String> = Vec::new();
    let mut i: usize = 0;
    while i < list.len()
        invariant
            i <= list@.len(),
            goal == wrapped(list.deep_view(), before@, after@),
            out.deep_view() == goal.take(i as int),
        decreases list.len() - i,
    {
        let ghost sofar = out.deep_view();
        let s = text::concat3(before, list[i].as_str(), after);
        let ghost sv = s@;
        out.push(s);
        assert(out.deep_view() =~= sofar.push(sv));
        i += 1;
        assert(sv == goal[i - 1]);
        assert(out.deep_view() =~= goal.take(i as int));
    }
    assert(out.deep_view() =~= goal);
    out
}

/// A line of the script for fish.
pub open spec fn fish_line(c: Seq<char>) -> Seq<char> {
    "complete -c skyrim-modmgr -n \"__fish_use_subcommand\" -a "@ + c + " -d '"@ + c + "'"@
}

/// The lines of the script for fish.
pub open spec fn fish_lines(list: Seq<Seq<char>>) -> Seq<char>
    decreases list.len(),
{
    if list.len() == 0 {
        Seq::empty()
    } else {
        fish_lines(list.drop_last()) + fish_line(list.last()) + "\n"@
    }
}

/// The completion script for a shell, or None where the shell is unknown.
pub open spec fn completions_for(shell: Seq<char>) -> Option<Seq<char>> {
    let s = text::lowercase(shell);
    if s == "bash"@ {
        Some(
            "# skyrim-modmgr bash completion\n_skyrim_modmgr() {\n  local cur cmds\n  COMPREPLY=()\n  cur=\"${COMP_WORDS[COMP_CWORD]}\"\n  cmds=\""@
                + text::joined(command_names(), " "@)
                + "\"\n  if [[ $COMP_CWORD -eq 1 ]]; then\n    COMPREPLY=( $(compgen -W \"$cmds\" -- \"$cur\") )\n  fi\n}\ncomplete -F _skyrim_modmgr skyrim-modmgr\n\n"@,
        )
    } else if s == "zsh"@ {
        Some(
            "#compdef skyrim-modmgr\n_skyrim_modmgr() {\n  local -a cmds\n  cmds=(\n"@ + text::joined(
                wrapped(command_names(), "    '"@, "'"@),
                "\n"@,
            )
                + "\n  )\n  _describe 'command' cmds\n}\ncompdef _skyrim_modmgr skyrim-modmgr\n\n"@,
        )
    } else if s == "fish"@ {
        Some("# skyrim-modmgr fish completion\n"@ + fish_lines(command_names()))
    } else {
        None
    }
}

fn fish_script(list: &Vec<String>) -> (r: String)
    ensures
        r@ == fish_lines(list.deep_view()),
{
    let ghost lv = list.deep_view();
    let mut out = String::new();
    let mut i: usize = 0;
    assert(lv.take(0) =~= Seq::<Seq<char>>::empty());
    while i < list.len()
        invariant
            i <= list@.len(),
            lv == list.deep_view(),
            out@ == fish_lines(lv.take(i as int)),
        decreases list.len() - i,
    {
        let ghost t = lv.take(i + 1);
        assert(t.drop_last() =~= lv.take(i as int));
        assert(t.last() == list@[i as int]@);
        let c = &list[i];
        let mut line = text::concat3(
            "complete -c skyrim-modmgr -n \"__fish_use_subcommand\" -a ",
            c.as_str(),
            " -d '",
        );
        line.append(c.as_str());
        line.append("'");
        out.append(line.as_str());
        out.append("\n");
        i += 1;
    }
    assert(lv.take(i as int) =~= lv);
    out
}

/// The completion script for a shell, or an error where the shell is unknown.
pub fn print_completions(shell: &str) -> (r: Result<String, String>)
    ensures
        match r {
            Ok(script) => completions_for(shell@) == Some(script@),
            Err(message) => completions_for(shell@) is None && message@ == "unknown shell '"@
                + text::lowercase(shell@) + "' — use bash, zsh, or fish"@,
        },
{
    let s = text::to_lowercase(shell);
    let names = commands();
    if text::same_text(s.as_str(), "bash") {
        let out = text::concat3(
            "# skyrim-modmgr bash completion\n_skyrim_modmgr() {\n  local cur cmds\n  COMPREPLY=()\n  cur=\"${COMP_WORDS[COMP_CWORD]}\"\n  cmds=\"",
            text::join(&names, " ").as_str(),
            "\"\n  if [[ $COMP_CWORD -eq 1 ]]; then\n    COMPREPLY=( $(compgen -W \"$cmds\" -- \"$cur\") )\n  fi\n}\ncomplete -F _skyrim_modmgr skyrim-modmgr\n\n",
        );
        Ok(out)
    } else if text::same_text(s.as_str(), "zsh") {
        let items = wrap_all(&names, "    '", "'");
        let out = text::concat3(
            "#compdef skyrim-modmgr\n_skyrim_modmgr() {\n  local -a cmds\n  cmds=(\n",
            text::join(&items, "\n").as_str(),
            "\n  )\n  _describe 'command' cmds\n}\ncompdef _skyrim_modmgr skyrim-modmgr\n\n",
        );
        Ok(out)
    } else if text::same_text(s.as_str(), "fish") {
        Ok(text::concat("# skyrim-modmgr fish completion\n", fish_script(&names).as_str()))
    } else {
        Err(text::concat3("unknown shell '", s.as_str(), "' — use bash, zsh, or fish"))
    }
}

// ---------------------------------------------------------------------------
// Laws
// ---------------------------------------------------------------------------

/// The number that is shown for a thing picks that thing, and a number that is
/// shown for none picks none.
pub proof fn lemma_shown_numbers_pick(n: nat, count: nat, bad: PickErrorView)
    requires
        n <= usize::MAX,
    ensures
        1 <= n <= count ==> picked(text::decimal(n), count, bad) == Ok::<nat, PickErrorView>(
            (n - 1) as nat,
        ),
        n == 0 || n > count ==> picked(text::decimal(n), count, bad) == Err::<nat, PickErrorView>(
            PickErrorView::OutOfRange { count },
        ),
{
    text::lemma_decimal_is_read_back(n);
}

/// Whatever picks something picks one of the things there are.
pub proof fn lemma_picks_are_in_range(s: Seq<char>, count: nat, bad: PickErrorView)
    ensures
        picked(s, count, bad) is Ok ==> picked(s, count, bad)->Ok_0 < count && text::number_in(s)
            == Some(picked(s, count, bad)->Ok_0 + 1),
        text::number_in(s) is None ==> picked(s, count, bad) == Err::<nat, PickErrorView>(bad),
{
}

/// Several numbers pick several things, one for each number and in their order;
/// the first that picks nothing is told of.
pub proof fn lemma_every_part_picks(parts: Seq<Seq<char>>, count: nat)
    ensures
        match picked_parts(parts, count) {
            Ok(list) => {
                &&& list.len() == parts.len()
                &&& forall|k: int|
                    0 <= k < parts.len() ==> #[trigger] list[k] < count && text::number_in(
                        text::trimmed(parts[k]),
                    ) == Some(list[k] + 1)
            },
            Err(e) => exists|k: int|
                0 <= k < parts.len() && picked_parts(parts.take(k), count) is Ok && {
                    let n = word_in(text::trimmed(#[trigger] parts[k]));
                    ||| n is None && e == (PickErrorView::PartIsNoNumber { part: parts[k] })
                    ||| n is Some && (n->0 == 0 || n->0 > count) && e == (
                    PickErrorView::PartOutOfRange { choice: n->0, count })
                },
        },
    decreases parts.len(),
{
    if parts.len() > 0 {
        let t = parts.drop_last();
        let n = t.len() as int;
        lemma_every_part_picks(t, count);
        assert(parts[n] == parts.last());
        match picked_parts(t, count) {
            Ok(before) => {
                if picked_parts(parts, count) is Ok {
                    let list = picked_parts(parts, count)->Ok_0;
                    assert forall|k: int| 0 <= k < parts.len() implies #[trigger] list[k] < count
                        && text::number_in(text::trimmed(parts[k])) == Some(list[k] + 1) by {
                        if k < n {
                            assert(t[k] == parts[k]);
                            assert(list[k] == before[k]);
                        }
                    }
                } else {
                    assert(parts.take(n) =~= t);
                }
            },
            Err(e) => {
                let k = choose|k: int|
                    0 <= k < t.len() && picked_parts(t.take(k), count) is Ok && {
                        let n = word_in(text::trimmed(#[trigger] t[k]));
                        ||| n is None && e == (PickErrorView::PartIsNoNumber { part: t[k] })
                        ||| n is Some && (n->0 == 0 || n->0 > count) && e == (
                        PickErrorView::PartOutOfRange { choice: n->0, count })
                    };
                assert(parts.take(k) =~= t.take(k));
                assert(parts[k] == t[k]);
            },
        }
    }
}

/// How many options a choice can hold, by the kind of the group: all, one, at
/// most one, at least one, or any number; each of them is one of the group's.
pub proof fn lemma_choices_fit_the_group(kind: GroupType, count: nat, answer: Seq<char>)
    requires
        count > 0,
    ensures
        group_choice(kind, count, answer) matches Ok(list) ==> {
            &&& forall|k: int| 0 <= k < list.len() ==> #[trigger] list[k] < count
            &&& kind is SelectAll ==> list.len() == count && forall|k: int|
                0 <= k < count ==> #[trigger] list[k] == k
            &&& kind is SelectExactlyOne ==> list.len() == 1
            &&& kind is SelectAtMostOne ==> list.len() <= 1
            &&& kind is SelectAtLeastOne ==> list.len() >= 1
        },
        kind is SelectAll ==> group_choice(kind, count, answer) is Ok,
        text::trimmed(answer).len() == 0 ==> {
            &&& kind is SelectAny || kind is SelectAtMostOne ==> group_choice(kind, count, answer)
                == Ok::<Seq<nat>, PickErrorView>(Seq::empty())
            &&& kind is SelectAtLeastOne ==> group_choice(kind, count, answer) == Err::<
                Seq<nat>,
                PickErrorView,
            >(PickErrorView::NothingPicked)
        },
        text::trimmed(answer).len() > 0 && (kind is SelectAny || kind is SelectAtLeastOne)
            ==> group_choice(kind, count, answer) == picked_parts(
            text::pieces(text::trimmed(answer), ','),
            count,
        ),
{
    let a = text::trimmed(answer);
    let parts = text::pieces(a, ',');
    lemma_every_part_picks(parts, count);
    text::lemma_pieces_join(a, ',');
}

/// A number of whole days is the largest that fits between the two times.
pub proof fn lemma_whole_days(then_: nat, now: nat)
    requires
        then_ <= now,
    ensures
        days_between(then_, now) * 86400 <= now - then_,
        now - then_ < (days_between(then_, now) + 1) * 86400,
{
}

/// The game that is picked by the beginning of its id is the first that has it.
pub proof fn lemma_first_game_is_picked(
    games: Seq<GameInstallView>,
    prefix: Seq<char>,
    i: int,
    k: int,
)
    requires
        0 <= i <= k <= games.len(),
        forall|j: int| i <= j < k ==> !text::holds_at((#[trigger] games[j]).id, prefix, 0),
        k < games.len() ==> text::holds_at(games[k].id, prefix, 0),
    ensures
        game_with_prefix(games, prefix, i) == k,
    decreases k - i,
{
    if i < k {
        lemma_first_game_is_picked(games, prefix, i + 1, k);
    }
}

/// Everything between commas is listed, but for what is blank.
pub proof fn lemma_everything_between_commas(parts: Seq<Seq<char>>)
    ensures
        listed(parts) == parts.filter(|p: Seq<char>| text::trimmed(p).len() > 0).map_values(
            |p: Seq<char>| text::trimmed(p),
        ),
    decreases parts.len(),
{
    let pred = |p: Seq<char>| text::trimmed(p).len() > 0;
    let f = |p: Seq<char>| text::trimmed(p);
    if parts.len() == 0 {
        lists::lemma_filter_map_none(parts, pred, f);
    } else {
        let t = parts.drop_last();
        lemma_everything_between_commas(t);
        lists::lemma_filter_map_push(t, parts.last(), pred, f);
        assert(t.push(parts.last()) =~= parts);
    }
}

/// The script for fish has a line for every command.
pub proof fn lemma_every_command_is_completed(list: Seq<Seq<char>>)
    ensures
        fish_lines(list) == list.map_values(|c: Seq<char>| fish_line(c) + "\n"@).flatten(),
    decreases list.len(),
{
    let f = |c: Seq<char>| fish_line(c) + "\n"@;
    if list.len() == 0 {
        assert(list.map_values(f).flatten() =~= Seq::<char>::empty());
    } else {
        let t = list.drop_last();
        lemma_every_command_is_completed(t);
        assert(list.map_values(f) =~= t.map_values(f).push(f(list.last())));
        lists::lemma_flatten_push(t.map_values(f), f(list.last()));
        assert(fish_lines(list) =~= fish_lines(t) + f(list.last()));
    }
}

/// What says yes: `y` or `yes`, whatever the case of letters and the white space
/// around it. Nothing typed says no.
pub proof fn lemma_what_says_yes(answer: Seq<char>)
    ensures
        says_yes(answer) <==> seq!["y"@, "yes"@].contains(text::lowercase(text::trimmed(answer))),
{
    let words = seq!["y"@, "yes"@];
    assert(words[0] == "y"@ && words[1] == "yes"@);
    if words.contains(text::lowercase(text::trimmed(answer))) {
        let k = choose|k: int|
            0 <= k < words.len() && words[k] == text::lowercase(text::trimmed(answer));
        assert(0 <= k < 2);
    }
}

/// The root of an archive is the folder that the installer's folder is in.
pub proof fn lemma_root_of_an_archive(
    root: Seq<char>,
    folder: Seq<char>,
    name: Seq<char>,
    scratch: Seq<char>,
)
    requires
        root.len() > 0,
        root.last() != '/',
        paths::settled(root) == root,
        folder.len() > 0,
        text::lacks(folder, '/'),
        folder != seq!['.'],
        name.len() > 0,
        text::lacks(name, '/'),
        name != seq!['.'],
    ensures
        root_above(paths::joined(paths::joined(root, folder), name), scratch) == root,
{
    let f = paths::joined(root, folder);
    paths::lemma_parent_of_joined(root, folder);
    paths::lemma_settled_joined(root, folder);
    assert(f.last() == folder[folder.len() - 1]);
    paths::lemma_parent_of_joined(f, name);
}

/// The name of a mod with an installer: the one that was given, else the
/// installer's own, else that of the archive without its extension.
pub proof fn lemma_name_of_an_installer(
    given: Seq<char>,
    module_name: Seq<char>,
    base: Seq<char>,
    stem: Seq<char>,
    ext: Seq<char>,
)
    requires
        stem.len() > 0,
        text::lacks(stem, '/'),
        text::lacks(ext, '/'),
        text::lacks(ext, '.'),
        ext.len() > 0,
    ensures
        ({
            let source = paths::joined(base, stem + seq!['.'] + ext);
            &&& installer_name(Some(given), module_name, source) == given
            &&& module_name.len() > 0 ==> installer_name(None, module_name, source) == module_name
            &&& installer_name(None, Seq::empty(), source) == stem
        }),
{
    let name = stem + seq!['.'] + ext;
    assert forall|j: int| 0 <= j < name.len() implies #[trigger] name[j] != '/' by {
        if j < stem.len() {
            assert(name[j] == stem[j]);
        } else if j > stem.len() {
            assert(name[j] == ext[j - stem.len() - 1]);
        }
    }
    if name == seq!['.'] {
        assert(name.len() == 1);
    }
    if name == seq!['.', '.'] {
        assert(name.len() == 2);
    }
    paths::lemma_name_of_joined(base, name);
    paths::lemma_extension_behind_dot(stem, ext);
}

} // verus!
