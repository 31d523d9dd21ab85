use skyrim_modmgr::audit::{
    check_error_context, check_path_assumptions, check_unwrap_audit, test_module_mask,
};
use skyrim_modmgr::backup::BackupResult;
use skyrim_modmgr::check::{item, progress_done, progress_line, Report};
use skyrim_modmgr::cli::{
    archive_root, confirm, confirm_prompt, edition_text, ensure_active_game, fomod_display_name,
    found_line, friendly_err, game_line, group_prompt, last_touched, launch_path, loader_path,
    option_line, pick_prompt, print_completions, prompt_group_choice, prompt_pick, scan_outcome,
    exceeds_space, space_is_tight, split_list, use_game, GameChoice, GroupPrompt, ScanOutcome,
};
use skyrim_modmgr::color;
use skyrim_modmgr::commands::{
    build_plugin_path_lookup, conflict_report, cycle_line, disable_many, enable_many,
    follow_delete, follow_rename, list_mods, mod_line, mod_sort, overlap_report, profile_ids,
    profile_line, resolve_profile, sort_outcome, store_ids, undo, ModSort, SortOutcome, UndoState,
};
use skyrim_modmgr::config::Config;
use std::collections::hash_map::DefaultHasher;
use std::hash::{Hash, Hasher};
use skyrim_modmgr::doctor::{
    hash_contents,
    check_cargo_audit, check_cargo_test, check_clippy, check_deploy_roundtrip,
    check_feature_builds, check_fuzz_install_deploy, check_regression_fixtures,
    check_symlink_cleanup_on_failure, find_crate_root, run_all, tail_lines, Attempt, BrokenInputs,
    DeployTrial, NameTrial, ToolRun,
};
use skyrim_modmgr::fomod::{FomodOption, GroupType};
use skyrim_modmgr::game::{DetectedGame, GameEdition, GameInstall};
use skyrim_modmgr::profile::Profile;
use skyrim_modmgr::saves::{SaveFile, SaveKind};
use skyrim_modmgr::store::{ModEntry, ModStore};
use skyrim_modmgr::vfs::Contribution;
use skyrim_modmgr::window::{
    backup_selection, backup_status, mod_is_enabled, picked_saves, shows_mod, toggle_pick, Click,
    Picks, Shown, Tab,
};

fn texts(list: &[&str]) -> Vec<String> {
    list.iter().map(|s| s.to_string()).collect()
}

fn entry(id: &str, name: &str, installed_at: u64, tags: &[&str]) -> ModEntry {
    ModEntry {
        id: id.to_string(),
        name: name.to_string(),
        version: None,
        installed_at,
        content_dir: format!("/mods/{id}"),
        root_normalized: true,
        tags: texts(tags),
    }
}

fn game(id: &str, dir: &str) -> GameInstall {
    GameInstall {
        id: id.to_string(),
        edition: GameEdition::SE,
        install_dir: dir.to_string(),
        data_dir: format!("{dir}/Data"),
        plugins_txt: format!("{dir}/plugins.txt"),
        wine_prefix: None,
    }
}

#[test]
fn report_markdown_and_terminal_render() {
    let r = Report { items: vec![item("T", "example", true, "ok")], duration_ms: 10 };
    assert!(r.to_markdown("0.0").contains("example"));
    assert!(r.to_terminal(false, "0.0").contains("example"));
    assert!(r.passed());
}

#[test]
fn report_is_rendered_exactly() {
    let mut broken = item("U", "other", false, "one\ntwo");
    broken.location = Some("src/x.rs:1".to_string());
    let r = Report { items: vec![item("T", "example", true, ""), broken], duration_ms: 1500 };
    assert!(!r.passed());
    assert_eq!((r.pass_count(), r.fail_count()), (1, 1));
    assert_eq!(
        r.to_terminal(false, "1.5"),
        "skyrim-modmgr doctor — automated checks\n\n\n▸ T\n  [PASS] example\n\n▸ U\n  [FAIL] other\n         \
         one\n         two\n         @ src/x.rs:1\n\nRESULT: PROBLEMS FOUND  1 passed, 1 failed  (1.5s)\n"
    );
    assert_eq!(
        r.to_markdown("1.5"),
        "# skyrim-modmgr doctor report\n\n**PROBLEMS FOUND** — 1 passed, 1 failed (1.5s)\n\n\n## T\n\n- ✅ \
         **example**\n\n## U\n\n- ❌ **other**\n  - one\n  - two\n  - location: `src/x.rs:1`\n\n"
    );
    assert_eq!(progress_line("hi", false), format!("\r…{:<60}", "hi"));
    assert_eq!(progress_done(), format!("\r{:<70}\r", ""));
}

#[test]
fn test_module_mask_covers_only_the_test_mod() {
    let text = "\
fn real_code() {
    let x = something().unwrap();
}

#[cfg(test)]
mod tests {
    use super::*;

    #[test]
    fn a_test() {
        let y = setup().unwrap();
        assert!(y.is_ok());
    }
}

fn more_real_code() {
    let z = other().unwrap();
}
";
    let mask = test_module_mask(text);
    let lines: Vec<&str> = text.lines().collect();
    for (i, line) in lines.iter().enumerate() {
        let in_test = mask[i];
        if line.contains("something().unwrap()") || line.contains("other().unwrap()") {
            assert!(!in_test, "line {i} ({line:?}) should NOT be masked as test code");
        }
        if line.contains("setup().unwrap()") {
            assert!(in_test, "line {i} ({line:?}) SHOULD be masked as test code");
        }
    }
}

#[test]
fn audits_point_at_lines() {
    let files = vec![(
        "src/a.rs".to_string(),
        "fn f() {\n    let x = Path::new(p).parent().unwrap();\n    // fs::read(x).unwrap()\n    y.unwrap();\n}\n"
            .to_string(),
    )];
    let items = check_unwrap_audit(&files);
    assert!(!items[0].passed);
    assert_eq!(
        items[0].detail,
        "1 site(s) that may panic on bad input:\nsrc/a.rs:2: let x = Path::new(p).parent().unwrap();"
    );
    assert!(check_unwrap_audit(&Vec::new())[0].passed);
    let files = vec![
        ("src/b.rs".to_string(), "let a = \"/home/me\";\nlet c = Path::new(\"C:\\\\x\");\n".to_string()),
        ("src/prefix.rs".to_string(), "let a = \"/mnt/x\";\n".to_string()),
        ("src/check.rs".to_string(), "let a = \"/home/me\";\n".to_string()),
        ("src/audit.rs".to_string(), "let a = \"/home/me\";\n".to_string()),
    ];
    let items = check_path_assumptions(&files);
    assert!(!items[0].passed);
    assert_eq!(
        items[0].detail,
        "src/b.rs:1: let a = \"/home/me\";\nsrc/b.rs:2: possible Windows-only path literal: let c = Path::new(\"C:\\\\x\");"
    );
    let files = vec![
        ("src/b.rs".to_string(), "x\nfs::write(p, d)?;\nfs::copy(a, b).with_context(|| \"x\")?;\n".to_string()),
        ("src/audit.rs".to_string(), "fs::write(p, d)?;\n".to_string()),
    ];
    let items = check_error_context(&files);
    assert!(items[0].passed);
    assert_eq!(
        items[0].detail,
        "1 write site(s) without on-line with_context (errors still propagate via ?):\nsrc/b.rs:2"
    );
}

#[test]
fn answers_are_understood() {
    assert!(confirm(" YES \n"));
    assert!(confirm("y"));
    assert!(!confirm("\n"));
    assert!(!confirm("yep"));
    assert_eq!(confirm_prompt("Sure?"), "Sure? [y/N]: ");
    assert_eq!(pick_prompt(3), "Pick one [1-3]: ");
    assert_eq!(prompt_pick(" 2 \n", 3).unwrap(), 1);
    let words = |r: Result<usize, skyrim_modmgr::cli::PickError>| r.unwrap_err().message();
    assert_eq!(words(prompt_pick("x", 3)), "not a number — enter the index shown in brackets");
    assert_eq!(words(prompt_pick("0", 3)), "choice out of range (need 1–3)");
    assert_eq!(words(prompt_pick("4", 3)), "choice out of range (need 1–3)");
}

#[test]
fn groups_of_options_are_asked() {
    assert!(matches!(group_prompt(GroupType::SelectAll, 2), GroupPrompt::Tell { .. }));
    assert!(matches!(group_prompt(GroupType::SelectAny, 0), GroupPrompt::Nothing));
    assert!(matches!(group_prompt(GroupType::SelectExactlyOne, 2), GroupPrompt::Ask { question } if question == "Pick one [1-2]: "));
    assert!(matches!(group_prompt(GroupType::SelectAtMostOne, 2), GroupPrompt::Ask { question } if question == "  Pick one [1-2], or press Enter for none: "));
    assert!(matches!(group_prompt(GroupType::SelectAny, 2), GroupPrompt::Ask { question } if question == "  Pick any number, comma-separated [1-2]: "));
    let choice = |k: GroupType, n: usize, a: &str| prompt_group_choice(k, n, a).map_err(|e| e.message());
    assert_eq!(choice(GroupType::SelectAll, 3, ""), Ok(vec![0, 1, 2]));
    assert_eq!(choice(GroupType::SelectAtMostOne, 3, "\n"), Ok(vec![]));
    assert_eq!(choice(GroupType::SelectAny, 3, " 3, 1 "), Ok(vec![2, 0]));
    assert_eq!(choice(GroupType::SelectAny, 3, ""), Ok(vec![]));
    assert_eq!(choice(GroupType::SelectAny, 0, "x"), Ok(vec![]));
    assert_eq!(
        choice(GroupType::SelectAtLeastOne, 3, " "),
        Err("this group requires at least one selection".to_string())
    );
    assert_eq!(choice(GroupType::SelectAny, 3, "1,x"), Err("'x' is not a number".to_string()));
    assert_eq!(choice(GroupType::SelectAny, 3, "9"), Err("choice 9 out of range (need 1–3)".to_string()));
    assert_eq!(
        choice(GroupType::SelectAtMostOne, 3, "q"),
        Err("not a number — enter the index shown in brackets, or leave blank".to_string())
    );
    let o = FomodOption { name: "A".into(), description: "best".into(), files: Vec::new() };
    assert_eq!(option_line(0, &o), "  [1] A — best");
}

#[test]
fn installs_are_offered() {
    assert!(matches!(scan_outcome(0), ScanOutcome::NoneFound));
    assert!(matches!(scan_outcome(1), ScanOutcome::TakeIt));
    assert!(matches!(scan_outcome(2), ScanOutcome::Ask));
    assert_eq!(edition_text(GameEdition::VR), "VR");
    assert_eq!(last_touched(None, 5), "no timestamp available");
    assert_eq!(last_touched(Some(100), 100 + 86399), "Data folder touched today");
    assert_eq!(last_touched(Some(0), 86400 * 3), "Data folder last touched 3 day(s) ago");
    let d = DetectedGame {
        game: game("1", "/g"),
        source_label: "Plain Wine (~/.wine)".to_string(),
        data_dir_modified_secs: None,
    };
    assert_eq!(
        found_line(1, &d, 0),
        "  [2] SE — Plain Wine (~/.wine)\n        /g\n        no timestamp available"
    );
}

#[test]
fn games_are_chosen() {
    let mut c = Config::default();
    assert!(matches!(ensure_active_game(&c), GameChoice::Scan));
    c.known_games.push(game("abc", "/a"));
    c.known_games.push(game("abd", "/b"));
    assert!(matches!(ensure_active_game(&c), GameChoice::NoneActive));
    assert_eq!(use_game(&mut c, "abd").as_deref(), Some("/b"));
    assert!(matches!(ensure_active_game(&c), GameChoice::Use { game } if game.id == "abd"));
    assert_eq!(use_game(&mut c, "ab").as_deref(), Some("/a"));
    assert_eq!(use_game(&mut c, "x"), None);
    assert_eq!(game_line(&c, 0, false), "abc  SE  /a (active)");
    assert_eq!(game_line(&c, 1, false), "abd  SE  /b");
    assert_eq!(launch_path("/a", GameEdition::LE, false), "/a/TESV.exe");
    assert_eq!(launch_path("/a", GameEdition::SE, true), "/a/skse64_loader.exe");
    assert_eq!(loader_path("/a"), "/a/skse64_loader.exe");
}

#[test]
fn errors_come_with_a_hint() {
    assert_eq!(
        friendly_err("x: No such file"),
        Some("Hint: check the path exists and you have permission to read it.")
    );
    assert_eq!(
        friendly_err("Permission denied"),
        Some("Hint: check file ownership/permissions, or that the game isn't locking Data.")
    );
    assert_eq!(friendly_err("no active game"), Some("Hint: run detect-game once and pick your install."));
    assert_eq!(
        friendly_err("store is corrupt"),
        Some("Hint: the broken file was quarantined with a .corrupt.* suffix; defaults were restored.")
    );
    assert_eq!(friendly_err("other"), None);
}

#[test]
fn small_rules_of_the_command_line() {
    assert_eq!(split_list(" a, ,b,"), texts(&["a", "b"]));
    assert!(space_is_tight(199, 100));
    assert!(!space_is_tight(200, 100));
    assert!(!space_is_tight(0, 0));
    assert!(exceeds_space(99, 100));
    assert!(!exceeds_space(100, 100));
    assert_eq!(fomod_display_name(Some("X".into()), "M", "/a.zip"), "X");
    assert_eq!(fomod_display_name(None, "M", "/a.zip"), "M");
    assert_eq!(fomod_display_name(None, "", "/a.zip"), "a");
    assert_eq!(fomod_display_name(None, "", "/"), "FOMOD Mod");
    assert_eq!(archive_root("/t/Mod/fomod/ModuleConfig.xml", "/t"), "/t/Mod");
    assert_eq!(archive_root("x", "/t"), "/t");
}

#[test]
fn completions_for_each_shell() {
    let bash = print_completions("BASH").unwrap();
    assert!(bash.starts_with("# skyrim-modmgr bash completion\n_skyrim_modmgr() {\n"));
    assert!(bash.contains("cmds=\"detect-game list-games use-game install "));
    assert!(bash.ends_with("complete -F _skyrim_modmgr skyrim-modmgr\n\n"));
    let zsh = print_completions("zsh").unwrap();
    assert!(zsh.contains("  cmds=(\n    'detect-game'\n    'list-games'\n"));
    let fish = print_completions("fish").unwrap();
    assert!(fish.starts_with(
        "# skyrim-modmgr fish completion\ncomplete -c skyrim-modmgr -n \"__fish_use_subcommand\" -a detect-game -d 'detect-game'\n"
    ));
    assert_eq!(fish.lines().count(), 33);
    assert_eq!(
        print_completions("cmd").unwrap_err(),
        "unknown shell 'cmd' — use bash, zsh, or fish"
    );
}

#[test]
fn colors_only_where_wanted() {
    assert!(!color::enabled(true, true, true));
    assert!(color::enabled(false, true, false));
    assert!(color::enabled(false, false, true));
    assert!(!color::enabled(false, false, false));
    assert_eq!(color::green("x", true), "\x1b[32mx\x1b[0m");
    assert_eq!(color::red("x", true), "\x1b[31mx\x1b[0m");
    assert_eq!(color::yellow("x", true), "\x1b[33mx\x1b[0m");
    assert_eq!(color::cyan("x", true), "\x1b[36mx\x1b[0m");
    assert_eq!(color::bold("x", true), "\x1b[1mx\x1b[0m");
    assert_eq!(color::success("x", false), "✓ x");
    assert_eq!(color::error("x", false), "✗ x");
    assert_eq!(color::warn("x", false), "! x");
    assert_eq!(color::info("x", true), "\x1b[36m•\x1b[0m x");
}

#[test]
fn active_profile_follows() {
    let mut c = Config::default();
    assert_eq!(resolve_profile(&c, &None), None);
    c.active_profile = Some("Main".to_string());
    assert_eq!(resolve_profile(&c, &None).as_deref(), Some("Main"));
    assert_eq!(resolve_profile(&c, &Some("X".into())).as_deref(), Some("X"));
    assert_eq!(profile_line(&c, "Main"), "Main (active)");
    assert_eq!(profile_line(&c, "X"), "X");
    assert!(!follow_rename(&mut c, "X", "Y"));
    assert!(follow_rename(&mut c, "Main", "Y"));
    assert_eq!(c.active_profile.as_deref(), Some("Y"));
    assert!(!follow_delete(&mut c, "Main"));
    assert!(follow_delete(&mut c, "Y"));
    assert_eq!(c.active_profile, None);
}

#[test]
fn many_mods_at_once() {
    let store = ModStore { mods: vec![entry("a", "A", 1, &[]), entry("b", "B", 2, &[])] };
    let names = vec![texts(&["A.esp"]), texts(&["B.esp", "a.ESP"])];
    let mut p = Profile::new("Main", "g");
    enable_many(&mut p, &store, &names, &store_ids(&store));
    assert_eq!(p.enabled_mods_in_order(), vec!["a", "b"]);
    assert_eq!(p.plugin_order, texts(&["A.esp", "B.esp"]));
    let lookup = build_plugin_path_lookup(&store, &p, &names);
    assert_eq!(lookup.get("b.ESP").map(|s| s.as_str()), Some("/mods/b/B.esp"));
    assert_eq!(lookup.get("a.esp").map(|s| s.as_str()), Some("/mods/b/a.ESP"));
    let ids = profile_ids(&p);
    disable_many(&mut p, &ids);
    assert!(p.enabled_mods_in_order().is_empty());
}

#[test]
fn undo_twice_redoes() {
    let before = Profile::new("Main", "g");
    let mut after = Profile::new("Main", "g");
    after.enable_mod("a");
    let s = undo(UndoState { slot: Some(before), saved: Some(after) });
    assert!(s.saved.as_ref().unwrap().mod_order.is_empty());
    let s = undo(s);
    assert_eq!(s.saved.unwrap().enabled_mods_in_order(), vec!["a"]);
    assert!(s.slot.unwrap().mod_order.is_empty());
    let none = undo(UndoState { slot: None, saved: None });
    assert!(none.slot.is_none());
}

#[test]
fn outcome_of_sorting() {
    let a = texts(&["x", "y"]);
    let b = texts(&["y", "x"]);
    assert!(matches!(sort_outcome(&a, &a, false), SortOutcome::Unchanged));
    assert!(matches!(sort_outcome(&a, &b, true), SortOutcome::Shown));
    assert!(matches!(sort_outcome(&a, &b, false), SortOutcome::Saved));
    assert_eq!(cycle_line(&texts(&["A", "B", "A"])), "Circular dependency: A -> B -> A");
}

#[test]
fn mods_are_listed_as_asked() {
    let store = ModStore {
        mods: vec![
            entry("1", "banana", 5, &["Fruit"]),
            entry("2", "Apple", 9, &["fruit", "x"]),
            entry("3", "Cherry", 5, &[]),
        ],
    };
    let sizes = vec![10, 5, 30];
    let list = |tag: Option<&str>, search: Option<&str>, sort: ModSort| {
        list_mods(&store, &sizes, &tag.map(|t| t.to_string()), &search.map(|t| t.to_string()), sort)
    };
    assert_eq!(list(None, None, ModSort::Store), vec![0, 1, 2]);
    assert_eq!(list(None, None, ModSort::Name), vec![1, 0, 2]);
    assert_eq!(list(None, None, ModSort::Date), vec![1, 0, 2]);
    assert_eq!(list(None, None, ModSort::Size), vec![2, 0, 1]);
    assert_eq!(list(Some("fruit"), None, ModSort::Store), vec![1]);
    assert_eq!(list(None, Some("FRUIT"), ModSort::Size), vec![0, 1]);
    assert_eq!(list(None, Some("rry"), ModSort::Name), vec![2]);
    assert!(matches!(mod_sort(&Some("size".into())), Some(ModSort::Size)));
    assert!(matches!(mod_sort(&None), Some(ModSort::Store)));
    assert!(mod_sort(&Some("color".into())).is_none());
    assert_eq!(mod_line(&store.mods[1]), "2  Apple [fruit, x]  (/mods/2)");
    assert_eq!(mod_line(&store.mods[2]), "3  Cherry  (/mods/3)");
}

fn contribution(mod_id: &str, path: &str) -> Contribution {
    Contribution {
        mod_id: mod_id.to_string(),
        relative_path: path.to_string(),
        source_path: format!("/mods/{mod_id}/{path}"),
    }
}

#[test]
fn conflicts_are_reported() {
    let store = ModStore { mods: vec![entry("a", "Alpha", 1, &[])] };
    let table = vec![
        ("x".to_string(), vec![contribution("a", "x"), contribution("gone", "X")]),
        ("y".to_string(), vec![contribution("a", "y")]),
    ];
    assert_eq!(
        conflict_report(&store, &table, false),
        texts(&["x", "    [    ] Alpha", "    [WINS] gone"])
    );
    let overlaps = vec![(
        "m/x.nif".to_string(),
        vec![("a".to_string(), "A.bsa".to_string()), ("q".to_string(), "Q.bsa".to_string())],
    )];
    assert_eq!(
        overlap_report(&store, &overlaps),
        texts(&["m/x.nif", "        Alpha (A.bsa)", "        q (Q.bsa)"])
    );
}

#[test]
fn picks_of_the_window() {
    let all = texts(&["a", "b", "c"]);
    let mut p = Picks::new();
    toggle_pick(&mut p, true, &all);
    assert_eq!(p.len(), 3);
    p.remove("b");
    toggle_pick(&mut p, true, &all);
    assert!(!p.contains("b"));
    p.retain(&texts(&["a", "z"]));
    assert_eq!(p.names(), texts(&["a"]));
    p.insert("q");
    p.insert("q");
    assert_eq!(p.len(), 2);
    p.clear();
    assert_eq!(p.len(), 0);
    p.select_all(&all);
    assert!(p.contains("c"));
    let none = Picks::new();
    let s = backup_selection(true, false, &p, true, true, &p);
    assert!(s.include_mods && s.mod_ids.is_empty());
    assert_eq!(s.save_names.len(), 3);
    assert!(backup_selection(false, true, &p, false, true, &p).mod_ids.is_empty());
    let save = |n: &str| SaveFile {
        name: n.to_string(),
        path: format!("/s/{n}"),
        size_bytes: 1,
        modified_secs: None,
        kind: SaveKind::Other,
    };
    let saves = vec![save("a"), save("z")];
    assert_eq!(picked_saves(&saves, &p).len(), 1);
    assert_eq!(picked_saves(&saves, &none).len(), 0);
}

#[test]
fn what_the_window_shows() {
    let m = entry("a", "Alpha", 1, &["Tag"]);
    assert!(shows_mod(&m, ""));
    assert!(shows_mod(&m, "ALP"));
    assert!(shows_mod(&m, "tAg"));
    assert!(!shows_mod(&m, "zz"));
    let mut p = Profile::new("Main", "g");
    assert!(!mod_is_enabled(&p, "a"));
    p.enable_mod("a");
    assert!(mod_is_enabled(&p, "a"));
    let r = BackupResult {
        dest: "/b".into(),
        mods_backed_up: 1,
        saves_backed_up: 2,
        total_files: 3,
        total_bytes: 4,
    };
    assert_eq!(
        backup_status(&r, "4 B"),
        "Backup complete: 1 mod(s), 2 save(s), 3 file(s) (4 B) → /b"
    );
}

#[test]
fn intro_comes_before_the_first_backup() {
    let mut s = Shown {
        tab: Tab::Mods,
        saves_loaded: false,
        game_picker: false,
        backup_intro: false,
        intro_seen: false,
    };
    let e = s.clicked(Click::Backup);
    assert!(s.backup_intro && !e.run_backup && !e.load_saves);
    let e = s.clicked(Click::IntroAccepted);
    assert!(e.note_intro && e.load_saves && s.intro_seen && !s.backup_intro);
    assert!(matches!(s.tab, Tab::Backup));
    let e = s.clicked(Click::CreateBackup);
    assert!(e.run_backup);
    let e = s.clicked(Click::Detected(2));
    assert!(s.game_picker && !e.remember_game);
    let e = s.clicked(Click::GamePicked);
    assert!(e.remember_game && !s.game_picker && !s.saves_loaded);
    let e = s.clicked(Click::Tab(Tab::Saves));
    assert!(e.load_saves && s.saves_loaded);
}

fn broken_inputs() -> BrokenInputs {
    let failed = |e: &str| Attempt::Failed { error: e.to_string() };
    let installed = |id: &str| Attempt::Installed { id: id.to_string() };
    BrokenInputs {
        truncated: failed("bad zip"),
        empty: installed("i1"),
        broken_plugin: installed("i2"),
        empty_folder: installed("i3"),
        long_name: NameTrial::Returned,
        odd_name: NameTrial::Panicked,
        missing: failed("source path does not exist"),
    }
}

#[test]
fn broken_inputs_are_judged() {
    let items = check_fuzz_install_deploy(&broken_inputs());
    let passed: Vec<bool> = items.iter().map(|i| i.passed).collect();
    assert_eq!(passed, vec![true, false, true, true, true, false, true]);
    assert_eq!(items[0].detail, "error: bad zip");
    assert_eq!(items[1].detail, "unexpectedly succeeded as i1");
    assert_eq!(items[6].detail, "source path does not exist");
    assert_eq!(items[0].category, "Fuzz: install/deploy pipeline");
}

#[test]
fn fixtures_are_judged() {
    let table = vec![("armor.nif".to_string(), vec![contribution("a", "armor.nif"), contribution("b", "Armor.nif")])];
    let items = check_regression_fixtures("0123", "0123", &table, "b", true);
    assert!(items.iter().all(|i| i.passed));
    assert_eq!(items[0].detail, "id stable at 0123");
    assert_eq!(items[1].detail, "one conflict key, winner = higher-priority mod (b)");
    assert_eq!(items[2].detail, "masters = [\"Skyrim.esm\", \"Update.esm\"]");
    let items = check_regression_fixtures("1", "2", &Vec::new(), "b", false);
    assert!(!items[0].passed && !items[1].passed && !items[items.len() - 1].passed);
    assert_eq!(items[0].detail, "ids diverged: 1 vs 2");
}

#[test]
fn roundtrips_are_judged() {
    let items = check_deploy_roundtrip(&DeployTrial::Linked { files: 2 }, &None, "h", &Some("h".into()));
    assert!(items.iter().all(|i| i.passed));
    assert_eq!(items[0].detail, "2 files linked");
    let items = check_deploy_roundtrip(&DeployTrial::Linked { files: 2 }, &None, "h", &Some("k\"".into()));
    assert!(!items[2].passed);
    assert_eq!(items[2].detail, "pre=h post=Some(\"k\\\"\")");
    let items = check_symlink_cleanup_on_failure(false, true, true, &Some("no".into()));
    assert!(items[0].passed && items[1].passed && !items[2].passed);
    assert_eq!(items[0].detail, "is_symlink=false is_dir=true");
}

#[test]
fn tools_are_judged() {
    let ran = |ok: bool, out: &str| ToolRun::Ran {
        ok,
        stdout: out.to_string(),
        stderr: String::new(),
    };
    let absent = ToolRun::NotStarted { error: "gone".to_string() };
    assert_eq!(tail_lines("a\nb\nc", 2), "b\nc");
    assert_eq!(check_cargo_test(&ran(true, "test result: ok. 3 passed"))[0].detail, "test result: ok. 3 passed");
    assert!(!check_cargo_test(&absent)[0].passed);
    assert_eq!(check_cargo_test(&absent)[0].detail, "failed to invoke cargo: gone");
    assert_eq!(check_clippy(&ran(true, ""))[0].detail, "no warnings");
    assert!(check_clippy(&absent)[0].passed);
    assert!(check_clippy(&ran(false, "error: no such command: `clippy`"))[0].passed);
    let builds = check_feature_builds(&ran(true, ""), &absent);
    assert!(builds[0].passed && !builds[1].passed);
    assert_eq!(builds[1].detail, "cargo failed: gone");
    assert_eq!(check_cargo_audit(&ran(true, "x"))[0].detail, "no known vulnerabilities");
    assert!(!check_cargo_audit(&ran(false, "x"))[0].passed);
    assert!(check_cargo_audit(&absent)[0].passed);
}

#[test]
fn checks_are_put_together() {
    let one = || vec![item("A", "a", true, "")];
    let r = run_all(vec![one(), one()], None, 7);
    assert_eq!(r.items.len(), 3);
    assert_eq!(r.items[2].name, "Locate crate root");
    assert!(!r.passed());
    let r = run_all(vec![one()], Some(vec![one()]), 7);
    assert_eq!(r.items.len(), 2);
    assert_eq!(r.duration_ms, 7);
    let dirs = vec![
        ("/a/b".to_string(), None),
        ("/a".to_string(), Some("[package]\nname = \"skyrim_modmgr\"\n".to_string())),
    ];
    assert_eq!(find_crate_root("/k", true, &dirs).as_deref(), Some("/k"));
    assert_eq!(find_crate_root("/k", false, &dirs).as_deref(), Some("/a"));
    assert_eq!(find_crate_root("/k", false, &Vec::new()), None);
}

#[test]
fn folders_with_the_same_files_hash_alike() {
    let f = |p: &str, b: &[u8]| (p.to_string(), b.to_vec());
    let one = hash_contents(&vec![f("a/B.nif", b"x"), f("c", b"y")]);
    let two = hash_contents(&vec![f("C", b"y"), f("A/b.nif", b"x")]);
    assert_eq!(one, two);
    assert_eq!(one.len(), 16);
    assert_ne!(one, hash_contents(&vec![f("a/B.nif", b"x"), f("c", b"z")]));
    assert_ne!(one, hash_contents(&vec![f("a/B.nif", b"x"), f("d", b"y")]));
    assert_ne!(one, hash_contents(&vec![f("a/B.nif", b"x")]));
    let file_hash = |b: &Vec<u8>, p: &str| {
        let mut h = DefaultHasher::new();
        b.hash(&mut h);
        p.hash(&mut h);
        h.finish()
    };
    let mut top = DefaultHasher::new();
    for (p, b) in [("a/b.nif", b"x".to_vec()), ("c", b"y".to_vec())] {
        p.hash(&mut top);
        file_hash(&b, p).hash(&mut top);
    }
    assert_eq!(one, format!("{:016x}", top.finish()));
}
