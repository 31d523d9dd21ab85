use skyrim_modmgr::app_paths::AppPaths;
use skyrim_modmgr::config::{Config, LoadOutcome, Stored};
use skyrim_modmgr::game::{GameEdition, GameInstall};
use skyrim_modmgr::install::{FillAction, FillStage, Filling};
use skyrim_modmgr::profile::{name_for, Profile};
use skyrim_modmgr::store::{
    add_up, extract_archive_to, free_space_for, install_source_into, named_like_plugin,
    normalize_root_public, normalize_step, source_kind, UnpackError, Unpacking,
    zip_step, Extraction, FolderItem, FolderNode, ModEntry, ModStore, SourceKind, StoreError,
    UnwrapStep, ZipStep,
};

fn texts(list: &[&str]) -> Vec<String> {
    list.iter().map(|s| s.to_string()).collect()
}

fn file(name: &str) -> FolderNode {
    FolderNode::File { name: name.to_string(), bytes: name.as_bytes().to_vec() }
}

fn folder(name: &str, content: Vec<FolderNode>) -> FolderNode {
    FolderNode::Folder { name: name.to_string(), content }
}

/// Whether there is a file at this path.
fn has_file(content: &[FolderNode], path: &[&str]) -> bool {
    content.iter().any(|n| match n {
        FolderNode::File { name, bytes } => {
            path.len() == 1 && name == path[0] && bytes == name.as_bytes()
        }
        FolderNode::Folder { name, content } => {
            path.len() > 1 && name == path[0] && has_file(content, &path[1..])
        }
    })
}

fn install(store: &mut ModStore, source: &str, name: Option<&str>) -> String {
    let (id, dir) = ModStore::begin_content_dir("/mods");
    store
        .install(id, dir, source, name.map(|n| n.to_string()), Extraction::Done, 7)
        .expect("installed")
}

fn entry(id: &str, name: &str, tags: &[&str]) -> ModEntry {
    ModEntry {
        id: id.to_string(),
        name: name.to_string(),
        version: None,
        installed_at: 0,
        content_dir: format!("/mods/{id}"),
        root_normalized: true,
        tags: texts(tags),
    }
}

fn game(id: &str, dir: &str) -> GameInstall {
    GameInstall {
        id: id.to_string(),
        edition: GameEdition::SE,
        install_dir: dir.to_string(),
        data_dir: format!("{dir}/Data"),
        plugins_txt: format!("{dir}/plugins.txt"),
        wine_prefix: None,
    }
}

#[test]
fn normalize_unwraps_single_wrapper() {
    let dir = vec![folder("CoolMod", vec![folder("meshes", vec![file("a.nif")])])];
    let dir = normalize_root_public(dir);
    assert!(has_file(&dir, &["meshes", "a.nif"]));
}

#[test]
fn normalize_unwraps_data_folder() {
    let dir = vec![folder("Data", vec![folder("textures", vec![file("a.dds")])])];
    let dir = normalize_root_public(dir);
    assert!(has_file(&dir, &["textures", "a.dds"]));
}

#[test]
fn normalize_unwraps_as_far_as_it_is_clear() {
    let dir = normalize_root_public(vec![folder(
        "A",
        vec![folder("Data", vec![file("Mod.ESP"), folder("x", vec![])])],
    )]);
    assert!(has_file(&dir, &["Mod.ESP"]));
    let two = normalize_root_public(vec![folder("a", vec![file("x")]), folder("b", vec![])]);
    assert!(has_file(&two, &["a", "x"]));
    assert_eq!(two.len(), 2);
    let again = normalize_root_public(two);
    assert!(has_file(&again, &["a", "x"]));
    assert_eq!(normalize_root_public(vec![]).len(), 0);
    let lone = normalize_root_public(vec![file("readme.txt")]);
    assert!(has_file(&lone, &["readme.txt"]));
}

#[test]
fn one_step_of_unwrapping() {
    let item = |name: &str, is_dir: bool| FolderItem { name: name.to_string(), is_dir };
    assert_eq!(normalize_step(&vec![item("CoolMod", true)]), UnwrapStep::Unwrap);
    assert_eq!(normalize_step(&vec![item("Meshes", true)]), UnwrapStep::Done);
    assert_eq!(normalize_step(&vec![item("x.bsa", false)]), UnwrapStep::Done);
    assert_eq!(normalize_step(&vec![item("x.txt", false)]), UnwrapStep::Done);
    assert_eq!(normalize_step(&vec![item("a", true), item("b", true)]), UnwrapStep::Done);
}

#[test]
fn install_folder_and_loose_file() {
    let mut store = ModStore::new();
    let id = install(&mut store, "/tmp/mod", Some("FolderMod"));
    let content = vec![folder("scripts", vec![file("x.pex")])];
    assert!(has_file(&normalize_root_public(content), &["scripts", "x.pex"]));
    let m = store.get(&id).unwrap();
    assert_eq!(m.name, "FolderMod");
    assert_eq!(m.content_dir, format!("/mods/{id}"));
    assert_eq!(source_kind("/tmp/mod", true), SourceKind::Folder);

    let id2 = install(&mut store, "/tmp/Lone.esp", None);
    assert!(has_file(&normalize_root_public(vec![file("Lone.esp")]), &["Lone.esp"]));
    let m = store.get(&id2).unwrap();
    assert_eq!(m.name, "Lone");
    assert_eq!(m.installed_at, 7);
    assert!(m.root_normalized);
    assert_eq!(source_kind("/tmp/Lone.esp", false), SourceKind::Loose);
    assert_ne!(id, id2);
    assert_eq!(id.len(), 36);
    for (i, c) in id.chars().enumerate() {
        match i {
            8 | 13 | 18 | 23 => assert_eq!(c, '-'),
            14 => assert_eq!(c, '4'),
            19 => assert!("89ab".contains(c)),
            _ => assert!("0123456789abcdef".contains(c)),
        }
    }
}

fn run_to_end(mut f: Filling, answers: &[bool]) -> (Filling, Vec<FillStage>) {
    let mut stages = vec![f.current()];
    for ok in answers {
        f.advance(*ok);
        stages.push(f.current());
    }
    (f, stages)
}

#[test]
fn missing_source_errors() {
    let mut store = ModStore::new();
    let f = ModStore::install_with_progress("/mods", "/tmp/nope.zip");
    let (f, _) = run_to_end(f, &[false]);
    let outcome = f.outcome().expect("known");
    let err = store
        .install(f.id(), f.content_dir(), "/tmp/nope.zip", None, outcome, 0)
        .unwrap_err();
    assert!(err.message("/tmp/nope.zip").contains("does not exist"));
    assert!(matches!(f.next(), FillAction::Failed { message } if message.contains("does not exist")));
    assert!(store.mods.is_empty());
}

#[test]
fn install_goes_step_by_step() {
    let f = ModStore::install_with_progress("/mods", "/tmp/a.zip");
    let dir = f.content_dir();
    assert_eq!(dir, format!("/mods/{}", f.id()));
    assert!(matches!(f.next(), FillAction::LookFor { path } if path == "/tmp/a.zip"));
    let (f, stages) = run_to_end(f, &[true, true, true, true]);
    assert_eq!(
        stages,
        vec![
            FillStage::LookForSource,
            FillStage::MakeFolder,
            FillStage::Unpack,
            FillStage::Normalize,
            FillStage::Done
        ]
    );
    assert_eq!(f.outcome(), Some(Extraction::Done));
    assert_eq!(f.progress().as_deref(), Some("done"));
    assert!(matches!(f.next(), FillAction::Finished));
}

#[test]
fn failed_install_removes_its_folder() {
    let f = ModStore::install_with_progress("/mods", "/tmp/a.zip");
    let dir = f.content_dir();
    let (f, _) = run_to_end(f, &[true, true]);
    assert_eq!(f.progress().as_deref(), Some("extracting /tmp/a.zip…"));
    let (f, _) = run_to_end(f, &[false]);
    assert!(matches!(f.next(), FillAction::RemoveFolder { path } if path == dir));
    assert_eq!(f.outcome(), None);
    let (f, _) = run_to_end(f, &[false]);
    assert_eq!(f.outcome(), Some(Extraction::Failed));
    assert!(matches!(f.next(), FillAction::Failed { message } if message == "installing from /tmp/a.zip"));
    let mut store = ModStore::new();
    let r = store.install(f.id(), dir, "/tmp/a.zip", None, Extraction::Failed, 0);
    assert!(matches!(r, Err(StoreError::ExtractFailed)));
    assert!(store.mods.is_empty());
}

#[test]
fn update_keeps_the_id() {
    let mut store = ModStore { mods: vec![entry("a", "A", &["x"]), entry("b", "B", &[])] };
    assert!(matches!(store.begin_update("zz", "/s"), Err(StoreError::NoSuchMod)));
    let f = store.begin_update("b", "/s").unwrap();
    let (f, stages) = run_to_end(f, &[true, true, true, true, true]);
    assert_eq!(
        stages,
        vec![
            FillStage::LookForSource,
            FillStage::ClearOld,
            FillStage::MakeFolder,
            FillStage::Unpack,
            FillStage::Normalize,
            FillStage::Done
        ]
    );
    store.update(&f.id(), f.outcome().unwrap(), 99).unwrap();
    assert_eq!(store.mods[1].installed_at, 99);
    assert_eq!(store.mods[1].id, "b");
    assert_eq!(store.mods[0].installed_at, 0);
    let f = store.begin_update("b", "/s").unwrap();
    let (f, _) = run_to_end(f, &[true, true, true, false]);
    assert!(matches!(f.next(), FillAction::Failed { message } if message == "updating mod b from /s"));
    assert!(matches!(store.update("b", Extraction::Failed, 100), Err(StoreError::ExtractFailed)));
    assert!(matches!(store.update("b", Extraction::SourceMissing, 1), Err(StoreError::SourceMissing)));
    assert!(matches!(store.update("q", Extraction::Done, 1), Err(StoreError::NoSuchMod)));
    assert_eq!(store.mods[1].installed_at, 99);
    assert_eq!(
        StoreError::NoSuchMod.update_message("q", "/s"),
        "no such mod id 'q' — try list-mods"
    );
    assert_eq!(StoreError::SourceMissing.update_message("q", "/s"), "update source does not exist: /s");
}

#[test]
fn filled_folder_is_registered() {
    let mut store = ModStore::new();
    let r = store.register_installed("i".into(), "/mods/i".into(), "Name".into(), false, 1);
    assert!(matches!(r, Err(StoreError::ContentMissing)));
    assert!(store.mods.is_empty());
    store.register_installed("i".into(), "/mods/i".into(), "Name".into(), true, 1).unwrap();
    assert_eq!(store.mods[0].name, "Name");
    assert_eq!(
        StoreError::ContentMissing.message("/mods/i"),
        "content directory does not exist: /mods/i"
    );
}

#[test]
fn which_mod_provides_case_insensitive() {
    let mut store = ModStore::new();
    let id = install(&mut store, "/tmp/mod", Some("Tex"));
    let files = vec![texts(&["textures/Armor.dds"])];
    let hits = store.mods_providing_file("textures/armor.dds", &files);
    assert_eq!(hits.len(), 1);
    assert_eq!(hits[0].0, id);
    assert_eq!(hits[0].2, "textures/Armor.dds");
    assert_eq!(store.mods_providing_file("TEXTURES\\armor", &files).len(), 1);
    assert_eq!(store.mods_providing_file("meshes", &files).len(), 0);
}

#[test]
fn all_tags_deduped_and_sorted() {
    let mut store = ModStore::new();
    let id_a = install(&mut store, "/tmp/a", Some("A"));
    let id_b = install(&mut store, "/tmp/b", Some("B"));
    assert!(store.add_tag(&id_a, "armor"));
    assert!(store.add_tag(&id_a, "textures"));
    assert!(store.add_tag(&id_b, "armor"));
    assert_eq!(store.all_tags(), vec!["armor".to_string(), "textures".to_string()]);
    assert!(!store.add_tag(&id_a, "armor"));
    assert!(!store.add_tag("nobody", "armor"));
    assert_eq!(store.mods_with_tag("armor").len(), 2);
    assert_eq!(store.mods_with_tag("textures")[0].id, id_a);
}

#[test]
fn estimate_folder_size() {
    let est = ModStore::estimate_install_size("/tmp/mod", true, true, &vec![100, 50], 0).unwrap();
    assert_eq!(est.bytes, 150);
    assert_eq!(est.files, 2);
    assert_eq!(est.source_kind, "folder");
}

#[test]
fn estimates_of_archives() {
    let none: Vec<u64> = Vec::new();
    let est = |path: &str, sizes: &Vec<u64>, len: u64| {
        ModStore::estimate_install_size(path, true, false, sizes, len)
    };
    let tar = est("/a.TAR.GZ", &none, 10).unwrap();
    assert_eq!((tar.bytes, tar.files), (30, 0));
    assert_eq!(tar.source_kind, "tar archive (compressed 10 bytes; extracted size estimated ×3)");
    assert_eq!(est("/a.tar", &none, u64::MAX).unwrap().bytes, u64::MAX);
    let seven = est("/a.7z", &none, 10).unwrap();
    assert_eq!(seven.bytes, 40);
    assert_eq!(seven.source_kind, "7z archive (compressed 10 bytes; extracted size estimated ×4)");
    let zip = est("/a.zip", &vec![1, 2, 3], 10).unwrap();
    assert_eq!((zip.bytes, zip.files, zip.source_kind.as_str()), (6, 3, "zip"));
    let loose = est("/a.esp", &none, 10).unwrap();
    assert_eq!((loose.bytes, loose.files, loose.source_kind.as_str()), (10, 1, "loose file"));
    assert!(matches!(est("/a.rar", &none, 10), Err(StoreError::RarUnsupported)));
    assert!(matches!(
        ModStore::estimate_install_size("/a.zip", false, false, &none, 0),
        Err(StoreError::SourceMissing)
    ));
    assert_eq!(
        StoreError::RarUnsupported.message("/a.rar"),
        ".rar is not supported. Re-pack as .zip/.7z or extract to a folder first."
    );
    assert_eq!(add_up(&vec![1, 2, 3]), 6);
}

#[test]
fn sources_are_told_apart() {
    assert_eq!(source_kind("/x/a.tgz", false), SourceKind::TarGz);
    assert_eq!(source_kind("/x/a.Tar", false), SourceKind::Tar);
    assert_eq!(source_kind("/x/a.ZIP", false), SourceKind::Zip);
    assert_eq!(source_kind("/x/a.7Z", false), SourceKind::SevenZ);
    assert_eq!(source_kind("/x/a.rar", false), SourceKind::Rar);
    assert_eq!(source_kind("/x/a.zip", true), SourceKind::Folder);
    let into = |source: &str, is_dir: bool| install_source_into(source, "/mods/i", is_dir);
    assert!(matches!(into("/x/a.zip", true), Ok(Unpacking::CopyFolder)));
    assert!(matches!(into("/x/a.tar.gz", false), Ok(Unpacking::TarGz)));
    assert!(matches!(into("/x/a.tar", false), Ok(Unpacking::Tar)));
    assert!(matches!(into("/x/a.zip", false), Ok(Unpacking::Zip)));
    assert!(matches!(into("/x/a.7z", false), Ok(Unpacking::SevenZ)));
    assert!(matches!(
        into("/x/Lone.esp", false),
        Ok(Unpacking::CopyFile { to }) if to == "/mods/i/Lone.esp"
    ));
    assert!(matches!(into("/x/..", false), Err(UnpackError::NoFileName)));
    assert!(matches!(into("/x/a.rar", false), Err(UnpackError::Rar)));
    assert!(matches!(
        extract_archive_to("/x/a.zip", "/tmp/d", false, false),
        Err(UnpackError::SourceMissing)
    ));
    assert!(matches!(extract_archive_to("/x/a.zip", "/tmp/d", true, false), Ok(Unpacking::Zip)));
    assert_eq!(UnpackError::SourceMissing.message("/x"), "source path does not exist: /x");
    assert_eq!(UnpackError::NoFileName.message("/x"), "source file has no file name");
    assert_eq!(
        UnpackError::Rar.message("/x/a.rar"),
        ".rar is not supported (no license-friendly pure-Rust extractor). \
         Please re-extract with 7-Zip/unrar and install the resulting folder \
         or re-pack it as .zip or .7z."
    );
}

#[test]
fn archive_entries_stay_inside() {
    assert!(matches!(zip_step("../x", None, "/d"), ZipStep::Skip));
    assert!(
        matches!(zip_step("a/", Some("a".to_string()), "/d"), ZipStep::MakeFolder(p) if p == "/d/a")
    );
    assert!(
        matches!(zip_step("a/b", Some("a/b".to_string()), "/d"), ZipStep::WriteFile(p) if p == "/d/a/b")
    );
}

#[test]
fn free_space_is_read_from_the_listing() {
    let listing = "Filesystem 1024-blocks Used Available Capacity Mounted on\n/dev/sda1 100 40 60 40% /\n";
    assert_eq!(free_space_for(listing), Some(60 * 1024));
    assert_eq!(free_space_for("one line"), None);
    assert_eq!(free_space_for("h\na b c d\n"), None);
    assert_eq!(free_space_for("h\na b c 18446744073709551615\n"), Some(u64::MAX));
}

#[test]
fn disk_usage_is_largest_first() {
    let store = ModStore {
        mods: vec![entry("a", "A", &[]), entry("b", "B", &[]), entry("c", "C", &[])],
    };
    let (rows, total) = store.disk_usage(&vec![5, 9, 5]);
    let ids: Vec<&str> = rows.iter().map(|r| r.0.as_str()).collect();
    assert_eq!(ids, vec!["b", "a", "c"]);
    assert_eq!(rows[0], ("b".to_string(), "B".to_string(), 9));
    assert_eq!(total, 19);
}

#[test]
fn corrupt_store_json_is_repaired() {
    let outcome = ModStore::load_with_repair(Stored::Corrupt, "/root", 12);
    match outcome {
        LoadOutcome::Repaired { value, backup_path } => {
            assert!(value.mods.is_empty());
            assert_eq!(backup_path, "/root/store.json.corrupt.12");
        }
        _ => panic!("expected Repaired"),
    }
    let (store, warning) = ModStore::load(ModStore::load_with_repair(Stored::Corrupt, "/root", 12));
    assert!(store.mods.is_empty());
    assert!(warning.unwrap().contains("/root/store.json.corrupt.12"));
    let kept = ModStore { mods: vec![entry("a", "A", &[])] };
    let (store, warning) = ModStore::load(ModStore::load_with_repair(Stored::Parsed(kept), "/r", 0));
    assert_eq!(store.mods.len(), 1);
    assert!(warning.is_none());
    assert!(matches!(
        ModStore::load_with_repair(Stored::Missing, "/r", 0),
        LoadOutcome::Missing(s) if s.mods.is_empty()
    ));
}

#[test]
fn removed_mod_is_scrubbed_from_profiles() {
    let mut store = ModStore { mods: vec![entry("a", "A", &[]), entry("b", "B", &[])] };
    let gone = store.remove("a").expect("was there");
    assert_eq!(gone.content_dir, "/mods/a");
    assert!(store.get("a").is_none());
    assert!(store.remove("a").is_none());
    let mut p = Profile::new("Main", "g");
    p.enable_mod("a");
    p.enable_mod("b");
    p.enable_mod("a");
    assert!(p.scrub("a"));
    assert!(!p.scrub("a"));
    assert_eq!(p.enabled_mods_in_order(), vec!["b"]);
}

#[test]
fn plugins_are_registered_once() {
    let store = ModStore { mods: vec![entry("a", "A", &[])] };
    let names = texts(&["A.esp", "readme.txt", "B.ESM", "c.esl", "meshes"]);
    assert_eq!(store.discover_plugins("a", &names), texts(&["A.esp", "B.ESM", "c.esl"]));
    assert_eq!(store.discover_plugins("zz", &names).len(), 0);
    assert!(named_like_plugin("X.EsP"));
    let mut p = Profile::new("Main", "g");
    p.plugin_order = texts(&["a.ESP"]);
    p.enable_mod_with_plugins(&store, "a", &names);
    assert_eq!(p.plugin_order, texts(&["a.ESP", "B.ESM", "c.esl"]));
    assert_eq!(p.enabled_mods_in_order(), vec!["a"]);
}

#[test]
fn profile_keeps_a_load_order() {
    let mut p = Profile::new("Main", "g");
    for id in ["a", "b", "c"] {
        p.enable_mod(id);
    }
    p.disable_mod("b");
    p.disable_mod("nobody");
    assert_eq!(p.enabled_mods_in_order(), vec!["a", "c"]);
    p.reorder("c", 0);
    assert_eq!(p.enabled_mods_in_order(), vec!["c", "a"]);
    p.reorder("c", 99);
    assert_eq!(p.mod_order[2].mod_id, "c");
    p.reorder("nobody", 0);
    assert_eq!(p.mod_order.len(), 3);
    p.enable_mod("b");
    assert_eq!(p.enabled_mods_in_order(), vec!["a", "b", "c"]);
    assert_eq!(p.place_of("b"), 1);
    assert_eq!(p.place_of("nobody"), 3);
}

#[test]
fn profile_files_have_safe_names() {
    assert_eq!(Profile::file_name("My Mods-1_é/x"), "My_Mods-1_é_x.json");
    let files = vec![
        ("a.json".to_string(), Some("A".to_string())),
        ("b.txt".to_string(), Some("B".to_string())),
        ("c.json".to_string(), None),
    ];
    assert_eq!(Profile::list_all(&files), texts(&["A"]));
}

#[test]
fn profile_is_cloned_and_renamed() {
    let mut p = Profile::new("Main", "g");
    p.enable_mod("a");
    let copy = p.clone_as("Try");
    assert_eq!(copy.name, "Try");
    assert_eq!(copy.enabled_mods_in_order(), vec!["a"]);
    let files = p.rename("/profiles", "Other");
    assert_eq!(p.name, "Other");
    assert_eq!(files.write, "/profiles/Other.json");
    assert_eq!(files.remove.as_deref(), Some("/profiles/Main.json"));
    let files = p.rename("/profiles", "Other");
    assert_eq!(files.remove, None);
}

#[test]
fn profile_is_exported_and_plugins_imported() {
    let store = ModStore { mods: vec![entry("a", "Alpha", &[])] };
    let mut p = Profile::new("Main", "g");
    p.enable_mod("a");
    p.enable_mod("gone");
    p.disable_mod("gone");
    p.import_plugins_txt("# made by a tool\r\n*A.esp\n\n  B.esm  \n**C.esl\n");
    assert_eq!(p.plugin_order, texts(&["A.esp", "B.esm", "C.esl"]));
    assert_eq!(
        p.export_readable(&store),
        "Profile: Main\n\nMod load order (top = lowest priority, bottom wins conflicts):\n  \
         [x] Alpha\n  [ ] gone\n\nPlugin load order:\n  A.esp\n  B.esm\n  C.esl\n"
    );
    assert_eq!(name_for(&store, "a"), "Alpha");
    assert_eq!(name_for(&store, "q"), "q");
}

#[test]
fn config_remembers_games() {
    let mut c = Config::default();
    assert!(c.backup_include_mods && c.backup_include_saves && !c.backup_intro_seen);
    c.remember_game(game("1", "/a"));
    c.remember_game(game("2", "/b"));
    assert_eq!(c.active_game().map(|g| g.id.as_str()), Some("2"));
    c.remember_game(game("9", "/a"));
    assert_eq!(c.known_games.len(), 2);
    assert_eq!(c.active_game().map(|g| g.id.as_str()), Some("1"));
    c.add_search_path("/x".to_string());
    c.add_search_path("/x".to_string());
    assert_eq!(c.extra_search_paths, texts(&["/x"]));
    c.remove_search_path("/x");
    assert!(c.extra_search_paths.is_empty());
}

#[test]
fn config_problems_are_told_and_mended() {
    let mut c = Config::default();
    c.known_games.push(game("", ""));
    c.active_game_id = Some("zz".to_string());
    assert_eq!(
        c.validate(),
        texts(&[
            "active_game_id 'zz' does not match any known game — run detect-game or use-game",
            "known game  has empty install_dir",
            "a known game has an empty id",
        ])
    );
    c.known_games.insert(0, game("1", "/a"));
    c.repair_in_memory();
    assert_eq!(c.active_game_id.as_deref(), Some("1"));
    c.known_games.clear();
    c.repair_in_memory();
    assert_eq!(c.active_game_id, None);
    assert!(c.validate().is_empty());
}

#[test]
fn broken_config_is_set_aside() {
    let (c, warning) = Config::load(Config::load_with_repair(Stored::Corrupt, "/r", 5));
    assert!(c.known_games.is_empty());
    let warning = warning.unwrap();
    assert!(warning.contains("/r/config.json.corrupt.5"));
    assert!(warning.contains("re-run detect-game"));
    let (_, warning) = Config::load(Config::load_with_repair(Stored::Missing, "/r", 5));
    assert!(warning.is_none());
}

#[test]
fn app_folders() {
    let p = AppPaths::discover(&Some("/home/me/.local/share".to_string())).unwrap();
    assert_eq!(p.root, "/home/me/.local/share/skyrim-modmgr");
    assert_eq!(p.config_file, "/home/me/.local/share/skyrim-modmgr/config.json");
    let p = AppPaths::new("/r".to_string());
    assert_eq!(p.folders(), texts(&["/r", "/r/mods", "/r/profiles", "/r/tmp", "/r/backups"]));
    assert!(AppPaths::discover(&None).is_none());
}
