use skyrim_modmgr::app_paths::AppPaths;
use skyrim_modmgr::backup::{
    copy_tree, create_backup, finish_backup, list_backups, zip_backup_folder, BackupError,
    BackupSelection, CopyStep, SavesPart, TreeEntry,
};
use skyrim_modmgr::game::{GameEdition, GameInstall};
use skyrim_modmgr::mount::{FsStep, LinkBackend, LinuxBackend, Standing, WindowsBackend};
use skyrim_modmgr::profile::Profile;
use skyrim_modmgr::saves::{
    delete_saves, export_saves, import_from_dir, import_from_zip, import_saves, list_saves,
    saves_dir, ExportPlan, FoundSave, ImportWay, SaveFile, SaveKind, SavesError,
};
use skyrim_modmgr::store::{Extraction, ModStore};
use skyrim_modmgr::vfs::{
    backup_dir, backup_saves, deploy, deploy_dry_run, plan_copies, resolve_conflicts,
    resolve_conflicts_detailed, restore, who_provides, write_plugins_txt, Deploy, DeployAction,
    DeployStage,
};
use std::collections::BTreeMap;
use std::path::PathBuf;

fn texts(list: &[&str]) -> Vec<String> {
    list.iter().map(|s| s.to_string()).collect()
}

fn install(store: &mut ModStore, name: &str) -> String {
    let (id, dir) = ModStore::begin_content_dir("/app/mods");
    store
        .install(id, dir, "/tmp/source", Some(name.to_string()), Extraction::Done, 0)
        .expect("installed")
}

fn paths() -> AppPaths {
    AppPaths::new("/app".to_string())
}

fn game() -> GameInstall {
    GameInstall {
        id: "gid".to_string(),
        edition: GameEdition::SE,
        install_dir: "/game".to_string(),
        data_dir: "/game/Data".to_string(),
        plugins_txt: "/my/plugins.txt".to_string(),
        wine_prefix: None,
    }
}

#[test]
fn case_insensitive_conflict_last_wins() {
    let mut store = ModStore::new();
    let id_a = install(&mut store, "A");
    let id_b = install(&mut store, "B");
    let mut profile = Profile::new("p", "g");
    profile.enable_mod(&id_a);
    profile.enable_mod(&id_b);
    let files = vec![texts(&["armor.nif"]), texts(&["Armor.nif"])];
    let detailed = resolve_conflicts_detailed(&store, &profile, &files);
    assert_eq!(detailed.len(), 1);
    let contribs = &detailed[0].1;
    assert_eq!(contribs.len(), 2);
    assert_eq!(contribs.last().unwrap().mod_id, id_b);

    let winners = resolve_conflicts(&store, &profile, &files);
    assert_eq!(winners.len(), 1);
    assert_eq!(winners[0].0, "Armor.nif");
    assert_eq!(winners[0].1, format!("/app/mods/{id_b}/Armor.nif"));
}

#[test]
fn order_of_the_profile_decides() {
    let mut store = ModStore::new();
    let id_a = install(&mut store, "A");
    let id_b = install(&mut store, "B");
    let id_c = install(&mut store, "C");
    let files = vec![texts(&["x", "z"]), texts(&["X", "y"]), texts(&["x"])];
    let mut profile = Profile::new("p", "g");
    profile.enable_mod(&id_b);
    profile.enable_mod("gone");
    profile.enable_mod(&id_a);
    profile.enable_mod(&id_c);
    profile.disable_mod(&id_c);
    let winners = resolve_conflicts(&store, &profile, &files);
    assert_eq!(
        winners,
        vec![
            ("x".to_string(), format!("/app/mods/{id_a}/x")),
            ("y".to_string(), format!("/app/mods/{id_b}/y")),
            ("z".to_string(), format!("/app/mods/{id_a}/z")),
        ]
    );
    let report = deploy_dry_run(&store, &profile, &files);
    assert_eq!(report.total_files, 3);
    assert_eq!(report.conflicts.len(), 1);
    assert_eq!(report.conflicts[0][1].mod_id, id_a);
    let who = who_provides(&store, &profile, &files, "X");
    assert_eq!(who.len(), 2);
    assert_eq!(who[1].mod_id, id_a);
    assert_eq!(who[1].source_path, winners[0].1);
    assert_eq!(who_provides(&store, &profile, &files, "nothing").len(), 0);
}

#[test]
fn winners_come_in_the_order_of_their_paths() {
    let mut store = ModStore::new();
    let id_a = install(&mut store, "A");
    let id_b = install(&mut store, "B");
    let files = vec![
        texts(&["a.nif", "x/low.dds", "x.dds"]),
        texts(&["B.nif", "x/Zed.dds", "y", "x/Low.dds"]),
    ];
    let mut profile = Profile::new("p", "g");
    profile.enable_mod(&id_a);
    profile.enable_mod(&id_b);
    let won = resolve_conflicts(&store, &profile, &files);
    let mut sorted: Vec<PathBuf> = won.iter().map(|w| PathBuf::from(&w.0)).collect();
    sorted.sort();
    let listed: Vec<PathBuf> = won.iter().map(|w| PathBuf::from(&w.0)).collect();
    assert_eq!(listed, sorted);
    let names: Vec<&str> = won.iter().map(|w| w.0.as_str()).collect();
    assert_eq!(names, vec!["B.nif", "a.nif", "x/Low.dds", "x/Zed.dds", "x.dds", "y"]);
    assert_eq!(won[0].1, format!("/app/mods/{id_b}/B.nif"));
    assert_eq!(won[1].1, format!("/app/mods/{id_a}/a.nif"));
    let detailed = resolve_conflicts_detailed(&store, &profile, &files);
    assert_eq!(detailed[0].0, "a.nif");
    assert_eq!(detailed.len(), won.len());
}

#[test]
fn providers_are_those_of_the_path_itself() {
    let mut store = ModStore::new();
    let id = install(&mut store, "M");
    let files = vec![texts(&["armor/x.nif", "x.nif"])];
    let mut profile = Profile::new("p", "g");
    profile.enable_mod(&id);
    let who = who_provides(&store, &profile, &files, "X.nif");
    assert_eq!(who.len(), 1);
    assert_eq!(who[0].relative_path, "x.nif");
    assert_eq!(who[0].source_path, format!("/app/mods/{id}/x.nif"));
    let who = who_provides(&store, &profile, &files, "Armor\\x.nif");
    assert_eq!(who[0].relative_path, "armor/x.nif");
    assert_eq!(who_provides(&store, &profile, &files, "armor").len(), 0);
}

enum Entry {
    Dir,
    File(Vec<u8>),
    Link(String),
}

/// A file system in memory, with just what the steps need.
struct Fs {
    entries: BTreeMap<String, Entry>,
}

impl Fs {
    fn resolve(&self, path: &str) -> String {
        for (at, e) in &self.entries {
            if let Entry::Link(target) = e {
                if path == at || path.starts_with(&format!("{at}/")) {
                    return self.resolve(&format!("{target}{}", &path[at.len()..]));
                }
            }
        }
        path.to_string()
    }

    fn get(&self, path: &str) -> Option<&Entry> {
        self.entries.get(&self.resolve(path))
    }

    fn standing(&self, path: &str) -> Standing {
        match self.entries.get(path) {
            None => Standing::Nothing,
            Some(Entry::Link(_)) => Standing::Link,
            Some(_) => Standing::Real,
        }
    }

    fn make(&mut self, path: &str) {
        let mut at = String::new();
        for part in path.split('/').filter(|p| !p.is_empty()) {
            at = format!("{at}/{part}");
            if self.get(&at).is_none() {
                self.entries.insert(at.clone(), Entry::Dir);
            }
        }
    }

    fn remove_tree(&mut self, path: &str) {
        let under = format!("{path}/");
        self.entries.retain(|p, _| p != path && !p.starts_with(&under));
    }

    fn take(&mut self, step: &FsStep) -> bool {
        match step {
            FsStep::MakeFolders { path } => self.make(path),
            FsStep::RemoveFile { path } => {
                return self.entries.remove(path).is_some();
            }
            FsStep::Rename { from, to } => {
                if self.entries.contains_key(to) {
                    return false;
                }
                let under = format!("{from}/");
                let moved: Vec<String> = self
                    .entries
                    .keys()
                    .filter(|p| *p == from || p.starts_with(&under))
                    .cloned()
                    .collect();
                for p in moved {
                    let e = self.entries.remove(&p).unwrap();
                    self.entries.insert(format!("{to}{}", &p[from.len()..]), e);
                }
            }
            FsStep::Symlink { target, at } => {
                if self.entries.contains_key(at) {
                    return false;
                }
                self.entries.insert(at.clone(), Entry::Link(target.clone()));
            }
            _ => return false,
        }
        true
    }

    fn take_all(&mut self, steps: Vec<FsStep>) -> bool {
        steps.iter().all(|s| self.take(s))
    }

    fn run(&mut self, mut d: Deploy, backend: &LinuxBackend) -> Result<usize, String> {
        loop {
            let ok = match d.next() {
                DeployAction::ClearFolder { path } | DeployAction::RemoveFolder { path } => {
                    self.remove_tree(&path);
                    true
                }
                DeployAction::MakeFolder { path } => {
                    self.make(&path);
                    true
                }
                DeployAction::LinkFile { source, dest } => {
                    let taken = self.entries.contains_key(&dest);
                    let steps = backend.link_file(&source, &dest, taken);
                    self.take_all(steps)
                }
                DeployAction::Mount { staging, data, backup } => {
                    let standing = self.standing(&data);
                    let backed_up = self.get(&backup).is_some();
                    let steps = backend
                        .mount_staging_over_data(&staging, &data, &backup, standing, backed_up);
                    self.take_all(steps)
                }
                DeployAction::Unmount { data, backup } => {
                    let standing = self.standing(&data);
                    let backed_up = self.get(&backup).is_some();
                    let steps = backend.unmount(&data, &backup, standing, backed_up);
                    self.take_all(steps)
                }
                DeployAction::WriteText { path, text } => {
                    self.entries.insert(path, Entry::File(text.into_bytes()));
                    true
                }
                DeployAction::SnapshotSaves => {
                    let saves: Vec<String> = self
                        .entries
                        .keys()
                        .filter_map(|p| p.strip_prefix("/my/Saves/").map(|f| f.to_string()))
                        .collect();
                    let there = self.get("/my/Saves").is_some();
                    if let Some(s) = backup_saves(&paths(), &game(), there, &saves, 7) {
                        self.make(&s.dest);
                        for (from, to) in s.copies {
                            if let Some(Entry::File(b)) = self.get(&from) {
                                let b = b.clone();
                                self.entries.insert(to, Entry::File(b));
                            }
                        }
                    }
                    true
                }
                DeployAction::Finished { linked } => return Ok(linked),
                DeployAction::Failed { message } => return Err(message),
            };
            d.advance(ok);
        }
    }
}

#[test]
fn deploy_restore_roundtrip_preserves_vanilla() {
    let mut fs = Fs { entries: BTreeMap::new() };
    fs.make("/game/Data");
    fs.entries.insert("/game/Data/vanilla.bin".to_string(), Entry::File(b"KEEP".to_vec()));
    fs.make("/app/backups");

    let mut store = ModStore::new();
    let id = install(&mut store, "M");
    fs.make(&format!("/app/mods/{id}/meshes"));
    fs.entries.insert(format!("/app/mods/{id}/meshes/x.nif"), Entry::File(b"mod".to_vec()));
    let mut profile = Profile::new("Main", "g");
    profile.enable_mod(&id);
    let files = vec![texts(&["meshes/x.nif"])];

    let backend = LinuxBackend;
    let game = game();
    let n = fs.run(deploy(&paths(), &store, &profile, &files, &game), &backend).unwrap();
    assert!(n >= 1);
    assert!(matches!(fs.get("/game/Data/meshes/x.nif"), Some(Entry::File(b)) if b == b"mod"));

    // A second deploy changes nothing that a restore gives back.
    let n = fs.run(deploy(&paths(), &store, &profile, &files, &game), &backend).unwrap();
    assert_eq!(n, 1);

    let standing = fs.standing("/game/Data");
    let backed_up = fs.get(&backup_dir(&paths(), &game)).is_some();
    assert!(fs.take_all(restore(&paths(), &backend, &game, standing, backed_up)));
    assert!(matches!(fs.get("/game/Data"), Some(Entry::Dir)));
    assert!(matches!(fs.get("/game/Data/vanilla.bin"), Some(Entry::File(b)) if b == b"KEEP"));
    assert!(fs.get("/game/Data/meshes/x.nif").is_none());
    assert!(fs.get("/app/backups/gid/Data").is_none());

    // Restoring again is safe.
    let standing = fs.standing("/game/Data");
    assert!(restore(&paths(), &backend, &game, standing, false).is_empty());
}

#[test]
fn saves_are_kept_apart_from_the_vanilla_folder() {
    let mut fs = Fs { entries: BTreeMap::new() };
    fs.make("/game/Data");
    fs.entries.insert("/game/Data/vanilla.bin".to_string(), Entry::File(b"KEEP".to_vec()));
    fs.make("/my/Saves");
    fs.entries.insert("/my/Saves/a.ess".to_string(), Entry::File(b"save".to_vec()));
    fs.make("/app/backups");
    let store = ModStore::new();
    let profile = Profile::new("Main", "g");
    let backend = LinuxBackend;
    let game = game();
    for _ in 0..2 {
        fs.run(deploy(&paths(), &store, &profile, &Vec::new(), &game), &backend).unwrap();
    }
    assert_eq!(backup_dir(&paths(), &game), "/app/backups/gid/Data");
    let standing = fs.standing("/game/Data");
    assert!(fs.take_all(restore(&paths(), &backend, &game, standing, true)));
    let left: Vec<&String> = fs.entries.keys().filter(|p| p.starts_with("/game/Data")).collect();
    assert_eq!(left, vec!["/game/Data", "/game/Data/vanilla.bin"]);
    assert!(matches!(
        fs.get("/app/backups/gid/saves/7/a.ess"),
        Some(Entry::File(b)) if b == b"save"
    ));
}

#[test]
fn failed_mount_gives_the_folder_back() {
    let mut store = ModStore::new();
    let id = install(&mut store, "M");
    let mut profile = Profile::new("Main", "g");
    profile.enable_mod(&id);
    let files = vec![texts(&["a", "b"])];
    let mut d = deploy(&paths(), &store, &profile, &files, &game());
    assert_eq!(d.current(), DeployStage::SnapshotSaves);
    assert!(matches!(d.next(), DeployAction::SnapshotSaves));
    d.advance(false);
    assert!(matches!(d.next(), DeployAction::ClearFolder { path } if path == "/app/staging/Main"));
    for _ in 0..4 {
        d.advance(true);
    }
    assert!(
        matches!(d.next(), DeployAction::Mount { staging, data, backup }
            if staging == "/app/staging/Main" && data == "/game/Data" && backup == "/app/backups/gid/Data")
    );
    d.advance(false);
    assert!(matches!(d.next(), DeployAction::Unmount { .. }));
    d.advance(true);
    assert!(matches!(d.next(), DeployAction::RemoveFolder { path } if path == "/app/staging/Main"));
    d.advance(true);
    assert!(matches!(d.next(), DeployAction::Failed { message }
        if message == "mounting staging over Data at /game/Data (profile 'Main')"));
    assert_eq!(d.current(), DeployStage::MountFailed);
}

#[test]
fn failed_link_removes_the_staging_tree() {
    let mut store = ModStore::new();
    let id = install(&mut store, "M");
    let mut profile = Profile::new("Main", "g");
    profile.enable_mod(&id);
    let files = vec![texts(&["a", "b"])];
    let mut d = deploy(&paths(), &store, &profile, &files, &game());
    d.advance(true);
    d.advance(true);
    d.advance(true);
    d.advance(true);
    assert_eq!(d.current(), DeployStage::Link(1));
    d.advance(false);
    assert!(matches!(d.next(), DeployAction::RemoveFolder { .. }));
    d.advance(false);
    let expected =
        format!("linking /app/mods/{id}/b -> /app/staging/Main/b during deploy of profile 'Main'");
    assert!(matches!(d.next(), DeployAction::Failed { message } if message == expected));
}

#[test]
fn failed_plugins_file_leaves_the_mount() {
    let store = ModStore::new();
    let mut profile = Profile::new("Main", "g");
    profile.plugin_order = texts(&["A.esp", "B.esm"]);
    let mut d = deploy(&paths(), &store, &profile, &Vec::new(), &game());
    for _ in 0..4 {
        d.advance(true);
    }
    assert!(matches!(d.next(), DeployAction::WriteText { path, text }
        if path == "/my/plugins.txt" && text == "*A.esp\n*B.esm\n"));
    d.advance(false);
    assert!(matches!(d.next(), DeployAction::Failed { message }
        if message == "writing plugins.txt at /my/plugins.txt after successful Data mount"));
    let mut d = deploy(&paths(), &store, &profile, &Vec::new(), &game());
    d.advance(true);
    d.advance(false);
    assert!(matches!(d.next(), DeployAction::Failed { message }
        if message == "clearing previous staging dir /app/staging/Main"));
    let mut d = deploy(&paths(), &store, &profile, &Vec::new(), &game());
    d.advance(true);
    d.advance(true);
    d.advance(false);
    assert!(matches!(d.next(), DeployAction::Failed { message }
        if message == "creating staging dir /app/staging/Main"));
    let mut d = deploy(&paths(), &store, &profile, &Vec::new(), &game());
    for _ in 0..5 {
        d.advance(true);
    }
    assert!(matches!(d.next(), DeployAction::Finished { linked: 0 }));
}

#[test]
fn written_plugins_are_read_back() {
    let plugins = texts(&["A.esp", "B.esm"]);
    let mut p = Profile::new("Main", "g");
    p.import_plugins_txt(&write_plugins_txt(&plugins));
    assert_eq!(p.plugin_order, plugins);
}

#[test]
fn steps_of_both_platforms() {
    let steps = WindowsBackend.link_file("/s/a", "/d/a", true);
    assert!(matches!(&steps[0], FsStep::MakeFolders { path } if path == "/d"));
    assert!(matches!(&steps[1], FsStep::RemoveFile { path } if path == "/d/a"));
    assert!(matches!(&steps[2], FsStep::HardLink { source, at } if source == "/s/a" && at == "/d/a"));
    assert_eq!(LinuxBackend.link_file("/s/a", "/d/a", false).len(), 2);
    let steps = WindowsBackend.mount_staging_over_data("/s", "/g/D", "/b/g", Standing::Real, false);
    assert_eq!(steps.len(), 4);
    assert!(matches!(&steps[1], FsStep::Rename { from, to } if from == "/g/D" && to == "/b/g"));
    assert!(matches!(&steps[3], FsStep::Junction { target, at } if target == "/s" && at == "/g/D"));
    let steps = WindowsBackend.unmount("/g/D", "/b/g", Standing::Link, true);
    assert!(matches!(&steps[0], FsStep::RemoveFolder { path } if path == "/g/D"));
    assert!(matches!(&steps[1], FsStep::Rename { from, to } if from == "/b/g" && to == "/g/D"));
    let steps = LinuxBackend.mount_staging_over_data("/s", "/g/D", "/b/g", Standing::Link, true);
    assert!(matches!(&steps[0], FsStep::RemoveFile { path } if path == "/g/D"));
    assert_eq!(steps.len(), 3);
    assert_eq!(LinuxBackend.unmount("/g/D", "/b/g", Standing::Real, false).len(), 0);
}

#[test]
fn saves_are_snapshotted_under_the_backup() {
    assert!(backup_saves(&paths(), &game(), false, &Vec::new(), 5).is_none());
    let s = backup_saves(&paths(), &game(), true, &texts(&["a.ess", "d/b.skse"]), 5).unwrap();
    assert_eq!(s.dest, "/app/backups/gid/saves/5");
    assert_eq!(
        s.copies[1],
        (
            "/my/Saves/d/b.skse".to_string(),
            "/app/backups/gid/saves/5/d/b.skse".to_string()
        )
    );
    assert_eq!(plan_copies("/a", "/b", &Vec::new()).len(), 0);
}

fn found(name: &str, is_file: bool, size: u64, modified: Option<u64>) -> FoundSave {
    FoundSave { name: name.to_string(), is_file, size_bytes: size, modified_secs: modified }
}

fn some_saves() -> Vec<SaveFile> {
    list_saves(
        &game(),
        true,
        &vec![
            found("old.ess", true, 10, Some(1)),
            found("b.SKSE", true, 20, Some(9)),
            found("a.png", true, 30, Some(9)),
            found("folder", false, 0, Some(99)),
            found("unknown.txt", true, 5, None),
        ],
    )
}

#[test]
fn saves_are_listed_newest_first() {
    let saves = some_saves();
    let names: Vec<&str> = saves.iter().map(|s| s.name.as_str()).collect();
    assert_eq!(names, vec!["a.png", "b.SKSE", "old.ess", "unknown.txt"]);
    let kinds: Vec<&str> = saves.iter().map(|s| s.kind.label()).collect();
    assert_eq!(kinds, vec!["image", "skse", "save", "other"]);
    assert_eq!(saves[2].path, "/my/Saves/old.ess");
    assert_eq!(saves_dir(&game()).as_deref(), Some("/my/Saves"));
    assert_eq!(list_saves(&game(), false, &vec![found("x.ess", true, 1, None)]).len(), 0);
    assert_eq!(SaveKind::from_name("X.JPEG"), SaveKind::Image);
}

#[test]
fn saves_are_exported_as_asked() {
    let saves = some_saves();
    assert!(matches!(export_saves(&Vec::new(), "/o", true), Err(SavesError::NothingSelected)));
    match export_saves(&saves, "/o/out.ZIP", false).unwrap() {
        ExportPlan::Archive { holder, archive, entries } => {
            assert_eq!(holder.as_deref(), Some("/o"));
            assert_eq!(archive, "/o/out.ZIP");
            assert_eq!(entries.len(), 4);
            assert_eq!(entries[0], ("a.png".to_string(), "/my/Saves/a.png".to_string()));
        }
        _ => panic!("expected an archive"),
    }
    match export_saves(&saves, "/o/out", false).unwrap() {
        ExportPlan::Folder { dest, copies } => {
            assert_eq!(dest, "/o/out");
            assert_eq!(copies[0], ("/my/Saves/a.png".to_string(), "/o/out/a.png".to_string()));
        }
        _ => panic!("expected a folder"),
    }
    assert_eq!(SavesError::NothingSelected.message(), "no save files selected to export");
}

#[test]
fn saves_are_imported_from_anywhere() {
    let g = game();
    assert!(matches!(import_saves(&g, "/x", false, false), Err(SavesError::SourceMissing { source }) if source == "/x"));
    assert!(matches!(import_saves(&g, "/x", true, true), Ok(ImportWay::FromFolder { saves }) if saves == "/my/Saves"));
    assert!(matches!(import_saves(&g, "/x.Zip", true, false), Ok(ImportWay::FromArchive { .. })));
    assert!(matches!(import_saves(&g, "/x/a.ess", true, false), Ok(ImportWay::OneFile { dest }) if dest == "/my/Saves/a.ess"));
    assert!(matches!(import_saves(&g, "/..", true, false), Err(SavesError::NoFileName)));
    let mut nowhere = game();
    nowhere.plugins_txt = String::new();
    assert!(matches!(import_saves(&nowhere, "/x", true, true), Err(SavesError::NoSavesDir)));
    assert_eq!(
        SavesError::SourceMissing { source: "/x".into() }.message(),
        "import source does not exist: /x"
    );
}

#[test]
fn only_saves_are_imported() {
    let files = texts(&["a.ess", "readme.txt", "sub/b.PNG", "sub/deep/c.ess"]);
    let copies = import_from_dir("/my/Saves", "/x", &files).unwrap();
    assert_eq!(
        copies,
        vec![
            ("/x/a.ess".to_string(), "/my/Saves/a.ess".to_string()),
            ("/x/sub/b.PNG".to_string(), "/my/Saves/b.PNG".to_string()),
        ]
    );
    let r = import_from_dir("/my/Saves", "/x", &texts(&["readme.txt"]));
    assert!(matches!(&r, Err(e) if e.message() == "no .ess/.skse/image files found under /x"));
    let entries = vec![
        (true, Some("saves".to_string())),
        (false, Some("saves/a.ess".to_string())),
        (false, None),
        (false, Some("b.txt".to_string())),
    ];
    let picked = import_from_zip("/my/Saves", "/x.zip", &entries).unwrap();
    assert_eq!(picked, vec![(1, "/my/Saves/a.ess".to_string())]);
    let r = import_from_zip("/my/Saves", "/x.zip", &Vec::new());
    assert!(matches!(&r, Err(e) if e.message() == "no .ess/.skse/image files found in /x.zip"));
}

#[test]
fn only_saves_that_are_there_are_deleted() {
    let saves = some_saves();
    let gone = delete_saves(&saves, &vec![true, false, true, false]);
    assert_eq!(gone, texts(&["/my/Saves/a.png", "/my/Saves/old.ess"]));
}

fn selection(mods: &[&str], saves: &[&str]) -> BackupSelection {
    BackupSelection {
        include_mods: true,
        mod_ids: texts(mods),
        include_saves: true,
        save_names: texts(saves),
    }
}

#[test]
fn backup_takes_what_was_picked() {
    let mut store = ModStore::new();
    let a = install(&mut store, "A");
    let b = install(&mut store, "B");
    let g = game();
    let saves = some_saves();
    let plan =
        create_backup(&paths(), &store, Some(&g), &selection(&[&b], &["old.ess"]), &saves, 42).unwrap();
    assert_eq!(plan.dest, "/app/backups/user/42");
    let (root, mods) = plan.mods.as_ref().unwrap();
    assert_eq!(root, "/app/backups/user/42/mods");
    assert_eq!(mods.len(), 1);
    assert_eq!(mods[0].from, format!("/app/mods/{b}"));
    assert_eq!(mods[0].to, format!("/app/backups/user/42/mods/{b}"));
    assert_eq!(mods[0].note, format!("/app/backups/user/42/mods/{b}.meta.json"));
    match &plan.saves {
        SavesPart::Copy { root, copies } => {
            assert_eq!(root, "/app/backups/user/42/saves");
            assert_eq!(copies.len(), 1);
            assert_eq!(copies[0].to, "/app/backups/user/42/saves/old.ess");
        }
        _ => panic!("expected saves"),
    }
    let (manifest, result) = finish_backup(&plan, &vec![3], &vec![100]).unwrap();
    assert_eq!(manifest.created_at, 42);
    assert_eq!(manifest.game_id.as_deref(), Some("gid"));
    assert_eq!(manifest.mod_names, texts(&["B"]));
    assert_eq!(manifest.save_names, texts(&["old.ess"]));
    assert_eq!((result.total_files, result.total_bytes), (4, 110));
    assert_eq!((result.mods_backed_up, result.saves_backed_up), (1, 1));
    let all = create_backup(&paths(), &store, Some(&g), &selection(&[], &[]), &saves, 42).unwrap();
    assert_eq!(all.mods.unwrap().1.iter().map(|m| m.id.clone()).collect::<Vec<_>>(), vec![a, b]);
    assert!(matches!(all.saves, SavesPart::Copy { copies, .. } if copies.len() == 4));
}

#[test]
fn backup_says_what_is_missing() {
    let store = ModStore::new();
    let none = BackupSelection::default();
    let r = create_backup(&paths(), &store, None, &none, &Vec::new(), 1);
    assert!(matches!(&r, Err(e) if e.message() == "nothing selected — enable mods and/or saves to back up"));
    let plan = create_backup(&paths(), &store, None, &selection(&[], &[]), &Vec::new(), 1).unwrap();
    assert!(matches!(plan.saves, SavesPart::NoGame));
    assert!(matches!(finish_backup(&plan, &vec![3], &vec![100]), Err(BackupError::NoGame)));
    assert_eq!(
        BackupError::NoGame.message(),
        "cannot back up saves without an active game install — detect a game first"
    );
    let r = zip_backup_folder("/b/42", false, &Vec::new());
    assert!(matches!(&r, Err(e) if e.message() == "backup folder does not exist: /b/42"));
    let zip = zip_backup_folder("/b/42", true, &texts(&["mods\\a/x", "notes.json"])).unwrap();
    assert_eq!(zip.archive, "/b/42.zip");
    assert_eq!(zip.entries[0], ("mods/a/x".to_string(), "/b/42/mods\\a/x".to_string()));
}

#[test]
fn tree_is_copied_with_its_folders() {
    let e = |relative: &str, is_dir: bool, size: u64| TreeEntry {
        relative: relative.to_string(),
        is_dir,
        is_file: !is_dir,
        size_bytes: size,
    };
    let entries = vec![e("", true, 0), e("d", true, 0), e("d/x", false, 7)];
    let (steps, files, bytes) = copy_tree("/s", "/t", true, &entries);
    assert_eq!((files, bytes), (1, 7));
    assert!(matches!(&steps[0], CopyStep::MakeFolder { path } if path == "/t"));
    assert!(steps.iter().any(|s| matches!(s, CopyStep::CopyFile { from, to } if from == "/s/d/x" && to == "/t/d/x")));
    let (steps, files, bytes) = copy_tree("/s", "/t", false, &entries);
    assert_eq!((steps.len(), files, bytes), (0, 0, 0));
}

#[test]
fn backups_are_listed_last_first() {
    let found = vec![("10".to_string(), true), ("9".to_string(), true), ("x.zip".to_string(), false)];
    assert_eq!(
        list_backups(&paths(), true, &found),
        texts(&["/app/backups/user/9", "/app/backups/user/10"])
    );
    assert_eq!(list_backups(&paths(), false, &found).len(), 0);
}
