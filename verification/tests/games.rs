use skyrim_modmgr::disk::{DirItem, Disk, Folder};
use skyrim_modmgr::game::{
    candidate_roots, deep_scan_for_skyrim, default_deep_roots, default_mount_roots, default_scan_folders, derive_id,
    find_all_skyrim_in_prefix, find_skyrim_at, find_skyrim_at_smart, find_skyrim_in_prefix,
    identify_skyrim_at, my_games_folder_name, normalize_install_dir, scan_all_locations,
    scan_all_prefixes_for_skyrim, scan_custom_locations, scan_folder_for_skyrim, search_depth,
    should_skip_dir_name, DeepScanOptions, GameEdition, DRIVE_DEPTH, PLACE_DEPTH,
};
use skyrim_modmgr::paths::{last_step, parent_of, path_extension, replace_extension};
use skyrim_modmgr::prefix::{
    discover_prefixes, find_prefix_containing, launcher_roots, library_paths, manifest_name,
    resolve_windows_user_dir, steam_roots, Launcher, PrefixError, PrefixSource, WinePrefix,
};
use std::collections::BTreeMap;
use std::hash::{Hash, Hasher};
use std::path::Path;

/// A snapshot that holds these files, and folders where a path ends in a slash.
fn disk_with_texts(entries: &[&str], texts: &[(&str, &str)]) -> Disk {
    let mut folders: BTreeMap<String, Vec<DirItem>> = BTreeMap::new();
    for entry in entries {
        let parts: Vec<&str> = entry.split('/').filter(|p| !p.is_empty()).collect();
        let mut at = String::new();
        for (i, part) in parts.iter().enumerate() {
            let is_dir = i + 1 < parts.len() || entry.ends_with('/');
            let holder = if at.is_empty() { "/".to_string() } else { at.clone() };
            let items = folders.entry(holder).or_default();
            if !items.iter().any(|x| x.name == *part) {
                items.push(DirItem {
                    name: part.to_string(),
                    is_dir,
                    is_file: !is_dir,
                    real_dir: is_dir,
                    real_file: !is_dir,
                });
            }
            at = format!("{at}/{part}");
            if is_dir {
                folders.entry(at.clone()).or_default();
            }
        }
    }
    let list = folders
        .into_iter()
        .map(|(path, items)| Folder {
            canonical: path.clone(),
            real_dir: true,
            modified: Some(path.len() as u64),
            path,
            items,
        })
        .collect();
    let texts = texts.iter().map(|(p, t)| (p.to_string(), t.to_string())).collect();
    Disk::new(list, texts)
}

fn disk(entries: &[&str]) -> Disk {
    disk_with_texts(entries, &[])
}

fn some(s: &str) -> Option<String> {
    Some(s.to_string())
}

fn wine_prefix(root: &str, source: PrefixSource) -> WinePrefix {
    WinePrefix {
        prefix_root: root.to_string(),
        windows_user_dir: format!("{root}/drive_c/users/me"),
        source,
    }
}

#[test]
fn game_id_is_deterministic() {
    let root = "/tmp/skyrim";
    let d = disk(&["/tmp/skyrim/SkyrimSE.exe", "/tmp/skyrim/Data/"]);
    let a = find_skyrim_at(&d, root, root, &Vec::new()).expect("SE");
    let b = find_skyrim_at(&d, root, root, &Vec::new()).expect("SE again");
    assert_eq!(a.id, b.id);
    assert_eq!(a.edition, GameEdition::SE);
    assert_eq!(a.data_dir, "/tmp/skyrim/Data");
}

#[test]
fn game_game_id_is_deterministic() {
    let root = "/tmp/skyrim-modmgr-gameid";
    let d = disk(&[
        "/tmp/skyrim-modmgr-gameid/SkyrimSE.exe",
        "/tmp/skyrim-modmgr-gameid/Data/",
    ]);
    let a = find_skyrim_at(&d, root, root, &Vec::new()).expect("SE");
    let b = find_skyrim_at(&d, root, root, &Vec::new()).expect("SE again");
    assert_eq!(a.id, b.id);
    assert_eq!(a.edition, GameEdition::SE);
    assert_eq!(a.data_dir, format!("{root}/Data"));
}

#[test]
fn derive_id_stable_for_same_path() {
    let p = "/tmp/some/skyrim/install";
    assert_eq!(derive_id(p), derive_id(p));
}

#[test]
fn game_derive_id_stable_for_same_path() {
    let p = "/tmp/some/skyrim/install";
    assert_eq!(derive_id(p), derive_id(p));
}

#[test]
fn id_is_the_hash_of_the_path_in_hex() {
    let p = "/tmp/some/skyrim/install";
    let mut hasher = std::collections::hash_map::DefaultHasher::new();
    std::path::Path::new(p).hash(&mut hasher);
    assert_eq!(derive_id(p), format!("{:016x}", hasher.finish()));
    assert_eq!(derive_id(p).len(), 16);
    assert_ne!(derive_id(p), derive_id("/tmp/some/skyrim/other"));
}

#[test]
fn detects_by_data_skyrim_esm_only() {
    let d = disk(&["/tmp/s/Data/Skyrim.esm"]);
    assert_eq!(identify_skyrim_at(&d, "/tmp/s"), Some(GameEdition::SE));
    let g = find_skyrim_at_smart(&d, "/tmp/s", &Vec::new(), &None).expect("data-only install");
    assert_eq!(g.data_dir, "/tmp/s/Data");
}

#[test]
fn accepts_data_folder_path() {
    let d = disk(&["/tmp/s/Data/Skyrim.esm", "/tmp/s/SkyrimSE.exe"]);
    let g = find_skyrim_at_smart(&d, "/tmp/s/Data", &Vec::new(), &None).expect("from Data path");
    assert_eq!(g.install_dir, "/tmp/s");
    assert_eq!(normalize_install_dir(&d, "/tmp/s/Data"), "/tmp/s");
    assert_eq!(normalize_install_dir(&d, "/tmp/s"), "/tmp/s");
}

#[test]
fn nested_scan_finds_install() {
    let d = disk(&["/tmp/s/Games/RPG/SkyrimSE/Data/Skyrim.esm"]);
    let found = scan_folder_for_skyrim(&d, "/tmp/s", 6, &None);
    let nested = "/tmp/s/Games/RPG/SkyrimSE";
    assert!(
        found.iter().any(|d| d.game.install_dir == nested),
        "expected nested install, got {:?}",
        found.iter().map(|d| d.game.install_dir.clone()).collect::<Vec<_>>()
    );
    assert_eq!(found.len(), 1);
    assert_eq!(found[0].source_label, format!("Found at {nested}"));
    assert_eq!(found[0].data_dir_modified_secs, Some("/tmp/s/Games/RPG/SkyrimSE/Data".len() as u64));
}

#[test]
fn scan_stops_at_its_depth_and_at_skipped_folders() {
    let d = disk(&[
        "/r/a/b/c/Data/Skyrim.esm",
        "/r/node_modules/Data/Skyrim.esm",
        "/r/.hidden/Data/Skyrim.esm",
    ]);
    assert_eq!(scan_folder_for_skyrim(&d, "/r", 2, &None).len(), 0);
    assert_eq!(scan_folder_for_skyrim(&d, "/r", 3, &None).len(), 1);
    assert_eq!(scan_folder_for_skyrim(&d, "/nowhere", 3, &None).len(), 0);
}

#[test]
fn editions_are_told_by_their_programs() {
    assert_eq!(GameEdition::LE.exe_and_appid(), ("TESV.exe", "72850"));
    assert_eq!(GameEdition::SE.exe_and_appid(), ("SkyrimSE.exe", "489830"));
    assert_eq!(GameEdition::AE.exe_and_appid(), ("SkyrimSE.exe", "489830"));
    assert_eq!(GameEdition::VR.exe_and_appid(), ("SkyrimVR.exe", "611670"));
    assert_eq!(my_games_folder_name(GameEdition::LE), "Skyrim");
    assert_eq!(my_games_folder_name(GameEdition::SE), "Skyrim Special Edition");
    assert_eq!(my_games_folder_name(GameEdition::AE), "Skyrim Special Edition");
    assert_eq!(my_games_folder_name(GameEdition::VR), "Skyrim VR");
    assert_eq!(identify_skyrim_at(&disk(&["/g/TESV.exe"]), "/g"), Some(GameEdition::LE));
    assert_eq!(identify_skyrim_at(&disk(&["/g/skyrimvr.exe"]), "/g"), Some(GameEdition::VR));
    assert_eq!(
        identify_skyrim_at(&disk(&["/g/SkyrimSE.exe", "/g/SkyrimVR.exe"]), "/g"),
        Some(GameEdition::VR)
    );
    assert_eq!(identify_skyrim_at(&disk(&["/g/Game.exe"]), "/g"), None);
    assert_eq!(identify_skyrim_at(&disk(&["/g/Game.exe"]), "/h"), None);
    assert_eq!(identify_skyrim_at(&disk(&["/g/DATA/dawnguard.ESM"]), "/g"), Some(GameEdition::SE));
    assert_eq!(identify_skyrim_at(&disk(&["/g/Data/skyrim - x.bsa"]), "/g"), Some(GameEdition::SE));
}

#[test]
fn plugins_file_goes_under_my_games() {
    let d = disk(&["/g/TESV.exe", "/g/data/"]);
    let g = find_skyrim_at(&d, "/g", "/docs", &Vec::new()).expect("LE");
    assert_eq!(g.plugins_txt, "/docs/Skyrim/plugins.txt");
    assert_eq!(g.data_dir, "/g/data");
    assert!(g.wine_prefix.is_none());
    let g = find_skyrim_at_smart(&d, "/g", &Vec::new(), &some("/home/me/Documents")).expect("LE");
    assert_eq!(g.plugins_txt, "/home/me/Documents/My Games/Skyrim/plugins.txt");
    let g = find_skyrim_at_smart(&d, "/g", &Vec::new(), &None).expect("LE");
    assert_eq!(g.plugins_txt, "/g/Skyrim/plugins.txt");
    let p = wine_prefix("/g", PrefixSource::PlainWine);
    let g = find_skyrim_at_smart(&d, "/g", &vec![p], &None).expect("LE");
    assert_eq!(g.plugins_txt, "/g/drive_c/users/me/Documents/My Games/Skyrim/plugins.txt");
    assert!(find_skyrim_at(&d, "/h", "/docs", &Vec::new()).is_none());
    assert!(find_skyrim_at_smart(&d, "/h", &Vec::new(), &None).is_none());
}

#[test]
fn skipped_folder_names() {
    for name in [".git", "Node_Modules", "TEMP", "compatdata", "Some.app", ".anything"] {
        assert!(should_skip_dir_name(name), "{name}");
    }
    for name in [".wine", ".steam", "Games", "Skyrim"] {
        assert!(!should_skip_dir_name(name), "{name}");
    }
}

const STEAM: &str = "/home/me/.steam/steam/steamapps";

fn steam_disk() -> Disk {
    disk_with_texts(
        &[
            "/home/me/.steam/steam/steamapps/compatdata/489830/pfx/drive_c/users/steamuser/",
            "/home/me/.steam/steam/steamapps/compatdata/489830/pfx/drive_c/users/Public/",
            "/home/me/.steam/steam/steamapps/common/Skyrim Special Edition/SkyrimSE.exe",
            "/home/me/.steam/steam/steamapps/common/Skyrim Special Edition/Data/Skyrim.esm",
            "/mnt/lib/steamapps/compatdata/1/pfx/drive_c/users/me/",
            "/home/me/.wine/drive_c/users/me/Documents/My Games/Skyrim/",
            "/home/me/.wine/drive_c/users/steamuser/",
            "/home/me/Games/Old/prefix/drive_c/users/default/",
            "/home/me/Games/New/prefix/drive_c/users/me/",
            "/home/me/Games/Own/drive_c/users/me/",
            "/home/me/.cxoffice/Bottle/drive_c/users/crossover/",
        ],
        &[
            (
                "/home/me/.steam/steam/steamapps/appmanifest_489830.acf",
                "\"AppState\"\n{\n\t\"name\"\t\t\"Skyrim Special Edition\"\n}\n",
            ),
            (
                "/home/me/.steam/steam/steamapps/libraryfolders.vdf",
                "\"0\"\n\t\"path\"\t\t\"/mnt/lib\"\n",
            ),
        ],
    )
}

#[test]
fn prefixes_of_several_launchers_are_found() {
    let d = steam_disk();
    let found = discover_prefixes(&d, &some("/home/me"), &some("me"), &some("/home/me/.wine"));
    let labels: Vec<String> = found.iter().map(|p| p.source.label()).collect();
    assert_eq!(
        labels,
        vec![
            "Steam/Proton — Skyrim Special Edition (appid 489830)",
            "Steam/Proton — appid 1",
            "Lutris — New",
            "Lutris — Own",
            "CrossOver — Bottle",
            "Plain Wine (~/.wine)",
            "Custom prefix — /home/me/.wine",
        ]
    );
    assert_eq!(found[0].prefix_root, format!("{STEAM}/compatdata/489830/pfx"));
    assert_eq!(found[0].drive_c(), format!("{STEAM}/compatdata/489830/pfx/drive_c"));
    assert_eq!(
        found[1].my_games_dir(),
        "/mnt/lib/steamapps/compatdata/1/pfx/drive_c/users/me/Documents/My Games"
    );
    assert_eq!(found[5].windows_user_dir, "/home/me/.wine/drive_c/users/me");
    assert_eq!(discover_prefixes(&d, &None, &None, &some("/home/me/.wine")).len(), 0);
}

#[test]
fn windows_user_is_resolved_in_order() {
    let used = disk(&["/p/drive_c/users/steamuser/", "/p/drive_c/users/x/Documents/My Games/SKYRIM/"]);
    assert!(
        matches!(resolve_windows_user_dir(&used, "/p", &None), Ok(u) if u == "/p/drive_c/users/x")
    );
    let proton = disk(&["/p/drive_c/users/me/", "/p/drive_c/users/steamuser/"]);
    assert!(
        matches!(resolve_windows_user_dir(&proton, "/p", &some("me")), Ok(u) if u == "/p/drive_c/users/steamuser")
    );
    let named = disk(&["/p/drive_c/users/a/", "/p/drive_c/users/me/"]);
    assert!(
        matches!(resolve_windows_user_dir(&named, "/p", &some("me")), Ok(u) if u == "/p/drive_c/users/me")
    );
    let other = disk(&["/p/drive_c/users/Public/", "/p/drive_c/users/b/"]);
    assert!(
        matches!(resolve_windows_user_dir(&other, "/p", &some("me")), Ok(u) if u == "/p/drive_c/users/b")
    );
    let none = disk(&["/p/drive_c/users/Public/", "/p/drive_c/users/All Users/"]);
    assert!(matches!(
        resolve_windows_user_dir(&none, "/p", &None),
        Err(PrefixError::NoUserDir)
    ));
}

#[test]
fn steam_files_are_read() {
    assert_eq!(manifest_name("  \"name\"\t\t\"Skyrim\"\n"), some("Skyrim"));
    assert_eq!(manifest_name("\"appid\" \"1\"\n"), None);
    assert_eq!(
        library_paths("\"path\" \"/a\"\n x \n\"path\"  \"/b c\"\n"),
        vec!["/a".to_string(), "/b c".to_string()]
    );
}

#[test]
fn install_next_to_the_prefix_is_found() {
    let d = steam_disk();
    let prefixes = discover_prefixes(&d, &some("/home/me"), &some("me"), &None);
    let games = find_all_skyrim_in_prefix(&d, &prefixes[0]);
    assert_eq!(games.len(), 1);
    assert_eq!(games[0].install_dir, format!("{STEAM}/common/Skyrim Special Edition"));
    assert_eq!(
        games[0].plugins_txt,
        format!(
            "{STEAM}/compatdata/489830/pfx/drive_c/users/steamuser/Documents/My Games/Skyrim Special Edition/plugins.txt"
        )
    );
    assert!(find_skyrim_in_prefix(&d, &prefixes[0]).is_some());
    assert!(find_skyrim_in_prefix(&d, &prefixes[1]).is_none());
    let found = scan_all_prefixes_for_skyrim(&d, &prefixes);
    assert_eq!(found.len(), 1);
    assert_eq!(found[0].source_label, "Steam/Proton — Skyrim Special Edition (appid 489830)");
    let everywhere = scan_all_locations(&d, &prefixes, &some("/home/me"), &Vec::new(), &None);
    assert_eq!(everywhere.len(), 1);
}

#[test]
fn every_install_of_a_prefix_is_found_once() {
    let d = disk(&[
        "/w/drive_c/Games/Old/TESV.exe",
        "/w/drive_c/Games/New/SkyrimSE.exe",
        "/w/drive_c/users/me/",
    ]);
    let p = wine_prefix("/w", PrefixSource::PlainWine);
    let mut dirs: Vec<String> =
        find_all_skyrim_in_prefix(&d, &p).into_iter().map(|g| g.install_dir).collect();
    dirs.sort();
    assert_eq!(dirs, vec!["/w/drive_c/Games/New", "/w/drive_c/Games/Old"]);
}

#[test]
fn custom_locations_are_scanned_after_the_usual_ones() {
    let d = disk(&["/home/me/Games/S/SkyrimSE.exe", "/data/S/TESV.exe", "/mnt/x/SkyrimVR.exe"]);
    let found = scan_custom_locations(&d, &some("/home/me"), &vec!["/data".to_string()], &None);
    let dirs: Vec<&str> = found.iter().map(|d| d.game.install_dir.as_str()).collect();
    assert_eq!(dirs, vec!["/home/me/Games/S", "/data/S", "/mnt/x"]);
    assert_eq!(default_scan_folders("/h")[0], "/h/Downloads");
    assert_eq!(default_scan_folders("/h").len(), 11);
    assert_eq!(default_mount_roots(), vec!["/mnt", "/media", "/run/media"]);
}

#[test]
fn deep_scan_goes_from_its_roots() {
    let d = disk(&[
        "/home/me/a/b/c/d/e/f/S/SkyrimSE.exe",
        "/home/me/.wine/drive_c/S/TESV.exe",
        "/home/me/.wine/drive_c/users/me/",
        "/opt/x",
    ]);
    let opts = DeepScanOptions::default();
    assert_eq!(opts.max_depth, 12);
    assert!(opts.include_prefixes);
    assert_eq!(
        default_deep_roots(&d, &some("/home/me")),
        vec!["/home/me", "/home/me/.wine", "/opt"]
    );
    let p = wine_prefix("/home/me/.wine", PrefixSource::PlainWine);
    let found = deep_scan_for_skyrim(&d, &opts, &vec![p], &some("/home/me"), &None);
    let labels: Vec<&str> = found.iter().map(|d| d.source_label.as_str()).collect();
    assert_eq!(
        labels,
        vec!["Plain Wine (~/.wine) (deep)", "Deep scan — /home/me/a/b/c/d/e/f/S"]
    );
    let roots = DeepScanOptions {
        roots: vec!["/home/me/.wine".to_string()],
        max_depth: 3,
        include_prefixes: false,
    };
    let p = wine_prefix("/home/me/.wine", PrefixSource::PlainWine);
    let found = deep_scan_for_skyrim(&d, &roots, &vec![p], &None, &None);
    assert_eq!(found.len(), 1);
    assert_eq!(found[0].source_label, "Plain Wine (~/.wine) — /home/me/.wine/drive_c/S");
}

#[test]
fn nearest_prefix_counts() {
    let outer = wine_prefix("/a", PrefixSource::PlainWine);
    let inner = wine_prefix("/a/b", PrefixSource::Custom { path: "/a/b".to_string() });
    let all = vec![outer, inner];
    let hit = find_prefix_containing(&all, "/a/b/drive_c/Games/S");
    assert!(matches!(hit, Some(p) if p.prefix_root == "/a/b"));
    let hit = find_prefix_containing(&all, "/a/drive_c/S");
    assert!(matches!(hit, Some(p) if p.prefix_root == "/a"));
    assert!(find_prefix_containing(&all, "/ab/S").is_none());
}

#[test]
fn labels_name_the_launcher() {
    let name = || "X".to_string();
    assert_eq!(PrefixSource::Lutris { name: name() }.label(), "Lutris — X");
    assert_eq!(PrefixSource::Heroic { name: name() }.label(), "Heroic Games Launcher — X");
    assert_eq!(PrefixSource::Bottles { name: name() }.label(), "Bottles — X");
    assert_eq!(PrefixSource::PortProton { name: name() }.label(), "PortProton — X");
}

#[test]
fn later_folder_of_a_snapshot_counts() {
    let folder = |modified: u64| Folder {
        path: "/a".to_string(),
        canonical: "/a".to_string(),
        real_dir: true,
        modified: Some(modified),
        items: Vec::new(),
    };
    let d = Disk::new(vec![folder(1), folder(2)], Vec::new());
    assert_eq!(d.modified("/a"), Some(2));
    assert!(d.is_dir("/a"));
    assert!(!d.is_dir("/b"));
    assert_eq!(d.canonical("/b"), "/b");
    assert!(d.read_text("/a").is_none());
}

#[test]
fn places_that_are_searched() {
    let p = wine_prefix(
        "/s/steamapps/compatdata/489830/pfx",
        PrefixSource::SteamProton { app_id: "489830".to_string(), game_name: some("Skyrim") },
    );
    let c = "/s/steamapps/compatdata/489830/pfx/drive_c";
    let roots = candidate_roots(&p);
    assert_eq!(roots[0], "/s/steamapps/common");
    assert_eq!(roots[1], "/s/steamapps");
    assert_eq!(roots[2], c);
    assert_eq!(roots[roots.len() - 1], format!("{c}/GOG Games"));
    assert_eq!(search_depth(&p, c), DRIVE_DEPTH);
    assert_eq!(search_depth(&p, "/s/steamapps"), PLACE_DEPTH);
    assert_eq!(steam_roots("/home/me")[0], "/home/me/.steam/steam");
    let launchers = launcher_roots("/home/me");
    assert_eq!(launchers[0].root, "/home/me/Games");
    assert_eq!(launchers[0].sub, some("prefix"));
    assert_eq!(launchers[0].launcher, Launcher::Lutris);
}

/// Paths with single dots, doubled slashes and steps that lead up.
const ODD_PATHS: [&str; 30] = [
    "", "/", "//", ".", "./", "/.", "/./", "./.", "..", "../", "/..", "a", "a/", "a/.", "/a", "//a",
    "./a", "a/b", "a//b/", "a/./b", "a/./b/.", "/g/Data", "/g/Data/.", "/g/./Data//.//", "a/..", "a/../b",
    ".a", "a/.b", "x.tar.gz", "/g/x.esp/",
];

#[test]
fn paths_are_taken_apart_as_the_system_does() {
    for path in ODD_PATHS {
        let std = Path::new(path);
        assert_eq!(
            parent_of(path),
            std.parent().map(|p| p.to_str().unwrap().to_string()),
            "parent of {path:?}"
        );
        assert_eq!(
            last_step(path),
            std.file_name().map(|n| n.to_str().unwrap().to_string()),
            "name of {path:?}"
        );
        assert_eq!(
            path_extension(path),
            std.extension().map(|e| e.to_str().unwrap().to_string()),
            "extension of {path:?}"
        );
        assert_eq!(
            replace_extension(path, "bak"),
            std.with_extension("bak").to_str().unwrap(),
            "{path:?} with an extension"
        );
    }
    assert_eq!(parent_of("/g/Data/."), some("/g"));
}

fn folder(path: &str, real_dir: bool, items: &[(&str, bool)]) -> Folder {
    Folder {
        path: path.to_string(),
        canonical: path.to_string(),
        real_dir,
        modified: None,
        items: items
            .iter()
            .map(|(name, is_dir)| DirItem {
                name: name.to_string(),
                is_dir: *is_dir,
                is_file: !is_dir,
                real_dir: *is_dir,
                real_file: !is_dir,
            })
            .collect(),
    }
}

#[test]
fn data_folder_with_a_dot_behind_it() {
    let d = Disk::new(
        vec![
            folder("/g", true, &[("Data", true), ("SkyrimVR.exe", false)]),
            folder("/g/Data/.", true, &[("Skyrim.esm", false)]),
        ],
        Vec::new(),
    );
    assert_eq!(normalize_install_dir(&d, "/g/Data/."), "/g");
    assert_eq!(identify_skyrim_at(&d, "/g/Data/."), Some(GameEdition::VR));
}

#[test]
fn linked_root_is_searched_but_is_no_install() {
    let at = |real_dir: bool| {
        Disk::new(
            vec![
                folder("/l", real_dir, &[("SkyrimSE.exe", false), ("b", true)]),
                folder("/l/b", true, &[("SkyrimVR.exe", false)]),
            ],
            Vec::new(),
        )
    };
    let found = |d: &Disk, depth: usize| -> Vec<String> {
        scan_folder_for_skyrim(d, "/l", depth, &None)
            .iter()
            .map(|x| x.game.install_dir.clone())
            .collect()
    };
    assert_eq!(found(&at(true), 1), vec!["/l", "/l/b"]);
    assert_eq!(found(&at(true), 0), vec!["/l"]);
    assert_eq!(found(&at(false), 1), vec!["/l/b"]);
    assert!(found(&at(false), 0).is_empty());
    assert!(at(true).is_real_dir("/l"));
    assert!(!at(false).is_real_dir("/l"));
}
