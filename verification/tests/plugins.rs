use skyrim_modmgr::ini::{get_ini_value, set_ini_value};
use skyrim_modmgr::nxm::{desktop_entry, desktop_path, parse_nxm_url, NxmError};
use skyrim_modmgr::tes4::fake_tes4_with_masters;
use skyrim_modmgr::validate::{
    check_missing_masters, find_cycles, read_masters_from_bytes, sort_plugins, NameTable,
};

fn fake_tes4(masters: &[&str]) -> Vec<u8> {
    let mut data = Vec::new();
    for m in masters {
        data.extend_from_slice(b"MAST");
        let mut body = m.as_bytes().to_vec();
        body.push(0);
        data.extend_from_slice(&(body.len() as u16).to_le_bytes());
        data.extend_from_slice(&body);
    }
    let mut out = Vec::new();
    out.extend_from_slice(b"TES4");
    out.extend_from_slice(&(data.len() as u32).to_le_bytes());
    out.extend_from_slice(&[0u8; 16]);
    out.extend_from_slice(&data);
    out
}

fn texts(list: &[&str]) -> Vec<String> {
    list.iter().map(|s| s.to_string()).collect()
}

fn plugin_table(plugins: &[(&str, &[&str])]) -> NameTable<Vec<u8>> {
    let mut table = NameTable::new();
    for (name, masters) in plugins {
        table.insert(name, fake_tes4(masters));
    }
    table
}

#[test]
fn fake_tes4_roundtrips() {
    let bytes = fake_tes4_with_masters(&["Skyrim.esm", "Update.esm"]);
    let masters = read_masters_from_bytes(&bytes);
    assert_eq!(masters, vec!["Skyrim.esm", "Update.esm"]);
}

#[test]
fn made_header_has_the_expected_bytes() {
    let bytes = fake_tes4_with_masters(&["Ä.esm"]);
    assert_eq!(bytes, fake_tes4(&["Ä.esm"]));
    assert_eq!(&bytes[0..8], b"TES4\x0d\0\0\0");
    assert_eq!(&bytes[24..31], b"MAST\x07\0\xc3");
}

#[test]
fn reads_multiple_masters() {
    let bytes = fake_tes4(&["Skyrim.esm", "Update.esm", "Dawnguard.esm"]);
    assert_eq!(
        read_masters_from_bytes(&bytes),
        vec!["Skyrim.esm", "Update.esm", "Dawnguard.esm"]
    );
}

#[test]
fn rejects_non_tes4_and_truncated() {
    assert!(read_masters_from_bytes(b"").is_empty());
    assert!(read_masters_from_bytes(b"XXXX").is_empty());
    assert!(read_masters_from_bytes(b"TES").is_empty());
    let mut bytes = fake_tes4(&["Skyrim.esm"]);
    bytes.truncate(10);
    assert!(read_masters_from_bytes(&bytes).is_empty());
}

#[test]
fn master_that_is_no_text_is_left_out() {
    let mut bytes = fake_tes4(&["ab", "Update.esm"]);
    bytes[30] = 0xff;
    assert_eq!(read_masters_from_bytes(&bytes), vec!["Update.esm"]);
}

#[test]
fn missing_masters_case_insensitive() {
    let files = plugin_table(&[("MyMod.esp", &["Skyrim.esm", "Update.esm"])]);
    let problems = check_missing_masters(&texts(&["MyMod.esp", "skyrim.esm"]), &files);
    assert_eq!(problems.len(), 1);
    assert_eq!(problems[0].missing, vec!["Update.esm"]);
}

#[test]
fn plugins_that_are_not_there_are_passed_over() {
    let files: NameTable<Vec<u8>> = NameTable::new();
    let problems = check_missing_masters(&texts(&["MyMod.esp", "Skyrim.esm"]), &files);
    assert!(problems.is_empty());
}

#[test]
fn later_entry_of_a_name_table_counts() {
    let mut files = plugin_table(&[("A.esp", &["X.esm"])]);
    files.insert("a.ESP", fake_tes4(&["Y.esm"]));
    let problems = check_missing_masters(&texts(&["A.esp"]), &files);
    assert_eq!(problems[0].plugin, "A.esp");
    assert_eq!(problems[0].missing, vec!["Y.esm"]);
}

#[test]
fn masters_load_before_their_plugins() {
    let files = plugin_table(&[("b.esp", &["a.esm"]), ("a.esm", &[]), ("c.esp", &["b.esp"])]);
    let sorted = sort_plugins(&texts(&["c.esp", "b.esp", "x.esp", "a.esm"]), &files).unwrap();
    assert_eq!(sorted, vec!["x.esp", "a.esm", "b.esp", "c.esp"]);
}

#[test]
fn sorting_keeps_a_valid_order() {
    let files = plugin_table(&[("b.esp", &["a.esm"]), ("a.esm", &[])]);
    let order = texts(&["a.esm", "z.esp", "b.esp", "k.esp"]);
    assert_eq!(sort_plugins(&order, &files).unwrap(), order);
}

#[test]
fn loops_are_found_and_not_sorted() {
    let files = plugin_table(&[("a.esp", &["b.esp"]), ("b.esp", &["A.esp"])]);
    let order = texts(&["a.esp", "b.esp"]);
    let cycles = find_cycles(&order, &files);
    assert_eq!(cycles, vec![vec!["a.esp", "b.esp", "a.esp"]]);
    assert_eq!(sort_plugins(&order, &files), Err(vec![texts(&["a.esp", "b.esp", "a.esp"])]));
    let straight = plugin_table(&[("a.esp", &["b.esp"])]);
    assert!(find_cycles(&order, &straight).is_empty());
}

#[test]
fn plugins_of_one_name_are_one_on_a_loop() {
    let files = plugin_table(&[("A", &["B"]), ("B", &["A"])]);
    let twice = texts(&["A", "B", "A"]);
    assert_eq!(find_cycles(&twice, &files), vec![texts(&["A", "B", "A"])]);
    assert_eq!(sort_plugins(&twice, &files), Err(vec![texts(&["A", "B", "A"])]));
    let other_case = texts(&["A", "B", "a"]);
    assert_eq!(find_cycles(&other_case, &files), vec![texts(&["A", "B", "a"])]);
    let later = texts(&["x", "B", "A", "b"]);
    assert_eq!(find_cycles(&later, &files), vec![texts(&["B", "A", "b"])]);
    let straight = plugin_table(&[("A", &["B"])]);
    assert!(find_cycles(&twice, &straight).is_empty());
    assert_eq!(sort_plugins(&twice, &straight).unwrap(), texts(&["B", "A", "A"]));
    let itself = plugin_table(&[("A", &["a"])]);
    assert!(find_cycles(&other_case, &itself).is_empty());
}

#[test]
fn names_that_differ_in_other_letters() {
    let files = plugin_table(&[("\u{c9}", &["B"]), ("B", &["\u{c9}"])]);
    let order = texts(&["\u{c9}", "B", "\u{e9}"]);
    assert!(find_cycles(&order, &files).is_empty());
    assert_eq!(sort_plugins(&order, &files), Err(Vec::new()));
    let itself = plugin_table(&[("\u{c9}", &["\u{c9}"])]);
    let order = texts(&["\u{c9}", "\u{e9}"]);
    assert!(find_cycles(&order, &itself).is_empty());
    assert_eq!(sort_plugins(&order, &itself).unwrap(), texts(&["\u{e9}", "\u{c9}"]));
}

#[test]
fn set_and_get_roundtrip() {
    let one = set_ini_value("", "Display", "iMaxAnisotropy", "16");
    assert_eq!(get_ini_value(&one, "Display", "iMaxAnisotropy").as_deref(), Some("16"));
    let two = set_ini_value(&one, "Display", "iMaxAnisotropy", "8");
    assert_eq!(get_ini_value(&two, "display", "IMAXANISOTROPY").as_deref(), Some("8"));
    let contents = set_ini_value(&two, "Audio", "fVolume", "0.5");
    assert!(contents.contains("[Display]"));
    assert!(contents.contains("[Audio]"));
}

#[test]
fn setting_one_key_leaves_the_others() {
    let text = "[General]\nsLanguage=ENGLISH\nkeep = this\n\n[Display]\na=1\n";
    let after = set_ini_value(text, "general", "SLANGUAGE", "GERMAN");
    assert_eq!(get_ini_value(&after, "General", "sLanguage").as_deref(), Some("GERMAN"));
    assert_eq!(get_ini_value(&after, "General", "keep").as_deref(), Some("this"));
    assert_eq!(get_ini_value(&after, "Display", "a").as_deref(), Some("1"));
    assert_eq!(get_ini_value(&after, "Display", "b"), None);
}

#[test]
fn line_ends_are_kept() {
    let dos = "[A]\r\nx=1\r\ny=2\r\n";
    assert_eq!(set_ini_value(dos, "A", "x", "5"), "[A]\r\nx=5\r\ny=2\r\n");
    assert_eq!(set_ini_value(dos, "a", "z", "3"), "[A]\r\nx=1\r\ny=2\r\nz=3\r\n");
    assert_eq!(
        set_ini_value(dos, "B", "z", "3"),
        "[A]\r\nx=1\r\ny=2\r\n\r\n[B]\r\nz=3\r\n"
    );
    let mixed = "[A]\nx=1\r\ny=2";
    assert_eq!(set_ini_value(mixed, "A", "x", "5"), "[A]\nx=5\r\ny=2");
    assert_eq!(set_ini_value(mixed, "A", "y", "5"), "[A]\nx=1\r\ny=5\n");
    assert_eq!(set_ini_value(mixed, "A", "z", "3"), "[A]\nx=1\r\ny=2\nz=3\n");
    for text in [dos, mixed, "", "[A]", "; note\r\n\r\n[A]\r\n[B]\r\nx=1\r\n"] {
        let once = set_ini_value(text, "A", "x", "5");
        assert_eq!(set_ini_value(&once, "A", "x", "5"), once);
    }
    assert_eq!(set_ini_value("[A]\n[B]\n", "A", "x", "5"), "[A]\nx=5\n[B]\n");
}

#[test]
fn only_declared_data_is_read() {
    let bytes = fake_tes4_with_masters(&["A.esm"]);
    let mut longer = bytes.clone();
    longer.extend_from_slice(b"MAST\x06\x00B.esm\x00");
    assert_eq!(read_masters_from_bytes(&bytes), texts(&["A.esm"]));
    assert_eq!(read_masters_from_bytes(&longer), texts(&["A.esm"]));
}

#[test]
fn parses_basic_nxm() {
    let link = parse_nxm_url("nxm://skyrimspecialedition/mods/123/files/456").unwrap();
    assert_eq!(link.game_domain, "skyrimspecialedition");
    assert_eq!(link.mod_id, 123);
    assert_eq!(link.file_id, 456);
    assert!(link.key.is_none());
}

#[test]
fn parses_with_query() {
    let link = parse_nxm_url("nxm://skyrim/mods/1/files/2?key=abc&expires=999").unwrap();
    assert_eq!(link.key.as_deref(), Some("abc"));
    assert_eq!(link.expires.as_deref(), Some("999"));
}

#[test]
fn rejects_http() {
    assert!(parse_nxm_url("https://nexusmods.com/foo").is_err());
}

#[test]
fn each_way_a_link_can_be_wrong() {
    assert_eq!(parse_nxm_url("nxm:/x"), Err(NxmError::NotNxm));
    assert_eq!(parse_nxm_url("nxm://skyrim/files/1"), Err(NxmError::UnknownShape));
    assert_eq!(parse_nxm_url("nxm://skyrim/mods/one/files/2"), Err(NxmError::BadModId));
    assert_eq!(parse_nxm_url("nxm://skyrim/mods/1/files/two"), Err(NxmError::BadFileId));
    assert_eq!(parse_nxm_url("NXM://skyrim/mods/1/files/2").unwrap().file_id, 2);
    assert_eq!(NxmError::NotNxm.message(" nxm:/x "), "not an nxm:// URL: nxm:/x");
    assert_eq!(
        NxmError::UnknownShape.message("nxm://skyrim/files/1"),
        "unrecognized nxm URL shape (expected nxm://<game>/mods/<id>/files/<id>): \
         nxm://skyrim/files/1"
    );
    assert_eq!(
        NxmError::BadModId.message("nxm://skyrim/mods/one/files/2"),
        "invalid mod id 'one'"
    );
    assert_eq!(
        NxmError::BadFileId.message("nxm://skyrim/mods/1/files"),
        "invalid file id 'files' in nxm://skyrim/mods/1/files"
    );
}

#[test]
fn handler_entry_names_the_program() {
    assert_eq!(desktop_path("/home/x/apps"), "/home/x/apps/skyrim-modmgr-nxm.desktop");
    let entry = desktop_entry("/opt/modmgr");
    assert!(entry.starts_with("[Desktop Entry]\n"));
    assert!(entry.contains("/opt/modmgr"));
}
