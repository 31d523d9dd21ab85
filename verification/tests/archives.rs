use skyrim_modmgr::bsa::{
    find_bsa_overlaps, list_bsa_files, scan_mod_bsas, BsaArchive, BsaError, FolderEntry,
};
use skyrim_modmgr::xml::{find_nesting, MAX_NESTING};
use skyrim_modmgr::fomod::{
    apply_install_plan, choose_source, copy_instruction, find_module_config, normalize_rel,
    parse_module_config,
    resolve_install_plan, source_candidates, FileInstruction, FomodError, GroupType, InstallPlan,
    PlanError, SourceChoice, SourceFound,
};

const SAMPLE: &str = r#"
    <config>
      <moduleName>Test Mod</moduleName>
      <requiredInstallFiles>
        <file source="base.esp" destination="base.esp" />
      </requiredInstallFiles>
      <installSteps>
        <installStep name="Options">
          <optionalFileGroups>
            <group name="Pick" type="SelectExactlyOne">
              <plugins>
                <plugin name="A">
                  <description>Option A</description>
                  <files>
                    <file source="a.esp" destination="a.esp" />
                  </files>
                </plugin>
                <plugin name="B">
                  <description>Option B</description>
                  <files>
                    <folder source="b_folder" destination="" />
                  </files>
                </plugin>
              </plugins>
            </group>
          </optionalFileGroups>
        </installStep>
      </installSteps>
    </config>
    "#;

fn le32(n: u32) -> [u8; 4] {
    n.to_le_bytes()
}

fn archive(version: u32, folders: &[(&str, &[&str])]) -> Vec<u8> {
    let mut names = Vec::new();
    let mut count = 0u32;
    for (_, files) in folders {
        for f in *files {
            names.extend_from_slice(f.as_bytes());
            names.push(0);
            count += 1;
        }
    }
    let mut b = Vec::new();
    b.extend_from_slice(b"BSA\0");
    b.extend_from_slice(&le32(version));
    b.extend_from_slice(&le32(36));
    b.extend_from_slice(&le32(3));
    b.extend_from_slice(&le32(folders.len() as u32));
    b.extend_from_slice(&le32(count));
    b.extend_from_slice(&le32(0));
    b.extend_from_slice(&le32(names.len() as u32));
    b.extend_from_slice(&le32(0));
    for (_, files) in folders {
        b.extend_from_slice(&[0u8; 8]);
        b.extend_from_slice(&le32(files.len() as u32));
        b.extend_from_slice(&[0u8; 4]);
        if version == 105 {
            b.extend_from_slice(&[0u8; 8]);
        }
    }
    for (folder, files) in folders {
        b.push(folder.len() as u8 + 1);
        b.extend_from_slice(folder.as_bytes());
        b.push(0);
        for _ in *files {
            b.extend_from_slice(&[0u8; 16]);
        }
    }
    b.extend_from_slice(&names);
    b
}

#[test]
fn lists_both_versions_of_archives() {
    for version in [104, 105] {
        let b = archive(version, &[("Meshes\\Armor", &["A.nif", "b.NIF"]), ("sound", &["c.wav"])]);
        assert_eq!(
            list_bsa_files(&b).unwrap(),
            vec!["meshes/armor/a.nif", "meshes/armor/b.nif", "sound/c.wav"]
        );
    }
}

#[test]
fn archive_names_that_are_no_text_are_kept_as_far_as_possible() {
    let mut b = archive(104, &[("sound", &["c.wav"])]);
    let n = b.len();
    b[n - 6] = 0xff;
    assert_eq!(list_bsa_files(&b).unwrap(), vec!["sound/\u{fffd}.wav"]);
}

#[test]
fn rejects_non_bsa() {
    assert!(list_bsa_files(b"XXXX").is_err());
}

#[test]
fn each_way_an_archive_can_be_wrong() {
    let good = archive(104, &[("sound", &["c.wav"])]);
    assert_eq!(list_bsa_files(&good[..20]), Err(BsaError::HeaderTruncated));
    let mut magic = good.clone();
    magic[0] = b'X';
    assert_eq!(list_bsa_files(&magic), Err(BsaError::BadMagic));
    assert_eq!(
        list_bsa_files(&archive(103, &[("sound", &["c.wav"])])),
        Err(BsaError::UnsupportedVersion(103))
    );
    assert_eq!(list_bsa_files(&good[..40]), Err(BsaError::FolderRecordsTruncated));
    assert_eq!(list_bsa_files(&good[..54]), Err(BsaError::FolderNameTruncated));
    assert_eq!(list_bsa_files(&good[..good.len() - 1]), Err(BsaError::FileNamesTruncated));
}

#[test]
fn empty_mod_has_no_bsas() {
    assert!(scan_mod_bsas(&Vec::new()).is_empty());
}

#[test]
fn only_archives_among_the_files_are_scanned() {
    let entry = |name: &str, is_file: bool, content: Option<Vec<u8>>| FolderEntry {
        name: name.to_string(),
        path: format!("/m/{name}"),
        is_file,
        content,
    };
    let found = scan_mod_bsas(&vec![
        entry("A.BSA", true, Some(archive(104, &[("sound", &["c.wav"])]))),
        entry("b.bsa", true, Some(b"junk".to_vec())),
        entry("c.bsa", false, None),
        entry("d.esp", true, Some(Vec::new())),
    ]);
    assert_eq!(found.len(), 2);
    assert_eq!(found[0].0, "A.BSA");
    assert_eq!(found[0].1.files, vec!["sound/c.wav"]);
    assert_eq!(found[1].1.path, "/m/b.bsa");
    assert!(found[1].1.files.is_empty());
}

#[test]
fn overlap_requires_two_mods() {
    let a = BsaArchive {
        name: "a.bsa".into(),
        path: "a.bsa".into(),
        files: vec!["meshes/x.nif".into(), "textures/y.dds".into()],
    };
    let b = BsaArchive {
        name: "b.bsa".into(),
        path: "b.bsa".into(),
        files: vec!["meshes/x.nif".into()],
    };
    let input = vec![
        ("mod1".into(), vec![("a.bsa".into(), a)]),
        ("mod2".into(), vec![("b.bsa".into(), b)]),
    ];
    let overlaps = find_bsa_overlaps(&input);
    assert_eq!(overlaps.len(), 1);
    assert_eq!(overlaps[0].0, "meshes/x.nif");
    assert_eq!(overlaps[0].1.len(), 2);
}

#[test]
fn parses_sample() {
    let cfg = parse_module_config(SAMPLE).unwrap();
    assert_eq!(cfg.module_name, "Test Mod");
    assert_eq!(cfg.required_files.len(), 1);
    assert_eq!(cfg.steps.len(), 1);
    assert_eq!(cfg.steps[0].groups[0].options.len(), 2);
    assert_eq!(cfg.steps[0].groups[0].group_type, GroupType::SelectExactlyOne);
    assert_eq!(cfg.steps[0].groups[0].options[0].description, "Option A");
    assert!(cfg.steps[0].groups[0].options[1].files[0].is_folder);
}

#[test]
fn broken_installer_is_an_error() {
    assert!(matches!(parse_module_config("<config><a></config>"), Err(FomodError::NotXml(_))));
    assert!(matches!(parse_module_config("<!DOCTYPE a><a/>"), Err(FomodError::NotXml(_))));
    let deep = |n: usize| format!("{}{}", "<a>".repeat(n), "</a>".repeat(n));
    assert!(parse_module_config(&deep(MAX_NESTING)).is_ok());
    assert!(matches!(parse_module_config(&deep(MAX_NESTING + 1)), Err(FomodError::TooDeep)));
    assert!(matches!(parse_module_config(&"<a>".repeat(1_000_000)), Err(FomodError::TooDeep)));
    let hidden = "<a><!-- </a></a> --><![CDATA[</a>]]><?p </a>?>".repeat(MAX_NESTING + 1);
    assert!(matches!(parse_module_config(&hidden), Err(FomodError::TooDeep)));
    assert_eq!(find_nesting("<a><b x='/>'/><b y=\"1>\"><c/></b></a>"), 3);
    let flat = format!("<a>{}</a>", "<b x='/'/>".repeat(5000));
    assert_eq!(find_nesting(&flat), 2);
    assert!(parse_module_config(&flat).is_ok());
}

#[test]
fn resolve_picks_option() {
    let cfg = parse_module_config(SAMPLE).unwrap();
    let plan = resolve_install_plan(&cfg, &vec![vec![vec![0]]]).unwrap();
    // required + option A
    assert_eq!(plan.files.len(), 2);
    assert_eq!(plan.files[1].source, "a.esp");
}

#[test]
fn each_way_choices_can_be_wrong() {
    let cfg = parse_module_config(SAMPLE).unwrap();
    assert!(matches!(
        resolve_install_plan(&cfg, &Vec::new()),
        Err(PlanError::StepCount { choices: 0, steps: 1 })
    ));
    assert!(matches!(
        resolve_install_plan(&cfg, &vec![Vec::new()]),
        Err(PlanError::GroupCount { step: 0, expected: 1, got: 0 })
    ));
    assert!(matches!(
        resolve_install_plan(&cfg, &vec![vec![vec![2]]]),
        Err(PlanError::OptionIndex { step: 0, group: 0, option: 2 })
    ));
    let name = cfg.steps[0].name.clone();
    assert_eq!(
        PlanError::StepCount { choices: 0, steps: 1 }.message(&cfg),
        "choice count (0) does not match step count (1)"
    );
    assert_eq!(
        PlanError::GroupCount { step: 0, expected: 1, got: 0 }.message(&cfg),
        format!("step '{name}' expected 1 group choice(s), got 0")
    );
    let group = cfg.steps[0].groups[0].name.clone();
    assert_eq!(
        PlanError::OptionIndex { step: 0, group: 0, option: 2 }.message(&cfg),
        format!("option index 2 out of range in group '{group}'")
    );
}

#[test]
fn find_config_in_tree() {
    let files = vec!["readme.txt".to_string(), "fomod/ModuleConfig.xml".to_string()];
    assert!(find_module_config(&files, "archive").is_some());
    assert!(find_module_config(&vec!["readme.txt".to_string()], "archive").is_none());
}

#[test]
fn instructions_go_where_they_say() {
    let instr = |source: &str, destination: &str, is_folder: bool| FileInstruction {
        source: source.to_string(),
        destination: destination.to_string(),
        is_folder,
    };
    assert_eq!(normalize_rel(".\\a\\b.esp"), "a/b.esp");
    let file = instr("x\\a.esp", "", false);
    assert_eq!(source_candidates(&file), ("x/a.esp".to_string(), "x/a.esp".to_string()));
    assert_eq!(choose_source(false, true), SourceChoice::AsWritten);
    assert_eq!(choose_source(false, false), SourceChoice::Skip);
    let name = Some("a.esp".to_string());
    assert_eq!(copy_instruction(&file, false, &name, &Vec::new()), vec!["x/a.esp"]);
    let into = instr("a.esp", "Optional", false);
    assert_eq!(copy_instruction(&into, false, &name, &Vec::new()), vec!["Optional/a.esp"]);
    let folder = instr("tex", "textures", true);
    assert_eq!(
        copy_instruction(&folder, true, &None, &vec!["a/b.dds".to_string()]),
        vec!["textures/a/b.dds"]
    );
    let exact = instr("a.esp", "b.esp", false);
    let found = |relative_exists: bool, is_folder: bool, files: &[&str]| SourceFound {
        relative_exists,
        as_written_exists: relative_exists,
        is_folder,
        name: Some("a.esp".to_string()),
        files: files.iter().map(|f| f.to_string()).collect(),
    };
    let plan = InstallPlan { files: vec![folder, instr("gone.esp", "", false), exact] };
    let facts = vec![found(true, true, &["a/b.dds"]), found(false, false, &[]), found(true, false, &[])];
    assert_eq!(
        apply_install_plan("/t", "/mods/i", &plan, &facts),
        vec![
            ("/t/tex/a/b.dds".to_string(), "/mods/i/textures/a/b.dds".to_string()),
            ("/t/a.esp".to_string(), "/mods/i/b.esp".to_string()),
        ]
    );
}
