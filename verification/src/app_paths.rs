//! Where the program keeps its data.

use crate::paths;
use vstd::prelude::*;

verus! {

/// The folders that the program owns.
#[derive(Debug, Clone)]
pub struct AppPaths {
    pub root: String,
    /// The content of the mods, one folder for each id.
    pub mods: String,
    /// The profiles.
    pub profiles: String,
    /// Scratch space for extracting archives.
    pub tmp: String,
    /// The vanilla `Data` folders and the snapshots of saves.
    pub backups: String,
    /// The file with the known installs and the active ones.
    pub config_file: String,
}

/// The mathematical content of an [`AppPaths`].
pub struct AppPathsView {
    pub root: Seq<char>,
    pub mods: Seq<char>,
    pub profiles: Seq<char>,
    pub tmp: Seq<char>,
    pub backups: Seq<char>,
    pub config_file: Seq<char>,
}

impl DeepView for AppPaths {
    type V = AppPathsView;

    open spec fn deep_view(&self) -> AppPathsView {
        AppPathsView {
            root: self.root@,
            mods: self.mods@,
            profiles: self.profiles@,
            tmp: self.tmp@,
            backups: self.backups@,
            config_file: self.config_file@,
        }
    }
}

/// The folders under this root.
pub open spec fn paths_under(root: Seq<char>) -> AppPathsView {
    AppPathsView {
        root,
        mods: paths::joined(root, "mods"@),
        profiles: paths::joined(root, "profiles"@),
        tmp: paths::joined(root, "tmp"@),
        backups: paths::joined(root, "backups"@),
        config_file: paths::joined(root, "config.json"@),
    }
}

impl AppPaths {
    /// The folders under the platform's data folder. None where the platform
    /// has none.
    pub fn discover(data_dir: &Option<String>) -> (r: Option<Self>)
        ensures
            r.deep_view() == (match data_dir.deep_view() {
                Some(d) => Some(paths_under(paths::joined(d, "skyrim-modmgr"@))),
                None => None,
            }),
    {
        match data_dir {
            Some(d) => Some(AppPaths::new(paths::join(d.as_str(), "skyrim-modmgr"))),
            None => None,
        }
    }

    /// The folders under this root.
    pub fn new(root: String) -> (r: Self)
        ensures
            r.deep_view() == paths_under(root@),
    {
        AppPaths {
            mods: paths::join(root.as_str(), "mods"),
            profiles: paths::join(root.as_str(), "profiles"),
            tmp: paths::join(root.as_str(), "tmp"),
            backups: paths::join(root.as_str(), "backups"),
            config_file: paths::join(root.as_str(), "config.json"),
            root,
        }
    }

    /// The folders that have to exist, in the order in which they are made.
    pub fn folders(&self) -> (r: Vec<String>)
        ensures
            r.deep_view() == seq![
                self.deep_view().root,
                self.deep_view().mods,
                self.deep_view().profiles,
                self.deep_view().tmp,
                self.deep_view().backups,
            ],
    {
        let r = vec![
            self.root.clone(),
            self.mods.clone(),
            self.profiles.clone(),
            self.tmp.clone(),
            self.backups.clone(),
        ];
        assert(r.deep_view() =~= seq![
            self.root@,
            self.mods@,
            self.profiles@,
            self.tmp@,
            self.backups@,
        ]);
        r
    }
}

/// All that the program keeps is directly below its root, and no two of its
/// places are the same.
pub proof fn lemma_places_are_apart(root: Seq<char>)
    ensures
        ({
            let p = paths_under(root);
            let n = paths::steps(root).len();
            let all = seq![p.mods, p.profiles, p.tmp, p.backups, p.config_file];
            &&& p.root == root
            &&& forall|i: int|
                0 <= i < all.len() ==> paths::steps(#[trigger] all[i]).len() == n + 1
                    && paths::steps(all[i]).take(n as int) == paths::steps(root)
            &&& forall|i: int, j: int|
                0 <= i < j < all.len() ==> (#[trigger] all[i]) != (#[trigger] all[j])
        }),
{
    reveal_strlit("mods");
    reveal_strlit("profiles");
    reveal_strlit("tmp");
    reveal_strlit("backups");
    reveal_strlit("config.json");
    let names = seq!["mods"@, "profiles"@, "tmp"@, "backups"@, "config.json"@];
    assert(names[0].len() == 4 && names[1].len() == 8 && names[2].len() == 3 && names[3].len() == 7
        && names[4].len() == 11);
    let p = paths_under(root);
    let all = seq![p.mods, p.profiles, p.tmp, p.backups, p.config_file];
    assert forall|i: int| 0 <= i < 5 implies #[trigger] all[i] == paths::joined(root, names[i])
        && paths::steps(all[i]) == paths::steps(root).push(names[i]) by {
        assert(i == 0 || i == 1 || i == 2 || i == 3 || i == 4);
        assert(text_lacks_slash(names[i]));
        paths::lemma_name_of_joined(root, names[i]);
    }
    assert forall|i: int| 0 <= i < 5 implies paths::steps(#[trigger] all[i]).take(
        paths::steps(root).len() as int,
    ) == paths::steps(root) by {
        assert(paths::steps(root).push(names[i]).take(paths::steps(root).len() as int)
            =~= paths::steps(root));
    }
    assert forall|i: int, j: int| 0 <= i < j < 5 implies (#[trigger] all[i]) != (
    #[trigger] all[j]) by {
        if all[i] == all[j] {
            assert(paths::steps(all[i]).last() == names[i]);
            assert(paths::steps(all[j]).last() == names[j]);
            assert(names[i].len() == names[j].len());
        }
    }
}

spec fn text_lacks_slash(s: Seq<char>) -> bool {
    crate::text::lacks(s, '/')
}

} // verus!
