//! How files are linked into a staging tree and how that tree takes the place
//! of a game's `Data` folder: with symlinks on Linux, with hard links and
//! junctions on Windows.

use crate::paths;
use vstd::prelude::*;

verus! {

/// One step on the file system.
#[derive(Debug, Clone)]
pub enum FsStep {
    /// Make a folder, with those that hold it.
    MakeFolders { path: String },
    /// Remove a file or a symlink.
    RemoveFile { path: String },
    /// Remove a junction.
    RemoveFolder { path: String },
    /// Move what stands at a path.
    Rename { from: String, to: String },
    /// Make a symlink.
    Symlink { target: String, at: String },
    /// Make a junction.
    Junction { target: String, at: String },
    /// Make a hard link, or a copy where that fails.
    HardLink { source: String, at: String },
}

/// The mathematical content of an [`FsStep`].
pub enum FsStepView {
    MakeFolders { path: Seq<char> },
    RemoveFile { path: Seq<char> },
    RemoveFolder { path: Seq<char> },
    Rename { from: Seq<char>, to: Seq<char> },
    Symlink { target: Seq<char>, at: Seq<char> },
    Junction { target: Seq<char>, at: Seq<char> },
    HardLink { source: Seq<char>, at: Seq<char> },
}

impl DeepView for FsStep {
    type V = FsStepView;

    open spec fn deep_view(&self) -> FsStepView {
        match self {
            FsStep::MakeFolders { path } => FsStepView::MakeFolders { path: path@ },
            FsStep::RemoveFile { path } => FsStepView::RemoveFile { path: path@ },
            FsStep::RemoveFolder { path } => FsStepView::RemoveFolder { path: path@ },
            FsStep::Rename { from, to } => FsStepView::Rename { from: from@, to: to@ },
            FsStep::Symlink { target, at } => FsStepView::Symlink { target: target@, at: at@ },
            FsStep::Junction { target, at } => FsStepView::Junction { target: target@, at: at@ },
            FsStep::HardLink { source, at } => FsStepView::HardLink { source: source@, at: at@ },
        }
    }
}

/// What stands at a path.
#[derive(Debug, Clone, Copy, PartialEq, Eq, Structural)]
pub enum Standing {
    Nothing,
    /// A link that a deploy made.
    Link,
    /// A real folder or file.
    Real,
}

/// How a folder is linked.
#[derive(Debug, Clone, Copy, PartialEq, Eq, Structural)]
pub enum LinkKind {
    Symlink,
    Junction,
}

/// The step that makes the folder that holds this path, where it has one.
pub open spec fn holder_steps(path: Seq<char>) -> Seq<FsStepView> {
    match paths::parent(path) {
        Some(p) => seq![FsStepView::MakeFolders { path: p }],
        None => Seq::empty(),
    }
}

/// The step that removes a link to a folder.
pub open spec fn unlink_step(kind: LinkKind, at: Seq<char>) -> FsStepView {
    match kind {
        LinkKind::Symlink => FsStepView::RemoveFile { path: at },
        LinkKind::Junction => FsStepView::RemoveFolder { path: at },
    }
}

/// The step that makes a link to a folder.
pub open spec fn link_step(kind: LinkKind, target: Seq<char>, at: Seq<char>) -> FsStepView {
    match kind {
        LinkKind::Symlink => FsStepView::Symlink { target, at },
        LinkKind::Junction => FsStepView::Junction { target, at },
    }
}

/// The steps that make `staging` appear at `data`: a real folder there is
/// moved to `backup` first, unless there is a backup, and a link is removed.
pub open spec fn mount_by(
    kind: LinkKind,
    staging: Seq<char>,
    data: Seq<char>,
    backup: Seq<char>,
    standing: Standing,
    backed_up: bool,
) -> Seq<FsStepView> {
    let clear = match standing {
        Standing::Nothing => Seq::empty(),
        Standing::Link => seq![unlink_step(kind, data)],
        Standing::Real => holder_steps(backup) + (if backed_up {
            Seq::empty()
        } else {
            seq![FsStepView::Rename { from: data, to: backup }]
        }),
    };
    clear + holder_steps(data) + seq![link_step(kind, staging, data)]
}

/// The steps that undo a mount: the link is removed and the backup moved back.
pub open spec fn unmount_by(
    kind: LinkKind,
    data: Seq<char>,
    backup: Seq<char>,
    standing: Standing,
    backed_up: bool,
) -> Seq<FsStepView> {
    (if standing == Standing::Link {
        seq![unlink_step(kind, data)]
    } else {
        Seq::empty()
    }) + (if backed_up {
        seq![FsStepView::Rename { from: backup, to: data }]
    } else {
        Seq::empty()
    })
}

/// How a platform links files and folders. Each method tells the steps to
/// take, in order; the first that fails ends the work.
pub trait LinkBackend {
    /// The steps that link a file of the store into the staging tree.
    spec fn link_steps(&self, source: Seq<char>, dest: Seq<char>, taken: bool) -> Seq<FsStepView>;

    /// The kind of links that this platform mounts folders with.
    spec fn kind(&self) -> LinkKind;

    /// Links the file `source` of the mod store to `dest` in the staging tree,
    /// in place of what is there (`taken`).
    fn link_file(&self, source: &str, dest: &str, taken: bool) -> (r: Vec<FsStep>)
        ensures
            r.deep_view() == self.link_steps(source@, dest@, taken),
    ;

    /// Makes `staging_dir` appear at `data_dir`, and keeps a real folder there
    /// at `backup_dir`, unless there is a backup.
    fn mount_staging_over_data(
        &self,
        staging_dir: &str,
        data_dir: &str,
        backup_dir: &str,
        standing: Standing,
        backed_up: bool,
    ) -> (r: Vec<FsStep>)
        ensures
            r.deep_view() == mount_by(
                self.kind(),
                staging_dir@,
                data_dir@,
                backup_dir@,
                standing,
                backed_up,
            ),
    ;

    /// Undoes a mount: gives the folder at `backup_dir` back to `data_dir`.
    fn unmount(&self, data_dir: &str, backup_dir: &str, standing: Standing, backed_up: bool) -> (r:
        Vec<FsStep>)
        ensures
            r.deep_view() == unmount_by(self.kind(), data_dir@, backup_dir@, standing, backed_up),
    ;
}

fn push_step(steps: &mut Vec<FsStep>, step: FsStep)
    ensures
        final(steps).deep_view() == old(steps).deep_view().push(step.deep_view()),
{
    let ghost before = steps.deep_view();
    let ghost sv = step.deep_view();
    steps.push(step);
    assert(steps.deep_view() =~= before.push(sv));
}

fn push_holder(steps: &mut Vec<FsStep>, path: &str)
    ensures
        final(steps).deep_view() == old(steps).deep_view() + holder_steps(path@),
{
    let ghost before = steps.deep_view();
    if let Some(p) = paths::parent_of(path) {
        push_step(steps, FsStep::MakeFolders { path: p });
    }
    assert(steps.deep_view() =~= before + holder_steps(path@));
}

fn unlink(kind: LinkKind, at: &str) -> (r: FsStep)
    ensures
        r.deep_view() == unlink_step(kind, at@),
{
    match kind {
        LinkKind::Symlink => FsStep::RemoveFile { path: at.to_owned() },
        LinkKind::Junction => FsStep::RemoveFolder { path: at.to_owned() },
    }
}

fn link(kind: LinkKind, target: &str, at: &str) -> (r: FsStep)
    ensures
        r.deep_view() == link_step(kind, target@, at@),
{
    match kind {
        LinkKind::Symlink => FsStep::Symlink { target: target.to_owned(), at: at.to_owned() },
        LinkKind::Junction => FsStep::Junction { target: target.to_owned(), at: at.to_owned() },
    }
}

fn mount_plan(
    kind: LinkKind,
    staging: &str,
    data: &str,
    backup: &str,
    standing: Standing,
    backed_up: bool,
) -> (r: Vec<FsStep>)
    ensures
        r.deep_view() == mount_by(kind, staging@, data@, backup@, standing, backed_up),
{
    let mut steps: Vec<FsStep> = Vec::new();
    assert(steps.deep_view() =~= Seq::<FsStepView>::empty());
    match standing {
        Standing::Nothing => {},
        Standing::Link => {
            push_step(&mut steps, unlink(kind, data));
        },
        Standing::Real => {
            push_holder(&mut steps, backup);
            if !backed_up {
                push_step(
                    &mut steps,
                    FsStep::Rename { from: data.to_owned(), to: backup.to_owned() },
                );
            }
        },
    }
    push_holder(&mut steps, data);
    push_step(&mut steps, link(kind, staging, data));
    assert(steps.deep_view() =~= mount_by(kind, staging@, data@, backup@, standing, backed_up));
    steps
}

fn unmount_plan(kind: LinkKind, data: &str, backup: &str, standing: Standing, backed_up: bool) -> (r:
    Vec<FsStep>)
    ensures
        r.deep_view() == unmount_by(kind, data@, backup@, standing, backed_up),
{
    let mut steps: Vec<FsStep> = Vec::new();
    assert(steps.deep_view() =~= Seq::<FsStepView>::empty());
    if standing == Standing::Link {
        push_step(&mut steps, unlink(kind, data));
    }
    if backed_up {
        push_step(&mut steps, FsStep::Rename { from: backup.to_owned(), to: data.to_owned() });
    }
    assert(steps.deep_view() =~= unmount_by(kind, data@, backup@, standing, backed_up));
    steps
}

/// Symlinks everywhere. Wine and Proton follow them on the host, so that the
/// game sees ordinary files.
#[derive(Debug, Clone, Copy)]
pub struct LinuxBackend;

impl LinkBackend for LinuxBackend {
    open spec fn link_steps(&self, source: Seq<char>, dest: Seq<char>, taken: bool) -> Seq<
        FsStepView,
    > {
        holder_steps(dest) + (if taken {
            seq![FsStepView::RemoveFile { path: dest }]
        } else {
            Seq::empty()
        }) + seq![FsStepView::Symlink { target: source, at: dest }]
    }

    open spec fn kind(&self) -> LinkKind {
        LinkKind::Symlink
    }

    fn link_file(&self, source: &str, dest: &str, taken: bool) -> (r: Vec<FsStep>) {
        let mut steps: Vec<FsStep> = Vec::new();
        assert(steps.deep_view() =~= Seq::<FsStepView>::empty());
        push_holder(&mut steps, dest);
        if taken {
            push_step(&mut steps, FsStep::RemoveFile { path: dest.to_owned() });
        }
        push_step(&mut steps, FsStep::Symlink { target: source.to_owned(), at: dest.to_owned() });
        assert(steps.deep_view() =~= self.link_steps(source@, dest@, taken));
        steps
    }

    fn mount_staging_over_data(
        &self,
        staging_dir: &str,
        data_dir: &str,
        backup_dir: &str,
        standing: Standing,
        backed_up: bool,
    ) -> (r: Vec<FsStep>) {
        mount_plan(LinkKind::Symlink, staging_dir, data_dir, backup_dir, standing, backed_up)
    }

    fn unmount(&self, data_dir: &str, backup_dir: &str, standing: Standing, backed_up: bool) -> (r:
        Vec<FsStep>) {
        unmount_plan(LinkKind::Symlink, data_dir, backup_dir, standing, backed_up)
    }
}

/// Hard links for files and junctions for folders: neither asks for special
/// rights. On another volume a file is copied.
#[derive(Debug, Clone, Copy)]
pub struct WindowsBackend;

impl LinkBackend for WindowsBackend {
    open spec fn link_steps(&self, source: Seq<char>, dest: Seq<char>, taken: bool) -> Seq<
        FsStepView,
    > {
        holder_steps(dest) + (if taken {
            seq![FsStepView::RemoveFile { path: dest }]
        } else {
            Seq::empty()
        }) + seq![FsStepView::HardLink { source, at: dest }]
    }

    open spec fn kind(&self) -> LinkKind {
        LinkKind::Junction
    }

    fn link_file(&self, source: &str, dest: &str, taken: bool) -> (r: Vec<FsStep>) {
        let mut steps: Vec<FsStep> = Vec::new();
        assert(steps.deep_view() =~= Seq::<FsStepView>::empty());
        push_holder(&mut steps, dest);
        if taken {
            push_step(&mut steps, FsStep::RemoveFile { path: dest.to_owned() });
        }
        push_step(&mut steps, FsStep::HardLink { source: source.to_owned(), at: dest.to_owned() });
        assert(steps.deep_view() =~= self.link_steps(source@, dest@, taken));
        steps
    }

    fn mount_staging_over_data(
        &self,
        staging_dir: &str,
        data_dir: &str,
        backup_dir: &str,
        standing: Standing,
        backed_up: bool,
    ) -> (r: Vec<FsStep>) {
        mount_plan(LinkKind::Junction, staging_dir, data_dir, backup_dir, standing, backed_up)
    }

    fn unmount(&self, data_dir: &str, backup_dir: &str, standing: Standing, backed_up: bool) -> (r:
        Vec<FsStep>) {
        unmount_plan(LinkKind::Junction, data_dir, backup_dir, standing, backed_up)
    }
}

// ---------------------------------------------------------------------------
// What the steps do to the game's folder and its backup
// ---------------------------------------------------------------------------

/// The files below a folder, by their paths below it.
pub type Files = Map<Seq<char>, Seq<u8>>;

/// What stands at a path.
pub enum Place {
    Nothing,
    Folder(Files),
    Link(Seq<char>),
}

/// What stands at the game's `Data` folder and at its backup.
pub struct GameFolders {
    pub data: Place,
    pub backup: Place,
}

/// What the program sees of a place.
pub open spec fn seen(p: Place) -> Standing {
    match p {
        Place::Nothing => Standing::Nothing,
        Place::Folder(_) => Standing::Real,
        Place::Link(_) => Standing::Link,
    }
}

/// What a step on the game's folders leaves, or None where it fails: a link or
/// a move needs its new place free, and only a link is removed. Folders that
/// are made hold the two places and change neither.
pub open spec fn after_step(
    s: GameFolders,
    data: Seq<char>,
    backup: Seq<char>,
    step: FsStepView,
) -> Option<GameFolders> {
    match step {
        FsStepView::MakeFolders { .. } => Some(s),
        FsStepView::RemoveFile { path } | FsStepView::RemoveFolder { path } => if path == data
            && s.data is Link {
            Some(GameFolders { data: Place::Nothing, ..s })
        } else {
            None
        },
        FsStepView::Rename { from, to } => if from == data && to == backup && !(
        s.data is Nothing) && s.backup is Nothing {
            Some(GameFolders { data: Place::Nothing, backup: s.data })
        } else if from == backup && to == data && !(s.backup is Nothing) && s.data is Nothing {
            Some(GameFolders { data: s.backup, backup: Place::Nothing })
        } else {
            None
        },
        FsStepView::Symlink { target, at } | FsStepView::Junction { target, at } => if at == data
            && s.data is Nothing {
            Some(GameFolders { data: Place::Link(target), ..s })
        } else {
            None
        },
        FsStepView::HardLink { .. } => None,
    }
}

/// What steps leave, or None where one fails.
pub open spec fn after_steps(
    s: GameFolders,
    data: Seq<char>,
    backup: Seq<char>,
    steps: Seq<FsStepView>,
) -> Option<GameFolders>
    decreases steps.len(),
{
    if steps.len() == 0 {
        Some(s)
    } else {
        match after_steps(s, data, backup, steps.drop_last()) {
            Some(m) => after_step(m, data, backup, steps.last()),
            None => None,
        }
    }
}

/// What a mount leaves of the game's folders.
pub open spec fn after_mount(
    kind: LinkKind,
    s: GameFolders,
    staging: Seq<char>,
    data: Seq<char>,
    backup: Seq<char>,
) -> Option<GameFolders> {
    after_steps(
        s,
        data,
        backup,
        mount_by(kind, staging, data, backup, seen(s.data), !(s.backup is Nothing)),
    )
}

/// What an unmount leaves of the game's folders.
pub open spec fn after_unmount(
    kind: LinkKind,
    s: GameFolders,
    data: Seq<char>,
    backup: Seq<char>,
) -> Option<GameFolders> {
    after_steps(
        s,
        data,
        backup,
        unmount_by(kind, data, backup, seen(s.data), !(s.backup is Nothing)),
    )
}

proof fn lemma_after_steps_add(
    s: GameFolders,
    data: Seq<char>,
    backup: Seq<char>,
    a: Seq<FsStepView>,
    b: Seq<FsStepView>,
)
    ensures
        after_steps(s, data, backup, a + b) == (match after_steps(s, data, backup, a) {
            Some(m) => after_steps(m, data, backup, b),
            None => None,
        }),
    decreases b.len(),
{
    if b.len() == 0 {
        assert(a + b =~= a);
    } else {
        lemma_after_steps_add(s, data, backup, a, b.drop_last());
        assert((a + b).drop_last() =~= a + b.drop_last());
        assert((a + b).last() == b.last());
    }
}

proof fn lemma_after_one(s: GameFolders, data: Seq<char>, backup: Seq<char>, step: FsStepView)
    ensures
        after_steps(s, data, backup, seq![step]) == after_step(s, data, backup, step),
{
    let one = seq![step];
    assert(one.drop_last() =~= Seq::<FsStepView>::empty());
    assert(after_steps(s, data, backup, one.drop_last()) == Some(s));
}

proof fn lemma_after_holder(s: GameFolders, data: Seq<char>, backup: Seq<char>, path: Seq<char>)
    ensures
        after_steps(s, data, backup, holder_steps(path)) == Some(s),
{
    match paths::parent(path) {
        Some(p) => {
            lemma_after_one(s, data, backup, FsStepView::MakeFolders { path: p });
        },
        None => {},
    }
}

/// The first mount moves a real folder to the backup and puts the link in its
/// place.
pub proof fn lemma_mount_backs_up(
    kind: LinkKind,
    files: Files,
    staging: Seq<char>,
    data: Seq<char>,
    backup: Seq<char>,
)
    ensures
        after_mount(
            kind,
            (GameFolders { data: Place::Folder(files), backup: Place::Nothing }),
            staging,
            data,
            backup,
        ) == Some(GameFolders { data: Place::Link(staging), backup: Place::Folder(files) }),
{
    let s = GameFolders { data: Place::Folder(files), backup: Place::Nothing };
    let m = GameFolders { data: Place::Nothing, backup: Place::Folder(files) };
    let hb = holder_steps(backup);
    let mv = seq![FsStepView::Rename { from: data, to: backup }];
    let hd = holder_steps(data);
    let ln = seq![link_step(kind, staging, data)];
    lemma_after_holder(s, data, backup, backup);
    lemma_after_one(s, data, backup, mv[0]);
    lemma_after_steps_add(s, data, backup, hb, mv);
    lemma_after_steps_add(s, data, backup, hb + mv, hd);
    lemma_after_holder(m, data, backup, data);
    lemma_after_steps_add(s, data, backup, hb + mv + hd, ln);
    lemma_after_one(m, data, backup, ln[0]);
}

/// A further mount replaces the link and leaves the backup as it is, so that a
/// profile can be deployed again and another one in its place.
pub proof fn lemma_mount_again(
    kind: LinkKind,
    old_staging: Seq<char>,
    kept: Place,
    staging: Seq<char>,
    data: Seq<char>,
    backup: Seq<char>,
)
    ensures
        after_mount(
            kind,
            (GameFolders { data: Place::Link(old_staging), backup: kept }),
            staging,
            data,
            backup,
        ) == Some(GameFolders { data: Place::Link(staging), backup: kept }),
{
    let s = GameFolders { data: Place::Link(old_staging), backup: kept };
    let m = GameFolders { data: Place::Nothing, backup: kept };
    let un = seq![unlink_step(kind, data)];
    let hd = holder_steps(data);
    let ln = seq![link_step(kind, staging, data)];
    lemma_after_one(s, data, backup, un[0]);
    lemma_after_steps_add(s, data, backup, un, hd);
    lemma_after_holder(m, data, backup, data);
    lemma_after_steps_add(s, data, backup, un + hd, ln);
    lemma_after_one(m, data, backup, ln[0]);
}

/// An unmount puts what was backed up back into its place.
pub proof fn lemma_unmount_restores(
    kind: LinkKind,
    staging: Seq<char>,
    files: Files,
    data: Seq<char>,
    backup: Seq<char>,
)
    requires
        data != backup,
    ensures
        after_unmount(
            kind,
            (GameFolders { data: Place::Link(staging), backup: Place::Folder(files) }),
            data,
            backup,
        ) == Some(GameFolders { data: Place::Folder(files), backup: Place::Nothing }),
{
    let s = GameFolders { data: Place::Link(staging), backup: Place::Folder(files) };
    let m = GameFolders { data: Place::Nothing, backup: Place::Folder(files) };
    let un = seq![unlink_step(kind, data)];
    let mv = seq![FsStepView::Rename { from: backup, to: data }];
    lemma_after_one(s, data, backup, un[0]);
    lemma_after_steps_add(s, data, backup, un, mv);
    lemma_after_one(m, data, backup, mv[0]);
}

/// Where nothing was ever deployed, and after a restore, an unmount does
/// nothing.
pub proof fn lemma_unmount_is_safe(
    kind: LinkKind,
    files: Files,
    data: Seq<char>,
    backup: Seq<char>,
)
    ensures
        unmount_by(kind, data, backup, Standing::Real, false) == Seq::<FsStepView>::empty(),
        after_unmount(
            kind,
            (GameFolders { data: Place::Folder(files), backup: Place::Nothing }),
            data,
            backup,
        ) == Some(GameFolders { data: Place::Folder(files), backup: Place::Nothing }),
{
    assert(unmount_by(kind, data, backup, Standing::Real, false) =~= Seq::<FsStepView>::empty());
}

/// What the path of everything in a folder begins with.
pub open spec fn inside(dir: Seq<char>) -> Seq<char> {
    if dir.len() == 0 || dir.last() == '/' {
        dir
    } else {
        dir + seq!['/']
    }
}

/// Whether a path leads to something in a folder, or in a folder in it.
pub open spec fn lies_in(dir: Seq<char>, path: Seq<char>) -> bool {
    inside(dir).len() < path.len() && path.take(inside(dir).len() as int) == inside(dir)
}

/// Whether two folders are neither the same nor one in the other.
pub open spec fn apart(a: Seq<char>, b: Seq<char>) -> bool {
    inside(a) != inside(b) && !lies_in(a, b) && !lies_in(b, a)
}

/// The game's folders, and the files that are anywhere else, by their paths.
pub struct GameFiles {
    pub folders: GameFolders,
    pub elsewhere: Files,
}

/// What stands at a place once a file was written below it.
pub open spec fn with_file(p: Place, path: Seq<char>, content: Seq<u8>) -> Place {
    match p {
        Place::Nothing => Place::Folder(Map::empty().insert(path, content)),
        Place::Folder(files) => Place::Folder(files.insert(path, content)),
        Place::Link(target) => Place::Link(target),
    }
}

/// What writing a file leaves: it is part of the folder that it lies in.
pub open spec fn after_copy(
    s: GameFiles,
    data: Seq<char>,
    backup: Seq<char>,
    path: Seq<char>,
    content: Seq<u8>,
) -> GameFiles {
    if lies_in(backup, path) {
        GameFiles {
            folders: GameFolders {
                backup: with_file(
                    s.folders.backup,
                    path.skip(inside(backup).len() as int),
                    content,
                ),
                ..s.folders
            },
            ..s
        }
    } else if lies_in(data, path) {
        GameFiles {
            folders: GameFolders {
                data: with_file(s.folders.data, path.skip(inside(data).len() as int), content),
                ..s.folders
            },
            ..s
        }
    } else {
        GameFiles { elsewhere: s.elsewhere.insert(path, content), ..s }
    }
}

/// What writing files leaves, each given by its path and its content.
pub open spec fn after_copies(
    s: GameFiles,
    data: Seq<char>,
    backup: Seq<char>,
    copies: Seq<(Seq<char>, Seq<u8>)>,
) -> GameFiles
    decreases copies.len(),
{
    if copies.len() == 0 {
        s
    } else {
        after_copy(
            after_copies(s, data, backup, copies.drop_last()),
            data,
            backup,
            copies.last().0,
            copies.last().1,
        )
    }
}

/// What a deploy does to a game's files: the copies that it makes of saves, and
/// the staging tree that it mounts.
pub struct DeployRun {
    pub copies: Seq<(Seq<char>, Seq<u8>)>,
    pub staging: Seq<char>,
}

/// What a deploy leaves of a game's files.
pub open spec fn after_run(
    kind: LinkKind,
    s: GameFiles,
    data: Seq<char>,
    backup: Seq<char>,
    run: DeployRun,
) -> Option<GameFiles> {
    let copied = after_copies(s, data, backup, run.copies);
    match after_mount(kind, copied.folders, run.staging, data, backup) {
        Some(folders) => Some(GameFiles { folders, ..copied }),
        None => None,
    }
}

/// What deploys one after the other leave of a game's files.
pub open spec fn after_runs(
    kind: LinkKind,
    s: GameFiles,
    data: Seq<char>,
    backup: Seq<char>,
    runs: Seq<DeployRun>,
) -> Option<GameFiles>
    decreases runs.len(),
{
    if runs.len() == 0 {
        Some(s)
    } else {
        match after_runs(kind, s, data, backup, runs.drop_last()) {
            Some(m) => after_run(kind, m, data, backup, runs.last()),
            None => None,
        }
    }
}

/// Whether none of these files lies in the game's folder or in its backup.
pub open spec fn are_elsewhere(
    data: Seq<char>,
    backup: Seq<char>,
    copies: Seq<(Seq<char>, Seq<u8>)>,
) -> bool {
    forall|i: int|
        0 <= i < copies.len() ==> !lies_in(data, (#[trigger] copies[i]).0) && !lies_in(
            backup,
            copies[i].0,
        )
}

proof fn lemma_copies_elsewhere(
    s: GameFiles,
    data: Seq<char>,
    backup: Seq<char>,
    copies: Seq<(Seq<char>, Seq<u8>)>,
)
    requires
        are_elsewhere(data, backup, copies),
    ensures
        after_copies(s, data, backup, copies).folders == s.folders,
    decreases copies.len(),
{
    if copies.len() > 0 {
        let t = copies.drop_last();
        assert forall|i: int| 0 <= i < t.len() implies !lies_in(data, (#[trigger] t[i]).0)
            && !lies_in(backup, t[i].0) by {
            assert(t[i] == copies[i]);
        }
        lemma_copies_elsewhere(s, data, backup, t);
        assert(!lies_in(data, copies[copies.len() - 1].0));
    }
}

proof fn lemma_after_runs(
    kind: LinkKind,
    files: Files,
    elsewhere: Files,
    data: Seq<char>,
    backup: Seq<char>,
    runs: Seq<DeployRun>,
)
    requires
        runs.len() > 0,
        forall|i: int|
            0 <= i < runs.len() ==> are_elsewhere(data, backup, (#[trigger] runs[i]).copies),
    ensures
        ({
            let start = GameFiles {
                folders: GameFolders { data: Place::Folder(files), backup: Place::Nothing },
                elsewhere,
            };
            let end = after_runs(kind, start, data, backup, runs);
            end is Some && end->0.folders == (GameFolders {
                data: Place::Link(runs.last().staging),
                backup: Place::Folder(files),
            })
        }),
    decreases runs.len(),
{
    let start = GameFiles {
        folders: GameFolders { data: Place::Folder(files), backup: Place::Nothing },
        elsewhere,
    };
    let t = runs.drop_last();
    let run = runs[runs.len() - 1];
    assert(are_elsewhere(data, backup, run.copies));
    if t.len() == 0 {
        assert(after_runs(kind, start, data, backup, t) == Some(start));
        lemma_copies_elsewhere(start, data, backup, run.copies);
        lemma_mount_backs_up(kind, files, run.staging, data, backup);
    } else {
        assert forall|i: int| 0 <= i < t.len() implies are_elsewhere(
            data,
            backup,
            (#[trigger] t[i]).copies,
        ) by {
            assert(t[i] == runs[i]);
        }
        lemma_after_runs(kind, files, elsewhere, data, backup, t);
        let m = after_runs(kind, start, data, backup, t)->0;
        lemma_copies_elsewhere(m, data, backup, run.copies);
        lemma_mount_again(
            kind,
            t.last().staging,
            Place::Folder(files),
            run.staging,
            data,
            backup,
        );
    }
}

/// Deploying, once or again and again with any profiles, and then restoring
/// gives the vanilla folder back, for every kind of link and whatever saves the
/// deploys copied elsewhere: the game's folder and its backup are as they were.
/// Restoring once more does nothing.
pub proof fn lemma_deploy_restore_roundtrip(
    kind: LinkKind,
    files: Files,
    elsewhere: Files,
    data: Seq<char>,
    backup: Seq<char>,
    runs: Seq<DeployRun>,
)
    requires
        data != backup,
        runs.len() > 0,
        forall|i: int|
            0 <= i < runs.len() ==> are_elsewhere(data, backup, (#[trigger] runs[i]).copies),
    ensures
        ({
            let start = GameFiles {
                folders: GameFolders { data: Place::Folder(files), backup: Place::Nothing },
                elsewhere,
            };
            let deployed = after_runs(kind, start, data, backup, runs);
            let restored = after_unmount(kind, deployed->0.folders, data, backup);
            &&& deployed is Some
            &&& restored == Some(start.folders)
            &&& after_unmount(kind, restored->0, data, backup) == Some(start.folders)
        }),
{
    lemma_after_runs(kind, files, elsewhere, data, backup, runs);
    lemma_unmount_restores(kind, runs.last().staging, files, data, backup);
    lemma_unmount_is_safe(kind, files, data, backup);
}

proof fn lemma_take_of_add<A>(a: Seq<A>, b: Seq<A>, k: int)
    requires
        0 <= k <= a.len() + b.len(),
    ensures
        k <= a.len() ==> (a + b).take(k) == a.take(k),
        k > a.len() ==> (a + b).take(k) == a + b.take(k - a.len()),
{
    if k <= a.len() {
        assert((a + b).take(k) =~= a.take(k));
    } else {
        assert((a + b).take(k) =~= a + b.take(k - a.len()));
    }
}

/// Steps that only make folders leave the game's folders as they are.
proof fn lemma_after_part_of_holder(
    s: GameFolders,
    data: Seq<char>,
    backup: Seq<char>,
    path: Seq<char>,
    k: int,
)
    requires
        0 <= k <= holder_steps(path).len(),
    ensures
        after_steps(s, data, backup, holder_steps(path).take(k)) == Some(s),
{
    if k == 0 {
        assert(holder_steps(path).take(k) =~= Seq::<FsStepView>::empty());
    } else {
        assert(holder_steps(path).take(k) =~= holder_steps(path));
        lemma_after_holder(s, data, backup, path);
    }
}

/// However many of the steps of a first mount were done before one failed, the
/// game's folder is untouched at its place or in the backup, and an unmount
/// gives it back.
pub proof fn lemma_failed_mount_is_undone(
    kind: LinkKind,
    files: Files,
    staging: Seq<char>,
    data: Seq<char>,
    backup: Seq<char>,
    k: int,
)
    requires
        data != backup,
        0 <= k <= mount_by(kind, staging, data, backup, Standing::Real, false).len(),
    ensures
        ({
            let start = GameFolders { data: Place::Folder(files), backup: Place::Nothing };
            let done = mount_by(kind, staging, data, backup, Standing::Real, false).take(k);
            let left = after_steps(start, data, backup, done);
            &&& left is Some
            &&& left->0.data == Place::Folder(files) || left->0.backup == Place::Folder(files)
            &&& after_unmount(kind, left->0, data, backup) == Some(start)
        }),
{
    let s = GameFolders { data: Place::Folder(files), backup: Place::Nothing };
    let m = GameFolders { data: Place::Nothing, backup: Place::Folder(files) };
    let hb = holder_steps(backup);
    let mv = seq![FsStepView::Rename { from: data, to: backup }];
    let hd = holder_steps(data);
    let ln = seq![link_step(kind, staging, data)];
    let all = mount_by(kind, staging, data, backup, Standing::Real, false);
    let done = all.take(k);
    lemma_unmount_is_safe(kind, files, data, backup);
    lemma_unmount_restores(kind, staging, files, data, backup);
    lemma_unmount_of_bare(kind, files, data, backup);
    lemma_after_holder(s, data, backup, backup);
    lemma_after_one(s, data, backup, mv[0]);
    lemma_after_steps_add(s, data, backup, hb, mv);
    assert(all == hb + mv + hd + ln);
    lemma_take_of_add(hb + mv + hd, ln, k);
    if k > (hb + mv + hd).len() {
        assert(done =~= all);
        lemma_mount_backs_up(kind, files, staging, data, backup);
    } else {
        lemma_take_of_add(hb + mv, hd, k);
        if k > (hb + mv).len() {
            let j = k - (hb + mv).len();
            lemma_after_part_of_holder(m, data, backup, data, j);
            lemma_after_steps_add(s, data, backup, hb + mv, hd.take(j));
        } else {
            lemma_take_of_add(hb, mv, k);
            if k > hb.len() {
                assert(done =~= hb + mv);
            } else {
                lemma_after_part_of_holder(s, data, backup, backup, k);
            }
        }
    }
}

/// A backup is moved back also where nothing stands in its place.
pub proof fn lemma_unmount_of_bare(
    kind: LinkKind,
    files: Files,
    data: Seq<char>,
    backup: Seq<char>,
)
    requires
        data != backup,
    ensures
        after_unmount(
            kind,
            (GameFolders { data: Place::Nothing, backup: Place::Folder(files) }),
            data,
            backup,
        ) == Some(GameFolders { data: Place::Folder(files), backup: Place::Nothing }),
{
    let m = GameFolders { data: Place::Nothing, backup: Place::Folder(files) };
    let mv = seq![FsStepView::Rename { from: backup, to: data }];
    lemma_after_one(m, data, backup, mv[0]);
    assert(unmount_by(kind, data, backup, Standing::Nothing, true) =~= mv);
}

/// How each kind of link to a folder is made and removed.
pub proof fn lemma_kinds_of_links(target: Seq<char>, at: Seq<char>)
    ensures
        link_step(LinkKind::Symlink, target, at) == (FsStepView::Symlink { target, at }),
        unlink_step(LinkKind::Symlink, at) == (FsStepView::RemoveFile { path: at }),
        link_step(LinkKind::Junction, target, at) == (FsStepView::Junction { target, at }),
        unlink_step(LinkKind::Junction, at) == (FsStepView::RemoveFolder { path: at }),
{
}

/// A mount ends with the link, right after the folder that holds it is made; a
/// real folder is moved away before that, right after the folder that is to
/// hold its backup is made; and one that was backed up before is not moved.
pub proof fn lemma_mount_makes_room_first(
    kind: LinkKind,
    staging: Seq<char>,
    data: Seq<char>,
    backup: Seq<char>,
    standing: Standing,
    backed_up: bool,
)
    ensures
        ({
            let steps = mount_by(kind, staging, data, backup, standing, backed_up);
            &&& steps.len() > 0
            &&& steps.last() == link_step(kind, staging, data)
            &&& paths::parent(data) matches Some(p) ==> steps.len() > 1 && steps[steps.len() - 2]
                == (FsStepView::MakeFolders { path: p })
            &&& standing == Standing::Link ==> steps[0] == unlink_step(kind, data)
            &&& standing == Standing::Real && !backed_up ==> {
                let at = holder_steps(backup).len() as int;
                &&& steps[at] == (FsStepView::Rename { from: data, to: backup })
                &&& paths::parent(backup) matches Some(p) ==> at == 1 && steps[0] == (
                FsStepView::MakeFolders { path: p })
            }
            &&& standing != Standing::Real || backed_up ==> forall|k: int|
                0 <= k < steps.len() ==> !((#[trigger] steps[k]) is Rename)
            &&& standing != Standing::Link ==> forall|k: int|
                0 <= k < steps.len() ==> !((#[trigger] steps[k]) is RemoveFile) && !(
                steps[k] is RemoveFolder)
        }),
{
}

/// A file is linked in place of what was there: the folder that holds it is
/// made first, what stands there is removed, and the link to the store comes
/// last.
pub proof fn lemma_files_are_linked(source: Seq<char>, dest: Seq<char>, taken: bool)
    ensures
        ({
            let linux = LinuxBackend.link_steps(source, dest, taken);
            let windows = WindowsBackend.link_steps(source, dest, taken);
            let n = holder_steps(dest).len() as int;
            &&& linux.last() == (FsStepView::Symlink { target: source, at: dest })
            &&& windows.last() == (FsStepView::HardLink { source, at: dest })
            &&& paths::parent(dest) matches Some(p) ==> n == 1 && linux[0] == (
            FsStepView::MakeFolders { path: p }) && windows[0] == linux[0]
            &&& taken ==> linux.len() == n + 2 && windows.len() == n + 2 && linux[n] == (
            FsStepView::RemoveFile { path: dest }) && windows[n] == linux[n]
            &&& !taken ==> linux.len() == n + 1 && windows.len() == n + 1
        }),
{
}

} // verus!
