//! How files get into the mod store, step by step: a fresh install, and an
//! update that replaces the files of a mod.
use crate::paths;
use crate::store::{Extraction, ModStore, StoreError};
use crate::text;
use vstd::prelude::*;

verus! {

/// What is to be done: fill `content_dir` from `source`, for a new mod or for
/// one that is in the store.
#[derive(Debug)]
pub struct FillPlan {
    pub id: String,
    pub source: String,
    pub content_dir: String,
    pub fresh: bool,
}

#[verifier::ext_equal]
pub struct FillPlanView {
    pub id: Seq<char>,
    pub source: Seq<char>,
    pub content_dir: Seq<char>,
    pub fresh: bool,
}

impl DeepView for FillPlan {
    type V = FillPlanView;

    open spec fn deep_view(&self) -> FillPlanView {
        FillPlanView {
            id: self.id@,
            source: self.source@,
            content_dir: self.content_dir@,
            fresh: self.fresh,
        }
    }
}

/// How far a filling has come.
#[derive(Debug, Clone, Copy, PartialEq, Eq, Structural)]
pub enum FillStage {
    LookForSource,
    ClearOld,
    MakeFolder,
    Unpack,
    Normalize,
    Done,
    CleanUp,
    SourceMissing,
    ClearFailed,
    MakeFailed,
    UnpackFailed,
    NormalizeFailed,
}

/// What to do next.
#[derive(Debug)]
pub enum FillAction {
    /// Look whether there is anything at this path.
    LookFor { path: String },
    /// Remove the folder with all that is in it, where there is one.
    RemoveFolder { path: String },
    MakeFolder { path: String },
    /// Unpack the source, or copy it, into the folder.
    Unpack { source: String, dest: String },
    /// Take wrapper folders away from the content of the folder.
    Normalize { path: String },
    /// All is in place.
    Finished,
    /// It did not work; what was to be done, or nothing that would add to the
    /// cause.
    Failed { message: String },
}

#[verifier::ext_equal]
pub enum FillActionView {
    LookFor { path: Seq<char> },
    RemoveFolder { path: Seq<char> },
    MakeFolder { path: Seq<char> },
    Unpack { source: Seq<char>, dest: Seq<char> },
    Normalize { path: Seq<char> },
    Finished,
    Failed { message: Seq<char> },
}

impl DeepView for FillAction {
    type V = FillActionView;

    open spec fn deep_view(&self) -> FillActionView {
        match self {
            FillAction::LookFor { path } => FillActionView::LookFor { path: path@ },
            FillAction::RemoveFolder { path } => FillActionView::RemoveFolder { path: path@ },
            FillAction::MakeFolder { path } => FillActionView::MakeFolder { path: path@ },
            FillAction::Unpack { source, dest } => FillActionView::Unpack {
                source: source@,
                dest: dest@,
            },
            FillAction::Normalize { path } => FillActionView::Normalize { path: path@ },
            FillAction::Finished => FillActionView::Finished,
            FillAction::Failed { message } => FillActionView::Failed { message: message@ },
        }
    }
}

/// The stage that follows once the action of `stage` has succeeded or failed.
/// A new mod's folder is removed where unpacking failed; an update clears the
/// folder first and leaves it then.
pub open spec fn stage_after(fresh: bool, stage: FillStage, ok: bool) -> FillStage {
    match stage {
        FillStage::LookForSource => if !ok {
            FillStage::SourceMissing
        } else if fresh {
            FillStage::MakeFolder
        } else {
            FillStage::ClearOld
        },
        FillStage::ClearOld => if ok {
            FillStage::MakeFolder
        } else {
            FillStage::ClearFailed
        },
        FillStage::MakeFolder => if ok {
            FillStage::Unpack
        } else {
            FillStage::MakeFailed
        },
        FillStage::Unpack => if ok {
            FillStage::Normalize
        } else if fresh {
            FillStage::CleanUp
        } else {
            FillStage::UnpackFailed
        },
        FillStage::CleanUp => FillStage::UnpackFailed,
        FillStage::Normalize => if ok {
            FillStage::Done
        } else {
            FillStage::NormalizeFailed
        },
        _ => stage,
    }
}

/// The words that go with a failure.
pub open spec fn failure_in(p: FillPlanView, stage: FillStage) -> Seq<char> {
    match stage {
        FillStage::SourceMissing => if p.fresh {
            crate::store::install_failure(StoreError::SourceMissing, p.source)
        } else {
            crate::store::update_failure(StoreError::SourceMissing, p.id, p.source)
        },
        FillStage::ClearFailed => "removing old content for mod "@ + p.id + " at "@ + p.content_dir,
        FillStage::MakeFailed => if p.fresh {
            "creating mod content directory "@ + p.content_dir
        } else {
            "recreating content dir "@ + p.content_dir
        },
        FillStage::UnpackFailed => if p.fresh {
            crate::store::install_failure(StoreError::ExtractFailed, p.source)
        } else {
            crate::store::update_failure(StoreError::ExtractFailed, p.id, p.source)
        },
        FillStage::NormalizeFailed => if p.fresh {
            "normalizing mod root "@ + p.content_dir
        } else {
            Seq::empty()
        },
        _ => Seq::empty(),
    }
}

/// What to do in a stage.
pub open spec fn action_in(p: FillPlanView, stage: FillStage) -> FillActionView {
    match stage {
        FillStage::LookForSource => FillActionView::LookFor { path: p.source },
        FillStage::ClearOld | FillStage::CleanUp => FillActionView::RemoveFolder {
            path: p.content_dir,
        },
        FillStage::MakeFolder => FillActionView::MakeFolder { path: p.content_dir },
        FillStage::Unpack => FillActionView::Unpack { source: p.source, dest: p.content_dir },
        FillStage::Normalize => FillActionView::Normalize { path: p.content_dir },
        FillStage::Done => FillActionView::Finished,
        _ => FillActionView::Failed { message: failure_in(p, stage) },
    }
}

/// The line that tells a person how far it has come, in the stages that have
/// one.
pub open spec fn progress_in(p: FillPlanView, stage: FillStage) -> Option<Seq<char>> {
    match stage {
        FillStage::Unpack => Some("extracting "@ + p.source + "…"@),
        FillStage::Normalize => Some("normalizing folder layout…"@),
        FillStage::Done => Some("done"@),
        _ => None,
    }
}

/// How the unpacking went, once that is known.
pub open spec fn outcome_in(stage: FillStage) -> Option<Extraction> {
    match stage {
        FillStage::Done => Some(Extraction::Done),
        FillStage::SourceMissing => Some(Extraction::SourceMissing),
        FillStage::ClearFailed
        | FillStage::MakeFailed
        | FillStage::UnpackFailed
        | FillStage::NormalizeFailed => Some(Extraction::Failed),
        _ => None,
    }
}

/// A filling on its way. Take the action that [`Filling::next`] tells, tell
/// [`Filling::advance`] whether it succeeded, and go on until there is an
/// outcome.
#[derive(Debug)]
pub struct Filling {
    plan: FillPlan,
    stage: FillStage,
}

impl Filling {
    pub closed spec fn plan(&self) -> FillPlanView {
        self.plan.deep_view()
    }

    pub closed spec fn stage(&self) -> FillStage {
        self.stage
    }

    /// The id of the mod.
    pub fn id(&self) -> (r: String)
        ensures
            r@ == self.plan().id,
    {
        self.plan.id.clone()
    }

    /// The folder that is filled.
    pub fn content_dir(&self) -> (r: String)
        ensures
            r@ == self.plan().content_dir,
    {
        self.plan.content_dir.clone()
    }

    /// The stage that the filling is in.
    pub fn current(&self) -> (r: FillStage)
        ensures
            r == self.stage(),
    {
        self.stage
    }

    fn failure(&self) -> (r: String)
        ensures
            r@ == failure_in(self.plan(), self.stage()),
    {
        let p = &self.plan;
        match self.stage {
            FillStage::SourceMissing => if p.fresh {
                StoreError::SourceMissing.message(p.source.as_str())
            } else {
                StoreError::SourceMissing.update_message(p.id.as_str(), p.source.as_str())
            },
            FillStage::ClearFailed => {
                let start = text::concat3("removing old content for mod ", p.id.as_str(), " at ");
                text::concat(start.as_str(), p.content_dir.as_str())
            },
            FillStage::MakeFailed => if p.fresh {
                text::concat("creating mod content directory ", p.content_dir.as_str())
            } else {
                text::concat("recreating content dir ", p.content_dir.as_str())
            },
            FillStage::UnpackFailed => if p.fresh {
                StoreError::ExtractFailed.message(p.source.as_str())
            } else {
                StoreError::ExtractFailed.update_message(p.id.as_str(), p.source.as_str())
            },
            FillStage::NormalizeFailed => if p.fresh {
                text::concat("normalizing mod root ", p.content_dir.as_str())
            } else {
                String::new()
            },
            _ => String::new(),
        }
    }

    /// What to do next.
    pub fn next(&self) -> (r: FillAction)
        ensures
            r.deep_view() == action_in(self.plan(), self.stage()),
    {
        let p = &self.plan;
        match self.stage {
            FillStage::LookForSource => FillAction::LookFor { path: p.source.clone() },
            FillStage::ClearOld | FillStage::CleanUp => FillAction::RemoveFolder {
                path: p.content_dir.clone(),
            },
            FillStage::MakeFolder => FillAction::MakeFolder { path: p.content_dir.clone() },
            FillStage::Unpack => FillAction::Unpack {
                source: p.source.clone(),
                dest: p.content_dir.clone(),
            },
            FillStage::Normalize => FillAction::Normalize { path: p.content_dir.clone() },
            FillStage::Done => FillAction::Finished,
            _ => FillAction::Failed { message: self.failure() },
        }
    }

    /// The line that tells a person how far it has come.
    pub fn progress(&self) -> (r: Option<String>)
        ensures
            r.deep_view() == progress_in(self.plan(), self.stage()),
    {
        match self.stage {
            FillStage::Unpack => Some(
                text::concat3("extracting ", self.plan.source.as_str(), "…"),
            ),
            FillStage::Normalize => Some("normalizing folder layout…".to_owned()),
            FillStage::Done => Some("done".to_owned()),
            _ => None,
        }
    }

    /// How the unpacking went, once that is known.
    pub fn outcome(&self) -> (r: Option<Extraction>)
        ensures
            r == outcome_in(self.stage()),
    {
        match self.stage {
            FillStage::Done => Some(Extraction::Done),
            FillStage::SourceMissing => Some(Extraction::SourceMissing),
            FillStage::ClearFailed
            | FillStage::MakeFailed
            | FillStage::UnpackFailed
            | FillStage::NormalizeFailed => Some(Extraction::Failed),
            _ => None,
        }
    }

    /// Goes on after the action succeeded or failed.
    pub fn advance(&mut self, ok: bool)
        ensures
            final(self).plan() == old(self).plan(),
            final(self).stage() == stage_after(old(self).plan().fresh, old(self).stage(), ok),
    {
        let fresh: bool = self.plan.fresh;
        let next = match self.stage {
            FillStage::LookForSource => if !ok {
                FillStage::SourceMissing
            } else if fresh {
                FillStage::MakeFolder
            } else {
                FillStage::ClearOld
            },
            FillStage::ClearOld => if ok {
                FillStage::MakeFolder
            } else {
                FillStage::ClearFailed
            },
            FillStage::MakeFolder => if ok {
                FillStage::Unpack
            } else {
                FillStage::MakeFailed
            },
            FillStage::Unpack => if ok {
                FillStage::Normalize
            } else if fresh {
                FillStage::CleanUp
            } else {
                FillStage::UnpackFailed
            },
            FillStage::CleanUp => FillStage::UnpackFailed,
            FillStage::Normalize => if ok {
                FillStage::Done
            } else {
                FillStage::NormalizeFailed
            },
            other => other,
        };
        self.stage = next;
    }
}

impl ModStore {
    /// Starts an install from a source: a fresh id and its folder under the
    /// store are filled. Enter the mod with [`ModStore::install`] once there is
    /// an outcome.
    pub fn install_with_progress(mods_dir: &str, source: &str) -> (r: Filling)
        ensures
            r.stage() == FillStage::LookForSource,
            r.plan().fresh,
            r.plan().source == source@,
            crate::store::is_id(r.plan().id),
            r.plan().content_dir == paths::joined(mods_dir@, r.plan().id),
    {
        let (id, content_dir) = ModStore::begin_content_dir(mods_dir);
        Filling {
            plan: FillPlan { id, source: source.to_owned(), content_dir, fresh: true },
            stage: FillStage::LookForSource,
        }
    }

    /// Starts to replace the files of a mod from a new source. Note the new
    /// files with [`ModStore::update`] once there is an outcome.
    pub fn begin_update(&self, id: &str, source: &str) -> (r: Result<Filling, StoreError>)
        ensures
            ({
                let i = crate::store::mod_at(self.deep_view(), id@);
                match r {
                    Ok(f) => i < self.deep_view().len() && f.stage() == FillStage::LookForSource
                        && f.plan() == (FillPlanView {
                        id: id@,
                        source: source@,
                        content_dir: self.deep_view()[i].content_dir,
                        fresh: false,
                    }),
                    Err(e) => i >= self.deep_view().len() && e == StoreError::NoSuchMod,
                }
            }),
    {
        let ghost mods = self.deep_view();
        assert(mods.len() == self.mods@.len());
        proof {
            crate::store::lemma_mod_at_is(mods, id@);
        }
        match self.get(id) {
            Some(m) => Ok(
                Filling {
                    plan: FillPlan {
                        id: id.to_owned(),
                        source: source.to_owned(),
                        content_dir: m.content_dir.clone(),
                        fresh: false,
                    },
                    stage: FillStage::LookForSource,
                },
            ),
            None => Err(StoreError::NoSuchMod),
        }
    }
}

/// The stage that is reached from `stage` by these successes and failures.
pub open spec fn stage_reached(fresh: bool, stage: FillStage, answers: Seq<bool>) -> FillStage
    decreases answers.len(),
{
    if answers.len() == 0 {
        stage
    } else {
        stage_after(
            fresh,
            stage_reached(fresh, stage, answers.drop_last()),
            answers.last(),
        )
    }
}

/// An install whose steps all succeed is done after four of them.
pub proof fn lemma_install_succeeds()
    ensures
        outcome_in(
            stage_reached(true, FillStage::LookForSource, seq![true, true, true, true]),
        ) == Some(Extraction::Done),
{
    let a = seq![true, true, true, true];
    assert(a.drop_last() =~= seq![true, true, true]);
    assert(a.drop_last().drop_last() =~= seq![true, true]);
    assert(a.drop_last().drop_last().drop_last() =~= seq![true]);
    assert(a.drop_last().drop_last().drop_last().drop_last() =~= Seq::<bool>::empty());
    reveal_with_fuel(stage_reached, 5);
}

/// A failed install leaves nothing half unpacked: once unpacking a new mod has
/// failed, the next step removes its folder, and the filling has then failed,
/// whatever came of that step.
pub proof fn lemma_failed_install_is_cleaned_up(p: FillPlanView, ok: bool)
    requires
        p.fresh,
    ensures
        ({
            let failed = stage_after(p.fresh, FillStage::Unpack, false);
            &&& action_in(p, failed) == (FillActionView::RemoveFolder { path: p.content_dir })
            &&& outcome_in(stage_after(p.fresh, failed, ok)) == Some(Extraction::Failed)
        }),
{
}

/// A filling whose outcome is known stays as it is.
pub proof fn lemma_outcome_stays(fresh: bool, stage: FillStage, ok: bool)
    requires
        outcome_in(stage) is Some,
    ensures
        stage_after(fresh, stage, ok) == stage,
{
}

/// Where the source is missing, nothing on disk has been touched: the first step
/// only looks, and its failure is the outcome.
pub proof fn lemma_missing_source_touches_nothing(p: FillPlanView)
    ensures
        action_in(p, FillStage::LookForSource) == (FillActionView::LookFor { path: p.source }),
        outcome_in(stage_after(p.fresh, FillStage::LookForSource, false)) == Some(
            Extraction::SourceMissing,
        ),
{
}

/// What is done, in this order, as long as all goes well: the source is looked
/// for, the old files of an update are cleared, the folder is made, the source
/// is unpacked into it and wrapper folders are taken away.
pub proof fn lemma_order_of_a_filling(p: FillPlanView)
    ensures
        ({
            let at = |k: nat|
                action_in(
                    p,
                    stage_reached(p.fresh, FillStage::LookForSource, Seq::new(k, |i: int| true)),
                );
            let shift: nat = if p.fresh {
                0
            } else {
                1
            };
            &&& at(0) == (FillActionView::LookFor { path: p.source })
            &&& !p.fresh ==> at(1) == (FillActionView::RemoveFolder { path: p.content_dir })
            &&& at(shift + 1) == (FillActionView::MakeFolder { path: p.content_dir })
            &&& at(shift + 2) == (FillActionView::Unpack { source: p.source, dest: p.content_dir })
            &&& at(shift + 3) == (FillActionView::Normalize { path: p.content_dir })
            &&& at(shift + 4) == FillActionView::Finished
        }),
{
    let all = |k: nat| Seq::new(k, |i: int| true);
    let start = FillStage::LookForSource;
    assert(stage_reached(p.fresh, start, all(0)) == start);
    assert forall|k: nat| #[trigger] stage_reached(p.fresh, start, all(k + 1)) == stage_after(
        p.fresh,
        stage_reached(p.fresh, start, all(k)),
        true,
    ) by {
        assert(all(k + 1).drop_last() =~= all(k));
    }
    let s1 = stage_reached(p.fresh, start, all(0 + 1));
    let s2 = stage_reached(p.fresh, start, all(1 + 1));
    let s3 = stage_reached(p.fresh, start, all(2 + 1));
    let s4 = stage_reached(p.fresh, start, all(3 + 1));
    let s5 = stage_reached(p.fresh, start, all(4 + 1));
    assert(s1 == stage_after(p.fresh, start, true));
    assert(s2 == stage_after(p.fresh, s1, true));
    assert(s3 == stage_after(p.fresh, s2, true));
    assert(s4 == stage_after(p.fresh, s3, true));
    assert(s5 == stage_after(p.fresh, s4, true));
}

/// Where a step fails nothing more is unpacked: the filling has failed at once,
/// or after what was unpacked of a new mod is removed.
pub proof fn lemma_failure_ends_a_filling(p: FillPlanView, stage: FillStage)
    requires
        outcome_in(stage) is None,
    ensures
        ({
            let next = stage_after(p.fresh, stage, false);
            ||| outcome_in(next) == Some(Extraction::Failed)
            ||| outcome_in(next) == Some(Extraction::SourceMissing) && stage
                == FillStage::LookForSource
            ||| p.fresh && stage == FillStage::Unpack && action_in(p, next) == (
            FillActionView::RemoveFolder { path: p.content_dir }) && outcome_in(
                stage_after(p.fresh, next, true),
            ) == Some(Extraction::Failed) && outcome_in(stage_after(p.fresh, next, false)) == Some(
                Extraction::Failed,
            )
        }),
{
}

} // verus!
