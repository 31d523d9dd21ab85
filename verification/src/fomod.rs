//! FOMOD installers (`fomod/ModuleConfig.xml`): install steps with groups of
//! options, each of which wants files or folders copied. Flags and dependency
//! conditions are ignored, so that a person can walk through the same choices
//! that other mod managers present for most installers.

use crate::lists;
use crate::paths;
use crate::text;
use crate::xml;
use crate::xml::{XmlNode, XmlNodeView};
use vstd::prelude::*;

verus! {

/// How many options a person may pick in a group.
#[derive(Debug, Clone, Copy, PartialEq, Eq, Structural)]
pub enum GroupType {
    SelectAny,
    SelectAll,
    SelectExactlyOne,
    SelectAtMostOne,
    SelectAtLeastOne,
}

/// The kind of group that a `type` attribute names; any number may be picked
/// where the name is unknown.
pub open spec fn group_type_named(s: Seq<char>) -> GroupType {
    if s == "SelectAll"@ {
        GroupType::SelectAll
    } else if s == "SelectExactlyOne"@ {
        GroupType::SelectExactlyOne
    } else if s == "SelectAtMostOne"@ {
        GroupType::SelectAtMostOne
    } else if s == "SelectAtLeastOne"@ {
        GroupType::SelectAtLeastOne
    } else {
        GroupType::SelectAny
    }
}

impl GroupType {
    pub fn parse(s: &str) -> (r: Self)
        ensures
            r == group_type_named(s@),
    {
        if text::same_text(s, "SelectAll") {
            GroupType::SelectAll
        } else if text::same_text(s, "SelectExactlyOne") {
            GroupType::SelectExactlyOne
        } else if text::same_text(s, "SelectAtMostOne") {
            GroupType::SelectAtMostOne
        } else if text::same_text(s, "SelectAtLeastOne") {
            GroupType::SelectAtLeastOne
        } else {
            GroupType::SelectAny
        }
    }
}

/// One selectable option inside a group.
#[derive(Debug, Clone)]
pub struct FomodOption {
    pub name: String,
    pub description: String,
    pub files: Vec<FileInstruction>,
}

/// A file or folder that an option wants installed.
#[derive(Debug, Clone)]
pub struct FileInstruction {
    /// Path relative to the archive root.
    pub source: String,
    /// Destination under the mod's content root. Empty means the same as
    /// `source` for files, or the root for folders.
    pub destination: String,
    /// Whether `source` is a folder, to be copied with all that is in it.
    pub is_folder: bool,
}

#[derive(Debug, Clone)]
pub struct OptionGroup {
    pub name: String,
    pub group_type: GroupType,
    pub options: Vec<FomodOption>,
}

#[derive(Debug, Clone)]
pub struct InstallStep {
    pub name: String,
    pub groups: Vec<OptionGroup>,
}

/// What a ModuleConfig.xml says.
#[derive(Debug, Clone)]
pub struct ModuleConfig {
    pub module_name: String,
    pub steps: Vec<InstallStep>,
    /// Files installed whatever is chosen.
    pub required_files: Vec<FileInstruction>,
}

/// For each group of a step, the places of the options that were picked.
pub type StepChoices = Vec<Vec<usize>>;

/// The files and folders to copy.
#[derive(Debug, Clone)]
pub struct InstallPlan {
    pub files: Vec<FileInstruction>,
}

/// The mathematical content of a [`FileInstruction`].
pub struct FileInstructionView {
    pub source: Seq<char>,
    pub destination: Seq<char>,
    pub is_folder: bool,
}

/// The mathematical content of a [`FomodOption`].
pub struct FomodOptionView {
    pub name: Seq<char>,
    pub description: Seq<char>,
    pub files: Seq<FileInstructionView>,
}

/// The mathematical content of an [`OptionGroup`].
pub struct OptionGroupView {
    pub name: Seq<char>,
    pub group_type: GroupType,
    pub options: Seq<FomodOptionView>,
}

/// The mathematical content of an [`InstallStep`].
pub struct InstallStepView {
    pub name: Seq<char>,
    pub groups: Seq<OptionGroupView>,
}

/// The mathematical content of a [`ModuleConfig`].
pub struct ModuleConfigView {
    pub module_name: Seq<char>,
    pub steps: Seq<InstallStepView>,
    pub required_files: Seq<FileInstructionView>,
}

impl DeepView for FileInstruction {
    type V = FileInstructionView;

    open spec fn deep_view(&self) -> FileInstructionView {
        FileInstructionView {
            source: self.source@,
            destination: self.destination@,
            is_folder: self.is_folder,
        }
    }
}

impl DeepView for FomodOption {
    type V = FomodOptionView;

    open spec fn deep_view(&self) -> FomodOptionView {
        FomodOptionView {
            name: self.name@,
            description: self.description@,
            files: self.files.deep_view(),
        }
    }
}

impl DeepView for OptionGroup {
    type V = OptionGroupView;

    open spec fn deep_view(&self) -> OptionGroupView {
        OptionGroupView {
            name: self.name@,
            group_type: self.group_type,
            options: self.options.deep_view(),
        }
    }
}

impl DeepView for InstallStep {
    type V = InstallStepView;

    open spec fn deep_view(&self) -> InstallStepView {
        InstallStepView { name: self.name@, groups: self.groups.deep_view() }
    }
}

impl DeepView for ModuleConfig {
    type V = ModuleConfigView;

    open spec fn deep_view(&self) -> ModuleConfigView {
        ModuleConfigView {
            module_name: self.module_name@,
            steps: self.steps.deep_view(),
            required_files: self.required_files.deep_view(),
        }
    }
}

impl DeepView for InstallPlan {
    type V = Seq<FileInstructionView>;

    open spec fn deep_view(&self) -> Seq<FileInstructionView> {
        self.files.deep_view()
    }
}

// ---------------------------------------------------------------------------
// What a document says
// ---------------------------------------------------------------------------

/// The `file` and `folder` elements with a source among the children of node
/// `i` that stand before `n`.
pub open spec fn file_list_upto(nodes: Seq<XmlNodeView>, i: int, n: int) -> Seq<
    FileInstructionView,
>
    decreases n,
{
    if n <= 0 {
        Seq::empty()
    } else {
        let before = file_list_upto(nodes, i, n - 1);
        let j = n - 1;
        let is_folder = xml::has_tag(nodes, j, "folder"@);
        let source = xml::attribute_or(nodes, j, "source"@, Seq::empty());
        if xml::is_child(nodes, i, j) && (is_folder || xml::has_tag(nodes, j, "file"@))
            && source.len() > 0 {
            before.push(
                FileInstructionView {
                    source,
                    destination: xml::attribute_or(nodes, j, "destination"@, Seq::empty()),
                    is_folder,
                },
            )
        } else {
            before
        }
    }
}

/// The files that the first node of `places` lists.
pub open spec fn first_file_list(nodes: Seq<XmlNodeView>, places: Seq<usize>) -> Seq<
    FileInstructionView,
> {
    if places.len() > 0 {
        file_list_upto(nodes, places[0] as int, nodes.len() as int)
    } else {
        Seq::empty()
    }
}

/// The text of the first node of `places`.
pub open spec fn first_text(nodes: Seq<XmlNodeView>, places: Seq<usize>) -> Seq<char> {
    if places.len() > 0 {
        xml::trimmed_text(nodes, places[0] as int)
    } else {
        Seq::empty()
    }
}

/// The option that a `plugin` element describes.
pub open spec fn option_at(nodes: Seq<XmlNodeView>, j: int) -> FomodOptionView {
    FomodOptionView {
        name: xml::attribute_or(nodes, j, "name"@, "Option"@),
        description: first_text(nodes, xml::children_named(nodes, j, "description"@)),
        files: first_file_list(nodes, xml::children_named(nodes, j, "files"@)),
    }
}

/// The options that these `plugin` elements describe.
pub open spec fn options_at(nodes: Seq<XmlNodeView>, places: Seq<usize>) -> Seq<FomodOptionView> {
    places.map_values(|j: usize| option_at(nodes, j as int))
}

/// The options under these `plugins` elements, in order.
pub open spec fn listed_options(nodes: Seq<XmlNodeView>, lists: Seq<usize>) -> Seq<FomodOptionView>
    decreases lists.len(),
{
    if lists.len() == 0 {
        Seq::empty()
    } else {
        listed_options(nodes, lists.drop_last()) + options_at(
            nodes,
            xml::children_named(nodes, lists.last() as int, "plugin"@),
        )
    }
}

/// Whether one of the options has this name.
pub open spec fn has_option(options: Seq<FomodOptionView>, name: Seq<char>) -> bool {
    exists|k: int| 0 <= k < options.len() && (#[trigger] options[k]).name == name
}

/// The options that `plugin` elements anywhere under a group describe, those
/// of groups inside it and those whose name came before left out.
pub open spec fn scattered_options(
    nodes: Seq<XmlNodeView>,
    group: int,
    plugins: Seq<usize>,
) -> Seq<FomodOptionView>
    decreases plugins.len(),
{
    if plugins.len() == 0 {
        Seq::empty()
    } else {
        let before = scattered_options(nodes, group, plugins.drop_last());
        let j = plugins.last() as int;
        if xml::nearest(nodes, "group"@, j) == group && !has_option(
            before,
            option_at(nodes, j).name,
        ) {
            before.push(option_at(nodes, j))
        } else {
            before
        }
    }
}

/// The group that a `group` element describes.
pub open spec fn group_at(nodes: Seq<XmlNodeView>, i: int) -> OptionGroupView {
    let listed = listed_options(nodes, xml::children_named(nodes, i, "plugins"@));
    OptionGroupView {
        name: xml::attribute_or(nodes, i, "name"@, "Options"@),
        group_type: group_type_named(xml::attribute_or(nodes, i, "type"@, "SelectAny"@)),
        options: if listed.len() > 0 {
            listed
        } else {
            scattered_options(nodes, i, xml::under_named(nodes, i, "plugin"@))
        },
    }
}

/// The step that an `installStep` element describes.
pub open spec fn step_at(nodes: Seq<XmlNodeView>, i: int) -> InstallStepView {
    InstallStepView {
        name: xml::attribute_or(nodes, i, "name"@, "Install Step"@),
        groups: xml::under_named(nodes, i, "group"@).map_values(
            |g: usize| group_at(nodes, g as int),
        ),
    }
}

/// What a document with these nodes says.
pub open spec fn config_of(nodes: Seq<XmlNodeView>) -> ModuleConfigView {
    ModuleConfigView {
        module_name: first_text(nodes, xml::all_named(nodes, "moduleName"@)),
        steps: xml::all_named(nodes, "installStep"@).map_values(|i: usize| step_at(nodes, i as int)),
        required_files: first_file_list(nodes, xml::all_named(nodes, "requiredInstallFiles"@)),
    }
}

fn parse_file_list(nodes: &Vec<XmlNode>, i: usize) -> (r: Vec<FileInstruction>)
    ensures
        r.deep_view() == file_list_upto(nodes.deep_view(), i as int, nodes@.len() as int),
{
    let ghost nv = nodes.deep_view();
    let mut out: Vec<FileInstruction> = Vec::new();
    let mut j: usize = 0;
    assert(out.deep_view() =~= Seq::<FileInstructionView>::empty());
    assert(""@ =~= Seq::<char>::empty()) by {
        reveal_strlit("");
    }
    while j < nodes.len()
        invariant
            j <= nodes@.len(),
            nv == nodes.deep_view(),
            ""@ == Seq::<char>::empty(),
            out.deep_view() == file_list_upto(nv, i as int, j as int),
        decreases nodes.len() - j,
    {
        let is_folder = xml::node_has_tag(nodes, j, "folder");
        if xml::node_is_child(nodes, i, j) && (is_folder || xml::node_has_tag(nodes, j, "file")) {
            let source = xml::find_attribute(nodes, j, "source", "");
            if !source.as_str().is_empty() {
                let destination = xml::find_attribute(nodes, j, "destination", "");
                let ghost before = out.deep_view();
                let item = FileInstruction { source, destination, is_folder };
                out.push(item);
                assert(out.deep_view() =~= before.push(item.deep_view()));
            }
        }
        j += 1;
    }
    out
}

fn parse_first_file_list(nodes: &Vec<XmlNode>, places: &Vec<usize>) -> (r: Vec<FileInstruction>)
    ensures
        r.deep_view() == first_file_list(nodes.deep_view(), places@),
{
    if places.len() > 0 {
        parse_file_list(nodes, places[0])
    } else {
        let none: Vec<FileInstruction> = Vec::new();
        assert(none.deep_view() =~= Seq::<FileInstructionView>::empty());
        none
    }
}

fn parse_first_text(nodes: &Vec<XmlNode>, places: &Vec<usize>) -> (r: String)
    requires
        xml::below(places@, nodes@.len() as int),
    ensures
        r@ == first_text(nodes.deep_view(), places@),
{
    if places.len() > 0 {
        assert(places@[0] < nodes@.len());
        xml::find_text(nodes, places[0])
    } else {
        String::new()
    }
}

fn parse_option(nodes: &Vec<XmlNode>, j: usize) -> (r: FomodOption)
    requires
        j < nodes@.len(),
    ensures
        r.deep_view() == option_at(nodes.deep_view(), j as int),
{
    FomodOption {
        name: xml::find_attribute(nodes, j, "name", "Option"),
        description: parse_first_text(nodes, &xml::find_children(nodes, j, "description")),
        files: parse_first_file_list(nodes, &xml::find_children(nodes, j, "files")),
    }
}

fn parse_listed_options(nodes: &Vec<XmlNode>, group: usize) -> (r: Vec<FomodOption>)
    ensures
        r.deep_view() == listed_options(
            nodes.deep_view(),
            xml::children_named(nodes.deep_view(), group as int, "plugins"@),
        ),
{
    let ghost nv = nodes.deep_view();
    let lists = xml::find_children(nodes, group, "plugins");
    let mut out: Vec<FomodOption> = Vec::new();
    let mut i: usize = 0;
    assert(out.deep_view() =~= Seq::<FomodOptionView>::empty());
    assert(lists@.take(0) =~= Seq::<usize>::empty());
    while i < lists.len()
        invariant
            i <= lists@.len(),
            nv == nodes.deep_view(),
            out.deep_view() == listed_options(nv, lists@.take(i as int)),
        decreases lists.len() - i,
    {
        assert(lists@.take(i + 1).drop_last() =~= lists@.take(i as int));
        let ghost before = out.deep_view();
        let plugins = xml::find_children(nodes, lists[i], "plugin");
        let ghost all = options_at(nv, plugins@);
        let mut k: usize = 0;
        assert(before + all.take(0) =~= before);
        while k < plugins.len()
            invariant
                k <= plugins@.len(),
                nv == nodes.deep_view(),
                xml::below(plugins@, nodes@.len() as int),
                all == options_at(nv, plugins@),
                out.deep_view() == before + all.take(k as int),
            decreases plugins.len() - k,
        {
            let ghost sofar = out.deep_view();
            assert(plugins@[k as int] < nodes@.len());
            let option = parse_option(nodes, plugins[k]);
            out.push(option);
            k += 1;
            assert(out.deep_view() =~= sofar.push(all[k - 1]));
            assert(out.deep_view() =~= before + all.take(k as int));
        }
        assert(all.take(k as int) =~= all);
        i += 1;
    }
    assert(lists@.take(i as int) =~= lists@);
    out
}

fn named_already(options: &Vec<FomodOption>, name: &str) -> (r: bool)
    ensures
        r == has_option(options.deep_view(), name@),
{
    let ghost ov = options.deep_view();
    let mut i: usize = 0;
    while i < options.len()
        invariant
            i <= options@.len(),
            ov == options.deep_view(),
            forall|k: int| 0 <= k < i ==> (#[trigger] ov[k]).name != name@,
        decreases options.len() - i,
    {
        if text::same_text(options[i].name.as_str(), name) {
            assert(ov[i as int].name == name@);
            return true;
        }
        i += 1;
    }
    false
}

fn parse_scattered_options(nodes: &Vec<XmlNode>, group: usize) -> (r: Vec<FomodOption>)
    ensures
        r.deep_view() == scattered_options(
            nodes.deep_view(),
            group as int,
            xml::under_named(nodes.deep_view(), group as int, "plugin"@),
        ),
{
    let ghost nv = nodes.deep_view();
    let plugins = xml::find_under(nodes, group, "plugin");
    let mut out: Vec<FomodOption> = Vec::new();
    let mut i: usize = 0;
    assert(out.deep_view() =~= Seq::<FomodOptionView>::empty());
    assert(plugins@.take(0) =~= Seq::<usize>::empty());
    while i < plugins.len()
        invariant
            i <= plugins@.len(),
            nv == nodes.deep_view(),
            xml::below(plugins@, nodes@.len() as int),
            out.deep_view() == scattered_options(nv, group as int, plugins@.take(i as int)),
        decreases plugins.len() - i,
    {
        assert(plugins@.take(i + 1).drop_last() =~= plugins@.take(i as int));
        assert(plugins@[i as int] < nodes@.len());
        let j: usize = plugins[i];
        if xml::node_nearest_is(nodes, "group", j, group) {
            let option = parse_option(nodes, j);
            if !named_already(&out, option.name.as_str()) {
                let ghost before = out.deep_view();
                let ghost o = option.deep_view();
                out.push(option);
                assert(out.deep_view() =~= before.push(o));
            }
        }
        i += 1;
    }
    assert(plugins@.take(i as int) =~= plugins@);
    out
}

fn parse_group(nodes: &Vec<XmlNode>, i: usize) -> (r: OptionGroup)
    requires
        i < nodes@.len(),
    ensures
        r.deep_view() == group_at(nodes.deep_view(), i as int),
{
    let name = xml::find_attribute(nodes, i, "name", "Options");
    let kind = xml::find_attribute(nodes, i, "type", "SelectAny");
    let group_type = GroupType::parse(kind.as_str());
    let listed = parse_listed_options(nodes, i);
    assert(listed.deep_view().len() == listed@.len());
    if listed.len() > 0 {
        OptionGroup { name, group_type, options: listed }
    } else {
        OptionGroup { name, group_type, options: parse_scattered_options(nodes, i) }
    }
}

fn parse_step(nodes: &Vec<XmlNode>, i: usize) -> (r: InstallStep)
    requires
        i < nodes@.len(),
    ensures
        r.deep_view() == step_at(nodes.deep_view(), i as int),
{
    let ghost nv = nodes.deep_view();
    let places = xml::find_under(nodes, i, "group");
    let ghost goal = step_at(nv, i as int).groups;
    let mut groups: Vec<OptionGroup> = Vec::new();
    let mut k: usize = 0;
    while k < places.len()
        invariant
            k <= places@.len(),
            nv == nodes.deep_view(),
            xml::below(places@, nodes@.len() as int),
            places@ == xml::under_named(nv, i as int, "group"@),
            goal == step_at(nv, i as int).groups,
            groups.deep_view() == goal.take(k as int),
        decreases places.len() - k,
    {
        assert(places@[k as int] < nodes@.len());
        let ghost before = groups.deep_view();
        let group = parse_group(nodes, places[k]);
        groups.push(group);
        k += 1;
        assert(groups.deep_view() =~= before.push(goal[k - 1]));
        assert(groups.deep_view() =~= goal.take(k as int));
    }
    assert(groups.deep_view() =~= goal);
    InstallStep { name: xml::find_attribute(nodes, i, "name", "Install Step"), groups }
}

/// What a document with these nodes says.
pub fn read_module_config(nodes: &Vec<XmlNode>) -> (r: ModuleConfig)
    ensures
        r.deep_view() == config_of(nodes.deep_view()),
{
    let ghost nv = nodes.deep_view();
    let module_name = parse_first_text(nodes, &xml::find_all(nodes, "moduleName"));
    let required_files = parse_first_file_list(nodes, &xml::find_all(nodes, "requiredInstallFiles"));
    let places = xml::find_all(nodes, "installStep");
    let ghost goal = config_of(nv).steps;
    let mut steps: Vec<InstallStep> = Vec::new();
    let mut k: usize = 0;
    while k < places.len()
        invariant
            k <= places@.len(),
            nv == nodes.deep_view(),
            xml::below(places@, nodes@.len() as int),
            places@ == xml::all_named(nv, "installStep"@),
            goal == config_of(nv).steps,
            steps.deep_view() == goal.take(k as int),
        decreases places.len() - k,
    {
        assert(places@[k as int] < nodes@.len());
        let ghost before = steps.deep_view();
        let step = parse_step(nodes, places[k]);
        steps.push(step);
        k += 1;
        assert(steps.deep_view() =~= before.push(goal[k - 1]));
        assert(steps.deep_view() =~= goal.take(k as int));
    }
    assert(steps.deep_view() =~= goal);
    ModuleConfig { module_name, steps, required_files }
}

/// Why an installer could not be read.
#[derive(Debug)]
pub enum FomodError {
    /// ModuleConfig.xml is not a well-formed document, and what the parser says
    /// of it.
    NotXml(roxmltree::Error),
    /// Its elements are nested too deeply to be parsed.
    TooDeep,
}

/// Reads the text of a ModuleConfig.xml.
pub fn parse_module_config(xml_text: &str) -> (r: Result<ModuleConfig, FomodError>)
    ensures
        match r {
            Ok(cfg) => {
                &&& xml::nesting(xml_text@) <= xml::MAX_NESTING
                &&& xml::document(xml_text@) is Some
                &&& cfg.deep_view() == config_of(xml::document(xml_text@)->0)
            },
            Err(FomodError::NotXml(_)) => {
                &&& xml::nesting(xml_text@) <= xml::MAX_NESTING
                &&& xml::document(xml_text@) is None
            },
            Err(FomodError::TooDeep) => xml::nesting(xml_text@) > xml::MAX_NESTING,
        },
{
    if xml::find_nesting(xml_text) > xml::MAX_NESTING {
        return Err(FomodError::TooDeep);
    }
    match xml::parse_document(xml_text) {
        Ok(nodes) => Ok(read_module_config(&nodes)),
        Err(e) => Err(FomodError::NotXml(e)),
    }
}

// ---------------------------------------------------------------------------
// The plan
// ---------------------------------------------------------------------------

/// Why choices do not fit an installer.
#[derive(Debug, Clone, Copy, PartialEq, Eq, Structural)]
pub enum PlanError {
    /// There are not as many choices as steps.
    StepCount { choices: usize, steps: usize },
    /// In this step there are not as many choices as groups.
    GroupCount { step: usize, expected: usize, got: usize },
    /// In this group of this step no option stands at this place.
    OptionIndex { step: usize, group: usize, option: usize },
}

/// Why choices do not fit an installer, in words.
pub open spec fn plan_failure(e: PlanError, cfg: ModuleConfigView) -> Seq<char> {
    match e {
        PlanError::StepCount { choices, steps } => "choice count ("@ + text::decimal(
            choices as nat,
        ) + ") does not match step count ("@ + text::decimal(steps as nat) + ")"@,
        PlanError::GroupCount { step, expected, got } => "step '"@ + (if step < cfg.steps.len() {
            cfg.steps[step as int].name
        } else {
            Seq::empty()
        }) + "' expected "@ + text::decimal(expected as nat) + " group choice(s), got "@
            + text::decimal(got as nat),
        PlanError::OptionIndex { step, group, option } => "option index "@ + text::decimal(
            option as nat,
        ) + " out of range in group '"@ + (if step < cfg.steps.len() && group
            < cfg.steps[step as int].groups.len() {
            cfg.steps[step as int].groups[group as int].name
        } else {
            Seq::empty()
        }) + "'"@,
    }
}

impl PlanError {
    /// Why choices do not fit this installer, in words.
    pub fn message(self, cfg: &ModuleConfig) -> (r: String)
        ensures
            r@ == plan_failure(self, cfg.deep_view()),
    {
        let ghost cv = cfg.deep_view();
        assert(cv.steps.len() == cfg.steps@.len());
        match self {
            PlanError::StepCount { choices, steps } => {
                let mut out = "choice count (".to_owned();
                out.append(text::number_text(choices as u64).as_str());
                out.append(") does not match step count (");
                out.append(text::number_text(steps as u64).as_str());
                out.append(")");
                out
            },
            PlanError::GroupCount { step, expected, got } => {
                let mut out = "step '".to_owned();
                if step < cfg.steps.len() {
                    out.append(cfg.steps[step].name.as_str());
                }
                out.append("' expected ");
                out.append(text::number_text(expected as u64).as_str());
                out.append(" group choice(s), got ");
                out.append(text::number_text(got as u64).as_str());
                assert(out@ =~= plan_failure(self, cv));
                out
            },
            PlanError::OptionIndex { step, group, option } => {
                let mut out = "option index ".to_owned();
                out.append(text::number_text(option as u64).as_str());
                out.append(" out of range in group '");
                if step < cfg.steps.len() {
                    assert(cv.steps[step as int] == cfg.steps@[step as int].deep_view());
                    assert(cv.steps[step as int].groups.len() == cfg.steps@[step as int].groups@.len());
                    if group < cfg.steps[step].groups.len() {
                        out.append(cfg.steps[step].groups[group].name.as_str());
                    }
                }
                out.append("'");
                assert(out@ =~= plan_failure(self, cv));
                out
            },
        }
    }
}

/// A list, or why there is none.
pub type Planned = Result<Seq<FileInstructionView>, PlanError>;

/// What the options of a group at these places want.
pub open spec fn group_plan(
    group: OptionGroupView,
    picks: Seq<usize>,
    step: int,
    at: int,
) -> Planned
    decreases picks.len(),
{
    if picks.len() == 0 {
        Ok(Seq::empty())
    } else {
        match group_plan(group, picks.drop_last(), step, at) {
            Err(e) => Err(e),
            Ok(files) => if picks.last() < group.options.len() {
                Ok(files + group.options[picks.last() as int].files)
            } else {
                Err(
                    PlanError::OptionIndex {
                        step: step as usize,
                        group: at as usize,
                        option: picks.last(),
                    },
                )
            },
        }
    }
}

/// What the choices in the first `n` groups of a step want.
pub open spec fn groups_plan(
    groups: Seq<OptionGroupView>,
    choices: Seq<Seq<usize>>,
    step: int,
    n: int,
) -> Planned
    decreases n,
{
    if n <= 0 {
        Ok(Seq::empty())
    } else {
        match groups_plan(groups, choices, step, n - 1) {
            Err(e) => Err(e),
            Ok(files) => match group_plan(groups[n - 1], choices[n - 1], step, n - 1) {
                Err(e) => Err(e),
                Ok(more) => Ok(files + more),
            },
        }
    }
}

/// What the choices in a step want.
pub open spec fn step_plan(step: InstallStepView, choices: Seq<Seq<usize>>, at: int) -> Planned {
    if choices.len() != step.groups.len() {
        Err(
            PlanError::GroupCount {
                step: at as usize,
                expected: step.groups.len() as usize,
                got: choices.len() as usize,
            },
        )
    } else {
        groups_plan(step.groups, choices, at, step.groups.len() as int)
    }
}

/// What the choices in the first `n` steps want, after what is required.
pub open spec fn steps_plan(
    cfg: ModuleConfigView,
    choices: Seq<Seq<Seq<usize>>>,
    n: int,
) -> Planned
    decreases n,
{
    if n <= 0 {
        Ok(cfg.required_files)
    } else {
        match steps_plan(cfg, choices, n - 1) {
            Err(e) => Err(e),
            Ok(files) => match step_plan(cfg.steps[n - 1], choices[n - 1], n - 1) {
                Err(e) => Err(e),
                Ok(more) => Ok(files + more),
            },
        }
    }
}

/// What is installed for these choices: what is required, then step by step,
/// group by group and pick by pick what the picked options want. The first
/// choice that does not fit is the error.
pub open spec fn plan_of(cfg: ModuleConfigView, choices: Seq<Seq<Seq<usize>>>) -> Planned {
    if choices.len() != cfg.steps.len() {
        Err(
            PlanError::StepCount {
                choices: choices.len() as usize,
                steps: cfg.steps.len() as usize,
            },
        )
    } else {
        steps_plan(cfg, choices, cfg.steps.len() as int)
    }
}

/// Appends a copy of `more`.
fn extend_files(files: &mut Vec<FileInstruction>, more: &Vec<FileInstruction>)
    ensures
        final(files).deep_view() == old(files).deep_view() + more.deep_view(),
{
    let ghost before = files.deep_view();
    let ghost mv = more.deep_view();
    let mut i: usize = 0;
    assert(before + mv.take(0) =~= before);
    while i < more.len()
        invariant
            i <= more@.len(),
            mv == more.deep_view(),
            files.deep_view() == before + mv.take(i as int),
        decreases more.len() - i,
    {
        let ghost sofar = files.deep_view();
        let m = &more[i];
        let copy = FileInstruction {
            source: m.source.clone(),
            destination: m.destination.clone(),
            is_folder: m.is_folder,
        };
        files.push(copy);
        i += 1;
        assert(files.deep_view() =~= sofar.push(mv[i - 1]));
        assert(files.deep_view() =~= before + mv.take(i as int));
    }
    assert(mv.take(i as int) =~= mv);
}

/// Appends what the options of a group at these places want.
fn add_group(
    files: &mut Vec<FileInstruction>,
    group: &OptionGroup,
    picks: &Vec<usize>,
    step: usize,
    at: usize,
) -> (r: Result<(), PlanError>)
    ensures
        match r {
            Ok(_) => group_plan(group.deep_view(), picks@, step as int, at as int) matches Ok(more)
                && final(files).deep_view() == old(files).deep_view() + more,
            Err(e) => group_plan(group.deep_view(), picks@, step as int, at as int) == Err::<
                Seq<FileInstructionView>,
                PlanError,
            >(e),
        },
{
    let ghost before = files.deep_view();
    let ghost gv = group.deep_view();
    let mut i: usize = 0;
    let ghost mut sofar: Seq<FileInstructionView> = Seq::empty();
    assert(picks@.take(0) =~= Seq::<usize>::empty());
    assert(before + sofar =~= before);
    while i < picks.len()
        invariant
            i <= picks@.len(),
            gv == group.deep_view(),
            group_plan(gv, picks@.take(i as int), step as int, at as int) == Ok::<
                Seq<FileInstructionView>,
                PlanError,
            >(sofar),
            files.deep_view() == before + sofar,
        decreases picks.len() - i,
    {
        let ghost t = picks@.take(i + 1);
        assert(t.drop_last() =~= picks@.take(i as int));
        let pick: usize = picks[i];
        if pick >= group.options.len() {
            proof {
                lemma_group_error(gv, picks@, step as int, at as int, i + 1);
            }
            return Err(PlanError::OptionIndex { step, group: at, option: pick });
        }
        extend_files(files, &group.options[pick].files);
        proof {
            let more = gv.options[pick as int].files;
            assert((before + sofar) + more =~= before + (sofar + more));
            sofar = sofar + more;
        }
        i += 1;
    }
    assert(picks@.take(i as int) =~= picks@);
    Ok(())
}

/// An error in the first picks is the error of all.
proof fn lemma_group_error(
    group: OptionGroupView,
    picks: Seq<usize>,
    step: int,
    at: int,
    n: int,
)
    requires
        0 <= n <= picks.len(),
        group_plan(group, picks.take(n), step, at) is Err,
    ensures
        group_plan(group, picks, step, at) == group_plan(group, picks.take(n), step, at),
    decreases picks.len() - n,
{
    if n < picks.len() {
        assert(picks.take(n + 1).drop_last() =~= picks.take(n));
        lemma_group_error(group, picks, step, at, n + 1);
    } else {
        assert(picks.take(n) =~= picks);
    }
}

proof fn lemma_groups_error(
    groups: Seq<OptionGroupView>,
    choices: Seq<Seq<usize>>,
    step: int,
    n: int,
    all: int,
)
    requires
        0 <= n <= all,
        groups_plan(groups, choices, step, n) is Err,
    ensures
        groups_plan(groups, choices, step, all) == groups_plan(groups, choices, step, n),
    decreases all - n,
{
    if n < all {
        lemma_groups_error(groups, choices, step, n + 1, all);
    }
}

proof fn lemma_steps_error(
    cfg: ModuleConfigView,
    choices: Seq<Seq<Seq<usize>>>,
    n: int,
    all: int,
)
    requires
        0 <= n <= all,
        steps_plan(cfg, choices, n) is Err,
    ensures
        steps_plan(cfg, choices, all) == steps_plan(cfg, choices, n),
    decreases all - n,
{
    if n < all {
        lemma_steps_error(cfg, choices, n + 1, all);
    }
}

/// Appends what the choices in a step want.
fn add_step(
    files: &mut Vec<FileInstruction>,
    step: &InstallStep,
    choices: &StepChoices,
    at: usize,
) -> (r: Result<(), PlanError>)
    ensures
        match r {
            Ok(_) => step_plan(step.deep_view(), choices.deep_view(), at as int) matches Ok(more)
                && final(files).deep_view() == old(files).deep_view() + more,
            Err(e) => step_plan(step.deep_view(), choices.deep_view(), at as int) == Err::<
                Seq<FileInstructionView>,
                PlanError,
            >(e),
        },
{
    let ghost before = files.deep_view();
    let ghost gv = step.groups.deep_view();
    let ghost cv = choices.deep_view();
    if choices.len() != step.groups.len() {
        return Err(
            PlanError::GroupCount { step: at, expected: step.groups.len(), got: choices.len() },
        );
    }
    let mut i: usize = 0;
    let ghost mut sofar: Seq<FileInstructionView> = Seq::empty();
    assert(before + sofar =~= before);
    while i < step.groups.len()
        invariant
            i <= step.groups@.len(),
            step.groups@.len() == choices@.len(),
            gv == step.groups.deep_view(),
            cv == choices.deep_view(),
            groups_plan(gv, cv, at as int, i as int) == Ok::<Seq<FileInstructionView>, PlanError>(
                sofar,
            ),
            files.deep_view() == before + sofar,
        decreases step.groups.len() - i,
    {
        let ghost here = files.deep_view();
        assert(cv[i as int] =~= choices@[i as int]@);
        match add_group(files, &step.groups[i], &choices[i], at, i) {
            Ok(_) => {
                proof {
                    let more = group_plan(gv[i as int], cv[i as int], at as int, i as int)->Ok_0;
                    assert((before + sofar) + more =~= before + (sofar + more));
                    sofar = sofar + more;
                }
            },
            Err(e) => {
                proof {
                    lemma_groups_error(gv, cv, at as int, i + 1, gv.len() as int);
                }
                return Err(e);
            },
        }
        i += 1;
    }
    Ok(())
}

/// Makes the install plan for these choices: `choices[s][g]` lists the places
/// of the options picked in group `g` of step `s`.
pub fn resolve_install_plan(cfg: &ModuleConfig, choices: &Vec<StepChoices>) -> (r: Result<
    InstallPlan,
    PlanError,
>)
    ensures
        match r {
            Ok(plan) => plan_of(cfg.deep_view(), choices.deep_view()) == Ok::<
                Seq<FileInstructionView>,
                PlanError,
            >(plan.deep_view()),
            Err(e) => plan_of(cfg.deep_view(), choices.deep_view()) == Err::<
                Seq<FileInstructionView>,
                PlanError,
            >(e),
        },
{
    let ghost cv = cfg.deep_view();
    let ghost chv = choices.deep_view();
    if choices.len() != cfg.steps.len() {
        return Err(PlanError::StepCount { choices: choices.len(), steps: cfg.steps.len() });
    }
    let mut files: Vec<FileInstruction> = Vec::new();
    extend_files(&mut files, &cfg.required_files);
    assert(files.deep_view() =~= cv.required_files);
    let mut i: usize = 0;
    while i < cfg.steps.len()
        invariant
            i <= cfg.steps@.len(),
            cfg.steps@.len() == choices@.len(),
            cv == cfg.deep_view(),
            chv == choices.deep_view(),
            steps_plan(cv, chv, i as int) == Ok::<Seq<FileInstructionView>, PlanError>(
                files.deep_view(),
            ),
        decreases cfg.steps.len() - i,
    {
        match add_step(&mut files, &cfg.steps[i], &choices[i], i) {
            Ok(_) => {},
            Err(e) => {
                proof {
                    lemma_steps_error(cv, chv, i + 1, cv.steps.len() as int);
                }
                return Err(e);
            },
        }
        i += 1;
    }
    Ok(InstallPlan { files })
}

/// Whatever is chosen, a plan begins with the required files.
pub proof fn lemma_plan_starts_with_required(
    cfg: ModuleConfigView,
    choices: Seq<Seq<Seq<usize>>>,
    n: int,
)
    requires
        steps_plan(cfg, choices, n) is Ok,
    ensures
        cfg.required_files.is_prefix_of(steps_plan(cfg, choices, n)->Ok_0),
    decreases n,
{
    if n > 0 {
        lemma_plan_starts_with_required(cfg, choices, n - 1);
    }
}

// ---------------------------------------------------------------------------
// Where things are copied from and to
// ---------------------------------------------------------------------------

/// `s` without the `./` that it begins with, as often as it does.
pub open spec fn without_dots(s: Seq<char>) -> Seq<char>
    decreases s.len(),
{
    if s.len() >= 2 && s[0] == '.' && s[1] == '/' {
        without_dots(s.skip(2))
    } else {
        s
    }
}

/// `s` without the slashes that it begins with.
pub open spec fn without_leading_slashes(s: Seq<char>) -> Seq<char>
    decreases s.len(),
{
    if s.len() > 0 && s[0] == '/' {
        without_leading_slashes(s.drop_first())
    } else {
        s
    }
}

/// A path of an installer as a relative path with forward slashes.
pub open spec fn relative(p: Seq<char>) -> Seq<char> {
    without_leading_slashes(without_dots(text::replaced(p, '\\', '/')))
}

/// A path of an installer as a relative path with forward slashes.
pub fn normalize_rel(p: &str) -> (r: String)
    ensures
        r@ == relative(p@),
{
    let plain = text::replace_char(p, '\\', '/');
    let x = text::chars_of(plain.as_str());
    let mut i: usize = 0;
    assert(x@.skip(0) =~= x@);
    while x.len() - i >= 2 && x[i] == '.' && x[i + 1] == '/'
        invariant
            i <= x@.len(),
            without_dots(x@) == without_dots(x@.skip(i as int)),
        decreases x.len() - i,
    {
        assert(x@.skip(i as int)[0] == x@[i as int]);
        assert(x@.skip(i as int)[1] == x@[i + 1]);
        assert(x@.skip(i as int).skip(2) =~= x@.skip(i + 2));
        i += 2;
    }
    assert(without_dots(x@) == x@.skip(i as int));
    while i < x.len() && x[i] == '/'
        invariant
            i <= x@.len(),
            without_leading_slashes(without_dots(x@)) == without_leading_slashes(x@.skip(i as int)),
        decreases x.len() - i,
    {
        assert(x@.skip(i as int).drop_first() =~= x@.skip(i + 1));
        i += 1;
    }
    assert(x@.subrange(i as int, x@.len() as int) =~= x@.skip(i as int));
    text::slice_text(&x, i, x.len())
}

/// From where an instruction is carried out.
#[derive(Debug, Clone, Copy, PartialEq, Eq, Structural)]
pub enum SourceChoice {
    /// The source path made relative.
    Relative,
    /// The source path with forward slashes, as it stands.
    AsWritten,
    /// Nowhere: some options list assets that are not always packed.
    Skip,
}

/// The two paths under the archive root at which a source is looked for, in
/// this order.
pub fn source_candidates(instr: &FileInstruction) -> (r: (String, String))
    ensures
        r.0@ == relative(instr.source@),
        r.1@ == text::replaced(instr.source@, '\\', '/'),
{
    (
        normalize_rel(instr.source.as_str()),
        text::replace_char(instr.source.as_str(), '\\', '/'),
    )
}

/// Which of the two candidates is used, given which of them exist.
pub fn choose_source(relative_exists: bool, as_written_exists: bool) -> (r: SourceChoice)
    ensures
        r == (if relative_exists {
            SourceChoice::Relative
        } else if as_written_exists {
            SourceChoice::AsWritten
        } else {
            SourceChoice::Skip
        }),
{
    if relative_exists {
        SourceChoice::Relative
    } else if as_written_exists {
        SourceChoice::AsWritten
    } else {
        SourceChoice::Skip
    }
}

/// Where a folder's contents go, relative to the content root.
pub open spec fn folder_target(destination: Seq<char>) -> Seq<char> {
    if destination.len() == 0 {
        Seq::empty()
    } else {
        relative(destination)
    }
}

/// Where a single file goes, relative to the content root, given the name of
/// the source file if it has one. Without a destination it goes where it is in
/// the archive. A destination that ends in a slash, or has no extension while
/// the source has one, is a folder.
pub open spec fn file_target(
    source: Seq<char>,
    destination: Seq<char>,
    name: Option<Seq<char>>,
) -> Seq<char> {
    if destination.len() == 0 {
        relative(source)
    } else {
        let d = relative(destination);
        let n = match name {
            Some(n) => n,
            None => Seq::empty(),
        };
        let source_extension = match name {
            Some(n) => paths::extension_of(n),
            None => None,
        };
        if d.len() > 0 && d.last() == '/' {
            paths::joined(d, n)
        } else if paths::extension(d) is None && source_extension is Some {
            paths::joined(d, n)
        } else {
            d
        }
    }
}

/// Where the files that an instruction copies go, relative to the content
/// root. `files` lists the source's files by their path under it where it is a
/// folder; otherwise the source is one file.
pub open spec fn targets_of(
    instr: FileInstructionView,
    source_is_folder: bool,
    name: Option<Seq<char>>,
    files: Seq<Seq<char>>,
) -> Seq<Seq<char>> {
    if instr.is_folder || source_is_folder {
        files.map_values(|f: Seq<char>| paths::joined(folder_target(instr.destination), f))
    } else {
        seq![file_target(instr.source, instr.destination, name)]
    }
}

fn single_target(instr: &FileInstruction, name: &Option<String>) -> (r: String)
    ensures
        r@ == file_target(instr.source@, instr.destination@, name.deep_view()),
{
    if instr.destination.as_str().is_empty() {
        return normalize_rel(instr.source.as_str());
    }
    let d = normalize_rel(instr.destination.as_str());
    let (n, has_extension) = match name {
        Some(n) => (n.clone(), paths::name_extension(n.as_str()).is_some()),
        None => (String::new(), false),
    };
    let x = text::chars_of(d.as_str());
    if x.len() > 0 && x[x.len() - 1] == '/' {
        paths::join(d.as_str(), n.as_str())
    } else if paths::path_extension(d.as_str()).is_none() && has_extension {
        paths::join(d.as_str(), n.as_str())
    } else {
        d
    }
}

/// Where the files that an instruction copies go, one target for each file.
pub fn copy_instruction(
    instr: &FileInstruction,
    source_is_folder: bool,
    name: &Option<String>,
    files: &Vec<String>,
) -> (r: Vec<String>)
    ensures
        r.deep_view() == targets_of(
            instr.deep_view(),
            source_is_folder,
            name.deep_view(),
            files.deep_view(),
        ),
{
    let ghost fv = files.deep_view();
    let ghost goal = targets_of(instr.deep_view(), source_is_folder, name.deep_view(), fv);
    let mut out: Vec<String> = Vec::new();
    if instr.is_folder || source_is_folder {
        let root = if instr.destination.as_str().is_empty() {
            String::new()
        } else {
            normalize_rel(instr.destination.as_str())
        };
        let mut i: usize = 0;
        while i < files.len()
            invariant
                i <= files@.len(),
                fv == files.deep_view(),
                root@ == folder_target(instr.destination@),
                goal == targets_of(instr.deep_view(), source_is_folder, name.deep_view(), fv),
                instr.is_folder || source_is_folder,
                out.deep_view() == goal.take(i as int),
            decreases files.len() - i,
        {
            let ghost before = out.deep_view();
            out.push(paths::join(root.as_str(), files[i].as_str()));
            i += 1;
            assert(out.deep_view() =~= before.push(goal[i - 1]));
            assert(out.deep_view() =~= goal.take(i as int));
        }
        assert(out.deep_view() =~= goal);
    } else {
        let target = single_target(instr, name);
        out.push(target);
        assert(out.deep_view() =~= goal);
    }
    out
}

/// What was found in an unpacked archive where an instruction looks for its
/// source: which of the two candidates exist, and of the one that is used
/// whether it is a folder, its name, and the files below it.
#[derive(Debug, Clone)]
pub struct SourceFound {
    pub relative_exists: bool,
    pub as_written_exists: bool,
    pub is_folder: bool,
    pub name: Option<String>,
    pub files: Vec<String>,
}

#[verifier::ext_equal]
pub struct SourceFoundView {
    pub relative_exists: bool,
    pub as_written_exists: bool,
    pub is_folder: bool,
    pub name: Option<Seq<char>>,
    pub files: Seq<Seq<char>>,
}

impl DeepView for SourceFound {
    type V = SourceFoundView;

    open spec fn deep_view(&self) -> SourceFoundView {
        SourceFoundView {
            relative_exists: self.relative_exists,
            as_written_exists: self.as_written_exists,
            is_folder: self.is_folder,
            name: self.name.deep_view(),
            files: self.files.deep_view(),
        }
    }
}

/// The path of the source that an instruction uses.
pub open spec fn used_source(
    archive_root: Seq<char>,
    instr: FileInstructionView,
    found: SourceFoundView,
) -> Seq<char> {
    paths::joined(
        archive_root,
        if found.relative_exists {
            relative(instr.source)
        } else {
            text::replaced(instr.source, '\\', '/')
        },
    )
}

/// The copies that an instruction makes, each with its source and its target.
/// There are none where the source is not in the archive.
pub open spec fn copies_by(
    archive_root: Seq<char>,
    content_dir: Seq<char>,
    instr: FileInstructionView,
    found: SourceFoundView,
) -> Seq<(Seq<char>, Seq<char>)> {
    let source = used_source(archive_root, instr, found);
    let targets = targets_of(instr, found.is_folder, found.name, found.files);
    if !found.relative_exists && !found.as_written_exists {
        Seq::empty()
    } else if instr.is_folder || found.is_folder {
        Seq::new(
            targets.len(),
            |k: int| (paths::joined(source, found.files[k]), paths::joined(content_dir, targets[k])),
        )
    } else {
        seq![(source, paths::joined(content_dir, targets[0]))]
    }
}

/// The copies that a plan makes, instruction by instruction.
pub open spec fn copies_in(
    archive_root: Seq<char>,
    content_dir: Seq<char>,
    plan: Seq<FileInstructionView>,
    found: Seq<SourceFoundView>,
) -> Seq<(Seq<char>, Seq<char>)>
    decreases plan.len(),
{
    if plan.len() == 0 || found.len() != plan.len() {
        Seq::empty()
    } else {
        copies_in(archive_root, content_dir, plan.drop_last(), found.drop_last()) + copies_by(
            archive_root,
            content_dir,
            plan.last(),
            found.last(),
        )
    }
}

fn instruction_copies(
    archive_root: &str,
    content_dir: &str,
    instr: &FileInstruction,
    found: &SourceFound,
) -> (r: Vec<(String, String)>)
    ensures
        r.deep_view() == copies_by(
            archive_root@,
            content_dir@,
            instr.deep_view(),
            found.deep_view(),
        ),
{
    let ghost goal = copies_by(archive_root@, content_dir@, instr.deep_view(), found.deep_view());
    let mut out: Vec<(String, String)> = Vec::new();
    let (relative_path, as_written) = source_candidates(instr);
    let source = match choose_source(found.relative_exists, found.as_written_exists) {
        SourceChoice::Relative => paths::join(archive_root, relative_path.as_str()),
        SourceChoice::AsWritten => paths::join(archive_root, as_written.as_str()),
        SourceChoice::Skip => {
            assert(out.deep_view() =~= goal);
            return out;
        },
    };
    let targets = copy_instruction(instr, found.is_folder, &found.name, &found.files);
    let ghost tv = targets.deep_view();
    assert(targets@.len() == tv.len());
    assert(found.files@.len() == found.files.deep_view().len());
    if instr.is_folder || found.is_folder {
        let mut i: usize = 0;
        while i < targets.len()
            invariant
                i <= targets@.len(),
                targets@.len() == found.files@.len() == tv.len() == goal.len(),
                tv == targets.deep_view(),
                tv == targets_of(
                    instr.deep_view(),
                    found.is_folder,
                    found.deep_view().name,
                    found.deep_view().files,
                ),
                source@ == used_source(archive_root@, instr.deep_view(), found.deep_view()),
                found.relative_exists || found.as_written_exists,
                instr.is_folder || found.is_folder,
                goal == copies_by(
                    archive_root@,
                    content_dir@,
                    instr.deep_view(),
                    found.deep_view(),
                ),
                out.deep_view() == goal.take(i as int),
            decreases targets.len() - i,
        {
            let ghost before = out.deep_view();
            let pair = (
                paths::join(source.as_str(), found.files[i].as_str()),
                paths::join(content_dir, targets[i].as_str()),
            );
            let ghost pv = pair.deep_view();
            out.push(pair);
            i += 1;
            assert(out.deep_view() =~= before.push(pv));
            assert(tv[i - 1] == targets@[i - 1]@);
            assert(found.deep_view().files[i - 1] == found.files@[i - 1]@);
            assert(pv == goal[i - 1]);
            assert(out.deep_view() =~= goal.take(i as int));
        }
        assert(out.deep_view() =~= goal);
    } else {
        let pair = (source, paths::join(content_dir, targets[0].as_str()));
        let ghost pv = pair.deep_view();
        assert(tv[0] == targets@[0]@);
        out.push(pair);
        assert(out.deep_view() =~= seq![pv]);
        assert(out.deep_view() =~= goal);
    }
    out
}

/// Plans how an install plan is carried out: each file to copy and where to,
/// in order. Sources that the archive does not hold are left out.
pub fn apply_install_plan(
    archive_root: &str,
    content_dir: &str,
    plan: &InstallPlan,
    found: &Vec<SourceFound>,
) -> (r: Vec<(String, String)>)
    requires
        found@.len() == plan.files@.len(),
    ensures
        r.deep_view() == copies_in(
            archive_root@,
            content_dir@,
            plan.files.deep_view(),
            found.deep_view(),
        ),
{
    let ghost pv = plan.files.deep_view();
    let ghost fv = found.deep_view();
    let mut out: Vec<(String, String)> = Vec::new();
    let mut i: usize = 0;
    assert(out.deep_view() =~= Seq::<(Seq<char>, Seq<char>)>::empty());
    while i < plan.files.len()
        invariant
            i <= plan.files@.len(),
            found@.len() == plan.files@.len(),
            pv == plan.files.deep_view(),
            fv == found.deep_view(),
            out.deep_view() == copies_in(
                archive_root@,
                content_dir@,
                pv.take(i as int),
                fv.take(i as int),
            ),
        decreases plan.files.len() - i,
    {
        let ghost before = out.deep_view();
        let mut more = instruction_copies(archive_root, content_dir, &plan.files[i], &found[i]);
        let ghost mv = more.deep_view();
        out.append(&mut more);
        assert(out.deep_view() =~= before + mv);
        i += 1;
        assert(pv.take(i as int).drop_last() =~= pv.take(i - 1));
        assert(fv.take(i as int).drop_last() =~= fv.take(i - 1));
        assert(pv.take(i as int).last() == plan.files@[i - 1].deep_view());
        assert(fv.take(i as int).last() == found@[i - 1].deep_view());
    }
    assert(pv.take(i as int) =~= pv);
    assert(fv.take(i as int) =~= fv);
    out
}

// ---------------------------------------------------------------------------
// Where the installer is
// ---------------------------------------------------------------------------

/// The name of the folder that holds a file, given that of the top folder.
pub open spec fn folder_of(file: Seq<char>, root_name: Seq<char>) -> Seq<char> {
    let parts = text::pieces(file, '/');
    if parts.len() >= 2 {
        parts[parts.len() - 2]
    } else {
        root_name
    }
}

/// Whether a file is an installer's configuration: `ModuleConfig.xml` in a
/// folder `fomod`, whatever the case of either, at most two folders down.
pub open spec fn is_module_config(file: Seq<char>, root_name: Seq<char>) -> bool {
    &&& text::pieces(file, '/').len() <= 3
    &&& text::lowercase(text::pieces(file, '/').last()) == "moduleconfig.xml"@
    &&& text::lowercase(folder_of(file, root_name)) == "fomod"@
}

/// The first file from `i` on that is an installer's configuration, or the
/// number of files.
pub open spec fn module_config_at(files: Seq<Seq<char>>, root_name: Seq<char>, i: int) -> int
    decreases files.len() - i,
{
    if i >= files.len() || is_module_config(files[i], root_name) {
        i
    } else {
        module_config_at(files, root_name, i + 1)
    }
}

/// The configuration among the files of an unpacked archive, given by their
/// paths under its root: at one of the usual places, or else the first one in
/// any folder `fomod` near the top.
pub open spec fn module_config_of(files: Seq<Seq<char>>, root_name: Seq<char>) -> Option<
    Seq<char>,
> {
    if files.contains("fomod/ModuleConfig.xml"@) {
        Some("fomod/ModuleConfig.xml"@)
    } else if files.contains("FOMOD/ModuleConfig.xml"@) {
        Some("FOMOD/ModuleConfig.xml"@)
    } else if files.contains("fomod/moduleconfig.xml"@) {
        Some("fomod/moduleconfig.xml"@)
    } else {
        let i = module_config_at(files, root_name, 0);
        if i < files.len() {
            Some(files[i])
        } else {
            None
        }
    }
}

fn names_module_config(file: &str, root_name: &str) -> (r: bool)
    ensures
        r == is_module_config(file@, root_name@),
{
    let parts = text::split(file, '/');
    proof {
        text::lemma_pieces_some(file@, '/');
        assert(parts.deep_view().len() == parts@.len());
    }
    let name = text::to_lowercase(parts[parts.len() - 1].as_str());
    let folder = if parts.len() >= 2 {
        text::to_lowercase(parts[parts.len() - 2].as_str())
    } else {
        text::to_lowercase(root_name)
    };
    parts.len() <= 3 && text::same_text(name.as_str(), "moduleconfig.xml") && text::same_text(
        folder.as_str(),
        "fomod",
    )
}

/// Finds an installer's configuration among the files of an unpacked archive,
/// given by their paths under its root, of which `root_name` is the name.
pub fn find_module_config(files: &Vec<String>, root_name: &str) -> (r: Option<String>)
    ensures
        r.deep_view() == module_config_of(files.deep_view(), root_name@),
{
    if text::is_in(files, "fomod/ModuleConfig.xml") {
        return Some("fomod/ModuleConfig.xml".to_owned());
    }
    if text::is_in(files, "FOMOD/ModuleConfig.xml") {
        return Some("FOMOD/ModuleConfig.xml".to_owned());
    }
    if text::is_in(files, "fomod/moduleconfig.xml") {
        return Some("fomod/moduleconfig.xml".to_owned());
    }
    let ghost fv = files.deep_view();
    let mut i: usize = 0;
    while i < files.len() && !names_module_config(files[i].as_str(), root_name)
        invariant
            i <= files@.len(),
            fv == files.deep_view(),
            module_config_at(fv, root_name@, 0) == module_config_at(fv, root_name@, i as int),
        decreases files.len() - i,
    {
        i += 1;
    }
    if i < files.len() {
        Some(files[i].clone())
    } else {
        None
    }
}

// ---------------------------------------------------------------------------
// What a plan holds
// ---------------------------------------------------------------------------

/// Whether each of these picks is the place of an option of the group.
pub open spec fn picks_fit(group: OptionGroupView, picks: Seq<usize>) -> bool {
    forall|p: int| 0 <= p < picks.len() ==> #[trigger] picks[p] < group.options.len()
}

/// Whether there are as many choices as groups, and each fits.
pub open spec fn step_fits(step: InstallStepView, choices: Seq<Seq<usize>>) -> bool {
    &&& choices.len() == step.groups.len()
    &&& forall|g: int| 0 <= g < choices.len() ==> picks_fit(step.groups[g], #[trigger] choices[g])
}

/// Whether there are as many choices as steps, and each fits.
pub open spec fn choices_fit(cfg: ModuleConfigView, choices: Seq<Seq<Seq<usize>>>) -> bool {
    &&& choices.len() == cfg.steps.len()
    &&& forall|s: int| 0 <= s < choices.len() ==> step_fits(cfg.steps[s], #[trigger] choices[s])
}

proof fn lemma_group_plan_is(group: OptionGroupView, picks: Seq<usize>, step: int, at: int)
    ensures
        picks_fit(group, picks) ==> group_plan(group, picks, step, at) == Ok::<
            Seq<FileInstructionView>,
            PlanError,
        >(picks.map_values(|p: usize| group.options[p as int].files).flatten()),
        !picks_fit(group, picks) ==> {
            &&& group_plan(group, picks, step, at) is Err
            &&& exists|p: int|
                0 <= p < picks.len() && group_plan(group, picks, step, at)->Err_0 == (
                PlanError::OptionIndex {
                    step: step as usize,
                    group: at as usize,
                    option: #[trigger] picks[p],
                }) && picks[p] >= group.options.len() && picks_fit(group, picks.take(p))
        },
    decreases picks.len(),
{
    let f = |p: usize| group.options[p as int].files;
    if picks.len() == 0 {
        assert(picks.map_values(f).flatten() =~= Seq::<FileInstructionView>::empty());
    } else {
        let t = picks.drop_last();
        lemma_group_plan_is(group, t, step, at);
        if picks_fit(group, t) {
            assert(picks.map_values(f) =~= t.map_values(f).push(f(picks.last())));
            lists::lemma_flatten_push(t.map_values(f), f(picks.last()));
            if picks.last() < group.options.len() {
                assert forall|p: int| 0 <= p < picks.len() implies #[trigger] picks[p]
                    < group.options.len() by {
                    if p < t.len() {
                        assert(t[p] == picks[p]);
                    }
                }
            } else {
                assert(picks[picks.len() - 1] >= group.options.len());
                assert(picks.take(picks.len() - 1) =~= t);
            }
        } else {
            let p = choose|p: int|
                0 <= p < t.len() && group_plan(group, t, step, at)->Err_0 == (
                PlanError::OptionIndex {
                    step: step as usize,
                    group: at as usize,
                    option: #[trigger] t[p],
                }) && t[p] >= group.options.len() && picks_fit(group, t.take(p));
            assert(picks[p] == t[p]);
            assert(picks.take(p) =~= t.take(p));
        }
    }
}

/// What is picked in the first `n` groups.
spec fn picked_in(step: InstallStepView, choices: Seq<Seq<usize>>, n: int) -> Seq<
    Seq<FileInstructionView>,
> {
    Seq::new(
        n as nat,
        |g: int|
            choices[g].map_values(|p: usize| step.groups[g].options[p as int].files).flatten(),
    )
}

proof fn lemma_groups_plan_is(step: InstallStepView, choices: Seq<Seq<usize>>, at: int, n: int)
    requires
        choices.len() == step.groups.len(),
        0 <= n <= choices.len(),
    ensures
        (forall|g: int| 0 <= g < n ==> picks_fit(step.groups[g], #[trigger] choices[g]))
            ==> groups_plan(step.groups, choices, at, n) == Ok::<
            Seq<FileInstructionView>,
            PlanError,
        >(picked_in(step, choices, n).flatten()),
        groups_plan(step.groups, choices, at, n) is Err ==> is_first_misfit(
            step,
            choices,
            at,
            groups_plan(step.groups, choices, at, n)->Err_0,
        ),
        groups_plan(step.groups, choices, at, n) is Ok ==> forall|g: int|
            0 <= g < n ==> picks_fit(step.groups[g], #[trigger] choices[g]),
    decreases n,
{
    if n == 0 {
        assert(picked_in(step, choices, 0).flatten() =~= Seq::<FileInstructionView>::empty());
    } else {
        let g = n - 1;
        lemma_groups_plan_is(step, choices, at, g);
        lemma_group_plan_is(step.groups[g], choices[g], at, g);
        let before = picked_in(step, choices, g);
        assert(picked_in(step, choices, n) =~= before.push(picked_in(step, choices, n)[g]));
        lists::lemma_flatten_push(before, picked_in(step, choices, n)[g]);
        if groups_plan(step.groups, choices, at, g) is Ok && group_plan(
            step.groups[g],
            choices[g],
            at,
            g,
        ) is Err {
            let e = group_plan(step.groups[g], choices[g], at, g)->Err_0;
            let p = choose|p: int|
                0 <= p < choices[g].len() && e == (PlanError::OptionIndex {
                    step: at as usize,
                    group: g as usize,
                    option: #[trigger] choices[g][p],
                }) && choices[g][p] >= step.groups[g].options.len() && picks_fit(
                    step.groups[g],
                    choices[g].take(p),
                );
            assert(misfit_at(step, choices, at, g, p, e));
        }
    }
}

/// Whether `e` tells that the pick at `p` in group `g` is the first in its step
/// that is no option's place.
pub open spec fn misfit_at(
    step: InstallStepView,
    choices: Seq<Seq<usize>>,
    at: int,
    g: int,
    p: int,
    e: PlanError,
) -> bool {
    &&& 0 <= g < choices.len()
    &&& 0 <= p < choices[g].len()
    &&& choices[g][p] >= step.groups[g].options.len()
    &&& e == (PlanError::OptionIndex {
        step: at as usize,
        group: g as usize,
        option: choices[g][p],
    })
    &&& picks_fit(step.groups[g], choices[g].take(p))
    &&& forall|h: int| 0 <= h < g ==> picks_fit(step.groups[h], #[trigger] choices[h])
}

/// Whether `e` tells of the first thing in a step's choices that does not fit.
pub open spec fn is_first_misfit(
    step: InstallStepView,
    choices: Seq<Seq<usize>>,
    at: int,
    e: PlanError,
) -> bool {
    if choices.len() != step.groups.len() {
        e == (PlanError::GroupCount {
            step: at as usize,
            expected: step.groups.len() as usize,
            got: choices.len() as usize,
        })
    } else {
        exists|g: int, p: int| #[trigger] misfit_at(step, choices, at, g, p, e)
    }
}

/// What is picked in the first `n` steps.
spec fn picked(cfg: ModuleConfigView, choices: Seq<Seq<Seq<usize>>>, n: int) -> Seq<
    Seq<FileInstructionView>,
> {
    Seq::new(
        n as nat,
        |s: int| picked_in(cfg.steps[s], choices[s], choices[s].len() as int).flatten(),
    )
}

proof fn lemma_steps_plan_is(cfg: ModuleConfigView, choices: Seq<Seq<Seq<usize>>>, n: int)
    requires
        choices.len() == cfg.steps.len(),
        0 <= n <= choices.len(),
    ensures
        (forall|s: int| 0 <= s < n ==> step_fits(cfg.steps[s], #[trigger] choices[s]))
            ==> steps_plan(cfg, choices, n) == Ok::<Seq<FileInstructionView>, PlanError>(
            cfg.required_files + picked(cfg, choices, n).flatten(),
        ),
        steps_plan(cfg, choices, n) is Err ==> exists|s: int|
            0 <= s < n && is_first_misfit(
                cfg.steps[s],
                #[trigger] choices[s],
                s,
                steps_plan(cfg, choices, n)->Err_0,
            ) && forall|t: int|
                0 <= t < s ==> step_fits(cfg.steps[t], #[trigger] choices[t]),
        steps_plan(cfg, choices, n) is Ok ==> forall|s: int|
            0 <= s < n ==> step_fits(cfg.steps[s], #[trigger] choices[s]),
    decreases n,
{
    if n == 0 {
        assert(cfg.required_files + picked(cfg, choices, 0).flatten() =~= cfg.required_files);
    } else {
        let s = n - 1;
        lemma_steps_plan_is(cfg, choices, s);
        let step = cfg.steps[s];
        if choices[s].len() == step.groups.len() {
            lemma_groups_plan_is(step, choices[s], s, choices[s].len() as int);
        }
        let before = picked(cfg, choices, s);
        let more = picked(cfg, choices, n)[s];
        assert(picked(cfg, choices, n) =~= before.push(more));
        lists::lemma_flatten_push(before, more);
        assert((cfg.required_files + before.flatten()) + more =~= cfg.required_files + (
        before.flatten() + more));
        if steps_plan(cfg, choices, s) is Err {
            let e = steps_plan(cfg, choices, s)->Err_0;
            let at = choose|at: int|
                0 <= at < s && is_first_misfit(cfg.steps[at], #[trigger] choices[at], at, e)
                    && forall|t: int| 0 <= t < at ==> step_fits(cfg.steps[t], #[trigger] choices[t]);
            assert(is_first_misfit(cfg.steps[at], choices[at], at, e));
        } else if steps_plan(cfg, choices, n) is Err {
            assert(is_first_misfit(cfg.steps[s], choices[s], s, steps_plan(cfg, choices, n)->Err_0));
        }
    }
}

/// A plan for choices that fit holds the required files, and behind them step by
/// step and group by group the files of every option that was picked, in the
/// order of the picks: none is left out, and there is nothing else.
pub proof fn lemma_plan_holds_all_that_was_picked(
    cfg: ModuleConfigView,
    choices: Seq<Seq<Seq<usize>>>,
)
    requires
        choices_fit(cfg, choices),
    ensures
        plan_of(cfg, choices) == Ok::<Seq<FileInstructionView>, PlanError>(
            cfg.required_files + Seq::new(
                choices.len(),
                |s: int|
                    Seq::new(
                        choices[s].len(),
                        |g: int|
                            choices[s][g].map_values(
                                |p: usize| cfg.steps[s].groups[g].options[p as int].files,
                            ).flatten(),
                    ).flatten(),
            ).flatten(),
        ),
{
    lemma_steps_plan_is(cfg, choices, choices.len() as int);
    let all = Seq::new(
        choices.len(),
        |s: int|
            Seq::new(
                choices[s].len(),
                |g: int|
                    choices[s][g].map_values(
                        |p: usize| cfg.steps[s].groups[g].options[p as int].files,
                    ).flatten(),
            ).flatten(),
    );
    assert forall|s: int| 0 <= s < choices.len() implies #[trigger] picked(
        cfg,
        choices,
        choices.len() as int,
    )[s] == all[s] by {
        assert(picked_in(cfg.steps[s], choices[s], choices[s].len() as int) =~= Seq::new(
            choices[s].len(),
            |g: int|
                choices[s][g].map_values(
                    |p: usize| cfg.steps[s].groups[g].options[p as int].files,
                ).flatten(),
        ));
    }
    assert(picked(cfg, choices, choices.len() as int) =~= all);
}

/// Every file of every picked option is in the plan.
pub proof fn lemma_every_pick_is_in_the_plan(
    cfg: ModuleConfigView,
    choices: Seq<Seq<Seq<usize>>>,
    s: int,
    g: int,
    p: int,
    k: int,
)
    requires
        plan_of(cfg, choices) is Ok,
        0 <= s < choices.len(),
        0 <= g < choices[s].len(),
        0 <= p < choices[s][g].len(),
        0 <= k < cfg.steps[s].groups[g].options[choices[s][g][p] as int].files.len(),
    ensures
        plan_of(cfg, choices)->Ok_0.contains(
            cfg.steps[s].groups[g].options[choices[s][g][p] as int].files[k],
        ),
{
    lemma_plan_error_tells_the_misfit(cfg, choices);
    lemma_plan_holds_all_that_was_picked(cfg, choices);
    let all = Seq::new(
        choices.len(),
        |s: int|
            Seq::new(
                choices[s].len(),
                |g: int|
                    choices[s][g].map_values(
                        |p: usize| cfg.steps[s].groups[g].options[p as int].files,
                    ).flatten(),
            ).flatten(),
    );
    let in_step = Seq::new(
        choices[s].len(),
        |g: int|
            choices[s][g].map_values(
                |p: usize| cfg.steps[s].groups[g].options[p as int].files,
            ).flatten(),
    );
    let in_group = choices[s][g].map_values(
        |p: usize| cfg.steps[s].groups[g].options[p as int].files,
    );
    let a = lists::lemma_flatten_holds(in_group, p, k);
    assert(in_step[g] == in_group.flatten());
    let b = lists::lemma_flatten_holds(in_step, g, a);
    assert(all[s] == in_step.flatten());
    let c = lists::lemma_flatten_holds(all, s, b);
    let plan = cfg.required_files + all.flatten();
    assert(plan[cfg.required_files.len() + c] == all.flatten()[c]);
}

/// There is a plan exactly where the choices fit; where they do not, the error
/// tells of the first that does not, and everything before it fits.
pub proof fn lemma_plan_error_tells_the_misfit(
    cfg: ModuleConfigView,
    choices: Seq<Seq<Seq<usize>>>,
)
    ensures
        plan_of(cfg, choices) is Ok <==> choices_fit(cfg, choices),
        plan_of(cfg, choices) matches Err(e) ==> if choices.len() != cfg.steps.len() {
            e == (PlanError::StepCount {
                choices: choices.len() as usize,
                steps: cfg.steps.len() as usize,
            })
        } else {
            exists|s: int|
                0 <= s < choices.len() && is_first_misfit(cfg.steps[s], #[trigger] choices[s], s, e)
                    && forall|t: int| 0 <= t < s ==> step_fits(cfg.steps[t], #[trigger] choices[t])
        },
{
    if choices.len() == cfg.steps.len() {
        lemma_steps_plan_is(cfg, choices, choices.len() as int);
    }
}

// ---------------------------------------------------------------------------
// What is read and where it goes
// ---------------------------------------------------------------------------

/// The kinds of groups by their names; any other name allows any number.
pub proof fn lemma_kinds_of_groups(s: Seq<char>)
    ensures
        group_type_named("SelectAll"@) == GroupType::SelectAll,
        group_type_named("SelectExactlyOne"@) == GroupType::SelectExactlyOne,
        group_type_named("SelectAtMostOne"@) == GroupType::SelectAtMostOne,
        group_type_named("SelectAtLeastOne"@) == GroupType::SelectAtLeastOne,
        group_type_named(s) == GroupType::SelectAny <==> s != "SelectAll"@ && s
            != "SelectExactlyOne"@ && s != "SelectAtMostOne"@ && s != "SelectAtLeastOne"@,
{
    reveal_strlit("SelectAll");
    reveal_strlit("SelectExactlyOne");
    reveal_strlit("SelectAtMostOne");
    reveal_strlit("SelectAtLeastOne");
    assert("SelectAll"@.len() == 9);
    assert("SelectExactlyOne"@.len() == 16 && "SelectExactlyOne"@[6] == 'E');
    assert("SelectAtMostOne"@.len() == 15);
    assert("SelectAtLeastOne"@.len() == 16 && "SelectAtLeastOne"@[6] == 'A');
}

/// Every `file` and `folder` that is a child of the element and has a source is
/// listed, in order, and nothing else is.
pub proof fn lemma_every_file_is_listed(nodes: Seq<XmlNodeView>, i: usize, n: nat)
    ensures
        file_list_upto(nodes, i as int, n as int) == lists::places(n).filter(
            |j: int|
                nodes[j].parent == Some(i) && (nodes[j].tag == "file"@ || nodes[j].tag
                    == "folder"@) && xml::attribute_or(nodes, j, "source"@, Seq::empty()).len() > 0,
        ).map_values(
            |j: int|
                FileInstructionView {
                    source: xml::attribute_or(nodes, j, "source"@, Seq::empty()),
                    destination: xml::attribute_or(nodes, j, "destination"@, Seq::empty()),
                    is_folder: nodes[j].tag == "folder"@,
                },
        ),
    decreases n,
{
    let pred = |j: int|
        nodes[j].parent == Some(i) && (nodes[j].tag == "file"@ || nodes[j].tag == "folder"@)
            && xml::attribute_or(nodes, j, "source"@, Seq::empty()).len() > 0;
    let f = |j: int|
        FileInstructionView {
            source: xml::attribute_or(nodes, j, "source"@, Seq::empty()),
            destination: xml::attribute_or(nodes, j, "destination"@, Seq::empty()),
            is_folder: nodes[j].tag == "folder"@,
        };
    lists::lemma_places_filter_map((n - 1) as nat, pred, f);
    if n > 0 {
        lemma_every_file_is_listed(nodes, i, (n - 1) as nat);
    }
}

/// Every `plugin` in every one of the lists is an option.
pub proof fn lemma_every_plugin_is_an_option(nodes: Seq<XmlNodeView>, places: Seq<usize>)
    ensures
        listed_options(nodes, places) == places.map_values(
            |l: usize|
                xml::children_named(nodes, l as int, "plugin"@).map_values(
                    |j: usize| option_at(nodes, j as int),
                ),
        ).flatten(),
    decreases places.len(),
{
    let f = |l: usize|
        xml::children_named(nodes, l as int, "plugin"@).map_values(
            |j: usize| option_at(nodes, j as int),
        );
    if places.len() == 0 {
        assert(places.map_values(f).flatten() =~= Seq::<FomodOptionView>::empty());
    } else {
        let t = places.drop_last();
        lemma_every_plugin_is_an_option(nodes, t);
        assert(places.map_values(f) =~= t.map_values(f).push(f(places.last())));
        lists::lemma_flatten_push(t.map_values(f), f(places.last()));
        assert(options_at(nodes, xml::children_named(nodes, places.last() as int, "plugin"@))
            =~= f(places.last()));
    }
}

/// Of the plugins anywhere under a group, those of the group itself become
/// options: each name once, by the first plugin of that name.
pub proof fn lemma_scattered_plugins(nodes: Seq<XmlNodeView>, group: int, plugins: Seq<usize>)
    ensures
        ({
            let all = scattered_options(nodes, group, plugins);
            &&& forall|k: int|
                0 <= k < plugins.len() && xml::nearest(
                    nodes,
                    "group"@,
                    #[trigger] plugins[k] as int,
                ) == group && (forall|j: int|
                    0 <= j < k && xml::nearest(nodes, "group"@, #[trigger] plugins[j] as int)
                        == group ==> option_at(nodes, plugins[j] as int).name != option_at(
                        nodes,
                        plugins[k] as int,
                    ).name) ==> all.contains(option_at(nodes, plugins[k] as int))
            &&& forall|k: int|
                0 <= k < plugins.len() && xml::nearest(
                    nodes,
                    "group"@,
                    #[trigger] plugins[k] as int,
                ) == group ==> has_option(all, option_at(nodes, plugins[k] as int).name)
            &&& forall|a: int, b: int|
                0 <= a < b < all.len() ==> (#[trigger] all[a]).name != (#[trigger] all[b]).name
            &&& forall|a: int|
                0 <= a < all.len() ==> exists|k: int|
                    0 <= k < plugins.len() && xml::nearest(
                        nodes,
                        "group"@,
                        #[trigger] plugins[k] as int,
                    ) == group && #[trigger] all[a] == option_at(nodes, plugins[k] as int)
        }),
    decreases plugins.len(),
{
    if plugins.len() > 0 {
        let t = plugins.drop_last();
        let n = t.len() as int;
        let before = scattered_options(nodes, group, t);
        let all = scattered_options(nodes, group, plugins);
        lemma_scattered_plugins(nodes, group, t);
        assert forall|k: int| 0 <= k < n implies #[trigger] t[k] == plugins[k] by {}
        assert forall|a: int| 0 <= a < before.len() implies #[trigger] all[a] == before[a] by {}
        let last = option_at(nodes, plugins.last() as int);
        assert(plugins[n] == plugins.last());
        assert forall|k: int|
            0 <= k < plugins.len() && xml::nearest(nodes, "group"@, #[trigger] plugins[k] as int)
                == group implies has_option(all, option_at(nodes, plugins[k] as int).name) by {
            let name = option_at(nodes, plugins[k] as int).name;
            if k < n {
                assert(has_option(before, option_at(nodes, t[k] as int).name));
            }
            if has_option(before, name) {
                let a = choose|a: int| 0 <= a < before.len() && (#[trigger] before[a]).name == name;
                assert(all[a].name == name);
            } else {
                assert(all[before.len() as int].name == name);
            }
        }
        assert forall|k: int|
            0 <= k < plugins.len() && xml::nearest(nodes, "group"@, #[trigger] plugins[k] as int)
                == group && (forall|j: int|
                0 <= j < k && xml::nearest(nodes, "group"@, #[trigger] plugins[j] as int) == group
                    ==> option_at(nodes, plugins[j] as int).name != option_at(
                    nodes,
                    plugins[k] as int,
                ).name) implies all.contains(option_at(nodes, plugins[k] as int)) by {
            let o = option_at(nodes, plugins[k] as int);
            if k < n {
                assert(forall|j: int|
                    0 <= j < k && xml::nearest(nodes, "group"@, #[trigger] t[j] as int) == group
                        ==> option_at(nodes, t[j] as int).name != option_at(
                        nodes,
                        t[k] as int,
                    ).name) by {
                    assert forall|j: int|
                        0 <= j < k && xml::nearest(nodes, "group"@, #[trigger] t[j] as int)
                            == group implies option_at(nodes, t[j] as int).name != option_at(
                        nodes,
                        t[k] as int,
                    ).name by {
                        assert(plugins[j] == t[j]);
                    }
                }
                assert(before.contains(option_at(nodes, t[k] as int)));
                let a = choose|a: int| 0 <= a < before.len() && before[a] == o;
                assert(all[a] == o);
            } else {
                if has_option(before, o.name) {
                    let a = choose|a: int|
                        0 <= a < before.len() && (#[trigger] before[a]).name == o.name;
                    let j = choose|j: int|
                        0 <= j < t.len() && xml::nearest(
                            nodes,
                            "group"@,
                            #[trigger] t[j] as int,
                        ) == group && before[a] == option_at(nodes, t[j] as int);
                    assert(plugins[j] == t[j]);
                }
                assert(all[before.len() as int] == o);
            }
        }
        assert forall|a: int| 0 <= a < all.len() implies exists|k: int|
            0 <= k < plugins.len() && xml::nearest(nodes, "group"@, #[trigger] plugins[k] as int)
                == group && #[trigger] all[a] == option_at(nodes, plugins[k] as int) by {
            if a < before.len() {
                let k = choose|k: int|
                    0 <= k < t.len() && xml::nearest(nodes, "group"@, #[trigger] t[k] as int)
                        == group && before[a] == option_at(nodes, t[k] as int);
                assert(plugins[k] == t[k]);
            } else {
                assert(all[a] == option_at(nodes, plugins[n] as int));
            }
        }
    }
}

/// A document's steps are all its `installStep` elements, and the groups of a
/// step are all `group` elements anywhere under it.
pub proof fn lemma_every_step_and_group_is_read(nodes: Seq<XmlNodeView>, i: int)
    ensures
        config_of(nodes).steps == lists::places(nodes.len()).filter(
            |j: int| nodes[j].tag == "installStep"@,
        ).map_values(|j: int| step_at(nodes, (j as usize) as int)),
        step_at(nodes, i).groups == lists::places(nodes.len()).filter(
            |j: int| xml::is_under(nodes, i, j) && nodes[j].tag == "group"@,
        ).map_values(|j: int| group_at(nodes, (j as usize) as int)),
{
    let n = nodes.len();
    let p = lists::places(n);
    let u = |j: int| j as usize;
    let s = |k: usize| step_at(nodes, k as int);
    let g = |k: usize| group_at(nodes, k as int);
    let a = |j: int| nodes[j].tag == "installStep"@;
    let b = |j: int| xml::is_under(nodes, i, j) && nodes[j].tag == "group"@;
    let a0 = |j: int| xml::has_tag(nodes, j, "installStep"@);
    let b0 = |j: int| xml::is_under(nodes, i, j) && xml::has_tag(nodes, j, "group"@);
    xml::lemma_places_are_all(n, a0);
    xml::lemma_places_are_all(n, b0);
    lists::lemma_filter_alike(p, a0, a);
    lists::lemma_filter_alike(p, b0, b);
    assert(p.filter(a).map_values(u).map_values(s) =~= p.filter(a).map_values(
        |j: int| step_at(nodes, (j as usize) as int),
    ));
    assert(p.filter(b).map_values(u).map_values(g) =~= p.filter(b).map_values(
        |j: int| group_at(nodes, (j as usize) as int),
    ));
    assert(config_of(nodes).steps =~= p.filter(a).map_values(u).map_values(s));
    assert(step_at(nodes, i).groups =~= p.filter(b).map_values(u).map_values(g));
}

/// A group has the options of its `plugins` lists, and only where these have
/// none those of plugins elsewhere in it.
pub proof fn lemma_options_of_a_group(nodes: Seq<XmlNodeView>, i: int)
    ensures
        ({
            let listed = listed_options(nodes, xml::children_named(nodes, i, "plugins"@));
            &&& listed.len() > 0 ==> group_at(nodes, i).options == listed
            &&& listed.len() == 0 ==> group_at(nodes, i).options == scattered_options(
                nodes,
                i,
                xml::under_named(nodes, i, "plugin"@),
            )
        }),
{
}

/// A path of an installer is made relative: backslashes count as slashes, a
/// leading `./` and leading slashes count for nothing, and no path that results
/// begins with a slash or holds a backslash. One that is relative stays.
pub proof fn lemma_paths_are_made_relative(p: Seq<char>)
    ensures
        relative(p) == relative(text::replaced(p, '\\', '/')),
        relative(seq!['.', '/'] + p) == relative(p),
        relative(p).len() > 0 ==> relative(p)[0] != '/',
        text::lacks(relative(p), '\\'),
        text::lacks(p, '\\') && p.len() > 0 && p[0] != '/' && p[0] != '.' ==> relative(p) == p,
{
    let r = text::replaced(p, '\\', '/');
    assert(text::replaced(r, '\\', '/') =~= r);
    let q = seq!['.', '/'] + p;
    let rq = text::replaced(q, '\\', '/');
    assert(rq =~= seq!['.', '/'] + r);
    assert(rq.skip(2) =~= r);
    lemma_dots_taken(r);
    lemma_slashes_taken(without_dots(r));
    if text::lacks(p, '\\') {
        assert(r =~= p);
    }
}

proof fn lemma_dots_taken(s: Seq<char>)
    requires
        text::lacks(s, '\\'),
    ensures
        text::lacks(without_dots(s), '\\'),
    decreases s.len(),
{
    if s.len() >= 2 && s[0] == '.' && s[1] == '/' {
        assert(text::lacks(s.skip(2), '\\')) by {
            assert forall|j: int| 0 <= j < s.skip(2).len() implies #[trigger] s.skip(2)[j]
                != '\\' by {
                assert(s.skip(2)[j] == s[j + 2]);
            }
        }
        lemma_dots_taken(s.skip(2));
    }
}

proof fn lemma_slashes_taken(s: Seq<char>)
    requires
        text::lacks(s, '\\'),
    ensures
        text::lacks(without_leading_slashes(s), '\\'),
        without_leading_slashes(s).len() > 0 ==> without_leading_slashes(s)[0] != '/',
    decreases s.len(),
{
    if s.len() > 0 && s[0] == '/' {
        let t = s.drop_first();
        assert forall|j: int| 0 <= j < t.len() implies #[trigger] t[j] != '\\' by {
            assert(t[j] == s[j + 1]);
        }
        lemma_slashes_taken(t);
    }
}

/// Where a single file goes: where it is in the archive if nothing else is said,
/// into the destination where that is written as a folder or cannot be a file,
/// and else to the destination itself.
pub proof fn lemma_where_a_file_goes(source: Seq<char>, destination: Seq<char>, name: Seq<char>)
    ensures
        destination.len() == 0 ==> file_target(source, destination, Some(name)) == relative(source),
        destination.len() > 0 && relative(destination).len() > 0 && relative(destination).last()
            == '/' ==> file_target(source, destination, Some(name)) == paths::joined(
            relative(destination),
            name,
        ),
        destination.len() > 0 && paths::extension(relative(destination)) is None
            && paths::extension_of(name) is Some ==> file_target(source, destination, Some(name))
            == paths::joined(relative(destination), name),
        destination.len() > 0 && !(relative(destination).len() > 0 && relative(
            destination,
        ).last() == '/') && (paths::extension(relative(destination)) is Some
            || paths::extension_of(name) is None) ==> file_target(source, destination, Some(name))
            == relative(destination),
{
}

/// Of a folder every file is copied, from its place under the source to the same
/// place under the destination; of a single file that one; and nothing where the
/// archive does not hold the source.
pub proof fn lemma_every_file_of_a_folder_is_copied(
    archive_root: Seq<char>,
    content_dir: Seq<char>,
    instr: FileInstructionView,
    found: SourceFoundView,
)
    ensures
        ({
            let source = if found.relative_exists {
                paths::joined(archive_root, relative(instr.source))
            } else {
                paths::joined(archive_root, text::replaced(instr.source, '\\', '/'))
            };
            let to = if instr.destination.len() == 0 {
                Seq::<char>::empty()
            } else {
                relative(instr.destination)
            };
            let copies = copies_by(archive_root, content_dir, instr, found);
            &&& !found.relative_exists && !found.as_written_exists ==> copies.len() == 0
            &&& (found.relative_exists || found.as_written_exists) && (instr.is_folder
                || found.is_folder) ==> copies == found.files.map_values(
                |f: Seq<char>|
                    (paths::joined(source, f), paths::joined(content_dir, paths::joined(to, f))),
            )
            &&& (found.relative_exists || found.as_written_exists) && !instr.is_folder
                && !found.is_folder ==> copies == seq![
                (
                    source,
                    paths::joined(
                        content_dir,
                        file_target(instr.source, instr.destination, found.name),
                    ),
                ),
            ]
        }),
{
    let source = if found.relative_exists {
        paths::joined(archive_root, relative(instr.source))
    } else {
        paths::joined(archive_root, text::replaced(instr.source, '\\', '/'))
    };
    let to = if instr.destination.len() == 0 {
        Seq::<char>::empty()
    } else {
        relative(instr.destination)
    };
    let copies = copies_by(archive_root, content_dir, instr, found);
    if (found.relative_exists || found.as_written_exists) && (instr.is_folder
        || found.is_folder) {
        assert(copies =~= found.files.map_values(
            |f: Seq<char>|
                (paths::joined(source, f), paths::joined(content_dir, paths::joined(to, f))),
        ));
    }
}

/// A plan's copies are those of each of its instructions, in order.
pub proof fn lemma_every_instruction_is_carried_out(
    archive_root: Seq<char>,
    content_dir: Seq<char>,
    plan: Seq<FileInstructionView>,
    found: Seq<SourceFoundView>,
)
    requires
        found.len() == plan.len(),
    ensures
        copies_in(archive_root, content_dir, plan, found) == lists::places(plan.len()).map_values(
            |k: int| copies_by(archive_root, content_dir, plan[k], found[k]),
        ).flatten(),
    decreases plan.len(),
{
    let f = |k: int| copies_by(archive_root, content_dir, plan[k], found[k]);
    let p = lists::places(plan.len());
    if plan.len() == 0 {
        assert(p.map_values(f).flatten() =~= Seq::<(Seq<char>, Seq<char>)>::empty());
    } else {
        let m = (plan.len() - 1) as nat;
        let t = plan.drop_last();
        let u = found.drop_last();
        lemma_every_instruction_is_carried_out(archive_root, content_dir, t, u);
        lists::lemma_places_push(m);
        let g = |k: int| copies_by(archive_root, content_dir, t[k], u[k]);
        assert(lists::places(m).map_values(g) =~= lists::places(m).map_values(f));
        assert(p.map_values(f) =~= lists::places(m).map_values(f).push(f(m as int)));
        lists::lemma_flatten_push(lists::places(m).map_values(f), f(m as int));
    }
}

/// An installer's configuration is found wherever there is one in a folder
/// `fomod` near the top, whatever the case of letters; it is one of the files,
/// the usual spelling is preferred, and nothing is found where there is none.
pub proof fn lemma_which_configuration_is_found(
    files: Seq<Seq<char>>,
    root_name: Seq<char>,
    k: int,
)
    ensures
        module_config_of(files, root_name) is Some ==> files.contains(
            module_config_of(files, root_name)->0,
        ),
        files.contains("fomod/ModuleConfig.xml"@) ==> module_config_of(files, root_name) == Some(
            "fomod/ModuleConfig.xml"@,
        ),
        0 <= k < files.len() && is_module_config(files[k], root_name) ==> module_config_of(
            files,
            root_name,
        ) is Some,
        module_config_of(files, root_name) is Some ==> is_module_config(
            module_config_of(files, root_name)->0,
            root_name,
        ) || seq![
            "fomod/ModuleConfig.xml"@,
            "FOMOD/ModuleConfig.xml"@,
            "fomod/moduleconfig.xml"@,
        ].contains(module_config_of(files, root_name)->0),
{
    lemma_module_config_at(files, root_name, 0);
    let usual = seq![
        "fomod/ModuleConfig.xml"@,
        "FOMOD/ModuleConfig.xml"@,
        "fomod/moduleconfig.xml"@,
    ];
    assert(usual[0] == "fomod/ModuleConfig.xml"@ && usual[1] == "FOMOD/ModuleConfig.xml"@
        && usual[2] == "fomod/moduleconfig.xml"@);
    let i = module_config_at(files, root_name, 0);
    if i < files.len() {
        assert(files.contains(files[i]));
    }
}

proof fn lemma_module_config_at(files: Seq<Seq<char>>, root_name: Seq<char>, i: int)
    requires
        0 <= i <= files.len(),
    ensures
        i <= module_config_at(files, root_name, i) <= files.len(),
        module_config_at(files, root_name, i) < files.len() ==> is_module_config(
            files[module_config_at(files, root_name, i)],
            root_name,
        ),
        forall|j: int|
            i <= j < module_config_at(files, root_name, i) ==> !is_module_config(
                #[trigger] files[j],
                root_name,
            ),
    decreases files.len() - i,
{
    if i < files.len() && !is_module_config(files[i], root_name) {
        lemma_module_config_at(files, root_name, i + 1);
    }
}

/// A file in a folder of the archive, or in one below, is a configuration by its
/// name and that of its folder; one that is deeper never is.
pub proof fn lemma_what_is_a_configuration(
    top: Seq<char>,
    dir: Seq<char>,
    name: Seq<char>,
    root_name: Seq<char>,
)
    requires
        text::lacks(top, '/'),
        text::lacks(dir, '/'),
        text::lacks(name, '/'),
    ensures
        is_module_config(name, root_name) <==> text::lowercase(name) == "moduleconfig.xml"@
            && text::lowercase(root_name) == "fomod"@,
        is_module_config(dir + seq!['/'] + name, root_name) <==> text::lowercase(name)
            == "moduleconfig.xml"@ && text::lowercase(dir) == "fomod"@,
        is_module_config(top + seq!['/'] + (dir + seq!['/'] + name), root_name)
            <==> text::lowercase(name) == "moduleconfig.xml"@ && text::lowercase(dir) == "fomod"@,
        !is_module_config(
            top + seq!['/'] + (top + seq!['/'] + (dir + seq!['/'] + name)),
            root_name,
        ),
{
    text::lemma_one_piece(top, '/');
    text::lemma_one_piece(dir, '/');
    text::lemma_one_piece(name, '/');
    text::lemma_pieces_of_two(dir, name, '/');
    let b = dir + seq!['/'] + name;
    text::lemma_pieces_of_two(top, b, '/');
    let c = top + seq!['/'] + b;
    text::lemma_pieces_of_two(top, c, '/');
    assert(text::pieces(name, '/') == seq![name]);
    assert(text::pieces(b, '/') =~= seq![dir, name]);
    assert(text::pieces(c, '/') =~= seq![top, dir, name]);
    assert(text::pieces(top + seq!['/'] + c, '/').len() == 4);
}

/// What is read of an element is the first of that name: the module's name, an
/// option's description and its files, and the required files. Texts are read
/// without outer white space, and what is missing is empty.
pub proof fn lemma_the_first_of_a_name_is_read(nodes: Seq<XmlNodeView>, places: Seq<usize>)
    ensures
        places.len() == 0 ==> first_text(nodes, places).len() == 0 && first_file_list(
            nodes,
            places,
        ).len() == 0,
        places.len() > 0 ==> first_file_list(nodes, places) == file_list_upto(
            nodes,
            places[0] as int,
            nodes.len() as int,
        ),
        places.len() > 0 && nodes[places[0] as int].text is Some ==> first_text(nodes, places)
            == text::trimmed(nodes[places[0] as int].text->0),
        places.len() > 0 && nodes[places[0] as int].text is None ==> first_text(
            nodes,
            places,
        ).len() == 0,
{
}

/// What an option says: its name, or `Option` where it has none, its description
/// and its files, each from its own children.
pub proof fn lemma_what_an_option_says(nodes: Seq<XmlNodeView>, j: int)
    ensures
        xml::attribute_in(nodes[j].attributes, "name"@) matches Some(n) ==> option_at(
            nodes,
            j,
        ).name == n,
        xml::attribute_in(nodes[j].attributes, "name"@) is None ==> option_at(nodes, j).name
            == "Option"@,
        option_at(nodes, j).description == first_text(
            nodes,
            xml::children_named(nodes, j, "description"@),
        ),
        option_at(nodes, j).files == first_file_list(
            nodes,
            xml::children_named(nodes, j, "files"@),
        ),
        config_of(nodes).module_name == first_text(nodes, xml::all_named(nodes, "moduleName"@)),
        config_of(nodes).required_files == first_file_list(
            nodes,
            xml::all_named(nodes, "requiredInstallFiles"@),
        ),
{
}

} // verus!
