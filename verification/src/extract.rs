//! Projecting the asset folders of an unpacked package onto a destination
//! tree.
//!
//! Nothing here touches a file system. A caller looks into each folder of the
//! unpacked tree and records what it found as an [`AssetFolder`]; the functions
//! of this module decide from those records what is to be copied where, and
//! the caller carries the copies out.

use vstd::prelude::*;
use vstd::string::*;

use crate::path::{
    directory, extension, file_name, join, lemma_extension_of_dotted, lemma_file_name_under,
    lemma_flatten_has_no_separator, spec_directory, spec_extension, spec_file_name, spec_flatten,
    spec_join, DOT, FLAT_SEPARATOR, SEPARATOR,
};
use crate::text::{first_line, spec_first_line};

verus! {

/// The name of the file that holds an asset's content, inside its folder.
pub const PAYLOAD_FILE: &'static str = "asset";

/// The name of the file that declares an asset's path, inside its folder.
pub const PATHNAME_FILE: &'static str = "pathname";

/// What a look into one folder of an unpacked package found.
#[derive(Debug, Clone, PartialEq, Eq)]
pub struct AssetFolder {
    /// The folder's own path.
    pub path: String,
    /// Whether the folder holds a payload file.
    pub has_payload: bool,
    /// The text of the folder's pathname file, unless that file is missing
    /// or cannot be read.
    pub pathname: Option<String>,
}

/// An [`AssetFolder`] as contracts see it.
pub struct AssetFolderView {
    pub path: Seq<char>,
    pub has_payload: bool,
    pub pathname: Option<Seq<char>>,
}

impl View for AssetFolder {
    type V = AssetFolderView;

    open spec fn view(&self) -> AssetFolderView {
        AssetFolderView {
            path: self.path@,
            has_payload: self.has_payload,
            pathname: match self.pathname {
                Some(text) => Some(text@),
                None => None,
            },
        }
    }
}

/// Why a folder that holds a payload is no well-formed asset.
#[derive(Debug, Clone, Copy, PartialEq, Eq, Structural)]
pub enum AssetError {
    /// The pathname file is missing or cannot be read.
    MissingPathname,
    /// The pathname file is empty, so it declares no path.
    EmptyPathname,
}

/// A malformed folder: where it stands among the folders that were looked
/// into, and what is wrong with it.
#[derive(Debug, Clone, Copy, PartialEq, Eq, Structural)]
pub struct Malformed {
    pub index: usize,
    pub error: AssetError,
}

/// What becomes of one folder of the unpacked package.
#[derive(Debug, Clone, PartialEq, Eq)]
pub enum Step {
    /// The folder holds no payload: it is no asset.
    NotAsset,
    /// The output path has no extension: nothing is copied.
    NoExtension,
    /// The output path's extension is not among those asked for: nothing is
    /// copied, and the caller is told which folder was passed over and what
    /// its file would have been called.
    Filtered { folder: String, name: String },
    /// The payload at `source` is copied to `destination`, once every missing
    /// directory down to `directory` has been made.
    Copy { source: String, directory: String, destination: String },
}

/// A [`Step`] as contracts see it.
pub enum StepView {
    NotAsset,
    NoExtension,
    Filtered { folder: Seq<char>, name: Seq<char> },
    Copy { source: Seq<char>, directory: Seq<char>, destination: Seq<char> },
}

impl View for Step {
    type V = StepView;

    open spec fn view(&self) -> StepView {
        match self {
            Step::NotAsset => StepView::NotAsset,
            Step::NoExtension => StepView::NoExtension,
            Step::Filtered { folder, name } => StepView::Filtered { folder: folder@, name: name@ },
            Step::Copy { source, directory, destination } => StepView::Copy {
                source: source@,
                directory: directory@,
                destination: destination@,
            },
        }
    }
}

/// The path that a folder declares for its asset: none where it holds no
/// payload; else the first line of its pathname file, which must be there
/// and hold a line.
pub open spec fn spec_asset_folder_pathname(folder: AssetFolderView) -> Result<
    Option<Seq<char>>,
    AssetError,
> {
    if !folder.has_payload {
        Ok(None)
    } else {
        match folder.pathname {
            None => Err(AssetError::MissingPathname),
            Some(text) => match spec_first_line(text) {
                None => Err(AssetError::EmptyPathname),
                Some(line) => Ok(Some(line)),
            },
        }
    }
}

/// Where an asset goes: its declared path under `output`, with every
/// separator of the declared path turned into an underscore first where
/// `flatten` is set.
pub open spec fn spec_output_path(output: Seq<char>, declared: Seq<char>, flatten: bool) -> Seq<
    char,
> {
    if flatten {
        spec_join(output, spec_flatten(declared))
    } else {
        spec_join(output, declared)
    }
}

/// The set of extensions that `filter` lists, where there is one.
pub open spec fn spec_filter(filter: Option<&Vec<String>>) -> Option<Set<Seq<char>>> {
    match filter {
        Some(extensions) => Some(
            Set::new(
                |e: Seq<char>| exists|i: int| 0 <= i < extensions.len() && extensions[i]@ == e,
            ),
        ),
        None => None,
    }
}

/// Whether `wanted` lets an output path with extension `ext` through.
pub open spec fn spec_admits(wanted: Option<Set<Seq<char>>>, ext: Seq<char>) -> bool {
    match wanted {
        Some(extensions) => extensions.contains(ext),
        None => true,
    }
}

/// How a folder is named when it is passed over: by the file name of its
/// path, or by the whole path where that has none.
pub open spec fn spec_folder_label(path: Seq<char>) -> Seq<char> {
    match spec_file_name(path) {
        Some(name) => name,
        None => path,
    }
}

/// What becomes of an asset with the declared path `declared`.
pub open spec fn spec_project(
    folder: Seq<char>,
    declared: Seq<char>,
    output: Seq<char>,
    flatten: bool,
    wanted: Option<Set<Seq<char>>>,
) -> StepView {
    let destination = spec_output_path(output, declared, flatten);
    match spec_extension(destination) {
        None => StepView::NoExtension,
        Some(ext) => if spec_admits(wanted, ext) {
            StepView::Copy {
                source: spec_join(folder, PAYLOAD_FILE@),
                directory: spec_directory(destination),
                destination,
            }
        } else {
            StepView::Filtered {
                folder: spec_folder_label(folder),
                name: spec_file_name(destination).unwrap(),
            }
        },
    }
}

/// What becomes of a folder: an error where it is malformed, else its step.
pub open spec fn spec_handle_asset(
    folder: AssetFolderView,
    output: Seq<char>,
    flatten: bool,
    wanted: Option<Set<Seq<char>>>,
) -> Result<StepView, AssetError> {
    match spec_asset_folder_pathname(folder) {
        Err(e) => Err(e),
        Ok(None) => Ok(StepView::NotAsset),
        Ok(Some(declared)) => Ok(spec_project(folder.path, declared, output, flatten, wanted)),
    }
}

/// The path that `folder` declares for its asset.
///
/// A folder without a payload is no asset and declares nothing. A folder
/// with a payload must come with a pathname file that can be read and holds
/// a line: that line, without its end, is the declared path.
pub fn asset_folder_pathname(folder: &AssetFolder) -> (declared: Result<Option<String>, AssetError>)
    ensures
        match declared {
            Ok(Some(p)) => spec_asset_folder_pathname(folder@) == Ok::<_, AssetError>(Some(p@)),
            Ok(None) => spec_asset_folder_pathname(folder@) == Ok::<Option<Seq<char>>, AssetError>(
                None,
            ),
            Err(e) => spec_asset_folder_pathname(folder@) == Err::<Option<Seq<char>>, _>(e),
        },
{
    if !folder.has_payload {
        return Ok(None);
    }
    match &folder.pathname {
        None => Err(AssetError::MissingPathname),
        Some(text) => match first_line(text.as_str()) {
            None => Err(AssetError::EmptyPathname),
            Some(line) => Ok(Some(line)),
        },
    }
}

/// Whether `ext` is one of `extensions`.
fn listed(extensions: &Vec<String>, ext: &String) -> (found: bool)
    ensures
        found == spec_admits(spec_filter(Some(extensions)), ext@),
{
    let mut i: usize = 0;
    while i < extensions.len()
        invariant
            i <= extensions.len(),
            forall|j: int| 0 <= j < i ==> extensions[j]@ != ext@,
        decreases extensions.len() - i,
    {
        if extensions[i] == *ext {
            return true;
        }
        i += 1;
    }
    false
}

/// How `path` names a folder that is passed over.
fn folder_label(path: &str) -> (label: String)
    ensures
        label@ == spec_folder_label(path@),
{
    match file_name(path) {
        Some(name) => name,
        None => String::from_str(path),
    }
}

/// Where the asset with the declared path `declared` goes under `output`:
/// to `declared` under `output`, or, where `flatten` is set, to the file
/// right under `output` whose name is `declared` with an underscore for each
/// separator.
pub fn output_path(output: &str, declared: &str, flatten: bool) -> (destination: String)
    ensures
        destination@ == spec_output_path(output@, declared@, flatten),
{
    if flatten {
        let flat = crate::path::flatten(declared);
        join(output, flat.as_str())
    } else {
        join(output, declared)
    }
}

/// Decides what becomes of `folder` when its asset is projected under
/// `output`.
///
/// The asset's output path is its declared path under `output`, flattened
/// first where `flatten` is set. The payload is copied there if that path
/// has an extension and `filter`, where given, lists it.
pub fn handle_asset(
    folder: &AssetFolder,
    output: &str,
    flatten: bool,
    filter: Option<&Vec<String>>,
) -> (step: Result<Step, AssetError>)
    ensures
        match step {
            Ok(s) => spec_handle_asset(folder@, output@, flatten, spec_filter(filter)) == Ok::<
                _,
                AssetError,
            >(s@),
            Err(e) => spec_handle_asset(folder@, output@, flatten, spec_filter(filter)) == Err::<
                StepView,
                _,
            >(e),
        },
{
    let declared = match asset_folder_pathname(folder) {
        Err(e) => {
            return Err(e);
        },
        Ok(None) => {
            return Ok(Step::NotAsset);
        },
        Ok(Some(declared)) => declared,
    };
    let destination = output_path(output, declared.as_str(), flatten);
    let ext = match extension(destination.as_str()) {
        None => {
            return Ok(Step::NoExtension);
        },
        Some(ext) => ext,
    };
    let admitted = match filter {
        Some(extensions) => listed(extensions, &ext),
        None => true,
    };
    if !admitted {
        let name = file_name(destination.as_str()).unwrap();
        return Ok(Step::Filtered { folder: folder_label(folder.path.as_str()), name });
    }
    let source = join(folder.path.as_str(), PAYLOAD_FILE);
    let directory = directory(destination.as_str());
    Ok(Step::Copy { source, directory, destination })
}

/// What an extraction comes to.
#[derive(Debug, Clone, PartialEq, Eq)]
pub struct Extraction {
    /// One step for each folder that was handled, in the folders' order.
    pub steps: Vec<Step>,
    /// The folder that stopped the extraction, where one did: the first
    /// malformed one. Neither it nor any folder after it has a step.
    pub failure: Option<Malformed>,
    /// How many of the steps copy a payload.
    pub count: usize,
}

/// An [`Extraction`] as contracts see it.
pub struct ExtractionView {
    pub steps: Seq<StepView>,
    pub failure: Option<Malformed>,
    pub count: nat,
}

impl View for Extraction {
    type V = ExtractionView;

    open spec fn view(&self) -> ExtractionView {
        ExtractionView {
            steps: self.steps@.map_values(|s: Step| s@),
            failure: self.failure,
            count: self.count as nat,
        }
    }
}

/// The folders as contracts see them.
pub open spec fn spec_folders(folders: Seq<AssetFolder>) -> Seq<AssetFolderView> {
    folders.map_values(|f: AssetFolder| f@)
}

/// Whether a folder holds a payload without a path to go with it.
pub open spec fn spec_malformed(folder: AssetFolderView) -> bool {
    spec_asset_folder_pathname(folder) is Err
}

/// How many folders come before the first malformed one: all of them where
/// none is malformed.
pub open spec fn spec_well_formed_prefix(folders: Seq<AssetFolderView>) -> int
    decreases folders.len(),
{
    if folders.len() == 0 || spec_malformed(folders[0]) {
        0
    } else {
        1 + spec_well_formed_prefix(folders.drop_first())
    }
}

/// The first malformed folder among `folders`, where there is one.
pub open spec fn spec_first_malformed(folders: Seq<AssetFolderView>) -> Option<Malformed> {
    let handled = spec_well_formed_prefix(folders);
    if handled < folders.len() {
        Some(
            Malformed {
                index: handled as usize,
                error: spec_asset_folder_pathname(folders[handled])->Err_0,
            },
        )
    } else {
        None
    }
}

/// How many of `steps` copy a payload.
pub open spec fn spec_copies(steps: Seq<StepView>) -> nat {
    steps.filter(|s: StepView| s is Copy).len()
}

/// What extracting `folders` under `output` comes to: a step for each folder
/// before the first malformed one, that one where there is one, and the
/// number of copies among the steps.
pub open spec fn spec_extract(
    folders: Seq<AssetFolderView>,
    output: Seq<char>,
    flatten: bool,
    wanted: Option<Set<Seq<char>>>,
) -> ExtractionView {
    let handled = spec_well_formed_prefix(folders);
    let steps = Seq::new(
        handled as nat,
        |i: int| spec_handle_asset(folders[i], output, flatten, wanted)->Ok_0,
    );
    ExtractionView { steps, failure: spec_first_malformed(folders), count: spec_copies(steps) }
}

/// The first malformed folder has none before it.
pub proof fn lemma_well_formed_prefix(folders: Seq<AssetFolderView>)
    ensures
        0 <= spec_well_formed_prefix(folders) <= folders.len(),
        spec_well_formed_prefix(folders) < folders.len() ==> spec_malformed(
            folders[spec_well_formed_prefix(folders)],
        ),
        forall|j: int|
            0 <= j < spec_well_formed_prefix(folders) ==> !spec_malformed(#[trigger] folders[j]),
    decreases folders.len(),
{
    if folders.len() > 0 && !spec_malformed(folders[0]) {
        let rest = folders.drop_first();
        lemma_well_formed_prefix(rest);
        assert forall|j: int| 0 <= j < spec_well_formed_prefix(folders) implies !spec_malformed(
            #[trigger] folders[j],
        ) by {
            if j > 0 {
                assert(rest[j - 1] == folders[j]);
            }
        }
    }
}

/// A count of folders none of which is malformed, followed by a malformed
/// one or by nothing, is the count of those before the first malformed one.
pub proof fn lemma_well_formed_prefix_is(folders: Seq<AssetFolderView>, handled: int)
    requires
        0 <= handled <= folders.len(),
        handled < folders.len() ==> spec_malformed(folders[handled]),
        forall|j: int| 0 <= j < handled ==> !spec_malformed(#[trigger] folders[j]),
    ensures
        spec_well_formed_prefix(folders) == handled,
{
    lemma_well_formed_prefix(folders);
}

/// No more steps copy than there are steps.
pub proof fn lemma_copies_bounded(steps: Seq<StepView>)
    ensures
        spec_copies(steps) <= steps.len(),
{
    steps.lemma_filter_len(|s: StepView| s is Copy);
}

/// One more step adds one to the copies if it copies, and nothing if not.
pub proof fn lemma_copies_push(steps: Seq<StepView>, step: StepView)
    ensures
        spec_copies(steps.push(step)) == spec_copies(steps) + if step is Copy {
            1nat
        } else {
            0nat
        },
{
    reveal_with_fuel(Seq::filter, 2);
    assert(steps.push(step).drop_last() == steps);
}

/// Decides, folder by folder and in their order, what an extraction under
/// `output` does.
///
/// Each folder is handled as [`handle_asset`] says. The first malformed
/// folder ends the extraction: the steps before it stand, and it is
/// reported. The count is the number of payloads that the steps copy.
pub fn extract(
    folders: &Vec<AssetFolder>,
    output: &str,
    flatten: bool,
    filter: Option<&Vec<String>>,
) -> (outcome: Extraction)
    ensures
        outcome@ == spec_extract(spec_folders(folders@), output@, flatten, spec_filter(filter)),
        outcome.count <= outcome.steps.len() <= folders.len(),
{
    let ghost views = spec_folders(folders@);
    let ghost wanted = spec_filter(filter);
    let mut steps: Vec<Step> = Vec::new();
    let mut failure: Option<Malformed> = None;
    let mut count: usize = 0;
    let mut i: usize = 0;
    while i < folders.len()
        invariant_except_break
            failure is None,
        invariant
            i <= folders.len(),
            views == spec_folders(folders@),
            wanted == spec_filter(filter),
            steps.len() == i,
            count == spec_copies(steps@.map_values(|s: Step| s@)),
            count <= i,
            forall|j: int| 0 <= j < i ==> !spec_malformed(#[trigger] views[j]),
            forall|j: int|
                0 <= j < i ==> spec_handle_asset(views[j], output@, flatten, wanted) == Ok::<
                    _,
                    AssetError,
                >(#[trigger] steps[j]@),
        ensures
            i <= folders.len(),
            failure is None ==> i == folders.len(),
            failure matches Some(m) ==> i < folders.len() && m.index == i
                && spec_asset_folder_pathname(views[i as int]) == Err::<Option<Seq<char>>, _>(
                m.error,
            ),
        decreases folders.len() - i,
    {
        let ghost before = steps@.map_values(|s: Step| s@);
        assert(views[i as int] == folders[i as int]@);
        match handle_asset(&folders[i], output, flatten, filter) {
            Err(e) => {
                failure = Some(Malformed { index: i, error: e });
                break ;
            },
            Ok(step) => {
                proof {
                    lemma_copies_push(before, step@);
                }
                if let Step::Copy { .. } = &step {
                    count += 1;
                }
                steps.push(step);
                assert(steps@.map_values(|s: Step| s@) == before.push(step@));
            },
        }
        i += 1;
    }
    proof {
        lemma_well_formed_prefix_is(views, i as int);
        lemma_copies_bounded(steps@.map_values(|s: Step| s@));
        let outcome = Extraction { steps, failure, count };
        assert(outcome@.steps =~= spec_extract(views, output@, flatten, wanted).steps);
    }
    Extraction { steps, failure, count }
}

/// Where the scratch directory of a run comes from.
#[derive(Debug, Clone, PartialEq, Eq)]
pub enum Scratch {
    /// The caller named a directory: it is used, and left in place.
    Given(String),
    /// The caller named none: a temporary directory is to be made before
    /// the package is unpacked, and removed when the run ends.
    Temporary,
}

/// Decides where a run unpacks its package: in `tmp` where that is given,
/// else in a temporary directory of its own.
pub fn tmp_folder(tmp: Option<&String>) -> (scratch: Scratch)
    ensures
        match tmp {
            Some(named) => scratch matches Scratch::Given(folder) && folder@ == named@,
            None => scratch is Temporary,
        },
{
    match tmp {
        Some(named) => Scratch::Given(named.clone()),
        None => Scratch::Temporary,
    }
}

/// A folder without a pathname file declares nothing where it holds no
/// payload, and is malformed where it holds one.
pub proof fn lemma_folder_without_pathname(folder: AssetFolderView)
    requires
        folder.pathname is None,
    ensures
        !folder.has_payload ==> spec_asset_folder_pathname(folder) == Ok::<
            Option<Seq<char>>,
            AssetError,
        >(None),
        folder.has_payload ==> spec_asset_folder_pathname(folder) == Err::<Option<Seq<char>>, _>(
            AssetError::MissingPathname,
        ),
{
}

/// The output path keeps the declared path under the output root, or puts
/// its flattened form there. A flattened form holds an underscore wherever
/// the declared path holds a separator, and the declared path's character
/// everywhere else; so it holds no separator, and the output path is the
/// output root, a separator where the root is not empty and does not end in
/// one, and the flattened form.
pub proof fn lemma_output_path(output: Seq<char>, declared: Seq<char>)
    ensures
        spec_output_path(output, declared, false) == spec_join(output, declared),
        spec_output_path(output, declared, true) == spec_join(output, spec_flatten(declared)),
        spec_flatten(declared).len() == declared.len(),
        forall|i: int|
            0 <= i < declared.len() ==> #[trigger] spec_flatten(declared)[i] == if declared[i]
                == SEPARATOR {
                FLAT_SEPARATOR
            } else {
                declared[i]
            },
        !spec_flatten(declared).contains(SEPARATOR),
        spec_output_path(output, declared, true) == if output.len() == 0 || output.last()
            == SEPARATOR {
            output + spec_flatten(declared)
        } else {
            output.push(SEPARATOR) + spec_flatten(declared)
        },
{
    lemma_flatten_has_no_separator(declared);
    if declared.len() > 0 {
        assert(spec_flatten(declared).contains(spec_flatten(declared)[0]));
    }
}

/// Flattening leaves no directory between the output root and the file:
/// the file name of a flattened output path is the whole flattened form of
/// the declared path, unless that form is empty, `.` or `..`.
pub proof fn lemma_flattened_file_name(output: Seq<char>, declared: Seq<char>)
    requires
        declared.len() > 0,
        declared != seq![DOT],
        declared != seq![DOT, DOT],
    ensures
        spec_file_name(spec_output_path(output, declared, true)) == Some(spec_flatten(declared)),
{
    let flat = spec_flatten(declared);
    lemma_flatten_has_no_separator(declared);
    if flat == seq![DOT] {
        assert(declared.len() == 1 && flat[0] == DOT);
        assert(declared =~= seq![DOT]);
    }
    if flat == seq![DOT, DOT] {
        assert(declared.len() == 2 && flat[0] == DOT && flat[1] == DOT);
        assert(declared =~= seq![DOT, DOT]);
    }
    lemma_file_name_under(output, flat);
}

/// An asset is copied if and only if its output path has an extension that
/// the filter, where there is one, lists. An output path without an
/// extension is never copied, whatever the filter.
pub proof fn lemma_copied_iff_admitted(
    folder: Seq<char>,
    declared: Seq<char>,
    output: Seq<char>,
    flatten: bool,
    wanted: Option<Set<Seq<char>>>,
)
    ensures
        ({
            let destination = spec_output_path(output, declared, flatten);
            let step = spec_project(folder, declared, output, flatten, wanted);
            &&& step is Copy <==> (spec_extension(destination) matches Some(e) && spec_admits(
                wanted,
                e,
            ))
            &&& step is Copy ==> step->destination == destination
            &&& spec_extension(destination) is None <==> step is NoExtension
            &&& step is Filtered <==> (spec_extension(destination) matches Some(e) && !spec_admits(
                wanted,
                e,
            ))
        }),
{
}

/// With a filter, an asset whose output path ends in a dot and a listed
/// extension is copied, and one whose output path ends in a dot and an
/// extension that is not listed is passed over and not counted. This holds
/// where what comes before the dot is not empty and does not end in a
/// separator, and the extension is not empty and holds neither a separator
/// nor a dot.
pub proof fn lemma_filter_law(
    folder: Seq<char>,
    declared: Seq<char>,
    output: Seq<char>,
    flatten: bool,
    wanted: Set<Seq<char>>,
    stem: Seq<char>,
    ext: Seq<char>,
)
    requires
        spec_output_path(output, declared, flatten) == stem.push(DOT) + ext,
        stem.len() > 0,
        stem.last() != SEPARATOR,
        ext.len() > 0,
        !ext.contains(SEPARATOR),
        !ext.contains(DOT),
    ensures
        ({
            let step = spec_project(folder, declared, output, flatten, Some(wanted));
            &&& wanted.contains(ext) ==> step is Copy && spec_copies(seq![step]) == 1
            &&& !wanted.contains(ext) ==> step is Filtered && spec_copies(seq![step]) == 0
        }),
{
    lemma_extension_of_dotted(stem, ext);
    let step = spec_project(folder, declared, output, flatten, Some(wanted));
    lemma_copies_push(Seq::empty(), step);
    assert(Seq::<StepView>::empty().push(step) =~= seq![step]);
    assert(spec_copies(Seq::empty()) == 0) by {
        reveal_with_fuel(Seq::filter, 1);
    }
}

/// What a destination tree holds once `steps` were carried out on `tree`,
/// in their order. A tree is taken for the output paths that exist in it,
/// each with the payload file that it was last copied from.
pub open spec fn spec_materialize(
    tree: Map<Seq<char>, Seq<char>>,
    steps: Seq<StepView>,
) -> Map<Seq<char>, Seq<char>>
    decreases steps.len(),
{
    if steps.len() == 0 {
        tree
    } else {
        let before = spec_materialize(tree, steps.drop_last());
        match steps.last() {
            StepView::Copy { source, destination, .. } => before.insert(destination, source),
            _ => before,
        }
    }
}

/// Carrying out steps overwrites: the tree afterwards is the tree before,
/// with what the steps write to an empty tree laid over it.
pub proof fn lemma_materialize_overwrites(tree: Map<Seq<char>, Seq<char>>, steps: Seq<StepView>)
    ensures
        spec_materialize(tree, steps) == tree.union_prefer_right(
            spec_materialize(Map::empty(), steps),
        ),
    decreases steps.len(),
{
    let written = spec_materialize(Map::empty(), steps);
    if steps.len() == 0 {
        assert(tree =~= tree.union_prefer_right(written));
    } else {
        lemma_materialize_overwrites(tree, steps.drop_last());
        assert(spec_materialize(tree, steps) =~= tree.union_prefer_right(written));
    }
}

/// Extracting twice is extracting once: carrying out the steps of an
/// extraction again, on the tree that they left, changes nothing of it. The
/// steps depend on nothing but the folders, the output root, the mode and
/// the filter, so a second run over the same ones has the same steps.
pub proof fn lemma_extraction_idempotent(
    folders: Seq<AssetFolderView>,
    output: Seq<char>,
    flatten: bool,
    wanted: Option<Set<Seq<char>>>,
    tree: Map<Seq<char>, Seq<char>>,
)
    ensures
        ({
            let steps = spec_extract(folders, output, flatten, wanted).steps;
            spec_materialize(spec_materialize(tree, steps), steps) == spec_materialize(tree, steps)
        }),
{
    let steps = spec_extract(folders, output, flatten, wanted).steps;
    let once = spec_materialize(tree, steps);
    let written = spec_materialize(Map::empty(), steps);
    lemma_materialize_overwrites(tree, steps);
    lemma_materialize_overwrites(once, steps);
    assert(once.union_prefer_right(written) =~= tree.union_prefer_right(written));
}

} // verus!
