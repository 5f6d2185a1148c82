//! Models: what is on disk, what could be there, and switching between them.

use vstd::prelude::*;
use vstd::string::*;

use crate::error::{AppError, ErrorView};
use crate::model::presets;
use crate::model::presets::{find, ModelPreset};
use crate::text;
use crate::text::same_text;
use crate::types;
use crate::types::{ListModelsResponse, ModelCatalog, ModelCatalogEntry, ModelInfo, ModelKind};

verus! {

/// The models on disk, the loaded one marked.
pub fn list_models(entries: &Vec<(String, u64)>, loaded: &str) -> (r: ListModelsResponse)
    ensures
        r.models@.len() == entries@.len(),
        forall|i: int|
            0 <= i < entries@.len() ==> {
                &&& (#[trigger] r.models@[i]).name@ == entries@[i].0@
                &&& r.models@[i].size_bytes == entries@[i].1
                &&& r.models@[i].loaded == (entries@[i].0@ == loaded@)
            },
{
    let mut models: Vec<ModelInfo> = Vec::new();
    let mut i: usize = 0;
    while i < entries.len()
        invariant
            i <= entries@.len(),
            models@.len() == i,
            forall|k: int|
                0 <= k < i ==> {
                    &&& (#[trigger] models@[k]).name@ == entries@[k].0@
                    &&& models@[k].size_bytes == entries@[k].1
                    &&& models@[k].loaded == (entries@[k].0@ == loaded@)
                },
        decreases entries@.len() - i,
    {
        models.push(
            ModelInfo {
                loaded: same_text(entries[i].0.as_str(), loaded),
                name: entries[i].0.clone(),
                size_bytes: entries[i].1,
            },
        );
        i = i + 1;
    }
    ListModelsResponse { models }
}

// ---------------------------------------------------------------------------
// The catalog
// ---------------------------------------------------------------------------

/// A catalog entry with its texts as characters.
pub struct CatalogView {
    pub name: Seq<char>,
    pub kind: ModelKind,
    pub repo: Seq<char>,
    pub filename: Seq<char>,
    pub context_length: u32,
    pub size_bytes: Option<u64>,
    pub min_ram_gib: Option<u32>,
    pub description: Option<Seq<char>>,
    pub present: bool,
    pub loaded: bool,
}

impl View for ModelCatalogEntry {
    type V = CatalogView;

    open spec fn view(&self) -> CatalogView {
        CatalogView {
            name: self.name@,
            kind: self.kind,
            repo: self.repo@,
            filename: self.filename@,
            context_length: self.context_length,
            size_bytes: self.size_bytes,
            min_ram_gib: self.min_ram_gib,
            description: types::optional_text(self.description),
            present: self.present,
            loaded: self.loaded,
        }
    }
}

/// The entries of a catalog.
pub open spec fn catalog_views(entries: Seq<ModelCatalogEntry>) -> Seq<CatalogView> {
    entries.map_values(|e: ModelCatalogEntry| e@)
}

/// The size of a file on disk, where it is there.
pub open spec fn size_on_disk(files: Seq<(String, u64)>, filename: Seq<char>) -> Option<u64>
    decreases files.len(),
{
    if files.len() == 0 {
        None
    } else if files.first().0@ == filename {
        Some(files.first().1)
    } else {
        size_on_disk(files.drop_first(), filename)
    }
}

/// The entry of a preset.
pub open spec fn preset_entry(
    p: ModelPreset,
    files: Seq<(String, u64)>,
    loaded: Seq<char>,
) -> CatalogView {
    CatalogView {
        name: p.name@,
        kind: ModelKind::Preset,
        repo: p.repo@,
        filename: p.filename@,
        context_length: p.context_length,
        size_bytes: size_on_disk(files, p.filename@),
        min_ram_gib: Some(p.min_ram_gib),
        description: Some(p.description@),
        present: size_on_disk(files, p.filename@) is Some,
        loaded: loaded == p.filename@,
    }
}

/// The entries of the presets.
pub open spec fn preset_entries(
    list: Seq<ModelPreset>,
    files: Seq<(String, u64)>,
    loaded: Seq<char>,
) -> Seq<CatalogView> {
    list.map_values(|p: ModelPreset| preset_entry(p, files, loaded))
}

/// The entry of a file that is no preset.
pub open spec fn local_entry(
    name: Seq<char>,
    size: u64,
    loaded: Seq<char>,
    context_length: u32,
) -> CatalogView {
    CatalogView {
        name,
        kind: ModelKind::Local,
        repo: Seq::empty(),
        filename: name,
        context_length,
        size_bytes: Some(size),
        min_ram_gib: None,
        description: None,
        present: true,
        loaded: loaded == name,
    }
}

/// Some entry is the file `filename`.
pub open spec fn lists_file(entries: Seq<CatalogView>, filename: Seq<char>) -> bool {
    exists|i: int| 0 <= i < entries.len() && (#[trigger] entries[i]).filename == filename
}

/// The entries with those files added that are not among them.
pub open spec fn with_files(
    entries: Seq<CatalogView>,
    files: Seq<(String, u64)>,
    loaded: Seq<char>,
    context_length: u32,
) -> Seq<CatalogView>
    decreases files.len(),
{
    if files.len() == 0 {
        entries
    } else {
        let (name, size) = files.first();
        let grown = if lists_file(entries, name@) {
            entries
        } else {
            entries.push(local_entry(name@, size, loaded, context_length))
        };
        with_files(grown, files.drop_first(), loaded, context_length)
    }
}

/// The catalog: the presets, then the files on disk that are none.
pub open spec fn catalog_of(
    files: Seq<(String, u64)>,
    loaded: Seq<char>,
    context_length: u32,
) -> Seq<CatalogView> {
    with_files(
        preset_entries(presets::preset_list(), files, loaded),
        files,
        loaded,
        context_length,
    )
}

/// The size of a file on disk, where it is there.
fn find_size(files: &Vec<(String, u64)>, filename: &str) -> (r: Option<u64>)
    ensures
        r == size_on_disk(files@, filename@),
{
    let mut i: usize = 0;
    assert(files@.skip(0) =~= files@);
    while i < files.len()
        invariant
            i <= files@.len(),
            size_on_disk(files@, filename@) == size_on_disk(files@.skip(i as int), filename@),
        decreases files@.len() - i,
    {
        assert(files@.skip(i as int).first() == files@[i as int]);
        assert(files@.skip(i as int).drop_first() =~= files@.skip(i + 1));
        if same_text(files[i].0.as_str(), filename) {
            return Some(files[i].1);
        }
        i = i + 1;
    }
    None
}

/// Tells whether some entry is the file `filename`.
fn has_entry(entries: &Vec<ModelCatalogEntry>, filename: &str) -> (r: bool)
    ensures
        r == lists_file(catalog_views(entries@), filename@),
{
    let ghost all = catalog_views(entries@);
    let mut i: usize = 0;
    while i < entries.len()
        invariant
            i <= entries@.len(),
            all == catalog_views(entries@),
            forall|k: int| 0 <= k < i ==> (#[trigger] all[k]).filename != filename@,
        decreases entries@.len() - i,
    {
        assert(all[i as int].filename == entries@[i as int].filename@);
        if same_text(entries[i].filename.as_str(), filename) {
            return true;
        }
        i = i + 1;
    }
    false
}

/// The merged catalog: every preset and every local file, each marked as present or
/// loaded.
pub fn catalog(files: &Vec<(String, u64)>, loaded: &str, context_length: u32) -> (r: ModelCatalog)
    ensures
        r.current@ == loaded@,
        catalog_views(r.entries@) == catalog_of(files@, loaded@, context_length),
{
    let list = presets::presets();
    let mut entries: Vec<ModelCatalogEntry> = Vec::new();
    let mut i: usize = 0;
    assert(catalog_views(entries@) =~= preset_entries(list@.take(0), files@, loaded@));
    while i < list.len()
        invariant
            i <= list@.len(),
            catalog_views(entries@) == preset_entries(list@.take(i as int), files@, loaded@),
        decreases list@.len() - i,
    {
        let p = list[i];
        let local = find_size(files, p.filename);
        let ghost before = entries@;
        entries.push(
            ModelCatalogEntry {
                name: p.name.to_owned(),
                kind: ModelKind::Preset,
                repo: p.repo.to_owned(),
                filename: p.filename.to_owned(),
                context_length: p.context_length,
                size_bytes: local,
                min_ram_gib: Some(p.min_ram_gib),
                description: Some(p.description.to_owned()),
                present: local.is_some(),
                loaded: same_text(loaded, p.filename),
            },
        );
        proof {
            assert(catalog_views(entries@) =~= catalog_views(before).push(
                preset_entry(p, files@, loaded@),
            ));
            assert(preset_entries(list@.take(i + 1), files@, loaded@) =~= preset_entries(
                list@.take(i as int),
                files@,
                loaded@,
            ).push(preset_entry(p, files@, loaded@)));
        }
        i = i + 1;
    }
    assert(list@.take(list@.len() as int) =~= list@);
    let mut k: usize = 0;
    assert(files@.skip(0) =~= files@);
    while k < files.len()
        invariant
            k <= files@.len(),
            with_files(
                catalog_views(entries@),
                files@.skip(k as int),
                loaded@,
                context_length,
            ) == catalog_of(files@, loaded@, context_length),
        decreases files@.len() - k,
    {
        let ghost before = entries@;
        proof {
            assert(files@.skip(k as int).first() == files@[k as int]);
            assert(files@.skip(k as int).drop_first() =~= files@.skip(k + 1));
        }
        if !has_entry(&entries, files[k].0.as_str()) {
            let name = files[k].0.clone();
            entries.push(
                ModelCatalogEntry {
                    name: name.clone(),
                    kind: ModelKind::Local,
                    repo: String::new(),
                    loaded: same_text(loaded, name.as_str()),
                    filename: name,
                    context_length,
                    size_bytes: Some(files[k].1),
                    min_ram_gib: None,
                    description: None,
                    present: true,
                },
            );
            proof {
                let e = local_entry(
                    files@[k as int].0@,
                    files@[k as int].1,
                    loaded@,
                    context_length,
                );
                assert(entries@.last()@.repo =~= e.repo);
                assert(catalog_views(entries@) =~= catalog_views(before).push(e));
            }
        }
        k = k + 1;
    }
    ModelCatalog { current: loaded.to_owned(), entries }
}

// ---------------------------------------------------------------------------
// Loading a model
// ---------------------------------------------------------------------------

/// A model that a name stands for.
#[derive(Debug, Clone)]
pub struct ModelTarget {
    pub name: String,
    pub kind: ModelKind,
    /// Where it is downloaded from; empty for a file that is only local.
    pub repo: String,
    pub filename: String,
    pub context_length: u32,
    pub min_ram_gib: Option<u32>,
    pub description: Option<String>,
}

/// A model with its texts as characters.
pub struct TargetView {
    pub name: Seq<char>,
    pub kind: ModelKind,
    pub repo: Seq<char>,
    pub filename: Seq<char>,
    pub context_length: u32,
    pub min_ram_gib: Option<u32>,
    pub description: Option<Seq<char>>,
}

impl View for ModelTarget {
    type V = TargetView;

    open spec fn view(&self) -> TargetView {
        TargetView {
            name: self.name@,
            kind: self.kind,
            repo: self.repo@,
            filename: self.filename@,
            context_length: self.context_length,
            min_ram_gib: self.min_ram_gib,
            description: types::optional_text(self.description),
        }
    }
}

/// A preset, under its own name.
pub open spec fn preset_target(p: ModelPreset) -> TargetView {
    TargetView {
        name: p.name@,
        kind: ModelKind::Preset,
        repo: p.repo@,
        filename: p.filename@,
        context_length: p.context_length,
        min_ram_gib: Some(p.min_ram_gib),
        description: Some(p.description@),
    }
}

/// A file that is only local.
pub open spec fn local_target(name: Seq<char>, context_length: u32) -> TargetView {
    TargetView {
        name,
        kind: ModelKind::Local,
        repo: Seq::empty(),
        filename: name,
        context_length,
        min_ram_gib: None,
        description: None,
    }
}

/// The entry of a model that is loaded.
pub open spec fn loaded_entry(t: TargetView, size_bytes: Option<u64>) -> CatalogView {
    CatalogView {
        name: t.name,
        kind: t.kind,
        repo: t.repo,
        filename: t.filename,
        context_length: t.context_length,
        size_bytes,
        min_ram_gib: t.min_ram_gib,
        description: t.description,
        present: true,
        loaded: true,
    }
}

/// What has to be done next to load a model.
#[derive(Debug)]
pub enum LoadAction {
    /// See whether a file is there.
    LookFor(String),
    /// Ask which model is loaded.
    AskCurrent,
    /// Bring a file of a repo to the disk.
    Download { repo: String, filename: String },
    /// Load a file, and put it in the place of the loaded model.
    Open { filename: String, context_length: u32 },
    /// Read the size of a file.
    Measure(String),
    /// The model is loaded.
    Answer(ModelCatalogEntry),
}

/// What came of it.
#[derive(Debug)]
pub enum LoadEvent {
    Exists(bool),
    Current(String),
    Downloaded,
    Opened,
    Measured(Option<u64>),
}

/// How far the loading of a model has come: what it waits for.
pub enum LoadStage {
    Looking,
    Asking(ModelTarget),
    Fetching(ModelTarget),
    Opening(ModelTarget),
    Measuring(ModelTarget),
    Over,
}

/// An action with its texts as characters.
pub enum LoadActionView {
    LookFor(Seq<char>),
    AskCurrent,
    Download { repo: Seq<char>, filename: Seq<char> },
    Open { filename: Seq<char>, context_length: u32 },
    Measure(Seq<char>),
    Answer(CatalogView),
}

impl View for LoadAction {
    type V = LoadActionView;

    open spec fn view(&self) -> LoadActionView {
        match *self {
            LoadAction::LookFor(f) => LoadActionView::LookFor(f@),
            LoadAction::AskCurrent => LoadActionView::AskCurrent,
            LoadAction::Download { repo, filename } => LoadActionView::Download {
                repo: repo@,
                filename: filename@,
            },
            LoadAction::Open { filename, context_length } => LoadActionView::Open {
                filename: filename@,
                context_length,
            },
            LoadAction::Measure(f) => LoadActionView::Measure(f@),
            LoadAction::Answer(e) => LoadActionView::Answer(e@),
        }
    }
}

/// A stage with its texts as characters.
pub enum LoadStageView {
    Looking,
    Asking(TargetView),
    Fetching(TargetView),
    Opening(TargetView),
    Measuring(TargetView),
    Over,
}

impl View for LoadStage {
    type V = LoadStageView;

    open spec fn view(&self) -> LoadStageView {
        match *self {
            LoadStage::Looking => LoadStageView::Looking,
            LoadStage::Asking(t) => LoadStageView::Asking(t@),
            LoadStage::Fetching(t) => LoadStageView::Fetching(t@),
            LoadStage::Opening(t) => LoadStageView::Opening(t@),
            LoadStage::Measuring(t) => LoadStageView::Measuring(t@),
            LoadStage::Over => LoadStageView::Over,
        }
    }
}

/// The loading of a model under way.
pub struct Loading {
    /// The name that was asked for.
    pub name: String,
    /// The context length of a file that is no preset.
    pub context_length: u32,
    pub stage: LoadStage,
}

/// What is said where no engine can be started.
pub const NO_ENGINE: &'static str = "model loading is not available when running with the stub backend";

/// What is said of a name that stands for no model.
pub open spec fn unknown_model(name: Seq<char>) -> Seq<char> {
    "unknown model: "@ + name + " (no matching preset and no local file)"@
}

/// Loading a model starts with the preset that goes by its name, or with a look for a
/// file of that name.
pub open spec fn load_start(name: Seq<char>) -> (LoadStageView, LoadActionView) {
    match presets::first_named(presets::preset_list(), name) {
        Some(p) => (LoadStageView::Asking(preset_target(p)), LoadActionView::AskCurrent),
        None => (LoadStageView::Looking, LoadActionView::LookFor(name)),
    }
}

/// A model is put in its place once it is on disk.
pub open spec fn open_target(t: TargetView) -> (LoadStageView, LoadActionView) {
    (
        LoadStageView::Opening(t),
        LoadActionView::Open { filename: t.filename, context_length: t.context_length },
    )
}

/// The stage and the action that follow an event.
pub open spec fn load_after(
    name: Seq<char>,
    context_length: u32,
    stage: LoadStageView,
    event: LoadEvent,
) -> Result<(LoadStageView, LoadActionView), ErrorView> {
    match (stage, event) {
        (LoadStageView::Looking, LoadEvent::Exists(found)) => if found {
            Ok(
                (
                    LoadStageView::Asking(local_target(name, context_length)),
                    LoadActionView::AskCurrent,
                ),
            )
        } else {
            Err(ErrorView::BadRequest(unknown_model(name)))
        },
        (LoadStageView::Asking(t), LoadEvent::Current(current)) => if current@ == t.filename {
            Ok((LoadStageView::Measuring(t), LoadActionView::Measure(t.filename)))
        } else if t.repo.len() > 0 {
            Ok(
                (
                    LoadStageView::Fetching(t),
                    LoadActionView::Download { repo: t.repo, filename: t.filename },
                ),
            )
        } else {
            Ok(open_target(t))
        },
        (LoadStageView::Fetching(t), LoadEvent::Downloaded) => Ok(open_target(t)),
        (LoadStageView::Opening(t), LoadEvent::Opened) => Ok(
            (LoadStageView::Measuring(t), LoadActionView::Measure(t.filename)),
        ),
        (LoadStageView::Measuring(t), LoadEvent::Measured(size)) => Ok(load_measured(t, size)),
        _ => Err(ErrorView::Internal("unexpected event"@)),
    }
}

/// The loaded model is answered with, whether its size could be read or not.
pub open spec fn load_measured(t: TargetView, size: Option<u64>) -> (LoadStageView, LoadActionView) {
    (LoadStageView::Over, LoadActionView::Answer(loaded_entry(t, size)))
}

/// The stage and the action that follow the outcome of an action. A failure ends the
/// loading with its error, except that a size which could not be read is left open.
pub open spec fn load_step(
    name: Seq<char>,
    context_length: u32,
    stage: LoadStageView,
    outcome: Result<LoadEvent, AppError>,
) -> Result<(LoadStageView, LoadActionView), ErrorView> {
    match outcome {
        Ok(event) => load_after(name, context_length, stage, event),
        Err(e) => match stage {
            LoadStageView::Measuring(t) => Ok(load_measured(t, None)),
            _ => Err(e@),
        },
    }
}

/// A preset, under its own name.
fn target_of(p: &ModelPreset) -> (t: ModelTarget)
    ensures
        t@ == preset_target(*p),
{
    ModelTarget {
        name: p.name.to_owned(),
        kind: ModelKind::Preset,
        repo: p.repo.to_owned(),
        filename: p.filename.to_owned(),
        context_length: p.context_length,
        min_ram_gib: Some(p.min_ram_gib),
        description: Some(p.description.to_owned()),
    }
}

/// Starts to load the model that a name stands for: a preset, or a file that is on
/// disk. `context_length` is that of a file that is no preset.
pub fn load_model(name: String, engine_available: bool, context_length: u32) -> (r: Result<
    (Loading, LoadAction),
    AppError,
>)
    ensures
        match r {
            Ok((loading, action)) => {
                &&& engine_available
                &&& loading.name == name
                &&& loading.context_length == context_length
                &&& (loading.stage@, action@) == load_start(name@)
            },
            Err(e) => !engine_available && e@ == ErrorView::Internal(
                "model loading is not available when running with the stub backend"@,
            ),
        },
{
    if !engine_available {
        return Err(AppError::Internal(NO_ENGINE.to_owned()));
    }
    match find(name.as_str()) {
        Some(p) => {
            let t = target_of(&p);
            Ok(
                (
                    Loading { name, context_length, stage: LoadStage::Asking(t) },
                    LoadAction::AskCurrent,
                ),
            )
        },
        None => {
            let action = LoadAction::LookFor(name.clone());
            Ok((Loading { name, context_length, stage: LoadStage::Looking }, action))
        },
    }
}

/// The first preset of a list that is the file `filename`.
pub open spec fn preset_of_file(list: Seq<ModelPreset>, filename: Seq<char>) -> Option<ModelPreset>
    decreases list.len(),
{
    if list.len() == 0 {
        None
    } else if list.first().filename@ == filename {
        Some(list.first())
    } else {
        preset_of_file(list.drop_first(), filename)
    }
}

/// The preset that is the file `filename`.
fn find_by_file(filename: &str) -> (r: Option<ModelPreset>)
    ensures
        r == preset_of_file(presets::preset_list(), filename@),
{
    let list = presets::presets();
    let mut i: usize = 0;
    assert(list@.skip(0) =~= list@);
    while i < list.len()
        invariant
            i <= list@.len(),
            list@ == presets::preset_list(),
            preset_of_file(presets::preset_list(), filename@) == preset_of_file(
                list@.skip(i as int),
                filename@,
            ),
        decreases list@.len() - i,
    {
        assert(list@.skip(i as int).first() == list@[i as int]);
        assert(list@.skip(i as int).drop_first() =~= list@.skip(i + 1));
        if same_text(list[i].filename, filename) {
            return Some(list[i]);
        }
        i = i + 1;
    }
    None
}

/// Makes sure that the model which a session prefers is loaded. `pinned` is its
/// filename, empty where the session has no preference. Nothing has to be done where
/// it is loaded already; else it is loaded as a preset or from disk.
pub fn ensure_model_loaded(
    pinned: String,
    current: &str,
    engine_available: bool,
    context_length: u32,
) -> (r: Result<Option<(Loading, LoadAction)>, AppError>)
    ensures
        match r {
            Ok(None) => pinned@.len() == 0 || pinned@ == current@,
            Ok(Some((loading, action))) => {
                &&& pinned@.len() > 0 && pinned@ != current@
                &&& engine_available
                &&& loading.name == pinned
                &&& loading.context_length == context_length
                &&& (loading.stage@, action@) == (match preset_of_file(
                    presets::preset_list(),
                    pinned@,
                ) {
                    Some(p) => (
                        LoadStageView::Asking(preset_target(p)),
                        LoadActionView::AskCurrent,
                    ),
                    None => (LoadStageView::Looking, LoadActionView::LookFor(pinned@)),
                })
            },
            Err(e) => pinned@.len() > 0 && pinned@ != current@ && !engine_available && e@
                == ErrorView::Internal(
                "model loading is not available when running with the stub backend"@,
            ),
        },
{
    if pinned.as_str().is_empty() || same_text(pinned.as_str(), current) {
        return Ok(None);
    }
    if !engine_available {
        return Err(AppError::Internal(NO_ENGINE.to_owned()));
    }
    match find_by_file(pinned.as_str()) {
        Some(p) => {
            let t = target_of(&p);
            Ok(
                Some(
                    (
                        Loading { name: pinned, context_length, stage: LoadStage::Asking(t) },
                        LoadAction::AskCurrent,
                    ),
                ),
            )
        },
        None => {
            let action = LoadAction::LookFor(pinned.clone());
            Ok(
                Some(
                    (
                        Loading { name: pinned, context_length, stage: LoadStage::Looking },
                        action,
                    ),
                ),
            )
        },
    }
}

/// The entry of a model that is loaded.
fn entry_of(t: ModelTarget, size_bytes: Option<u64>) -> (e: ModelCatalogEntry)
    ensures
        e@ == loaded_entry(t@, size_bytes),
{
    ModelCatalogEntry {
        name: t.name,
        kind: t.kind,
        repo: t.repo,
        filename: t.filename,
        context_length: t.context_length,
        size_bytes,
        min_ram_gib: t.min_ram_gib,
        description: t.description,
        present: true,
        loaded: true,
    }
}

impl Loading {
    /// Takes in what came of the last action, and says what has to be done next. A
    /// failure ends the loading with its error, except that a size which could not be read
    /// is left open.
    pub fn next(self, outcome: Result<LoadEvent, AppError>) -> (r: Result<
        (Loading, LoadAction),
        AppError,
    >)
        ensures
            match r {
                Ok((loading, action)) => {
                    &&& loading.name == self.name
                    &&& loading.context_length == self.context_length
                    &&& load_step(self.name@, self.context_length, self.stage@, outcome) == Ok::<
                        (LoadStageView, LoadActionView),
                        ErrorView,
                    >((loading.stage@, action@))
                },
                Err(e) => load_step(self.name@, self.context_length, self.stage@, outcome) == Err::<
                    (LoadStageView, LoadActionView),
                    ErrorView,
                >(e@),
            },
    {
        let name = self.name;
        let context_length = self.context_length;
        let event = match outcome {
            Err(e) => match self.stage {
                LoadStage::Measuring(t) => {
                    let action = LoadAction::Answer(entry_of(t, None));
                    return Ok((Loading { name, context_length, stage: LoadStage::Over }, action));
                },
                _ => {
                    return Err(e);
                },
            },
            Ok(event) => event,
        };
        match (self.stage, event) {
            (LoadStage::Looking, LoadEvent::Exists(found)) => {
                if found {
                    let t = ModelTarget {
                        name: name.clone(),
                        kind: ModelKind::Local,
                        repo: String::new(),
                        filename: name.clone(),
                        context_length,
                        min_ram_gib: None,
                        description: None,
                    };
                    assert(t@.repo =~= Seq::empty());
                    Ok(
                        (
                            Loading { name, context_length, stage: LoadStage::Asking(t) },
                            LoadAction::AskCurrent,
                        ),
                    )
                } else {
                    let mut why = "unknown model: ".to_owned();
                    why.append(name.as_str());
                    why.append(" (no matching preset and no local file)");
                    Err(AppError::BadRequest(why))
                }
            },
            (LoadStage::Asking(t), LoadEvent::Current(current)) => {
                if same_text(current.as_str(), t.filename.as_str()) {
                    let action = LoadAction::Measure(t.filename.clone());
                    Ok((Loading { name, context_length, stage: LoadStage::Measuring(t) }, action))
                } else if !t.repo.as_str().is_empty() {
                    let action = LoadAction::Download {
                        repo: t.repo.clone(),
                        filename: t.filename.clone(),
                    };
                    Ok((Loading { name, context_length, stage: LoadStage::Fetching(t) }, action))
                } else {
                    let action = LoadAction::Open {
                        filename: t.filename.clone(),
                        context_length: t.context_length,
                    };
                    Ok((Loading { name, context_length, stage: LoadStage::Opening(t) }, action))
                }
            },
            (LoadStage::Fetching(t), LoadEvent::Downloaded) => {
                let action = LoadAction::Open {
                    filename: t.filename.clone(),
                    context_length: t.context_length,
                };
                Ok((Loading { name, context_length, stage: LoadStage::Opening(t) }, action))
            },
            (LoadStage::Opening(t), LoadEvent::Opened) => {
                let action = LoadAction::Measure(t.filename.clone());
                Ok((Loading { name, context_length, stage: LoadStage::Measuring(t) }, action))
            },
            (LoadStage::Measuring(t), LoadEvent::Measured(size_bytes)) => {
                let action = LoadAction::Answer(entry_of(t, size_bytes));
                Ok((Loading { name, context_length, stage: LoadStage::Over }, action))
            },
            _ => Err(AppError::Internal("unexpected event".to_owned())),
        }
    }
}

// ---------------------------------------------------------------------------
// Laws
// ---------------------------------------------------------------------------

/// The stage that a loading is at after the outcomes of its actions, and all the actions
/// that it named on the way.
pub open spec fn load_replay(
    name: Seq<char>,
    context_length: u32,
    start: (LoadStageView, LoadActionView),
    outcomes: Seq<Result<LoadEvent, AppError>>,
) -> Result<(LoadStageView, Seq<LoadActionView>), ErrorView>
    decreases outcomes.len(),
{
    if outcomes.len() == 0 {
        Ok((start.0, seq![start.1]))
    } else {
        match load_replay(name, context_length, start, outcomes.drop_last()) {
            Ok((stage, log)) => match load_step(name, context_length, stage, outcomes.last()) {
                Ok((next, action)) => Ok((next, log.push(action))),
                Err(e) => Err(e),
            },
            Err(e) => Err(e),
        }
    }
}

/// A loading starts by looking for a file, or by asking what is loaded.
pub open spec fn load_starts(stage: LoadStageView) -> bool {
    stage is Looking || stage is Asking
}

/// What comes of the action of a stage: a failure, or an event that belongs to it. After
/// the answer nothing does.
pub open spec fn load_fits(stage: LoadStageView, outcome: Result<LoadEvent, AppError>) -> bool {
    match (stage, outcome) {
        (LoadStageView::Over, _) => false,
        (_, Err(_)) => true,
        (LoadStageView::Looking, Ok(event)) => event is Exists,
        (LoadStageView::Asking(_), Ok(event)) => event is Current,
        (LoadStageView::Fetching(_), Ok(event)) => event is Downloaded,
        (LoadStageView::Opening(_), Ok(event)) => event is Opened,
        (LoadStageView::Measuring(_), Ok(event)) => event is Measured,
    }
}

/// Some outcome says that a model was opened, and so took the place of the loaded one.
pub open spec fn has_opened(outcomes: Seq<Result<LoadEvent, AppError>>) -> bool {
    exists|i: int| 0 <= i < outcomes.len() && (#[trigger] outcomes[i]) == Ok::<LoadEvent, AppError>(
        LoadEvent::Opened,
    )
}

/// A loading that fails leaves the loaded model alone: the last outcome, a failure or one
/// that belongs to the action before it, makes it fail only where no model was opened.
pub proof fn law_failed_load_changes_nothing(
    name: Seq<char>,
    context_length: u32,
    start: (LoadStageView, LoadActionView),
    outcomes: Seq<Result<LoadEvent, AppError>>,
)
    requires
        load_starts(start.0),
        outcomes.len() > 0,
        load_replay(name, context_length, start, outcomes.drop_last()) matches Ok((stage, log))
            && load_fits(stage, outcomes.last()),
        load_replay(name, context_length, start, outcomes) is Err,
    ensures
        !has_opened(outcomes),
{
    let front = outcomes.drop_last();
    lemma_opened(name, context_length, start, front);
    if has_opened(outcomes) {
        let i = choose|i: int|
            0 <= i < outcomes.len() && (#[trigger] outcomes[i]) == Ok::<LoadEvent, AppError>(
                LoadEvent::Opened,
            );
        if i < front.len() {
            assert(front[i] == outcomes[i]);
        }
    }
}

/// Once a model was opened, all that is left is to read its size and to answer with it,
/// whatever comes of reading it.
pub proof fn law_opened_model_is_answered(
    name: Seq<char>,
    context_length: u32,
    start: (LoadStageView, LoadActionView),
    outcomes: Seq<Result<LoadEvent, AppError>>,
    last: Result<LoadEvent, AppError>,
)
    requires
        load_starts(start.0),
        has_opened(outcomes),
    ensures
        load_replay(name, context_length, start, outcomes) matches Ok((stage, log)) ==> {
            &&& log.len() > 0
            &&& match stage {
                LoadStageView::Measuring(t) => {
                    &&& log.last() == LoadActionView::Measure(t.filename)
                    &&& load_fits(stage, last) ==> (load_step(
                        name,
                        context_length,
                        stage,
                        last,
                    ) matches Ok((next, action)) && next is Over && action is Answer)
                },
                LoadStageView::Over => log.last() is Answer,
                _ => false,
            }
        },
{
    lemma_opened(name, context_length, start, outcomes);
}

proof fn lemma_opened(
    name: Seq<char>,
    context_length: u32,
    start: (LoadStageView, LoadActionView),
    outcomes: Seq<Result<LoadEvent, AppError>>,
)
    requires
        load_starts(start.0),
    ensures
        load_replay(name, context_length, start, outcomes) matches Ok((stage, log)) ==> {
            &&& log.len() > 0
            &&& has_opened(outcomes) ==> stage is Measuring || stage is Over
            &&& stage matches LoadStageView::Measuring(t) ==> log.last() == LoadActionView::Measure(
                t.filename,
            )
            &&& stage is Over ==> log.last() is Answer
        },
    decreases outcomes.len(),
{
    if outcomes.len() > 0 {
        let front = outcomes.drop_last();
        lemma_opened(name, context_length, start, front);
        if has_opened(outcomes) {
            let i = choose|i: int|
                0 <= i < outcomes.len() && (#[trigger] outcomes[i]) == Ok::<LoadEvent, AppError>(
                    LoadEvent::Opened,
                );
            if i < front.len() {
                assert(front[i] == outcomes[i]);
                assert(has_opened(front));
            } else {
                assert(outcomes.last() == outcomes[i]);
            }
        }
    }
}

/// A model that is loaded already is not loaded again: nothing is downloaded or
/// opened, and the answer is its entry.
pub proof fn law_loaded_model_stays(
    name: Seq<char>,
    context_length: u32,
    t: TargetView,
    current: String,
    size: Option<u64>,
)
    requires
        current@ == t.filename,
    ensures
        load_step(
            name,
            context_length,
            LoadStageView::Asking(t),
            Ok(LoadEvent::Current(current)),
        ) == Ok::<(LoadStageView, LoadActionView), ErrorView>(
            (LoadStageView::Measuring(t), LoadActionView::Measure(t.filename)),
        ),
        load_step(
            name,
            context_length,
            LoadStageView::Measuring(t),
            Ok(LoadEvent::Measured(size)),
        ) == Ok::<(LoadStageView, LoadActionView), ErrorView>(
            (LoadStageView::Over, LoadActionView::Answer(loaded_entry(t, size))),
        ),
{
}

/// The catalog starts with the presets, in their order.
pub proof fn law_presets_come_first(files: Seq<(String, u64)>, loaded: Seq<char>, context_length: u32)
    ensures
        preset_entries(presets::preset_list(), files, loaded).is_prefix_of(
            catalog_of(files, loaded, context_length),
        ),
{
    lemma_with_files(
        preset_entries(presets::preset_list(), files, loaded),
        files,
        loaded,
        context_length,
    );
}

/// Adding files keeps what is there, lists every file and adds files only.
proof fn lemma_with_files(
    entries: Seq<CatalogView>,
    files: Seq<(String, u64)>,
    loaded: Seq<char>,
    context_length: u32,
)
    ensures
        ({
            let all = with_files(entries, files, loaded, context_length);
            &&& entries.is_prefix_of(all)
            &&& forall|k: int|
                0 <= k < files.len() ==> lists_file(all, (#[trigger] files[k]).0@)
            &&& forall|i: int|
                entries.len() <= i < all.len() ==> exists|k: int|
                    0 <= k < files.len() && #[trigger] all[i] == local_entry(
                        (#[trigger] files[k]).0@,
                        files[k].1,
                        loaded,
                        context_length,
                    )
        }),
    decreases files.len(),
{
    let all = with_files(entries, files, loaded, context_length);
    if files.len() > 0 {
        let (name, size) = files.first();
        let e = local_entry(name@, size, loaded, context_length);
        let grown = if lists_file(entries, name@) {
            entries
        } else {
            entries.push(e)
        };
        let rest = files.drop_first();
        lemma_with_files(grown, rest, loaded, context_length);
        assert(entries.is_prefix_of(grown));
        assert(lists_file(grown, name@)) by {
            if !lists_file(entries, name@) {
                assert(grown[entries.len() as int].filename == name@);
            }
        }
        assert(lists_file(all, name@)) by {
            let j = choose|j: int|
                0 <= j < grown.len() && (#[trigger] grown[j]).filename == name@;
            assert(all[j] == grown[j]);
        }
        assert forall|k: int| 0 <= k < files.len() implies lists_file(
            all,
            (#[trigger] files[k]).0@,
        ) by {
            if k > 0 {
                assert(files[k] == rest[k - 1]);
            }
        }
        assert forall|i: int| entries.len() <= i < all.len() implies exists|k: int|
            0 <= k < files.len() && #[trigger] all[i] == local_entry(
                (#[trigger] files[k]).0@,
                files[k].1,
                loaded,
                context_length,
            ) by {
            if i < grown.len() {
                assert(all[i] == grown[i]);
                assert(files[0].0@ == name@);
            } else {
                let k = choose|k: int|
                    0 <= k < rest.len() && all[i] == local_entry(
                        (#[trigger] rest[k]).0@,
                        rest[k].1,
                        loaded,
                        context_length,
                    );
                assert(files[k + 1] == rest[k]);
            }
        }
    }
}

/// Every file on disk is in the catalog.
pub proof fn law_every_file_listed(
    files: Seq<(String, u64)>,
    loaded: Seq<char>,
    context_length: u32,
    k: int,
)
    requires
        0 <= k < files.len(),
    ensures
        lists_file(catalog_of(files, loaded, context_length), files[k].0@),
{
    lemma_with_files(
        preset_entries(presets::preset_list(), files, loaded),
        files,
        loaded,
        context_length,
    );
}

/// No two entries are the same file.
pub open spec fn files_distinct(entries: Seq<CatalogView>) -> bool {
    forall|i: int, j: int|
        0 <= i < j < entries.len() ==> (#[trigger] entries[i]).filename != (
        #[trigger] entries[j]).filename
}

proof fn lemma_distinct(
    entries: Seq<CatalogView>,
    files: Seq<(String, u64)>,
    loaded: Seq<char>,
    context_length: u32,
)
    requires
        files_distinct(entries),
    ensures
        files_distinct(with_files(entries, files, loaded, context_length)),
    decreases files.len(),
{
    if files.len() > 0 {
        let (name, size) = files.first();
        let e = local_entry(name@, size, loaded, context_length);
        if lists_file(entries, name@) {
            lemma_distinct(entries, files.drop_first(), loaded, context_length);
        } else {
            let grown = entries.push(e);
            assert forall|i: int, j: int| 0 <= i < j < grown.len() implies (
            #[trigger] grown[i]).filename != (#[trigger] grown[j]).filename by {
                assert(grown[i] == entries[i]);
                if j < entries.len() {
                    assert(grown[j] == entries[j]);
                }
            }
            lemma_distinct(grown, files.drop_first(), loaded, context_length);
        }
    }
}

/// No file is in the catalog twice.
pub proof fn law_no_file_twice(files: Seq<(String, u64)>, loaded: Seq<char>, context_length: u32)
    ensures
        files_distinct(catalog_of(files, loaded, context_length)),
{
    let list = presets::preset_list();
    let entries = preset_entries(list, files, loaded);
    assert forall|i: int, j: int| 0 <= i < j < entries.len() implies (
    #[trigger] entries[i]).filename != (#[trigger] entries[j]).filename by {
        presets::law_preset_files_distinct(i, j);
    }
    lemma_distinct(entries, files, loaded, context_length);
}

/// An entry is marked as loaded exactly where it is the loaded file.
pub proof fn law_loaded_entry(
    files: Seq<(String, u64)>,
    loaded: Seq<char>,
    context_length: u32,
    i: int,
)
    requires
        0 <= i < catalog_of(files, loaded, context_length).len(),
    ensures
        catalog_of(files, loaded, context_length)[i].loaded <==> catalog_of(
            files,
            loaded,
            context_length,
        )[i].filename == loaded,
{
    let entries = preset_entries(presets::preset_list(), files, loaded);
    lemma_with_files(entries, files, loaded, context_length);
    let all = catalog_of(files, loaded, context_length);
    if i < entries.len() {
        assert(all[i] == entries[i]);
    }
}

/// A filename of a model: it ends in `.gguf`.
pub open spec fn is_model_name(name: Seq<char>) -> bool {
    text::occurs_at(name, ".gguf"@, name.len() - 5)
}

/// However the name of a preset was spelled, the entry of the loaded model goes by the
/// name of the preset, and shows its file and its context length.
pub proof fn law_loaded_preset_has_its_name(name: Seq<char>, i: int, size: Option<u64>)
    requires
        0 <= i < presets::preset_list().len(),
        presets::goes_by(presets::preset_list()[i], name),
    ensures
        ({
            let p = presets::preset_list()[i];
            &&& load_start(name) == (
                LoadStageView::Asking(preset_target(p)),
                LoadActionView::AskCurrent,
            )
            &&& loaded_entry(preset_target(p), size).name == p.name@
            &&& loaded_entry(preset_target(p), size).kind == ModelKind::Preset
            &&& loaded_entry(preset_target(p), size).filename == p.filename@
            &&& loaded_entry(preset_target(p), size).context_length == p.context_length
        }),
{
    presets::law_preset_found_by_name(i, name);
}

/// The name of a catalog entry can be passed back to load the model: it stands for the
/// file that the entry shows.
pub proof fn law_catalog_names_load(
    files: Seq<(String, u64)>,
    loaded: Seq<char>,
    context_length: u32,
    i: int,
)
    requires
        0 <= i < catalog_of(files, loaded, context_length).len(),
        forall|k: int| 0 <= k < files.len() ==> is_model_name((#[trigger] files[k]).0@),
    ensures
        ({
            let e = catalog_of(files, loaded, context_length)[i];
            match e.kind {
                ModelKind::Preset => load_start(e.name).0 matches LoadStageView::Asking(t)
                    && t.name == e.name && t.filename == e.filename && t.repo == e.repo && t.context_length
                    == e.context_length,
                ModelKind::Local => load_start(e.name) == (
                    LoadStageView::Looking,
                    LoadActionView::LookFor(e.filename),
                ),
            }
        }),
{
    let list = presets::preset_list();
    let entries = preset_entries(list, files, loaded);
    lemma_with_files(entries, files, loaded, context_length);
    let all = catalog_of(files, loaded, context_length);
    let e = all[i];
    if i < entries.len() {
        assert(e == entries[i]);
        presets::law_preset_found_by_name(i, list[i].name@);
    } else {
        let k = choose|k: int|
            0 <= k < files.len() && e == local_entry(
                (#[trigger] files[k]).0@,
                files[k].1,
                loaded,
                context_length,
            );
        let name = files[k].0@;
        reveal_strlit(".gguf");
        assert(name.subrange(name.len() - 5, name.len() as int)[4] == name[name.len() - 1]);
        presets::law_model_file_is_no_preset_name(name);
    }
}

// ---------------------------------------------------------------------------
// What the catalog tells, and the course of a loading
// ---------------------------------------------------------------------------

/// Of each preset the catalog tells what the preset says of itself, in the order of the
/// presets; whether its file is on disk; and how large it is there.
pub proof fn law_catalog_tells_of_presets(
    files: Seq<(String, u64)>,
    loaded: Seq<char>,
    context_length: u32,
    i: int,
)
    requires
        0 <= i < presets::preset_list().len(),
    ensures
        catalog_of(files, loaded, context_length).len() >= presets::preset_list().len(),
        ({
            let p = presets::preset_list()[i];
            let e = catalog_of(files, loaded, context_length)[i];
            &&& e.name == p.name@
            &&& e.kind == ModelKind::Preset
            &&& e.repo == p.repo@
            &&& e.filename == p.filename@
            &&& e.context_length == p.context_length
            &&& e.min_ram_gib == Some(p.min_ram_gib)
            &&& e.description == Some(p.description@)
            &&& e.loaded == (p.filename@ == loaded)
            &&& e.present <==> exists|k: int|
                0 <= k < files.len() && (#[trigger] files[k]).0@ == p.filename@
            &&& !e.present ==> e.size_bytes is None
            &&& e.present ==> exists|k: int|
                0 <= k < files.len() && (#[trigger] files[k]).0@ == p.filename@ && e.size_bytes
                    == Some(files[k].1)
        }),
{
    let entries = preset_entries(presets::preset_list(), files, loaded);
    lemma_with_files(entries, files, loaded, context_length);
    assert(catalog_of(files, loaded, context_length)[i] == entries[i]);
    lemma_size_on_disk(files, presets::preset_list()[i].filename@);
}

proof fn lemma_size_on_disk(files: Seq<(String, u64)>, filename: Seq<char>)
    ensures
        match size_on_disk(files, filename) {
            Some(n) => exists|k: int|
                0 <= k < files.len() && (#[trigger] files[k]).0@ == filename && n == files[k].1,
            None => forall|k: int| 0 <= k < files.len() ==> (#[trigger] files[k]).0@ != filename,
        },
    decreases files.len(),
{
    if files.len() > 0 {
        let rest = files.drop_first();
        lemma_size_on_disk(rest, filename);
        assert(files.first() == files[0]);
        if files[0].0@ != filename {
            if let Some(n) = size_on_disk(rest, filename) {
                let k = choose|k: int|
                    0 <= k < rest.len() && (#[trigger] rest[k]).0@ == filename && n == rest[k].1;
                assert(files[k + 1] == rest[k]);
            } else {
                assert forall|k: int| 0 <= k < files.len() implies (
                #[trigger] files[k]).0@ != filename by {
                    if k > 0 {
                        assert(rest[k - 1] == files[k]);
                    }
                }
            }
        }
    }
}

/// Behind the presets the catalog tells of the other files on disk, in the order in which
/// they are there: each goes by its filename, comes from no repo, has the context length of
/// the configuration and its own size, and is present.
pub proof fn law_catalog_tells_of_files(
    files: Seq<(String, u64)>,
    loaded: Seq<char>,
    context_length: u32,
    i: int,
)
    requires
        presets::preset_list().len() <= i < catalog_of(files, loaded, context_length).len(),
    ensures
        ({
            let e = catalog_of(files, loaded, context_length)[i];
            &&& exists|k: int|
                0 <= k < files.len() && (#[trigger] files[k]).0@ == e.filename && e.size_bytes
                    == Some(files[k].1)
            &&& e.name == e.filename
            &&& e.kind == ModelKind::Local
            &&& e.repo == Seq::<char>::empty()
            &&& e.context_length == context_length
            &&& e.min_ram_gib is None
            &&& e.description is None
            &&& e.present
            &&& e.loaded == (e.filename == loaded)
            &&& forall|j: int|
                0 <= j < presets::preset_list().len() ==> (
                #[trigger] presets::preset_list()[j]).filename@ != e.filename
        }),
{
    let list = presets::preset_list();
    let entries = preset_entries(list, files, loaded);
    lemma_with_files(entries, files, loaded, context_length);
    law_no_file_twice(files, loaded, context_length);
    let all = catalog_of(files, loaded, context_length);
    assert forall|j: int| 0 <= j < list.len() implies (#[trigger] list[j]).filename@
        != all[i].filename by {
        assert(all[j] == entries[j]);
        assert(all[j].filename != all[i].filename);
    }
}

/// Of two entries behind the presets, the file of the first is found before the file of
/// the second.
pub proof fn law_files_keep_their_order(
    files: Seq<(String, u64)>,
    loaded: Seq<char>,
    context_length: u32,
    i: int,
    j: int,
)
    requires
        presets::preset_list().len() <= i < j < catalog_of(files, loaded, context_length).len(),
    ensures
        ({
            let all = catalog_of(files, loaded, context_length);
            exists|k: int, m: int|
                0 <= k < m < files.len() && (#[trigger] files[k]).0@ == all[i].filename && (
                #[trigger] files[m]).0@ == all[j].filename
        }),
{
    lemma_file_order(
        preset_entries(presets::preset_list(), files, loaded),
        files,
        loaded,
        context_length,
        i,
        j,
    );
}

proof fn lemma_file_order(
    entries: Seq<CatalogView>,
    files: Seq<(String, u64)>,
    loaded: Seq<char>,
    context_length: u32,
    i: int,
    j: int,
)
    requires
        entries.len() <= i < j < with_files(entries, files, loaded, context_length).len(),
    ensures
        ({
            let all = with_files(entries, files, loaded, context_length);
            exists|k: int, m: int|
                0 <= k < m < files.len() && (#[trigger] files[k]).0@ == all[i].filename && (
                #[trigger] files[m]).0@ == all[j].filename
        }),
    decreases files.len(),
{
    let all = with_files(entries, files, loaded, context_length);
    if files.len() > 0 {
        let (name, size) = files.first();
        let grown = if lists_file(entries, name@) {
            entries
        } else {
            entries.push(local_entry(name@, size, loaded, context_length))
        };
        let rest = files.drop_first();
        lemma_with_files(grown, rest, loaded, context_length);
        if i < grown.len() {
            assert(all[i] == grown[i]);
            let m = choose|m: int|
                0 <= m < rest.len() && all[j] == local_entry(
                    (#[trigger] rest[m]).0@,
                    rest[m].1,
                    loaded,
                    context_length,
                );
            assert(files[m + 1] == rest[m]);
            assert(files[0].0@ == all[i].filename);
        } else {
            lemma_file_order(grown, rest, loaded, context_length, i, j);
            let (k, m) = choose|k: int, m: int|
                0 <= k < m < rest.len() && (#[trigger] rest[k]).0@ == all[i].filename && (
                #[trigger] rest[m]).0@ == all[j].filename;
            assert(files[k + 1] == rest[k] && files[m + 1] == rest[m]);
        }
    }
}

/// One more outcome.
proof fn lemma_load_replay(
    name: Seq<char>,
    context_length: u32,
    start: (LoadStageView, LoadActionView),
    outcomes: Seq<Result<LoadEvent, AppError>>,
    last: Result<LoadEvent, AppError>,
)
    ensures
        load_replay(name, context_length, start, Seq::empty()) == Ok::<
            (LoadStageView, Seq<LoadActionView>),
            ErrorView,
        >((start.0, seq![start.1])),
        load_replay(name, context_length, start, outcomes.push(last)) == (match load_replay(
            name,
            context_length,
            start,
            outcomes,
        ) {
            Ok((stage, log)) => match load_step(name, context_length, stage, last) {
                Ok((next, action)) => Ok((next, log.push(action))),
                Err(e) => Err(e),
            },
            Err(e) => Err(e),
        }),
{
    assert(outcomes.push(last).drop_last() =~= outcomes);
    assert(outcomes.push(last).last() == last);
}

/// What was reported, as outcomes.
pub open spec fn reported(events: Seq<LoadEvent>) -> Seq<Result<LoadEvent, AppError>> {
    events.map_values(|e: LoadEvent| Ok::<LoadEvent, AppError>(e))
}

/// A loading has asked for `log` in turn, after events of which none failed.
pub open spec fn loads_by(
    name: Seq<char>,
    context_length: u32,
    start: (LoadStageView, LoadActionView),
    events: Seq<LoadEvent>,
    log: Seq<LoadActionView>,
) -> bool {
    load_replay(name, context_length, start, reported(events)) matches Ok((_, done)) && done == log
}

/// The answer with a loaded preset.
pub open spec fn answers_preset(a: LoadActionView, p: ModelPreset, size: Option<u64>) -> bool {
    a matches LoadActionView::Answer(e) && {
        &&& e.name == p.name@
        &&& e.kind == ModelKind::Preset
        &&& e.repo == p.repo@
        &&& e.filename == p.filename@
        &&& e.context_length == p.context_length
        &&& e.size_bytes == size
        &&& e.min_ram_gib == Some(p.min_ram_gib)
        &&& e.description == Some(p.description@)
        &&& e.present
        &&& e.loaded
    }
}

/// The answer with a loaded file.
pub open spec fn answers_file(
    a: LoadActionView,
    name: Seq<char>,
    context_length: u32,
    size: Option<u64>,
) -> bool {
    a matches LoadActionView::Answer(e) && {
        &&& e.name == name
        &&& e.kind == ModelKind::Local
        &&& e.repo == Seq::<char>::empty()
        &&& e.filename == name
        &&& e.context_length == context_length
        &&& e.size_bytes == size
        &&& e.min_ram_gib is None
        &&& e.description is None
        &&& e.present
        &&& e.loaded
    }
}

/// A preset that is not loaded is brought to the disk from its repo, opened with its own
/// context length, measured and answered with. One that is loaded is measured and answered
/// with, and nothing else.
pub proof fn law_preset_is_loaded(
    name: Seq<char>,
    context_length: u32,
    i: int,
    current: String,
    size: Option<u64>,
)
    requires
        0 <= i < presets::preset_list().len(),
        presets::goes_by(presets::preset_list()[i], name),
    ensures
        ({
            let p = presets::preset_list()[i];
            let start = load_start(name);
            let file = p.filename@;
            exists|answer: LoadActionView| #[trigger]
                answers_preset(answer, p, size) && if current@ == file {
                    loads_by(
                        name,
                        context_length,
                        start,
                        seq![LoadEvent::Current(current), LoadEvent::Measured(size)],
                        seq![LoadActionView::AskCurrent, LoadActionView::Measure(file), answer],
                    )
                } else {
                    loads_by(
                        name,
                        context_length,
                        start,
                        seq![
                            LoadEvent::Current(current),
                            LoadEvent::Downloaded,
                            LoadEvent::Opened,
                            LoadEvent::Measured(size),
                        ],
                        seq![
                            LoadActionView::AskCurrent,
                            LoadActionView::Download { repo: p.repo@, filename: file },
                            LoadActionView::Open {
                                filename: file,
                                context_length: p.context_length,
                            },
                            LoadActionView::Measure(file),
                            answer,
                        ],
                    )
                }
        }),
{
    let p = presets::preset_list()[i];
    let file = p.filename@;
    let start = load_start(name);
    presets::law_preset_found_by_name(i, name);
    presets::lemma_repos();
    let answer = LoadActionView::Answer(loaded_entry(preset_target(p), size));
    assert(answers_preset(answer, p, size));
    let none = Seq::<Result<LoadEvent, AppError>>::empty();
    lemma_load_replay(name, context_length, start, none, Ok(LoadEvent::Current(current)));
    let one = none.push(Ok(LoadEvent::Current(current)));
    if current@ == file {
        lemma_load_replay(name, context_length, start, one, Ok(LoadEvent::Measured(size)));
        let events = seq![LoadEvent::Current(current), LoadEvent::Measured(size)];
        assert(reported(events) =~= one.push(Ok(LoadEvent::Measured(size))));
        assert(seq![LoadActionView::AskCurrent].push(LoadActionView::Measure(file)).push(answer)
            =~= seq![LoadActionView::AskCurrent, LoadActionView::Measure(file), answer]);
        assert(loads_by(
            name,
            context_length,
            start,
            events,
            seq![LoadActionView::AskCurrent, LoadActionView::Measure(file), answer],
        ));
    } else {
        let two = one.push(Ok(LoadEvent::Downloaded));
        let three = two.push(Ok(LoadEvent::Opened));
        lemma_load_replay(name, context_length, start, one, Ok(LoadEvent::Downloaded));
        lemma_load_replay(name, context_length, start, two, Ok(LoadEvent::Opened));
        lemma_load_replay(name, context_length, start, three, Ok(LoadEvent::Measured(size)));
        let events = seq![
            LoadEvent::Current(current),
            LoadEvent::Downloaded,
            LoadEvent::Opened,
            LoadEvent::Measured(size),
        ];
        assert(reported(events) =~= three.push(Ok(LoadEvent::Measured(size))));
        let download = LoadActionView::Download { repo: p.repo@, filename: file };
        let open = LoadActionView::Open { filename: file, context_length: p.context_length };
        let log = seq![
            LoadActionView::AskCurrent,
            download,
            open,
            LoadActionView::Measure(file),
            answer,
        ];
        assert(seq![LoadActionView::AskCurrent].push(download).push(open).push(
            LoadActionView::Measure(file),
        ).push(answer) =~= log);
        assert(loads_by(name, context_length, start, events, log));
    }
}

/// A name that no preset goes by is looked for as a file. One that is there and not loaded
/// is opened with the context length of the configuration, measured and answered with, and
/// nothing is downloaded; one that is loaded is measured and answered with; and one that is
/// not there is refused.
pub proof fn law_file_is_loaded(
    name: Seq<char>,
    context_length: u32,
    current: String,
    size: Option<u64>,
)
    requires
        forall|k: int|
            0 <= k < presets::preset_list().len() ==> !presets::goes_by(
                #[trigger] presets::preset_list()[k],
                name,
            ),
    ensures
        ({
            let start = load_start(name);
            &&& load_replay(name, context_length, start, reported(seq![LoadEvent::Exists(false)]))
                == Err::<(LoadStageView, Seq<LoadActionView>), ErrorView>(
                ErrorView::BadRequest(
                    "unknown model: "@ + name + " (no matching preset and no local file)"@,
                ),
            )
            &&& exists|answer: LoadActionView| #[trigger]
                answers_file(answer, name, context_length, size) && if current@ == name {
                    loads_by(
                        name,
                        context_length,
                        start,
                        seq![
                            LoadEvent::Exists(true),
                            LoadEvent::Current(current),
                            LoadEvent::Measured(size),
                        ],
                        seq![
                            LoadActionView::LookFor(name),
                            LoadActionView::AskCurrent,
                            LoadActionView::Measure(name),
                            answer,
                        ],
                    )
                } else {
                    loads_by(
                        name,
                        context_length,
                        start,
                        seq![
                            LoadEvent::Exists(true),
                            LoadEvent::Current(current),
                            LoadEvent::Opened,
                            LoadEvent::Measured(size),
                        ],
                        seq![
                            LoadActionView::LookFor(name),
                            LoadActionView::AskCurrent,
                            LoadActionView::Open { filename: name, context_length },
                            LoadActionView::Measure(name),
                            answer,
                        ],
                    )
                }
        }),
{
    let start = load_start(name);
    presets::lemma_none_named(presets::preset_list(), name);
    let answer = LoadActionView::Answer(loaded_entry(local_target(name, context_length), size));
    assert(answers_file(answer, name, context_length, size));
    let none = Seq::<Result<LoadEvent, AppError>>::empty();
    lemma_load_replay(name, context_length, start, none, Ok(LoadEvent::Exists(false)));
    assert(reported(seq![LoadEvent::Exists(false)]) =~= none.push(Ok(LoadEvent::Exists(false))));
    lemma_load_replay(name, context_length, start, none, Ok(LoadEvent::Exists(true)));
    let one = none.push(Ok(LoadEvent::Exists(true)));
    lemma_load_replay(name, context_length, start, one, Ok(LoadEvent::Current(current)));
    let two = one.push(Ok(LoadEvent::Current(current)));
    let asked = seq![LoadActionView::LookFor(name)].push(LoadActionView::AskCurrent);
    if current@ == name {
        lemma_load_replay(name, context_length, start, two, Ok(LoadEvent::Measured(size)));
        let events = seq![
            LoadEvent::Exists(true),
            LoadEvent::Current(current),
            LoadEvent::Measured(size),
        ];
        assert(reported(events) =~= two.push(Ok(LoadEvent::Measured(size))));
        let log = seq![
            LoadActionView::LookFor(name),
            LoadActionView::AskCurrent,
            LoadActionView::Measure(name),
            answer,
        ];
        assert(asked.push(LoadActionView::Measure(name)).push(answer) =~= log);
        assert(loads_by(name, context_length, start, events, log));
    } else {
        let three = two.push(Ok(LoadEvent::Opened));
        lemma_load_replay(name, context_length, start, two, Ok(LoadEvent::Opened));
        lemma_load_replay(name, context_length, start, three, Ok(LoadEvent::Measured(size)));
        let events = seq![
            LoadEvent::Exists(true),
            LoadEvent::Current(current),
            LoadEvent::Opened,
            LoadEvent::Measured(size),
        ];
        assert(reported(events) =~= three.push(Ok(LoadEvent::Measured(size))));
        let open = LoadActionView::Open { filename: name, context_length };
        let log = seq![
            LoadActionView::LookFor(name),
            LoadActionView::AskCurrent,
            open,
            LoadActionView::Measure(name),
            answer,
        ];
        assert(asked.push(open).push(LoadActionView::Measure(name)).push(answer) =~= log);
        assert(loads_by(name, context_length, start, events, log));
    }
}

/// A failure ends a loading with its error, whatever was asked for, except that a model
/// which is in its place is answered with though its size could not be read.
pub proof fn law_failure_ends_the_loading(
    name: Seq<char>,
    context_length: u32,
    start: (LoadStageView, LoadActionView),
    outcomes: Seq<Result<LoadEvent, AppError>>,
    e: AppError,
)
    requires
        load_starts(start.0),
        start.1 !is Measure,
    ensures
        load_replay(name, context_length, start, outcomes) matches Ok((_, log)) ==> {
            let after = load_replay(name, context_length, start, outcomes.push(Err(e)));
            &&& log.len() > 0
            &&& if log.last() is Measure {
                after matches Ok((_, more)) && (more.last() matches LoadActionView::Answer(entry)
                    && entry.size_bytes is None && log.last() == LoadActionView::Measure(
                    entry.filename,
                ))
            } else {
                after == Err::<(LoadStageView, Seq<LoadActionView>), ErrorView>(e@)
            }
        },
{
    lemma_load_replay(name, context_length, start, outcomes, Err(e));
    lemma_opened(name, context_length, start, outcomes);
    lemma_measures(name, context_length, start, outcomes);
}

proof fn lemma_measures(
    name: Seq<char>,
    context_length: u32,
    start: (LoadStageView, LoadActionView),
    outcomes: Seq<Result<LoadEvent, AppError>>,
)
    requires
        load_starts(start.0),
        start.1 !is Measure,
    ensures
        load_replay(name, context_length, start, outcomes) matches Ok((stage, log)) ==> log.len()
            > 0 && (log.last() is Measure <==> stage is Measuring),
    decreases outcomes.len(),
{
    if outcomes.len() > 0 {
        lemma_measures(name, context_length, start, outcomes.drop_last());
    }
}

/// The file of a preset stands for this preset, and any other file for none.
pub proof fn law_pinned_file_is_its_preset(filename: Seq<char>, i: int)
    ensures
        0 <= i < presets::preset_list().len() ==> preset_of_file(
            presets::preset_list(),
            presets::preset_list()[i].filename@,
        ) == Some(presets::preset_list()[i]),
        (forall|k: int|
            0 <= k < presets::preset_list().len() ==> (
            #[trigger] presets::preset_list()[k]).filename@ != filename) ==> preset_of_file(
            presets::preset_list(),
            filename,
        ) is None,
{
    let list = presets::preset_list();
    lemma_preset_of_file(list, filename);
    if 0 <= i < list.len() {
        let file = list[i].filename@;
        lemma_preset_of_file(list, file);
        assert(preset_of_file(list, file) is Some);
        let k = choose|k: int|
            0 <= k < list.len() && preset_of_file(list, file) == Some(#[trigger] list[k])
                && list[k].filename@ == file;
        if k < i {
            presets::law_preset_files_distinct(k, i);
        } else if i < k {
            presets::law_preset_files_distinct(i, k);
        }
    }
}

proof fn lemma_preset_of_file(list: Seq<ModelPreset>, filename: Seq<char>)
    ensures
        match preset_of_file(list, filename) {
            Some(p) => exists|k: int|
                0 <= k < list.len() && Some(p) == Some(#[trigger] list[k]) && list[k].filename@
                    == filename,
            None => forall|k: int|
                0 <= k < list.len() ==> (#[trigger] list[k]).filename@ != filename,
        },
    decreases list.len(),
{
    if list.len() > 0 {
        let rest = list.drop_first();
        lemma_preset_of_file(rest, filename);
        assert(list.first() == list[0]);
        if list[0].filename@ != filename {
            if let Some(p) = preset_of_file(rest, filename) {
                let k = choose|k: int|
                    0 <= k < rest.len() && Some(p) == Some(#[trigger] rest[k])
                        && rest[k].filename@ == filename;
                assert(list[k + 1] == rest[k]);
            } else {
                assert forall|k: int| 0 <= k < list.len() implies (
                #[trigger] list[k]).filename@ != filename by {
                    if k > 0 {
                        assert(rest[k - 1] == list[k]);
                    }
                }
            }
        }
    }
}

} // verus!
