//! Profile and project configuration (`px_profile.yaml`, `px_project.yaml`)
//! and the project lock (`px_project.lock`) that records what each stack
//! was last built from. Reading and writing the files is the
//! application's business; the library holds the model and decides when a
//! stack is out of date.

use vstd::prelude::*;
use std::path::PathBuf;
use crate::text::{dec, push_str, push_u64, str_eq, string_from};

verus! {

pub const PROFILE_CONFIG_FILE: &'static str = "px_profile.yaml";
pub const PROJECT_CONFIG_FILE: &'static str = "px_project.yaml";
pub const LOCK_FILE: &'static str = "px_project.lock";

/// Top-level configuration stored in `px_profile.yaml` at the profile root.
#[derive(Debug, Clone)]
pub struct ProfileConfig {
    pub name: String,
    pub description: Option<String>,
    /// Filter names present in this profile (e.g. `["Ha", "OIII", "SII"]`).
    pub filters: Vec<String>,
}

impl ProfileConfig {
    pub fn new(name: String, description: Option<String>) -> (c: ProfileConfig)
        ensures
            c.name == name,
            c.description == description,
            c.filters@.len() == 0,
    {
        ProfileConfig { name, description, filters: Vec::new() }
    }
}

/// Controls whether `px project sync` is allowed to automatically update
/// this project. Set to `manual` to opt out.
#[derive(Debug, Clone, Copy, PartialEq, Eq, Structural)]
pub enum SyncPolicy {
    Auto,
    Manual,
}

impl Default for SyncPolicy {
    fn default() -> (p: SyncPolicy)
        ensures
            p == SyncPolicy::Auto,
    {
        SyncPolicy::Auto
    }
}

#[derive(Debug, Clone, Copy, PartialEq, Eq, Structural)]
pub enum SampleOutputFormat {
    Fit,
    Tiff,
    Png,
    Jpg,
}

/// Settings for the `px project sample` command, which produces color
/// composites (RGB, SHO, HOO, LRGB, etc.) from the registered per-filter
/// stacks.
#[derive(Debug, Clone)]
pub struct ColorSampleConfig {
    /// Run Photometric Color Calibration on true-color mixes before
    /// stretching.
    pub enable_pcc: bool,
    /// Output formats to write for each sample.
    pub output_formats: Vec<SampleOutputFormat>,
    /// Mix names to skip even when the filters needed for them are
    /// available, case-insensitive.
    pub exclude_mixes: Vec<String>,
}

impl ColorSampleConfig {
    /// PNG and JPEG.
    pub fn default_output_formats() -> (v: Vec<SampleOutputFormat>)
        ensures
            v@ == seq![SampleOutputFormat::Png, SampleOutputFormat::Jpg],
    {
        let mut v = Vec::new();
        v.push(SampleOutputFormat::Png);
        v.push(SampleOutputFormat::Jpg);
        v
    }
}

impl Default for ColorSampleConfig {
    fn default() -> (c: ColorSampleConfig)
        ensures
            !c.enable_pcc,
            c.output_formats@ == seq![SampleOutputFormat::Png, SampleOutputFormat::Jpg],
            c.exclude_mixes@.len() == 0,
    {
        ColorSampleConfig {
            enable_pcc: false,
            output_formats: ColorSampleConfig::default_output_formats(),
            exclude_mixes: Vec::new(),
        }
    }
}

/// One observation of a stack, by the text of its folder's path.
#[derive(Debug)]
pub struct ObservationEntry {
    pub path: String,
}

/// One linear stack of a project.
#[derive(Debug)]
pub struct ProjectLinearStack {
    /// The grouping of hardware profiles for this stack
    pub profile: PathBuf,
    /// The name that represents this linear stack; the output name.
    pub name: String,
    /// A panel identifier if the project is a mosaic
    pub panel: Option<String>,
    /// A comment for this stack if needed
    pub comments: Option<String>,
    /// The filter for this stack if needed
    pub filter: Option<String>,
    pub extract_background: bool,
    /// Observations registered with this project
    pub observations: Vec<ObservationEntry>,
}

#[derive(Debug)]
pub struct SingleFraming {
    /// Create a master light for every layer
    pub master_lights: Vec<ProjectLinearStack>,
}

#[derive(Debug)]
pub struct GridMosiacFraming {
    pub master_lights: Vec<GridMosiacMasterLight>,
}

#[derive(Debug)]
pub struct GridMosiacMasterLight {
    /// The name that represents the panel; the output name.
    pub name: String,
    /// The filter for this stack if needed
    pub filter: Option<String>,
    /// Create a master light for every layer
    pub panels: Vec<ProjectLinearStack>,
}

/// ` [<filter>]` when there is a filter.
pub open spec fn filter_text(f: Option<String>) -> Seq<char> {
    match f {
        Some(x) => " ["@ + x@ + "]"@,
        None => seq![],
    }
}

/// One layer of a single framing: its name, filter and panel.
pub open spec fn layer_line(l: ProjectLinearStack) -> Seq<char> {
    "\n  - "@ + l.name@ + filter_text(l.filter) + match l.panel {
        Some(p) => " (panel: "@ + p@ + ")"@,
        None => seq![],
    }
}

pub open spec fn layer_lines(ls: Seq<ProjectLinearStack>) -> Seq<char>
    decreases ls.len(),
{
    if ls.len() == 0 {
        seq![]
    } else {
        layer_lines(ls.drop_last()) + layer_line(ls.last())
    }
}

/// One panel of a grid mosaic: its name, filter and stack count.
pub open spec fn panel_line(m: GridMosiacMasterLight) -> Seq<char> {
    "\n  - "@ + m.name@ + filter_text(m.filter) + " ("@ + dec(m.panels@.len()) + " stacks)"@
}

pub open spec fn panel_lines(ms: Seq<GridMosiacMasterLight>) -> Seq<char>
    decreases ms.len(),
{
    if ms.len() == 0 {
        seq![]
    } else {
        panel_lines(ms.drop_last()) + panel_line(ms.last())
    }
}

fn push_filter(s: &mut String, f: &Option<String>)
    ensures
        final(s)@ == old(s)@ + filter_text(*f),
{
    match f {
        Some(x) => {
            push_str(s, " [");
            push_str(s, x.as_str());
            push_str(s, "]");
            assert(final(s)@ =~= old(s)@ + filter_text(*f));
        },
        None => {
            assert(final(s)@ =~= old(s)@ + filter_text(*f));
        },
    }
}

impl SingleFraming {
    /// `Single (<n> layers)`, then a line per layer with its filter and
    /// panel when it has them.
    pub fn display_text(&self) -> (s: String)
        ensures
            s@ == "Single ("@ + dec(self.master_lights@.len()) + " layers)"@ + layer_lines(self.master_lights@),
    {
        let mut s = string_from("Single (");
        push_u64(&mut s, self.master_lights.len() as u64);
        push_str(&mut s, " layers)");
        let ghost head = s@;
        let mut i: usize = 0;
        while i < self.master_lights.len()
            invariant
                i <= self.master_lights@.len(),
                s@ == head + layer_lines(self.master_lights@.subrange(0, i as int)),
            decreases self.master_lights.len() - i,
        {
            let l = &self.master_lights[i];
            let ghost before = s@;
            push_str(&mut s, "\n  - ");
            push_str(&mut s, l.name.as_str());
            push_filter(&mut s, &l.filter);
            match &l.panel {
                Some(p) => {
                    push_str(&mut s, " (panel: ");
                    push_str(&mut s, p.as_str());
                    push_str(&mut s, ")");
                },
                None => {},
            }
            assert(s@ =~= before + layer_line(*l));
            assert(self.master_lights@.subrange(0, i + 1).drop_last() =~= self.master_lights@.subrange(0, i as int));
            i = i + 1;
        }
        assert(self.master_lights@.subrange(0, self.master_lights@.len() as int) =~= self.master_lights@);
        s
    }
}

impl GridMosiacFraming {
    /// `Grid Mosaic (<n> panels)`, then a line per panel with its filter
    /// and stack count.
    pub fn display_text(&self) -> (s: String)
        ensures
            s@ == "Grid Mosaic ("@ + dec(self.master_lights@.len()) + " panels)"@ + panel_lines(self.master_lights@),
    {
        let mut s = string_from("Grid Mosaic (");
        push_u64(&mut s, self.master_lights.len() as u64);
        push_str(&mut s, " panels)");
        let ghost head = s@;
        let mut i: usize = 0;
        while i < self.master_lights.len()
            invariant
                i <= self.master_lights@.len(),
                s@ == head + panel_lines(self.master_lights@.subrange(0, i as int)),
            decreases self.master_lights.len() - i,
        {
            let m = &self.master_lights[i];
            let ghost before = s@;
            push_str(&mut s, "\n  - ");
            push_str(&mut s, m.name.as_str());
            push_filter(&mut s, &m.filter);
            push_str(&mut s, " (");
            push_u64(&mut s, m.panels.len() as u64);
            push_str(&mut s, " stacks)");
            assert(s@ =~= before + panel_line(*m));
            assert(self.master_lights@.subrange(0, i + 1).drop_last() =~= self.master_lights@.subrange(0, i as int));
            i = i + 1;
        }
        assert(self.master_lights@.subrange(0, self.master_lights@.len() as int) =~= self.master_lights@);
        s
    }
}

// ---------------------------------------------------------------------------
// The project lock
// ---------------------------------------------------------------------------

#[derive(Debug)]
pub struct ProjectLock {
    pub schema_version: u32,
    pub framing: FramingLock,
}

#[derive(Debug)]
pub enum FramingLock {
    Single(SingleFramingLock),
    SpiralMosiac(SpiralMosiacLock),
    GridMosiac(GridMosiacLock),
}

/// Lock state for a `SingleFraming` project — one entry per linear stack.
#[derive(Debug)]
pub struct SingleFramingLock {
    pub master_lights: Vec<LayerLock>,
}

/// Lock entry for a single linear stack layer (used in `Single` framing).
/// `registered_master_light` is always set: for multi-layer projects it
/// points to the registered peer; for single-layer projects it mirrors
/// `master_light`.
#[derive(Debug)]
pub struct LayerLock {
    pub name: String,
    pub input_hash: String,
    pub master_light: Option<PathBuf>,
    pub registered_master_light: Option<PathBuf>,
    pub stacked_at: Option<String>,
}

/// Lock state for a `SpiralMosiac` framing — single flat entry.
#[derive(Debug)]
pub struct SpiralMosiacLock {
    pub name: String,
    pub input_hash: String,
    pub master_light: Option<PathBuf>,
    pub stacked_at: Option<String>,
}

/// Lock state for a `GridMosiac` framing.
#[derive(Debug)]
pub struct GridMosiacLock {
    pub master_lights: Vec<GridLayerLock>,
}

/// Lock entry for one grid layer: `master_light` is the stitched panels;
/// `registered_master_light` mirrors it when there is only one layer.
#[derive(Debug)]
pub struct GridLayerLock {
    pub name: String,
    pub panels: Vec<PanelLock>,
    pub master_light: Option<PathBuf>,
    pub registered_master_light: Option<PathBuf>,
    pub stacked_at: Option<String>,
}

/// Lock entry for a panel (a linear stack) inside a grid layer.
#[derive(Debug)]
pub struct PanelLock {
    pub name: String,
    pub input_hash: String,
    pub master_light: Option<PathBuf>,
    pub stacked_at: Option<String>,
}

/// Whether `p` names an existing file (std `Path::exists`). What it
/// returns depends on the file system at the moment of the call, so
/// nothing is stated of it.
#[verifier::external_body]
fn path_exists(p: &PathBuf) -> (b: bool) {
    p.exists()
}

/// Whether an output must be made again: none is recorded, or the file
/// recorded is not on disk (`on_disk`: what a look at the file system
/// found for it).
pub fn output_stale(output: &Option<PathBuf>, on_disk: bool) -> (b: bool)
    ensures
        b == (output is None || !on_disk),
{
    match output {
        Some(_) => !on_disk,
        None => true,
    }
}

/// Whether a stack must be run again: its inputs' hash changed, no output
/// is recorded, or the recorded output is not on disk (`on_disk`: what a
/// look at the file system found for it).
pub fn dirty_given(input_hash: &str, hash: &str, output: &Option<PathBuf>, on_disk: bool) -> (b: bool)
    ensures
        b == (input_hash@ != hash@ || output is None || !on_disk),
{
    !str_eq(input_hash, hash) || output_stale(output, on_disk)
}

/// Whether the file recorded as `output` is on disk now; `false` when none
/// is recorded. The file system decides, so nothing more is stated.
fn recorded_on_disk(output: &Option<PathBuf>) -> (b: bool)
    ensures
        output is None ==> !b,
{
    match output {
        Some(p) => path_exists(p),
        None => false,
    }
}

/// Whether an output at `output` is missing: absent from the lock, or no
/// longer on disk.
fn output_missing(output: &Option<PathBuf>) -> (b: bool)
    ensures
        output is None ==> b,
{
    let on_disk = recorded_on_disk(output);
    output_stale(output, on_disk)
}

impl LayerLock {
    /// True when the layer must be re-stacked: hash changed or output file
    /// missing. When the hash matches and an output is recorded, the answer
    /// is whether that file exists on disk at the moment of the call (see
    /// [`dirty_given`]).
    pub fn is_dirty(&self, hash: &str) -> (b: bool)
        ensures
            self.input_hash@ != hash@ ==> b,
            self.master_light is None ==> b,
    {
        let on_disk = if str_eq(self.input_hash.as_str(), hash) { recorded_on_disk(&self.master_light) } else { false };
        dirty_given(self.input_hash.as_str(), hash, &self.master_light, on_disk)
    }

    /// True when the registered peer is absent or the file no longer exists.
    pub fn is_registration_dirty(&self) -> (b: bool)
        ensures
            self.registered_master_light is None ==> b,
    {
        output_missing(&self.registered_master_light)
    }
}

impl SpiralMosiacLock {
    /// True when the spiral stack must be re-run: hash changed or output
    /// file missing.
    pub fn is_dirty(&self, hash: &str) -> (b: bool)
        ensures
            self.input_hash@ != hash@ ==> b,
            self.master_light is None ==> b,
    {
        let on_disk = if str_eq(self.input_hash.as_str(), hash) { recorded_on_disk(&self.master_light) } else { false };
        dirty_given(self.input_hash.as_str(), hash, &self.master_light, on_disk)
    }
}

impl PanelLock {
    /// True when this panel must be re-stacked: hash changed or output file
    /// missing.
    pub fn is_dirty(&self, hash: &str) -> (b: bool)
        ensures
            self.input_hash@ != hash@ ==> b,
            self.master_light is None ==> b,
    {
        let on_disk = if str_eq(self.input_hash.as_str(), hash) { recorded_on_disk(&self.master_light) } else { false };
        dirty_given(self.input_hash.as_str(), hash, &self.master_light, on_disk)
    }
}

/// Index of the first entry of `names` equal to `name`.
pub open spec fn first_named(names: Seq<Seq<char>>, name: Seq<char>, i: int) -> Option<int>
    decreases names.len() - i,
{
    if i < 0 || i >= names.len() {
        None
    } else if names[i] == name {
        Some(i)
    } else {
        first_named(names, name, i + 1)
    }
}

pub open spec fn layer_names(v: Seq<LayerLock>) -> Seq<Seq<char>> {
    v.map_values(|l: LayerLock| l.name@)
}

pub open spec fn grid_layer_names(v: Seq<GridLayerLock>) -> Seq<Seq<char>> {
    v.map_values(|l: GridLayerLock| l.name@)
}

pub open spec fn panel_names(v: Seq<PanelLock>) -> Seq<Seq<char>> {
    v.map_values(|l: PanelLock| l.name@)
}

impl SingleFramingLock {
    /// The first layer named `name`.
    pub fn find_layer(&self, name: &str) -> (r: Option<&LayerLock>)
        ensures
            match first_named(layer_names(self.master_lights@), name@, 0) {
                Some(i) => r == Some(&self.master_lights@[i]),
                None => r is None,
            },
    {
        let ghost names = layer_names(self.master_lights@);
        let mut i: usize = 0;
        while i < self.master_lights.len()
            invariant
                i <= self.master_lights@.len(),
                names == layer_names(self.master_lights@),
                first_named(names, name@, 0) == first_named(names, name@, i as int),
            decreases self.master_lights.len() - i,
        {
            assert(names[i as int] == self.master_lights@[i as int].name@);
            if str_eq(self.master_lights[i].name.as_str(), name) {
                return Some(&self.master_lights[i]);
            }
            i = i + 1;
        }
        None
    }
}

impl GridLayerLock {
    /// The first panel named `name`.
    pub fn find_panel(&self, name: &str) -> (r: Option<&PanelLock>)
        ensures
            match first_named(panel_names(self.panels@), name@, 0) {
                Some(i) => r == Some(&self.panels@[i]),
                None => r is None,
            },
    {
        let ghost names = panel_names(self.panels@);
        let mut i: usize = 0;
        while i < self.panels.len()
            invariant
                i <= self.panels@.len(),
                names == panel_names(self.panels@),
                first_named(names, name@, 0) == first_named(names, name@, i as int),
            decreases self.panels.len() - i,
        {
            assert(names[i as int] == self.panels@[i as int].name@);
            if str_eq(self.panels[i].name.as_str(), name) {
                return Some(&self.panels[i]);
            }
            i = i + 1;
        }
        None
    }

    /// True when the grid-stitched master light must be re-run: no output
    /// recorded, or the recorded file no longer exists.
    pub fn is_grid_dirty(&self) -> (b: bool)
        ensures
            self.master_light is None ==> b,
    {
        output_missing(&self.master_light)
    }

    /// True when the registered peer is absent or missing on disk.
    pub fn is_registration_dirty(&self) -> (b: bool)
        ensures
            self.registered_master_light is None ==> b,
    {
        output_missing(&self.registered_master_light)
    }
}

impl GridMosiacLock {
    /// The first layer named `name`.
    pub fn find_layer(&self, name: &str) -> (r: Option<&GridLayerLock>)
        ensures
            match first_named(grid_layer_names(self.master_lights@), name@, 0) {
                Some(i) => r == Some(&self.master_lights@[i]),
                None => r is None,
            },
    {
        let ghost names = grid_layer_names(self.master_lights@);
        let mut i: usize = 0;
        while i < self.master_lights.len()
            invariant
                i <= self.master_lights@.len(),
                names == grid_layer_names(self.master_lights@),
                first_named(names, name@, 0) == first_named(names, name@, i as int),
            decreases self.master_lights.len() - i,
        {
            assert(names[i as int] == self.master_lights@[i as int].name@);
            if str_eq(self.master_lights[i].name.as_str(), name) {
                return Some(&self.master_lights[i]);
            }
            i = i + 1;
        }
        None
    }
}

} // verus!
