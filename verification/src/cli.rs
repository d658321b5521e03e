//! The command-line model of the `px` application: which command was
//! asked for and what it was given. Parsing the command line itself is the
//! application's business; the library decides what each command needs.

use vstd::prelude::*;
use std::path::PathBuf;

verus! {

/// A file-system path, carried through as given.
#[verifier::external_type_specification]
#[verifier::external_body]
pub struct ExPathBuf(PathBuf);

#[derive(Debug, Clone, Copy, PartialEq, Eq, Structural)]
pub enum CalibrationImageType {
    Bias,
    Flat,
    Dark,
}

#[derive(Debug, Clone, Copy, PartialEq, Eq, Structural)]
pub enum FitFileExtension {
    Fit,
    Fits,
    Fts,
}

#[derive(Debug, Clone, Copy, PartialEq, Eq, Structural)]
pub enum VersionFormat {
    /// Display the version as plain text.
    Text,
    /// Display the version as JSON.
    Json,
}

#[derive(Debug, Clone, Copy, PartialEq, Eq, Structural)]
pub enum OutputFormat {
    /// Display output in default format (stdout or terminal UI)
    Pretty,
    /// Display output in json format to stdout
    Json,
}

#[derive(Debug, Clone, Copy, PartialEq, Eq, Structural)]
pub enum LogFormat {
    Pretty,
    Json,
}

#[derive(Debug, Clone, Copy, PartialEq, Eq, Structural)]
pub enum FramingType {
    /// Single target; all linear stacks register to minimum framing
    Single,
    /// Spiral mosaic (e.g. Seestar); uses maximum framing
    SpiralMosiac,
    /// Grid (X×Y panel) mosaic; uses maximum framing
    GridMosiac,
}

/// Options every command accepts.
#[derive(Debug)]
pub struct GlobalArgs {
    /// Log format
    pub log_format: LogFormat,
    /// Increase log verbosity (-v = info, -vv = debug, -vvv = trace)
    pub verbose: u8,
    /// Discover a profile in the given directory.
    pub profile: Option<PathBuf>,
}

/// The top-level options.
#[derive(Debug)]
pub struct TopLevelArgs {
    pub global_args: GlobalArgs,
    /// Display the concise help for this command.
    pub help: Option<bool>,
    /// Display the version.
    pub version: Option<bool>,
}

#[derive(Debug)]
pub struct ProfileNamespace {
    pub command: ProfileCommand,
}

#[derive(Debug)]
pub enum ProfileCommand {
    /// show details on a profile (current or specified)
    Info(ShowProfileArgs),
    /// make a new profile (dir, layout, config, etc)
    Init(InitProfileArgs),
    /// scan for changes in current or specified profile
    Scan(ScanProfileArgs),
}

#[derive(Debug)]
pub struct ShowProfileArgs {}

#[derive(Debug)]
pub struct InitProfileArgs {
    /// The path to use for the profile (created if it does not exist)
    pub path: PathBuf,
}

#[derive(Debug)]
pub struct ScanProfileArgs {}

#[derive(Debug)]
pub struct SelfNamespace {
    pub command: SelfCommand,
}

#[derive(Debug)]
pub enum SelfCommand {
    /// Update px.
    Update(SelfUpdateArgs),
    /// Display px's version
    Version {
        /// Only print the version
        short: bool,
        output_format: VersionFormat,
    },
}

#[derive(Debug)]
pub struct SelfUpdateArgs {
    /// Update to the specified version; the latest when absent.
    pub target_version: Option<String>,
    /// A GitHub token for authentication.
    pub token: Option<String>,
    /// Run without performing the update.
    pub dry_run: bool,
}

#[derive(Debug)]
pub struct InspectArgs {
    /// Fits file to inspect
    pub file: PathBuf,
    /// Output format to display
    pub output: OutputFormat,
}

#[derive(Debug)]
pub struct MasterNamespace {
    pub command: MasterCommand,
}

#[derive(Debug)]
pub enum MasterCommand {
    /// find best master <type> based on query
    Best(FindBestMasterArgs),
    /// show all the master for a profile
    List(ListMasterArgs),
    /// create a new master bias for profile
    Bias(CreateBiasMasterArgs),
    /// create a new master dark for profile
    Dark(CreateDarkMasterArgs),
    /// create a new master flat for profile
    Flat(CreateFlatMasterArgs),
}

#[derive(Debug)]
pub struct FindBestMasterArgs {
    /// Image type to look for
    pub image_type: CalibrationImageType,
}

#[derive(Debug)]
pub struct ListMasterArgs {
    /// Image types to display (default: none, all)
    pub image_type: Vec<CalibrationImageType>,
    /// Output format to display
    pub output: OutputFormat,
}

#[derive(Debug)]
pub struct CreateBiasMasterArgs {
    /// Path to the raw folder of bias frames
    pub raw_folder: PathBuf,
    /// Output file extension
    pub ext: Option<FitFileExtension>,
    /// Output location for the new master bias
    pub out_folder: Option<PathBuf>,
}

#[derive(Debug)]
pub struct CreateDarkMasterArgs {
    /// Path to the raw folder of dark frames
    pub raw_folder: PathBuf,
    /// Output file extension
    pub ext: Option<FitFileExtension>,
    /// Output location for the new master dark
    pub out_folder: Option<PathBuf>,
}

#[derive(Debug)]
pub struct CreateFlatMasterArgs {
    /// Path to the raw folder of flat frames
    pub raw_folder: PathBuf,
    /// Output file extension
    pub ext: Option<FitFileExtension>,
    /// Output location for the new master flat
    pub out_folder: Option<PathBuf>,
    /// Location of the master BIAS (auto-selected from index when omitted)
    pub bias: Option<PathBuf>,
    /// The name of the filter for the master flat
    pub filter: String,
}

#[derive(Debug)]
pub struct ListObservationArgs {}

#[derive(Debug)]
pub struct CalibrateObservationArgs {
    /// Path to the raw folder of light frames
    pub raw_folder: PathBuf,
    /// Clean or remove the match calibrated folder from a previous run
    pub clean: bool,
    /// Output file extension
    pub ext: Option<FitFileExtension>,
    /// Output location for the calibrated folder (default: peer to input)
    pub out_folder: Option<PathBuf>,
    /// Specify a filter for the observation if unable to find
    pub filter: Option<String>,
    /// Location of the master BIAS
    pub bias: Option<PathBuf>,
    /// Location of the master DARK
    pub dark: Option<PathBuf>,
    /// Location of the master FLAT
    pub flat: Option<PathBuf>,
}

#[derive(Debug)]
pub struct ListProjectArgs {}

#[derive(Debug)]
pub struct StackProjectArgs {
    /// The path to the project; defaults to searching the current directory and its parents
    pub project: Option<PathBuf>,
    /// Clean or remove the outputs from a previous run
    pub clean: bool,
}

#[derive(Debug)]
pub struct SampleProjectArgs {
    /// The path to the project; defaults to searching the current directory and its parents
    pub project: Option<PathBuf>,
}

/// Which command was asked for, down to the subcommand.
#[derive(Debug, Clone, Copy, PartialEq, Eq, Structural)]
pub enum CommandKind {
    GenerateShellCompletion,
    SelfUpdate,
    SelfVersion,
    SirilTest,
    Tui,
    ProfileInfo,
    ProfileInit,
    ProfileScan,
    Inspect,
    MasterBest,
    MasterList,
    MasterBias,
    MasterDark,
    MasterFlat,
    ObservationList,
    ObservationCalibrate,
    ObservationPreview,
    ProjectInit,
    ProjectList,
    ProjectStack,
    ProjectSample,
}

impl CommandKind {
    /// Only commands that actually invoke Siril: the Siril self-test, the
    /// three master-creating commands, observation calibration, and project
    /// stacking and sampling.
    pub fn requires_siril(&self) -> (b: bool)
        ensures
            b <==> (*self == CommandKind::SirilTest || *self == CommandKind::MasterBias
                || *self == CommandKind::MasterDark || *self == CommandKind::MasterFlat
                || *self == CommandKind::ObservationCalibrate || *self == CommandKind::ProjectStack
                || *self == CommandKind::ProjectSample),
    {
        match self {
            CommandKind::SirilTest | CommandKind::MasterBias | CommandKind::MasterDark | CommandKind::MasterFlat
            | CommandKind::ObservationCalibrate | CommandKind::ProjectStack | CommandKind::ProjectSample => true,
            _ => false,
        }
    }

    /// Every command needs a profile except shell completion, the `self`
    /// commands, the Siril self-test, the TUI, `inspect`, `profile init`,
    /// listing and previewing observations, and listing projects.
    pub fn requires_profile(&self) -> (b: bool)
        ensures
            !b <==> (*self == CommandKind::GenerateShellCompletion || *self == CommandKind::SelfUpdate
                || *self == CommandKind::SelfVersion || *self == CommandKind::SirilTest || *self == CommandKind::Tui
                || *self == CommandKind::Inspect || *self == CommandKind::ProfileInit
                || *self == CommandKind::ObservationList || *self == CommandKind::ObservationPreview
                || *self == CommandKind::ProjectList),
    {
        match self {
            CommandKind::GenerateShellCompletion | CommandKind::SelfUpdate | CommandKind::SelfVersion
            | CommandKind::SirilTest | CommandKind::Tui | CommandKind::Inspect | CommandKind::ProfileInit
            | CommandKind::ObservationList | CommandKind::ObservationPreview | CommandKind::ProjectList => false,
            _ => true,
        }
    }
}

} // verus!
