//! Settings of the reverse Game of Life solver.

use crate::paths::resolve_workspace_path;
use crate::paths;
use vstd::prelude::*;

verus! {

/// All settings.
#[derive(Debug, Clone)]
pub struct Settings {
    pub simulation: SimulationConfig,
    pub solver: SolverConfig,
    pub input: InputConfig,
    pub output: OutputConfig,
    pub encoding: EncodingConfig,
}

/// What is simulated.
#[derive(Debug, Clone)]
pub struct SimulationConfig {
    pub generations: usize,
    pub boundary_condition: BoundaryCondition,
}

/// What lies beyond the edge of a grid.
#[derive(Debug, Clone, Copy, PartialEq, Eq, Structural)]
pub enum BoundaryCondition {
    Dead,
    Wrap,
    Mirror,
}

/// How the solver runs.
#[derive(Debug, Clone)]
pub struct SolverConfig {
    pub max_solutions: usize,
    pub timeout_seconds: u64,
    pub num_threads: Option<usize>,
    pub enable_preprocessing: bool,
    pub verbosity: u32,
    pub backend: SolverBackend,
}

/// Which solver runs.
#[derive(Debug, Clone, Copy, PartialEq, Eq, Structural)]
pub enum SolverBackend {
    Cadical,
    Parkissat,
}

/// What is read.
#[derive(Debug, Clone)]
pub struct InputConfig {
    pub target_state_file: String,
}

/// What is written.
#[derive(Debug, Clone)]
pub struct OutputConfig {
    pub format: OutputFormat,
    pub save_intermediate: bool,
    pub output_directory: String,
}

/// In which form results are written.
#[derive(Debug, Clone, Copy, PartialEq, Eq, Structural)]
pub enum OutputFormat {
    Text,
    Json,
    Visual,
}

/// How the search is encoded.
#[derive(Debug, Clone)]
pub struct EncodingConfig {
    pub symmetry_breaking: bool,
}

/// Values from the command line that take the place of settings.
#[derive(Debug)]
pub struct CliOverrides {
    pub generations: Option<usize>,
    pub max_solutions: Option<usize>,
    pub target_file: Option<String>,
    pub output_dir: Option<String>,
}

impl Default for CliOverrides {
    fn default() -> (overrides: Self)
        ensures
            overrides.generations is None,
            overrides.max_solutions is None,
            overrides.target_file is None,
            overrides.output_dir is None,
    {
        Self { generations: None, max_solutions: None, target_file: None, output_dir: None }
    }
}

/// What is wrong with settings.
#[derive(Debug)]
pub enum SettingsError {
    NoGenerations,
    NoSolutions,
    MissingTargetState { path: String },
}

impl SettingsError {
    /// The message of the error.
    pub open spec fn message(&self) -> Seq<char> {
        match *self {
            SettingsError::NoGenerations => "Number of generations must be positive"@,
            SettingsError::NoSolutions => "Maximum solutions must be positive"@,
            SettingsError::MissingTargetState { path } => "Target state file does not exist: "@ + path@,
        }
    }

    /// The message of the error.
    pub fn to_string(&self) -> (message: String)
        ensures
            message@ == self.message(),
    {
        match self {
            SettingsError::NoGenerations => "Number of generations must be positive".to_owned(),
            SettingsError::NoSolutions => "Maximum solutions must be positive".to_owned(),
            SettingsError::MissingTargetState { path } => {
                let mut out: String = "Target state file does not exist: ".to_owned();
                out.append(path.as_str());
                out
            },
        }
    }
}

impl Default for Settings {
    fn default() -> (settings: Self)
        ensures
            settings.simulation.generations == 5,
            settings.simulation.boundary_condition == BoundaryCondition::Dead,
            settings.solver.max_solutions == 10,
            settings.solver.timeout_seconds == 300,
            settings.solver.num_threads is None,
            settings.solver.enable_preprocessing,
            settings.solver.verbosity == 0,
            settings.solver.backend == SolverBackend::Parkissat,
            settings.input.target_state_file@ == "input/target_states/example.txt"@,
            settings.output.format == OutputFormat::Text,
            !settings.output.save_intermediate,
            settings.output.output_directory@ == "output/solutions"@,
            !settings.encoding.symmetry_breaking,
    {
        Self {
            simulation: SimulationConfig { generations: 5, boundary_condition: BoundaryCondition::Dead },
            solver: SolverConfig {
                max_solutions: 10,
                timeout_seconds: 300,
                num_threads: None,
                enable_preprocessing: true,
                verbosity: 0,
                backend: SolverBackend::Parkissat,
            },
            input: InputConfig { target_state_file: "input/target_states/example.txt".to_owned() },
            output: OutputConfig {
                format: OutputFormat::Text,
                save_intermediate: false,
                output_directory: "output/solutions".to_owned(),
            },
            encoding: EncodingConfig { symmetry_breaking: false },
        }
    }
}

impl Settings {
    /// The file that holds the target state, in the workspace with the given root.
    pub fn target_state_path(&self, root: &str) -> (path: String)
        ensures
            path@ == paths::resolved(root@, self.input.target_state_file@),
    {
        resolve_workspace_path(root, self.input.target_state_file.as_str())
    }

    /// Checks the settings. Whether the file at `target_state_path` exists is for the
    /// caller to say.
    pub fn validate(&self, root: &str, target_state_exists: bool) -> (result: Result<(), SettingsError>)
        ensures
            result is Ok <==> self.simulation.generations > 0 && self.solver.max_solutions > 0
                && target_state_exists,
            result matches Err(error) ==> {
                if self.simulation.generations == 0 {
                    error is NoGenerations
                } else if self.solver.max_solutions == 0 {
                    error is NoSolutions
                } else {
                    error matches SettingsError::MissingTargetState { path } && path@ == paths::resolved(
                        root@,
                        self.input.target_state_file@,
                    )
                }
            },
    {
        if self.simulation.generations == 0 {
            return Err(SettingsError::NoGenerations);
        }
        if self.solver.max_solutions == 0 {
            return Err(SettingsError::NoSolutions);
        }
        if !target_state_exists {
            return Err(SettingsError::MissingTargetState { path: self.target_state_path(root) });
        }
        Ok(())
    }

    /// Resolves the paths against the root of the workspace.
    pub fn normalize_paths(&mut self, root: &str)
        ensures
            final(self).input.target_state_file@ == paths::resolved(root@, old(self).input.target_state_file@),
            final(self).output.output_directory@ == paths::resolved(root@, old(self).output.output_directory@),
            final(self).output.format == old(self).output.format,
            final(self).output.save_intermediate == old(self).output.save_intermediate,
            final(self).simulation == old(self).simulation,
            final(self).solver == old(self).solver,
            final(self).encoding == old(self).encoding,
    {
        self.input.target_state_file = resolve_workspace_path(root, self.input.target_state_file.as_str());
        self.output.output_directory = resolve_workspace_path(root, self.output.output_directory.as_str());
    }

    /// Puts the given values in the place of those that the settings have.
    pub fn merge_with_cli(&mut self, cli_overrides: &CliOverrides)
        ensures
            final(self).simulation.generations == (match cli_overrides.generations {
                Some(generations) => generations,
                None => old(self).simulation.generations,
            }),
            final(self).solver.max_solutions == (match cli_overrides.max_solutions {
                Some(max_solutions) => max_solutions,
                None => old(self).solver.max_solutions,
            }),
            final(self).input.target_state_file@ == (match cli_overrides.target_file {
                Some(path) => path@,
                None => old(self).input.target_state_file@,
            }),
            final(self).output.output_directory@ == (match cli_overrides.output_dir {
                Some(path) => path@,
                None => old(self).output.output_directory@,
            }),
            final(self).simulation.boundary_condition == old(self).simulation.boundary_condition,
            final(self).solver.timeout_seconds == old(self).solver.timeout_seconds,
            final(self).solver.num_threads == old(self).solver.num_threads,
            final(self).solver.enable_preprocessing == old(self).solver.enable_preprocessing,
            final(self).solver.verbosity == old(self).solver.verbosity,
            final(self).solver.backend == old(self).solver.backend,
            final(self).output.format == old(self).output.format,
            final(self).output.save_intermediate == old(self).output.save_intermediate,
            final(self).encoding == old(self).encoding,
    {
        if let Some(generations) = cli_overrides.generations {
            self.simulation.generations = generations;
        }
        if let Some(max_solutions) = cli_overrides.max_solutions {
            self.solver.max_solutions = max_solutions;
        }
        if let Some(path) = &cli_overrides.target_file {
            self.input.target_state_file = path.clone();
        }
        if let Some(path) = &cli_overrides.output_dir {
            self.output.output_directory = path.clone();
        }
    }
}

} // verus!
