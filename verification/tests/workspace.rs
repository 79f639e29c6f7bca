use rev_gol_proof::paths::resolve_workspace_path;
use rev_gol_proof::settings::{
    BoundaryCondition, CliOverrides, EncodingConfig, InputConfig, OutputConfig, OutputFormat, Settings, SettingsError,
    SimulationConfig, SolverBackend, SolverConfig,
};

fn settings() -> Settings {
    Settings {
        simulation: SimulationConfig { generations: 3, boundary_condition: BoundaryCondition::Dead },
        solver: SolverConfig {
            max_solutions: 10,
            timeout_seconds: 300,
            num_threads: None,
            enable_preprocessing: true,
            verbosity: 0,
            backend: SolverBackend::Cadical,
        },
        input: InputConfig { target_state_file: "input/target_states/blinker.txt".to_string() },
        output: OutputConfig {
            format: OutputFormat::Text,
            save_intermediate: false,
            output_directory: "output/solutions".to_string(),
        },
        encoding: EncodingConfig { symmetry_breaking: false },
    }
}

#[test]
fn test_resolve_workspace_path_joins_relative_paths() {
    assert_eq!(
        resolve_workspace_path("/workspace", "config/default.yaml"),
        std::path::Path::new("/workspace").join("config/default.yaml").to_str().unwrap()
    );
}

#[test]
fn absolute_paths_stay() {
    assert_eq!(resolve_workspace_path("/workspace", "/etc/settings.yaml"), "/etc/settings.yaml");
    let once = resolve_workspace_path("/workspace", "config/default.yaml");
    assert_eq!(resolve_workspace_path("/workspace", &once), once);
}

#[test]
fn normalised_paths_are_absolute() {
    let mut settings = settings();
    settings.normalize_paths("/workspace");

    assert_eq!(settings.input.target_state_file, "/workspace/input/target_states/blinker.txt");
    assert_eq!(settings.output.output_directory, resolve_workspace_path("/workspace", "output/solutions"));
    assert_eq!(settings.target_state_path("/workspace"), "/workspace/input/target_states/blinker.txt");
}

#[test]
fn settings_are_validated() {
    let mut settings = settings();
    assert!(settings.validate("/workspace", true).is_ok());

    let missing = settings.validate("/workspace", false).unwrap_err();
    assert!(matches!(missing, SettingsError::MissingTargetState { ref path }
        if path.as_str() == "/workspace/input/target_states/blinker.txt"));

    settings.solver.max_solutions = 0;
    assert!(matches!(settings.validate("/workspace", true), Err(SettingsError::NoSolutions)));

    settings.simulation.generations = 0;
    assert!(matches!(settings.validate("/workspace", true), Err(SettingsError::NoGenerations)));
}

#[test]
fn the_command_line_overrides_settings() {
    let mut settings = settings();
    settings.merge_with_cli(&CliOverrides {
        generations: Some(5),
        max_solutions: None,
        target_file: Some("other.txt".to_string()),
        output_dir: None,
    });

    assert_eq!(settings.simulation.generations, 5);
    assert_eq!(settings.solver.max_solutions, 10);
    assert_eq!(settings.input.target_state_file, "other.txt");
    assert_eq!(settings.output.output_directory, "output/solutions");
}
