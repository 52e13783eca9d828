use xyntra::config::{power_of_two, BackendType, PathStatus, XyntraConfig};
use xyntra::ir::errors::{ValidationError, XyntraError};
use xyntra::ir::types::NodeID;
use xyntra::ir::validation::ValidationContext;

fn present() -> PathStatus {
    PathStatus { input_exists: true, output_accessible: true }
}

fn defect(config: &XyntraConfig, paths: &PathStatus) -> ValidationError {
    match config.validate(paths) {
        Err(XyntraError::Validation(e)) => e,
        other => panic!("expected a validation error, got {:?}", other),
    }
}

fn gpu_defect(config: &XyntraConfig) -> (String, usize, String) {
    match defect(config, &present()) {
        ValidationError::InvalidGPUParameter { parameter, value, valid_range } => {
            (parameter, value, valid_range)
        }
        other => panic!("unexpected error: {:?}", other),
    }
}

#[test]
fn default_configuration() {
    let config = XyntraConfig::default();
    assert!(config.input_file.is_none());
    assert_eq!(config.output_dir, ".");
    assert!(matches!(config.backend, BackendType::Wgsl));
    assert!(matches!(BackendType::default(), BackendType::Wgsl));
    assert_eq!(config.optimisation_level, 2);
    assert_eq!(config.tile_size, 16);
    assert_eq!(config.block_size, 256);
    assert!(!config.enable_debug);
    assert!(!config.export_ir);
    assert!(config.validate(&present()).is_ok());
}

#[test]
fn powers_of_two() {
    for n in [1usize, 2, 4, 8, 64, 1024, 1 << 40] {
        assert!(power_of_two(n), "{n}");
    }
    for n in [0usize, 3, 5, 6, 12, 100, 1023, usize::MAX] {
        assert!(!power_of_two(n), "{n}");
    }
}

#[test]
fn accepted_tile_and_block_sizes() {
    for tile in [4usize, 8, 16, 32, 64] {
        for block in [64usize, 128, 256, 512, 1024] {
            let config = XyntraConfig { tile_size: tile, block_size: block, ..XyntraConfig::default() };
            assert!(config.validate(&present()).is_ok());
        }
    }
}

#[test]
fn tile_size_must_be_a_power_of_two() {
    let config = XyntraConfig { tile_size: 12, ..XyntraConfig::default() };
    assert_eq!(
        gpu_defect(&config),
        ("tile_size".to_string(), 12, "Must be a power of 2.".to_string())
    );
}

#[test]
fn tile_size_must_be_in_range() {
    for tile in [0usize, 1, 2, 128] {
        let config = XyntraConfig { tile_size: tile, ..XyntraConfig::default() };
        assert_eq!(
            gpu_defect(&config),
            ("tile_size".to_string(), tile, "must be between 4 and 64".to_string())
        );
    }
}

#[test]
fn block_size_must_be_a_power_of_two() {
    let config = XyntraConfig { block_size: 100, ..XyntraConfig::default() };
    assert_eq!(
        gpu_defect(&config),
        ("block_size".to_string(), 100, "must be a power of 2".to_string())
    );
}

#[test]
fn block_size_must_be_in_range() {
    for block in [0usize, 32, 2048] {
        let config = XyntraConfig { block_size: block, ..XyntraConfig::default() };
        assert_eq!(
            gpu_defect(&config),
            ("block_size".to_string(), block, "must be between 64 and 1024".to_string())
        );
    }
}

#[test]
fn tile_size_is_judged_before_block_size() {
    let config = XyntraConfig { tile_size: 3, block_size: 3, ..XyntraConfig::default() };
    assert_eq!(gpu_defect(&config).0, "tile_size");
}

#[test]
fn optimisation_level_must_be_at_most_three() {
    for level in 0..=3u8 {
        let config = XyntraConfig { optimisation_level: level, ..XyntraConfig::default() };
        assert!(config.validate(&present()).is_ok());
    }
    let config = XyntraConfig { optimisation_level: 200, ..XyntraConfig::default() };
    match defect(&config, &present()) {
        ValidationError::InvalidConfigValue { field, value, reason } => {
            assert_eq!(field, "optimization_level");
            assert_eq!(value, "200");
            assert_eq!(reason, "must be between 0 and 3");
        }
        other => panic!("unexpected error: {:?}", other),
    }
}

#[test]
fn input_file_must_exist() {
    let config = XyntraConfig {
        input_file: Some("model.onnx".to_string()),
        ..XyntraConfig::default()
    };
    let paths = PathStatus { input_exists: false, output_accessible: false };
    match defect(&config, &paths) {
        ValidationError::InvalidFilePath { path, reason } => {
            assert_eq!(path, "model.onnx");
            assert_eq!(reason, "file does not exist");
        }
        other => panic!("unexpected error: {:?}", other),
    }
    assert!(config.validate(&present()).is_ok());
}

#[test]
fn missing_input_is_of_no_account_without_an_input_file() {
    let config = XyntraConfig::default();
    let paths = PathStatus { input_exists: false, output_accessible: true };
    assert!(config.validate(&paths).is_ok());
}

#[test]
fn output_directory_must_be_accessible() {
    let config = XyntraConfig { output_dir: "out".to_string(), ..XyntraConfig::default() };
    let paths = PathStatus { input_exists: true, output_accessible: false };
    match defect(&config, &paths) {
        ValidationError::InvalidFilePath { path, reason } => {
            assert_eq!(path, "out");
            assert_eq!(reason, "directory does not exist or is not accessible");
        }
        other => panic!("unexpected error: {:?}", other),
    }
}

#[test]
fn context_follows_the_current_node() {
    let mut context = ValidationContext::new();
    assert_eq!(context.current_node(), None);
    context.set_current_node(NodeID::new(3));
    assert_eq!(context.current_node(), Some(NodeID::new(3)));
    context.clear_current_node();
    assert_eq!(context.current_node(), None);
}
