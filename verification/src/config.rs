//! Compiler configuration and its validation.

use crate::ir::errors::{ValidationError, ValidationErrorView, XyntraError};
use crate::text::{decimal, decimal_string};
use vstd::prelude::*;
use vstd::string::StringExecFns;

verus! {

/// Target for which kernels are generated.
#[derive(Debug, Clone, Copy)]
pub enum BackendType {
    Wgsl,
    CudaPtx,
}

impl Default for BackendType {
    fn default() -> (r: Self)
        ensures
            r is Wgsl,
    {
        BackendType::Wgsl
    }
}

/// Settings of one compiler run. Paths are carried as text and never
/// opened here.
pub struct XyntraConfig {
    pub input_file: Option<String>,
    pub output_dir: String,
    pub backend: BackendType,
    pub optimisation_level: u8,
    pub tile_size: usize,
    pub block_size: usize,
    pub enable_debug: bool,
    pub export_ir: bool,
}

/// What the file system says of the paths of a configuration.
pub struct PathStatus {
    /// Whether the input file exists; of no account without an input file.
    pub input_exists: bool,
    /// Whether the output directory exists and can be read.
    pub output_accessible: bool,
}

/// Whether a number is 1, 2, 4, 8, ...
pub open spec fn is_power_of_two(n: nat) -> bool
    decreases n,
{
    n == 1 || (n >= 2 && n % 2 == 0 && is_power_of_two(n / 2))
}

/// Decides whether a number is a power of two.
pub fn power_of_two(n: usize) -> (r: bool)
    ensures
        r == is_power_of_two(n as nat),
{
    let mut m: usize = n;
    while m >= 2 && m % 2 == 0
        invariant
            is_power_of_two(m as nat) == is_power_of_two(n as nat),
        decreases m,
    {
        m = m / 2;
    }
    m == 1
}

/// The defect of a GPU parameter that must be a power of two between
/// `low` and `high`: a nonzero value that is no power of two is reported
/// as such, with the wording `not_power`; otherwise a value out of range
/// is reported with the wording `not_in_range`.
pub open spec fn parameter_defect(
    parameter: Seq<char>,
    value: usize,
    low: usize,
    high: usize,
    not_power: Seq<char>,
    not_in_range: Seq<char>,
) -> Option<ValidationErrorView> {
    if value != 0 && !is_power_of_two(value as nat) {
        Some(ValidationErrorView::InvalidGPUParameter { parameter, value, valid_range: not_power })
    } else if value < low || value > high {
        Some(
            ValidationErrorView::InvalidGPUParameter {
                parameter,
                value,
                valid_range: not_in_range,
            },
        )
    } else {
        None
    }
}

/// The only tile sizes without a defect are 4, 8, 16, 32 and 64; the
/// only block sizes without one are 64, 128, 256, 512 and 1024.
pub proof fn lemma_accepted_sizes(
    parameter: Seq<char>,
    value: usize,
    not_power: Seq<char>,
    not_in_range: Seq<char>,
)
    ensures
        parameter_defect(parameter, value, 4, 64, not_power, not_in_range) is None <==> (value == 4
            || value == 8 || value == 16 || value == 32 || value == 64),
        parameter_defect(parameter, value, 64, 1024, not_power, not_in_range) is None <==> (value
            == 64 || value == 128 || value == 256 || value == 512 || value == 1024),
{
    reveal_with_fuel(is_power_of_two, 12);
}

/// Judges a GPU parameter that must be a power of two between `low` and
/// `high`.
fn check_parameter(
    parameter: &str,
    value: usize,
    low: usize,
    high: usize,
    not_power: &str,
    not_in_range: &str,
) -> (r: Option<ValidationError>)
    ensures
        r is Some <==> parameter_defect(
            parameter@,
            value,
            low,
            high,
            not_power@,
            not_in_range@,
        ) is Some,
        r matches Some(e) ==> Some(e@) == parameter_defect(
            parameter@,
            value,
            low,
            high,
            not_power@,
            not_in_range@,
        ),
{
    if value != 0 && !power_of_two(value) {
        Some(
            ValidationError::InvalidGPUParameter {
                parameter: String::from_str(parameter),
                value,
                valid_range: String::from_str(not_power),
            },
        )
    } else if value < low || value > high {
        Some(
            ValidationError::InvalidGPUParameter {
                parameter: String::from_str(parameter),
                value,
                valid_range: String::from_str(not_in_range),
            },
        )
    } else {
        None
    }
}

impl Default for XyntraConfig {
    fn default() -> (r: Self)
        ensures
            r.input_file is None,
            r.output_dir@ == "."@,
            r.backend is Wgsl,
            r.optimisation_level == 2,
            r.tile_size == 16,
            r.block_size == 256,
            !r.enable_debug,
            !r.export_ir,
    {
        XyntraConfig {
            input_file: None,
            output_dir: String::from_str("."),
            backend: BackendType::Wgsl,
            optimisation_level: 2,
            tile_size: 16,
            block_size: 256,
            enable_debug: false,
            export_ir: false,
        }
    }
}

impl XyntraConfig {
    /// The first defect of the configuration, if there is one: the tile
    /// size (a power of two from 4 to 64), then the block size (a power
    /// of two from 64 to 1024), then the optimisation level (0 to 3),
    /// then the input file, then the output directory.
    pub open spec fn defect(&self, paths: PathStatus) -> Option<ValidationErrorView> {
        let tile = parameter_defect(
            "tile_size"@,
            self.tile_size,
            4,
            64,
            "Must be a power of 2."@,
            "must be between 4 and 64"@,
        );
        let block = parameter_defect(
            "block_size"@,
            self.block_size,
            64,
            1024,
            "must be a power of 2"@,
            "must be between 64 and 1024"@,
        );
        if tile is Some {
            tile
        } else if block is Some {
            block
        } else if self.optimisation_level > 3 {
            Some(
                ValidationErrorView::InvalidConfigValue {
                    field: "optimization_level"@,
                    value: decimal(self.optimisation_level as nat),
                    reason: "must be between 0 and 3"@,
                },
            )
        } else if self.input_file is Some && !paths.input_exists {
            Some(
                ValidationErrorView::InvalidFilePath {
                    path: self.input_file->0@,
                    reason: "file does not exist"@,
                },
            )
        } else if !paths.output_accessible {
            Some(
                ValidationErrorView::InvalidFilePath {
                    path: self.output_dir@,
                    reason: "directory does not exist or is not accessible"@,
                },
            )
        } else {
            None
        }
    }

    /// Accepts the configuration, or rejects it with its first defect.
    pub fn validate(&self, paths: &PathStatus) -> (r: Result<(), XyntraError>)
        ensures
            r is Ok <==> self.defect(*paths) is None,
            r matches Err(error) ==> error matches XyntraError::Validation(e) && Some(e@)
                == self.defect(*paths),
    {
        match check_parameter(
            "tile_size",
            self.tile_size,
            4,
            64,
            "Must be a power of 2.",
            "must be between 4 and 64",
        ) {
            Some(e) => {
                return Err(XyntraError::Validation(e));
            },
            None => {},
        }
        match check_parameter(
            "block_size",
            self.block_size,
            64,
            1024,
            "must be a power of 2",
            "must be between 64 and 1024",
        ) {
            Some(e) => {
                return Err(XyntraError::Validation(e));
            },
            None => {},
        }
        if self.optimisation_level > 3 {
            return Err(
                XyntraError::Validation(
                    ValidationError::InvalidConfigValue {
                        field: String::from_str("optimization_level"),
                        value: decimal_string(self.optimisation_level as usize),
                        reason: String::from_str("must be between 0 and 3"),
                    },
                ),
            );
        }
        match &self.input_file {
            Some(path) => {
                if !paths.input_exists {
                    return Err(
                        XyntraError::Validation(
                            ValidationError::InvalidFilePath {
                                path: path.clone(),
                                reason: String::from_str("file does not exist"),
                            },
                        ),
                    );
                }
            },
            None => {},
        }
        if !paths.output_accessible {
            return Err(
                XyntraError::Validation(
                    ValidationError::InvalidFilePath {
                        path: self.output_dir.clone(),
                        reason: String::from_str("directory does not exist or is not accessible"),
                    },
                ),
            );
        }
        Ok(())
    }
}

} // verus!
