//! Failure reasons shared by the graph, the validator and the
//! configuration.

use crate::text::{decimal, decimal_string, decimal_strings, decimals, join, joined, texts};
use vstd::prelude::*;
use vstd::string::StringExecFns;

verus! {

/// Any failure of the compiler, by family.
#[derive(Debug)]
pub enum XyntraError {
    /// Malformed graph or configuration; can be reported and recovered from.
    Validation(ValidationError),
    /// Malformed input source.
    Parsing(ParsingError),
    /// Fatal: the machine cannot do what was asked.
    System(SystemError),
    /// Fatal: a broken invariant of the compiler itself.
    Internal(InternalError),
}

/// Exactly one defect of a graph or of a configuration.
#[derive(Debug)]
#[allow(inconsistent_fields)]
pub enum ValidationError {
    InvalidTensorShape { expected: String, found: String },
    IncompatibleShapes { op: String, shapes: Vec<String> },
    InvalidNodeConnection { from: u32, to: u32, reason: String },
    CyclicGraph { cycle_path: Vec<u32> },
    MissingNode { node_id: u32 },
    InvalidOpInputCount { op: String, expected: usize, found: usize },
    InvalidConfigValue { field: String, value: String, reason: String },
    InvalidFilePath { path: String, reason: String },
    InvalidGPUParameter { parameter: String, value: usize, valid_range: String },
}

#[derive(Debug)]
pub enum ParsingError {
    InvalidFormat { format: String, reason: String },
    MalformedOnnx { details: String },
    UnsupportedOperation { op_name: String },
    CorruptedFile { file_path: String },
    MissingRequiredField { field: String },
}

#[derive(Debug)]
pub enum SystemError {
    OutOfMemory { requested: usize },
    GpuUnavailable { reason: String },
    FileNotFound { path: String },
    PermissionDenied { operation: String },
}

#[derive(Debug)]
pub enum InternalError {
    AssertionFailed { message: String },
    UnexpectedNone { context: String },
    InvalidState { expected: String, actual: String },
    NotImplemented { feature: String },
}

/// Mathematical model of a `ValidationError`: the same variants, with
/// texts and lists as sequences.
#[allow(inconsistent_fields)]
pub enum ValidationErrorView {
    InvalidTensorShape { expected: Seq<char>, found: Seq<char> },
    IncompatibleShapes { op: Seq<char>, shapes: Seq<Seq<char>> },
    InvalidNodeConnection { from: u32, to: u32, reason: Seq<char> },
    CyclicGraph { cycle_path: Seq<u32> },
    MissingNode { node_id: u32 },
    InvalidOpInputCount { op: Seq<char>, expected: usize, found: usize },
    InvalidConfigValue { field: Seq<char>, value: Seq<char>, reason: Seq<char> },
    InvalidFilePath { path: Seq<char>, reason: Seq<char> },
    InvalidGPUParameter { parameter: Seq<char>, value: usize, valid_range: Seq<char> },
}

impl View for ValidationError {
    type V = ValidationErrorView;

    open spec fn view(&self) -> ValidationErrorView {
        match self {
            ValidationError::InvalidTensorShape { expected, found } => {
                ValidationErrorView::InvalidTensorShape { expected: expected@, found: found@ }
            },
            ValidationError::IncompatibleShapes { op, shapes } => {
                ValidationErrorView::IncompatibleShapes { op: op@, shapes: texts(shapes@) }
            },
            ValidationError::InvalidNodeConnection { from, to, reason } => {
                ValidationErrorView::InvalidNodeConnection {
                    from: *from,
                    to: *to,
                    reason: reason@,
                }
            },
            ValidationError::CyclicGraph { cycle_path } => {
                ValidationErrorView::CyclicGraph { cycle_path: cycle_path@ }
            },
            ValidationError::MissingNode { node_id } => {
                ValidationErrorView::MissingNode { node_id: *node_id }
            },
            ValidationError::InvalidOpInputCount { op, expected, found } => {
                ValidationErrorView::InvalidOpInputCount {
                    op: op@,
                    expected: *expected,
                    found: *found,
                }
            },
            ValidationError::InvalidConfigValue { field, value, reason } => {
                ValidationErrorView::InvalidConfigValue {
                    field: field@,
                    value: value@,
                    reason: reason@,
                }
            },
            ValidationError::InvalidFilePath { path, reason } => {
                ValidationErrorView::InvalidFilePath { path: path@, reason: reason@ }
            },
            ValidationError::InvalidGPUParameter { parameter, value, valid_range } => {
                ValidationErrorView::InvalidGPUParameter {
                    parameter: parameter@,
                    value: *value,
                    valid_range: valid_range@,
                }
            },
        }
    }
}

/// The sentence that describes a defect.
pub open spec fn message_of(e: ValidationErrorView) -> Seq<char> {
    match e {
        ValidationErrorView::InvalidTensorShape { expected, found } => {
            "Invalid tensor shape: expected "@ + expected + " but found "@ + found + "."@
        },
        ValidationErrorView::IncompatibleShapes { op, shapes } => {
            "Incompatible tensor shapes for operation '"@ + op + "': shapes are "@ + joined(
                shapes,
                ", "@,
            ) + "."@
        },
        ValidationErrorView::InvalidNodeConnection { from, to, reason } => {
            "Invalid connection from node "@ + decimal(from as nat) + " to node "@ + decimal(
                to as nat,
            ) + ": "@ + reason + "."@
        },
        ValidationErrorView::CyclicGraph { cycle_path } => {
            "Cyclic dependency detected in graph: nodes "@ + joined(decimals(cycle_path), ", "@)
                + "."@
        },
        ValidationErrorView::MissingNode { node_id } => {
            "Referenced node "@ + decimal(node_id as nat) + " does not exist in the graph."@
        },
        ValidationErrorView::InvalidOpInputCount { op, expected, found } => {
            "Operation '"@ + op + "' expects "@ + decimal(expected as nat)
                + " inputs but received "@ + decimal(found as nat) + "."@
        },
        ValidationErrorView::InvalidConfigValue { field, value, reason } => {
            "Invalid configuration value for '"@ + field + "': '"@ + value
                + "' is not valid because "@ + reason + "."@
        },
        ValidationErrorView::InvalidFilePath { path, reason } => {
            "Invalid file path '"@ + path + "': "@ + reason + "."@
        },
        ValidationErrorView::InvalidGPUParameter { parameter, value, valid_range } => {
            "Invalid GPU parameter '"@ + parameter + "': "@ + decimal(value as nat)
                + " is outside valid range "@ + valid_range + "."@
        },
    }
}

impl ValidationError {
    /// Renders the defect as one sentence.
    pub fn message(&self) -> (r: String)
        ensures
            r@ == message_of(self@),
    {
        match self {
            ValidationError::InvalidTensorShape { expected, found } => {
                let mut r = String::from_str("Invalid tensor shape: expected ");
                r.append(expected.as_str());
                r.append(" but found ");
                r.append(found.as_str());
                r.append(".");
                r
            },
            ValidationError::IncompatibleShapes { op, shapes } => {
                let mut r = String::from_str("Incompatible tensor shapes for operation '");
                r.append(op.as_str());
                r.append("': shapes are ");
                r.append(join(shapes, ", ").as_str());
                r.append(".");
                r
            },
            ValidationError::InvalidNodeConnection { from, to, reason } => {
                let mut r = String::from_str("Invalid connection from node ");
                r.append(decimal_string(*from as usize).as_str());
                r.append(" to node ");
                r.append(decimal_string(*to as usize).as_str());
                r.append(": ");
                r.append(reason.as_str());
                r.append(".");
                r
            },
            ValidationError::CyclicGraph { cycle_path } => {
                let mut r = String::from_str("Cyclic dependency detected in graph: nodes ");
                r.append(join(&decimal_strings(cycle_path), ", ").as_str());
                r.append(".");
                r
            },
            ValidationError::MissingNode { node_id } => {
                let mut r = String::from_str("Referenced node ");
                r.append(decimal_string(*node_id as usize).as_str());
                r.append(" does not exist in the graph.");
                r
            },
            ValidationError::InvalidOpInputCount { op, expected, found } => {
                let mut r = String::from_str("Operation '");
                r.append(op.as_str());
                r.append("' expects ");
                r.append(decimal_string(*expected).as_str());
                r.append(" inputs but received ");
                r.append(decimal_string(*found).as_str());
                r.append(".");
                r
            },
            ValidationError::InvalidConfigValue { field, value, reason } => {
                let mut r = String::from_str("Invalid configuration value for '");
                r.append(field.as_str());
                r.append("': '");
                r.append(value.as_str());
                r.append("' is not valid because ");
                r.append(reason.as_str());
                r.append(".");
                r
            },
            ValidationError::InvalidFilePath { path, reason } => {
                let mut r = String::from_str("Invalid file path '");
                r.append(path.as_str());
                r.append("': ");
                r.append(reason.as_str());
                r.append(".");
                r
            },
            ValidationError::InvalidGPUParameter { parameter, value, valid_range } => {
                let mut r = String::from_str("Invalid GPU parameter '");
                r.append(parameter.as_str());
                r.append("': ");
                r.append(decimal_string(*value).as_str());
                r.append(" is outside valid range ");
                r.append(valid_range.as_str());
                r.append(".");
                r
            },
        }
    }
}

/// The models of a list of errors, in order.
pub open spec fn error_views(errors: Seq<ValidationError>) -> Seq<ValidationErrorView> {
    Seq::new(errors.len(), |i: int| errors[i]@)
}

/// Appending one error to a list appends its model to the list's models.
pub proof fn lemma_error_views_push(errors: Seq<ValidationError>, e: ValidationError)
    ensures
        error_views(errors.push(e)) == error_views(errors).push(e@),
{
    assert(error_views(errors.push(e)) =~= error_views(errors).push(e@));
}

/// The models of two lists joined are the lists' models joined.
pub proof fn lemma_error_views_concat(a: Seq<ValidationError>, b: Seq<ValidationError>)
    ensures
        error_views(a + b) == error_views(a) + error_views(b),
{
    assert(error_views(a + b) =~= error_views(a) + error_views(b));
}

} // verus!
