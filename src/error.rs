use vstd::prelude::*;

verus! {

/// Failures of the typing engine and of its checks on the reference data.
#[derive(Clone, Debug, PartialEq, Eq)]
pub enum SketchyError {
    /// The sketch at this index is named otherwise than the genotype row
    /// there: index, sketch name, genotype identifier.
    InvalidIdentifier(usize, String, String),
    /// The reference collection and the genotype table differ in length.
    InvalidSize,
    /// A sketch file name ends neither in `.msh` nor in `.fsh`.
    InvalidExtension,
    /// Two sketches cannot be compared: reference name, parameter, reference
    /// value, query name, query value.
    InvalidSketchMatch(String, String, String, String, String),
    /// No value was available to vote on.
    InvalidConsensusGenotype,
    /// Consensus calling was asked for over an even number of references.
    InvalidConsensusTop,
}

/// Failures of command-line argument checks.
#[derive(Clone, Copy, Debug, PartialEq, Eq, Structural)]
pub enum CliError {
    /// The scale lies outside `0..=1`.
    InvalidScaleRange,
    /// The scale is not a number.
    InvalidScaleFloat,
}

impl SketchyError {
    /// A one-line description of the failure.
    pub fn message(&self) -> String {
        match self {
            SketchyError::InvalidIdentifier(_, _, _) => {
                "reference sketch identifier does not match genotype identifier".to_string()
            },
            SketchyError::InvalidSize => {
                "reference sketch and genotype table must have the same length".to_string()
            },
            SketchyError::InvalidExtension => {
                "reference sketch file must have Mash (.msh) or Finch (.fsh) extension".to_string()
            },
            SketchyError::InvalidSketchMatch(_, _, _, _, _) => {
                "reference sketch parameters do not match query sketch parameters".to_string()
            },
            SketchyError::InvalidConsensusGenotype => {
                "consensus genotype could not be computed".to_string()
            },
            SketchyError::InvalidConsensusTop => {
                "--top must be an odd number when using --consensus".to_string()
            },
        }
    }
}

impl CliError {
    /// A one-line description of the failure.
    pub fn message(&self) -> String {
        match self {
            CliError::InvalidScaleRange => "Scale parameter must be between 0 and 1".to_string(),
            CliError::InvalidScaleFloat => "Scale parameter must be a float".to_string(),
        }
    }
}

} // verus!
