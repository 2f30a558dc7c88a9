use vstd::prelude::*;

use crate::geometry::Point;

verus! {

/// Lifecycle of a nesting job as reported to the caller.
#[derive(Clone, Copy, PartialEq, Eq, Structural, Debug)]
pub enum Status {
    Pending,
    Running,
    Done,
    Failed,
}

/// Job-level failure kinds surfaced through an `Update`.
#[derive(Clone, Copy, PartialEq, Eq, Structural, Debug)]
pub enum ErrorType {
    Timeout,
    InvalidInput,
    PartDoesNotFit,
    Cancelled,
    TooBusy,
}

/// A job-level error: a kind plus a human-readable message.
#[derive(Clone, Debug)]
pub struct Error {
    pub error_type: ErrorType,
    pub message: String,
}

/// A part type to nest: how many copies are needed, its contour, and the
/// rotation angles (in degrees) the job allows for it.
#[derive(Clone, Debug)]
pub struct Part {
    pub quantity: i32,
    pub contour: Vec<Point>,
    pub rotations: Vec<i32>,
}

/// One stock sheet type. Dimensions are in the same integer units as part
/// coordinates.
#[derive(Clone, Copy, PartialEq, Eq, Structural, Debug)]
pub struct Sheet {
    pub length: i64,
    pub width: i64,
    pub cost: i64,
}

/// A nesting job as handed in by the surrounding dispatch layer.
#[derive(Clone, Debug)]
pub struct Input {
    pub nesting_job_ulid: String,
    pub parts: Vec<Part>,
    pub sheets: Vec<Sheet>,
    pub tool_diameter: i64,
    pub timeout: i32,
}

/// One placement decision: which part, which copy of it, at which rotation
/// angle (degrees).
#[derive(Clone, Copy, PartialEq, Eq, Structural, Debug)]
pub struct Placement {
    pub part_index: usize,
    pub nth_part: u32,
    pub angle: i32,
}

/// What one generation reports: the fittest layout's gene-to-coordinate
/// mapping plus sheet usage. The cut-loss ratio is carried in parts per
/// thousand of the consumed sheet area.
#[derive(Clone, Debug)]
pub struct GenerationResult {
    pub sheet_count: i32,
    pub last_sheet_left_over: i64,
    pub cut_loss_permille: i32,
    pub placements_and_location: Vec<(Placement, Point)>,
}

/// One message to the caller: a status, optionally the newest solution, and
/// optionally an error.
#[derive(Clone, Debug)]
pub struct Update {
    pub status: Status,
    pub nesting_solution: Option<GenerationResult>,
    pub error: Option<Error>,
}

} // verus!
