//! Reports that an analysis hands to its caller.
use crate::errors::{FileID, FileLocation};
use vstd::prelude::*;

verus! {

/// How grave a report is.
#[derive(Clone, Copy, Debug, PartialEq, Eq, Structural)]
pub enum MessageCategory {
    Error,
    Warning,
    Info,
}

/// What a report is about.
#[derive(Clone, Copy, Debug, PartialEq, Eq, Structural)]
pub enum ReportCode {
    FieldElementArithmetic,
}

/// A place in a source file with a message about it.
#[derive(Debug, PartialEq, Eq)]
pub struct ReportLabel {
    pub file_id: FileID,
    pub location: FileLocation,
    pub message: String,
}

/// A message about a program, with the places it is about.
#[derive(Debug, PartialEq, Eq)]
pub struct Report {
    pub category: MessageCategory,
    pub message: String,
    pub code: ReportCode,
    pub primary: Vec<ReportLabel>,
}

/// The reports of an analysis.
pub type ReportCollection = Vec<Report>;

impl Report {
    /// A report of the category `Info` without labels.
    pub fn info(message: String, code: ReportCode) -> (report: Report)
        ensures
            report.category == MessageCategory::Info,
            report.message == message,
            report.code == code,
            report.primary@.len() == 0,
    {
        Report { category: MessageCategory::Info, message, code, primary: Vec::new() }
    }

    /// Adds a label for the place `location` of the file `file_id`.
    pub fn add_primary(&mut self, location: FileLocation, file_id: FileID, message: String)
        ensures
            final(self).category == old(self).category,
            final(self).message == old(self).message,
            final(self).code == old(self).code,
            final(self).primary@ == old(self).primary@.push(
                ReportLabel { file_id, location, message },
            ),
    {
        self.primary.push(ReportLabel { file_id, location, message });
    }
}

} // verus!
