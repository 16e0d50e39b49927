//! Where the grouped rows are written.
use vstd::prelude::*;

verus! {

/// The path of the CSV file that receives the output rows.
pub struct CsvWriter {
    pub output_file_path: String,
}

impl CsvWriter {
    /// A writer for the file at `output_file_path`.
    pub fn new(output_file_path: String) -> (writer: Self)
        ensures
            writer.output_file_path == output_file_path,
    {
        CsvWriter { output_file_path }
    }
}

} // verus!
