//! Settings of one pipeline run.
use vstd::prelude::*;

verus! {

/// Where the input is, which files to take, where the output goes, and the
/// chunk size for batch linkage.
#[derive(Debug, Clone)]
pub struct PipelineConfig {
    pub input_dir: String,
    pub file_pattern: String,
    pub output_parquet: String,
    pub chunk_size: usize,
}

impl PipelineConfig {
    /// Builds the settings; a chunk size of 0 is raised to 1.
    pub fn new(input_dir: String, file_pattern: String, output_parquet: String, chunk_size: usize) -> (r: PipelineConfig)
        ensures
            r.input_dir == input_dir,
            r.file_pattern == file_pattern,
            r.output_parquet == output_parquet,
            r.chunk_size == if chunk_size == 0 {
                1
            } else {
                chunk_size
            },
    {
        let chunk_size = if chunk_size == 0 {
            1
        } else {
            chunk_size
        };
        PipelineConfig { input_dir, file_pattern, output_parquet, chunk_size }
    }
}

} // verus!
