use vstd::prelude::*;

verus! {

/// Where the execution log of trades is written.
pub struct Logger {
    pub file_path: String,
}

impl Logger {
    pub fn new(file_path: &str) -> (logger: Logger)
        ensures
            logger.file_path@ == file_path@,
    {
        Logger { file_path: file_path.to_string() }
    }
}

} // verus!
