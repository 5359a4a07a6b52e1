use vstd::prelude::*;

verus! {

/// Storage adapter for files kept on the local disk.
#[derive(Debug)]
pub struct FileLocalService {}

impl FileLocalService {
    /// Makes the adapter; it holds no state of its own.
    pub fn new() -> (res: Self)
        ensures
            res == (FileLocalService {}),
    {
        FileLocalService {}
    }
}

} // verus!
