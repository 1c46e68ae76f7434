//! The settings of a run that reads stored height maps back.
use vstd::prelude::*;

verus! {

/// Where the stored height maps are read from.
#[derive(Debug, Clone)]
pub struct Config {
    pub zarr_storage_location: String,
}

impl Default for Config {
    /// The store that generation writes by default.
    fn default() -> (c: Self)
        ensures
            c.zarr_storage_location@ == "./.zarr_data_test"@,
    {
        Config { zarr_storage_location: "./.zarr_data_test".to_owned() }
    }
}

} // verus!
