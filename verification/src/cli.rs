use vstd::prelude::*;

verus! {

/// Command-line surface: the path of the configuration file.
#[derive(Clone, Debug)]
pub struct Args {
    pub config: String,
}

} // verus!
