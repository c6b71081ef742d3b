//! Command-line arguments, as plain values.

use std::path::PathBuf;
use vstd::prelude::*;

verus! {

/// Arguments of the command: the invoice directory (scanned recursively)
/// and the path of the PDF to write.
pub struct Args {
    pub dir: PathBuf,
    pub out: PathBuf,
}

} // verus!
