//! What a Docker Compose file says about how each service is built.
use vstd::prelude::*;

use crate::image::Image;

verus! {

/// A service as a Compose file declares it: the folder it is built from.
#[derive(Debug, Clone, PartialEq, Eq)]
pub struct Service {
    pub build: String,
}

/// Where a service comes from: a published image, or a folder to build.
#[derive(Debug, Clone, PartialEq, Eq)]
pub enum BuildContext {
    Image(Image),
    Folder(String),
}

} // verus!
