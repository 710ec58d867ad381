//! Resolution of a `.json` file path handed to the process by an
//! OS file-association launch, and the process-wide slot that holds
//! the resolved path until the front end has consumed it.

pub mod resolver;
pub mod slot;
