//! A structured-document engine: persistent document trees with UTF-16
//! position arithmetic, position resolution, slicing and replacement with
//! open depths, content validation and atomic edit steps.

pub mod model;
pub mod util;
pub mod markdown;
pub mod transform;
