//! The document model.

pub mod content;
pub mod util;
pub mod text;
pub mod marks;
pub mod fragment;
pub mod schema;
pub mod view;
pub mod walk;
pub mod cut;
pub mod cut_shape;
pub mod node;
pub mod position;
pub mod resolved_pos;
pub mod slice;
pub mod slice_size;
pub mod replace;
pub mod joining;

pub use content::ContentMatchError;
pub use fragment::{Fragment, Index, IndexError};
pub use marks::{MarkSet, MarkSetError};
pub use node::SliceError;
pub use replace::ReplaceError;
pub use resolved_pos::{ResolveErr, ResolvedNode, ResolvedPos};
pub use schema::{AttrNode, Block, Leaf, TextNode};
pub use slice::{InsertError, Slice};
pub use text::Text;
pub mod identity;
