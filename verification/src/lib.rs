//! Blocked vectors: byte vectors that are used like files but are held in memory, as a vector of
//! blocks of whole pages.

pub mod block;
pub mod effects;
pub mod imp;
pub mod io;
pub mod iter;
pub mod laws;
pub mod layout;
pub mod meaning;
pub mod model;
pub mod page;
mod seeker;

pub use block::Block;
pub use imp::BlockedVec;
pub use io::{IoSlice, IoSliceMut, SeekFrom};
pub use iter::{BlockIter, BlockIterMut, RangeIter, RangeIterMut};
pub use layout::{Layout, LayoutError};
