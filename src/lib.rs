//! Reading and rewriting character save files: the bit-packed attribute block, the
//! skills section that follows it, and the whole-file checksum.

pub mod bits;
pub mod checksum;
pub mod error;
pub mod file;
pub mod save_file;
pub mod stats;

pub use error::{FormatError, StatsError};
pub use file::FileOffset;
pub use save_file::{CharacterClass, D2SaveFile};
pub use stats::{Stats, StatsInfo, StatsKind};
