//! A log-structured key/value store: record format, index, replay and
//! compaction planning, with file access left to the caller.
pub mod codec;
pub mod engine;
pub mod error;
pub mod frame;
pub mod index;
pub mod names;

pub use codec::{Command, KvsCommand};
pub use engine::{load_v2, read_value, Compaction, Engine, COMPACTION_THRESHOLD};
pub use error::{KvsError, Result};
pub use frame::{frame, read_len_prefix};
pub use index::{key_lt, CommandPos, KvIndex};
pub use names::{gen_of_file_name, log_path, next_generation, sorted_gen_list};
