//! Workspace view over a revision graph: stacks of private revisions, the
//! ancestors they share, and short identifiers for interactive use.

pub mod graph;
pub mod id_map;
pub mod order;
pub mod partition;
pub mod parse;
pub mod partition_laws;
pub mod revision;
pub mod short_id;
pub mod text;
pub mod workspace;

pub use graph::RevisionGraph;
pub use id_map::IdMap;
pub use order::id_less;
pub use partition::{children_of, find_index, partition, select_tips, walk_chain, Partition, StackPlan, TipChoice};
pub use parse::{extract_delimited, parse_file_changes, parse_op_entries, parse_revision_records, same_text,
    OpEntry, RECORD_SEP, UNIT_SEP};
pub use revision::{copy_files, copy_strings, FileChange, OutputFormat, RevisionInfo, Stack, WorkspaceState};
pub use short_id::{compute_short_op_ids, global_short_id, id_tail, shortest_unique_prefix, starts_with, MIN_ID_LEN};
pub use text::{find_str, is_whitespace, split_on, strip_trailing_str, trim_str};
pub use workspace::workspace_state;
