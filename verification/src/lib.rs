//! Verified core of the shell: command dispatch, history recall, completion,
//! list rendering, persistence and the rules of SSH sessions.
//!
//! Everything here works on plain values. Text is `String`, a directory
//! listing is a list of entries, a point in time is a [`time::Timestamp`]; the
//! binary around this library does the reading, spawning and printing.

pub mod bytes;
pub mod command_laws;
pub mod commands;
pub mod completion_laws;
pub mod git;
pub mod highlight_laws;
pub mod input_completion;
pub mod key_handling;
pub mod key_laws;
pub mod line_laws;
pub mod lists;
pub mod nav;
pub mod num;
pub mod order;
pub mod path;
pub mod path_laws;
pub mod plan;
pub mod process;
pub mod python;
pub mod recall_laws;
pub mod record_laws;
pub mod remote_laws;
pub mod render;
pub mod round_trip;
pub mod save_data;
pub mod show_laws;
pub mod ssh;
pub mod state;
pub mod tab_laws;
pub mod text;
pub mod time;
pub mod util;
pub mod walk_laws;

pub use git::{current_branch, truncate_branch, BRANCH_PREFIX};
pub use input_completion::{
    apply_completion, complete_cd_path, complete_command_path, CompletionCandidate,
    CompletionResult,
};
pub use nav::NavState;
pub use plan::OutKind;
pub use python::{venv_python, VENV_PREFIX};
pub use ssh::{RemoteSession, SshMode};
pub use state::{
    dedup_history, record_history, record_recent_dir, BrowserFile, HistoryItem, OpenTabs, PanelVis,
    RecentDir, RemoteTerminal, WindowSize,
};
pub use util::{
    find_bookmark, find_history_index, find_recent_dir, get_home, history_indices_in_dir,
    history_latest_indices, page_count, path_from_args, read_browser_files, render_history,
    render_history_in_dir, render_page, DISP_PAGE_LEN, DIVIDER,
};
