//! A line-oriented shell session: a scrollback of commands and their output wrapped to a
//! resizable window, a command edited in place under a cursor, and one child process at a
//! time whose output streams into the scrollback.

pub mod frame;
pub mod layout;
pub mod model;
pub mod session;
pub mod text;

pub use frame::{Cell, Frame};
pub use layout::{rebuild_command_views, rebuild_line_views, wrap_segments, LineView, Segment};
pub use model::{ChildReport, Input, Key, INFO, LAUNCH_ERROR, PROMPT};
pub use session::{real_main, Cycle, Launch, Yesh};
pub use text::{chars_of, parse_command, split_command, Style, StyledUnit};
