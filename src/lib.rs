//! A lossless editor model for hosts files: a line-level store parsed from the
//! text, a deduplicated view of address entries projected from it, and a
//! reconciler that writes edits of the entries back into the store.
pub mod addr;
pub mod form;
pub mod hosts_info;
pub mod ip_hosts;
pub mod item;
pub mod laws;
pub mod line;
pub mod project;
pub mod reconcile;
pub mod session;
pub mod string_ext;
pub mod text;
pub mod view_kind;

pub use addr::is_ip;
pub use form::{FormWindowResponse, ItemForm, ProfileForm};
pub use hosts_info::HostsInfo;
pub use ip_hosts::{ip_hosts_of, strip_comment, IpHosts};
pub use item::{GlobalID, Host, Item};
pub use line::{content_to_lines, lines_to_content, parse_line, split_ip_hosts, Line, ValidLine};
pub use project::lines_to_list;
pub use reconcile::new_lines_by_list;
pub use session::{Action, Event, Hed};
pub use string_ext::StringExt;
pub use text::first_uppercase;
pub use view_kind::{InvokeEvent, OpenedWindow, ViewKind};
