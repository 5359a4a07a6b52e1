pub mod domain;
pub mod flow;
pub mod forest;
pub mod permission;
pub mod role_map;
pub mod service;
pub mod storage;
pub mod tree;

pub use domain::{SysRole, SysRoleVO};
pub use role_map::RoleMap;
pub use service::{Page, SysRoleService};
pub use storage::FileLocalService;
