//! Verified core of the ZCode account switcher: model-id and URL handling for
//! the local gateway, upstream selection and dispatch decisions, shortcut
//! argument editing, process selection and log-line scanning.

pub mod text;
pub mod json;
pub mod gateway;
pub mod bodies;
pub mod upstream;
pub mod dispatch;
pub mod launcher;
pub mod restart;
pub mod cdp;
pub mod quota;
