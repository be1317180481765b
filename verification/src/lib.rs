use vstd::prelude::*;

pub mod h2_error;
pub mod h2_frame;
pub mod h2_settings;
pub mod msgpack;
pub mod u32map;
pub mod h2_flow;
pub mod h2_streams;
pub mod h2_buf;
pub mod l7;
pub mod router;
pub mod ascii;
pub mod h2_hpack;
pub mod route_match;
pub mod route_select;
pub mod zerocopy;
pub mod arc_error;
pub mod text;
pub mod route_rules;
pub mod forward_policies;
pub mod upstream;
pub mod trace;
pub mod logs_cli;
pub mod control_helpers;
pub mod xdp_loader;
pub mod tls_config;
pub mod keyed;
pub mod cluster_circuit;
pub mod h2_down;
pub mod h2_request;
pub mod h2_driver;
pub mod h2_up;
pub mod h2_pool;
pub mod h2_bridge;
pub mod control_flow;
pub mod config_diff;
pub mod xdp_filter;
pub mod mutations;

verus! {
}
