pub mod access_laws;
pub mod balance_laws;
pub mod balancer;
pub mod body_laws;
pub mod buf_pool;
pub mod cache;
pub mod cache_laws;
pub mod config;
pub mod config_laws;
pub mod course_laws;
pub mod cycle_laws;
pub mod cycles;
pub mod environment;
pub mod exchange;
pub mod fast_proxy;
pub mod fault_laws;
pub mod framing_laws;
pub mod head_laws;
pub mod header_util;
pub mod health;
pub mod http;
pub mod jwt;
pub mod machine_laws;
pub mod net;
pub mod path;
pub mod pattern;
pub mod pipe;
pub mod platform;
pub mod rate;
pub mod recycle;
pub mod request;
pub mod route_laws;
pub mod serving_laws;
pub mod settings_laws;
pub mod shared;
pub mod startup;
pub mod startup_laws;
pub mod target_laws;
pub mod text;
pub mod text_laws;
pub mod upstream;
