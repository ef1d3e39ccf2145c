//! Verified core of an operator that keeps Hetzner Cloud load balancers in
//! line with Kubernetes `LoadBalancer` services and Gateway API resources.

pub mod config;
pub mod controller;
pub mod consts;
pub mod error;
pub mod gateway;
pub mod health;
pub mod label_filter;
pub mod lb;
pub mod meta;
pub mod parse;
pub mod reconcile;
pub mod routes;
pub mod string_map;
