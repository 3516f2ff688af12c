//! Fraud scoring by nearest reference vectors.

pub mod archive;
pub mod balancer;
pub mod config;
pub mod domain;
pub mod env;
pub mod fraud;
pub mod index_builder;
pub mod le;
pub mod metrics;
pub mod net;
pub mod ranked;
pub mod repository;
pub mod scan;
pub mod selection;
pub mod server;
pub mod service;
pub mod single;
pub mod usecase;
pub mod web;
