pub mod checkpoint;
pub mod cli;
pub mod codec;
pub mod config;
pub mod dispatch;
pub mod mapper;
pub mod message;
pub mod relay;
