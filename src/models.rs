pub mod consts;
pub mod errors;
pub mod mapper;
pub mod messages;
pub mod ranking;
pub mod stream;
pub mod stream_service;
