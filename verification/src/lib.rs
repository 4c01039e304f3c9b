pub mod agent;
pub mod agentflow;
pub mod chars;
pub mod config;
pub mod digest;
pub mod docx;
pub mod freezer;
pub mod ir;
pub mod json;
pub mod models;
pub mod patterns;
pub mod pipeline;
pub mod progress;
pub mod quality;
pub mod ratio;
pub mod sentinels;
pub mod terminology;
pub mod textutil;
pub mod vecs;
pub mod verdicts;
