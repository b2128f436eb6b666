pub mod amx;
pub mod amx_i8;
pub mod api;
pub mod attn;
pub mod backend;
pub mod buf;
pub mod cache;
pub mod calls;
pub mod chat;
pub mod codec;
pub mod completion;
pub mod config;
pub mod cuts;
pub mod defaults;
pub mod edits;
pub mod emit;
pub mod engine;
pub mod flags;
pub mod gemv;
pub mod generation;
pub mod holdings;
pub mod http;
pub mod images;
pub mod index;
pub mod iq4nl;
pub mod json;
pub mod key;
pub mod manifest;
pub mod members;
pub mod object;
pub mod order;
pub mod overrides;
pub mod ple;
pub mod policy;
pub mod prefix;
pub mod qsa;
pub mod quant;
pub mod reopen;
pub mod report;
pub mod restore;
pub mod role;
pub mod roles;
pub mod rope;
pub mod router;
pub mod scheduler;
pub mod schema;
pub mod sending;
pub mod serving;
pub mod sha256;
pub mod shelf;
pub mod spans;
pub mod staging;
pub mod streaming;
pub mod template;
pub mod text;
pub mod tools;
pub mod utf8;
pub mod waiting;
pub mod yaml;
