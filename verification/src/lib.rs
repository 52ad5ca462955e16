//! The logic of a GPU dashboard, verified.

#![allow(unused_imports)]
#![allow(dead_code)]

pub mod natural;
pub mod text;
pub mod double;
pub mod decimal;
pub mod table;
pub mod json;
pub mod written;
pub mod model;
pub mod gate;
pub mod run;
pub mod power;
pub mod db;
pub mod stored;
pub mod block;
pub mod collect;
pub mod stats;
pub mod summary;
pub mod summarizer;
pub mod http;
pub mod cli;
pub mod published;
pub mod counts;
pub mod said;
pub mod charted;
pub mod briefed;
pub mod pieces;
pub mod readings;
pub mod rows;
pub mod columns;
pub mod slots;
pub mod collected;
pub mod commands;
pub mod served;
pub mod places;
pub mod asked;
pub mod files;
pub mod configured;
pub mod rounds;
pub mod told;
pub mod calls;
pub mod details;
