//! Pipeline graphs: the domain model, Mermaid import and export, the view graph
//! with shard groups collapsed, and the layered card layout with its score.

pub mod text;
pub mod model;
pub mod mermaid_in;
pub mod view;
pub mod layout;
pub mod detail;
pub mod dot;
pub mod dto;
pub mod mermaid;
pub mod render;
pub mod style;
pub mod cards;
pub mod table;
pub mod logs;
pub mod pipelines;
pub mod chain;
pub mod canvas;
