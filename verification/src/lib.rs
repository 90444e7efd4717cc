pub mod archidekt;
pub mod grouping;
pub mod models;
pub mod provider;
pub mod seq_facts;
pub mod sorting;
pub mod string_map;
pub mod web;
