//! Citation graphs of academic papers, held in three interchangeable representations.
pub mod adj_dag;
pub mod consistency;
pub mod dag;
pub mod dataset;
pub mod edge_list_dag;
pub mod id_map;
pub mod linked_dag;
pub mod menu;
pub mod ndarray;
pub mod queries;
pub mod records;
pub mod report;
pub mod seq_lemmas;
pub mod text;
