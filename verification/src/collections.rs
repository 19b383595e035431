//! Anchors that gather the outputs of many anchors, and anchors that follow a collection by its
//! changes.

pub mod persistent;
pub mod sequence;
pub mod asking;
pub mod collect;
pub mod small;
pub mod ord_set;
pub mod ord_map_collect;
pub mod fold;
pub mod fold_laws;
pub mod gather_laws;
pub mod keyed_laws;
pub mod ord_map_methods;
pub mod ord_set_methods;
pub mod dynamic_keyed_vector_collect;
