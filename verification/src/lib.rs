//! A provenance-tracking dataflow analysis over the control-flow graph of one
//! function body.
//!
//! The analysis records, per storage slot, the set of slots a pointer value
//! was derived from (ancestry), the slots most recently recorded as directly
//! derived from it (children, a deliberate single-generation approximation),
//! and one shared set of revoked slots.  A forward fixpoint over the CFG
//! yields one state per block boundary; a query cursor replays intra-block
//! states on demand; a scanner reports every write performed through a
//! revoked pointer.

pub mod slot_set;
pub mod state;
pub mod ir;
pub mod transfer;
pub mod fixpoint;
pub mod cursor;
pub mod scan;
