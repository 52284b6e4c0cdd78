//! Frame relay core: reassembly of application-level frames from
//! out-of-order UDP fragments, bounded-memory eviction, and fanout of
//! completed frames to slow-consumer-isolated subscribers.

pub mod buffer;
pub mod codec;
pub mod fanout;
pub mod kvmap;
pub mod producer;
pub mod relay;
pub mod table;
