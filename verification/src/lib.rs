pub mod audited;
pub mod calls;
pub mod chunked;
pub mod hex;
pub mod memory;
pub mod reading;
pub mod sink;
pub mod wire;

pub use audited::{Audited, Writer};
pub use calls::Call;
pub use chunked::ChunkedWrite;
pub use memory::{SliceSink, VecSink};
pub use sink::{Sink, SinkState, WriteError};
