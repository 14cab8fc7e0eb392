//! Zero-allocation buffers of byte slices and a streaming JSON scanner.
pub mod assoc;
pub mod buffer;
pub mod bufvec;
pub mod bufvec_error;
pub mod bufvec_iter;
pub mod ddb;
pub mod idtransform;
pub mod io;
pub mod matcher;
pub mod pool_error;
pub mod pool_iter;
pub mod rjiter;
pub mod rjiter_error;
pub mod scan;
pub mod scan_error;
pub mod slice_descriptor;
pub mod stack;
pub mod tokenizer;
pub mod u8pool;

pub use assoc::AssocValue;
pub use bufvec::BufVec;
pub use bufvec_error::BufVecError;
pub use bufvec_iter::{BufVecIter, BufVecPairIter};
pub use matcher::{iter_match, StreamOp, StructuralPseudoname};
pub use pool_error::U8PoolError;
pub use pool_iter::{U8PoolAssocIter, U8PoolAssocRevIter, U8PoolIter, U8PoolPairIter, U8PoolRevIter};
pub use scan::{Options, StructurePosition};
pub use stack::ContextIter;
pub use u8pool::U8Pool;
