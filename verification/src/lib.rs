//! Orlando: compositional data transformation with transducers.
//!
//! A transducer transforms a stream of inputs into a stream of outputs one
//! input at a time and may end the stream early. Transducers compose
//! (`Transducer::compose`), and collectors run a composed pipeline over a
//! source in a single pass. Every operation is specified over `outputs`, the
//! outputs of a fresh run of a transducer over a whole source.

pub mod fnspec;
pub mod step;
pub mod transducer;
pub mod transforms;
pub mod logic;
pub mod numeric;
pub mod collectors;
pub mod ranking;
pub mod combine;
pub mod sampling;
pub mod iter_ext;
pub mod optics;
pub mod laws;
pub mod transform_laws;
pub mod geometric_optics;
pub mod pipeline;

pub use step::{cont, is_stopped, stop, unwrap_step, Step};
pub use transducer::{Compose, Identity, Transducer};
pub use transforms::{
    Chunk, Drop, DropWhile, Filter, FlatMap, Interpose, MapFn, Reject, RepeatEach, Scan, Take,
    TakeWhile, Tap, Unique, UniqueBy,
};
pub use collectors::{
    cartesian_product, contains, count, cycle, difference, drop_last, every, find, first,
    frequencies, group_by, intersection, last, max, max_by, merge, min, min_by, mode, none,
    partition, partition_by, product, range, reduce, repeat, reservoir_sample, reverse, some,
    sort_by, sort_with, sum, symmetric_difference, take_last, to_vec, to_vec_chunked, top_k, unfold, union, zip,
    zip_longest, zip_with,
};
pub use pipeline::Pipeline;
pub use logic::{all_pass, any_pass, both, complement, either, IfElse, Unless, When};
