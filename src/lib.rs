//! A resolver for circuit witnesses: variables are assigned directly or
//! computed by registered resolutions from other variables. Registrations are
//! sequenced into an execution order as soon as their inputs are known, grouped
//! into chunks whose members do not depend on one another, and run by a window
//! that resolves their outputs in order. A run can be recorded and played back
//! in the same order.
//!
//! The core state machine is `CircuitResolver`; running the resolution
//! closures (on whatever thread) is left to its caller, who takes each job
//! from `next_job` and hands the results to `complete_next`.

pub mod primitives;
pub mod values;
pub mod resolver_box;
pub mod record;
pub mod order;
pub mod resolver;
pub mod laws;
mod lemmas;
pub mod witness;

pub use order::{ExecOrder, OrderInfo};
pub use primitives::{OrderIx, Place, ResolverIx, ResolverIxType};
pub use record::{
    ResolutionRecord, ResolutionRecordItem, ResolutionRecordSource, ResolutionRecordWriter,
};
pub use resolver::{
    CircuitResolver, CircuitResolverOpts, Job, Producer, ResolverCommonData, ResolverError,
    SortingMode,
};
pub use values::{Metadata, Values};
pub use witness::{Awaiter, TrivialWitnessCastable, WitnessSource, WitnessSourceAwaitable};
