//! K-means clustering over dense sample matrices.
//!
//! The samples are handed over as one flat buffer. [`KMeans::new`] pads
//! every sample to a multiple of the lane width and splits the samples into
//! blocks, which the phases of an iteration work through in parallel. A run
//! chooses its first centroids by one of the strategies of [`inits`] and
//! then iterates, either on all samples ([`variants::lloyd`]) or on random
//! batches of them ([`variants::minibatch`]), until its [`AbortStrategy`]
//! or the iteration limit stops it.
//!
//! The engine is generic over the number type ([`Primitive`]) and the
//! dissimilarity measure ([`DistanceFunction`]). Whole numbers are a number
//! type out of the box ([`integers`]); floating-point types are brought in
//! by implementing [`Primitive`] for them. Every function states what
//! it computes in terms of the operations of the number type, in the order
//! in which they are applied, so that a result is determined by the
//! samples, the parameters and the random draws, whatever the number of
//! worker threads.
//!
//! All random decisions are drawn from one `rand::rngs::StdRng`, in
//! sequence. Each function that draws has a counterpart that takes the
//! draws as arguments.

pub mod abort_strategy;
pub mod api;
pub mod assign;
pub mod distances;
pub mod inits;
pub mod integers;
pub mod memory;
pub mod rng;
pub mod theory;
pub mod update;
pub mod variants;

pub use abort_strategy::AbortStrategy;
pub use api::{DistanceFunction, KMeans, KMeansError, KMeansResult, KMeansState};
pub use distances::{EuclideanDistance, HistogramDistance};
pub use memory::{Primitive, StrideBuffer};
pub use variants::Initialization;
