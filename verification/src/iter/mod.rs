pub mod parallel;
pub mod sequential;
pub mod state;

pub use self::parallel::{IntoParIter, IterProducer};
pub use self::sequential::{into_iter_from_state, IntoIter};
pub use self::state::IterState;
