pub mod search;
pub mod sigil;
pub mod traits;
pub mod wrightstone;

pub use search::{SearchPool, SearchQuery, SearchResult};
pub use sigil::Sigil;
pub use traits::{Trait, TraitKind, TraitSet};
pub use wrightstone::Wrightstone;
