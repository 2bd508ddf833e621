//! Finds the best-scoring way to transform a base item by applying an ordered
//! sequence of modifier ingredients, each of which toggles binary properties
//! (effects) on the item. The crate holds the property-transition engine, the
//! candidate enumeration, the scoring rules, the admission filter, the ranked
//! comparator, and the exhaustive search that ties them together.

pub mod filter;
pub mod game_data;
pub mod mix;
pub mod search;
