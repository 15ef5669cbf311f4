//! A semi-sorted list of voters, kept as doubly-linked bags.
//!
//! Each bag holds the voters whose vote weight lies within one range and is identified by the upper
//! end of that range. [`List`] holds the bags, the nodes that link the voters of each bag together,
//! the number of voters and the thresholds that separate the bags.

pub mod account;
pub mod bag;
pub mod ending;
pub mod entries;
pub mod following;
pub mod joining;
pub mod laws;
pub mod leaving;
pub mod links;
pub mod list;
pub mod locality;
pub mod migrate;
pub mod model;
pub mod node;
pub mod thresholds;

pub use account::AccountId;
pub use bag::Bag;
pub use list::List;
pub use node::Node;
pub use thresholds::notional_bag_for;
