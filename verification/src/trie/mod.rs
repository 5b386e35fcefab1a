pub mod key;
pub mod key_impls;
pub mod bits;
pub mod entry;
pub mod node;
pub mod lemmas;
pub mod hot;
pub mod lookup;
pub mod laws;
pub mod insert;
pub mod remove;
pub mod scan;
pub mod dot;
pub mod steps;
pub mod inspect;
pub mod paths;

pub use key::{HotKey, KeyOrder, find_first_diff_bit};
pub use entry::Entry;
pub use node::HOTNode;
pub use hot::HOT;
pub use hot::{InsertResult, RemoveResult, RemovalResult, SearchStep, SearchResult, SearchState, next_search_state};
