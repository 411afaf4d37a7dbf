//! Pick an item from a named list of choices, using one of six selection
//! models, and record the state changes (ticket counts, list order) that make
//! future picks depend on past outcomes.
//!
//! The heart of the crate is [`Engine`]: it draws a candidate, presents it
//! through a [`Ui`] for human acceptance or rejection, and mutates the
//! category's persisted state once a candidate is accepted. Randomness comes
//! from an injected [`RandomSource`], so a deterministic source gives
//! reproducible picks.

pub mod config;
pub mod engine;
pub mod pool;
pub mod scripted;
pub mod table;

pub use config::ConfigCategory;
pub use config::ConfigEntry;
pub use config::InventoryChoice;
pub use config::LotteryChoice;
pub use config::ValueError;
pub use config::WeightedChoice;
pub use config::config_wf;
pub use config::default_weight;
pub use engine::Engine;
pub use engine::RandomSource;
pub use engine::Ui;
pub use engine::is_category_pickable;
pub use scripted::GaussianCall;
pub use scripted::ScriptedSource;
pub use scripted::ScriptedUi;
pub use table::Cell;
pub use table::Row;
pub use table::Table;
