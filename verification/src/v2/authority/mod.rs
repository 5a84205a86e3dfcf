//! The authority's retained state and its transitions.
//!
//! The tables are plain rows. A transition checks everything it needs, changes the rows and
//! returns its answer, or refuses and leaves every row as it was. What comes from outside (the
//! clock, the answers of the authorization provider, what a payload store still holds) is an
//! argument.

pub mod acceptance;
pub mod accounts;
pub mod caution;
pub mod conduct;
pub mod delivery;
pub mod evidence;
pub mod exchange;
pub mod promises;
pub mod reconcile;
pub mod release;
pub mod results;
pub mod retention;
pub mod retirement;
pub mod rounds;
pub mod scopes;
pub mod sessions;
pub mod settlement;
pub mod store;
pub mod survey;
pub mod table;
