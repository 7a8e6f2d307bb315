//! The decisions of a three-way merge of SQLite databases.
//!
//! A merge driver gets three versions of a database: the common ancestor (base),
//! our version, and their version. The session extension of SQLite can compute the
//! changeset from base to theirs and apply it to ours, which is a three-way merge
//! keyed by primary key. This library decides everything around that:
//!
//!   - whether the three versions can be merged at all ([`schema`]),
//!   - what becomes of each row on which both sides disagree ([`merge`], by the
//!     policies of [`config`], with the rows that [`lookup`] finds),
//!   - whether the result is sound ([`checks`]),
//!   - in which order all of it is done ([`run`]), and
//!   - how a refusal is reported ([`error`]).
//!
//! What holds of all this as a whole is stated and proved in [`tokens`] and
//! [`normal_form`] (of SQL texts), [`divergence`] (of schemas), [`rules`] (of
//! configurations), [`answers`] (of conflicts), and [`script`] and [`course`] (of the
//! whole merge).
//!
//! It opens no database itself. A driver holds the databases and talks to
//! [`run::MergeRun`].
pub mod answers;
pub mod checks;
pub mod config;
pub mod course;
pub mod divergence;
pub mod error;
pub mod lookup;
pub mod merge;
pub mod normal_form;
pub mod rules;
pub mod run;
pub mod schema;
pub mod script;
pub mod sql;
pub mod text;
pub mod tokens;

pub use config::{ConfigError, PolicyConfig};
pub use error::MergeError;
pub use merge::ConflictPolicy;
pub use run::MergeRun;
