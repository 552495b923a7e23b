//! Verified core of the MUSCE engine: entity relations and the structural
//! layer of a world (containment, cascades, movement facts, descendant walks),
//! secondary indexes, the affordance vocabulary, capability authorization,
//! gauge algebra, canonical affordance schemas and their registration checks,
//! goal arbitration and planning, the session floor and command dispatch, the
//! account authority and account operations, and the tick loop's bookkeeping.

pub mod account;
pub mod accounts;
pub mod affordance;
pub mod arbiter;
pub mod audience;
pub mod authority;
pub mod caps;
pub mod clock;
pub mod control;
pub mod dispatch;
pub mod driver;
pub mod fact;
pub mod gauge;
pub mod id;
pub mod index;
pub mod indexes;
pub mod messages;
pub mod names;
pub mod offers;
pub mod password;
pub mod perform;
pub mod planner;
pub mod registry;
pub mod relation;
pub mod schema;
pub mod session;
pub mod state;
pub mod store;
pub mod structure;
pub mod text;
pub mod validation;
pub mod walk;
pub mod world_view;
