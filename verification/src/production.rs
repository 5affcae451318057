//! The commodity-exchange collaborator: a ledger the simulation host owns.
//! Only its query and registration interface belongs to this core; its
//! production and consumption arithmetic is the host's business.

pub mod exchange;
