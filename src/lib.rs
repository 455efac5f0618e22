//! Sorts incoming mail into mailboxes derived from each message's recipient
//! address, creating the mailbox hierarchy on demand.

pub mod address;
pub mod hierarchy;
pub mod scan;
pub mod reconcile;
pub mod notify;
pub mod sync;
