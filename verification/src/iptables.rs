//! The operations that every backend offers, and the plain types they share.

pub use crate::dummy::IPTablesDummy;
use crate::errors::DFWError;
pub use crate::logger::IPTablesLogger;
pub use crate::restore::{IPTablesRestore, RestoreRun};
use vstd::prelude::*;

verus! {

/// The version of the IP protocol that a backend works for.
#[derive(Clone, Copy, Debug, PartialEq, Eq)]
pub enum IPVersion {
    /// IP protocol version 4
    IPv4,
    /// IP protocol version 6
    IPv6,
}

/// The raw wait status of an output that no process stands behind.
pub const SYNTHETIC_STATUS: i32 = 9;

/// What a command left behind: its raw wait status and what it wrote to its
/// two output streams.
#[derive(Debug, PartialEq, Eq)]
pub struct Output {
    pub status: i32,
    pub stdout: Vec<u8>,
    pub stderr: Vec<u8>,
}

impl Output {
    /// Whether this is the output that stands for a command that was not run:
    /// the synthetic status and nothing written.
    pub open spec fn is_synthetic(self) -> bool {
        &&& self.status == SYNTHETIC_STATUS
        &&& self.stdout@ == Seq::<u8>::empty()
        &&& self.stderr@ == Seq::<u8>::empty()
    }

    /// The output that stands for a command that was not run.
    pub fn synthetic() -> (o: Output)
        ensures
            o.is_synthetic(),
    {
        Output { status: SYNTHETIC_STATUS, stdout: Vec::new(), stderr: Vec::new() }
    }
}

/// The operations on the firewall that a caller may ask of a backend. When
/// and how they take effect is the backend's matter.
pub trait IPTables {
    /// Get the default policy for a table/chain.
    fn get_policy(&mut self, table: &str, chain: &str) -> Result<String, DFWError>;

    /// Set the default policy for a table/chain.
    fn set_policy(&mut self, table: &str, chain: &str, policy: &str) -> Result<bool, DFWError>;

    /// Executes a given `command` on the chain.
    /// Returns the command output if successful.
    fn execute(&mut self, table: &str, command: &str) -> Result<Output, DFWError>;

    /// Checks for the existence of the `rule` in the table/chain (the
    /// operation `exists`).
    /// Returns true if the rule exists.
    fn rule_exists(&mut self, table: &str, chain: &str, rule: &str) -> Result<bool, DFWError>;

    /// Checks for the existence of the `chain` in the table.
    /// Returns true if the chain exists.
    fn chain_exists(&mut self, table: &str, chain: &str) -> Result<bool, DFWError>;

    /// Inserts `rule` in the `position` to the table/chain.
    /// Returns `true` if the rule is inserted.
    fn insert(
        &mut self,
        table: &str,
        chain: &str,
        rule: &str,
        position: i32,
    ) -> Result<bool, DFWError>;

    /// Inserts `rule` in the `position` to the table/chain if it does not exist.
    /// Returns `true` if the rule is inserted.
    fn insert_unique(
        &mut self,
        table: &str,
        chain: &str,
        rule: &str,
        position: i32,
    ) -> Result<bool, DFWError>;

    /// Replaces `rule` in the `position` to the table/chain.
    /// Returns `true` if the rule is replaced.
    fn replace(
        &mut self,
        table: &str,
        chain: &str,
        rule: &str,
        position: i32,
    ) -> Result<bool, DFWError>;

    /// Appends `rule` to the table/chain.
    /// Returns `true` if the rule is appended.
    fn append(&mut self, table: &str, chain: &str, rule: &str) -> Result<bool, DFWError>;

    /// Appends `rule` to the table/chain if it does not exist.
    /// Returns `true` if the rule is appended.
    fn append_unique(&mut self, table: &str, chain: &str, rule: &str) -> Result<bool, DFWError>;

    /// Appends or replaces `rule` to the table/chain if it does not exist.
    /// Returns `true` if the rule is appended or replaced.
    fn append_replace(&mut self, table: &str, chain: &str, rule: &str) -> Result<bool, DFWError>;

    /// Deletes `rule` from the table/chain.
    /// Returns `true` if the rule is deleted.
    fn delete(&mut self, table: &str, chain: &str, rule: &str) -> Result<bool, DFWError>;

    /// Deletes all repetition of the `rule` from the table/chain.
    /// Returns `true` if the rules are deleted.
    fn delete_all(&mut self, table: &str, chain: &str, rule: &str) -> Result<bool, DFWError>;

    /// Lists rules in the table/chain.
    fn list(&mut self, table: &str, chain: &str) -> Result<Vec<String>, DFWError>;

    /// Lists rules in the table.
    fn list_table(&mut self, table: &str) -> Result<Vec<String>, DFWError>;

    /// Lists the name of each chain in the table.
    fn list_chains(&mut self, table: &str) -> Result<Vec<String>, DFWError>;

    /// Creates a new user-defined chain.
    /// Returns `true` if the chain is created.
    fn new_chain(&mut self, table: &str, chain: &str) -> Result<bool, DFWError>;

    /// Flushes (deletes all rules) a chain.
    /// Returns `true` if the chain is flushed.
    fn flush_chain(&mut self, table: &str, chain: &str) -> Result<bool, DFWError>;

    /// Renames a chain in the table.
    /// Returns `true` if the chain is renamed.
    fn rename_chain(
        &mut self,
        table: &str,
        old_chain: &str,
        new_chain: &str,
    ) -> Result<bool, DFWError>;

    /// Deletes a user-defined chain in the table.
    /// Returns `true` if the chain is deleted.
    fn delete_chain(&mut self, table: &str, chain: &str) -> Result<bool, DFWError>;

    /// Flushes all chains in a table.
    /// Returns `true` if the chains are flushed.
    fn flush_table(&mut self, table: &str) -> Result<bool, DFWError>;

    /// Commit the changes queued.
    /// Only has an effect on some implementations
    fn commit(&mut self) -> Result<bool, DFWError>;
}

} // verus!
