//! The backend that leaves everything as it is.

use crate::errors::DFWError;
use crate::iptables::{IPTables, Output};
use vstd::prelude::*;
use vstd::string::*;

verus! {

/// The backend for a dry run: it takes every operation, does nothing, keeps
/// nothing, and answers each with the empty value of its kind: `false`, the
/// empty string, the empty list, the synthetic output.
pub struct IPTablesDummy;

impl IPTables for IPTablesDummy {
    fn get_policy(&mut self, table: &str, chain: &str) -> (r: Result<String, DFWError>)
        ensures
            r matches Ok(s) && s@ == Seq::<char>::empty(),
    {
        Ok(String::new())
    }

    fn set_policy(&mut self, table: &str, chain: &str, policy: &str) -> (r: Result<bool, DFWError>)
        ensures
            r == Ok::<bool, DFWError>(false),
    {
        Ok(false)
    }

    fn execute(&mut self, table: &str, command: &str) -> (r: Result<Output, DFWError>)
        ensures
            r matches Ok(o) && o.is_synthetic(),
    {
        Ok(Output::synthetic())
    }

    fn rule_exists(&mut self, table: &str, chain: &str, rule: &str) -> (r: Result<bool, DFWError>)
        ensures
            r == Ok::<bool, DFWError>(false),
    {
        Ok(false)
    }

    fn chain_exists(&mut self, table: &str, chain: &str) -> (r: Result<bool, DFWError>)
        ensures
            r == Ok::<bool, DFWError>(false),
    {
        Ok(false)
    }

    fn insert(
        &mut self,
        table: &str,
        chain: &str,
        rule: &str,
        position: i32,
    ) -> (r: Result<bool, DFWError>)
        ensures
            r == Ok::<bool, DFWError>(false),
    {
        Ok(false)
    }

    fn insert_unique(
        &mut self,
        table: &str,
        chain: &str,
        rule: &str,
        position: i32,
    ) -> (r: Result<bool, DFWError>)
        ensures
            r == Ok::<bool, DFWError>(false),
    {
        Ok(false)
    }

    fn replace(
        &mut self,
        table: &str,
        chain: &str,
        rule: &str,
        position: i32,
    ) -> (r: Result<bool, DFWError>)
        ensures
            r == Ok::<bool, DFWError>(false),
    {
        Ok(false)
    }

    fn append(&mut self, table: &str, chain: &str, rule: &str) -> (r: Result<bool, DFWError>)
        ensures
            r == Ok::<bool, DFWError>(false),
    {
        Ok(false)
    }

    fn append_unique(&mut self, table: &str, chain: &str, rule: &str) -> (r: Result<bool, DFWError>)
        ensures
            r == Ok::<bool, DFWError>(false),
    {
        Ok(false)
    }

    fn append_replace(
        &mut self,
        table: &str,
        chain: &str,
        rule: &str,
    ) -> (r: Result<bool, DFWError>)
        ensures
            r == Ok::<bool, DFWError>(false),
    {
        Ok(false)
    }

    fn delete(&mut self, table: &str, chain: &str, rule: &str) -> (r: Result<bool, DFWError>)
        ensures
            r == Ok::<bool, DFWError>(false),
    {
        Ok(false)
    }

    fn delete_all(&mut self, table: &str, chain: &str, rule: &str) -> (r: Result<bool, DFWError>)
        ensures
            r == Ok::<bool, DFWError>(false),
    {
        Ok(false)
    }

    fn list(&mut self, table: &str, chain: &str) -> (r: Result<Vec<String>, DFWError>)
        ensures
            r matches Ok(v) && v@ == Seq::<String>::empty(),
    {
        Ok(Vec::new())
    }

    fn list_table(&mut self, table: &str) -> (r: Result<Vec<String>, DFWError>)
        ensures
            r matches Ok(v) && v@ == Seq::<String>::empty(),
    {
        Ok(Vec::new())
    }

    fn list_chains(&mut self, table: &str) -> (r: Result<Vec<String>, DFWError>)
        ensures
            r matches Ok(v) && v@ == Seq::<String>::empty(),
    {
        Ok(Vec::new())
    }

    fn new_chain(&mut self, table: &str, chain: &str) -> (r: Result<bool, DFWError>)
        ensures
            r == Ok::<bool, DFWError>(false),
    {
        Ok(false)
    }

    fn flush_chain(&mut self, table: &str, chain: &str) -> (r: Result<bool, DFWError>)
        ensures
            r == Ok::<bool, DFWError>(false),
    {
        Ok(false)
    }

    fn rename_chain(
        &mut self,
        table: &str,
        old_chain: &str,
        new_chain: &str,
    ) -> (r: Result<bool, DFWError>)
        ensures
            r == Ok::<bool, DFWError>(false),
    {
        Ok(false)
    }

    fn delete_chain(&mut self, table: &str, chain: &str) -> (r: Result<bool, DFWError>)
        ensures
            r == Ok::<bool, DFWError>(false),
    {
        Ok(false)
    }

    fn flush_table(&mut self, table: &str) -> (r: Result<bool, DFWError>)
        ensures
            r == Ok::<bool, DFWError>(false),
    {
        Ok(false)
    }

    fn commit(&mut self) -> (r: Result<bool, DFWError>)
        ensures
            r == Ok::<bool, DFWError>(false),
    {
        Ok(false)
    }
}

} // verus!
