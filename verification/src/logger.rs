//! The backend that only records what is asked of it.

use crate::errors::DFWError;
use crate::iptables::{IPTables, Output};
use crate::text::{decimal, decimal_string, join, joined, slice_views};
use vstd::prelude::*;
use vstd::string::*;

verus! {

/// One recorded call: the name of the operation, and its arguments joined by
/// single spaces, if it had any.
pub type Call = (Seq<char>, Option<Seq<char>>);

/// The record of a call of `function` with the arguments `params`.
pub open spec fn call(function: Seq<char>, params: Seq<Seq<char>>) -> Call {
    (
        function,
        if params.len() == 0 {
            None
        } else {
            Some(joined(params, " "@))
        },
    )
}

/// A log as plain values.
pub open spec fn log_views(logs: Seq<(String, Option<String>)>) -> Seq<Call> {
    logs.map_values(
        |e: (String, Option<String>)|
            (
                e.0@,
                match e.1 {
                    Some(p) => Some(p@),
                    None => None,
                },
            ),
    )
}

/// The backend for tests: it takes every operation, touches nothing, and
/// keeps a log of the calls in their order. Each call is answered with the
/// empty value of its kind: `false`, the empty string, the empty list, the
/// synthetic output.
pub struct IPTablesLogger {
    logs: Vec<(String, Option<String>)>,
}

impl View for IPTablesLogger {
    type V = Seq<Call>;

    closed spec fn view(&self) -> Seq<Call> {
        log_views(self.logs@)
    }
}

impl Default for IPTablesLogger {
    fn default() -> (l: IPTablesLogger)
        ensures
            l@ == Seq::<Call>::empty(),
    {
        IPTablesLogger::new()
    }
}

impl IPTablesLogger {
    /// A backend with an empty log.
    pub fn new() -> (l: IPTablesLogger)
        ensures
            l@ == Seq::<Call>::empty(),
    {
        IPTablesLogger { logs: Vec::new() }
    }

    /// Adds the call of `function` with the arguments `params` to the log.
    pub fn log(&mut self, function: &str, params: &[&str])
        ensures
            final(self)@ == old(self)@.push(call(function@, slice_views(params@))),
    {
        let joined_params = if params.len() == 0 {
            None
        } else {
            Some(join(params, " "))
        };
        let entry = (function.to_owned(), joined_params);
        self.logs.push(entry);
    }

    /// A copy of the log: the calls so far, in their order.
    pub fn logs(&self) -> (logs: Vec<(String, Option<String>)>)
        ensures
            log_views(logs@) == self@,
    {
        let mut logs: Vec<(String, Option<String>)> = Vec::new();
        let n = self.logs.len();
        let mut i: usize = 0;
        while i < n
            invariant
                i <= n,
                n == self.logs@.len(),
                log_views(logs@) =~= self@.take(i as int),
            decreases n - i,
        {
            let function = self.logs[i].0.clone();
            let params = match &self.logs[i].1 {
                Some(p) => Some(p.clone()),
                None => None,
            };
            let entry = (function, params);
            proof {
                assert(log_views(logs@.push(entry)) =~= log_views(logs@).push(self@[i as int]));
            }
            logs.push(entry);
            i = i + 1;
        }
        logs
    }
}

impl IPTables for IPTablesLogger {
    fn get_policy(&mut self, table: &str, chain: &str) -> (r: Result<String, DFWError>)
        ensures
            r matches Ok(s) && s@ == Seq::<char>::empty(),
            final(self)@ == old(self)@.push(call("get_policy"@, seq![table@, chain@])),
    {
        let params = [table, chain];
        assert(slice_views(params@) =~= seq![table@, chain@]);
        self.log("get_policy", &params);
        Ok(String::new())
    }

    fn set_policy(&mut self, table: &str, chain: &str, policy: &str) -> (r: Result<bool, DFWError>)
        ensures
            r == Ok::<bool, DFWError>(false),
            final(self)@ == old(self)@.push(call("set_policy"@, seq![table@, chain@, policy@])),
    {
        let params = [table, chain, policy];
        assert(slice_views(params@) =~= seq![table@, chain@, policy@]);
        self.log("set_policy", &params);
        Ok(false)
    }

    fn execute(&mut self, table: &str, command: &str) -> (r: Result<Output, DFWError>)
        ensures
            r matches Ok(o) && o.is_synthetic(),
            final(self)@ == old(self)@.push(call("execute"@, seq![table@, command@])),
    {
        let params = [table, command];
        assert(slice_views(params@) =~= seq![table@, command@]);
        self.log("execute", &params);
        Ok(Output::synthetic())
    }

    fn rule_exists(&mut self, table: &str, chain: &str, rule: &str) -> (r: Result<bool, DFWError>)
        ensures
            r == Ok::<bool, DFWError>(false),
            final(self)@ == old(self)@.push(call("exists"@, seq![table@, chain@, rule@])),
    {
        let params = [table, chain, rule];
        assert(slice_views(params@) =~= seq![table@, chain@, rule@]);
        self.log("exists", &params);
        Ok(false)
    }

    fn chain_exists(&mut self, table: &str, chain: &str) -> (r: Result<bool, DFWError>)
        ensures
            r == Ok::<bool, DFWError>(false),
            final(self)@ == old(self)@.push(call("chain_exists"@, seq![table@, chain@])),
    {
        let params = [table, chain];
        assert(slice_views(params@) =~= seq![table@, chain@]);
        self.log("chain_exists", &params);
        Ok(false)
    }

    fn insert(
        &mut self,
        table: &str,
        chain: &str,
        rule: &str,
        position: i32,
    ) -> (r: Result<bool, DFWError>)
        ensures
            r == Ok::<bool, DFWError>(false),
            final(self)@ == old(self)@.push(
                call("insert"@, seq![table@, chain@, rule@, decimal(position as int)]),
            ),
    {
        let position_text = decimal_string(position);
        let params = [table, chain, rule, position_text.as_str()];
        assert(slice_views(params@) =~= seq![table@, chain@, rule@, decimal(position as int)]);
        self.log("insert", &params);
        Ok(false)
    }

    fn insert_unique(
        &mut self,
        table: &str,
        chain: &str,
        rule: &str,
        position: i32,
    ) -> (r: Result<bool, DFWError>)
        ensures
            r == Ok::<bool, DFWError>(false),
            final(self)@ == old(self)@.push(
                call("insert_unique"@, seq![table@, chain@, rule@, decimal(position as int)]),
            ),
    {
        let position_text = decimal_string(position);
        let params = [table, chain, rule, position_text.as_str()];
        assert(slice_views(params@) =~= seq![table@, chain@, rule@, decimal(position as int)]);
        self.log("insert_unique", &params);
        Ok(false)
    }

    fn replace(
        &mut self,
        table: &str,
        chain: &str,
        rule: &str,
        position: i32,
    ) -> (r: Result<bool, DFWError>)
        ensures
            r == Ok::<bool, DFWError>(false),
            final(self)@ == old(self)@.push(
                call("replace"@, seq![table@, chain@, rule@, decimal(position as int)]),
            ),
    {
        let position_text = decimal_string(position);
        let params = [table, chain, rule, position_text.as_str()];
        assert(slice_views(params@) =~= seq![table@, chain@, rule@, decimal(position as int)]);
        self.log("replace", &params);
        Ok(false)
    }

    fn append(&mut self, table: &str, chain: &str, rule: &str) -> (r: Result<bool, DFWError>)
        ensures
            r == Ok::<bool, DFWError>(false),
            final(self)@ == old(self)@.push(call("append"@, seq![table@, chain@, rule@])),
    {
        let params = [table, chain, rule];
        assert(slice_views(params@) =~= seq![table@, chain@, rule@]);
        self.log("append", &params);
        Ok(false)
    }

    fn append_unique(&mut self, table: &str, chain: &str, rule: &str) -> (r: Result<bool, DFWError>)
        ensures
            r == Ok::<bool, DFWError>(false),
            final(self)@ == old(self)@.push(call("append_unique"@, seq![table@, chain@, rule@])),
    {
        let params = [table, chain, rule];
        assert(slice_views(params@) =~= seq![table@, chain@, rule@]);
        self.log("append_unique", &params);
        Ok(false)
    }

    fn append_replace(
        &mut self,
        table: &str,
        chain: &str,
        rule: &str,
    ) -> (r: Result<bool, DFWError>)
        ensures
            r == Ok::<bool, DFWError>(false),
            final(self)@ == old(self)@.push(call("append_replace"@, seq![table@, chain@, rule@])),
    {
        let params = [table, chain, rule];
        assert(slice_views(params@) =~= seq![table@, chain@, rule@]);
        self.log("append_replace", &params);
        Ok(false)
    }

    fn delete(&mut self, table: &str, chain: &str, rule: &str) -> (r: Result<bool, DFWError>)
        ensures
            r == Ok::<bool, DFWError>(false),
            final(self)@ == old(self)@.push(call("delete"@, seq![table@, chain@, rule@])),
    {
        let params = [table, chain, rule];
        assert(slice_views(params@) =~= seq![table@, chain@, rule@]);
        self.log("delete", &params);
        Ok(false)
    }

    fn delete_all(&mut self, table: &str, chain: &str, rule: &str) -> (r: Result<bool, DFWError>)
        ensures
            r == Ok::<bool, DFWError>(false),
            final(self)@ == old(self)@.push(call("delete_all"@, seq![table@, chain@, rule@])),
    {
        let params = [table, chain, rule];
        assert(slice_views(params@) =~= seq![table@, chain@, rule@]);
        self.log("delete_all", &params);
        Ok(false)
    }

    fn list(&mut self, table: &str, chain: &str) -> (r: Result<Vec<String>, DFWError>)
        ensures
            r matches Ok(v) && v@ == Seq::<String>::empty(),
            final(self)@ == old(self)@.push(call("list"@, seq![table@, chain@])),
    {
        let params = [table, chain];
        assert(slice_views(params@) =~= seq![table@, chain@]);
        self.log("list", &params);
        Ok(Vec::new())
    }

    fn list_table(&mut self, table: &str) -> (r: Result<Vec<String>, DFWError>)
        ensures
            r matches Ok(v) && v@ == Seq::<String>::empty(),
            final(self)@ == old(self)@.push(call("list_table"@, seq![table@])),
    {
        let params = [table];
        self.log("list_table", &params);
        Ok(Vec::new())
    }

    fn list_chains(&mut self, table: &str) -> (r: Result<Vec<String>, DFWError>)
        ensures
            r matches Ok(v) && v@ == Seq::<String>::empty(),
            final(self)@ == old(self)@.push(call("list_chains"@, seq![table@])),
    {
        let params = [table];
        self.log("list_chains", &params);
        Ok(Vec::new())
    }

    fn new_chain(&mut self, table: &str, chain: &str) -> (r: Result<bool, DFWError>)
        ensures
            r == Ok::<bool, DFWError>(false),
            final(self)@ == old(self)@.push(call("new_chain"@, seq![table@, chain@])),
    {
        let params = [table, chain];
        assert(slice_views(params@) =~= seq![table@, chain@]);
        self.log("new_chain", &params);
        Ok(false)
    }

    fn flush_chain(&mut self, table: &str, chain: &str) -> (r: Result<bool, DFWError>)
        ensures
            r == Ok::<bool, DFWError>(false),
            final(self)@ == old(self)@.push(call("flush_chain"@, seq![table@, chain@])),
    {
        let params = [table, chain];
        assert(slice_views(params@) =~= seq![table@, chain@]);
        self.log("flush_chain", &params);
        Ok(false)
    }

    fn rename_chain(
        &mut self,
        table: &str,
        old_chain: &str,
        new_chain: &str,
    ) -> (r: Result<bool, DFWError>)
        ensures
            r == Ok::<bool, DFWError>(false),
            final(self)@ == old(self)@.push(
                call("rename_chain"@, seq![table@, old_chain@, new_chain@]),
            ),
    {
        let params = [table, old_chain, new_chain];
        assert(slice_views(params@) =~= seq![table@, old_chain@, new_chain@]);
        self.log("rename_chain", &params);
        Ok(false)
    }

    fn delete_chain(&mut self, table: &str, chain: &str) -> (r: Result<bool, DFWError>)
        ensures
            r == Ok::<bool, DFWError>(false),
            final(self)@ == old(self)@.push(call("delete_chain"@, seq![table@, chain@])),
    {
        let params = [table, chain];
        assert(slice_views(params@) =~= seq![table@, chain@]);
        self.log("delete_chain", &params);
        Ok(false)
    }

    fn flush_table(&mut self, table: &str) -> (r: Result<bool, DFWError>)
        ensures
            r == Ok::<bool, DFWError>(false),
            final(self)@ == old(self)@.push(call("flush_table"@, seq![table@])),
    {
        let params = [table];
        self.log("flush_table", &params);
        Ok(false)
    }

    fn commit(&mut self) -> (r: Result<bool, DFWError>)
        ensures
            r == Ok::<bool, DFWError>(false),
            final(self)@ == old(self)@.push(call("commit"@, Seq::<Seq<char>>::empty())),
    {
        let params: [&str; 0] = [];
        self.log("commit", &params);
        Ok(false)
    }
}

} // verus!
