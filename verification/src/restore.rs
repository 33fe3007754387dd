//! The staging backend: it records what is asked of it, and on commit hands
//! the whole as one text to `iptables-restore`, which applies it atomically.

use crate::errors::{is_unsupported, DFWError};
use crate::iptables::{IPVersion, Output};
use crate::order::{in_order, lemma_in_order_is, same};
use crate::sorted::SortedMap;
use crate::staged::{
    after_append, after_append_replace, after_delete, after_execute, after_flush_chain,
    after_flush_table, after_new_chain, after_set_policy, blocks, empty_table, has_append,
    is_finite,
    lemma_unlines_concat, lemma_unlines_push, lines_of, lines_of_chain, listed, listed_chains,
    listed_table, policies_in_order, policy_line, policy_lines, recorded, restore_text,
    rules_output, table_lines, table_of, unlines, with_default_policy, Directive, StagedTable,
    Transaction,
};
use crate::text::{split_newlines, trim, trimmed, views};
use vstd::prelude::*;
use vstd::string::*;

verus! {

/// A recorded directive.
pub struct Rule {
    chain: Option<String>,
    text: String,
}

impl View for Rule {
    type V = Directive;

    closed spec fn view(&self) -> Directive {
        Directive {
            chain: match self.chain {
                Some(c) => Some(c@),
                None => None,
            },
            text: self.text@,
        }
    }
}

impl Rule {
    /// Whether this is the line `text` under `chain`.
    fn is(&self, chain: &str, text: &str) -> (b: bool)
        ensures
            b == (self@ == Directive { chain: Some(chain@), text: text@ }),
    {
        match &self.chain {
            Some(c) => same(c.as_str(), chain) && same(self.text.as_str(), text),
            None => false,
        }
    }

    /// Whether this line belongs to `chain`.
    fn of_chain(&self, chain: &str) -> (b: bool)
        ensures
            b == (self@.chain == Some(chain@)),
    {
        match &self.chain {
            Some(c) => same(c.as_str(), chain),
            None => false,
        }
    }
}

/// What is staged for one table.
pub struct Table {
    policies: SortedMap<String>,
    rules: Vec<Rule>,
}

/// The policies of a table as plain values.
pub open spec fn policy_views(policies: Map<Seq<char>, String>) -> Map<Seq<char>, Seq<char>> {
    policies.map_values(|p: String| p@)
}

impl View for Table {
    type V = StagedTable;

    closed spec fn view(&self) -> StagedTable {
        StagedTable {
            policies: policy_views(self.policies@),
            rules: self.rules@.map_values(|r: Rule| r@),
        }
    }
}

impl Table {
    fn new() -> (t: Table)
        ensures
            t@ == empty_table(),
    {
        let t = Table { policies: SortedMap::new(), rules: Vec::new() };
        assert(t@.policies =~= Map::empty());
        assert(t@.rules =~= Seq::empty());
        t
    }

    /// Whether the line `text` is recorded under `chain`.
    fn holds(&self, chain: &str, text: &str) -> (b: bool)
        ensures
            b == self@.rules.contains(Directive { chain: Some(chain@), text: text@ }),
    {
        let ghost wanted = Directive { chain: Some(chain@), text: text@ };
        let n = self.rules.len();
        let mut i: usize = 0;
        while i < n
            invariant
                i <= n,
                n == self.rules@.len(),
                wanted == (Directive { chain: Some(chain@), text: text@ }),
                forall|j: int| 0 <= j < i ==> self@.rules[j] != wanted,
            decreases n - i,
        {
            if self.rules[i].is(chain, text) {
                assert(self@.rules[i as int] == wanted);
                return true;
            }
            i = i + 1;
        }
        false
    }

    /// The lines recorded under `chain`, in their order.
    fn lines_under(&self, chain: &str) -> (lines: Vec<String>)
        ensures
            views(lines@) == lines_of_chain(self@.rules, chain@),
    {
        let mut lines: Vec<String> = Vec::new();
        let n = self.rules.len();
        let mut i: usize = 0;
        while i < n
            invariant
                i <= n,
                n == self.rules@.len(),
                views(lines@) == lines_of_chain(self@.rules.take(i as int), chain@),
            decreases n - i,
        {
            proof {
                let upto = self@.rules.take(i + 1);
                assert(upto.drop_last() =~= self@.rules.take(i as int));
            }
            if self.rules[i].of_chain(chain) {
                let line = self.rules[i].text.clone();
                lines.push(line);
            }
            i = i + 1;
        }
        assert(self@.rules.take(n as int) =~= self@.rules);
        lines
    }

    /// All the recorded lines, in their order.
    fn lines(&self) -> (lines: Vec<String>)
        ensures
            views(lines@) == lines_of(self@.rules),
    {
        let mut lines: Vec<String> = Vec::new();
        let n = self.rules.len();
        let mut i: usize = 0;
        while i < n
            invariant
                i <= n,
                n == self.rules@.len(),
                views(lines@) =~= lines_of(self@.rules).take(i as int),
            decreases n - i,
        {
            let line = self.rules[i].text.clone();
            proof {
                assert(views(lines@.push(line)) =~= views(lines@).push(line@));
            }
            lines.push(line);
            i = i + 1;
        }
        lines
    }

    /// The policies, in the order of their chains.
    fn policies(&self) -> (values: Vec<String>)
        ensures
            views(values@) == policies_in_order(self@.policies),
    {
        let mut values: Vec<String> = Vec::new();
        let n = self.policies.len();
        proof {
            use_type_invariant(&self.policies);
            self.policies.lemma_listing();
            assert(self@.policies.dom() =~= self.policies@.dom());
        }
        let ghost wanted = policies_in_order(self@.policies);
        let mut i: usize = 0;
        while i < n
            invariant
                i <= n,
                n == self.policies.names().len(),
                n == self.policies.values().len(),
                wanted.len() == n,
                forall|j: int| 0 <= j < n ==> #[trigger] wanted[j] == self.policies.values()[j]@,
                views(values@) =~= wanted.take(i as int),
            decreases n - i,
        {
            let value = self.policies.value(i).clone();
            proof {
                assert(views(values@.push(value)) =~= views(values@).push(value@));
            }
            values.push(value);
            i = i + 1;
        }
        values
    }

    /// Writes the block of this table, named `name`, at the end of `w`.
    fn write(&self, name: &str, w: &mut String)
        ensures
            final(w)@ == old(w)@ + unlines(table_lines(name@, self@)),
            self@.policies.dom().finite(),
    {
        let ghost start = w@;
        let ghost policies = self@.policies;
        let ghost chains = self.policies.names();
        proof {
            use_type_invariant(&self.policies);
            self.policies.lemma_listing();
            assert(policies.dom() =~= self.policies@.dom());
        }
        w.append("*");
        w.append(name);
        w.append("\n");
        let ghost mut lines: Seq<Seq<char>> = seq!["*"@ + name@];
        proof {
            lemma_unlines_push(Seq::empty(), "*"@ + name@);
        }
        let n = self.policies.len();
        let mut i: usize = 0;
        while i < n
            invariant
                i <= n,
                n == self.policies.names().len(),
                n == self.policies.values().len(),
                chains == self.policies.names(),
                policies == self@.policies,
                in_order(policies.dom()) == chains,
                forall|j: int|
                    0 <= j < n ==> policies.contains_key(#[trigger] chains[j])
                        && policies[chains[j]] == self.policies.values()[j]@,
                w@ == start + unlines(lines),
                lines == seq!["*"@ + name@] + policy_lines(policies).take(i as int),
            decreases n - i,
        {
            let chain = self.policies.key(i);
            let policy = self.policies.value(i);
            let ghost line = policy_line(chain@, policy@);
            w.append(":");
            w.append(chain);
            w.append(" ");
            w.append(policy.as_str());
            w.append(" [0:0]");
            w.append("\n");
            proof {
                lemma_unlines_push(lines, line);
                assert(policy_lines(policies).take(i + 1) =~= policy_lines(policies).take(
                    i as int,
                ).push(line));
                assert(lines.push(line) =~= seq!["*"@ + name@] + policy_lines(policies).take(
                    i + 1,
                ));
                lines = lines.push(line);
            }
            i = i + 1;
        }
        proof {
            assert(lines =~= seq!["*"@ + name@] + policy_lines(policies) + lines_of(
                self@.rules,
            ).take(0));
        }
        let m = self.rules.len();
        let mut k: usize = 0;
        while k < m
            invariant
                k <= m,
                m == self.rules@.len(),
                policies == self@.policies,
                w@ == start + unlines(lines),
                lines == seq!["*"@ + name@] + policy_lines(policies) + lines_of(self@.rules).take(
                    k as int,
                ),
            decreases m - k,
        {
            let ghost line = self.rules@[k as int].text@;
            w.append(self.rules[k].text.as_str());
            w.append("\n");
            proof {
                lemma_unlines_push(lines, line);
                assert(lines_of(self@.rules).take(k + 1) =~= lines_of(self@.rules).take(
                    k as int,
                ).push(line));
                assert(lines.push(line) =~= seq!["*"@ + name@] + policy_lines(policies) + lines_of(
                    self@.rules,
                ).take(k + 1));
                lines = lines.push(line);
            }
            k = k + 1;
        }
        w.append("COMMIT");
        w.append("\n");
        proof {
            lemma_unlines_push(lines, "COMMIT"@);
            assert(lines.push("COMMIT"@) =~= table_lines(name@, self@));
        }
    }
}

/// Gives `chain` the unset policy where it has none; a chain that has a
/// policy keeps it.
pub fn set_default_policy(policies: &mut SortedMap<String>, chain: &str)
    ensures
        policy_views(final(policies)@) == with_default_policy(policy_views(old(policies)@), chain@),
{
    if !policies.contains_key(chain) {
        policies.insert(chain, String::from_str("-"));
    }
}

/// What running the restore command on a transaction came to. The caller
/// runs the command with the text of [`IPTablesRestore::write_rules`] as its
/// input, and reports here how far that went.
#[derive(Debug, PartialEq, Eq)]
pub enum RestoreRun {
    /// The command could not be started; `reason` says why.
    SpawnFailed { reason: String },
    /// The command was started, but its input stream could not be had.
    NoStdin,
    /// Writing the text to the command failed; `reason` says why.
    WriteFailed { reason: String },
    /// The text was written, but awaiting the command's end failed.
    WaitFailed { reason: String },
    /// The command read the text and ended, with or without success;
    /// `stderr` is what it wrote to its error stream.
    Exited { success: bool, stderr: String },
}

/// The backend that stages every operation and applies all of them at once
/// when the transaction is committed.
///
/// It offers the operations of [`crate::iptables::IPTables`] as methods of
/// its own. Committing needs the restore command to be run, which is the
/// caller's part: see [`IPTablesRestore::commit`].
pub struct IPTablesRestore {
    /// The restore command (`iptables-restore` or `ip6tables-restore`).
    cmd: &'static str,
    /// What is staged, table by table.
    tables: SortedMap<Table>,
}

impl View for IPTablesRestore {
    type V = Transaction;

    closed spec fn view(&self) -> Transaction {
        self.tables@.map_values(|t: Table| t@)
    }
}

/// The name of the restore command for a version of the protocol.
pub open spec fn restore_command(ip_version: IPVersion) -> Seq<char> {
    match ip_version {
        IPVersion::IPv4 => "iptables-restore"@,
        IPVersion::IPv6 => "ip6tables-restore"@,
    }
}

impl IPTablesRestore {
    /// The name of the restore command that a commit is for.
    pub closed spec fn command(&self) -> Seq<char> {
        self.cmd@
    }

    /// A backend with nothing staged. The host is not touched.
    pub fn new(ip_version: IPVersion) -> (r: Result<IPTablesRestore, DFWError>)
        ensures
            r matches Ok(b) && b@ == Map::<Seq<char>, StagedTable>::empty() && b.command()
                == restore_command(ip_version),
    {
        let cmd = match ip_version {
            IPVersion::IPv4 => "iptables-restore",
            IPVersion::IPv6 => "ip6tables-restore",
        };
        let b = IPTablesRestore { cmd, tables: SortedMap::new() };
        Ok(b)
    }

    /// The name of the restore command that a commit is for.
    pub fn cmd(&self) -> (c: &'static str)
        ensures
            c@ == self.command(),
    {
        self.cmd
    }

    /// Records the line `text` for `table`, under `chain` if one is given,
    /// which then has a policy.
    fn record(&mut self, table: &str, chain: Option<&str>, text: String)
        ensures
            final(self)@ == recorded(
                old(self)@,
                table@,
                match chain {
                    Some(c) => Some(c@),
                    None => None,
                },
                text@,
            ),
            final(self).command() == old(self).command(),
    {
        let ghost before = table_of(self@, table@);
        let slot = self.tables.entry(table, Table::new());
        let owner = match chain {
            Some(c) => {
                set_default_policy(&mut slot.policies, c);
                Some(c.to_owned())
            },
            None => None,
        };
        let rule = Rule { chain: owner, text };
        slot.rules.push(rule);
        assert(slot@.rules =~= before.rules.push(rule@));
    }

    /// Stages the appending of `rule` to `chain`. Always succeeds; the flag is
    /// the default one, `false`.
    pub fn append(&mut self, table: &str, chain: &str, rule: &str) -> (r: Result<bool, DFWError>)
        ensures
            r == Ok::<bool, DFWError>(false),
            final(self)@ == after_append(old(self)@, table@, chain@, rule@),
            final(self).command() == old(self).command(),
    {
        let mut text = String::from_str("-A ");
        text.append(chain);
        text.append(" ");
        text.append(rule);
        self.record(table, Some(chain), text);
        Ok(false)
    }

    /// Stages the deletion of `rule` from `chain`, whether or not such a rule
    /// was staged or exists. Always succeeds; the flag is the default one,
    /// `false`.
    pub fn delete(&mut self, table: &str, chain: &str, rule: &str) -> (r: Result<bool, DFWError>)
        ensures
            r == Ok::<bool, DFWError>(false),
            final(self)@ == after_delete(old(self)@, table@, chain@, rule@),
            final(self).command() == old(self).command(),
    {
        let mut text = String::from_str("-D ");
        text.append(chain);
        text.append(" ");
        text.append(rule);
        self.record(table, Some(chain), text);
        Ok(false)
    }

    /// Stages the flushing of `chain`. Always succeeds; the flag is the
    /// default one, `false`.
    pub fn flush_chain(&mut self, table: &str, chain: &str) -> (r: Result<bool, DFWError>)
        ensures
            r == Ok::<bool, DFWError>(false),
            final(self)@ == after_flush_chain(old(self)@, table@, chain@),
            final(self).command() == old(self).command(),
    {
        let mut text = String::from_str("-F ");
        text.append(chain);
        self.record(table, Some(chain), text);
        Ok(false)
    }

    /// Stages the flushing of the whole `table`. Always succeeds; the flag is
    /// the default one, `false`.
    pub fn flush_table(&mut self, table: &str) -> (r: Result<bool, DFWError>)
        ensures
            r == Ok::<bool, DFWError>(false),
            final(self)@ == after_flush_table(old(self)@, table@),
            final(self).command() == old(self).command(),
    {
        self.record(table, None, String::from_str("-F"));
        Ok(false)
    }

    /// Stages `command` as it stands, as a line of `table` that belongs to
    /// no chain. No process is run: the output is the synthetic one.
    pub fn execute(&mut self, table: &str, command: &str) -> (r: Result<Output, DFWError>)
        ensures
            r matches Ok(o) && o.is_synthetic(),
            final(self)@ == after_execute(old(self)@, table@, command@),
            final(self).command() == old(self).command(),
    {
        self.record(table, None, command.to_owned());
        Ok(Output::synthetic())
    }

    /// Gives `chain` the policy `policy`, whatever policy it had. Always
    /// succeeds, with `true`.
    pub fn set_policy(
        &mut self,
        table: &str,
        chain: &str,
        policy: &str,
    ) -> (r: Result<bool, DFWError>)
        ensures
            r == Ok::<bool, DFWError>(true),
            final(self)@ == after_set_policy(old(self)@, table@, chain@, policy@),
            final(self).command() == old(self).command(),
    {
        let ghost before = table_of(self@, table@);
        let slot = self.tables.entry(table, Table::new());
        slot.policies.insert(chain, policy.to_owned());
        assert(slot@.policies =~= before.policies.insert(chain@, policy@));
        Ok(true)
    }

    /// Creates `chain`: it has a policy from now on, the unset one where it
    /// had none. Always succeeds, with `true`.
    pub fn new_chain(&mut self, table: &str, chain: &str) -> (r: Result<bool, DFWError>)
        ensures
            r == Ok::<bool, DFWError>(true),
            final(self)@ == after_new_chain(old(self)@, table@, chain@),
            final(self).command() == old(self).command(),
    {
        let slot = self.tables.entry(table, Table::new());
        set_default_policy(&mut slot.policies, chain);
        Ok(true)
    }

    /// Stages the appending of `rule` to `chain`, unless that very line is
    /// already staged under the chain: then nothing changes. Always succeeds,
    /// with `true`.
    pub fn append_replace(
        &mut self,
        table: &str,
        chain: &str,
        rule: &str,
    ) -> (r: Result<bool, DFWError>)
        ensures
            r == Ok::<bool, DFWError>(true),
            final(self)@ == after_append_replace(old(self)@, table@, chain@, rule@),
            final(self).command() == old(self).command(),
    {
        let mut text = String::from_str("-A ");
        text.append(chain);
        text.append(" ");
        text.append(rule);
        let staged = match self.tables.get(table) {
            Some(t) => t.holds(chain, text.as_str()),
            None => false,
        };
        if !staged {
            self.record(table, Some(chain), text);
        }
        Ok(true)
    }

    /// The lines staged for `table` under `chain`, in their order. Answers
    /// from what was staged here, never from the host.
    pub fn list(&self, table: &str, chain: &str) -> (r: Result<Vec<String>, DFWError>)
        ensures
            r matches Ok(lines) && views(lines@) == listed(self@, table@, chain@),
    {
        match self.tables.get(table) {
            Some(t) => Ok(t.lines_under(chain)),
            None => {
                let lines: Vec<String> = Vec::new();
                Ok(lines)
            },
        }
    }

    /// All the lines staged for `table`, in their order.
    pub fn list_table(&self, table: &str) -> (r: Result<Vec<String>, DFWError>)
        ensures
            r matches Ok(lines) && views(lines@) == listed_table(self@, table@),
    {
        match self.tables.get(table) {
            Some(t) => Ok(t.lines()),
            None => {
                let lines: Vec<String> = Vec::new();
                Ok(lines)
            },
        }
    }

    /// The policies staged for `table`, in the order of their chains: the
    /// policies, not the names of the chains.
    pub fn list_chains(&self, table: &str) -> (r: Result<Vec<String>, DFWError>)
        ensures
            r matches Ok(values) && views(values@) == listed_chains(self@, table@),
    {
        match self.tables.get(table) {
            Some(t) => Ok(t.policies()),
            None => {
                let values: Vec<String> = Vec::new();
                proof {
                    let none = Map::<Seq<char>, Seq<char>>::empty();
                    lemma_in_order_is(Seq::empty(), none.dom());
                }
                Ok(values)
            },
        }
    }

    /// Writes the transaction at the end of `w`, in the format that the
    /// restore command reads. What is staged is always finite.
    pub fn write_rules(&self, w: &mut String)
        ensures
            final(w)@ == old(w)@ + restore_text(self@),
            is_finite(self@),
    {
        let ghost start = w@;
        let ghost names = self.tables.names();
        let n = self.tables.len();
        proof {
            use_type_invariant(&self.tables);
            self.tables.lemma_listing();
        }
        let mut i: usize = 0;
        while i < n
            invariant
                i <= n,
                n == self.tables.names().len(),
                n == self.tables.values().len(),
                names == self.tables.names(),
                forall|j: int|
                    0 <= j < n ==> self@.contains_key(#[trigger] names[j]) && self@[names[j]]
                        == self.tables.values()[j]@,
                w@ == start + unlines(blocks(self@, names.take(i as int))),
                forall|j: int| 0 <= j < i ==> (#[trigger] self@[names[j]]).policies.dom().finite(),
            decreases n - i,
        {
            self.tables.value(i).write(self.tables.key(i), w);
            proof {
                let upto = names.take(i + 1);
                assert(upto.drop_last() =~= names.take(i as int));
                lemma_unlines_concat(
                    blocks(self@, names.take(i as int)),
                    table_lines(names[i as int], self@[names[i as int]]),
                );
            }
            i = i + 1;
        }
        proof {
            assert(names.take(n as int) =~= names);
            use_type_invariant(&self.tables);
            self.tables.lemma_listing();
            assert(self@.dom() =~= self.tables@.dom());
            assert forall|t: Seq<char>| #[trigger] self@.contains_key(t) implies self@[t]
                .policies.dom().finite() by {
                assert(names.contains(t));
                let j = choose|j: int| 0 <= j < names.len() && names[j] == t;
                assert(self@[names[j]].policies.dom().finite());
            }
        }
    }

    /// The text that a commit would hand to the restore command, as lines:
    /// without the white space around it, split at its newlines.
    pub fn get_rules(&self) -> (lines: Vec<String>)
        ensures
            views(lines@) == rules_output(self@),
            is_finite(self@),
    {
        let mut text = String::new();
        self.write_rules(&mut text);
        split_newlines(trim(text.as_str()))
    }

    /// Ends a commit. The caller has run the restore command [`Self::cmd`]
    /// on the text of [`Self::write_rules`], and `run` says how that went.
    ///
    /// Once the text was written to the command, the transaction is gone:
    /// whatever the command then made of it, the backend starts anew with
    /// nothing staged. Where the text was never handed over, what was staged
    /// stays.
    pub fn commit(&mut self, run: RestoreRun) -> (r: Result<bool, DFWError>)
        ensures
            final(self).command() == old(self).command(),
            match run {
                RestoreRun::SpawnFailed { reason } => {
                    &&& final(self)@ == old(self)@
                    &&& r matches Err(DFWError::ProcessUnavailable { reason: e }) && e@ == reason@
                },
                RestoreRun::NoStdin => {
                    &&& final(self)@ == old(self)@
                    &&& r matches Err(DFWError::ProcessUnavailable { reason: e }) && e@
                        == "cannot get stdin of "@ + old(self).command()
                },
                RestoreRun::WriteFailed { reason } => {
                    &&& final(self)@ == old(self)@
                    &&& r matches Err(DFWError::Io { reason: e }) && e@ == reason@
                },
                RestoreRun::WaitFailed { reason } => {
                    &&& final(self)@ == Map::<Seq<char>, StagedTable>::empty()
                    &&& r matches Err(DFWError::Io { reason: e }) && e@ == reason@
                },
                RestoreRun::Exited { success, stderr } => {
                    &&& final(self)@ == Map::<Seq<char>, StagedTable>::empty()
                    &&& if success {
                        r == Ok::<bool, DFWError>(true)
                    } else {
                        r matches Err(DFWError::ProcessFailed { command, output }) && command@
                            == old(self).command() && output@ == trimmed(stderr@)
                    }
                },
            },
    {
        match run {
            RestoreRun::SpawnFailed { reason } => Err(DFWError::ProcessUnavailable { reason }),
            RestoreRun::NoStdin => {
                let mut reason = String::from_str("cannot get stdin of ");
                reason.append(self.cmd);
                Err(DFWError::ProcessUnavailable { reason })
            },
            RestoreRun::WriteFailed { reason } => Err(DFWError::Io { reason }),
            RestoreRun::WaitFailed { reason } => {
                self.reset();
                Err(DFWError::Io { reason })
            },
            RestoreRun::Exited { success, stderr } => {
                self.reset();
                if success {
                    Ok(true)
                } else {
                    Err(
                        DFWError::ProcessFailed {
                            command: String::from_str(self.cmd),
                            output: trim(stderr.as_str()).to_owned(),
                        },
                    )
                }
            },
        }
    }

    /// Forgets all that is staged.
    fn reset(&mut self)
        ensures
            final(self)@ == Map::<Seq<char>, StagedTable>::empty(),
            final(self).command() == old(self).command(),
    {
        self.tables = SortedMap::new();
    }
}

/// The operations that this backend cannot serve. Each fails with the error
/// that names the operation, and leaves what is staged as it is.
#[allow(unused_variables)]
impl IPTablesRestore {
    /// Not supported. The restore command takes the lines in the order in which
    /// they stand, and nothing here needs a line put at a given place.
    pub fn insert(
        &self,
        table: &str,
        chain: &str,
        rule: &str,
        position: i32,
    ) -> (r: Result<bool, DFWError>)
        ensures
            is_unsupported(r, "insert"@),
    {
        Err(DFWError::unimplemented("insert"))
    }

    /// Not supported, for the reason given at [`Self::insert`].
    pub fn insert_unique(
        &self,
        table: &str,
        chain: &str,
        rule: &str,
        position: i32,
    ) -> (r: Result<bool, DFWError>)
        ensures
            is_unsupported(r, "insert_unique"@),
    {
        Err(DFWError::unimplemented("insert_unique"))
    }

    /// Not supported: no caller needs it; see [`Self::append_replace`].
    pub fn append_unique(&self, table: &str, chain: &str, rule: &str) -> (r: Result<bool, DFWError>)
        ensures
            is_unsupported(r, "append_unique"@),
    {
        Err(DFWError::unimplemented("append_unique"))
    }

    /// Not supported: the only policies known here are the ones that the caller
    /// staged itself, not the ones in force on the host.
    pub fn get_policy(&self, table: &str, chain: &str) -> (r: Result<String, DFWError>)
        ensures
            is_unsupported(r, "get_policy"@),
    {
        Err(DFWError::unimplemented("get_policy"))
    }

    /// Not supported (the operation `exists`): the only rules known here are
    /// the ones that the caller staged itself.
    pub fn rule_exists(&self, table: &str, chain: &str, rule: &str) -> (r: Result<bool, DFWError>)
        ensures
            is_unsupported(r, "exists"@),
    {
        Err(DFWError::unimplemented("exists"))
    }

    /// Not supported: the only chains known here are the ones that the caller
    /// staged itself.
    pub fn chain_exists(&self, table: &str, chain: &str) -> (r: Result<bool, DFWError>)
        ensures
            is_unsupported(r, "chain_exists"@),
    {
        Err(DFWError::unimplemented("chain_exists"))
    }

    /// Not supported: the rule to replace may be one of the host that was never
    /// staged here.
    pub fn replace(
        &self,
        table: &str,
        chain: &str,
        rule: &str,
        position: i32,
    ) -> (r: Result<bool, DFWError>)
        ensures
            is_unsupported(r, "replace"@),
    {
        Err(DFWError::unimplemented("replace"))
    }

    /// Not supported: deleting for as long as a rule is found needs the rules of
    /// the host, which are not known here.
    pub fn delete_all(&self, table: &str, chain: &str, rule: &str) -> (r: Result<bool, DFWError>)
        ensures
            is_unsupported(r, "delete_all"@),
    {
        Err(DFWError::unimplemented("delete_all"))
    }

    /// Not supported: the chain to rename may be one of the host that was never
    /// staged here.
    pub fn rename_chain(
        &self,
        table: &str,
        old_chain: &str,
        new_chain: &str,
    ) -> (r: Result<bool, DFWError>)
        ensures
            is_unsupported(r, "rename_chain"@),
    {
        Err(DFWError::unimplemented("rename_chain"))
    }

    /// Not supported: the chain to delete may be one of the host that was never
    /// staged here.
    pub fn delete_chain(&self, table: &str, chain: &str) -> (r: Result<bool, DFWError>)
        ensures
            is_unsupported(r, "delete_chain"@),
    {
        Err(DFWError::unimplemented("delete_chain"))
    }
}

} // verus!
