//! The staged transaction as a mathematical value: what each operation makes
//! of it, what the read operations answer from it, and the text that a commit
//! hands to the restore command.

use crate::order::in_order;
use crate::text::{split_at_newlines, trimmed};
use vstd::prelude::*;

verus! {

/// One recorded directive: the line as the restore command will read it, and
/// the chain it belongs to, if it belongs to one.
pub struct Directive {
    pub chain: Option<Seq<char>>,
    pub text: Seq<char>,
}

/// What is staged for one table.
pub struct StagedTable {
    /// The policy of each chain that was set or referred to.
    pub policies: Map<Seq<char>, Seq<char>>,
    /// The directives, in the order in which they were recorded.
    pub rules: Seq<Directive>,
}

/// A staged transaction: what is staged for each table that was touched.
pub type Transaction = Map<Seq<char>, StagedTable>;

/// The policy that stands for "not set".
pub open spec fn unset_policy() -> Seq<char> {
    "-"@
}

/// A table for which nothing is staged yet.
pub open spec fn empty_table() -> StagedTable {
    StagedTable { policies: Map::empty(), rules: Seq::empty() }
}

/// What is staged for `table`; nothing, where the table was never touched.
pub open spec fn table_of(tx: Transaction, table: Seq<char>) -> StagedTable {
    if tx.contains_key(table) {
        tx[table]
    } else {
        empty_table()
    }
}

/// Whether the transaction holds finitely many tables, each with finitely
/// many chains. Every transaction that the operations make of the empty one
/// does ([`lemma_operations_keep_finite`]).
pub open spec fn is_finite(tx: Transaction) -> bool {
    &&& tx.dom().finite()
    &&& forall|t: Seq<char>| #[trigger] tx.contains_key(t) ==> tx[t].policies.dom().finite()
}

/// The policies once `chain` was referred to: a chain without a policy gets
/// the unset one, a chain with a policy keeps it.
pub open spec fn with_default_policy(
    policies: Map<Seq<char>, Seq<char>>,
    chain: Seq<char>,
) -> Map<Seq<char>, Seq<char>> {
    if policies.contains_key(chain) {
        policies
    } else {
        policies.insert(chain, unset_policy())
    }
}

/// The line that appends `rule` to `chain`.
pub open spec fn append_directive(chain: Seq<char>, rule: Seq<char>) -> Seq<char> {
    "-A "@ + chain + " "@ + rule
}

/// The line that deletes `rule` from `chain`.
pub open spec fn delete_directive(chain: Seq<char>, rule: Seq<char>) -> Seq<char> {
    "-D "@ + chain + " "@ + rule
}

/// The line that flushes `chain`.
pub open spec fn flush_chain_directive(chain: Seq<char>) -> Seq<char> {
    "-F "@ + chain
}

/// The line that flushes a whole table.
pub open spec fn flush_table_directive() -> Seq<char> {
    "-F"@
}

/// The transaction once the line `text` was recorded for `table`: the line
/// comes last in the table's list, and the chain it names, if any, has a
/// policy.
pub open spec fn recorded(
    tx: Transaction,
    table: Seq<char>,
    chain: Option<Seq<char>>,
    text: Seq<char>,
) -> Transaction {
    let before = table_of(tx, table);
    tx.insert(
        table,
        StagedTable {
            policies: match chain {
                Some(c) => with_default_policy(before.policies, c),
                None => before.policies,
            },
            rules: before.rules.push(Directive { chain, text }),
        },
    )
}

/// The transaction after `append`.
pub open spec fn after_append(
    tx: Transaction,
    table: Seq<char>,
    chain: Seq<char>,
    rule: Seq<char>,
) -> Transaction {
    recorded(tx, table, Some(chain), append_directive(chain, rule))
}

/// The transaction after `delete`.
pub open spec fn after_delete(
    tx: Transaction,
    table: Seq<char>,
    chain: Seq<char>,
    rule: Seq<char>,
) -> Transaction {
    recorded(tx, table, Some(chain), delete_directive(chain, rule))
}

/// The transaction after `flush_chain`.
pub open spec fn after_flush_chain(tx: Transaction, table: Seq<char>, chain: Seq<char>)
    -> Transaction {
    recorded(tx, table, Some(chain), flush_chain_directive(chain))
}

/// The transaction after `flush_table`.
pub open spec fn after_flush_table(tx: Transaction, table: Seq<char>) -> Transaction {
    recorded(tx, table, None, flush_table_directive())
}

/// The transaction after `execute`.
pub open spec fn after_execute(tx: Transaction, table: Seq<char>, command: Seq<char>)
    -> Transaction {
    recorded(tx, table, None, command)
}

/// The transaction after `set_policy`: the chain has the given policy,
/// whatever it had before.
pub open spec fn after_set_policy(
    tx: Transaction,
    table: Seq<char>,
    chain: Seq<char>,
    policy: Seq<char>,
) -> Transaction {
    let before = table_of(tx, table);
    tx.insert(
        table,
        StagedTable { policies: before.policies.insert(chain, policy), rules: before.rules },
    )
}

/// The transaction after `new_chain`: the chain has a policy, the unset one
/// where it had none.
pub open spec fn after_new_chain(tx: Transaction, table: Seq<char>, chain: Seq<char>)
    -> Transaction {
    let before = table_of(tx, table);
    tx.insert(
        table,
        StagedTable {
            policies: with_default_policy(before.policies, chain),
            rules: before.rules,
        },
    )
}

/// Whether the line that appends `rule` to `chain` is already recorded for
/// `table`, under that chain.
pub open spec fn has_append(tx: Transaction, table: Seq<char>, chain: Seq<char>, rule: Seq<char>)
    -> bool {
    table_of(tx, table).rules.contains(
        Directive { chain: Some(chain), text: append_directive(chain, rule) },
    )
}

/// The transaction after `append_replace`: as after `append` where the line
/// is not recorded yet, unchanged where it is.
pub open spec fn after_append_replace(
    tx: Transaction,
    table: Seq<char>,
    chain: Seq<char>,
    rule: Seq<char>,
) -> Transaction {
    if has_append(tx, table, chain, rule) {
        tx
    } else {
        after_append(tx, table, chain, rule)
    }
}

/// The lines among `rules` that belong to `chain`, in their order.
pub open spec fn lines_of_chain(rules: Seq<Directive>, chain: Seq<char>) -> Seq<Seq<char>>
    decreases rules.len(),
{
    if rules.len() == 0 {
        Seq::empty()
    } else if rules.last().chain == Some(chain) {
        lines_of_chain(rules.drop_last(), chain).push(rules.last().text)
    } else {
        lines_of_chain(rules.drop_last(), chain)
    }
}

/// All the lines of `rules`, in their order.
pub open spec fn lines_of(rules: Seq<Directive>) -> Seq<Seq<char>> {
    rules.map_values(|d: Directive| d.text)
}

/// The policies, in the order of their chains. The chains themselves are not
/// part of it.
pub open spec fn policies_in_order(policies: Map<Seq<char>, Seq<char>>) -> Seq<Seq<char>> {
    in_order(policies.dom()).map_values(|c: Seq<char>| policies[c])
}

/// What `list` answers.
pub open spec fn listed(tx: Transaction, table: Seq<char>, chain: Seq<char>) -> Seq<Seq<char>> {
    lines_of_chain(table_of(tx, table).rules, chain)
}

/// What `list_table` answers.
pub open spec fn listed_table(tx: Transaction, table: Seq<char>) -> Seq<Seq<char>> {
    lines_of(table_of(tx, table).rules)
}

/// What `list_chains` answers: policies, not chain names.
pub open spec fn listed_chains(tx: Transaction, table: Seq<char>) -> Seq<Seq<char>> {
    policies_in_order(table_of(tx, table).policies)
}

/// The line that declares `chain` with its `policy` and zeroed counters.
pub open spec fn policy_line(chain: Seq<char>, policy: Seq<char>) -> Seq<char> {
    ":"@ + chain + " "@ + policy + " [0:0]"@
}

/// The policy lines of a table, in the order of the chains.
pub open spec fn policy_lines(policies: Map<Seq<char>, Seq<char>>) -> Seq<Seq<char>> {
    in_order(policies.dom()).map_values(|c: Seq<char>| policy_line(c, policies[c]))
}

/// The block of one table: its marker, the policy lines, the directives as
/// recorded, and the commit marker.
pub open spec fn table_lines(name: Seq<char>, table: StagedTable) -> Seq<Seq<char>> {
    seq!["*"@ + name] + policy_lines(table.policies) + lines_of(table.rules) + seq!["COMMIT"@]
}

/// The blocks of the tables `names`, one after the other.
pub open spec fn blocks(tx: Transaction, names: Seq<Seq<char>>) -> Seq<Seq<char>>
    decreases names.len(),
{
    if names.len() == 0 {
        Seq::empty()
    } else {
        blocks(tx, names.drop_last()) + table_lines(names.last(), tx[names.last()])
    }
}

/// The lines of the whole transaction: the block of each table, the tables in
/// the order of their names.
pub open spec fn restore_lines(tx: Transaction) -> Seq<Seq<char>> {
    blocks(tx, in_order(tx.dom()))
}

/// The lines as one text, each ended by a newline.
pub open spec fn unlines(lines: Seq<Seq<char>>) -> Seq<char>
    decreases lines.len(),
{
    if lines.len() == 0 {
        Seq::empty()
    } else {
        unlines(lines.drop_last()) + lines.last() + "\n"@
    }
}

/// The text that a commit hands to the restore command.
pub open spec fn restore_text(tx: Transaction) -> Seq<char> {
    unlines(restore_lines(tx))
}

/// What `get_rules` answers: the text without the white space around it,
/// split at its newlines.
pub open spec fn rules_output(tx: Transaction) -> Seq<Seq<char>> {
    split_at_newlines(trimmed(restore_text(tx)))
}

/// The text of two runs of lines is the text of the first, then that of the
/// second.
pub proof fn lemma_unlines_concat(a: Seq<Seq<char>>, b: Seq<Seq<char>>)
    ensures
        unlines(a + b) == unlines(a) + unlines(b),
    decreases b.len(),
{
    if b.len() > 0 {
        lemma_unlines_concat(a, b.drop_last());
        assert((a + b).drop_last() =~= a + b.drop_last());
    }
}

/// A line added at the end adds its characters and a newline to the text.
pub proof fn lemma_unlines_push(a: Seq<Seq<char>>, line: Seq<char>)
    ensures
        unlines(a.push(line)) == unlines(a) + line + "\n"@,
{
    assert(a.push(line).drop_last() =~= a);
}

} // verus!
