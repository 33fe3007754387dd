//! What holds of the staged transaction, whatever is staged: the order of
//! what is appended, what repeating an operation does, which policy a chain
//! ends up with, and how the text and the lines of a commit are made up.

use crate::order::{
    in_order, key_lt, lemma_in_order_enumerates, lemma_in_order_is, lemma_key_lt_asymmetric,
};
use crate::staged::{
    after_append, after_append_replace, after_delete, after_execute, after_flush_chain,
    after_flush_table, after_new_chain, after_set_policy, append_directive, blocks, has_append,
    is_finite, lemma_unlines_concat, lemma_unlines_push, lines_of, listed, listed_table,
    policy_line, policy_lines, recorded, restore_lines, restore_text, rules_output, table_lines,
    table_of, unlines, unset_policy, with_default_policy, Directive, StagedTable, Transaction,
};
use crate::text::{
    is_space, lemma_leading_space, lemma_split_append_plain, lemma_trailing_space,
    split_at_newlines, trimmed,
};
use vstd::prelude::*;

verus! {

/// The transaction after appending each of `rules` in turn to `chain`.
pub open spec fn after_appends(
    tx: Transaction,
    table: Seq<char>,
    chain: Seq<char>,
    rules: Seq<Seq<char>>,
) -> Transaction
    decreases rules.len(),
{
    if rules.len() == 0 {
        tx
    } else {
        after_append(after_appends(tx, table, chain, rules.drop_last()), table, chain, rules.last())
    }
}

/// How often `d` occurs among `rules`.
pub open spec fn occurrences(rules: Seq<Directive>, d: Directive) -> nat
    decreases rules.len(),
{
    if rules.len() == 0 {
        0
    } else {
        occurrences(rules.drop_last(), d) + if rules.last() == d {
            1nat
        } else {
            0nat
        }
    }
}

/// A directive that is not among the rules occurs zero times.
pub proof fn lemma_absent_occurs_never(rules: Seq<Directive>, d: Directive)
    requires
        !rules.contains(d),
    ensures
        occurrences(rules, d) == 0,
    decreases rules.len(),
{
    if rules.len() > 0 {
        assert(rules[rules.len() - 1] != d);
        assert forall|i: int| 0 <= i < rules.drop_last().len() implies rules.drop_last()[i]
            != d by {
            assert(rules.drop_last()[i] == rules[i]);
        }
        lemma_absent_occurs_never(rules.drop_last(), d);
    }
}

/// Whatever is recorded for a table comes last in that table's list, after
/// all that was there, and leaves the other tables alone.
pub proof fn lemma_recorded(
    tx: Transaction,
    table: Seq<char>,
    chain: Option<Seq<char>>,
    text: Seq<char>,
)
    ensures
        table_of(recorded(tx, table, chain, text), table).rules == table_of(tx, table).rules.push(
            Directive { chain, text },
        ),
        listed_table(recorded(tx, table, chain, text), table) == listed_table(tx, table).push(text),
        forall|c: Seq<char>|
            listed(recorded(tx, table, chain, text), table, c) == if chain == Some(c) {
                listed(tx, table, c).push(text)
            } else {
                listed(tx, table, c)
            },
        forall|other: Seq<char>|
            other != table ==> table_of(recorded(tx, table, chain, text), other) == table_of(
                tx,
                other,
            ),
{
    let before = table_of(tx, table).rules;
    let d = Directive { chain, text };
    assert(before.push(d).drop_last() =~= before);
    assert(listed_table(recorded(tx, table, chain, text), table) =~= listed_table(tx, table).push(
        text,
    ));
}

/// Rules appended to one chain stay in the order of the calls, after what was
/// staged before, and `list` answers with them in that order.
pub proof fn lemma_appends_keep_order(
    tx: Transaction,
    table: Seq<char>,
    chain: Seq<char>,
    rules: Seq<Seq<char>>,
)
    ensures
        table_of(after_appends(tx, table, chain, rules), table).rules == table_of(tx, table).rules
            + rules.map_values(
            |r: Seq<char>| Directive { chain: Some(chain), text: append_directive(chain, r) },
        ),
        listed(after_appends(tx, table, chain, rules), table, chain) == listed(tx, table, chain)
            + rules.map_values(|r: Seq<char>| append_directive(chain, r)),
    decreases rules.len(),
{
    let entries = rules.map_values(
        |r: Seq<char>| Directive { chain: Some(chain), text: append_directive(chain, r) },
    );
    let lines = rules.map_values(|r: Seq<char>| append_directive(chain, r));
    if rules.len() == 0 {
        assert(table_of(tx, table).rules + entries =~= table_of(tx, table).rules);
        assert(listed(tx, table, chain) + lines =~= listed(tx, table, chain));
    } else {
        let first = rules.drop_last();
        let mid = after_appends(tx, table, chain, first);
        lemma_appends_keep_order(tx, table, chain, first);
        lemma_recorded(mid, table, Some(chain), append_directive(chain, rules.last()));
        let first_entries = first.map_values(
            |r: Seq<char>| Directive { chain: Some(chain), text: append_directive(chain, r) },
        );
        let first_lines = first.map_values(|r: Seq<char>| append_directive(chain, r));
        assert(entries =~= first_entries.push(entries.last()));
        assert(lines =~= first_lines.push(lines.last()));
        assert(table_of(after_appends(tx, table, chain, rules), table).rules =~= table_of(
            tx,
            table,
        ).rules + entries);
        assert(listed(after_appends(tx, table, chain, rules), table, chain) =~= listed(
            tx,
            table,
            chain,
        ) + lines);
    }
}

/// `append_replace` is idempotent: a second call with the same arguments
/// changes nothing. Where the line was not staged before, it is staged
/// exactly once afterwards, however often the call is repeated.
pub proof fn lemma_append_replace_idempotent(
    tx: Transaction,
    table: Seq<char>,
    chain: Seq<char>,
    rule: Seq<char>,
)
    ensures
        has_append(after_append_replace(tx, table, chain, rule), table, chain, rule),
        after_append_replace(after_append_replace(tx, table, chain, rule), table, chain, rule)
            == after_append_replace(tx, table, chain, rule),
        !has_append(tx, table, chain, rule) ==> occurrences(
            table_of(after_append_replace(tx, table, chain, rule), table).rules,
            Directive { chain: Some(chain), text: append_directive(chain, rule) },
        ) == 1,
{
    let d = Directive { chain: Some(chain), text: append_directive(chain, rule) };
    if !has_append(tx, table, chain, rule) {
        let before = table_of(tx, table).rules;
        lemma_recorded(tx, table, Some(chain), append_directive(chain, rule));
        assert(before.push(d)[before.len() as int] == d);
        assert(before.push(d).drop_last() =~= before);
        lemma_absent_occurs_never(before, d);
    }
}

/// Plain `append` is not idempotent: each call stages its line once more, so
/// two calls with the same arguments leave the line twice at the end of the
/// table's list, and no call leaves the transaction as it was.
pub proof fn lemma_append_repeats(
    tx: Transaction,
    table: Seq<char>,
    chain: Seq<char>,
    rule: Seq<char>,
)
    ensures
        after_append(tx, table, chain, rule) != tx,
        table_of(
            after_append(after_append(tx, table, chain, rule), table, chain, rule),
            table,
        ).rules == table_of(tx, table).rules.push(
            Directive { chain: Some(chain), text: append_directive(chain, rule) },
        ).push(Directive { chain: Some(chain), text: append_directive(chain, rule) }),
        after_append(after_append(tx, table, chain, rule), table, chain, rule) != after_append(
            tx,
            table,
            chain,
            rule,
        ),
{
    let once = after_append(tx, table, chain, rule);
    let twice = after_append(once, table, chain, rule);
    lemma_recorded(tx, table, Some(chain), append_directive(chain, rule));
    lemma_recorded(once, table, Some(chain), append_directive(chain, rule));
    assert(table_of(once, table).rules.len() == table_of(tx, table).rules.len() + 1);
    assert(table_of(twice, table).rules.len() == table_of(once, table).rules.len() + 1);
}

/// `set_policy` always overwrites: afterwards the chain has the given policy,
/// whatever it had before, and whether it was set or only filled in.
pub proof fn lemma_set_policy_overwrites(
    tx: Transaction,
    table: Seq<char>,
    chain: Seq<char>,
    policy: Seq<char>,
)
    ensures
        after_set_policy(tx, table, chain, policy).contains_key(table),
        after_set_policy(tx, table, chain, policy)[table].policies.contains_key(chain),
        after_set_policy(tx, table, chain, policy)[table].policies[chain] == policy,
        after_set_policy(tx, table, chain, policy)[table].rules == table_of(tx, table).rules,
{
}

/// A chain that is only referred to (by `append`, `delete`, `flush_chain`,
/// `append_replace`, `new_chain`, or any line recorded under it) keeps the
/// policy it has, and gets the unset one where it has none.
pub proof fn lemma_reference_fills_only(
    tx: Transaction,
    table: Seq<char>,
    chain: Seq<char>,
    rule: Seq<char>,
    text: Seq<char>,
)
    ensures
        ({
            let before = table_of(tx, table).policies;
            let filled = with_default_policy(before, chain);
            &&& table_of(recorded(tx, table, Some(chain), text), table).policies == filled
            &&& table_of(after_append(tx, table, chain, rule), table).policies == filled
            &&& table_of(after_delete(tx, table, chain, rule), table).policies == filled
            &&& table_of(after_flush_chain(tx, table, chain), table).policies == filled
            &&& table_of(after_new_chain(tx, table, chain), table).policies == filled
            &&& table_of(after_append_replace(tx, table, chain, rule), table).policies
                == if has_append(tx, table, chain, rule) {
                before
            } else {
                filled
            }
            &&& filled.contains_key(chain)
            &&& filled[chain] == if before.contains_key(chain) {
                before[chain]
            } else {
                unset_policy()
            }
        }),
{
}

/// A policy that was set explicitly outlives every later reference to its
/// chain.
pub proof fn lemma_explicit_policy_stays(
    tx: Transaction,
    table: Seq<char>,
    chain: Seq<char>,
    policy: Seq<char>,
    rule: Seq<char>,
)
    ensures
        ({
            let set = after_set_policy(tx, table, chain, policy);
            &&& table_of(after_append(set, table, chain, rule), table).policies[chain] == policy
            &&& table_of(after_delete(set, table, chain, rule), table).policies[chain] == policy
            &&& table_of(after_flush_chain(set, table, chain), table).policies[chain] == policy
            &&& table_of(after_append_replace(set, table, chain, rule), table).policies[chain]
                == policy
            &&& table_of(after_new_chain(set, table, chain), table).policies[chain] == policy
        }),
{
    let set = after_set_policy(tx, table, chain, policy);
    lemma_set_policy_overwrites(tx, table, chain, policy);
    lemma_reference_fills_only(set, table, chain, rule, rule);
}

/// A policy that was only filled in is replaced by a later `set_policy`.
pub proof fn lemma_explicit_policy_replaces_default(
    tx: Transaction,
    table: Seq<char>,
    chain: Seq<char>,
    policy: Seq<char>,
    rule: Seq<char>,
)
    requires
        !table_of(tx, table).policies.contains_key(chain),
    ensures
        table_of(after_append(tx, table, chain, rule), table).policies[chain] == unset_policy(),
        table_of(
            after_set_policy(after_append(tx, table, chain, rule), table, chain, policy),
            table,
        ).policies[chain] == policy,
        table_of(
            after_set_policy(after_delete(tx, table, chain, rule), table, chain, policy),
            table,
        ).policies[chain] == policy,
        table_of(
            after_set_policy(after_flush_chain(tx, table, chain), table, chain, policy),
            table,
        ).policies[chain] == policy,
{
    lemma_reference_fills_only(tx, table, chain, rule, rule);
    lemma_set_policy_overwrites(after_append(tx, table, chain, rule), table, chain, policy);
    lemma_set_policy_overwrites(after_delete(tx, table, chain, rule), table, chain, policy);
    lemma_set_policy_overwrites(after_flush_chain(tx, table, chain), table, chain, policy);
}

/// With no table recorded, there is nothing to write: no line, and an empty
/// text.
pub proof fn lemma_nothing_staged_is_empty()
    ensures
        restore_lines(Map::<Seq<char>, StagedTable>::empty()) == Seq::<Seq<char>>::empty(),
        restore_text(Map::<Seq<char>, StagedTable>::empty()) == Seq::<char>::empty(),
{
    let none = Map::<Seq<char>, StagedTable>::empty();
    lemma_in_order_is(Seq::empty(), none.dom());
}

/// The lines of a transaction with one table are the block of that table.
pub proof fn lemma_one_table(tx: Transaction, table: Seq<char>)
    requires
        tx.dom() == set![table],
    ensures
        restore_lines(tx) == table_lines(table, tx[table]),
{
    let names = seq![table];
    assert forall|k: Seq<char>| names.contains(k) <==> tx.dom().contains(k) by {
        if k == table {
            assert(names[0] == k);
        }
    }
    lemma_in_order_is(names, tx.dom());
    assert(names.drop_last() =~= Seq::<Seq<char>>::empty());
    assert(blocks(tx, Seq::empty()) =~= Seq::<Seq<char>>::empty());
    assert(blocks(tx, names) =~= table_lines(table, tx[table]));
}

/// One table with one policy and no directive is written as three lines: the
/// table's marker, the policy line, and the commit marker, each ended by a
/// newline.
pub proof fn lemma_one_policy(table: Seq<char>, chain: Seq<char>, policy: Seq<char>)
    ensures
        ({
            let tx = after_set_policy(Map::empty(), table, chain, policy);
            &&& restore_lines(tx) == seq![
                "*"@ + table,
                ":"@ + chain + " "@ + policy + " [0:0]"@,
                "COMMIT"@,
            ]
            &&& restore_text(tx) == "*"@ + table + "\n"@ + ":"@ + chain + " "@ + policy
                + " [0:0]"@ + "\n"@ + "COMMIT"@ + "\n"@
            &&& trimmed(restore_text(tx)) == "*"@ + table + "\n"@ + ":"@ + chain + " "@ + policy
                + " [0:0]"@ + "\n"@ + "COMMIT"@
        }),
{
    let tx = after_set_policy(Map::empty(), table, chain, policy);
    let policies = tx[table].policies;
    assert(tx.dom() =~= set![table]);
    lemma_one_table(tx, table);
    let chains = seq![chain];
    assert forall|k: Seq<char>| chains.contains(k) <==> policies.dom().contains(k) by {
        if k == chain {
            assert(chains[0] == k);
        }
    }
    lemma_in_order_is(chains, policies.dom());
    let lines = seq!["*"@ + table, policy_line(chain, policy), "COMMIT"@];
    assert(policy_lines(policies) =~= seq![policy_line(chain, policy)]);
    assert(lines_of(tx[table].rules) =~= Seq::<Seq<char>>::empty());
    assert(table_lines(table, tx[table]) =~= lines);
    lemma_unlines_push(seq!["*"@ + table, policy_line(chain, policy)], "COMMIT"@);
    lemma_unlines_push(seq!["*"@ + table], policy_line(chain, policy));
    lemma_unlines_push(Seq::empty(), "*"@ + table);
    assert(seq!["*"@ + table, policy_line(chain, policy)].push("COMMIT"@) =~= lines);
    assert(seq!["*"@ + table].push(policy_line(chain, policy)) =~= seq![
        "*"@ + table,
        policy_line(chain, policy),
    ]);
    assert(Seq::<Seq<char>>::empty().push("*"@ + table) =~= seq!["*"@ + table]);
    assert(restore_text(tx) =~= "*"@ + table + "\n"@ + ":"@ + chain + " "@ + policy + " [0:0]"@
        + "\n"@ + "COMMIT"@ + "\n"@);
    lemma_trimmed_text(tx);
    assert(lines.drop_last() =~= seq!["*"@ + table, policy_line(chain, policy)]);
    assert(trimmed(restore_text(tx)) =~= "*"@ + table + "\n"@ + ":"@ + chain + " "@ + policy
        + " [0:0]"@ + "\n"@ + "COMMIT"@);
}

/// A transaction staged across two tables is written as two blocks, each
/// with its own markers, the table whose name comes first in the order
/// first.
pub proof fn lemma_two_tables(tx: Transaction, first: Seq<char>, second: Seq<char>)
    requires
        tx.dom() == set![first, second],
        key_lt(first, second),
    ensures
        restore_lines(tx) == table_lines(first, tx[first]) + table_lines(second, tx[second]),
        restore_text(tx) == unlines(table_lines(first, tx[first])) + unlines(
            table_lines(second, tx[second]),
        ),
{
    let names = seq![first, second];
    lemma_key_lt_asymmetric(first, second);
    assert forall|k: Seq<char>| names.contains(k) <==> tx.dom().contains(k) by {
        if k == first {
            assert(names[0] == k);
        }
        if k == second {
            assert(names[1] == k);
        }
    }
    lemma_in_order_is(names, tx.dom());
    assert(names.drop_last() =~= seq![first]);
    assert(seq![first].drop_last() =~= Seq::<Seq<char>>::empty());
    assert(blocks(tx, Seq::empty()) =~= Seq::<Seq<char>>::empty());
    assert(blocks(tx, seq![first]) =~= table_lines(first, tx[first]));
    assert(blocks(tx, names) =~= table_lines(first, tx[first]) + table_lines(
        second,
        tx[second],
    ));
    lemma_unlines_concat(table_lines(first, tx[first]), table_lines(second, tx[second]));
}

/// What is staged for two different tables does not depend on which of the
/// two was staged first: either order gives the same transaction, and so the
/// same text.
pub proof fn lemma_tables_commute(
    tx: Transaction,
    a: Seq<char>,
    chain_a: Option<Seq<char>>,
    text_a: Seq<char>,
    b: Seq<char>,
    chain_b: Option<Seq<char>>,
    text_b: Seq<char>,
)
    requires
        a != b,
    ensures
        recorded(recorded(tx, a, chain_a, text_a), b, chain_b, text_b) == recorded(
            recorded(tx, b, chain_b, text_b),
            a,
            chain_a,
            text_a,
        ),
        restore_text(recorded(recorded(tx, a, chain_a, text_a), b, chain_b, text_b))
            == restore_text(recorded(recorded(tx, b, chain_b, text_b), a, chain_a, text_a)),
{
    assert(recorded(recorded(tx, a, chain_a, text_a), b, chain_b, text_b) =~= recorded(
        recorded(tx, b, chain_b, text_b),
        a,
        chain_a,
        text_a,
    ));
}

/// Lines that hold no newline are found again when their text is split: the
/// text ends with a newline, so one empty piece follows them.
pub proof fn lemma_split_unlines(lines: Seq<Seq<char>>)
    requires
        forall|i: int| 0 <= i < lines.len() ==> !(#[trigger] lines[i]).contains('\n'),
    ensures
        split_at_newlines(unlines(lines)) == lines.push(Seq::<char>::empty()),
    decreases lines.len(),
{
    if lines.len() == 0 {
        assert(lines.push(Seq::<char>::empty()) =~= seq![Seq::<char>::empty()]);
    } else {
        let head = lines.drop_last();
        let line = lines.last();
        assert forall|i: int| 0 <= i < head.len() implies !(#[trigger] head[i]).contains(
            '\n',
        ) by {
            assert(head[i] == lines[i]);
        }
        lemma_split_unlines(head);
        assert(!lines[lines.len() - 1].contains('\n'));
        lemma_split_append_plain(unlines(head), line);
        let text = unlines(head) + line;
        assert(split_at_newlines(text) =~= head.push(line)) by {
            assert(head.push(Seq::<char>::empty()).drop_last() =~= head);
            assert(Seq::<char>::empty() + line =~= line);
        }
        assert(head.push(line) =~= lines);
        reveal_strlit("\n");
        assert("\n"@ =~= seq!['\n']);
        assert(unlines(lines) =~= text.push('\n'));
        assert(text.push('\n').drop_last() =~= text);
    }
}

/// The blocks of one or more tables begin with the marker of the first table
/// and end with a commit marker.
pub proof fn lemma_blocks_ends(tx: Transaction, names: Seq<Seq<char>>)
    requires
        names.len() > 0,
    ensures
        blocks(tx, names).len() >= 2,
        blocks(tx, names)[0] == "*"@ + names[0],
        blocks(tx, names).last() == "COMMIT"@,
    decreases names.len(),
{
    let head = names.drop_last();
    let block = table_lines(names.last(), tx[names.last()]);
    assert(block.len() >= 2);
    assert(block[0] == "*"@ + names.last());
    assert(block.last() == "COMMIT"@);
    if head.len() > 0 {
        lemma_blocks_ends(tx, head);
        assert(head[0] == names[0]);
    } else {
        assert(blocks(tx, head) =~= Seq::<Seq<char>>::empty());
        assert(blocks(tx, names) =~= block);
    }
}

/// With nothing staged, `get_rules` answers with one empty line.
pub proof fn lemma_rules_output_of_nothing()
    ensures
        rules_output(Map::<Seq<char>, StagedTable>::empty()) == seq![Seq::<char>::empty()],
{
    lemma_nothing_staged_is_empty();
    let nothing = Seq::<char>::empty();
    assert(restore_text(Map::<Seq<char>, StagedTable>::empty()) == nothing);
    assert(trimmed(nothing) == nothing);
}

/// Around the text of a transaction with something staged, the only white
/// space is the newline that ends it: the text begins with the marker of a
/// table and ends with a commit marker and that newline.
pub proof fn lemma_trimmed_text(tx: Transaction)
    requires
        tx.dom().finite(),
        tx.dom().len() > 0,
    ensures
        restore_lines(tx).len() >= 2,
        restore_lines(tx).last() == "COMMIT"@,
        restore_text(tx) == unlines(restore_lines(tx).drop_last()) + "COMMIT"@ + "\n"@,
        trimmed(restore_text(tx)) == unlines(restore_lines(tx).drop_last()) + "COMMIT"@,
{
    let names = in_order(tx.dom());
    lemma_in_order_enumerates(tx.dom());
    assert(names.len() > 0) by {
        let x = tx.dom().choose();
        assert(tx.dom().contains(x));
        assert(names.contains(x));
    }
    let lines = restore_lines(tx);
    lemma_blocks_ends(tx, names);
    let first = lines[0];
    let text = unlines(lines);
    let body = unlines(lines.drop_last()) + "COMMIT"@;
    reveal_strlit("*");
    reveal_strlit("\n");
    reveal_strlit("COMMIT");
    assert("\n"@ =~= seq!['\n']);
    assert(text.len() > 0 && text[0] == '*') by {
        lemma_unlines_concat(seq![first], lines.skip(1));
        assert(seq![first] + lines.skip(1) =~= lines);
        lemma_unlines_push(Seq::empty(), first);
        assert(Seq::<Seq<char>>::empty().push(first) =~= seq![first]);
        assert(first[0] == '*');
        assert(unlines(seq![first])[0] == '*');
    }
    assert(text =~= body.push('\n'));
    assert(body[body.len() - 1] == 'T');
    assert(!is_space('*') && !is_space('T') && is_space('\n'));
    lemma_leading_space(text, 0);
    assert(text.skip(0) =~= text);
    lemma_trailing_space(text, text.len() - 1);
    assert(text.take(text.len() - 1) =~= body);
}

/// With something staged, and no newline inside any of the lines,
/// `get_rules` answers with the lines of the transaction.
pub proof fn lemma_rules_output(tx: Transaction)
    requires
        tx.dom().finite(),
        tx.dom().len() > 0,
        forall|i: int|
            0 <= i < restore_lines(tx).len() ==> !(#[trigger] restore_lines(tx)[i]).contains('\n'),
    ensures
        rules_output(tx) == restore_lines(tx),
{
    let lines = restore_lines(tx);
    let head = lines.drop_last();
    lemma_trimmed_text(tx);
    assert forall|i: int| 0 <= i < head.len() implies !(#[trigger] head[i]).contains('\n') by {
        assert(head[i] == lines[i]);
    }
    lemma_split_unlines(head);
    assert(!lines[lines.len() - 1].contains('\n'));
    lemma_split_append_plain(unlines(head), "COMMIT"@);
    assert(head.push(Seq::<char>::empty()).drop_last() =~= head);
    assert(Seq::<char>::empty() + "COMMIT"@ =~= "COMMIT"@);
    assert(head.push("COMMIT"@) =~= lines);
}

/// Whether no name, policy or directive of the transaction holds a newline.
pub open spec fn newline_free(tx: Transaction) -> bool {
    forall|t: Seq<char>| #[trigger]
        tx.contains_key(t) ==> {
            &&& !t.contains('\n')
            &&& forall|c: Seq<char>| #[trigger]
                tx[t].policies.contains_key(c) ==> !c.contains('\n') && !tx[t].policies[c].contains(
                    '\n',
                )
            &&& forall|i: int|
                0 <= i < tx[t].rules.len() ==> !(#[trigger] tx[t].rules[i]).text.contains('\n')
        }
}

/// Two texts without a newline make a text without a newline.
pub proof fn lemma_concat_plain(a: Seq<char>, b: Seq<char>)
    requires
        !a.contains('\n'),
        !b.contains('\n'),
    ensures
        !(a + b).contains('\n'),
{
    if (a + b).contains('\n') {
        let i = choose|i: int| 0 <= i < (a + b).len() && (a + b)[i] == '\n';
        if i < a.len() {
            assert(a[i] == '\n');
        } else {
            assert(b[i - a.len()] == '\n');
        }
    }
}

/// The block of a table whose name, policies and directives hold no newline
/// has no newline inside its lines.
pub proof fn lemma_table_lines_plain(name: Seq<char>, table: StagedTable)
    requires
        table.policies.dom().finite(),
        !name.contains('\n'),
        forall|c: Seq<char>| #[trigger]
            table.policies.contains_key(c) ==> !c.contains('\n') && !table.policies[c].contains(
                '\n',
            ),
        forall|i: int|
            0 <= i < table.rules.len() ==> !(#[trigger] table.rules[i]).text.contains('\n'),
    ensures
        forall|i: int|
            0 <= i < table_lines(name, table).len() ==> !(#[trigger] table_lines(
                name,
                table,
            )[i]).contains('\n'),
{
    reveal_strlit("*");
    reveal_strlit(":");
    reveal_strlit(" ");
    reveal_strlit(" [0:0]");
    reveal_strlit("COMMIT");
    let chains = in_order(table.policies.dom());
    lemma_in_order_enumerates(table.policies.dom());
    let lines = table_lines(name, table);
    let declared = policy_lines(table.policies);
    let recorded = lines_of(table.rules);
    assert forall|i: int| 0 <= i < lines.len() implies !(#[trigger] lines[i]).contains('\n') by {
        if i == 0 {
            lemma_concat_plain("*"@, name);
        } else if i < 1 + declared.len() {
            let c = chains[i - 1];
            assert(chains.contains(c));
            assert(table.policies.contains_key(c));
            assert(lines[i] == policy_line(c, table.policies[c]));
            lemma_concat_plain(":"@, c);
            lemma_concat_plain(":"@ + c, " "@);
            lemma_concat_plain(":"@ + c + " "@, table.policies[c]);
            lemma_concat_plain(":"@ + c + " "@ + table.policies[c], " [0:0]"@);
        } else if i < 1 + declared.len() + recorded.len() {
            assert(lines[i] == table.rules[i - 1 - declared.len()].text);
        } else {
            assert(lines[i] == "COMMIT"@);
        }
    }
}

/// Where no name, policy or directive of the transaction holds a newline,
/// no line of it does.
pub proof fn lemma_lines_plain(tx: Transaction, names: Seq<Seq<char>>)
    requires
        is_finite(tx),
        newline_free(tx),
        forall|i: int| 0 <= i < names.len() ==> tx.contains_key(#[trigger] names[i]),
    ensures
        forall|i: int|
            0 <= i < blocks(tx, names).len() ==> !(#[trigger] blocks(tx, names)[i]).contains('\n'),
    decreases names.len(),
{
    if names.len() > 0 {
        let head = names.drop_last();
        let last = names.last();
        assert forall|i: int| 0 <= i < head.len() implies tx.contains_key(#[trigger] head[i]) by {
            assert(head[i] == names[i]);
        }
        lemma_lines_plain(tx, head);
        assert(tx.contains_key(names[names.len() - 1]));
        lemma_table_lines_plain(last, tx[last]);
        let before = blocks(tx, head);
        let block = table_lines(last, tx[last]);
        assert forall|i: int| 0 <= i < blocks(tx, names).len() implies !(#[trigger] blocks(
            tx,
            names,
        )[i]).contains('\n') by {
            if i < before.len() {
                assert(blocks(tx, names)[i] == before[i]);
            } else {
                assert(blocks(tx, names)[i] == block[i - before.len()]);
            }
        }
    }
}

/// With something staged, and no newline inside any name, policy or
/// directive, `get_rules` answers with the lines of the transaction: for
/// each table, in the order of the names, its marker, its policy lines in
/// the order of the chains, its directives as recorded, and the commit
/// marker.
pub proof fn lemma_get_rules_gives_lines(tx: Transaction)
    requires
        is_finite(tx),
        tx.dom().len() > 0,
        newline_free(tx),
    ensures
        rules_output(tx) == restore_lines(tx),
{
    let names = in_order(tx.dom());
    lemma_in_order_enumerates(tx.dom());
    assert forall|i: int| 0 <= i < names.len() implies tx.contains_key(#[trigger] names[i]) by {
        assert(names.contains(names[i]));
    }
    lemma_lines_plain(tx, names);
    lemma_rules_output(tx);
}

/// The empty transaction is finite, and every operation keeps a finite
/// transaction finite.
pub proof fn lemma_operations_keep_finite(
    tx: Transaction,
    table: Seq<char>,
    chain: Seq<char>,
    rule: Seq<char>,
    policy: Seq<char>,
    owner: Option<Seq<char>>,
    text: Seq<char>,
)
    requires
        is_finite(tx),
    ensures
        is_finite(Map::<Seq<char>, StagedTable>::empty()),
        is_finite(recorded(tx, table, owner, text)),
        is_finite(after_append(tx, table, chain, rule)),
        is_finite(after_delete(tx, table, chain, rule)),
        is_finite(after_flush_chain(tx, table, chain)),
        is_finite(after_flush_table(tx, table)),
        is_finite(after_execute(tx, table, text)),
        is_finite(after_set_policy(tx, table, chain, policy)),
        is_finite(after_new_chain(tx, table, chain)),
        is_finite(after_append_replace(tx, table, chain, rule)),
{
    let before = table_of(tx, table).policies;
    assert(before.dom().finite());
    assert(with_default_policy(before, chain).dom().finite());
    match owner {
        Some(c) => {
            assert(with_default_policy(before, c).dom().finite());
        },
        None => {},
    }
    assert(before.insert(chain, policy).dom().finite());
}

} // verus!
