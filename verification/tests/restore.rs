use dfw::errors::DFWError;
use dfw::iptables::{IPTablesRestore, IPVersion, Output, RestoreRun};

fn fresh() -> IPTablesRestore {
    IPTablesRestore::new(IPVersion::IPv4).unwrap()
}

fn owned(lines: &[&str]) -> Vec<String> {
    lines.iter().map(|e| e.to_string()).collect()
}

fn text_of(ipt: &IPTablesRestore) -> String {
    let mut text = String::new();
    ipt.write_rules(&mut text);
    text
}

#[test]
fn restore_set_policy() {
    let mut ipt = fresh();
    ipt.set_policy("nat", "TEST_CHAIN", "DROP").unwrap();
    assert_eq!(
        ipt.get_rules(),
        owned(&["*nat", ":TEST_CHAIN DROP [0:0]", "COMMIT"])
    );
}

#[test]
fn restore_append() {
    let mut ipt = fresh();
    ipt.append("filter", "TEST_CHAIN", "-s 10.0.0.1 -j ACCEPT")
        .unwrap();
    assert_eq!(
        ipt.get_rules(),
        owned(&[
            "*filter",
            ":TEST_CHAIN - [0:0]",
            "-A TEST_CHAIN -s 10.0.0.1 -j ACCEPT",
            "COMMIT"
        ])
    );
}

#[test]
fn double_append() {
    let mut ipt = fresh();
    ipt.append("filter", "TEST_CHAIN", "-s 10.0.0.1 -j ACCEPT")
        .unwrap();
    ipt.append("filter", "TEST_CHAIN", "-s 10.0.0.1 -j ACCEPT")
        .unwrap();
    assert_eq!(
        ipt.get_rules(),
        owned(&[
            "*filter",
            ":TEST_CHAIN - [0:0]",
            "-A TEST_CHAIN -s 10.0.0.1 -j ACCEPT",
            "-A TEST_CHAIN -s 10.0.0.1 -j ACCEPT",
            "COMMIT"
        ])
    );
}

#[test]
fn double_append_replace() {
    let mut ipt = fresh();
    ipt.append_replace("filter", "TEST_CHAIN", "-s 10.0.0.1 -j ACCEPT")
        .unwrap();
    ipt.append_replace("filter", "TEST_CHAIN", "-s 10.0.0.1 -j ACCEPT")
        .unwrap();
    assert_eq!(
        ipt.get_rules(),
        owned(&[
            "*filter",
            ":TEST_CHAIN - [0:0]",
            "-A TEST_CHAIN -s 10.0.0.1 -j ACCEPT",
            "COMMIT"
        ])
    );
}

#[test]
fn new_backend_has_nothing_staged() {
    let ipt = fresh();
    assert_eq!(text_of(&ipt), "");
    assert_eq!(ipt.get_rules(), owned(&[""]));
    assert_eq!(ipt.list_table("filter").unwrap(), Vec::<String>::new());
    assert_eq!(ipt.list("filter", "INPUT").unwrap(), Vec::<String>::new());
    assert_eq!(ipt.list_chains("filter").unwrap(), Vec::<String>::new());
}

#[test]
fn command_follows_the_protocol_version() {
    assert_eq!(
        IPTablesRestore::new(IPVersion::IPv4).unwrap().cmd(),
        "iptables-restore"
    );
    assert_eq!(
        IPTablesRestore::new(IPVersion::IPv6).unwrap().cmd(),
        "ip6tables-restore"
    );
}

#[test]
fn text_of_one_table_with_one_policy() {
    let mut ipt = fresh();
    ipt.set_policy("table", "chain", "policy").unwrap();
    assert_eq!(text_of(&ipt), "*table\n:chain policy [0:0]\nCOMMIT\n");
    assert_eq!(ipt.get_rules().join("\n"), "*table\n:chain policy [0:0]\nCOMMIT");
}

#[test]
fn write_rules_appends_to_what_is_there() {
    let mut ipt = fresh();
    ipt.flush_table("raw").unwrap();
    let mut text = String::from("# head\n");
    ipt.write_rules(&mut text);
    assert_eq!(text, "# head\n*raw\n-F\nCOMMIT\n");
}

#[test]
fn appends_keep_their_order_and_list_returns_them() {
    let mut ipt = fresh();
    let rules = ["-j ONE", "-j TWO", "-s 10.0.0.0/8 -j THREE", "-j FOUR"];
    for rule in rules.iter() {
        assert_eq!(ipt.append("filter", "FORWARD", rule), Ok(false));
    }
    let expected = owned(&[
        "-A FORWARD -j ONE",
        "-A FORWARD -j TWO",
        "-A FORWARD -s 10.0.0.0/8 -j THREE",
        "-A FORWARD -j FOUR",
    ]);
    assert_eq!(ipt.list("filter", "FORWARD").unwrap(), expected);
    assert_eq!(ipt.list_table("filter").unwrap(), expected);
    assert_eq!(ipt.list("filter", "INPUT").unwrap(), Vec::<String>::new());
    assert_eq!(ipt.list("nat", "FORWARD").unwrap(), Vec::<String>::new());
}

#[test]
fn list_filters_by_chain_and_list_table_does_not() {
    let mut ipt = fresh();
    ipt.append("filter", "A", "-j X").unwrap();
    ipt.flush_table("filter").unwrap();
    ipt.delete("filter", "B", "-j Y").unwrap();
    ipt.flush_chain("filter", "A").unwrap();
    ipt.execute("filter", "-N CUSTOM").unwrap();
    assert_eq!(
        ipt.list("filter", "A").unwrap(),
        owned(&["-A A -j X", "-F A"])
    );
    assert_eq!(ipt.list("filter", "B").unwrap(), owned(&["-D B -j Y"]));
    assert_eq!(
        ipt.list_table("filter").unwrap(),
        owned(&["-A A -j X", "-F", "-D B -j Y", "-F A", "-N CUSTOM"])
    );
}

#[test]
fn append_replace_is_idempotent() {
    let mut ipt = fresh();
    assert_eq!(ipt.append_replace("nat", "POSTROUTING", "-j MASQUERADE"), Ok(true));
    let once = text_of(&ipt);
    assert_eq!(ipt.append_replace("nat", "POSTROUTING", "-j MASQUERADE"), Ok(true));
    assert_eq!(text_of(&ipt), once);
    assert_eq!(
        ipt.list_table("nat").unwrap(),
        owned(&["-A POSTROUTING -j MASQUERADE"])
    );
}

#[test]
fn append_replace_looks_at_chain_and_text() {
    let mut ipt = fresh();
    ipt.append_replace("nat", "A", "-j X").unwrap();
    // Another chain, another rule, another table: each is a new line.
    ipt.append_replace("nat", "B", "-j X").unwrap();
    ipt.append_replace("nat", "A", "-j Y").unwrap();
    ipt.append_replace("filter", "A", "-j X").unwrap();
    // The same text, but recorded by `execute` under no chain, does not count.
    ipt.execute("raw", "-A A -j X").unwrap();
    ipt.append_replace("raw", "A", "-j X").unwrap();
    assert_eq!(
        ipt.list_table("nat").unwrap(),
        owned(&["-A A -j X", "-A B -j X", "-A A -j Y"])
    );
    assert_eq!(ipt.list_table("filter").unwrap(), owned(&["-A A -j X"]));
    assert_eq!(
        ipt.list_table("raw").unwrap(),
        owned(&["-A A -j X", "-A A -j X"])
    );
}

#[test]
fn append_replace_after_append_adds_nothing() {
    let mut ipt = fresh();
    ipt.append("filter", "A", "-j X").unwrap();
    ipt.append("filter", "A", "-j X").unwrap();
    ipt.append_replace("filter", "A", "-j X").unwrap();
    assert_eq!(
        ipt.list_table("filter").unwrap(),
        owned(&["-A A -j X", "-A A -j X"])
    );
}

#[test]
fn append_replace_leaves_an_explicit_policy_alone() {
    let mut ipt = fresh();
    ipt.append_replace("filter", "A", "-j X").unwrap();
    ipt.set_policy("filter", "A", "DROP").unwrap();
    ipt.append_replace("filter", "A", "-j X").unwrap();
    ipt.append_replace("filter", "A", "-j Z").unwrap();
    assert_eq!(ipt.list_chains("filter").unwrap(), owned(&["DROP"]));
}

#[test]
fn plain_append_is_not_idempotent() {
    let mut ipt = fresh();
    ipt.append("filter", "A", "-j X").unwrap();
    let once = text_of(&ipt);
    ipt.append("filter", "A", "-j X").unwrap();
    assert_ne!(text_of(&ipt), once);
    assert_eq!(
        ipt.list("filter", "A").unwrap(),
        owned(&["-A A -j X", "-A A -j X"])
    );
}

#[test]
fn set_policy_overwrites_a_default() {
    let mut ipt = fresh();
    ipt.append("filter", "A", "-j X").unwrap();
    ipt.delete("filter", "B", "-j X").unwrap();
    ipt.flush_chain("filter", "C").unwrap();
    assert_eq!(ipt.list_chains("filter").unwrap(), owned(&["-", "-", "-"]));
    assert_eq!(ipt.set_policy("filter", "A", "DROP"), Ok(true));
    assert_eq!(ipt.set_policy("filter", "B", "ACCEPT"), Ok(true));
    assert_eq!(ipt.set_policy("filter", "C", "RETURN"), Ok(true));
    assert_eq!(
        ipt.list_chains("filter").unwrap(),
        owned(&["DROP", "ACCEPT", "RETURN"])
    );
    assert_eq!(ipt.set_policy("filter", "A", "ACCEPT"), Ok(true));
    assert_eq!(
        ipt.list_chains("filter").unwrap(),
        owned(&["ACCEPT", "ACCEPT", "RETURN"])
    );
}

#[test]
fn a_later_reference_keeps_an_explicit_policy() {
    let mut ipt = fresh();
    ipt.set_policy("filter", "A", "DROP").unwrap();
    ipt.append("filter", "A", "-j X").unwrap();
    ipt.delete("filter", "A", "-j X").unwrap();
    ipt.flush_chain("filter", "A").unwrap();
    ipt.append_replace("filter", "A", "-j Y").unwrap();
    ipt.new_chain("filter", "A").unwrap();
    assert_eq!(ipt.list_chains("filter").unwrap(), owned(&["DROP"]));
    assert_eq!(
        ipt.get_rules(),
        owned(&[
            "*filter",
            ":A DROP [0:0]",
            "-A A -j X",
            "-D A -j X",
            "-F A",
            "-A A -j Y",
            "COMMIT"
        ])
    );
}

#[test]
fn new_chain_records_the_unset_policy() {
    let mut ipt = fresh();
    assert_eq!(ipt.new_chain("filter", "DFWRS_FORWARD"), Ok(true));
    assert_eq!(
        ipt.get_rules(),
        owned(&["*filter", ":DFWRS_FORWARD - [0:0]", "COMMIT"])
    );
    assert_eq!(ipt.list_table("filter").unwrap(), Vec::<String>::new());
}

#[test]
fn flushes_and_execute_are_recorded() {
    let mut ipt = fresh();
    assert_eq!(ipt.flush_table("filter"), Ok(false));
    assert_eq!(ipt.flush_chain("filter", "INPUT"), Ok(false));
    assert_eq!(ipt.delete("filter", "INPUT", "-j DROP"), Ok(false));
    assert_eq!(ipt.execute("filter", "-X OLD"), Ok(Output::synthetic()));
    assert_eq!(
        text_of(&ipt),
        "*filter\n:INPUT - [0:0]\n-F\n-F INPUT\n-D INPUT -j DROP\n-X OLD\nCOMMIT\n"
    );
}

#[test]
fn a_table_level_directive_gives_no_chain_a_policy() {
    let mut ipt = fresh();
    ipt.flush_table("mangle").unwrap();
    ipt.execute("mangle", "-Z").unwrap();
    assert_eq!(ipt.list_chains("mangle").unwrap(), Vec::<String>::new());
    assert_eq!(ipt.get_rules(), owned(&["*mangle", "-F", "-Z", "COMMIT"]));
}

#[test]
fn synthetic_output_is_empty_with_status_nine() {
    let o = Output::synthetic();
    assert_eq!(o.status, 9);
    assert!(o.stdout.is_empty());
    assert!(o.stderr.is_empty());
}

#[test]
fn list_chains_gives_policies_in_chain_order() {
    let mut ipt = fresh();
    ipt.set_policy("filter", "OUTPUT", "third").unwrap();
    ipt.set_policy("filter", "FORWARD", "first").unwrap();
    ipt.set_policy("filter", "INPUT", "second").unwrap();
    assert_eq!(
        ipt.list_chains("filter").unwrap(),
        owned(&["first", "second", "third"])
    );
}

#[test]
fn tables_are_written_in_order_whatever_came_first() {
    let mut one = fresh();
    one.append("nat", "PREROUTING", "-j DNAT").unwrap();
    one.append("filter", "FORWARD", "-j ACCEPT").unwrap();
    let mut other = fresh();
    other.append("filter", "FORWARD", "-j ACCEPT").unwrap();
    other.append("nat", "PREROUTING", "-j DNAT").unwrap();
    let expected = owned(&[
        "*filter",
        ":FORWARD - [0:0]",
        "-A FORWARD -j ACCEPT",
        "COMMIT",
        "*nat",
        ":PREROUTING - [0:0]",
        "-A PREROUTING -j DNAT",
        "COMMIT",
    ]);
    assert_eq!(one.get_rules(), expected);
    assert_eq!(other.get_rules(), expected);
    assert_eq!(text_of(&one), text_of(&other));
}

#[test]
fn policy_lines_come_first_and_in_chain_order() {
    let mut ipt = fresh();
    ipt.append("filter", "b", "-j X").unwrap();
    ipt.append("filter", "a", "-j Y").unwrap();
    ipt.set_policy("filter", "Z", "DROP").unwrap();
    ipt.append("filter", "ab", "-j W").unwrap();
    assert_eq!(
        ipt.get_rules(),
        owned(&[
            "*filter",
            ":Z DROP [0:0]",
            ":a - [0:0]",
            ":ab - [0:0]",
            ":b - [0:0]",
            "-A b -j X",
            "-A a -j Y",
            "-A ab -j W",
            "COMMIT"
        ])
    );
}

#[test]
fn names_are_ordered_by_their_bytes() {
    let mut ipt = fresh();
    for table in ["é", "z", "", "Z", "a\u{10000}", "a\u{ffff}", "a"].iter() {
        ipt.flush_table(table).unwrap();
    }
    let starts: Vec<String> = ipt
        .get_rules()
        .into_iter()
        .filter(|l| l.starts_with('*'))
        .collect();
    assert_eq!(
        starts,
        owned(&["*", "*Z", "*a", "*a\u{ffff}", "*a\u{10000}", "*z", "*é"])
    );
}

#[test]
fn chains_of_two_tables_are_unrelated() {
    let mut ipt = fresh();
    ipt.set_policy("filter", "SAME", "DROP").unwrap();
    ipt.append("nat", "SAME", "-j X").unwrap();
    assert_eq!(ipt.list_chains("filter").unwrap(), owned(&["DROP"]));
    assert_eq!(ipt.list_chains("nat").unwrap(), owned(&["-"]));
    assert_eq!(ipt.list("filter", "SAME").unwrap(), Vec::<String>::new());
}

#[test]
fn get_rules_splits_at_every_newline() {
    let mut ipt = fresh();
    ipt.execute("filter", "-N ONE\n-N TWO").unwrap();
    ipt.execute("filter", "").unwrap();
    assert_eq!(
        ipt.get_rules(),
        owned(&["*filter", "-N ONE", "-N TWO", "", "COMMIT"])
    );
    assert_eq!(
        ipt.list_table("filter").unwrap(),
        owned(&["-N ONE\n-N TWO", ""])
    );
}

#[test]
fn unsupported_operations_fail_with_their_name() {
    let mut ipt = fresh();
    ipt.append("filter", "A", "-j X").unwrap();
    let before = text_of(&ipt);
    let failed = |r: Result<bool, DFWError>, name: &str| {
        assert_eq!(
            r,
            Err(DFWError::TraitMethodUnimplemented {
                method: name.to_string()
            })
        );
    };
    failed(ipt.insert("filter", "A", "-j X", 1), "insert");
    failed(ipt.insert_unique("filter", "A", "-j X", 1), "insert_unique");
    failed(ipt.append_unique("filter", "A", "-j X"), "append_unique");
    failed(ipt.rule_exists("filter", "A", "-j X"), "exists");
    failed(ipt.chain_exists("filter", "A"), "chain_exists");
    failed(ipt.replace("filter", "A", "-j X", 1), "replace");
    failed(ipt.delete_all("filter", "A", "-j X"), "delete_all");
    failed(ipt.rename_chain("filter", "A", "B"), "rename_chain");
    failed(ipt.delete_chain("filter", "A"), "delete_chain");
    assert_eq!(
        ipt.get_policy("filter", "A"),
        Err(DFWError::TraitMethodUnimplemented {
            method: "get_policy".to_string()
        })
    );
    assert_eq!(text_of(&ipt), before);
}

#[test]
fn commit_succeeds_and_forgets_the_transaction() {
    let mut ipt = fresh();
    ipt.append("filter", "A", "-j X").unwrap();
    let run = RestoreRun::Exited {
        success: true,
        stderr: String::new(),
    };
    assert_eq!(ipt.commit(run), Ok(true));
    assert_eq!(text_of(&ipt), "");
    assert_eq!(ipt.cmd(), "iptables-restore");
}

#[test]
fn commit_reports_a_failed_command_and_forgets_the_transaction() {
    let mut ipt = IPTablesRestore::new(IPVersion::IPv6).unwrap();
    ipt.append("filter", "A", "-j X").unwrap();
    let run = RestoreRun::Exited {
        success: false,
        stderr: "\n  ip6tables-restore: line 3 failed\n\n".to_string(),
    };
    let err = ipt.commit(run).unwrap_err();
    assert_eq!(
        err,
        DFWError::ProcessFailed {
            command: "ip6tables-restore".to_string(),
            output: "ip6tables-restore: line 3 failed".to_string()
        }
    );
    assert_eq!(
        err.message(),
        "ip6tables-restore failed: 'ip6tables-restore: line 3 failed'"
    );
    assert_eq!(text_of(&ipt), "");
    // The transaction is gone: a second commit has nothing to hand over.
    assert_eq!(ipt.get_rules(), owned(&[""]));
}

#[test]
fn commit_keeps_the_transaction_when_nothing_was_handed_over() {
    let mut ipt = fresh();
    ipt.append("filter", "A", "-j X").unwrap();
    let before = text_of(&ipt);

    let err = ipt
        .commit(RestoreRun::SpawnFailed {
            reason: "No such file or directory (os error 2)".to_string(),
        })
        .unwrap_err();
    assert_eq!(
        err,
        DFWError::ProcessUnavailable {
            reason: "No such file or directory (os error 2)".to_string()
        }
    );
    assert_eq!(text_of(&ipt), before);

    let err = ipt.commit(RestoreRun::NoStdin).unwrap_err();
    assert_eq!(
        err,
        DFWError::ProcessUnavailable {
            reason: "cannot get stdin of iptables-restore".to_string()
        }
    );
    assert_eq!(text_of(&ipt), before);

    let err = ipt
        .commit(RestoreRun::WriteFailed {
            reason: "Broken pipe (os error 32)".to_string(),
        })
        .unwrap_err();
    assert_eq!(
        err,
        DFWError::Io {
            reason: "Broken pipe (os error 32)".to_string()
        }
    );
    assert_eq!(text_of(&ipt), before);
}

#[test]
fn commit_forgets_the_transaction_when_the_wait_fails() {
    let mut ipt = fresh();
    ipt.append("filter", "A", "-j X").unwrap();
    let err = ipt
        .commit(RestoreRun::WaitFailed {
            reason: "interrupted".to_string(),
        })
        .unwrap_err();
    assert_eq!(
        err,
        DFWError::Io {
            reason: "interrupted".to_string()
        }
    );
    assert_eq!(text_of(&ipt), "");
}

#[test]
fn error_messages() {
    assert_eq!(
        DFWError::unimplemented("insert"),
        DFWError::TraitMethodUnimplemented {
            method: "insert".to_string()
        }
    );
    assert_eq!(
        DFWError::unimplemented("insert").message(),
        "trait method unimplemented: insert"
    );
    assert_eq!(
        DFWError::ProcessUnavailable {
            reason: "gone".to_string()
        }
        .message(),
        "gone"
    );
    assert_eq!(
        DFWError::Io {
            reason: "pipe".to_string()
        }
        .message(),
        "pipe"
    );
    assert_eq!(
        DFWError::Host {
            reason: "iptables: No chain/target/match by that name.".to_string()
        }
        .message(),
        "iptables: No chain/target/match by that name."
    );
}
