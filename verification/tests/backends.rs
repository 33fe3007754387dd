use dfw::iptables::{IPTables, IPTablesDummy, IPTablesLogger, Output};

fn entry(function: &str, params: Option<&str>) -> (String, Option<String>) {
    (function.to_string(), params.map(|p| p.to_string()))
}

#[test]
fn dummy_answers_everything_with_the_empty_value() {
    let mut ipt = IPTablesDummy;
    assert_eq!(ipt.get_policy("t", "c"), Ok(String::new()));
    assert_eq!(ipt.set_policy("t", "c", "DROP"), Ok(false));
    assert_eq!(ipt.execute("t", "-F"), Ok(Output::synthetic()));
    assert_eq!(ipt.rule_exists("t", "c", "r"), Ok(false));
    assert_eq!(ipt.chain_exists("t", "c"), Ok(false));
    assert_eq!(ipt.insert("t", "c", "r", 1), Ok(false));
    assert_eq!(ipt.insert_unique("t", "c", "r", 1), Ok(false));
    assert_eq!(ipt.replace("t", "c", "r", 1), Ok(false));
    assert_eq!(ipt.append("t", "c", "r"), Ok(false));
    assert_eq!(ipt.append_unique("t", "c", "r"), Ok(false));
    assert_eq!(ipt.append_replace("t", "c", "r"), Ok(false));
    assert_eq!(ipt.delete("t", "c", "r"), Ok(false));
    assert_eq!(ipt.delete_all("t", "c", "r"), Ok(false));
    assert_eq!(ipt.list("t", "c"), Ok(Vec::new()));
    assert_eq!(ipt.list_table("t"), Ok(Vec::new()));
    assert_eq!(ipt.list_chains("t"), Ok(Vec::new()));
    assert_eq!(ipt.new_chain("t", "c"), Ok(false));
    assert_eq!(ipt.flush_chain("t", "c"), Ok(false));
    assert_eq!(ipt.rename_chain("t", "c", "d"), Ok(false));
    assert_eq!(ipt.delete_chain("t", "c"), Ok(false));
    assert_eq!(ipt.flush_table("t"), Ok(false));
    assert_eq!(ipt.commit(), Ok(false));
}

#[test]
fn dummy_keeps_nothing() {
    let mut ipt = IPTablesDummy;
    ipt.append("filter", "INPUT", "-j DROP").unwrap();
    assert_eq!(ipt.list("filter", "INPUT"), Ok(Vec::new()));
    assert_eq!(ipt.list_table("filter"), Ok(Vec::new()));
}

#[test]
fn logger_starts_empty() {
    assert!(IPTablesLogger::new().logs().is_empty());
    assert!(IPTablesLogger::default().logs().is_empty());
}

#[test]
fn logger_records_every_call_in_order() {
    let mut ipt = IPTablesLogger::new();
    assert_eq!(ipt.get_policy("t", "c"), Ok(String::new()));
    assert_eq!(ipt.set_policy("t", "c", "DROP"), Ok(false));
    assert_eq!(ipt.execute("t", "-F now"), Ok(Output::synthetic()));
    assert_eq!(ipt.rule_exists("t", "c", "-j r"), Ok(false));
    assert_eq!(ipt.chain_exists("t", "c"), Ok(false));
    assert_eq!(ipt.insert("t", "c", "-j r", 1), Ok(false));
    assert_eq!(ipt.insert_unique("t", "c", "-j r", -7), Ok(false));
    assert_eq!(ipt.replace("t", "c", "-j r", 120), Ok(false));
    assert_eq!(ipt.append("t", "c", "-j r"), Ok(false));
    assert_eq!(ipt.append_unique("t", "c", "-j r"), Ok(false));
    assert_eq!(ipt.append_replace("t", "c", "-j r"), Ok(false));
    assert_eq!(ipt.delete("t", "c", "-j r"), Ok(false));
    assert_eq!(ipt.delete_all("t", "c", "-j r"), Ok(false));
    assert_eq!(ipt.list("t", "c"), Ok(Vec::new()));
    assert_eq!(ipt.list_table("t"), Ok(Vec::new()));
    assert_eq!(ipt.list_chains("t"), Ok(Vec::new()));
    assert_eq!(ipt.new_chain("t", "c"), Ok(false));
    assert_eq!(ipt.flush_chain("t", "c"), Ok(false));
    assert_eq!(ipt.rename_chain("t", "c", "d"), Ok(false));
    assert_eq!(ipt.delete_chain("t", "c"), Ok(false));
    assert_eq!(ipt.flush_table("t"), Ok(false));
    assert_eq!(ipt.commit(), Ok(false));
    assert_eq!(
        ipt.logs(),
        vec![
            entry("get_policy", Some("t c")),
            entry("set_policy", Some("t c DROP")),
            entry("execute", Some("t -F now")),
            entry("exists", Some("t c -j r")),
            entry("chain_exists", Some("t c")),
            entry("insert", Some("t c -j r 1")),
            entry("insert_unique", Some("t c -j r -7")),
            entry("replace", Some("t c -j r 120")),
            entry("append", Some("t c -j r")),
            entry("append_unique", Some("t c -j r")),
            entry("append_replace", Some("t c -j r")),
            entry("delete", Some("t c -j r")),
            entry("delete_all", Some("t c -j r")),
            entry("list", Some("t c")),
            entry("list_table", Some("t")),
            entry("list_chains", Some("t")),
            entry("new_chain", Some("t c")),
            entry("flush_chain", Some("t c")),
            entry("rename_chain", Some("t c d")),
            entry("delete_chain", Some("t c")),
            entry("flush_table", Some("t")),
            entry("commit", None),
        ]
    );
}

#[test]
fn logger_log_joins_the_arguments() {
    let mut ipt = IPTablesLogger::new();
    ipt.log("nothing", &[]);
    ipt.log("one", &["a"]);
    ipt.log("three", &["a", "", "c d"]);
    assert_eq!(
        ipt.logs(),
        vec![
            entry("nothing", None),
            entry("one", Some("a")),
            entry("three", Some("a  c d")),
        ]
    );
}

#[test]
fn logger_hands_out_a_copy() {
    let mut ipt = IPTablesLogger::new();
    ipt.commit().unwrap();
    let mut copy = ipt.logs();
    copy.clear();
    assert_eq!(ipt.logs(), vec![entry("commit", None)]);
}

#[test]
fn logger_writes_positions_in_decimal() {
    let mut ipt = IPTablesLogger::new();
    ipt.insert("t", "c", "r", 0).unwrap();
    ipt.insert("t", "c", "r", i32::MAX).unwrap();
    ipt.insert("t", "c", "r", i32::MIN).unwrap();
    assert_eq!(
        ipt.logs(),
        vec![
            entry("insert", Some("t c r 0")),
            entry("insert", Some("t c r 2147483647")),
            entry("insert", Some("t c r -2147483648")),
        ]
    );
}

fn build_rules<T: IPTables>(ipt: &mut T) -> Vec<bool> {
    vec![
        ipt.new_chain("filter", "DFWRS_FORWARD").unwrap(),
        ipt.append("filter", "FORWARD", "-j DFWRS_FORWARD").unwrap(),
        ipt.set_policy("filter", "FORWARD", "DROP").unwrap(),
        ipt.commit().unwrap(),
    ]
}

#[test]
fn backends_are_driven_through_one_interface() {
    let mut dummy = IPTablesDummy;
    assert_eq!(build_rules(&mut dummy), vec![false; 4]);

    let mut logger = IPTablesLogger::new();
    assert_eq!(build_rules(&mut logger), vec![false; 4]);
    assert_eq!(
        logger.logs(),
        vec![
            entry("new_chain", Some("filter DFWRS_FORWARD")),
            entry("append", Some("filter FORWARD -j DFWRS_FORWARD")),
            entry("set_policy", Some("filter FORWARD DROP")),
            entry("commit", None),
        ]
    );
}
