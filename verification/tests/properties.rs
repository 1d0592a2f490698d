use hostfile_updater::config::Config;
use hostfile_updater::hostfile::Hostfile;

#[test]
fn round_trip_is_idempotent() {
    let input = "# hosts\n10.0.0.2 b\n\n10.0.0.1 a\n10.0.0.2\tc b\n";
    let first = Hostfile::new_from_str(&input).unwrap().to_string();
    let second = Hostfile::new_from_str(&first.as_str()).unwrap().to_string();
    assert_eq!(first, second);
}

#[test]
fn output_is_deterministic_in_insertion_order() {
    let mut one = Hostfile::new_from_str(&"").unwrap();
    one.add("10.0.0.1", &vec!["b", "a"]);
    one.add("10.0.0.2", &vec!["c"]);

    let mut other = Hostfile::new_from_str(&"").unwrap();
    other.add("10.0.0.2", &vec!["c"]);
    other.add("10.0.0.1", &vec!["a"]);
    other.add("10.0.0.1", &vec!["b"]);

    assert_eq!(one.to_string(), other.to_string());
    assert_eq!(one.to_string(), "10.0.0.1 a b\n10.0.0.2 c");
}

#[test]
fn parse_dedups_repeated_lines() {
    let hf = Hostfile::new_from_str(&"1.1.1.1 a\n1.1.1.1 a\n").unwrap();
    assert_eq!(hf.to_string(), "1.1.1.1 a");
}

#[test]
fn parse_merges_entries_across_lines() {
    let hf = Hostfile::new_from_str(&"1.1.1.1 a\n1.1.1.1 b\n").unwrap();
    assert_eq!(hf.to_string(), "1.1.1.1 a b");
}

#[test]
fn comments_and_blank_lines_are_skipped() {
    let hf = Hostfile::new_from_str(&"# c\n\n127.0.0.1 localhost\n").unwrap();
    assert_eq!(hf.to_string(), "127.0.0.1 localhost");
}

#[test]
fn add_creates_or_extends() {
    let mut hf = Hostfile::new_from_str(&"127.0.0.1 localhost").unwrap();
    hf.add("192.168.0.1", &vec!["test.localdomain"]);
    assert_eq!(
        hf.to_string(),
        "127.0.0.1 localhost\n192.168.0.1 test.localdomain"
    );

    hf.add("127.0.0.1", &vec!["extra", "localhost"]);
    assert_eq!(
        hf.to_string(),
        "127.0.0.1 extra localhost\n192.168.0.1 test.localdomain"
    );
}

#[test]
fn remove_purges_empty_entries() {
    let mut hf = Hostfile::new_from_str(&"192.168.0.10 test.localdomain").unwrap();
    hf.remove("192.168.0.10", &vec!["test.localdomain"]);
    assert_eq!(hf.to_string(), "");
}

#[test]
fn remove_of_absent_address_or_hostname_is_a_no_op() {
    let mut hf = Hostfile::new_from_str(&"10.0.0.1 a b").unwrap();
    hf.remove("10.9.9.9", &vec!["a"]);
    assert_eq!(hf.to_string(), "10.0.0.1 a b");
    hf.remove("10.0.0.1", &vec!["zz"]);
    assert_eq!(hf.to_string(), "10.0.0.1 a b");
}

#[test]
fn whitespace_runs_normalize_to_single_spaces() {
    let tabs = Hostfile::new_from_str(&"10.0.0.1\t\ta \t b\n").unwrap();
    let spaces = Hostfile::new_from_str(&"10.0.0.1 a b\n").unwrap();
    assert_eq!(tabs.to_string(), spaces.to_string());
    assert_eq!(tabs.to_string(), "10.0.0.1 a b");
}

#[test]
fn address_only_line_keeps_entry_with_trailing_space() {
    let hf = Hostfile::new_from_str(&"10.0.0.1\n").unwrap();
    assert_eq!(hf.to_string(), "10.0.0.1 ");
}

#[test]
fn add_with_no_hostnames_creates_empty_entry() {
    let mut hf = Hostfile::new_from_str(&"").unwrap();
    hf.add("10.0.0.1", &Vec::<&str>::new());
    assert_eq!(hf.to_string(), "10.0.0.1 ");

    hf.remove("10.0.0.1", &Vec::<&str>::new());
    assert_eq!(hf.to_string(), "");
}

#[test]
fn empty_input_renders_empty() {
    let hf = Hostfile::new_from_str(&"").unwrap();
    assert_eq!(hf.to_string(), "");
}

#[test]
fn lines_and_hostnames_come_out_sorted() {
    let hf = Hostfile::new_from_str(&"9.9.9.9 z y x\n1.1.1.1 c\n5.5.5.5 b a\n").unwrap();
    assert_eq!(hf.to_string(), "1.1.1.1 c\n5.5.5.5 a b\n9.9.9.9 x y z");
}

#[test]
fn carriage_return_is_trimmed_at_line_edges() {
    let hf = Hostfile::new_from_str(&"10.0.0.1 a\r\n10.0.0.2 b\n").unwrap();
    assert_eq!(hf.to_string(), "10.0.0.1 a\n10.0.0.2 b");
}

#[test]
fn config_carries_addresses_and_hostnames() {
    let cfg = Config {
        addresses: vec![String::from("10.0.0.1"), String::from("10.0.0.2")],
        hostnames: vec![String::from("a")],
    };
    let mut hf = Hostfile::new_from_str(&"").unwrap();
    for addr in &cfg.addresses {
        let names: Vec<&str> = cfg.hostnames.iter().map(|s| s.as_str()).collect();
        hf.add(addr.as_str(), &names);
    }
    assert_eq!(hf.to_string(), "10.0.0.1 a\n10.0.0.2 a");
}
