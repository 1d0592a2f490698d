use hostfile_updater::hostfile::Hostfile;

#[test]
fn test_integration_1() {
    let input = "# comment line\n127.0.0.1 localhost\n";

    assert_eq!(
        Hostfile::new_from_str(&input).unwrap().to_string(),
        "127.0.0.1 localhost",
    );
}

#[test]
fn test_integration_2() {
    let input = "# comment line\n127.0.0.1 localhost\n127.0.0.1 test.localdomain";

    assert_eq!(
        Hostfile::new_from_str(&input).unwrap().to_string(),
        "127.0.0.1 localhost test.localdomain",
    );
}

#[test]
fn test_whitespace() {
    let input = "# comment line\n127.0.0.1\tlocalhost  localhost.localdomain\n";

    assert_eq!(
        Hostfile::new_from_str(&input).unwrap().to_string(),
        "127.0.0.1 localhost localhost.localdomain",
    );
}

#[test]
fn test_add() {
    let input = "# comment line\n127.0.0.1\tlocalhost  localhost.localdomain\n";
    let mut hf = Hostfile::new_from_str(&input).unwrap();

    hf.add("192.168.0.1", &vec!["test.localdomain"]);

    assert_eq!(
        hf.to_string(),
        "127.0.0.1 localhost localhost.localdomain\n192.168.0.1 test.localdomain",
    );
}

#[test]
fn test_remove() {
    let input = "# comment line\n127.0.0.1\tlocalhost  localhost.localdomain\n192.168.0.10 test.localdomain";
    let mut hf = Hostfile::new_from_str(&input).unwrap();

    hf.remove("192.168.0.10", &vec!["test.localdomain"]);

    assert_eq!(hf.to_string(), "127.0.0.1 localhost localhost.localdomain",);
}

#[test]
fn test_multiple() {
    let input = "# comment line\n127.0.0.1\tlocalhost  localhost.localdomain\n";
    let mut hf = Hostfile::new_from_str(&input).unwrap();

    hf.add(
        "192.168.0.1",
        &vec!["test1.localdomain", "test2.localdomain"],
    );

    assert_eq!(
        hf.to_string(),
        "127.0.0.1 localhost localhost.localdomain\n192.168.0.1 test1.localdomain test2.localdomain",
    );
}
