use std::str;
use wasmedge_process_interface::{Command, Error};

#[test]
fn test_arg() {
    let mut cmd = Command::new("rusttest").unwrap();
    cmd.arg("val1").unwrap().arg("val2").unwrap();
    assert_eq!(cmd.args_list[0], "val1");
    assert_eq!(cmd.args_list[1], "val2");
}

#[test]
fn test_args() {
    let mut cmd = Command::new("rusttest").unwrap();
    cmd.args(&["val1", "val2"]).unwrap();
    assert_eq!(cmd.args_list[0], "val1");
    assert_eq!(cmd.args_list[1], "val2");
}

#[test]
fn test_arg_args() {
    let mut cmd = Command::new("rusttest").unwrap();
    cmd.arg("val1").unwrap().arg("val2").unwrap().args(&["val3", "val4"]).unwrap();
    assert_eq!(cmd.args_list[0], "val1");
    assert_eq!(cmd.args_list[1], "val2");
    assert_eq!(cmd.args_list[2], "val3");
    assert_eq!(cmd.args_list[3], "val4");
}

#[test]
fn test_args_clear() {
    let mut cmd = Command::new("rusttest").unwrap();
    cmd.arg("val1").unwrap().arg("val2").unwrap().args(&["val3", "val4"]).unwrap();
    cmd.args_clear();
    assert_eq!(cmd.args_list.len(), 0);
}

#[test]
fn test_env() {
    let mut cmd = Command::new("rusttest").unwrap();
    cmd.env("ENV1", "VALUE1").unwrap().env("ENV2", "VALUE2").unwrap();
    assert_eq!(cmd.env_value("ENV1").unwrap(), "VALUE1");
    assert_eq!(cmd.env_value("ENV2").unwrap(), "VALUE2");
}

#[test]
fn test_envs() {
    let mut cmd = Command::new("rusttest").unwrap();
    let mut hash: Vec<(&str, &str)> = Vec::new();
    hash.push(("ENV1", "VALUE1"));
    hash.push(("ENV2", "VALUE2"));
    cmd.envs(&hash).unwrap();
    assert_eq!(cmd.env_value("ENV1").unwrap(), "VALUE1");
    assert_eq!(cmd.env_value("ENV2").unwrap(), "VALUE2");
}

#[test]
fn test_env_envs() {
    let mut cmd = Command::new("rusttest").unwrap();
    let mut hash: Vec<(&str, &str)> = Vec::new();
    hash.push(("ENV1", "VALUE1"));
    hash.push(("ENV2", "VALUE2"));
    cmd.env("ENV3", "VALUE3").unwrap().env("ENV4", "VALUE4").unwrap().envs(&hash).unwrap();
    assert_eq!(cmd.env_value("ENV1").unwrap(), "VALUE1");
    assert_eq!(cmd.env_value("ENV2").unwrap(), "VALUE2");
    assert_eq!(cmd.env_value("ENV3").unwrap(), "VALUE3");
    assert_eq!(cmd.env_value("ENV4").unwrap(), "VALUE4");
}

#[test]
fn test_stdin() {
    let mut cmd = Command::new("rusttest").unwrap();
    cmd.stdin("hello").unwrap().stdin(" ").unwrap().stdin("world").unwrap();
    assert_eq!(
        str::from_utf8(&cmd.stdin_str).expect("ERROR"),
        "hello world"
    );
}

#[test]
fn test_stdin_u8() {
    let mut cmd = Command::new("rusttest").unwrap();
    cmd.stdin("Test").unwrap().stdin_u8(0).stdin_u8(100).stdin_u8(255);
    assert_eq!(cmd.stdin_str, vec![84, 101, 115, 116, 0, 100, 255]);
}

#[test]
fn test_stdin_u8vec() {
    let mut cmd = Command::new("rusttest").unwrap();
    let v = vec![5, 6, 7];
    cmd.stdin("Test")
        .unwrap()
        .stdin_u8vec(&v)
        .stdin_u8(100)
        .stdin_u8(255);
    assert_eq!(cmd.stdin_str, vec![84, 101, 115, 116, 5, 6, 7, 100, 255]);
    assert_eq!(v, vec![5, 6, 7]);
}

#[test]
fn test_timeout() {
    let mut cmd = Command::new("rusttest").unwrap();
    cmd.timeout(666666);
    assert_eq!(cmd.timeout_val, 666666);
}

#[test]
fn new_command_has_defaults() {
    let cmd = Command::new("rusttest").unwrap();
    assert_eq!(cmd.name, "rusttest");
    assert!(cmd.args_list.is_empty());
    assert!(cmd.envp_map.is_empty());
    assert!(cmd.stdin_str.is_empty());
    assert_eq!(cmd.timeout_val, 10000);
}

#[test]
fn new_refuses_a_nul_byte_in_the_name() {
    assert_eq!(Command::new("ru\0st").err(), Some(Error::NulByte));
    assert_eq!(Command::new("\0").err(), Some(Error::NulByte));
    assert!(Command::new("").is_ok());
}

#[test]
fn arguments_keep_the_order_of_the_calls() {
    let mut cmd = Command::new("rusttest").unwrap();
    let wanted = ["c", "a", "b", "a", ""];
    for text in wanted.iter() {
        cmd.arg(text).unwrap();
    }
    assert_eq!(cmd.args_list, vec!["c", "a", "b", "a", ""]);
}

#[test]
fn arg_refuses_a_nul_byte_and_changes_nothing() {
    let mut cmd = Command::new("rusttest").unwrap();
    cmd.arg("val1").unwrap();
    assert_eq!(cmd.arg("va\0l2").err(), Some(Error::NulByte));
    assert_eq!(cmd.args_list, vec!["val1"]);
}

#[test]
fn args_keeps_what_came_before_the_refused_one() {
    let mut cmd = Command::new("rusttest").unwrap();
    cmd.arg("val0").unwrap();
    let res = cmd.args(&["val1", "val2", "bad\0", "val4"]);
    assert_eq!(res.err(), Some(Error::NulByte));
    assert_eq!(cmd.args_list, vec!["val0", "val1", "val2"]);
}

#[test]
fn args_with_nothing_changes_nothing() {
    let mut cmd = Command::new("rusttest").unwrap();
    cmd.arg("val1").unwrap();
    let none: [&str; 0] = [];
    cmd.args(&none).unwrap();
    assert_eq!(cmd.args_list, vec!["val1"]);
}

#[test]
fn args_clear_on_no_argument_is_a_no_op() {
    let mut cmd = Command::new("rusttest").unwrap();
    cmd.env("K", "V").unwrap().stdin_u8(1).timeout(5);
    cmd.args_clear();
    assert!(cmd.args_list.is_empty());
    assert_eq!(cmd.envp_map, vec![(String::from("K"), String::from("V"))]);
    assert_eq!(cmd.stdin_str, vec![1]);
    assert_eq!(cmd.timeout_val, 5);
    cmd.args_clear().arg("again").unwrap();
    assert_eq!(cmd.args_list, vec!["again"]);
}

#[test]
fn env_last_write_wins() {
    let mut cmd = Command::new("rusttest").unwrap();
    cmd.env("A", "1").unwrap().env("B", "2").unwrap().env("A", "3").unwrap();
    assert_eq!(cmd.env_value("A").unwrap(), "3");
    assert_eq!(cmd.env_value("B").unwrap(), "2");
    assert_eq!(cmd.env_value("C"), None);
    assert_eq!(
        cmd.envp_map,
        vec![(String::from("A"), String::from("3")), (String::from("B"), String::from("2"))]
    );
}

#[test]
fn envs_last_write_wins_within_one_call() {
    let mut cmd = Command::new("rusttest").unwrap();
    cmd.envs(&[("A", "1"), ("B", "2"), ("A", "3")]).unwrap();
    assert_eq!(cmd.env_value("A").unwrap(), "3");
    assert_eq!(cmd.env_value("B").unwrap(), "2");
    assert_eq!(cmd.envp_map.len(), 2);
}

#[test]
fn env_refuses_a_nul_byte_in_name_or_value() {
    let mut cmd = Command::new("rusttest").unwrap();
    cmd.env("A", "1").unwrap();
    assert_eq!(cmd.env("B\0", "2").err(), Some(Error::NulByte));
    assert_eq!(cmd.env("A", "\02").err(), Some(Error::NulByte));
    assert_eq!(cmd.env_value("A").unwrap(), "1");
    assert_eq!(cmd.envp_map.len(), 1);
}

#[test]
fn envs_keeps_what_came_before_the_refused_pair() {
    let mut cmd = Command::new("rusttest").unwrap();
    let res = cmd.envs(&[("A", "1"), ("B", "2\0"), ("C", "3")]);
    assert_eq!(res.err(), Some(Error::NulByte));
    assert_eq!(cmd.envp_map, vec![(String::from("A"), String::from("1"))]);
}

#[test]
fn env_value_reads_the_last_entry_of_a_name() {
    let mut cmd = Command::new("rusttest").unwrap();
    cmd.envp_map.push((String::from("A"), String::from("1")));
    cmd.envp_map.push((String::from("A"), String::from("2")));
    assert_eq!(cmd.env_value("A").unwrap(), "2");
    cmd.env("A", "3").unwrap();
    assert_eq!(cmd.env_value("A").unwrap(), "3");
    assert_eq!(
        cmd.envp_map,
        vec![(String::from("A"), String::from("3")), (String::from("A"), String::from("3"))]
    );
}

#[test]
fn stdin_forms_append_in_one_order() {
    let mut cmd = Command::new("rusttest").unwrap();
    cmd.stdin("a").unwrap().stdin_u8(0).stdin_u8vec(&[1, 2]);
    assert_eq!(cmd.stdin_str, vec![97, 0, 1, 2]);
}

#[test]
fn stdin_text_is_its_utf8_bytes() {
    let mut cmd = Command::new("rusttest").unwrap();
    cmd.stdin("h\u{e9}\u{20ac}").unwrap();
    assert_eq!(cmd.stdin_str, vec![0x68, 0xc3, 0xa9, 0xe2, 0x82, 0xac]);
}

#[test]
fn stdin_refuses_a_nul_byte_in_text() {
    let mut cmd = Command::new("rusttest").unwrap();
    cmd.stdin("ab").unwrap();
    assert_eq!(cmd.stdin("c\0d").err(), Some(Error::NulByte));
    assert_eq!(cmd.stdin_str, vec![97, 98]);
}

#[test]
fn stdin_u8vec_with_nothing_changes_nothing() {
    let mut cmd = Command::new("rusttest").unwrap();
    cmd.stdin_u8(9).stdin_u8vec(&[]);
    assert_eq!(cmd.stdin_str, vec![9]);
}

#[test]
fn last_timeout_wins() {
    let mut cmd = Command::new("rusttest").unwrap();
    cmd.timeout(1).timeout(0).timeout(4294967295);
    assert_eq!(cmd.timeout_val, 4294967295);
    cmd.timeout(7).timeout(7);
    assert_eq!(cmd.timeout_val, 7);
}

#[test]
fn with_environment_copies_the_pairs() {
    let cmd = Command::with_environment("rusttest", &[("A", "1"), ("B", "2"), ("A", "3")]).unwrap();
    assert_eq!(cmd.name, "rusttest");
    assert!(cmd.args_list.is_empty());
    assert_eq!(cmd.timeout_val, 10000);
    assert_eq!(
        cmd.envp_map,
        vec![(String::from("A"), String::from("3")), (String::from("B"), String::from("2"))]
    );
    assert!(Command::with_environment("rusttest", &[]).unwrap().envp_map.is_empty());
}

#[test]
fn with_environment_refuses_a_nul_byte() {
    assert_eq!(Command::with_environment("ru\0st", &[("A", "1")]).err(), Some(Error::NulByte));
    assert_eq!(
        Command::with_environment("rust", &[("A", "1"), ("B\0", "2")]).err(),
        Some(Error::NulByte)
    );
    assert_eq!(Command::with_environment("rust", &[("A", "\0")]).err(), Some(Error::NulByte));
}

#[test]
fn env_names_are_compared_by_their_whole_text() {
    let mut cmd = Command::new("rusttest").unwrap();
    cmd.env("caf\u{e9}", "1").unwrap().env("cafe", "2").unwrap().env("caf", "3").unwrap();
    assert_eq!(cmd.envp_map.len(), 3);
    assert_eq!(cmd.env_value("caf\u{e9}").unwrap(), "1");
    assert_eq!(cmd.env_value("cafe").unwrap(), "2");
    assert_eq!(cmd.env_value("caf").unwrap(), "3");
    assert_eq!(cmd.env_value("ca"), None);
    assert_eq!(cmd.env_value(""), None);
}
