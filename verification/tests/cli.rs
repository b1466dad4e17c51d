use securenote::cli::{parse_args, run, usage, Command, Home, USAGE};

fn fresh_home() -> Home {
    Home { data_dir: "/tmp/home/data".into(), device: None, key: None, op_lines: vec![], ack_lines: vec![] }
}

fn cli(home: &mut Home, args: &[&str]) -> Result<String, String> {
    let args: Vec<String> = args.iter().map(|s| s.to_string()).collect();
    run(&args, home, 1_700_000_000_000)
}

#[test]
fn end_to_end_notes_are_encrypted() {
    let mut home = fresh_home();
    cli(&mut home, &["init"]).unwrap();
    let doc = cli(&mut home, &["new", "My Note"]).unwrap();
    cli(&mut home, &["add", &doc, "hello", "world"]).unwrap();
    let blk = cli(&mut home, &["add", &doc, "second", "line"]).unwrap();

    let cat = cli(&mut home, &["cat", &doc]).unwrap();
    assert!(cat.contains("# My Note"));
    assert!(cat.contains("hello world"));
    assert!(cat.contains("second line"));

    assert!(cli(&mut home, &["ls"]).unwrap().contains("My Note"));

    // edits and tombstones replay correctly
    cli(&mut home, &["edit", &blk, "edited", "line"]).unwrap();
    cli(&mut home, &["rm", &blk]).unwrap();
    let cat2 = cli(&mut home, &["cat", &doc]).unwrap();
    assert!(cat2.contains("hello world"));
    assert!(!cat2.contains("edited line"), "removed block stays hidden");

    // and none of it is plaintext in the op log
    let raw = home.op_lines.join("\n").into_bytes();
    assert!(!raw.windows(11).any(|w| w == b"hello world"), "plaintext at rest");
}

// ---------------------------------------------------------------------------

#[test]
fn help_and_usage_errors() {
    let mut home = fresh_home();
    assert_eq!(cli(&mut home, &[]).unwrap(), USAGE);
    assert_eq!(cli(&mut home, &["help"]).unwrap(), USAGE);
    assert_eq!(cli(&mut home, &["-h"]).unwrap(), USAGE);
    assert_eq!(cli(&mut home, &["--help"]).unwrap(), USAGE);
    assert_eq!(usage(), USAGE);
    assert!(USAGE.starts_with("ssn — SecureSourceNote CLI\n\nssn init                 create the local encrypted store\n"));
    assert!(USAGE.ends_with("\n\nData lives in $SSN_HOME (default ./.ssn)."));
    assert_eq!(cli(&mut home, &["new"]).unwrap_err(), "usage: ssn new <title>");
    assert_eq!(cli(&mut home, &["add", "d"]).unwrap_err(), "usage: ssn add <doc-id> <text...>");
    assert_eq!(cli(&mut home, &["add"]).unwrap_err(), "usage: ssn add <doc-id> <text...>");
    assert_eq!(cli(&mut home, &["add", "d", ""]).unwrap_err(), "usage: ssn add <doc-id> <text...>");
    assert_eq!(cli(&mut home, &["edit", "b"]).unwrap_err(), "usage: ssn edit <block-id> <text...>");
    assert_eq!(cli(&mut home, &["rm"]).unwrap_err(), "usage: ssn rm <block-id>");
    assert_eq!(cli(&mut home, &["cat"]).unwrap_err(), "usage: ssn cat <doc-id>");
    assert_eq!(cli(&mut home, &["frob"]).unwrap_err(), format!("unknown command 'frob'\n\n{USAGE}"));
    // none of these touched the home
    assert!(home.device.is_none() && home.key.is_none() && home.op_lines.is_empty());
}

#[test]
fn words_are_joined_with_single_spaces() {
    let args: Vec<String> = ["add", "d", "a", "", "b"].iter().map(|s| s.to_string()).collect();
    match parse_args(&args) {
        Ok(Command::Add(doc, text)) => {
            assert_eq!(doc, "d");
            assert_eq!(text, "a  b");
        }
        _ => panic!("expected add"),
    }
    let args: Vec<String> = ["add", "d", "", ""].iter().map(|s| s.to_string()).collect();
    assert!(matches!(parse_args(&args), Ok(Command::Add(_, t)) if t == " "));
}

#[test]
fn init_makes_device_key_and_default_workspace() {
    let mut home = fresh_home();
    let out = cli(&mut home, &["init"]).unwrap();
    assert_eq!(out, "initialized encrypted store at /tmp/home/data");
    let dev = home.device.clone().unwrap();
    assert!(dev.starts_with("dev-") && dev.len() == 16);
    let key = home.key.clone().unwrap();
    assert_eq!(key.len(), 64);
    assert!(key.chars().all(|c| c.is_ascii_hexdigit() && !c.is_ascii_uppercase()));
    assert_eq!(home.op_lines.len(), 1);
    // a second init finds the workspace and commits nothing
    cli(&mut home, &["init"]).unwrap();
    assert_eq!(home.op_lines.len(), 1);
    assert_eq!(home.device.clone().unwrap(), dev);
    assert_eq!(home.key.clone().unwrap(), key);
}

#[test]
fn ls_and_cat_formats() {
    let mut home = fresh_home();
    assert_eq!(cli(&mut home, &["ls"]).unwrap(), "(no notes yet — `ssn new <title>`)");
    assert!(home.device.is_none(), "ls makes no device id");
    assert!(home.key.is_some(), "but it opens the store");
    let doc = cli(&mut home, &["new", "T"]).unwrap();
    assert!(doc.starts_with("doc-") && doc.len() == 16);
    assert_eq!(cli(&mut home, &["ls"]).unwrap(), format!("{doc}  T  (0 blocks)"));
    let b1 = cli(&mut home, &["add", &doc, "one"]).unwrap();
    assert!(b1.starts_with("blk-") && b1.len() == 16);
    assert_eq!(cli(&mut home, &["ls"]).unwrap(), format!("{doc}  T  (1 block)"));
    let b2 = cli(&mut home, &["add", &doc, "two  "]).unwrap();
    assert_eq!(cli(&mut home, &["cat", &doc]).unwrap(), format!("# T\n[{b1}] one\n[{b2}] two"));
    cli(&mut home, &["rm", &b1]).unwrap();
    assert_eq!(cli(&mut home, &["cat", &doc]).unwrap(), format!("# T\n[{b2}] two"));
    assert_eq!(cli(&mut home, &["ls"]).unwrap(), format!("{doc}  T  (1 block)"));
    // a block is added after the last visible one
    let b3 = cli(&mut home, &["add", &doc, "three"]).unwrap();
    assert_eq!(cli(&mut home, &["cat", &doc]).unwrap(), format!("# T\n[{b2}] two  \n[{b3}] three"));
}

#[test]
fn unknown_note_or_block() {
    let mut home = fresh_home();
    assert_eq!(cli(&mut home, &["add", "doc-x", "t"]).unwrap_err(), "no such note: doc-x");
    assert!(home.device.is_some(), "the device id is made before the lookup");
    assert_eq!(cli(&mut home, &["cat", "doc-x"]).unwrap_err(), "no such note: doc-x");
    assert_eq!(cli(&mut home, &["edit", "blk-x", "t"]).unwrap_err(), "no such block: blk-x");
    assert_eq!(cli(&mut home, &["rm", "blk-x"]).unwrap_err(), "no such block: blk-x");
    assert!(home.op_lines.is_empty());
}

#[test]
fn edit_replaces_text_and_reports() {
    let mut home = fresh_home();
    let doc = cli(&mut home, &["new", "T"]).unwrap();
    let b = cli(&mut home, &["add", &doc, "old"]).unwrap();
    assert_eq!(cli(&mut home, &["edit", &b, "new", "text"]).unwrap(), format!("edited {b}"));
    assert_eq!(cli(&mut home, &["cat", &doc]).unwrap(), format!("# T\n[{b}] new text"));
    assert_eq!(cli(&mut home, &["rm", &b]).unwrap(), format!("removed {b}"));
    // a removed block can still be edited, and stays hidden
    assert_eq!(cli(&mut home, &["edit", &b, "again"]).unwrap(), format!("edited {b}"));
    assert_eq!(cli(&mut home, &["cat", &doc]).unwrap(), "# T");
}

#[test]
fn corrupt_key_file_is_refused() {
    let mut home = fresh_home();
    home.key = Some("not a key".into());
    assert_eq!(cli(&mut home, &["ls"]).unwrap_err(), "corrupt store.key");
    home.key = Some("ab".repeat(31));
    assert_eq!(cli(&mut home, &["init"]).unwrap_err(), "corrupt store.key");
    assert!(home.device.is_some());
    assert!(home.op_lines.is_empty());
}

#[test]
fn existing_files_are_used_as_they_are() {
    let mut home = fresh_home();
    home.device = Some("  my-device \n".into());
    home.key = Some(format!("{}\n", "0f".repeat(32)));
    cli(&mut home, &["init"]).unwrap();
    assert_eq!(home.device.as_deref(), Some("  my-device \n"));
    let key = home.key.clone();
    let doc = cli(&mut home, &["new", "N"]).unwrap();
    assert_eq!(home.key, key);
    assert!(cli(&mut home, &["ls"]).unwrap().starts_with(&doc));
}

#[test]
fn a_store_under_another_key_is_refused() {
    let mut home = fresh_home();
    cli(&mut home, &["new", "N"]).unwrap();
    assert_eq!(home.op_lines.len(), 2);
    let mut other = fresh_home();
    other.op_lines = home.op_lines.clone();
    other.key = Some("11".repeat(32));
    let e = cli(&mut other, &["ls"]).unwrap_err();
    assert_eq!(e, "store corruption: parse error at line 1");
    assert_eq!(other.op_lines, home.op_lines);
}
