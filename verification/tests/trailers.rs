use trail::command::{CommandExecutionResult, EvolveAction, EvolveCommand};
use trail::ids::CommitHash;
use trail::trailers::{add_trailer, Trailers};

fn hash(text: &str) -> CommitHash {
    CommitHash::new(text.to_string())
}

fn read_trailers(listing: &str) -> Trailers {
    hash("0123abcd").read_trailers(listing)
}

#[test]
fn trailers_are_read_by_key() {
    let trailers = read_trailers("Signed-off-by: A <a@example.org>\nReviewed-by: B\n");
    assert_eq!(trailers.get("Signed-off-by"), Some(&"A <a@example.org>".to_string()));
    assert_eq!(trailers.get("Reviewed-by"), Some(&"B".to_string()));
    assert_eq!(trailers.get("Tested-by"), None);
}

#[test]
fn trailer_value_keeps_later_separators() {
    let trailers = read_trailers("Link: see: here: there\n");
    assert_eq!(trailers.get("Link"), Some(&"see: here: there".to_string()));
}

#[test]
fn trailer_line_without_separator_has_an_empty_value() {
    let trailers = read_trailers("justakey\nkey:novalue\n");
    assert_eq!(trailers.get("justakey"), Some(&"".to_string()));
    assert_eq!(trailers.get("key:novalue"), Some(&"".to_string()));
    assert_eq!(trailers.get("key"), None);
}

#[test]
fn later_trailer_replaces_an_earlier_one_with_the_same_key() {
    let trailers = read_trailers("Key: first\nOther: x\nKey: second\n");
    assert_eq!(trailers.get("Key"), Some(&"second".to_string()));
    assert_eq!(trailers.get("Other"), Some(&"x".to_string()));
}

#[test]
fn trailers_agree_with_a_hash_map() {
    let listing = "a: 1\nb: 2\na: 3\nc\n: lead\nd: \n";
    let mut expected = std::collections::HashMap::new();
    for line in listing.lines() {
        let sp: Vec<_> = line.split(": ").collect();
        expected.insert(sp[0].to_owned(), sp[1..].join(": "));
    }
    let trailers = read_trailers(listing);
    for (key, value) in &expected {
        assert_eq!(trailers.get(key), Some(value));
    }
    let mut made = std::collections::HashMap::new();
    for (key, value) in trailers.into_entries() {
        made.insert(key, value);
    }
    assert_eq!(made, expected);
}

#[test]
fn no_trailers_in_an_empty_listing() {
    let trailers = read_trailers("");
    assert_eq!(trailers.get(""), None);
    assert_eq!(trailers.into_entries(), Vec::new());
}

#[test]
fn add_trailer_sets_the_editor() {
    assert_eq!(
        add_trailer("Reviewed-by", "B"),
        vec![
            "-c",
            "core.editor=git interpret-trailers --in-place --trailer=\"Reviewed-by: B\"",
            "commit",
            "--amend",
            "-q",
        ]
    );
}

#[test]
fn command_results() {
    assert_eq!(CommandExecutionResult::empty().output(), "");
    assert_eq!(CommandExecutionResult::message("done").output(), "done");
    assert_eq!(CommandExecutionResult::message(""), CommandExecutionResult::empty());
}

#[test]
fn plan_command_writes_the_script() {
    let command =
        EvolveCommand::Plan { onto: hash("o0"), base: hash("b0"), output: "todo.txt".to_string() };
    let expected = EvolveAction::WriteScript { output: "todo.txt".to_string() };
    assert_eq!(command.run(false), expected);
    assert_eq!(command.run(true), expected);
    assert_eq!(command.plan().onto, &hash("o0"));
    assert_eq!(command.plan().base, &hash("b0"));
}

#[test]
fn execute_command_prints_on_a_dry_run() {
    let command = EvolveCommand::Execute { onto: hash("o0"), base: hash("b0") };
    assert_eq!(command.run(true), EvolveAction::PrintScript);
}

#[test]
fn execute_command_starts_the_rewrite() {
    let command = EvolveCommand::Execute { onto: hash("o0"), base: hash("b0") };
    assert_eq!(
        command.run(false),
        EvolveAction::Rewrite {
            arguments: vec!["rebase".to_string(), "-i".to_string(), "o0".to_string()]
        }
    );
    assert_eq!(command.sequence_editor("/usr/bin/trail"), "/usr/bin/trail evolve plan o0 b0");
    assert_eq!(command.plan().onto, &hash("o0"));
    assert_eq!(command.plan().base, &hash("b0"));
}
