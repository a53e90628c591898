use std::collections::{HashMap, HashSet};

use cs220::organization::organize;
use cs220::shell::parse_shell_command;
use cs220::strings::{capitalize, is_palindrome, piglatin, use_editor, TypeEvent};

#[test]
fn capitalize_letters_only() {
    assert_eq!(capitalize("Hello, world 42!".to_string()), "HELLO, WORLD 42!");
    assert_eq!(capitalize(String::new()), "");
}

#[test]
fn piglatin_rules() {
    assert_eq!(piglatin("happy".to_string()), "appyhay");
    assert_eq!(piglatin("string".to_string()), "ingstray");
    assert_eq!(piglatin("explain".to_string()), "explainhay");
    assert_eq!(piglatin("rhythm".to_string()), "rhythmhay");
}

#[test]
fn palindromes() {
    assert!(is_palindrome(String::new()));
    assert!(is_palindrome("a".to_string()));
    assert!(is_palindrome("racecar".to_string()));
    assert!(is_palindrome("abba".to_string()));
    assert!(!is_palindrome("abca".to_string()));
}

#[test]
fn editor_events() {
    let events = vec![
        TypeEvent::Type('a'),
        TypeEvent::Type('b'),
        TypeEvent::Copy,
        TypeEvent::Backspace,
        TypeEvent::Paste,
        TypeEvent::Paste,
        TypeEvent::Type('c'),
    ];
    assert_eq!(use_editor(events), "aababc");
    assert_eq!(use_editor(vec![TypeEvent::Backspace, TypeEvent::Paste]), "");
}

#[test]
fn shell_command_arguments() {
    assert_eq!(parse_shell_command("cat file"), vec!["cat", "file"]);
    assert_eq!(parse_shell_command("ls 'VirtualBox VMs'"), vec!["ls", "VirtualBox VMs"]);
    assert_eq!(parse_shell_command("ls VirtualBox' 'VMs"), vec!["ls", "VirtualBox VMs"]);
    assert_eq!(parse_shell_command("echo a  b c"), vec!["echo", "a", "b", "c"]);
    assert_eq!(parse_shell_command("ls "), vec!["ls"]);
}

fn table(commands: &[&str]) -> HashMap<String, HashSet<String>> {
    organize(commands.iter().map(|c| c.to_string()).collect())
        .into_iter()
        .map(|(d, ps)| (d, ps.into_iter().collect()))
        .collect()
}

fn expected(entries: &[(&str, &[&str])]) -> HashMap<String, HashSet<String>> {
    entries
        .iter()
        .map(|(d, ps)| (d.to_string(), ps.iter().map(|p| p.to_string()).collect()))
        .collect()
}

#[test]
fn organize_hr_commands() {
    assert_eq!(
        table(&["Add Sally to Sales", "Add Amir to Engineering", "Add Bob to Sales"]),
        expected(&[("Sales", &["Sally", "Bob"]), ("Engineering", &["Amir"])])
    );
    assert_eq!(
        table(&["Add Amir to Engineering", "Move Amir from Engineering to Sales"]),
        expected(&[("Sales", &["Amir"])])
    );
    assert_eq!(
        table(&["Add Sally to Sales", "Remove Sally from Sales", "Remove Bob from Sales"]),
        expected(&[])
    );
    assert_eq!(
        table(&[
            "Add Sally to Sales",
            "Add Sally to Sales",
            "Move Bob from Sales to HR",
            "Move Sally from Sales to Sales",
            "Hire Bob for Sales",
            "Add Bob Sales",
        ]),
        expected(&[("Sales", &["Sally"])])
    );
    assert_eq!(
        table(&["Add Jo to A", "Add Ann to A", "Move Jo from A to B", "Remove Ann from A"]),
        expected(&[("B", &["Jo"])])
    );
}
