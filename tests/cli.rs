use yakstack::cli::invalid_index_message;
use yakstack::{is_task_index, parse_task_index, resolve_command, CommandError};

#[test]
fn resolve_command_test() {
    assert!(matches!(resolve_command("l"), Err(CommandError::AmbiguousPrefix(_))));
    assert!(matches!(resolve_command("xxx"), Err(CommandError::NoMatchingCommand(_))));
    assert!(matches!(resolve_command("b"), Ok("backpush")));
}

#[test]
fn resolve_command_command_prefixes_other_command_works() {
    assert!(matches!(resolve_command("clear"), Ok("clear")));
}

#[test]
fn resolve_command_unique_prefixes() {
    assert!(matches!(resolve_command("pu"), Ok("push")));
    assert!(matches!(resolve_command("ki"), Ok("kill")));
    assert!(matches!(resolve_command("liststacks"), Ok("liststacks")));
    assert!(matches!(resolve_command("rem"), Ok("remindme")));
    assert!(matches!(resolve_command("ls"), Ok("ls")));
}

#[test]
fn resolve_command_errors_name_the_prefix() {
    match resolve_command("p") {
        Err(CommandError::AmbiguousPrefix(p)) => assert_eq!(p, "p"),
        _ => panic!("expected an ambiguous prefix"),
    }
    match resolve_command("zz") {
        Err(CommandError::NoMatchingCommand(p)) => assert_eq!(p, "zz"),
        _ => panic!("expected no match"),
    }
    assert!(matches!(resolve_command(""), Err(CommandError::AmbiguousPrefix(_))));
}

#[test]
fn resolve_command_passes_options_through() {
    assert!(matches!(resolve_command("--help"), Ok("--help")));
    assert!(matches!(resolve_command("-V"), Ok("-V")));
}

#[test]
fn task_indices_parse() {
    assert_eq!(parse_task_index("0"), Some(0));
    assert_eq!(parse_task_index("17"), Some(17));
    assert_eq!(parse_task_index("+3"), Some(3));
    assert_eq!(parse_task_index("4294967295"), Some(4294967295));
    assert_eq!(parse_task_index("4294967296"), None);
    assert_eq!(parse_task_index(""), None);
    assert_eq!(parse_task_index("+"), None);
    assert_eq!(parse_task_index("-1"), None);
    assert_eq!(parse_task_index("1a"), None);
    assert!(is_task_index("12").is_ok());
    assert_eq!(
        is_task_index("x1").unwrap_err(),
        "x1 is not a valid unsigned number: invalid digit found in string"
    );
    assert_eq!(
        is_task_index("").unwrap_err(),
        " is not a valid unsigned number: cannot parse integer from empty string"
    );
    assert_eq!(
        is_task_index("4294967296").unwrap_err(),
        "4294967296 is not a valid unsigned number: number too large to fit in target type"
    );
    assert!(is_task_index("+7").is_ok());
    assert_eq!(
        invalid_index_message("q", "why"),
        "q is not a valid unsigned number: why"
    );
}
