use propylaea::cli::find_command;
use propylaea::cli::Cli;
use propylaea::cli::Commands;

fn args(list: &[&str]) -> Vec<String> {
    list.iter().map(|s| s.to_string()).collect()
}

#[test]
fn default_command_is_serve() {
    let cli = Cli::try_parse_from(&args(&["hecate-propylaea"])).unwrap();
    assert!(matches!(cli.resolved_command(), Commands::Serve));
}

#[test]
fn forget_command_parses() {
    let cli = Cli::try_parse_from(&args(&["hecate-propylaea", "forget"])).unwrap();
    assert!(matches!(cli.resolved_command(), Commands::Forget));
}

#[test]
fn serve_command_parses() {
    let cli = Cli::try_parse_from(&args(&["hecate-propylaea", "serve"])).unwrap();
    assert_eq!(cli.command, Some(Commands::Serve));
}

#[test]
fn unknown_command_is_an_error() {
    let error = Cli::try_parse_from(&args(&["hecate-propylaea", "dance"])).unwrap_err();
    assert_eq!(error.exit_code, 2);
    assert!(error.text.contains("dance"));
    assert_eq!(find_command("dance"), None);
}

#[test]
fn help_is_said_and_is_no_failure() {
    let error = Cli::try_parse_from(&args(&["hecate-propylaea", "--help"])).unwrap_err();
    assert_eq!(error.exit_code, 0);
    assert!(error.text.contains("Hecate Propylaea edge proxy for agent traffic"));
}

#[test]
fn what_is_said_follows_the_arguments() {
    let said = |list: &[&str]| Cli::try_parse_from(&args(list)).unwrap_err();
    let first = said(&["hecate-propylaea", "serve", "now"]);
    assert_eq!(first.exit_code, 2);
    assert_eq!(first, said(&["hecate-propylaea", "serve", "now"]));
    assert_eq!(first.text, said(&["/usr/bin/hecate-propylaea", "serve", "now"]).text);
    assert!(first.text.contains("Usage: hecate-propylaea serve"));
    let help = said(&["proxy", "help"]);
    assert_eq!(help.exit_code, 0);
    assert!(help.text.contains("Usage: proxy [COMMAND]"));
    assert!(help.text.contains("Clear persisted proxy identity and rotate the local signing key"));
    assert_eq!(Cli::try_parse_from(&vec![]).unwrap().command, None);
}
