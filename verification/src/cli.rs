//! The command line.

use vstd::prelude::*;
use vstd::string::*;

use crate::text;

verus! {

/// The command line of the proxy.
#[derive(Clone, Copy, PartialEq, Eq, Structural, Debug)]
pub struct Cli {
    pub command: Option<Commands>,
}

/// What the proxy is asked to do.
#[derive(Clone, Copy, PartialEq, Eq, Structural, Debug)]
pub enum Commands {
    /// Run the HTTP proxy (default when no subcommand is provided).
    Serve,
    /// Clear persisted proxy identity and rotate the local signing key.
    Forget,
}

/// A command line that asks for help or is not understood: what is said about
/// it, and the exit code of the process.
#[derive(PartialEq, Eq, Debug)]
pub struct CliError {
    pub text: String,
    pub exit_code: i32,
}

/// The subcommand that is chosen, if any, or an exit code.
pub type Understood = Result<Option<Seq<char>>, i32>;

/// How a program that has two subcommands understands its arguments: the
/// subcommand that they choose, if any, or the exit code of the process where
/// they ask for help or are not understood.
pub uninterp spec fn understood(
    program: Seq<char>,
    first: Seq<char>,
    second: Seq<char>,
    args: Seq<Seq<char>>,
) -> Understood;

/// What a program that has two subcommands says where its arguments ask for help
/// or are not understood. The program and the subcommands are given by their
/// names and by what they are for.
pub uninterp spec fn said(
    program: (Seq<char>, Seq<char>),
    first: (Seq<char>, Seq<char>),
    second: (Seq<char>, Seq<char>),
    args: Seq<Seq<char>>,
) -> Seq<char>;

/// The first argument is a path that all systems divide at the same places, so
/// that the file it names is the same on each: without `\` and `:`, and with no
/// more than one `/` at its beginning.
pub open spec fn names_one_file(args: Seq<Seq<char>>) -> bool {
    args.len() > 0 ==> {
        &&& !args[0].contains('\\')
        &&& !args[0].contains(':')
        &&& !(args[0].len() >= 2 && args[0][0] == '/' && args[0][1] == '/')
    }
}

/// A program, or one of its subcommands, and what it is for.
struct Described {
    name: &'static str,
    about: &'static str,
}

impl Described {
    spec fn texts(&self) -> (Seq<char>, Seq<char>) {
        (self.name@, self.about@)
    }
}

/// `Command::try_get_matches_from`, `ArgMatches::subcommand_name`,
/// `Error::exit_code` and `Error::render`: whether the arguments are understood,
/// which subcommand they choose, and the exit code where they are not, are
/// functions of the names and the arguments; a chosen subcommand is one of the
/// two, and the exit code is zero or two. What is said is a function of the
/// names, what they are for, and the arguments. It holds the name of the file
/// that the first argument names, so this is claimed only where all systems agree
/// on that. A subcommand `help` is added to the two; in builds with debug
/// assertions two subcommands of one name panic, so the three names have to be
/// different.
#[verifier::external_body]
fn parse_subcommand(
    program: Described,
    first: Described,
    second: Described,
    args: &Vec<String>,
) -> (r: Result<Option<String>, CliError>)
    requires
        first.name@ != second.name@,
        first.name@ != "help"@,
        second.name@ != "help"@,
    ensures
        match r {
            Ok(chosen) => understood(
                program.name@,
                first.name@,
                second.name@,
                text::texts(args@),
            ) == Understood::Ok(text::opt(chosen)) && (chosen is Some ==> chosen->0@
                == first.name@ || chosen->0@ == second.name@),
            Err(e) => understood(
                program.name@,
                first.name@,
                second.name@,
                text::texts(args@),
            ) == Understood::Err(e.exit_code) && (e.exit_code == 0 || e.exit_code == 2) && (
            names_one_file(text::texts(args@)) ==> e.text@ == said(
                program.texts(),
                first.texts(),
                second.texts(),
                text::texts(args@),
            )),
        },
{
    let command = clap::Command::new(program.name)
        .about(program.about)
        .subcommand(clap::Command::new(first.name).about(first.about))
        .subcommand(clap::Command::new(second.name).about(second.about));
    match command.try_get_matches_from(args) {
        Ok(found) => Ok(found.subcommand_name().map(|name| name.to_string())),
        Err(e) => Err(CliError { text: e.render().to_string(), exit_code: e.exit_code() }),
    }
}

/// How the proxy understands its arguments.
pub open spec fn proxy_subcommand(args: Seq<Seq<char>>) -> Understood {
    understood("hecate-propylaea"@, "serve"@, "forget"@, args)
}

/// What the proxy says where its arguments ask for help or are not understood.
pub open spec fn proxy_says(args: Seq<Seq<char>>) -> Seq<char> {
    said(
        ("hecate-propylaea"@, "Hecate Propylaea edge proxy for agent traffic"@),
        ("serve"@, "Run the HTTP proxy (default when no subcommand is provided)"@),
        ("forget"@, "Clear persisted proxy identity and rotate the local signing key"@),
        args,
    )
}

/// The command that a subcommand stands for.
pub open spec fn command_named(name: Seq<char>) -> Option<Commands> {
    if name == "serve"@ {
        Some(Commands::Serve)
    } else if name == "forget"@ {
        Some(Commands::Forget)
    } else {
        None
    }
}

/// The command that the subcommand `name` stands for.
pub fn find_command(name: &str) -> (r: Option<Commands>)
    ensures
        r == command_named(name@),
{
    if text::same_text(name, "serve") {
        Some(Commands::Serve)
    } else if text::same_text(name, "forget") {
        Some(Commands::Forget)
    } else {
        None
    }
}

impl Cli {
    /// The command line that the arguments, the name of the program first, make
    /// up. What is said of one that is not understood is left open where systems
    /// differ on which file the first argument names.
    pub fn try_parse_from(args: &Vec<String>) -> (r: Result<Self, CliError>)
        ensures
            match r {
                Ok(cli) => match proxy_subcommand(text::texts(args@)) {
                    Ok(Some(name)) => cli.command is Some && cli.command == command_named(name),
                    Ok(None) => cli.command is None,
                    Err(_) => false,
                },
                Err(e) => {
                    &&& proxy_subcommand(text::texts(args@)) == Understood::Err(e.exit_code)
                    &&& e.exit_code == 0 || e.exit_code == 2
                    &&& names_one_file(text::texts(args@)) ==> e.text@ == proxy_says(
                        text::texts(args@),
                    )
                },
            },
    {
        proof {
            reveal_strlit("serve");
            reveal_strlit("forget");
            reveal_strlit("help");
            assert("serve"@.len() == 5);
            assert("forget"@.len() == 6);
            assert("help"@.len() == 4);
        }
        let parsed = parse_subcommand(
            Described {
                name: "hecate-propylaea",
                about: "Hecate Propylaea edge proxy for agent traffic",
            },
            Described {
                name: "serve",
                about: "Run the HTTP proxy (default when no subcommand is provided)",
            },
            Described {
                name: "forget",
                about: "Clear persisted proxy identity and rotate the local signing key",
            },
            args,
        );
        match parsed {
            Ok(Some(name)) => Ok(Cli { command: find_command(name.as_str()) }),
            Ok(None) => Ok(Cli { command: None }),
            Err(e) => Err(e),
        }
    }

    /// The command, which is to serve where none is given.
    pub fn resolved_command(&self) -> (r: Commands)
        ensures
            r == match self.command {
                Some(c) => c,
                None => Commands::Serve,
            },
    {
        match self.command {
            Some(c) => c,
            None => Commands::Serve,
        }
    }
}

/// Each command has one name, and nothing else names a command.
pub proof fn lemma_command_names(name: Seq<char>)
    ensures
        (command_named(name) == Some(Commands::Serve)) == (name == seq!['s', 'e', 'r', 'v', 'e']),
        (command_named(name) == Some(Commands::Forget)) == (name == seq![
            'f',
            'o',
            'r',
            'g',
            'e',
            't',
        ]),
{
    reveal_strlit("serve");
    reveal_strlit("forget");
    assert("serve"@ =~= seq!['s', 'e', 'r', 'v', 'e']);
    assert("forget"@ =~= seq!['f', 'o', 'r', 'g', 'e', 't']);
    assert("serve"@.len() == 5);
    assert("forget"@.len() == 6);
}

} // verus!
