//! What the program does for each command, and how it reports the outcome
//! of pulling from every peer.
use vstd::prelude::*;
use crate::cli::{Commands, RemoteArgs, RemoteCommands};
use crate::error::{Error, is_other, other_err};
use crate::text::concat;

verus! {

/// What the program does for a command, once the node is up.
#[derive(Debug)]
pub enum Action {
    /// Publish the database's status; `init` when the command registers the
    /// database for the first time.
    Push { init: bool },
    /// Add the peer `name`, whose DHT key is `addr`.
    RemoteAdd { name: String, addr: String },
    /// Forget the peer `name`.
    RemoteRemove { name: String },
    /// List the known peers.
    RemoteList,
    /// Serve the database to peers and pull from them until interrupted.
    Serve,
    /// Nothing beyond starting and stopping the node.
    Nothing,
    /// Pull changes from the peer `name`.
    PullOne { name: String },
    /// Pull changes from every known peer.
    PullAll,
    /// The command is not supported.
    Unsupported,
}

pub open spec fn spec_plan(commands: Commands) -> Action {
    match commands {
        Commands::Init => Action::Push { init: true },
        Commands::Push => Action::Push { init: false },
        Commands::Remote(RemoteArgs { commands: RemoteCommands::Add { name, addr } }) => {
            Action::RemoteAdd { name, addr }
        },
        Commands::Remote(RemoteArgs { commands: RemoteCommands::Remove { name } }) => {
            Action::RemoteRemove { name }
        },
        Commands::Remote(RemoteArgs { commands: RemoteCommands::List }) => Action::RemoteList,
        Commands::Serve => Action::Serve,
        Commands::Cleanup => Action::Nothing,
        Commands::Pull { name: Some(name) } => Action::PullOne { name },
        Commands::Pull { name: None } => Action::PullAll,
        _ => Action::Unsupported,
    }
}

/// The action for a command.
pub fn plan(commands: Commands) -> (a: Action)
    ensures
        a == spec_plan(commands),
{
    match commands {
        Commands::Init => Action::Push { init: true },
        Commands::Push => Action::Push { init: false },
        Commands::Remote(RemoteArgs { commands: RemoteCommands::Add { name, addr } }) => {
            Action::RemoteAdd { name, addr }
        },
        Commands::Remote(RemoteArgs { commands: RemoteCommands::Remove { name } }) => {
            Action::RemoteRemove { name }
        },
        Commands::Remote(RemoteArgs { commands: RemoteCommands::List }) => Action::RemoteList,
        Commands::Serve => Action::Serve,
        Commands::Cleanup => Action::Nothing,
        Commands::Pull { name: Some(name) } => Action::PullOne { name },
        Commands::Pull { name: None } => Action::PullAll,
        _ => Action::Unsupported,
    }
}

/// The failure reported for a command that is not supported.
pub fn unsupported() -> (e: Error)
    ensures
        is_other(e, "unsupported command"@),
{
    other_err("unsupported command")
}

/// The lines of `lines` joined by newlines.
pub open spec fn joined(lines: Seq<Seq<char>>) -> Seq<char>
    decreases lines.len(),
{
    if lines.len() == 0 {
        Seq::empty()
    } else if lines.len() == 1 {
        lines[0]
    } else {
        joined(lines.drop_last()) + "\n"@ + lines.last()
    }
}

/// The texts of a vector of strings.
pub open spec fn texts(v: Seq<String>) -> Seq<Seq<char>> {
    v.map_values(|s: String| s@)
}

/// The line that reports a failed pull from the peer `name`.
pub open spec fn fetch_failure_line(name: Seq<char>, detail: Seq<char>) -> Seq<char> {
    "failed to fetch "@ + name + ": "@ + detail
}

pub fn fetch_failure(name: &str, detail: &str) -> (r: String)
    ensures
        r@ == fetch_failure_line(name@, detail@),
{
    proof {
        reveal_strlit("failed to fetch ");
        reveal_strlit(": ");
    }
    let a = concat("failed to fetch ", name);
    let b = concat(a.as_str(), ": ");
    concat(b.as_str(), detail)
}

/// The outcome of pulling from every peer, given the lines that report the
/// pulls that failed: success when none did, and otherwise one failure that
/// holds all the lines.
pub fn pull_all_result(failures: &Vec<String>) -> (r: Result<(), Error>)
    ensures
        r is Ok <==> failures@.len() == 0,
        r matches Err(e) ==> is_other(e, joined(texts(failures@))),
{
    if failures.len() == 0 {
        return Ok(());
    }
    let ghost t = texts(failures@);
    let mut acc = failures[0].clone();
    let mut i: usize = 1;
    proof {
        reveal_strlit("\n");
        assert(t.take(1) =~= seq![t[0]]);
    }
    while i < failures.len()
        invariant
            t == texts(failures@),
            1 <= i <= failures@.len(),
            acc@ == joined(t.take(i as int)),
        decreases failures@.len() - i,
    {
        let a = concat(acc.as_str(), "\n");
        acc = concat(a.as_str(), failures[i].as_str());
        proof {
            assert(t.take(i as int + 1).drop_last() =~= t.take(i as int));
            assert(t.take(i as int + 1).last() == failures@[i as int]@);
        }
        i = i + 1;
    }
    assert(t.take(failures@.len() as int) =~= t);
    Err(Error::Other(acc))
}

/// The sqlite3 command that loads the cr-sqlite extension from `ext_file`.
pub fn load_command(ext_file: &str) -> (r: String)
    ensures
        r@ == ".load "@ + ext_file@,
{
    concat(".load ", ext_file)
}

} // verus!
