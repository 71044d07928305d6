use ddcp::cli::{Commands, RemoteArgs, RemoteCommands};
use ddcp::command::{fetch_failure, load_command, plan, pull_all_result, unsupported, Action};
use ddcp::error::Error;

#[test]
fn plan_each_command() {
    assert!(matches!(plan(Commands::Init), Action::Push { init: true }));
    assert!(matches!(plan(Commands::Push), Action::Push { init: false }));
    match plan(Commands::Remote(RemoteArgs {
        commands: RemoteCommands::Add { name: "bob".into(), addr: "VLD0:x".into() },
    })) {
        Action::RemoteAdd { name, addr } => {
            assert_eq!(name, "bob");
            assert_eq!(addr, "VLD0:x");
        }
        other => panic!("unexpected {:?}", other),
    }
    match plan(Commands::Remote(RemoteArgs { commands: RemoteCommands::Remove { name: "bob".into() } })) {
        Action::RemoteRemove { name } => assert_eq!(name, "bob"),
        other => panic!("unexpected {:?}", other),
    }
    assert!(matches!(
        plan(Commands::Remote(RemoteArgs { commands: RemoteCommands::List })),
        Action::RemoteList
    ));
    assert!(matches!(plan(Commands::Serve), Action::Serve));
    assert!(matches!(plan(Commands::Cleanup), Action::Nothing));
    match plan(Commands::Pull { name: Some("bob".into()) }) {
        Action::PullOne { name } => assert_eq!(name, "bob"),
        other => panic!("unexpected {:?}", other),
    }
    assert!(matches!(plan(Commands::Pull { name: None }), Action::PullAll));
    assert!(matches!(plan(Commands::Fetch { name: None }), Action::Unsupported));
    assert!(matches!(plan(Commands::Merge { name: "x".into() }), Action::Unsupported));
    assert!(matches!(plan(Commands::Addr), Action::Unsupported));
    assert!(matches!(plan(Commands::Shell), Action::Unsupported));
    assert!(matches!(
        plan(Commands::Remote(RemoteArgs { commands: RemoteCommands::Status { name: "x".into() } })),
        Action::Unsupported
    ));
}

#[test]
fn unsupported_message() {
    match unsupported() {
        Error::Other(m) => assert_eq!(m, "unsupported command"),
        other => panic!("unexpected {:?}", other),
    }
}

#[test]
fn pull_all_outcome() {
    assert!(pull_all_result(&vec![]).is_ok());
    let failures = vec![
        fetch_failure("alice", "Other(\"unknown peer\")"),
        fetch_failure("bob", "Other(\"peer missing status\")"),
    ];
    match pull_all_result(&failures) {
        Err(Error::Other(m)) => assert_eq!(
            m,
            "failed to fetch alice: Other(\"unknown peer\")\nfailed to fetch bob: Other(\"peer missing status\")"
        ),
        other => panic!("unexpected {:?}", other),
    }
    match pull_all_result(&vec!["one".to_string()]) {
        Err(Error::Other(m)) => assert_eq!(m, "one"),
        other => panic!("unexpected {:?}", other),
    }
}

#[test]
fn sqlite_load_command() {
    assert_eq!(load_command("/opt/crsqlite"), ".load /opt/crsqlite");
}
