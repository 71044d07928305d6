use ddcp::cli::{ext_load_path, ext_missing, path_as_string, Cli, Commands, RemoteArgs, RemoteCommands};
use ddcp::error::Error;

fn cli_with(db_file: Option<&str>, state_dir: Option<&str>, ext_file: Option<&str>, commands: Commands) -> Cli {
    Cli {
        db_file: db_file.map(|s| s.to_string()),
        state_dir: state_dir.map(|s| s.to_string()),
        ext_file: ext_file.map(|s| s.to_string()),
        commands,
    }
}

fn other_text(e: Error) -> String {
    match e {
        Error::Other(m) => m,
        other => panic!("unexpected error {:?}", other),
    }
}

#[test]
fn needs_network_except_remote_and_shell() {
    assert!(cli_with(None, None, None, Commands::Init).needs_network());
    assert!(cli_with(None, None, None, Commands::Push).needs_network());
    assert!(cli_with(None, None, None, Commands::Serve).needs_network());
    assert!(cli_with(None, None, None, Commands::Pull { name: None }).needs_network());
    assert!(!cli_with(None, None, None, Commands::Shell).needs_network());
    assert!(!cli_with(
        None,
        None,
        None,
        Commands::Remote(RemoteArgs { commands: RemoteCommands::List })
    )
    .needs_network());
}

#[test]
fn db_file_defaults_to_working_directory() {
    let cli = cli_with(None, None, None, Commands::Init);
    let (file, dir) = cli.db_file_path("/home/alice/work").expect("ok");
    assert_eq!(file, "/home/alice/work/ddcp.db");
    assert_eq!(dir, "/home/alice/work");
}

#[test]
fn db_file_given() {
    let cli = cli_with(Some("/data/my.db"), None, None, Commands::Init);
    let (file, dir) = cli.db_file_path("/ignored").expect("ok");
    assert_eq!(file, "/data/my.db");
    assert_eq!(dir, "/data");
}

#[test]
fn db_file_without_parent() {
    let cli = cli_with(Some("/"), None, None, Commands::Init);
    let e = cli.db_file_path("/ignored").expect_err("no parent");
    assert_eq!(other_text(e), "failed to locate parent directory of \"/\"");
}

#[test]
fn state_dir_beside_db_file() {
    let cli = cli_with(None, None, None, Commands::Init);
    assert_eq!(
        cli.state_dir_path("/data/my.db").expect("ok"),
        "/data/.ddcp/my.db"
    );
}

#[test]
fn state_dir_given() {
    let cli = cli_with(None, Some("/var/lib/ddcp"), None, Commands::Init);
    assert_eq!(cli.state_dir_path("/data/my.db").expect("ok"), "/var/lib/ddcp");
}

#[test]
fn state_dir_cannot_be_inferred() {
    let cli = cli_with(None, None, None, Commands::Init);
    let e = cli.state_dir_path("/").expect_err("no parent");
    assert_eq!(other_text(e), "failed to infer state path from \"/\"");
    let e = cli.state_dir_path("/data/..").expect_err("no file name");
    assert_eq!(other_text(e), "failed to infer state path from \"/data/..\"");
}

#[test]
fn ext_file_defaults_to_executable_directory() {
    let cli = cli_with(None, None, None, Commands::Init);
    assert_eq!(cli.ext_file_path("/opt/ddcp/bin"), "/opt/ddcp/bin/crsqlite.so");
    let cli = cli_with(None, None, Some("/lib/crsqlite.dylib"), Commands::Init);
    assert_eq!(cli.ext_file_path("/opt/ddcp/bin"), "/lib/crsqlite.dylib");
}

#[test]
fn ext_load_path_strips_so() {
    assert_eq!(ext_load_path("/opt/crsqlite.so"), "/opt/crsqlite");
    assert_eq!(ext_load_path("/opt/crsqlite"), "/opt/crsqlite");
    assert_eq!(ext_load_path(".so"), "");
    assert_eq!(ext_load_path("so"), "so");
    assert_eq!(ext_load_path("/opt/ünï.so"), "/opt/ünï");
}

#[test]
fn ext_missing_message() {
    assert_eq!(
        other_text(ext_missing("/x/crsqlite.so")),
        "database extension /x/crsqlite.so not found"
    );
}

#[test]
fn path_as_string_of_text() {
    assert_eq!(path_as_string(std::path::PathBuf::from("/tmp/a")).expect("ok"), "/tmp/a");
    assert_eq!(path_as_string(std::path::PathBuf::from("/tmp/ä")).expect("ok"), "/tmp/ä");
    let joined = std::path::Path::new("/tmp").join("x y");
    assert_eq!(path_as_string(joined).expect("ok"), "/tmp/x y");
}
