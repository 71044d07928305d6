//! The parsed command line, and the files and directories it names.
use vstd::prelude::*;
use vstd::utf8::*;
use vstd::string::StrSliceExecFns;
use std::path::PathBuf;
use crate::error::{Error, is_other};
use crate::path::{
    path_join, path_parent, path_file_name, path_debug, text_debug, join, parent, file_name,
    debug_path, debug_text, path_bytes, os_debug, encoded_bytes, debug_path_buf,
};
use crate::text::{concat, string_from_utf8};

verus! {

/// Top-level subcommands of the command-line interface.
#[allow(inconsistent_fields)]
pub enum Commands {
    Init,
    Push,
    Fetch { name: Option<String> },
    Merge { name: String },
    Pull { name: Option<String> },
    Remote(RemoteArgs),
    Serve,
    Shell,
    Addr,
    Cleanup,
}

/// Arguments of the `remote` subcommand.
pub struct RemoteArgs {
    pub commands: RemoteCommands,
}

/// Subcommands of `remote`.
pub enum RemoteCommands {
    Add { name: String, addr: String },
    Remove { name: String },
    List,
    Status { name: String },
}

/// Parsed command line.
pub struct Cli {
    pub db_file: Option<String>,
    pub state_dir: Option<String>,
    pub ext_file: Option<String>,
    pub commands: Commands,
}

impl Cli {
    /// Whether the command talks to the network: every command does, except
    /// `remote ...` and `shell`.
    pub open spec fn spec_needs_network(&self) -> bool {
        !(self.commands is Remote || self.commands is Shell)
    }

    pub fn needs_network(&self) -> (r: bool)
        ensures
            r == self.spec_needs_network(),
            r <==> !(self.commands is Remote) && !(self.commands is Shell),
            self.commands is Pull ==> r,
            self.commands is Fetch || self.commands is Merge || self.commands is Init
                || self.commands is Push || self.commands is Serve || self.commands is Addr
                || self.commands is Cleanup ==> r,
    {
        match self.commands {
            Commands::Remote(_) => false,
            Commands::Shell => false,
            _ => true,
        }
    }
}

/// The database file: the one given, or `ddcp.db` in the working directory.
pub open spec fn spec_db_file(db_file: Option<Seq<char>>, cwd: Seq<char>) -> Seq<char> {
    match db_file {
        Some(f) => f,
        None => path_join(cwd, "ddcp.db"@),
    }
}

/// The state directory: the one given, or `.ddcp/` and the database file's
/// name, beside the database file; none when the database file has no
/// parent or no name.
pub open spec fn spec_state_dir(state_dir: Option<Seq<char>>, db_file: Seq<char>) -> Option<Seq<char>> {
    match state_dir {
        Some(d) => Some(d),
        None => match (path_parent(db_file), path_file_name(db_file)) {
            (Some(p), Some(f)) => Some(path_join(path_join(p, ".ddcp"@), f)),
            _ => None,
        },
    }
}

/// The cr-sqlite extension file: the one given, or `crsqlite.so` in the
/// directory of the running executable.
pub open spec fn spec_ext_file(ext_file: Option<Seq<char>>, exe_dir: Seq<char>) -> Seq<char> {
    match ext_file {
        Some(f) => f,
        None => path_join(exe_dir, "crsqlite.so"@),
    }
}

/// `s` without a trailing `.so`, if it has one.
pub open spec fn strip_so(s: Seq<char>) -> Seq<char> {
    if s.len() >= 3 && s.subrange(s.len() - 3, s.len() as int) == ".so"@ {
        s.subrange(0, s.len() - 3)
    } else {
        s
    }
}

/// The text an optional string holds, borrowed.
fn opt_view(o: &Option<String>) -> (r: Option<&str>)
    ensures
        match o {
            Some(s) => r matches Some(t) && t@ == s@,
            None => r is None,
        },
{
    match o {
        Some(s) => Some(s.as_str()),
        None => None,
    }
}

/// The text an optional string holds.
pub open spec fn opt_text(o: Option<String>) -> Option<Seq<char>> {
    match o {
        Some(s) => Some(s@),
        None => None,
    }
}

impl Cli {
    /// The database file, with `cwd` the working directory, and the
    /// directory that holds it; an error when the file has no parent.
    pub fn db_file_path(&self, cwd: &str) -> (r: Result<(String, String), Error>)
        ensures
            match path_parent(spec_db_file(opt_text(self.db_file), cwd@)) {
                Some(p) => r matches Ok((f, d)) && f@ == spec_db_file(opt_text(self.db_file), cwd@)
                    && d@ == p,
                None => r matches Err(e) && is_other(
                    e,
                    "failed to locate parent directory of "@ + text_debug(
                        spec_db_file(opt_text(self.db_file), cwd@),
                    ),
                ),
            },
    {
        let file = match opt_view(&self.db_file) {
            Some(f) => f.to_owned(),
            None => {
                proof {
                    reveal_strlit("ddcp.db");
                }
                join(cwd, "ddcp.db")
            },
        };
        match parent(file.as_str()) {
            Some(d) => Ok((file, d)),
            None => {
                let shown = debug_text(file.as_str());
                proof {
                    reveal_strlit("failed to locate parent directory of ");
                }
                Err(Error::Other(concat("failed to locate parent directory of ", shown.as_str())))
            },
        }
    }

    /// The state directory for the database file `db_file`; an error when
    /// it is not given and `db_file` has no parent or no name.
    pub fn state_dir_path(&self, db_file: &str) -> (r: Result<String, Error>)
        ensures
            self.state_dir matches Some(d) ==> (r matches Ok(s) && s@ == d@),
            self.state_dir is None && path_parent(db_file@) is Some && path_file_name(db_file@) is Some
                ==> (r matches Ok(s) && s@ == path_join(
                path_join(path_parent(db_file@)->0, ".ddcp"@),
                path_file_name(db_file@)->0,
            )),
            r is Err ==> self.state_dir is None && (path_parent(db_file@) is None || path_file_name(
                db_file@,
            ) is None),
            match spec_state_dir(opt_text(self.state_dir), db_file@) {
                Some(d) => r matches Ok(s) && s@ == d,
                None => r matches Err(e) && is_other(
                    e,
                    "failed to infer state path from "@ + path_debug(db_file@),
                ),
            },
    {
        if let Some(d) = opt_view(&self.state_dir) {
            return Ok(d.to_owned());
        }
        proof {
            reveal_strlit("failed to infer state path from ");
            reveal_strlit(".ddcp");
        }
        let p = match parent(db_file) {
            Some(p) => p,
            None => {
                let shown = debug_path(db_file);
                return Err(Error::Other(concat("failed to infer state path from ", shown.as_str())));
            },
        };
        let f = match file_name(db_file) {
            Some(f) => f,
            None => {
                let shown = debug_path(db_file);
                return Err(Error::Other(concat("failed to infer state path from ", shown.as_str())));
            },
        };
        let base = join(p.as_str(), ".ddcp");
        Ok(join(base.as_str(), f.as_str()))
    }

    /// The cr-sqlite extension file, with `exe_dir` the directory of the
    /// running executable.
    pub fn ext_file_path(&self, exe_dir: &str) -> (r: String)
        ensures
            r@ == spec_ext_file(opt_text(self.ext_file), exe_dir@),
    {
        match opt_view(&self.ext_file) {
            Some(f) => f.to_owned(),
            None => {
                proof {
                    reveal_strlit("crsqlite.so");
                }
                join(exe_dir, "crsqlite.so")
            },
        }
    }
}

/// The failure reported when the extension file is not there.
pub fn ext_missing(ext_file: &str) -> (e: Error)
    ensures
        is_other(e, "database extension "@ + ext_file@ + " not found"@),
{
    let a = concat("database extension ", ext_file);
    Error::Other(concat(a.as_str(), " not found"))
}

/// The name to load the extension by: its file without a trailing `.so`.
pub fn ext_load_path(ext_file: &str) -> (r: String)
    ensures
        r@ == strip_so(ext_file@),
{
    let n = ext_file.unicode_len();
    if n >= 3 {
        proof {
            reveal_strlit(".so");
        }
        let a = ext_file.get_char(n - 3);
        let b = ext_file.get_char(n - 2);
        let c = ext_file.get_char(n - 1);
        if a == '.' && b == 's' && c == 'o' {
            assert(ext_file@.subrange(n - 3, n as int) =~= ".so"@);
            return ext_file.substring_char(0, n - 3).to_owned();
        }
        assert(ext_file@.subrange(n - 3, n as int) != ".so"@) by {
            if ext_file@.subrange(n - 3, n as int) == ".so"@ {
                assert(ext_file@.subrange(n - 3, n as int)[0] == a);
                assert(ext_file@.subrange(n - 3, n as int)[1] == b);
                assert(ext_file@.subrange(n - 3, n as int)[2] == c);
            }
        }
    }
    ext_file.to_owned()
}

/// The text of a path: the text whose UTF-8 encoding is the bytes the path
/// holds, or, when they are not UTF-8, an error that shows the path.
pub fn path_as_string(p: PathBuf) -> (r: Result<String, Error>)
    ensures
        r is Ok <==> valid_utf8(path_bytes(p)),
        r matches Ok(s) ==> encode_utf8(s@) == path_bytes(p),
        r matches Err(e) ==> is_other(e, "failed to render path "@ + os_debug(path_bytes(p))),
{
    match string_from_utf8(encoded_bytes(&p)) {
        Ok(s) => Ok(s),
        Err(_) => {
            let shown = debug_path_buf(&p);
            Err(Error::Other(concat("failed to render path ", shown.as_str())))
        },
    }
}

/// Every command talks to the network before it runs, except `remote ...`
/// and `shell`: pulling from one peer or from all of them, pushing,
/// serving and the rest all wait for it.
pub proof fn lemma_needs_network(c: Cli)
    ensures
        c.spec_needs_network() <==> !(c.commands is Remote) && !(c.commands is Shell),
        c.commands is Pull ==> c.spec_needs_network(),
        c.commands is Remote ==> !c.spec_needs_network(),
        c.commands is Shell ==> !c.spec_needs_network(),
{
}

/// With no state directory given, the state directory is `.ddcp/` and the
/// database file's name, joined onto the database file's parent, whatever
/// that parent is (the empty parent of a relative file name included); it
/// is missing only when the database file has no parent or no name.
pub proof fn lemma_state_dir_beside_db(db_file: Seq<char>)
    ensures
        path_parent(db_file) is Some && path_file_name(db_file) is Some ==> spec_state_dir(
            None,
            db_file,
        ) == Some(
            path_join(path_join(path_parent(db_file)->0, ".ddcp"@), path_file_name(db_file)->0),
        ),
        spec_state_dir(None, db_file) is None <==> path_parent(db_file) is None || path_file_name(
            db_file,
        ) is None,
        forall|d: Seq<char>| spec_state_dir(Some(d), db_file) == Some(d),
{
}

} // verus!
