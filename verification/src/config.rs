//! The server's configuration, read from its command-line arguments.
use vstd::prelude::*;

use crate::text::string_is;

verus! {

/// The port to listen on, and the master to replicate (`"<host> <port>"`,
/// empty for a master).
#[derive(Clone, Debug, PartialEq, Eq)]
pub struct Config {
    pub port: String,
    pub replicaof: String,
}

/// Reading the arguments from index `i` on, with the port and master found
/// so far: the port and master, or the message of the error.
///
/// `--port` / `-p` and `--replicaof` take the argument after them; that
/// argument is then looked at as a flag too, as every argument is.
pub open spec fn scan_args(
    args: Seq<Seq<char>>,
    i: int,
    port: Seq<char>,
    replicaof: Seq<char>,
) -> Result<(Seq<char>, Seq<char>), Seq<char>>
    decreases args.len() - i,
{
    if i < 0 || i >= args.len() {
        Ok((port, replicaof))
    } else if args[i] == "--port"@ || args[i] == "-p"@ {
        if i + 1 < args.len() {
            scan_args(args, i + 1, args[i + 1], replicaof)
        } else {
            Err("No port provided"@)
        }
    } else if args[i] == "--replicaof"@ {
        if i + 1 < args.len() {
            scan_args(args, i + 1, port, args[i + 1])
        } else {
            Err("No replicaof provided"@)
        }
    } else {
        scan_args(args, i + 1, port, replicaof)
    }
}

/// The configuration that the arguments `args` (the program's name first)
/// give: port 6379 and no master unless the flags say otherwise.
pub open spec fn spec_from_args(args: Seq<Seq<char>>) -> Result<(Seq<char>, Seq<char>), Seq<char>> {
    scan_args(args, 1, "6379"@, ""@)
}

/// `a` is the port flag (`--port` or `-p`).
pub open spec fn is_port_flag(a: Seq<char>) -> bool {
    a == "--port"@ || a == "-p"@
}

/// `a` is the flag that names the master (`--replicaof`).
pub open spec fn is_replicaof_flag(a: Seq<char>) -> bool {
    a == "--replicaof"@
}

/// A port flag stands at index `j` (after the program's name) with an
/// argument after it.
pub open spec fn port_flag_at(args: Seq<Seq<char>>, j: int) -> bool {
    1 <= j && j + 1 < args.len() && is_port_flag(args[j])
}

/// A `--replicaof` flag stands at index `j` (after the program's name) with
/// an argument after it.
pub open spec fn replicaof_flag_at(args: Seq<Seq<char>>, j: int) -> bool {
    1 <= j && j + 1 < args.len() && is_replicaof_flag(args[j])
}

/// The last argument (not the program's name) is a flag without its value.
pub open spec fn ends_with_bare_flag(args: Seq<Seq<char>>) -> bool {
    args.len() >= 2 && (is_port_flag(args.last()) || is_replicaof_flag(args.last()))
}

/// The two flags are told apart.
proof fn lemma_flags_differ(a: Seq<char>)
    ensures
        !(is_port_flag(a) && is_replicaof_flag(a)),
{
    reveal_strlit("--port");
    reveal_strlit("-p");
    reveal_strlit("--replicaof");
    assert("--port"@.len() != "--replicaof"@.len());
    assert("-p"@.len() != "--replicaof"@.len());
}

/// Reading on from index `i`, where the last argument is no bare flag: the
/// port is the argument after the last port flag from `i` on (or the port
/// so far where there is none), and the master likewise.
proof fn lemma_scan_values(args: Seq<Seq<char>>, i: int, port: Seq<char>, replicaof: Seq<char>)
    requires
        1 <= i <= args.len(),
        !ends_with_bare_flag(args),
    ensures
        scan_args(args, i, port, replicaof) matches Ok((p, r)) && {
            &&& (forall|j: int| i <= j ==> !port_flag_at(args, j)) ==> p == port
            &&& (exists|j: int| i <= j && port_flag_at(args, j)) ==> exists|j: int|
                i <= j && port_flag_at(args, j) && (forall|k: int|
                i <= k && port_flag_at(args, k) ==> k <= j) && p == args[j + 1]
            &&& (forall|j: int| i <= j ==> !replicaof_flag_at(args, j)) ==> r == replicaof
            &&& (exists|j: int| i <= j && replicaof_flag_at(args, j)) ==> exists|j: int|
                i <= j && replicaof_flag_at(args, j) && (forall|k: int|
                i <= k && replicaof_flag_at(args, k) ==> k <= j) && r == args[j + 1]
        },
    decreases args.len() - i,
{
    if i < args.len() {
        lemma_flags_differ(args[i]);
        if is_port_flag(args[i]) {
            assert(i + 1 < args.len());
            lemma_scan_values(args, i + 1, args[i + 1], replicaof);
            assert(port_flag_at(args, i));
            assert(!replicaof_flag_at(args, i));
        } else if is_replicaof_flag(args[i]) {
            assert(i + 1 < args.len());
            lemma_scan_values(args, i + 1, port, args[i + 1]);
            assert(replicaof_flag_at(args, i));
            assert(!port_flag_at(args, i));
        } else {
            lemma_scan_values(args, i + 1, port, replicaof);
            assert(!port_flag_at(args, i));
            assert(!replicaof_flag_at(args, i));
        }
    }
}

/// Reading on from index `i`, where the last argument is a bare flag, ends
/// in that flag's error.
proof fn lemma_scan_error(args: Seq<Seq<char>>, i: int, port: Seq<char>, replicaof: Seq<char>)
    requires
        1 <= i < args.len(),
        ends_with_bare_flag(args),
    ensures
        is_port_flag(args.last()) ==> scan_args(args, i, port, replicaof) == Err::<
            (Seq<char>, Seq<char>),
            Seq<char>,
        >("No port provided"@),
        is_replicaof_flag(args.last()) ==> scan_args(args, i, port, replicaof) == Err::<
            (Seq<char>, Seq<char>),
            Seq<char>,
        >("No replicaof provided"@),
    decreases args.len() - i,
{
    lemma_flags_differ(args.last());
    if i + 1 < args.len() {
        if is_port_flag(args[i]) {
            lemma_scan_error(args, i + 1, args[i + 1], replicaof);
        } else if is_replicaof_flag(args[i]) {
            lemma_scan_error(args, i + 1, port, args[i + 1]);
        } else {
            lemma_scan_error(args, i + 1, port, replicaof);
        }
    }
}

/// The configuration in closed form: where the last argument is a port or
/// `--replicaof` flag with nothing after it, that flag's error; otherwise
/// the port is the argument after the last port flag (6379 where there is
/// none), and the master the argument after the last `--replicaof` (none
/// where there is none). An argument that follows a flag is looked at as a
/// flag too.
pub proof fn law_from_args_closed_form(args: Seq<Seq<char>>)
    ensures
        ends_with_bare_flag(args) && is_port_flag(args.last()) ==> spec_from_args(args) == Err::<
            (Seq<char>, Seq<char>),
            Seq<char>,
        >("No port provided"@),
        ends_with_bare_flag(args) && is_replicaof_flag(args.last()) ==> spec_from_args(args)
            == Err::<(Seq<char>, Seq<char>), Seq<char>>("No replicaof provided"@),
        !ends_with_bare_flag(args) ==> (spec_from_args(args) matches Ok((port, replicaof)) && {
            &&& (forall|j: int| !port_flag_at(args, j)) ==> port == "6379"@
            &&& (exists|j: int| port_flag_at(args, j)) ==> exists|j: int|
                port_flag_at(args, j) && (forall|k: int| port_flag_at(args, k) ==> k <= j) && port
                    == args[j + 1]
            &&& (forall|j: int| !replicaof_flag_at(args, j)) ==> replicaof == ""@
            &&& (exists|j: int| replicaof_flag_at(args, j)) ==> exists|j: int|
                replicaof_flag_at(args, j) && (forall|k: int| replicaof_flag_at(args, k) ==> k
                    <= j) && replicaof == args[j + 1]
        }),
{
    if ends_with_bare_flag(args) {
        lemma_scan_error(args, 1, "6379"@, ""@);
    } else if args.len() >= 1 {
        lemma_scan_values(args, 1, "6379"@, ""@);
    }
}

impl Config {
    /// Reads the configuration from the program's arguments.
    pub fn from_args(args: Vec<String>) -> (res: Result<Config, &'static str>)
        ensures
            match spec_from_args(args@.map_values(|s: String| s@)) {
                Ok((port, replicaof)) => res matches Ok(c) && c.port@ == port && c.replicaof@
                    == replicaof,
                Err(message) => res matches Err(e) && e@ == message,
            },
    {
        let ghost views = args@.map_values(|s: String| s@);
        let mut port = "6379".to_owned();
        let mut replicaof = "".to_owned();
        let mut i: usize = 1;
        while i < args.len()
            invariant
                views == args@.map_values(|s: String| s@),
                1 <= i,
                spec_from_args(views) == scan_args(views, i as int, port@, replicaof@),
            decreases args@.len() - i,
        {
            if string_is(&args[i], "--port") || string_is(&args[i], "-p") {
                if i + 1 < args.len() {
                    port = args[i + 1].clone();
                } else {
                    return Err("No port provided");
                }
            } else if string_is(&args[i], "--replicaof") {
                if i + 1 < args.len() {
                    replicaof = args[i + 1].clone();
                } else {
                    return Err("No replicaof provided");
                }
            }
            i = i + 1;
        }
        Ok(Config { port: port, replicaof: replicaof })
    }

    /// Whether the server runs as a master: no master to replicate is
    /// configured.
    pub fn runs_as_master(&self) -> (res: bool)
        ensures
            res == (self.replicaof@.len() == 0),
    {
        self.replicaof.as_str().is_empty()
    }
}

} // verus!
