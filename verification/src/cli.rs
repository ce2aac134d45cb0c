//! The command line of the program, as plain data.

use vstd::prelude::*;
use crate::inject::{find_match, lemma_next_match_bounds, match_at};
use crate::text::{chars_of, decimal, push_decimal};

verus! {

/// The parsed command line.
pub struct Cli {
    pub command: Command,
}

/// The subcommands.
pub enum Command {
    /// Read a secret (cached).
    Read {
        /// Secret reference (e.g. `op://vault/item/field`).
        reference: String,
        /// 1Password account to use (e.g. `my.1password.com`).
        account: Option<String>,
    },
    /// Check if the daemon is running.
    Status,
    /// Show cache statistics.
    Stats,
    /// Clear the cache.
    Clear,
    /// Stop the daemon.
    Stop,
    /// Run a command with `op://` env vars resolved through the cache.
    Run {
        /// 1Password account to use.
        account: Option<String>,
        /// A `.env` file whose entries override the process environment.
        env_file: Option<String>,
        /// Command and arguments to execute.
        command: Vec<String>,
    },
    /// Run the daemon in background.
    Daemon,
    /// Run the daemon in foreground (for debugging).
    DaemonForeground,
}

/// The line `op-cache status` prints for the daemon's state.
pub open spec fn status_text(running: bool, pid: Option<u32>) -> Seq<char> {
    if !running {
        "daemon not running"@
    } else {
        match pid {
            Some(n) => "daemon running (pid "@ + decimal(n as nat) + ")"@,
            None => "daemon running"@,
        }
    }
}

/// The line `op-cache status` prints: whether the daemon runs, and its pid
/// when it is known.
pub fn status_line(running: bool, pid: Option<u32>) -> (s: String)
    ensures
        s@ == status_text(running, pid),
{
    if !running {
        String::from_str("daemon not running")
    } else {
        match pid {
            Some(n) => {
                let mut s = String::from_str("daemon running (pid ");
                push_decimal(&mut s, n as usize);
                s.append(")");
                s
            },
            None => String::from_str("daemon running"),
        }
    }
}

/// `pattern` occurs somewhere in `s`.
pub open spec fn contains_text(s: Seq<char>, pattern: Seq<char>) -> bool {
    exists|i: int| match_at(s, pattern, i)
}

/// Whether an error from asking the daemon to stop means it did stop: the
/// daemon may close the connection before it answers, and that error
/// ("Connection reset") counts as stopped.
pub fn stop_error_means_stopped(message: &str) -> (r: bool)
    ensures
        r == contains_text(message@, "Connection reset"@),
{
    let pattern = "Connection reset";
    proof {
        reveal_strlit("Connection reset");
    }
    let cs = chars_of(message);
    let ds = chars_of(pattern);
    assert(ds@.len() > 0);
    let m = find_match(&cs, &ds, 0);
    proof {
        lemma_next_match_bounds(cs@, ds@, 0);
        if m < cs@.len() {
            assert(match_at(cs@, ds@, m as int));
        } else {
            assert forall|i: int| !match_at(cs@, ds@, i) by {
                if match_at(cs@, ds@, i) {
                    assert(i < cs@.len());
                }
            }
        }
    }
    m < cs.len()
}

/// The status line says the daemon is not running whenever it is not,
/// whatever pid is known; a running daemon is reported as running, with its
/// pid when it is known.
pub proof fn status_follows_running(pid: Option<u32>, n: u32)
    ensures
        status_text(false, pid) == "daemon not running"@,
        status_text(true, None) == "daemon running"@,
        status_text(true, Some(n)) == "daemon running (pid "@ + decimal(n as nat) + ")"@,
{
}

/// The pattern is found exactly when it occurs somewhere in the text, at
/// any position; in particular it is found in any text that holds it.
pub proof fn contains_text_finds_any_occurrence(s: Seq<char>, p: Seq<char>, a: Seq<char>, b: Seq<char>)
    ensures
        contains_text(s, p) <==> exists|i: int|
            0 <= i && i + p.len() <= s.len() && #[trigger] s.subrange(i, i + p.len()) == p,
        contains_text(a + p + b, p),
{
    if contains_text(s, p) {
        let i = choose|i: int| match_at(s, p, i);
        assert(0 <= i && i + p.len() <= s.len() && s.subrange(i, i + p.len()) == p);
    }
    if exists|i: int| 0 <= i && i + p.len() <= s.len() && #[trigger] s.subrange(i, i + p.len()) == p {
        let i = choose|i: int|
            0 <= i && i + p.len() <= s.len() && #[trigger] s.subrange(i, i + p.len()) == p;
        assert(match_at(s, p, i));
    }
    let w = a + p + b;
    assert(w.subrange(a.len() as int, (a.len() + p.len()) as int) =~= p);
    assert(match_at(w, p, a.len() as int));
}

/// An error message that holds "Connection reset" anywhere means the daemon stopped.
pub proof fn reset_anywhere_means_stopped(a: Seq<char>, b: Seq<char>)
    ensures
        contains_text(a + "Connection reset"@ + b, "Connection reset"@),
{
    contains_text_finds_any_occurrence(a, "Connection reset"@, a, b);
}

} // verus!
