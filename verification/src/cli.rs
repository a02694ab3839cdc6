//! The command line: which command the arguments ask for, or why they are
//! refused.
//!
//! `health --server <URL>` and
//! `sync --server <URL> --path <PATH> --hash <HASH>`.

use vstd::prelude::*;
use crate::client::{parse_base_url, SyncClient, SyncRequest};
use crate::error::error_message;
use crate::text::same_text;

verus! {

/// A command the arguments ask for, with the client it talks through.
#[derive(Debug)]
pub enum CliCommand {
    /// Ask the server whether it is healthy.
    Health(SyncClient),
    /// Report one file to the server.
    Sync(SyncClient, SyncRequest),
}

/// Why the arguments are refused, and whether the usage text is to be shown.
#[derive(Debug)]
pub struct CliFailure {
    pub message: String,
    pub show_usage: bool,
}

/// `r` refuses the arguments with `message`, showing the usage text or not.
pub open spec fn refused(r: Result<CliCommand, CliFailure>, message: Seq<char>, usage: bool) -> bool {
    r matches Err(f) && f.message@ == message && f.show_usage == usage
}

/// `c` talks to the server at `host` and `port`.
pub open spec fn client_at(c: SyncClient, host: Seq<char>, port: u16) -> bool {
    c.host_text() == host && c.port_number() == port
}

/// What the arguments (the program name first) ask for.
pub open spec fn planned(args: Seq<Seq<char>>, r: Result<CliCommand, CliFailure>) -> bool {
    if args.len() < 4 {
        refused(r, "missing required arguments"@, true)
    } else if args[2] != "--server"@ {
        refused(r, "expected --server <URL>"@, false)
    } else {
        match parse_base_url(args[3]) {
            None => refused(r, "invalid base url: "@ + args[3], false),
            Some((host, port)) => if args[1] == "health"@ {
                r matches Ok(CliCommand::Health(c)) && client_at(c, host, port)
            } else if args[1] == "sync"@ {
                if args.len() != 8 {
                    refused(r, "sync requires --path and --hash"@, true)
                } else if args[4] != "--path"@ || args[6] != "--hash"@ {
                    refused(r, "expected sync --server <URL> --path <PATH> --hash <HASH>"@, false)
                } else {
                    r matches Ok(CliCommand::Sync(c, req)) && client_at(c, host, port)
                        && req.path@ == args[5] && req.hash@ == args[7]
                }
            } else {
                refused(r, "unknown command: "@ + args[1], true)
            },
        }
    }
}

/// The texts of the arguments.
pub open spec fn arg_texts(args: Seq<String>) -> Seq<Seq<char>> {
    args.map_values(|a: String| a@)
}

fn refuse(message: &str, show_usage: bool) -> (r: Result<CliCommand, CliFailure>)
    ensures
        refused(r, message@, show_usage),
{
    Err(CliFailure { message: String::from_str(message), show_usage })
}

/// Reads the command line (the program name first).
pub fn plan_command(args: &Vec<String>) -> (r: Result<CliCommand, CliFailure>)
    ensures
        planned(arg_texts(args@), r),
{
    let ghost texts = arg_texts(args@);
    if args.len() < 4 {
        return refuse("missing required arguments", true);
    }
    assert(texts[2] == args@[2]@);
    assert(texts[3] == args@[3]@);
    assert(texts[1] == args@[1]@);
    if !same_text(args[2].as_str(), "--server") {
        return refuse("expected --server <URL>", false);
    }
    let client = match SyncClient::new(args[3].as_str()) {
        Ok(c) => c,
        Err(e) => {
            let message = e.message();
            assert(message@ == error_message(e));
            return Err(CliFailure { message, show_usage: false });
        },
    };
    let command = args[1].as_str();
    if same_text(command, "health") {
        return Ok(CliCommand::Health(client));
    }
    if !same_text(command, "sync") {
        let mut message = String::from_str("unknown command: ");
        message.append(command);
        return Err(CliFailure { message, show_usage: true });
    }
    if args.len() != 8 {
        return refuse("sync requires --path and --hash", true);
    }
    assert(texts[4] == args@[4]@);
    assert(texts[5] == args@[5]@);
    assert(texts[6] == args@[6]@);
    assert(texts[7] == args@[7]@);
    if !same_text(args[4].as_str(), "--path") || !same_text(args[6].as_str(), "--hash") {
        return refuse("expected sync --server <URL> --path <PATH> --hash <HASH>", false);
    }
    let request = SyncRequest { path: args[5].clone(), hash: args[7].clone() };
    Ok(CliCommand::Sync(client, request))
}

} // verus!
