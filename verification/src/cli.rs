//! What the program is asked to do on its command line.

use vstd::prelude::*;
use vstd::string::StringExecFns;

verus! {

/// What the program is to do.
#[derive(Clone, Debug, PartialEq, Eq)]
pub enum RunMode {
    /// Write a configuration record for the node of this name to the file of
    /// this name.
    GenConfig(String),
    /// Run one node.
    Loop,
    /// Do nothing.
    NoOp,
    /// Run a cluster of three nodes on this machine.
    LocalCluster,
}

/// Why the command line was not understood.
#[derive(Clone, Debug, PartialEq, Eq)]
pub enum ArgsError {
    /// `gen_config` came without a name.
    MissingName,
    /// The command is none of those known.
    UnknownCommand(String),
}

impl ArgsError {
    /// The error in words.
    pub fn message(&self) -> (text: String)
        ensures
            self is MissingName ==> text@ == "must be a config and file"@,
            self matches ArgsError::UnknownCommand(cmd) ==> text@ == "command `"@ + cmd@
                + "` not understood"@,
    {
        match self {
            ArgsError::MissingName => String::from_str("must be a config and file"),
            ArgsError::UnknownCommand(cmd) => String::from_str("command `").concat(
                cmd.as_str(),
            ).concat("` not understood"),
        }
    }
}

/// What a command line asks for; `args[0]` is the program's own name.
/// Without a command there is nothing to do. The commands are `loop`, `local`
/// and `gen_config`, which takes a name.
pub open spec fn spec_parse_args(args: Seq<String>) -> Result<RunMode, ArgsError> {
    if args.len() == 1 {
        Ok(RunMode::NoOp)
    } else if args[1]@ == "loop"@ {
        Ok(RunMode::Loop)
    } else if args[1]@ == "local"@ {
        Ok(RunMode::LocalCluster)
    } else if args[1]@ == "gen_config"@ {
        if args.len() > 2 {
            Ok(RunMode::GenConfig(args[2]))
        } else {
            Err(ArgsError::MissingName)
        }
    } else {
        Err(ArgsError::UnknownCommand(args[1]))
    }
}

/// Reads the command line.
pub fn parse_args(args: Vec<String>) -> (r: Result<RunMode, ArgsError>)
    requires
        args@.len() >= 1,
    ensures
        r == spec_parse_args(args@),
{
    if args.len() == 1 {
        return Ok(RunMode::NoOp);
    }
    let command = &args[1];
    if *command == String::from_str("loop") {
        Ok(RunMode::Loop)
    } else if *command == String::from_str("local") {
        Ok(RunMode::LocalCluster)
    } else if *command == String::from_str("gen_config") {
        if args.len() > 2 {
            Ok(RunMode::GenConfig(args[2].clone()))
        } else {
            Err(ArgsError::MissingName)
        }
    } else {
        Err(ArgsError::UnknownCommand(command.clone()))
    }
}

} // verus!
