use terribledb::cli::{parse_args, ArgsError, RunMode};

fn args(words: &[&str]) -> Vec<String> {
    words.iter().map(|w| w.to_string()).collect()
}

#[test]
fn no_command_is_no_op() {
    assert_eq!(parse_args(args(&["terribledb"])), Ok(RunMode::NoOp));
}

#[test]
fn loop_and_local_are_commands() {
    assert_eq!(parse_args(args(&["terribledb", "loop"])), Ok(RunMode::Loop));
    assert_eq!(parse_args(args(&["terribledb", "local"])), Ok(RunMode::LocalCluster));
    assert_eq!(parse_args(args(&["terribledb", "loop", "extra"])), Ok(RunMode::Loop));
}

#[test]
fn gen_config_takes_a_name() {
    assert_eq!(
        parse_args(args(&["terribledb", "gen_config", "okay.cfg"])),
        Ok(RunMode::GenConfig("okay.cfg".to_string()))
    );
    assert_eq!(parse_args(args(&["terribledb", "gen_config"])), Err(ArgsError::MissingName));
}

#[test]
fn unknown_command_is_refused() {
    let r = parse_args(args(&["terribledb", "stahp"]));
    assert_eq!(r, Err(ArgsError::UnknownCommand("stahp".to_string())));
    assert_eq!(r.unwrap_err().message(), "command `stahp` not understood");
    assert_eq!(ArgsError::MissingName.message(), "must be a config and file");
}
