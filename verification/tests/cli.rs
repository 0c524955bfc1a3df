use protowire::cli::{command_of, parse_flags, start, CliResult, CliStep, Command, USAGE};

const SCHEMA_PATH: &str = "schema.binpb";
const BASE_ARGS: &[&str] = &["-d", SCHEMA_PATH, "-m", "test.v1.AllTypes"];

fn done(step: CliStep) -> CliResult {
    match step {
        CliStep::Done(r) => r,
        CliStep::Load { .. } => panic!("expected an answer before any file is read"),
    }
}

#[test]
fn no_args_prints_usage_with_exit_1() {
    let r = done(start(&[]));
    assert_eq!(r.exit, 1);
    assert!(r.stderr.contains("usage: protowire"), "{}", r.stderr);
}

#[test]
fn help_prints_usage_with_exit_0() {
    let r = done(start(&["--help"]));
    assert_eq!(r.exit, 0);
    assert!(r.stderr.contains("usage: protowire"), "{}", r.stderr);
}

#[test]
fn missing_descriptor_set_flag_errors() {
    let r = done(start(&["encode", "-m", "test.v1.AllTypes", "in.pxf"]));
    assert_eq!(r.exit, 1);
    assert!(r.stderr.contains("--descriptor-set is required"), "{}", r.stderr);
}

#[test]
fn missing_message_flag_errors() {
    let r = done(start(&["encode", "-d", SCHEMA_PATH, "in.pxf"]));
    assert_eq!(r.exit, 1);
    assert!(r.stderr.contains("--message is required"), "{}", r.stderr);
}

#[test]
fn unknown_command_errors() {
    let mut argv = vec!["bogus"];
    argv.extend_from_slice(BASE_ARGS);
    argv.push("in.pxf");
    let command = match start(&argv) {
        CliStep::Load { command, .. } => command,
        CliStep::Done(r) => panic!("unexpected early answer: {}", r.stderr),
    };
    let r = match command_of(&command) {
        Err(r) => r,
        Ok(c) => panic!("unexpected command {:?}", c),
    };
    assert_eq!(r.exit, 1);
    assert!(r.stderr.contains(r#"unknown command "bogus""#), "{}", r.stderr);
}

#[test]
fn start_names_the_files_to_load() {
    let mut argv = vec!["encode"];
    argv.extend_from_slice(BASE_ARGS);
    argv.push("in.pxf");
    match start(&argv) {
        CliStep::Load { command, descriptor_set, message, input } => {
            assert_eq!(command, "encode");
            assert_eq!(descriptor_set, "schema.binpb");
            assert_eq!(message, "test.v1.AllTypes");
            assert_eq!(input, "in.pxf");
        }
        CliStep::Done(r) => panic!("unexpected early answer: {}", r.stderr),
    }
}

#[test]
fn start_accepts_equals_forms() {
    match start(&["decode", "--descriptor-set=a.binpb", "--message=pkg.M", "x.pb"]) {
        CliStep::Load { command, descriptor_set, message, input } => {
            assert_eq!(command, "decode");
            assert_eq!(descriptor_set, "a.binpb");
            assert_eq!(message, "pkg.M");
            assert_eq!(input, "x.pb");
        }
        CliStep::Done(r) => panic!("unexpected early answer: {}", r.stderr),
    }
}

#[test]
fn start_short_help_and_help_flag() {
    let r = done(start(&["-h"]));
    assert_eq!(r.exit, 0);
    assert_eq!(r.stderr, USAGE);
    let r = done(start(&["encode", "-d", "x", "--help"]));
    assert_eq!(r.exit, 0);
    assert_eq!(r.stderr, USAGE);
}

#[test]
fn start_rejects_two_inputs() {
    let r = done(start(&["fmt", "-d", "x", "-m", "y", "a", "b"]));
    assert_eq!(r.exit, 1);
    assert_eq!(r.stderr, "error: fmt expects exactly one input file argument\n");
    assert!(r.stdout.is_empty());
}

#[test]
fn start_reports_flag_errors_with_usage() {
    let r = done(start(&["encode", "-d"]));
    assert_eq!(r.exit, 1);
    assert_eq!(r.stderr, format!("error: missing value for -d\n\n{}", USAGE));
    let r = done(start(&["encode", "--bogus"]));
    assert_eq!(r.exit, 1);
    assert_eq!(r.stderr, format!("error: unknown flag \"--bogus\"\n\n{}", USAGE));
}

#[test]
fn parse_flags_positional_dash_and_order() {
    let f = parse_flags(&["-", "a", "-m", "later", "-m", "last"]).unwrap();
    assert_eq!(f.positionals, vec!["-".to_string(), "a".to_string()]);
    assert_eq!(f.message.as_deref(), Some("last"));
    assert_eq!(f.descriptor_set, None);
    assert!(!f.help);
}

#[test]
fn command_of_known_commands() {
    assert_eq!(command_of("encode").unwrap(), Command::Encode);
    assert_eq!(command_of("decode").unwrap(), Command::Decode);
    assert_eq!(command_of("validate").unwrap(), Command::Validate);
    assert_eq!(command_of("fmt").unwrap(), Command::Fmt);
}

#[test]
fn error_answers_for_loading() {
    let r = protowire::cli::message_not_found("test.v1.NoSuch");
    assert_eq!(r.exit, 1);
    assert!(r.stderr.contains("not found in descriptor set"));
    let r = protowire::cli::read_failed("missing.pxf", "ENOENT: missing.pxf");
    assert_eq!(r.exit, 1);
    assert!(r.stderr.contains("read missing.pxf"));
    let r = protowire::cli::load_failed("bad");
    assert_eq!(r.stderr, "error: load descriptor: bad\n");
}

#[test]
fn missing_input_file_errors() {
    let mut argv = vec!["encode"];
    argv.extend_from_slice(BASE_ARGS);
    argv.push("missing.pxf");
    let input = match start(&argv) {
        CliStep::Load { input, .. } => input,
        CliStep::Done(r) => panic!("unexpected early answer: {}", r.stderr),
    };
    // The file is not there: the read fails with the reader's reason.
    let r = protowire::cli::read_failed(&input, &format!("ENOENT: {}", input));
    assert_eq!(r.exit, 1);
    assert!(r.stderr.contains("read missing.pxf"), "{}", r.stderr);
}
