use image_processor::args::{parse_args, Args, ArgsError, PathChecks};

fn args() -> Args {
    Args {
        input: "in.png".to_string(),
        output: "out/dir/o.png".to_string(),
        plugin: "mirror".to_string(),
        params: "p.json".to_string(),
        plugin_path: "target/debug".to_string(),
    }
}

fn all_ok() -> PathChecks {
    PathChecks {
        input_is_file: true,
        params_is_file: true,
        plugin_path_is_dir: true,
        output_parent: Some("out/dir".to_string()),
        output_parent_is_dir: true,
    }
}

#[test]
fn valid_args_pass() {
    let a = parse_args(args(), &all_ok()).ok().unwrap();
    assert_eq!(a.input, "in.png");
    assert_eq!(a.output, "out/dir/o.png");
    assert_eq!(a.plugin, "mirror");
    assert_eq!(a.params, "p.json");
    assert_eq!(a.plugin_path, "target/debug");
}

#[test]
fn missing_input_reported_first() {
    let mut c = all_ok();
    c.input_is_file = false;
    c.params_is_file = false;
    c.plugin_path_is_dir = false;
    c.output_parent_is_dir = false;
    match parse_args(args(), &c) {
        Err(ArgsError::InputFileNotFound(p)) => assert_eq!(p, "in.png"),
        _ => panic!("expected a missing input file"),
    }
}

#[test]
fn missing_params() {
    let mut c = all_ok();
    c.params_is_file = false;
    c.plugin_path_is_dir = false;
    match parse_args(args(), &c) {
        Err(ArgsError::ParamsFileNotFound(p)) => assert_eq!(p, "p.json"),
        _ => panic!("expected a missing params file"),
    }
}

#[test]
fn missing_plugin_dir() {
    let mut c = all_ok();
    c.plugin_path_is_dir = false;
    c.output_parent_is_dir = false;
    match parse_args(args(), &c) {
        Err(ArgsError::PluginDirNotFound(p)) => assert_eq!(p, "target/debug"),
        _ => panic!("expected a missing plugin directory"),
    }
}

#[test]
fn missing_output_dir() {
    let mut c = all_ok();
    c.output_parent_is_dir = false;
    match parse_args(args(), &c) {
        Err(ArgsError::OutputDirNotFound(p)) => assert_eq!(p, "out/dir"),
        _ => panic!("expected a missing output directory"),
    }
}

#[test]
fn output_in_current_dir_passes() {
    let mut c = all_ok();
    c.output_parent = Some(String::new());
    c.output_parent_is_dir = false;
    assert!(parse_args(args(), &c).is_ok());
    c.output_parent = None;
    assert!(parse_args(args(), &c).is_ok());
}
