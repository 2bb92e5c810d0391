use abo_builder::cli::{parse_build_args, resolve_manifest, select_command, str_eq, ArgError, BuildOption, Command};
use abo_builder::manifest::Key;

fn args(v: &[&str]) -> Vec<String> {
    v.iter().map(|s| s.to_string()).collect()
}

#[test]
fn select_commands() {
    assert_eq!(select_command(&args(&["abo"])), Command::Usage);
    assert_eq!(select_command(&args(&[])), Command::Usage);
    assert_eq!(select_command(&args(&["abo", "--check", "f.abo"])), Command::Check("f.abo".to_string()));
    assert_eq!(select_command(&args(&["abo", "--dump", "f.abo", "x"])), Command::Dump("f.abo".to_string()));
    assert_eq!(select_command(&args(&["abo", "--check"])), Command::MissingFile);
    assert_eq!(select_command(&args(&["abo", "--dump"])), Command::MissingFile);
    assert_eq!(select_command(&args(&["abo", "in.elf", "out.abo"])), Command::Build);
    assert_eq!(select_command(&args(&["abo", "in.elf"])), Command::Build);
}

#[test]
fn defaults_without_options() {
    let b = parse_build_args(&args(&["init.elf", "init.abo"]), "init".to_string()).unwrap();
    assert_eq!(b.input, "init.elf");
    assert_eq!(b.output, "init.abo");
    assert_eq!(b.manifest_file, None);
    assert_eq!(b.manifest.name, "init");
    assert_eq!(b.manifest.version, "0.1.0");
    assert!(b.manifest.caps_req.is_empty());
}

#[test]
fn options_override_and_add() {
    let b = parse_build_args(
        &args(&[
            "init.elf", "init.abo", "--name", "svc", "--version", "2.0", "--cap-req", "IpcEndpoint:SEND",
            "--cap-req", "Memory:MAP", "--cap-exp", "service://init", "--sandbox", "no_network",
            "--manifest", "m.txt",
        ]),
        "init".to_string(),
    )
    .unwrap();
    assert_eq!(b.manifest.name, "svc");
    assert_eq!(b.manifest.version, "2.0");
    assert_eq!(b.manifest.caps_req, args(&["IpcEndpoint:SEND", "Memory:MAP"]));
    assert_eq!(b.manifest.caps_exp, args(&["service://init"]));
    assert_eq!(b.manifest.sandbox, args(&["no_network"]));
    assert_eq!(b.manifest_file, Some("m.txt".to_string()));
}

#[test]
fn usage_error() {
    assert_eq!(parse_build_args(&args(&["only.elf"]), "only".to_string()).unwrap_err(), ArgError::Usage);
    assert_eq!(parse_build_args(&args(&[]), String::new()).unwrap_err(), ArgError::Usage);
}

#[test]
fn missing_values() {
    for (opt, o) in [
        ("--manifest", BuildOption::ManifestFile),
        ("--name", BuildOption::Field(Key::Name)),
        ("--version", BuildOption::Field(Key::Version)),
        ("--cap-req", BuildOption::Field(Key::CapReq)),
        ("--cap-exp", BuildOption::Field(Key::CapExp)),
        ("--sandbox", BuildOption::Field(Key::Sandbox)),
    ] {
        let e = parse_build_args(&args(&["a", "b", opt]), "a".to_string()).unwrap_err();
        assert_eq!(e, ArgError::MissingValue(o));
    }
}

#[test]
fn unknown_option() {
    let e = parse_build_args(&args(&["a", "b", "--name", "x", "--frobnicate", "y"]), "a".to_string()).unwrap_err();
    assert_eq!(e, ArgError::UnknownOption("--frobnicate".to_string()));
    let e = parse_build_args(&args(&["a", "b", "--NAME", "x"]), "a".to_string()).unwrap_err();
    assert_eq!(e, ArgError::UnknownOption("--NAME".to_string()));
}

#[test]
fn string_equality() {
    assert!(str_eq("abc", "abc"));
    assert!(str_eq("", ""));
    assert!(!str_eq("abc", "abd"));
    assert!(!str_eq("abc", "ab"));
    assert!(str_eq("ü", "ü"));
}

#[test]
fn a_manifest_file_replaces_the_options() {
    let b = parse_build_args(&args(&["in.elf", "out.abo", "--name", "x", "--cap-req", "c"]), "in".to_string()).unwrap();
    let m = resolve_manifest(b.manifest, Some("VERSION=9\n"));
    assert_eq!(m.name, "");
    assert_eq!(m.version, "9");
    assert!(m.caps_req.is_empty());
    let b = parse_build_args(&args(&["in.elf", "out.abo", "--name", "x"]), "in".to_string()).unwrap();
    let m = resolve_manifest(b.manifest, None);
    assert_eq!(m.name, "x");
    assert_eq!(m.version, "0.1.0");
}
