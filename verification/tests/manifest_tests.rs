use abo_builder::manifest::{Manifest, Key, key_str};

fn strs(v: &[&str]) -> Vec<String> {
    v.iter().map(|s| s.to_string()).collect()
}

#[test]
fn parses_the_documented_example() {
    let text = "NAME=init\nVERSION=0.1.0\n\nCAP_REQ=IpcEndpoint:SEND\nCAP_REQ=Memory:MAP\n\nCAP_EXP=service://init\n\nSANDBOX=no_network\nSANDBOX=no_filesystem\n";
    let m = Manifest::parse(text);
    assert_eq!(m.name, "init");
    assert_eq!(m.version, "0.1.0");
    assert_eq!(m.caps_req, strs(&["IpcEndpoint:SEND", "Memory:MAP"]));
    assert_eq!(m.caps_exp, strs(&["service://init"]));
    assert_eq!(m.sandbox, strs(&["no_network", "no_filesystem"]));
}

#[test]
fn comments_blank_lines_and_unknown_keys_are_ignored() {
    let text = "# a comment\n   \n#NAME=hidden\nFOO=bar\nname=lower\nNAME=real";
    let m = Manifest::parse(text);
    assert_eq!(m.name, "real");
    assert_eq!(m.version, "");
    assert!(m.caps_req.is_empty() && m.caps_exp.is_empty() && m.sandbox.is_empty());
}

#[test]
fn lines_are_trimmed_but_values_keep_inner_space() {
    let text = "  NAME= svc  \r\n\tCAP_REQ=a b\u{a0}\r\nVERSION=\u{3000}2.0";
    let m = Manifest::parse(text);
    assert_eq!(m.name, " svc");
    assert_eq!(m.caps_req, strs(&["a b"]));
    // The ideographic space follows `=`, so it is not at either end of the line.
    assert_eq!(m.version, "\u{3000}2.0");
}

#[test]
fn the_last_name_and_version_win_and_lists_keep_order() {
    let m = Manifest::parse("NAME=a\nNAME=b\nVERSION=1\nVERSION=2\nSANDBOX=x\nSANDBOX=\nSANDBOX=y");
    assert_eq!(m.name, "b");
    assert_eq!(m.version, "2");
    assert_eq!(m.sandbox, strs(&["x", "", "y"]));
}

#[test]
fn empty_text_gives_an_empty_manifest() {
    let m = Manifest::parse("");
    assert_eq!(m.name, "");
    assert_eq!(m.version, "");
    assert!(m.caps_req.is_empty());
    let d = Manifest::default();
    assert_eq!(d.serialize(), Vec::<u8>::new());
}

#[test]
fn serializes_in_a_fixed_order() {
    let m = Manifest {
        name: "init".to_string(),
        version: "0.1.0".to_string(),
        caps_req: strs(&["IpcEndpoint:SEND"]),
        caps_exp: strs(&["service://init", "x"]),
        sandbox: strs(&["no_network"]),
    };
    let out = String::from_utf8(m.serialize()).unwrap();
    assert_eq!(
        out,
        "NAME=init\nVERSION=0.1.0\nCAP_REQ=IpcEndpoint:SEND\nCAP_EXP=service://init\nCAP_EXP=x\nSANDBOX=no_network\n"
    );
}

#[test]
fn empty_name_and_version_are_not_written() {
    let m = Manifest {
        name: String::new(),
        version: String::new(),
        caps_req: strs(&[""]),
        caps_exp: vec![],
        sandbox: vec![],
    };
    assert_eq!(m.serialize(), b"CAP_REQ=\n".to_vec());
}

#[test]
fn serialize_writes_utf8() {
    let m = Manifest {
        name: "ünïcødé✓".to_string(),
        version: String::new(),
        caps_req: vec![],
        caps_exp: vec![],
        sandbox: vec![],
    };
    assert_eq!(m.serialize(), "NAME=ünïcødé✓\n".as_bytes().to_vec());
}

#[test]
fn reading_back_a_written_manifest_gives_it_again() {
    let m = Manifest {
        name: "init".to_string(),
        version: "1.2.3-rc1".to_string(),
        caps_req: strs(&["IpcEndpoint:SEND", "", " lead"]),
        caps_exp: strs(&["service://init"]),
        sandbox: strs(&["no_network", "no_filesystem"]),
    };
    let text = String::from_utf8(m.serialize()).unwrap();
    let back = Manifest::parse(&text);
    assert_eq!(back.name, m.name);
    assert_eq!(back.version, m.version);
    assert_eq!(back.caps_req, m.caps_req);
    assert_eq!(back.caps_exp, m.caps_exp);
    assert_eq!(back.sandbox, m.sandbox);
}

#[test]
fn trailing_white_space_of_a_value_is_lost_on_reading() {
    let m = Manifest {
        name: "x ".to_string(),
        version: String::new(),
        caps_req: vec![],
        caps_exp: vec![],
        sandbox: vec![],
    };
    let back = Manifest::parse(&String::from_utf8(m.serialize()).unwrap());
    assert_eq!(back.name, "x");
}

#[test]
fn key_texts() {
    assert_eq!(key_str(Key::Name), "NAME=");
    assert_eq!(key_str(Key::Version), "VERSION=");
    assert_eq!(key_str(Key::CapReq), "CAP_REQ=");
    assert_eq!(key_str(Key::CapExp), "CAP_EXP=");
    assert_eq!(key_str(Key::Sandbox), "SANDBOX=");
}

/// The manifest reading of the `KEY=VALUE` format as `str::lines` and `str::trim` give it.
fn reference_parse(text: &str) -> (String, String, Vec<String>, Vec<String>, Vec<String>) {
    let (mut n, mut v, mut r, mut e, mut s) = (String::new(), String::new(), vec![], vec![], vec![]);
    for line in text.lines() {
        let line = line.trim();
        if line.is_empty() || line.starts_with('#') {
            continue;
        }
        if let Some(x) = line.strip_prefix("NAME=") { n = x.to_string(); }
        if let Some(x) = line.strip_prefix("VERSION=") { v = x.to_string(); }
        if let Some(x) = line.strip_prefix("CAP_REQ=") { r.push(x.to_string()); }
        if let Some(x) = line.strip_prefix("CAP_EXP=") { e.push(x.to_string()); }
        if let Some(x) = line.strip_prefix("SANDBOX=") { s.push(x.to_string()); }
    }
    (n, v, r, e, s)
}

#[test]
fn agrees_with_line_splitting_and_trimming() {
    let texts = [
        "",
        "\n",
        "\r\n\r\n",
        "NAME=a\r",
        "NAME=a\rNAME=b\nVERSION=\u{85}1\u{85}",
        " \u{2028}CAP_EXP=x\u{2029} \n\u{1680}SANDBOX=y\u{202f}\n\u{205f}#CAP_REQ=z\n\u{200a}CAP_REQ=w\u{2000}",
        "\u{180e}NAME=mongolian\n\u{200b}NAME=zero-width",
        "NAME==\nVERSION=VERSION=\nCAP_REQ=#x\n#\n",
        "NAMES=x\nNAME =y\n\x0bNAME=vt\x0c\n",
    ];
    for t in texts {
        let m = Manifest::parse(t);
        let (n, v, r, e, s) = reference_parse(t);
        assert_eq!(m.name, n, "{:?}", t);
        assert_eq!(m.version, v, "{:?}", t);
        assert_eq!(m.caps_req, r, "{:?}", t);
        assert_eq!(m.caps_exp, e, "{:?}", t);
        assert_eq!(m.sandbox, s, "{:?}", t);
    }
}

#[test]
fn white_space_is_the_unicode_property() {
    for u in 0u32..=0x10ffff {
        if let Some(c) = char::from_u32(u) {
            assert_eq!(abo_builder::manifest::is_whitespace(c), c.is_whitespace(), "{:x}", u);
        }
    }
}

#[test]
fn a_read_manifest_survives_writing_and_reading_again() {
    for t in [
        "NAME=a \nCAP_REQ= x\t\nSANDBOX=\n# c\nVERSION=1\u{a0}",
        "  CAP_EXP=a=b\r\nCAP_EXP=\u{3000}\r\n",
        "",
    ] {
        let m = Manifest::parse(t);
        let again = Manifest::parse(std::str::from_utf8(&m.serialize()).unwrap());
        assert_eq!(again.name, m.name);
        assert_eq!(again.version, m.version);
        assert_eq!(again.caps_req, m.caps_req);
        assert_eq!(again.caps_exp, m.caps_exp);
        assert_eq!(again.sandbox, m.sandbox);
    }
}
