use lart::parms::{Choice, Parm as Declared};
use lart::rpc::{cmd, parse_cmds, KvCmd, Rpc, RpcError};
use lart::schema::{Manifest, Parm};
use lart::viewer::{merge_parameters, parse_parm, SketchOutput};

fn declared<P: Declared>(name: &str, p: &P) -> Vec<u8> {
    let mut body = Rpc::new();
    body.kv(b"name", name.as_bytes());
    p.send_schema(&mut body);
    cmd(true, b"PARM", &body)
}

fn read_one(stream: &[u8]) -> Result<Option<(String, Parm)>, RpcError> {
    let cmds = parse_cmds(stream);
    assert_eq!(cmds.len(), 1);
    let (_, kv) = cmds[0].as_ref().unwrap();
    parse_parm(kv)
}

fn strings(v: &[&str]) -> Vec<String> {
    v.iter().map(|s| s.to_string()).collect()
}

#[test]
fn a_bool_that_is_declared_is_read() {
    assert_eq!(
        read_one(&declared("flip", &true)),
        Ok(Some(("flip".to_string(), Parm::Bool { value: true })))
    );
    assert_eq!(
        read_one(&declared("flip", &false)),
        Ok(Some(("flip".to_string(), Parm::Bool { value: false })))
    );
}

#[test]
fn a_string_that_is_declared_is_read() {
    assert_eq!(
        read_one(&declared("title", &"caf\u{e9}".to_string())),
        Ok(Some(("title".to_string(), Parm::String { value: "caf\u{e9}".to_string() })))
    );
}

#[test]
fn a_choice_that_is_declared_is_read() {
    let c = Choice::new("A4", &["A6", "A5", "A4"]);
    assert_eq!(
        read_one(&declared("page", &c)),
        Ok(Some((
            "page".to_string(),
            Parm::Choice { value: "A4".to_string(), choices: strings(&["A6", "A5", "A4"]) }
        )))
    );
}

#[test]
fn numbers_that_are_declared_are_read_with_their_limits() {
    assert_eq!(
        read_one(&declared("n", &200u8)),
        Ok(Some(("n".to_string(), Parm::UInt { value: 200, min: 0, max: 255 })))
    );
    assert_eq!(
        read_one(&declared("n", &u64::MAX)),
        Ok(Some(("n".to_string(), Parm::UInt { value: u64::MAX, min: 0, max: u64::MAX })))
    );
    assert_eq!(
        read_one(&declared("n", &-3i8)),
        Ok(Some(("n".to_string(), Parm::Int { value: -3, min: -128, max: 127 })))
    );
    assert_eq!(
        read_one(&declared("n", &-70_000i32)),
        Ok(Some((
            "n".to_string(),
            Parm::Int { value: -70_000, min: i32::MIN as i64, max: i32::MAX as i64 }
        )))
    );
    assert_eq!(
        read_one(&declared("n", &i64::MIN)),
        Ok(Some(("n".to_string(), Parm::Int { value: i64::MIN, min: i64::MIN, max: i64::MAX })))
    );
    assert_eq!(read_one(&declared("n", &1u128)), Err(RpcError::InvalidNumber));
    assert_eq!(read_one(&declared("n", &1i128)), Err(RpcError::InvalidNumber));
}

#[test]
fn a_double_is_read_as_its_bits() {
    let mut body = Rpc::new();
    body.kv(b"name", b"scale");
    body.kv(b"type", b"double");
    body.kv(b"min", &f64::MIN.to_le_bytes());
    body.kv(b"max", &f64::MAX.to_le_bytes());
    body.kv(b"default", &1.5f64.to_le_bytes());
    assert_eq!(
        read_one(&cmd(true, b"PARM", &body)),
        Ok(Some((
            "scale".to_string(),
            Parm::Double { value: 1.5f64.to_bits(), min: f64::MIN.to_bits(), max: f64::MAX.to_bits() }
        )))
    );
}

#[test]
fn parse_parm_reports_what_is_missing() {
    let mut kv = KvCmd::new();
    assert_eq!(parse_parm(&kv), Err(RpcError::NotFound));
    kv.insert(b"name", b"n");
    assert_eq!(parse_parm(&kv), Err(RpcError::NotFound));
    kv.insert(b"type", b"colour");
    assert_eq!(parse_parm(&kv), Ok(None));
    kv.insert(b"type", b"bool");
    assert_eq!(parse_parm(&kv), Err(RpcError::NotFound));
    kv.insert(b"default", b"");
    assert_eq!(parse_parm(&kv), Err(RpcError::InvalidBool));
    kv.insert(b"default", &[0, 1]);
    assert_eq!(parse_parm(&kv), Ok(Some(("n".to_string(), Parm::Bool { value: false }))));
    kv.insert(b"default", &[2]);
    assert_eq!(parse_parm(&kv), Ok(Some(("n".to_string(), Parm::Bool { value: true }))));
    kv.insert(b"type", b"int");
    assert_eq!(parse_parm(&kv), Err(RpcError::NotFound));
    kv.insert(b"min", &[0; 9]);
    assert_eq!(parse_parm(&kv), Err(RpcError::InvalidNumber));
    kv.insert(b"name", &[0xFF]);
    assert_eq!(parse_parm(&kv), Err(RpcError::InvalidUtf8));
}

#[test]
fn parse_parm_wants_every_choice() {
    let mut kv = KvCmd::new();
    let (zero, one, two) = (0u64.to_le_bytes(), 1u64.to_le_bytes(), 2u64.to_le_bytes());
    kv.insert(b"name", b"c");
    kv.insert(b"type", b"choice");
    kv.insert(b"default", b"x");
    kv.insert(b"len", &two);
    kv.insert(&zero, b"x");
    assert_eq!(parse_parm(&kv), Err(RpcError::NotFound));
    kv.insert(&one, &[0x80]);
    assert_eq!(parse_parm(&kv), Err(RpcError::InvalidUtf8));
    kv.insert(&one, b"y");
    kv.insert(&two, b"z");
    assert_eq!(
        parse_parm(&kv),
        Ok(Some((
            "c".to_string(),
            Parm::Choice { value: "x".to_string(), choices: strings(&["x", "y"]) }
        )))
    );
    let huge = u64::MAX.to_le_bytes();
    kv.insert(b"len", &huge);
    assert_eq!(parse_parm(&kv), Err(RpcError::NotFound));
}

#[test]
fn take_value_from_keeps_to_the_limits() {
    let mut p = Parm::Int { value: 5, min: 0, max: 10 };
    p.take_value_from(&Parm::Int { value: 7, min: -100, max: 100 });
    assert_eq!(p, Parm::Int { value: 7, min: 0, max: 10 });
    p.take_value_from(&Parm::Int { value: 11, min: -100, max: 100 });
    assert_eq!(p, Parm::Int { value: 7, min: 0, max: 10 });
    p.take_value_from(&Parm::Int { value: 0, min: -100, max: 100 });
    assert_eq!(p, Parm::Int { value: 0, min: 0, max: 10 });
    p.take_value_from(&Parm::UInt { value: 3, min: 0, max: 100 });
    assert_eq!(p, Parm::Int { value: 0, min: 0, max: 10 });

    let mut p = Parm::UInt { value: 5, min: 2, max: 10 };
    p.take_value_from(&Parm::UInt { value: 10, min: 0, max: 100 });
    assert_eq!(p, Parm::UInt { value: 10, min: 2, max: 10 });
    p.take_value_from(&Parm::UInt { value: 1, min: 0, max: 100 });
    assert_eq!(p, Parm::UInt { value: 10, min: 2, max: 10 });

    let double = |value: f64, min: f64, max: f64| Parm::Double {
        value: value.to_bits(),
        min: min.to_bits(),
        max: max.to_bits(),
    };
    let mut p = double(0.5, -1.0, 1.0);
    p.take_value_from(&double(-0.25, -9.0, 9.0));
    assert_eq!(p, double(-0.25, -1.0, 1.0));
    p.take_value_from(&double(1.5, -9.0, 9.0));
    assert_eq!(p, double(-0.25, -1.0, 1.0));
    p.take_value_from(&double(f64::NAN, -9.0, 9.0));
    assert_eq!(p, double(-0.25, -1.0, 1.0));
    p.take_value_from(&double(-1.0, -9.0, 9.0));
    assert_eq!(p, double(-1.0, -1.0, 1.0));

    let mut p = Parm::Bool { value: false };
    p.take_value_from(&Parm::Bool { value: true });
    assert_eq!(p, Parm::Bool { value: true });

    let mut p = Parm::String { value: "a".to_string() };
    p.take_value_from(&Parm::String { value: "b".to_string() });
    assert_eq!(p, Parm::String { value: "b".to_string() });
    p.take_value_from(&Parm::Bool { value: true });
    assert_eq!(p, Parm::String { value: "b".to_string() });

    let mut p = Parm::Choice { value: "x".to_string(), choices: strings(&["x", "y"]) };
    p.take_value_from(&Parm::Choice { value: "y".to_string(), choices: strings(&["y", "z"]) });
    assert_eq!(p, Parm::Choice { value: "y".to_string(), choices: strings(&["x", "y"]) });
    p.take_value_from(&Parm::Choice { value: "z".to_string(), choices: strings(&["y", "z"]) });
    assert_eq!(p, Parm::Choice { value: "y".to_string(), choices: strings(&["x", "y"]) });
}

#[test]
fn from_output_collects_parameters_and_the_drawing() {
    let mut stream = declared("lines", &3u8);
    stream.extend(declared("flip", &true));
    let mut svg = Rpc::new();
    svg.kv(b"path", b"/tmp/a-1.svg");
    stream.extend(cmd(true, b"SVG", &svg));
    let mut other = Rpc::new();
    other.kv(b"k", b"v");
    stream.extend(cmd(true, b"NOTE", &other));
    let mut unknown = Rpc::new();
    unknown.kv(b"name", b"c");
    unknown.kv(b"type", b"colour");
    stream.extend(cmd(true, b"PARM", &unknown));
    let mut svg = Rpc::new();
    svg.kv(b"path", b"/tmp/a-2.svg");
    stream.extend(cmd(true, b"SVG", &svg));

    let out = SketchOutput::from_output(&stream).unwrap();
    assert_eq!(
        out.manifest,
        vec![
            ("lines".to_string(), Parm::UInt { value: 3, min: 0, max: 255 }),
            ("flip".to_string(), Parm::Bool { value: true }),
        ]
    );
    assert_eq!(out.svg_filepath, Some("/tmp/a-2.svg".to_string()));

    let empty = SketchOutput::from_output(b"").unwrap();
    assert!(empty.manifest.is_empty());
    assert_eq!(empty.svg_filepath, None);
    let none = SketchOutput::empty();
    assert!(none.manifest.is_empty());
    assert_eq!(none.svg_filepath, None);
}

#[test]
fn from_output_fails_at_the_first_error() {
    let mut stream = declared("lines", &3u8);
    stream.extend(cmd(true, b"SVG", &Rpc::new()));
    stream.extend(declared("flip", &true));
    assert_eq!(SketchOutput::from_output(&stream).unwrap_err(), RpcError::NotFound);

    let mut stream = declared("lines", &3u8);
    stream.extend([0x0F, 0, 0]);
    assert_eq!(
        SketchOutput::from_output(&stream).unwrap_err(),
        RpcError::TagMismatch { expected: 0xFF }
    );

    let whole = declared("lines", &3u8);
    assert_eq!(
        SketchOutput::from_output(&whole[..whole.len() - 12]).unwrap_err(),
        RpcError::Truncated
    );
}

#[test]
fn merge_keeps_values_while_the_names_go_together() {
    let old: Manifest = vec![
        ("a".to_string(), Parm::UInt { value: 9, min: 0, max: 10 }),
        ("b".to_string(), Parm::Bool { value: true }),
        ("c".to_string(), Parm::UInt { value: 4, min: 0, max: 10 }),
        ("d".to_string(), Parm::UInt { value: 5, min: 0, max: 10 }),
    ];
    let new: Manifest = vec![
        ("a".to_string(), Parm::UInt { value: 1, min: 0, max: 20 }),
        ("x".to_string(), Parm::UInt { value: 2, min: 0, max: 20 }),
        ("b".to_string(), Parm::Bool { value: false }),
        ("c".to_string(), Parm::UInt { value: 3, min: 5, max: 20 }),
        ("d".to_string(), Parm::Bool { value: false }),
        ("d".to_string(), Parm::UInt { value: 0, min: 0, max: 20 }),
    ];
    assert_eq!(
        merge_parameters(&old, &new),
        vec![
            ("a".to_string(), Parm::UInt { value: 9, min: 0, max: 20 }),
            ("x".to_string(), Parm::UInt { value: 2, min: 0, max: 20 }),
            ("b".to_string(), Parm::Bool { value: true }),
            ("c".to_string(), Parm::UInt { value: 3, min: 5, max: 20 }),
            ("d".to_string(), Parm::Bool { value: false }),
            ("d".to_string(), Parm::UInt { value: 0, min: 0, max: 20 }),
        ]
    );
    assert_eq!(merge_parameters(&old, &vec![]), vec![]);
    assert_eq!(merge_parameters(&vec![], &new), new);
}
