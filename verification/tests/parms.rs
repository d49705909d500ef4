use lart::parms::{cli_tokens, parse_bool, parse_bool_lowercase, unquote, Choice, Parm};
use lart::rpc::{get_int, get_str, get_uint, parse_cmds, Rpc};
use lart::vpype::Vpype;

fn strings(v: &[&str]) -> Vec<String> {
    v.iter().map(|s| s.to_string()).collect()
}

fn pairs_of<P: Parm>(p: &P) -> Vec<(Vec<u8>, Vec<u8>)> {
    let mut body = Rpc::new();
    p.send_schema(&mut body);
    let stream = lart::rpc::cmd(true, b"PARM", &body);
    let cmds = parse_cmds(&stream);
    assert_eq!(cmds.len(), 1);
    let (name, _) = cmds[0].as_ref().unwrap();
    assert_eq!(*name, b"PARM");
    // Frames are read by hand here to see doubled keys and the order too.
    let bytes = body.bytes();
    let mut out = vec![];
    let mut pos = 0;
    let mut frames = vec![];
    while pos < bytes.len() {
        assert_eq!(bytes[pos], 0x0F);
        let len = u64::from_le_bytes(bytes[pos + 1..pos + 9].try_into().unwrap()) as usize;
        frames.push(bytes[pos + 9..pos + 9 + len].to_vec());
        pos += 9 + len;
    }
    assert_eq!(frames.len() % 2, 0);
    for kv in frames.chunks(2) {
        out.push((kv[0].clone(), kv[1].clone()));
    }
    out
}

fn pair(k: &[u8], v: &[u8]) -> (Vec<u8>, Vec<u8>) {
    (k.to_vec(), v.to_vec())
}

#[test]
fn tokens_split_at_the_first_equals_sign() {
    let args = strings(&["--lines=12", "--name", "a b", "--expr=a=b", "--empty=", "=x", "plain", ""]);
    assert_eq!(
        cli_tokens(&args),
        strings(&["--lines", "12", "--name", "a b", "--expr", "a=b", "--empty", "", "x", "plain", ""])
    );
    assert_eq!(cli_tokens(&[]), Vec::<String>::new());
}

#[test]
fn tokens_keep_text_that_is_not_ascii() {
    let args = strings(&["--caf\u{e9}=\u{1F600}!"]);
    assert_eq!(cli_tokens(&args), strings(&["--caf\u{e9}", "\u{1F600}!"]));
}

#[test]
fn unquote_takes_one_quote_from_each_end() {
    assert_eq!(unquote("\"a b\""), "a b");
    assert_eq!(unquote("a b"), "a b");
    assert_eq!(unquote("\"a b"), "a b");
    assert_eq!(unquote("a b\""), "a b");
    assert_eq!(unquote("\"\"a\"\""), "\"a\"");
    assert_eq!(unquote("\""), "");
    assert_eq!(unquote("\"\""), "");
    assert_eq!(unquote(""), "");
    assert_eq!(unquote("a\"b"), "a\"b");
}

#[test]
fn bools_want_an_explicit_value() {
    assert_eq!(parse_bool("true"), Some(true));
    assert_eq!(parse_bool("TRUE"), Some(true));
    assert_eq!(parse_bool("True"), Some(true));
    assert_eq!(parse_bool("1"), Some(true));
    assert_eq!(parse_bool("false"), Some(false));
    assert_eq!(parse_bool("FaLsE"), Some(false));
    assert_eq!(parse_bool("0"), Some(false));
    assert_eq!(parse_bool(""), None);
    assert_eq!(parse_bool("yes"), None);
    assert_eq!(parse_bool("true "), None);
    assert_eq!(parse_bool("10"), None);
    assert_eq!(parse_bool_lowercase("true"), Some(true));
    assert_eq!(parse_bool_lowercase("TRUE"), None);
    assert_eq!(parse_bool_lowercase("0"), Some(false));
}

#[test]
fn choice_keeps_its_value_and_its_list() {
    let c = Choice::new("A4", &["A6", "A5", "A4"]);
    assert_eq!(c.value(), "A4");
    assert_eq!(c.choices(), &["A6", "A5", "A4"]);
}

#[test]
fn choice_parse_says_whether_the_value_is_listed() {
    let mut c = Choice::new("A4", &["A6", "A5", "A4"]);
    assert!(c.parse("A5"));
    assert_eq!(c.value(), "A5");
    assert!(c.parse("\"A6\""));
    assert_eq!(c.value(), "A6");
    assert!(!c.parse("A3"));
    assert_eq!(c.value(), "A3");
    assert!(!c.parse(""));
    assert_eq!(c.value(), "");
}

#[test]
fn bool_schema() {
    assert_eq!(pairs_of(&true), vec![pair(b"type", b"bool"), pair(b"default", &[1])]);
    assert_eq!(pairs_of(&false), vec![pair(b"type", b"bool"), pair(b"default", &[0])]);
}

#[test]
fn string_schema() {
    assert_eq!(
        pairs_of(&"caf\u{e9}".to_string()),
        vec![pair(b"type", b"string"), pair(b"default", "caf\u{e9}".as_bytes())]
    );
}

#[test]
fn choice_schema() {
    let c = Choice::new("b", &["a", "b", "c"]);
    assert_eq!(
        pairs_of(&c),
        vec![
            pair(b"type", b"choice"),
            pair(b"default", b"b"),
            pair(b"len", &3u64.to_le_bytes()),
            pair(&0u64.to_le_bytes(), b"a"),
            pair(&1u64.to_le_bytes(), b"b"),
            pair(&2u64.to_le_bytes(), b"c"),
        ]
    );
    let none = Choice::new("", &[]);
    assert_eq!(
        pairs_of(&none),
        vec![pair(b"type", b"choice"), pair(b"default", b""), pair(b"len", &0u64.to_le_bytes())]
    );
}

#[test]
fn unsigned_schemas_have_the_width_of_the_type() {
    assert_eq!(
        pairs_of(&7u8),
        vec![pair(b"type", b"uint"), pair(b"min", &[0]), pair(b"max", &[255]), pair(b"default", &[7])]
    );
    assert_eq!(
        pairs_of(&0x1234u16),
        vec![
            pair(b"type", b"uint"),
            pair(b"min", &u16::MIN.to_le_bytes()),
            pair(b"max", &u16::MAX.to_le_bytes()),
            pair(b"default", &0x1234u16.to_le_bytes()),
        ]
    );
    assert_eq!(
        pairs_of(&0xDEAD_BEEFu32),
        vec![
            pair(b"type", b"uint"),
            pair(b"min", &u32::MIN.to_le_bytes()),
            pair(b"max", &u32::MAX.to_le_bytes()),
            pair(b"default", &0xDEAD_BEEFu32.to_le_bytes()),
        ]
    );
    assert_eq!(
        pairs_of(&u64::MAX),
        vec![
            pair(b"type", b"uint"),
            pair(b"min", &u64::MIN.to_le_bytes()),
            pair(b"max", &u64::MAX.to_le_bytes()),
            pair(b"default", &u64::MAX.to_le_bytes()),
        ]
    );
    assert_eq!(
        pairs_of(&(1u128 << 100)),
        vec![
            pair(b"type", b"uint"),
            pair(b"min", &u128::MIN.to_le_bytes()),
            pair(b"max", &u128::MAX.to_le_bytes()),
            pair(b"default", &(1u128 << 100).to_le_bytes()),
        ]
    );
    assert_eq!(
        pairs_of(&77usize),
        vec![
            pair(b"type", b"uint"),
            pair(b"min", &usize::MIN.to_le_bytes()),
            pair(b"max", &usize::MAX.to_le_bytes()),
            pair(b"default", &77usize.to_le_bytes()),
        ]
    );
}

#[test]
fn signed_schemas_are_twos_complements() {
    assert_eq!(
        pairs_of(&-2i8),
        vec![pair(b"type", b"int"), pair(b"min", &[0x80]), pair(b"max", &[0x7F]), pair(b"default", &[0xFE])]
    );
    assert_eq!(
        pairs_of(&-300i16),
        vec![
            pair(b"type", b"int"),
            pair(b"min", &i16::MIN.to_le_bytes()),
            pair(b"max", &i16::MAX.to_le_bytes()),
            pair(b"default", &(-300i16).to_le_bytes()),
        ]
    );
    assert_eq!(
        pairs_of(&i32::MIN),
        vec![
            pair(b"type", b"int"),
            pair(b"min", &i32::MIN.to_le_bytes()),
            pair(b"max", &i32::MAX.to_le_bytes()),
            pair(b"default", &i32::MIN.to_le_bytes()),
        ]
    );
    assert_eq!(
        pairs_of(&12345i64),
        vec![
            pair(b"type", b"int"),
            pair(b"min", &i64::MIN.to_le_bytes()),
            pair(b"max", &i64::MAX.to_le_bytes()),
            pair(b"default", &12345i64.to_le_bytes()),
        ]
    );
    assert_eq!(
        pairs_of(&-1i128),
        vec![
            pair(b"type", b"int"),
            pair(b"min", &i128::MIN.to_le_bytes()),
            pair(b"max", &i128::MAX.to_le_bytes()),
            pair(b"default", &(-1i128).to_le_bytes()),
        ]
    );
    assert_eq!(
        pairs_of(&-9isize),
        vec![
            pair(b"type", b"int"),
            pair(b"min", &isize::MIN.to_le_bytes()),
            pair(b"max", &isize::MAX.to_le_bytes()),
            pair(b"default", &(-9isize).to_le_bytes()),
        ]
    );
}

#[test]
fn numbers_sent_are_the_numbers_read() {
    let mut body = Rpc::new();
    (-300i16).send_schema(&mut body);
    let stream = lart::rpc::cmd(true, b"PARM", &body);
    let cmds = parse_cmds(&stream);
    let (_, kv) = cmds[0].as_ref().unwrap();
    assert_eq!(get_str(kv, b"type"), Ok("int".to_string()));
    assert_eq!(get_int(kv, b"default"), Ok(-300));
    assert_eq!(get_int(kv, b"min"), Ok(-32768));
    assert_eq!(get_int(kv, b"max"), Ok(32767));

    let mut body = Rpc::new();
    40_000u16.send_schema(&mut body);
    let stream = lart::rpc::cmd(true, b"PARM", &body);
    let cmds = parse_cmds(&stream);
    let (_, kv) = cmds[0].as_ref().unwrap();
    assert_eq!(get_uint(kv, b"default"), Ok(40_000));
    assert_eq!(get_uint(kv, b"max"), Ok(65535));
}

#[test]
fn vpype_reads_runs_and_writes() {
    let v = Vpype::new(&["linemerge", "linesort", "--no-flip"]);
    assert_eq!(
        v.args("/tmp/a.svg"),
        strings(&["-v", "read", "/tmp/a.svg", "linemerge", "linesort", "--no-flip", "write", "/tmp/a.svg"])
    );
    let none = Vpype::new(&[]);
    assert_eq!(none.args("x"), strings(&["-v", "read", "x", "write", "x"]));
}
