use lart::rpc::{
    cmd, get_int, get_str, get_uint, parse_cmds, usize_to_u64, KvCmd, Rpc, RpcError,
    CMD_END_TAG, CMD_START_TAG, DATA_TAG,
};

fn frame(tag: u8, d: &[u8]) -> Vec<u8> {
    let mut out = vec![tag];
    out.extend_from_slice(&(d.len() as u64).to_le_bytes());
    out.extend_from_slice(d);
    out
}

fn command(name: &[u8], pairs: &[(&[u8], &[u8])]) -> Vec<u8> {
    let mut body = Rpc::new();
    for (k, v) in pairs {
        body.kv(k, v);
    }
    cmd(true, name, &body)
}

#[test]
fn tags_are_the_three_bytes_of_the_protocol() {
    assert_eq!((CMD_START_TAG, CMD_END_TAG, DATA_TAG), (0xFF, 0x00, 0x0F));
}

#[test]
fn usize_to_u64_keeps_the_number() {
    assert_eq!(usize_to_u64(0), 0);
    assert_eq!(usize_to_u64(258), 258);
    assert_eq!(usize_to_u64(usize::MAX), usize::MAX as u64);
}

#[test]
fn data_writes_tag_length_and_payload() {
    let mut rpc = Rpc::new();
    assert_eq!(rpc.bytes(), &[][..]);
    rpc.data(0x0F, b"abc");
    assert_eq!(rpc.bytes(), &[0x0F, 3, 0, 0, 0, 0, 0, 0, 0, b'a', b'b', b'c'][..]);
    rpc.data(0x00, b"");
    assert_eq!(
        rpc.bytes(),
        &[0x0F, 3, 0, 0, 0, 0, 0, 0, 0, b'a', b'b', b'c', 0, 0, 0, 0, 0, 0, 0, 0, 0][..]
    );
}

#[test]
fn data_writes_a_long_length_in_little_endian() {
    let payload = vec![7u8; 0x1_02_03];
    let mut rpc = Rpc::new();
    rpc.data(0xFF, &payload);
    assert_eq!(&rpc.bytes()[..9], &[0xFF, 0x03, 0x02, 0x01, 0, 0, 0, 0, 0][..]);
    assert_eq!(&rpc.bytes()[9..], &payload[..]);
}

#[test]
fn kv_writes_two_data_frames() {
    let mut rpc = Rpc::new();
    rpc.kv(b"name", b"lines");
    let mut want = frame(DATA_TAG, b"name");
    want.extend(frame(DATA_TAG, b"lines"));
    assert_eq!(rpc.bytes(), &want[..]);
}

#[test]
fn cmd_wraps_the_body_in_start_and_end() {
    let mut body = Rpc::new();
    body.kv(b"path", b"/tmp/a.svg");
    let mut want = frame(CMD_START_TAG, b"SVG");
    want.extend(frame(DATA_TAG, b"path"));
    want.extend(frame(DATA_TAG, b"/tmp/a.svg"));
    want.extend(frame(CMD_END_TAG, b""));
    assert_eq!(cmd(true, b"SVG", &body), want);
    assert_eq!(cmd(false, b"SVG", &body), Vec::<u8>::new());
}

#[test]
fn parse_reads_back_what_was_written() {
    let mut stream = command(b"PARM", &[(b"name", b"lines"), (b"type", b"uint")]);
    stream.extend(command(b"SVG", &[(b"path", b"/tmp/a.svg")]));
    stream.extend(command(b"EMPTY", &[]));
    let cmds = parse_cmds(&stream);
    assert_eq!(cmds.len(), 3);
    let (name, kv) = cmds[0].as_ref().unwrap();
    assert_eq!(*name, b"PARM");
    assert_eq!(kv.get(b"name"), Some(&b"lines"[..]));
    assert_eq!(kv.get(b"type"), Some(&b"uint"[..]));
    assert_eq!(kv.get(b"path"), None);
    let (name, kv) = cmds[1].as_ref().unwrap();
    assert_eq!(*name, b"SVG");
    assert_eq!(kv.get(b"path"), Some(&b"/tmp/a.svg"[..]));
    let (name, kv) = cmds[2].as_ref().unwrap();
    assert_eq!(*name, b"EMPTY");
    assert_eq!(kv.get(b"path"), None);
}

#[test]
fn parse_of_nothing_is_nothing() {
    assert!(parse_cmds(b"").is_empty());
}

#[test]
fn parse_reports_a_wrong_tag_and_stops() {
    let mut stream = command(b"A", &[]);
    stream.extend([0x0Fu8, 1, 0, 0, 0, 0, 0, 0, 0, b'x', 0]);
    stream.extend(command(b"B", &[]));
    let cmds = parse_cmds(&stream);
    assert_eq!(cmds.len(), 2);
    assert!(cmds[0].is_ok());
    assert_eq!(cmds[1].as_ref().unwrap_err(), &RpcError::TagMismatch { expected: 0xFF });
}

#[test]
fn parse_reports_a_wrong_tag_among_the_pairs() {
    let mut stream = frame(CMD_START_TAG, b"A");
    stream.extend(frame(CMD_START_TAG, b"k"));
    stream.extend(frame(CMD_END_TAG, b""));
    let cmds = parse_cmds(&stream);
    assert_eq!(cmds.len(), 1);
    assert_eq!(cmds[0].as_ref().unwrap_err(), &RpcError::TagMismatch { expected: 0x0F });
}

#[test]
fn parse_reports_truncated_streams() {
    let whole = command(b"PARM", &[(b"name", b"lines")]);
    // The end frame is nine bytes of which only the tag is looked at.
    for cut in 1..whole.len() - 8 {
        let cmds = parse_cmds(&whole[..cut]);
        assert_eq!(cmds.len(), 1, "cut at {cut}");
        assert_eq!(cmds[0].as_ref().unwrap_err(), &RpcError::Truncated, "cut at {cut}");
    }
    for cut in whole.len() - 8..=whole.len() {
        let cmds = parse_cmds(&whole[..cut]);
        assert_eq!(cmds.len(), 1, "cut at {cut}");
        assert!(cmds[0].is_ok(), "cut at {cut}");
    }
}

#[test]
fn parse_wants_a_byte_after_each_frame() {
    let stream = frame(CMD_START_TAG, b"A");
    let cmds = parse_cmds(&stream);
    assert_eq!(cmds.len(), 1);
    assert_eq!(cmds[0].as_ref().unwrap_err(), &RpcError::Truncated);
}

#[test]
fn parse_refuses_a_length_beyond_the_stream() {
    let mut stream = vec![0xFFu8];
    stream.extend_from_slice(&u64::MAX.to_le_bytes());
    stream.extend_from_slice(b"abc");
    let cmds = parse_cmds(&stream);
    assert_eq!(cmds.len(), 1);
    assert_eq!(cmds[0].as_ref().unwrap_err(), &RpcError::Truncated);
}

#[test]
fn later_pair_replaces_earlier_one() {
    let stream = command(b"C", &[(b"k", b"1"), (b"j", b"2"), (b"k", b"3")]);
    let cmds = parse_cmds(&stream);
    let (_, kv) = cmds[0].as_ref().unwrap();
    assert_eq!(kv.get(b"k"), Some(&b"3"[..]));
    assert_eq!(kv.get(b"j"), Some(&b"2"[..]));
}

#[test]
fn kv_insert_and_get() {
    let mut kv = KvCmd::new();
    assert_eq!(kv.get(b"a"), None);
    kv.insert(b"a", b"x");
    kv.insert(b"b", b"y");
    kv.insert(b"a", b"z");
    assert_eq!(kv.get(b"a"), Some(&b"z"[..]));
    assert_eq!(kv.get(b"b"), Some(&b"y"[..]));
    assert_eq!(kv.get(b""), None);
}

#[test]
fn get_str_reads_utf8() {
    let mut kv = KvCmd::new();
    kv.insert(b"name", "caf\u{e9} \u{1F600}".as_bytes());
    kv.insert(b"bad", &[0x66, 0xFF, 0x6F]);
    kv.insert(b"empty", b"");
    assert_eq!(get_str(&kv, b"name"), Ok("caf\u{e9} \u{1F600}".to_string()));
    assert_eq!(get_str(&kv, b"empty"), Ok(String::new()));
    assert_eq!(get_str(&kv, b"bad"), Err(RpcError::InvalidUtf8));
    assert_eq!(get_str(&kv, b"none"), Err(RpcError::NotFound));
}

#[test]
fn get_uint_reads_little_endian() {
    let mut kv = KvCmd::new();
    kv.insert(b"empty", b"");
    kv.insert(b"one", &[0xFF]);
    kv.insert(b"two", &[0x34, 0x12]);
    kv.insert(b"eight", &[0xEF, 0xCD, 0xAB, 0x89, 0x67, 0x45, 0x23, 0x01]);
    kv.insert(b"max", &[0xFF; 8]);
    kv.insert(b"nine", &[0; 9]);
    assert_eq!(get_uint(&kv, b"empty"), Ok(0));
    assert_eq!(get_uint(&kv, b"one"), Ok(255));
    assert_eq!(get_uint(&kv, b"two"), Ok(0x1234));
    assert_eq!(get_uint(&kv, b"eight"), Ok(0x0123_4567_89AB_CDEF));
    assert_eq!(get_uint(&kv, b"max"), Ok(u64::MAX));
    assert_eq!(get_uint(&kv, b"nine"), Err(RpcError::InvalidNumber));
    assert_eq!(get_uint(&kv, b"none"), Err(RpcError::NotFound));
}

#[test]
fn get_int_extends_the_sign() {
    let mut kv = KvCmd::new();
    kv.insert(b"empty", b"");
    kv.insert(b"m1", &[0xFF]);
    kv.insert(b"p127", &[0x7F]);
    kv.insert(b"m128", &[0x80]);
    kv.insert(b"i16min", &[0x00, 0x80]);
    kv.insert(b"p255", &[0xFF, 0x00]);
    let (m2, min, max, m1) =
        ((-2i32).to_le_bytes(), i64::MIN.to_le_bytes(), i64::MAX.to_le_bytes(), (-1i64).to_le_bytes());
    kv.insert(b"m2_32", &m2);
    kv.insert(b"seven", &[0, 0, 0, 0, 0, 0, 0x80]);
    kv.insert(b"i64min", &min);
    kv.insert(b"i64max", &max);
    kv.insert(b"m1_64", &m1);
    kv.insert(b"nine", &[0; 9]);
    assert_eq!(get_int(&kv, b"empty"), Ok(0));
    assert_eq!(get_int(&kv, b"m1"), Ok(-1));
    assert_eq!(get_int(&kv, b"p127"), Ok(127));
    assert_eq!(get_int(&kv, b"m128"), Ok(-128));
    assert_eq!(get_int(&kv, b"i16min"), Ok(-32768));
    assert_eq!(get_int(&kv, b"p255"), Ok(255));
    assert_eq!(get_int(&kv, b"m2_32"), Ok(-2));
    assert_eq!(get_int(&kv, b"seven"), Ok(-(1i64 << 55)));
    assert_eq!(get_int(&kv, b"i64min"), Ok(i64::MIN));
    assert_eq!(get_int(&kv, b"i64max"), Ok(i64::MAX));
    assert_eq!(get_int(&kv, b"m1_64"), Ok(-1));
    assert_eq!(get_int(&kv, b"nine"), Err(RpcError::InvalidNumber));
    assert_eq!(get_int(&kv, b"none"), Err(RpcError::NotFound));
}
