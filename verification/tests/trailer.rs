use shutton::config::{encode_config, parse_config_trailer, patch_config_bytes, trailer_length, Config};

fn sample() -> Config {
    Config {
        autoquit: true,
        width: 900,
        main_cmd: "ls".to_string(),
        var_values: vec![],
        description: "d".to_string(),
        active_fold: 1,
    }
}

fn same(a: &Config, b: &Config) -> bool {
    a.autoquit == b.autoquit
        && a.width == b.width
        && a.main_cmd == b.main_cmd
        && a.var_values == b.var_values
        && a.description == b.description
        && a.active_fold == b.active_fold
}

#[test]
fn encode_config_exact_bytes() {
    let mut expected = vec![0x6c, 0x73, 0x64, 2, 0, 0, 0, 1, 0, 0, 0, 2, 0, 0, 0, 0x84, 0x03, 0, 0, 1, 1];
    expected.extend_from_slice(b"SHUTTNC2");
    assert_eq!(encode_config(&sample()), expected);
}

#[test]
fn encode_config_negative_width_and_flags() {
    let mut c = sample();
    c.width = -1;
    c.autoquit = false;
    c.active_fold = 7;
    let bytes = encode_config(&c);
    let n = bytes.len();
    assert_eq!(&bytes[n - 14..n - 10], &[0xff, 0xff, 0xff, 0xff]);
    assert_eq!(bytes[n - 10], 7);
    assert_eq!(bytes[n - 9], 0);
}

#[test]
fn read_back_after_patch() {
    let c = Config {
        autoquit: false,
        width: -42,
        main_cmd: "cp %src %dst".to_string(),
        var_values: vec!["a b".to_string(), "ünïcødé".to_string(), String::new()],
        description: "copy things".to_string(),
        active_fold: 3,
    };
    let program = b"\x7fELF program bytes".to_vec();
    let patched = patch_config_bytes(program.clone(), &c);
    assert!(patched.starts_with(&program));
    let back = parse_config_trailer(&patched).expect("trailer");
    assert!(same(&back, &c));
}

#[test]
fn patch_twice_equals_patch_once() {
    let program = b"binary".to_vec();
    let mut c2 = sample();
    c2.main_cmd = "echo %x".to_string();
    c2.var_values = vec!["hello".to_string()];
    let once = patch_config_bytes(program.clone(), &c2);
    let twice = patch_config_bytes(patch_config_bytes(program.clone(), &sample()), &c2);
    assert_eq!(once, twice);
}

#[test]
fn trailer_length_of_plain_file_is_zero() {
    assert_eq!(trailer_length(b"just a program"), 0);
    assert_eq!(trailer_length(b""), 0);
}

#[test]
fn trailer_length_of_patched_file() {
    let enc = encode_config(&sample());
    let patched = patch_config_bytes(b"prog".to_vec(), &sample());
    assert_eq!(trailer_length(&patched), enc.len());
}

#[test]
fn parse_rejects_short_file() {
    assert!(parse_config_trailer(b"SHUTTNC2").is_none());
    let enc = encode_config(&sample());
    assert!(parse_config_trailer(&enc[enc.len() - 21..]).is_none());
}

#[test]
fn parse_rejects_bad_magic() {
    let mut enc = encode_config(&sample());
    let n = enc.len();
    enc[n - 1] = b'3';
    assert!(parse_config_trailer(&enc).is_none());
    assert_eq!(trailer_length(&enc), 0);
}

#[test]
fn parse_rejects_fewer_than_two_strings() {
    // one string "abc", then its length, count 1, width, fold, quit flag, magic
    let mut f = b"abc".to_vec();
    f.extend_from_slice(&[3, 0, 0, 0, 1, 0, 0, 0, 0, 0, 0, 0, 0, 0]);
    f.extend_from_slice(b"SHUTTNC2");
    let mut padded = b"padpadpad".to_vec();
    padded.extend_from_slice(&f);
    assert!(parse_config_trailer(&padded).is_none());
    // the trailer is still recognised for patching
    assert_eq!(trailer_length(&padded), f.len());
}

#[test]
fn parse_rejects_lengths_past_the_start() {
    let mut f = vec![b'x'; 10];
    f.extend_from_slice(&[200, 0, 0, 0, 1, 0, 0, 0, 2, 0, 0, 0, 0, 0, 0, 0, 0, 0]);
    f.extend_from_slice(b"SHUTTNC2");
    assert!(parse_config_trailer(&f).is_none());
    assert_eq!(trailer_length(&f), 0);
}

#[test]
fn parse_rejects_invalid_utf8() {
    let mut f = vec![0xff, b'a'];
    f.extend_from_slice(&[1, 0, 0, 0, 1, 0, 0, 0, 2, 0, 0, 0, 0, 0, 0, 0, 0, 0]);
    f.extend_from_slice(b"SHUTTNC2");
    assert!(parse_config_trailer(&f).is_none());
    assert_eq!(trailer_length(&f), f.len());
}

#[test]
fn parse_reads_flags() {
    let mut f = b"ab".to_vec();
    f.extend_from_slice(&[1, 0, 0, 0, 1, 0, 0, 0, 2, 0, 0, 0, 0xfe, 0xff, 0xff, 0xff, 9, 5]);
    f.extend_from_slice(b"SHUTTNC2");
    let c = parse_config_trailer(&f).expect("trailer");
    assert_eq!(c.main_cmd, "a");
    assert_eq!(c.description, "b");
    assert!(c.var_values.is_empty());
    assert_eq!(c.width, -2);
    assert_eq!(c.active_fold, 9);
    assert!(c.autoquit);
}
