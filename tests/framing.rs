use lsm_store::command::parse_command;
use lsm_store::config::{get_config_file_path, parse_args};
use lsm_store::event::EventRes;
use lsm_store::protocol::{
    encode_request, encode_response, read_request, read_response, Framer, Request, Response,
};

#[test]
fn split_request_reads_as_whole() {
    let whole: Vec<u8> = vec![0xc2, 0, 2, b'k', b'y', 0, 3, b'v', b'a', b'l'];
    for cut in 0..=whole.len() {
        let mut f = Framer::new();
        f.push(&whole[..cut]);
        if cut < whole.len() {
            assert!(matches!(f.next_request(), Ok(None)));
        }
        f.push(&whole[cut..]);
        match f.next_request() {
            Ok(Some(Request::Put { key, value })) => {
                assert_eq!(key, b"ky".to_vec());
                assert_eq!(value, Some(b"val".to_vec()));
            }
            _ => panic!("frame not read at cut {}", cut),
        }
        assert!(matches!(f.next_request(), Ok(None)));
    }
}

#[test]
fn opcode_alone_then_rest() {
    let mut f = Framer::new();
    f.push(&[0xc1]);
    assert!(matches!(f.next_request(), Ok(None)));
    f.push(&[0, 1, b'z']);
    assert!(matches!(f.next_request(), Ok(Some(Request::Get { ref key })) if *key == vec![b'z']));
}

#[test]
fn get_with_empty_key() {
    let mut f = Framer::new();
    f.push(&[0xc1, 0, 0]);
    assert!(matches!(f.next_request(), Ok(Some(Request::Get { ref key })) if key.is_empty()));
}

#[test]
fn tombstone_request() {
    let r = read_request(&[0xc2, 0, 1, b'k', 0xff, 0xff, 9]);
    assert!(matches!(r, Ok(Some((Request::Put { value: None, .. }, 6)))));
}

#[test]
fn key_length_high_bit_is_ignored() {
    let r = read_request(&[0xc1, 0x80, 1, b'k']);
    assert!(matches!(r, Ok(Some((Request::Get { ref key }, 4))) if *key == vec![b'k']));
}

#[test]
fn unknown_opcode_is_an_error() {
    let mut f = Framer::new();
    f.push(&[0x10, 0, 0]);
    assert_eq!(f.next_request().err(), Some(0x10));
    assert_eq!(read_request(&[0x81]).err(), Some(0x81));
    assert_eq!(read_response(&[0xc1]).err(), Some(0xc1));
}

#[test]
fn request_encoding_round_trip() {
    let req = Request::Put { key: b"foo".to_vec(), value: Some(b"bar".to_vec()) };
    let bytes = encode_request(&req);
    assert_eq!(bytes, vec![0xc2, 0, 3, b'f', b'o', b'o', 0, 3, b'b', b'a', b'r']);
    let back = read_request(&bytes);
    assert!(matches!(back, Ok(Some((Request::Put { ref key, value: Some(ref v) }, 11))) if *key == b"foo".to_vec() && *v == b"bar".to_vec()));
    let del = encode_request(&Request::Put { key: b"k".to_vec(), value: None });
    assert_eq!(del, vec![0xc2, 0, 1, b'k', 0xff, 0xff]);
    let get = encode_request(&Request::Get { key: b"k".to_vec() });
    assert_eq!(get, vec![0xc1, 0, 1, b'k']);
}

#[test]
fn response_frames() {
    let ack = encode_response(&EventRes::SET { id: "c".to_string() });
    assert_eq!(ack, vec![0x82]);
    let absent = encode_response(&EventRes::GET { id: "c".to_string(), value: None });
    assert_eq!(absent, vec![0x81, 0xff, 0xff]);
    assert!(matches!(read_response(&absent), Ok(Some((Response::Value { value: None }, 3)))));
    assert!(matches!(read_response(&ack), Ok(Some((Response::Ack, 1)))));
    let full = vec![0x81, 0, 2, b'h', b'i', 0x82];
    assert!(matches!(read_response(&full), Ok(Some((Response::Value { value: Some(ref v) }, 5))) if *v == b"hi".to_vec()));
    assert!(matches!(read_response(&full[..4]), Ok(None)));
    assert!(matches!(read_response(&[]), Ok(None)));
}

fn strings(v: &[&str]) -> Vec<String> {
    v.iter().map(|s| s.to_string()).collect()
}

#[test]
fn config_path_from_flags() {
    let default = "./server_config.toml".to_string();
    let args = strings(&["server", "-f", "a.toml", "--config-file", "b.toml"]);
    assert_eq!(get_config_file_path(&parse_args(&args), &default), "a.toml");
    let args = strings(&["server", "--config-file", "b.toml"]);
    assert_eq!(get_config_file_path(&parse_args(&args), &default), "b.toml");
    let args = strings(&["server", "-f", "a.toml", "-f", "c.toml"]);
    assert_eq!(get_config_file_path(&parse_args(&args), &default), "c.toml");
    let args = strings(&["server", "--", "-f", "a.toml"]);
    assert_eq!(get_config_file_path(&parse_args(&args), &default), default);
    let args = strings(&["server", "-f", "-v"]);
    assert_eq!(get_config_file_path(&parse_args(&args), &default), default);
    assert_eq!(parse_args(&strings(&["x", "-a", "1", "b", "-c"])), vec![("-a".to_string(), "1".to_string())]);
}

#[test]
fn command_lines() {
    match parse_command(b"set foo bar\n") {
        Some(Request::Put { key, value }) => {
            assert_eq!(key, b"foo".to_vec());
            assert_eq!(value, Some(b"bar".to_vec()));
        }
        _ => panic!("set not parsed"),
    }
    match parse_command(b"get foo") {
        Some(Request::Get { key }) => assert_eq!(key, b"foo".to_vec()),
        _ => panic!("get not parsed"),
    }
    match parse_command(b"get  foo") {
        Some(Request::Get { key }) => assert!(key.is_empty()),
        _ => panic!("get with empty field not parsed"),
    }
    assert!(parse_command(b"get").is_none());
    assert!(parse_command(b"set k").is_none());
    assert!(parse_command(b"del k").is_none());
    assert!(parse_command(b"").is_none());
}
