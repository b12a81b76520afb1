use rdkv::simple::try_parse;
use rdkv::simple::Command;

#[test]
fn test_parse_set() {
    let buff = &mut vec![
        1u8, // cmd = SET
        0, 3, // key_len = 3
        0, 0, 0, 5, // val_len = 5
        b'k', b'e', b'y', // key = "key"
        b'v', b'a', b'l', b'u', b'e', // value = "value"
    ];
    let command = try_parse(buff).unwrap();
    match command {
        Command::Put(key, value) => {
            assert_eq!(&key[..], b"key");
            assert_eq!(&value[..], b"value");
        }
        _ => panic!("Expected SET command"),
    }
}

#[test]
fn test_parse_get() {
    let buff = &mut vec![2u8, 0, 3, b'k', b'e', b'y'];
    let command = try_parse(buff).unwrap();
    match command {
        Command::Get(key) => assert_eq!(&key[..], b"key"),
        _ => panic!("Expected GEt"),
    }
}

#[test]
fn test_parse_set_incomplete_consumes_nothing() {
    let buff = &mut vec![1u8, 0, 3, 0, 0, 0, 5, b'k', b'e'];
    assert!(try_parse(buff).is_none());
    assert_eq!(buff.len(), 9);
}

#[test]
fn test_parse_unknown_opcode_discards_buffer() {
    let buff = &mut vec![9u8, 1, 2, 3];
    assert!(try_parse(buff).is_none());
    assert!(buff.is_empty());
}
