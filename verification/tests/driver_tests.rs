use event_log_parser::events::parse_chunk;
use event_log_parser::references::References;

const RECORD_1: &str = "{20221212101530,N,\r\n{0,0},1,2,3,4,5,I,\"first\",6,\r\n{\"U\"},\"pres\",7,8,9,10,11,\r\n{0}\r\n}";
const RECORD_2: &str = "{20230228235959,C,\r\n{2439d0a97d0c0,35bd},0,1,0,77,3,E,\"second\",2,\r\n{\"S\",\"x,y\"},\"\",1,1,0,5,0,\r\n{1,{2}}\r\n}";
const MALFORMED: &str = "{20221212101530,Z,{0}}";

/// Runs the driver over `source`, reading at most `step` bytes at a time
/// into a buffer that starts with `size` bytes.
fn drive_events(source: &[u8], size: usize, step: usize) -> (Vec<String>, usize) {
    let mut buffer = vec![0u8; size];
    let mut offset = 0;
    let mut read = 0;
    let mut seen = Vec::new();
    loop {
        let len = step.min(buffer.len() - offset).min(source.len() - read);
        if len == 0 {
            break;
        }
        buffer[offset..offset + len].copy_from_slice(&source[read..read + len]);
        read += len;
        offset = parse_chunk(&mut buffer, offset + len, &mut |event| {
            seen.push(event.comment().into_owned())
        });
    }
    (seen, buffer.len())
}

fn drive_references(source: &[u8], size: usize, step: usize) -> References {
    let mut refs = References::default();
    let mut buffer = vec![0u8; size];
    let mut offset = 0;
    let mut read = 0;
    loop {
        let len = step.min(buffer.len() - offset).min(source.len() - read);
        if len == 0 {
            break;
        }
        buffer[offset..offset + len].copy_from_slice(&source[read..read + len]);
        read += len;
        offset = refs.parse_chunk(&mut buffer, offset + len);
    }
    refs
}

#[test]
fn chunk_keeps_what_the_pass_did_not_consume() {
    let text = format!("{},\r\n{}", RECORD_1, &RECORD_2[..30]);
    let mut buffer = text.clone().into_bytes();
    buffer.resize(200, 0);
    let mut seen = Vec::new();
    let offset = parse_chunk(&mut buffer, text.len(), &mut |event| {
        seen.push(event.comment().into_owned())
    });
    assert_eq!(seen, vec!["first".to_string()]);
    assert_eq!(offset, text.len() - RECORD_1.len());
    assert_eq!(&buffer[..offset], &text.as_bytes()[RECORD_1.len()..]);
    assert_eq!(buffer.len(), 200);
}

#[test]
fn full_chunk_without_a_complete_record_doubles_the_buffer() {
    let text = &RECORD_1[..40];
    let mut buffer = text.as_bytes().to_vec();
    let mut count = 0;
    let offset = parse_chunk(&mut buffer, text.len(), &mut |_| count += 1);
    assert_eq!(count, 0);
    assert_eq!(offset, 40);
    assert_eq!(buffer.len(), 80);
    assert_eq!(&buffer[..40], text.as_bytes());
    let offset = parse_chunk(&mut buffer, 40, &mut |_| count += 1);
    assert_eq!(count, 0);
    assert_eq!(offset, 40);
    assert_eq!(buffer.len(), 80);
}

#[test]
fn driver_decodes_the_same_whatever_the_chunks() {
    let text = format!(
        "{},\r\n{},\r\n{},\r\n{},\r\n{},\r\n",
        RECORD_1, RECORD_2, MALFORMED, RECORD_2, RECORD_1
    );
    let expected: Vec<String> =
        ["first", "second", "second", "first"].iter().map(|s| s.to_string()).collect();
    for size in [1, 7, 64, 1000] {
        for step in [1, 3, 50, 1000] {
            let (seen, grown) = drive_events(text.as_bytes(), size, step);
            assert_eq!(seen, expected, "size {} step {}", size, step);
            assert!(grown >= size);
        }
    }
}

#[test]
fn driver_grows_the_buffer_until_a_record_fits() {
    for step in [1, 8, 1000] {
        let (seen, grown) = drive_events(format!("{},", RECORD_1).as_bytes(), 8, step);
        assert_eq!(seen, vec!["first".to_string()]);
        assert_eq!(grown, 128);
    }
}

#[test]
fn driver_fills_the_same_tables_whatever_the_chunks() {
    let text = [
        "{1,d303f30c-9e76-412f-95d2-3c3622e6b6e1,\"user\",2},\r\n",
        "{2,\"computer\",1},\r\n",
        "{2,broken,1},\r\n",
        "{7,1541,3},\r\n",
        "{9,a1a2a3a4-b1b2-c1c2-d1d2-d3d4d5d6d7d8,\"separator\",0},\r\n",
        "{10,{1},0,1},\r\n",
        "{4,\"event \"\"x\"\"\",1},\r\n",
    ]
    .concat();
    for size in [1, 16, 1000] {
        for step in [1, 5, 1000] {
            let refs = drive_references(text.as_bytes(), size, step);
            assert_eq!(refs.users().len(), 3);
            assert_eq!(refs.users()[2].name(), "user");
            assert_eq!(refs.users()[2].id(), 0xd303f30c9e76412f95d23c3622e6b6e1u128);
            assert_eq!(refs.computers(), ["".to_string(), "computer".to_string()]);
            assert_eq!(refs.ports(), [0, 0, 0, 1541]);
            assert_eq!(refs.events(), ["".to_string(), "event \"x\"".to_string()]);
            assert_eq!(
                refs.data_separation()[0].values(),
                ["".to_string(), "{1}".to_string()]
            );
        }
    }
}
