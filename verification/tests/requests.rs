use quicktag_cli::bytes::default_length;
use quicktag_cli::error::QueryError;
use quicktag_cli::page::{default_limit, Page};
use quicktag_cli::refs::Direction;
use quicktag_cli::reply::{exit_status, response};
use quicktag_cli::request::{Progress, RequestReader};
use quicktag_cli::session::{turn, Command, Turn};
use std::io::{BufRead, Cursor};

type Request = Option<Result<Vec<u8>, QueryError<String>>>;

fn read_request(reader: &mut impl BufRead) -> Request {
    let mut lines = RequestReader::new();
    loop {
        let (consumed, progress) = lines.read_request(reader.fill_buf().unwrap());
        reader.consume(consumed);
        match progress {
            Progress::More => {}
            Progress::End => return None,
            Progress::Request(request) => return Some(request),
        }
    }
}

fn all_requests(reader: &mut impl BufRead) -> Vec<Option<Vec<u8>>> {
    let mut requests = Vec::new();
    while let Some(request) = read_request(reader) {
        requests.push(request.ok());
    }
    requests
}

fn is_info(line: &[u8]) -> bool {
    let value: serde_json::Value = serde_json::from_slice(line).unwrap();
    value["op"] == "info"
}

#[test]
fn oversized_request_does_not_break_stream() {
    let input = format!("{}\n{{\"op\":\"info\"}}\n", "x".repeat(70000));
    let mut reader = Cursor::new(input);
    assert!(read_request(&mut reader).unwrap().is_err());
    assert!(is_info(&read_request(&mut reader).unwrap().unwrap()));
    assert!(read_request(&mut reader).is_none());
}

#[test]
fn longest_request_is_64_kib() {
    let longest = format!("{}\n", "x".repeat(65535));
    let mut reader = Cursor::new(longest.clone());
    assert_eq!(read_request(&mut reader).unwrap().unwrap(), longest.as_bytes());
    let mut reader = Cursor::new(format!("x{}", longest));
    let e = read_request(&mut reader).unwrap().unwrap_err();
    assert!(matches!(e, QueryError::RequestSize));
    assert_eq!(e.message(), "request exceeds 64 KiB");
}

#[test]
fn requests_do_not_depend_on_the_pieces() {
    let input = format!("ab\n\n{}\ncd\nlast", "y".repeat(65540));
    let whole = all_requests(&mut Cursor::new(input.clone()));
    assert_eq!(
        whole,
        vec![
            Some(b"ab\n".to_vec()),
            Some(b"\n".to_vec()),
            None,
            Some(b"cd\n".to_vec()),
            Some(b"last".to_vec()),
        ]
    );
    for size in [1, 2, 3, 7, 65536] {
        let mut reader = std::io::BufReader::with_capacity(size, Cursor::new(input.clone()));
        assert_eq!(all_requests(&mut reader), whole);
    }
}

#[test]
fn no_input_is_no_request() {
    assert!(read_request(&mut Cursor::new("")).is_none());
    assert_eq!(all_requests(&mut Cursor::new("\n")).len(), 1);
    assert_eq!(all_requests(&mut Cursor::new("a\nb\n")).len(), 2);
    assert_eq!(all_requests(&mut Cursor::new("a\nb")).len(), 2);
}

#[test]
fn responses_carry_answer_or_error() {
    let refused = response(Err(QueryError::Outside("test".to_string())));
    assert!(!refused.ok);
    assert_eq!(refused.schema_version, 1);
    assert!(refused.data.is_none());
    assert_eq!(refused.error.unwrap(), "test");
}

#[test]
fn each_request_gets_its_turn() {
    assert!(matches!(turn(None), Turn::Stop));
    assert!(matches!(turn(Some(Ok(Command::Info))), Turn::Run(Command::Info)));
    match turn(Some(Err(QueryError::RequestSize))) {
        Turn::Answer(r) => {
            assert!(!r.ok);
            assert_eq!(r.error.unwrap(), "request exceeds 64 KiB");
        }
        _ => panic!(),
    }
}

#[test]
fn exit_status_tells_of_failure() {
    assert_eq!(exit_status(&Ok(true)), 0);
    assert_eq!(exit_status(&Ok(false)), 1);
    assert_eq!(exit_status(&Err(QueryError::NestedServe)), 1);
}

#[test]
fn jsonl_defaults_and_errors() {
    let c = Command::Refs {
        hash: "00008080".to_string(),
        direction: Direction::default(),
        page: Page {
            limit: default_limit(),
            offset: usize::default(),
        },
    };
    assert!(matches!(
        c,
        Command::Refs {
            direction: Direction::Outgoing,
            page: Page {
                limit: 20,
                offset: 0
            },
            ..
        }
    ));
    assert_eq!(default_length(), 64);
    assert!(!response(Err(QueryError::Outside("test".to_string()))).ok);
}
