use kvs::engines::{removal_outcome, stored_text};
use kvs::request::lines_to_follow;
use kvs::response::{error_reply, from_reader, get_reply, update_reply};
use kvs::{KvStore, KvsEngine, KvsError, KvsServer, LineReader, Request};

fn line(s: &str) -> String {
    s.to_string()
}

fn read_request(bytes: &[u8]) -> Result<Request, KvsError> {
    Request::from_reader(&mut LineReader::new(bytes))
}

fn read_response(bytes: &[u8]) -> Result<Option<String>, KvsError> {
    from_reader(&mut LineReader::new(bytes))
}

fn malformed(message: &str) -> Result<Request, KvsError> {
    Err(KvsError::Protocol(message.to_string()))
}

#[test]
fn get_set_get_over_the_wire() {
    let mut server = KvsServer::new(KvStore::open(Vec::new()).unwrap());
    assert_eq!(server.serve(b"?\r\nmissing\r\n"), b"-1\r\n".to_vec());
    assert_eq!(server.serve(b"+\r\na\r\nb\r\n"), b"OK".to_vec());
    assert_eq!(server.serve(b"?\r\na\r\n"), b"b\r\n".to_vec());
}

#[test]
fn server_removes_keys() {
    let mut server = KvsServer::new(KvStore::open(Vec::new()).unwrap());
    assert_eq!(server.serve(b"-\r\na\r\n"), b"!Key not found\r\n".to_vec());
    assert_eq!(server.serve(b"+\r\na\r\nb\r\n"), b"OK".to_vec());
    assert_eq!(server.serve(b"-\r\na\r\n"), b"OK".to_vec());
    assert_eq!(server.serve(b"?\r\na\r\n"), b"-1\r\n".to_vec());
    let store = server.into_engine();
    assert_eq!(KvsEngine::get(&store, line("a")), Ok(None));
}

#[test]
fn server_reports_errors() {
    let mut server = KvsServer::new(KvStore::open(Vec::new()).unwrap());
    assert_eq!(server.serve(b""), b"!Malformed request\r\n".to_vec());
    assert_eq!(server.serve(b"*\r\na\r\n"), b"!Illegal server command\r\n".to_vec());
    assert_eq!(server.serve(b"?\r\n"), b"!Malformed get request\r\n".to_vec());
    assert_eq!(server.serve(b"+\r\na\r\n"), b"!Malformed set request\r\n".to_vec());
    assert_eq!(server.serve(b"-\r\n"), b"!Malformed remove request\r\n".to_vec());
    assert_eq!(server.serve(b"+\r\n\r\nb\r\n"), b"!Invalid argument\r\n".to_vec());
    assert_eq!(server.serve(b"+\r\na\r\n\r\n"), b"!Invalid argument\r\n".to_vec());
}

#[test]
fn engine_trait_of_the_store() {
    let mut store = KvStore::open(Vec::new()).unwrap();
    assert_eq!(KvsEngine::set(&mut store, line("k"), line("v")), Ok(()));
    assert_eq!(KvsEngine::get(&store, line("k")), Ok(Some(line("v"))));
    assert_eq!(KvsEngine::remove(&mut store, line("k")), Ok(()));
    assert_eq!(KvsEngine::remove(&mut store, line("k")), Err(KvsError::KeyNotFound));
}

#[test]
fn requests_are_read() {
    assert_eq!(read_request(b"?\r\nkey\r\n"), Ok(Request::Get { key: line("key") }));
    assert_eq!(
        read_request(b"+\r\nkey\r\nvalue\r\n"),
        Ok(Request::Put { key: line("key"), value: line("value") })
    );
    assert_eq!(read_request(b"-\r\nkey\r\n"), Ok(Request::Remove { key: line("key") }));
}

#[test]
fn line_endings() {
    assert_eq!(read_request(b"?\nkey\n"), Ok(Request::Get { key: line("key") }));
    assert_eq!(read_request(b"?\r\nkey"), Ok(Request::Get { key: line("key") }));
    assert_eq!(read_request(b"?\r\nkey\r"), Ok(Request::Get { key: line("key\r") }));
    assert_eq!(read_request(b"?\r\n\r\n"), Ok(Request::Get { key: line("") }));
    assert_eq!(read_request(b"?\r\nk\ry\r\n"), Ok(Request::Get { key: line("k\ry") }));
    assert_eq!(
        read_request(b"+\r\nk\r\nv\r\nmore\r\n"),
        Ok(Request::Put { key: line("k"), value: line("v") })
    );
}

#[test]
fn malformed_requests() {
    assert_eq!(read_request(b""), malformed("Malformed request"));
    assert_eq!(read_request(b"?"), malformed("Malformed get request"));
    assert_eq!(read_request(b"?\r\n"), malformed("Malformed get request"));
    assert_eq!(read_request(b"+\r\n"), malformed("Malformed set request"));
    assert_eq!(read_request(b"+\r\nkey\r\n"), malformed("Malformed set request"));
    assert_eq!(read_request(b"-\r\n"), malformed("Malformed remove request"));
    assert_eq!(read_request(b"get\r\nkey\r\n"), malformed("Illegal server command"));
    assert_eq!(read_request(b"\r\n"), malformed("Illegal server command"));
    assert_eq!(read_request(b"??\r\nkey\r\n"), malformed("Illegal server command"));
}

#[test]
fn requests_that_are_not_text() {
    let message = "stream did not contain valid UTF-8";
    assert_eq!(read_request(b"\xff\r\nkey\r\n"), malformed(message));
    assert_eq!(read_request(b"?\r\n\xc3\r\n"), malformed(message));
    assert_eq!(read_request(b"+\r\nkey\r\n\xff\xfe\r\n"), malformed(message));
    assert_eq!(read_request(b"+\r\n\xff\r\nvalue\r\n"), malformed(message));
    assert_eq!(read_request(b"+\r\n\xff\r\n"), malformed("Malformed set request"));
}

#[test]
fn reader_stands_behind_the_request() {
    let bytes = b"?\r\nkey\r\n-\r\nother\r\n";
    let mut reader = LineReader::new(bytes);
    assert_eq!(Request::from_reader(&mut reader), Ok(Request::Get { key: line("key") }));
    assert_eq!(Request::from_reader(&mut reader), Ok(Request::Remove { key: line("other") }));
    assert_eq!(Request::from_reader(&mut reader), malformed("Malformed request"));
}

#[test]
fn lines_are_read_one_by_one() {
    let mut reader = LineReader::new(b"one\r\ntwo\n\nlast");
    assert_eq!(reader.next_line(), Some(Ok(line("one"))));
    assert_eq!(reader.next_line(), Some(Ok(line("two"))));
    assert_eq!(reader.next_line(), Some(Ok(line(""))));
    assert_eq!(reader.next_line(), Some(Ok(line("last"))));
    assert_eq!(reader.next_line(), None);
    assert_eq!(reader.next_line(), None);
}

#[test]
fn requests_on_the_wire() {
    assert_eq!(Request::Get { key: line("k") }.to_bytes(), b"?\r\nk\r\n".to_vec());
    assert_eq!(
        Request::Put { key: line("k"), value: line("v") }.to_bytes(),
        b"+\r\nk\r\nv\r\n".to_vec()
    );
    assert_eq!(Request::Remove { key: line("k") }.to_bytes(), b"-\r\nk\r\n".to_vec());
    let request = Request::Put { key: line("schlüssel"), value: line("wert 1") };
    assert_eq!(read_request(&request.to_bytes()), Ok(request));
}

#[test]
fn responses_are_read() {
    assert_eq!(read_response(b"value\r\n"), Ok(Some(line("value"))));
    assert_eq!(read_response(b"-1\r\n"), Ok(None));
    assert_eq!(read_response(b"OK"), Ok(Some(line("OK"))));
    assert_eq!(read_response(b"\r\n"), Ok(Some(line(""))));
    assert_eq!(read_response(b"-10\r\n"), Ok(Some(line("-10"))));
    assert_eq!(
        read_response(b"!Key not found\r\n"),
        Err(KvsError::Protocol(line("!Key not found")))
    );
    assert_eq!(read_response(b""), Err(KvsError::Protocol(line("Malformed response"))));
    assert_eq!(
        read_response(b"\xff\r\n"),
        Err(KvsError::Protocol(line("stream did not contain valid UTF-8")))
    );
}

#[test]
fn replies_on_the_wire() {
    assert_eq!(get_reply(&Ok(Some(line("v")))), b"v\r\n".to_vec());
    assert_eq!(get_reply(&Ok(None)), b"-1\r\n".to_vec());
    assert_eq!(get_reply(&Err(KvsError::CorruptRecord)), b"!Corrupt record\r\n".to_vec());
    assert_eq!(update_reply(&Ok(())), b"OK".to_vec());
    assert_eq!(update_reply(&Err(KvsError::KeyNotFound)), b"!Key not found\r\n".to_vec());
    assert_eq!(error_reply(&KvsError::Io(line("broken pipe"))), b"!broken pipe\r\n".to_vec());
}

#[test]
fn outcomes_of_a_backend() {
    assert_eq!(stored_text(None), Ok(None));
    assert_eq!(stored_text(Some(b"text".to_vec())), Ok(Some(line("text"))));
    assert_eq!(stored_text(Some(vec![0xff])), Err(KvsError::CorruptRecord));
    assert_eq!(removal_outcome(Some(Vec::new())), Ok(()));
    assert_eq!(removal_outcome(None), Err(KvsError::KeyNotFound));
}

#[test]
fn lines_behind_the_first_line_of_a_request() {
    assert_eq!(lines_to_follow(b"?\r\n"), 1);
    assert_eq!(lines_to_follow(b"+\r\n"), 2);
    assert_eq!(lines_to_follow(b"-\r\n"), 1);
    assert_eq!(lines_to_follow(b"-\n"), 1);
    assert_eq!(lines_to_follow(b"+"), 2);
    assert_eq!(lines_to_follow(b""), 0);
    assert_eq!(lines_to_follow(b"\r\n"), 0);
    assert_eq!(lines_to_follow(b"get\r\n"), 0);
    assert_eq!(lines_to_follow(b"\xff\r\n"), 0);
}
