use kvs::engine::KvStore;
use kvs::flags::is_valid_engine;
use kvs::protocol::Command;
use kvs::server::handle_request;

fn fresh_store() -> KvStore {
    KvStore::open(Vec::new(), 1024 * 1024).expect("open")
}

// One request-response exchange, through the same frames the sockets carry.
fn exchange(store: &mut KvStore, request: Command) -> Command {
    let request_frame = request.serialize();
    let decoded = Command::deserialize(&request_frame).expect("the client sent a valid frame");
    let reply = handle_request(store, decoded);
    if let Some(record) = &reply.record {
        assert!(!record.is_empty(), "a mutation always appends a record");
    }
    Command::deserialize(&reply.frame).expect("the server sent a valid frame")
}

// End to end: set "a" "alpha", then get "a" yields "alpha".
#[test]
fn set_then_get_over_the_wire() {
    let mut store = fresh_store();

    let resp = exchange(&mut store, Command::SetEntry("a".to_owned(), "alpha".to_owned()));
    assert_eq!(resp, Command::SetResponse);

    let resp = exchange(&mut store, Command::Get("a".to_owned()));
    assert_eq!(resp, Command::GetResponse("alpha".to_owned()));
}

// End to end: removing a missing key reports key-not-found.
#[test]
fn remove_missing_reports_not_found() {
    let mut store = fresh_store();
    let resp = exchange(&mut store, Command::Remove("missing".to_owned()));
    assert_eq!(resp, Command::Error("Key not found".to_owned()));
}

// A frame with an unrecognized tag fails to decode; the server answers with
// an `Error` and keeps serving later requests on the same store.
#[test]
fn unknown_tag_does_not_stop_the_server() {
    let mut store = fresh_store();

    let bad_frame = vec![5u8, 0, 0, 0, 42];
    let response = match Command::deserialize(&bad_frame) {
        Ok(request) => handle_request(&mut store, request).resp,
        Err(_) => Command::Error("error".to_owned()),
    };
    assert_eq!(response, Command::Error("error".to_owned()));

    // The store still serves subsequent requests.
    let resp = exchange(&mut store, Command::SetEntry("k".to_owned(), "v".to_owned()));
    assert_eq!(resp, Command::SetResponse);
    let resp = exchange(&mut store, Command::Get("k".to_owned()));
    assert_eq!(resp, Command::GetResponse("v".to_owned()));
}

// A request that is itself a response draws an error, not a crash.
#[test]
fn response_as_request_is_an_error() {
    let mut store = fresh_store();
    let resp = exchange(&mut store, Command::SetResponse);
    assert_eq!(resp, Command::Error("unsupported request".to_owned()));
    assert_eq!(store.get("a".to_owned()), None);
}

// Get on a missing key answers NotFound, distinct from an error.
#[test]
fn get_missing_is_not_found() {
    let mut store = fresh_store();
    let resp = exchange(&mut store, Command::Get("nope".to_owned()));
    assert_eq!(resp, Command::NotFound);
}

// Mutations served over the wire survive a reopen.
#[test]
fn served_mutations_are_durable() {
    let mut store = fresh_store();
    exchange(&mut store, Command::SetEntry("a".to_owned(), "1".to_owned()));
    exchange(&mut store, Command::SetEntry("a".to_owned(), "2".to_owned()));
    exchange(&mut store, Command::SetEntry("b".to_owned(), "3".to_owned()));
    exchange(&mut store, Command::Remove("b".to_owned()));

    let reopened = KvStore::open(store.snapshot(), 1024 * 1024).expect("reopen");
    assert_eq!(reopened.get("a".to_owned()), Some("2".to_owned()));
    assert_eq!(reopened.get("b".to_owned()), None);
}

#[test]
fn valid_engines_are_accepted() {
    assert_eq!(is_valid_engine("kvs".to_owned()), Ok(()));
    assert_eq!(is_valid_engine("sled".to_owned()), Ok(()));
}

#[test]
fn invalid_engine_is_rejected() {
    assert_eq!(
        is_valid_engine("postgres".to_owned()),
        Err("Only 'kvs' or 'sled' are supported engine types".to_owned())
    );
}
