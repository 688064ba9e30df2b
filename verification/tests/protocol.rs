use kvs::cli::{
    check_engine, engine_name, get_outcome, parse_engine, remove_outcome, request_of,
    set_outcome, Engine, SubCommand,
};
use kvs::client::{
    get_request, get_result, remove_request, remove_result, set_request, set_result,
};
use kvs::engine::KvsEngine;
use kvs::error::KvsError;
use kvs::log_dir::LogDir;
use kvs::protocol::{GetResponse, RemoveResponse, Request, Response, SetResponse};
use kvs::server::{
    get_response, read_store, remove_response, serve, serve_store, set_response,
};
use kvs::store::KvStore;

fn text(s: &str) -> String {
    s.to_string()
}

fn store() -> KvStore {
    KvStore::open(LogDir::new()).unwrap()
}

#[test]
fn server_and_client_agree_on_set_get_and_rm() {
    let mut engine = store();
    let request = request_of(SubCommand::Put { key: text("foo"), value: text("bar") });
    let response = serve(&mut engine, request);
    let outcome = set_outcome(set_result(Some(response)));
    assert_eq!((outcome.out, outcome.err, outcome.code), (None, None, 0));

    let response = serve(&mut engine, request_of(SubCommand::Get { key: text("foo") }));
    let outcome = get_outcome(get_result(Some(response)));
    assert_eq!((outcome.out, outcome.err, outcome.code), (Some(text("bar")), None, 0));

    let response = serve(&mut engine, request_of(SubCommand::Rm { key: text("foo") }));
    let outcome = remove_outcome(remove_result(Some(response)));
    assert_eq!((outcome.out, outcome.err, outcome.code), (None, None, 0));

    let response = serve(&mut engine, request_of(SubCommand::Get { key: text("foo") }));
    let outcome = get_outcome(get_result(Some(response)));
    assert_eq!((outcome.out, outcome.err, outcome.code), (Some(text("Key not found")), None, 0));

    let response = serve(&mut engine, request_of(SubCommand::Rm { key: text("foo") }));
    let outcome = remove_outcome(remove_result(Some(response)));
    assert_eq!((outcome.out, outcome.err, outcome.code), (None, Some(text("Key not found")), 1));
}

#[test]
fn server_goes_on_after_an_engine_error() {
    let mut engine = store();
    let response = serve(&mut engine, Request::Remove { key: text("k") });
    assert!(matches!(
        response,
        Response::Remove(RemoveResponse::Failed(ref message)) if message == "Key not found"
    ));
    let response = serve(&mut engine, Request::Put { key: text("k"), value: text("v") });
    assert!(matches!(response, Response::Put(SetResponse::Done(()))));
    let response = serve(&mut engine, Request::Get { key: text("k") });
    assert!(matches!(
        response,
        Response::Get(GetResponse::Done(Some(ref value))) if value == "v"
    ));
}

#[test]
fn engine_trait_of_the_store_sets_gets_and_removes() {
    fn exercise<E: KvsEngine>(engine: &mut E) {
        engine.set(text("k"), text("v1")).unwrap();
        engine.set(text("k"), text("v2")).unwrap();
        assert_eq!(engine.get(text("k")).unwrap(), Some(text("v2")));
        engine.remove(text("k")).unwrap();
        assert_eq!(engine.get(text("k")).unwrap(), None);
        assert!(matches!(engine.remove(text("k")), Err(KvsError::KeyNotFound)));
    }
    exercise(&mut store());
}

#[test]
fn responses_carry_the_result_of_the_engine() {
    assert!(matches!(set_response(Ok(())), SetResponse::Done(())));
    assert!(matches!(
        set_response(Err(KvsError::Io(text("disk full")))),
        SetResponse::Failed(ref message) if message == "disk full"
    ));
    assert!(matches!(get_response(Ok(None)), GetResponse::Done(None)));
    assert!(matches!(
        get_response(Ok(Some(text("v")))),
        GetResponse::Done(Some(ref value)) if value == "v"
    ));
    assert!(matches!(
        get_response(Err(KvsError::CorruptLog)),
        GetResponse::Failed(ref message) if message == "Corrupt log"
    ));
    assert!(matches!(remove_response(Ok(())), RemoveResponse::Done(())));
    assert!(matches!(
        remove_response(Err(KvsError::KeyNotFound)),
        RemoveResponse::Failed(ref message) if message == "Key not found"
    ));
}

#[test]
fn requests_name_what_the_client_asks() {
    assert!(matches!(get_request(text("k")), Request::Get { ref key } if key == "k"));
    assert!(matches!(
        set_request(text("k"), text("v")),
        Request::Put { ref key, ref value } if key == "k" && value == "v"
    ));
    assert!(matches!(remove_request(text("k")), Request::Remove { ref key } if key == "k"));
    assert!(matches!(
        request_of(SubCommand::Rm { key: text("k") }),
        Request::Remove { ref key } if key == "k"
    ));
}

#[test]
fn client_reads_the_answer_of_its_kind() {
    assert_eq!(
        get_result(Some(Response::Get(GetResponse::Done(Some(text("v")))))).unwrap(),
        Some(text("v"))
    );
    assert_eq!(get_result(Some(Response::Get(GetResponse::Done(None)))).unwrap(), None);
    assert!(set_result(Some(Response::Put(SetResponse::Done(())))).is_ok());
    assert!(remove_result(Some(Response::Remove(RemoveResponse::Done(())))).is_ok());
}

#[test]
fn client_reports_the_error_of_the_server() {
    assert!(matches!(
        get_result(Some(Response::Get(GetResponse::Failed(text("boom"))))),
        Err(KvsError::StringError(ref message)) if message == "boom"
    ));
    assert!(matches!(
        set_result(Some(Response::Put(SetResponse::Failed(text("boom"))))),
        Err(KvsError::StringError(ref message)) if message == "boom"
    ));
    assert!(matches!(
        remove_result(Some(Response::Remove(RemoveResponse::Failed(text("Key not found"))))),
        Err(KvsError::StringError(ref message)) if message == "Key not found"
    ));
}

#[test]
fn client_refuses_a_response_of_another_kind() {
    assert!(matches!(
        get_result(Some(Response::Put(SetResponse::Done(())))),
        Err(KvsError::Protocol(ref message)) if message == "Invalid response"
    ));
    assert!(matches!(
        set_result(Some(Response::Get(GetResponse::Done(None)))),
        Err(KvsError::Protocol(ref message)) if message == "Invalid response"
    ));
    assert!(matches!(
        remove_result(Some(Response::Put(SetResponse::Done(())))),
        Err(KvsError::Protocol(ref message)) if message == "Invalid response"
    ));
}

#[test]
fn client_reports_a_missing_response() {
    assert!(matches!(
        get_result(None),
        Err(KvsError::Protocol(ref message)) if message == "No response received"
    ));
    assert!(matches!(
        set_result(None),
        Err(KvsError::Protocol(ref message)) if message == "No response received"
    ));
    assert!(matches!(
        remove_result(None),
        Err(KvsError::Protocol(ref message)) if message == "No response received"
    ));
}

#[test]
fn failure_goes_to_standard_error_with_exit_code_one() {
    let outcome = get_outcome(Err(KvsError::Io(text("connection refused"))));
    assert_eq!(outcome.out, None);
    assert_eq!(outcome.err, Some(text("connection refused")));
    assert_eq!(outcome.code, 1);
    let outcome = set_outcome(Err(KvsError::Protocol(text("Invalid response"))));
    assert_eq!((outcome.out, outcome.err, outcome.code), (None, Some(text("Invalid response")), 1));
    let outcome = remove_outcome(Err(KvsError::StringError(text("Key not found"))));
    assert_eq!((outcome.out, outcome.err, outcome.code), (None, Some(text("Key not found")), 1));
}

#[test]
fn engines_are_found_under_their_names() {
    assert_eq!(engine_name(Engine::Kvs), "kvs");
    assert_eq!(engine_name(Engine::Sled), "sled");
    assert_eq!(parse_engine("kvs"), Some(Engine::Kvs));
    assert_eq!(parse_engine("sled"), Some(Engine::Sled));
    assert_eq!(parse_engine("redis"), None);
    assert_eq!(parse_engine(""), None);
    assert_eq!(parse_engine("KVS"), None);
}

#[test]
fn server_refuses_a_directory_of_another_engine() {
    assert!(check_engine(Engine::Kvs, None).is_ok());
    assert!(check_engine(Engine::Kvs, Some(Engine::Kvs)).is_ok());
    assert!(check_engine(Engine::Sled, Some(Engine::Sled)).is_ok());
    assert!(matches!(
        check_engine(Engine::Sled, Some(Engine::Kvs)),
        Err(KvsError::EngineMismatch)
    ));
    assert!(matches!(
        check_engine(Engine::Kvs, Some(Engine::Sled)),
        Err(KvsError::EngineMismatch)
    ));
    assert_eq!(KvsError::EngineMismatch.message(), "Wrong engine!");
}

#[test]
fn errors_have_their_messages() {
    assert_eq!(KvsError::Io(text("disk full")).message(), "disk full");
    assert_eq!(KvsError::CorruptLog.message(), "Corrupt log");
    assert_eq!(KvsError::CorruptValue.message(), "Corrupt value");
    assert_eq!(KvsError::KeyNotFound.message(), "Key not found");
    assert_eq!(KvsError::Protocol(text("bad frame")).message(), "bad frame");
    assert_eq!(KvsError::StringError(text("from server")).message(), "from server");
}

#[test]
fn store_answers_get_after_set_with_the_value() {
    let mut store = store();
    let response = serve_store(&mut store, Request::Put { key: text("foo"), value: text("bar") });
    assert!(matches!(response, Response::Put(SetResponse::Done(()))));
    let response = serve_store(&mut store, Request::Get { key: text("foo") });
    assert!(matches!(response, Response::Get(GetResponse::Done(Some(ref v))) if v == "bar"));
}

#[test]
fn store_answers_get_after_remove_with_nothing() {
    let mut store = store();
    store.set(text("foo"), text("bar")).unwrap();
    let response = serve_store(&mut store, Request::Remove { key: text("foo") });
    assert!(matches!(response, Response::Remove(RemoveResponse::Done(()))));
    let response = serve_store(&mut store, Request::Get { key: text("foo") });
    assert!(matches!(response, Response::Get(GetResponse::Done(None))));
}

#[test]
fn store_answers_remove_of_a_missing_key_with_key_not_found() {
    let mut store = store();
    let response = serve_store(&mut store, Request::Remove { key: text("missing") });
    assert!(matches!(
        response,
        Response::Remove(RemoveResponse::Failed(ref message)) if message == "Key not found"
    ));
    let response = serve_store(&mut store, Request::Get { key: text("missing") });
    assert!(matches!(response, Response::Get(GetResponse::Done(None))));
    assert_eq!(store.uncompacted(), 0);
    assert_eq!(store.dir().file(0).data.len(), 0);
}

#[test]
fn store_is_read_without_being_changed() {
    let mut store = store();
    store.set(text("foo"), text("bar")).unwrap();
    let response = read_store(&store, text("foo"));
    assert!(matches!(response, Response::Get(GetResponse::Done(Some(ref v))) if v == "bar"));
    let response = read_store(&store, text("other"));
    assert!(matches!(response, Response::Get(GetResponse::Done(None))));
}
