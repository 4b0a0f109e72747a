use redis_rust::CommandError;
use redis_rust::DispatchOutcome;
use redis_rust::Store;
use redis_rust::UserCommand;
use redis_rust::Value;
use redis_rust::dispatch;
use redis_rust::expire_key;
use redis_rust::extract_command;
use redis_rust::unpack_bulk_string;

fn bulk(s: &str) -> Value {
    Value::BulkString(s.to_string())
}

fn command(words: &[&str]) -> Value {
    Value::Array(words.iter().map(|w| bulk(w)).collect())
}

fn respond(outcome: Result<DispatchOutcome, CommandError>) -> Value {
    match outcome.unwrap() {
        DispatchOutcome::Respond(v) => v,
        other => panic!("expected a plain response, got {:?}", other),
    }
}

#[test]
fn ping_answers_pong() {
    let mut store = Store::new();
    let response = respond(dispatch(command(&["PING"]), &mut store));
    assert_eq!(response, Value::SimpleString("PONG".to_string()));
}

#[test]
fn echo_answers_the_argument_unchanged() {
    let mut store = Store::new();
    let response = respond(dispatch(command(&["ECHO", "Hello, World!"]), &mut store));
    assert_eq!(response, bulk("Hello, World!"));
}

#[test]
fn command_names_are_case_insensitive() {
    let mut store = Store::new();
    let response = respond(dispatch(command(&["ping"]), &mut store));
    assert_eq!(response, Value::SimpleString("PONG".to_string()));
    let response = respond(dispatch(command(&["PiNg"]), &mut store));
    assert_eq!(response, Value::SimpleString("PONG".to_string()));
}

#[test]
fn set_then_get_returns_the_value_set() {
    let mut store = Store::new();
    let response = respond(dispatch(command(&["SET", "key", "value"]), &mut store));
    assert_eq!(response, bulk("Scucessfully inserted value in database"));
    let response = respond(dispatch(command(&["GET", "key"]), &mut store));
    assert_eq!(response, bulk("value"));
}

#[test]
fn set_reports_inserted_then_updated_and_keeps_the_latest() {
    let mut store = Store::new();
    let first = respond(dispatch(command(&["SET", "k", "one"]), &mut store));
    assert_eq!(first, bulk("Scucessfully inserted value in database"));
    let second = respond(dispatch(command(&["SET", "k", "two"]), &mut store));
    assert_eq!(second, bulk("Scucessfully updated value in database"));
    let got = respond(dispatch(command(&["GET", "k"]), &mut store));
    assert_eq!(got, bulk("two"));
}

#[test]
fn get_of_absent_key_is_an_error_value() {
    let mut store = Store::new();
    let response = respond(dispatch(command(&["GET", "nothing"]), &mut store));
    assert_eq!(
        response,
        Value::SimpleError("key has no associated value".to_string())
    );
}

#[test]
fn del_removes_and_subsequent_get_errors() {
    let mut store = Store::new();
    respond(dispatch(command(&["SET", "key", "value"]), &mut store));
    let response = respond(dispatch(command(&["DEL", "key"]), &mut store));
    assert_eq!(response, bulk("Removed the key from database"));
    let response = respond(dispatch(command(&["GET", "key"]), &mut store));
    assert_eq!(
        response,
        Value::SimpleError("key has no associated value".to_string())
    );
}

#[test]
fn del_of_absent_key_is_an_error_value() {
    let mut store = Store::new();
    let response = respond(dispatch(command(&["DEL", "ghost"]), &mut store));
    assert_eq!(
        response,
        Value::SimpleError("Value doesnt exist in database".to_string())
    );
}

#[test]
fn mget_embeds_per_key_misses() {
    let mut store = Store::new();
    respond(dispatch(command(&["SET", "a", "1"]), &mut store));
    let response = respond(dispatch(command(&["MGET", "a", "missing"]), &mut store));
    assert_eq!(
        response,
        Value::Array(vec![
            bulk("1"),
            Value::SimpleError("The key missing has no associated value".to_string()),
        ])
    );
}

#[test]
fn mget_rejects_empty_and_non_bulk_arguments_softly() {
    let mut store = Store::new();
    let response = respond(dispatch(command(&["MGET"]), &mut store));
    assert_eq!(
        response,
        Value::SimpleError("Missing argument for MGET command".to_string())
    );
    let odd = Value::Array(vec![bulk("MGET"), Value::SimpleString("x".to_string())]);
    let response = respond(dispatch(odd, &mut store));
    assert_eq!(
        response,
        Value::SimpleError("One or more keys are invalid".to_string())
    );
}

#[test]
fn expire_schedules_a_deferred_deletion() {
    let mut store = Store::new();
    respond(dispatch(command(&["SET", "key", "value"]), &mut store));
    let outcome = dispatch(command(&["EXPIRE", "key", "1"]), &mut store).unwrap();
    let (response, action) = match outcome {
        DispatchOutcome::Schedule(v, a) => (v, a),
        other => panic!("expected a scheduled deletion, got {:?}", other),
    };
    assert_eq!(response, Value::SimpleString("OK".to_string()));
    assert_eq!(action.key, "key");
    assert_eq!(action.seconds, 1);
    // the deferred deletion fires after the delay; firing it removes the key
    expire_key(&mut store, &action.key);
    let got = respond(dispatch(command(&["GET", "key"]), &mut store));
    assert_eq!(
        got,
        Value::SimpleError("key has no associated value".to_string())
    );
}

#[test]
fn expire_with_zero_delay_is_immediately_eligible() {
    let mut store = Store::new();
    respond(dispatch(command(&["SET", "key", "value"]), &mut store));
    let outcome = dispatch(command(&["EXPIRE", "key", "0"]), &mut store).unwrap();
    match outcome {
        DispatchOutcome::Schedule(response, action) => {
            assert_eq!(response, Value::SimpleString("OK".to_string()));
            assert_eq!(action.seconds, 0);
            expire_key(&mut store, &action.key);
        }
        other => panic!("expected a scheduled deletion, got {:?}", other),
    }
    let got = respond(dispatch(command(&["GET", "key"]), &mut store));
    assert_eq!(
        got,
        Value::SimpleError("key has no associated value".to_string())
    );
}

#[test]
fn expire_rejects_bad_arguments_softly() {
    let mut store = Store::new();
    let response = respond(dispatch(command(&["EXPIRE", "key"]), &mut store));
    assert_eq!(
        response,
        Value::SimpleError("Invalid number of arguments".to_string())
    );
    let response = respond(dispatch(command(&["EXPIRE", "key", "soon"]), &mut store));
    assert_eq!(
        response,
        Value::SimpleError("Invalid number of seconds".to_string())
    );
    let response = respond(dispatch(command(&["EXPIRE", "key", "-1"]), &mut store));
    assert_eq!(
        response,
        Value::SimpleError("Invalid number of seconds".to_string())
    );
}

#[test]
fn unrecognized_command_errors_and_leaves_store_unmodified() {
    let mut store = Store::new();
    respond(dispatch(command(&["SET", "k", "v"]), &mut store));
    let response = respond(dispatch(command(&["FLUSH", "k"]), &mut store));
    assert_eq!(response, Value::SimpleError("Invalid command".to_string()));
    let got = respond(dispatch(command(&["GET", "k"]), &mut store));
    assert_eq!(got, bulk("v"));
}

#[test]
fn quit_closes_without_a_response() {
    let mut store = Store::new();
    let outcome = dispatch(command(&["QUIT"]), &mut store).unwrap();
    assert_eq!(outcome, DispatchOutcome::Quit);
}

#[test]
fn malformed_command_shapes_are_answered_softly() {
    let mut store = Store::new();
    respond(dispatch(command(&["SET", "k", "v"]), &mut store));
    let invalid = Value::SimpleError("Invalid command".to_string());
    let response = respond(dispatch(Value::SimpleString("PING".to_string()), &mut store));
    assert_eq!(response, invalid);
    let response = respond(dispatch(Value::Array(vec![]), &mut store));
    assert_eq!(response, invalid);
    let response = respond(dispatch(
        Value::Array(vec![Value::SimpleString("PING".to_string())]),
        &mut store,
    ));
    assert_eq!(response, invalid);
    // the store is untouched by any of them
    let got = respond(dispatch(command(&["GET", "k"]), &mut store));
    assert_eq!(got, bulk("v"));
}

#[test]
fn wrong_arguments_are_answered_softly() {
    let mut store = Store::new();
    respond(dispatch(command(&["SET", "k", "v"]), &mut store));
    let response = respond(dispatch(command(&["GET"]), &mut store));
    assert_eq!(
        response,
        Value::SimpleError("Missing argument for GET command".to_string())
    );
    let response = respond(dispatch(
        Value::Array(vec![bulk("GET"), Value::SimpleString("k".to_string())]),
        &mut store,
    ));
    assert_eq!(response, Value::SimpleError("Invalid key type".to_string()));
    let response = respond(dispatch(command(&["SET", "only-key"]), &mut store));
    assert_eq!(
        response,
        Value::SimpleError("Not enough arguments for SET command".to_string())
    );
    let response = respond(dispatch(
        Value::Array(vec![bulk("SET"), Value::SimpleString("k".to_string()), bulk("v")]),
        &mut store,
    ));
    assert_eq!(response, Value::SimpleError("Invalid key type".to_string()));
    let response = respond(dispatch(
        Value::Array(vec![bulk("SET"), bulk("k"), Value::SimpleString("v".to_string())]),
        &mut store,
    ));
    assert_eq!(response, Value::SimpleError("Invalid value type".to_string()));
    let response = respond(dispatch(command(&["DEL"]), &mut store));
    assert_eq!(
        response,
        Value::SimpleError("Not enough arguments for DEL command".to_string())
    );
    let response = respond(dispatch(
        Value::Array(vec![bulk("DEL"), Value::SimpleString("k".to_string())]),
        &mut store,
    ));
    assert_eq!(response, Value::SimpleError("Invalid key type".to_string()));
    // the store is untouched by any of them
    let got = respond(dispatch(command(&["GET", "k"]), &mut store));
    assert_eq!(got, bulk("v"));
}

#[test]
fn echo_without_an_argument_is_fatal() {
    let mut store = Store::new();
    assert_eq!(
        dispatch(command(&["ECHO"]), &mut store),
        Err(CommandError::MissingArgument)
    );
}

#[test]
fn extract_command_splits_name_and_arguments() {
    let (name, args) = extract_command(command(&["ECHO", "HEY"])).unwrap();
    assert_eq!(name, "ECHO");
    assert_eq!(args, vec![bulk("HEY")]);
    assert!(extract_command(Value::SimpleString("x".to_string())).is_err());
    assert!(extract_command(Value::Array(vec![])).is_err());
}

#[test]
fn unpack_bulk_string_rejects_other_variants() {
    assert_eq!(unpack_bulk_string(bulk("x")), Ok("x".to_string()));
    assert!(unpack_bulk_string(Value::SimpleString("x".to_string())).is_err());
}

#[test]
fn user_command_recognition() {
    assert_eq!(UserCommand::from("set".to_string()), UserCommand::SetCmd);
    assert_eq!(UserCommand::from("Del".to_string()), UserCommand::Del);
    assert_eq!(UserCommand::from("MGET".to_string()), UserCommand::Mget);
    assert_eq!(UserCommand::from("bogus".to_string()), UserCommand::Invalid);
    assert_eq!(UserCommand::from("".to_string()), UserCommand::Invalid);
}

#[test]
fn store_operations_report_prior_state() {
    let mut store = Store::new();
    assert_eq!(store.insert("k".to_string(), "1".to_string()), None);
    assert_eq!(
        store.insert("k".to_string(), "2".to_string()),
        Some("1".to_string())
    );
    assert_eq!(store.get(&"k".to_string()), Some("2".to_string()));
    assert!(store.contains(&"k".to_string()));
    assert_eq!(store.remove(&"k".to_string()), Some("2".to_string()));
    assert_eq!(store.remove(&"k".to_string()), None);
    assert_eq!(store.get(&"k".to_string()), None);
}
