//! The command dispatcher: takes one parsed protocol value, interprets
//! it as a command name with arguments, reads or mutates the store, and
//! produces the response value — plus, for an expiry command, the
//! deferred deletion the caller is to schedule. A malformed command
//! shape, a wrong-typed argument and a missing key are all answered
//! with a protocol error value and the session stays open; the one
//! fatal case is an echo with nothing to echo, which no response can
//! answer.

use vstd::prelude::*;

use crate::decimal::parse_u64;
use crate::decimal::parse_u64_spec;
use crate::errors::CommandError;
use crate::session::UserCommand;
use crate::session::command_of;
use crate::store::Store;
use crate::value::SpecValue;
use crate::value::Value;
use crate::value::lemma_view_of_array;
use crate::value::views_of;

verus! {

/// Splitting a command value: an array whose first element is a bulk
/// string naming the command; the remaining elements are the arguments.
pub open spec fn extract_spec(v: SpecValue) -> Result<
    (Seq<char>, Seq<SpecValue>),
    CommandError,
> {
    match v {
        SpecValue::Array(items) => {
            if items.len() == 0 {
                Err(CommandError::MalformedCommand)
            } else {
                match items[0] {
                    SpecValue::BulkString(name) => Ok((name, items.drop_first())),
                    _ => Err(CommandError::MalformedCommand),
                }
            }
        },
        _ => Err(CommandError::MalformedCommand),
    }
}

/// What a lookup answers: the stored value, or an error value — for a
/// missing argument, a wrong-typed key, or an absent key. None of these
/// ends the session.
pub open spec fn get_spec(args: Seq<SpecValue>, m: Map<Seq<char>, Seq<char>>) -> SpecValue {
    if args.len() == 0 {
        SpecValue::SimpleError("Missing argument for GET command"@)
    } else {
        match args[0] {
            SpecValue::BulkString(k) => if m.contains_key(k) {
                SpecValue::BulkString(m[k])
            } else {
                SpecValue::SimpleError("key has no associated value"@)
            },
            _ => SpecValue::SimpleError("Invalid key type"@),
        }
    }
}

/// One entry of a multi-lookup answer: the stored value, or an error
/// value naming the key.
pub open spec fn mget_item(m: Map<Seq<char>, Seq<char>>, k: Seq<char>) -> SpecValue {
    if m.contains_key(k) {
        SpecValue::BulkString(m[k])
    } else {
        SpecValue::SimpleError("The key "@ + k + " has no associated value"@)
    }
}

/// Every argument is a bulk string.
pub open spec fn all_bulk(args: Seq<SpecValue>) -> bool {
    forall|i: int| 0 <= i < args.len() ==> (#[trigger] args[i]) is BulkString
}

/// What a multi-lookup answers: an array with one entry per key, all
/// read under one acquisition; per-key misses are embedded, the call
/// itself still succeeds.
pub open spec fn mget_spec(args: Seq<SpecValue>, m: Map<Seq<char>, Seq<char>>) -> SpecValue {
    if args.len() == 0 {
        SpecValue::SimpleError("Missing argument for MGET command"@)
    } else if !all_bulk(args) {
        SpecValue::SimpleError("One or more keys are invalid"@)
    } else {
        SpecValue::Array(Seq::new(args.len(), |i: int| mget_item(m, args[i]->BulkString_0)))
    }
}

/// What storing answers and leaves behind: the status distinguishing an
/// insert from an update and the map with the key bound to the new
/// value — or, for too few or wrong-typed arguments, an error value and
/// the map unchanged.
pub open spec fn set_spec(args: Seq<SpecValue>, m: Map<Seq<char>, Seq<char>>) -> (
    SpecValue,
    Map<Seq<char>, Seq<char>>,
) {
    if args.len() < 2 {
        (SpecValue::SimpleError("Not enough arguments for SET command"@), m)
    } else {
        match args[0] {
            SpecValue::BulkString(k) => match args[1] {
                SpecValue::BulkString(v) => (
                    SpecValue::BulkString(
                        if m.contains_key(k) {
                            "Scucessfully updated value in database"@
                        } else {
                            "Scucessfully inserted value in database"@
                        },
                    ),
                    m.insert(k, v),
                ),
                _ => (SpecValue::SimpleError("Invalid value type"@), m),
            },
            _ => (SpecValue::SimpleError("Invalid key type"@), m),
        }
    }
}

/// What deleting answers and leaves behind: a confirmation and the map
/// without the key, an error value for an absent key — or, for a
/// missing or wrong-typed argument, an error value and the map
/// unchanged.
pub open spec fn del_spec(args: Seq<SpecValue>, m: Map<Seq<char>, Seq<char>>) -> (
    SpecValue,
    Map<Seq<char>, Seq<char>>,
) {
    if args.len() == 0 {
        (SpecValue::SimpleError("Not enough arguments for DEL command"@), m)
    } else {
        match args[0] {
            SpecValue::BulkString(k) => (
                if m.contains_key(k) {
                    SpecValue::BulkString("Removed the key from database"@)
                } else {
                    SpecValue::SimpleError("Value doesnt exist in database"@)
                },
                m.remove(k),
            ),
            _ => (SpecValue::SimpleError("Invalid key type"@), m),
        }
    }
}

/// What an expiry command answers, and the deferred deletion it asks
/// for: the key and the delay in whole time units, where both arguments
/// are bulk strings and the delay parses as an unsigned number.
pub open spec fn expire_spec(args: Seq<SpecValue>) -> (SpecValue, Option<(Seq<char>, u64)>) {
    if args.len() != 2 {
        (SpecValue::SimpleError("Invalid number of arguments"@), None)
    } else {
        match (args[0], args[1]) {
            (SpecValue::BulkString(k), SpecValue::BulkString(secs)) => match parse_u64_spec(secs) {
                Some(n) => (SpecValue::SimpleString("OK"@), Some((k, n))),
                None => (SpecValue::SimpleError("Invalid number of seconds"@), None),
            },
            _ => (SpecValue::SimpleError("Invalid arguments"@), None),
        }
    }
}

/// A deferred deletion to schedule: after the delay, the key is removed
/// if still present. Once scheduled it cannot be cancelled, so a key
/// recreated in the meantime is still deleted by the stale timer.
#[derive(Debug, PartialEq)]
pub struct ExpireAction {
    pub key: String,
    pub seconds: u64,
}

/// What the session is to do with a dispatched command's result.
#[derive(Debug, PartialEq)]
pub enum DispatchOutcome {
    /// Write the response back on the transport.
    Respond(Value),
    /// Write the response back, and schedule the deferred deletion.
    Schedule(Value, ExpireAction),
    /// Close the session without a response.
    Quit,
}

/// Takes a bulk string apart; anything else is a command-shape error.
pub fn unpack_bulk_string(value: Value) -> (r: Result<String, CommandError>)
    ensures
        match value@ {
            SpecValue::BulkString(s) => r matches Ok(out) && out@ == s,
            _ => r == Err::<String, CommandError>(CommandError::MalformedCommand),
        },
{
    match value {
        Value::BulkString(s) => Ok(s),
        _ => Err(CommandError::MalformedCommand),
    }
}

/// Splits a command value into the command name and the argument list.
/// The error kind stays internal: the dispatcher answers it with an
/// error value and the session continues.
pub fn extract_command(value: Value) -> (r: Result<(String, Vec<Value>), CommandError>)
    ensures
        match (r, extract_spec(value@)) {
            (Ok((name, args)), Ok((sn, sa))) => name@ == sn && views_of(args@) == sa,
            (Err(e1), Err(e2)) => e1 == e2,
            _ => false,
        },
{
    match value {
        Value::Array(mut items) => {
            proof {
                lemma_view_of_array(items);
            }
            let ghost items0 = items@;
            if items.len() == 0 {
                return Err(CommandError::MalformedCommand);
            }
            let first = items.remove(0);
            let name = match unpack_bulk_string(first) {
                Ok(s) => s,
                Err(e) => {
                    return Err(e);
                },
            };
            proof {
                assert(items@ =~= items0.drop_first());
                assert(views_of(items@) =~= views_of(items0).drop_first());
            }
            Ok((name, items))
        },
        _ => Err(CommandError::MalformedCommand),
    }
}

/// Answers a lookup from the store: always a value, never fatal.
pub fn get_value(args: &Vec<Value>, store: &Store) -> (r: Result<Value, CommandError>)
    requires
        store.inv(),
    ensures
        r matches Ok(v) && v@ == get_spec(views_of(args@), store@),
{
    if args.len() == 0 {
        return Ok(Value::SimpleError(String::from_str("Missing argument for GET command")));
    }
    match &args[0] {
        Value::BulkString(key) => match store.get(key) {
            Some(v) => Ok(Value::BulkString(v)),
            None => Ok(Value::SimpleError(String::from_str("key has no associated value"))),
        },
        _ => Ok(Value::SimpleError(String::from_str("Invalid key type"))),
    }
}

/// Answers a multi-lookup from the store: one entry per key, in order,
/// misses embedded as error values; always a value, never fatal.
pub fn mget_value(args: &Vec<Value>, store: &Store) -> (r: Result<Value, CommandError>)
    requires
        store.inv(),
    ensures
        r matches Ok(v) && v@ == mget_spec(views_of(args@), store@),
{
    let ghost views = views_of(args@);
    if args.len() == 0 {
        return Ok(Value::SimpleError(String::from_str("Missing argument for MGET command")));
    }
    let mut result: Vec<Value> = Vec::new();
    let mut i: usize = 0;
    while i < args.len()
        invariant
            store.inv(),
            0 <= i <= args@.len(),
            views == views_of(args@),
            i == result@.len(),
            forall|j: int| 0 <= j < i ==> (#[trigger] views[j]) is BulkString,
            forall|j: int|
                0 <= j < i ==> (#[trigger] result@[j])@ == mget_item(store@, views[j]->BulkString_0),
        decreases args@.len() - i,
    {
        proof {
            assert(views[i as int] == args@[i as int]@);
        }
        match &args[i] {
            Value::BulkString(key) => {
                let item = match store.get(key) {
                    Some(v) => Value::BulkString(v),
                    None => {
                        let mut msg = String::from_str("The key ");
                        msg.append(key.as_str());
                        msg.append(" has no associated value");
                        Value::SimpleError(msg)
                    },
                };
                result.push(item);
            },
            _ => {
                return Ok(Value::SimpleError(String::from_str("One or more keys are invalid")));
            },
        }
        i += 1;
    }
    proof {
        lemma_view_of_array(result);
        assert(views_of(result@) =~= Seq::new(views.len(), |j: int| mget_item(store@, views[j]->BulkString_0)));
    }
    Ok(Value::Array(result))
}

/// Stores a value under a key, telling an insert from an update; too
/// few or wrong-typed arguments are answered with an error value and
/// leave the store unchanged.
pub fn set_value(args: &Vec<Value>, store: &mut Store) -> (r: Result<Value, CommandError>)
    requires
        old(store).inv(),
    ensures
        final(store).inv(),
        ({
            let (sv, m2) = set_spec(views_of(args@), old(store)@);
            r matches Ok(v) && v@ == sv && final(store)@ == m2
        }),
{
    if args.len() < 2 {
        return Ok(Value::SimpleError(String::from_str("Not enough arguments for SET command")));
    }
    let key = match &args[0] {
        Value::BulkString(k) => k.clone(),
        _ => {
            return Ok(Value::SimpleError(String::from_str("Invalid key type")));
        },
    };
    let value = match &args[1] {
        Value::BulkString(v) => v.clone(),
        _ => {
            return Ok(Value::SimpleError(String::from_str("Invalid value type")));
        },
    };
    let prior = store.insert(key, value);
    match prior {
        Some(_) => Ok(Value::BulkString(String::from_str("Scucessfully updated value in database"))),
        None => Ok(Value::BulkString(String::from_str("Scucessfully inserted value in database"))),
    }
}

/// Deletes a key, confirming the removal or reporting an absent key; a
/// missing or wrong-typed argument is answered with an error value and
/// leaves the store unchanged.
pub fn del_value(args: &Vec<Value>, store: &mut Store) -> (r: Result<Value, CommandError>)
    requires
        old(store).inv(),
    ensures
        final(store).inv(),
        ({
            let (sv, m2) = del_spec(views_of(args@), old(store)@);
            r matches Ok(v) && v@ == sv && final(store)@ == m2
        }),
{
    if args.len() == 0 {
        return Ok(Value::SimpleError(String::from_str("Not enough arguments for DEL command")));
    }
    match &args[0] {
        Value::BulkString(key) => match store.remove(key) {
            Some(_) => Ok(Value::BulkString(String::from_str("Removed the key from database"))),
            None => Ok(Value::SimpleError(String::from_str("Value doesnt exist in database"))),
        },
        _ => Ok(Value::SimpleError(String::from_str("Invalid key type"))),
    }
}

/// Interprets an expiry command: the response to write back, and the
/// deferred deletion to schedule where the arguments are valid. The
/// store itself is untouched now; the deletion happens after the delay.
pub fn expire_value(args: &Vec<Value>) -> (r: (Value, Option<ExpireAction>))
    ensures
        ({
            let (sv, act) = expire_spec(views_of(args@));
            &&& r.0@ == sv
            &&& match (r.1, act) {
                (Some(a), Some((k, n))) => a.key@ == k && a.seconds == n,
                (None, None) => true,
                _ => false,
            }
        }),
{
    if args.len() != 2 {
        return (Value::SimpleError(String::from_str("Invalid number of arguments")), None);
    }
    match (&args[0], &args[1]) {
        (Value::BulkString(key), Value::BulkString(secs)) => match parse_u64(secs.as_str()) {
            Some(n) => (
                Value::SimpleString(String::from_str("OK")),
                Some(ExpireAction { key: key.clone(), seconds: n }),
            ),
            None => (Value::SimpleError(String::from_str("Invalid number of seconds")), None),
        },
        _ => (Value::SimpleError(String::from_str("Invalid arguments")), None),
    }
}

/// Carries out a deferred deletion: removes the key if still present.
pub fn expire_key(store: &mut Store, key: &String)
    requires
        old(store).inv(),
    ensures
        final(store).inv(),
        final(store)@ == old(store)@.remove(key@),
{
    let _prior = store.remove(key);
}

/// What dispatching one command value does: how the store changes and
/// what the session is told, for every command and argument shape. A
/// value that is no command at all is answered with an error value and
/// the store stays as it was; only an echo without an argument is a
/// fatal error.
pub open spec fn dispatch_post(
    v: SpecValue,
    m0: Map<Seq<char>, Seq<char>>,
    m1: Map<Seq<char>, Seq<char>>,
    r: Result<DispatchOutcome, CommandError>,
) -> bool {
    match extract_spec(v) {
        Err(e) => m1 == m0 && (r matches Ok(DispatchOutcome::Respond(resp)) && resp@
            == SpecValue::SimpleError("Invalid command"@)),
        Ok((name, args)) => match command_of(name) {
            UserCommand::Ping => m1 == m0 && (r matches Ok(DispatchOutcome::Respond(resp))
                && resp@ == SpecValue::SimpleString("PONG"@)),
            UserCommand::Echo => m1 == m0 && (if args.len() == 0 {
                r == Err::<DispatchOutcome, CommandError>(CommandError::MissingArgument)
            } else {
                r matches Ok(DispatchOutcome::Respond(resp)) && resp@ == args[0]
            }),
            UserCommand::Get => m1 == m0 && (r matches Ok(DispatchOutcome::Respond(resp))
                && resp@ == get_spec(args, m0)),
            UserCommand::Mget => m1 == m0 && (r matches Ok(DispatchOutcome::Respond(resp))
                && resp@ == mget_spec(args, m0)),
            UserCommand::SetCmd => ({
                let (sv, m2) = set_spec(args, m0);
                m1 == m2 && (r matches Ok(DispatchOutcome::Respond(resp)) && resp@ == sv)
            }),
            UserCommand::Del => ({
                let (sv, m2) = del_spec(args, m0);
                m1 == m2 && (r matches Ok(DispatchOutcome::Respond(resp)) && resp@ == sv)
            }),
            UserCommand::Expire => m1 == m0 && ({
                let (sv, act) = expire_spec(args);
                match act {
                    Some((k, n)) => r matches Ok(DispatchOutcome::Schedule(resp, a)) && resp@ == sv
                        && a.key@ == k && a.seconds == n,
                    None => r matches Ok(DispatchOutcome::Respond(resp)) && resp@ == sv,
                }
            }),
            UserCommand::Quit => m1 == m0 && r matches Ok(DispatchOutcome::Quit),
            UserCommand::Invalid => m1 == m0 && (r matches Ok(DispatchOutcome::Respond(resp))
                && resp@ == SpecValue::SimpleError("Invalid command"@)),
        },
    }
}

/// The command only reads the store, so it may run under a shared read
/// acquisition: a lookup or a multi-lookup.
pub open spec fn read_only_command(v: SpecValue) -> bool {
    match extract_spec(v) {
        Ok((name, args)) => command_of(name) == UserCommand::Get || command_of(name)
            == UserCommand::Mget,
        Err(e) => false,
    }
}

/// Whether the command value only reads the store.
pub fn is_read_command(value: &Value) -> (r: bool)
    ensures
        r == read_only_command(value@),
{
    proof {
        reveal_strlit("PING");
        reveal_strlit("ECHO");
        reveal_strlit("GET");
        reveal_strlit("MGET");
    }
    match value {
        Value::Array(items) => {
            proof {
                lemma_view_of_array(*items);
            }
            if items.len() == 0 {
                return false;
            }
            match &items[0] {
                Value::BulkString(name) => {
                    let is_get = crate::session::str_eq_ignore_ascii_case(name.as_str(), "GET");
                    let is_mget = crate::session::str_eq_ignore_ascii_case(name.as_str(), "MGET");
                    proof {
                        if crate::session::eq_ignore_ascii_case(name@, "MGET"@) {
                            if crate::session::eq_ignore_ascii_case(name@, "PING"@) {
                                assert(crate::session::char_eq_ignore_ascii_case(
                                    name@[0],
                                    "MGET"@[0],
                                ));
                                assert(crate::session::char_eq_ignore_ascii_case(
                                    name@[0],
                                    "PING"@[0],
                                ));
                                assert(false);
                            }
                            if crate::session::eq_ignore_ascii_case(name@, "ECHO"@) {
                                assert(crate::session::char_eq_ignore_ascii_case(
                                    name@[0],
                                    "MGET"@[0],
                                ));
                                assert(crate::session::char_eq_ignore_ascii_case(
                                    name@[0],
                                    "ECHO"@[0],
                                ));
                                assert(false);
                            }
                        }
                    }
                    is_get || is_mget
                },
                _ => false,
            }
        },
        _ => false,
    }
}

/// Answers a command that only reads: the store is shared, never
/// changed. The outcome is exactly what `dispatch` would produce.
pub fn dispatch_read(value: Value, store: &Store) -> (r: Result<DispatchOutcome, CommandError>)
    requires
        store.inv(),
        read_only_command(value@),
    ensures
        dispatch_post(value@, store@, store@, r),
{
    let (command, args) = match extract_command(value) {
        Ok(pair) => pair,
        Err(e) => {
            proof {
                assert(false);
            }
            return Err(e);
        },
    };
    match UserCommand::from(command) {
        UserCommand::Get => match get_value(&args, store) {
            Ok(v) => Ok(DispatchOutcome::Respond(v)),
            Err(e) => {
                proof {
                    assert(false);
                }
                Err(e)
            },
        },
        UserCommand::Mget => match mget_value(&args, store) {
            Ok(v) => Ok(DispatchOutcome::Respond(v)),
            Err(e) => {
                proof {
                    assert(false);
                }
                Err(e)
            },
        },
        _ => {
            proof {
                assert(false);
            }
            Err(CommandError::MalformedCommand)
        },
    }
}

/// Maps one parsed command value to a store operation and an outcome:
/// a response to write, a response with a deletion to schedule, or an
/// order to close. A value that is no command, an unrecognized command
/// name, a wrong-typed argument and an absent key are all answered with
/// an error value, the store left unmodified; the one fatal error is an
/// echo without an argument.
pub fn dispatch(value: Value, store: &mut Store) -> (r: Result<DispatchOutcome, CommandError>)
    requires
        old(store).inv(),
    ensures
        final(store).inv(),
        dispatch_post(value@, old(store)@, final(store)@, r),
{
    let (command, mut args) = match extract_command(value) {
        Ok(pair) => pair,
        Err(_) => {
            return Ok(
                DispatchOutcome::Respond(Value::SimpleError(String::from_str("Invalid command"))),
            );
        },
    };
    match UserCommand::from(command) {
        UserCommand::Ping => Ok(
            DispatchOutcome::Respond(Value::SimpleString(String::from_str("PONG"))),
        ),
        UserCommand::Echo => {
            if args.len() == 0 {
                return Err(CommandError::MissingArgument);
            }
            let first = args.remove(0);
            Ok(DispatchOutcome::Respond(first))
        },
        UserCommand::Get => match get_value(&args, store) {
            Ok(v) => Ok(DispatchOutcome::Respond(v)),
            Err(e) => Err(e),
        },
        UserCommand::Mget => match mget_value(&args, store) {
            Ok(v) => Ok(DispatchOutcome::Respond(v)),
            Err(e) => Err(e),
        },
        UserCommand::SetCmd => match set_value(&args, store) {
            Ok(v) => Ok(DispatchOutcome::Respond(v)),
            Err(e) => Err(e),
        },
        UserCommand::Del => match del_value(&args, store) {
            Ok(v) => Ok(DispatchOutcome::Respond(v)),
            Err(e) => Err(e),
        },
        UserCommand::Expire => {
            let (resp, action) = expire_value(&args);
            match action {
                Some(act) => Ok(DispatchOutcome::Schedule(resp, act)),
                None => Ok(DispatchOutcome::Respond(resp)),
            }
        },
        UserCommand::Quit => Ok(DispatchOutcome::Quit),
        UserCommand::Invalid => Ok(
            DispatchOutcome::Respond(Value::SimpleError(String::from_str("Invalid command"))),
        ),
    }
}

} // verus!
