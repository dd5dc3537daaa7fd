use resp_kv::commands::{
    dispatch, dispatch_on_settings, dispatch_on_store, find_verb, route, run_config, run_echo,
    run_get, run_ping, run_set, App, ConfigArgs, Error, Route, SetArgs, Verb,
};
use resp_kv::deserializer::from_bytes;
use resp_kv::store::{Entry, Settings, Store};
use resp_kv::value::Value;

fn texts(items: &[&str]) -> Vec<Value> {
    items.iter().map(|s| Value::str(s)).collect()
}

fn request(items: &[&str]) -> Value {
    Value::Array(Some(texts(items)))
}

#[test]
fn set_then_get_returns_the_value() {
    let mut app = App::new();
    assert_eq!(app.set(1000, &texts(&["k", "v"])), Ok(Value::str("OK")));
    assert_eq!(app.get(1000, &texts(&["k"])), Ok(Value::str("v")));
    assert_eq!(app.get(u128::MAX, &texts(&["k"])), Ok(Value::str("v")));
}

#[test]
fn set_with_px_zero_is_gone_at_any_later_instant() {
    let mut app = App::new();
    assert_eq!(app.set(1000, &texts(&["k", "v", "PX", "0"])), Ok(Value::str("OK")));
    assert_eq!(app.get(1001, &texts(&["k"])), Ok(Value::Null));
    assert_eq!(app.get(999_999, &texts(&["k"])), Ok(Value::Null));
    // at the very instant of storing nothing has elapsed
    assert_eq!(app.get(1000, &texts(&["k"])), Ok(Value::str("v")));
}

#[test]
fn set_with_px_expires_after_the_given_time() {
    let mut app = App::new();
    assert_eq!(app.set(1000, &texts(&["k", "v", "px", "100"])), Ok(Value::str("OK")));
    assert_eq!(app.get(1100, &texts(&["k"])), Ok(Value::str("v")));
    assert_eq!(app.get(1101, &texts(&["k"])), Ok(Value::Null));
    // the number may be an integer value too
    let args = vec![Value::str("k"), Value::str("w"), Value::str("pX"), Value::Int(5)];
    assert_eq!(app.set(2000, &args), Ok(Value::str("OK")));
    assert_eq!(app.get(2005, &texts(&["k"])), Ok(Value::str("w")));
    assert_eq!(app.get(2006, &texts(&["k"])), Ok(Value::Null));
}

#[test]
fn set_replaces_the_entry_and_its_expiry() {
    let mut app = App::new();
    app.set(0, &texts(&["k", "old", "PX", "10"])).unwrap();
    app.set(5, &texts(&["k", "new"])).unwrap();
    assert_eq!(app.get(1_000_000, &texts(&["k"])), Ok(Value::str("new")));
}

#[test]
fn get_on_an_absent_key_is_null() {
    let app = App::new();
    assert_eq!(app.get(0, &texts(&["nope"])), Ok(Value::Null));
    let mut app = App::new();
    app.set(0, &texts(&["a", "1"])).unwrap();
    assert_eq!(app.get(0, &texts(&["b"])), Ok(Value::Null));
    assert_eq!(app.get(0, &[Value::Int(7)]), Ok(Value::Null));
}

#[test]
fn get_does_not_remove_expired_entries() {
    let mut app = App::new();
    app.set(0, &texts(&["k", "v", "PX", "10"])).unwrap();
    assert_eq!(app.get(100, &texts(&["k"])), Ok(Value::Null));
    // still there for an earlier clock
    assert_eq!(app.get(5, &texts(&["k"])), Ok(Value::str("v")));
    app.prune_expired(100);
    assert_eq!(app.get(5, &texts(&["k"])), Ok(Value::Null));
}

#[test]
fn keys_of_any_shape() {
    let mut app = App::new();
    let key = Value::Array(Some(vec![Value::Int(1), Value::str("x")]));
    app.set(0, &[key.clone(), Value::Bool(true)]).unwrap();
    app.set(0, &[Value::Int(1), Value::str("one")]).unwrap();
    app.set(0, &[Value::str("1"), Value::str("text one")]).unwrap();
    assert_eq!(app.get(0, &[key]), Ok(Value::Bool(true)));
    assert_eq!(app.get(0, &[Value::Int(1)]), Ok(Value::str("one")));
    assert_eq!(app.get(0, &[Value::str("1")]), Ok(Value::str("text one")));
}

#[test]
fn arity_errors() {
    let mut app = App::new();
    assert_eq!(app.echo(&[]), Err(Error::InvalidReq("echo expects exactly one argument")));
    assert_eq!(
        app.echo(&texts(&["a", "b"])),
        Err(Error::InvalidReq("echo expects exactly one argument"))
    );
    assert_eq!(app.get(0, &[]), Err(Error::InvalidReq("get expects exactly one argument")));
    assert_eq!(
        app.get(0, &texts(&["a", "b"])),
        Err(Error::InvalidReq("get expects exactly one argument"))
    );
    assert_eq!(app.set(0, &[]), Err(Error::InvalidReq("set is missing key")));
    assert_eq!(
        app.set(0, &texts(&["k"])),
        Err(Error::InvalidReq("set is missing value argument"))
    );
}

#[test]
fn px_needs_an_integer() {
    let mut app = App::new();
    assert_eq!(
        app.set(0, &texts(&["k", "v", "PX"])),
        Err(Error::TypeError("PX expects expiry.".to_string()))
    );
    assert_eq!(
        app.set(0, &texts(&["k", "v", "PX", "soon"])),
        Err(Error::TypeError("expiry must be an int".to_string()))
    );
    let args = vec![Value::str("k"), Value::str("v"), Value::str("PX"), Value::Bool(true)];
    assert_eq!(app.set(0, &args), Err(Error::TypeError("expiry must be an int".to_string())));
    // nothing was stored
    assert_eq!(app.get(0, &texts(&["k"])), Ok(Value::Null));
}

#[test]
fn set_args() {
    let parsed = SetArgs::from_args(&texts(&["k", "v"])).unwrap();
    assert_eq!(parsed.key, Value::str("k"));
    assert_eq!(parsed.val, Value::str("v"));
    assert_eq!(parsed.expiry, None);
    let parsed = SetArgs::from_args(&texts(&["k", "v", "px", "+15"])).unwrap();
    assert_eq!(parsed.expiry, Some(15));
    // other modifiers are passed over, and the last PX counts
    let parsed = SetArgs::from_args(&texts(&["k", "v", "NX", "PX", "1", "XX", "px", "-2"]));
    assert_eq!(parsed.unwrap().expiry, Some(-2));
    // the argument after PX is its number, even if it reads PX
    let parsed = SetArgs::from_args(&texts(&["k", "v", "PX", "PX"]));
    assert!(matches!(parsed, Err(Error::TypeError(_))));
}

#[test]
fn a_negative_px_sets_no_expiry() {
    let mut app = App::new();
    app.set(1000, &texts(&["k", "v", "PX", "-5"])).unwrap();
    assert_eq!(app.get(u128::MAX, &texts(&["k"])), Ok(Value::str("v")));
}

#[test]
fn config_set_then_get() {
    let mut app = App::new();
    assert_eq!(app.config(&texts(&["set", "dir", "/tmp"])), Ok(Value::str("OK")));
    assert_eq!(app.config(&texts(&["get", "dir"])), Ok(request(&["dir", "/tmp"])));
    assert_eq!(app.config(&texts(&["SET", "dir", "/var"])), Ok(Value::str("OK")));
    assert_eq!(app.config(&texts(&["GeT", "dir"])), Ok(request(&["dir", "/var"])));
}

#[test]
fn config_get_of_an_unset_name() {
    let mut app = App::new();
    assert_eq!(
        app.config(&texts(&["get", "dbfilename"])),
        Ok(Value::Array(Some(vec![Value::str("dbfilename"), Value::String(None)])))
    );
}

#[test]
fn set_config_is_seen_by_config_get() {
    let mut app = App::default();
    app.set_config("dir".to_string(), "/data".to_string());
    app.set_config("dbfilename".to_string(), "dump.rdb".to_string());
    assert_eq!(app.config(&texts(&["get", "dir"])), Ok(request(&["dir", "/data"])));
    assert_eq!(
        app.config(&texts(&["get", "dbfilename"])),
        Ok(request(&["dbfilename", "dump.rdb"]))
    );
}

#[test]
fn config_errors() {
    let mut app = App::new();
    let verb = Err(Error::InvalidReq("config requires verb (get/set)"));
    assert_eq!(app.config(&[]), verb);
    assert_eq!(app.config(&texts(&["del", "x"])), verb);
    assert_eq!(app.config(&[Value::Int(1)]), Err(Error::InvalidReq("verb must be string")));
    assert_eq!(
        app.config(&texts(&["get"])),
        Err(Error::InvalidReq("config get requires exactly one parameter"))
    );
    assert_eq!(
        app.config(&texts(&["get", "a", "b"])),
        Err(Error::InvalidReq("config get requires exactly one parameter"))
    );
    assert_eq!(
        app.config(&texts(&["set", "a"])),
        Err(Error::InvalidReq("config set requires exactly two parameters"))
    );
    assert_eq!(
        app.config(&[Value::str("get"), Value::Int(1)]),
        Err(Error::GenericStatic("config get key must be string"))
    );
    assert_eq!(
        app.config(&[Value::str("set"), Value::Int(1), Value::str("v")]),
        Err(Error::GenericStatic("config set key must be string"))
    );
    assert_eq!(
        app.config(&[Value::str("set"), Value::str("k"), Value::Int(1)]),
        Err(Error::GenericStatic("config set value must be string"))
    );
}

#[test]
fn config_args() {
    assert!(matches!(
        ConfigArgs::from_args(&texts(&["get", "dir"])),
        Ok(ConfigArgs::Get(name)) if name == "dir"
    ));
    assert!(matches!(
        ConfigArgs::from_args(&texts(&["Set", "dir", "/tmp"])),
        Ok(ConfigArgs::Put(name, value)) if name == "dir" && value == "/tmp"
    ));
}

#[test]
fn ping_and_echo() {
    let app = App::new();
    assert_eq!(app.ping(), Ok(Value::str("PONG")));
    assert_eq!(app.echo(&[Value::Int(5)]), Ok(Value::Int(5)));
    assert_eq!(app.echo(&texts(&["hi"])), Ok(Value::str("hi")));
}

#[test]
fn dispatch_answers_in_frames() {
    let mut app = App::new();
    assert_eq!(app.dispatch_command(0, request(&["ping"])), b"+PONG\r\n".to_vec());
    assert_eq!(app.dispatch_command(0, request(&["echo", "hey"])), b"+hey\r\n".to_vec());
    assert_eq!(app.dispatch_command(0, request(&["set", "k", "v"])), b"+OK\r\n".to_vec());
    assert_eq!(app.dispatch_command(0, request(&["get", "k"])), b"+v\r\n".to_vec());
    assert_eq!(app.dispatch_command(0, request(&["get", "other"])), b"$-1\r\n".to_vec());
    assert_eq!(
        app.dispatch_command(0, request(&["config", "set", "dir", "/tmp"])),
        b"+OK\r\n".to_vec()
    );
    assert_eq!(
        app.dispatch_command(0, request(&["config", "get", "dir"])),
        b"*2\r\n+dir\r\n+/tmp\r\n".to_vec()
    );
    assert_eq!(
        app.dispatch_command(0, request(&["config", "get", "none"])),
        b"*2\r\n+none\r\n$-1\r\n".to_vec()
    );
}

#[test]
fn dispatch_ignores_the_case_of_the_verb() {
    let mut upper = App::new();
    let mut lower = App::new();
    assert_eq!(
        upper.dispatch_command(7, request(&["SET", "k", "v", "PX", "3"])),
        lower.dispatch_command(7, request(&["set", "k", "v", "PX", "3"]))
    );
    for now in [7, 10, 11] {
        assert_eq!(
            upper.dispatch_command(now, request(&["GET", "k"])),
            lower.dispatch_command(now, request(&["get", "k"]))
        );
        assert_eq!(
            upper.dispatch_command(now, request(&["gEt", "k"])),
            lower.dispatch_command(now, request(&["Get", "k"]))
        );
    }
    assert_eq!(upper.dispatch_command(10, request(&["GET", "k"])), b"+v\r\n".to_vec());
    assert_eq!(upper.dispatch_command(11, request(&["GET", "k"])), b"$-1\r\n".to_vec());
    assert_eq!(upper.dispatch_command(0, request(&["PiNg"])), b"+PONG\r\n".to_vec());
    assert_eq!(
        upper.dispatch_command(0, request(&["CONFIG", "GET", "x"])),
        b"*2\r\n+x\r\n$-1\r\n".to_vec()
    );
}

#[test]
fn an_unknown_verb_is_named_in_the_error_line() {
    let mut app = App::new();
    assert_eq!(app.dispatch_command(0, request(&["FOO"])), b"-UNKNOWN FOO\r\n".to_vec());
    assert_eq!(
        app.dispatch_command(0, request(&["fOo", "bar"])),
        b"-UNKNOWN fOo\r\n".to_vec()
    );
    assert_eq!(app.dispatch_command(0, request(&["pingg"])), b"-UNKNOWN pingg\r\n".to_vec());
    assert_eq!(app.dispatch_command(0, request(&[""])), b"-UNKNOWN \r\n".to_vec());
}

#[test]
fn dispatch_error_lines() {
    let mut app = App::new();
    assert_eq!(
        app.dispatch_command(0, Value::Int(1)),
        b"-INVALIDREQ command must be an array\r\n".to_vec()
    );
    assert_eq!(
        app.dispatch_command(0, Value::Array(None)),
        b"-INVALIDREQ command must be an array\r\n".to_vec()
    );
    assert_eq!(
        app.dispatch_command(0, Value::Array(Some(vec![]))),
        b"-INVALIDREQ argv must not be empty\r\n".to_vec()
    );
    assert_eq!(
        app.dispatch_command(0, Value::Array(Some(vec![Value::Int(1)]))),
        b"-WRONGTYPE command must be a string\r\n".to_vec()
    );
    assert_eq!(
        app.dispatch_command(0, request(&["echo"])),
        b"-INVALIDREQ echo expects exactly one argument\r\n".to_vec()
    );
    assert_eq!(
        app.dispatch_command(0, request(&["set", "k", "v", "px", "x"])),
        b"-WRONGTYPE expiry must be an int\r\n".to_vec()
    );
    assert_eq!(
        app.dispatch_command(0, Value::Array(Some(vec![
            Value::str("config"),
            Value::str("get"),
            Value::Int(1)
        ]))),
        b"-ERR config get key must be string\r\n".to_vec()
    );
}

#[test]
fn error_lines() {
    assert_eq!(Error::Failure.to_string(), "-FAILURE");
    assert_eq!(Error::Generic("boom".to_string()).to_string(), "-ERR boom");
    assert_eq!(Error::GenericStatic("boom").to_string(), "-ERR boom");
    assert_eq!(Error::InvalidReq("bad").to_string(), "-INVALIDREQ bad");
    assert_eq!(Error::UnknownCommand("FOO".to_string()).to_string(), "-UNKNOWN FOO");
    assert_eq!(Error::TypeError("no int".to_string()).to_string(), "-WRONGTYPE no int");
}

#[test]
fn a_request_from_the_wire() {
    let mut app = App::new();
    let set = from_bytes(b"*3\r\n$3\r\nSET\r\n$1\r\nk\r\n$1\r\nv\r\n").unwrap();
    assert_eq!(app.dispatch_command(0, set), b"+OK\r\n".to_vec());
    let get = from_bytes(b"*2\r\n+get\r\n+k\r\n").unwrap();
    assert_eq!(app.dispatch_command(0, get), b"+v\r\n".to_vec());
}

#[test]
fn entries_expire_strictly_after_their_deadline() {
    let mut entry = Entry::new(Value::Int(1));
    assert_eq!(entry.expiry(), None);
    assert!(!entry.is_expired(0));
    assert!(!entry.is_expired(u128::MAX));
    entry.expires_in(1000, 50);
    assert_eq!(entry.expiry(), Some(1050));
    assert_eq!(entry.value(), &Value::Int(1));
    assert!(!entry.is_expired(1049));
    assert!(!entry.is_expired(1050));
    assert!(entry.is_expired(1051));
    entry.expires_in(u128::MAX - 1, 5);
    assert_eq!(entry.expiry(), Some(u128::MAX));
    assert!(!entry.is_expired(u128::MAX));
}

#[test]
fn store_keeps_one_entry_per_key() {
    let mut store = Store::new();
    assert_eq!(store.len(), 0);
    store.insert(Value::str("b"), Entry::new(Value::Int(2)));
    store.insert(Value::str("a"), Entry::new(Value::Int(1)));
    store.insert(Value::str("b"), Entry::new(Value::Int(3)));
    assert_eq!(store.len(), 2);
    assert_eq!(store.get(&Value::str("a")).map(|e| e.value()), Some(&Value::Int(1)));
    assert_eq!(store.get(&Value::str("b")).map(|e| e.value()), Some(&Value::Int(3)));
    assert_eq!(store.get(&Value::str("c")), None);
}

#[test]
fn prune_removes_exactly_the_expired_entries() {
    let mut store = Store::new();
    for (key, ms) in [("a", Some(10)), ("b", None), ("c", Some(20)), ("d", Some(10))] {
        let mut entry = Entry::new(Value::str(key));
        if let Some(ms) = ms {
            entry.expires_in(0, ms);
        }
        store.insert(Value::str(key), entry);
    }
    store.prune_expired(10);
    assert_eq!(store.len(), 4);
    store.prune_expired(11);
    assert_eq!(store.len(), 2);
    assert_eq!(store.get(&Value::str("a")), None);
    assert!(store.get(&Value::str("b")).is_some());
    assert!(store.get(&Value::str("c")).is_some());
    assert_eq!(store.get(&Value::str("d")), None);
    store.prune_expired(u128::MAX);
    assert_eq!(store.len(), 1);
    assert!(store.get(&Value::str("b")).is_some());
}

#[test]
fn settings_hold_the_last_value_put() {
    let mut settings = Settings::new();
    let dir = "dir".to_string();
    assert_eq!(settings.get(&dir), None);
    settings.set("dir".to_string(), "/a".to_string());
    settings.set("file".to_string(), "f".to_string());
    settings.set("dir".to_string(), "/b".to_string());
    assert_eq!(settings.get(&dir), Some(&"/b".to_string()));
    assert_eq!(settings.get(&"file".to_string()), Some(&"f".to_string()));
    assert_eq!(settings.get(&"Dir".to_string()), None);
}

#[test]
fn a_store_of_many_keys() {
    let mut store = Store::new();
    for step in 0..200 {
        let n = (step * 73) % 200;
        let mut entry = Entry::new(Value::Int(n));
        if n % 2 == 0 {
            entry.expires_in(0, n as u128);
        }
        store.insert(Value::str(&format!("key{n}")), entry);
    }
    assert_eq!(store.len(), 200);
    for n in 0..200 {
        let found = store.get(&Value::str(&format!("key{n}"))).unwrap();
        assert_eq!(found.value(), &Value::Int(n));
    }
    assert_eq!(store.get(&Value::str("key200")), None);
    // the even keys expire at their own number: at 100, those below 100 are gone
    store.prune_expired(100);
    assert_eq!(store.len(), 150);
    for n in 0..200 {
        let found = store.get(&Value::str(&format!("key{n}")));
        assert_eq!(found.is_some(), n % 2 == 1 || n >= 100, "key{n}");
    }
}

#[test]
fn requests_are_sent_to_the_part_they_work_on() {
    assert_eq!(route(&request(&["set", "k", "v"])), Route::Store);
    assert_eq!(route(&request(&["GET", "k"])), Route::Store);
    assert_eq!(route(&request(&["get"])), Route::Store);
    assert_eq!(route(&request(&["config", "get", "dir"])), Route::Settings);
    assert_eq!(route(&request(&["CONFIG"])), Route::Settings);
    assert_eq!(route(&request(&["ping"])), Route::Neither);
    assert_eq!(route(&request(&["echo", "x"])), Route::Neither);
    assert_eq!(route(&request(&["FOO"])), Route::Neither);
    assert_eq!(route(&request(&[])), Route::Neither);
    assert_eq!(route(&Value::Array(None)), Route::Neither);
    assert_eq!(route(&Value::Int(1)), Route::Neither);
    assert_eq!(route(&Value::Array(Some(vec![Value::Int(1)]))), Route::Neither);
}

#[test]
fn verbs_are_found_in_any_case() {
    assert_eq!(find_verb("ping"), Some(Verb::Ping));
    assert_eq!(find_verb("ECHO"), Some(Verb::Echo));
    assert_eq!(find_verb("Set"), Some(Verb::Put));
    assert_eq!(find_verb("gEt"), Some(Verb::Get));
    assert_eq!(find_verb("CONFIG"), Some(Verb::Config));
    assert_eq!(find_verb("FOO"), None);
    assert_eq!(find_verb(""), None);
    assert_eq!(find_verb("sets"), None);
}

#[test]
fn the_parts_answer_as_the_whole_does() {
    let requests: Vec<(u128, Value)> = vec![
        (0, request(&["ping"])),
        (1, request(&["set", "k", "v", "px", "10"])),
        (5, request(&["get", "k"])),
        (5, request(&["config", "set", "dir", "/tmp"])),
        (6, request(&["CONFIG", "GET", "dir"])),
        (12, request(&["get", "k"])),
        (12, request(&["echo", "hi"])),
        (12, request(&["nope"])),
        (12, request(&["config", "del"])),
        (13, request(&["set"])),
    ];
    let mut app = App::new();
    let mut store = Store::new();
    let mut settings = Settings::new();
    let mut store_alone = Store::new();
    let mut settings_alone = Settings::new();
    for (now, req) in requests {
        let whole = app.dispatch_command(now, req.clone());
        assert_eq!(dispatch(&mut store, &mut settings, now, req.clone()), whole);
        let by_route = match route(&req) {
            Route::Store => dispatch_on_store(&mut store_alone, now, req),
            Route::Settings => dispatch_on_settings(&mut settings_alone, req),
            Route::Neither => dispatch(&mut Store::new(), &mut Settings::new(), now, req),
        };
        assert_eq!(by_route, whole);
    }
    assert_eq!(store.len(), 1);
    assert_eq!(store_alone.len(), 1);
    assert_eq!(settings_alone.get(&"dir".to_string()), Some(&"/tmp".to_string()));
}

#[test]
fn commands_on_the_parts() {
    let mut store = Store::new();
    let mut settings = Settings::new();
    assert_eq!(run_ping(), Ok(Value::str("PONG")));
    assert_eq!(run_echo(&texts(&["a"])), Ok(Value::str("a")));
    assert_eq!(run_set(&mut store, 10, &texts(&["k", "v", "PX", "5"])), Ok(Value::str("OK")));
    assert_eq!(run_get(&store, 15, &texts(&["k"])), Ok(Value::str("v")));
    assert_eq!(run_get(&store, 16, &texts(&["k"])), Ok(Value::Null));
    assert_eq!(run_config(&mut settings, &texts(&["set", "a", "b"])), Ok(Value::str("OK")));
    assert_eq!(run_config(&mut settings, &texts(&["get", "a"])), Ok(request(&["a", "b"])));
}
