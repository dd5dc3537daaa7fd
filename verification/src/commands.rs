//! The command engine: requests are parsed into a verb and its arguments,
//! checked, run against the store and the settings, and answered.
//!
//! Each command works on one part of the state: `set` and `get` on the
//! store, `config` on the settings, the others on neither. The functions
//! here take the part they work on, so that a caller that keeps each part
//! behind a lock of its own takes the one lock that `route` names. `App` is
//! the two parts held together.

use crate::case_insensitive::{eq_ignore_case, fold_case, CaseInsensitive};
use crate::decimal::{parse_signed, parse_signed_text};
use crate::order::keys_ascend;
use crate::serializer::to_bytes;
use crate::sorted::{
    insert_pair, lemma_lookup_filtered, lemma_lookup_inserted, lemma_lookup_other, lookup,
};
use crate::store::{deadline, unexpired, Entry, Settings, SpecEntry, Store};
use crate::value::{lemma_view_items, view_items, SpecValue, Value};
use crate::wire::{crlf, encode_value, CR, LF};
use vstd::prelude::*;
use vstd::string::{StrSliceExecFns, StringExecFns, StringSliceAdditionalSpecFns};
use vstd::utf8::*;

verus! {

/// Why a request was not carried out.
#[derive(Debug, PartialEq, Eq)]
pub enum Error {
    Failure,
    Generic(String),
    GenericStatic(&'static str),
    InvalidReq(&'static str),
    UnknownCommand(String),
    TypeError(String),
}

/// The content of an [`Error`]: its category and its message.
pub enum SpecFault {
    Failure,
    Generic(Seq<char>),
    InvalidReq(Seq<char>),
    UnknownCommand(Seq<char>),
    TypeError(Seq<char>),
}

impl View for Error {
    type V = SpecFault;

    open spec fn view(&self) -> SpecFault {
        match self {
            Error::Failure => SpecFault::Failure,
            Error::Generic(msg) => SpecFault::Generic(msg@),
            Error::GenericStatic(msg) => SpecFault::Generic(msg@),
            Error::InvalidReq(msg) => SpecFault::InvalidReq(msg@),
            Error::UnknownCommand(verb) => SpecFault::UnknownCommand(verb@),
            Error::TypeError(msg) => SpecFault::TypeError(msg@),
        }
    }
}

/// The error line of a fault, without its CRLF: a `-`, the category, and
/// after a space the message.
pub open spec fn error_line(e: SpecFault) -> Seq<char> {
    match e {
        SpecFault::Failure => "-FAILURE"@,
        SpecFault::Generic(msg) => "-ERR "@ + msg,
        SpecFault::InvalidReq(msg) => "-INVALIDREQ "@ + msg,
        SpecFault::UnknownCommand(verb) => "-UNKNOWN "@ + verb,
        SpecFault::TypeError(msg) => "-WRONGTYPE "@ + msg,
    }
}

impl Error {
    /// The error line, without its CRLF.
    pub fn to_string(&self) -> (r: String)
        ensures
            r@ == error_line(self@),
    {
        match self {
            Error::Failure => String::from_str("-FAILURE"),
            Error::Generic(msg) => String::from_str("-ERR ").concat(msg.as_str()),
            Error::GenericStatic(msg) => String::from_str("-ERR ").concat(msg),
            Error::InvalidReq(msg) => String::from_str("-INVALIDREQ ").concat(msg),
            Error::UnknownCommand(verb) => String::from_str("-UNKNOWN ").concat(verb.as_str()),
            Error::TypeError(msg) => String::from_str("-WRONGTYPE ").concat(msg.as_str()),
        }
    }
}

/// The state that commands work on.
pub struct SpecApp {
    pub store: Seq<(SpecValue, SpecEntry)>,
    pub config: Map<Seq<char>, Seq<char>>,
}

/// A present text.
pub open spec fn text(t: Seq<char>) -> SpecValue {
    SpecValue::Text(Some(t))
}

/// The outcome of a command, by its content.
pub open spec fn view_result(r: Result<Value, Error>) -> Result<SpecValue, SpecFault> {
    match r {
        Ok(v) => Ok(v@),
        Err(e) => Err(e@),
    }
}

// ---------------------------------------------------------------------------
// SET
// ---------------------------------------------------------------------------
/// The arguments of `set`.
pub struct SpecSetArgs {
    pub key: SpecValue,
    pub val: SpecValue,
    /// The number given with `PX`, if `PX` was given.
    pub expiry: Option<i64>,
}

/// `v` is the modifier `PX`, in any case.
pub open spec fn is_px(v: SpecValue) -> bool {
    v matches SpecValue::Text(Some(t)) && eq_ignore_case(encode_utf8(t), encode_utf8("px"@))
}

/// The number of milliseconds that `v` gives: `v` itself if it is an
/// integer, the number it spells if it is a text.
pub open spec fn expiry_of(v: SpecValue) -> Option<i64> {
    match v {
        SpecValue::Int(ms) => Some(ms),
        SpecValue::Text(Some(t)) => parse_signed_text(encode_utf8(t)),
        _ => None,
    }
}

/// The expiry that the modifiers of `args` from index `i` on leave, coming
/// from `expiry`. `PX` takes the argument after it as the new expiry; every
/// other argument is passed over.
pub open spec fn scan_modifiers(args: Seq<SpecValue>, i: int, expiry: Option<i64>) -> Result<
    Option<i64>,
    SpecFault,
>
    decreases args.len() - i,
{
    if i < 0 || i >= args.len() {
        Ok(expiry)
    } else if is_px(args[i]) {
        if i + 1 >= args.len() {
            Err(SpecFault::TypeError("PX expects expiry."@))
        } else {
            match expiry_of(args[i + 1]) {
                Some(ms) => scan_modifiers(args, i + 2, Some(ms)),
                None => Err(SpecFault::TypeError("expiry must be an int"@)),
            }
        }
    } else {
        scan_modifiers(args, i + 1, expiry)
    }
}

/// The arguments of `set` that `args` gives: a key, a value, and
/// modifiers.
pub open spec fn parse_set_args(args: Seq<SpecValue>) -> Result<SpecSetArgs, SpecFault> {
    if args.len() < 1 {
        Err(SpecFault::InvalidReq("set is missing key"@))
    } else if args.len() < 2 {
        Err(SpecFault::InvalidReq("set is missing value argument"@))
    } else {
        match scan_modifiers(args, 2, None) {
            Ok(expiry) => Ok(SpecSetArgs { key: args[0], val: args[1], expiry }),
            Err(e) => Err(e),
        }
    }
}

/// The entry that `set` stores at the instant `now`: it expires `ms`
/// milliseconds later if `PX ms` was given with `ms` not negative, and not
/// at all otherwise.
pub open spec fn entry_to_store(args: SpecSetArgs, now: u128) -> SpecEntry {
    SpecEntry {
        value: args.val,
        expiry: match args.expiry {
            Some(ms) => if ms >= 0 {
                Some(deadline(now, ms as u128))
            } else {
                None
            },
            None => None,
        },
    }
}

/// What `set` does to the store at the instant `now`, and what it
/// answers.
pub open spec fn store_set(
    store: Seq<(SpecValue, SpecEntry)>,
    now: u128,
    args: Seq<SpecValue>,
) -> (Seq<(SpecValue, SpecEntry)>, Result<SpecValue, SpecFault>) {
    match parse_set_args(args) {
        Ok(parsed) => (
            insert_pair(store, parsed.key, entry_to_store(parsed, now)),
            Ok(text("OK"@)),
        ),
        Err(e) => (store, Err(e)),
    }
}

/// What `set` does at the instant `now`: it works on the store alone.
pub open spec fn spec_set(app: SpecApp, now: u128, args: Seq<SpecValue>) -> (
    SpecApp,
    Result<SpecValue, SpecFault>,
) {
    (
        SpecApp { store: store_set(app.store, now, args).0, config: app.config },
        store_set(app.store, now, args).1,
    )
}

/// The arguments of `set`.
pub struct SetArgs {
    pub key: Value,
    pub val: Value,
    pub expiry: Option<i64>,
}

impl View for SetArgs {
    type V = SpecSetArgs;

    open spec fn view(&self) -> SpecSetArgs {
        SpecSetArgs { key: self.key@, val: self.val@, expiry: self.expiry }
    }
}

/// Whether `arg` is the modifier `PX`, in any case.
fn arg_is_px(arg: &Value) -> (r: bool)
    ensures
        r == is_px(arg@),
{
    match arg.get_str() {
        Some(token) => CaseInsensitive(token.as_str()) == "px",
        None => false,
    }
}

/// The number of milliseconds that `arg` gives.
fn arg_expiry(arg: &Value) -> (r: Option<i64>)
    ensures
        r == expiry_of(arg@),
{
    match arg {
        Value::Int(ms) => Some(*ms),
        Value::String(Some(token)) => parse_signed(token.as_str().as_bytes()),
        _ => None,
    }
}

impl SetArgs {
    /// Reads the arguments of `set`: a key, a value, and modifiers, of
    /// which `PX <ms>` alone means something. A missing key or value is
    /// `InvalidReq`; `PX` without a number after it is `TypeError`.
    pub fn from_args(args: &[Value]) -> (r: Result<SetArgs, Error>)
        ensures
            match (r, parse_set_args(view_items(args@))) {
                (Ok(parsed), Ok(expected)) => parsed@ == expected,
                (Err(e), Err(f)) => e@ == f,
                _ => false,
            },
    {
        proof {
            lemma_view_items(args@);
        }
        if args.len() < 1 {
            return Err(Error::InvalidReq("set is missing key"));
        }
        if args.len() < 2 {
            return Err(Error::InvalidReq("set is missing value argument"));
        }
        let mut expiry: Option<i64> = None;
        let mut i: usize = 2;
        while i < args.len()
            invariant
                2 <= i <= args.len(),
                view_items(args@).len() == args@.len(),
                forall|j: int|
                    0 <= j < args@.len() ==> (#[trigger] view_items(args@)[j]) == args@[j]@,
                scan_modifiers(view_items(args@), 2, None) == scan_modifiers(
                    view_items(args@),
                    i as int,
                    expiry,
                ),
            decreases args.len() - i,
        {
            if arg_is_px(&args[i]) {
                if args.len() - i < 2 {
                    return Err(Error::TypeError(String::from_str("PX expects expiry.")));
                }
                match arg_expiry(&args[i + 1]) {
                    Some(ms) => {
                        expiry = Some(ms);
                    },
                    None => {
                        return Err(Error::TypeError(String::from_str("expiry must be an int")));
                    },
                }
                i += 2;
            } else {
                i += 1;
            }
        }
        Ok(SetArgs { key: args[0].clone(), val: args[1].clone(), expiry })
    }
}

// ---------------------------------------------------------------------------
// CONFIG
// ---------------------------------------------------------------------------
/// The arguments of `config`.
pub enum SpecConfigArgs {
    Get(Seq<char>),
    Put(Seq<char>, Seq<char>),
}

/// The arguments of `config` that `args` gives: the verb `get` with a
/// name, or the verb `set` with a name and a value.
pub open spec fn parse_config_args(args: Seq<SpecValue>) -> Result<SpecConfigArgs, SpecFault> {
    if args.len() < 1 {
        Err(SpecFault::InvalidReq("config requires verb (get/set)"@))
    } else {
        match args[0] {
            SpecValue::Text(Some(verb)) => if eq_ignore_case(
                encode_utf8(verb),
                encode_utf8("get"@),
            ) {
                if args.len() != 2 {
                    Err(SpecFault::InvalidReq("config get requires exactly one parameter"@))
                } else {
                    match args[1] {
                        SpecValue::Text(Some(name)) => Ok(SpecConfigArgs::Get(name)),
                        _ => Err(SpecFault::Generic("config get key must be string"@)),
                    }
                }
            } else if eq_ignore_case(encode_utf8(verb), encode_utf8("set"@)) {
                if args.len() != 3 {
                    Err(SpecFault::InvalidReq("config set requires exactly two parameters"@))
                } else {
                    match (args[1], args[2]) {
                        (SpecValue::Text(Some(name)), SpecValue::Text(Some(value))) => Ok(
                            SpecConfigArgs::Put(name, value),
                        ),
                        (SpecValue::Text(Some(name)), _) => Err(
                            SpecFault::Generic("config set value must be string"@),
                        ),
                        _ => Err(SpecFault::Generic("config set key must be string"@)),
                    }
                }
            } else {
                Err(SpecFault::InvalidReq("config requires verb (get/set)"@))
            },
            _ => Err(SpecFault::InvalidReq("verb must be string"@)),
        }
    }
}

/// What `config` does to the settings, and what it answers.
pub open spec fn settings_run(config: Map<Seq<char>, Seq<char>>, args: Seq<SpecValue>) -> (
    Map<Seq<char>, Seq<char>>,
    Result<SpecValue, SpecFault>,
) {
    match parse_config_args(args) {
        Ok(SpecConfigArgs::Get(name)) => (
            config,
            Ok(
                SpecValue::Array(
                    Some(
                        seq![
                            text(name),
                            SpecValue::Text(
                                if config.dom().contains(name) {
                                    Some(config[name])
                                } else {
                                    None
                                },
                            ),
                        ],
                    ),
                ),
            ),
        ),
        Ok(SpecConfigArgs::Put(name, value)) => (config.insert(name, value), Ok(text("OK"@))),
        Err(e) => (config, Err(e)),
    }
}

/// What `config` does: it works on the settings alone.
pub open spec fn spec_config(app: SpecApp, args: Seq<SpecValue>) -> (
    SpecApp,
    Result<SpecValue, SpecFault>,
) {
    (
        SpecApp { store: app.store, config: settings_run(app.config, args).0 },
        settings_run(app.config, args).1,
    )
}

/// The arguments of `config`.
pub enum ConfigArgs {
    Get(String),
    Put(String, String),
}

impl View for ConfigArgs {
    type V = SpecConfigArgs;

    open spec fn view(&self) -> SpecConfigArgs {
        match self {
            ConfigArgs::Get(name) => SpecConfigArgs::Get(name@),
            ConfigArgs::Put(name, value) => SpecConfigArgs::Put(name@, value@),
        }
    }
}

impl ConfigArgs {
    /// Reads the arguments of `config`: `get` with one name, or `set` with
    /// a name and a value, the verb in any case. A missing or unknown verb
    /// and a wrong number of arguments are `InvalidReq`; a name or value
    /// that is no text is `GenericStatic`.
    pub fn from_args(args: &[Value]) -> (r: Result<ConfigArgs, Error>)
        ensures
            match (r, parse_config_args(view_items(args@))) {
                (Ok(parsed), Ok(expected)) => parsed@ == expected,
                (Err(e), Err(f)) => e@ == f,
                _ => false,
            },
    {
        proof {
            lemma_view_items(args@);
        }
        if args.len() < 1 {
            return Err(Error::InvalidReq("config requires verb (get/set)"));
        }
        let verb = match args[0].get_str() {
            Some(verb) => verb,
            None => {
                return Err(Error::InvalidReq("verb must be string"));
            },
        };
        if CaseInsensitive(verb.as_str()) == "get" {
            if args.len() != 2 {
                return Err(Error::InvalidReq("config get requires exactly one parameter"));
            }
            match args[1].get_str() {
                Some(name) => Ok(ConfigArgs::Get(name.clone())),
                None => Err(Error::GenericStatic("config get key must be string")),
            }
        } else if CaseInsensitive(verb.as_str()) == "set" {
            if args.len() != 3 {
                return Err(Error::InvalidReq("config set requires exactly two parameters"));
            }
            let name = match args[1].get_str() {
                Some(name) => name.clone(),
                None => {
                    return Err(Error::GenericStatic("config set key must be string"));
                },
            };
            let value = match args[2].get_str() {
                Some(value) => value.clone(),
                None => {
                    return Err(Error::GenericStatic("config set value must be string"));
                },
            };
            Ok(ConfigArgs::Put(name, value))
        } else {
            Err(Error::InvalidReq("config requires verb (get/set)"))
        }
    }
}

// ---------------------------------------------------------------------------
// The engine
// ---------------------------------------------------------------------------
/// What `echo` answers.
pub open spec fn spec_echo(args: Seq<SpecValue>) -> Result<SpecValue, SpecFault> {
    if args.len() == 1 {
        Ok(args[0])
    } else {
        Err(SpecFault::InvalidReq("echo expects exactly one argument"@))
    }
}

/// What `get` answers from the store at the instant `now`: the value
/// under the key, or `Null` if there is none or it has expired.
pub open spec fn store_get(
    store: Seq<(SpecValue, SpecEntry)>,
    now: u128,
    args: Seq<SpecValue>,
) -> Result<SpecValue, SpecFault> {
    if args.len() == 1 {
        match lookup(store, args[0]) {
            Some(entry) => if entry.expired_at(now) {
                Ok(SpecValue::Null)
            } else {
                Ok(entry.value)
            },
            None => Ok(SpecValue::Null),
        }
    } else {
        Err(SpecFault::InvalidReq("get expects exactly one argument"@))
    }
}

/// What `get` answers at the instant `now`: it reads the store alone.
pub open spec fn spec_get(app: SpecApp, now: u128, args: Seq<SpecValue>) -> Result<
    SpecValue,
    SpecFault,
> {
    store_get(app.store, now, args)
}

/// The commands.
#[derive(Debug, Clone, Copy, PartialEq, Eq)]
pub enum Verb {
    Ping,
    Echo,
    Put,
    Get,
    Config,
}

/// The command that `name` names, in any case.
pub open spec fn verb_of(name: Seq<char>) -> Option<Verb> {
    let bytes = encode_utf8(name);
    if eq_ignore_case(bytes, encode_utf8("ping"@)) {
        Some(Verb::Ping)
    } else if eq_ignore_case(bytes, encode_utf8("echo"@)) {
        Some(Verb::Echo)
    } else if eq_ignore_case(bytes, encode_utf8("set"@)) {
        Some(Verb::Put)
    } else if eq_ignore_case(bytes, encode_utf8("get"@)) {
        Some(Verb::Get)
    } else if eq_ignore_case(bytes, encode_utf8("config"@)) {
        Some(Verb::Config)
    } else {
        None
    }
}

/// What the command `verb` does with `args` at the instant `now`.
pub open spec fn spec_run(app: SpecApp, now: u128, verb: Verb, args: Seq<SpecValue>) -> (
    SpecApp,
    Result<SpecValue, SpecFault>,
) {
    match verb {
        Verb::Ping => (app, Ok(text("PONG"@))),
        Verb::Echo => (app, spec_echo(args)),
        Verb::Put => spec_set(app, now, args),
        Verb::Get => (app, spec_get(app, now, args)),
        Verb::Config => spec_config(app, args),
    }
}

/// What a request does at the instant `now`: it must be a sequence whose
/// first item is a text that names a command; the items after it are the
/// command's arguments.
pub open spec fn spec_dispatch(app: SpecApp, now: u128, request: SpecValue) -> (
    SpecApp,
    Result<SpecValue, SpecFault>,
) {
    match request {
        SpecValue::Array(Some(argv)) => if argv.len() == 0 {
            (app, Err(SpecFault::InvalidReq("argv must not be empty"@)))
        } else {
            match argv[0] {
                SpecValue::Text(Some(name)) => match verb_of(name) {
                    Some(verb) => spec_run(app, now, verb, argv.skip(1)),
                    None => (app, Err(SpecFault::UnknownCommand(name))),
                },
                _ => (app, Err(SpecFault::TypeError("command must be a string"@))),
            }
        },
        _ => (app, Err(SpecFault::InvalidReq("command must be an array"@))),
    }
}

/// The bytes that answer a request: the frame of the result, or the error
/// line of the fault.
pub open spec fn response(r: Result<SpecValue, SpecFault>) -> Seq<u8> {
    match r {
        Ok(v) => encode_value(v),
        Err(e) => encode_utf8(error_line(e)) + crlf(),
    }
}

/// The part of the state that a request works on.
#[derive(Debug, Clone, Copy, PartialEq, Eq)]
pub enum Route {
    /// The request reads and changes nothing: `ping`, `echo`, and every
    /// request that names no command.
    Neither,
    /// The request works on the store: `set` and `get`.
    Store,
    /// The request works on the settings: `config`.
    Settings,
}

/// The part of the state that `request` works on.
pub open spec fn route_of(request: SpecValue) -> Route {
    match request {
        SpecValue::Array(Some(argv)) => if argv.len() == 0 {
            Route::Neither
        } else {
            match argv[0] {
                SpecValue::Text(Some(name)) => match verb_of(name) {
                    Some(Verb::Put) => Route::Store,
                    Some(Verb::Get) => Route::Store,
                    Some(Verb::Config) => Route::Settings,
                    _ => Route::Neither,
                },
                _ => Route::Neither,
            }
        },
        _ => Route::Neither,
    }
}

/// The command that `name` names, in any case.
pub fn find_verb(name: &str) -> (r: Option<Verb>)
    ensures
        r == verb_of(name@),
{
    let name = CaseInsensitive(name);
    if name == "ping" {
        Some(Verb::Ping)
    } else if name == "echo" {
        Some(Verb::Echo)
    } else if name == "set" {
        Some(Verb::Put)
    } else if name == "get" {
        Some(Verb::Get)
    } else if name == "config" {
        Some(Verb::Config)
    } else {
        None
    }
}

/// The part of the state that the request `arg` works on.
pub fn route(arg: &Value) -> (r: Route)
    ensures
        r == route_of(arg@),
{
    let argv = match arg {
        Value::Array(Some(argv)) => argv,
        _ => {
            return Route::Neither;
        },
    };
    proof {
        lemma_view_items(argv@);
    }
    if argv.len() == 0 {
        return Route::Neither;
    }
    match &argv[0] {
        Value::String(Some(command)) => match find_verb(command.as_str()) {
            Some(Verb::Put) => Route::Store,
            Some(Verb::Get) => Route::Store,
            Some(Verb::Config) => Route::Settings,
            _ => Route::Neither,
        },
        _ => Route::Neither,
    }
}

/// Answers the text `PONG`.
pub fn run_ping() -> (r: Result<Value, Error>)
    ensures
        view_result(r) == Ok::<SpecValue, SpecFault>(text("PONG"@)),
{
    Ok(Value::str("PONG"))
}

/// Answers its one argument.
pub fn run_echo(argv: &[Value]) -> (r: Result<Value, Error>)
    ensures
        view_result(r) == spec_echo(view_items(argv@)),
{
    proof {
        lemma_view_items(argv@);
    }
    if argv.len() != 1 {
        return Err(Error::InvalidReq("echo expects exactly one argument"));
    }
    Ok(argv[0].clone())
}

/// Stores a value under a key at the instant `now`, in place of what was
/// there under it, and answers `OK`.
pub fn run_set(store: &mut Store, now: u128, argv: &[Value]) -> (r: Result<Value, Error>)
    ensures
        (final(store)@, view_result(r)) == store_set(old(store)@, now, view_items(argv@)),
        keys_ascend(old(store)@),
        keys_ascend(final(store)@),
{
    proof {
        use_type_invariant(&*store);
    }
    let args = match SetArgs::from_args(argv) {
        Ok(args) => args,
        Err(e) => {
            return Err(e);
        },
    };
    let ghost parsed = args@;
    let SetArgs { key, val, expiry } = args;
    let mut entry = Entry::new(val);
    match expiry {
        Some(ms) => {
            if ms >= 0 {
                entry.expires_in(now, ms as u128);
            }
        },
        None => {},
    }
    assert(entry@ == entry_to_store(parsed, now));
    store.insert(key, entry);
    Ok(Value::str("OK"))
}

/// Answers the value under a key at the instant `now`, or `Null` if there
/// is none or it has expired. Nothing is taken out of the store.
pub fn run_get(store: &Store, now: u128, argv: &[Value]) -> (r: Result<Value, Error>)
    ensures
        view_result(r) == store_get(store@, now, view_items(argv@)),
        keys_ascend(store@),
{
    proof {
        use_type_invariant(store);
        lemma_view_items(argv@);
    }
    if argv.len() != 1 {
        return Err(Error::InvalidReq("get expects exactly one argument"));
    }
    match store.get(&argv[0]) {
        Some(entry) => {
            if entry.is_expired(now) {
                Ok(Value::Null)
            } else {
                Ok(entry.value().clone())
            }
        },
        None => Ok(Value::Null),
    }
}

/// Reads a setting, answering its name and its value or an absent text, or
/// puts one, answering `OK`.
pub fn run_config(settings: &mut Settings, argv: &[Value]) -> (r: Result<Value, Error>)
    ensures
        (final(settings)@, view_result(r)) == settings_run(old(settings)@, view_items(argv@)),
{
    let args = match ConfigArgs::from_args(argv) {
        Ok(args) => args,
        Err(e) => {
            return Err(e);
        },
    };
    match args {
        ConfigArgs::Get(name) => {
            let found = match settings.get(&name) {
                Some(value) => Some(value.clone()),
                None => None,
            };
            let mut items: Vec<Value> = Vec::new();
            items.push(Value::String(Some(name)));
            items.push(Value::String(found));
            proof {
                lemma_view_items(items@);
                assert(view_items(items@) =~= seq![
                    text(name@),
                    SpecValue::Text(
                        if old(settings)@.dom().contains(name@) {
                            Some(old(settings)@[name@])
                        } else {
                            None
                        },
                    ),
                ]);
            }
            Ok(Value::Array(Some(items)))
        },
        ConfigArgs::Put(name, value) => {
            settings.set(name, value);
            Ok(Value::str("OK"))
        },
    }
}

/// The state that a store and settings make up.
pub open spec fn state_of(store: Store, settings: Settings) -> SpecApp {
    SpecApp { store: store@, config: settings@ }
}

/// Carries out a request at the instant `now` and encodes the result.
fn dispatch_inner(store: &mut Store, settings: &mut Settings, now: u128, arg: Value) -> (r: Result<
    Vec<u8>,
    Error,
>)
    ensures
        state_of(*final(store), *final(settings)) == spec_dispatch(
            state_of(*old(store), *old(settings)),
            now,
            arg@,
        ).0,
        match (r, spec_dispatch(state_of(*old(store), *old(settings)), now, arg@).1) {
            (Ok(bytes), Ok(v)) => bytes@ == encode_value(v),
            (Err(e), Err(f)) => e@ == f,
            _ => false,
        },
{
    let argv = match arg {
        Value::Array(Some(argv)) => argv,
        _ => {
            return Err(Error::InvalidReq("command must be an array"));
        },
    };
    proof {
        lemma_view_items(argv@);
    }
    if argv.len() == 0 {
        return Err(Error::InvalidReq("argv must not be empty"));
    }
    let command = match &argv[0] {
        Value::String(Some(command)) => command,
        _ => {
            return Err(Error::TypeError(String::from_str("command must be a string")));
        },
    };
    let args = vstd::slice::slice_subrange(argv.as_slice(), 1, argv.len());
    proof {
        lemma_view_items(args@);
        assert(view_items(args@) =~= view_items(argv@).skip(1));
    }
    let result = match find_verb(command.as_str()) {
        Some(Verb::Ping) => run_ping(),
        Some(Verb::Echo) => run_echo(args),
        Some(Verb::Put) => run_set(store, now, args),
        Some(Verb::Get) => run_get(store, now, args),
        Some(Verb::Config) => run_config(settings, args),
        None => {
            return Err(Error::UnknownCommand(command.clone()));
        },
    };
    match result {
        Ok(value) => match to_bytes(&value) {
            Ok(bytes) => Ok(bytes),
            Err(_) => Err(Error::GenericStatic("failed to serialize")),
        },
        Err(e) => Err(e),
    }
}

/// Carries out a request on a store and settings at the instant `now` and
/// answers it: with the frame of the result, or with the error line of the
/// fault.
pub fn dispatch(store: &mut Store, settings: &mut Settings, now: u128, arg: Value) -> (r: Vec<u8>)
    ensures
        state_of(*final(store), *final(settings)) == spec_dispatch(
            state_of(*old(store), *old(settings)),
            now,
            arg@,
        ).0,
        r@ == response(spec_dispatch(state_of(*old(store), *old(settings)), now, arg@).1),
        keys_ascend(old(store)@),
        keys_ascend(final(store)@),
{
    proof {
        use_type_invariant(&*store);
    }
    let r = match dispatch_inner(store, settings, now, arg) {
        Ok(bytes) => bytes,
        Err(e) => {
            let line = e.to_string();
            let mut bytes = line.as_str().as_bytes_vec();
            bytes.push(CR);
            bytes.push(LF);
            assert(bytes@ =~= encode_utf8(error_line(e@)) + crlf());
            bytes
        },
    };
    proof {
        use_type_invariant(&*store);
    }
    r
}

/// Carries out a request on the store alone, as with no settings, at the
/// instant `now`, and answers it. For a request that `route` does not send
/// to the settings this is what `dispatch` does with any settings (see
/// `lemma_route`).
pub fn dispatch_on_store(store: &mut Store, now: u128, arg: Value) -> (r: Vec<u8>)
    ensures
        final(store)@ == spec_dispatch(
            SpecApp { store: old(store)@, config: Map::empty() },
            now,
            arg@,
        ).0.store,
        r@ == response(
            spec_dispatch(SpecApp { store: old(store)@, config: Map::empty() }, now, arg@).1,
        ),
        keys_ascend(old(store)@),
        keys_ascend(final(store)@),
{
    let mut settings = Settings::new();
    dispatch(store, &mut settings, now, arg)
}

/// Carries out a request on the settings alone, as with an empty store,
/// and answers it. For a request that `route` sends to the settings this
/// is what `dispatch` does with any store at any instant (see
/// `lemma_route`).
pub fn dispatch_on_settings(settings: &mut Settings, arg: Value) -> (r: Vec<u8>)
    ensures
        final(settings)@ == spec_dispatch(
            SpecApp { store: Seq::empty(), config: old(settings)@ },
            0,
            arg@,
        ).0.config,
        r@ == response(
            spec_dispatch(SpecApp { store: Seq::empty(), config: old(settings)@ }, 0, arg@).1,
        ),
{
    let mut store = Store::new();
    dispatch(&mut store, settings, 0, arg)
}

/// The store and the settings that commands work on.
#[derive(Debug)]
pub struct App {
    store: Store,
    config: Settings,
}

impl View for App {
    type V = SpecApp;

    closed spec fn view(&self) -> SpecApp {
        SpecApp { store: self.store@, config: self.config@ }
    }
}

impl App {
    /// An empty store and no settings.
    pub fn new() -> (r: App)
        ensures
            r@.store == Seq::<(SpecValue, SpecEntry)>::empty(),
            r@.config == Map::<Seq<char>, Seq<char>>::empty(),
    {
        App { store: Store::new(), config: Settings::new() }
    }

    /// Takes out of the store every entry that has expired at the instant
    /// `now`.
    pub fn prune_expired(&mut self, now: u128)
        ensures
            final(self)@.store == unexpired(old(self)@.store, now),
            final(self)@.config == old(self)@.config,
            keys_ascend(old(self)@.store),
            keys_ascend(final(self)@.store),
    {
        self.store.prune_expired(now);
    }

    /// Puts the setting `value` under `key`.
    pub fn set_config(&mut self, key: String, value: String)
        ensures
            final(self)@.store == old(self)@.store,
            final(self)@.config == old(self)@.config.insert(key@, value@),
    {
        self.config.set(key, value);
    }

    /// Answers the text `PONG`.
    pub fn ping(&self) -> (r: Result<Value, Error>)
        ensures
            view_result(r) == Ok::<SpecValue, SpecFault>(text("PONG"@)),
    {
        run_ping()
    }

    /// Answers its one argument.
    pub fn echo(&self, argv: &[Value]) -> (r: Result<Value, Error>)
        ensures
            view_result(r) == spec_echo(view_items(argv@)),
    {
        run_echo(argv)
    }

    /// Stores a value under a key at the instant `now`, in place of what
    /// was there under it, and answers `OK`.
    pub fn set(&mut self, now: u128, argv: &[Value]) -> (r: Result<Value, Error>)
        ensures
            (final(self)@, view_result(r)) == spec_set(old(self)@, now, view_items(argv@)),
            keys_ascend(old(self)@.store),
            keys_ascend(final(self)@.store),
    {
        run_set(&mut self.store, now, argv)
    }

    /// Answers the value under a key at the instant `now`, or `Null` if
    /// there is none or it has expired. Nothing is taken out of the store.
    pub fn get(&self, now: u128, argv: &[Value]) -> (r: Result<Value, Error>)
        ensures
            view_result(r) == spec_get(self@, now, view_items(argv@)),
            keys_ascend(self@.store),
    {
        run_get(&self.store, now, argv)
    }

    /// Reads a setting, answering its name and its value or an absent
    /// text, or puts one, answering `OK`.
    pub fn config(&mut self, argv: &[Value]) -> (r: Result<Value, Error>)
        ensures
            (final(self)@, view_result(r)) == spec_config(old(self)@, view_items(argv@)),
    {
        run_config(&mut self.config, argv)
    }

    /// Carries out a request at the instant `now` and answers it: with the
    /// frame of the result, or with the error line of the fault.
    pub fn dispatch_command(&mut self, now: u128, arg: Value) -> (r: Vec<u8>)
        ensures
            final(self)@ == spec_dispatch(old(self)@, now, arg@).0,
            r@ == response(spec_dispatch(old(self)@, now, arg@).1),
            keys_ascend(old(self)@.store),
            keys_ascend(final(self)@.store),
    {
        dispatch(&mut self.store, &mut self.config, now, arg)
    }
}

impl Default for App {
    fn default() -> (r: App)
        ensures
            r@.store == Seq::<(SpecValue, SpecEntry)>::empty(),
            r@.config == Map::<Seq<char>, Seq<char>>::empty(),
    {
        App::new()
    }
}

// ---------------------------------------------------------------------------
// What holds of the commands together
// ---------------------------------------------------------------------------
/// The bytes of `a` and `b` differ in more than the case of letters if at
/// some index they hold different bytes of which neither is a capital.
proof fn lemma_differs(a: Seq<u8>, b: Seq<u8>, at: int)
    requires
        0 <= at < a.len(),
        0 <= at < b.len(),
        a[at] != b[at],
        !(65 <= a[at] <= 90),
        !(65 <= b[at] <= 90),
    ensures
        !eq_ignore_case(a, b),
{
    if eq_ignore_case(a, b) {
        assert(fold_case(a)[at] == fold_case(
            b,
        )[at]);
    }
}

/// The two verbs of `config` are different words, whatever the case.
proof fn lemma_get_is_not_set()
    ensures
        !eq_ignore_case(encode_utf8("get"@), encode_utf8("set"@)),
{
    reveal_strlit("get");
    reveal_strlit("set");
    is_ascii_chars_encode_utf8("get"@);
    is_ascii_chars_encode_utf8("set"@);
    assert("get"@[0] == 'g');
    assert("set"@[0] == 's');
    lemma_differs(encode_utf8("get"@), encode_utf8("set"@), 0);
}

/// A value stored without an expiry is what `get` answers for its key from
/// then on, at any instant.
pub proof fn lemma_get_after_set(
    app: SpecApp,
    now: u128,
    later: u128,
    key: SpecValue,
    val: SpecValue,
)
    requires
        keys_ascend(app.store),
    ensures
        spec_set(app, now, seq![key, val]).1 == Ok::<SpecValue, SpecFault>(text("OK"@)),
        spec_get(spec_set(app, now, seq![key, val]).0, later, seq![key]) == Ok::<
            SpecValue,
            SpecFault,
        >(val),
{
    let args = seq![key, val];
    assert(scan_modifiers(args, 2, None) == Ok::<Option<i64>, SpecFault>(None));
    let entry = SpecEntry { value: val, expiry: None };
    lemma_lookup_inserted(app.store, key, entry);
}

/// A value stored with `PX ms` is what `get` answers for its key up to
/// `ms` milliseconds after the instant of storing, and `Null` after that.
/// With `PX 0`, `get` answers `Null` at every later instant.
pub proof fn lemma_get_after_set_px(
    app: SpecApp,
    now: u128,
    later: u128,
    key: SpecValue,
    val: SpecValue,
    px: SpecValue,
    amount: SpecValue,
    ms: i64,
)
    requires
        keys_ascend(app.store),
        is_px(px),
        expiry_of(amount) == Some(ms),
        ms >= 0,
    ensures
        spec_set(app, now, seq![key, val, px, amount]).1 == Ok::<SpecValue, SpecFault>(
            text("OK"@),
        ),
        spec_get(spec_set(app, now, seq![key, val, px, amount]).0, later, seq![key]) == Ok::<
            SpecValue,
            SpecFault,
        >(
            if later > deadline(now, ms as u128) {
                SpecValue::Null
            } else {
                val
            },
        ),
        ms == 0 && later > now ==> spec_get(
            spec_set(app, now, seq![key, val, px, amount]).0,
            later,
            seq![key],
        ) == Ok::<SpecValue, SpecFault>(SpecValue::Null),
{
    let args = seq![key, val, px, amount];
    assert(scan_modifiers(args, 4, Some(ms)) == Ok::<Option<i64>, SpecFault>(Some(ms)));
    assert(scan_modifiers(args, 2, None) == Ok::<Option<i64>, SpecFault>(Some(ms)));
    let entry = SpecEntry { value: val, expiry: Some(deadline(now, ms as u128)) };
    lemma_lookup_inserted(app.store, key, entry);
}

/// `get` with one argument never fails, and for a key that the store does
/// not hold it answers `Null`.
pub proof fn lemma_get_absent(app: SpecApp, now: u128, key: SpecValue)
    ensures
        spec_get(app, now, seq![key]) is Ok,
        lookup(app.store, key) is None ==> spec_get(app, now, seq![key]) == Ok::<
            SpecValue,
            SpecFault,
        >(SpecValue::Null),
{
}

/// Storing a value under one key leaves what `get` answers for every other
/// key as it was.
pub proof fn lemma_set_keeps_others(
    app: SpecApp,
    now: u128,
    later: u128,
    key: SpecValue,
    val: SpecValue,
    other: SpecValue,
)
    requires
        keys_ascend(app.store),
        other != key,
    ensures
        spec_get(spec_set(app, now, seq![key, val]).0, later, seq![other]) == spec_get(
            app,
            later,
            seq![other],
        ),
{
    let args = seq![key, val];
    assert(scan_modifiers(args, 2, None) == Ok::<Option<i64>, SpecFault>(None));
    let entry = SpecEntry { value: val, expiry: None };
    lemma_lookup_other(app.store, key, entry, other);
}

/// Pruning changes no answer: what `get` answers after the entries that had
/// expired at some instant were taken out is what it answered before, at
/// that instant and at every later one.
pub proof fn lemma_prune_keeps_answers(app: SpecApp, now: u128, later: u128, key: SpecValue)
    requires
        keys_ascend(app.store),
        now <= later,
    ensures
        spec_get(
            SpecApp { store: unexpired(app.store, now), config: app.config },
            later,
            seq![key],
        ) == spec_get(app, later, seq![key]),
{
    lemma_lookup_filtered(
        app.store,
        |p: (SpecValue, SpecEntry)| !p.1.expired_at(now),
        key,
    );
}

/// A setting that was put is what `config get` answers, after its name.
pub proof fn lemma_config_get_after_set(
    app: SpecApp,
    put: Seq<char>,
    get: Seq<char>,
    name: Seq<char>,
    value: Seq<char>,
)
    requires
        eq_ignore_case(encode_utf8(put), encode_utf8("set"@)),
        eq_ignore_case(encode_utf8(get), encode_utf8("get"@)),
    ensures
        spec_config(app, seq![text(put), text(name), text(value)]).1 == Ok::<
            SpecValue,
            SpecFault,
        >(text("OK"@)),
        spec_config(
            spec_config(app, seq![text(put), text(name), text(value)]).0,
            seq![text(get), text(name)],
        ).1 == Ok::<SpecValue, SpecFault>(SpecValue::Array(Some(seq![text(name), text(value)]))),
{
    lemma_get_is_not_set();
}

/// Requests whose verbs differ only in the case of letters do the same and
/// are answered the same, if the verb names a command.
pub proof fn lemma_dispatch_ignores_case(
    app: SpecApp,
    now: u128,
    verb: Seq<char>,
    other: Seq<char>,
    args: Seq<SpecValue>,
)
    requires
        eq_ignore_case(encode_utf8(verb), encode_utf8(other)),
        verb_of(verb) is Some,
    ensures
        spec_dispatch(app, now, SpecValue::Array(Some(seq![text(verb)] + args))) == spec_dispatch(
            app,
            now,
            SpecValue::Array(Some(seq![text(other)] + args)),
        ),
{
    let a = seq![text(verb)] + args;
    let b = seq![text(other)] + args;
    assert(a[0] == text(verb));
    assert(b[0] == text(other));
    assert(a.skip(1) =~= args);
    assert(b.skip(1) =~= args);
    assert(verb_of(verb) == verb_of(other));
}

/// A request works on the part of the state that `route_of` names, and on
/// nothing else: it leaves the rest as it was, and what it does and answers
/// is the same whatever the rest holds. A request for the settings does
/// and answers the same at every instant.
pub proof fn lemma_route(app: SpecApp, other: SpecApp, now: u128, then: u128, request: SpecValue)
    ensures
        route_of(request) != Route::Settings ==> {
            &&& spec_dispatch(app, now, request).0.config == app.config
            &&& app.store == other.store ==> spec_dispatch(other, now, request).0.store
                == spec_dispatch(app, now, request).0.store && spec_dispatch(other, now, request).1
                == spec_dispatch(app, now, request).1
        },
        route_of(request) != Route::Store ==> {
            &&& spec_dispatch(app, now, request).0.store == app.store
            &&& app.config == other.config ==> spec_dispatch(other, then, request).0.config
                == spec_dispatch(app, now, request).0.config && spec_dispatch(
                other,
                then,
                request,
            ).1 == spec_dispatch(app, now, request).1
        },
{
}

/// A request whose verb names no command changes nothing and is answered
/// with the error line `-UNKNOWN`, a space, and the verb as it was sent.
pub proof fn lemma_unknown_verb(app: SpecApp, now: u128, verb: Seq<char>, args: Seq<SpecValue>)
    requires
        verb_of(verb) is None,
    ensures
        spec_dispatch(app, now, SpecValue::Array(Some(seq![text(verb)] + args))) == (
            app,
            Err::<SpecValue, SpecFault>(SpecFault::UnknownCommand(verb)),
        ),
        response(Err(SpecFault::UnknownCommand(verb))) == encode_utf8("-UNKNOWN "@ + verb)
            + crlf(),
{
    let a = seq![text(verb)] + args;
    assert(a[0] == text(verb));
}

} // verus!
