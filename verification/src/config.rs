//! The service's configuration, built from its settings.
use vstd::prelude::*;

use crate::collection::{collection_accepts, WordCollectionMemory};
use crate::env::EnvArgs;
use crate::log::LoggerConsole;
use crate::numbers::{decimal, parse_i64, parse_u16, parsed_signed, parsed_unsigned, u128_to_string};
use crate::text::{append_str, string_of};

verus! {

/// The name of the service; sessions are named after it.
pub const SERVICE_NAME: &'static str = "RUST-DICTIONARY";
/// The setting that names the address the service listens on.
pub const ROCKET_ADDRESS: &'static str = "ROCKET_ADDRESS";
/// The setting that names the port the service listens on.
pub const ROCKET_PORT: &'static str = "ROCKET_PORT";
/// The setting that bounds the size of a random search.
pub const MAX_RANDOM: &'static str = "MAX_RANDOM";
/// The setting that bounds the size of a permutation search.
pub const MAX_PERMUTE: &'static str = "MAX_PERMUTE";
/// The bound of a random search when not set.
pub const DEFAULT_MAX_RANDOM: i64 = 100;
/// The bound of a permutation search when not set.
pub const DEFAULT_MAX_PERMUTE: i64 = 100000;

/// The value of an optional numeric setting: its default when absent, else
/// its text read as an `i64`.
pub open spec fn bound_setting(v: Option<Seq<char>>, default: i64) -> Option<int> {
    match v {
        Some(s) => parsed_signed(s, i64::MIN as int, i64::MAX as int),
        None => Some(default as int),
    }
}

/// The settings a configuration can be built from: an address, a port that
/// reads as a `u16`, bounds that read as `i64` when given, and what the
/// dictionary needs.
pub open spec fn configuration_accepts(args: EnvArgs) -> bool {
    &&& args.var(ROCKET_ADDRESS@) is Some
    &&& args.var(ROCKET_PORT@) matches Some(p) && parsed_unsigned(p, u16::MAX as int) is Some
    &&& bound_setting(args.var(MAX_RANDOM@), DEFAULT_MAX_RANDOM) is Some
    &&& bound_setting(args.var(MAX_PERMUTE@), DEFAULT_MAX_PERMUTE) is Some
    &&& collection_accepts(args)
}

/// The name of the session started at `timestamp`.
pub open spec fn session_name(timestamp: u128) -> Seq<char> {
    SERVICE_NAME@ + "-"@ + decimal(timestamp as nat)
}

/// The service's configuration.
pub struct Configuration {
    /// When the session started, in milliseconds since the Unix epoch.
    pub timestamp: u128,
    pub session_id: String,
    pub address: String,
    pub port: u16,
    pub word_collection: WordCollectionMemory,
    pub max_random: i64,
    pub max_permute: i64,
}

fn read_bound(args: &EnvArgs, name: &str, default: i64) -> (r: Option<i64>)
    ensures
        match r {
            Some(v) => bound_setting(args.var(name@), default) == Some(v as int),
            None => bound_setting(args.var(name@), default) is None,
        },
{
    match args.get(name) {
        Some(v) => parse_i64(v.as_str()),
        None => Some(default),
    }
}

/// The dictionary the settings configure (empty until its file is read).
pub fn get_collection(args: EnvArgs) -> (c: WordCollectionMemory)
    requires
        collection_accepts(args),
    ensures
        c.wf(),
        c.entries().len() == 0,
        c.header_row() == Seq::<Seq<char>>::empty(),
        Some(c.source()) == args.var(crate::collection::SOURCE_FILE@),
        Some(c.rebuild_target()) == args.var(crate::collection::REBUILD_FILE@),
        Some(c.scraper_enabled()) == crate::collection::flag_setting(args.var(crate::collection::ENABLE_SCRAPER@)),
        Some(c.rebuild_enabled()) == crate::collection::flag_setting(args.var(crate::collection::ENABLE_REBUILD@)),
{
    WordCollectionMemory::new(args)
}

/// The logger the settings configure: the console, whatever the settings.
pub fn get_logger(args: EnvArgs) -> (l: LoggerConsole)
    ensures
        l == (LoggerConsole {}),
{
    LoggerConsole::new(args)
}

impl Configuration {
    /// Whether a configuration can be built from the settings.
    pub fn accepts(args: &EnvArgs) -> (r: bool)
        ensures
            r == configuration_accepts(*args),
    {
        let port_ok = match args.get(ROCKET_PORT) {
            Some(p) => parse_u16(p.as_str()).is_some(),
            None => false,
        };
        args.get(ROCKET_ADDRESS).is_some() && port_ok && read_bound(args, MAX_RANDOM, DEFAULT_MAX_RANDOM).is_some()
            && read_bound(args, MAX_PERMUTE, DEFAULT_MAX_PERMUTE).is_some() && WordCollectionMemory::accepts(args)
    }

    /// The configuration of a session started at `timestamp`: the session is
    /// named after the service and the time, address and port are read from
    /// the settings, the bounds too or take their defaults, and the
    /// dictionary is the one they configure (not read yet).
    pub fn build(args: EnvArgs, timestamp: u128) -> (c: Configuration)
        requires
            configuration_accepts(args),
        ensures
            c.timestamp == timestamp,
            c.session_id@ == session_name(timestamp),
            Some(c.address@) == args.var(ROCKET_ADDRESS@),
            parsed_unsigned(args.var(ROCKET_PORT@).unwrap(), u16::MAX as int) == Some(c.port as int),
            bound_setting(args.var(MAX_RANDOM@), DEFAULT_MAX_RANDOM) == Some(c.max_random as int),
            bound_setting(args.var(MAX_PERMUTE@), DEFAULT_MAX_PERMUTE) == Some(c.max_permute as int),
            c.word_collection.wf(),
            c.word_collection.entries().len() == 0,
            c.word_collection.header_row() == Seq::<Seq<char>>::empty(),
            Some(c.word_collection.source()) == args.var(crate::collection::SOURCE_FILE@),
            Some(c.word_collection.rebuild_target()) == args.var(crate::collection::REBUILD_FILE@),
            Some(c.word_collection.scraper_enabled()) == crate::collection::flag_setting(
                args.var(crate::collection::ENABLE_SCRAPER@),
            ),
            Some(c.word_collection.rebuild_enabled()) == crate::collection::flag_setting(
                args.var(crate::collection::ENABLE_REBUILD@),
            ),
    {
        let mut name: Vec<char> = Vec::new();
        append_str(&mut name, SERVICE_NAME);
        append_str(&mut name, "-");
        let ts = u128_to_string(timestamp);
        append_str(&mut name, ts.as_str());
        assert(name@ =~= session_name(timestamp));
        let session_id = string_of(name.as_slice());
        let address = args.get(ROCKET_ADDRESS).unwrap().clone();
        let port = parse_u16(args.get(ROCKET_PORT).unwrap().as_str()).unwrap();
        let max_random = read_bound(&args, MAX_RANDOM, DEFAULT_MAX_RANDOM).unwrap();
        let max_permute = read_bound(&args, MAX_PERMUTE, DEFAULT_MAX_PERMUTE).unwrap();
        let word_collection = get_collection(args);
        Configuration { timestamp, session_id, address, port, word_collection, max_random, max_permute }
    }
}

} // verus!
