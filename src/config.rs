//! The engine's settings and their defaults.

use vstd::prelude::*;

use crate::keys::{compare_keys, KeyOrder};

verus! {

/// Where the engine keeps its data: a data directory, or a scratch
/// directory made for each start.
#[derive(Clone, Copy, Debug, PartialEq, Eq, Structural)]
pub enum Mode {
    Production,
    Testing,
}

/// The settings.
#[derive(Debug)]
pub struct ApplicationConfig {
    pub mode: Mode,
    pub port: u32,
    pub datadirectory: String,
    pub memtable_size_limit: usize,
    pub disktable_limit: usize,
}

pub fn default_mode() -> (r: Mode)
    ensures
        r == Mode::Production,
{
    Mode::Production
}

pub fn default_port() -> (r: u32)
    ensures
        r == 8080,
{
    8080
}

pub fn default_directory() -> (r: String)
    ensures
        r@ == "./data"@,
{
    "./data".to_string()
}

/// 32 MiB.
pub fn default_memtable_size_limit() -> (r: usize)
    ensures
        r == 33554432,
{
    33554432
}

pub fn default_disktable_limit() -> (r: usize)
    ensures
        r == 10,
{
    10
}

/// The first value given, else the default.
pub open spec fn first_of<T>(a: Option<T>, b: Option<T>, default: T) -> T {
    match a {
        Some(x) => x,
        None => match b {
            Some(y) => y,
            None => default,
        },
    }
}

fn pick_first<T: Copy>(a: Option<T>, b: Option<T>, default: T) -> (r: T)
    ensures
        r == first_of(a, b, default),
{
    match a {
        Some(x) => x,
        None => match b {
            Some(y) => y,
            None => default,
        },
    }
}

/// The mode that a lower-case name names.
pub open spec fn mode_named(s: Seq<char>) -> Option<Mode> {
    if s == "production"@ {
        Some(Mode::Production)
    } else if s == "testing"@ {
        Some(Mode::Testing)
    } else {
        None
    }
}

/// The lower-case form of a text.
pub uninterp spec fn lowercase_of(s: Seq<char>) -> Seq<char>;

/// Relies on `str::to_lowercase`: the result depends on the characters alone.
#[verifier::external_body]
fn lowercase(s: &str) -> (r: String)
    ensures
        r@ == lowercase_of(s@),
{
    s.to_lowercase()
}

impl Mode {
    /// The mode's name.
    pub fn name(&self) -> (r: String)
        ensures
            r@ == match *self {
                Mode::Production => "production"@,
                Mode::Testing => "testing"@,
            },
    {
        match self {
            Mode::Production => "production".to_string(),
            Mode::Testing => "testing".to_string(),
        }
    }

    /// The mode that a lower-case name names (see `mode_named`).
    pub fn from_lowercase(s: &str) -> (r: Option<Mode>)
        ensures
            r == mode_named(s@),
    {
        match compare_keys(s, "production") {
            KeyOrder::Equal => {
                return Some(Mode::Production);
            },
            _ => {},
        }
        match compare_keys(s, "testing") {
            KeyOrder::Equal => Some(Mode::Testing),
            _ => None,
        }
    }

    /// The mode that a name names, in any case.
    pub fn parse(s: &str) -> (r: Option<Mode>)
        ensures
            r == mode_named(lowercase_of(s@)),
    {
        let lower = lowercase(s);
        Mode::from_lowercase(lower.as_str())
    }
}

impl ApplicationConfig {
    /// The limits are usable: a positive memtable size limit, and room for
    /// at least one disk table.
    pub fn is_valid(&self) -> (r: bool)
        ensures
            r == (self.memtable_size_limit > 0 && self.disktable_limit >= 1),
    {
        self.memtable_size_limit > 0 && self.disktable_limit >= 1
    }

    /// Settings from the values given, a default for each one missing. Where
    /// two sources give a value, the first one given wins (the environment
    /// over the file).
    pub fn from_sources(
        mode: (Option<Mode>, Option<Mode>),
        port: (Option<u32>, Option<u32>),
        datadirectory: (Option<String>, Option<String>),
        memtable_size_limit: (Option<usize>, Option<usize>),
        disktable_limit: (Option<usize>, Option<usize>),
    ) -> (r: ApplicationConfig)
        ensures
            r.mode == first_of(mode.0, mode.1, Mode::Production),
            r.port == first_of(port.0, port.1, 8080u32),
            r.datadirectory@ == match (datadirectory.0, datadirectory.1) {
                (Some(d), _) => d@,
                (None, Some(d)) => d@,
                (None, None) => "./data"@,
            },
            r.memtable_size_limit == first_of(memtable_size_limit.0, memtable_size_limit.1, 33554432usize),
            r.disktable_limit == first_of(disktable_limit.0, disktable_limit.1, 10usize),
    {
        let datadirectory = match datadirectory {
            (Some(d), _) => d,
            (None, Some(d)) => d,
            (None, None) => default_directory(),
        };
        ApplicationConfig {
            mode: pick_first(mode.0, mode.1, default_mode()),
            port: pick_first(port.0, port.1, default_port()),
            datadirectory,
            memtable_size_limit: pick_first(memtable_size_limit.0, memtable_size_limit.1, default_memtable_size_limit()),
            disktable_limit: pick_first(disktable_limit.0, disktable_limit.1, default_disktable_limit()),
        }
    }

    /// The settings with every default.
    pub fn defaults() -> (r: ApplicationConfig)
        ensures
            r.mode == Mode::Production,
            r.port == 8080,
            r.datadirectory@ == "./data"@,
            r.memtable_size_limit == 33554432,
            r.disktable_limit == 10,
    {
        ApplicationConfig {
            mode: default_mode(),
            port: default_port(),
            datadirectory: default_directory(),
            memtable_size_limit: default_memtable_size_limit(),
            disktable_limit: default_disktable_limit(),
        }
    }
}

} // verus!
