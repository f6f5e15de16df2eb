//! What the settings of a service say: each is a text, or is not given.

use crate::engine::budget::switched_on;
use crate::text::{chars_of, owned, parse_u32, parse_u64, same, text_of, trim};
use vstd::prelude::*;
#[allow(unused_imports)]
use crate::engine::budget::{says, text_view};
#[allow(unused_imports)]
use crate::text::{trimmed, unsigned_value};

verus! {

/// The number that a setting spells, white space round it passed over.
pub open spec fn number_said(value: Option<Seq<char>>) -> Option<u64> {
    match value {
        Some(t) => match unsigned_value(trimmed(t)) {
            Some(n) => if n <= u64::MAX { Some(n as u64) } else { None },
            None => None,
        },
        None => None,
    }
}

pub fn number_setting(value: Option<&str>) -> (r: Option<u64>)
    ensures
        r == number_said(text_view(value)),
{
    match value {
        Some(t) => parse_u64(trim(t)),
        None => None,
    }
}

/// The size that a setting spells.
pub open spec fn size_said(value: Option<Seq<char>>) -> Option<usize> {
    match number_said(value) {
        Some(n) => if n <= usize::MAX { Some(n as usize) } else { None },
        None => None,
    }
}

pub fn size_setting(value: Option<&str>) -> (r: Option<usize>)
    ensures
        r == size_said(text_view(value)),
{
    match number_setting(value) {
        Some(n) => if n <= usize::MAX as u64 {
            Some(n as usize)
        } else {
            None
        },
        None => None,
    }
}

/// How long a request may take, in milliseconds: ten seconds where nothing is said, and a day
/// where 0 is.
pub open spec fn deadline_ms(value: Option<Seq<char>>) -> u64 {
    match number_said(value) {
        Some(n) => if n == 0 { 86_400_000 } else { n },
        None => 10_000,
    }
}

pub fn route_deadline(value: Option<&str>) -> (r: u64)
    ensures
        r == deadline_ms(text_view(value)),
{
    match number_setting(value) {
        Some(n) => if n == 0 {
            86_400_000
        } else {
            n
        },
        None => 10_000,
    }
}

/// After how many seconds what was paged in is touched again: sixty where nothing is said, and
/// never where 0 is.
pub fn keep_warm_interval(value: Option<&str>) -> (r: Option<u64>)
    ensures
        r == match number_said(text_view(value)) {
            Some(n) => if n == 0 { None } else { Some(n) },
            None => Some(60u64),
        },
{
    match number_setting(value) {
        Some(n) => if n == 0 {
            None
        } else {
            Some(n)
        },
        None => Some(60),
    }
}

/// Where responses are written to; nowhere where nothing but white space is said.
pub fn result_dump_path(value: Option<&str>) -> (r: Option<&str>)
    ensures
        match value {
            Some(t) => if trimmed(t@).len() == 0 { r is None } else { r == Some(t) },
            None => r is None,
        },
{
    match value {
        Some(t) => {
            let chars: Vec<char> = chars_of(trim(t));
            if chars.len() == 0 {
                None
            } else {
                Some(t)
            }
        },
        None => None,
    }
}

/// The port that a text spells, which has to be one; else the usual one.
pub open spec fn port_said(value: Option<Seq<char>>) -> u16 {
    match value {
        Some(t) => match unsigned_value(t) {
            Some(n) => if n <= u16::MAX { n as u16 } else { 8080 },
            None => 8080,
        },
        None => 8080,
    }
}

pub fn port_setting(value: Option<&str>) -> (r: u16)
    ensures
        r == port_said(text_view(value)),
{
    match value {
        Some(t) => match parse_u32(t) {
            Some(n) => if n <= u16::MAX as u32 {
                n as u16
            } else {
                8080
            },
            None => 8080,
        },
        None => 8080,
    }
}

/// How many threads a service runs on.
#[derive(Debug, Clone, Copy, PartialEq, Eq, Structural)]
pub struct RuntimeSize {
    pub workers: usize,
    pub blocking: usize,
    pub keep_alive_s: u64,
}

/// What is said where it is not 0.
pub open spec fn at_least_one(said: Option<usize>, otherwise: usize) -> usize {
    match said {
        Some(n) => if n > 0 { n } else { otherwise },
        None => otherwise,
    }
}

fn unless_zero(said: Option<usize>, otherwise: usize) -> (r: usize)
    ensures
        r == at_least_one(said, otherwise),
{
    match said {
        Some(n) => if n > 0 {
            n
        } else {
            otherwise
        },
        None => otherwise,
    }
}

/// The threads of a service: as many workers as there are cores but for four at most, and twice
/// as many blocking threads as there are permits but for eight at least, unless something else
/// is said. A blocking thread without work stays for five minutes unless something else is said.
pub fn runtime_size(
    workers: Option<&str>,
    blocking: Option<&str>,
    keep_alive: Option<&str>,
    cores: Option<usize>,
    permits: usize,
) -> (r: RuntimeSize)
    requires
        2 * permits <= usize::MAX,
    ensures
        r.workers == at_least_one(
            size_said(text_view(workers)),
            match cores {
                Some(c) => if c < 4 { c } else { 4 },
                None => 4,
            },
        ),
        r.blocking == at_least_one(
            size_said(text_view(blocking)),
            if 2 * permits > 8 { (2 * permits) as usize } else { 8 },
        ),
        r.keep_alive_s == (match number_said(text_view(keep_alive)) {
            Some(n) => n,
            None => 300,
        }),
{
    let cores: usize = match cores {
        Some(c) => if c < 4 {
            c
        } else {
            4
        },
        None => 4,
    };
    let twice: usize = 2 * permits;
    RuntimeSize {
        workers: unless_zero(size_setting(workers), cores),
        blocking: unless_zero(
            size_setting(blocking),
            if twice > 8 {
                twice
            } else {
                8
            },
        ),
        keep_alive_s: match number_setting(keep_alive) {
            Some(n) => n,
            None => 300,
        },
    }
}

/// What the arguments of a program say.
#[derive(Debug)]
pub struct CliFlags {
    /// Whether seeds are passed over.
    pub no_seed: bool,
    /// Where responses are written to.
    pub dump_result: Option<String>,
}

pub open spec fn starts_with(s: Seq<char>, head: Seq<char>) -> bool {
    s.len() >= head.len() && s.take(head.len() as int) == head
}

/// What the arguments from `i` on say, given what those before them said. The path that follows
/// `--dump-result`, or stands behind `--dump-result=`, counts where it comes last; other
/// arguments are passed over.
pub open spec fn flags_from(args: Seq<Seq<char>>, i: int, no_seed: bool, dump: Option<Seq<char>>) -> (bool, Option<Seq<char>>)
    decreases args.len() - i,
{
    if i < 0 || i >= args.len() {
        (no_seed, dump)
    } else if args[i] == "--no-seed"@ {
        flags_from(args, i + 1, true, dump)
    } else if args[i] == "--dump-result"@ {
        if i + 1 < args.len() {
            flags_from(args, i + 2, no_seed, Some(args[i + 1]))
        } else {
            (no_seed, dump)
        }
    } else if starts_with(args[i], "--dump-result="@) {
        flags_from(args, i + 1, no_seed, Some(args[i].skip("--dump-result="@.len() as int)))
    } else {
        flags_from(args, i + 1, no_seed, dump)
    }
}

/// What stands behind a beginning.
fn strip_prefix(s: &str, head: &str) -> (r: Option<String>)
    ensures
        match r {
            Some(t) => starts_with(s@, head@) && t@ == s@.skip(head@.len() as int),
            None => !starts_with(s@, head@),
        },
{
    let a: Vec<char> = chars_of(s);
    let b: Vec<char> = chars_of(head);
    let (n, m) = (a.len(), b.len());
    if n < m {
        return None;
    }
    let start: String = text_of(&a.as_slice()[0..m]);
    assert(a@.subrange(0, m as int) =~= s@.take(head@.len() as int));
    if !same(start.as_str(), head) {
        return None;
    }
    assert(a@.subrange(m as int, n as int) =~= s@.skip(head@.len() as int));
    Some(text_of(&a.as_slice()[m..n]))
}

pub open spec fn texts_view(s: Seq<String>) -> Seq<Seq<char>> {
    s.map_values(|t: String| t@)
}

pub open spec fn path_view(s: Option<String>) -> Option<Seq<char>> {
    match s {
        Some(t) => Some(t@),
        None => None,
    }
}

pub fn cli_flags(args: &Vec<String>) -> (r: CliFlags)
    ensures
        (r.no_seed, path_view(r.dump_result)) == flags_from(texts_view(args@), 0, false, None),
{
    let ghost all = texts_view(args@);
    let mut no_seed: bool = false;
    let mut dump: Option<String> = None;
    let mut i: usize = 0;
    let n: usize = args.len();
    while i < n
        invariant
            i <= n,
            n == args@.len(),
            all == texts_view(args@),
            flags_from(all, 0, false, None) == flags_from(all, i as int, no_seed, path_view(dump)),
        decreases n - i,
    {
        assert(all[i as int] == args@[i as int]@);
        let arg: &str = args[i].as_str();
        if same(arg, "--no-seed") {
            no_seed = true;
            i += 1;
        } else if same(arg, "--dump-result") {
            if i + 1 < n {
                assert(all[i + 1] == args@[i + 1]@);
                dump = Some(args[i + 1].clone());
                i += 2;
            } else {
                i += 1;
            }
        } else {
            if let Some(path) = strip_prefix(arg, "--dump-result=") {
                dump = Some(path);
            }
            i += 1;
        }
    }
    CliFlags { no_seed, dump_result: dump }
}

/// Where a service listens, where its database is, and what it writes.
#[derive(Debug)]
pub struct Config {
    pub host: String,
    pub port: u16,
    pub db_path: Option<String>,
    pub move_cost_ms: Option<u64>,
    pub debug_result_path: Option<String>,
}

/// The settings of a service, as far as they are given.
pub struct ConfigValues<'a> {
    pub host: Option<&'a str>,
    pub port: Option<&'a str>,
    pub db_path: Option<&'a str>,
    pub move_cost_ms: Option<&'a str>,
    pub debug_result_path: Option<&'a str>,
}

pub open spec fn text_or(value: Option<&str>, otherwise: Seq<char>) -> Seq<char> {
    match value {
        Some(t) => t@,
        None => otherwise,
    }
}

fn given_or(value: Option<&str>, otherwise: &str) -> (r: String)
    ensures
        r@ == text_or(value, otherwise@),
{
    match value {
        Some(t) => owned(t),
        None => owned(otherwise),
    }
}

impl Config {
    pub fn from_env(v: &ConfigValues) -> (r: Config)
        ensures
            r.host@ == text_or(v.host, "127.0.0.1"@),
            r.port == port_said(text_view(v.port)),
            path_view(r.db_path) == Some(
                text_or(v.db_path, "/home/query/Dev/rs3cache_extractor/worldReachableTiles.db"@),
            ),
            r.move_cost_ms == (match v.move_cost_ms {
                Some(t) => match unsigned_value(t@) {
                    Some(n) => if n <= u64::MAX { Some(n as u64) } else { Some(600u64) },
                    None => Some(600u64),
                },
                None => Some(600u64),
            }),
            path_view(r.debug_result_path) == Some(
                text_or(v.debug_result_path, "/home/query/Dev/navpathService/result.json"@),
            ),
    {
        let move_cost: u64 = match v.move_cost_ms {
            Some(t) => match parse_u64(t) {
                Some(n) => n,
                None => 600,
            },
            None => 600,
        };
        Config {
            host: given_or(v.host, "127.0.0.1"),
            port: port_setting(v.port),
            db_path: Some(given_or(v.db_path, "/home/query/Dev/rs3cache_extractor/worldReachableTiles.db")),
            move_cost_ms: Some(move_cost),
            debug_result_path: Some(given_or(v.debug_result_path, "/home/query/Dev/navpathService/result.json")),
        }
    }
}

/// The database of a request: the one that it names, else the usual one.
pub fn choose_db<'a>(db_path: Option<&'a str>, default_db: Option<&'a str>) -> (r: Result<&'a str, String>)
    ensures
        match (db_path, default_db) {
            (Some(p), _) => r == Ok::<&str, String>(p),
            (None, Some(d)) => r == Ok::<&str, String>(d),
            (None, None) => r is Err && r->Err_0@ == "no db_path provided and NAVPATH_DB not set"@,
        },
{
    match db_path {
        Some(p) => Ok(p),
        None => match default_db {
            Some(d) => Ok(d),
            None => Err(owned("no db_path provided and NAVPATH_DB not set")),
        },
    }
}

/// Whether a reload is to be done in any case.
pub fn reload_forced(force: Option<&str>) -> (r: bool)
    ensures
        r == says(text_view(force), "1"@, "true"@),
{
    switched_on(force)
}

/// A setting that spells a number is that number, whatever white space stands round it; one that is not
/// there or spells none is not said.
pub proof fn law_numbers_are_said(t: Seq<char>, n: nat)
    ensures
        number_said(None) is None,
        unsigned_value(trimmed(t)) is None ==> number_said(Some(t)) is None,
        unsigned_value(trimmed(t)) == Some(n) && n <= u64::MAX ==> number_said(Some(t)) == Some(n as u64),
        unsigned_value(trimmed(t)) == Some(n) && n > u64::MAX ==> number_said(Some(t)) is None,
{
}

/// A request may take as many milliseconds as is said, a day where 0 is said, and ten seconds where
/// nothing is.
pub proof fn law_deadlines(value: Option<Seq<char>>, n: u64)
    ensures
        number_said(value) is None ==> deadline_ms(value) == 10_000,
        number_said(value) == Some(0u64) ==> deadline_ms(value) == 24 * 60 * 60 * 1000,
        number_said(value) == Some(n) && n > 0 ==> deadline_ms(value) == n,
{
}

/// The port is the one that is said, where it is one, and else 8080. A size of 0 counts as not said.
pub proof fn law_ports_and_sizes(t: Seq<char>, n: nat, otherwise: usize, size: usize)
    ensures
        port_said(None) == 8080,
        unsigned_value(t) is None ==> port_said(Some(t)) == 8080,
        unsigned_value(t) == Some(n) && n <= 65535 ==> port_said(Some(t)) == n,
        unsigned_value(t) == Some(n) && n > 65535 ==> port_said(Some(t)) == 8080,
        at_least_one(None, otherwise) == otherwise,
        at_least_one(Some(0), otherwise) == otherwise,
        size > 0 ==> at_least_one(Some(size), otherwise) == size,
{
}

/// Where `--dump-result` is not among the arguments, seeds are passed over exactly where `--no-seed` is.
pub proof fn law_no_seed_is_read(args: Seq<Seq<char>>, i: int, no_seed: bool, dump: Option<Seq<char>>)
    requires
        0 <= i <= args.len(),
        forall|k: int| i <= k < args.len() ==> #[trigger] args[k] != "--dump-result"@,
    ensures
        flags_from(args, i, no_seed, dump).0 <==> no_seed || exists|k: int| i <= k < args.len() && #[trigger] args[k] == "--no-seed"@,
    decreases args.len() - i,
{
    if i < args.len() {
        let no_seed1 = no_seed || args[i] == "--no-seed"@;
        let dump1 = if args[i] != "--no-seed"@ && starts_with(args[i], "--dump-result="@) {
            Some(args[i].skip("--dump-result="@.len() as int))
        } else {
            dump
        };
        law_no_seed_is_read(args, i + 1, no_seed1, dump1);
        assert(flags_from(args, i, no_seed, dump) == flags_from(args, i + 1, no_seed1, dump1));
    }
}

/// Of the arguments that say where responses are written to, the last one counts: the one that follows
/// `--dump-result`.
pub proof fn law_last_dump_counts(args: Seq<Seq<char>>, no_seed: bool, dump: Option<Seq<char>>)
    requires
        args.len() >= 2,
    ensures
        args[args.len() - 2] == "--dump-result"@ ==> flags_from(args, args.len() - 2, no_seed, dump).1 == Some(args.last()),
        flags_from(args, args.len() as int, no_seed, dump) == (no_seed, dump),
{
    reveal_strlit("--dump-result");
    reveal_strlit("--no-seed");
    assert("--dump-result"@.len() == 13 && "--no-seed"@.len() == 9);
    let n = args.len() as int;
    assert(flags_from(args, n, no_seed, Some(args[n - 1])) == (no_seed, Some(args[n - 1])));
    if args[n - 2] == "--dump-result"@ {
        assert(flags_from(args, n - 2, no_seed, dump) == flags_from(args, n, no_seed, Some(args[n - 1])));
    }
}

}
