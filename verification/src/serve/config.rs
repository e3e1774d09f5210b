//! Configuration of the origin and sizing of its capacity knobs.
//!
//! `max_open_archives` is derived from `vm.max_map_count` and
//! `max_inflight_segments` from the physical memory, unless flags say
//! otherwise. A host whose mapping budget is too small for the resolved
//! registry is refused. All policy is [`resolve_with_host`], a function of
//! the arguments and of what the host reports.

use vstd::prelude::*;
use vstd::string::{StrSliceExecFns, StringExecFns};

use crate::text::{chars_of, decimal_text, push_number};

verus! {

/// Memory mappings reserved for the rest of the process (libraries, allocator
/// arenas, stacks).
pub const VMA_RESERVE: usize = 2_048;

/// Worst-case segment size used to budget assembly buffers: 32 MiB.
pub const WORST_CASE_SEGMENT_BYTES: u64 = 33_554_432;

/// Percentage of physical memory dedicated to assembly buffers.
pub const SEGMENT_RAM_PERCENT: u64 = 5;

pub const MAX_OPEN_ARCHIVES_FLOOR: usize = 64;
pub const MAX_OPEN_ARCHIVES_CEIL: usize = 100_000;
pub const MAX_INFLIGHT_FLOOR: usize = 64;
pub const MAX_INFLIGHT_CEIL: usize = 4_096;

/// Values for hosts that do not report their limits.
pub const FALLBACK_MAX_OPEN_ARCHIVES: usize = 1_024;
pub const FALLBACK_MAX_INFLIGHT: usize = 64;

/// Seconds that a request waits for a permit unless a flag says otherwise.
pub const DEFAULT_PERMIT_WAIT_SECS: u64 = 5;

/// Where the value of a knob came from.
#[derive(Clone, Copy, Debug, PartialEq, Eq, Structural)]
pub enum Source {
    /// Derived from what the host reports.
    Auto,
    /// An explicit flag.
    Flag,
    /// A fixed value, for a host that does not report its limits.
    Fallback,
}

impl Source {
    /// The name that the audit line uses.
    pub open spec fn spec_label(self) -> Seq<char> {
        match self {
            Source::Auto => "auto"@,
            Source::Flag => "flag"@,
            Source::Fallback => "fallback"@,
        }
    }

    /// The name that the audit line uses.
    pub fn label(self) -> (r: &'static str)
        ensures
            r@ == self.spec_label(),
    {
        match self {
            Source::Auto => "auto",
            Source::Flag => "flag",
            Source::Fallback => "fallback",
        }
    }
}

/// A time span.
#[derive(Clone, Copy, Debug, PartialEq, Eq, Structural)]
pub struct WaitTime {
    pub secs: u64,
    /// Below one billion.
    pub nanos: u32,
}

/// What the command line says.
#[derive(Clone, Debug)]
pub struct ResolveArgs {
    pub media_dir: String,
    pub index_dir: String,
    pub bind: String,
    pub max_open_archives: Option<usize>,
    pub max_inflight_segments: Option<usize>,
    /// The wait time that was asked for, or why it is not one.
    pub permit_wait_timeout: Option<Result<WaitTime, String>>,
}

/// What the host reports.
#[derive(Clone, Copy, Debug)]
pub enum HostInputs {
    Linux { max_map_count: usize, mem_total: u64 },
    Fallback,
}

/// The resolved configuration.
#[derive(Clone, Debug)]
pub struct Config {
    pub media_dir: String,
    pub index_dir: String,
    pub bind: String,
    pub max_open_archives: usize,
    pub max_open_archives_source: Source,
    pub max_inflight_segments: usize,
    pub max_inflight_segments_source: Source,
    pub permit_wait_timeout: WaitTime,
    /// Observed `vm.max_map_count`, if the host reports it.
    pub host_max_map_count: Option<usize>,
    /// Observed memory in bytes, if the host reports it.
    pub host_mem_total_bytes: Option<u64>,
}

/// Why there is no configuration.
#[derive(Debug)]
pub enum ConfigError {
    /// `vm.max_map_count` is not a number, for the reason `cause`.
    MapCountUnreadable { text: String, cause: String },
    /// The `MemTotal` line does not end in `kB`.
    MemTotalWithoutUnit { line: String },
    /// The `MemTotal` line does not hold a number, for the reason `cause`.
    MemTotalUnreadable { line: String, cause: String },
    /// The memory in bytes does not fit in 64 bits.
    MemTotalOverflow { kb: u64 },
    /// There is no `MemTotal` line.
    MemTotalMissing,
    /// The mapping budget of the registry cannot be computed.
    BudgetOverflow,
    /// The host allows fewer mappings than the registry needs.
    MapCountTooLow { have: usize, need: usize, max_open_archives: usize },
    /// The permit wait time is not one.
    InvalidPermitWait { text: String },
}

/// What a configuration error says.
pub ghost enum ConfigFault {
    MapCountUnreadable(Seq<char>, Seq<char>),
    MemTotalWithoutUnit(Seq<char>),
    MemTotalUnreadable(Seq<char>, Seq<char>),
    MemTotalOverflow(u64),
    MemTotalMissing,
    BudgetOverflow,
    MapCountTooLow(usize, usize, usize),
    InvalidPermitWait(Seq<char>),
}

impl View for ConfigError {
    type V = ConfigFault;

    open spec fn view(&self) -> ConfigFault {
        match self {
            ConfigError::MapCountUnreadable { text, cause } => ConfigFault::MapCountUnreadable(
                text@,
                cause@,
            ),
            ConfigError::MemTotalWithoutUnit { line } => ConfigFault::MemTotalWithoutUnit(line@),
            ConfigError::MemTotalUnreadable { line, cause } => ConfigFault::MemTotalUnreadable(
                line@,
                cause@,
            ),
            ConfigError::MemTotalOverflow { kb } => ConfigFault::MemTotalOverflow(*kb),
            ConfigError::MemTotalMissing => ConfigFault::MemTotalMissing,
            ConfigError::BudgetOverflow => ConfigFault::BudgetOverflow,
            ConfigError::MapCountTooLow { have, need, max_open_archives } =>
                ConfigFault::MapCountTooLow(*have, *need, *max_open_archives),
            ConfigError::InvalidPermitWait { text } => ConfigFault::InvalidPermitWait(text@),
        }
    }
}

/// What a result says, its error by its view.
pub open spec fn config_result<T>(r: Result<T, ConfigError>) -> Result<T, ConfigFault> {
    match r {
        Ok(v) => Ok(v),
        Err(e) => Err(e@),
    }
}

/// A character with the Unicode property `White_Space`.
pub open spec fn is_space(c: char) -> bool {
    let u = c as u32;
    9 <= u <= 13 || u == 32 || u == 0x85 || u == 0xa0 || u == 0x1680 || 0x2000 <= u <= 0x200a || u
        == 0x2028 || u == 0x2029 || u == 0x202f || u == 0x205f || u == 0x3000
}

/// Text without the white space in front of it.
pub open spec fn trimmed_start(s: Seq<char>) -> Seq<char>
    decreases s.len(),
{
    if s.len() > 0 && is_space(s[0]) {
        trimmed_start(s.drop_first())
    } else {
        s
    }
}

/// Text without the white space behind it.
pub open spec fn trimmed_end(s: Seq<char>) -> Seq<char>
    decreases s.len(),
{
    if s.len() > 0 && is_space(s.last()) {
        trimmed_end(s.drop_last())
    } else {
        s
    }
}

/// Text without the white space around it.
pub open spec fn trimmed(s: Seq<char>) -> Seq<char> {
    trimmed_end(trimmed_start(s))
}

/// A decimal digit.
pub open spec fn is_digit(c: char) -> bool {
    48 <= c as u32 <= 57
}

/// The number that decimal digits denote.
pub open spec fn digits_value(s: Seq<char>) -> nat
    decreases s.len(),
{
    if s.len() == 0 {
        0
    } else {
        digits_value(s.drop_last()) * 10 + (s.last() as u32 - 48) as nat
    }
}

/// Whether text consists of digits.
pub open spec fn digits_only(s: Seq<char>) -> bool {
    forall|i: int| 0 <= i < s.len() ==> is_digit(#[trigger] s[i])
}

/// The number that text denotes: digits, with a plus sign in front or not,
/// and no more than `max`.
pub open spec fn parsed(s: Seq<char>, max: nat) -> Option<nat> {
    let body = if s.len() > 0 && s[0] == '+' { s.drop_first() } else { s };
    if body.len() > 0 && digits_only(body) && digits_value(body) <= max {
        Some(digits_value(body))
    } else {
        None
    }
}

/// Whether `c` has the property `White_Space`.
fn check_space(c: char) -> (r: bool)
    ensures
        r == is_space(c),
{
    let u: u32 = c as u32;
    9 <= u && u <= 13 || u == 32 || u == 0x85 || u == 0xa0 || u == 0x1680 || 0x2000 <= u && u
        <= 0x200a || u == 0x2028 || u == 0x2029 || u == 0x202f || u == 0x205f || u == 0x3000
}

/// The bounds of `s[from..to]` without the white space around it.
fn trim_bounds(s: &[char], from: usize, to: usize) -> (r: (usize, usize))
    requires
        from <= to <= s.len(),
    ensures
        from <= r.0 <= r.1 <= to,
        s@.subrange(r.0 as int, r.1 as int) == trimmed(s@.subrange(from as int, to as int)),
{
    let ghost whole = s@.subrange(from as int, to as int);
    let mut a: usize = from;
    while a < to && check_space(s[a])
        invariant
            from <= a <= to <= s@.len(),
            trimmed_start(s@.subrange(a as int, to as int)) == trimmed_start(whole),
        decreases to - a,
    {
        assert(s@.subrange(a as int, to as int).drop_first() =~= s@.subrange(a + 1, to as int));
        a += 1;
    }
    assert(trimmed_start(whole) == s@.subrange(a as int, to as int));
    let ghost start = s@.subrange(a as int, to as int);
    let mut b: usize = to;
    while b > a && check_space(s[b - 1])
        invariant
            from <= a <= b <= to <= s@.len(),
            trimmed_end(s@.subrange(a as int, b as int)) == trimmed_end(start),
        decreases b - a,
    {
        assert(s@.subrange(a as int, b as int).drop_last() =~= s@.subrange(a as int, b - 1));
        b -= 1;
    }
    (a, b)
}

/// Why `text` is no number up to `max`: the text of the
/// `std::num::ParseIntError` that `str::parse` gives for the unsigned integer
/// type whose largest value is `max`.
pub uninterp spec fn number_fault(text: Seq<char>, max: nat) -> Seq<char>;

/// Calls `str::parse` for `usize`. It takes decimal digits with a plus sign in
/// front or not, and nothing else; where they are missing, or denote more than
/// the type holds, it gives an error, whose text depends on `text` and on the
/// largest `usize` alone.
#[verifier::external_body]
fn parse_usize(text: &str) -> (r: Result<usize, String>)
    ensures
        match r {
            Ok(n) => parsed(text@, usize::MAX as nat) == Some(n as nat),
            Err(cause) => parsed(text@, usize::MAX as nat) is None && cause@ == number_fault(
                text@,
                usize::MAX as nat,
            ),
        },
{
    match text.parse::<usize>() {
        Ok(n) => Ok(n),
        Err(e) => Err(e.to_string()),
    }
}

/// Calls `str::parse` for `u64`, as [`parse_usize`] does for `usize`.
#[verifier::external_body]
fn parse_u64(text: &str) -> (r: Result<u64, String>)
    ensures
        match r {
            Ok(n) => parsed(text@, u64::MAX as nat) == Some(n as nat),
            Err(cause) => parsed(text@, u64::MAX as nat) is None && cause@ == number_fault(
                text@,
                u64::MAX as nat,
            ),
        },
{
    match text.parse::<u64>() {
        Ok(n) => Ok(n),
        Err(e) => Err(e.to_string()),
    }
}

/// The map count that `text` says, where `number` is what it was parsed to, or
/// why it could not be.
pub fn map_count_of(text: &str, number: Result<usize, String>) -> (r: Result<usize, ConfigError>)
    ensures
        config_result(r) == match number {
            Ok(n) => Ok(n),
            Err(cause) => Err(ConfigFault::MapCountUnreadable(text@, cause@)),
        },
{
    match number {
        Ok(n) => Ok(n),
        Err(cause) => Err(ConfigError::MapCountUnreadable { text: text.to_owned(), cause }),
    }
}

/// Reads `/proc/sys/vm/max_map_count`: a number with white space around it.
pub fn parse_max_map_count(text: &str) -> (r: Result<usize, ConfigError>)
    ensures
        config_result(r) == match parsed(trimmed(text@), usize::MAX as nat) {
            Some(n) => Ok(n as usize),
            None => Err(
                ConfigFault::MapCountUnreadable(
                    text@,
                    number_fault(trimmed(text@), usize::MAX as nat),
                ),
            ),
        },
{
    let chars: Vec<char> = chars_of(text);
    let s: &[char] = chars.as_slice();
    let (a, b) = trim_bounds(s, 0, s.len());
    assert(s@.subrange(0, s@.len() as int) =~= text@);
    map_count_of(text, parse_usize(text.substring_char(a, b)))
}

/// Where the line that starts at `from` ends: at a line feed, or with the
/// text.
pub open spec fn line_end(s: Seq<char>, from: int) -> int
    decreases s.len() - from,
{
    if from >= s.len() || s[from] == '\n' {
        from
    } else {
        line_end(s, from + 1)
    }
}

/// The line that starts at `from`. A carriage return in front of the line
/// feed is no part of it.
pub open spec fn line_at(s: Seq<char>, from: int) -> Seq<char> {
    let end = line_end(s, from);
    if end < s.len() && end > from && s[end - 1] == '\r' {
        s.subrange(from, end - 1)
    } else {
        s.subrange(from, end)
    }
}

/// What a `MemTotal` line says, in bytes, where `kb` is what its number was
/// parsed to, or why it could not be.
pub open spec fn kb_bytes(line: Seq<char>, kb: Result<u64, Seq<char>>) -> Result<u64, ConfigFault> {
    match kb {
        Err(cause) => Err(ConfigFault::MemTotalUnreadable(line, cause)),
        Ok(kb) => if kb * 1024 > u64::MAX {
            Err(ConfigFault::MemTotalOverflow(kb))
        } else {
            Ok((kb * 1024) as u64)
        },
    }
}

/// What a `MemTotal` line says, in bytes.
pub open spec fn line_bytes(line: Seq<char>) -> Result<u64, ConfigFault> {
    let rest = trimmed(line.skip(9));
    let n = rest.len() as int;
    if n < 2 || rest[n - 2] != 'k' || rest[n - 1] != 'B' {
        Err(ConfigFault::MemTotalWithoutUnit(line))
    } else {
        let number = trimmed(rest.take(n - 2));
        kb_bytes(
            line,
            match parsed(number, u64::MAX as nat) {
                Some(kb) => Ok(kb as u64),
                None => Err(number_fault(number, u64::MAX as nat)),
            },
        )
    }
}

/// Whether a line is the `MemTotal` line.
pub open spec fn is_mem_total(line: Seq<char>) -> bool {
    line.len() >= 9 && line.take(9) == "MemTotal:"@
}

/// What the first `MemTotal` line from `from` on says.
pub open spec fn mem_total_from(s: Seq<char>, from: int) -> Result<u64, ConfigFault>
    decreases s.len() - from,
{
    if from >= s.len() {
        Err(ConfigFault::MemTotalMissing)
    } else if is_mem_total(line_at(s, from)) {
        line_bytes(line_at(s, from))
    } else if from <= line_end(s, from) < s.len() {
        mem_total_from(s, line_end(s, from) + 1)
    } else {
        Err(ConfigFault::MemTotalMissing)
    }
}

/// Whether `s[from..to]` starts with `MemTotal:`.
fn starts_with_mem_total(s: &[char], from: usize, to: usize) -> (r: bool)
    requires
        from <= to <= s.len(),
    ensures
        r == is_mem_total(s@.subrange(from as int, to as int)),
{
    if to - from < 9 {
        return false;
    }
    let ghost line = s@.subrange(from as int, to as int);
    let prefix: [char; 9] = ['M', 'e', 'm', 'T', 'o', 't', 'a', 'l', ':'];
    proof {
        reveal_strlit("MemTotal:");
        assert(prefix@ =~= "MemTotal:"@);
    }
    let mut i: usize = 0;
    while i < 9
        invariant
            0 <= i <= 9,
            from + 9 <= to <= s.len(),
            line == s@.subrange(from as int, to as int),
            prefix@ == "MemTotal:"@,
            prefix@.len() == 9,
            forall|k: int| 0 <= k < i ==> #[trigger] line[k] == prefix@[k],
        decreases 9 - i,
    {
        if s[from + i] != prefix[i] {
            assert(line.take(9)[i as int] != prefix@[i as int]);
            return false;
        }
        i += 1;
    }
    assert(line.take(9) =~= prefix@);
    true
}

/// The memory in bytes that a `MemTotal` line says, where `kb` is what its
/// number was parsed to, or why it could not be.
pub fn mem_total_of(line: &str, kb: Result<u64, String>) -> (r: Result<u64, ConfigError>)
    ensures
        config_result(r) == kb_bytes(
            line@,
            match kb {
                Ok(kb) => Ok(kb),
                Err(cause) => Err(cause@),
            },
        ),
{
    match kb {
        Err(cause) => Err(ConfigError::MemTotalUnreadable { line: line.to_owned(), cause }),
        Ok(kb) => match kb.checked_mul(1024) {
            None => Err(ConfigError::MemTotalOverflow { kb }),
            Some(bytes) => Ok(bytes),
        },
    }
}

/// Reads what the `MemTotal` line `s[from..to]` says.
fn parse_mem_total_line(text: &str, s: &[char], from: usize, to: usize) -> (r: Result<
    u64,
    ConfigError,
>)
    requires
        s@ == text@,
        from + 9 <= to <= s.len(),
    ensures
        config_result(r) == line_bytes(s@.subrange(from as int, to as int)),
{
    let ghost line = s@.subrange(from as int, to as int);
    let (a, b) = trim_bounds(s, from + 9, to);
    assert(line.skip(9) =~= s@.subrange(from + 9, to as int));
    let ghost rest = s@.subrange(a as int, b as int);
    if b - a < 2 || s[b - 2] != 'k' || s[b - 1] != 'B' {
        return Err(
            ConfigError::MemTotalWithoutUnit { line: text.substring_char(from, to).to_owned() },
        );
    }
    let (c, d) = trim_bounds(s, a, b - 2);
    assert(rest.take(b - a - 2) =~= s@.subrange(a as int, b - 2));
    mem_total_of(text.substring_char(from, to), parse_u64(text.substring_char(c, d)))
}

/// Reads the memory in bytes out of `/proc/meminfo`.
pub fn parse_mem_total(text: &str) -> (r: Result<u64, ConfigError>)
    ensures
        config_result(r) == mem_total_from(text@, 0),
{
    let chars: Vec<char> = chars_of(text);
    let s: &[char] = chars.as_slice();
    let len: usize = s.len();
    let mut from: usize = 0;
    while from < len
        invariant
            s@ == text@,
            len == s@.len(),
            from <= len,
            mem_total_from(text@, from as int) == mem_total_from(text@, 0),
        decreases len - from,
    {
        let mut end: usize = from;
        while end < len && s[end] != '\n'
            invariant
                s@ == text@,
                len == s@.len(),
                from <= end <= len,
                line_end(text@, from as int) == line_end(text@, end as int),
            decreases len - end,
        {
            end += 1;
        }
        let to: usize = if end < len && end > from && s[end - 1] == '\r' { end - 1 } else { end };
        assert(line_at(text@, from as int) == s@.subrange(from as int, to as int));
        if starts_with_mem_total(s, from, to) {
            return parse_mem_total_line(text, s, from, to);
        }
        if end == len {
            return Err(ConfigError::MemTotalMissing);
        }
        from = end + 1;
    }
    Err(ConfigError::MemTotalMissing)
}

/// `n` brought between `low` and `high`.
pub open spec fn clamped(n: int, low: int, high: int) -> int {
    if n < low {
        low
    } else if n > high {
        high
    } else {
        n
    }
}

/// The registry capacity for a host: half of the mappings that are left after
/// the reserve, within bounds. An archive takes two mappings.
pub open spec fn auto_open(max_map_count: usize) -> int {
    clamped(
        (if max_map_count < VMA_RESERVE { 0 } else { max_map_count - VMA_RESERVE }) / 2,
        MAX_OPEN_ARCHIVES_FLOOR as int,
        MAX_OPEN_ARCHIVES_CEIL as int,
    )
}

/// The number of segments in flight for a host: as many worst-case segments
/// as fit in the dedicated share of memory, within bounds.
pub open spec fn auto_inflight(mem_total: u64) -> int {
    let share = if mem_total * SEGMENT_RAM_PERCENT > u64::MAX {
        u64::MAX as int
    } else {
        mem_total * SEGMENT_RAM_PERCENT
    };
    clamped(
        share / 100 / (WORST_CASE_SEGMENT_BYTES as int),
        MAX_INFLIGHT_FLOOR as int,
        MAX_INFLIGHT_CEIL as int,
    )
}

/// Derives the registry capacity.
pub fn auto_max_open_archives(host_vma_max: usize) -> (r: usize)
    ensures
        r == auto_open(host_vma_max),
{
    let avail: usize = host_vma_max.saturating_sub(VMA_RESERVE) / 2;
    if avail < MAX_OPEN_ARCHIVES_FLOOR {
        MAX_OPEN_ARCHIVES_FLOOR
    } else if avail > MAX_OPEN_ARCHIVES_CEIL {
        MAX_OPEN_ARCHIVES_CEIL
    } else {
        avail
    }
}

/// Derives the number of segments in flight.
pub fn auto_max_inflight(mem_total: u64) -> (r: usize)
    ensures
        r == auto_inflight(mem_total),
{
    let share: u64 = match mem_total.checked_mul(SEGMENT_RAM_PERCENT) {
        Some(n) => n,
        None => u64::MAX,
    };
    let raw: u64 = share / 100 / WORST_CASE_SEGMENT_BYTES;
    if raw < MAX_INFLIGHT_FLOOR as u64 {
        MAX_INFLIGHT_FLOOR
    } else if raw > MAX_INFLIGHT_CEIL as u64 {
        MAX_INFLIGHT_CEIL
    } else {
        raw as usize
    }
}

/// The mappings that a registry of the given capacity needs.
pub open spec fn mappings_needed(max_open_archives: usize) -> int {
    2 * max_open_archives + VMA_RESERVE
}

/// What is wrong with the mapping budget of a host.
pub open spec fn budget_fault(max_map_count: usize, max_open_archives: usize) -> Option<
    ConfigFault,
> {
    let need = mappings_needed(max_open_archives);
    if need > usize::MAX {
        Some(ConfigFault::BudgetOverflow)
    } else if max_map_count < need {
        Some(ConfigFault::MapCountTooLow(max_map_count, need as usize, max_open_archives))
    } else {
        None
    }
}

/// Checks that the host allows the mappings that the registry needs.
pub fn verify_tunable(host_max_map_count: usize, max_open_archives: usize) -> (r: Result<
    (),
    ConfigError,
>)
    ensures
        config_result(r) == match budget_fault(host_max_map_count, max_open_archives) {
            None => Ok(()),
            Some(e) => Err(e),
        },
{
    let doubled: usize = match max_open_archives.checked_mul(2) {
        Some(n) => n,
        None => return Err(ConfigError::BudgetOverflow),
    };
    let need: usize = match doubled.checked_add(VMA_RESERVE) {
        Some(n) => n,
        None => return Err(ConfigError::BudgetOverflow),
    };
    if host_max_map_count < need {
        return Err(ConfigError::MapCountTooLow { have: host_max_map_count, need, max_open_archives });
    }
    Ok(())
}

/// A knob: the flag where there is one, else the derived value.
pub open spec fn knob(flag: Option<usize>, derived: int, derived_from: Source) -> (int, Source) {
    match flag {
        Some(n) => (n as int, Source::Flag),
        None => (derived, derived_from),
    }
}

/// The configuration for arguments and a host. The mapping budget is checked
/// first, then the wait time.
pub open spec fn resolved(args: ResolveArgs, host: HostInputs) -> Result<Config, ConfigFault> {
    let (derived_open, derived_inflight, map_count, mem_total, derived_from) = match host {
        HostInputs::Linux { max_map_count, mem_total } => (
            auto_open(max_map_count),
            auto_inflight(mem_total),
            Some(max_map_count),
            Some(mem_total),
            Source::Auto,
        ),
        HostInputs::Fallback => (
            FALLBACK_MAX_OPEN_ARCHIVES as int,
            FALLBACK_MAX_INFLIGHT as int,
            None,
            None,
            Source::Fallback,
        ),
    };
    let (open, open_source) = knob(args.max_open_archives, derived_open, derived_from);
    let (inflight, inflight_source) = knob(
        args.max_inflight_segments,
        derived_inflight,
        derived_from,
    );
    let budget = match map_count {
        Some(n) => budget_fault(n, open as usize),
        None => None,
    };
    match budget {
        Some(e) => Err(e),
        None => match args.permit_wait_timeout {
            Some(Err(text)) => Err(ConfigFault::InvalidPermitWait(text@)),
            wait => Ok(
                Config {
                    media_dir: args.media_dir,
                    index_dir: args.index_dir,
                    bind: args.bind,
                    max_open_archives: open as usize,
                    max_open_archives_source: open_source,
                    max_inflight_segments: inflight as usize,
                    max_inflight_segments_source: inflight_source,
                    permit_wait_timeout: match wait {
                        Some(Ok(t)) => t,
                        _ => WaitTime { secs: DEFAULT_PERMIT_WAIT_SECS, nanos: 0 },
                    },
                    host_max_map_count: map_count,
                    host_mem_total_bytes: mem_total,
                },
            ),
        },
    }
}

/// Combines the command line with what the host reports, and checks the
/// mapping budget.
pub fn resolve_with_host(args: ResolveArgs, host: HostInputs) -> (r: Result<Config, ConfigError>)
    ensures
        config_result(r) == resolved(args, host),
{
    let (derived_open, derived_inflight, map_count, mem_total, derived_from): (
        usize,
        usize,
        Option<usize>,
        Option<u64>,
        Source,
    ) = match host {
        HostInputs::Linux { max_map_count, mem_total } => (
            auto_max_open_archives(max_map_count),
            auto_max_inflight(mem_total),
            Some(max_map_count),
            Some(mem_total),
            Source::Auto,
        ),
        HostInputs::Fallback => (
            FALLBACK_MAX_OPEN_ARCHIVES,
            FALLBACK_MAX_INFLIGHT,
            None,
            None,
            Source::Fallback,
        ),
    };
    let (max_open_archives, max_open_archives_source): (usize, Source) =
        match args.max_open_archives {
        Some(n) => (n, Source::Flag),
        None => (derived_open, derived_from),
    };
    let (max_inflight_segments, max_inflight_segments_source): (usize, Source) =
        match args.max_inflight_segments {
        Some(n) => (n, Source::Flag),
        None => (derived_inflight, derived_from),
    };
    if let Some(have) = map_count {
        verify_tunable(have, max_open_archives)?;
    }
    let permit_wait_timeout: WaitTime = match args.permit_wait_timeout {
        None => WaitTime { secs: DEFAULT_PERMIT_WAIT_SECS, nanos: 0 },
        Some(Ok(t)) => t,
        Some(Err(text)) => return Err(ConfigError::InvalidPermitWait { text }),
    };
    Ok(
        Config {
            media_dir: args.media_dir,
            index_dir: args.index_dir,
            bind: args.bind,
            max_open_archives,
            max_open_archives_source,
            max_inflight_segments,
            max_inflight_segments_source,
            permit_wait_timeout,
            host_max_map_count: map_count,
            host_mem_total_bytes: mem_total,
        },
    )
}

/// A derived registry fits the host wherever the host allows a registry of
/// the least size.
pub proof fn law_derived_registry_fits_the_host(max_map_count: usize)
    requires
        max_map_count >= mappings_needed(MAX_OPEN_ARCHIVES_FLOOR),
    ensures
        budget_fault(max_map_count, auto_open(max_map_count) as usize) is None,
{
}

/// Derived knobs stay within their bounds.
pub proof fn law_derived_knobs_stay_within_bounds(max_map_count: usize, mem_total: u64)
    ensures
        MAX_OPEN_ARCHIVES_FLOOR <= auto_open(max_map_count) <= MAX_OPEN_ARCHIVES_CEIL,
        MAX_INFLIGHT_FLOOR <= auto_inflight(mem_total) <= MAX_INFLIGHT_CEIL,
{
}

/// No configuration asks for more mappings than a reporting host allows.
pub proof fn law_resolved_registry_fits_the_host(args: ResolveArgs, host: HostInputs)
    requires
        resolved(args, host) is Ok,
    ensures
        resolved(args, host)->Ok_0.host_max_map_count matches Some(have) ==> mappings_needed(
            resolved(args, host)->Ok_0.max_open_archives,
        ) <= have,
{
}

/// The text of a time span in seconds, with three decimals, as
/// `std::time::Duration` and `format!` give it.
pub uninterp spec fn seconds_text(secs: u64, nanos: u32) -> Seq<char>;

/// Calls `std::time::Duration::as_secs_f64` on the span and prints the result
/// with three decimals. The text depends on the two numbers alone; with a
/// billion nanoseconds or more, `Duration::new` could overflow.
#[verifier::external_body]
fn print_seconds(secs: u64, nanos: u32) -> (r: String)
    requires
        nanos < 1_000_000_000,
    ensures
        r@ == seconds_text(secs, nanos),
{
    format!("{:.3}", std::time::Duration::new(secs, nanos).as_secs_f64())
}

/// What the audit line says of the host.
pub open spec fn host_text(map_count: Option<usize>, mem_total: Option<u64>) -> Seq<char> {
    match (map_count, mem_total) {
        (Some(m), Some(t)) => "vm.max_map_count="@ + decimal_text(m as nat) + " MemTotal_bytes="@
            + decimal_text(t as nat),
        _ => "vm.max_map_count=- MemTotal_bytes=-"@,
    }
}

/// The audit line, given the text of the wait time.
pub open spec fn audit_text(c: Config, wait: Seq<char>) -> Seq<char> {
    "audit: cmafly-serve config bind="@ + c.bind@ + " media_dir="@ + c.media_dir@ + " index_dir="@
        + c.index_dir@ + " max_open_archives="@ + decimal_text(c.max_open_archives as nat) + " ("@
        + c.max_open_archives_source.spec_label() + ") max_inflight_segments="@ + decimal_text(
        c.max_inflight_segments as nat,
    ) + " ("@ + c.max_inflight_segments_source.spec_label() + ") permit_wait_timeout="@ + wait
        + "s host: "@ + host_text(c.host_max_map_count, c.host_mem_total_bytes)
}

impl Config {
    /// The wait time is well-formed.
    pub open spec fn wf(&self) -> bool {
        self.permit_wait_timeout.nanos < 1_000_000_000
    }

    /// The audit line, given the text of the wait time.
    pub fn audit_line_with(&self, wait: &str) -> (r: String)
        ensures
            r@ == audit_text(*self, wait@),
    {
        let mut out: String = String::new();
        out.append("audit: cmafly-serve config bind=");
        out.append(self.bind.as_str());
        out.append(" media_dir=");
        out.append(self.media_dir.as_str());
        out.append(" index_dir=");
        out.append(self.index_dir.as_str());
        out.append(" max_open_archives=");
        push_number(&mut out, self.max_open_archives as u64);
        out.append(" (");
        out.append(self.max_open_archives_source.label());
        out.append(") max_inflight_segments=");
        push_number(&mut out, self.max_inflight_segments as u64);
        out.append(" (");
        out.append(self.max_inflight_segments_source.label());
        out.append(") permit_wait_timeout=");
        out.append(wait);
        out.append("s host: ");
        let ghost before = out@;
        match (self.host_max_map_count, self.host_mem_total_bytes) {
            (Some(m), Some(t)) => {
                out.append("vm.max_map_count=");
                push_number(&mut out, m as u64);
                out.append(" MemTotal_bytes=");
                push_number(&mut out, t);
            },
            _ => out.append("vm.max_map_count=- MemTotal_bytes=-"),
        }
        assert(out@ =~= before + host_text(self.host_max_map_count, self.host_mem_total_bytes));
        assert(out@ =~= audit_text(*self, wait@));
        out
    }

    /// One line that records both knobs, where they came from, the wait time,
    /// the address and directories, and what the host reports.
    pub fn audit_line(&self) -> (r: String)
        requires
            self.wf(),
        ensures
            r@ == audit_text(
                *self,
                seconds_text(self.permit_wait_timeout.secs, self.permit_wait_timeout.nanos),
            ),
    {
        let wait: String = print_seconds(
            self.permit_wait_timeout.secs,
            self.permit_wait_timeout.nanos,
        );
        self.audit_line_with(wait.as_str())
    }
}

/// Text as a Rust string literal.
pub uninterp spec fn quoted_text(text: Seq<char>) -> Seq<char>;

/// Calls `Debug` of `str` through `format!`: the text in double quotes, with
/// escapes. It depends on the text alone.
#[verifier::external_body]
fn quote(text: &str) -> (r: String)
    ensures
        r@ == quoted_text(text@),
{
    format!("{text:?}")
}

/// The text of a configuration error, where `quoted` is the unreadable text
/// as a string literal.
pub open spec fn config_text(e: ConfigFault, quoted: Seq<char>) -> Seq<char> {
    match e {
        ConfigFault::MapCountUnreadable(_, _) => "parse vm.max_map_count: "@ + quoted,
        ConfigFault::MemTotalWithoutUnit(line) => "MemTotal line missing 'kB' suffix: "@ + line,
        ConfigFault::MemTotalUnreadable(line, _) => "parse MemTotal kB: "@ + line,
        ConfigFault::MemTotalOverflow(kb) => "MemTotal overflow: "@ + decimal_text(kb as nat)
            + " kB"@,
        ConfigFault::MemTotalMissing => "MemTotal not found in /proc/meminfo"@,
        ConfigFault::BudgetOverflow =>
            "max_open_archives overflow when computing tunable budget"@,
        ConfigFault::MapCountTooLow(have, need, max_open_archives) => {
            "vm.max_map_count="@ + decimal_text(have as nat) + " too low; need >= "@
                + decimal_text(need as nat) + " (2 \u{d7} max_open_archives ["@ + decimal_text(
                max_open_archives as nat,
            ) + "] + reserve ["@ + decimal_text(VMA_RESERVE as nat)
                + "]). raise via `sudo sysctl -w vm.max_map_count="@ + decimal_text(need as nat)
                + "`"@
        },
        ConfigFault::InvalidPermitWait(text) => text,
    }
}

/// The text of what caused a configuration error, if something else did.
pub open spec fn config_cause(e: ConfigFault) -> Option<Seq<char>> {
    match e {
        ConfigFault::MapCountUnreadable(_, cause) => Some(cause),
        ConfigFault::MemTotalUnreadable(_, cause) => Some(cause),
        _ => None,
    }
}

impl ConfigError {
    /// The text of what caused the error, if something else did.
    pub fn cause(&self) -> (r: Option<&str>)
        ensures
            match r {
                Some(cause) => config_cause(self@) == Some(cause@),
                None => config_cause(self@) is None,
            },
    {
        match self {
            ConfigError::MapCountUnreadable { text: _, cause } => Some(cause.as_str()),
            ConfigError::MemTotalUnreadable { line: _, cause } => Some(cause.as_str()),
            _ => None,
        }
    }

    /// The text of the error, where `quoted` is the unreadable text as a
    /// string literal.
    pub fn message_with(&self, quoted: &str) -> (r: String)
        ensures
            r@ == config_text(self@, quoted@),
    {
        let mut out: String = String::new();
        match self {
            ConfigError::MapCountUnreadable { text: _, cause: _ } => {
                out.append("parse vm.max_map_count: ");
                out.append(quoted);
            },
            ConfigError::MemTotalWithoutUnit { line } => {
                out.append("MemTotal line missing 'kB' suffix: ");
                out.append(line.as_str());
            },
            ConfigError::MemTotalUnreadable { line, cause: _ } => {
                out.append("parse MemTotal kB: ");
                out.append(line.as_str());
            },
            ConfigError::MemTotalOverflow { kb } => {
                out.append("MemTotal overflow: ");
                push_number(&mut out, *kb);
                out.append(" kB");
            },
            ConfigError::MemTotalMissing => out.append("MemTotal not found in /proc/meminfo"),
            ConfigError::BudgetOverflow => out.append(
                "max_open_archives overflow when computing tunable budget",
            ),
            ConfigError::MapCountTooLow { have, need, max_open_archives } => {
                out.append("vm.max_map_count=");
                push_number(&mut out, *have as u64);
                out.append(" too low; need >= ");
                push_number(&mut out, *need as u64);
                out.append(" (2 \u{d7} max_open_archives [");
                push_number(&mut out, *max_open_archives as u64);
                out.append("] + reserve [");
                push_number(&mut out, VMA_RESERVE as u64);
                out.append("]). raise via `sudo sysctl -w vm.max_map_count=");
                push_number(&mut out, *need as u64);
                out.append("`");
            },
            ConfigError::InvalidPermitWait { text } => out.append(text.as_str()),
        }
        assert(out@ =~= config_text(self@, quoted@));
        out
    }

    /// The text of the error.
    pub fn message(&self) -> (r: String)
        ensures
            r@ == config_text(
                self@,
                match self@ {
                    ConfigFault::MapCountUnreadable(text, _) => quoted_text(text),
                    _ => Seq::empty(),
                },
            ),
    {
        match self {
            ConfigError::MapCountUnreadable { text, cause: _ } => {
                let quoted: String = quote(text.as_str());
                self.message_with(quoted.as_str())
            },
            _ => {
                proof {
                    reveal_strlit("");
                    assert(""@ =~= Seq::<char>::empty());
                }
                self.message_with("")
            },
        }
    }
}

/// A registry needs two mappings for each archive and 2048 more. A host that
/// allows fewer is refused with what it has and what is needed.
pub proof fn law_mapping_budget(max_map_count: usize, max_open_archives: usize)
    ensures
        ({
            let need = 2 * max_open_archives + 2048;
            match budget_fault(max_map_count, max_open_archives) {
                None => need <= max_map_count,
                Some(ConfigFault::MapCountTooLow(have, needed, archives)) => {
                    &&& max_map_count < need
                    &&& have == max_map_count
                    &&& needed == need
                    &&& archives == max_open_archives
                },
                Some(e) => e is BudgetOverflow && need > usize::MAX,
            }
        }),
{
}

} // verus!
