//! The limits on requests and responses, and how they are read from settings.
use crate::numeral::{numeral, numeral_within, parse_u64, parse_usize};
use crate::text::{chars_of, decimal, trim, trim_of};
use vstd::prelude::*;

verus! {

/// One mebibyte.
pub const MIB: usize = 1048576;

/// How many bytes a retrieval returns where nothing is asked for.
pub const DEFAULT_RETRIEVE_BYTES: usize = 65536;

/// How many bytes a retrieval returns at most.
pub const DEFAULT_MAX_RETRIEVE_BYTES: usize = 1048576;

/// The token target of a code outline.
pub const DEFAULT_STRUCTURAL_CODE_TARGET_TOKENS: usize = 1024;

/// How long a command may run, in seconds.
pub const DEFAULT_RUN_TIMEOUT_SECONDS: u64 = 300;

/// How many bytes of a command's output are held at most.
pub const DEFAULT_MAX_RUN_OUTPUT_BYTES: usize = 67108864;

/// How many rows are shown at most.
pub const DEFAULT_MAX_ROWS: usize = 200;

/// How many parsed datasets are retained.
pub const DEFAULT_DATASET_CACHE_ENTRIES: usize = 8;

/// The limits on a retrieval.
#[derive(Clone, Copy, Debug, PartialEq, Eq, Structural)]
pub struct RetrieveLimits {
    /// The bytes returned where nothing is asked for.
    pub default_bytes: usize,
    /// The bytes returned at most.
    pub max_bytes: usize,
}

/// The limits on a command.
#[derive(Clone, Copy, Debug, PartialEq, Eq, Structural)]
pub struct RunLimits {
    /// How long it may run, in seconds.
    pub timeout_seconds: u64,
    /// How many bytes of its output are held at most.
    pub max_output_bytes: usize,
}

/// A setting, where it is there.
pub open spec fn setting(raw: Option<&str>) -> Option<Seq<char>> {
    match raw {
        Some(s) => Some(s@),
        None => None,
    }
}

/// The positive number that a setting gives; nothing where it is not there, is
/// no number up to `max`, or is zero.
pub open spec fn positive(raw: Option<Seq<char>>, max: nat) -> Option<nat> {
    match raw {
        None => None,
        Some(s) => match numeral_within(trim(s), max) {
            Some(v) => if v > 0 {
                Some(v)
            } else {
                None
            },
            None => None,
        },
    }
}

/// The positive number that a setting gives.
pub fn positive_u64_from_value(raw: Option<&str>) -> (out: Option<u64>)
    ensures
        match out {
            Some(v) => positive(setting(raw), u64::MAX as nat) == Some(v as nat),
            None => positive(setting(raw), u64::MAX as nat) is None,
        },
{
    match raw {
        None => None,
        Some(s) => {
            let text = trim_of(&chars_of(s));
            match parse_u64(&text) {
                Some(v) => if v > 0 {
                    Some(v)
                } else {
                    None
                },
                None => None,
            }
        },
    }
}

/// The positive number that a setting gives.
pub fn positive_usize_from_value(raw: Option<&str>) -> (out: Option<usize>)
    ensures
        match out {
            Some(v) => positive(setting(raw), usize::MAX as nat) == Some(v as nat),
            None => positive(setting(raw), usize::MAX as nat) is None,
        },
{
    match raw {
        None => None,
        Some(s) => {
            let text = trim_of(&chars_of(s));
            match parse_usize(&text) {
                Some(v) => if v > 0 {
                    Some(v)
                } else {
                    None
                },
                None => None,
            }
        },
    }
}

/// The number, or another one where it is not there.
pub open spec fn number_or(n: Option<nat>, otherwise: nat) -> nat {
    match n {
        Some(v) => v,
        None => otherwise,
    }
}

/// The limits on a retrieval: the default is never above the maximum.
pub fn retrieve_limits_from_values(default_raw: Option<&str>, max_raw: Option<&str>) -> (out:
    RetrieveLimits)
    ensures
        out.max_bytes == number_or(
            positive(setting(max_raw), usize::MAX as nat),
            DEFAULT_MAX_RETRIEVE_BYTES as nat,
        ),
        ({
            let asked = number_or(
                positive(setting(default_raw), usize::MAX as nat),
                DEFAULT_RETRIEVE_BYTES as nat,
            );
            out.default_bytes == if asked <= out.max_bytes {
                asked
            } else {
                out.max_bytes as nat
            }
        }),
{
    let max_bytes: usize = match positive_usize_from_value(max_raw) {
        Some(v) => v,
        None => DEFAULT_MAX_RETRIEVE_BYTES,
    };
    let asked: usize = match positive_usize_from_value(default_raw) {
        Some(v) => v,
        None => DEFAULT_RETRIEVE_BYTES,
    };
    let default_bytes: usize = if asked <= max_bytes {
        asked
    } else {
        max_bytes
    };
    RetrieveLimits { default_bytes, max_bytes }
}

/// The limits on a command. The output limit is set in mebibytes, and is the
/// greatest number there is where their bytes do not fit.
pub fn run_limits_from_values(timeout_raw: Option<&str>, output_mb_raw: Option<&str>) -> (out:
    RunLimits)
    ensures
        out.timeout_seconds == number_or(
            positive(setting(timeout_raw), u64::MAX as nat),
            DEFAULT_RUN_TIMEOUT_SECONDS as nat,
        ),
        out.max_output_bytes == match positive(setting(output_mb_raw), usize::MAX as nat) {
            Some(mb) => if mb * MIB <= usize::MAX {
                mb * MIB
            } else {
                usize::MAX as int
            },
            None => DEFAULT_MAX_RUN_OUTPUT_BYTES as int,
        },
{
    let timeout_seconds: u64 = match positive_u64_from_value(timeout_raw) {
        Some(v) => v,
        None => DEFAULT_RUN_TIMEOUT_SECONDS,
    };
    let max_output_bytes: usize = match positive_usize_from_value(output_mb_raw) {
        Some(mb) => match mb.checked_mul(MIB) {
            Some(bytes) => bytes,
            None => usize::MAX,
        },
        None => DEFAULT_MAX_RUN_OUTPUT_BYTES,
    };
    RunLimits { timeout_seconds, max_output_bytes }
}

/// How many rows are shown at most.
pub fn max_rows_from_value(raw: Option<&str>) -> (out: usize)
    ensures
        out == number_or(positive(setting(raw), usize::MAX as nat), DEFAULT_MAX_ROWS as nat),
{
    match positive_usize_from_value(raw) {
        Some(v) => v,
        None => DEFAULT_MAX_ROWS,
    }
}

/// How many parsed datasets are retained. Here zero is a number too: it retains
/// none.
pub fn dataset_cache_entries_from_value(raw: Option<&str>) -> (out: usize)
    ensures
        out == match raw {
            Some(s) => number_or(
                numeral_within(trim(s@), usize::MAX as nat),
                DEFAULT_DATASET_CACHE_ENTRIES as nat,
            ),
            None => DEFAULT_DATASET_CACHE_ENTRIES as nat,
        },
{
    match raw {
        None => DEFAULT_DATASET_CACHE_ENTRIES,
        Some(s) => {
            let text = trim_of(&chars_of(s));
            match parse_usize(&text) {
                Some(v) => v,
                None => DEFAULT_DATASET_CACHE_ENTRIES,
            }
        },
    }
}

/// A limit is set by a decimal number above zero that fits, whatever white space
/// is around it; anything else leaves the default.
pub proof fn law_settings(s: Seq<char>, n: nat, max: nat, default: nat)
    ensures
        positive(None, max) is None,
        trim(s) == decimal(n) ==> positive(Some(s), max) == (if 0 < n <= max {
            Some(n)
        } else {
            None
        }),
        positive(Some(s), max) is Some ==> numeral(trim(s)) == positive(Some(s), max) && 0
            < positive(Some(s), max)->0 <= max,
        number_or(None, default) == default,
        number_or(Some(n), default) == n,
{
    crate::numeral::law_decimal_reads_back(n);
}

/// The defaults: 64 KiB are retrieved unless said otherwise and at most 1 MiB, a
/// command has 300 seconds and 64 MiB of output, a page has at most 200 rows, 8
/// datasets are held, and an outline has 1024 tokens.
pub proof fn law_defaults()
    ensures
        MIB == 1024 * 1024,
        DEFAULT_RETRIEVE_BYTES == 64 * 1024,
        DEFAULT_MAX_RETRIEVE_BYTES == 1024 * 1024,
        DEFAULT_RUN_TIMEOUT_SECONDS == 300,
        DEFAULT_MAX_RUN_OUTPUT_BYTES == 64 * 1024 * 1024,
        DEFAULT_MAX_ROWS == 200,
        DEFAULT_DATASET_CACHE_ENTRIES == 8,
        DEFAULT_STRUCTURAL_CODE_TARGET_TOKENS == 1024,
{
}

} // verus!
