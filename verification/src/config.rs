//! The machine configuration: reservation-station counts per
//! functional-unit class, reorder-buffer depth, and floating-point
//! execute latencies.

use vstd::prelude::*;

use crate::text::find_byte;
use crate::text::find_byte_exec;
use crate::text::parse_u64;
use crate::text::parse_u64_exec;
use crate::text::rtrim;
use crate::text::rtrim_exec;
use crate::text::skip_spaces;
use crate::text::skip_spaces_exec;
use crate::text::window_eq;
use crate::text::window_is;

verus! {

/// The nine configuration parameters.  Latencies count Execute cycles;
/// integer, branch, and effective-address operations always execute in
/// one cycle.  `fp_sub_buffer_latency` is parsed and echoed but the
/// engine schedules floating-point subtraction with
/// `fp_add_buffer_latency`.
#[derive(Clone, Copy, Debug, PartialEq, Eq, Structural)]
pub struct Config {
    pub eff_addr_buffer_entries: u64,
    pub fp_add_buffer_entries: u64,
    pub fp_mul_buffer_entries: u64,
    pub int_buffer_entries: u64,
    pub reorder_buffer_entries: u64,
    pub fp_add_buffer_latency: u64,
    pub fp_sub_buffer_latency: u64,
    pub fp_mul_buffer_latency: u64,
    pub fp_div_buffer_latency: u64,
}

/// Why a configuration text was rejected.
#[derive(Clone, Copy, Debug, PartialEq, Eq, Structural)]
pub enum ConfigError {
    UnknownParameter,
    InvalidValue,
    DuplicateParameter,
    MissingParameter,
}

/// A configuration under construction: the values gathered so far and,
/// for each of the nine parameters, whether it has appeared.
#[derive(Clone, Copy, Debug, PartialEq, Eq, Structural)]
pub struct ConfigBuilder {
    pub cfg: Config,
    pub seen_eff_addr: bool,
    pub seen_fp_adds: bool,
    pub seen_fp_muls: bool,
    pub seen_ints: bool,
    pub seen_reorder: bool,
    pub seen_lat_add: bool,
    pub seen_lat_sub: bool,
    pub seen_lat_mul: bool,
    pub seen_lat_div: bool,
}

impl ConfigBuilder {
    /// Nothing seen yet, every value zero.
    pub open spec fn init() -> ConfigBuilder {
        ConfigBuilder {
            cfg: Config {
                eff_addr_buffer_entries: 0,
                fp_add_buffer_entries: 0,
                fp_mul_buffer_entries: 0,
                int_buffer_entries: 0,
                reorder_buffer_entries: 0,
                fp_add_buffer_latency: 0,
                fp_sub_buffer_latency: 0,
                fp_mul_buffer_latency: 0,
                fp_div_buffer_latency: 0,
            },
            seen_eff_addr: false,
            seen_fp_adds: false,
            seen_fp_muls: false,
            seen_ints: false,
            seen_reorder: false,
            seen_lat_add: false,
            seen_lat_sub: false,
            seen_lat_mul: false,
            seen_lat_div: false,
        }
    }

    /// Whether all nine parameters have appeared.
    pub open spec fn complete(&self) -> bool {
        self.seen_eff_addr && self.seen_fp_adds && self.seen_fp_muls && self.seen_ints
            && self.seen_reorder && self.seen_lat_add && self.seen_lat_sub && self.seen_lat_mul
            && self.seen_lat_div
    }
}

/// The parameter name `eff addr`.
pub open spec fn name_eff_addr() -> Seq<u8> {
    seq![101u8, 102u8, 102u8, 32u8, 97u8, 100u8, 100u8, 114u8]
}

/// The parameter name `fp adds`.
pub open spec fn name_fp_adds() -> Seq<u8> {
    seq![102u8, 112u8, 32u8, 97u8, 100u8, 100u8, 115u8]
}

/// The parameter name `fp muls`.
pub open spec fn name_fp_muls() -> Seq<u8> {
    seq![102u8, 112u8, 32u8, 109u8, 117u8, 108u8, 115u8]
}

/// The parameter name `ints`.
pub open spec fn name_ints() -> Seq<u8> {
    seq![105u8, 110u8, 116u8, 115u8]
}

/// The parameter name `reorder`.
pub open spec fn name_reorder() -> Seq<u8> {
    seq![114u8, 101u8, 111u8, 114u8, 100u8, 101u8, 114u8]
}

/// The parameter name `fp_add`.
pub open spec fn name_lat_add() -> Seq<u8> {
    seq![102u8, 112u8, 95u8, 97u8, 100u8, 100u8]
}

/// The parameter name `fp_sub`.
pub open spec fn name_lat_sub() -> Seq<u8> {
    seq![102u8, 112u8, 95u8, 115u8, 117u8, 98u8]
}

/// The parameter name `fp_mul`.
pub open spec fn name_lat_mul() -> Seq<u8> {
    seq![102u8, 112u8, 95u8, 109u8, 117u8, 108u8]
}

/// The parameter name `fp_div`.
pub open spec fn name_lat_div() -> Seq<u8> {
    seq![102u8, 112u8, 95u8, 100u8, 105u8, 118u8]
}

/// What one line contributes: a line without exactly one colon is
/// skipped; otherwise its trimmed name must be a known parameter, its
/// trimmed value a decimal number, and the parameter must not have
/// appeared before.
pub open spec fn spec_apply_line(acc: ConfigBuilder, s: Seq<u8>, lo: int, hi: int) -> Result<
    ConfigBuilder,
    ConfigError,
> {
    let i = find_byte(s, lo, hi, 58);
    if i == hi || find_byte(s, i + 1, hi, 58) != hi {
        Ok(acc)
    } else {
        let na = skip_spaces(s, lo, i);
        let nb = rtrim(s, na, i);
        let va = skip_spaces(s, i + 1, hi);
        let vb = rtrim(s, va, hi);
        match parse_u64(s, va, vb) {
            None => Err(ConfigError::InvalidValue),
            Some(v) => if window_is(s, na, nb, name_eff_addr()) {
                if acc.seen_eff_addr {
                    Err(ConfigError::DuplicateParameter)
                } else {
                    Ok(
                        ConfigBuilder {
                            cfg: Config { eff_addr_buffer_entries: v, ..acc.cfg },
                            seen_eff_addr: true,
                            ..acc
                        },
                    )
                }
            } else if window_is(s, na, nb, name_fp_adds()) {
                if acc.seen_fp_adds {
                    Err(ConfigError::DuplicateParameter)
                } else {
                    Ok(
                        ConfigBuilder {
                            cfg: Config { fp_add_buffer_entries: v, ..acc.cfg },
                            seen_fp_adds: true,
                            ..acc
                        },
                    )
                }
            } else if window_is(s, na, nb, name_fp_muls()) {
                if acc.seen_fp_muls {
                    Err(ConfigError::DuplicateParameter)
                } else {
                    Ok(
                        ConfigBuilder {
                            cfg: Config { fp_mul_buffer_entries: v, ..acc.cfg },
                            seen_fp_muls: true,
                            ..acc
                        },
                    )
                }
            } else if window_is(s, na, nb, name_ints()) {
                if acc.seen_ints {
                    Err(ConfigError::DuplicateParameter)
                } else {
                    Ok(
                        ConfigBuilder {
                            cfg: Config { int_buffer_entries: v, ..acc.cfg },
                            seen_ints: true,
                            ..acc
                        },
                    )
                }
            } else if window_is(s, na, nb, name_reorder()) {
                if acc.seen_reorder {
                    Err(ConfigError::DuplicateParameter)
                } else {
                    Ok(
                        ConfigBuilder {
                            cfg: Config { reorder_buffer_entries: v, ..acc.cfg },
                            seen_reorder: true,
                            ..acc
                        },
                    )
                }
            } else if window_is(s, na, nb, name_lat_add()) {
                if acc.seen_lat_add {
                    Err(ConfigError::DuplicateParameter)
                } else {
                    Ok(
                        ConfigBuilder {
                            cfg: Config { fp_add_buffer_latency: v, ..acc.cfg },
                            seen_lat_add: true,
                            ..acc
                        },
                    )
                }
            } else if window_is(s, na, nb, name_lat_sub()) {
                if acc.seen_lat_sub {
                    Err(ConfigError::DuplicateParameter)
                } else {
                    Ok(
                        ConfigBuilder {
                            cfg: Config { fp_sub_buffer_latency: v, ..acc.cfg },
                            seen_lat_sub: true,
                            ..acc
                        },
                    )
                }
            } else if window_is(s, na, nb, name_lat_mul()) {
                if acc.seen_lat_mul {
                    Err(ConfigError::DuplicateParameter)
                } else {
                    Ok(
                        ConfigBuilder {
                            cfg: Config { fp_mul_buffer_latency: v, ..acc.cfg },
                            seen_lat_mul: true,
                            ..acc
                        },
                    )
                }
            } else if window_is(s, na, nb, name_lat_div()) {
                if acc.seen_lat_div {
                    Err(ConfigError::DuplicateParameter)
                } else {
                    Ok(
                        ConfigBuilder {
                            cfg: Config { fp_div_buffer_latency: v, ..acc.cfg },
                            seen_lat_div: true,
                            ..acc
                        },
                    )
                }
            } else {
                Err(ConfigError::UnknownParameter)
            },
        }
    }
}

/// Applies every newline-separated line from position `lo` on.
pub open spec fn spec_parse_lines(acc: ConfigBuilder, s: Seq<u8>, lo: int) -> Result<
    ConfigBuilder,
    ConfigError,
>
    decreases s.len() + 1 - lo,
    via spec_parse_lines_decreases
{
    if lo >= s.len() {
        Ok(acc)
    } else {
        let e = find_byte(s, lo, s.len() as int, 10);
        match spec_apply_line(acc, s, lo, e) {
            Err(x) => Err(x),
            Ok(acc2) => spec_parse_lines(acc2, s, e + 1),
        }
    }
}

#[via_fn]
proof fn spec_parse_lines_decreases(acc: ConfigBuilder, s: Seq<u8>, lo: int) {
    if lo < s.len() {
        crate::text::lemma_find_byte_bounds(s, lo, s.len() as int, 10);
    }
}

/// What parsing a configuration text yields: the nine parameters, each
/// exactly once, with unknown names and non-numeric values rejected.
pub open spec fn spec_parse_config(s: Seq<u8>) -> Result<Config, ConfigError> {
    match spec_parse_lines(ConfigBuilder::init(), s, 0) {
        Err(x) => Err(x),
        Ok(acc) => if acc.complete() {
            Ok(acc.cfg)
        } else {
            Err(ConfigError::MissingParameter)
        },
    }
}

impl Config {
    /// Parses a configuration text.
    #[verifier::loop_isolation(false)]
    pub fn parse(s: &[u8]) -> (r: Result<Config, ConfigError>)
        requires
            s@.len() < usize::MAX,
        ensures
            r == spec_parse_config(s@),
    {
        let n = s.len();
        let mut acc = ConfigBuilder {
            cfg: Config {
                eff_addr_buffer_entries: 0,
                fp_add_buffer_entries: 0,
                fp_mul_buffer_entries: 0,
                int_buffer_entries: 0,
                reorder_buffer_entries: 0,
                fp_add_buffer_latency: 0,
                fp_sub_buffer_latency: 0,
                fp_mul_buffer_latency: 0,
                fp_div_buffer_latency: 0,
            },
            seen_eff_addr: false,
            seen_fp_adds: false,
            seen_fp_muls: false,
            seen_ints: false,
            seen_reorder: false,
            seen_lat_add: false,
            seen_lat_sub: false,
            seen_lat_mul: false,
            seen_lat_div: false,
        };
        let mut lo: usize = 0;
        while lo < n
            invariant
                lo <= n + 1,
                spec_parse_lines(ConfigBuilder::init(), s@, 0) == spec_parse_lines(
                    acc,
                    s@,
                    lo as int,
                ),
            decreases n + 1 - lo,
        {
            let e = find_byte_exec(s, lo, n, 10);
            match Config::apply_line(acc, s, lo, e) {
                Ok(acc2) => {
                    acc = acc2;
                },
                Err(x) => {
                    return Err(x);
                },
            }
            lo = e + 1;
        }
        if acc.seen_eff_addr && acc.seen_fp_adds && acc.seen_fp_muls && acc.seen_ints
            && acc.seen_reorder && acc.seen_lat_add && acc.seen_lat_sub && acc.seen_lat_mul
            && acc.seen_lat_div {
            Ok(acc.cfg)
        } else {
            Err(ConfigError::MissingParameter)
        }
    }

    /// Applies one line to the builder.
    fn apply_line(acc: ConfigBuilder, s: &[u8], lo: usize, hi: usize) -> (r: Result<
        ConfigBuilder,
        ConfigError,
    >)
        requires
            lo <= hi <= s@.len(),
        ensures
            r == spec_apply_line(acc, s@, lo as int, hi as int),
    {
        let i = find_byte_exec(s, lo, hi, 58);
        if i == hi {
            return Ok(acc);
        }
        if find_byte_exec(s, i + 1, hi, 58) != hi {
            return Ok(acc);
        }
        let na = skip_spaces_exec(s, lo, i);
        let nb = rtrim_exec(s, na, i);
        let va = skip_spaces_exec(s, i + 1, hi);
        let vb = rtrim_exec(s, va, hi);
        let v = match parse_u64_exec(s, va, vb) {
            Some(v) => v,
            None => {
                return Err(ConfigError::InvalidValue);
            },
        };
        if window_eq(s, na, nb, &vec![101u8, 102u8, 102u8, 32u8, 97u8, 100u8, 100u8, 114u8]) {
            if acc.seen_eff_addr {
                Err(ConfigError::DuplicateParameter)
            } else {
                Ok(
                    ConfigBuilder {
                        cfg: Config { eff_addr_buffer_entries: v, ..acc.cfg },
                        seen_eff_addr: true,
                        ..acc
                    },
                )
            }
        } else if window_eq(s, na, nb, &vec![102u8, 112u8, 32u8, 97u8, 100u8, 100u8, 115u8]) {
            if acc.seen_fp_adds {
                Err(ConfigError::DuplicateParameter)
            } else {
                Ok(
                    ConfigBuilder {
                        cfg: Config { fp_add_buffer_entries: v, ..acc.cfg },
                        seen_fp_adds: true,
                        ..acc
                    },
                )
            }
        } else if window_eq(s, na, nb, &vec![102u8, 112u8, 32u8, 109u8, 117u8, 108u8, 115u8]) {
            if acc.seen_fp_muls {
                Err(ConfigError::DuplicateParameter)
            } else {
                Ok(
                    ConfigBuilder {
                        cfg: Config { fp_mul_buffer_entries: v, ..acc.cfg },
                        seen_fp_muls: true,
                        ..acc
                    },
                )
            }
        } else if window_eq(s, na, nb, &vec![105u8, 110u8, 116u8, 115u8]) {
            if acc.seen_ints {
                Err(ConfigError::DuplicateParameter)
            } else {
                Ok(
                    ConfigBuilder {
                        cfg: Config { int_buffer_entries: v, ..acc.cfg },
                        seen_ints: true,
                        ..acc
                    },
                )
            }
        } else if window_eq(s, na, nb, &vec![114u8, 101u8, 111u8, 114u8, 100u8, 101u8, 114u8]) {
            if acc.seen_reorder {
                Err(ConfigError::DuplicateParameter)
            } else {
                Ok(
                    ConfigBuilder {
                        cfg: Config { reorder_buffer_entries: v, ..acc.cfg },
                        seen_reorder: true,
                        ..acc
                    },
                )
            }
        } else if window_eq(s, na, nb, &vec![102u8, 112u8, 95u8, 97u8, 100u8, 100u8]) {
            if acc.seen_lat_add {
                Err(ConfigError::DuplicateParameter)
            } else {
                Ok(
                    ConfigBuilder {
                        cfg: Config { fp_add_buffer_latency: v, ..acc.cfg },
                        seen_lat_add: true,
                        ..acc
                    },
                )
            }
        } else if window_eq(s, na, nb, &vec![102u8, 112u8, 95u8, 115u8, 117u8, 98u8]) {
            if acc.seen_lat_sub {
                Err(ConfigError::DuplicateParameter)
            } else {
                Ok(
                    ConfigBuilder {
                        cfg: Config { fp_sub_buffer_latency: v, ..acc.cfg },
                        seen_lat_sub: true,
                        ..acc
                    },
                )
            }
        } else if window_eq(s, na, nb, &vec![102u8, 112u8, 95u8, 109u8, 117u8, 108u8]) {
            if acc.seen_lat_mul {
                Err(ConfigError::DuplicateParameter)
            } else {
                Ok(
                    ConfigBuilder {
                        cfg: Config { fp_mul_buffer_latency: v, ..acc.cfg },
                        seen_lat_mul: true,
                        ..acc
                    },
                )
            }
        } else if window_eq(s, na, nb, &vec![102u8, 112u8, 95u8, 100u8, 105u8, 118u8]) {
            if acc.seen_lat_div {
                Err(ConfigError::DuplicateParameter)
            } else {
                Ok(
                    ConfigBuilder {
                        cfg: Config { fp_div_buffer_latency: v, ..acc.cfg },
                        seen_lat_div: true,
                        ..acc
                    },
                )
            }
        } else {
            Err(ConfigError::UnknownParameter)
        }
    }
}

} // verus!
