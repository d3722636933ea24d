//! Basic vocabulary of the counting core: what is counted, threshold values,
//! error kinds, and the shard constant of the count table.

use vstd::prelude::*;
use crate::bytes::split_on;
use crate::dec::{
    all_digits,
    dec_value,
    lemma_rel_fraction_wf,
    parse_rel_fraction,
    parse_usize_range,
    spec_rel_fraction,
    trim,
    trim_bytes,
};

verus! {

/// Number of shards of an `ItemTable`; items are distributed by `id % SIZE_T`.
pub const SIZE_T: usize = 64;

/// Largest admissible number of path groups: the per-item group count is held
/// in 16 bits with two values reserved as sentinels.
pub const MAX_GROUPS: usize = 65534;

/// Which graph quantity the counting core counts.
#[derive(Clone, Copy, Debug, PartialEq, Eq, Structural)]
pub enum CountType {
    Node,
    Edge,
    Bp,
}

/// A coverage or quorum threshold. A relative threshold is an exact decimal
/// fraction `num / den` with `num <= den` (the value lies in `[0, 1]`); it is
/// resolved against the group count `g` as `ceil(num * g / den)`.
#[derive(Clone, Copy, Debug, PartialEq, Eq, Structural)]
pub enum Threshold {
    Absolute(usize),
    Relative(u64, u64),
}

/// Errors of the counting core.
#[derive(Clone, Copy, Debug, PartialEq, Eq, Structural)]
pub enum CountError {
    /// Malformed GFA/BED/histogram input; carries the offending line number.
    FormatError(usize),
    /// Conflicting options, out-of-range thresholds, or list length mismatch.
    InvalidInput,
    /// More path groups than the 16-bit count representation admits.
    Unsupported,
}

/// `ceil(a * b / d)` over the mathematical integers.
pub open spec fn spec_ceil_mul_div(a: nat, b: nat, d: nat) -> nat
    recommends
        d > 0,
{
    ((a * b + d - 1) / (d as int)) as nat
}

impl Threshold {
    /// Whether the threshold is well formed: a relative value must not exceed 1.
    pub open spec fn wf(self) -> bool {
        match self {
            Threshold::Absolute(_) => true,
            Threshold::Relative(num, den) => den > 0 && num <= den,
        }
    }

    /// The absolute threshold that `self` denotes against `g` groups.
    pub open spec fn spec_to_absolute(self, g: nat) -> nat {
        match self {
            Threshold::Absolute(t) => t as nat,
            Threshold::Relative(num, den) => spec_ceil_mul_div(num as nat, g, den as nat),
        }
    }

    /// Resolves the threshold against a group count, rounding a relative
    /// threshold up: `ceil(num * g / den)`.
    pub fn to_absolute(&self, g: usize) -> (r: usize)
        requires
            self.wf(),
            g <= MAX_GROUPS,
        ensures
            r == self.spec_to_absolute(g as nat),
    {
        match self {
            Threshold::Absolute(t) => *t,
            Threshold::Relative(num, den) => {
                proof {
                    assert((*num as int) * (g as int) <= u128::MAX) by (nonlinear_arith)
                        requires
                            *num <= u64::MAX,
                            g <= MAX_GROUPS,
                    ;
                }
                let n128: u128 = (*num as u128) * (g as u128);
                let d128: u128 = *den as u128;
                proof {
                    assert(n128 + (d128 - 1) <= u128::MAX) by (nonlinear_arith)
                        requires
                            n128 == (*num as u128) * (g as u128),
                            d128 == *den as u128,
                            *num <= u64::MAX,
                            g <= MAX_GROUPS,
                            *den <= u64::MAX,
                            *den > 0,
                    ;
                }
                let q: u128 = (n128 + (d128 - 1)) / d128;
                proof {
                    assert(q <= g && q == ((*num as int) * (g as int) + (*den as int) - 1) / (
                    *den as int)) by (nonlinear_arith)
                        requires
                            q == (n128 + d128 - 1) / (d128 as int),
                            n128 == (*num as u128) * (g as u128),
                            d128 == *den as u128,
                            *num <= *den,
                            *den > 0,
                    ;
                }
                q as usize
            },
        }
    }
}

/// At most one of an explicit grouping file, grouping by haplotype, and
/// grouping by sample may be requested; anything more is a configuration
/// error, caught before any file is read.
pub fn validate_grouping_options(has_groupby_file: bool, by_haplotype: bool, by_sample: bool) -> (r:
    Result<(), CountError>)
    ensures
        r is Ok <==> ({
            let c = (if has_groupby_file {
                1int
            } else {
                0int
            }) + (if by_haplotype {
                1int
            } else {
                0int
            }) + (if by_sample {
                1int
            } else {
                0int
            });
            c <= 1
        }),
        r is Err ==> r->Err_0 == CountError::InvalidInput,
{
    let mut c: u8 = 0;
    if has_groupby_file {
        c = c + 1;
    }
    if by_haplotype {
        c = c + 1;
    }
    if by_sample {
        c = c + 1;
    }
    if c > 1 {
        Err(CountError::InvalidInput)
    } else {
        Ok(())
    }
}

/// Which shapes of threshold a caller accepts.
#[derive(Clone, Copy, Debug, PartialEq, Eq, Structural)]
pub enum RequireThreshold {
    Absolute,
    Relative,
    Either,
}

/// The threshold one trimmed list element denotes under the given
/// requirement; `None` when the element is malformed or out of range.
pub open spec fn spec_threshold_elem(s: Seq<u8>, require: RequireThreshold) -> Option<Threshold> {
    let t = trim(s);
    match require {
        RequireThreshold::Absolute => if t.len() > 0 && all_digits(t) && dec_value(t)
            <= usize::MAX {
            Some(Threshold::Absolute(dec_value(t) as usize))
        } else {
            None
        },
        RequireThreshold::Relative => match spec_rel_fraction(t) {
            Some((num, den)) => Some(Threshold::Relative(num, den)),
            None => None,
        },
        RequireThreshold::Either => if t.len() > 0 && all_digits(t) && dec_value(t)
            <= usize::MAX {
            Some(Threshold::Absolute(dec_value(t) as usize))
        } else {
            match spec_rel_fraction(t) {
                Some((num, den)) => Some(Threshold::Relative(num, den)),
                None => None,
            }
        },
    }
}

/// The thresholds the list elements `parts[i..]` denote.
pub open spec fn thresholds_from(
    parts: Seq<Seq<u8>>,
    i: int,
    require: RequireThreshold,
) -> Option<Seq<Threshold>>
    decreases parts.len() - i,
{
    if i < 0 || i >= parts.len() {
        Some(Seq::<Threshold>::empty())
    } else {
        match spec_threshold_elem(parts[i], require) {
            None => None,
            Some(t) => match thresholds_from(parts, i + 1, require) {
                None => None,
                Some(rest) => Some(seq![t] + rest),
            },
        }
    }
}

/// Reads one trimmed element as a threshold.
pub(crate) fn threshold_elem(el: &Vec<u8>, require: RequireThreshold) -> (r: Option<Threshold>)
    ensures
        r == spec_threshold_elem(el@, require),
        r is Some ==> r->0.wf(),
{
    let t = trim_bytes(el);
    let abs: Option<Threshold> = match parse_usize_range(&t, 0, t.len()) {
        Some(v) => {
            proof {
                assert(t@.subrange(0, t@.len() as int) =~= t@);
            }
            Some(Threshold::Absolute(v))
        },
        None => {
            proof {
                assert(t@.subrange(0, t@.len() as int) =~= t@);
            }
            None
        },
    };
    match require {
        RequireThreshold::Absolute => abs,
        RequireThreshold::Relative => {
            match parse_rel_fraction(&t) {
                Some((num, den)) => {
                    proof {
                        lemma_rel_fraction_wf(t@);
                    }
                    Some(Threshold::Relative(num, den))
                },
                None => None,
            }
        },
        RequireThreshold::Either => {
            match abs {
                Some(a) => Some(a),
                None => {
                    match parse_rel_fraction(&t) {
                        Some((num, den)) => {
                            proof {
                                lemma_rel_fraction_wf(t@);
                            }
                            Some(Threshold::Relative(num, den))
                        },
                        None => None,
                    }
                },
            }
        },
    }
}

/// Reads a comma-separated threshold list. Every element must denote a
/// threshold of the required shape; a relative value must lie in `[0, 1]`.
pub fn parse_threshold_cli(threshold_str: &Vec<u8>, require: RequireThreshold) -> (r: Result<
    Vec<Threshold>,
    CountError,
>)
    ensures
        ({
            let parts = split_on(threshold_str@, 44u8);
            match r {
                Ok(v) => thresholds_from(parts, 0, require) == Some(v@) && (forall|j: int|
                    0 <= j < v@.len() ==> (#[trigger] v@[j]).wf()),
                Err(e) => thresholds_from(parts, 0, require) is None && e
                    == CountError::InvalidInput,
            }
        }),
{
    let parts = crate::bytes::split_range_on(threshold_str, 0, threshold_str.len(), 44u8);
    let ghost pv = split_on(threshold_str@, 44u8);
    proof {
        assert(threshold_str@.subrange(0, threshold_str@.len() as int) =~= threshold_str@);
    }
    let n = parts.len();
    let mut out: Vec<Threshold> = Vec::new();
    let mut i: usize = 0;
    proof {
        assert(out@ + thresholds_from(pv, 0, require)->0 =~= thresholds_from(pv, 0, require)->0);
    }
    while i < n
        invariant
            i <= n,
            n == parts@.len(),
            pv == parts@.map_values(|v: Vec<u8>| v@),
            pv == split_on(threshold_str@, 44u8),
            forall|j: int| 0 <= j < out@.len() ==> (#[trigger] out@[j]).wf(),
            match thresholds_from(pv, i as int, require) {
                Some(rest) => thresholds_from(pv, 0, require) == Some(out@ + rest),
                None => thresholds_from(pv, 0, require) is None,
            },
        decreases n - i,
    {
        let el = &parts[i];
        assert(pv[i as int] == el@);
        match threshold_elem(el, require) {
            None => {
                return Err(CountError::InvalidInput);
            },
            Some(t) => {
                let ghost out0 = out@;
                out.push(t);
                proof {
                    match thresholds_from(pv, i as int + 1, require) {
                        None => {},
                        Some(rest1) => {
                            assert(out0 + (seq![t] + rest1) =~= out@ + rest1);
                        },
                    }
                }
            },
        }
        i = i + 1;
    }
    proof {
        assert(out@ + Seq::<Threshold>::empty() =~= out@);
    }
    Ok(out)
}

} // verus!
