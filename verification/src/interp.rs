//! Interpolation query engine: given a time column and a value column, both
//! holding 32-bit sample words, and a query time, pick the sample (or the
//! bracketing pair of samples) that answers the query under one of three
//! policies.
//!
//! Time ordering is the IEEE-754 total order on the 32-bit words, computed by
//! the order-preserving integer key [`tkey`]. On well-formed time columns
//! (finite values, no NaN) this order coincides with the numeric order of the
//! encoded values, so a column sorted by time is sorted by key.

use vstd::prelude::*;

verus! {

/// Order-preserving key for the IEEE-754 total order on 32-bit words:
/// `tkey(a) < tkey(b)` exactly when the value encoded by `a` precedes the
/// value encoded by `b` in the standard's total order. Words with the sign
/// bit clear (non-negative values) keep their relative order above all words
/// with the sign bit set (negative values), whose order is reversed.
pub open spec fn tkey(w: u32) -> u32 {
    if w >= 0x8000_0000 {
        !w
    } else {
        (w + 0x8000_0000) as u32
    }
}

/// The time encoded by `a` is strictly before the time encoded by `b`.
pub open spec fn before(a: u32, b: u32) -> bool {
    tkey(a) < tkey(b)
}

/// The sequence of time words is non-decreasing in the total order.
pub open spec fn sorted_times(s: Seq<u32>) -> bool {
    forall|i: int, j: int| 0 <= i <= j < s.len() ==> tkey(s[i]) <= tkey(s[j])
}

/// Computes [`tkey`] on a concrete word.
pub fn time_key(w: u32) -> (r: u32)
    ensures
        r == tkey(w),
{
    if w >= 0x8000_0000 {
        !w
    } else {
        w + 0x8000_0000
    }
}

/// Length of the longest prefix of `s` whose elements all satisfy the search
/// predicate: strictly before `t` when `strict`, at or before `t` otherwise.
/// On a sorted sequence this is the partition point of that predicate.
pub open spec fn prefix_len(s: Seq<u32>, t: u32, strict: bool) -> int
    decreases s.len(),
{
    if s.len() == 0 {
        0
    } else if (if strict {
        before(s[0], t)
    } else {
        !before(t, s[0])
    }) {
        1 + prefix_len(s.drop_first(), t, strict)
    } else {
        0
    }
}

proof fn lemma_prefix_len_bounds(s: Seq<u32>, t: u32, strict: bool)
    ensures
        0 <= prefix_len(s, t, strict) <= s.len(),
    decreases s.len(),
{
    if s.len() > 0 {
        lemma_prefix_len_bounds(s.drop_first(), t, strict);
    }
}

/// On a sorted sequence, an index that splits the passing prefix from the
/// failing suffix is exactly `prefix_len`.
proof fn lemma_prefix_len_split(s: Seq<u32>, t: u32, strict: bool, r: int)
    requires
        0 <= r <= s.len(),
        forall|i: int|
            0 <= i < r ==> (if strict {
                before(s[i], t)
            } else {
                !before(t, s[i])
            }),
        forall|i: int|
            r <= i < s.len() ==> !(if strict {
                before(s[i], t)
            } else {
                !before(t, s[i])
            }),
    ensures
        r == prefix_len(s, t, strict),
    decreases s.len(),
{
    if s.len() > 0 {
        let rest = s.drop_first();
        if r == 0 {
            assert(!(if strict {
                before(s[0], t)
            } else {
                !before(t, s[0])
            }));
        } else {
            assert(forall|i: int| 0 <= i < r - 1 ==> rest[i] == s[i + 1]);
            assert(forall|i: int| r - 1 <= i < rest.len() ==> rest[i] == s[i + 1]);
            lemma_prefix_len_split(rest, t, strict, r - 1);
        }
    }
}

/// Binary search for the partition point of the search predicate (strictly
/// before `t`, or at-or-before `t`) over `times`. Always returns an index in
/// `0 ..= times.len()`; when `times` is sorted the index is the partition
/// point, reached in logarithmically many probes.
pub fn partition_point(times: &Vec<u32>, t: u32, strict: bool) -> (r: usize)
    ensures
        r <= times.len(),
        sorted_times(times@) ==> r == prefix_len(times@, t, strict),
{
    let tk = time_key(t);
    let mut lo: usize = 0;
    let mut hi: usize = times.len();
    while lo < hi
        invariant
            lo <= hi <= times.len(),
            tk == tkey(t),
            sorted_times(times@) ==> forall|i: int|
                0 <= i < lo ==> (if strict {
                    before(times@[i], t)
                } else {
                    !before(t, times@[i])
                }),
            sorted_times(times@) ==> forall|i: int|
                hi <= i < times.len() ==> !(if strict {
                    before(times@[i], t)
                } else {
                    !before(t, times@[i])
                }),
        decreases hi - lo,
    {
        let mid = lo + (hi - lo) / 2;
        let mk = time_key(times[mid]);
        let pass = if strict {
            mk < tk
        } else {
            mk <= tk
        };
        if pass {
            lo = mid + 1;
        } else {
            hi = mid;
        }
    }
    proof {
        if sorted_times(times@) {
            lemma_prefix_len_split(times@, t, strict, lo as int);
        }
    }
    lo
}

/// How a query time maps to a sampled value.
#[derive(Clone, Copy, Debug, PartialEq, Eq, Structural)]
pub enum InterpolationMode {
    /// The latest sample strictly before the query time.
    PreviousPoint,
    /// The bracketing pair around the query time, blended linearly; at or
    /// past the last sample, the last sample.
    Linear,
    /// The earliest sample at or after the query time.
    NextPoint,
}

impl Default for InterpolationMode {
    /// Queries answer with the latest sample before the query time unless
    /// configured otherwise.
    fn default() -> (r: Self)
        ensures
            r == InterpolationMode::PreviousPoint,
    {
        InterpolationMode::PreviousPoint
    }
}

/// A query's answer: no sample, one sample word, or the pair of neighbouring
/// indices to blend between (the caller owns the floating-point blend).
#[derive(Clone, Copy, Debug, PartialEq, Eq, Structural)]
pub enum InterpResult {
    NoValue,
    Value(u32),
    Bracket { lo: usize, hi: usize },
}

/// What a query returns, by policy. `idx` below is the count of times
/// strictly before `t`.
pub open spec fn interp_spec(
    times: Seq<u32>,
    values: Seq<u32>,
    t: u32,
    mode: InterpolationMode,
) -> InterpResult {
    let idx = prefix_len(times, t, true);
    match mode {
        InterpolationMode::PreviousPoint => {
            if idx == 0 {
                InterpResult::NoValue
            } else if idx - 1 < values.len() {
                InterpResult::Value(values[idx - 1])
            } else {
                InterpResult::NoValue
            }
        },
        InterpolationMode::NextPoint => {
            if idx >= times.len() {
                InterpResult::NoValue
            } else if idx < values.len() {
                InterpResult::Value(values[idx])
            } else {
                InterpResult::NoValue
            }
        },
        InterpolationMode::Linear => {
            if idx == 0 {
                InterpResult::NoValue
            } else if idx >= times.len() {
                if times.len() > 0 && times.len() == values.len() {
                    InterpResult::Value(values[values.len() - 1])
                } else {
                    InterpResult::NoValue
                }
            } else if idx < values.len() {
                InterpResult::Bracket { lo: (idx - 1) as usize, hi: idx as usize }
            } else {
                InterpResult::NoValue
            }
        },
    }
}

/// Answers a point-in-time query over a time column and a value column, by
/// binary search over the sorted times. On a sorted time column the answer is
/// exactly [`interp_spec`]; mismatched column lengths degrade to no value,
/// never to a failure.
pub fn interpolate_value(
    times: &Vec<u32>,
    values: &Vec<u32>,
    t: u32,
    mode: InterpolationMode,
) -> (r: InterpResult)
    ensures
        sorted_times(times@) ==> r == interp_spec(times@, values@, t, mode),
        (match r {
            InterpResult::Bracket { lo, hi } => lo + 1 == hi && hi < times.len() && hi
                < values.len(),
            _ => true,
        }),
{
    let idx = partition_point(times, t, true);
    match mode {
        InterpolationMode::PreviousPoint => {
            if idx == 0 {
                InterpResult::NoValue
            } else if idx - 1 < values.len() {
                InterpResult::Value(values[idx - 1])
            } else {
                InterpResult::NoValue
            }
        },
        InterpolationMode::NextPoint => {
            if idx >= times.len() {
                InterpResult::NoValue
            } else if idx < values.len() {
                InterpResult::Value(values[idx])
            } else {
                InterpResult::NoValue
            }
        },
        InterpolationMode::Linear => {
            if idx == 0 {
                InterpResult::NoValue
            } else if idx >= times.len() {
                if times.len() > 0 && times.len() == values.len() {
                    InterpResult::Value(values[values.len() - 1])
                } else {
                    InterpResult::NoValue
                }
            } else if idx < values.len() {
                InterpResult::Bracket { lo: idx - 1, hi: idx }
            } else {
                InterpResult::NoValue
            }
        },
    }
}

/// Before the first sample there is no value — except under the next-point
/// policy, which answers with the first sample whenever the query time is at
/// or before it.
pub proof fn lemma_query_before_first(
    times: Seq<u32>,
    values: Seq<u32>,
    t: u32,
    mode: InterpolationMode,
)
    requires
        sorted_times(times),
        times.len() >= 1,
        values.len() == times.len(),
        !before(times[0], t),
    ensures
        mode != InterpolationMode::NextPoint ==> interp_spec(times, values, t, mode)
            == InterpResult::NoValue,
        mode == InterpolationMode::NextPoint ==> interp_spec(times, values, t, mode)
            == InterpResult::Value(values[0]),
{
    assert(prefix_len(times, t, true) == 0);
}

/// Strictly between the first and last sample time, the linear policy always
/// answers with a bracket: adjacent indices whose left time is strictly
/// before the query time and whose right time is at or after it.
pub proof fn lemma_linear_brackets(times: Seq<u32>, values: Seq<u32>, t: u32)
    requires
        sorted_times(times),
        times.len() <= usize::MAX,
        times.len() >= 2,
        values.len() == times.len(),
        before(times[0], t),
        before(t, times[times.len() - 1]),
    ensures
        interp_spec(times, values, t, InterpolationMode::Linear) matches InterpResult::Bracket {
            lo,
            hi,
        } && lo + 1 == hi && hi < times.len() && before(times[lo as int], t) && !before(
            times[hi as int],
            t,
        ),
{
    let idx = prefix_len(times, t, true);
    lemma_prefix_len_bounds(times, t, true);
    lemma_prefix_len_members(times, t, true);
    assert(before(times[0], t));
    assert(idx >= 1) by {
        if idx == 0 {
            assert(!before(times[0], t));
        }
    }
    assert(idx < times.len()) by {
        if idx == times.len() {
            assert(before(times[times.len() - 1], t));
        }
    }
    assert(before(times[idx - 1], t));
    assert(!before(times[idx], t));
    assert(interp_spec(times, values, t, InterpolationMode::Linear) == InterpResult::Bracket {
        lo: (idx - 1) as usize,
        hi: idx as usize,
    });
}

/// Elements before the partition point pass the search predicate; on a sorted
/// column, elements at or after it do not.
proof fn lemma_prefix_len_members(s: Seq<u32>, t: u32, strict: bool)
    ensures
        forall|i: int|
            0 <= i < prefix_len(s, t, strict) ==> (if strict {
                before(#[trigger] s[i], t)
            } else {
                !before(t, s[i])
            }),
        sorted_times(s) ==> forall|i: int|
            prefix_len(s, t, strict) <= i < s.len() ==> !(if strict {
                before(#[trigger] s[i], t)
            } else {
                !before(t, s[i])
            }),
    decreases s.len(),
{
    lemma_prefix_len_bounds(s, t, strict);
    if s.len() > 0 {
        let rest = s.drop_first();
        lemma_prefix_len_members(rest, t, strict);
        lemma_prefix_len_bounds(rest, t, strict);
        assert(forall|i: int| 0 <= i < rest.len() ==> #[trigger] rest[i] == s[i + 1]);
        let p = prefix_len(s, t, strict);
        let pass0 = if strict {
            before(s[0], t)
        } else {
            !before(t, s[0])
        };
        if pass0 {
            assert(p == 1 + prefix_len(rest, t, strict));
            assert forall|i: int| 0 <= i < p implies (if strict {
                before(#[trigger] s[i], t)
            } else {
                !before(t, s[i])
            }) by {
                if i > 0 {
                    assert(s[i] == rest[i - 1]);
                    assert(0 <= i - 1 < prefix_len(rest, t, strict));
                }
            }
        }
        if sorted_times(s) {
            assert(sorted_times(rest)) by {
                assert forall|i: int, j: int| 0 <= i <= j < rest.len() implies tkey(
                    #[trigger] rest[i],
                ) <= tkey(#[trigger] rest[j]) by {
                    assert(rest[i] == s[i + 1] && rest[j] == s[j + 1]);
                }
            }
            assert forall|i: int| p <= i < s.len() implies !(if strict {
                before(#[trigger] s[i], t)
            } else {
                !before(t, s[i])
            }) by {
                if pass0 {
                    assert(i > 0);
                    assert(s[i] == rest[i - 1]);
                    assert(prefix_len(rest, t, strict) <= i - 1 < rest.len());
                } else {
                    assert(p == 0);
                    if i > 0 {
                        assert(tkey(s[0]) <= tkey(s[i]));
                    }
                }
            }
        }
    }
}

} // verus!
