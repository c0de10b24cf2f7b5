//! Turning an MDF4 file into a table picks the channel group with the most
//! samples as the primary one; groups whose sample counts match it are the
//! candidates to fold in. A channel becomes a numeric column where at
//! least half of its present samples are numbers. The channel values are
//! floating point and the table is built outside this library.

use vstd::prelude::*;
use crate::mf4::parsing::decoder::{view_sample, DecodedValue, SampleView};

verus! {

/// Why an MDF4 file could not be turned into a table.
#[derive(Debug, Clone)]
pub struct Mf4ConvertError(pub String);

/// `i` is the last position of a maximum of `cycles`.
pub open spec fn is_last_max(cycles: Seq<u64>, i: int) -> bool {
    &&& 0 <= i < cycles.len()
    &&& forall|j: int| 0 <= j < cycles.len() ==> cycles[j] <= cycles[i]
    &&& forall|j: int| i < j < cycles.len() ==> cycles[j] < cycles[i]
}

/// The primary channel group: the one with the most samples, the last of
/// them where several tie.
pub fn primary_group_index(cycles: &[u64]) -> (i: usize)
    requires
        cycles@.len() > 0,
    ensures
        is_last_max(cycles@, i as int),
{
    let mut best: usize = 0;
    let mut j: usize = 1;
    while j < cycles.len()
        invariant
            1 <= j <= cycles@.len(),
            best < j,
            forall|k: int| 0 <= k < j ==> cycles@[k] <= cycles@[best as int],
            forall|k: int| best < k < j ==> cycles@[k] < cycles@[best as int],
        decreases cycles@.len() - j,
    {
        if cycles[j] >= cycles[best] {
            best = j;
        }
        j += 1;
    }
    best
}

/// A sample that is a number (an integer or a floating-point value).
pub open spec fn is_numeric_sample(v: SampleView) -> bool {
    v is UnsignedInteger || v is SignedInteger || v is Float32 || v is Float64
}

/// How many samples are present.
pub open spec fn present_count(s: Seq<Option<SampleView>>) -> nat
    decreases s.len(),
{
    if s.len() == 0 {
        0
    } else {
        present_count(s.drop_last()) + if s.last() is Some { 1nat } else { 0nat }
    }
}

/// How many samples are present and numbers.
pub open spec fn numeric_count(s: Seq<Option<SampleView>>) -> nat
    decreases s.len(),
{
    if s.len() == 0 {
        0
    } else {
        numeric_count(s.drop_last()) + if s.last() matches Some(v) && is_numeric_sample(v) { 1nat } else { 0nat }
    }
}

/// A channel's samples make a numeric column: none is present, or at least
/// half of those present are numbers.
pub open spec fn numeric_column(s: Seq<Option<SampleView>>) -> bool {
    present_count(s) == 0 || 2 * numeric_count(s) >= present_count(s)
}

/// Whether a channel's decoded samples make a numeric column.
pub fn column_is_numeric(decoded: &[Option<DecodedValue>]) -> (r: bool)
    ensures
        r == numeric_column(decoded@.map_values(|v: Option<DecodedValue>| view_sample(v))),
{
    let ghost s = decoded@.map_values(|v: Option<DecodedValue>| view_sample(v));
    let mut numeric: usize = 0;
    let mut total: usize = 0;
    let mut i: usize = 0;
    while i < decoded.len()
        invariant
            i <= decoded@.len(),
            s == decoded@.map_values(|v: Option<DecodedValue>| view_sample(v)),
            total == present_count(s.take(i as int)),
            numeric == numeric_count(s.take(i as int)),
            numeric <= total <= i,
        decreases decoded@.len() - i,
    {
        assert(s.take(i + 1).drop_last() =~= s.take(i as int));
        assert(s.take(i + 1).last() == view_sample(decoded@[i as int]));
        match &decoded[i] {
            Some(v) => {
                total += 1;
                match v {
                    DecodedValue::UnsignedInteger(_) | DecodedValue::SignedInteger(_) | DecodedValue::Float32(_)
                    | DecodedValue::Float64(_) => {
                        numeric += 1;
                    },
                    _ => {},
                }
            },
            None => {},
        }
        i += 1;
    }
    assert(s.take(decoded@.len() as int) =~= s);
    total == 0 || numeric >= total - numeric
}

} // verus!
