//! The metric aggregator: statistics over decoded capture records.
//!
//! The average frame rate is the arithmetic mean of `1000 / x` over the
//! captured milliseconds `x` between presents, records without that value
//! left out. This module selects those samples, in record order, and
//! reports a capture without any as an error; the floating-point
//! reduction over them is left to the caller.
use vstd::prelude::*;
use crate::codec::CellModel;
use crate::decoder::records_view;
use crate::numeric::is_float_literal;
use crate::record::{CaptureRecord, ms_of};

verus! {

/// Why a statistic could not be computed.
#[derive(Clone, Copy, Debug, PartialEq, Eq, Structural)]
pub enum MetricError {
    /// No record holds a value for the metric.
    NoValidSamples,
}

/// The captured milliseconds between presents of `rs`, in record order.
pub open spec fn frame_times(rs: Seq<Seq<CellModel>>) -> Seq<Seq<char>>
    decreases rs.len(),
{
    if rs.len() == 0 {
        Seq::empty()
    } else {
        match ms_of(rs.last()) {
            Some(t) => frame_times(rs.drop_last()).push(t),
            None => frame_times(rs.drop_last()),
        }
    }
}

/// The samples of the average frame rate: every captured value of
/// milliseconds between presents, in record order, each a literal that
/// `f64::from_str` accepts.
pub fn frame_time_samples(records: &Vec<CaptureRecord>) -> (r: Result<Vec<String>, MetricError>)
    ensures
        match r {
            Ok(v) => v.deep_view() == frame_times(records_view(records@)) && v@.len() > 0
                && forall|i: int| 0 <= i < v@.len() ==> is_float_literal(#[trigger] v@[i]@),
            Err(e) => frame_times(records_view(records@)).len() == 0 && e
                == MetricError::NoValidSamples,
        },
{
    let ghost rv = records_view(records@);
    let mut out: Vec<String> = Vec::new();
    let mut i: usize = 0;
    assert(rv.take(0) =~= Seq::<Seq<CellModel>>::empty());
    while i < records.len()
        invariant
            i <= records@.len(),
            rv == records_view(records@),
            out.deep_view() == frame_times(rv.take(i as int)),
            forall|k: int| 0 <= k < out@.len() ==> is_float_literal(#[trigger] out@[k]@),
        decreases records@.len() - i,
    {
        assert(rv.take(i + 1).drop_last() =~= rv.take(i as int));
        assert(rv.take(i + 1).last() == records@[i as int]@);
        match records[i].ms_between_presents() {
            Some(t) => {
                let ghost before = out;
                out.push(t);
                assert(out.deep_view() =~= before.deep_view().push(t@));
            },
            None => {},
        }
        i = i + 1;
    }
    assert(rv.take(records@.len() as int) =~= rv);
    if out.len() == 0 {
        Err(MetricError::NoValidSamples)
    } else {
        Ok(out)
    }
}

/// Selecting samples commutes with splitting the records: the samples of
/// two runs of records, one after the other, are those of each run in turn,
/// so partitions may be handled apart and their samples joined in order.
pub proof fn lemma_frame_times_split(a: Seq<Seq<CellModel>>, b: Seq<Seq<CellModel>>)
    ensures
        frame_times(a + b) == frame_times(a) + frame_times(b),
    decreases b.len(),
{
    if b.len() == 0 {
        assert(a + b =~= a);
        assert(frame_times(a) + frame_times(b) =~= frame_times(a));
    } else {
        assert((a + b).drop_last() =~= a + b.drop_last());
        lemma_frame_times_split(a, b.drop_last());
        match ms_of(b.last()) {
            Some(t) => {
                assert(frame_times(a) + frame_times(b) =~= (frame_times(a) + frame_times(
                    b.drop_last(),
                )).push(t));
            },
            None => {},
        }
    }
}

} // verus!
