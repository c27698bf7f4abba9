//! Transfer generation: one record per ordered pair of stops, self-pairs
//! included, exactly where the pair's walk passed the distance threshold,
//! in the order of the outer/inner iteration over the stop sequence.

use vstd::prelude::*;
use vstd::arithmetic::div_mod::{
    lemma_fundamental_div_mod_converse,
    lemma_mod_division_less_than_divisor,
    lemma_multiply_divide_lt,
};
use crate::stops::{StopPoint, StopV, spec_resolved, ParsedV};

verus! {

/// One emitted transfer between two stops.
pub struct TransferRecord {
    pub from_stop_id: String,
    pub to_stop_id: String,
    /// Always 2: the transfer requires a minimum amount of time.
    pub transfer_type: u8,
    /// Seconds: the pair's walk time plus the configured padding.
    pub min_transfer_time: u32,
}

/// The mathematical content of a `TransferRecord`.
pub struct TransferV {
    pub from_stop_id: Seq<char>,
    pub to_stop_id: Seq<char>,
    pub transfer_type: u8,
    pub min_transfer_time: u32,
}

impl DeepView for TransferRecord {
    type V = TransferV;

    open spec fn deep_view(&self) -> TransferV {
        TransferV {
            from_stop_id: self.from_stop_id@,
            to_stop_id: self.to_stop_id@,
            transfer_type: self.transfer_type,
            min_transfer_time: self.min_transfer_time,
        }
    }
}

/// The record emitted for the ordered pair of index `k` (outer stop
/// `k / n`, inner stop `k % n`) whose walk takes `walk` seconds.
pub open spec fn spec_pair_record(stops: Seq<StopV>, k: int, walk: u32, pad: u32) -> TransferV {
    let n = stops.len() as int;
    TransferV {
        from_stop_id: stops[k / n].stop_id,
        to_stop_id: stops[k % n].stop_id,
        transfer_type: 2,
        min_transfer_time: (walk + pad) as u32,
    }
}

/// Transfers for the first `k` ordered pairs, in pair order.
pub open spec fn spec_generate_prefix(
    stops: Seq<StopV>,
    times: Seq<Option<u32>>,
    pad: u32,
    k: int,
) -> Seq<TransferV>
    decreases k,
{
    if k <= 0 {
        Seq::empty()
    } else {
        let prev = spec_generate_prefix(stops, times, pad, k - 1);
        match times[k - 1] {
            None => prev,
            Some(w) => prev.push(spec_pair_record(stops, k - 1, w, pad)),
        }
    }
}

/// All transfers of a stop set, given per ordered pair whether its distance
/// passed the threshold and then how many seconds the walk takes.
pub open spec fn spec_generate(stops: Seq<StopV>, times: Seq<Option<u32>>, pad: u32) -> Seq<
    TransferV,
> {
    spec_generate_prefix(stops, times, pad, times.len() as int)
}

/// Number of pairs among the first `k` whose walk passed the threshold.
pub open spec fn count_passing(times: Seq<Option<u32>>, k: int) -> int
    decreases k,
{
    if k <= 0 {
        0
    } else {
        count_passing(times, k - 1) + (if times[k - 1] is Some {
            1int
        } else {
            0int
        })
    }
}

/// Generates the transfer records of a stop set. `times` holds one entry
/// per ordered pair `(i, j)` of stops, at index `i * n + j`: the pair's
/// walk seconds when its distance passed the threshold, `None` otherwise.
pub fn generate_transfers(stops: &Vec<StopPoint>, times: &Vec<Option<u32>>, pad: u32) -> (out: Vec<
    TransferRecord,
>)
    requires
        times@.len() == stops@.len() * stops@.len(),
        forall|k: int|
            0 <= k < times@.len() ==> (#[trigger] times@[k] matches Some(w) ==> w + pad
                <= u32::MAX),
    ensures
        out.deep_view() == spec_generate(stops.deep_view(), times@, pad),
{
    let ghost sv = stops.deep_view();
    let ghost tv = times@;
    let n = stops.len();
    let mut out: Vec<TransferRecord> = Vec::new();
    let mut i: usize = 0;
    let mut k: usize = 0;
    proof {
        assert(out.deep_view() =~= spec_generate_prefix(sv, tv, pad, 0));
    }
    while i < n
        invariant
            sv == stops.deep_view(),
            tv == times@,
            n == stops@.len(),
            sv.len() == n,
            tv.len() == n * n,
            times@.len() == times.len(),
            forall|q: int|
                0 <= q < tv.len() ==> (#[trigger] tv[q] matches Some(w) ==> w + pad <= u32::MAX),
            i <= n,
            k == i * n,
            out.deep_view() == spec_generate_prefix(sv, tv, pad, k as int),
        decreases n - i,
    {
        let mut j: usize = 0;
        while j < n
            invariant
                sv == stops.deep_view(),
                tv == times@,
                n == stops@.len(),
                sv.len() == n,
                tv.len() == n * n,
                times@.len() == times.len(),
                forall|q: int|
                    0 <= q < tv.len() ==> (#[trigger] tv[q] matches Some(w) ==> w + pad
                        <= u32::MAX),
                i < n,
                j <= n,
                k == i * n + j,
                out.deep_view() == spec_generate_prefix(sv, tv, pad, k as int),
            decreases n - j,
        {
            proof {
                assert((i as int) * (n as int) + (j as int) < (n as int) * (n as int))
                    by (nonlinear_arith)
                    requires
                        0 <= i < n,
                        0 <= j < n,
                ;
                lemma_fundamental_div_mod_converse(k as int, n as int, i as int, j as int);
            }
            let ghost prev = out.deep_view();
            match times[k] {
                None => {},
                Some(w) => {
                    let rec = TransferRecord {
                        from_stop_id: stops[i].stop_id.clone(),
                        to_stop_id: stops[j].stop_id.clone(),
                        transfer_type: 2,
                        min_transfer_time: w + pad,
                    };
                    out.push(rec);
                    proof {
                        assert(out.deep_view() =~= prev.push(
                            spec_pair_record(sv, k as int, w, pad),
                        ));
                    }
                },
            }
            k += 1;
            j += 1;
        }
        proof {
            assert((i as int + 1) * (n as int) == (i as int) * (n as int) + (n as int))
                by (nonlinear_arith);
        }
        i += 1;
    }
    proof {
        assert((n as int) * (n as int) == tv.len());
    }
    out
}

proof fn lemma_generate_prefix_count(
    stops: Seq<StopV>,
    times: Seq<Option<u32>>,
    pad: u32,
    k: int,
)
    requires
        k <= times.len(),
    ensures
        spec_generate_prefix(stops, times, pad, k).len() == count_passing(times, k),
    decreases k,
{
    if k > 0 {
        lemma_generate_prefix_count(stops, times, pad, k - 1);
    }
}

/// The number of emitted transfers equals, exactly, the number of ordered
/// stop pairs (self-pairs included) whose distance passed the threshold.
pub proof fn lemma_output_count(stops: Seq<StopV>, times: Seq<Option<u32>>, pad: u32)
    ensures
        spec_generate(stops, times, pad).len() == count_passing(times, times.len() as int),
{
    lemma_generate_prefix_count(stops, times, pad, times.len() as int);
}

proof fn lemma_count_monotone(times: Seq<Option<u32>>, a: int, b: int)
    requires
        0 <= a <= b,
    ensures
        count_passing(times, a) <= count_passing(times, b),
    decreases b - a,
{
    if a < b {
        lemma_count_monotone(times, a, b - 1);
    }
}

proof fn lemma_pair_in_prefix(
    stops: Seq<StopV>,
    times: Seq<Option<u32>>,
    pad: u32,
    k: int,
    m: int,
)
    requires
        0 <= k < m <= times.len(),
        times[k] is Some,
    ensures
        ({
            let g = spec_generate_prefix(stops, times, pad, m);
            let c = count_passing(times, k);
            &&& 0 <= c < g.len()
            &&& (times[k] matches Some(w) ==> g[c] == spec_pair_record(stops, k, w, pad))
        }),
    decreases m,
{
    lemma_generate_prefix_count(stops, times, pad, k);
    if m == k + 1 {
    } else {
        lemma_pair_in_prefix(stops, times, pad, k, m - 1);
        lemma_generate_prefix_count(stops, times, pad, m - 1);
        lemma_count_monotone(times, k + 1, m - 1);
    }
}

/// Every pair whose walk passed the threshold is emitted: its record stands
/// at the position given by the number of passing pairs before it, so the
/// output follows the pair order of the input sequence.
pub proof fn lemma_pair_included(stops: Seq<StopV>, times: Seq<Option<u32>>, pad: u32, k: int)
    requires
        0 <= k < times.len(),
        times[k] is Some,
    ensures
        ({
            let g = spec_generate(stops, times, pad);
            let c = count_passing(times, k);
            &&& 0 <= c < g.len()
            &&& (times[k] matches Some(w) ==> g[c] == spec_pair_record(stops, k, w, pad))
        }),
{
    lemma_pair_in_prefix(stops, times, pad, k, times.len() as int);
}

/// A stop always transfers to itself when its self-pair passed the
/// threshold: the record's endpoints are both the stop's identifier and its
/// time is the walk time plus the padding, so a zero walk gives exactly the
/// configured padding.
pub proof fn lemma_self_pair_included(
    stops: Seq<StopV>,
    times: Seq<Option<u32>>,
    pad: u32,
    i: int,
)
    requires
        times.len() == stops.len() * stops.len(),
        0 <= i < stops.len(),
        times[i * stops.len() + i] is Some,
    ensures
        ({
            let n = stops.len() as int;
            let g = spec_generate(stops, times, pad);
            let c = count_passing(times, i * n + i);
            &&& 0 <= c < g.len()
            &&& (times[i * n + i] matches Some(w) ==> g[c] == TransferV {
                from_stop_id: stops[i].stop_id,
                to_stop_id: stops[i].stop_id,
                transfer_type: 2,
                min_transfer_time: (w + pad) as u32,
            })
        }),
{
    let n = stops.len() as int;
    let k = i * n + i;
    assert(0 <= i * n + i < n * n) by (nonlinear_arith)
        requires
            0 <= i < n,
    ;
    lemma_pair_included(stops, times, pad, k);
    lemma_fundamental_div_mod_converse(k, n, i, i);
}

/// `id` is the identifier of one of the given stops.
pub open spec fn is_stop_id_of(stops: Seq<StopV>, id: Seq<char>) -> bool {
    exists|i: int| 0 <= i < stops.len() && (#[trigger] stops[i]).stop_id == id
}

proof fn lemma_endpoints_prefix(stops: Seq<StopV>, times: Seq<Option<u32>>, pad: u32, m: int)
    requires
        0 <= m <= times.len(),
        times.len() == stops.len() * stops.len(),
    ensures
        forall|q: int|
            0 <= q < spec_generate_prefix(stops, times, pad, m).len() ==> is_stop_id_of(
                stops,
                (#[trigger] spec_generate_prefix(stops, times, pad, m)[q]).from_stop_id,
            ) && is_stop_id_of(stops, spec_generate_prefix(stops, times, pad, m)[q].to_stop_id),
    decreases m,
{
    if m > 0 {
        lemma_endpoints_prefix(stops, times, pad, m - 1);
        let n = stops.len() as int;
        let g = spec_generate_prefix(stops, times, pad, m);
        let gp = spec_generate_prefix(stops, times, pad, m - 1);
        if times[m - 1] is None {
            assert(g =~= gp);
            assert forall|q: int| 0 <= q < g.len() implies is_stop_id_of(
                stops,
                (#[trigger] g[q]).from_stop_id,
            ) && is_stop_id_of(stops, g[q].to_stop_id) by {
                assert(g[q] == gp[q]);
            }
        }
        if times[m - 1] is Some {
            assert(n > 0) by (nonlinear_arith)
                requires
                    0 < m <= n * n,
                    n >= 0,
            ;
            assert(0 <= (m - 1) / n < n) by {
                lemma_multiply_divide_lt(m - 1, n, n);
                assert((m - 1) / n >= 0) by (nonlinear_arith)
                    requires
                        m - 1 >= 0,
                        n > 0,
                ;
            }
            lemma_mod_division_less_than_divisor(m - 1, n);
            assert(g[g.len() - 1] == spec_pair_record(stops, m - 1, times[m - 1]->Some_0, pad));
            assert(stops[(m - 1) / n].stop_id == g[g.len() - 1].from_stop_id);
            assert(is_stop_id_of(stops, g[g.len() - 1].from_stop_id));
            assert(stops[(m - 1) % n].stop_id == g[g.len() - 1].to_stop_id);
            assert(is_stop_id_of(stops, g[g.len() - 1].to_stop_id));
            assert forall|q: int| 0 <= q < g.len() implies is_stop_id_of(
                stops,
                (#[trigger] g[q]).from_stop_id,
            ) && is_stop_id_of(stops, g[q].to_stop_id) by {
                if q < g.len() - 1 {
                    assert(g[q] == gp[q]);
                }
            }
        }
    }
}

/// Every emitted transfer has stops of the input sequence as its two
/// endpoints; stops excluded before generation can appear in none.
pub proof fn lemma_endpoints_are_stops(stops: Seq<StopV>, times: Seq<Option<u32>>, pad: u32)
    requires
        times.len() == stops.len() * stops.len(),
    ensures
        forall|q: int|
            0 <= q < spec_generate(stops, times, pad).len() ==> is_stop_id_of(
                stops,
                (#[trigger] spec_generate(stops, times, pad)[q]).from_stop_id,
            ) && is_stop_id_of(stops, spec_generate(stops, times, pad)[q].to_stop_id),
{
    lemma_endpoints_prefix(stops, times, pad, times.len() as int);
}

/// Rows whose location type resolves to other than zero never appear as
/// either endpoint of an emitted transfer: every endpoint names a stop the
/// decoder kept, and every kept stop resolves to location type zero.
pub proof fn lemma_no_excluded_endpoint(
    header: Seq<Seq<char>>,
    rows: Seq<Option<Seq<Seq<char>>>>,
    times: Seq<Option<u32>>,
    pad: u32,
    parsed: ParsedV,
)
    requires
        crate::stops::spec_decode_table(header, rows) == Ok::<ParsedV, crate::stops::StopsError>(
            parsed,
        ),
        times.len() == parsed.stops.len() * parsed.stops.len(),
    ensures
        forall|q: int|
            0 <= q < spec_generate(parsed.stops, times, pad).len() ==> is_stop_id_of(
                parsed.stops,
                (#[trigger] spec_generate(parsed.stops, times, pad)[q]).from_stop_id,
            ) && is_stop_id_of(
                parsed.stops,
                spec_generate(parsed.stops, times, pad)[q].to_stop_id,
            ),
        forall|x: int|
            0 <= x < parsed.stops.len() ==> spec_resolved(
                (#[trigger] parsed.stops[x]).location_type,
            ) == 0,
{
    lemma_endpoints_are_stops(parsed.stops, times, pad);
    let cols = crate::stops::spec_header_columns(header)->Some_0;
    crate::stops::lemma_kept_stops_are_boarding(rows, cols.0, cols.1, cols.2, cols.3);
}

} // verus!
