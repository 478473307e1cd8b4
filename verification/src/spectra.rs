//! Selecting parts of single spectra, given as (wavelength, intensity) rows of
//! bit patterns.
use vstd::prelude::*;
use crate::float_order::{is_nan, spec_eq, spec_le, spec_lt, eq, le, lt};

verus! {

/// The walk of `get_subset` stops at a row whose wavelength is at or above
/// `lambda_start` and above `lambda_finish`.
pub open spec fn stops_at(wavelength: u32, lambda_start: u32, lambda_finish: u32) -> bool {
    spec_le(lambda_start, wavelength) && spec_lt(lambda_finish, wavelength)
}

/// A row whose wavelength lies between `lambda_start` and `lambda_finish`,
/// both included.
pub open spec fn in_range(wavelength: u32, lambda_start: u32, lambda_finish: u32) -> bool {
    spec_le(lambda_start, wavelength) && spec_le(wavelength, lambda_finish)
}

/// `s` is where the walk of `get_subset` ends: at the first row that stops
/// it, or at the end of the rows when none does.
pub open spec fn walk_ends_at(
    rows: Seq<(u32, u32)>,
    lambda_start: u32,
    lambda_finish: u32,
    s: int,
) -> bool {
    &&& 0 <= s <= rows.len()
    &&& forall|i: int| 0 <= i < s ==> !stops_at(#[trigger] rows[i].0, lambda_start, lambda_finish)
    &&& s < rows.len() ==> stops_at(rows[s].0, lambda_start, lambda_finish)
}

/// The rows among the first `k` whose wavelength lies between `lambda_start`
/// and `lambda_finish`, both included, in order.
pub open spec fn rows_in_range(
    rows: Seq<(u32, u32)>,
    lambda_start: u32,
    lambda_finish: u32,
    k: int,
) -> Seq<(u32, u32)>
    decreases k,
{
    if k <= 0 {
        Seq::empty()
    } else if in_range(rows[k - 1].0, lambda_start, lambda_finish) {
        rows_in_range(rows, lambda_start, lambda_finish, k - 1).push(rows[k - 1])
    } else {
        rows_in_range(rows, lambda_start, lambda_finish, k - 1)
    }
}

/// Gets all the data rows of a spectrum that have wavelengths equal to or
/// greater than `lambda_start` and equal to or less than `lambda_finish`, in
/// order.
///
/// The rows are read in order until the first one whose wavelength is at or
/// above `lambda_start` and above `lambda_finish`, which ends the reading; when
/// no row does, all rows are read. A row with a NaN wavelength, or any row
/// when a bound is NaN, is never in range.
pub fn get_subset(rows: &Vec<(u32, u32)>, lambda_start: u32, lambda_finish: u32) -> (r: Vec<
    (u32, u32),
>)
    ensures
        forall|s: int|
            walk_ends_at(rows@, lambda_start, lambda_finish, s) ==> r@ == rows_in_range(
                rows@,
                lambda_start,
                lambda_finish,
                s,
            ),
        exists|s: int| walk_ends_at(rows@, lambda_start, lambda_finish, s),
        selects_rows_in_range(rows@, r@, lambda_start, lambda_finish),
{
    let mut data: Vec<(u32, u32)> = Vec::new();
    let n = rows.len();
    let mut i: usize = 0;
    while i < n
        invariant_except_break
            n == rows@.len(),
            i <= rows@.len(),
            forall|j: int| 0 <= j < i ==> !stops_at(#[trigger] rows@[j].0, lambda_start, lambda_finish),
            data@ == rows_in_range(rows@, lambda_start, lambda_finish, i as int),
        ensures
            walk_ends_at(rows@, lambda_start, lambda_finish, i as int),
            data@ == rows_in_range(rows@, lambda_start, lambda_finish, i as int),
        decreases rows@.len() - i,
    {
        let (wavelength, intensity) = rows[i];
        if subset_stops_at(wavelength, lambda_start, lambda_finish) {
            break;
        }
        if le(lambda_start, wavelength) && le(wavelength, lambda_finish) {
            data.push((wavelength, intensity));
        }
        i = i + 1;
    }
    proof {
        assert forall|s: int| walk_ends_at(rows@, lambda_start, lambda_finish, s) implies s
            == i by {
            if s < i {
                assert(!stops_at(rows@[s].0, lambda_start, lambda_finish));
            } else if s > i {
                assert(!stops_at(rows@[i as int].0, lambda_start, lambda_finish));
            }
        }
        lemma_selection_at_walk_end(rows@, data@, lambda_start, lambda_finish);
    }
    data
}

/// `s` is where the reading of `get_subset` ends: the first row at or above
/// `lambda_start` and above `lambda_finish`, or the end of the rows.
pub open spec fn reading_ends_at(
    rows: Seq<(u32, u32)>,
    lambda_start: u32,
    lambda_finish: u32,
    s: int,
) -> bool {
    &&& 0 <= s <= rows.len()
    &&& forall|i: int|
        0 <= i < s ==> !(spec_le(lambda_start, #[trigger] rows[i].0) && spec_lt(
            lambda_finish,
            rows[i].0,
        ))
    &&& s < rows.len() ==> spec_le(lambda_start, rows[s].0) && spec_lt(lambda_finish, rows[s].0)
}

/// `r` holds, in order and each once, exactly the rows read before the
/// reading ends whose wavelength `w` has `lambda_start <= w <= lambda_finish`.
pub open spec fn selects_rows_in_range(
    rows: Seq<(u32, u32)>,
    r: Seq<(u32, u32)>,
    lambda_start: u32,
    lambda_finish: u32,
) -> bool {
    forall|s: int|
        #[trigger] reading_ends_at(rows, lambda_start, lambda_finish, s) ==> exists|idx: Seq<int>|
            #[trigger] indexed_selection(rows, r, idx, s, lambda_start, lambda_finish)
}

proof fn lemma_selection_at_walk_end(
    rows: Seq<(u32, u32)>,
    r: Seq<(u32, u32)>,
    lambda_start: u32,
    lambda_finish: u32,
)
    requires
        forall|s: int|
            walk_ends_at(rows, lambda_start, lambda_finish, s) ==> r == rows_in_range(
                rows,
                lambda_start,
                lambda_finish,
                s,
            ),
    ensures
        selects_rows_in_range(rows, r, lambda_start, lambda_finish),
{
    assert forall|s: int| #[trigger]
        reading_ends_at(rows, lambda_start, lambda_finish, s) implies exists|idx: Seq<int>|
        #[trigger] indexed_selection(rows, r, idx, s, lambda_start, lambda_finish) by {
        assert(walk_ends_at(rows, lambda_start, lambda_finish, s));
        let idx = lemma_rows_in_range_indexes(rows, lambda_start, lambda_finish, s);
        assert(indexed_selection(rows, r, idx, s, lambda_start, lambda_finish));
    }
}

/// `r` is the subsequence of the first `s` rows picked by the strictly
/// increasing indexes `idx`, which are exactly the indexes below `s` of the
/// rows whose wavelength lies between the bounds, both included.
pub open spec fn indexed_selection(
    rows: Seq<(u32, u32)>,
    r: Seq<(u32, u32)>,
    idx: Seq<int>,
    s: int,
    lambda_start: u32,
    lambda_finish: u32,
) -> bool {
    &&& idx.len() == r.len()
    &&& forall|a: int, b: int| 0 <= a < b < idx.len() ==> #[trigger] idx[a] < #[trigger] idx[b]
    &&& forall|a: int|
        0 <= a < idx.len() ==> 0 <= #[trigger] idx[a] < s && r[a] == rows[idx[a]] && spec_le(
            lambda_start,
            rows[idx[a]].0,
        ) && spec_le(rows[idx[a]].0, lambda_finish)
    &&& forall|i: int|
        0 <= i < s && spec_le(lambda_start, #[trigger] rows[i].0) && spec_le(rows[i].0, lambda_finish)
            ==> exists|a: int| 0 <= a < idx.len() && #[trigger] idx[a] == i
}

/// The rows in range among the first `k` are picked, in order, by exactly the
/// indexes below `k` of the rows whose wavelength lies between the bounds.
pub proof fn lemma_rows_in_range_indexes(
    rows: Seq<(u32, u32)>,
    lambda_start: u32,
    lambda_finish: u32,
    k: int,
) -> (idx: Seq<int>)
    requires
        0 <= k <= rows.len(),
    ensures
        indexed_selection(
            rows,
            rows_in_range(rows, lambda_start, lambda_finish, k),
            idx,
            k,
            lambda_start,
            lambda_finish,
        ),
    decreases k,
{
    if k == 0 {
        Seq::empty()
    } else {
        let prev = lemma_rows_in_range_indexes(rows, lambda_start, lambda_finish, k - 1);
        let r0 = rows_in_range(rows, lambda_start, lambda_finish, k - 1);
        let r = rows_in_range(rows, lambda_start, lambda_finish, k);
        if in_range(rows[k - 1].0, lambda_start, lambda_finish) {
            let idx = prev.push(k - 1);
            assert forall|a: int, b: int| 0 <= a < b < idx.len() implies #[trigger] idx[a]
                < #[trigger] idx[b] by {
                if b < prev.len() {
                    assert(idx[a] == prev[a] && idx[b] == prev[b]);
                } else {
                    assert(idx[a] == prev[a]);
                }
            }
            assert forall|a: int| 0 <= a < idx.len() implies 0 <= #[trigger] idx[a] < k && r[a]
                == rows[idx[a]] && spec_le(lambda_start, rows[idx[a]].0) && spec_le(
                rows[idx[a]].0,
                lambda_finish,
            ) by {
                if a < prev.len() {
                    assert(idx[a] == prev[a]);
                    assert(r[a] == r0[a]);
                }
            }
            assert forall|i: int|
                0 <= i < k && spec_le(lambda_start, #[trigger] rows[i].0) && spec_le(
                    rows[i].0,
                    lambda_finish,
                ) implies exists|a: int| 0 <= a < idx.len() && #[trigger] idx[a] == i by {
                if i < k - 1 {
                    let a = choose|a: int| 0 <= a < prev.len() && #[trigger] prev[a] == i;
                    assert(idx[a] == i);
                } else {
                    assert(idx[prev.len() as int] == i);
                }
            }
            idx
        } else {
            assert forall|i: int|
                0 <= i < k && spec_le(lambda_start, #[trigger] rows[i].0) && spec_le(
                    rows[i].0,
                    lambda_finish,
                ) implies exists|a: int| 0 <= a < prev.len() && #[trigger] prev[a] == i by {
                if i == k - 1 {
                    assert(in_range(rows[k - 1].0, lambda_start, lambda_finish));
                }
            }
            prev
        }
    }
}

proof fn lemma_rows_in_range_are_rows(
    rows: Seq<(u32, u32)>,
    lambda_start: u32,
    lambda_finish: u32,
    k: int,
)
    requires
        0 <= k <= rows.len(),
    ensures
        forall|a: int|
            0 <= a < rows_in_range(rows, lambda_start, lambda_finish, k).len() ==> in_range(
                #[trigger] rows_in_range(rows, lambda_start, lambda_finish, k)[a].0,
                lambda_start,
                lambda_finish,
            ) && rows.contains(rows_in_range(rows, lambda_start, lambda_finish, k)[a]),
    decreases k,
{
    if k > 0 {
        lemma_rows_in_range_are_rows(rows, lambda_start, lambda_finish, k - 1);
        let prev = rows_in_range(rows, lambda_start, lambda_finish, k - 1);
        let cur = rows_in_range(rows, lambda_start, lambda_finish, k);
        assert forall|a: int| 0 <= a < cur.len() implies in_range(
            #[trigger] cur[a].0,
            lambda_start,
            lambda_finish,
        ) && rows.contains(cur[a]) by {
            if a < prev.len() {
                assert(cur[a] == prev[a]);
            } else {
                assert(cur[a] == rows[k - 1]);
            }
        }
    }
}

/// Every row that `get_subset` keeps is a row of the spectrum whose
/// wavelength lies between `lambda_start` and `lambda_finish`, both included
/// (so neither it nor a bound is NaN).
pub proof fn lemma_subset_within_range(
    rows: Seq<(u32, u32)>,
    lambda_start: u32,
    lambda_finish: u32,
    s: int,
)
    requires
        walk_ends_at(rows, lambda_start, lambda_finish, s),
    ensures
        forall|a: int|
            0 <= a < rows_in_range(rows, lambda_start, lambda_finish, s).len() ==> in_range(
                #[trigger] rows_in_range(rows, lambda_start, lambda_finish, s)[a].0,
                lambda_start,
                lambda_finish,
            ) && !is_nan(rows_in_range(rows, lambda_start, lambda_finish, s)[a].0) && !is_nan(
                lambda_start,
            ) && !is_nan(lambda_finish) && rows.contains(
                rows_in_range(rows, lambda_start, lambda_finish, s)[a],
            ),
{
    lemma_rows_in_range_are_rows(rows, lambda_start, lambda_finish, s);
}

proof fn lemma_in_range_past_walk(
    rows: Seq<(u32, u32)>,
    lambda_start: u32,
    lambda_finish: u32,
    s: int,
    k: int,
)
    requires
        0 <= s < rows.len(),
        s <= k <= rows.len(),
        stops_at(rows[s].0, lambda_start, lambda_finish),
        forall|i: int, j: int| 0 <= i < j < rows.len() ==> spec_le(#[trigger] rows[i].0, #[trigger] rows[j].0),
    ensures
        rows_in_range(rows, lambda_start, lambda_finish, k) == rows_in_range(
            rows,
            lambda_start,
            lambda_finish,
            s,
        ),
    decreases k,
{
    if k > s {
        lemma_in_range_past_walk(rows, lambda_start, lambda_finish, s, k - 1);
        let w = rows[k - 1].0;
        if k - 1 > s {
            assert(spec_le(rows[s].0, w));
        }
        assert(!spec_le(w, lambda_finish));
    }
}

/// On a spectrum whose wavelengths ascend, `get_subset` gives every row of
/// the whole spectrum whose wavelength lies between `lambda_start` and
/// `lambda_finish`, both included, in file order, whether or not the rows run
/// out before the reading ends.
pub proof fn lemma_subset_of_ascending_rows(
    rows: Seq<(u32, u32)>,
    lambda_start: u32,
    lambda_finish: u32,
    s: int,
)
    requires
        walk_ends_at(rows, lambda_start, lambda_finish, s),
        forall|i: int, j: int| 0 <= i < j < rows.len() ==> spec_le(#[trigger] rows[i].0, #[trigger] rows[j].0),
    ensures
        rows_in_range(rows, lambda_start, lambda_finish, s) == rows_in_range(
            rows,
            lambda_start,
            lambda_finish,
            rows.len() as int,
        ),
{
    if s < rows.len() {
        lemma_in_range_past_walk(rows, lambda_start, lambda_finish, s, rows.len() as int);
    }
}

/// Whether a row with this wavelength ends the reading of `get_subset`; a
/// reader of the rows can stop reading there.
pub fn subset_stops_at(wavelength: u32, lambda_start: u32, lambda_finish: u32) -> (r: bool)
    ensures
        r == stops_at(wavelength, lambda_start, lambda_finish),
{
    le(lambda_start, wavelength) && lt(lambda_finish, wavelength)
}

/// The data line that holds a wavelength `lambda` lies below its wavelength,
/// for a positive `lambda`.
pub open spec fn holds_lambda(lambda: u32, wavelength: u32) -> bool {
    spec_lt(0u32, lambda) && spec_lt(lambda, wavelength)
}

/// Whether a data line with this wavelength is the one to take for `lambda`;
/// a reader of the lines can stop reading there.
pub fn line_holds_lambda(lambda: u32, wavelength: u32) -> (r: bool)
    ensures
        r == holds_lambda(lambda, wavelength),
{
    lt(0u32, lambda) && lt(lambda, wavelength)
}

/// The first data line of a spectrum whose wavelength lies above `lambda`
/// (for a positive `lambda`), if any.
pub fn line_for_lambda(lambda: u32, wavelengths: &Vec<u32>) -> (r: Option<usize>)
    ensures
        r matches Some(i) ==> i < wavelengths@.len() && holds_lambda(lambda, wavelengths@[i as int])
            && forall|j: int| 0 <= j < i ==> !holds_lambda(lambda, #[trigger] wavelengths@[j]),
        r is None ==> forall|j: int|
            0 <= j < wavelengths@.len() ==> !holds_lambda(lambda, #[trigger] wavelengths@[j]),
{
    let mut i: usize = 0;
    while i < wavelengths.len()
        invariant
            i <= wavelengths@.len(),
            forall|j: int| 0 <= j < i ==> !holds_lambda(lambda, #[trigger] wavelengths@[j]),
        decreases wavelengths@.len() - i,
    {
        if line_holds_lambda(lambda, wavelengths[i]) {
            return Some(i);
        }
        i = i + 1;
    }
    None
}

/// How far the spectrum `data` can be added into the running total
/// `accumulated` (both given by their wavelengths): `None` when the lengths
/// differ, otherwise the number of leading rows whose wavelengths are equal.
pub fn accumulation_extent(accumulated: &Vec<u32>, data: &Vec<u32>) -> (r: Option<usize>)
    ensures
        accumulated@.len() != data@.len() <==> r is None,
        r matches Some(k) ==> k <= data@.len() && (forall|j: int|
            0 <= j < k ==> spec_eq(#[trigger] accumulated@[j], data@[j])) && (k < data@.len()
            ==> !spec_eq(accumulated@[k as int], data@[k as int])),
{
    if accumulated.len() != data.len() {
        return None;
    }
    let mut i: usize = 0;
    while i < data.len()
        invariant
            accumulated@.len() == data@.len(),
            i <= data@.len(),
            forall|j: int| 0 <= j < i ==> spec_eq(#[trigger] accumulated@[j], data@[j]),
        decreases data@.len() - i,
    {
        if !eq(accumulated[i], data[i]) {
            return Some(i);
        }
        i = i + 1;
    }
    Some(i)
}

/// 267.59, the lower edge of the first gold line window.
pub const GOLD_267_LOW: u32 = 0x4385_cb85;

/// 267.61, the upper edge of the first gold line window.
pub const GOLD_267_HIGH: u32 = 0x4385_ce14;

/// 242.79, the lower edge of the second gold line window.
pub const GOLD_242_LOW: u32 = 0x4372_ca3d;

/// 242.82, the upper edge of the second gold line window.
pub const GOLD_242_HIGH: u32 = 0x4372_d1ec;

/// The data line of the gold line that `lambda` names: 2599 for 267.59,
/// 1886 for 242.80, and 3970 (the line of 312.29) for anything else.
pub open spec fn index_of_lambda(lambda: u32) -> usize {
    if spec_le(GOLD_267_LOW, lambda) && spec_le(lambda, GOLD_267_HIGH) {
        2599
    } else if spec_le(GOLD_242_LOW, lambda) && spec_le(lambda, GOLD_242_HIGH) {
        1886
    } else {
        3970
    }
}

/// The index of the data line of one of the three main gold lines, picked by
/// a wavelength near it.
pub fn get_index_of_lambda(lambda: u32) -> (r: usize)
    ensures
        r == index_of_lambda(lambda),
        r == 2599 || r == 1886 || r == 3970,
{
    if le(GOLD_267_LOW, lambda) && le(lambda, GOLD_267_HIGH) {
        return 2599;
    } else if le(GOLD_242_LOW, lambda) && le(lambda, GOLD_242_HIGH) {
        return 1886;
    }
    return 3970;
}

/// Placeholder for scaling several added spectra onto one plot; it does
/// nothing yet.
pub fn scale_added_plots() {
}

} // verus!
