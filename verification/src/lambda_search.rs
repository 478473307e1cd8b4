//! Finding the wavelength bins that hold wanted wavelengths.
use vstd::prelude::*;
use crate::float_order::{spec_le, spec_lt, le, lt};
use crate::records::{get_lambdas, words};

verus! {

/// Wavelength `w` falls in the bin `[a, b)`.
pub open spec fn in_bin(w: u32, a: u32, b: u32) -> bool {
    spec_le(a, w) && spec_lt(w, b)
}

/// Some wanted wavelength falls in the bin between `lambdas[i]` and
/// `lambdas[i + 1]`.
pub open spec fn bin_hit(wanted: Seq<u32>, lambdas: Seq<u32>, i: int) -> bool {
    exists|j: int| 0 <= j < wanted.len() && #[trigger] in_bin(wanted[j], lambdas[i], lambdas[i + 1])
}

/// The number of bins between consecutive wavelengths.
pub open spec fn num_bins(lambdas: Seq<u32>) -> int {
    if lambdas.len() >= 2 {
        lambdas.len() - 1
    } else {
        0
    }
}

/// The indexes, in increasing order, of the hit bins among the first `k`.
pub open spec fn hits_upto(wanted: Seq<u32>, lambdas: Seq<u32>, k: int) -> Seq<Option<u64>>
    decreases k,
{
    if k <= 0 {
        Seq::empty()
    } else if bin_hit(wanted, lambdas, k - 1) {
        hits_upto(wanted, lambdas, k - 1).push(Some((k - 1) as u64))
    } else {
        hits_upto(wanted, lambdas, k - 1)
    }
}

/// The indexes of all hit bins, in increasing order; a lone `None` when no bin
/// is hit.
pub open spec fn lambda_indexes(wanted: Seq<u32>, lambdas: Seq<u32>) -> Seq<Option<u64>> {
    let h = hits_upto(wanted, lambdas, num_bins(lambdas));
    if h.len() == 0 {
        seq![None]
    } else {
        h
    }
}

/// Given the wanted wavelengths and the contents of a wavelengths file, loads
/// all the wavelengths, then walks the bins between consecutive wavelengths and
/// returns the index of each bin that holds a wanted wavelength. These index
/// the wavelengths file, and hence the matching counts file.
///
/// Also returns the number of wavelengths in the file.
pub fn get_lambda_indexes(wanted_lambdas: &Vec<u32>, lambdas_contents: Vec<u8>) -> (r: (
    u64,
    Vec<Option<u64>>,
))
    ensures
        r.0 == words(lambdas_contents@).len(),
        r.1@ == lambda_indexes(wanted_lambdas@, words(lambdas_contents@)),
{
    let all_lambdas = get_lambdas(lambdas_contents);
    let ghost lam = all_lambdas@;
    let ghost want = wanted_lambdas@;
    let n = all_lambdas.len();
    let n_pairs: usize = if n >= 2 {
        n - 1
    } else {
        0
    };
    let mut result: Vec<Option<u64>> = Vec::new();
    let mut found = false;
    let mut i: usize = 0;
    while i < n_pairs
        invariant
            lam == all_lambdas@,
            want == wanted_lambdas@,
            n == lam.len(),
            n_pairs == num_bins(lam),
            i <= n_pairs,
            result@ == hits_upto(want, lam, i as int),
            found == (result@.len() > 0),
        decreases n_pairs - i,
    {
        let a = all_lambdas[i];
        let b = all_lambdas[i + 1];
        let mut j: usize = 0;
        let mut hit = false;
        while j < wanted_lambdas.len()
            invariant_except_break
                want == wanted_lambdas@,
                a == lam[i as int],
                b == lam[i + 1],
                i + 1 < lam.len(),
                j <= want.len(),
                !hit,
                forall|k: int| 0 <= k < j ==> !#[trigger] in_bin(want[k], a, b),
            ensures
                hit == bin_hit(want, lam, i as int),
            decreases want.len() - j,
        {
            let w = wanted_lambdas[j];
            if le(a, w) && lt(w, b) {
                hit = true;
                assert(in_bin(want[j as int], lam[i as int], lam[i + 1]));
                break;
            }
            j = j + 1;
        }
        if hit {
            result.push(Some(i as u64));
            found = true;
        }
        i = i + 1;
    }
    if !found {
        result.push(None);
    }
    (n as u64, result)
}

proof fn lemma_hits_upto(wanted: Seq<u32>, lambdas: Seq<u32>, k: int)
    requires
        0 <= k <= num_bins(lambdas),
        lambdas.len() <= u64::MAX,
    ensures
        ({
            let h = hits_upto(wanted, lambdas, k);
            &&& forall|a: int|
                0 <= a < h.len() ==> #[trigger] h[a] is Some && h[a]->0 < k && bin_hit(
                    wanted,
                    lambdas,
                    h[a]->0 as int,
                )
            &&& forall|a: int, b: int| 0 <= a < b < h.len() ==> #[trigger] h[a]->0 < #[trigger] h[b]->0
            &&& forall|i: int|
                0 <= i < k && #[trigger] bin_hit(wanted, lambdas, i) ==> h.contains(Some(i as u64))
        }),
    decreases k,
{
    if k > 0 {
        lemma_hits_upto(wanted, lambdas, k - 1);
        let h0 = hits_upto(wanted, lambdas, k - 1);
        let h = hits_upto(wanted, lambdas, k);
        if bin_hit(wanted, lambdas, k - 1) {
            assert(h == h0.push(Some((k - 1) as u64)));
            assert(h[h.len() - 1] == Some((k - 1) as u64));
            assert forall|i: int|
                0 <= i < k && #[trigger] bin_hit(wanted, lambdas, i) implies h.contains(
                Some(i as u64),
            ) by {
                if i < k - 1 {
                    let a = choose|a: int| 0 <= a < h0.len() && h0[a] == Some(i as u64);
                    assert(h[a] == h0[a]);
                } else {
                    assert(h[h.len() - 1] == Some(i as u64));
                }
            }
            assert forall|a: int| 0 <= a < h.len() implies #[trigger] h[a] is Some && h[a]->0
                < k && bin_hit(wanted, lambdas, h[a]->0 as int) by {
                if a < h0.len() {
                    assert(h[a] == h0[a]);
                }
            }
            assert forall|a: int, b: int| 0 <= a < b < h.len() implies #[trigger] h[a]->0
                < #[trigger] h[b]->0 by {
                assert(h[a] == h0[a]);
                if b < h0.len() {
                    assert(h[b] == h0[b]);
                }
            }
        } else {
            assert(h == h0);
            assert forall|i: int|
                0 <= i < k && #[trigger] bin_hit(wanted, lambdas, i) implies h.contains(
                Some(i as u64),
            ) by {
                assert(i < k - 1);
            }
        }
    }
}

/// Every index returned by `get_lambda_indexes` names a bin between two
/// wavelengths of the file that holds a wanted wavelength; the indexes come in
/// increasing order, without repeats; every such bin is named; and a lone
/// `None` is returned exactly when no bin holds a wanted wavelength.
pub proof fn lemma_lambda_indexes_name_the_hit_bins(wanted: Seq<u32>, lambdas: Seq<u32>)
    requires
        lambdas.len() <= u64::MAX,
    ensures
        ({
            let r = lambda_indexes(wanted, lambdas);
            let hit_any = exists|i: int| 0 <= i < num_bins(lambdas) && #[trigger] bin_hit(wanted, lambdas, i);
            &&& r.len() >= 1
            &&& !hit_any <==> r == seq![None::<u64>]
            &&& hit_any ==> forall|a: int|
                0 <= a < r.len() ==> #[trigger] r[a] is Some && r[a]->0 + 1 < lambdas.len() && bin_hit(
                    wanted,
                    lambdas,
                    r[a]->0 as int,
                )
            &&& hit_any ==> forall|a: int, b: int|
                0 <= a < b < r.len() ==> #[trigger] r[a]->0 < #[trigger] r[b]->0
            &&& forall|i: int|
                0 <= i < num_bins(lambdas) && #[trigger] bin_hit(wanted, lambdas, i) ==> r.contains(
                    Some(i as u64),
                )
        }),
{
    let k = num_bins(lambdas);
    lemma_hits_upto(wanted, lambdas, k);
    let h = hits_upto(wanted, lambdas, k);
    let r = lambda_indexes(wanted, lambdas);
    let hit_any = exists|i: int| 0 <= i < k && #[trigger] bin_hit(wanted, lambdas, i);
    if hit_any {
        let i = choose|i: int| 0 <= i < k && #[trigger] bin_hit(wanted, lambdas, i);
        assert(h.contains(Some(i as u64)));
        assert(h.len() > 0);
        assert(r == h);
    } else {
        if h.len() > 0 {
            assert(h[0] is Some);
            assert(bin_hit(wanted, lambdas, h[0]->0 as int));
        }
        assert(r == seq![None::<u64>]);
    }
}

/// The record at column `col` of every spectrum row, in row order.
pub fn select_column(data: &Vec<Vec<u32>>, col: usize) -> (r: Vec<u32>)
    requires
        forall|i: int| 0 <= i < data@.len() ==> col < (#[trigger] data@[i])@.len(),
    ensures
        r@ == Seq::new(data@.len(), |i: int| data@[i]@[col as int]),
{
    let mut output: Vec<u32> = Vec::new();
    let mut i: usize = 0;
    while i < data.len()
        invariant
            i <= data@.len(),
            forall|k: int| 0 <= k < data@.len() ==> col < (#[trigger] data@[k])@.len(),
            output@ == Seq::new(i as nat, |k: int| data@[k]@[col as int]),
        decreases data@.len() - i,
    {
        output.push(data[i][col]);
        i = i + 1;
        assert(output@ =~= Seq::new(i as nat, |k: int| data@[k]@[col as int]));
    }
    output
}

/// The column indexes named by `indexes`, in order, leaving out the `None`s.
pub open spec fn found_indexes(indexes: Seq<Option<u64>>) -> Seq<u64>
    decreases indexes.len(),
{
    if indexes.len() == 0 {
        Seq::empty()
    } else {
        match indexes.last() {
            Some(c) => found_indexes(indexes.drop_last()).push(c),
            None => found_indexes(indexes.drop_last()),
        }
    }
}

/// Column `col` of every row of `data`, in row order.
pub open spec fn column(data: Seq<Vec<u32>>, col: int) -> Seq<u32> {
    Seq::new(data.len(), |i: int| data[i]@[col])
}

/// For each wavelength index found by `get_lambda_indexes`, the amplitudes at
/// that index across all spectra: one vector per found wavelength, in the
/// order of the indexes. A lone `None` (no wavelength found) gives no data.
pub fn columns_for_indexes(data: &Vec<Vec<u32>>, indexes: &Vec<Option<u64>>) -> (r: Vec<Vec<u32>>)
    requires
        forall|i: int, j: int|
            0 <= i < data@.len() && 0 <= j < found_indexes(indexes@).len() ==> #[trigger] found_indexes(
                indexes@,
            )[j] < (#[trigger] data@[i])@.len(),
    ensures
        r@.len() == found_indexes(indexes@).len(),
        forall|j: int|
            0 <= j < r@.len() ==> (#[trigger] r@[j])@ == column(
                data@,
                found_indexes(indexes@)[j] as int,
            ),
{
    let mut out: Vec<Vec<u32>> = Vec::new();
    let mut k: usize = 0;
    assert(indexes@.take(0) =~= Seq::<Option<u64>>::empty());
    assert(indexes@.skip(0) =~= indexes@);
    assert(found_indexes(Seq::<Option<u64>>::empty()) =~= Seq::<u64>::empty());
    assert(found_indexes(indexes@) =~= Seq::<u64>::empty() + found_indexes(indexes@));
    while k < indexes.len()
        invariant
            k <= indexes@.len(),
            forall|i: int, j: int|
                0 <= i < data@.len() && 0 <= j < found_indexes(indexes@).len() ==> #[trigger] found_indexes(
                    indexes@,
                )[j] < (#[trigger] data@[i])@.len(),
            found_indexes(indexes@.take(k as int)).len() <= found_indexes(indexes@).len(),
            found_indexes(indexes@) == found_indexes(indexes@.take(k as int)) + found_indexes(
                indexes@.skip(k as int),
            ),
            out@.len() == found_indexes(indexes@.take(k as int)).len(),
            forall|j: int|
                0 <= j < out@.len() ==> (#[trigger] out@[j])@ == column(
                    data@,
                    found_indexes(indexes@)[j] as int,
                ),
        decreases indexes@.len() - k,
    {
        proof {
            lemma_found_indexes_split(indexes@, k as int);
        }
        match indexes[k] {
            Some(c) => {
                let ghost pos = out@.len() as int;
                proof {
                    assert(found_indexes(indexes@)[pos] == c);
                }
                let col = if data.len() > 0 {
                    let first_len = data[0].len();
                    assert(c < data@[0]@.len());
                    assert(c < first_len);
                    select_column(data, c as usize)
                } else {
                    Vec::new()
                };
                assert(col@ =~= column(data@, c as int));
                out.push(col);
            },
            None => {},
        }
        k = k + 1;
    }
    proof {
        assert(indexes@.take(k as int) =~= indexes@);
    }
    out
}

proof fn lemma_found_indexes_append(a: Seq<Option<u64>>, b: Seq<Option<u64>>)
    ensures
        found_indexes(a + b) == found_indexes(a) + found_indexes(b),
    decreases b.len(),
{
    if b.len() == 0 {
        assert(a + b =~= a);
        assert(found_indexes(a) + found_indexes(b) =~= found_indexes(a));
    } else {
        lemma_found_indexes_append(a, b.drop_last());
        assert((a + b).drop_last() =~= a + b.drop_last());
        assert((a + b).last() == b.last());
        match b.last() {
            Some(c) => {
                assert(found_indexes(a) + found_indexes(b) =~= (found_indexes(a) + found_indexes(
                    b.drop_last(),
                )).push(c));
            },
            None => {},
        }
    }
}

proof fn lemma_found_indexes_split(s: Seq<Option<u64>>, k: int)
    requires
        0 <= k < s.len(),
    ensures
        found_indexes(s.take(k + 1)) == found_indexes(s.take(k)) + match s[k] {
            Some(c) => seq![c],
            None => Seq::<u64>::empty(),
        },
        found_indexes(s.skip(k)) == match s[k] {
            Some(c) => seq![c],
            None => Seq::<u64>::empty(),
        } + found_indexes(s.skip(k + 1)),
{
    let one = seq![s[k]];
    assert(s.take(k + 1) =~= s.take(k) + one);
    assert(s.skip(k) =~= one + s.skip(k + 1));
    lemma_found_indexes_append(s.take(k), one);
    lemma_found_indexes_append(one, s.skip(k + 1));
    assert(one.drop_last() =~= Seq::<Option<u64>>::empty());
    assert(found_indexes(one.drop_last()) =~= Seq::<u64>::empty());
    assert(one.last() == s[k]);
    match s[k] {
        Some(c) => {
            assert(found_indexes(one) =~= seq![c]);
        },
        None => {
            assert(found_indexes(one) =~= Seq::<u64>::empty());
        },
    }
}

} // verus!
