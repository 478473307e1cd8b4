//! The binary layout of LIBS wavelength and amplitude files.
//!
//! A wavelengths file is a plain stream of big-endian `f32` records. An
//! amplitudes file starts with two big-endian `u64` words (number of spectra,
//! then number of wavelengths per spectrum) followed by the `f32` records of
//! all spectra, one after the other.
use vstd::prelude::*;

verus! {

/// Big-endian value of the four bytes of `s` starting at `at`.
pub open spec fn be_u32_at(s: Seq<u8>, at: int) -> int {
    s[at] * 0x100_0000 + s[at + 1] * 0x1_0000 + s[at + 2] * 0x100 + s[at + 3]
}

/// Big-endian value of the eight bytes of `s` starting at `at`.
pub open spec fn be_u64_at(s: Seq<u8>, at: int) -> int {
    be_u32_at(s, at) * 0x1_0000_0000 + be_u32_at(s, at + 4)
}

/// The records of a stream of four-byte big-endian words; a trailing group of
/// fewer than four bytes holds no record.
pub open spec fn words(s: Seq<u8>) -> Seq<u32> {
    Seq::new(s.len() / 4, |i: int| be_u32_at(s, 4 * i) as u32)
}

/// The number of spectra that the header of an amplitudes file announces.
pub open spec fn header_spectra(s: Seq<u8>) -> u64 {
    be_u64_at(s, 0) as u64
}

/// The number of wavelengths per spectrum that the header of an amplitudes
/// file announces.
pub open spec fn header_lambdas(s: Seq<u8>) -> u64 {
    be_u64_at(s, 8) as u64
}

/// The records of an amplitudes file, after its header.
pub open spec fn amplitude_records(s: Seq<u8>) -> Seq<u32> {
    words(s.skip(16))
}

/// `records` cut into consecutive rows of `n` records; a trailing partial row
/// is left out, and no row is made when `n` is zero.
pub open spec fn rows(records: Seq<u32>, n: nat) -> Seq<Seq<u32>> {
    if n == 0 {
        Seq::empty()
    } else {
        Seq::new(records.len() / n, |r: int| records.subrange(r * n, r * n + n))
    }
}

proof fn lemma_words_step(s: Seq<u8>)
    requires
        s.len() >= 4,
    ensures
        words(s) == seq![be_u32_at(s, 0) as u32] + words(s.skip(4)),
{
    let t = s.skip(4);
    assert(t.len() / 4 == s.len() / 4 - 1);
    assert forall|i: int| 0 <= i < t.len() / 4 implies #[trigger] words(t)[i] == words(s)[i
        + 1] by {
        assert(t[4 * i] == s[4 * i + 4]);
        assert(t[4 * i + 1] == s[4 * i + 5]);
        assert(t[4 * i + 2] == s[4 * i + 6]);
        assert(t[4 * i + 3] == s[4 * i + 7]);
    }
    assert(words(s) =~= seq![be_u32_at(s, 0) as u32] + words(t));
}

proof fn lemma_words_short(s: Seq<u8>)
    requires
        s.len() < 4,
    ensures
        words(s) == Seq::<u32>::empty(),
{
    assert(words(s) =~= Seq::<u32>::empty());
}

fn be_u32(s: &[u8], at: usize) -> (r: u32)
    requires
        at + 4 <= s@.len(),
    ensures
        r == be_u32_at(s@, at as int),
{
    s[at] as u32 * 0x100_0000 + s[at + 1] as u32 * 0x1_0000 + s[at + 2] as u32 * 0x100
        + s[at + 3] as u32
}

fn be_u64(s: &[u8], at: usize) -> (r: u64)
    requires
        at + 8 <= s@.len(),
    ensures
        r == be_u64_at(s@, at as int),
{
    let _len = s.len();
    let hi = be_u32(s, at);
    let lo = be_u32(s, at + 4);
    hi as u64 * 0x1_0000_0000 + lo as u64
}

/// Reads big-endian `f32` records, one at a time, from a byte stream. Each
/// record is handed out as its bit pattern.
pub struct F32Reader {
    inner: Vec<u8>,
    pos: usize,
}

impl View for F32Reader {
    type V = Seq<u8>;

    /// The bytes not read yet.
    closed spec fn view(&self) -> Seq<u8> {
        self.inner@.skip(self.pos as int)
    }
}

impl F32Reader {
    #[verifier::type_invariant]
    spec fn inv(self) -> bool {
        self.pos <= self.inner@.len()
    }

    /// A reader positioned at the start of `inner`.
    pub fn new(inner: Vec<u8>) -> (r: Self)
        ensures
            r@ == inner@,
    {
        let r = F32Reader { inner, pos: 0 };
        assert(r.inner@.skip(0) =~= r.inner@);
        r
    }

    fn starting_at(inner: Vec<u8>, pos: usize) -> (r: Self)
        requires
            pos <= inner@.len(),
        ensures
            r@ == inner@.skip(pos as int),
    {
        F32Reader { inner, pos }
    }

    /// The next record, or `None` once fewer than four bytes are left; the
    /// bytes of an incomplete last record are consumed with it.
    pub fn next(&mut self) -> (r: Option<u32>)
        ensures
            old(self)@.len() >= 4 ==> r == Some(be_u32_at(old(self)@, 0) as u32) && final(self)@
                == old(self)@.skip(4),
            old(self)@.len() < 4 ==> r is None && final(self)@ == Seq::<u8>::empty(),
    {
        proof {
            use_type_invariant(&*self);
        }
        let len = self.inner.len();
        if len - self.pos >= 4 {
            let w = be_u32(self.inner.as_slice(), self.pos);
            proof {
                let s = self.inner@.skip(self.pos as int);
                assert(be_u32_at(s, 0) == be_u32_at(self.inner@, self.pos as int));
                assert(s.skip(4) =~= self.inner@.skip(self.pos + 4));
            }
            self.pos = self.pos + 4;
            Some(w)
        } else {
            self.pos = len;
            assert(self.inner@.skip(len as int) =~= Seq::<u8>::empty());
            None
        }
    }
}

/// Reads every remaining record of `reader`.
fn read_all(reader: &mut F32Reader) -> (r: Vec<u32>)
    ensures
        r@ == words(old(reader)@),
{
    let mut out: Vec<u32> = Vec::new();
    let ghost all = words(reader@);
    loop
        invariant_except_break
            all == out@ + words(reader@),
        ensures
            all == out@,
        decreases reader@.len(),
    {
        let ghost before = reader@;
        match reader.next() {
            Some(w) => {
                proof {
                    lemma_words_step(before);
                    assert(all =~= out@.push(w) + words(reader@));
                }
                out.push(w);
            },
            None => {
                proof {
                    lemma_words_short(before);
                    assert(all =~= out@);
                }
                break;
            },
        }
    }
    out
}

/// Loads a file's worth of wavelengths: every big-endian `f32` record of
/// `contents`, as bit patterns, in file order.
pub fn get_lambdas(contents: Vec<u8>) -> (r: Vec<u32>)
    ensures
        r@ == words(contents@),
{
    let mut reader = F32Reader::new(contents);
    read_all(&mut reader)
}

/// The header of an amplitudes file: (number of spectra, number of
/// wavelengths per spectrum).
pub fn read_header(contents: &[u8]) -> (r: (u64, u64))
    requires
        contents@.len() >= 16,
    ensures
        r.0 == header_spectra(contents@),
        r.1 == header_lambdas(contents@),
{
    let n_spectra = be_u64(contents, 0);
    let n_lambdas = be_u64(contents, 8);
    (n_spectra, n_lambdas)
}

/// Loads an amplitudes file into memory: the records after the header, cut
/// into one row per spectrum, each row holding as many records as the header
/// announces wavelengths. A trailing incomplete spectrum is dropped.
pub fn get_counts(contents: Vec<u8>) -> (r: Vec<Vec<u32>>)
    requires
        contents@.len() >= 16,
    ensures
        r.deep_view() == rows(amplitude_records(contents@), header_lambdas(contents@) as nat),
{
    let ghost c = contents@;
    let total = contents.len();
    let (_n_spectra, n_lambdas) = read_header(contents.as_slice());
    let mut reader = F32Reader::starting_at(contents, 16);
    let ghost recs = words(reader@);
    let ghost n = n_lambdas as nat;
    let ghost mut read: Seq<u32> = Seq::empty();
    let mut data: Vec<Vec<u32>> = Vec::new();
    let mut vector: Vec<u32> = Vec::new();
    let mut v_count: u64 = 0;
    assert(total == c.len());
    loop
        invariant_except_break
            recs == amplitude_records(c),
            n == n_lambdas,
            recs == read + words(reader@),
            read.len() + words(reader@).len() <= usize::MAX,
            n == 0 ==> data@.len() == 0 && v_count == read.len(),
            n > 0 ==> v_count < n && data@.len() * n + v_count == read.len(),
            v_count > 0 ==> vector@ == read.subrange(read.len() - v_count, read.len() as int),
            forall|r: int|
                0 <= r < data@.len() ==> #[trigger] data@[r]@ == read.subrange(r * n, r * n + n),
        ensures
            recs == read,
            n == 0 ==> data@.len() == 0,
            n > 0 ==> v_count < n && data@.len() * n + v_count == read.len(),
            forall|r: int|
                0 <= r < data@.len() ==> #[trigger] data@[r]@ == read.subrange(r * n, r * n + n),
        decreases reader@.len(),
    {
        let ghost before = reader@;
        match reader.next() {
            Some(f) => {
                proof {
                    lemma_words_step(before);
                    assert(recs =~= read.push(f) + words(reader@));
                    let k = data@.len() as int;
                    let old_read = read;
                    assert forall|r: int| 0 <= r < k implies #[trigger] data@[r]@
                        == old_read.push(f).subrange(r * n, r * n + n) by {
                        vstd::arithmetic::mul::lemma_mul_inequality(r + 1, k, n as int);
                        assert((r + 1) * n == r * n + n) by (nonlinear_arith);
                        assert(old_read.push(f).subrange(r * n, r * n + n) =~= old_read.subrange(
                            r * n,
                            r * n + n,
                        ));
                    }
                }
                if v_count == 0 {
                    vector.clear();
                }
                vector.push(f);
                v_count = v_count + 1;
                proof {
                    read = read.push(f);
                    assert(vector@ =~= read.subrange(read.len() - v_count, read.len() as int));
                }
                if v_count == n_lambdas {
                    let row = vector.clone();
                    assert(row@ =~= vector@);
                    proof {
                        let k = data@.len() as int;
                        assert(k * n + n == (k + 1) * n) by (nonlinear_arith);
                    }
                    data.push(row);
                    v_count = 0;
                }
            },
            None => {
                proof {
                    lemma_words_short(before);
                    assert(recs =~= read);
                }
                break;
            },
        }
    }
    proof {
        let rs = rows(recs, n);
        if n > 0 {
            vstd::arithmetic::div_mod::lemma_fundamental_div_mod_converse(
                read.len() as int,
                n as int,
                data@.len() as int,
                v_count as int,
            );
        }
        assert forall|r: int| 0 <= r < data@.len() implies #[trigger] data.deep_view()[r]
            == rs[r] by {
            assert(data@[r].deep_view() =~= data@[r]@);
        }
        assert(data.deep_view() =~= rs);
    }
    data
}

/// The number of wavelengths per spectrum that an amplitudes file announces,
/// with no wavelength indexes picked yet.
pub fn get_lambda(contents: &[u8]) -> (r: (u64, Vec<Option<u64>>))
    requires
        contents@.len() >= 16,
    ensures
        r.0 == header_lambdas(contents@),
        r.1@.len() == 0,
{
    let (_n_spectra, n_lambdas) = read_header(contents);
    let data: Vec<Option<u64>> = Vec::new();
    (n_lambdas, data)
}

/// Entry point kept for the binary-import step; it has nothing to do.
pub fn import_libs_bins() {
}

proof fn lemma_rows_prefix_rejoin(records: Seq<u32>, n: nat, k: int)
    requires
        n > 0,
        0 <= k <= records.len() / n,
    ensures
        rows(records, n).take(k).flatten_alt() == records.take(k * n),
    decreases k,
{
    let rs = rows(records, n);
    if k == 0 {
        assert(rs.take(0).flatten_alt() =~= Seq::<u32>::empty());
        assert(records.take(0) =~= Seq::<u32>::empty());
    } else {
        lemma_rows_prefix_rejoin(records, n, k - 1);
        vstd::arithmetic::div_mod::lemma_fundamental_div_mod(records.len() as int, n as int);
        vstd::arithmetic::mul::lemma_mul_inequality(k, (records.len() / n) as int, n as int);
        assert(k * n == (k - 1) * n + n) by (nonlinear_arith);
        assert(0 <= (k - 1) * n) by (nonlinear_arith)
            requires
                k >= 1,
                n > 0,
        ;
        assert(k * n <= ((records.len() / n) as int) * n) by (nonlinear_arith)
            requires
                k <= (records.len() / n) as int,
                n > 0,
        ;
        let t = rs.take(k);
        assert(t.drop_last() =~= rs.take(k - 1));
        assert(t.last() == records.subrange((k - 1) * n, (k - 1) * n + n));
        assert(records.take((k - 1) * n) + records.subrange((k - 1) * n, (k - 1) * n + n)
            =~= records.take(k * n));
    }
}

/// Every spectrum row that `get_counts` makes holds exactly as many records as
/// the header announces wavelengths, and the rows laid end to end give back
/// the records of the file up to the end of the last complete spectrum.
pub proof fn lemma_rows_rejoin(records: Seq<u32>, n: nat)
    requires
        n > 0,
    ensures
        forall|r: int| 0 <= r < rows(records, n).len() ==> (#[trigger] rows(records, n)[r]).len() == n,
        rows(records, n).flatten() == records.take((rows(records, n).len() * n) as int),
{
    let rs = rows(records, n);
    let k = rs.len() as int;
    assert forall|r: int| 0 <= r < k implies (#[trigger] rs[r]).len() == n by {
        vstd::arithmetic::div_mod::lemma_fundamental_div_mod(records.len() as int, n as int);
        vstd::arithmetic::mul::lemma_mul_inequality(r + 1, k, n as int);
        assert((r + 1) * n == r * n + n) by (nonlinear_arith);
        assert(0 <= r * n) by (nonlinear_arith)
            requires
                r >= 0,
                n > 0,
        ;
        assert(k * n <= ((records.len() / n) as int) * n);
    }
    lemma_rows_prefix_rejoin(records, n, k);
    assert(rs.take(k) =~= rs);
    rs.lemma_flatten_and_flatten_alt_are_equivalent();
}

} // verus!
