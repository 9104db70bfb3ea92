//! Jets: native implementations of field and polynomial gates, reading their sample
//! from the subject noun and producing a noun.
use crate::batch::{
    batch_add, batch_invert, batch_mul, batch_pow, batch_sub, eval, linear_combination,
    matrix_vector_mul, poly_eval_batch, product,
};
use crate::field::{fadd, finv, fmul, fpow, fsub, modulus, Belt};
use crate::fft::{batch_fft, batch_fft_ok, fft_internal, fft_spec, ifft_internal, is_pow2, is_power_of_two, PARALLEL_FFT_THRESHOLD};
use crate::poly_mul::{bpmul, bpmul_spec, multiply_naive, multiply_polynomials, multiply_spec, next_pow2, poly_mul_spec, FFT_MUL_THRESHOLD, MAX_FFT_SIZE};
use crate::noun::{
    belt_vec_to_noun_list, bpoly_noun, bpoly_v, decode_bpoly, direct, encode_bpoly, list_items,
    list_of, list_v, list_words, noun_u64, parse_belt_list, slot_v, words_list, JetErr, Noun, NounV,
};
use crate::dft::{canonical_seq, lemma_eval_canonical, lemma_fft_is_dft, lemma_inverse_transform, minus_one};
use crate::fft::two_pow;
use crate::par::{dot, vals};
use vstd::prelude::*;

verus! {

/// The view of a jet's result.
pub open spec fn res_view(r: Result<Noun, JetErr>) -> Result<NounV, JetErr> {
    match r {
        Ok(n) => Ok(n@),
        Err(e) => Err(e),
    }
}

/// The head and tail of the sample (the subtree at address 6) of a subject.
pub open spec fn sam_pair(s: NounV) -> Option<(NounV, NounV)> {
    match slot_v(s, 6) {
        Some(sam) => match (slot_v(sam, 2), slot_v(sam, 3)) {
            (Some(a), Some(b)) => Some((a, b)),
            _ => None,
        },
        None => None,
    }
}

/// The field values of 64-bit words.
pub open spec fn wvals(ws: Seq<u64>) -> Seq<nat> {
    Seq::new(ws.len(), |i: int| ws[i] as nat % modulus())
}

/// Field values below `2^64` as words.
pub open spec fn words(s: Seq<nat>) -> Seq<u64> {
    Seq::new(s.len(), |i: int| s[i] as u64)
}

/// What a jet combining two lists of field elements entry by entry with `op`
/// produces: the list of results, or an error where the sample lacks two lists of
/// 64-bit atoms of equal length.
pub open spec fn zip_jet_spec(s: NounV, op: spec_fn(nat, nat) -> nat) -> Result<NounV, JetErr> {
    match sam_pair(s) {
        Some((la, lb)) => match (list_words(la), list_words(lb)) {
            (Some(a), Some(b)) => if a.len() == b.len() {
                Ok(words_list(words(Seq::new(a.len(), |i: int| op(wvals(a)[i], wvals(b)[i])))))
            } else {
                Err(JetErr::Deterministic)
            },
            _ => Err(JetErr::Deterministic),
        },
        None => Err(JetErr::Deterministic),
    }
}

/// The values of field elements parsed from words are the words mod `P`.
pub proof fn lemma_vals_words(v: Seq<Belt>, ws: Seq<u64>)
    requires
        v.map_values(|b: Belt| b.0) == ws,
    ensures
        vals(v) == wvals(ws),
{
    assert forall|i: int| 0 <= i < v.len() implies vals(v)[i] == wvals(ws)[i] by {
        assert(ws[i] == v[i].0);
    }
    assert(vals(v) =~= wvals(ws));
}

/// The words of canonical field elements are their values.
pub proof fn lemma_words_canonical(v: Seq<Belt>, s: Seq<nat>)
    requires
        v.len() == s.len(),
        forall|i: int| 0 <= i < v.len() ==> (#[trigger] v[i]).val() == s[i] && v[i].canonical(),
    ensures
        v.map_values(|b: Belt| b.0) == words(s),
{
    assert forall|i: int| 0 <= i < v.len() implies v.map_values(|b: Belt| b.0)[i] == words(s)[i] by {
        vstd::arithmetic::div_mod::lemma_small_mod(v[i].0 as nat, modulus());
    }
    assert(v.map_values(|b: Belt| b.0) =~= words(s));
}

/// A jet that parsed both lists of its sample and combined them entry by entry with
/// `op` produces what `zip_jet_spec` says.
pub proof fn lemma_zip_jet(s: NounV, a: Seq<Belt>, b: Seq<Belt>, results: Seq<Belt>, op: spec_fn(nat, nat) -> nat)
    requires
        exists|la: NounV, lb: NounV|
            sam_pair(s) == Some((la, lb)) && list_words(la) == Some(a.map_values(|x: Belt| x.0))
                && list_words(lb) == Some(b.map_values(|x: Belt| x.0)),
        a.len() == b.len(),
        results.len() == a.len(),
        forall|i: int| 0 <= i < a.len() ==> (#[trigger] results[i]).val() == op(a[i].val(), b[i].val()) && results[i].canonical(),
    ensures
        zip_jet_spec(s, op) == Ok::<NounV, JetErr>(words_list(results.map_values(|x: Belt| x.0))),
{
    let aw = a.map_values(|x: Belt| x.0);
    let bw = b.map_values(|x: Belt| x.0);
    lemma_vals_words(a, aw);
    lemma_vals_words(b, bw);
    let target = Seq::new(a.len(), |i: int| op(wvals(aw)[i], wvals(bw)[i]));
    assert forall|i: int| 0 <= i < a.len() implies (#[trigger] results[i]).val() == target[i] && results[i].canonical() by {
        assert(vals(a)[i] == a[i].val());
        assert(vals(b)[i] == b[i].val());
    }
    lemma_words_canonical(results, target);
}

/// The two lists of the sample, parsed.
fn parse_pair(subject: &Noun) -> (r: Result<(Vec<Belt>, Vec<Belt>), JetErr>)
    ensures
        match r {
            Ok((a, b)) => exists|la: NounV, lb: NounV|
                sam_pair(subject@) == Some((la, lb)) && list_words(la) == Some(a@.map_values(|x: Belt| x.0))
                    && list_words(lb) == Some(b@.map_values(|x: Belt| x.0)),
            Err(_) => match sam_pair(subject@) {
                Some((la, lb)) => list_words(la) is None || list_words(lb) is None,
                None => true,
            },
        },
{
    let sam = subject.slot(6)?;
    let list_a = sam.slot(2)?;
    let list_b = sam.slot(3)?;
    let a = parse_belt_list(list_a)?;
    let b = parse_belt_list(list_b)?;
    Ok((a, b))
}

/// Adds two lists of field elements entry by entry, in parallel.
pub fn batch_badd_jet(subject: &Noun) -> (r: Result<Noun, JetErr>)
    ensures
        res_view(r) == zip_jet_spec(subject@, |x: nat, y: nat| fadd(x, y)),
{
    let (a, b) = parse_pair(subject)?;
    if a.len() != b.len() {
        return Err(JetErr::Deterministic);
    }
    let results = batch_add(&a, &b);
    proof {
        lemma_zip_jet(subject@, a@, b@, results@, |x: nat, y: nat| fadd(x, y));
    }
    Ok(belt_vec_to_noun_list(&results))
}

/// Multiplies two lists of field elements entry by entry, in parallel.
pub fn batch_bmul_jet(subject: &Noun) -> (r: Result<Noun, JetErr>)
    ensures
        res_view(r) == zip_jet_spec(subject@, |x: nat, y: nat| fmul(x, y)),
{
    let (a, b) = parse_pair(subject)?;
    if a.len() != b.len() {
        return Err(JetErr::Deterministic);
    }
    let results = batch_mul(&a, &b);
    proof {
        lemma_zip_jet(subject@, a@, b@, results@, |x: nat, y: nat| fmul(x, y));
    }
    Ok(belt_vec_to_noun_list(&results))
}

/// Subtracts two lists of field elements entry by entry, in parallel.
pub fn batch_bsub_jet(subject: &Noun) -> (r: Result<Noun, JetErr>)
    ensures
        res_view(r) == zip_jet_spec(subject@, |x: nat, y: nat| fsub(x, y)),
{
    let (a, b) = parse_pair(subject)?;
    if a.len() != b.len() {
        return Err(JetErr::Deterministic);
    }
    let results = batch_sub(&a, &b);
    proof {
        lemma_zip_jet(subject@, a@, b@, results@, |x: nat, y: nat| fsub(x, y));
    }
    Ok(belt_vec_to_noun_list(&results))
}

/// What the power jet produces: each base of the list raised to the exponent.
pub open spec fn bpow_jet_spec(s: NounV) -> Result<NounV, JetErr> {
    match sam_pair(s) {
        Some((lb, le)) => match (list_words(lb), crate::noun::noun_u64(le)) {
            (Some(b), Some(e)) => Ok(words_list(words(Seq::new(b.len(), |i: int| fpow(wvals(b)[i], e as nat))))),
            _ => Err(JetErr::Deterministic),
        },
        None => Err(JetErr::Deterministic),
    }
}

/// Raises each field element of a list to the same exponent, in parallel.
pub fn batch_bpow_jet(subject: &Noun) -> (r: Result<Noun, JetErr>)
    ensures
        res_view(r) == bpow_jet_spec(subject@),
{
    let sam = subject.slot(6)?;
    let bases = sam.slot(2)?;
    let exponent = sam.slot(3)?;
    let base_vec = parse_belt_list(bases)?;
    let exp = match exponent.as_u64() {
        Some(e) => e,
        None => {
            return Err(JetErr::Deterministic);
        },
    };
    let results = batch_pow(&base_vec, exp);
    proof {
        let bw = base_vec@.map_values(|x: Belt| x.0);
        lemma_vals_words(base_vec@, bw);
        let target = Seq::new(bw.len(), |i: int| fpow(wvals(bw)[i], exp as nat));
        assert forall|i: int| 0 <= i < results.len() implies (#[trigger] results@[i]).val() == target[i] && results@[i].canonical() by {
            assert(vals(base_vec@)[i] == base_vec@[i].val());
        }
        lemma_words_canonical(results@, target);
    }
    Ok(belt_vec_to_noun_list(&results))
}

/// What the linear-combination jet produces: the atom of the sum of the products of
/// corresponding entries of two lists of equal length.
pub open spec fn dot_jet_spec(s: NounV) -> Result<NounV, JetErr> {
    match sam_pair(s) {
        Some((la, lb)) => match (list_words(la), list_words(lb)) {
            (Some(a), Some(b)) => if a.len() == b.len() {
                Ok(direct(dot(wvals(a), wvals(b)) as u64))
            } else {
                Err(JetErr::Deterministic)
            },
            _ => Err(JetErr::Deterministic),
        },
        None => Err(JetErr::Deterministic),
    }
}

/// The sum of the products of corresponding entries of two lists, for both jets that
/// compute it.
fn dot_jet(subject: &Noun) -> (r: Result<Noun, JetErr>)
    ensures
        res_view(r) == dot_jet_spec(subject@),
{
    let (coeffs, values) = parse_pair(subject)?;
    if coeffs.len() != values.len() {
        return Err(JetErr::Deterministic);
    }
    let result = linear_combination(&coeffs, &values);
    proof {
        lemma_vals_words(coeffs@, coeffs@.map_values(|x: Belt| x.0));
        lemma_vals_words(values@, values@.map_values(|x: Belt| x.0));
        vstd::arithmetic::div_mod::lemma_small_mod(result.0 as nat, modulus());
    }
    Ok(Noun::direct(result.0))
}

/// Batch linear combination: the sum of `a_i * b_i` over two lists of equal length.
pub fn batch_linear_combination_jet(subject: &Noun) -> (r: Result<Noun, JetErr>)
    ensures
        res_view(r) == dot_jet_spec(subject@),
{
    dot_jet(subject)
}

/// Multi-scalar multiplication over field elements, which is the sum of the products
/// of scalars and points.
pub fn batch_msm_jet(subject: &Noun) -> (r: Result<Noun, JetErr>)
    ensures
        res_view(r) == dot_jet_spec(subject@),
{
    dot_jet(subject)
}

/// The inverses that Montgomery's trick computes for a sequence of field values.
pub open spec fn batch_inverse_spec(s: Seq<nat>) -> Seq<nat> {
    Seq::new(s.len(), |i: int| fmul(product(s.take(i)), fmul(finv(product(s)), product(s.skip(i + 1)))))
}

/// What the batch inversion jet produces for the list at the sample.
pub open spec fn binv_jet_spec(s: NounV) -> Result<NounV, JetErr> {
    match slot_v(s, 6) {
        Some(e) => match list_words(e) {
            Some(w) => if w.len() == 0 {
                Ok(direct(0))
            } else {
                Ok(words_list(words(batch_inverse_spec(wvals(w)))))
            },
            None => Err(JetErr::Deterministic),
        },
        None => Err(JetErr::Deterministic),
    }
}

/// Inverts a list of field elements with one inversion (Montgomery's trick).
pub fn batch_binv_jet(subject: &Noun) -> (r: Result<Noun, JetErr>)
    ensures
        res_view(r) == binv_jet_spec(subject@),
{
    let elements = subject.slot(6)?;
    let belt_vec = parse_belt_list(elements)?;
    if belt_vec.len() == 0 {
        return Ok(Noun::direct(0));
    }
    let results = batch_invert(&belt_vec);
    proof {
        let w = belt_vec@.map_values(|x: Belt| x.0);
        lemma_vals_words(belt_vec@, w);
        lemma_words_canonical(results@, batch_inverse_spec(wvals(w)));
    }
    Ok(belt_vec_to_noun_list(&results))
}

/// The word the evaluation jet outputs for the polynomial with words `c` at `x`: the
/// only coefficient itself for a constant polynomial, else the canonical value.
pub open spec fn eval_word(c: Seq<u64>, x: nat) -> u64 {
    if c.len() == 1 {
        c[0]
    } else {
        eval(wvals(c), x) as u64
    }
}

/// What the evaluation jet produces: the polynomial at the sample's head evaluated at
/// each point of the list at its tail.
pub open spec fn poly_eval_jet_spec(s: NounV) -> Result<NounV, JetErr> {
    match sam_pair(s) {
        Some((poly, pts)) => match (bpoly_v(poly), list_words(pts)) {
            (Some(c), Some(x)) => Ok(words_list(Seq::new(x.len(), |i: int| eval_word(c, wvals(x)[i])))),
            _ => Err(JetErr::Deterministic),
        },
        None => Err(JetErr::Deterministic),
    }
}

/// Evaluates a polynomial at each point of a list, in parallel, by Horner's rule.
pub fn batch_poly_eval_jet(subject: &Noun) -> (r: Result<Noun, JetErr>)
    ensures
        res_view(r) == poly_eval_jet_spec(subject@),
{
    let sam = subject.slot(6)?;
    let poly = sam.slot(2)?;
    let points = sam.slot(3)?;
    let poly_coeffs = decode_bpoly(poly)?;
    let eval_points = parse_belt_list(points)?;
    let results = poly_eval_batch(&poly_coeffs, &eval_points);
    proof {
        let c = poly_coeffs@.map_values(|x: Belt| x.0);
        let xw = eval_points@.map_values(|x: Belt| x.0);
        lemma_vals_words(poly_coeffs@, c);
        lemma_vals_words(eval_points@, xw);
        let target = Seq::new(xw.len(), |i: int| eval_word(c, wvals(xw)[i]));
        assert forall|i: int| 0 <= i < results.len() implies results@.map_values(|b: Belt| b.0)[i] == target[i] by {
            assert(vals(eval_points@)[i] == eval_points@[i].val());
            let _ = results[i].val();
            if c.len() != 1 {
                assert(results[i].canonical());
                vstd::arithmetic::div_mod::lemma_small_mod(results@[i].0 as nat, modulus());
            }
        }
        assert(results@.map_values(|b: Belt| b.0) =~= target);
    }
    Ok(belt_vec_to_noun_list(&results))
}

/// The words of the rows of a matrix given as a list of lists.
pub open spec fn rows_words(m: NounV) -> Option<Seq<Seq<u64>>> {
    match list_v(m) {
        Some(rows) => if forall|i: int| 0 <= i < rows.len() ==> #[trigger] list_words(rows[i]) is Some {
            Some(Seq::new(rows.len(), |i: int| list_words(rows[i])->0))
        } else {
            None
        },
        None => None,
    }
}

/// What the matrix-vector jet produces: the product of the matrix (the list of rows at
/// the sample's head) and the vector at its tail, where every row has the vector's
/// length.
pub open spec fn matvec_jet_spec(s: NounV) -> Result<NounV, JetErr> {
    match sam_pair(s) {
        Some((m, v)) => match (list_words(v), rows_words(m)) {
            (Some(vw), Some(rows)) => if forall|i: int| 0 <= i < rows.len() ==> (#[trigger] rows[i]).len() == vw.len() {
                Ok(words_list(words(Seq::new(rows.len(), |i: int| dot(wvals(rows[i]), wvals(vw))))))
            } else {
                Err(JetErr::Deterministic)
            },
            _ => Err(JetErr::Deterministic),
        },
        None => Err(JetErr::Deterministic),
    }
}

/// Multiplies a matrix, given as a list of rows, by a vector; the rows in parallel.
pub fn batch_matrix_vector_mul_jet(subject: &Noun) -> (r: Result<Noun, JetErr>)
    ensures
        res_view(r) == matvec_jet_spec(subject@),
{
    let sam = subject.slot(6)?;
    let matrix = sam.slot(2)?;
    let vector = sam.slot(3)?;
    let vec_elems = parse_belt_list(vector)?;
    let row_nouns = list_items(matrix)?;
    let ghost rv = row_nouns@.map_values(|x: &Noun| x@);
    let mut matrix_rows: Vec<Vec<Belt>> = Vec::new();
    let mut i: usize = 0;
    while i < row_nouns.len()
        invariant
            sam_pair(subject@) == Some((matrix@, vector@)),
            list_words(vector@) == Some(vec_elems@.map_values(|x: Belt| x.0)),
            rv == row_nouns@.map_values(|x: &Noun| x@),
            list_v(matrix@) == Some(rv),
            i <= row_nouns.len(),
            matrix_rows.len() == i,
            forall|j: int| 0 <= j < i ==> list_words(#[trigger] rv[j]) == Some(matrix_rows[j]@.map_values(|x: Belt| x.0)),
        decreases row_nouns.len() - i,
    {
        let row = match parse_belt_list(row_nouns[i]) {
            Ok(row) => row,
            Err(e) => {
                proof {
                    assert(list_words(rv[i as int]) is None);
                    assert(rows_words(matrix@) is None);
                }
                return Err(e);
            },
        };
        matrix_rows.push(row);
        i = i + 1;
    }
    let ghost rows = Seq::new(rv.len(), |i: int| list_words(rv[i])->0);
    proof {
        assert(rows_words(matrix@) == Some(rows));
    }
    let mut k: usize = 0;
    while k < matrix_rows.len()
        invariant
            sam_pair(subject@) == Some((matrix@, vector@)),
            rows_words(matrix@) == Some(rows),
            list_words(vector@) == Some(vec_elems@.map_values(|x: Belt| x.0)),
            k <= matrix_rows.len(),
            rows.len() == matrix_rows.len(),
            forall|j: int| 0 <= j < matrix_rows.len() ==> #[trigger] rows[j] == matrix_rows[j]@.map_values(|x: Belt| x.0),
            forall|j: int| 0 <= j < k ==> (#[trigger] matrix_rows[j]).len() == vec_elems.len(),
        decreases matrix_rows.len() - k,
    {
        if matrix_rows[k].len() != vec_elems.len() {
            proof {
                assert(rows[k as int].len() != vec_elems@.map_values(|x: Belt| x.0).len());
            }
            return Err(JetErr::Deterministic);
        }
        k = k + 1;
    }
    let results = matrix_vector_mul(&matrix_rows, &vec_elems);
    proof {
        let vw = vec_elems@.map_values(|x: Belt| x.0);
        lemma_vals_words(vec_elems@, vw);
        let target = Seq::new(rows.len(), |i: int| dot(wvals(rows[i]), wvals(vw)));
        assert forall|j: int| 0 <= j < results.len() implies (#[trigger] results@[j]).val() == target[j] && results@[j].canonical() by {
            lemma_vals_words(matrix_rows[j]@, rows[j]);
        }
        lemma_words_canonical(results@, target);
    }
    Ok(belt_vec_to_noun_list(&results))
}

/// The words the transform jet outputs: the input itself for one coefficient, else
/// the canonical values of the transform with root `w`.
pub open spec fn fft_words(c: Seq<u64>, w: u64) -> Seq<u64> {
    if c.len() == 1 {
        c
    } else {
        words(fft_spec(wvals(c), w as nat % modulus()))
    }
}

/// The polynomial and the root at the sample of a transform jet.
pub open spec fn fft_args(s: NounV) -> Option<(Seq<u64>, u64)> {
    match sam_pair(s) {
        Some((poly, omega)) => match (bpoly_v(poly), noun_u64(omega)) {
            (Some(c), Some(w)) => Some((c, w)),
            _ => None,
        },
        None => None,
    }
}

/// Whether the polynomial at the sample is small enough to be transformed in memory.
pub open spec fn fft_jet_fits(s: NounV) -> bool {
    match fft_args(s) {
        Some((c, w)) => 2 * c.len() <= usize::MAX,
        None => true,
    }
}

/// What the transform jet produces: the transform of a polynomial whose length is a
/// power of two.
pub open spec fn fft_jet_spec(s: NounV) -> Result<NounV, JetErr> {
    match fft_args(s) {
        Some((c, w)) => if is_pow2(c.len()) {
            Ok(bpoly_noun(fft_words(c, w)))
        } else {
            Err(JetErr::Deterministic)
        },
        None => Err(JetErr::Deterministic),
    }
}

/// The polynomial and the root at the sample, parsed.
fn parse_fft_args(subject: &Noun) -> (r: Result<(Vec<Belt>, Belt), JetErr>)
    ensures
        match r {
            Ok((c, w)) => fft_args(subject@) == Some((c@.map_values(|x: Belt| x.0), w.0)),
            Err(_) => fft_args(subject@) is None,
        },
{
    let sam = subject.slot(6)?;
    let poly = sam.slot(2)?;
    let omega = sam.slot(3)?;
    let poly_slice = decode_bpoly(poly)?;
    let omega_belt = match omega.as_u64() {
        Some(w) => Belt::from_u64(w),
        None => {
            return Err(JetErr::Deterministic);
        },
    };
    Ok((poly_slice, omega_belt))
}

/// Transforms a polynomial whose length is a power of two (FFT).
pub fn fft_jet(subject: &Noun) -> (r: Result<Noun, JetErr>)
    requires
        fft_jet_fits(subject@),
    ensures
        res_view(r) == fft_jet_spec(subject@),
{
    let (poly_slice, omega_belt) = parse_fft_args(subject)?;
    let n = poly_slice.len();
    if !is_power_of_two(n) {
        return Err(JetErr::Deterministic);
    }
    proof {
        assert(n >= 1) by {
            if n == 0 {
                crate::fft::lemma_two_pow_pos(choose|m: nat| crate::fft::two_pow(m) == 0);
            }
        }
    }
    let res = fft_internal(&poly_slice, omega_belt);
    proof {
        let c = poly_slice@.map_values(|x: Belt| x.0);
        lemma_vals_words(poly_slice@, c);
        if n == 1 {
            assert(res@.map_values(|x: Belt| x.0) =~= c);
        } else {
            lemma_words_canonical(res@, fft_spec(wvals(c), omega_belt.val()));
        }
    }
    Ok(encode_bpoly(&res))
}

/// The words the inverse transform jet outputs.
pub open spec fn ifft_words(c: Seq<u64>, w: u64) -> Seq<u64> {
    words(Seq::new(c.len(), |k: int| fmul(
        fft_spec(wvals(c), finv(w as nat % modulus()))[k],
        finv(c.len() % modulus()),
    )))
}

/// What the inverse transform jet produces.
pub open spec fn ifft_jet_spec(s: NounV) -> Result<NounV, JetErr> {
    match fft_args(s) {
        Some((c, w)) => if is_pow2(c.len()) {
            Ok(bpoly_noun(ifft_words(c, w)))
        } else {
            Err(JetErr::Deterministic)
        },
        None => Err(JetErr::Deterministic),
    }
}

/// The inverse transform of a list of evaluations whose length is a power of two.
pub fn ifft_jet(subject: &Noun) -> (r: Result<Noun, JetErr>)
    requires
        fft_jet_fits(subject@),
    ensures
        res_view(r) == ifft_jet_spec(subject@),
{
    let (evals_slice, omega_belt) = parse_fft_args(subject)?;
    let n = evals_slice.len();
    if !is_power_of_two(n) {
        return Err(JetErr::Deterministic);
    }
    proof {
        assert(n >= 1) by {
            if n == 0 {
                crate::fft::lemma_two_pow_pos(choose|m: nat| crate::fft::two_pow(m) == 0);
            }
        }
    }
    let res = ifft_internal(&evals_slice, omega_belt);
    proof {
        let c = evals_slice@.map_values(|x: Belt| x.0);
        lemma_vals_words(evals_slice@, c);
        crate::fft::lemma_fft_spec_len(wvals(c), finv(omega_belt.val()));
        lemma_words_canonical(res@, Seq::new(c.len(), |k: int| fmul(
            fft_spec(wvals(c), finv(omega_belt.val()))[k],
            finv(c.len() % modulus()),
        )));
    }
    Ok(encode_bpoly(&res))
}

/// The words of the items of a list that are polynomial nouns, in order; the other
/// items are skipped.
pub open spec fn decodable(items: Seq<NounV>) -> Seq<Seq<u64>>
    decreases items.len(),
{
    if items.len() == 0 {
        Seq::empty()
    } else {
        let rest = decodable(items.drop_last());
        match bpoly_v(items.last()) {
            Some(c) => rest.push(c),
            None => rest,
        }
    }
}

/// The polynomials and the root at the sample of the batch transform jet.
pub open spec fn batch_fft_args(s: NounV) -> Option<(Seq<Seq<u64>>, u64)> {
    match sam_pair(s) {
        Some((polys, omega)) => match (noun_u64(omega), list_v(polys)) {
            (Some(w), Some(items)) => Some((decodable(items), w)),
            _ => None,
        },
        None => None,
    }
}

/// Whether each polynomial of a batch can be transformed into a buffer of `n` entries.
pub open spec fn batch_fits(ps: Seq<Seq<u64>>, n: nat) -> bool {
    &&& 2 * n <= usize::MAX
    &&& forall|i: int| 0 <= i < ps.len() ==> {
        &&& 1 <= (#[trigger] ps[i]).len() <= n
        &&& ps[i].len() >= PARALLEL_FFT_THRESHOLD ==> ps[i].len() == n && is_pow2(n)
    }
}

/// Whether the batch transform jet can run on the subject: every decoded polynomial
/// is non-empty and fits the first one's length (exactly, and a power of two, from
/// the parallel threshold on).
pub open spec fn batch_fft_jet_ok(s: NounV) -> bool {
    match batch_fft_args(s) {
        Some((ps, w)) => ps.len() == 0 || batch_fits(ps, ps[0].len()),
        None => true,
    }
}

/// What the batch transform jet produces: the list of the transforms of the decoded
/// polynomials, each with as many coefficients as the first, zeros completing the
/// shorter ones.
pub open spec fn batch_fft_jet_spec(s: NounV) -> Result<NounV, JetErr> {
    match batch_fft_args(s) {
        Some((ps, w)) => if ps.len() == 0 {
            Ok(direct(0))
        } else {
            Ok(list_of(Seq::new(ps.len(), |i: int| bpoly_noun(
                fft_words(ps[i], w) + Seq::new((ps[0].len() - ps[i].len()) as nat, |j: int| 0u64),
            ))))
        },
        None => Err(JetErr::Deterministic),
    }
}

/// The polynomial nouns among the items of a list, decoded.
fn decode_polys(items: &Vec<&Noun>) -> (r: Vec<Vec<Belt>>)
    ensures
        r.len() == decodable(items@.map_values(|x: &Noun| x@)).len(),
        forall|i: int| 0 <= i < r.len() ==> (#[trigger] r[i])@.map_values(|x: Belt| x.0) == decodable(items@.map_values(|x: &Noun| x@))[i],
{
    let ghost iv = items@.map_values(|x: &Noun| x@);
    let mut out: Vec<Vec<Belt>> = Vec::new();
    let mut i: usize = 0;
    proof {
        assert(iv.take(0) =~= Seq::<NounV>::empty());
    }
    while i < items.len()
        invariant
            iv == items@.map_values(|x: &Noun| x@),
            i <= items.len(),
            out.len() == decodable(iv.take(i as int)).len(),
            forall|j: int| 0 <= j < out.len() ==> (#[trigger] out[j])@.map_values(|x: Belt| x.0) == decodable(iv.take(i as int))[j],
        decreases items.len() - i,
    {
        proof {
            assert(iv.take(i + 1).drop_last() =~= iv.take(i as int));
            assert(iv.take(i + 1).last() == iv[i as int]);
        }
        match decode_bpoly(items[i]) {
            Ok(c) => {
                out.push(c);
            },
            Err(_) => {},
        }
        i = i + 1;
    }
    proof {
        assert(iv.take(items.len() as int) =~= iv);
    }
    out
}

/// The list noun of polynomial nouns, in order.
fn poly_list_noun(polys: &Vec<Vec<Belt>>) -> (r: Noun)
    ensures
        r@ == list_of(Seq::new(polys.len() as nat, |i: int| bpoly_noun(polys[i]@.map_values(|x: Belt| x.0)))),
{
    let ghost items = Seq::new(polys.len() as nat, |i: int| bpoly_noun(polys[i]@.map_values(|x: Belt| x.0)));
    let mut result = Noun::direct(0);
    let mut i: usize = polys.len();
    proof {
        assert(items.subrange(i as int, items.len() as int) =~= Seq::<NounV>::empty());
    }
    while i > 0
        invariant
            items == Seq::new(polys.len() as nat, |i: int| bpoly_noun(polys[i]@.map_values(|x: Belt| x.0))),
            i <= polys.len(),
            result@ == list_of(items.subrange(i as int, items.len() as int)),
        decreases i,
    {
        i = i - 1;
        let p = encode_bpoly(&polys[i]);
        result = Noun::cell(p, result);
        proof {
            let s = items.subrange(i as int, items.len() as int);
            assert(s.drop_first() =~= items.subrange(i + 1, items.len() as int));
        }
    }
    proof {
        assert(items.subrange(0, items.len() as int) =~= items);
    }
    result
}

/// Transforms a list of polynomials in parallel, each into a buffer of the first
/// polynomial's length; items that are not polynomials are skipped.
pub fn batch_fft_jet(subject: &Noun) -> (r: Result<Noun, JetErr>)
    requires
        batch_fft_jet_ok(subject@),
    ensures
        res_view(r) == batch_fft_jet_spec(subject@),
{
    let sam = subject.slot(6)?;
    let polys = sam.slot(2)?;
    let omega = sam.slot(3)?;
    let omega_belt = match omega.as_u64() {
        Some(w) => Belt::from_u64(w),
        None => {
            return Err(JetErr::Deterministic);
        },
    };
    let items = list_items(polys)?;
    let poly_list = decode_polys(&items);
    if poly_list.len() == 0 {
        return Ok(Noun::direct(0));
    }
    let ghost ps = decodable(items@.map_values(|x: &Noun| x@));
    proof {
        assert(batch_fft_args(subject@) == Some((ps, omega_belt.0)));
        assert(batch_fft_ok(poly_list@, poly_list[0].len() as nat)) by {
            assert forall|i: int| 0 <= i < poly_list.len() implies (#[trigger] poly_list[i]).len() == ps[i].len() by {
                assert(poly_list[i]@.map_values(|x: Belt| x.0) == ps[i]);
            }
        }
    }
    let results = batch_fft(&poly_list, omega_belt);
    proof {
        let n = poly_list[0].len();
        assert forall|i: int| 0 <= i < results.len() implies results[i]@.map_values(|x: Belt| x.0)
            == fft_words(ps[i], omega_belt.0) + Seq::new((ps[0].len() - ps[i].len()) as nat, |j: int| 0u64) by {
            let c = ps[i];
            let p = poly_list[i];
            assert(p@.map_values(|x: Belt| x.0) == c);
            assert(poly_list[0]@.map_values(|x: Belt| x.0) == ps[0]);
            lemma_vals_words(p@, c);
            let ri = results[i];
            let target = fft_words(c, omega_belt.0) + Seq::new((ps[0].len() - c.len()) as nat, |j: int| 0u64);
            assert forall|k: int| 0 <= k < ri.len() implies ri@.map_values(|x: Belt| x.0)[k] == target[k] by {
                if k < c.len() {
                    if c.len() == 1 {
                        assert(ri[0] == p[0]);
                    } else {
                        let _ = ri[k].canonical();
                        assert(ri[k].canonical());
                        vstd::arithmetic::div_mod::lemma_small_mod(ri[k].0 as nat, modulus());
                        assert(vals(ri@)[k] == ri[k].val());
                        crate::fft::lemma_fft_spec_len(wvals(c), omega_belt.val());
                    }
                } else {
                    assert(ri[k].0 == 0);
                }
            }
            crate::fft::lemma_fft_spec_len(wvals(c), omega_belt.val());
            assert(ri@.map_values(|x: Belt| x.0) =~= target);
        }
        assert(Seq::new(results.len() as nat, |i: int| bpoly_noun(results[i]@.map_values(|x: Belt| x.0)))
            =~= Seq::new(ps.len(), |i: int| bpoly_noun(
                fft_words(ps[i], omega_belt.0) + Seq::new((ps[0].len() - ps[i].len()) as nat, |j: int| 0u64),
            )));
    }
    Ok(poly_list_noun(&results))
}

/// The two polynomials at the sample of a product jet.
pub open spec fn bpmul_args(s: NounV) -> Option<(Seq<u64>, Seq<u64>)> {
    match sam_pair(s) {
        Some((p, q)) => match (bpoly_v(p), bpoly_v(q)) {
            (Some(pc), Some(qc)) => Some((pc, qc)),
            _ => None,
        },
        None => None,
    }
}

/// Whether the factors at the sample are small enough to be multiplied in memory.
pub open spec fn bpmul_fits(s: NounV) -> bool {
    match bpmul_args(s) {
        Some((p, q)) => 4 * (p.len() + q.len()) <= usize::MAX,
        None => true,
    }
}

/// What the schoolbook product jet produces: the product of the two polynomials at
/// the sample, or the atom 0 for an empty factor.
pub open spec fn bpmul_naive_jet_spec(s: NounV) -> Result<NounV, JetErr> {
    match bpmul_args(s) {
        Some((p, q)) => if p.len() == 0 || q.len() == 0 {
            Ok(direct(0))
        } else {
            Ok(bpoly_noun(words(poly_mul_spec(wvals(p), wvals(q)))))
        },
        None => Err(JetErr::Deterministic),
    }
}

/// The two polynomials at the sample, decoded.
fn parse_bpmul_args(subject: &Noun) -> (r: Result<(Vec<Belt>, Vec<Belt>), JetErr>)
    ensures
        match r {
            Ok((p, q)) => bpmul_args(subject@) == Some((p@.map_values(|x: Belt| x.0), q@.map_values(|x: Belt| x.0))),
            Err(_) => bpmul_args(subject@) is None,
        },
{
    let sam = subject.slot(6)?;
    let p = sam.slot(2)?;
    let q = sam.slot(3)?;
    let p_poly = decode_bpoly(p);
    let q_poly = decode_bpoly(q);
    match (p_poly, q_poly) {
        (Ok(a), Ok(b)) => Ok((a, b)),
        _ => Err(JetErr::Deterministic),
    }
}

/// Multiplies two polynomials by the schoolbook method.
pub fn bpmul_naive_jet(subject: &Noun) -> (r: Result<Noun, JetErr>)
    requires
        bpmul_fits(subject@),
    ensures
        res_view(r) == bpmul_naive_jet_spec(subject@),
{
    let (p_poly, q_poly) = parse_bpmul_args(subject)?;
    if p_poly.len() == 0 || q_poly.len() == 0 {
        return Ok(Noun::direct(0));
    }
    let res = multiply_naive(&p_poly, &q_poly);
    proof {
        let p = p_poly@.map_values(|x: Belt| x.0);
        let q = q_poly@.map_values(|x: Belt| x.0);
        lemma_vals_words(p_poly@, p);
        lemma_vals_words(q_poly@, q);
        assert forall|k: int| 0 <= k < res.len() implies (#[trigger] res@[k]).val() == poly_mul_spec(wvals(p), wvals(q))[k] && res@[k].canonical() by {
            assert(vals(res@)[k] == res@[k].val());
        }
        lemma_words_canonical(res@, poly_mul_spec(wvals(p), wvals(q)));
    }
    Ok(encode_bpoly(&res))
}

/// What the FFT product jet produces: the product of the two polynomials at the
/// sample (schoolbook below `FFT_MUL_THRESHOLD` coefficients, else through
/// transforms), the atom 0 for an empty factor, or an error where the transform size
/// exceeds `MAX_FFT_SIZE`.
pub open spec fn bpmul_fft_jet_spec(s: NounV) -> Result<NounV, JetErr> {
    match bpmul_args(s) {
        Some((p, q)) => if p.len() == 0 || q.len() == 0 {
            Ok(direct(0))
        } else if p.len() + q.len() - 1 >= FFT_MUL_THRESHOLD && next_pow2((p.len() + q.len() - 1) as nat) > MAX_FFT_SIZE {
            Err(JetErr::Deterministic)
        } else {
            Ok(bpoly_noun(words(bpmul_spec(wvals(p), wvals(q)))))
        },
        None => Err(JetErr::Deterministic),
    }
}

/// Multiplies two polynomials through FFTs, or by the schoolbook method when the
/// product has fewer than `FFT_MUL_THRESHOLD` coefficients.
pub fn bpmul_fft_jet(subject: &Noun) -> (r: Result<Noun, JetErr>)
    requires
        bpmul_fits(subject@),
    ensures
        res_view(r) == bpmul_fft_jet_spec(subject@),
{
    let (p_poly, q_poly) = parse_bpmul_args(subject)?;
    if p_poly.len() == 0 || q_poly.len() == 0 {
        return Ok(Noun::direct(0));
    }
    let result_len = p_poly.len() + q_poly.len() - 1;
    if result_len < FFT_MUL_THRESHOLD {
        return bpmul_naive_jet(subject);
    }
    let res = bpmul(&p_poly, &q_poly)?;
    proof {
        let p = p_poly@.map_values(|x: Belt| x.0);
        let q = q_poly@.map_values(|x: Belt| x.0);
        lemma_vals_words(p_poly@, p);
        lemma_vals_words(q_poly@, q);
        assert forall|k: int| 0 <= k < res.len() implies (#[trigger] res@[k]).val() == bpmul_spec(wvals(p), wvals(q))[k] && res@[k].canonical() by {
            assert(vals(res@)[k] == res@[k].val());
        }
        lemma_words_canonical(res@, bpmul_spec(wvals(p), wvals(q)));
    }
    Ok(encode_bpoly(&res))
}

/// The pairs of polynomials among the items of a list: cells whose head and tail are
/// both polynomial nouns; the other items are skipped.
pub open spec fn decodable_pairs(items: Seq<NounV>) -> Seq<(Seq<u64>, Seq<u64>)>
    decreases items.len(),
{
    if items.len() == 0 {
        Seq::empty()
    } else {
        let rest = decodable_pairs(items.drop_last());
        match items.last() {
            NounV::Cell(h, t) => match (bpoly_v(*h), bpoly_v(*t)) {
                (Some(p), Some(q)) => rest.push((p, q)),
                _ => rest,
            },
            NounV::Atom(_) => rest,
        }
    }
}

/// The pairs at the head of the sample of the batch product jet.
pub open spec fn batch_bpmul_args(s: NounV) -> Option<Seq<(Seq<u64>, Seq<u64>)>> {
    match slot_v(s, 6) {
        Some(sam) => match slot_v(sam, 2) {
            Some(pairs) => match list_v(pairs) {
                Some(items) => Some(decodable_pairs(items)),
                None => None,
            },
            None => None,
        },
        None => None,
    }
}

/// Whether each pair of the batch is small enough to be multiplied in memory.
pub open spec fn batch_bpmul_fits(s: NounV) -> bool {
    match batch_bpmul_args(s) {
        Some(ps) => forall|i: int| 0 <= i < ps.len() ==> 4 * ((#[trigger] ps[i]).0.len() + ps[i].1.len()) <= usize::MAX,
        None => true,
    }
}

/// What the batch product jet produces: the list of the products of the pairs (the
/// atom 0 where there are none).
pub open spec fn batch_bpmul_jet_spec(s: NounV) -> Result<NounV, JetErr> {
    match batch_bpmul_args(s) {
        Some(ps) => if ps.len() == 0 {
            Ok(direct(0))
        } else {
            Ok(list_of(Seq::new(ps.len(), |i: int| bpoly_noun(words(multiply_spec(wvals(ps[i].0), wvals(ps[i].1)))))))
        },
        None => Err(JetErr::Deterministic),
    }
}

/// Multiplies a list of pairs of polynomials, in parallel; items that are not pairs
/// of polynomials are skipped.
pub fn batch_bpmul_jet(subject: &Noun) -> (r: Result<Noun, JetErr>)
    requires
        batch_bpmul_fits(subject@),
    ensures
        res_view(r) == batch_bpmul_jet_spec(subject@),
{
    let sam = subject.slot(6)?;
    let pairs = sam.slot(2)?;
    let items = list_items(pairs)?;
    let ghost iv = items@.map_values(|x: &Noun| x@);
    let mut pair_list: Vec<(Vec<Belt>, Vec<Belt>)> = Vec::new();
    let mut i: usize = 0;
    proof {
        assert(iv.take(0) =~= Seq::<NounV>::empty());
    }
    while i < items.len()
        invariant
            iv == items@.map_values(|x: &Noun| x@),
            i <= items.len(),
            pair_list.len() == decodable_pairs(iv.take(i as int)).len(),
            forall|j: int| 0 <= j < pair_list.len() ==> {
                &&& (#[trigger] pair_list[j]).0@.map_values(|x: Belt| x.0) == decodable_pairs(iv.take(i as int))[j].0
                &&& pair_list[j].1@.map_values(|x: Belt| x.0) == decodable_pairs(iv.take(i as int))[j].1
            },
        decreases items.len() - i,
    {
        proof {
            assert(iv.take(i + 1).drop_last() =~= iv.take(i as int));
            assert(iv.take(i + 1).last() == iv[i as int]);
        }
        match items[i] {
            Noun::Cell(h, t) => {
                proof {
                    assert(iv[i as int] == NounV::Cell(Box::new((**h)@), Box::new((**t)@)));
                }
                let p = decode_bpoly(&**h);
                let q = decode_bpoly(&**t);
                match (p, q) {
                    (Ok(a), Ok(b)) => {
                        pair_list.push((a, b));
                    },
                    _ => {},
                }
            },
            Noun::Atom(_) => {
                proof {
                    assert(iv[i as int] is Atom);
                }
            },
        }
        i = i + 1;
    }
    proof {
        assert(iv.take(items.len() as int) =~= iv);
    }
    if pair_list.len() == 0 {
        return Ok(Noun::direct(0));
    }
    let ghost ps = decodable_pairs(iv);
    proof {
        assert(batch_bpmul_args(subject@) == Some(ps));
        assert forall|j: int| 0 <= j < pair_list.len() implies 4 * ((#[trigger] pair_list[j]).0.len() + pair_list[j].1.len()) <= usize::MAX by {
            assert(pair_list[j].0@.map_values(|x: Belt| x.0) == ps[j].0);
            assert(pair_list[j].1@.map_values(|x: Belt| x.0) == ps[j].1);
            let _ = ps[j];
        }
    }
    let results = crate::poly_mul::batch_multiply(&pair_list);
    proof {
        assert forall|j: int| 0 <= j < results.len() implies results[j]@.map_values(|x: Belt| x.0)
            == words(multiply_spec(wvals(ps[j].0), wvals(ps[j].1))) by {
            lemma_vals_words(pair_list[j].0@, ps[j].0);
            lemma_vals_words(pair_list[j].1@, ps[j].1);
            let rj = results[j];
            assert forall|k: int| 0 <= k < rj.len() implies (#[trigger] rj@[k]).val() == multiply_spec(wvals(ps[j].0), wvals(ps[j].1))[k] && rj@[k].canonical() by {
                assert(vals(rj@)[k] == rj@[k].val());
                let _ = rj[k].canonical();
            }
            lemma_words_canonical(rj@, multiply_spec(wvals(ps[j].0), wvals(ps[j].1)));
        }
        assert(Seq::new(results.len() as nat, |i: int| bpoly_noun(results[i]@.map_values(|x: Belt| x.0)))
            =~= Seq::new(ps.len(), |i: int| bpoly_noun(words(multiply_spec(wvals(ps[i].0), wvals(ps[i].1))))));
    }
    Ok(poly_list_noun(&results))
}


/// The words of canonical values read back as those values.
pub proof fn lemma_wvals_words(s: Seq<nat>)
    requires
        canonical_seq(s),
    ensures
        wvals(words(s)) == s,
{
    assert forall|i: int| 0 <= i < s.len() implies wvals(words(s))[i] == s[i] by {
        vstd::arithmetic::div_mod::lemma_small_mod(s[i], modulus());
    }
    assert(wvals(words(s)) =~= s);
}

/// The inverse transform jet undoes the transform jet: for canonical coefficients of
/// length `2^m` (`m <= 32`) and a root whose power `2^(m-1)` is `-1`, the words the
/// inverse transform outputs on the transform's words are the coefficients.
pub proof fn lemma_ifft_words_undo_fft_words(c: Seq<u64>, w: u64, m: nat)
    requires
        m <= 32,
        c.len() == two_pow(m),
        forall|i: int| 0 <= i < c.len() ==> c[i] < crate::field::P,
        m >= 1 ==> fpow(w as nat, two_pow((m - 1) as nat)) == minus_one(),
    ensures
        ifft_words(fft_words(c, w), w) == c,
{
    let a = wvals(c);
    let wr = w as nat % modulus();
    assert(canonical_seq(a)) by {
        assert forall|i: int| 0 <= i < a.len() implies #[trigger] a[i] < modulus() by {}
    }
    assert(words(a) =~= c) by {
        assert forall|i: int| 0 <= i < c.len() implies words(a)[i] == c[i] by {
            vstd::arithmetic::div_mod::lemma_small_mod(c[i] as nat, modulus());
        }
    }
    if m >= 1 {
        crate::field::lemma_fpow_reduce(w as nat, two_pow((m - 1) as nat));
    }
    lemma_inverse_transform(a, wr, m);
    if c.len() == 1 {
        assert(fft_spec(a, finv(wr)) == a);
        assert(ifft_words(fft_words(c, w), w) =~= words(a));
    } else {
        lemma_fft_is_dft(a, wr, m);
        let t = fft_spec(a, wr);
        assert(canonical_seq(t)) by {
            assert forall|k: int| 0 <= k < t.len() implies #[trigger] t[k] < modulus() by {
                lemma_eval_canonical(a, fpow(wr, k as nat));
            }
        }
        lemma_wvals_words(t);
        assert(ifft_words(fft_words(c, w), w) =~= words(a));
    }
}


/// Field values read from words are canonical.
pub proof fn lemma_wvals_canonical(c: Seq<u64>)
    ensures
        canonical_seq(wvals(c)),
{
    assert forall|i: int| 0 <= i < wvals(c).len() implies #[trigger] wvals(c)[i] < modulus() by {}
}

/// The FFT product jet agrees with the schoolbook product jet wherever it succeeds.
pub proof fn lemma_bpmul_fft_jet_is_naive(s: NounV)
    requires
        bpmul_fft_jet_spec(s) is Ok,
    ensures
        bpmul_fft_jet_spec(s) == bpmul_naive_jet_spec(s),
{
    if let Some((p, q)) = bpmul_args(s) {
        if p.len() >= 1 && q.len() >= 1 && p.len() + q.len() - 1 >= FFT_MUL_THRESHOLD {
            let len = (p.len() + q.len() - 1) as nat;
            assert(crate::fft::two_pow(0) == 1);
            let m = crate::conv::lemma_npow_shape(len, 0);
            let n = next_pow2(len);
            reveal_with_fuel(crate::fft::two_pow, 33);
            if m > 32 {
                crate::fft::lemma_two_pow_mono(33, m);
            }
            lemma_wvals_canonical(p);
            lemma_wvals_canonical(q);
            crate::conv::lemma_mul_root_half(m);
            crate::conv::lemma_fft_mul_is_product(wvals(p), wvals(q), m, crate::poly_mul::mul_root(n));
        }
    }
}

/// Products of polynomials whose product has at most `MAX_FFT_SIZE` coefficients are
/// schoolbook products, whichever way `multiply_polynomials` takes: so the batch
/// product jet's entries are schoolbook products.
pub proof fn lemma_multiply_words_is_product(p: Seq<u64>, q: Seq<u64>)
    requires
        p.len() >= 1,
        q.len() >= 1,
        p.len() + q.len() - 1 <= MAX_FFT_SIZE,
    ensures
        multiply_spec(wvals(p), wvals(q)) == poly_mul_spec(wvals(p), wvals(q)),
{
    lemma_wvals_canonical(p);
    lemma_wvals_canonical(q);
    crate::conv::lemma_multiply_is_product(wvals(p), wvals(q));
}


/// Adding back what was subtracted: where the subtraction jet answers `d` on the
/// sample `[a b]` of canonical words, the addition jet answers the words of `a` on
/// the sample `[d b]`.
pub proof fn lemma_bsub_then_badd(s: NounV, s2: NounV, la: NounV, lb: NounV, d: NounV)
    requires
        sam_pair(s) == Some((la, lb)),
        list_words(la) matches Some(a) && forall|i: int| 0 <= i < a.len() ==> a[i] < crate::field::P,
        zip_jet_spec(s, |x: nat, y: nat| fsub(x, y)) == Ok::<NounV, JetErr>(d),
        sam_pair(s2) == Some((d, lb)),
    ensures
        zip_jet_spec(s2, |x: nat, y: nat| fadd(x, y)) == Ok::<NounV, JetErr>(words_list(list_words(la)->0)),
{
    let a = list_words(la)->0;
    let b = list_words(lb)->0;
    let diff = Seq::new(a.len(), |i: int| fsub(wvals(a)[i], wvals(b)[i]));
    let sub_op = |x: nat, y: nat| fsub(x, y);
    assert(list_words(lb) is Some && b.len() == a.len());
    assert(Seq::new(a.len(), |i: int| sub_op(wvals(a)[i], wvals(b)[i])) =~= diff);
    assert(d == words_list(words(diff)));
    crate::noun::lemma_words_list_roundtrip(words(diff));
    assert(canonical_seq(diff)) by {
        assert forall|i: int| 0 <= i < diff.len() implies #[trigger] diff[i] < modulus() by {
            crate::field::lemma_canonical(wvals(a)[i], wvals(b)[i]);
        }
    }
    lemma_wvals_words(diff);
    let sum = Seq::new(a.len(), |i: int| fadd(wvals(words(diff))[i], wvals(b)[i]));
    assert forall|i: int| 0 <= i < a.len() implies #[trigger] words(sum)[i] == a[i] by {
        crate::field::lemma_fsub_fadd(wvals(a)[i], wvals(b)[i]);
        crate::field::lemma_reduce_args(fsub(wvals(a)[i], wvals(b)[i]), wvals(b)[i]);
        vstd::arithmetic::div_mod::lemma_small_mod(a[i] as nat, modulus());
        assert(wvals(a)[i] == a[i] as nat);
        crate::field::lemma_fsub_fadd(a[i] as nat, wvals(b)[i]);
        crate::field::lemma_reduce_args(a[i] as nat, b[i] as nat);
    }
    assert(words(sum) =~= a);
    let add_op = |x: nat, y: nat| fadd(x, y);
    assert(Seq::new(words(diff).len(), |i: int| add_op(wvals(words(diff))[i], wvals(b)[i])) =~= sum);
}

} // verus!
