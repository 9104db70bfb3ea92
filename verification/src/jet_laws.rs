//! What the batch jets are for, stated over the words they read and give back:
//! batch inversion inverts, the power jet adds exponents, the linear combination is
//! built up one product at a time, and each entry of a matrix-vector product is the
//! linear combination of its row with the vector.
use crate::batch::lemma_batch_invert_elementwise;
use crate::cyclic::lemma_inverse;
use crate::field::{fmul, fpow, lemma_canonical, lemma_fpow_canonical, lemma_reduce_args, modulus};
use crate::jets::{binv_jet_spec, bpow_jet_spec, dot_jet_spec, matvec_jet_spec, rows_words, sam_pair, wvals, words};
use crate::noun::{direct, lemma_words_list_roundtrip, limbs_u64, list_v, list_words, noun_u64, slot_v, NounV};
use crate::par::dot;
use vstd::arithmetic::div_mod::lemma_small_mod;
use vstd::prelude::*;

verus! {

/// Batch inversion inverts: on a non-empty list of words that are not multiples of
/// `P`, the inversion jet answers a list of the same length whose entry `i` times
/// word `i` is 1 mod `P`.
pub proof fn lemma_binv_jet_inverts(s: NounV, l: NounV, w: Seq<u64>)
    requires
        slot_v(s, 6) == Some(l),
        list_words(l) == Some(w),
        w.len() >= 1,
        forall|i: int| 0 <= i < w.len() ==> (#[trigger] w[i] as nat) % modulus() != 0,
    ensures
        binv_jet_spec(s) matches Ok(r) && list_words(r) matches Some(out) && out.len() == w.len()
            && forall|i: int| 0 <= i < w.len() ==> ((w[i] as nat) * (#[trigger] out[i] as nat)) % modulus() == 1,
{
    let v = wvals(w);
    let inv = crate::jets::batch_inverse_spec(v);
    lemma_words_list_roundtrip(words(inv));
    assert forall|i: int| 0 <= i < w.len() implies ((w[i] as nat) * (#[trigger] words(inv)[i] as nat)) % modulus() == 1 by {
        assert forall|j: int| 0 <= j < v.len() implies 0 < #[trigger] v[j] < modulus() by {}
        lemma_batch_invert_elementwise(v, i);
        lemma_fpow_canonical(v[i], (modulus() - 2) as nat);
        lemma_small_mod(inv[i], modulus());
        assert(words(inv)[i] as nat == inv[i]);
        lemma_small_mod(v[i], modulus());
        lemma_inverse(v[i]);
        lemma_reduce_args(w[i] as nat, inv[i]);
    }
}


/// The atom of a word reads back as the word.
pub proof fn lemma_noun_u64_direct(v: u64)
    ensures
        noun_u64(direct(v)) == Some(v),
{
    if v == 0 {
        assert(limbs_u64(Seq::<u64>::empty()) == Some(0u64));
    } else {
        assert(limbs_u64(seq![v]) == Some(v));
    }
}

/// The power jet raises each base, reduced mod `P`, to the whole 64-bit exponent:
/// entry `i` of its answer is `(bs[i] mod P)^e mod P`.
pub proof fn lemma_bpow_entries(s: NounV, lb: NounV, ne: NounV, bs: Seq<u64>, e: u64)
    requires
        sam_pair(s) == Some((lb, ne)),
        list_words(lb) == Some(bs),
        noun_u64(ne) == Some(e),
    ensures
        bpow_jet_spec(s) matches Ok(r) && list_words(r) matches Some(out) && out.len() == bs.len()
            && forall|i: int| 0 <= i < bs.len() ==> (#[trigger] out[i]) as nat == fpow(bs[i] as nat % modulus(), e as nat),
{
    let vals = Seq::new(bs.len(), |i: int| fpow(wvals(bs)[i], e as nat));
    lemma_words_list_roundtrip(words(vals));
    assert forall|i: int| 0 <= i < bs.len() implies (#[trigger] words(vals)[i]) as nat == fpow(bs[i] as nat % modulus(), e as nat) by {
        lemma_fpow_canonical(wvals(bs)[i], e as nat);
    }
}

/// The power jet adds exponents: its answer for `a + b` is, entry by entry, the
/// product mod `P` of its answers for `a` and for `b`; for the exponent 0 every entry
/// is 1 and for the exponent 1 every entry is the base mod `P`.
pub proof fn lemma_bpow_jet_exponents(
    sa: NounV,
    sb: NounV,
    sab: NounV,
    lb: NounV,
    na: NounV,
    nb: NounV,
    nab: NounV,
    bs: Seq<u64>,
    a: u64,
    b: u64,
)
    requires
        list_words(lb) == Some(bs),
        sam_pair(sa) == Some((lb, na)),
        sam_pair(sb) == Some((lb, nb)),
        sam_pair(sab) == Some((lb, nab)),
        noun_u64(na) == Some(a),
        noun_u64(nb) == Some(b),
        a + b <= u64::MAX,
        noun_u64(nab) == Some((a + b) as u64),
    ensures
        bpow_jet_spec(sa) matches Ok(ra) && bpow_jet_spec(sb) matches Ok(rb) && bpow_jet_spec(sab) matches Ok(rab)
            && list_words(ra) matches Some(oa) && list_words(rb) matches Some(ob) && list_words(rab) matches Some(oab)
            && oa.len() == bs.len() && ob.len() == bs.len() && oab.len() == bs.len()
            && forall|i: int| 0 <= i < bs.len() ==> (#[trigger] oab[i]) as nat == ((oa[i] as nat) * (ob[i] as nat)) % modulus(),
        a == 0 ==> (bpow_jet_spec(sa) matches Ok(ra) && list_words(ra) matches Some(oa)
            && forall|i: int| 0 <= i < bs.len() ==> #[trigger] oa[i] == 1),
        a == 1 ==> (bpow_jet_spec(sa) matches Ok(ra) && list_words(ra) matches Some(oa)
            && forall|i: int| 0 <= i < bs.len() ==> (#[trigger] oa[i]) as nat == bs[i] as nat % modulus()),
{
    lemma_bpow_entries(sa, lb, na, bs, a);
    lemma_bpow_entries(sb, lb, nb, bs, b);
    lemma_bpow_entries(sab, lb, nab, bs, (a + b) as u64);
    assert forall|i: int| 0 <= i < bs.len() implies fpow(bs[i] as nat % modulus(), (a + b) as nat) == fmul(
        fpow(bs[i] as nat % modulus(), a as nat),
        fpow(bs[i] as nat % modulus(), b as nat),
    ) by {
        crate::field::lemma_fpow_add(bs[i] as nat % modulus(), a as nat, b as nat);
    }
    assert forall|i: int| 0 <= i < bs.len() implies fpow(bs[i] as nat % modulus(), 1) == bs[i] as nat % modulus() by {
        let x = bs[i] as nat % modulus();
        assert(fpow(x, 0) == 1);
        crate::field::lemma_fmul_one_left(x);
        lemma_small_mod(x, modulus());
    }
}

/// The linear combination's value, where the jet answers a word atom.
pub open spec fn dot_value(s: NounV) -> Option<u64> {
    match dot_jet_spec(s) {
        Ok(n) => noun_u64(n),
        Err(_) => None,
    }
}

/// The words of a linear-combination sample, and the jet's value on them.
proof fn lemma_dot_value(s: NounV, la: NounV, lb: NounV, a: Seq<u64>, b: Seq<u64>)
    requires
        sam_pair(s) == Some((la, lb)),
        list_words(la) == Some(a),
        list_words(lb) == Some(b),
        a.len() == b.len(),
    ensures
        dot_value(s) == Some(dot(wvals(a), wvals(b)) as u64),
        dot(wvals(a), wvals(b)) < modulus(),
{
    lemma_dot_canonical(wvals(a), wvals(b));
    lemma_noun_u64_direct(dot(wvals(a), wvals(b)) as u64);
}

/// A dot product is canonical.
proof fn lemma_dot_canonical(a: Seq<nat>, b: Seq<nat>)
    ensures
        dot(a, b) < modulus(),
    decreases a.len(),
{
    if a.len() > 0 && b.len() > 0 {
        lemma_canonical(dot(a.drop_last(), b.drop_last()), fmul(a.last(), b.last()));
    } else {
        lemma_small_mod(0, modulus());
    }
}

/// The linear combination (and the multi-scalar multiplication, which is the same
/// jet) of empty lists is 0; of one pair of words `[x]`, `[y]` it is `x * y mod P`;
/// and adding one pair `x`, `y` to the lists adds `x * y` mod `P` to it.
pub proof fn lemma_dot_jet_builds_up(
    s1: NounV,
    s2: NounV,
    la1: NounV,
    lb1: NounV,
    la2: NounV,
    lb2: NounV,
    a: Seq<u64>,
    b: Seq<u64>,
    x: u64,
    y: u64,
)
    requires
        sam_pair(s1) == Some((la1, lb1)),
        sam_pair(s2) == Some((la2, lb2)),
        list_words(la1) == Some(a),
        list_words(lb1) == Some(b),
        a.len() == b.len(),
        list_words(la2) == Some(a.push(x)),
        list_words(lb2) == Some(b.push(y)),
    ensures
        a.len() == 0 ==> dot_value(s1) == Some(0u64),
        a.len() == 0 ==> (dot_value(s2) matches Some(v) && v as nat == ((x as nat) * (y as nat)) % modulus()),
        dot_value(s1) matches Some(v1) && dot_value(s2) matches Some(v2)
            && v2 as nat == (v1 as nat + ((x as nat) * (y as nat)) % modulus()) % modulus(),
{
    lemma_dot_value(s1, la1, lb1, a, b);
    lemma_dot_value(s2, la2, lb2, a.push(x), b.push(y));
    let wa = wvals(a.push(x));
    let wb = wvals(b.push(y));
    assert(wa.drop_last() =~= wvals(a));
    assert(wb.drop_last() =~= wvals(b));
    let d1 = dot(wvals(a), wvals(b));
    lemma_reduce_args(x as nat, y as nat);
    lemma_reduce_args(x as nat % modulus(), y as nat);
    vstd::arithmetic::div_mod::lemma_mod_twice(x as int, modulus() as int);
    assert(fmul(wa.last(), wb.last()) == ((x as nat) * (y as nat)) % modulus());
    lemma_reduce_args(d1, (x as nat) * (y as nat));
    if a.len() == 0 {
        lemma_small_mod(0, modulus());
        crate::field::lemma_fadd_zero((x as nat) * (y as nat) % modulus());
        vstd::arithmetic::div_mod::lemma_mod_twice(((x as nat) * (y as nat)) as int, modulus() as int);
    }
}

/// Each entry of the matrix-vector product is the linear combination of its row
/// with the vector: what the linear-combination jet answers on the sample made of
/// that row and the vector.
pub proof fn lemma_matvec_rows_are_dots(
    s: NounV,
    m: NounV,
    v: NounV,
    items: Seq<NounV>,
    vw: Seq<u64>,
    i: int,
    s2: NounV,
)
    requires
        sam_pair(s) == Some((m, v)),
        list_v(m) == Some(items),
        list_words(v) == Some(vw),
        forall|k: int| 0 <= k < items.len() ==> ((#[trigger] list_words(items[k])) matches Some(row) && row.len() == vw.len()),
        0 <= i < items.len(),
        sam_pair(s2) == Some((items[i], v)),
    ensures
        matvec_jet_spec(s) matches Ok(r) && list_words(r) matches Some(out) && out.len() == items.len()
            && dot_value(s2) == Some(out[i]),
        vw.len() == 1 ==> (matvec_jet_spec(s) matches Ok(r) && list_words(r) matches Some(out)
            && list_words(items[i]) matches Some(row)
            && out[i] as nat == ((row[0] as nat) * (vw[0] as nat)) % modulus()),
{
    let _ = list_words(items[i]);
    assert(rows_words(m) is Some);
    let rows = rows_words(m)->0;
    assert forall|k: int| 0 <= k < rows.len() implies (#[trigger] rows[k]).len() == vw.len() by {
        let _ = list_words(items[k]);
    }
    let entries = Seq::new(rows.len(), |k: int| dot(wvals(rows[k]), wvals(vw)));
    lemma_words_list_roundtrip(words(entries));
    lemma_dot_value(s2, items[i], v, rows[i], vw);
    if vw.len() == 1 {
        lemma_dot_single(rows[i][0], vw[0]);
        assert(wvals(rows[i]) =~= wvals(seq![rows[i][0]]));
        assert(wvals(vw) =~= wvals(seq![vw[0]]));
    }
}

/// The dot product of one word with one word is their product mod `P`.
proof fn lemma_dot_single(x: u64, y: u64)
    ensures
        dot(wvals(seq![x]), wvals(seq![y])) == ((x as nat) * (y as nat)) % modulus(),
{
    let wa = wvals(seq![x]);
    let wb = wvals(seq![y]);
    assert(wa.drop_last().len() == 0);
    assert(dot(wa.drop_last(), wb.drop_last()) == 0);
    lemma_reduce_args(x as nat, y as nat);
    lemma_reduce_args(x as nat % modulus(), y as nat);
    assert(fmul(wa.last(), wb.last()) == ((x as nat) * (y as nat)) % modulus());
    crate::field::lemma_fadd_zero((x as nat) * (y as nat) % modulus());
    vstd::arithmetic::div_mod::lemma_mod_twice(((x as nat) * (y as nat)) as int, modulus() as int);
}

} // verus!
