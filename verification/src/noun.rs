//! Nouns, the data that jets read and write: an atom (a natural number, held as
//! little-endian 64-bit limbs) or a cell (an ordered pair of nouns).
use vstd::prelude::*;

verus! {

/// A jet's failure: the computation it stands for fails deterministically.
#[derive(Debug, PartialEq, Eq, Structural)]
pub enum JetErr {
    Deterministic,
}

/// A noun: an atom, given by its little-endian 64-bit limbs, or a cell.
#[derive(Debug, PartialEq, Eq)]
pub enum Noun {
    Atom(Vec<u64>),
    Cell(Box<Noun>, Box<Noun>),
}

/// The mathematical form of a noun.
pub enum NounV {
    Atom(Seq<u64>),
    Cell(Box<NounV>, Box<NounV>),
}

impl Noun {
    /// The mathematical form of this noun.
    pub open spec fn view_rec(&self) -> NounV
        decreases self,
    {
        match self {
            Noun::Atom(l) => NounV::Atom(l@),
            Noun::Cell(h, t) => NounV::Cell(Box::new((**h).view_rec()), Box::new((**t).view_rec())),
        }
    }
}

impl View for Noun {
    type V = NounV;

    open spec fn view(&self) -> NounV {
        self.view_rec()
    }
}

/// The number of nodes of a noun.
pub open spec fn nsize(n: NounV) -> nat
    decreases n,
{
    match n {
        NounV::Atom(_) => 1,
        NounV::Cell(h, t) => 1 + nsize(*h) + nsize(*t),
    }
}

/// The value of an atom's limbs where it fits in 64 bits.
pub open spec fn limbs_u64(l: Seq<u64>) -> Option<u64> {
    if forall|i: int| 1 <= i < l.len() ==> #[trigger] l[i] == 0 {
        Some(if l.len() == 0 { 0u64 } else { l[0] })
    } else {
        None
    }
}

impl Clone for Noun {
    /// A deep copy.
    fn clone(&self) -> (r: Self)
        ensures
            r@ == self@,
    {
        self.copy()
    }
}

/// The value of a noun where it is an atom that fits in 64 bits.
pub open spec fn noun_u64(n: NounV) -> Option<u64> {
    match n {
        NounV::Atom(l) => limbs_u64(l),
        NounV::Cell(_, _) => None,
    }
}

/// The atom of a 64-bit value, without limbs for zero.
pub open spec fn direct(v: u64) -> NounV {
    NounV::Atom(if v == 0 { Seq::empty() } else { seq![v] })
}

/// The subtree at a tree address: 1 is the whole noun, `2a` the head and `2a + 1`
/// the tail of the subtree at `a`.
pub open spec fn slot_v(n: NounV, axis: nat) -> Option<NounV>
    decreases axis,
{
    if axis == 0 {
        None
    } else if axis == 1 {
        Some(n)
    } else {
        match slot_v(n, axis / 2) {
            Some(NounV::Cell(h, t)) => Some(if axis % 2 == 0 { *h } else { *t }),
            _ => None,
        }
    }
}

/// The items of a list: a chain of cells through their tails, ending in the atom 0.
pub open spec fn list_v(n: NounV) -> Option<Seq<NounV>>
    decreases n,
{
    match n {
        NounV::Atom(l) => if limbs_u64(l) == Some(0u64) {
            Some(Seq::empty())
        } else {
            None
        },
        NounV::Cell(h, t) => match list_v(*t) {
            Some(rest) => Some(seq![*h] + rest),
            None => None,
        },
    }
}

/// The list of the given items.
pub open spec fn list_of(items: Seq<NounV>) -> NounV
    decreases items.len(),
{
    if items.len() == 0 {
        direct(0)
    } else {
        NounV::Cell(Box::new(items[0]), Box::new(list_of(items.drop_first())))
    }
}

impl Noun {
    /// The atom of a 64-bit value.
    pub fn direct(v: u64) -> (r: Noun)
        ensures
            r@ == direct(v),
    {
        let mut l: Vec<u64> = Vec::new();
        if v != 0 {
            l.push(v);
        }
        proof {
            if v == 0 {
                assert(l@ =~= Seq::<u64>::empty());
            } else {
                assert(l@ =~= seq![v]);
            }
        }
        Noun::Atom(l)
    }

    /// The cell of two nouns.
    pub fn cell(h: Noun, t: Noun) -> (r: Noun)
        ensures
            r@ == NounV::Cell(Box::new(h@), Box::new(t@)),
    {
        Noun::Cell(Box::new(h), Box::new(t))
    }

    /// A deep copy.
    pub fn copy(&self) -> (r: Noun)
        ensures
            r@ == self@,
        decreases self,
    {
        match self {
            Noun::Atom(l) => {
                let mut c: Vec<u64> = Vec::new();
                let mut i: usize = 0;
                while i < l.len()
                    invariant
                        i <= l.len(),
                        c.len() == i,
                        forall|j: int| 0 <= j < i ==> #[trigger] c[j] == l[j],
                    decreases l.len() - i,
                {
                    c.push(l[i]);
                    i = i + 1;
                }
                proof {
                    assert(c@ =~= l@);
                }
                Noun::Atom(c)
            },
            Noun::Cell(h, t) => {
                let hc = (**h).copy();
                let tc = (**t).copy();
                Noun::Cell(Box::new(hc), Box::new(tc))
            },
        }
    }

    /// The value of this noun where it is an atom that fits in 64 bits.
    pub fn as_u64(&self) -> (r: Option<u64>)
        ensures
            r == noun_u64(self@),
    {
        match self {
            Noun::Atom(l) => {
                let mut i: usize = 1;
                proof {
                    assert(self@ == NounV::Atom(l@));
                }
                while i < l.len()
                    invariant
                        self@ == NounV::Atom(l@),
                        1 <= i,
                        forall|j: int| 1 <= j < i && j < l.len() ==> #[trigger] l[j] == 0,
                    decreases l.len() - i,
                {
                    if l[i] != 0 {
                        proof {
                            assert(l@[i as int] != 0);
                        }
                        return None;
                    }
                    i = i + 1;
                }
                if l.len() == 0 {
                    Some(0)
                } else {
                    Some(l[0])
                }
            },
            Noun::Cell(_, _) => None,
        }
    }

    /// Whether this noun is a cell.
    pub fn is_cell(&self) -> (r: bool)
        ensures
            r == (self@ is Cell),
    {
        match self {
            Noun::Atom(_) => false,
            Noun::Cell(_, _) => true,
        }
    }

    /// The subtree at a tree address.
    pub fn slot(&self, axis: u64) -> (r: Result<&Noun, JetErr>)
        ensures
            match r {
                Ok(n) => slot_v(self@, axis as nat) == Some(n@),
                Err(_) => slot_v(self@, axis as nat) is None,
            },
        decreases axis,
    {
        if axis == 0 {
            return Err(JetErr::Deterministic);
        }
        if axis == 1 {
            return Ok(self);
        }
        let parent = self.slot(axis / 2);
        match parent {
            Err(e) => Err(e),
            Ok(p) => match p {
                Noun::Cell(h, t) => {
                    if axis % 2 == 0 {
                        Ok(&**h)
                    } else {
                        Ok(&**t)
                    }
                },
                Noun::Atom(_) => Err(JetErr::Deterministic),
            },
        }
    }
}

/// The 64-bit values of the items of a list of atoms that fit in 64 bits.
pub open spec fn list_words(n: NounV) -> Option<Seq<u64>> {
    match list_v(n) {
        Some(items) => if forall|i: int| 0 <= i < items.len() ==> #[trigger] noun_u64(items[i]) is Some {
            Some(Seq::new(items.len(), |i: int| noun_u64(items[i])->0))
        } else {
            None
        },
        None => None,
    }
}

/// The list of the atoms of the given 64-bit values.
pub open spec fn words_list(ws: Seq<u64>) -> NounV {
    list_of(Seq::new(ws.len(), |i: int| direct(ws[i])))
}

/// The items of a list noun, in order.
pub fn list_items(n: &Noun) -> (r: Result<Vec<&Noun>, JetErr>)
    ensures
        match r {
            Ok(v) => list_v(n@) == Some(v@.map_values(|x: &Noun| x@)),
            Err(_) => list_v(n@) is None,
        },
{
    let mut items: Vec<&Noun> = Vec::new();
    let mut cur: &Noun = n;
    loop
        invariant
            list_v(n@) == match list_v(cur@) {
                Some(rest) => Some(items@.map_values(|x: &Noun| x@) + rest),
                None => None::<Seq<NounV>>,
            },
        decreases nsize(cur@),
    {
        match cur {
            Noun::Atom(_) => {
                let v = cur.as_u64();
                proof {
                    assert(cur@ is Atom);
                }
                if v == Some(0u64) {
                    proof {
                        assert(items@.map_values(|x: &Noun| x@) + Seq::<NounV>::empty() =~= items@.map_values(|x: &Noun| x@));
                    }
                    return Ok(items);
                } else {
                    return Err(JetErr::Deterministic);
                }
            },
            Noun::Cell(h, t) => {
                proof {
                    assert(cur@ == NounV::Cell(Box::new((**h)@), Box::new((**t)@)));
                }
                let ghost before = items@.map_values(|x: &Noun| x@);
                items.push(&**h);
                proof {
                    match list_v((**t)@) {
                        Some(rest) => {
                            assert(items@.map_values(|x: &Noun| x@) =~= before.push((**h)@));
                            assert(before + (seq![(**h)@] + rest) =~= items@.map_values(|x: &Noun| x@) + rest);
                        },
                        None => {},
                    }
                }
                cur = &**t;
            },
        }
    }
}

/// The field elements of a list of atoms that fit in 64 bits.
pub fn parse_belt_list(n: &Noun) -> (r: Result<Vec<crate::field::Belt>, JetErr>)
    ensures
        match r {
            Ok(v) => list_words(n@) == Some(v@.map_values(|b: crate::field::Belt| b.0)),
            Err(_) => list_words(n@) is None,
        },
{
    let items = match list_items(n) {
        Ok(v) => v,
        Err(e) => {
            return Err(e);
        },
    };
    let ghost iv = items@.map_values(|x: &Noun| x@);
    let mut out: Vec<crate::field::Belt> = Vec::new();
    let mut i: usize = 0;
    while i < items.len()
        invariant
            iv == items@.map_values(|x: &Noun| x@),
            list_v(n@) == Some(iv),
            i <= items.len(),
            out.len() == i,
            forall|j: int| 0 <= j < i ==> noun_u64(#[trigger] iv[j]) == Some(out[j].0),
        decreases items.len() - i,
    {
        match items[i].as_u64() {
            Some(u) => {
                out.push(crate::field::Belt::from_u64(u));
            },
            None => {
                proof {
                    assert(noun_u64(iv[i as int]) is None);
                }
                return Err(JetErr::Deterministic);
            },
        }
        i = i + 1;
    }
    proof {
        assert(out@.map_values(|b: crate::field::Belt| b.0) =~= Seq::new(iv.len(), |i: int| noun_u64(iv[i])->0));
    }
    Ok(out)
}

/// The list noun of the 64-bit words of some field elements.
pub fn belt_vec_to_noun_list(belts: &Vec<crate::field::Belt>) -> (r: Noun)
    ensures
        r@ == words_list(belts@.map_values(|b: crate::field::Belt| b.0)),
{
    let ghost ws = belts@.map_values(|b: crate::field::Belt| b.0);
    let ghost items = Seq::new(ws.len(), |i: int| direct(ws[i]));
    let mut result = Noun::direct(0);
    let mut i: usize = belts.len();
    proof {
        assert(items.subrange(i as int, items.len() as int) =~= Seq::<NounV>::empty());
    }
    while i > 0
        invariant
            ws == belts@.map_values(|b: crate::field::Belt| b.0),
            items == Seq::new(ws.len(), |i: int| direct(ws[i])),
            i <= belts.len(),
            result@ == list_of(items.subrange(i as int, items.len() as int)),
        decreases i,
    {
        i = i - 1;
        let atom = Noun::direct(belts[i].0);
        result = Noun::cell(atom, result);
        proof {
            let s = items.subrange(i as int, items.len() as int);
            assert(s.drop_first() =~= items.subrange(i + 1, items.len() as int));
            assert(s[0] == direct(ws[i as int]));
        }
    }
    proof {
        assert(items.subrange(0, items.len() as int) =~= items);
    }
    result
}

/// The coefficients of a polynomial noun `[len dat]`: `dat` is an atom of `len + 1`
/// limbs, the coefficients followed by the marker limb 1.
pub open spec fn bpoly_v(n: NounV) -> Option<Seq<u64>> {
    match n {
        NounV::Cell(h, t) => match (noun_u64(*h), *t) {
            (Some(len), NounV::Atom(l)) => if l.len() == len + 1 && l[len as int] == 1 {
                Some(l.subrange(0, len as int))
            } else {
                None
            },
            _ => None,
        },
        NounV::Atom(_) => None,
    }
}

/// The polynomial noun of some coefficients.
pub open spec fn bpoly_noun(c: Seq<u64>) -> NounV {
    NounV::Cell(Box::new(direct(c.len() as u64)), Box::new(NounV::Atom(c.push(1u64))))
}

/// The coefficients of a polynomial noun.
pub fn decode_bpoly(n: &Noun) -> (r: Result<Vec<crate::field::Belt>, JetErr>)
    ensures
        match r {
            Ok(v) => bpoly_v(n@) == Some(v@.map_values(|b: crate::field::Belt| b.0)),
            Err(_) => bpoly_v(n@) is None,
        },
{
    match n {
        Noun::Atom(_) => Err(JetErr::Deterministic),
        Noun::Cell(h, t) => {
            proof {
                assert(n@ == NounV::Cell(Box::new((**h)@), Box::new((**t)@)));
            }
            let len = match (**h).as_u64() {
                Some(v) => v,
                None => {
                    return Err(JetErr::Deterministic);
                },
            };
            match &**t {
                Noun::Cell(_, _) => Err(JetErr::Deterministic),
                Noun::Atom(l) => {
                    proof {
                        assert((**t)@ == NounV::Atom(l@));
                    }
                    if l.len() == 0 || (l.len() - 1) as u64 != len || l[l.len() - 1] != 1 {
                        return Err(JetErr::Deterministic);
                    }
                    let mut out: Vec<crate::field::Belt> = Vec::new();
                    let mut i: usize = 0;
                    while i < l.len() - 1
                        invariant
                            l.len() >= 1,
                            i <= l.len() - 1,
                            out.len() == i,
                            forall|j: int| 0 <= j < i ==> (#[trigger] out[j]).0 == l[j],
                        decreases l.len() - 1 - i,
                    {
                        out.push(crate::field::Belt::from_u64(l[i]));
                        i = i + 1;
                    }
                    proof {
                        assert(out@.map_values(|b: crate::field::Belt| b.0) =~= l@.subrange(0, len as int));
                    }
                    Ok(out)
                },
            }
        },
    }
}

/// The polynomial noun of some field elements.
pub fn encode_bpoly(c: &Vec<crate::field::Belt>) -> (r: Noun)
    ensures
        r@ == bpoly_noun(c@.map_values(|b: crate::field::Belt| b.0)),
{
    let mut l: Vec<u64> = Vec::new();
    let mut i: usize = 0;
    while i < c.len()
        invariant
            i <= c.len(),
            l.len() == i,
            forall|j: int| 0 <= j < i ==> #[trigger] l[j] == c[j].0,
        decreases c.len() - i,
    {
        l.push(c[i].0);
        i = i + 1;
    }
    l.push(1);
    proof {
        assert(l@ =~= c@.map_values(|b: crate::field::Belt| b.0).push(1u64));
    }
    Noun::cell(Noun::direct(c.len() as u64), Noun::Atom(l))
}

/// Decoding an encoded polynomial gives back its words.
pub proof fn lemma_bpoly_roundtrip(c: Seq<u64>)
    requires
        c.len() <= u64::MAX,
    ensures
        bpoly_v(bpoly_noun(c)) == Some(c),
{
    let len = c.len() as u64;
    assert(noun_u64(direct(len)) == Some(len)) by {
        if len == 0 {
            assert(limbs_u64(Seq::<u64>::empty()) == Some(0u64));
        } else {
            assert(limbs_u64(seq![len]) == Some(len));
        }
    }
    assert(c.push(1u64).subrange(0, len as int) =~= c);
}

/// Reading the items of a built list gives back the items.
pub proof fn lemma_list_roundtrip(items: Seq<NounV>)
    ensures
        list_v(list_of(items)) == Some(items),
    decreases items.len(),
{
    if items.len() == 0 {
        assert(limbs_u64(Seq::<u64>::empty()) == Some(0u64));
    } else {
        lemma_list_roundtrip(items.drop_first());
        assert(seq![items[0]] + items.drop_first() =~= items);
    }
}

/// Reading the words of a list of word atoms gives back the words.
pub proof fn lemma_words_list_roundtrip(ws: Seq<u64>)
    ensures
        list_words(words_list(ws)) == Some(ws),
{
    let items = Seq::new(ws.len(), |i: int| direct(ws[i]));
    lemma_list_roundtrip(items);
    assert forall|i: int| 0 <= i < items.len() implies #[trigger] noun_u64(items[i]) == Some(ws[i]) by {
        if ws[i] == 0 {
            assert(limbs_u64(Seq::<u64>::empty()) == Some(0u64));
        } else {
            assert(limbs_u64(seq![ws[i]]) == Some(ws[i]));
        }
    }
    assert(Seq::new(items.len(), |i: int| noun_u64(items[i])->0) =~= ws);
}

/// `256^j`.
pub open spec fn pow256(j: nat) -> nat
    decreases j,
{
    if j == 0 {
        1
    } else {
        256 * pow256((j - 1) as nat)
    }
}

/// The little-endian value of bytes `start + j` to `start + 7` of `b` (those that
/// exist), shifted down by `j` bytes' weight.
pub open spec fn word_at(b: Seq<u8>, start: int, j: nat) -> nat
    decreases 8 - j,
{
    if j >= 8 || start + j >= b.len() {
        0
    } else {
        b[start + j] as nat * pow256(j) + word_at(b, start, j + 1)
    }
}

/// The limbs of the bytes of `b` read as a little-endian number, eight to a limb.
pub open spec fn raw_limbs(b: Seq<u8>) -> Seq<u64> {
    Seq::new(((b.len() + 7) / 8) as nat, |i: int| word_at(b, 8 * i, 0) as u64)
}

/// The limbs without their high zero limbs.
pub open spec fn strip(l: Seq<u64>) -> Seq<u64>
    decreases l.len(),
{
    if l.len() > 0 && l.last() == 0 {
        strip(l.drop_last())
    } else {
        l
    }
}

/// The atom whose bytes, little-endian, are `b` (a cord).
pub open spec fn cord_v(b: Seq<u8>) -> NounV {
    NounV::Atom(strip(raw_limbs(b)))
}

/// Whether a noun is the atom whose little-endian bytes are `b`.
pub open spec fn is_cord(n: NounV, b: Seq<u8>) -> bool {
    match n {
        NounV::Atom(l) => strip(l) == strip(raw_limbs(b)),
        NounV::Cell(_, _) => false,
    }
}

/// The powers of 256 that stand for the byte places of a 64-bit word.
pub proof fn lemma_pow256_bounds(j: nat)
    requires
        j <= 8,
    ensures
        1 <= pow256(j),
        j <= 7 ==> pow256(j) <= 0x100_0000_0000_0000,
        j == 8 ==> pow256(j) == 0x1_0000_0000_0000_0000,
    decreases j,
{
    if j > 0 {
        lemma_pow256_bounds((j - 1) as nat);
    }
    if j == 8 {
        reveal_with_fuel(pow256, 9);
    }
    if j == 7 {
        reveal_with_fuel(pow256, 8);
    }
    if j < 7 {
        lemma_pow256_mono(j, 7);
        reveal_with_fuel(pow256, 8);
    }
}

/// Powers of 256 grow with the exponent.
pub proof fn lemma_pow256_mono(a: nat, b: nat)
    requires
        a <= b,
    ensures
        pow256(a) <= pow256(b),
    decreases b,
{
    if a < b {
        lemma_pow256_mono(a, (b - 1) as nat);
        lemma_pow256_pos((b - 1) as nat);
    }
}

/// Powers of 256 are positive.
pub proof fn lemma_pow256_pos(j: nat)
    ensures
        pow256(j) >= 1,
    decreases j,
{
    if j > 0 {
        lemma_pow256_pos((j - 1) as nat);
    }
}

/// The little-endian word of the (at most eight) bytes of `b` from `start`.
fn pack_word(b: &[u8], start: usize) -> (r: u64)
    requires
        start < b.len(),
    ensures
        r as nat == word_at(b@, start as int, 0),
{
    let mut w: u64 = 0;
    let mut mult: u64 = 1;
    let mut j: usize = 0;
    while j < 8 && j < b.len() - start
        invariant
            j <= 8,
            start < b.len(),
            j < 8 ==> mult as nat == pow256(j as nat),
            w as nat + word_at(b@, start as int, j as nat) == word_at(b@, start as int, 0),
            (w as nat) < pow256(j as nat),
        decreases 8 - j,
    {
        proof {
            lemma_pow256_bounds(j as nat);
            lemma_pow256_bounds((j + 1) as nat);
            let bj = b[start + j] as nat;
            assert(w as nat + bj * pow256(j as nat) < pow256((j + 1) as nat)) by (nonlinear_arith)
                requires
                    w < pow256(j as nat),
                    bj <= 255,
                    pow256((j + 1) as nat) == 256 * pow256(j as nat),
            ;
        }
        w = w + (b[start + j] as u64) * mult;
        if j < 7 {
            mult = mult * 256;
        }
        j = j + 1;
    }
    w
}

/// The limbs of bytes read as a little-endian number.
fn pack_limbs(b: &[u8]) -> (r: Vec<u64>)
    ensures
        r@ == raw_limbs(b@),
{
    let n_limbs = b.len() / 8 + if b.len() % 8 == 0 { 0 } else { 1 };
    proof {
        assert(n_limbs == (b.len() + 7) / 8);
    }
    let mut r: Vec<u64> = Vec::new();
    let mut i: usize = 0;
    while i < n_limbs
        invariant
            n_limbs == (b.len() + 7) / 8,
            i <= n_limbs,
            r.len() == i,
            forall|k: int| 0 <= k < i ==> #[trigger] r[k] == word_at(b@, 8 * k, 0) as u64,
        decreases n_limbs - i,
    {
        let w = pack_word(b, 8 * i);
        r.push(w);
        i = i + 1;
    }
    proof {
        assert(r@ =~= raw_limbs(b@));
    }
    r
}

/// The limbs without their high zero limbs.
fn strip_limbs(l: Vec<u64>) -> (r: Vec<u64>)
    ensures
        r@ == strip(l@),
{
    let mut r = l;
    while r.len() > 0 && r[r.len() - 1] == 0
        invariant
            strip(r@) == strip(l@),
        decreases r.len(),
    {
        let ghost before = r@;
        r.pop();
        proof {
            assert(r@ =~= before.drop_last());
        }
    }
    r
}

/// The atom whose little-endian bytes are `b`.
pub fn cord(b: &[u8]) -> (r: Noun)
    ensures
        r@ == cord_v(b@),
{
    Noun::Atom(strip_limbs(pack_limbs(b)))
}

/// Whether the noun is the atom whose little-endian bytes are `b`.
pub fn eq_cord(n: &Noun, b: &[u8]) -> (r: bool)
    ensures
        r == is_cord(n@, b@),
{
    match n {
        Noun::Cell(_, _) => false,
        Noun::Atom(l) => {
            proof {
                assert(n@ == NounV::Atom(l@));
            }
            let mut c: Vec<u64> = Vec::new();
            let mut i: usize = 0;
            while i < l.len()
                invariant
                    i <= l.len(),
                    c.len() == i,
                    forall|k: int| 0 <= k < i ==> #[trigger] c[k] == l[k],
                decreases l.len() - i,
            {
                c.push(l[i]);
                i = i + 1;
            }
            proof {
                assert(c@ =~= l@);
            }
            let a = strip_limbs(c);
            let want = strip_limbs(pack_limbs(b));
            if a.len() != want.len() {
                return false;
            }
            let mut k: usize = 0;
            while k < a.len()
                invariant
                    a@ == strip(l@),
                    want@ == strip(raw_limbs(b@)),
                    n@ == NounV::Atom(l@),
                    a.len() == want.len(),
                    k <= a.len(),
                    forall|j: int| 0 <= j < k ==> #[trigger] a[j] == want[j],
                decreases a.len() - k,
            {
                if a[k] != want[k] {
                    return false;
                }
                k = k + 1;
            }
            proof {
                assert(a@ =~= want@);
            }
            true
        },
    }
}

} // verus!
