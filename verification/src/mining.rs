//! The mining driver's logic: the wires it pokes on, the parsing of mining key
//! configurations, the pokes that set up mining, the kernel pool's sizing, and the
//! reading of the effects that mining kernels produce.
use crate::kernel_pool::KernelPoolConfig;
use crate::noun::{cord, cord_v, direct, eq_cord, is_cord, list_v, Noun, NounV};
use vstd::prelude::*;
use vstd::utf8::encode_utf8;

verus! {

/// The wires on which the mining driver pokes.
#[derive(Debug, Clone, Copy, PartialEq, Eq, Structural)]
pub enum MiningWire {
    Mined,
    Candidate,
    SetPubKey,
    Enable,
}

/// The verb of each mining wire.
pub open spec fn verb_spec(w: MiningWire) -> Seq<char> {
    match w {
        MiningWire::Mined => "mined"@,
        MiningWire::SetPubKey => "setpubkey"@,
        MiningWire::Candidate => "candidate"@,
        MiningWire::Enable => "enable"@,
    }
}

/// A wire: the driver it belongs to, a version and tags.
#[derive(Debug, PartialEq, Eq)]
pub struct WireRepr {
    pub source: String,
    pub version: u64,
    pub tags: Vec<String>,
}

/// The source of the mining wires.
pub open spec fn mining_wire_source() -> Seq<char> {
    "miner"@
}

/// The version of the mining wires.
pub const MINING_WIRE_VERSION: u64 = 1;

impl MiningWire {
    /// The verb of this wire.
    pub fn verb(&self) -> (r: &'static str)
        ensures
            r@ == verb_spec(*self),
    {
        match self {
            MiningWire::Mined => "mined",
            MiningWire::SetPubKey => "setpubkey",
            MiningWire::Candidate => "candidate",
            MiningWire::Enable => "enable",
        }
    }

    /// The wire: source `miner`, version 1, the verb as its only tag.
    pub fn to_wire(&self) -> (r: WireRepr)
        ensures
            r.source@ == mining_wire_source(),
            r.version == MINING_WIRE_VERSION,
            r.tags.len() == 1,
            r.tags[0]@ == verb_spec(*self),
    {
        let mut tags: Vec<String> = Vec::new();
        tags.push(self.verb().to_owned());
        WireRepr { source: "miner".to_owned(), version: MINING_WIRE_VERSION, tags }
    }
}

/// A mining key configuration: `share` and `m` with the keys.
#[derive(Debug, Clone, PartialEq, Eq)]
pub struct MiningKeyConfig {
    pub share: u64,
    pub m: u64,
    pub keys: Vec<String>,
}

/// The kinds of failure of parsing an unsigned integer.
#[derive(Debug, Clone, Copy, PartialEq, Eq, Structural)]
pub enum ParseIntErrorKind {
    /// The text is empty.
    Empty,
    /// A character is not a decimal digit.
    InvalidDigit,
    /// The number exceeds `u64::MAX`.
    PosOverflow,
}

/// The message of a failure of parsing an unsigned integer.
pub open spec fn parse_int_message(e: ParseIntErrorKind) -> Seq<char> {
    match e {
        ParseIntErrorKind::Empty => "cannot parse integer from empty string"@,
        ParseIntErrorKind::InvalidDigit => "invalid digit found in string"@,
        ParseIntErrorKind::PosOverflow => "number too large to fit in target type"@,
    }
}

/// Whether a character is a decimal digit.
pub open spec fn is_digit(c: char) -> bool {
    '0' <= c && c <= '9'
}

/// The value of a run of characters read as decimal digits from left to right: the
/// first character that is not a digit, or the first digit that takes the value past
/// `u64::MAX`, decides the failure.
pub open spec fn digits_result(ds: Seq<char>) -> Result<nat, ParseIntErrorKind>
    decreases ds.len(),
{
    if ds.len() == 0 {
        Ok(0)
    } else {
        match digits_result(ds.drop_last()) {
            Err(e) => Err(e),
            Ok(v) => if !is_digit(ds.last()) {
                Err(ParseIntErrorKind::InvalidDigit)
            } else if v * 10 + (ds.last() as nat - '0' as nat) > u64::MAX {
                Err(ParseIntErrorKind::PosOverflow)
            } else {
                Ok((v * 10 + (ds.last() as nat - '0' as nat)) as nat)
            },
        }
    }
}

/// An unsigned 64-bit integer in decimal, with an optional leading `+`.
pub open spec fn parse_u64_spec(s: Seq<char>) -> Result<u64, ParseIntErrorKind> {
    if s.len() == 0 {
        Err(ParseIntErrorKind::Empty)
    } else {
        let ds = if s[0] == '+' { s.drop_first() } else { s };
        if ds.len() == 0 {
            Err(ParseIntErrorKind::InvalidDigit)
        } else {
            match digits_result(ds) {
                Ok(v) => Ok(v as u64),
                Err(e) => Err(e),
            }
        }
    }
}

/// Parses an unsigned 64-bit integer in decimal, with an optional leading `+`.
pub fn parse_u64(s: &Vec<char>) -> (r: Result<u64, ParseIntErrorKind>)
    ensures
        r == parse_u64_spec(s@),
{
    if s.len() == 0 {
        return Err(ParseIntErrorKind::Empty);
    }
    let start: usize = if s[0] == '+' { 1 } else { 0 };
    let ghost ds = if s@[0] == '+' { s@.drop_first() } else { s@ };
    if start == s.len() {
        return Err(ParseIntErrorKind::InvalidDigit);
    }
    let mut acc: u64 = 0;
    let mut i: usize = start;
    proof {
        assert(ds.take(0) =~= Seq::<char>::empty());
    }
    while i < s.len()
        invariant
            s.len() > 0,
            start == (if s@[0] == '+' { 1usize } else { 0usize }),
            ds == (if s@[0] == '+' { s@.drop_first() } else { s@ }),
            ds.len() > 0,
            start <= i <= s.len(),
            start <= 1,
            ds == s@.subrange(start as int, s.len() as int),
            digits_result(ds.take(i - start)) == Ok::<nat, ParseIntErrorKind>(acc as nat),
        decreases s.len() - i,
    {
        let c = s[i];
        proof {
            assert(ds.take(i - start + 1).drop_last() =~= ds.take(i - start));
            assert(ds.take(i - start + 1).last() == c);
        }
        if !('0' <= c && c <= '9') {
            proof {
                lemma_digits_err_prefix(ds, (i - start + 1) as nat);
            }
            return Err(ParseIntErrorKind::InvalidDigit);
        }
        let d = (c as u32 - '0' as u32) as u64;
        let v: u128 = (acc as u128) * 10 + (d as u128);
        if v > u64::MAX as u128 {
            proof {
                lemma_digits_err_prefix(ds, (i - start + 1) as nat);
            }
            return Err(ParseIntErrorKind::PosOverflow);
        }
        acc = v as u64;
        i = i + 1;
    }
    proof {
        assert(ds.take(s.len() - start) =~= ds);
    }
    Ok(acc)
}

/// A failure on a prefix of the digits is the failure of all of them.
pub proof fn lemma_digits_err_prefix(ds: Seq<char>, k: nat)
    requires
        k <= ds.len(),
        digits_result(ds.take(k as int)) is Err,
    ensures
        digits_result(ds) == digits_result(ds.take(k as int)),
    decreases ds.len() - k,
{
    if k < ds.len() {
        assert(ds.take((k + 1) as int).drop_last() =~= ds.take(k as int));
        lemma_digits_err_prefix(ds, k + 1);
    } else {
        assert(ds.take(k as int) =~= ds);
    }
}

/// The pieces of `s` between the occurrences of `sep` (one more piece than there are
/// occurrences).
pub open spec fn split(s: Seq<char>, sep: char) -> Seq<Seq<char>>
    decreases s.len(),
{
    if s.len() == 0 {
        seq![Seq::empty()]
    } else {
        let r = split(s.drop_last(), sep);
        if s.last() == sep {
            r.push(Seq::empty())
        } else {
            r.update(r.len() - 1, r.last().push(s.last()))
        }
    }
}

/// Splitting always gives at least one piece.
pub proof fn lemma_split_nonempty(s: Seq<char>, sep: char)
    ensures
        split(s, sep).len() >= 1,
    decreases s.len(),
{
    if s.len() > 0 {
        lemma_split_nonempty(s.drop_last(), sep);
    }
}

/// The pieces of `s` between the occurrences of `sep`.
pub fn split_chars(s: &Vec<char>, sep: char) -> (r: Vec<Vec<char>>)
    ensures
        r@.map_values(|v: Vec<char>| v@) == split(s@, sep),
{
    let mut pieces: Vec<Vec<char>> = Vec::new();
    let mut cur: Vec<char> = Vec::new();
    let mut i: usize = 0;
    proof {
        assert(s@.take(0) =~= Seq::<char>::empty());
        assert(pieces@.map_values(|v: Vec<char>| v@).push(cur@) =~= split(s@.take(0), sep));
    }
    while i < s.len()
        invariant
            i <= s.len(),
            pieces@.map_values(|v: Vec<char>| v@).push(cur@) == split(s@.take(i as int), sep),
        decreases s.len() - i,
    {
        let c = s[i];
        let ghost before = pieces@.map_values(|v: Vec<char>| v@);
        proof {
            assert(s@.take(i + 1).drop_last() =~= s@.take(i as int));
            assert(s@.take(i + 1).last() == c);
            lemma_split_nonempty(s@.take(i as int), sep);
        }
        if c == sep {
            let ghost old_cur = cur@;
            let done = cur;
            pieces.push(done);
            cur = Vec::new();
            proof {
                assert(pieces@.map_values(|v: Vec<char>| v@) =~= before.push(old_cur));
                assert(pieces@.map_values(|v: Vec<char>| v@).push(cur@) =~= split(s@.take(i + 1), sep));
            }
        } else {
            cur.push(c);
            proof {
                assert(pieces@.map_values(|v: Vec<char>| v@) == before);
                assert(pieces@.map_values(|v: Vec<char>| v@).push(cur@) =~= split(s@.take(i + 1), sep));
            }
        }
        i = i + 1;
    }
    let ghost before = pieces@.map_values(|v: Vec<char>| v@);
    let ghost last = cur@;
    pieces.push(cur);
    proof {
        assert(pieces@.map_values(|v: Vec<char>| v@) =~= before.push(last));
        assert(s@.take(s.len() as int) =~= s@);
    }
    pieces
}

/// std's `FromIterator<char>` for `String`: the string of the collected characters,
/// in order.
#[verifier::external_body]
fn string_from_chars(cs: &Vec<char>) -> (r: String)
    ensures
        r@ == cs@,
{
    String::from_iter(cs.iter())
}

/// The failures of parsing a mining key configuration.
#[derive(Debug, Clone, Copy, PartialEq, Eq, Structural)]
pub enum KeyConfigError {
    /// Not exactly one `:`.
    Format,
    /// Not exactly one `,` before the `:`.
    ShareM,
    /// `share` or `m` is not an unsigned 64-bit integer.
    Int(ParseIntErrorKind),
}

/// The message of each failure.
pub open spec fn key_config_message(e: KeyConfigError) -> Seq<char> {
    match e {
        KeyConfigError::Format => "Invalid format. Expected 'share,m:key1,key2,key3'"@,
        KeyConfigError::ShareM => "Invalid share,m format"@,
        KeyConfigError::Int(k) => parse_int_message(k),
    }
}

/// A mining key configuration in the format `share,m:key1,key2,...`: `share`, `m`
/// and the keys, or the first failure.
pub open spec fn key_config_spec(s: Seq<char>) -> Result<(u64, u64, Seq<Seq<char>>), KeyConfigError> {
    let parts = split(s, ':');
    if parts.len() != 2 {
        Err(KeyConfigError::Format)
    } else {
        let share_m = split(parts[0], ',');
        if share_m.len() != 2 {
            Err(KeyConfigError::ShareM)
        } else {
            match parse_u64_spec(share_m[0]) {
                Err(e) => Err(KeyConfigError::Int(e)),
                Ok(share) => match parse_u64_spec(share_m[1]) {
                    Err(e) => Err(KeyConfigError::Int(e)),
                    Ok(m) => Ok((share, m, split(parts[1], ','))),
                },
            }
        }
    }
}

/// The decimal digit character of `d < 10`.
pub open spec fn digit_char(d: nat) -> char {
    (('0' as nat) + d) as char
}

/// `n` written in decimal, without leading zeros (as `u64`'s `Display` writes it).
pub open spec fn decimal(n: nat) -> Seq<char>
    decreases n,
{
    if n < 10 {
        seq![digit_char(n)]
    } else {
        decimal(n / 10).push(digit_char(n % 10))
    }
}

/// The keys joined with `,` between them.
pub open spec fn join_keys(keys: Seq<Seq<char>>) -> Seq<char>
    decreases keys.len(),
{
    if keys.len() <= 1 {
        if keys.len() == 0 {
            Seq::empty()
        } else {
            keys[0]
        }
    } else {
        join_keys(keys.drop_last()) + seq![','] + keys.last()
    }
}

/// The text `share,m:key1,key2,...` of a configuration.
pub open spec fn format_key_config(share: u64, m: u64, keys: Seq<Seq<char>>) -> Seq<char> {
    decimal(share as nat) + seq![','] + decimal(m as nat) + seq![':'] + join_keys(keys)
}

/// Reading a number's decimal digits gives back the number.
pub proof fn lemma_digits_decimal(n: nat)
    requires
        n <= u64::MAX,
    ensures
        digits_result(decimal(n)) == Ok::<nat, ParseIntErrorKind>(n),
        decimal(n).len() >= 1,
        forall|i: int| 0 <= i < decimal(n).len() ==> is_digit(#[trigger] decimal(n)[i]),
    decreases n,
{
    if n < 10 {
        let ds = decimal(n);
        assert(ds.drop_last() =~= Seq::<char>::empty());
        assert(digits_result(Seq::<char>::empty()) == Ok::<nat, ParseIntErrorKind>(0));
        assert(ds.last() == digit_char(n));
        assert(digit_char(n) as nat == '0' as nat + n);
    } else {
        lemma_digits_decimal(n / 10);
        let ds = decimal(n);
        assert(ds.drop_last() =~= decimal(n / 10));
        assert(digit_char(n % 10) as nat == '0' as nat + n % 10);
        assert((n / 10) * 10 + n % 10 == n) by {
            vstd::arithmetic::div_mod::lemma_fundamental_div_mod(n as int, 10);
        }
        assert forall|i: int| 0 <= i < ds.len() implies is_digit(#[trigger] ds[i]) by {
            if i < ds.len() - 1 {
                assert(ds[i] == decimal(n / 10)[i]);
            }
        }
    }
}

/// Splitting text with no separator in it gives the text alone, appended to the last
/// piece.
pub proof fn lemma_split_append_plain(x: Seq<char>, y: Seq<char>, sep: char)
    requires
        forall|i: int| 0 <= i < y.len() ==> y[i] != sep,
    ensures
        split(x + y, sep) == split(x, sep).update(
            split(x, sep).len() - 1,
            split(x, sep).last() + y,
        ),
    decreases y.len(),
{
    lemma_split_nonempty(x, sep);
    if y.len() == 0 {
        assert(x + y =~= x);
        assert(split(x, sep).last() + y =~= split(x, sep).last());
        assert(split(x, sep).update(split(x, sep).len() - 1, split(x, sep).last()) =~= split(x, sep));
    } else {
        let y1 = y.drop_last();
        lemma_split_append_plain(x, y1, sep);
        assert((x + y).drop_last() =~= x + y1);
        assert((x + y).last() == y.last());
        let r = split(x, sep);
        assert(r.last() + y1 + seq![y.last()] =~= r.last() + y);
        let r1 = split(x + y1, sep);
        assert(r1.len() == r.len());
        assert(r1.last() == r.last() + y1);
        assert(r1.last().push(y.last()) =~= r.last() + y);
        assert(split(x + y, sep) == r1.update(r1.len() - 1, r1.last().push(y.last())));
        assert(split(x + y1, sep).update(r.len() - 1, split(x + y1, sep).last().push(y.last())) =~= r.update(
            r.len() - 1,
            r.last() + y,
        ));
    }
}

/// Splitting `x`, a separator, then text without separators: the pieces of `x`, then
/// that text.
pub proof fn lemma_split_sep_plain(x: Seq<char>, y: Seq<char>, sep: char)
    requires
        forall|i: int| 0 <= i < y.len() ==> y[i] != sep,
    ensures
        split(x + seq![sep] + y, sep) == split(x, sep).push(y),
{
    let xs = x + seq![sep];
    assert(xs.drop_last() =~= x);
    assert(split(xs, sep) == split(x, sep).push(Seq::empty()));
    lemma_split_append_plain(xs, y, sep);
    assert(Seq::<char>::empty() + y =~= y);
    assert(split(x, sep).push(Seq::empty()).update(split(x, sep).len() as int, y) =~= split(x, sep).push(y));
}

/// Text without separators is one piece.
pub proof fn lemma_split_plain(y: Seq<char>, sep: char)
    requires
        forall|i: int| 0 <= i < y.len() ==> y[i] != sep,
    ensures
        split(y, sep) == seq![y],
{
    lemma_split_append_plain(Seq::empty(), y, sep);
    assert(Seq::<char>::empty() + y =~= y);
    assert(split(Seq::<char>::empty(), sep) == seq![Seq::<char>::empty()]);
    assert(seq![Seq::<char>::empty()].update(0, Seq::<char>::empty() + y) =~= seq![y]);
}

/// Splitting keys joined with `,` gives back the keys, where none holds a `,`.
pub proof fn lemma_split_join(keys: Seq<Seq<char>>)
    requires
        keys.len() >= 1,
        forall|k: int, i: int| 0 <= k < keys.len() && 0 <= i < keys[k].len() ==> keys[k][i] != ',',
    ensures
        split(join_keys(keys), ',') == keys,
        forall|i: int| 0 <= i < join_keys(keys).len() ==> join_keys(keys)[i] != ':' || exists|k: int, j: int|
            0 <= k < keys.len() && 0 <= j < keys[k].len() && keys[k][j] == ':',
    decreases keys.len(),
{
    if keys.len() == 1 {
        lemma_split_plain(keys[0], ',');
        assert(seq![keys[0]] =~= keys);
        assert forall|i: int| 0 <= i < join_keys(keys).len() implies join_keys(keys)[i] != ':' || exists|k: int, j: int|
            0 <= k < keys.len() && 0 <= j < keys[k].len() && keys[k][j] == ':' by {
            if join_keys(keys)[i] == ':' {
                assert(keys[0][i] == ':');
            }
        }
    } else {
        let dl = keys.drop_last();
        lemma_split_join(dl);
        lemma_split_sep_plain(join_keys(dl), keys.last(), ',');
        assert(dl.push(keys.last()) =~= keys);
        let jk = join_keys(keys);
        let jd = join_keys(dl);
        assert forall|i: int| 0 <= i < jk.len() implies jk[i] != ':' || exists|k: int, j: int|
            0 <= k < keys.len() && 0 <= j < keys[k].len() && keys[k][j] == ':' by {
            if jk[i] == ':' {
                if i < jd.len() {
                    assert(jd[i] == ':');
                    let (k, j) = choose|k: int, j: int| 0 <= k < dl.len() && 0 <= j < dl[k].len() && dl[k][j] == ':';
                    assert(keys[k][j] == ':');
                } else if i > jd.len() {
                    assert(keys[keys.len() - 1][i - jd.len() - 1] == ':');
                }
            }
        }
    }
}

/// Parsing the text of a configuration gives back its `share`, `m` and keys, where
/// there is at least one key and no key holds a `,` or a `:`.
pub proof fn lemma_key_config_roundtrip(share: u64, m: u64, keys: Seq<Seq<char>>)
    requires
        keys.len() >= 1,
        forall|k: int, i: int| 0 <= k < keys.len() && 0 <= i < keys[k].len() ==> keys[k][i] != ',' && keys[k][i] != ':',
    ensures
        key_config_spec(format_key_config(share, m, keys)) == Ok::<(u64, u64, Seq<Seq<char>>), KeyConfigError>(
            (share, m, keys),
        ),
{
    let ds = decimal(share as nat);
    let dm = decimal(m as nat);
    lemma_digits_decimal(share as nat);
    lemma_digits_decimal(m as nat);
    lemma_split_join(keys);
    let jk = join_keys(keys);
    let x = ds + seq![','] + dm;
    assert forall|i: int| 0 <= i < jk.len() implies jk[i] != ':' by {
        if jk[i] == ':' {
            let (k, j) = choose|k: int, j: int| 0 <= k < keys.len() && 0 <= j < keys[k].len() && keys[k][j] == ':';
        }
    }
    assert forall|i: int| 0 <= i < x.len() implies x[i] != ':' by {
        if i < ds.len() {
            assert(is_digit(ds[i]));
        } else if i > ds.len() {
            assert(is_digit(dm[i - ds.len() - 1]));
        }
    }
    assert(format_key_config(share, m, keys) =~= x + seq![':'] + jk);
    lemma_split_sep_plain(x, jk, ':');
    lemma_split_plain(x, ':');
    assert(seq![x].push(jk) =~= seq![x, jk]);
    assert forall|i: int| 0 <= i < dm.len() implies dm[i] != ',' by {
        assert(is_digit(dm[i]));
    }
    assert forall|i: int| 0 <= i < ds.len() implies ds[i] != ',' by {
        assert(is_digit(ds[i]));
    }
    lemma_split_sep_plain(ds, dm, ',');
    lemma_split_plain(ds, ',');
    assert(seq![ds].push(dm) =~= seq![ds, dm]);
    assert(ds[0] != '+') by {
        assert(is_digit(ds[0]));
    }
    assert(dm[0] != '+') by {
        assert(is_digit(dm[0]));
    }
}

/// The message of a failure, as a string.
fn key_config_error_message(e: KeyConfigError) -> (r: String)
    ensures
        r@ == key_config_message(e),
{
    match e {
        KeyConfigError::Format => "Invalid format. Expected 'share,m:key1,key2,key3'".to_owned(),
        KeyConfigError::ShareM => "Invalid share,m format".to_owned(),
        KeyConfigError::Int(ParseIntErrorKind::Empty) => "cannot parse integer from empty string".to_owned(),
        KeyConfigError::Int(ParseIntErrorKind::InvalidDigit) => "invalid digit found in string".to_owned(),
        KeyConfigError::Int(ParseIntErrorKind::PosOverflow) => "number too large to fit in target type".to_owned(),
    }
}

impl MiningKeyConfig {
    /// Parses `share,m:key1,key2,key3`; the error is the message of the first failure.
    pub fn parse(s: &str) -> (r: Result<MiningKeyConfig, String>)
        ensures
            match r {
                Ok(c) => key_config_spec(s@) == Ok::<(u64, u64, Seq<Seq<char>>), KeyConfigError>(
                    (c.share, c.m, c.keys@.map_values(|k: String| k@)),
                ),
                Err(msg) => key_config_spec(s@) matches Err(e) && msg@ == key_config_message(e),
            },
    {
        match Self::parse_config(s) {
            Ok(c) => Ok(c),
            Err(e) => Err(key_config_error_message(e)),
        }
    }

    /// Parses `share,m:key1,key2,key3`.
    pub fn parse_config(s: &str) -> (r: Result<MiningKeyConfig, KeyConfigError>)
        ensures
            match r {
                Ok(c) => key_config_spec(s@) == Ok::<(u64, u64, Seq<Seq<char>>), KeyConfigError>(
                    (c.share, c.m, c.keys@.map_values(|k: String| k@)),
                ),
                Err(e) => key_config_spec(s@) == Err::<(u64, u64, Seq<Seq<char>>), KeyConfigError>(e),
            },
    {
        let chars = str_chars(s);
        let parts = split_chars(&chars, ':');
        proof {
            assert(parts@.map_values(|v: Vec<char>| v@).len() == parts.len());
        }
        if parts.len() != 2 {
            return Err(KeyConfigError::Format);
        }
        let share_m = split_chars(&parts[0], ',');
        proof {
            assert(parts@.map_values(|v: Vec<char>| v@)[0] == parts[0]@);
            assert(parts@.map_values(|v: Vec<char>| v@)[1] == parts[1]@);
            assert(share_m@.map_values(|v: Vec<char>| v@).len() == share_m.len());
        }
        if share_m.len() != 2 {
            return Err(KeyConfigError::ShareM);
        }
        proof {
            assert(share_m@.map_values(|v: Vec<char>| v@)[0] == share_m[0]@);
            assert(share_m@.map_values(|v: Vec<char>| v@)[1] == share_m[1]@);
        }
        let share = match parse_u64(&share_m[0]) {
            Ok(v) => v,
            Err(e) => {
                return Err(KeyConfigError::Int(e));
            },
        };
        let m = match parse_u64(&share_m[1]) {
            Ok(v) => v,
            Err(e) => {
                return Err(KeyConfigError::Int(e));
            },
        };
        let key_chars = split_chars(&parts[1], ',');
        let mut keys: Vec<String> = Vec::new();
        let mut i: usize = 0;
        while i < key_chars.len()
            invariant
                i <= key_chars.len(),
                keys.len() == i,
                forall|j: int| 0 <= j < i ==> (#[trigger] keys[j])@ == key_chars[j]@,
            decreases key_chars.len() - i,
        {
            keys.push(string_from_chars(&key_chars[i]));
            i = i + 1;
        }
        proof {
            assert(keys@.map_values(|k: String| k@) =~= key_chars@.map_values(|v: Vec<char>| v@));
        }
        Ok(MiningKeyConfig { share, m, keys })
    }
}

impl std::str::FromStr for MiningKeyConfig {
    type Err = String;

    /// Parses `share,m:key1,key2,key3`, as `MiningKeyConfig::parse` does.
    fn from_str(s: &str) -> (r: Result<Self, Self::Err>)
        ensures
            match r {
                Ok(c) => key_config_spec(s@) == Ok::<(u64, u64, Seq<Seq<char>>), KeyConfigError>(
                    (c.share, c.m, c.keys@.map_values(|k: String| k@)),
                ),
                Err(msg) => key_config_spec(s@) matches Err(e) && msg@ == key_config_message(e),
            },
    {
        MiningKeyConfig::parse(s)
    }
}

/// The kernel pool configuration for mining on a machine with `num_cpus` threads:
/// at least half the threads (and at least 4) kernels, at most three quarters of the
/// threads (and at least 8), refreshed after ten minutes or 50 uses, with a
/// thirty-second checkout timeout (durations in nanoseconds).
pub fn mining_pool_config(num_cpus: usize) -> (r: KernelPoolConfig)
    requires
        num_cpus * 3 <= usize::MAX,
    ensures
        r.min_size == if num_cpus / 2 > 4 { num_cpus / 2 } else { 4 },
        r.max_size == if (num_cpus * 3) / 4 > 8 { (num_cpus * 3) / 4 } else { 8 },
        r.max_kernel_age == 600_000_000_000,
        r.max_kernel_usage == 50,
        r.checkout_timeout == 30_000_000_000,
{
    let half = num_cpus / 2;
    let min_kernels = if half > 4 { half } else { 4 };
    let three_quarters = (num_cpus * 3) / 4;
    let max_kernels = if three_quarters > 8 { three_quarters } else { 8 };
    KernelPoolConfig {
        min_size: min_kernels,
        max_size: max_kernels,
        max_kernel_age: 600_000_000_000,
        max_kernel_usage: 50,
        checkout_timeout: 30_000_000_000,
    }
}

/// The atom of a tag (a string, read as little-endian bytes).
pub open spec fn tag_v(s: &str) -> NounV {
    cord_v(encode_utf8(s@))
}

/// The atom of a tag.
pub fn tag(s: &str) -> (r: Noun)
    ensures
        r@ == tag_v(s),
{
    cord(s.as_bytes())
}

/// `[%command %set-mining-key pubkey]`.
pub open spec fn set_mining_key_poke_v(pubkey: Seq<char>) -> NounV {
    NounV::Cell(
        Box::new(tag_v("command")),
        Box::new(NounV::Cell(Box::new(tag_v("set-mining-key")), Box::new(cord_v(encode_utf8(pubkey))))),
    )
}

/// The poke that sets the mining public key.
pub fn set_mining_key_poke(pubkey: &str) -> (r: Noun)
    ensures
        r@ == set_mining_key_poke_v(pubkey@),
{
    let pubkey_cord = cord(pubkey.as_bytes());
    Noun::cell(tag("command"), Noun::cell(tag("set-mining-key"), pubkey_cord))
}

/// The list built by consing the items in order onto the empty list: the items in
/// reverse order.
pub open spec fn consed(items: Seq<NounV>) -> NounV
    decreases items.len(),
{
    if items.len() == 0 {
        direct(0)
    } else {
        NounV::Cell(Box::new(items.last()), Box::new(consed(items.drop_last())))
    }
}

/// The atoms of the keys of a configuration.
pub open spec fn key_atoms(keys: Seq<String>) -> Seq<NounV> {
    Seq::new(keys.len(), |i: int| cord_v(encode_utf8(keys[i]@)))
}

/// `[share m keys]` for a configuration, the keys consed in order.
pub open spec fn config_tuple_v(c: MiningKeyConfig) -> NounV {
    NounV::Cell(
        Box::new(direct(c.share)),
        Box::new(NounV::Cell(Box::new(direct(c.m)), Box::new(consed(key_atoms(c.keys@))))),
    )
}

/// `[%command %set-mining-key-advanced configs]`, the configurations consed in order.
pub open spec fn set_mining_key_advanced_poke_v(configs: Seq<MiningKeyConfig>) -> NounV {
    NounV::Cell(
        Box::new(tag_v("command")),
        Box::new(NounV::Cell(
            Box::new(tag_v("set-mining-key-advanced")),
            Box::new(consed(Seq::new(configs.len(), |i: int| config_tuple_v(configs[i])))),
        )),
    )
}

/// Whether every `share` and `m` of the configurations is a direct atom (below
/// `2^63`).
pub open spec fn configs_direct(configs: Seq<MiningKeyConfig>) -> bool {
    forall|i: int| 0 <= i < configs.len() ==> (#[trigger] configs[i]).share <= DIRECT_MAX && configs[i].m <= DIRECT_MAX
}

/// The largest direct atom.
pub const DIRECT_MAX: u64 = 0x7fff_ffff_ffff_ffff;

/// Consing items onto the empty list one by one gives the list of them in reverse.
pub proof fn lemma_consed_list(items: Seq<NounV>)
    ensures
        list_v(consed(items)) == Some(items.reverse()),
    decreases items.len(),
{
    if items.len() == 0 {
        assert(crate::noun::limbs_u64(Seq::<u64>::empty()) == Some(0u64));
        assert(items.reverse() =~= Seq::<NounV>::empty());
    } else {
        lemma_consed_list(items.drop_last());
        assert(seq![items.last()] + items.drop_last().reverse() =~= items.reverse());
    }
}

/// Whether a list entry is `[share m keys]` for the configuration: its share, its m,
/// and a list of all its keys, last key first.
pub open spec fn config_entry_holds(item: NounV, c: MiningKeyConfig) -> bool {
    match item {
        NounV::Cell(sh, r) => *sh == direct(c.share) && match *r {
            NounV::Cell(mm, k) => *mm == direct(c.m) && match list_v(*k) {
                Some(ks) => ks.len() == c.keys.len() && forall|j: int|
                    0 <= j < ks.len() ==> #[trigger] ks[j] == cord_v(encode_utf8(c.keys[c.keys.len() - 1 - j]@)),
                None => false,
            },
            _ => false,
        },
        _ => false,
    }
}

/// Whether a poke is `[%command %set-mining-key-advanced list]` with one entry per
/// configuration, last configuration first.
pub open spec fn advanced_poke_holds(poke: NounV, configs: Seq<MiningKeyConfig>) -> bool {
    match poke {
        NounV::Cell(h, t) => *h == tag_v("command") && match *t {
            NounV::Cell(h2, l) => *h2 == tag_v("set-mining-key-advanced") && match list_v(*l) {
                Some(items) => items.len() == configs.len() && forall|i: int|
                    0 <= i < configs.len() ==> config_entry_holds(#[trigger] items[i], configs[configs.len() - 1 - i]),
                None => false,
            },
            _ => false,
        },
        _ => false,
    }
}

/// The key poke of the mining setup: with anything but a single configuration of
/// share 1, m 1 and one key (in particular with two or more configurations), it is
/// `[%command %set-mining-key-advanced list]`, the list holding one `[share m keys]`
/// per configuration, last configuration first, each with all its keys, last key
/// first; with a single such configuration it is `[%command %set-mining-key key]`.
/// Mining is enabled or not by the second poke as `mine` says.
pub proof fn lemma_setup_key_poke(configs: Seq<MiningKeyConfig>, mine: bool)
    ensures
        setup_pokes_spec(Some(configs), mine).len() == 2,
        setup_pokes_spec(Some(configs), mine)[0].0 == MiningWire::SetPubKey,
        setup_pokes_spec(Some(configs), mine)[1] == (MiningWire::Enable, enable_mining_poke_v(mine)),
        configs.len() == 1 && configs[0].share == 1 && configs[0].m == 1 && configs[0].keys.len() == 1
            ==> setup_pokes_spec(Some(configs), mine)[0].1 == NounV::Cell(
                Box::new(tag_v("command")),
                Box::new(NounV::Cell(Box::new(tag_v("set-mining-key")), Box::new(cord_v(encode_utf8(configs[0].keys[0]@))))),
            ),
        !(configs.len() == 1 && configs[0].share == 1 && configs[0].m == 1 && configs[0].keys.len() == 1)
            ==> advanced_poke_holds(setup_pokes_spec(Some(configs), mine)[0].1, configs),
{
    let tuples = Seq::new(configs.len(), |i: int| config_tuple_v(configs[i]));
    lemma_consed_list(tuples);
    assert forall|i: int| 0 <= i < configs.len() implies
        config_entry_holds(#[trigger] tuples.reverse()[i], configs[configs.len() - 1 - i]) by {
        let c = configs[configs.len() - 1 - i];
        assert(tuples.reverse()[i] == config_tuple_v(c));
        lemma_consed_list(key_atoms(c.keys@));
    }
}

/// The noun of one configuration.
fn config_tuple(c: &MiningKeyConfig) -> (r: Noun)
    ensures
        r@ == config_tuple_v(*c),
{
    let ghost ka = key_atoms(c.keys@);
    let mut keys_noun = Noun::direct(0);
    let mut i: usize = 0;
    proof {
        assert(ka.take(0) =~= Seq::<NounV>::empty());
    }
    while i < c.keys.len()
        invariant
            ka == key_atoms(c.keys@),
            i <= c.keys.len(),
            keys_noun@ == consed(ka.take(i as int)),
        decreases c.keys.len() - i,
    {
        let key_atom = cord(c.keys[i].as_str().as_bytes());
        keys_noun = Noun::cell(key_atom, keys_noun);
        proof {
            assert(ka.take(i + 1).drop_last() =~= ka.take(i as int));
            assert(ka.take(i + 1).last() == ka[i as int]);
        }
        i = i + 1;
    }
    proof {
        assert(ka.take(c.keys.len() as int) =~= ka);
    }
    Noun::cell(Noun::direct(c.share), Noun::cell(Noun::direct(c.m), keys_noun))
}

/// The poke that sets several mining key configurations.
pub fn set_mining_key_advanced_poke(configs: &Vec<MiningKeyConfig>) -> (r: Noun)
    requires
        configs_direct(configs@),
    ensures
        r@ == set_mining_key_advanced_poke_v(configs@),
{
    let ghost items = Seq::new(configs@.len(), |i: int| config_tuple_v(configs@[i]));
    let mut configs_list = Noun::direct(0);
    let mut i: usize = 0;
    proof {
        assert(items.take(0) =~= Seq::<NounV>::empty());
    }
    while i < configs.len()
        invariant
            items == Seq::new(configs@.len(), |i: int| config_tuple_v(configs@[i])),
            i <= configs.len(),
            configs_list@ == consed(items.take(i as int)),
        decreases configs.len() - i,
    {
        let t = config_tuple(&configs[i]);
        configs_list = Noun::cell(t, configs_list);
        proof {
            assert(items.take(i + 1).drop_last() =~= items.take(i as int));
            assert(items.take(i + 1).last() == items[i as int]);
        }
        i = i + 1;
    }
    proof {
        assert(items.take(configs.len() as int) =~= items);
    }
    Noun::cell(tag("command"), Noun::cell(tag("set-mining-key-advanced"), configs_list))
}

/// `[%command %enable-mining flag]`, the flag being 0 (yes) to enable and 1 (no) to
/// disable.
pub open spec fn enable_mining_poke_v(enable: bool) -> NounV {
    NounV::Cell(
        Box::new(tag_v("command")),
        Box::new(NounV::Cell(Box::new(tag_v("enable-mining")), Box::new(direct(if enable { 0 } else { 1 })))),
    )
}

/// The poke that enables or disables mining.
pub fn enable_mining_poke(enable: bool) -> (r: Noun)
    ensures
        r@ == enable_mining_poke_v(enable),
{
    Noun::cell(tag("command"), Noun::cell(tag("enable-mining"), Noun::direct(if enable { 0 } else { 1 })))
}

/// Whether a configuration list is a single configuration with share 1, m 1 and one
/// key, which is set with the simple poke.
pub open spec fn single_simple_key(configs: Seq<MiningKeyConfig>) -> bool {
    configs.len() == 1 && configs[0].share == 1 && configs[0].m == 1 && configs[0].keys.len() == 1
}

/// The pokes that set up the mining driver, in order: without configurations, only
/// the poke that disables mining; with one configuration of share 1, m 1 and one key,
/// the simple key poke; with others, the advanced key poke; then the poke that enables
/// mining or not as `mine` says.
pub open spec fn setup_pokes_spec(mining_config: Option<Seq<MiningKeyConfig>>, mine: bool) -> Seq<(MiningWire, NounV)> {
    match mining_config {
        None => seq![(MiningWire::Enable, enable_mining_poke_v(false))],
        Some(configs) => seq![
            (MiningWire::SetPubKey, if single_simple_key(configs) {
                set_mining_key_poke_v(configs[0].keys[0]@)
            } else {
                set_mining_key_advanced_poke_v(configs)
            }),
            (MiningWire::Enable, enable_mining_poke_v(mine)),
        ],
    }
}

/// The pokes that set up the mining driver, in order.
pub fn mining_setup_pokes(mining_config: &Option<Vec<MiningKeyConfig>>, mine: bool) -> (r: Vec<(MiningWire, Noun)>)
    requires
        mining_config matches Some(cs) ==> configs_direct(cs@),
    ensures
        r@.map_values(|p: (MiningWire, Noun)| (p.0, p.1@)) == setup_pokes_spec(
            match mining_config {
                Some(cs) => Some(cs@),
                None => None,
            },
            mine,
        ),
{
    let mut pokes: Vec<(MiningWire, Noun)> = Vec::new();
    match mining_config {
        None => {
            pokes.push((MiningWire::Enable, enable_mining_poke(false)));
        },
        Some(configs) => {
            let key_poke = if configs.len() == 1 && configs[0].share == 1 && configs[0].m == 1 && configs[0].keys.len() == 1 {
                set_mining_key_poke(configs[0].keys[0].as_str())
            } else {
                set_mining_key_advanced_poke(configs)
            };
            pokes.push((MiningWire::SetPubKey, key_poke));
            pokes.push((MiningWire::Enable, enable_mining_poke(mine)));
        },
    }
    proof {
        let spec = setup_pokes_spec(
            match mining_config {
                Some(cs) => Some(cs@),
                None => None,
            },
            mine,
        );
        assert(pokes@.map_values(|p: (MiningWire, Noun)| (p.0, p.1@)) =~= spec);
    }
    pokes
}

/// Whether the driver goes on to mine after its setup: only with configurations and
/// with mining enabled.
pub fn starts_mining(mining_config: &Option<Vec<MiningKeyConfig>>, mine: bool) -> (r: bool)
    ensures
        r == (mining_config is Some && mine),
{
    match mining_config {
        Some(_) => mine,
        None => false,
    }
}

/// The candidate of a `[%mine candidate]` effect.
pub open spec fn mining_candidate_v(e: NounV) -> Option<NounV> {
    match e {
        NounV::Cell(h, t) => if is_cord(*h, encode_utf8("mine"@)) {
            Some(*t)
        } else {
            None
        },
        NounV::Atom(_) => None,
    }
}

/// The candidate block of a `[%mine candidate]` effect, copied.
pub fn mining_candidate(effect: &Noun) -> (r: Option<Noun>)
    ensures
        match r {
            Some(c) => mining_candidate_v(effect@) == Some(c@),
            None => mining_candidate_v(effect@) is None,
        },
{
    match effect {
        Noun::Atom(_) => None,
        Noun::Cell(h, t) => {
            proof {
                assert(effect@ == NounV::Cell(Box::new((**h)@), Box::new((**t)@)));
            }
            if eq_cord(&**h, "mine".as_bytes()) {
                Some((**t).copy())
            } else {
                None
            }
        },
    }
}

/// The numbering of mining work: a `[%mine candidate]` effect becomes work number
/// `counter + 1` on its candidate, and the counter moves on; any other effect leaves
/// the counter as it is and makes no work.
pub fn dispatch_step(counter: u64, effect: &Noun) -> (r: (u64, Option<(u64, Noun)>))
    requires
        counter < u64::MAX,
    ensures
        match mining_candidate_v(effect@) {
            Some(c) => {
                &&& r.0 == counter + 1
                &&& r.1 matches Some((id, n)) && id == counter + 1 && n@ == c
            },
            None => r.0 == counter && r.1 is None,
        },
{
    match mining_candidate(effect) {
        Some(candidate) => (counter + 1, Some((counter + 1, candidate))),
        None => (counter, None),
    }
}

/// The work a run of effects makes, numbered on from `counter`: each `[%mine c]`
/// effect in turn becomes the next number with its candidate; the counter ends at
/// the last number given.
pub open spec fn dispatched(counter: nat, effects: Seq<NounV>) -> (nat, Seq<(nat, NounV)>)
    decreases effects.len(),
{
    if effects.len() == 0 {
        (counter, Seq::empty())
    } else {
        let (c, w) = dispatched(counter, effects.drop_last());
        match mining_candidate_v(effects.last()) {
            Some(cand) => (c + 1, w.push((c + 1, cand))),
            None => (c, w),
        }
    }
}

/// The work of a run of effects is numbered `counter + 1, counter + 2, ...` with no
/// gap or repeat, one number per `[%mine c]` effect.
pub proof fn lemma_dispatched_numbering(counter: nat, effects: Seq<NounV>)
    ensures
        dispatched(counter, effects).0 == counter + dispatched(counter, effects).1.len(),
        dispatched(counter, effects).1.len() <= effects.len(),
        forall|i: int| 0 <= i < dispatched(counter, effects).1.len() ==> (#[trigger] dispatched(counter, effects).1[i]).0 == counter + i + 1,
    decreases effects.len(),
{
    if effects.len() > 0 {
        lemma_dispatched_numbering(counter, effects.drop_last());
    }
}

/// The numbered work of a batch of effects, in order.
pub fn dispatch_batch(counter: u64, effects: &Vec<Noun>) -> (r: (u64, Vec<(u64, Noun)>))
    requires
        counter + effects.len() <= u64::MAX,
    ensures
        r.0 == dispatched(counter as nat, effects@.map_values(|e: Noun| e@)).0,
        r.1@.map_values(|p: (u64, Noun)| (p.0 as nat, p.1@)) == dispatched(counter as nat, effects@.map_values(|e: Noun| e@)).1,
{
    let ghost ev = effects@.map_values(|e: Noun| e@);
    let mut c = counter;
    let mut work: Vec<(u64, Noun)> = Vec::new();
    let mut i: usize = 0;
    proof {
        assert(ev.take(0) =~= Seq::<NounV>::empty());
    }
    while i < effects.len()
        invariant
            ev == effects@.map_values(|e: Noun| e@),
            counter + effects.len() <= u64::MAX,
            i <= effects.len(),
            c == dispatched(counter as nat, ev.take(i as int)).0,
            work@.map_values(|p: (u64, Noun)| (p.0 as nat, p.1@)) == dispatched(counter as nat, ev.take(i as int)).1,
        decreases effects.len() - i,
    {
        proof {
            lemma_dispatched_numbering(counter as nat, ev.take(i as int));
            assert(ev.take(i + 1).drop_last() =~= ev.take(i as int));
            assert(ev.take(i + 1).last() == effects[i as int]@);
        }
        let (next, item) = dispatch_step(c, &effects[i]);
        match item {
            Some(x) => {
                let ghost before = work@.map_values(|p: (u64, Noun)| (p.0 as nat, p.1@));
                let ghost xv = (x.0 as nat, x.1@);
                work.push(x);
                proof {
                    assert(work@.map_values(|p: (u64, Noun)| (p.0 as nat, p.1@)) =~= before.push(xv));
                }
            },
            None => {},
        }
        c = next;
        i = i + 1;
    }
    proof {
        assert(ev.take(effects.len() as int) =~= ev);
    }
    (c, work)
}

/// The number of mining workers on a machine with `num_cpus` threads: three
/// quarters of the threads, and at least 8.
pub fn parallel_worker_count(num_cpus: usize) -> (r: usize)
    requires
        num_cpus * 3 <= usize::MAX,
    ensures
        r == if (num_cpus * 3) / 4 > 8 { (num_cpus * 3) / 4 } else { 8 },
{
    let three_quarters = (num_cpus * 3) / 4;
    if three_quarters > 8 {
        three_quarters
    } else {
        8
    }
}

/// Whether an effect is a `[%command ...]` effect, which is poked back as mined work.
pub open spec fn is_command_v(e: NounV) -> bool {
    match e {
        NounV::Cell(h, _) => is_cord(*h, encode_utf8("command"@)),
        NounV::Atom(_) => false,
    }
}

/// Whether an effect is a `[%command ...]` effect.
pub fn is_command_effect(effect: &Noun) -> (r: bool)
    ensures
        r == is_command_v(effect@),
{
    match effect {
        Noun::Atom(_) => false,
        Noun::Cell(h, t) => {
            proof {
                assert(effect@ == NounV::Cell(Box::new((**h)@), Box::new((**t)@)));
            }
            eq_cord(&**h, "command".as_bytes())
        },
    }
}

/// Whether a mining attempt found a solution: one of its effects is a command.
pub fn has_solution(effects: &Vec<Noun>) -> (r: bool)
    ensures
        r == exists|i: int| 0 <= i < effects.len() && is_command_v(#[trigger] effects[i]@),
{
    let mut i: usize = 0;
    while i < effects.len()
        invariant
            i <= effects.len(),
            forall|j: int| 0 <= j < i ==> !is_command_v(#[trigger] effects[j]@),
        decreases effects.len() - i,
    {
        if is_command_effect(&effects[i]) {
            return true;
        }
        i = i + 1;
    }
    false
}

/// The command effects among the effects, in order: those poked back as mined work.
pub open spec fn command_effects_v(effects: Seq<NounV>) -> Seq<NounV> {
    effects.filter(|e: NounV| is_command_v(e))
}

/// The command effects among the effects, in order.
pub fn command_effects(effects: Vec<Noun>) -> (r: Vec<Noun>)
    ensures
        r@.map_values(|e: Noun| e@) == command_effects_v(effects@.map_values(|e: Noun| e@)),
{
    let ghost ev = effects@.map_values(|e: Noun| e@);
    let mut out: Vec<Noun> = Vec::new();
    let mut rest = effects;
    let mut taken: Vec<Noun> = Vec::new();
    let mut i: usize = 0;
    let n = rest.len();
    proof {
        assert(ev.take(0) =~= Seq::<NounV>::empty());
        reveal(Seq::filter);
        assert(ev.take(0).filter(|e: NounV| is_command_v(e)) =~= Seq::<NounV>::empty());
    }
    while i < n
        invariant
            n == ev.len(),
            i <= n,
            rest.len() == n,
            ev == rest@.map_values(|e: Noun| e@),
            out@.map_values(|e: Noun| e@) == ev.take(i as int).filter(|e: NounV| is_command_v(e)),
        decreases n - i,
    {
        let keep = is_command_effect(&rest[i]);
        proof {
            assert(ev.take(i + 1).drop_last() =~= ev.take(i as int));
            assert(ev.take(i + 1).last() == rest[i as int]@);
            reveal(Seq::filter);
        }
        if keep {
            let ghost before = out@.map_values(|e: Noun| e@);
            out.push(rest[i].copy());
            proof {
                assert(out@.map_values(|e: Noun| e@) =~= before.push(ev[i as int]));
            }
        }
        i = i + 1;
    }
    proof {
        assert(ev.take(n as int) =~= ev);
    }
    out
}

/// The effects of a mining attempt if it found a solution.
pub fn attempt_outcome(effects: Vec<Noun>) -> (r: Option<Vec<Noun>>)
    ensures
        match r {
            Some(v) => v@ == effects@ && exists|i: int| 0 <= i < effects.len() && is_command_v(#[trigger] effects[i]@),
            None => !exists|i: int| 0 <= i < effects.len() && is_command_v(#[trigger] effects[i]@),
        },
{
    if has_solution(&effects) {
        Some(effects)
    } else {
        None
    }
}

/// The items of a list of effects: the heads of the cells along its tails, up to the
/// first atom.
pub open spec fn list_heads(n: NounV) -> Seq<NounV>
    decreases n,
{
    match n {
        NounV::Atom(_) => Seq::empty(),
        NounV::Cell(h, t) => seq![*h] + list_heads(*t),
    }
}

/// The items of a list of effects, copied.
pub fn effects_to_vec(list: &Noun) -> (r: Vec<Noun>)
    ensures
        r@.map_values(|e: Noun| e@) == list_heads(list@),
{
    let mut out: Vec<Noun> = Vec::new();
    let mut cur: &Noun = list;
    loop
        invariant
            list_heads(list@) == out@.map_values(|e: Noun| e@) + list_heads(cur@),
        decreases crate::noun::nsize(cur@),
    {
        match cur {
            Noun::Atom(_) => {
                proof {
                    assert(cur@ is Atom);
                    assert(out@.map_values(|e: Noun| e@) + Seq::<NounV>::empty() =~= out@.map_values(|e: Noun| e@));
                }
                return out;
            },
            Noun::Cell(h, t) => {
                proof {
                    assert(cur@ == NounV::Cell(Box::new((**h)@), Box::new((**t)@)));
                }
                let ghost before = out@.map_values(|e: Noun| e@);
                out.push((**h).copy());
                proof {
                    assert(out@.map_values(|e: Noun| e@) =~= before.push((**h)@));
                    assert(before + (seq![(**h)@] + list_heads((**t)@)) =~= out@.map_values(|e: Noun| e@) + list_heads((**t)@));
                }
                cur = &**t;
            },
        }
    }
}

/// A variation of a candidate: `[candidate variation_id]`.
pub fn create_candidate_variation(base_candidate: &Noun, variation_id: u64) -> (r: Noun)
    ensures
        r@ == NounV::Cell(Box::new(base_candidate@), Box::new(direct(variation_id))),
{
    Noun::cell(base_candidate.copy(), Noun::direct(variation_id))
}

/// The characters of a string.
pub fn str_chars(s: &str) -> (r: Vec<char>)
    ensures
        r@ == s@,
{
    let mut out: Vec<char> = Vec::new();
    for c in it: s.chars()
        invariant
            out@ == it.seq().take(it.index() as int),
    {
        out.push(c);
    }
    out
}

} // verus!
