//! Negotiation: parses `Accept-Encoding` directive tokens into a weighted
//! preference table and selects the best supported compression scheme.
//!
//! Quality weights are held in thousandths: a directive `q=0.8` becomes the
//! weight `800`, and a bare token gets the default weight `1000`.

use vstd::prelude::*;

use crate::compressors::Compressor;
use crate::compressors::spec_compressor_of;

verus! {

/// Why negotiation or compression failed. The value is opaque to the host,
/// which only surfaces `description`.
#[derive(Debug, Clone, PartialEq, Eq)]
pub enum CompressError {
    /// No supported scheme with a positive weight was requested.
    NoCompressor,
    /// An encoder failed while rewriting the body; carries its message.
    CompressionFailure(String),
}

impl CompressError {
    /// A human-readable account of the failure.
    pub fn description(&self) -> (r: String)
        ensures
            *self is NoCompressor ==> r@ == "No compressor supported for the requested encodings."@,
            forall|m: String| *self == CompressError::CompressionFailure(m) ==> r@ == m@,
    {
        match self {
            CompressError::NoCompressor => "No compressor supported for the requested encodings.".to_owned(),
            CompressError::CompressionFailure(m) => m.clone(),
        }
    }
}

/// How many times `c` occurs in `s`.
pub open spec fn count_of(s: Seq<char>, c: char) -> nat
    decreases s.len(),
{
    if s.len() == 0 {
        0
    } else {
        count_of(s.drop_last(), c) + (if s.last() == c {
            1nat
        } else {
            0nat
        })
    }
}

/// The index of the first occurrence of `c` in `s`, or `-1` if there is none.
pub open spec fn first_index_of(s: Seq<char>, c: char) -> int
    decreases s.len(),
{
    if s.len() == 0 {
        -1
    } else {
        let r = first_index_of(s.drop_last(), c);
        if r >= 0 {
            r
        } else if s.last() == c {
            s.len() - 1
        } else {
            -1
        }
    }
}

pub proof fn lemma_first_index_of(s: Seq<char>, c: char)
    ensures
        first_index_of(s, c) == -1 <==> count_of(s, c) == 0,
        first_index_of(s, c) >= 0 ==> first_index_of(s, c) < s.len() && s[first_index_of(s, c)]
            == c,
    decreases s.len(),
{
    if s.len() > 0 {
        lemma_first_index_of(s.drop_last(), c);
    }
}

/// Whether `c` is a decimal digit.
pub open spec fn is_digit(c: char) -> bool {
    48 <= c as u32 <= 57
}

/// The value of a decimal digit.
pub open spec fn digit_val(c: char) -> int {
    c as u32 - 48
}

/// Every character of `s` is a decimal digit.
pub open spec fn all_digits(s: Seq<char>) -> bool {
    forall|i: int| 0 <= i < s.len() ==> is_digit(s[i])
}

/// The value of `s` read as a decimal numeral.
pub open spec fn digits_val(s: Seq<char>) -> int
    decreases s.len(),
{
    if s.len() == 0 {
        0
    } else {
        digits_val(s.drop_last()) * 10 + digit_val(s.last())
    }
}

pub proof fn lemma_digits_val_nonneg(s: Seq<char>)
    requires
        all_digits(s),
    ensures
        digits_val(s) >= 0,
    decreases s.len(),
{
    if s.len() > 0 {
        assert(forall|i: int| 0 <= i < s.len() - 1 ==> s.drop_last()[i] == s[i]);
        lemma_digits_val_nonneg(s.drop_last());
    }
}

/// A numeral's value never shrinks as digits are appended.
pub proof fn lemma_digits_val_prefix_le(s: Seq<char>, m: int)
    requires
        all_digits(s),
        0 <= m <= s.len(),
    ensures
        digits_val(s.take(m)) <= digits_val(s),
    decreases s.len(),
{
    if m < s.len() {
        assert(forall|i: int| 0 <= i < s.len() - 1 ==> s.drop_last()[i] == s[i]);
        lemma_digits_val_prefix_le(s.drop_last(), m);
        assert(s.drop_last().take(m) =~= s.take(m));
        lemma_digits_val_nonneg(s.drop_last());
    } else {
        assert(s.take(m) =~= s);
    }
}

/// The first three fractional digits of a numeral, as thousandths; shorter
/// fractions are padded with zeros and further digits are ignored.
pub open spec fn frac_thousandths(f: Seq<char>) -> int {
    if f.len() >= 3 {
        digits_val(f.take(3))
    } else if f.len() == 2 {
        digits_val(f) * 10
    } else if f.len() == 1 {
        digits_val(f) * 100
    } else {
        0
    }
}

/// A quality value read as thousandths: a decimal numeral with an optional
/// fractional part (`"0.8"` is `800`, `"1"` is `1000`). Anything else —
/// other characters, no digit at all, or a value too large for `u64`
/// thousandths — yields `None`.
pub open spec fn spec_qvalue(s: Seq<char>) -> Option<u64> {
    let dots = count_of(s, '.');
    if dots == 0 {
        if s.len() > 0 && all_digits(s) && digits_val(s) * 1000 <= u64::MAX {
            Some((digits_val(s) * 1000) as u64)
        } else {
            None
        }
    } else if dots == 1 {
        let d = first_index_of(s, '.');
        let ipart = s.take(d);
        let fpart = s.skip(d + 1);
        if s.len() > 1 && all_digits(ipart) && all_digits(fpart) && digits_val(ipart) * 1000
            + frac_thousandths(fpart) <= u64::MAX {
            Some((digits_val(ipart) * 1000 + frac_thousandths(fpart)) as u64)
        } else {
            None
        }
    } else {
        None
    }
}

/// Counts the occurrences of `target` among the characters `[from, to)` of
/// `s` and locates the first one; `first` is `to` when there is none.
fn scan_char(s: &str, from: usize, to: usize, target: char) -> (r: (usize, usize))
    requires
        from <= to <= s@.len(),
    ensures
        ({
            let d = s@.subrange(from as int, to as int);
            &&& r.0 == count_of(d, target)
            &&& (count_of(d, target) == 0 ==> r.1 == to)
            &&& (count_of(d, target) > 0 ==> from <= r.1 < to && r.1 - from == first_index_of(
                d,
                target,
            ))
        }),
{
    let ghost d = s@.subrange(from as int, to as int);
    let mut cnt: usize = 0;
    let mut first: usize = to;
    let mut j: usize = from;
    while j < to
        invariant
            from <= j <= to <= s@.len(),
            d == s@.subrange(from as int, to as int),
            cnt <= j - from,
            cnt == count_of(d.take(j - from), target),
            cnt == 0 ==> first == to && first_index_of(d.take(j - from), target) == -1,
            cnt > 0 ==> from <= first < j && first - from == first_index_of(
                d.take(j - from),
                target,
            ),
        decreases to - j,
    {
        proof {
            assert(d.take(j + 1 - from).drop_last() =~= d.take(j - from));
            assert(d.take(j + 1 - from).last() == s@[j as int]);
        }
        if s.get_char(j) == target {
            if cnt == 0 {
                first = j;
            }
            cnt = cnt + 1;
        }
        j = j + 1;
    }
    proof {
        assert(d.take(to - from) =~= d);
    }
    (cnt, first)
}

/// Reads the characters `[from, to)` of `s` as a decimal numeral, capped at
/// `u64::MAX / 1000` so that a later scale to thousandths cannot overflow.
fn parse_digits(s: &str, from: usize, to: usize) -> (r: Option<u64>)
    requires
        from <= to <= s@.len(),
    ensures
        ({
            let d = s@.subrange(from as int, to as int);
            &&& (all_digits(d) && digits_val(d) <= u64::MAX / 1000 ==> r == Some(
                digits_val(d) as u64,
            ))
            &&& (all_digits(d) && digits_val(d) > u64::MAX / 1000 ==> r is None)
            &&& (!all_digits(d) ==> r is None)
            &&& (r matches Some(v) ==> all_digits(d) && v == digits_val(d) && digits_val(d)
                <= u64::MAX / 1000)
        }),
{
    let ghost d = s@.subrange(from as int, to as int);
    let limit: u64 = u64::MAX / 1000;
    let mut acc: u64 = 0;
    let mut j: usize = from;
    while j < to
        invariant
            from <= j <= to <= s@.len(),
            d == s@.subrange(from as int, to as int),
            limit == u64::MAX / 1000,
            all_digits(d.take(j - from)),
            acc == digits_val(d.take(j - from)),
            acc <= limit,
        decreases to - j,
    {
        proof {
            assert(d.take(j + 1 - from).drop_last() =~= d.take(j - from));
            assert(d.take(j + 1 - from).last() == s@[j as int]);
        }
        let u = s.get_char(j) as u32;
        if u < 48 || u > 57 {
            proof {
                assert(!is_digit(d[j - from]));
            }
            return None;
        }
        let dig = (u - 48) as u64;
        if acc > (limit - dig) / 10 {
            proof {
                let l = limit as int;
                let dg = dig as int;
                let a = acc as int;
                vstd::arithmetic::div_mod::lemma_fundamental_div_mod(l - dg, 10);
                vstd::arithmetic::div_mod::lemma_mod_bound(l - dg, 10);
                assert(a * 10 + dg > l);
                assert(digits_val(d.take(j + 1 - from)) == a * 10 + dg);
                if all_digits(d) {
                    lemma_digits_val_prefix_le(d, j + 1 - from);
                }
            }
            return None;
        }
        proof {
            let l = limit as int;
            let dg = dig as int;
            let a = acc as int;
            vstd::arithmetic::div_mod::lemma_fundamental_div_mod(l - dg, 10);
            vstd::arithmetic::div_mod::lemma_mod_bound(l - dg, 10);
            assert(a * 10 + dg <= l);
        }
        acc = acc * 10 + dig;
        j = j + 1;
    }
    proof {
        assert(d.take(to - from) =~= d);
    }
    Some(acc)
}

/// Reads the characters `[from, to)` of `s` as the fractional part of a
/// quality value, in thousandths.
fn parse_frac(s: &str, from: usize, to: usize) -> (r: Option<u64>)
    requires
        from <= to <= s@.len(),
    ensures
        ({
            let f = s@.subrange(from as int, to as int);
            &&& (all_digits(f) ==> r == Some(frac_thousandths(f) as u64))
            &&& (!all_digits(f) ==> r is None)
            &&& (r matches Some(v) ==> v <= 999)
        }),
{
    let ghost f = s@.subrange(from as int, to as int);
    let mut j: usize = from;
    while j < to
        invariant
            from <= j <= to <= s@.len(),
            f == s@.subrange(from as int, to as int),
            all_digits(f.take(j - from)),
        decreases to - j,
    {
        proof {
            assert(f.take(j + 1 - from).drop_last() =~= f.take(j - from));
            assert(f.take(j + 1 - from).last() == s@[j as int]);
        }
        let u = s.get_char(j) as u32;
        if u < 48 || u > 57 {
            proof {
                assert(!is_digit(f[j - from]));
            }
            return None;
        }
        j = j + 1;
    }
    proof {
        assert(f.take(to - from) =~= f);
    }
    let len = to - from;
    if len == 0 {
        Some(0)
    } else {
        proof {
            assert(f[0] == s@[from as int]);
            assert(is_digit(f[0]));
        }
        let d0 = s.get_char(from) as u32 - 48;
        proof {
            assert(f.take(1).drop_last() =~= f.take(0));
            assert(f.take(1).last() == f[0]);
            assert(digits_val(f.take(0)) == 0);
            assert(digits_val(f.take(1)) == digit_val(f[0]));
            assert(digit_val(f[0]) == d0);
        }
        if len == 1 {
            proof {
                assert(f.take(1) =~= f);
            }
            Some((d0 as u64) * 100)
        } else {
            proof {
                assert(f[1] == s@[from + 1]);
                assert(is_digit(f[1]));
            }
            let d1 = s.get_char(from + 1) as u32 - 48;
            proof {
                assert(f.take(2).drop_last() =~= f.take(1));
                assert(f.take(2).last() == f[1]);
                assert(digits_val(f.take(2)) == digit_val(f[0]) * 10 + digit_val(f[1]));
                assert(digit_val(f[1]) == d1);
            }
            if len == 2 {
                proof {
                    assert(f.take(2) =~= f);
                }
                Some((d0 as u64) * 100 + (d1 as u64) * 10)
            } else {
                proof {
                    assert(f[2] == s@[from + 2]);
                    assert(is_digit(f[2]));
                }
                let d2 = s.get_char(from + 2) as u32 - 48;
                proof {
                    assert(f.take(3).drop_last() =~= f.take(2));
                    assert(f.take(3).last() == f[2]);
                    assert(digits_val(f.take(3)) == digits_val(f.take(2)) * 10 + digit_val(f[2]));
                    assert(digit_val(f[2]) == d2);
                }
                Some((d0 as u64) * 100 + (d1 as u64) * 10 + (d2 as u64))
            }
        }
    }
}

/// Reads the characters `[from, to)` of `s` as a quality value in
/// thousandths, as `spec_qvalue` describes.
fn parse_qvalue(s: &str, from: usize, to: usize) -> (r: Option<u64>)
    requires
        from <= to <= s@.len(),
    ensures
        r == spec_qvalue(s@.subrange(from as int, to as int)),
{
    let ghost q = s@.subrange(from as int, to as int);
    let (dots, dfirst) = scan_char(s, from, to, '.');
    if dots == 0 {
        if to == from {
            return None;
        }
        match parse_digits(s, from, to) {
            None => {
                proof {
                    if all_digits(q) {
                        lemma_digits_val_nonneg(q);
                        lemma_thousandths_overflow(digits_val(q));
                    }
                }
                None
            },
            Some(v) => {
                proof {
                    lemma_thousandths_fit(v as int);
                }
                Some(v * 1000)
            },
        }
    } else if dots == 1 {
        if to - from <= 1 {
            return None;
        }
        proof {
            lemma_first_index_of(q, '.');
            assert(q.take(dfirst - from) =~= s@.subrange(from as int, dfirst as int));
            assert(q.skip(dfirst - from + 1) =~= s@.subrange(dfirst + 1, to as int));
        }
        let ghost ipart = q.take(dfirst - from);
        let ghost fpart = q.skip(dfirst - from + 1);
        match parse_digits(s, from, dfirst) {
            None => {
                proof {
                    if all_digits(ipart) && all_digits(fpart) {
                        lemma_thousandths_overflow(digits_val(ipart));
                        lemma_frac_thousandths_bounds(fpart);
                    }
                }
                None
            },
            Some(iv) => {
                match parse_frac(s, dfirst + 1, to) {
                    None => None,
                    Some(fv) => {
                        proof {
                            lemma_thousandths_fit(iv as int);
                            lemma_frac_thousandths_bounds(fpart);
                        }
                        let prod = iv * 1000;
                        if fv <= u64::MAX - prod {
                            Some(prod + fv)
                        } else {
                            proof {
                                assert(digits_val(ipart) * 1000 + frac_thousandths(fpart)
                                    > u64::MAX);
                            }
                            None
                        }
                    },
                }
            },
        }
    } else {
        None
    }
}

proof fn lemma_thousandths_fit(v: int)
    requires
        0 <= v <= u64::MAX / 1000,
    ensures
        v * 1000 <= u64::MAX,
{
    vstd::arithmetic::div_mod::lemma_fundamental_div_mod(u64::MAX as int, 1000);
    vstd::arithmetic::div_mod::lemma_mod_bound(u64::MAX as int, 1000);
    assert(v * 1000 <= (u64::MAX / 1000) * 1000);
}

proof fn lemma_thousandths_overflow(v: int)
    requires
        v > u64::MAX / 1000,
    ensures
        v * 1000 > u64::MAX,
{
    vstd::arithmetic::div_mod::lemma_fundamental_div_mod(u64::MAX as int, 1000);
    vstd::arithmetic::div_mod::lemma_mod_bound(u64::MAX as int, 1000);
    assert(v * 1000 >= (u64::MAX / 1000) * 1000 + 1000);
}

/// The fractional thousandths of an all-digit sequence lie in `[0, 999]`.
pub proof fn lemma_frac_thousandths_bounds(f: Seq<char>)
    requires
        all_digits(f),
    ensures
        0 <= frac_thousandths(f) <= 999,
{
    if f.len() >= 3 {
        let t = f.take(3);
        assert(t.drop_last() =~= f.take(2));
        assert(f.take(2).drop_last() =~= f.take(1));
        assert(f.take(1).drop_last() =~= f.take(0));
        assert(f.take(1).last() == f[0] && f.take(2).last() == f[1] && t.last() == f[2]);
        assert(is_digit(f[0]) && is_digit(f[1]) && is_digit(f[2]));
        assert(digits_val(f.take(0)) == 0);
        assert(digits_val(f.take(1)) == digit_val(f[0]));
        assert(digits_val(f.take(2)) == digit_val(f[0]) * 10 + digit_val(f[1]));
        assert(digits_val(t) == digits_val(f.take(2)) * 10 + digit_val(f[2]));
    } else if f.len() == 2 {
        assert(f.drop_last() =~= f.take(1));
        assert(f.take(1).drop_last() =~= f.take(0));
        assert(f.take(1).last() == f[0] && f.last() == f[1]);
        assert(is_digit(f[0]) && is_digit(f[1]));
        assert(digits_val(f.take(0)) == 0);
        assert(digits_val(f.take(1)) == digit_val(f[0]));
        assert(digits_val(f) == digit_val(f[0]) * 10 + digit_val(f[1]));
    } else if f.len() == 1 {
        assert(f.drop_last() =~= f.take(0));
        assert(f.last() == f[0]);
        assert(is_digit(f[0]));
        assert(digits_val(f.take(0)) == 0);
        assert(digits_val(f) == digit_val(f[0]));
    }
}

/// No two entries share a scheme key.
pub open spec fn table_wf(t: Seq<(Compressor, u64)>) -> bool {
    forall|i: int, j: int| 0 <= i < j < t.len() ==> t[i].0 != t[j].0
}

/// The index of the first entry keyed by `c`, or `-1` if there is none.
pub open spec fn key_index(t: Seq<(Compressor, u64)>, c: Compressor) -> int
    decreases t.len(),
{
    if t.len() == 0 {
        -1
    } else {
        let r = key_index(t.drop_last(), c);
        if r >= 0 {
            r
        } else if t.last().0 == c {
            t.len() - 1
        } else {
            -1
        }
    }
}

pub proof fn lemma_key_index(t: Seq<(Compressor, u64)>, c: Compressor)
    ensures
        key_index(t, c) == -1 <==> (forall|i: int| 0 <= i < t.len() ==> t[i].0 != c),
        key_index(t, c) >= 0 ==> key_index(t, c) < t.len() && t[key_index(t, c)].0 == c
            && (forall|i: int| 0 <= i < key_index(t, c) ==> t[i].0 != c),
    decreases t.len(),
{
    if t.len() > 0 {
        lemma_key_index(t.drop_last(), c);
        assert(forall|i: int| 0 <= i < t.len() - 1 ==> t[i] == t.drop_last()[i]);
    }
}

/// Inserting overwrites the weight at the key's first position, or appends
/// a new entry; insertion order over distinct keys is preserved.
pub open spec fn spec_insert(t: Seq<(Compressor, u64)>, c: Compressor, q: u64) -> Seq<
    (Compressor, u64),
> {
    let i = key_index(t, c);
    if i >= 0 {
        t.update(i, (c, q))
    } else {
        t.push((c, q))
    }
}

/// A preference table: schemes with their weights in thousandths, in
/// insertion order, one entry per scheme.
#[derive(Debug, Clone, PartialEq, Eq)]
pub struct EncodingPriorities {
    entries: Vec<(Compressor, u64)>,
}

impl View for EncodingPriorities {
    type V = Seq<(Compressor, u64)>;

    closed spec fn view(&self) -> Seq<(Compressor, u64)> {
        self.entries@
    }
}

impl EncodingPriorities {
    /// Keys are unique.
    pub open spec fn wf(&self) -> bool {
        table_wf(self@)
    }

    /// An empty table.
    pub fn new() -> (r: EncodingPriorities)
        ensures
            r@ == Seq::<(Compressor, u64)>::empty(),
            r.wf(),
    {
        EncodingPriorities { entries: Vec::new() }
    }

    /// The number of entries.
    pub fn len(&self) -> (n: usize)
        ensures
            n == self@.len(),
    {
        self.entries.len()
    }

    /// The entry at position `i`, in insertion order.
    pub fn get(&self, i: usize) -> (e: (Compressor, u64))
        requires
            i < self@.len(),
        ensures
            e == self@[i as int],
    {
        let p = self.entries[i];
        (p.0, p.1)
    }

    /// Sets the weight for `c`, overwriting in place or appending.
    pub fn insert(&mut self, c: Compressor, q: u64)
        requires
            old(self).wf(),
        ensures
            final(self)@ == spec_insert(old(self)@, c, q),
            final(self).wf(),
    {
        let n = self.entries.len();
        let mut j: usize = 0;
        while j < n
            invariant
                n == self@.len(),
                j <= n,
                self@ == old(self)@,
                table_wf(self@),
                forall|i: int| 0 <= i < j ==> self@[i].0 != c,
            decreases n - j,
        {
            if self.entries[j].0 == c {
                proof {
                    assert(old(self)@[j as int].0 == c);
                    lemma_key_index(old(self)@, c);
                    let ki = key_index(old(self)@, c);
                    if ki == -1 {
                        assert(old(self)@[j as int].0 != c);
                    } else if ki < j as int {
                        assert(old(self)@[ki].0 != c);
                    } else if ki > j as int {
                        assert(old(self)@[j as int].0 != c);
                    }
                    assert(ki == j as int);
                }
                self.entries.remove(j);
                self.entries.insert(j, (c, q));
                proof {
                    assert(self@ =~= old(self)@.update(j as int, (c, q)));
                    assert(forall|i: int| 0 <= i < self@.len() ==> self@[i].0
                        == old(self)@[i].0);
                }
                return ;
            }
            j = j + 1;
        }
        self.entries.push((c, q));
        proof {
            lemma_key_index(old(self)@, c);
            assert(key_index(old(self)@, c) == -1);
            assert(self@ =~= old(self)@.push((c, q)));
        }
    }
}


/// The table entry a single directive token contributes: a bare known
/// scheme gets the default weight `1000`; a token `scheme;q=<value>` with
/// exactly one `;` gets the parsed weight, the two characters after the
/// `;` (conventionally `q=`) being skipped without being inspected;
/// unknown schemes and malformed tokens contribute nothing.
pub open spec fn spec_token_entry(tok: Seq<char>) -> Option<(Compressor, u64)> {
    let semis = count_of(tok, ';');
    if semis == 0 {
        match spec_compressor_of(tok) {
            Some(c) => Some((c, 1000u64)),
            None => None,
        }
    } else if semis == 1 {
        let i = first_index_of(tok, ';');
        let scheme = tok.take(i);
        let param = tok.skip(i + 1);
        if param.len() < 2 {
            None
        } else {
            match spec_compressor_of(scheme) {
                Some(c) => match spec_qvalue(param.skip(2)) {
                    Some(q) => Some((c, q)),
                    None => None,
                },
                None => None,
            }
        }
    } else {
        None
    }
}

/// Reads one directive token, as `spec_token_entry` describes.
fn token_entry(tok: &str) -> (r: Option<(Compressor, u64)>)
    ensures
        r == spec_token_entry(tok@),
{
    let n = tok.unicode_len();
    let (semis, first) = scan_char(tok, 0, n, ';');
    proof {
        assert(tok@.subrange(0, n as int) =~= tok@);
    }
    if semis == 0 {
        match Compressor::from_str(tok) {
            Some(c) => Some((c, 1000)),
            None => None,
        }
    } else if semis == 1 {
        if n - (first + 1) < 2 {
            None
        } else {
            let scheme = tok.substring_char(0, first);
            proof {
                assert(scheme@ =~= tok@.take(first as int));
            }
            match Compressor::from_str(scheme) {
                Some(c) => {
                    proof {
                        assert(tok@.skip(first as int + 1).skip(2) =~= tok@.subrange(
                            first as int + 3,
                            n as int,
                        ));
                    }
                    match parse_qvalue(tok, first + 3, n) {
                        Some(q) => Some((c, q)),
                        None => None,
                    }
                },
                None => None,
            }
        }
    } else {
        None
    }
}

/// The table that a token sequence parses to: entries accumulate in token
/// order, later duplicates overwriting the weight at the first position.
pub open spec fn spec_parse(toks: Seq<Seq<char>>) -> Seq<(Compressor, u64)>
    decreases toks.len(),
{
    if toks.len() == 0 {
        Seq::empty()
    } else {
        let t = spec_parse(toks.drop_last());
        match spec_token_entry(toks.last()) {
            Some(e) => spec_insert(t, e.0, e.1),
            None => t,
        }
    }
}

pub proof fn lemma_spec_insert_wf(t: Seq<(Compressor, u64)>, c: Compressor, q: u64)
    requires
        table_wf(t),
    ensures
        table_wf(spec_insert(t, c, q)),
{
    lemma_key_index(t, c);
    let ki = key_index(t, c);
    if ki >= 0 {
        let u = t.update(ki, (c, q));
        assert(forall|i: int| 0 <= i < u.len() ==> u[i].0 == t[i].0);
    }
}

/// Every parsed table is well formed: one entry per scheme.
pub proof fn lemma_spec_parse_wf(toks: Seq<Seq<char>>)
    ensures
        table_wf(spec_parse(toks)),
    decreases toks.len(),
{
    if toks.len() > 0 {
        lemma_spec_parse_wf(toks.drop_last());
        match spec_token_entry(toks.last()) {
            Some(e) => lemma_spec_insert_wf(spec_parse(toks.drop_last()), e.0, e.1),
            None => {},
        }
    }
}

/// Parses `Accept-Encoding` directive tokens into a preference table, as
/// `spec_parse` describes. Malformed or unknown tokens are dropped; this
/// step never fails the request.
pub fn parse_accept_encoding(accept_encodings: &Vec<&str>) -> (r: Result<
    EncodingPriorities,
    CompressError,
>)
    ensures
        r matches Ok(p) && p@ == spec_parse(accept_encodings.deep_view()) && p.wf(),
{
    let ghost toks = accept_encodings.deep_view();
    let mut table = EncodingPriorities::new();
    let mut k: usize = 0;
    while k < accept_encodings.len()
        invariant
            k <= accept_encodings.len(),
            toks == accept_encodings.deep_view(),
            toks.len() == accept_encodings.len(),
            table@ == spec_parse(toks.take(k as int)),
            table.wf(),
        decreases accept_encodings.len() - k,
    {
        let tok: &str = accept_encodings[k];
        proof {
            assert(toks.take(k + 1).drop_last() =~= toks.take(k as int));
            assert(toks.take(k + 1).last() == toks[k as int]);
            assert(toks[k as int] == tok@);
        }
        match token_entry(tok) {
            Some(e) => table.insert(e.0, e.1),
            None => (),
        }
        k = k + 1;
    }
    proof {
        assert(toks.take(accept_encodings.len() as int) =~= toks);
    }
    Ok(table)
}

/// The running-best fold over a table: scanning in order from no selection
/// at weight zero, a candidate replaces the running best only when its
/// weight is strictly greater.
pub open spec fn spec_best_state(t: Seq<(Compressor, u64)>) -> (Option<Compressor>, u64)
    decreases t.len(),
{
    if t.len() == 0 {
        (None::<Compressor>, 0u64)
    } else {
        let prev = spec_best_state(t.drop_last());
        if t.last().1 > prev.1 {
            (Some(t.last().0), t.last().1)
        } else {
            prev
        }
    }
}

/// The winning scheme: the first entry of strictly greatest weight, or
/// nothing when the table is empty or no weight beats zero.
pub open spec fn spec_best(t: Seq<(Compressor, u64)>) -> Option<Compressor> {
    spec_best_state(t).0
}

/// `spec_best` as the negotiation result: no winner is the
/// `NoCompressor` error.
pub open spec fn spec_best_result(t: Seq<(Compressor, u64)>) -> Result<
    Compressor,
    CompressError,
> {
    match spec_best(t) {
        Some(c) => Ok(c),
        None => Err(CompressError::NoCompressor),
    }
}

/// Reduces the table to the entry with the strictly greatest weight, as
/// `spec_best_result` describes: equal weights keep the earlier entry, and
/// a table whose weights cannot beat zero yields `NoCompressor`.
pub fn best_encoder(priorities: EncodingPriorities) -> (r: Result<Compressor, CompressError>)
    ensures
        r == spec_best_result(priorities@),
{
    let n = priorities.len();
    let mut best: Option<Compressor> = None;
    let mut bestq: u64 = 0;
    let mut k: usize = 0;
    while k < n
        invariant
            k <= n,
            n == priorities@.len(),
            (best, bestq) == spec_best_state(priorities@.take(k as int)),
        decreases n - k,
    {
        proof {
            assert(priorities@.take(k + 1).drop_last() =~= priorities@.take(k as int));
            assert(priorities@.take(k + 1).last() == priorities@[k as int]);
        }
        let e = priorities.get(k);
        if e.1 > bestq {
            best = Some(e.0);
            bestq = e.1;
        }
        k = k + 1;
    }
    proof {
        assert(priorities@.take(n as int) =~= priorities@);
    }
    match best {
        Some(c) => Ok(c),
        None => Err(CompressError::NoCompressor),
    }
}

/// The outcome of negotiation over a token sequence: parse, then pick the
/// best entry.
pub open spec fn spec_negotiate(toks: Seq<Seq<char>>) -> Result<Compressor, CompressError> {
    spec_best_result(spec_parse(toks))
}

/// Chooses the compression scheme for a pre-split `Accept-Encoding`
/// directive list, as `spec_negotiate` describes.
pub fn get_compressor(accept_encoding: &Vec<&str>) -> (r: Result<Compressor, CompressError>)
    ensures
        r == spec_negotiate(accept_encoding.deep_view()),
{
    match parse_accept_encoding(accept_encoding) {
        Ok(p) => best_encoder(p),
        Err(e) => Err(e),
    }
}

/// Negotiation is a function of the token sequence alone: two runs over
/// the same tokens reach the same outcome.
pub proof fn lemma_negotiate_deterministic(
    toks: Seq<Seq<char>>,
    r1: Result<Compressor, CompressError>,
    r2: Result<Compressor, CompressError>,
)
    requires
        r1 == spec_negotiate(toks),
        r2 == spec_negotiate(toks),
    ensures
        r1 == r2,
{
}

/// A weight of zero can never win: a table all of whose weights are zero
/// selects no scheme, even if it is non-empty.
pub proof fn lemma_zero_weights_never_win(t: Seq<(Compressor, u64)>)
    requires
        forall|i: int| 0 <= i < t.len() ==> t[i].1 == 0,
    ensures
        spec_best_state(t) == (None::<Compressor>, 0u64),
        spec_best(t) is None,
    decreases t.len(),
{
    if t.len() > 0 {
        assert(forall|i: int| 0 <= i < t.len() - 1 ==> t.drop_last()[i] == t[i]);
        lemma_zero_weights_never_win(t.drop_last());
    }
}

/// Ties are broken in favor of the earlier entry: when every entry of a
/// non-empty table carries the same positive weight, the first one wins.
pub proof fn lemma_ties_keep_first(t: Seq<(Compressor, u64)>, q: u64)
    requires
        t.len() > 0,
        q > 0,
        forall|i: int| 0 <= i < t.len() ==> t[i].1 == q,
    ensures
        spec_best_state(t) == (Some(t[0].0), q),
        spec_best(t) == Some(t[0].0),
    decreases t.len(),
{
    if t.len() == 1 {
        assert(t.drop_last().len() == 0);
        assert(spec_best_state(t.drop_last()) == (None::<Compressor>, 0u64));
        assert(t.last() == t[0] && t.last().1 == q);
    } else {
        assert(forall|i: int| 0 <= i < t.len() - 1 ==> t.drop_last()[i] == t[i]);
        lemma_ties_keep_first(t.drop_last(), q);
        assert(t.drop_last()[0] == t[0]);
        assert(t.last().1 == q);
    }
}


} // verus!
