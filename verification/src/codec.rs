//! The persisted index format and its codec. An index is written as one JSON
//! object, `{"entries":{"<key>":{"filename":"<name>","last_accessed":<n>},...}}`,
//! with entries in index order and numbers in canonical decimal. The parser
//! accepts exactly the bytes the serializer emits: anything else is corrupt.
use vstd::prelude::*;
use crate::CacheError;
use crate::bytes::{bytes_eq, head_to, push_bytes, spec_prefix_at};
use crate::index::{CacheIndex, EntryModel, IndexEntry, entries_wf};
use crate::keys::{lemma_join_bytes_push, spec_join_bytes};

verus! {

/// The bytes of `{"entries":{`.
pub open spec fn lit_open() -> Seq<u8> {
    seq![123u8, 34u8, 101u8, 110u8, 116u8, 114u8, 105u8, 101u8, 115u8, 34u8, 58u8, 123u8]
}

/// The bytes of `":{"filename":"`.
pub open spec fn lit_mid() -> Seq<u8> {
    seq![
        34u8, 58u8, 123u8, 34u8, 102u8, 105u8, 108u8, 101u8, 110u8, 97u8, 109u8, 101u8, 34u8,
        58u8, 34u8,
    ]
}

/// The bytes of `","last_accessed":`.
pub open spec fn lit_la() -> Seq<u8> {
    seq![
        34u8, 44u8, 34u8, 108u8, 97u8, 115u8, 116u8, 95u8, 97u8, 99u8, 99u8, 101u8, 115u8, 115u8,
        101u8, 100u8, 34u8, 58u8,
    ]
}

/// Canonical decimal rendering of a number: no sign, no leading zero.
pub open spec fn spec_dec(n: u64) -> Seq<u8>
    decreases n,
{
    if n < 10 {
        seq![(n + 48) as u8]
    } else {
        spec_dec((n / 10) as u64) + seq![((n % 10) + 48) as u8]
    }
}

/// The serialized form of one entry:
/// `"<key>":{"filename":"<name>","last_accessed":<n>}`.
pub open spec fn ser_entry(e: EntryModel) -> Seq<u8> {
    seq![34u8] + e.key + lit_mid() + e.filename + lit_la() + spec_dec(e.last_accessed)
        + seq![125u8]
}

/// The serialized form of a whole index.
pub open spec fn spec_serialize(s: Seq<EntryModel>) -> Seq<u8> {
    lit_open() + spec_join_bytes(s.map_values(|e: EntryModel| ser_entry(e)), seq![44u8])
        + seq![125u8, 125u8]
}

fn lit_open_vec() -> (r: Vec<u8>)
    ensures
        r@ == lit_open(),
{
    let mut r: Vec<u8> = Vec::new();
    r.push(123);
    r.push(34);
    r.push(101);
    r.push(110);
    r.push(116);
    r.push(114);
    r.push(105);
    r.push(101);
    r.push(115);
    r.push(34);
    r.push(58);
    r.push(123);
    proof {
        assert(r@ =~= lit_open());
    }
    r
}

fn lit_mid_vec() -> (r: Vec<u8>)
    ensures
        r@ == lit_mid(),
{
    let mut r: Vec<u8> = Vec::new();
    r.push(34);
    r.push(58);
    r.push(123);
    r.push(34);
    r.push(102);
    r.push(105);
    r.push(108);
    r.push(101);
    r.push(110);
    r.push(97);
    r.push(109);
    r.push(101);
    r.push(34);
    r.push(58);
    r.push(34);
    proof {
        assert(r@ =~= lit_mid());
    }
    r
}

fn lit_la_vec() -> (r: Vec<u8>)
    ensures
        r@ == lit_la(),
{
    let mut r: Vec<u8> = Vec::new();
    r.push(34);
    r.push(44);
    r.push(34);
    r.push(108);
    r.push(97);
    r.push(115);
    r.push(116);
    r.push(95);
    r.push(97);
    r.push(99);
    r.push(99);
    r.push(101);
    r.push(115);
    r.push(115);
    r.push(101);
    r.push(100);
    r.push(34);
    r.push(58);
    proof {
        assert(r@ =~= lit_la());
    }
    r
}

/// Appends the canonical decimal rendering of `n`.
fn push_dec(dst: &mut Vec<u8>, n: u64)
    ensures
        final(dst)@ == old(dst)@ + spec_dec(n),
    decreases n,
{
    if n < 10 {
        dst.push((n + 48) as u8);
        proof {
            assert(final(dst)@ =~= old(dst)@ + spec_dec(n));
        }
    } else {
        push_dec(dst, n / 10);
        dst.push((n % 10 + 48) as u8);
        proof {
            assert(final(dst)@ =~= old(dst)@ + spec_dec(n));
        }
    }
}

/// Serializes the index to the canonical persisted form.
pub fn serialize_index(ci: &CacheIndex) -> (r: Vec<u8>)
    ensures
        r@ == spec_serialize(ci@),
{
    let ghost parts = ci@.map_values(|e: EntryModel| ser_entry(e));
    let mut out: Vec<u8> = Vec::new();
    let open = lit_open_vec();
    let mid = lit_mid_vec();
    let la = lit_la_vec();
    push_bytes(&mut out, open.as_slice());
    let n = ci.len();
    let mut i: usize = 0;
    while i < n
        invariant
            n == ci@.len(),
            i <= n,
            parts == ci@.map_values(|e: EntryModel| ser_entry(e)),
            mid@ == lit_mid(),
            la@ == lit_la(),
            out@ == lit_open() + spec_join_bytes(parts.take(i as int), seq![44u8]),
        decreases n - i,
    {
        let ghost before = out@;
        if i > 0 {
            out.push(44);
        }
        let e = ci.entry_at(i);
        out.push(34);
        push_bytes(&mut out, e.key.as_slice());
        push_bytes(&mut out, mid.as_slice());
        push_bytes(&mut out, e.filename.as_slice());
        push_bytes(&mut out, la.as_slice());
        push_dec(&mut out, e.last_accessed);
        out.push(125);
        proof {
            assert(parts[i as int] == ser_entry(ci@[i as int]));
            if i > 0 {
                assert(out@ =~= before + seq![44u8] + parts[i as int]);
            } else {
                assert(out@ =~= before + parts[i as int]);
            }
            lemma_join_bytes_push(parts.take(i as int), seq![44u8], parts[i as int]);
            assert(parts.take(i as int).push(parts[i as int]) =~= parts.take(i + 1));
            assert(out@ =~= lit_open() + spec_join_bytes(parts.take(i + 1), seq![44u8]));
        }
        i = i + 1;
    }
    out.push(125);
    out.push(125);
    proof {
        assert(parts.take(n as int) =~= parts);
        assert(out@ =~= spec_serialize(ci@));
    }
    out
}

/// No byte of the entry's key or filename is a double quote. Keys and
/// filenames are written verbatim between quotes, so exactly the clean
/// entries are representable in the persisted form; every key and filename
/// this library builds (hexadecimal digits and ".txt") is clean.
pub open spec fn entry_clean(e: EntryModel) -> bool {
    &&& forall|i: int| 0 <= i < e.key.len() ==> e.key[i] != 34
    &&& forall|i: int| 0 <= i < e.filename.len() ==> e.filename[i] != 34
}

/// Every entry is clean.
pub open spec fn entries_clean(s: Seq<EntryModel>) -> bool {
    forall|i: int| 0 <= i < s.len() ==> entry_clean(#[trigger] s[i])
}

/// The canonical decimal rendering is at least one byte of digits, without a
/// leading zero unless the number is zero.
pub proof fn lemma_spec_dec_digits(n: u64)
    ensures
        spec_dec(n).len() >= 1,
        forall|i: int| 0 <= i < spec_dec(n).len() ==> 48 <= #[trigger] spec_dec(n)[i] <= 57,
        n < 10 ==> spec_dec(n) == seq![(n + 48) as u8],
        n >= 10 ==> spec_dec(n).len() >= 2 && spec_dec(n)[0] != 48 && spec_dec(n) == spec_dec(
            (n / 10) as u64,
        ) + seq![((n % 10) + 48) as u8],
    decreases n,
{
    if n >= 10 {
        lemma_spec_dec_digits((n / 10) as u64);
        let a = spec_dec((n / 10) as u64);
        let d = ((n % 10) + 48) as u8;
        assert(spec_dec(n) == a + seq![d]);
        assert forall|i: int| 0 <= i < spec_dec(n).len() implies 48 <= #[trigger] spec_dec(n)[i]
            <= 57 by {
            if i < a.len() {
                assert(spec_dec(n)[i] == a[i]);
            } else {
                assert(spec_dec(n)[i] == d);
            }
        }
        assert(n / 10 >= 1);
        assert(spec_dec(n)[0] == a[0]);
        if n / 10 < 10 {
            assert(a == seq![((n / 10) + 48) as u8]);
        }
    }
}

/// Two numbers with the same canonical decimal rendering are equal.
pub proof fn lemma_spec_dec_injective(a: u64, b: u64)
    requires
        spec_dec(a) == spec_dec(b),
    ensures
        a == b,
    decreases a,
{
    lemma_spec_dec_digits(a);
    lemma_spec_dec_digits(b);
    if a < 10 && b < 10 {
        assert(spec_dec(a)[0] == spec_dec(b)[0]);
    } else if a >= 10 && b >= 10 {
        let pa = spec_dec((a / 10) as u64);
        let pb = spec_dec((b / 10) as u64);
        assert(spec_dec(a) == pa + seq![((a % 10) + 48) as u8]);
        assert(spec_dec(b) == pb + seq![((b % 10) + 48) as u8]);
        assert(pa.len() == pb.len());
        assert forall|i: int| 0 <= i < pa.len() implies pa[i] == pb[i] by {
            assert(spec_dec(a)[i] == pa[i]);
            assert(spec_dec(b)[i] == pb[i]);
        }
        assert(pa =~= pb);
        lemma_spec_dec_injective((a / 10) as u64, (b / 10) as u64);
        assert(spec_dec(a).last() == ((a % 10) + 48) as u8);
        assert(spec_dec(b).last() == ((b % 10) + 48) as u8);
        assert(a % 10 == b % 10);
        assert(a == 10 * (a / 10) + a % 10);
        assert(b == 10 * (b / 10) + b % 10);
    }
}

/// The value whose canonical decimal rendering the digit bytes are, if they
/// are one: success exactly on `spec_dec` of some number.
fn dec_val(digits: &Vec<u8>) -> (r: Option<u64>)
    requires
        forall|i: int| 0 <= i < digits@.len() ==> 48 <= #[trigger] digits@[i] <= 57,
    ensures
        match r {
            Some(v) => digits@ == spec_dec(v),
            None => forall|v: u64| digits@ != spec_dec(v),
        },
    decreases digits@.len(),
{
    let n = digits.len();
    if n == 0 {
        proof {
            assert forall|v: u64| digits@ != spec_dec(v) by {
                lemma_spec_dec_digits(v);
            }
        }
        return None;
    }
    if n == 1 {
        let d = digits[0] - 48;
        proof {
            lemma_spec_dec_digits(d as u64);
            assert(digits@ =~= spec_dec(d as u64));
        }
        return Some(d as u64);
    }
    if digits[0] == 48 {
        proof {
            assert forall|v: u64| digits@ != spec_dec(v) by {
                lemma_spec_dec_digits(v);
                if digits@ == spec_dec(v) {
                    assert(spec_dec(v).len() >= 2);
                    assert(spec_dec(v)[0] == 48);
                }
            }
        }
        return None;
    }
    let prefix = head_to(digits, n - 1);
    let last = digits[n - 1];
    match dec_val(&prefix) {
        None => {
            proof {
                assert forall|v: u64| digits@ != spec_dec(v) by {
                    if digits@ == spec_dec(v) {
                        lemma_spec_dec_digits(v);
                        assert(v >= 10);
                        assert(prefix@ =~= spec_dec((v / 10) as u64));
                    }
                }
            }
            None
        },
        Some(pv) => {
            let d = (last - 48) as u64;
            proof {
                lemma_spec_dec_digits(pv);
                if pv == 0 {
                    assert(prefix@[0] == digits@[0]);
                    assert(false);
                }
            }
            if pv > u64::MAX / 10 || (pv == u64::MAX / 10 && d > u64::MAX % 10) {
                proof {
                    assert forall|v: u64| digits@ != spec_dec(v) by {
                        if digits@ == spec_dec(v) {
                            lemma_spec_dec_digits(v);
                            assert(v >= 10);
                            assert(prefix@ =~= spec_dec((v / 10) as u64));
                            lemma_spec_dec_injective(pv, (v / 10) as u64);
                            assert(digits@.last() == ((v % 10) + 48) as u8);
                            assert(d == v % 10);
                            assert(v == 10 * (v / 10) + v % 10);
                        }
                    }
                }
                None
            } else {
                let v = pv * 10 + d;
                proof {
                    assert(v / 10 == pv && v % 10 == d) by (nonlinear_arith)
                        requires
                            v == pv * 10 + d,
                            0 <= d < 10,
                            pv >= 0,
                    ;
                    assert(v >= 10);
                    lemma_spec_dec_digits(v);
                    assert(spec_dec(v) == spec_dec(pv) + seq![(d + 48) as u8]);
                    assert(digits@ =~= prefix@ + seq![last]);
                }
                Some(v)
            }
        },
    }
}

/// A prefix of a concatenation splits into a prefix and a following prefix.
proof fn lemma_prefix_split(data: Seq<u8>, pos: int, a: Seq<u8>, b: Seq<u8>)
    requires
        spec_prefix_at(data, pos, a + b),
    ensures
        spec_prefix_at(data, pos, a),
        spec_prefix_at(data, pos + a.len(), b),
{
    let whole = data.subrange(pos, pos + a.len() + b.len());
    assert forall|j: int| 0 <= j < a.len() implies data.subrange(pos, pos + a.len())[j]
        == a[j] by {
        assert(whole[j] == data[pos + j]);
        assert((a + b)[j] == a[j]);
    }
    assert(data.subrange(pos, pos + a.len()) =~= a);
    assert forall|j: int| 0 <= j < b.len() implies data.subrange(
        pos + a.len(),
        pos + a.len() + b.len(),
    )[j] == b[j] by {
        assert(whole[a.len() + j] == data[pos + a.len() + j]);
        assert((a + b)[a.len() + j] == b[j]);
    }
    assert(data.subrange(pos + a.len(), pos + a.len() + b.len()) =~= b);
}

/// A prefix pins each byte under it.
proof fn lemma_prefix_index(data: Seq<u8>, pos: int, w: Seq<u8>)
    requires
        spec_prefix_at(data, pos, w),
    ensures
        forall|i: int| 0 <= i < w.len() ==> data[pos + i] == w[i],
{
    assert forall|i: int| 0 <= i < w.len() implies data[pos + i] == w[i] by {
        assert(data.subrange(pos, pos + w.len())[i] == data[pos + i]);
    }
}

/// There is one way to read a quote-free run up to a quote.
proof fn lemma_quote_run_unique(data: Seq<u8>, start: int, k1: Seq<u8>, p1: int, k2: Seq<u8>, p2: int)
    requires
        0 <= start <= p1 < data.len(),
        0 <= start <= p2 < data.len(),
        k1 == data.subrange(start, p1),
        k2 == data.subrange(start, p2),
        forall|i: int| 0 <= i < k1.len() ==> k1[i] != 34,
        forall|i: int| 0 <= i < k2.len() ==> k2[i] != 34,
        data[p1] == 34,
        data[p2] == 34,
    ensures
        p1 == p2,
        k1 == k2,
{
    if p1 < p2 {
        assert(k2[p1 - start] == data[p1]);
        assert(false);
    }
    if p2 < p1 {
        assert(k1[p2 - start] == data[p2]);
        assert(false);
    }
}

/// There is one way to read a maximal run of decimal digits.
proof fn lemma_digit_run_unique(data: Seq<u8>, start: int, a1: Seq<u8>, p1: int, a2: Seq<u8>, p2: int)
    requires
        0 <= start <= p1 <= data.len(),
        0 <= start <= p2 <= data.len(),
        a1 == data.subrange(start, p1),
        a2 == data.subrange(start, p2),
        forall|i: int| 0 <= i < a1.len() ==> 48 <= #[trigger] a1[i] <= 57,
        forall|i: int| 0 <= i < a2.len() ==> 48 <= #[trigger] a2[i] <= 57,
        p1 < data.len() ==> !(48 <= data[p1] <= 57),
        p2 < data.len() ==> !(48 <= data[p2] <= 57),
    ensures
        p1 == p2,
        a1 == a2,
{
    if p1 < p2 {
        assert(a2[p1 - start] == data[p1]);
        assert(false);
    }
    if p2 < p1 {
        assert(a1[p2 - start] == data[p2]);
        assert(false);
    }
}

/// Where each piece of a serialized entry stands, for any entry whose
/// serialization occurs at `pos`.
proof fn lemma_entry_offsets(data: Seq<u8>, pos: int, em: EntryModel)
    requires
        spec_prefix_at(data, pos, ser_entry(em)),
    ensures
        ser_entry(em).len() == 35 + em.key.len() + em.filename.len() + spec_dec(
            em.last_accessed,
        ).len(),
        pos + ser_entry(em).len() <= data.len(),
        data[pos] == 34,
        spec_prefix_at(data, pos + 1, em.key),
        data[pos + 1 + em.key.len()] == 34,
        spec_prefix_at(data, pos + 1 + em.key.len(), lit_mid()),
        spec_prefix_at(data, pos + 16 + em.key.len(), em.filename),
        data[pos + 16 + em.key.len() + em.filename.len()] == 34,
        spec_prefix_at(data, pos + 16 + em.key.len() + em.filename.len(), lit_la()),
        spec_prefix_at(
            data,
            pos + 34 + em.key.len() + em.filename.len(),
            spec_dec(em.last_accessed),
        ),
        data[pos + 34 + em.key.len() + em.filename.len() + spec_dec(em.last_accessed).len()]
            == 125,
{
    let dec = spec_dec(em.last_accessed);
    let p1 = seq![34u8] + em.key;
    let p2 = p1 + lit_mid();
    let p3 = p2 + em.filename;
    let p4 = p3 + lit_la();
    let p5 = p4 + dec;
    assert(ser_entry(em) == p5 + seq![125u8]);
    lemma_prefix_split(data, pos, p5, seq![125u8]);
    lemma_prefix_index(data, pos + p5.len(), seq![125u8]);
    lemma_prefix_split(data, pos, p4, dec);
    lemma_prefix_split(data, pos, p3, lit_la());
    lemma_prefix_split(data, pos, p2, em.filename);
    lemma_prefix_split(data, pos, p1, lit_mid());
    lemma_prefix_split(data, pos, seq![34u8], em.key);
    lemma_prefix_index(data, pos, seq![34u8]);
    lemma_prefix_index(data, pos + p1.len(), lit_mid());
    lemma_prefix_index(data, pos + p3.len(), lit_la());
    assert(p1.len() == 1 + em.key.len());
    assert(p2.len() == 16 + em.key.len());
    assert(p3.len() == 16 + em.key.len() + em.filename.len());
    assert(p4.len() == 34 + em.key.len() + em.filename.len());
    assert(p5.len() == 34 + em.key.len() + em.filename.len() + dec.len());
    assert(data[pos + 0] == seq![34u8][0]);
    assert(data[pos + p1.len() + 0] == lit_mid()[0]);
    assert(data[pos + p3.len() + 0] == lit_la()[0]);
    assert(data[pos + p5.len() + 0] == seq![125u8][0]);
}

/// Compares the bytes at `pos` against `lit`: a match exactly when `lit`
/// occurs there.
fn match_at(data: &Vec<u8>, pos: usize, lit: &Vec<u8>) -> (r: Option<usize>)
    requires
        pos <= data@.len(),
    ensures
        match r {
            Some(p) => p == pos + lit@.len() && p <= data@.len() && spec_prefix_at(
                data@,
                pos as int,
                lit@,
            ),
            None => !spec_prefix_at(data@, pos as int, lit@),
        },
{
    let dn = data.len();
    if dn - pos < lit.len() {
        return None;
    }
    let mut i: usize = 0;
    while i < lit.len()
        invariant
            dn == data@.len(),
            pos + lit@.len() <= dn,
            i <= lit@.len(),
            forall|j: int| 0 <= j < i ==> data@[pos + j] == lit@[j],
        decreases lit@.len() - i,
    {
        if data[pos + i] != lit[i] {
            proof {
                if spec_prefix_at(data@, pos as int, lit@) {
                    lemma_prefix_index(data@, pos as int, lit@);
                }
            }
            return None;
        }
        i = i + 1;
    }
    proof {
        assert(data@.subrange(pos as int, pos + lit@.len()) =~= lit@);
    }
    Some(pos + lit.len())
}

/// Reads bytes up to the next double quote, which must exist.
fn take_until_quote(data: &Vec<u8>, pos: usize) -> (r: Option<(Vec<u8>, usize)>)
    requires
        pos <= data@.len(),
    ensures
        match r {
            Some(t) => pos <= t.1 < data@.len() && data@[t.1 as int] == 34 && t.0@
                == data@.subrange(pos as int, t.1 as int) && forall|i: int|
                0 <= i < t.0@.len() ==> t.0@[i] != 34,
            None => forall|j: int| pos <= j < data@.len() ==> data@[j] != 34,
        },
{
    let dn = data.len();
    let mut k: Vec<u8> = Vec::new();
    let mut p: usize = pos;
    proof {
        assert(k@ =~= data@.subrange(pos as int, pos as int));
    }
    while p < dn
        invariant
            dn == data@.len(),
            pos <= p <= dn,
            k@ == data@.subrange(pos as int, p as int),
            forall|j: int| pos <= j < p ==> data@[j] != 34,
        decreases dn - p,
    {
        if data[p] == 34 {
            proof {
                assert forall|i: int| 0 <= i < k@.len() implies k@[i] != 34 by {
                    assert(k@[i] == data@[pos + i]);
                }
            }
            return Some((k, p));
        }
        k.push(data[p]);
        proof {
            assert(k@ =~= data@.subrange(pos as int, p + 1));
        }
        p = p + 1;
    }
    None
}

/// Reads the maximal run of decimal digit bytes starting at `pos`.
fn take_digits(data: &Vec<u8>, pos: usize) -> (r: (Vec<u8>, usize))
    requires
        pos <= data@.len(),
    ensures
        pos <= r.1 <= data@.len(),
        r.0@ == data@.subrange(pos as int, r.1 as int),
        forall|i: int| 0 <= i < r.0@.len() ==> 48 <= #[trigger] r.0@[i] <= 57,
        r.1 < data@.len() ==> !(48 <= data@[r.1 as int] && data@[r.1 as int] <= 57),
{
    let dn = data.len();
    let mut ds: Vec<u8> = Vec::new();
    let mut p: usize = pos;
    proof {
        assert(ds@ =~= data@.subrange(pos as int, pos as int));
    }
    while p < dn
        invariant
            dn == data@.len(),
            pos <= p <= dn,
            ds@ == data@.subrange(pos as int, p as int),
            forall|j: int| pos <= j < p ==> 48 <= #[trigger] data@[j] <= 57,
        decreases dn - p,
    {
        let b = data[p];
        if !(48 <= b && b <= 57) {
            proof {
                assert forall|i: int| 0 <= i < ds@.len() implies 48 <= #[trigger] ds@[i] <= 57 by {
                    assert(ds@[i] == data@[pos + i]);
                }
            }
            return (ds, p);
        }
        ds.push(b);
        proof {
            assert(ds@ =~= data@.subrange(pos as int, p + 1));
        }
        p = p + 1;
    }
    proof {
        assert forall|i: int| 0 <= i < ds@.len() implies 48 <= #[trigger] ds@[i] <= 57 by {
            assert(ds@[i] == data@[pos + i]);
        }
    }
    (ds, p)
}

/// One serialized entry and the position after it, if one occurs at `pos`:
/// exactly when some clean entry's serialization occurs there.
fn parse_one_entry(data: &Vec<u8>, pos: usize, mid: &Vec<u8>, la: &Vec<u8>) -> (r: Option<
    (IndexEntry, usize),
>)
    requires
        pos <= data@.len(),
        mid@ == lit_mid(),
        la@ == lit_la(),
    ensures
        match r {
            Some(t) => pos < t.1 <= data@.len() && entry_clean(t.0@),
            None => true,
        },
        forall|em: EntryModel| #![trigger ser_entry(em)]
            (entry_clean(em) && spec_prefix_at(data@, pos as int, ser_entry(em))) ==> match r {
                Some(t) => t.0@ == em && t.1 == pos + ser_entry(em).len(),
                None => false,
            },
{
    let dn = data.len();
    if pos >= dn || data[pos] != 34 {
        proof {
            assert forall|em: EntryModel|
                entry_clean(em) && spec_prefix_at(
                    data@,
                    pos as int,
                    #[trigger] ser_entry(em),
                ) implies false by {
                lemma_entry_offsets(data@, pos as int, em);
            }
        }
        return None;
    }
    let key_read = take_until_quote(data, pos + 1);
    match key_read {
        None => {
            proof {
                assert forall|em: EntryModel|
                    entry_clean(em) && spec_prefix_at(
                        data@,
                        pos as int,
                        #[trigger] ser_entry(em),
                    ) implies false by {
                    lemma_entry_offsets(data@, pos as int, em);
                }
            }
            None
        },
        Some((key, p2)) => {
            proof {
                assert forall|em: EntryModel|
                    entry_clean(em) && spec_prefix_at(
                        data@,
                        pos as int,
                        #[trigger] ser_entry(em),
                    ) implies p2 == pos + 1 + em.key.len() && key@ == em.key by {
                    lemma_entry_offsets(data@, pos as int, em);
                    lemma_quote_run_unique(
                        data@,
                        pos + 1,
                        key@,
                        p2 as int,
                        em.key,
                        pos + 1 + em.key.len(),
                    );
                }
            }
            match match_at(data, p2, mid) {
                None => {
                    proof {
                        assert forall|em: EntryModel|
                            entry_clean(em) && spec_prefix_at(
                                data@,
                                pos as int,
                                #[trigger] ser_entry(em),
                            ) implies false by {
                            lemma_entry_offsets(data@, pos as int, em);
                        }
                    }
                    None
                },
                Some(p3) => {
                    let fname_read = take_until_quote(data, p3);
                    match fname_read {
                        None => {
                            proof {
                                assert forall|em: EntryModel|
                                    entry_clean(em) && spec_prefix_at(
                                        data@,
                                        pos as int,
                                        #[trigger] ser_entry(em),
                                    ) implies false by {
                                    lemma_entry_offsets(data@, pos as int, em);
                                }
                            }
                            None
                        },
                        Some((fname, p4)) => {
                            proof {
                                assert forall|em: EntryModel|
                                    entry_clean(em) && spec_prefix_at(
                                        data@,
                                        pos as int,
                                        #[trigger] ser_entry(em),
                                    ) implies p4 == pos + 16 + em.key.len() + em.filename.len()
                                    && fname@ == em.filename by {
                                    lemma_entry_offsets(data@, pos as int, em);
                                    lemma_quote_run_unique(
                                        data@,
                                        p3 as int,
                                        fname@,
                                        p4 as int,
                                        em.filename,
                                        pos + 16 + em.key.len() + em.filename.len(),
                                    );
                                }
                            }
                            match match_at(data, p4, la) {
                                None => {
                                    proof {
                                        assert forall|em: EntryModel|
                                            entry_clean(em) && spec_prefix_at(
                                                data@,
                                                pos as int,
                                                #[trigger] ser_entry(em),
                                            ) implies false by {
                                            lemma_entry_offsets(data@, pos as int, em);
                                        }
                                    }
                                    None
                                },
                                Some(p5) => parse_entry_tail(data, pos, p5, key, fname),
                            }
                        },
                    }
                },
            }
        },
    }
}

/// The timestamp and closing brace of a serialized entry, given the pieces
/// before them.
fn parse_entry_tail(data: &Vec<u8>, pos: usize, p5: usize, key: Vec<u8>, fname: Vec<u8>) -> (r:
    Option<(IndexEntry, usize)>)
    requires
        pos <= p5 <= data@.len(),
        forall|i: int| 0 <= i < key@.len() ==> key@[i] != 34,
        forall|i: int| 0 <= i < fname@.len() ==> fname@[i] != 34,
        forall|em: EntryModel| #![trigger ser_entry(em)]
            (entry_clean(em) && spec_prefix_at(data@, pos as int, ser_entry(em))) ==> key@
                == em.key && fname@ == em.filename && p5 == pos + 34 + em.key.len()
                + em.filename.len(),
    ensures
        match r {
            Some(t) => pos < t.1 <= data@.len() && entry_clean(t.0@),
            None => true,
        },
        forall|em: EntryModel| #![trigger ser_entry(em)]
            (entry_clean(em) && spec_prefix_at(data@, pos as int, ser_entry(em))) ==> match r {
                Some(t) => t.0@ == em && t.1 == pos + ser_entry(em).len(),
                None => false,
            },
{
    let dn = data.len();
    let (digits, p6) = take_digits(data, p5);
    proof {
        assert forall|em: EntryModel|
            entry_clean(em) && spec_prefix_at(
                data@,
                pos as int,
                #[trigger] ser_entry(em),
            ) implies p6 == pos + 34 + em.key.len() + em.filename.len() + spec_dec(
            em.last_accessed,
        ).len() && digits@ == spec_dec(em.last_accessed) by {
            lemma_entry_offsets(data@, pos as int, em);
            lemma_spec_dec_digits(em.last_accessed);
            let o5 = pos + 34 + em.key.len() + em.filename.len();
            let o6 = o5 + spec_dec(em.last_accessed).len();
            assert(data@.subrange(o5, o6) == spec_dec(em.last_accessed));
            assert(!(48 <= data@[o6] <= 57));
            lemma_digit_run_unique(
                data@,
                o5,
                digits@,
                p6 as int,
                spec_dec(em.last_accessed),
                o6,
            );
        }
    }
    match dec_val(&digits) {
        None => {
            proof {
                assert forall|em: EntryModel|
                    entry_clean(em) && spec_prefix_at(
                        data@,
                        pos as int,
                        #[trigger] ser_entry(em),
                    ) implies false by {
                    lemma_entry_offsets(data@, pos as int, em);
                }
            }
            None
        },
        Some(v) => {
            if p6 >= dn || data[p6] != 125 {
                proof {
                    assert forall|em: EntryModel|
                        entry_clean(em) && spec_prefix_at(
                            data@,
                            pos as int,
                            #[trigger] ser_entry(em),
                        ) implies false by {
                        lemma_entry_offsets(data@, pos as int, em);
                    }
                }
                return None;
            }
            let e = IndexEntry { key, filename: fname, last_accessed: v };
            proof {
                assert forall|em: EntryModel|
                    entry_clean(em) && spec_prefix_at(
                        data@,
                        pos as int,
                        #[trigger] ser_entry(em),
                    ) implies e@ == em && p6 + 1 == pos + ser_entry(em).len() by {
                    lemma_entry_offsets(data@, pos as int, em);
                    lemma_spec_dec_injective(v, em.last_accessed);
                    assert(e@ =~= em);
                }
            }
            Some((e, p6 + 1))
        },
    }
}

/// The serialized form of a non-empty run of entries with the two closing
/// braces after it.
pub open spec fn ser_entries_tail(s: Seq<EntryModel>) -> Seq<u8> {
    spec_join_bytes(s.map_values(|e: EntryModel| ser_entry(e)), seq![44u8]) + seq![125u8, 125u8]
}

/// The serialized entries and closing braces fill `data` from `pos` on.
pub open spec fn entries_at(data: Seq<u8>, pos: int, s: Seq<EntryModel>) -> bool {
    spec_prefix_at(data, pos, ser_entries_tail(s)) && pos + ser_entries_tail(s).len()
        == data.len()
}

/// The first entry of a serialized run stands at `pos`, and a comma or the
/// closing braces follow it.
proof fn lemma_entries_at_unfold(data: Seq<u8>, pos: int, s: Seq<EntryModel>)
    requires
        s.len() >= 1,
        entries_at(data, pos, s),
    ensures
        spec_prefix_at(data, pos, ser_entry(s[0])),
        s.len() == 1 ==> pos + ser_entry(s[0]).len() + 2 == data.len() && data[pos + ser_entry(
            s[0],
        ).len()] == 125 && data[pos + ser_entry(s[0]).len() + 1] == 125,
        s.len() >= 2 ==> pos + ser_entry(s[0]).len() < data.len() && data[pos + ser_entry(
            s[0],
        ).len()] == 44 && entries_at(data, pos + ser_entry(s[0]).len() + 1, s.drop_first()),
{
    let parts = s.map_values(|e: EntryModel| ser_entry(e));
    assert(parts[0] == ser_entry(s[0]));
    if s.len() == 1 {
        assert(spec_join_bytes(parts, seq![44u8]) == ser_entry(s[0]));
        lemma_prefix_split(data, pos, ser_entry(s[0]), seq![125u8, 125u8]);
        lemma_prefix_index(data, pos + ser_entry(s[0]).len(), seq![125u8, 125u8]);
        assert(data[pos + ser_entry(s[0]).len() + 0] == seq![125u8, 125u8][0]);
        assert(data[pos + ser_entry(s[0]).len() + 1] == seq![125u8, 125u8][1]);
        assert(ser_entries_tail(s).len() == ser_entry(s[0]).len() + 2);
    } else {
        assert(spec_join_bytes(parts, seq![44u8]) == parts[0] + seq![44u8] + spec_join_bytes(
            parts.drop_first(),
            seq![44u8],
        ));
        assert(parts.drop_first() =~= s.drop_first().map_values(|e: EntryModel| ser_entry(e)));
        let rest_tail = ser_entries_tail(s.drop_first());
        assert(ser_entries_tail(s) =~= ser_entry(s[0]) + seq![44u8] + rest_tail);
        lemma_prefix_split(data, pos, ser_entry(s[0]) + seq![44u8], rest_tail);
        lemma_prefix_split(data, pos, ser_entry(s[0]), seq![44u8]);
        lemma_prefix_index(data, pos + ser_entry(s[0]).len(), seq![44u8]);
        assert(data[pos + ser_entry(s[0]).len() + 0] == seq![44u8][0]);
        assert(rest_tail.len() >= 2);
        assert((ser_entry(s[0]) + seq![44u8]).len() == ser_entry(s[0]).len() + 1);
        assert(ser_entries_tail(s).len() == ser_entry(s[0]).len() + 1 + rest_tail.len());
    }
}

/// The entries whose serialized run fills `data` from `pos` on: found exactly
/// when some clean, non-empty run does.
fn scan_entries(data: &Vec<u8>, pos: usize, mid: &Vec<u8>, la: &Vec<u8>) -> (r: Option<
    Vec<IndexEntry>,
>)
    requires
        pos <= data@.len(),
        mid@ == lit_mid(),
        la@ == lit_la(),
    ensures
        match r {
            Some(es) => entries_clean(Seq::new(es@.len(), |i: int| es@[i]@)),
            None => true,
        },
        forall|s: Seq<EntryModel>| #![trigger ser_entries_tail(s)]
            (entries_clean(s) && s.len() >= 1 && entries_at(data@, pos as int, s)) ==> match r {
                Some(es) => Seq::new(es@.len(), |i: int| es@[i]@) == s,
                None => false,
            },
    decreases data@.len() - pos,
{
    let dn = data.len();
    match parse_one_entry(data, pos, mid, la) {
        None => {
            proof {
                assert forall|s: Seq<EntryModel>|
                    entries_clean(s) && s.len() >= 1 && entries_at(
                        data@,
                        pos as int,
                        s,
                    ) implies #[trigger] ser_entries_tail(s).len() < 0 by {
                    lemma_entries_at_unfold(data@, pos as int, s);
                    assert(entry_clean(s[0]));
                    assert(ser_entry(s[0]) == ser_entry(s[0]));
                }
            }
            None
        },
        Some((e, p)) => {
            if p < dn && data[p] == 44 {
                match scan_entries(data, p + 1, mid, la) {
                    None => {
                        proof {
                            assert forall|s: Seq<EntryModel>|
                                entries_clean(s) && s.len() >= 1 && entries_at(
                                    data@,
                                    pos as int,
                                    s,
                                ) implies #[trigger] ser_entries_tail(s).len() < 0 by {
                                lemma_entries_at_unfold(data@, pos as int, s);
                                assert(entry_clean(s[0]));
                                if s.len() >= 2 {
                                    assert(entries_clean(s.drop_first())) by {
                                        assert forall|i: int|
                                            0 <= i < s.drop_first().len() implies entry_clean(
                                            #[trigger] s.drop_first()[i],
                                        ) by {
                                            assert(s.drop_first()[i] == s[i + 1]);
                                        }
                                    }
                                    assert(ser_entries_tail(s.drop_first())
                                        == ser_entries_tail(s.drop_first()));
                                }
                            }
                        }
                        None
                    },
                    Some(mut es) => {
                        let ghost old_es = es@;
                        es.insert(0, e);
                        proof {
                            assert forall|s: Seq<EntryModel>|
                                entries_clean(s) && s.len() >= 1 && entries_at(
                                    data@,
                                    pos as int,
                                    s,
                                ) implies Seq::new(es@.len(), |i: int| es@[i]@) == s && #[trigger]
                            ser_entries_tail(s).len() >= 0 by {
                                lemma_entries_at_unfold(data@, pos as int, s);
                                assert(entry_clean(s[0]));
                                assert(s.len() >= 2);
                                assert(entries_clean(s.drop_first())) by {
                                    assert forall|i: int|
                                        0 <= i < s.drop_first().len() implies entry_clean(
                                        #[trigger] s.drop_first()[i],
                                    ) by {
                                        assert(s.drop_first()[i] == s[i + 1]);
                                    }
                                }
                                assert(ser_entries_tail(s.drop_first()) == ser_entries_tail(
                                    s.drop_first(),
                                ));
                                assert(Seq::new(old_es.len(), |i: int| old_es[i]@)
                                    == s.drop_first());
                                assert forall|i: int| 0 <= i < es@.len() implies Seq::new(
                                    es@.len(),
                                    |k: int| es@[k]@,
                                )[i] == s[i] by {
                                    if i == 0 {
                                        assert(es@[0] == e);
                                    } else {
                                        assert(es@[i] == old_es[i - 1]);
                                        assert(Seq::new(old_es.len(), |k: int| old_es[k]@)[i - 1]
                                            == s.drop_first()[i - 1]);
                                    }
                                }
                                assert(Seq::new(es@.len(), |i: int| es@[i]@) =~= s);
                            }
                            let nv = Seq::new(es@.len(), |k: int| es@[k]@);
                            let ov = Seq::new(old_es.len(), |k: int| old_es[k]@);
                            assert forall|i: int| 0 <= i < nv.len() implies entry_clean(
                                #[trigger] nv[i],
                            ) by {
                                if i == 0 {
                                    assert(nv[0] == e@);
                                } else {
                                    assert(es@[i] == old_es[i - 1]);
                                    assert(nv[i] == ov[i - 1]);
                                }
                            }
                        }
                        Some(es)
                    },
                }
            } else {
                if p < dn && dn - p == 2 && data[p] == 125 && data[p + 1] == 125 {
                    let mut es: Vec<IndexEntry> = Vec::new();
                    es.push(e);
                    proof {
                        assert forall|s: Seq<EntryModel>|
                            entries_clean(s) && s.len() >= 1 && entries_at(
                                data@,
                                pos as int,
                                s,
                            ) implies Seq::new(es@.len(), |i: int| es@[i]@) == s && #[trigger]
                        ser_entries_tail(s).len() >= 0 by {
                            lemma_entries_at_unfold(data@, pos as int, s);
                            assert(entry_clean(s[0]));
                            if s.len() >= 2 {
                                assert(data@[p as int] == 44);
                                assert(false);
                            }
                            assert(Seq::new(es@.len(), |i: int| es@[i]@) =~= s);
                        }
                        let nv = Seq::new(es@.len(), |k: int| es@[k]@);
                        assert forall|i: int| 0 <= i < nv.len() implies entry_clean(
                            #[trigger] nv[i],
                        ) by {
                            assert(nv[i] == e@);
                        }
                    }
                    Some(es)
                } else {
                    proof {
                        assert forall|s: Seq<EntryModel>|
                            entries_clean(s) && s.len() >= 1 && entries_at(
                                data@,
                                pos as int,
                                s,
                            ) implies #[trigger] ser_entries_tail(s).len() < 0 by {
                            lemma_entries_at_unfold(data@, pos as int, s);
                            assert(entry_clean(s[0]));
                        }
                    }
                    None
                }
            }
        },
    }
}

/// The entries whose serialization the whole of `data` is: found exactly when
/// some clean run serializes to `data`.
fn scan_index(data: &Vec<u8>) -> (r: Option<Vec<IndexEntry>>)
    ensures
        match r {
            Some(es) => entries_clean(Seq::new(es@.len(), |i: int| es@[i]@)),
            None => true,
        },
        forall|s: Seq<EntryModel>| #![trigger spec_serialize(s)]
            (entries_clean(s) && data@ == spec_serialize(s)) ==> match r {
                Some(es) => Seq::new(es@.len(), |i: int| es@[i]@) == s,
                None => false,
            },
{
    let open = lit_open_vec();
    let mid = lit_mid_vec();
    let la = lit_la_vec();
    let dn = data.len();
    match match_at(data, 0, &open) {
        None => {
            proof {
                assert forall|s: Seq<EntryModel>|
                    entries_clean(s) && data@ == #[trigger] spec_serialize(s) implies false by {
                    assert(data@ =~= lit_open() + ser_entries_tail(s));
                    assert(data@.subrange(0, (lit_open() + ser_entries_tail(s)).len() as int)
                        =~= lit_open() + ser_entries_tail(s));
                    lemma_prefix_split(data@, 0, lit_open(), ser_entries_tail(s));
                }
            }
            None
        },
        Some(p) => {
            proof {
                assert forall|s: Seq<EntryModel>|
                    entries_clean(s) && data@ == #[trigger] spec_serialize(s)
                    implies entries_at(data@, 12, s) by {
                    assert(data@ =~= lit_open() + ser_entries_tail(s));
                    assert(data@.subrange(0, (lit_open() + ser_entries_tail(s)).len() as int)
                        =~= lit_open() + ser_entries_tail(s));
                    lemma_prefix_split(data@, 0, lit_open(), ser_entries_tail(s));
                    assert(lit_open().len() == 12);
                }
            }
            if p < dn && data[p] == 125 {
                if dn - p == 2 && data[p + 1] == 125 {
                    proof {
                        assert forall|s: Seq<EntryModel>|
                            entries_clean(s) && data@ == #[trigger] spec_serialize(s)
                            implies s.len() == 0 by {
                            if s.len() >= 1 {
                                lemma_entries_at_unfold(data@, 12, s);
                                lemma_entry_offsets(data@, 12, s[0]);
                                assert(data@[12] == 34);
                            }
                        }
                    }
                    let es: Vec<IndexEntry> = Vec::new();
                    proof {
                        assert forall|s: Seq<EntryModel>|
                            entries_clean(s) && data@ == #[trigger] spec_serialize(s)
                            implies Seq::new(es@.len(), |i: int| es@[i]@) == s by {
                            assert(s.len() == 0);
                            assert(Seq::new(es@.len(), |i: int| es@[i]@) =~= s);
                        }
                        assert(entries_clean(Seq::new(es@.len(), |i: int| es@[i]@)));
                    }
                    Some(es)
                } else {
                    proof {
                        assert forall|s: Seq<EntryModel>|
                            entries_clean(s) && data@ == #[trigger] spec_serialize(s)
                            implies false by {
                            if s.len() >= 1 {
                                lemma_entries_at_unfold(data@, 12, s);
                                lemma_entry_offsets(data@, 12, s[0]);
                                assert(data@[12] == 34);
                            } else {
                                assert(ser_entries_tail(s) =~= seq![125u8, 125u8]);
                                assert(data@.len() == 14);
                                lemma_prefix_index(data@, 12, ser_entries_tail(s));
                                assert(data@[13] == 125);
                            }
                        }
                    }
                    None
                }
            } else {
                proof {
                    assert forall|s: Seq<EntryModel>|
                        entries_clean(s) && data@ == #[trigger] spec_serialize(s)
                        implies s.len() >= 1 && ser_entries_tail(s).len() >= 0 by {
                        if s.len() == 0 {
                            assert(ser_entries_tail(s) =~= seq![125u8, 125u8]);
                            lemma_prefix_index(data@, 12, ser_entries_tail(s));
                            assert(data@.len() == 14);
                            assert(data@[12] == 125);
                        }
                    }
                }
                match scan_entries(data, p, &mid, &la) {
                    None => {
                        proof {
                            assert forall|s: Seq<EntryModel>|
                                entries_clean(s) && data@ == #[trigger] spec_serialize(s)
                                implies false by {
                                assert(s.len() >= 1);
                                assert(ser_entries_tail(s) == ser_entries_tail(s));
                            }
                        }
                        None
                    },
                    Some(es) => {
                        proof {
                            assert forall|s: Seq<EntryModel>|
                                entries_clean(s) && data@ == #[trigger] spec_serialize(s)
                                implies Seq::new(es@.len(), |i: int| es@[i]@) == s by {
                                assert(s.len() >= 1);
                                assert(ser_entries_tail(s) == ser_entries_tail(s));
                            }
                        }
                        Some(es)
                    },
                }
            }
        },
    }
}

/// Parses a persisted index. Succeeds exactly when the bytes are the
/// canonical serialization of some well-formed index — the form
/// `serialize_index` writes, with keys and filenames free of double quotes as
/// every key and filename this library builds is — and reports corruption
/// otherwise.
pub fn parse_index(data: &Vec<u8>) -> (r: Result<CacheIndex, CacheError>)
    ensures
        match r {
            Ok(ci) => ci.wf() && entries_clean(ci@) && spec_serialize(ci@) == data@,
            Err(e) => e == CacheError::IndexCorrupt && !exists|s: Seq<EntryModel>|
                entries_wf(s) && entries_clean(s) && spec_serialize(s) == data@,
        },
{
    match scan_index(data) {
        None => {
            proof {
                if exists|s: Seq<EntryModel>|
                    entries_wf(s) && entries_clean(s) && #[trigger] spec_serialize(s) == data@ {
                    let s = choose|s: Seq<EntryModel>|
                        entries_wf(s) && entries_clean(s) && #[trigger] spec_serialize(s)
                            == data@;
                    assert(spec_serialize(s) == spec_serialize(s));
                    assert(false);
                }
            }
            Err(CacheError::IndexCorrupt)
        },
        Some(entries) => {
            let ghost view = Seq::new(entries@.len(), |i: int| entries@[i]@);
            match CacheIndex::from_entries(entries) {
                None => {
                    proof {
                        if exists|s: Seq<EntryModel>|
                            entries_wf(s) && entries_clean(s) && #[trigger] spec_serialize(s)
                                == data@ {
                            let s = choose|s: Seq<EntryModel>|
                                entries_wf(s) && entries_clean(s) && #[trigger] spec_serialize(s)
                                    == data@;
                            assert(view == s);
                            assert(false);
                        }
                    }
                    Err(CacheError::IndexCorrupt)
                },
                Some(ci) => {
                    let ser = serialize_index(&ci);
                    if bytes_eq(&ser, data) {
                        Ok(ci)
                    } else {
                        proof {
                            if exists|s: Seq<EntryModel>|
                                entries_wf(s) && entries_clean(s) && #[trigger] spec_serialize(s)
                                    == data@ {
                                let s = choose|s: Seq<EntryModel>|
                                    entries_wf(s) && entries_clean(s)
                                        && #[trigger] spec_serialize(s) == data@;
                                assert(view == s);
                                assert(false);
                            }
                        }
                        Err(CacheError::IndexCorrupt)
                    }
                },
            }
        },
    }
}

/// The whole of `data` is the serialization of `s`, seen from the entries.
proof fn lemma_serialize_entries_at(s: Seq<EntryModel>, data: Seq<u8>)
    requires
        data == spec_serialize(s),
    ensures
        entries_at(data, 12, s),
{
    assert(data =~= lit_open() + ser_entries_tail(s));
    assert(data.subrange(0, (lit_open() + ser_entries_tail(s)).len() as int) =~= lit_open()
        + ser_entries_tail(s));
    lemma_prefix_split(data, 0, lit_open(), ser_entries_tail(s));
    assert(lit_open().len() == 12);
}

/// Two clean entry runs that fill the same bytes are the same run.
proof fn lemma_entries_at_injective(data: Seq<u8>, pos: int, s: Seq<EntryModel>, t: Seq<
    EntryModel,
>)
    requires
        entries_clean(s),
        entries_clean(t),
        s.len() >= 1,
        t.len() >= 1,
        entries_at(data, pos, s),
        entries_at(data, pos, t),
    ensures
        s == t,
    decreases s.len(),
{
    lemma_entries_at_unfold(data, pos, s);
    lemma_entries_at_unfold(data, pos, t);
    assert(entry_clean(s[0]));
    assert(entry_clean(t[0]));
    lemma_entry_offsets(data, pos, s[0]);
    lemma_entry_offsets(data, pos, t[0]);
    lemma_quote_run_unique(
        data,
        pos + 1,
        s[0].key,
        pos + 1 + s[0].key.len(),
        t[0].key,
        pos + 1 + t[0].key.len(),
    );
    lemma_quote_run_unique(
        data,
        pos + 16 + s[0].key.len(),
        s[0].filename,
        pos + 16 + s[0].key.len() + s[0].filename.len(),
        t[0].filename,
        pos + 16 + t[0].key.len() + t[0].filename.len(),
    );
    lemma_spec_dec_digits(s[0].last_accessed);
    lemma_spec_dec_digits(t[0].last_accessed);
    lemma_digit_run_unique(
        data,
        pos + 34 + s[0].key.len() + s[0].filename.len(),
        spec_dec(s[0].last_accessed),
        pos + 34 + s[0].key.len() + s[0].filename.len() + spec_dec(s[0].last_accessed).len(),
        spec_dec(t[0].last_accessed),
        pos + 34 + t[0].key.len() + t[0].filename.len() + spec_dec(t[0].last_accessed).len(),
    );
    lemma_spec_dec_injective(s[0].last_accessed, t[0].last_accessed);
    assert(s[0] =~= t[0]);
    assert(ser_entry(s[0]).len() == ser_entry(t[0]).len());
    if s.len() == 1 && t.len() == 1 {
        assert(s =~= t);
    } else if s.len() == 1 {
        assert(data[pos + ser_entry(s[0]).len()] == 125);
        assert(data[pos + ser_entry(t[0]).len()] == 44);
        assert(false);
    } else if t.len() == 1 {
        assert(data[pos + ser_entry(s[0]).len()] == 44);
        assert(data[pos + ser_entry(t[0]).len()] == 125);
        assert(false);
    } else {
        assert(entries_clean(s.drop_first())) by {
            assert forall|i: int| 0 <= i < s.drop_first().len() implies entry_clean(
                #[trigger] s.drop_first()[i],
            ) by {
                assert(s.drop_first()[i] == s[i + 1]);
            }
        }
        assert(entries_clean(t.drop_first())) by {
            assert forall|i: int| 0 <= i < t.drop_first().len() implies entry_clean(
                #[trigger] t.drop_first()[i],
            ) by {
                assert(t.drop_first()[i] == t[i + 1]);
            }
        }
        lemma_entries_at_injective(
            data,
            pos + ser_entry(s[0]).len() + 1,
            s.drop_first(),
            t.drop_first(),
        );
        assert forall|i: int| 0 <= i < s.len() implies s[i] == t[i] by {
            if i > 0 {
                assert(s[i] == s.drop_first()[i - 1]);
                assert(t[i] == t.drop_first()[i - 1]);
            }
        }
        assert(s =~= t);
    }
}

/// Law: the persisted form determines the index. Two clean entry runs with
/// the same serialization are the same run, so — with `parse_index`'s
/// contract — loading the bytes that `save_index` wrote for a clean index
/// restores exactly the entries that were saved.
pub proof fn lemma_serialize_injective(s: Seq<EntryModel>, t: Seq<EntryModel>)
    requires
        entries_clean(s),
        entries_clean(t),
        spec_serialize(s) == spec_serialize(t),
    ensures
        s == t,
{
    let data = spec_serialize(s);
    lemma_serialize_entries_at(s, data);
    lemma_serialize_entries_at(t, data);
    if s.len() == 0 && t.len() == 0 {
        assert(s =~= t);
    } else if s.len() == 0 {
        assert(ser_entries_tail(s) =~= seq![125u8, 125u8]);
        lemma_prefix_index(data, 12, ser_entries_tail(s));
        assert(data[12int + 0] == 125);
        lemma_entries_at_unfold(data, 12, t);
        lemma_entry_offsets(data, 12, t[0]);
        assert(false);
    } else if t.len() == 0 {
        assert(ser_entries_tail(t) =~= seq![125u8, 125u8]);
        lemma_prefix_index(data, 12, ser_entries_tail(t));
        assert(data[12int + 0] == 125);
        lemma_entries_at_unfold(data, 12, s);
        lemma_entry_offsets(data, 12, s[0]);
        assert(false);
    } else {
        lemma_entries_at_injective(data, 12, s, t);
    }
}

} // verus!
