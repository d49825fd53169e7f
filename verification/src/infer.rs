//! Schema inference: assigning a type to each column from a bounded sample
//! of leading records.
//!
//! Each sampled value is classified as the narrowest type that represents
//! it, and classifications are unified with precedence integer <
//! floating-point < string; boolean survives only when every sampled value
//! is exactly a boolean literal.  A column with no informative sample
//! (empty, null or missing everywhere) becomes a string column.

use vstd::prelude::*;
use vstd::pervasive::VecAdditionalExecFns;

use crate::batch::DataType;
use crate::jsontext::{lit_true, lit_false, JsvV, Jsv};
use crate::num::{is_int_lit, is_decimal_lit, float_info, is_digit};

verus! {

pub open spec fn is_bool_lit(s: Seq<u8>) -> bool {
    s == lit_true() || s == lit_false()
}

/// The narrowest type whose text form covers `t`.
pub open spec fn classify_text(t: Seq<u8>) -> DataType {
    if is_bool_lit(t) {
        DataType::Boolean
    } else if is_int_lit(t) {
        DataType::Int64
    } else if is_decimal_lit(t) {
        DataType::Float64
    } else {
        DataType::Utf8
    }
}

/// Exact equality with the boolean literal `true`.
pub fn eq_true(t: &[u8]) -> (r: bool)
    ensures
        r == (t@ == lit_true()),
{
    if t.len() == 4 && t[0] == 't' as u8 && t[1] == 'r' as u8 && t[2] == 'u' as u8 && t[3]
        == 'e' as u8 {
        assert(t@ =~= lit_true());
        true
    } else {
        assert(t@ != lit_true()) by {
            if t@ == lit_true() {
                assert(t@[0] == 't' as u8 && t@[1] == 'r' as u8 && t@[2] == 'u' as u8 && t@[3]
                    == 'e' as u8);
            }
        }
        false
    }
}

/// Exact equality with the boolean literal `false`.
pub fn eq_false(t: &[u8]) -> (r: bool)
    ensures
        r == (t@ == lit_false()),
{
    if t.len() == 5 && t[0] == 'f' as u8 && t[1] == 'a' as u8 && t[2] == 'l' as u8 && t[3]
        == 's' as u8 && t[4] == 'e' as u8 {
        assert(t@ =~= lit_false());
        true
    } else {
        assert(t@ != lit_false()) by {
            if t@ == lit_false() {
                assert(t@[0] == 'f' as u8 && t@[1] == 'a' as u8 && t@[2] == 'l' as u8 && t@[3]
                    == 's' as u8 && t@[4] == 'e' as u8);
            }
        }
        false
    }
}

/// Whether `t` is an integer literal.
pub fn is_int_text(t: &[u8]) -> (r: bool)
    ensures
        r == is_int_lit(t@),
{
    let n = t.len();
    let neg = n >= 1 && t[0] == '-' as u8;
    let start: usize = if neg {
        1
    } else {
        0
    };
    if n == start {
        return false;
    }
    let mut k: usize = start;
    while k < n
        invariant
            start <= k <= n,
            n == t@.len(),
            start == (if n >= 1 && t@[0] == '-' as u8 {
                1int
            } else {
                0int
            }),
            forall|j: int| start <= j < k ==> is_digit(#[trigger] t@[j]),
        decreases n - k,
    {
        let b = t[k];
        if !('0' as u8 <= b && b <= '9' as u8) {
            assert(!is_digit(t@[k as int]));
            if start == 1 {
                assert(t@.skip(1)[k - 1] == t@[k as int]);
            }
            return false;
        }
        k += 1;
    }
    if start == 1 {
        assert(forall|j: int| 0 <= j < t@.skip(1).len() ==> is_digit(#[trigger] t@.skip(1)[j]));
    }
    true
}

/// Classifies one field text.
pub fn classify_text_exec(t: &[u8]) -> (r: DataType)
    ensures
        r == classify_text(t@),
{
    if eq_true(t) || eq_false(t) {
        DataType::Boolean
    } else if is_int_text(t) {
        DataType::Int64
    } else {
        match float_info(t) {
            Some(info) => {
                if info.has_dot || info.has_exp {
                    DataType::Float64
                } else {
                    DataType::Utf8
                }
            },
            None => DataType::Utf8,
        }
    }
}

/// Unifies two sample classifications: equal types stand, integer widens
/// to floating-point, anything else falls back to string.  `None` means no
/// information.
pub open spec fn unify(a: Option<DataType>, b: Option<DataType>) -> Option<DataType> {
    match (a, b) {
        (Option::None, x) => x,
        (x, Option::None) => x,
        (Option::Some(x), Option::Some(y)) => {
            if x == y {
                Some(x)
            } else if (x == DataType::Int64 && y == DataType::Float64) || (x == DataType::Float64
                && y == DataType::Int64) {
                Some(DataType::Float64)
            } else {
                Some(DataType::Utf8)
            }
        },
    }
}

pub fn unify_exec(a: Option<DataType>, b: Option<DataType>) -> (r: Option<DataType>)
    ensures
        r == unify(a, b),
{
    match (a, b) {
        (Option::None, x) => x,
        (x, Option::None) => x,
        (Option::Some(x), Option::Some(y)) => {
            if x == y {
                Some(x)
            } else if (x == DataType::Int64 && y == DataType::Float64) || (x == DataType::Float64
                && y == DataType::Int64) {
                Some(DataType::Float64)
            } else {
                Some(DataType::Utf8)
            }
        },
    }
}

/// Whether a number literal names a floating-point value: it carries a dot
/// or an exponent.
pub open spec fn num_is_float(raw: Seq<u8>) -> bool {
    exists|k: int|
        0 <= k < raw.len() && (#[trigger] raw[k] == '.' as u8 || raw[k] == 'e' as u8 || raw[k]
            == 'E' as u8)
}

pub fn num_is_float_exec(raw: &[u8]) -> (r: bool)
    ensures
        r == num_is_float(raw@),
{
    let mut k: usize = 0;
    while k < raw.len()
        invariant
            k <= raw@.len(),
            forall|j: int|
                0 <= j < k ==> !(#[trigger] raw@[j] == '.' as u8 || raw@[j] == 'e' as u8 || raw@[j]
                    == 'E' as u8),
        decreases raw@.len() - k,
    {
        let b = raw[k];
        if b == '.' as u8 || b == 'e' as u8 || b == 'E' as u8 {
            assert(raw@[k as int] == '.' as u8 || raw@[k as int] == 'e' as u8 || raw@[k as int]
                == 'E' as u8);
            return true;
        }
        k += 1;
    }
    false
}

/// The classification of one record scalar; null carries no information.
pub open spec fn classify_jsv(v: JsvV) -> Option<DataType> {
    match v {
        JsvV::Null => None,
        JsvV::Bool(_) => Some(DataType::Boolean),
        JsvV::Num(raw) => if num_is_float(raw) {
            Some(DataType::Float64)
        } else {
            Some(DataType::Int64)
        },
        JsvV::Str(_) => Some(DataType::Utf8),
    }
}

pub fn classify_jsv_exec(v: &Jsv) -> (r: Option<DataType>)
    ensures
        r == classify_jsv(v@),
{
    match v {
        Jsv::Null => None,
        Jsv::Bool(_) => Some(DataType::Boolean),
        Jsv::Num(raw) => if num_is_float_exec(raw.as_slice()) {
            Some(DataType::Float64)
        } else {
            Some(DataType::Int64)
        },
        Jsv::Str(_) => Some(DataType::Utf8),
    }
}

/// One column candidate while inferring from structured records: the key
/// and what has been learned of its type.
pub struct KeyCand {
    pub key: Vec<u8>,
    pub cand: Option<DataType>,
}

/// Mathematical mirror of [`KeyCand`].
#[verifier::ext_equal]
pub struct KeyCandV {
    pub key: Seq<u8>,
    pub cand: Option<DataType>,
}

impl View for KeyCand {
    type V = KeyCandV;

    open spec fn view(&self) -> KeyCandV {
        KeyCandV { key: self.key@, cand: self.cand }
    }
}

impl DeepView for KeyCand {
    type V = KeyCandV;

    open spec fn deep_view(&self) -> KeyCandV {
        self.view()
    }
}

/// Index of `k` among the candidates, `-1` when absent.
pub open spec fn find_key(acc: Seq<KeyCandV>, k: Seq<u8>) -> int
    decreases acc.len(),
{
    if acc.len() == 0 {
        -1
    } else if acc[0].key == k {
        0
    } else {
        let r = find_key(acc.drop_first(), k);
        if r < 0 {
            -1
        } else {
            r + 1
        }
    }
}

pub proof fn lemma_find_key(acc: Seq<KeyCandV>, k: Seq<u8>)
    ensures
        -1 <= find_key(acc, k) < acc.len(),
        find_key(acc, k) >= 0 ==> acc[find_key(acc, k)].key == k,
    decreases acc.len(),
{
    if acc.len() > 0 && acc[0].key != k {
        lemma_find_key(acc.drop_first(), k);
    }
}

/// Equality of two byte vectors.
pub fn bytes_eq(a: &[u8], b: &[u8]) -> (r: bool)
    ensures
        r == (a@ == b@),
{
    if a.len() != b.len() {
        return false;
    }
    let mut k: usize = 0;
    while k < a.len()
        invariant
            k <= a@.len(),
            a@.len() == b@.len(),
            forall|j: int| 0 <= j < k ==> a@[j] == b@[j],
        decreases a@.len() - k,
    {
        if a[k] != b[k] {
            return false;
        }
        k += 1;
    }
    assert(a@ =~= b@);
    true
}

fn find_key_exec(acc: &Vec<KeyCand>, k: &[u8]) -> (r: Option<usize>)
    ensures
        match r {
            Some(i) => i < acc@.len() && find_key(acc.deep_view(), k@) == i as int,
            None => find_key(acc.deep_view(), k@) == -1,
        },
{
    let ghost accv = acc.deep_view();
    let mut i: usize = 0;
    while i < acc.len()
        invariant
            i <= acc@.len(),
            accv == acc.deep_view(),
            accv.len() == acc@.len(),
            find_key(accv, k@) == -1 || find_key(accv, k@) >= i,
            forall|j: int| 0 <= j < i ==> (#[trigger] accv[j]).key != k@,
        decreases acc@.len() - i,
    {
        proof {
            lemma_find_key(accv, k@);
        }
        if bytes_eq(acc[i].key.as_slice(), k) {
            proof {
                lemma_find_key_at(accv, k@, i as int);
            }
            return Some(i);
        }
        i += 1;
        proof {
            lemma_find_key(accv, k@);
        }
    }
    proof {
        lemma_find_key(accv, k@);
        if find_key(accv, k@) >= 0 {
            assert(accv[find_key(accv, k@)].key == k@);
        }
    }
    None
}

/// `find_key` returns the first index whose key matches.
pub proof fn lemma_find_key_at(acc: Seq<KeyCandV>, k: Seq<u8>, i: int)
    requires
        0 <= i < acc.len(),
        acc[i].key == k,
        forall|j: int| 0 <= j < i ==> (#[trigger] acc[j]).key != k,
    ensures
        find_key(acc, k) == i,
    decreases acc.len(),
{
    if acc.len() > 0 && acc[0].key != k {
        assert(acc.drop_first()[i - 1] == acc[i]);
        assert(forall|j: int| 0 <= j < i - 1 ==> acc.drop_first()[j] == acc[j + 1]);
        lemma_find_key_at(acc.drop_first(), k, i - 1);
    }
}

/// Folds the pairs of one record into the accumulated candidates: a new
/// key is appended with its classification, a seen key's candidate is
/// unified.
pub open spec fn infer_pairs(acc: Seq<KeyCandV>, pairs: Seq<crate::jsontext::PairV>, idx: int) -> Seq<
    KeyCandV,
>
    decreases pairs.len() - idx,
{
    if idx < 0 || idx >= pairs.len() {
        acc
    } else {
        let k = pairs[idx].key;
        let c = classify_jsv(pairs[idx].val);
        let i = find_key(acc, k);
        let acc2 = if i >= 0 {
            acc.update(i, KeyCandV { key: k, cand: unify(acc[i].cand, c) })
        } else {
            acc.push(KeyCandV { key: k, cand: c })
        };
        infer_pairs(acc2, pairs, idx + 1)
    }
}

/// Folds the sampled records into column candidates.
pub open spec fn infer_sample(acc: Seq<KeyCandV>, recs: Seq<Seq<crate::jsontext::PairV>>, r: int) -> Seq<
    KeyCandV,
>
    decreases recs.len() - r,
{
    if r < 0 || r >= recs.len() {
        acc
    } else {
        infer_sample(infer_pairs(acc, recs[r], 0), recs, r + 1)
    }
}

fn infer_pairs_exec(acc: &mut Vec<KeyCand>, pairs: &Vec<crate::jsontext::Pair>)
    ensures
        final(acc).deep_view() == infer_pairs(old(acc).deep_view(), pairs.deep_view(), 0),
{
    let n = pairs.len();
    let mut idx: usize = 0;
    while idx < n
        invariant
            idx <= n,
            n == pairs@.len(),
            infer_pairs(acc.deep_view(), pairs.deep_view(), idx as int) == infer_pairs(
                old(acc).deep_view(),
                pairs.deep_view(),
                0,
            ),
        decreases n - idx,
    {
        assert(pairs.deep_view()[idx as int] == pairs@[idx as int].deep_view());
        let c = classify_jsv_exec(&pairs[idx].val);
        let ghost accv = acc.deep_view();
        match find_key_exec(acc, pairs[idx].key.as_slice()) {
            Some(i) => {
                let u = unify_exec(acc[i].cand, c);
                let kd = crate::batch::dup_bytes(&pairs[idx].key);
                acc.set(i, KeyCand { key: kd, cand: u });
                assert(acc.deep_view() =~~= accv.update(
                    i as int,
                    KeyCandV { key: pairs.deep_view()[idx as int].key, cand: unify(accv[i as int].cand, c) },
                ));
            },
            None => {
                let kd = crate::batch::dup_bytes(&pairs[idx].key);
                acc.push(KeyCand { key: kd, cand: c });
                assert(acc.deep_view() =~~= accv.push(
                    KeyCandV { key: pairs.deep_view()[idx as int].key, cand: c },
                ));
            },
        }
        idx += 1;
    }
}

/// Folds the sampled records into column candidates.
pub fn infer_sample_exec(recs: &Vec<Vec<crate::jsontext::Pair>>, upto: usize) -> (r: Vec<KeyCand>)
    requires
        upto <= recs@.len(),
    ensures
        r.deep_view() == infer_sample_upto(recs.deep_view(), upto as int),
{
    let mut acc: Vec<KeyCand> = Vec::new();
    assert(acc.deep_view() =~~= Seq::<KeyCandV>::empty());
    let mut i: usize = 0;
    while i < upto
        invariant
            i <= upto <= recs@.len(),
            acc.deep_view() == infer_sample_partial(recs.deep_view(), i as int),
        decreases upto - i,
    {
        assert(recs.deep_view()[i as int] == recs@[i as int].deep_view());
        infer_pairs_exec(&mut acc, &recs[i]);
        i += 1;
    }
    acc
}

/// Candidates after folding the first `r` records.
pub open spec fn infer_sample_partial(recs: Seq<Seq<crate::jsontext::PairV>>, r: int) -> Seq<
    KeyCandV,
>
    decreases r,
{
    if r <= 0 {
        Seq::empty()
    } else {
        infer_pairs(infer_sample_partial(recs, r - 1), recs[r - 1], 0)
    }
}

/// Candidates from the first `upto` records.
pub open spec fn infer_sample_upto(recs: Seq<Seq<crate::jsontext::PairV>>, upto: int) -> Seq<
    KeyCandV,
> {
    infer_sample_partial(recs, upto)
}

} // verus!
