//! The closed set of encoding tags and how a tag is resolved from a name.
//!
//! A tag is resolved either from an explicit encoding name (matched without
//! regard to case) or from the extension of a file name.  Spreadsheet and
//! columnar-binary tags are recognized here but resolve to "unsupported"
//! when a decoder or encoder is requested for them.

use vstd::prelude::*;
use vstd::string::StringSliceAdditionalSpecFns;

use crate::error::ConvError;

verus! {

/// A requested encoding.
#[derive(Clone, Copy, PartialEq, Eq, Structural, Debug)]
pub enum Type {
    Csv,
    Json,
    Xlsx,
    Parquet,
}

/// ASCII upper-case letters folded to lower case; all other bytes kept.
pub open spec fn fold_lower(b: u8) -> u8 {
    if 'A' as u8 <= b && b <= 'Z' as u8 {
        (b + 32) as u8
    } else {
        b
    }
}

/// `fold_lower` applied to a whole byte sequence.
pub open spec fn fold_lower_seq(s: Seq<u8>) -> Seq<u8> {
    s.map_values(|b: u8| fold_lower(b))
}

pub open spec fn csv_name() -> Seq<u8> {
    seq!['c' as u8, 's' as u8, 'v' as u8]
}

pub open spec fn json_name() -> Seq<u8> {
    seq!['j' as u8, 's' as u8, 'o' as u8, 'n' as u8]
}

pub open spec fn xlsx_name() -> Seq<u8> {
    seq!['x' as u8, 'l' as u8, 's' as u8, 'x' as u8]
}

pub open spec fn parquet_name() -> Seq<u8> {
    seq![
        'p' as u8,
        'a' as u8,
        'r' as u8,
        'q' as u8,
        'u' as u8,
        'e' as u8,
        't' as u8,
    ]
}

/// The tag a name resolves to, ignoring ASCII case; `None` when the name is
/// not one of the four recognized encodings.
pub open spec fn type_of_name(s: Seq<u8>) -> Option<Type> {
    let l = fold_lower_seq(s);
    if l == csv_name() {
        Some(Type::Csv)
    } else if l == json_name() {
        Some(Type::Json)
    } else if l == xlsx_name() {
        Some(Type::Xlsx)
    } else if l == parquet_name() {
        Some(Type::Parquet)
    } else {
        None
    }
}

fn to_lower(b: u8) -> (r: u8)
    ensures
        r == fold_lower(b),
{
    if 'A' as u8 <= b && b <= 'Z' as u8 {
        b + 32
    } else {
        b
    }
}

/// True exactly when the case-folded input equals the (already lower-case)
/// pattern.
fn lower_eq(b: &[u8], pat: &[u8]) -> (r: bool)
    ensures
        r <==> fold_lower_seq(b@) == pat@,
{
    if b.len() != pat.len() {
        assert(fold_lower_seq(b@).len() == b@.len());
        return false;
    }
    let mut i: usize = 0;
    while i < b.len()
        invariant
            0 <= i <= b.len(),
            b.len() == pat.len(),
            forall|j: int| 0 <= j < i ==> fold_lower(b@[j]) == pat@[j],
        decreases b.len() - i,
    {
        if to_lower(b[i]) != pat[i] {
            assert(fold_lower_seq(b@)[i as int] != pat@[i as int]);
            return false;
        }
        i += 1;
    }
    assert(fold_lower_seq(b@) =~= pat@);
    true
}

/// The tag that a sequence of name bytes resolves to.
pub fn type_of_bytes(b: &[u8]) -> (r: Option<Type>)
    ensures
        r == type_of_name(b@),
{
    let csv: Vec<u8> = vec!['c' as u8, 's' as u8, 'v' as u8];
    let json: Vec<u8> = vec!['j' as u8, 's' as u8, 'o' as u8, 'n' as u8];
    let xlsx: Vec<u8> = vec!['x' as u8, 'l' as u8, 's' as u8, 'x' as u8];
    let parquet: Vec<u8> = vec![
        'p' as u8,
        'a' as u8,
        'r' as u8,
        'q' as u8,
        'u' as u8,
        'e' as u8,
        't' as u8,
    ];
    assert(csv@ =~= csv_name());
    assert(json@ =~= json_name());
    assert(xlsx@ =~= xlsx_name());
    assert(parquet@ =~= parquet_name());
    if lower_eq(b, csv.as_slice()) {
        Some(Type::Csv)
    } else if lower_eq(b, json.as_slice()) {
        Some(Type::Json)
    } else if lower_eq(b, xlsx.as_slice()) {
        Some(Type::Xlsx)
    } else if lower_eq(b, parquet.as_slice()) {
        Some(Type::Parquet)
    } else {
        None
    }
}

impl Type {
    /// Resolves an encoding name, without regard to ASCII case.
    pub fn try_from(s: &str) -> (r: Result<Type, ConvError>)
        ensures
            match type_of_name(s.spec_bytes()) {
                Some(t) => r == Ok::<Type, ConvError>(t),
                None => r == Err::<Type, ConvError>(ConvError::UnknownType),
            },
    {
        match type_of_bytes(s.as_bytes()) {
            Some(t) => Ok(t),
            None => Err(ConvError::UnknownType),
        }
    }
}

/// Index where the suffix after the last occurrence of `b` starts; `0` when
/// `b` does not occur.
pub open spec fn suffix_start(s: Seq<u8>, b: u8) -> int
    decreases s.len(),
{
    if s.len() == 0 {
        0
    } else if s[s.len() - 1] == b {
        s.len() as int
    } else {
        suffix_start(s.drop_last(), b)
    }
}

pub proof fn lemma_suffix_start_bounds(s: Seq<u8>, b: u8)
    ensures
        0 <= suffix_start(s, b) <= s.len(),
    decreases s.len(),
{
    if s.len() > 0 && s[s.len() - 1] != b {
        lemma_suffix_start_bounds(s.drop_last(), b);
    }
}

/// The extension of a file name: the part of the final path component after
/// its last dot, absent when there is no dot or when the only dot starts a
/// hidden file's name.
pub open spec fn extension_of(p: Seq<u8>) -> Option<Seq<u8>> {
    let name = p.subrange(suffix_start(p, '/' as u8), p.len() as int);
    let ds = suffix_start(name, '.' as u8);
    if ds <= 1 {
        None
    } else {
        Some(name.subrange(ds, name.len() as int))
    }
}

/// Start of the suffix after the last occurrence of `b` in `s`.
fn find_suffix_start(s: &[u8], b: u8) -> (r: usize)
    ensures
        r == suffix_start(s@, b),
        r <= s@.len(),
{
    proof {
        lemma_suffix_start_bounds(s@, b);
    }
    assert(s@.take(s@.len() as int) =~= s@);
    let mut i: usize = s.len();
    while i > 0
        invariant
            0 <= i <= s.len(),
            suffix_start(s@, b) == suffix_start(s@.take(i as int), b),
        decreases i,
    {
        assert(s@.take(i as int).drop_last() =~= s@.take(i as int - 1));
        if s[i - 1] == b {
            assert(suffix_start(s@.take(i as int), b) == i);
            return i;
        }
        i -= 1;
    }
    assert(s@.take(0) =~= Seq::<u8>::empty());
    0
}

/// Resolves the encoding to use: an explicitly given tag wins; otherwise the
/// tag is inferred from the file name's extension; with neither, resolution
/// fails.
pub fn infer_type(f: &Option<String>, t: &Option<Type>) -> (r: Result<Type, ConvError>)
    ensures
        match (t, f) {
            (Some(ty), _) => r == Ok::<Type, ConvError>(*ty),
            (None, Some(name)) => match extension_of(vstd::utf8::encode_utf8(name@)) {
                Some(e) => match type_of_name(e) {
                    Some(ty) => r == Ok::<Type, ConvError>(ty),
                    None => r == Err::<Type, ConvError>(ConvError::UnknownType),
                },
                None => r == Err::<Type, ConvError>(ConvError::UnknownType),
            },
            (None, None) => r == Err::<Type, ConvError>(ConvError::NoInput),
        },
{
    match t {
        Some(ty) => Ok(*ty),
        None => match f {
            Some(name) => {
                let b: &[u8] = name.as_str().as_bytes();
                let ns = find_suffix_start(b, '/' as u8);
                let comp: &[u8] = vstd::slice::slice_subrange(b, ns, b.len());
                let ds = find_suffix_start(comp, '.' as u8);
                if ds <= 1 {
                    Err(ConvError::UnknownType)
                } else {
                    proof {
                        lemma_suffix_start_bounds(comp@, '.' as u8);
                    }
                    let ext: &[u8] = vstd::slice::slice_subrange(comp, ds, comp.len());
                    match type_of_bytes(ext) {
                        Some(ty) => Ok(ty),
                        None => Err(ConvError::UnknownType),
                    }
                }
            },
            None => Err(ConvError::NoInput),
        },
    }
}

} // verus!
