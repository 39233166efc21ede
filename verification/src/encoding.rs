//! Classification of font encoding names.
//!
//! Which codec path a font's text takes is a pure function of the encoding
//! name found in the font's descriptor: the composite (multi-byte, CID-indexed)
//! path for `Identity-H`, a simple single-byte table path for a fixed
//! allow-list of names, and no rewriting at all for anything else.

use vstd::prelude::*;

verus! {

/// The three codec paths a font's encoding name can select.
#[derive(PartialEq, Eq, Structural, Clone, Copy, Debug)]
pub enum EncodingClass {
    /// `Identity-H`: multi-byte codes looked up in the font's Unicode map.
    Composite,
    /// One of the built-in single-byte encoding tables.
    SimpleTable,
    /// Any other (or absent) encoding name: text under it is never rewritten.
    Unsupported,
}

/// Compares two string slices character by character.
pub fn str_eq(a: &str, b: &str) -> (r: bool)
    ensures
        r <==> a@ == b@,
{
    let a_len = a.unicode_len();
    let b_len = b.unicode_len();
    if a_len != b_len {
        return false;
    }
    let mut i: usize = 0;
    while i < a_len
        invariant
            i <= a_len,
            a_len == a@.len(),
            b_len == b@.len(),
            a_len == b_len,
            forall|j: int| 0 <= j < i ==> a@[j] == b@[j],
        decreases a_len - i,
    {
        if a.get_char(i) != b.get_char(i) {
            return false;
        }
        i = i + 1;
    }
    proof {
        assert(a@ =~= b@);
    }
    true
}

/// The class an encoding name selects, as a spec-level function of the name.
pub open spec fn spec_classify(encoding: Option<Seq<char>>) -> EncodingClass {
    match encoding {
        Option::Some(name) => {
            if name == "Identity-H"@ {
                EncodingClass::Composite
            } else if name == "StandardEncoding"@ || name == "MacRomanEncoding"@
                || name == "MacExpertEncoding"@ || name == "WinAnsiEncoding"@
                || name == "UniGB-UCS2-H"@ || name == "UniGB-UTF16-H"@ {
                EncodingClass::SimpleTable
            } else {
                EncodingClass::Unsupported
            }
        },
        Option::None => EncodingClass::Unsupported,
    }
}

/// Classifies an encoding name into the codec path it requires.
pub fn classify_encoding(encoding: Option<&str>) -> (r: EncodingClass)
    ensures
        r == spec_classify(match encoding {
            Option::Some(name) => Option::Some(name@),
            Option::None => Option::<Seq<char>>::None,
        }),
{
    match encoding {
        Option::Some(name) => {
            if str_eq(name, "Identity-H") {
                EncodingClass::Composite
            } else if str_eq(name, "StandardEncoding") || str_eq(name, "MacRomanEncoding")
                || str_eq(name, "MacExpertEncoding") || str_eq(name, "WinAnsiEncoding")
                || str_eq(name, "UniGB-UCS2-H") || str_eq(name, "UniGB-UTF16-H") {
                EncodingClass::SimpleTable
            } else {
                EncodingClass::Unsupported
            }
        },
        Option::None => EncodingClass::Unsupported,
    }
}

/// True when text under the encoding may be rewritten at all.
pub fn valid_encoding(encoding: Option<&str>) -> (r: bool)
    ensures
        r <==> spec_classify(match encoding {
            Option::Some(name) => Option::Some(name@),
            Option::None => Option::<Seq<char>>::None,
        }) != EncodingClass::Unsupported,
{
    let class = classify_encoding(encoding);
    match class {
        EncodingClass::Unsupported => false,
        _ => true,
    }
}

} // verus!
