//! Per-page font table and the per-font byte/text codec.
//!
//! A `Font` pairs an encoding name with an optional Unicode map. The
//! `UnicodeMapper` holds a page's fonts keyed by resource name and dispatches
//! decoding and encoding on the font's encoding: the composite path for
//! `Identity-H`, the collaborator's per-encoding table codec for everything
//! else. An unknown font name decodes to a sentinel and encodes to nothing.

use vstd::prelude::*;
use vstd::std_specs::cmp::PartialEqSpec;
use crate::cmap::{CMapData, chars_to_string, composite_decode, composite_encode};

verus! {

/// What the collaborator's table codec returns for an encoding name and a
/// byte string; a pure function of the two arguments.
pub uninterp spec fn simple_decode_of(encoding: Seq<char>, bytes: Seq<u8>) -> Seq<char>;

/// What the collaborator's table codec returns for an encoding name and a
/// text; a pure function of the two arguments.
pub uninterp spec fn simple_encode_of(encoding: Seq<char>, text: Seq<char>) -> Seq<u8>;

/// Relies on lopdf's Document::decode_text: a fixed per-encoding table (or
/// UTF-16BE) conversion from bytes to text, depending only on the encoding
/// name and the bytes.
#[verifier::external_body]
fn simple_decode(encoding: &str, bytes: &[u8]) -> (r: String)
    ensures
        r@ == simple_decode_of(encoding@, bytes@),
{
    lopdf::Document::decode_text(Some(encoding), bytes)
}

/// Relies on lopdf's Document::encode_text: the inverse table conversion
/// from text to bytes, depending only on the encoding name and the text.
#[verifier::external_body]
fn simple_encode(encoding: &str, text: &str) -> (r: Vec<u8>)
    ensures
        r@ == simple_encode_of(encoding@, text@),
{
    lopdf::Document::encode_text(Some(encoding), text)
}

/// One font: its encoding name and, when present, its Unicode map.
pub struct Font {
    /// The encoding name from the font's descriptor.
    pub encoding: String,
    /// The Unicode map built from the font's mapping stream, if it had a
    /// usable one.
    pub cmap: Option<CMapData>,
}

impl Font {
    /// Builds a font from its encoding name and optional forward map
    /// entries (distinct codes); the reverse map is derived.
    pub fn new(encoding: String, forward: Option<Vec<(u32, String)>>) -> (r: Font)
        requires
            forward matches Some(f) ==> forall|a: int, b: int|
                0 <= a < b < f@.len() ==> (#[trigger] f@[a]).0 != (#[trigger] f@[b]).0,
        ensures
            r.encoding == encoding,
            r.cmap is Some <==> forward is Some,
            forward matches Some(f) ==> {
                &&& r.cmap matches Some(c)
                &&& c.forward == f
                &&& c.wf()
                &&& crate::cmap::rev_inverts(f@, c.rev())
            },
    {
        match forward {
            Option::Some(f) => Font { encoding, cmap: Some(CMapData::new(f)) },
            Option::None => Font { encoding, cmap: None },
        }
    }

    /// The forward Unicode map, empty when the font has none.
    pub open spec fn fwd(&self) -> Map<u32, Seq<char>> {
        match self.cmap {
            Option::Some(c) => c.fwd(),
            Option::None => Map::empty(),
        }
    }

    /// The reverse Unicode map, empty when the font has none.
    pub open spec fn rev(&self) -> Map<char, u32> {
        match self.cmap {
            Option::Some(c) => c.rev(),
            Option::None => Map::empty(),
        }
    }
}

/// A font-name-keyed table as a map, later entries winning.
pub open spec fn table_view(s: Seq<(Vec<u8>, Font)>) -> Map<Seq<u8>, Font>
    decreases s.len(),
{
    if s.len() == 0 {
        Map::empty()
    } else {
        table_view(s.drop_last()).insert(s.last().0@, s.last().1)
    }
}

/// The sentinel returned when decoding under an unknown font name; never
/// matchable text.
pub open spec fn no_font_text() -> Seq<char> {
    "?NOFONT?"@
}

/// What decoding `bytes` under font `font` yields.
pub open spec fn decode_spec(m: Map<Seq<u8>, Font>, font: Seq<u8>, bytes: Seq<u8>) -> Seq<char> {
    if !m.dom().contains(font) {
        no_font_text()
    } else if m[font].encoding@ == "Identity-H"@ {
        composite_decode(m[font].fwd(), bytes)
    } else {
        simple_decode_of(m[font].encoding@, bytes)
    }
}

/// What encoding `text` under font `font` yields.
pub open spec fn encode_spec(m: Map<Seq<u8>, Font>, font: Seq<u8>, text: Seq<char>) -> Seq<u8> {
    if !m.dom().contains(font) {
        seq![]
    } else if m[font].encoding@ == "Identity-H"@ {
        composite_encode(m[font].rev(), text)
    } else {
        simple_encode_of(m[font].encoding@, text)
    }
}

/// A page's font table with per-font decode and encode.
pub struct UnicodeMapper {
    /// The fonts of one page, keyed by resource name.
    pub fonts: Vec<(Vec<u8>, Font)>,
}

impl View for UnicodeMapper {
    type V = Map<Seq<u8>, Font>;

    open spec fn view(&self) -> Map<Seq<u8>, Font> {
        table_view(self.fonts@)
    }
}

impl UnicodeMapper {
    /// Wraps a finished font table.
    pub fn new(maps: Vec<(Vec<u8>, Font)>) -> (r: UnicodeMapper)
        ensures
            r.fonts == maps,
    {
        UnicodeMapper { fonts: maps }
    }

    /// The latest font entry under `font`, if any.
    pub(crate) fn get_font(&self, font: &Vec<u8>) -> (r: Option<&Font>)
        ensures
            match r {
                Option::Some(f) => self@.dom().contains(font@) && *f == self@[font@],
                Option::None => !self@.dom().contains(font@),
            },
    {
        let mut i: usize = self.fonts.len();
        proof {
            assert(self.fonts@.take(self.fonts@.len() as int) =~= self.fonts@);
        }
        while i > 0
            invariant
                i <= self.fonts@.len(),
                self@.dom().contains(font@) == table_view(
                    self.fonts@.take(i as int),
                ).dom().contains(font@),
                table_view(self.fonts@.take(i as int)).dom().contains(font@) ==> self@[font@]
                    == table_view(self.fonts@.take(i as int))[font@],
            decreases i,
        {
            proof {
                let pre = self.fonts@.take(i as int);
                assert(pre.drop_last() =~= self.fonts@.take(i - 1));
                assert(pre.last() == self.fonts@[i - 1]);
            }
            if &self.fonts[i - 1].0 == font {
                proof {
                    assert(self.fonts@[i - 1].0@ =~= font@);
                }
                return Some(&self.fonts[i - 1].1);
            }
            proof {
                assert(self.fonts@[i - 1].0@ != font@) by {
                    if self.fonts@[i - 1].0@ == font@ {
                        assert(self.fonts@[i - 1].0.eq_spec(font));
                    }
                }
            }
            i = i - 1;
        }
        proof {
            assert(self.fonts@.take(0) =~= Seq::<(Vec<u8>, Font)>::empty());
        }
        None
    }

    /// Decode `bytes` under the font named `font` into text.
    pub fn decode(&self, font: &Vec<u8>, bytes: &[u8]) -> (r: String)
        ensures
            r@ == decode_spec(self@, font@, bytes@),
    {
        match self.get_font(font) {
            Option::Some(f) => {
                if crate::encoding::str_eq(f.encoding.as_str(), "Identity-H") {
                    match &f.cmap {
                        Option::Some(c) => {
                            let cs = c.decode_bytes(bytes);
                            chars_to_string(&cs)
                        },
                        Option::None => {
                            let cs: Vec<char> = Vec::new();
                            proof {
                                lemma_decode_empty_fwd(bytes@);
                                assert(composite_decode(f.fwd(), bytes@) =~= Seq::<
                                    char,
                                >::empty());
                            }
                            chars_to_string(&cs)
                        },
                    }
                } else {
                    simple_decode(f.encoding.as_str(), bytes)
                }
            },
            Option::None => String::from_str("?NOFONT?"),
        }
    }

    /// Encode `text` under the font named `font` into bytes.
    pub fn encode(&self, font: &Vec<u8>, text: &str) -> (r: Vec<u8>)
        ensures
            r@ == encode_spec(self@, font@, text@),
    {
        match self.get_font(font) {
            Option::Some(f) => {
                if crate::encoding::str_eq(f.encoding.as_str(), "Identity-H") {
                    match &f.cmap {
                        Option::Some(c) => {
                            let cs = crate::rules::str_chars(text);
                            c.encode_chars(&cs)
                        },
                        Option::None => {
                            let r: Vec<u8> = Vec::new();
                            proof {
                                assert(composite_encode(f.rev(), text@).len() == 0) by {
                                    lemma_encode_empty_rev(text@);
                                }
                                assert(composite_encode(f.rev(), text@) =~= Seq::<u8>::empty());
                            }
                            r
                        },
                    }
                } else {
                    simple_encode(f.encoding.as_str(), text)
                }
            },
            Option::None => Vec::new(),
        }
    }
}

/// Decoding under an empty forward map yields no text.
proof fn lemma_decode_empty_fwd(bytes: Seq<u8>)
    ensures
        composite_decode(Map::<u32, Seq<char>>::empty(), bytes).len() == 0,
    decreases bytes.len(),
{
    if bytes.len() >= 2 {
        lemma_decode_empty_fwd(bytes.skip(2));
    }
}

/// Encoding under an empty reverse map yields no bytes.
proof fn lemma_encode_empty_rev(text: Seq<char>)
    ensures
        composite_encode(Map::<char, u32>::empty(), text).len() == 0,
    decreases text.len(),
{
    if text.len() > 0 {
        lemma_encode_empty_rev(text.skip(1));
    }
}

} // verus!
