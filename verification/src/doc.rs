//! The page orchestrator and the trusted boundary to the collaborator
//! libraries: the document model (lopdf) and the CMap-table parser
//! (adobe_cmap_parser).
//!
//! For each page in document order: the page's fonts are resolved and their
//! Unicode maps built, the content stream is decoded into an operation
//! sequence, the walker rewrites it, and — only when something was actually
//! modified — the re-serialized sequence is committed back to the page, so an
//! untouched page keeps its stored bytes exactly.

use vstd::prelude::*;
use crate::cmap::transform_unicode_map;
use crate::content::{clone_bytes, rewrite_operations, Operand, Operation, TextKind, WalkError};
use crate::mapper::{Font, UnicodeMapper};
use crate::rules::ReplaceMap;
use adobe_cmap_parser::Value;

verus! {

/// lopdf's document object graph; opaque here, read and written only through
/// the trusted wrappers of this module.
#[verifier::external_type_specification]
#[verifier::external_body]
pub struct ExDocument(lopdf::Document);

/// lopdf's basic object variant type; carried through untouched operands.
#[verifier::external_type_specification]
#[verifier::external_body]
pub struct ExObject(lopdf::Object);

/// lopdf's dictionary type; a font's descriptor.
#[verifier::external_type_specification]
#[verifier::external_body]
pub struct ExDictionary(lopdf::Dictionary);

/// The CMap parser's token type; only inspected by the scan guard below.
#[verifier::external_type_specification]
#[verifier::external_body]
pub struct ExValue(Value);

/// The fatal conditions that abort processing of a document.
#[derive(PartialEq, Eq, Structural, Clone, Copy, Debug)]
pub enum ReplaceError {
    /// The page number has no backing page object.
    PageNotFound,
    /// The page's content stream could not be read.
    ContentUnreadable,
    /// The content bytes could not be decoded into operations.
    ContentUndecodable,
    /// The rewritten operations could not be re-serialized.
    ContentUnencodable,
    /// The rewritten content could not be committed to the page.
    ContentNotCommitted,
    /// A `Tf` operator with no operand.
    MissingFontOperand,
    /// A `Tf` operator whose first operand is not a name.
    FontOperandNotAName,
}

/// Relies on lopdf's Document::page_iter: the id of the page at `index` in
/// document order, if there is one.
#[verifier::external_body]
fn nth_page_id(doc: &lopdf::Document, index: usize) -> (r: Option<(u32, u16)>) {
    doc.page_iter().nth(index)
}

/// Relies on lopdf's Document::get_page_fonts: the page's font dictionaries
/// keyed by resource name. The page's Parent chain is walked with a bound
/// first, because get_page_fonts follows that chain with none and would
/// never return from a cyclic one; a page whose chain does not end within
/// the bound gets an empty font table, so its text is never rewritten.
#[verifier::external_body]
fn page_fonts(doc: &lopdf::Document, page_id: (u32, u16)) -> (r: Vec<(Vec<u8>, lopdf::Dictionary)>) {
    let mut cursor = page_id;
    for _ in 0..256 {
        let dict = doc.get_dictionary(cursor).ok();
        match dict.and_then(|d| d.get(b"Parent").ok()).and_then(|p| p.as_reference().ok()) {
            Some(next) => cursor = next,
            None => return doc.get_page_fonts(page_id).into_iter().map(|(n, d)| (n, d.clone())).collect(),
        }
    }
    Vec::new()
}

/// Relies on lopdf's Dictionary::get_font_encoding: the font's encoding
/// name, defaulting to the standard one when the descriptor names none.
#[verifier::external_body]
fn font_encoding(font: &lopdf::Dictionary) -> (r: String) {
    font.get_font_encoding().to_string()
}

/// Relies on lopdf's Dictionary::get, Document::get_object,
/// Object::as_stream and Stream::decompressed_content: the decompressed
/// bytes of the font's Unicode-mapping stream, inline or by reference; None
/// on any failure, a per-font soft condition.
#[verifier::external_body]
fn to_unicode_bytes(doc: &lopdf::Document, font: &lopdf::Dictionary) -> (r: Option<Vec<u8>>) {
    match font.get(b"ToUnicode") {
        Ok(lopdf::Object::Stream(s)) => s.decompressed_content().ok(),
        Ok(lopdf::Object::Reference(id)) => doc
            .get_object(*id)
            .ok()?
            .as_stream()
            .ok()?
            .decompressed_content()
            .ok(),
        _ => None,
    }
}

/// The code-to-payload mapping that the CMap parser reads out of a
/// Unicode-mapping stream; a function of the stream bytes alone.
pub uninterp spec fn unicode_cmap_of(bytes: Seq<u8>) -> Map<u32, Seq<u8>>;

/// The byte shapes under which the collaborator's CMap parser is known to
/// return rather than abort. Its dictionary keys must be text, so any byte
/// outside plain ASCII and any `#` name escape is refused — wider than the
/// aborting inputs (a non-text byte in a comment or string would be
/// harmless), but a refusal only costs that font its map, the usual per-font
/// soft failure. The parser also recurses once per open array, dictionary or
/// literal string, so their combined nesting is capped, reading string,
/// hex-string and comment content the way its tokenizer does: an escaped
/// byte never closes a string, hex strings run to `>`, comments to end of
/// line, and a closer outside its construct closes nothing.
fn cmap_bytes_tame(bytes: &Vec<u8>) -> (r: bool) {
    let n = bytes.len();
    let mut depth: usize = 0;
    let mut string_depth: usize = 0;
    let mut in_hex = false;
    let mut in_comment = false;
    let mut i: usize = 0;
    while i < n
        invariant
            i <= n,
            n == bytes@.len(),
            depth + string_depth <= 64,
        decreases n - i,
    {
        let b = bytes[i];
        if b >= 0x80 || b == 0x23 {
            return false;
        }
        if in_comment {
            if b == 0x0A || b == 0x0D {
                in_comment = false;
            }
            i = i + 1;
        } else if in_hex {
            if b == 0x3E {
                in_hex = false;
            }
            i = i + 1;
        } else if string_depth > 0 {
            if b == 0x5C {
                if n - i >= 2 {
                    i = i + 2;
                } else {
                    i = n;
                }
            } else {
                if b == 0x28 {
                    if depth + string_depth >= 64 {
                        return false;
                    }
                    string_depth = string_depth + 1;
                } else if b == 0x29 {
                    string_depth = string_depth - 1;
                }
                i = i + 1;
            }
        } else {
            if b == 0x25 {
                in_comment = true;
                i = i + 1;
            } else if b == 0x28 {
                if depth + string_depth >= 64 {
                    return false;
                }
                string_depth = 1;
                i = i + 1;
            } else if b == 0x5B {
                if depth + string_depth >= 64 {
                    return false;
                }
                depth = depth + 1;
                i = i + 1;
            } else if b == 0x5D {
                if depth > 0 {
                    depth = depth - 1;
                }
                i = i + 1;
            } else if b == 0x3C {
                if i + 1 < n && bytes[i + 1] == 0x3C {
                    if depth + string_depth >= 64 {
                        return false;
                    }
                    depth = depth + 1;
                    i = i + 2;
                } else {
                    in_hex = true;
                    i = i + 1;
                }
            } else if b == 0x3E {
                if i + 1 < n && bytes[i + 1] == 0x3E {
                    if depth > 0 {
                        depth = depth - 1;
                    }
                    i = i + 2;
                } else {
                    i = i + 1;
                }
            } else {
                i = i + 1;
            }
        }
    }
    true
}

/// The per-entry token arity of a table operator: two tokens per bfchar
/// entry, three per bfrange entry; None for any other token.
#[verifier::external_body]
fn bf_step(v: &Value) -> (r: Option<usize>)
    ensures
        r matches Some(s) ==> s == 2 || s == 3,
{
    match v {
        Value::Operator(o) if o == "beginbfchar" => Some(2),
        Value::Operator(o) if o == "beginbfrange" => Some(3),
        _ => None,
    }
}

/// The declared entry count a table operator reads from the token before it,
/// when that token is a positive integer.
#[verifier::external_body]
fn bf_count(v: &Value) -> (r: Option<usize>)
    ensures
        r matches Some(c) ==> c > 0,
{
    match v {
        Value::Integer(c) if *c > 0 => Some(*c as usize),
        _ => None,
    }
}

/// A string token's bytes folded big-endian into a code, with the byte
/// length, exactly as the CMap scan folds them; None for any other token.
#[verifier::external_body]
fn token_code(v: &Value) -> (r: Option<(u32, usize)>) {
    match v {
        Value::LiteralString(s) => Some(
            (s.iter().fold(0u32, |a, b| (a << 8) | u32::from(*b)), s.len()),
        ),
        _ => None,
    }
}

/// Checks the parsed token stream against the shapes on which
/// adobe_cmap_parser::get_unicode_map's scan aborts instead of returning an
/// error: a table operator with no token before it, a declared count that
/// overruns the remaining tokens, a bfrange start string that is neither two
/// nor four bytes, and a descending, oversized or overflowing range.
/// Refusing a stream here only costs that font its map, which is the
/// per-font soft failure malformed streams get anyway.
fn cmap_scan_returns(lexed: &[Value]) -> (r: bool) {
    let n = lexed.len();
    let mut i: usize = 0;
    while i < n
        invariant
            i <= n,
            n == lexed@.len(),
        decreases n - i,
    {
        let step = match bf_step(&lexed[i]) {
            Option::Some(s) => s,
            Option::None => {
                i = i + 1;
                continue ;
            },
        };
        if i == 0 {
            return false;
        }
        match bf_count(&lexed[i - 1]) {
            Option::Some(count) => {
                let limit = (n - i - 1) / step;
                if count > limit {
                    return false;
                }
                proof {
                    if step == 2 {
                        assert(2 * count <= n - i - 1);
                    } else {
                        assert(3 * count <= n - i - 1);
                    }
                }
                if step == 3 && !bf_ranges_tame(lexed, i, count) {
                    return false;
                }
            },
            Option::None => {},
        }
        i = i + 1;
    }
    true
}

/// Checks the `count` bfrange triples following the operator at `i` for the
/// arithmetic the scan runs on them: ranges must ascend, span at most two
/// bytes, and never overflow the start code they are added to.
fn bf_ranges_tame(lexed: &[Value], i: usize, count: usize) -> (r: bool)
    requires
        0 < count,
        i + 3 * count < lexed@.len(),
{
    let n = lexed.len();
    let mut e: usize = 0;
    while e < count
        invariant
            e <= count,
            n == lexed@.len(),
            i + 3 * count < n,
        decreases count - e,
    {
        let lo = token_code(&lexed[i + 1 + 3 * e]);
        let hi = token_code(&lexed[i + 2 + 3 * e]);
        match (lo, hi) {
            (Option::Some((lo, _)), Option::Some((hi, _))) => {
                if hi < lo || hi - lo > 0xFFFF {
                    return false;
                }
                match token_code(&lexed[i + 3 + 3 * e]) {
                    Option::Some((val, 4)) => {
                        if val > u32::MAX - (hi - lo) {
                            return false;
                        }
                    },
                    Option::Some((val, 2)) => {
                        if val % 0x10000 + (hi - lo) > 0xFFFF {
                            return false;
                        }
                    },
                    Option::Some((_, _)) => {
                        return false;
                    },
                    Option::None => {},
                }
            },
            _ => {
                return true;
            },
        }
        e = e + 1;
    }
    true
}

/// Relies on adobe_cmap_parser::get_unicode_map: the code -> UTF-16BE
/// payload entries declared by the stream's bfchar/bfrange constructs, a
/// function of the bytes alone, handed out in no particular order with
/// distinct codes. The stream is parsed and its token stream checked first,
/// because get_unicode_map aborts both on bytes its parser rejects and on a
/// few token shapes its scan never expects.
#[verifier::external_body]
fn parse_unicode_cmap(bytes: &Vec<u8>) -> (r: Option<Vec<(u32, Vec<u8>)>>)
    ensures
        r matches Some(entries) ==> {
            &&& forall|a: int, b: int|
                0 <= a < b < entries@.len() ==> (#[trigger] entries@[a]).0 != (
                #[trigger] entries@[b]).0
            &&& forall|j: int|
                0 <= j < entries@.len() ==> unicode_cmap_of(bytes@).contains_pair(
                    (#[trigger] entries@[j]).0,
                    entries@[j].1@,
                )
        },
{
    if !cmap_bytes_tame(bytes) {
        return None;
    }
    match adobe_cmap_parser::parse(bytes) {
        Ok(lexed) if cmap_scan_returns(&lexed) => {},
        _ => return None,
    }
    match adobe_cmap_parser::get_unicode_map(bytes) {
        Ok(m) => Some(m.into_iter().collect()),
        Err(_) => None,
    }
}

/// Converts one lopdf object into the library's operand form, one variant
/// arm each; a non-integer number keeps its object and gains the one fact
/// the walker reads (more negative than -100, via floor so the comparison is
/// exact); objects the walker does not read pass through opaque.
#[verifier::external_body]
fn obj_to_operand(o: lopdf::Object) -> (r: Operand) {
    match o {
        lopdf::Object::Name(n) => Operand::Name(n),
        lopdf::Object::Real(x) => Operand::Real(lopdf::Object::Real(x), (x.floor() as i64) < -100),
        lopdf::Object::String(b, lopdf::StringFormat::Literal) => Operand::Text(
            b,
            TextKind::Literal,
        ),
        lopdf::Object::String(b, lopdf::StringFormat::Hexadecimal) => Operand::Text(
            b,
            TextKind::Hexadecimal,
        ),
        lopdf::Object::Array(a) => Operand::Array(a.into_iter().map(obj_to_operand).collect()),
        lopdf::Object::Integer(n) => Operand::Number(n),
        other => Operand::Other(other),
    }
}

/// Converts one operand back into its lopdf object form, one variant arm
/// each.
#[verifier::external_body]
fn operand_to_obj(o: Operand) -> (r: lopdf::Object) {
    match o {
        Operand::Name(n) => lopdf::Object::Name(n),
        Operand::Text(b, TextKind::Literal) => lopdf::Object::String(
            b,
            lopdf::StringFormat::Literal,
        ),
        Operand::Text(b, TextKind::Hexadecimal) => lopdf::Object::String(
            b,
            lopdf::StringFormat::Hexadecimal,
        ),
        Operand::Array(a) => lopdf::Object::Array(a.into_iter().map(operand_to_obj).collect()),
        Operand::Number(n) => lopdf::Object::Integer(n),
        Operand::Real(obj, _) => obj,
        Operand::Other(obj) => obj,
    }
}

/// Relies on lopdf's Document::get_page_content: the page's raw
/// content-stream bytes.
#[verifier::external_body]
fn page_content(doc: &lopdf::Document, page_id: (u32, u16)) -> (r: Option<Vec<u8>>) {
    doc.get_page_content(page_id).ok()
}

/// Relies on lopdf's Content::decode: the content bytes parsed into an
/// operation sequence, converted operand by operand.
#[verifier::external_body]
fn decode_content(data: &Vec<u8>) -> (r: Option<Vec<Operation>>) {
    match lopdf::content::Content::decode(data) {
        Ok(c) => Some(
            c.operations.into_iter().map(
                |op| Operation {
                    operator: op.operator,
                    operands: op.operands.into_iter().map(obj_to_operand).collect(),
                },
            ).collect(),
        ),
        Err(_) => None,
    }
}

/// Relies on lopdf's Content::encode: the operation sequence serialized back
/// into content-stream bytes.
#[verifier::external_body]
fn encode_content(ops: Vec<Operation>) -> (r: Option<Vec<u8>>) {
    let operations: Vec<lopdf::content::Operation> = ops.into_iter().map(
        |op| lopdf::content::Operation {
            operator: op.operator,
            operands: op.operands.into_iter().map(operand_to_obj).collect(),
        },
    ).collect();
    lopdf::content::Content { operations }.encode().ok()
}

/// Relies on lopdf's Document::change_page_content: stores new content bytes
/// as the page's content stream.
#[verifier::external_body]
fn set_page_content(doc: &mut lopdf::Document, page_id: (u32, u16), content: Vec<u8>) -> (r:
    bool) {
    doc.change_page_content(page_id, content).is_ok()
}

/// Builds the font table of one 1-based page: each font's encoding name and,
/// when its Unicode-mapping stream is present, decompressible and
/// well-formed, its Unicode maps, the entries sorted ascending by code so
/// that the reverse map's collision tie-break (highest code wins) is
/// deterministic. Any per-font failure leaves that font without a map rather
/// than aborting.
pub fn extract_page_cmaps(doc: &lopdf::Document, page_number: u32) -> (r: Result<
    Vec<(Vec<u8>, Font)>,
    ReplaceError,
>)
    ensures
        r matches Ok(table) ==> forall|i: int|
            0 <= i < table@.len() ==> ((#[trigger] table@[i]).1.cmap matches Some(c) ==> c.wf()
                && crate::cmap::rev_inverts(c.forward@, c.rev())),
        r is Err ==> r == Err::<Vec<(Vec<u8>, Font)>, ReplaceError>(ReplaceError::PageNotFound),
{
    let index: usize = if page_number == 0 {
        0
    } else {
        (page_number - 1) as usize
    };
    let page_id = match nth_page_id(doc, index) {
        Option::Some(id) => id,
        Option::None => {
            return Err(ReplaceError::PageNotFound);
        },
    };
    let fonts = page_fonts(doc, page_id);
    let mut table: Vec<(Vec<u8>, Font)> = Vec::new();
    let mut i: usize = 0;
    while i < fonts.len()
        invariant
            forall|p: int|
                0 <= p < table@.len() ==> ((#[trigger] table@[p]).1.cmap matches Some(c)
                    ==> c.wf() && crate::cmap::rev_inverts(c.forward@, c.rev())),
        decreases fonts@.len() - i,
    {
        let encoding = font_encoding(&fonts[i].1);
        let forward = match to_unicode_bytes(doc, &fonts[i].1) {
            Option::Some(bytes) => {
                match parse_unicode_cmap(&bytes) {
                    Option::Some(entries) => {
                        // the parser hands entries out in no fixed order; a
                        // fixed ascending order makes the reverse map's
                        // last-entry-wins tie-break deterministic
                        let sorted = crate::cmap::sort_entries_by_code(entries);
                        transform_unicode_map(&sorted)
                    },
                    Option::None => None,
                }
            },
            Option::None => None,
        };
        let name = clone_bytes(&fonts[i].0);
        table.push((name, Font::new(encoding, forward)));
        i = i + 1;
    }
    Ok(table)
}

/// Rewrites the text of one 1-based page: builds the page's font table, runs
/// the walker over the decoded content stream, and commits the re-serialized
/// stream back to the page only when the walker reported a modification, so
/// a page whose decoded text matched no rule keeps its stored bytes exactly.
/// The commit is the one write and the last step, so a run that fails for
/// any reason short of the commit itself leaves the document untouched.
pub fn replace_text(doc: &mut lopdf::Document, page_number: u32, r_map: &Vec<ReplaceMap>) -> (r:
    Result<(), ReplaceError>)
    ensures
        (r matches Err(e) && e != ReplaceError::ContentNotCommitted) ==> *final(doc) == *old(doc),
{
    let table = match extract_page_cmaps(doc, page_number) {
        Result::Ok(t) => t,
        Result::Err(e) => {
            return Err(e);
        },
    };
    let mapper = UnicodeMapper::new(table);
    let index: usize = if page_number == 0 {
        0
    } else {
        (page_number - 1) as usize
    };
    let page_id = match nth_page_id(doc, index) {
        Option::Some(id) => id,
        Option::None => {
            return Err(ReplaceError::PageNotFound);
        },
    };
    let content_data = match page_content(doc, page_id) {
        Option::Some(d) => d,
        Option::None => {
            return Err(ReplaceError::ContentUnreadable);
        },
    };
    let mut ops = match decode_content(&content_data) {
        Option::Some(o) => o,
        Option::None => {
            return Err(ReplaceError::ContentUndecodable);
        },
    };
    let modified = match rewrite_operations(&mut ops, &mapper, r_map) {
        Result::Ok(m) => m,
        Result::Err(WalkError::MissingFontOperand) => {
            return Err(ReplaceError::MissingFontOperand);
        },
        Result::Err(WalkError::FontOperandNotAName) => {
            return Err(ReplaceError::FontOperandNotAName);
        },
    };
    if modified {
        let encoded = match encode_content(ops) {
            Option::Some(b) => b,
            Option::None => {
                return Err(ReplaceError::ContentUnencodable);
            },
        };
        if !set_page_content(doc, page_id, encoded) {
            return Err(ReplaceError::ContentNotCommitted);
        }
    }
    Ok(())
}

} // verus!
