//! The content-stream walker: finds text-showing operators in a page's
//! operator sequence, tracks the current font across `Tf` operators, decodes
//! the shown text, runs the substitution rules over it, and rewrites the
//! operands in place.
//!
//! `Tj` keeps its shape: each string operand is decoded, substituted and, if
//! any rule matched, re-encoded in place. A `TJ` whose concatenated text was
//! modified is replaced by a `Tj` holding the re-encoded merged text, its
//! kerning numbers discarded; an unmodified `TJ` is left exactly as it was.

use vstd::prelude::*;
use crate::encoding::{str_eq, valid_encoding, spec_classify, EncodingClass};
use crate::mapper::{Font, UnicodeMapper, decode_spec, encode_spec};
use crate::rules::{apply_rules, apply_rules_spec, rules_view, ReplaceMap, str_chars};
use crate::cmap::chars_to_string;

verus! {

/// How a string operand is written out.
#[derive(PartialEq, Eq, Structural, Clone, Copy, Debug)]
pub enum TextKind {
    Literal,
    Hexadecimal,
}

/// One operand of a content-stream operation. Only the variants the walker
/// reads are carried as plain values; everything else passes through opaque.
pub enum Operand {
    /// A name, such as a font resource name.
    Name(Vec<u8>),
    /// A string of glyph bytes with its written format.
    Text(Vec<u8>, TextKind),
    /// A nested array of operands.
    Array(Vec<Operand>),
    /// An integer, read by `TJ` as inter-glyph spacing.
    Number(i64),
    /// A non-integer number, carried opaque together with the one fact the
    /// walker reads from it: whether it is more negative than -100.
    Real(lopdf::Object, bool),
    /// Any other object, passed through unmodified.
    Other(lopdf::Object),
}

/// One content-stream operation: an operator tag with its operands.
pub struct Operation {
    pub operator: String,
    pub operands: Vec<Operand>,
}

/// The decoded text one `TJ` operand contributes: a string operand decodes
/// under the current font, a nested array contributes its own text followed
/// by one space, and a number more negative than -100 contributes one space.
pub open spec fn tj_text_op(m: Map<Seq<u8>, Font>, font: Seq<u8>, o: Operand) -> Seq<char>
    decreases o, 0int,
{
    match o {
        Operand::Text(b, _) => decode_spec(m, font, b@),
        Operand::Array(arr) => tj_text_list(m, font, arr@) + seq![' '],
        Operand::Number(n) => if n < -100 {
            seq![' ']
        } else {
            seq![]
        },
        Operand::Real(_, gap) => if gap {
            seq![' ']
        } else {
            seq![]
        },
        _ => seq![],
    }
}

/// The concatenated decoded text of a `TJ` operand list.
pub open spec fn tj_text_list(m: Map<Seq<u8>, Font>, font: Seq<u8>, ops: Seq<Operand>) -> Seq<char>
    decreases ops, 1int,
{
    if ops.len() == 0 {
        seq![]
    } else {
        tj_text_op(m, font, ops[0]) + tj_text_list(m, font, ops.skip(1))
    }
}

/// A `Tf` operation carries a name as its first operand.
pub open spec fn tf_ok(o: Operation) -> bool {
    o.operator@ == "Tf"@ ==> o.operands@.len() > 0 && o.operands@[0] is Name
}

/// Every `Tf` in the sequence carries a name as its first operand.
pub open spec fn all_tf_ok(ops: Seq<Operation>) -> bool {
    forall|i: int| 0 <= i < ops.len() ==> tf_ok(#[trigger] ops[i])
}

/// The current font after processing `o`, given the font before it.
pub open spec fn font_after(font: Option<Seq<u8>>, o: Operation) -> Option<Seq<u8>> {
    if o.operator@ == "Tf"@ {
        if o.operands@.len() > 0 && o.operands@[0] is Name {
            Some(o.operands@[0]->Name_0@)
        } else {
            None
        }
    } else {
        font
    }
}

/// The current font before processing the operation at index `i`.
pub open spec fn font_state(ops: Seq<Operation>, i: int) -> Option<Seq<u8>>
    decreases i,
{
    if i <= 0 {
        None
    } else {
        font_after(font_state(ops, i - 1), ops[i - 1])
    }
}

/// Text under the current font may be rewritten: a font is selected, the
/// page's table knows it, and its encoding is on the allow-list.
pub open spec fn supported(m: Map<Seq<u8>, Font>, font: Option<Seq<u8>>) -> bool {
    match font {
        Option::Some(f) => m.dom().contains(f) && spec_classify(Some(m[f].encoding@))
            != EncodingClass::Unsupported,
        Option::None => false,
    }
}

/// How one `Tj` string operand is rewritten: decode, substitute, and
/// re-encode in place only when a rule matched; all other operands are
/// untouched.
pub open spec fn text_operand_rewritten(
    m: Map<Seq<u8>, Font>,
    f: Seq<u8>,
    rules: Seq<(Seq<char>, Seq<char>)>,
    o: Operand,
    r: Operand,
) -> bool {
    match o {
        Operand::Text(b, kind) => {
            let res = apply_rules_spec(decode_spec(m, f, b@), rules);
            if res.1 {
                r matches Operand::Text(b2, kind2) && b2@ == encode_spec(m, f, res.0) && kind2
                    == kind
            } else {
                r == o
            }
        },
        _ => r == o,
    }
}

/// Some string operand's decoded text matched a rule.
pub open spec fn tj_op_modified(
    m: Map<Seq<u8>, Font>,
    f: Seq<u8>,
    rules: Seq<(Seq<char>, Seq<char>)>,
    operands: Seq<Operand>,
) -> bool {
    exists|j: int|
        0 <= j < operands.len() && ((#[trigger] operands[j]) matches Operand::Text(b, _)
            && apply_rules_spec(decode_spec(m, f, b@), rules).1)
}

/// Whether processing `o` under `font` changes it at all.
pub open spec fn op_modified(
    m: Map<Seq<u8>, Font>,
    rules: Seq<(Seq<char>, Seq<char>)>,
    font: Option<Seq<u8>>,
    o: Operation,
) -> bool {
    if o.operator@ == "Tj"@ && supported(m, font) {
        tj_op_modified(m, font->Some_0, rules, o.operands@)
    } else if o.operator@ == "TJ"@ && supported(m, font) {
        apply_rules_spec(tj_text_list(m, font->Some_0, o.operands@), rules).1
    } else {
        false
    }
}

/// How one operation is rewritten under the current font. A supported `Tj`
/// keeps its operator and rewrites its string operands; a supported `TJ`
/// whose merged text was modified becomes a `Tj` with one literal string
/// operand holding the re-encoded text; everything else is untouched.
pub open spec fn op_rewritten(
    m: Map<Seq<u8>, Font>,
    rules: Seq<(Seq<char>, Seq<char>)>,
    font: Option<Seq<u8>>,
    o: Operation,
    r: Operation,
) -> bool {
    if o.operator@ == "Tj"@ && supported(m, font) {
        &&& r.operator == o.operator
        &&& r.operands@.len() == o.operands@.len()
        &&& forall|j: int|
            0 <= j < o.operands@.len() ==> text_operand_rewritten(
                m,
                font->Some_0,
                rules,
                #[trigger] o.operands@[j],
                r.operands@[j],
            )
    } else if o.operator@ == "TJ"@ && supported(m, font) {
        let res = apply_rules_spec(tj_text_list(m, font->Some_0, o.operands@), rules);
        if res.1 {
            &&& r.operator@ == "Tj"@
            &&& r.operands@.len() == 1
            &&& r.operands@[0] matches Operand::Text(b, kind) && b@ == encode_spec(
                m,
                font->Some_0,
                res.0,
            ) && kind == TextKind::Literal
        } else {
            r == o
        }
    } else {
        r == o
    }
}

/// The three operator tags the walker reads are pairwise distinct.
proof fn lemma_tags_distinct()
    ensures
        "Tf"@ != "Tj"@,
        "Tf"@ != "TJ"@,
        "Tj"@ != "TJ"@,
{
    reveal_strlit("Tf");
    reveal_strlit("Tj");
    reveal_strlit("TJ");
    assert("Tf"@[1] == 'f');
    assert("Tj"@[1] == 'j');
    assert("TJ"@[1] == 'J');
}

/// No rule key occurs in any decoded text that this operation shows under
/// the given font.
pub open spec fn op_text_clean(
    m: Map<Seq<u8>, Font>,
    rules: Seq<(Seq<char>, Seq<char>)>,
    font: Option<Seq<u8>>,
    o: Operation,
) -> bool {
    if o.operator@ == "Tj"@ && supported(m, font) {
        forall|j: int, ri: int|
            0 <= j < o.operands@.len() && 0 <= ri < rules.len() && (#[trigger] o.operands@[j])
                is Text ==> !crate::rules::occurs(
                decode_spec(m, font->Some_0, o.operands@[j]->Text_0@),
                (#[trigger] rules[ri]).0,
            )
    } else if o.operator@ == "TJ"@ && supported(m, font) {
        forall|ri: int|
            0 <= ri < rules.len() ==> !crate::rules::occurs(
                tj_text_list(m, font->Some_0, o.operands@),
                (#[trigger] rules[ri]).0,
            )
    } else {
        true
    }
}

/// On a page in whose decoded `Tj`/`TJ` texts no rule's key occurs, the walk
/// modifies nothing: every operation's modification flag is false, so the
/// walk leaves the operation sequence, and the page's stored content, as
/// they were.
pub proof fn lemma_clean_page_not_modified(
    m: Map<Seq<u8>, Font>,
    rules: Seq<(Seq<char>, Seq<char>)>,
    ops: Seq<Operation>,
)
    requires
        forall|i: int|
            0 <= i < ops.len() ==> op_text_clean(m, rules, font_state(ops, i), #[trigger] ops[i]),
    ensures
        forall|i: int|
            0 <= i < ops.len() ==> !op_modified(m, rules, font_state(ops, i), #[trigger] ops[i]),
{
    assert forall|i: int| 0 <= i < ops.len() implies !op_modified(
        m,
        rules,
        font_state(ops, i),
        ops[i],
    ) by {
        let font = font_state(ops, i);
        let o = ops[i];
        if o.operator@ == "Tj"@ && supported(m, font) {
            if op_modified(m, rules, font, o) {
                let j = choose|j: int|
                    0 <= j < o.operands@.len() && ((#[trigger] o.operands@[j]) matches
                    Operand::Text(b, _) && apply_rules_spec(
                        decode_spec(m, font->Some_0, b@),
                        rules,
                    ).1);
                let dec = decode_spec(m, font->Some_0, o.operands@[j]->Text_0@);
                assert(forall|ri: int|
                    0 <= ri < rules.len() ==> !crate::rules::occurs(
                        dec,
                        (#[trigger] rules[ri]).0,
                    ));
                crate::rules::lemma_rules_noop_on_clean_text(dec, rules);
            }
        } else if o.operator@ == "TJ"@ && supported(m, font) {
            let t = tj_text_list(m, font->Some_0, o.operands@);
            assert(forall|ri: int|
                0 <= ri < rules.len() ==> !crate::rules::occurs(t, (#[trigger] rules[ri]).0));
            crate::rules::lemma_rules_noop_on_clean_text(t, rules);
        }
    }
}

/// A `TJ` operation is rewritten to `Tj` only when the substitution engine
/// reported a modification; otherwise its original array structure is
/// preserved unchanged.
pub proof fn lemma_tj_preserved_when_unmodified(
    m: Map<Seq<u8>, Font>,
    rules: Seq<(Seq<char>, Seq<char>)>,
    font: Option<Seq<u8>>,
    o: Operation,
    r: Operation,
)
    requires
        o.operator@ == "TJ"@,
        op_rewritten(m, rules, font, o, r),
        !op_modified(m, rules, font, o),
    ensures
        r == o,
{
    lemma_tags_distinct();
}

/// The structural failures that abort a walk.
#[derive(PartialEq, Eq, Structural, Clone, Copy, Debug)]
pub enum WalkError {
    /// A `Tf` operator with no operand.
    MissingFontOperand,
    /// A `Tf` operator whose first operand is not a name.
    FontOperandNotAName,
}

/// Copies a byte string.
pub(crate) fn clone_bytes(v: &Vec<u8>) -> (r: Vec<u8>)
    ensures
        r@ == v@,
{
    let mut r: Vec<u8> = Vec::new();
    let mut i: usize = 0;
    while i < v.len()
        invariant
            i <= v@.len(),
            r@ == v@.subrange(0, i as int),
        decreases v@.len() - i,
    {
        r.push(v[i]);
        proof {
            assert(r@ =~= v@.subrange(0, i + 1 as int));
        }
        i = i + 1;
    }
    proof {
        assert(r@ =~= v@);
    }
    r
}

/// Concatenates the decoded text of a `TJ` operand list, recursing into
/// nested arrays.
fn collect_text(mapper: &UnicodeMapper, font: &Vec<u8>, operands: &Vec<Operand>) -> (r: Vec<char>)
    ensures
        r@ == tj_text_list(mapper@, font@, operands@),
    decreases operands@,
{
    let mut out: Vec<char> = Vec::new();
    let n = operands.len();
    proof {
        assert(operands@.skip(0) =~= operands@);
        assert(out@ + tj_text_list(mapper@, font@, operands@) =~= tj_text_list(
            mapper@,
            font@,
            operands@,
        ));
    }
    let mut i: usize = 0;
    while i < n
        invariant
            i <= n,
            n == operands@.len(),
            tj_text_list(mapper@, font@, operands@) == out@ + tj_text_list(
                mapper@,
                font@,
                operands@.skip(i as int),
            ),
        decreases n - i,
    {
        let ghost tail = operands@.skip(i as int);
        proof {
            assert(tail[0] == operands@[i as int]);
            assert(tail.skip(1) =~= operands@.skip(i + 1));
        }
        let ghost pre = out@;
        match &operands[i] {
            Operand::Text(b, _) => {
                let dec = mapper.decode(font, b.as_slice());
                let mut cs = str_chars(dec.as_str());
                out.append(&mut cs);
                proof {
                    assert(out@ =~= pre + tj_text_op(mapper@, font@, operands@[i as int]));
                }
            },
            Operand::Array(arr) => {
                proof {
                    assert(decreases_to!(operands@ => operands@[i as int]));
                    assert(decreases_to!(operands@[i as int] => *arr));
                    assert(decreases_to!(*arr => arr@));
                }
                let mut sub = collect_text(mapper, font, arr);
                out.append(&mut sub);
                out.push(' ');
                proof {
                    assert(out@ =~= pre + (tj_text_list(mapper@, font@, arr@) + seq![' ']));
                    assert(out@ =~= pre + tj_text_op(mapper@, font@, operands@[i as int]));
                }
            },
            Operand::Number(num) => {
                if *num < -100 {
                    out.push(' ');
                    proof {
                        assert(out@ =~= pre + tj_text_op(mapper@, font@, operands@[i as int]));
                    }
                } else {
                    proof {
                        assert(out@ =~= pre + tj_text_op(mapper@, font@, operands@[i as int]));
                    }
                }
            },
            Operand::Real(_, gap) => {
                if *gap {
                    out.push(' ');
                    proof {
                        assert(out@ =~= pre + tj_text_op(mapper@, font@, operands@[i as int]));
                    }
                } else {
                    proof {
                        assert(out@ =~= pre + tj_text_op(mapper@, font@, operands@[i as int]));
                    }
                }
            },
            Operand::Name(_) => {
                proof {
                    assert(out@ =~= pre + tj_text_op(mapper@, font@, operands@[i as int]));
                }
            },
            Operand::Other(_) => {
                proof {
                    assert(out@ =~= pre + tj_text_op(mapper@, font@, operands@[i as int]));
                }
            },
        }
        proof {
            assert(tj_text_list(mapper@, font@, tail) == tj_text_op(mapper@, font@, tail[0])
                + tj_text_list(mapper@, font@, tail.skip(1)));
            assert(out@ + tj_text_list(mapper@, font@, operands@.skip(i + 1)) =~= pre
                + tj_text_list(mapper@, font@, tail));
        }
        i = i + 1;
    }
    proof {
        assert(operands@.skip(i as int).len() == 0);
        assert(out@ + tj_text_list(mapper@, font@, operands@.skip(i as int)) =~= out@);
    }
    out
}

/// Rewrites the string operands of one `Tj` operation in place; reports
/// whether any of them matched a rule.
fn rewrite_tj_operands(
    operands: &mut Vec<Operand>,
    mapper: &UnicodeMapper,
    font: &Vec<u8>,
    rules: &Vec<ReplaceMap>,
) -> (modified: bool)
    ensures
        final(operands)@.len() == old(operands)@.len(),
        forall|j: int|
            0 <= j < old(operands)@.len() ==> text_operand_rewritten(
                mapper@,
                font@,
                rules_view(rules@),
                #[trigger] old(operands)@[j],
                final(operands)@[j],
            ),
        modified == tj_op_modified(mapper@, font@, rules_view(rules@), old(operands)@),
        !modified ==> *final(operands) == *old(operands),
{
    let ghost orig = operands@;
    let ghost rv = rules_view(rules@);
    let mut modified = false;
    let mut j: usize = 0;
    while j < operands.len()
        invariant
            j <= operands@.len(),
            operands@.len() == orig.len(),
            rv == rules_view(rules@),
            forall|p: int| j <= p < orig.len() ==> operands@[p] == orig[p],
            forall|p: int|
                0 <= p < j ==> text_operand_rewritten(
                    mapper@,
                    font@,
                    rv,
                    #[trigger] orig[p],
                    operands@[p],
                ),
            modified == exists|p: int|
                0 <= p < j && ((#[trigger] orig[p]) matches Operand::Text(b, _)
                    && apply_rules_spec(decode_spec(mapper@, font@, b@), rv).1),
            !modified ==> *operands == *old(operands),
        decreases operands@.len() - j,
    {
        let ghost before = operands@;
        let replacement: Option<(Vec<u8>, TextKind)> = match &operands[j] {
            Operand::Text(b, kind) => {
                let dec = mapper.decode(font, b.as_slice());
                let cs = str_chars(dec.as_str());
                let (t2, m2) = apply_rules(cs, rules);
                if m2 {
                    let s2 = chars_to_string(&t2);
                    Some((mapper.encode(font, s2.as_str()), *kind))
                } else {
                    None
                }
            },
            _ => None,
        };
        match replacement {
            Option::Some((encoded, kind)) => {
                let _removed = operands.remove(j);
                operands.insert(j, Operand::Text(encoded, kind));
                modified = true;
                proof {
                    assert(operands@ =~= before.remove(j as int).insert(
                        j as int,
                        Operand::Text(encoded, kind),
                    ));
                    assert(forall|p: int| j < p < orig.len() ==> operands@[p] == before[p]);
                    assert(forall|p: int| 0 <= p < j ==> operands@[p] == before[p]);
                    assert(text_operand_rewritten(
                        mapper@,
                        font@,
                        rv,
                        orig[j as int],
                        operands@[j as int],
                    ));
                }
            },
            Option::None => {
                proof {
                    assert(operands@[j as int] == orig[j as int]);
                    assert(text_operand_rewritten(
                        mapper@,
                        font@,
                        rv,
                        orig[j as int],
                        operands@[j as int],
                    ));
                }
            },
        }
        j = j + 1;
    }
    modified
}

/// Walks a page's operation sequence in order, tracking the current font
/// through `Tf` and rewriting the text shown by `Tj` and `TJ` under
/// supported encodings. Returns whether anything was modified, or the
/// structural error of the first malformed `Tf`. When nothing was modified
/// the sequence is left exactly as it was.
pub fn rewrite_operations(
    ops: &mut Vec<Operation>,
    mapper: &UnicodeMapper,
    rules: &Vec<ReplaceMap>,
) -> (r: Result<bool, WalkError>)
    ensures
        r matches Ok(modified) ==> {
            &&& all_tf_ok(old(ops)@)
            &&& final(ops)@.len() == old(ops)@.len()
            &&& forall|i: int|
                0 <= i < old(ops)@.len() ==> op_rewritten(
                    mapper@,
                    rules_view(rules@),
                    font_state(old(ops)@, i),
                    #[trigger] old(ops)@[i],
                    final(ops)@[i],
                )
            &&& modified == exists|i: int|
                0 <= i < old(ops)@.len() && op_modified(
                    mapper@,
                    rules_view(rules@),
                    font_state(old(ops)@, i),
                    #[trigger] old(ops)@[i],
                )
            &&& !modified ==> final(ops)@ == old(ops)@
        },
        r is Err ==> !all_tf_ok(old(ops)@),
{
    let ghost orig = ops@;
    let ghost rv = rules_view(rules@);
    let mut page_modified = false;
    let mut current_font: Option<Vec<u8>> = None;
    let mut i: usize = 0;
    while i < ops.len()
        invariant
            old(ops)@ == orig,
            i <= ops@.len(),
            ops@.len() == orig.len(),
            rv == rules_view(rules@),
            forall|p: int| i <= p < orig.len() ==> ops@[p] == orig[p],
            forall|p: int| 0 <= p < i ==> tf_ok(#[trigger] orig[p]),
            forall|p: int|
                0 <= p < i ==> op_rewritten(
                    mapper@,
                    rv,
                    font_state(orig, p),
                    #[trigger] orig[p],
                    ops@[p],
                ),
            page_modified == exists|p: int|
                0 <= p < i && op_modified(mapper@, rv, font_state(orig, p), #[trigger] orig[p]),
            !page_modified ==> ops@ =~= orig,
            match (current_font, font_state(orig, i as int)) {
                (Option::Some(f), Option::Some(g)) => f@ == g,
                (Option::None, Option::None) => true,
                _ => false,
            },
        decreases ops@.len() - i,
    {
        let ghost before = ops@;
        let ghost cur_state = font_state(orig, i as int);
        let mut op = ops.remove(i);
        proof {
            assert(op == orig[i as int]);
        }
        let is_tf = str_eq(op.operator.as_str(), "Tf");
        let is_tj = str_eq(op.operator.as_str(), "Tj");
        let is_tj_array = str_eq(op.operator.as_str(), "TJ");
        let enc_supported = match &current_font {
            Option::Some(f) => {
                match mapper.get_font(f) {
                    Option::Some(fd) => valid_encoding(Some(fd.encoding.as_str())),
                    Option::None => false,
                }
            },
            Option::None => false,
        };
        proof {
            assert(enc_supported == supported(mapper@, cur_state));
        }
        let mut op_was_modified = false;
        if is_tf {
            if op.operands.len() == 0 {
                proof {
                    assert(!tf_ok(orig[i as int]));
                    assert(!all_tf_ok(orig));
                }
                return Err(WalkError::MissingFontOperand);
            }
            match &op.operands[0] {
                Operand::Name(n) => {
                    current_font = Some(clone_bytes(n));
                },
                _ => {
                    proof {
                        assert(!tf_ok(orig[i as int]));
                        assert(!all_tf_ok(orig));
                    }
                    return Err(WalkError::FontOperandNotAName);
                },
            }
        } else if is_tj && enc_supported {
            let f = match &current_font {
                Option::Some(f) => f,
                Option::None => {
                    proof {
                        assert(false);
                    }
                    return Err(WalkError::MissingFontOperand);
                },
            };
            op_was_modified = rewrite_tj_operands(&mut op.operands, mapper, f, rules);
        } else if is_tj_array && enc_supported {
            let f = match &current_font {
                Option::Some(f) => f,
                Option::None => {
                    proof {
                        assert(false);
                    }
                    return Err(WalkError::MissingFontOperand);
                },
            };
            let text = collect_text(mapper, f, &op.operands);
            let (t2, m2) = apply_rules(text, rules);
            if m2 {
                let s2 = chars_to_string(&t2);
                let encoded = mapper.encode(f, s2.as_str());
                op = Operation {
                    operator: String::from_str("Tj"),
                    operands: vec![Operand::Text(encoded, TextKind::Literal)],
                };
                op_was_modified = true;
            }
        }
        ops.insert(i, op);
        page_modified = page_modified || op_was_modified;
        proof {
            lemma_tags_distinct();
            assert(ops@ =~= before.remove(i as int).insert(i as int, ops@[i as int]));
            assert(forall|p: int| 0 <= p < orig.len() && p != i ==> ops@[p] == before[p]);
            assert(op_rewritten(mapper@, rv, cur_state, orig[i as int], ops@[i as int]));
            assert(op_was_modified == op_modified(mapper@, rv, cur_state, orig[i as int]));
            if !page_modified {
                assert(ops@[i as int] == orig[i as int]);
                assert(ops@ =~= orig);
            }
            assert(font_state(orig, i + 1) == font_after(cur_state, orig[i as int]));
        }
        i = i + 1;
    }
    proof {
        if !page_modified {
            assert(ops@ == orig);
        }
    }
    Ok(page_modified)
}

} // verus!
