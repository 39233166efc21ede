//! Per-font Unicode maps built from a font's embedded Unicode-mapping stream.
//!
//! Entries arrive as code -> UTF-16BE payload pairs. A payload of odd length,
//! or one that is not well-formed UTF-16, marks the whole map as malformed; a
//! payload that is a single lone surrogate unit is unrepresentable and its
//! entry is dropped. The forward map sends a code to decoded text; the reverse
//! map sends a single character back to a code, later forward entries winning
//! on collision. The page orchestrator feeds the entries in ascending code
//! order, so on collision the highest code wins — a fixed tie-break, never an
//! accident of map iteration order. Composite text is decoded and encoded in
//! two-byte big-endian units; a reverse entry whose code does not fit in two
//! bytes is never used.

use vstd::prelude::*;

verus! {

/// UTF-16 code unit in the surrogate range.
pub open spec fn is_surrogate(u: u16) -> bool {
    0xD800 <= u <= 0xDFFF
}

/// UTF-16 high (leading) surrogate.
pub open spec fn is_high_surrogate(u: u16) -> bool {
    0xD800 <= u <= 0xDBFF
}

/// UTF-16 low (trailing) surrogate.
pub open spec fn is_low_surrogate(u: u16) -> bool {
    0xDC00 <= u <= 0xDFFF
}

/// The big-endian 16-bit units of a payload; a trailing odd byte is ignored.
pub open spec fn units_of(payload: Seq<u8>) -> Seq<u16>
    decreases payload.len(),
{
    if payload.len() < 2 {
        seq![]
    } else {
        seq![(payload[0] as int * 256 + payload[1] as int) as u16] + units_of(payload.skip(2))
    }
}

/// The unit sequence is well-formed UTF-16: every surrogate is part of a
/// high-low pair.
pub open spec fn utf16_valid(units: Seq<u16>) -> bool
    decreases units.len(),
{
    if units.len() == 0 {
        true
    } else if !is_surrogate(units[0]) {
        utf16_valid(units.skip(1))
    } else if is_high_surrogate(units[0]) && units.len() >= 2 && is_low_surrogate(units[1]) {
        utf16_valid(units.skip(2))
    } else {
        false
    }
}

/// `text` is exactly the UTF-16 decoding of `units`.
pub open spec fn utf16_encodes(units: Seq<u16>, text: Seq<char>) -> bool
    decreases units.len(),
{
    if units.len() == 0 {
        text.len() == 0
    } else if !is_surrogate(units[0]) {
        text.len() > 0 && text[0] as int == units[0] as int && utf16_encodes(
            units.skip(1),
            text.skip(1),
        )
    } else if is_high_surrogate(units[0]) && units.len() >= 2 && is_low_surrogate(units[1]) {
        text.len() > 0 && text[0] as int == 0x10000 + (units[0] - 0xD800) as int * 0x400 + (
        units[1] - 0xDC00) as int && utf16_encodes(units.skip(2), text.skip(1))
    } else {
        false
    }
}

/// A payload that is a single lone surrogate unit: dropped, not malformed.
pub open spec fn entry_dropped(payload: Seq<u8>) -> bool {
    payload.len() == 2 && is_surrogate(units_of(payload)[0])
}

/// The payload can be handled: even length and either dropped or valid UTF-16.
pub open spec fn entry_wellformed(payload: Seq<u8>) -> bool {
    payload.len() % 2 == 0 && (entry_dropped(payload) || utf16_valid(units_of(payload)))
}

/// Relies on char::from_u32: returns the character with scalar value `u`,
/// or None when `u` is a surrogate code point or above the Unicode maximum.
#[verifier::external_body]
fn char_from_u32(u: u32) -> (r: Option<char>)
    ensures
        r is Some <==> (u < 0xD800 || (0xE000 <= u && u <= 0x10FFFF)),
        r matches Some(c) ==> c as int == u as int,
{
    char::from_u32(u)
}

/// Relies on String's FromIterator<char>: collecting characters yields the
/// string of exactly those characters.
#[verifier::external_body]
pub(crate) fn chars_to_string(cs: &Vec<char>) -> (r: String)
    ensures
        r@ == cs@,
{
    cs.iter().collect()
}

/// The big-endian units of the even-length tail of `payload` from `i` on.
fn units_from(payload: &Vec<u8>, i: usize) -> (r: Vec<u16>)
    requires
        i <= payload@.len(),
    ensures
        r@ == units_of(payload@.skip(i as int)),
    decreases payload@.len() - i,
{
    let n = payload.len();
    if n - i < 2 {
        let r: Vec<u16> = Vec::new();
        proof {
            assert(payload@.skip(i as int).len() < 2);
        }
        r
    } else {
        let hi = payload[i];
        let lo = payload[i + 1];
        let u: u16 = (hi as u16) * 256 + (lo as u16);
        let mut rest = units_from(payload, i + 2);
        rest.insert(0, u);
        proof {
            let tail = payload@.skip(i as int);
            assert(tail.len() >= 2);
            assert(tail[0] == payload@[i as int]);
            assert(tail[1] == payload@[i + 1]);
            assert(tail.skip(2) =~= payload@.skip(i + 2));
            assert(rest@ =~= seq![(tail[0] as int * 256 + tail[1] as int) as u16] + units_of(
                tail.skip(2),
            ));
        }
        rest
    }
}

/// A payload has one unit for each full pair of bytes.
proof fn lemma_units_len(payload: Seq<u8>)
    ensures
        units_of(payload).len() == payload.len() / 2,
    decreases payload.len(),
{
    if payload.len() >= 2 {
        lemma_units_len(payload.skip(2));
    }
}

/// Decode the units from `i` on; None exactly when they are not valid UTF-16.
fn decode_units_from(units: &Vec<u16>, i: usize) -> (r: Option<Vec<char>>)
    requires
        i <= units@.len(),
    ensures
        r matches Some(t) ==> utf16_valid(units@.skip(i as int)) && utf16_encodes(
            units@.skip(i as int),
            t@,
        ),
        r is None ==> !utf16_valid(units@.skip(i as int)),
    decreases units@.len() - i,
{
    let n = units.len();
    if i == n {
        let r: Vec<char> = Vec::new();
        proof {
            assert(units@.skip(i as int).len() == 0);
        }
        Some(r)
    } else {
        let ghost tail = units@.skip(i as int);
        proof {
            assert(tail[0] == units@[i as int]);
            assert(tail.skip(1) =~= units@.skip(i + 1));
        }
        let u = units[i];
        if u < 0xD800 || u > 0xDFFF {
            match decode_units_from(units, i + 1) {
                Option::Some(mut rest) => {
                    match char_from_u32(u as u32) {
                        Option::Some(c) => {
                            let ghost old_rest = rest@;
                            rest.insert(0, c);
                            proof {
                                assert(rest@[0] == c);
                                assert(rest@.skip(1) =~= old_rest);
                            }
                            Some(rest)
                        },
                        Option::None => {
                            proof {
                                assert(false);
                            }
                            None
                        },
                    }
                },
                Option::None => None,
            }
        } else if u <= 0xDBFF && i + 1 < n {
            let l = units[i + 1];
            proof {
                assert(tail.len() >= 2);
                assert(tail[1] == units@[i + 1]);
                assert(tail.skip(2) =~= units@.skip(i + 2));
            }
            if 0xDC00 <= l && l <= 0xDFFF {
                let scalar: u32 = 0x10000 + (u as u32 - 0xD800) * 0x400 + (l as u32 - 0xDC00);
                match decode_units_from(units, i + 2) {
                    Option::Some(mut rest) => {
                        match char_from_u32(scalar) {
                            Option::Some(c) => {
                                let ghost old_rest = rest@;
                                rest.insert(0, c);
                                proof {
                                    assert(rest@[0] == c);
                                    assert(rest@.skip(1) =~= old_rest);
                                }
                                Some(rest)
                            },
                            Option::None => {
                                proof {
                                    assert(false);
                                }
                                None
                            },
                        }
                    },
                    Option::None => None,
                }
            } else {
                None
            }
        } else {
            None
        }
    }
}

/// Decode one UTF-16BE payload: None when malformed, Some(None) when the
/// entry is a lone surrogate and is dropped, Some(Some(text)) otherwise.
fn decode_payload(payload: &Vec<u8>) -> (r: Option<Option<Vec<char>>>)
    ensures
        r is Some <==> entry_wellformed(payload@),
        r matches Some(inner) ==> (inner is None <==> entry_dropped(payload@)),
        r matches Some(Some(t)) ==> utf16_encodes(units_of(payload@), t@),
{
    if payload.len() % 2 != 0 {
        return None;
    }
    let units = units_from(payload, 0);
    proof {
        assert(payload@.skip(0) =~= payload@);
        lemma_units_len(payload@);
    }
    if units.len() == 1 {
        let u = units[0];
        if 0xD800 <= u && u <= 0xDFFF {
            proof {
                assert(payload@.len() == 2);
                assert(entry_dropped(payload@));
            }
            return Some(None);
        }
    }
    proof {
        assert(!entry_dropped(payload@));
    }
    match decode_units_from(&units, 0) {
        Option::Some(t) => {
            proof {
                assert(units@.skip(0) =~= units@);
            }
            Some(Some(t))
        },
        Option::None => {
            proof {
                assert(units@.skip(0) =~= units@);
            }
            None
        },
    }
}

/// A code-to-payload list with each payload's bytes in view form.
pub open spec fn entries_view(s: Seq<(u32, Vec<u8>)>) -> Seq<(u32, Seq<u8>)> {
    s.map(|i: int, e: (u32, Vec<u8>)| (e.0, e.1@))
}

/// A code-to-text list with each text in view form.
pub open spec fn fwd_list_view(s: Seq<(u32, String)>) -> Seq<(u32, Seq<char>)> {
    s.map(|i: int, e: (u32, String)| (e.0, e.1@))
}

/// `fwd` holds, in order, one decoded entry for each input entry that is not
/// a dropped lone-surrogate entry.
pub open spec fn transformed_match(entries: Seq<(u32, Seq<u8>)>, fwd: Seq<(u32, Seq<char>)>) -> bool
    decreases entries.len(),
{
    if entries.len() == 0 {
        fwd.len() == 0
    } else if entry_dropped(entries[0].1) {
        transformed_match(entries.skip(1), fwd)
    } else {
        fwd.len() > 0 && fwd[0].0 == entries[0].0 && utf16_encodes(units_of(entries[0].1), fwd[0].1)
            && transformed_match(entries.skip(1), fwd.skip(1))
    }
}

/// Matching transformations concatenate.
proof fn lemma_transformed_concat(
    a: Seq<(u32, Seq<u8>)>,
    fa: Seq<(u32, Seq<char>)>,
    b: Seq<(u32, Seq<u8>)>,
    fb: Seq<(u32, Seq<char>)>,
)
    requires
        transformed_match(a, fa),
        transformed_match(b, fb),
    ensures
        transformed_match(a + b, fa + fb),
    decreases a.len(),
{
    if a.len() == 0 {
        assert(a + b =~= b);
        assert(fa + fb =~= fb);
    } else {
        assert((a + b)[0] == a[0]);
        assert((a + b).skip(1) =~= a.skip(1) + b);
        if entry_dropped(a[0].1) {
            lemma_transformed_concat(a.skip(1), fa, b, fb);
        } else {
            assert((fa + fb)[0] == fa[0]);
            assert((fa + fb).skip(1) =~= fa.skip(1) + fb);
            lemma_transformed_concat(a.skip(1), fa.skip(1), b, fb);
        }
    }
}

/// Builds the forward map entries from raw code-to-payload pairs: each
/// payload is decoded from UTF-16BE, lone-surrogate entries are dropped, and
/// any malformed payload makes the whole map malformed (None).
pub fn transform_unicode_map(entries: &Vec<(u32, Vec<u8>)>) -> (r: Option<Vec<(u32, String)>>)
    requires
        forall|a: int, b: int|
            0 <= a < b < entries@.len() ==> (#[trigger] entries@[a]).0 != (
            #[trigger] entries@[b]).0,
    ensures
        r is Some <==> (forall|j: int|
            0 <= j < entries@.len() ==> entry_wellformed((#[trigger] entries@[j]).1@)),
        r matches Some(fwd) ==> transformed_match(entries_view(entries@), fwd_list_view(fwd@)),
        r matches Some(fwd) ==> forall|a: int, b: int|
            0 <= a < b < fwd@.len() ==> (#[trigger] fwd@[a]).0 != (#[trigger] fwd@[b]).0,
{
    let mut out: Vec<(u32, String)> = Vec::new();
    proof {
        assert(entries_view(entries@).take(0) =~= Seq::<(u32, Seq<u8>)>::empty());
        assert(fwd_list_view(out@) =~= Seq::<(u32, Seq<char>)>::empty());
    }
    let mut i: usize = 0;
    while i < entries.len()
        invariant
            i <= entries@.len(),
            forall|a: int, b: int|
                0 <= a < b < entries@.len() ==> (#[trigger] entries@[a]).0 != (
                #[trigger] entries@[b]).0,
            forall|j: int| 0 <= j < i ==> entry_wellformed((#[trigger] entries@[j]).1@),
            transformed_match(entries_view(entries@).take(i as int), fwd_list_view(out@)),
            forall|p: int|
                0 <= p < out@.len() ==> exists|j: int|
                    0 <= j < i && (#[trigger] out@[p]).0 == entries@[j].0,
            forall|a: int, b: int|
                0 <= a < b < out@.len() ==> (#[trigger] out@[a]).0 != (#[trigger] out@[b]).0,
        decreases entries@.len() - i,
    {
        let code = entries[i].0;
        let ghost eview = entries_view(entries@);
        let ghost prefix = eview.take(i as int);
        let ghost e = eview[i as int];
        proof {
            assert(eview.take(i + 1) =~= prefix + seq![e]);
        }
        match decode_payload(&entries[i].1) {
            Option::Some(inner) => {
                match inner {
                    Option::Some(t) => {
                        let text = chars_to_string(&t);
                        let ghost before = out@;
                        out.push((code, text));
                        proof {
                            assert(fwd_list_view(out@) =~= fwd_list_view(before) + seq![
                                (code, t@),
                            ]);
                            assert(seq![e].skip(1) =~= Seq::<(u32, Seq<u8>)>::empty());
                            assert(seq![(code, t@)].skip(1) =~= Seq::<(u32, Seq<char>)>::empty());
                            assert(e == (entries@[i as int].0, entries@[i as int].1@));
                            assert(transformed_match(
                                Seq::<(u32, Seq<u8>)>::empty(),
                                Seq::<(u32, Seq<char>)>::empty(),
                            ));
                            assert(!entry_dropped(e.1));
                            assert(transformed_match(seq![e], seq![(code, t@)]));
                            lemma_transformed_concat(prefix, fwd_list_view(before), seq![e], seq![
                                (code, t@),
                            ]);
                            assert forall|p: int| 0 <= p < out@.len() implies exists|j: int|
                                0 <= j < i + 1 && (#[trigger] out@[p]).0 == entries@[j].0 by {
                                if p < before.len() {
                                    assert(out@[p] == before[p]);
                                    let j = choose|j: int|
                                        0 <= j < i && (#[trigger] before[p]).0 == entries@[j].0;
                                    assert(0 <= j < i + 1 && out@[p].0 == entries@[j].0);
                                } else {
                                    assert(out@[p].0 == entries@[i as int].0);
                                }
                            }
                            assert forall|a: int, b: int| 0 <= a < b < out@.len() implies (
                            #[trigger] out@[a]).0 != (#[trigger] out@[b]).0 by {
                                if b < before.len() {
                                } else {
                                    let j = choose|j: int|
                                        0 <= j < i && (#[trigger] before[a]).0 == entries@[j].0;
                                    assert(entries@[j].0 != entries@[i as int].0);
                                }
                            }
                        }
                    },
                    Option::None => {
                        proof {
                            assert(e == (entries@[i as int].0, entries@[i as int].1@));
                            assert(entry_dropped(e.1));
                            assert(seq![e].skip(1) =~= Seq::<(u32, Seq<u8>)>::empty());
                            assert(transformed_match(
                                Seq::<(u32, Seq<u8>)>::empty(),
                                Seq::<(u32, Seq<char>)>::empty(),
                            ));
                            assert(transformed_match(seq![e], Seq::<(u32, Seq<char>)>::empty()));
                            lemma_transformed_concat(
                                prefix,
                                fwd_list_view(out@),
                                seq![e],
                                Seq::<(u32, Seq<char>)>::empty(),
                            );
                            assert(fwd_list_view(out@) + Seq::<(u32, Seq<char>)>::empty()
                                =~= fwd_list_view(out@));
                        }
                    },
                }
            },
            Option::None => {
                proof {
                    assert(!entry_wellformed(entries@[i as int].1@));
                }
                return None;
            },
        }
        i = i + 1;
    }
    proof {
        assert(entries_view(entries@).take(i as int) =~= entries_view(entries@));
    }
    Some(out)
}

/// The index of a least code in a non-empty entry list.
fn min_code_index(entries: &Vec<(u32, Vec<u8>)>) -> (r: usize)
    requires
        entries@.len() > 0,
    ensures
        r < entries@.len(),
        forall|j: int| 0 <= j < entries@.len() ==> entries@[r as int].0 <= (#[trigger] entries@[j]).0,
{
    let mut best: usize = 0;
    let mut j: usize = 1;
    while j < entries.len()
        invariant
            1 <= j <= entries@.len(),
            best < j,
            forall|p: int| 0 <= p < j ==> entries@[best as int].0 <= (#[trigger] entries@[p]).0,
        decreases entries@.len() - j,
    {
        if entries[j].0 < entries[best].0 {
            best = j;
        }
        j = j + 1;
    }
    best
}

/// Sorts code-to-payload entries into ascending code order. The parser hands
/// the entries out in no particular order; fixing the order here makes every
/// later-entry-wins tie-break downstream deterministic on equal inputs.
pub fn sort_entries_by_code(entries: Vec<(u32, Vec<u8>)>) -> (r: Vec<(u32, Vec<u8>)>)
    requires
        forall|a: int, b: int|
            0 <= a < b < entries@.len() ==> (#[trigger] entries@[a]).0 != (
            #[trigger] entries@[b]).0,
    ensures
        r@.len() == entries@.len(),
        forall|j: int| 0 <= j < r@.len() ==> entries@.contains(#[trigger] r@[j]),
        forall|j: int| 0 <= j < entries@.len() ==> r@.contains(#[trigger] entries@[j]),
        forall|a: int, b: int|
            0 <= a < b < r@.len() ==> (#[trigger] r@[a]).0 < (#[trigger] r@[b]).0,
{
    let ghost orig = entries@;
    let mut remaining = entries;
    let mut out: Vec<(u32, Vec<u8>)> = Vec::new();
    proof {
        assert(forall|j: int| 0 <= j < orig.len() ==> remaining@.contains(#[trigger] orig[j]));
    }
    while remaining.len() > 0
        invariant
            out@.len() + remaining@.len() == orig.len(),
            forall|j: int| 0 <= j < out@.len() ==> orig.contains(#[trigger] out@[j]),
            forall|j: int| 0 <= j < remaining@.len() ==> orig.contains(#[trigger] remaining@[j]),
            forall|j: int|
                0 <= j < orig.len() ==> out@.contains(#[trigger] orig[j]) || remaining@.contains(
                    orig[j],
                ),
            forall|a: int, b: int|
                0 <= a < b < remaining@.len() ==> (#[trigger] remaining@[a]).0 != (
                #[trigger] remaining@[b]).0,
            forall|a: int, b: int|
                0 <= a < b < out@.len() ==> (#[trigger] out@[a]).0 < (#[trigger] out@[b]).0,
            forall|a: int, j: int|
                0 <= a < out@.len() && 0 <= j < remaining@.len() ==> (#[trigger] out@[a]).0 < (
                #[trigger] remaining@[j]).0,
        decreases remaining@.len(),
    {
        let m = min_code_index(&remaining);
        let ghost rem_before = remaining@;
        let ghost out_before = out@;
        let e = remaining.remove(m);
        out.push(e);
        proof {
            assert(e == rem_before[m as int]);
            assert(forall|j: int| 0 <= j < m ==> remaining@[j] == rem_before[j]);
            assert(forall|j: int|
                m <= j < remaining@.len() ==> remaining@[j] == rem_before[j + 1]);
            assert(out@ == out_before.push(e));
            assert(forall|j: int| 0 <= j < out_before.len() ==> out@[j] == out_before[j]);
            assert(out@[out_before.len() as int] == e);
            assert forall|j: int| 0 <= j < orig.len() implies out@.contains(#[trigger] orig[j])
                || remaining@.contains(orig[j]) by {
                if out_before.contains(orig[j]) {
                    let p = choose|p: int| 0 <= p < out_before.len() && out_before[p] == orig[j];
                    assert(out@[p] == orig[j]);
                } else {
                    let p = choose|p: int| 0 <= p < rem_before.len() && rem_before[p] == orig[j];
                    if p == m {
                        assert(out@[out_before.len() as int] == orig[j]);
                    } else if p < m {
                        assert(remaining@[p] == orig[j]);
                    } else {
                        assert(remaining@[p - 1] == orig[j]);
                    }
                }
            }
            assert forall|a: int, b: int|
                0 <= a < b < remaining@.len() implies (#[trigger] remaining@[a]).0 != (
            #[trigger] remaining@[b]).0 by {
                if b < m {
                    assert(rem_before[a].0 != rem_before[b].0);
                } else if a < m {
                    assert(rem_before[a].0 != rem_before[b + 1].0);
                } else {
                    assert(rem_before[a + 1].0 != rem_before[b + 1].0);
                }
            }
            assert forall|a: int, j: int|
                0 <= a < out@.len() && 0 <= j < remaining@.len() implies (#[trigger] out@[a]).0 < (
            #[trigger] remaining@[j]).0 by {
                if a < out_before.len() {
                    if j < m {
                        assert(out_before[a].0 < rem_before[j].0);
                    } else {
                        assert(out_before[a].0 < rem_before[j + 1].0);
                    }
                } else {
                    assert(out@[a] == e);
                    if j < m {
                        assert(remaining@[j] == rem_before[j]);
                        assert(rem_before[m as int].0 <= rem_before[j].0);
                        assert(rem_before[j].0 != e.0);
                    } else {
                        assert(remaining@[j] == rem_before[j + 1]);
                        assert(rem_before[m as int].0 <= rem_before[j + 1].0);
                        assert(rem_before[j + 1].0 != e.0);
                    }
                }
            }
            assert forall|a: int, b: int|
                0 <= a < b < out@.len() implies (#[trigger] out@[a]).0 < (#[trigger] out@[b]).0 by {
                if b < out_before.len() {
                    assert(out_before[a].0 < out_before[b].0);
                } else {
                    assert(out@[b] == e);
                    assert(out_before[a].0 < rem_before[m as int].0);
                }
            }
        }
    }
    out
}

/// The pairs of a code-keyed list as a map, later entries winning.
pub open spec fn fwd_view_of(s: Seq<(u32, String)>) -> Map<u32, Seq<char>>
    decreases s.len(),
{
    if s.len() == 0 {
        Map::empty()
    } else {
        fwd_view_of(s.drop_last()).insert(s.last().0, s.last().1@)
    }
}

/// The pairs of a character-keyed list as a map, later entries winning.
pub open spec fn rev_view_of(s: Seq<(char, u32)>) -> Map<char, u32>
    decreases s.len(),
{
    if s.len() == 0 {
        Map::empty()
    } else {
        rev_view_of(s.drop_last()).insert(s.last().0, s.last().1)
    }
}

/// A list with distinct codes maps each of its codes to its own text.
proof fn lemma_fwd_view_distinct(s: Seq<(u32, String)>, j: int)
    requires
        forall|a: int, b: int| 0 <= a < b < s.len() ==> (#[trigger] s[a]).0 != (#[trigger] s[b]).0,
        0 <= j < s.len(),
    ensures
        fwd_view_of(s).contains_pair(s[j].0, s[j].1@),
    decreases s.len(),
{
    if j == s.len() - 1 {
    } else {
        lemma_fwd_view_distinct(s.drop_last(), j);
        assert(s.drop_last()[j] == s[j]);
        assert(s.last().0 != s[j].0);
    }
}

/// Forward entry `j` can feed the reverse map for character `c`: its text
/// is exactly `c` and its code fits in two bytes.
pub open spec fn rev_source(fwd: Seq<(u32, String)>, j: int, c: char) -> bool {
    0 <= j < fwd.len() && fwd[j].1@ == seq![c] && fwd[j].0 <= 0xFFFF
}

/// `k` is the code of the last forward entry that can feed `c`: the
/// documented last-entry-wins tie-break on a repeated character.
pub open spec fn last_rev_source(fwd: Seq<(u32, String)>, c: char, k: u32) -> bool {
    exists|j: int|
        #![trigger rev_source(fwd, j, c)]
        rev_source(fwd, j, c) && fwd[j].0 == k && (forall|l: int|
            j < l < fwd.len() ==> !(#[trigger] rev_source(fwd, l, c)))
}

/// The reverse map holds exactly, for each character, the code of the last
/// forward entry that can feed it: completeness and the tie-break together.
pub open spec fn rev_inverts(fwd: Seq<(u32, String)>, rev: Map<char, u32>) -> bool {
    forall|c: char, k: u32|
        #![trigger rev.contains_pair(c, k)]
        #![trigger last_rev_source(fwd, c, k)]
        rev.contains_pair(c, k) <==> last_rev_source(fwd, c, k)
}

/// Appending an entry that cannot feed `c` leaves c's last source unchanged.
proof fn lemma_last_source_push_other(fwd: Seq<(u32, String)>, i: int, c: char, k: u32)
    requires
        0 <= i < fwd.len(),
        !rev_source(fwd.take(i + 1), i, c),
    ensures
        last_rev_source(fwd.take(i + 1), c, k) <==> last_rev_source(fwd.take(i), c, k),
{
    let pre = fwd.take(i);
    let post = fwd.take(i + 1);
    assert(forall|j: int| 0 <= j < i ==> post[j] == pre[j]);
    if last_rev_source(post, c, k) {
        let j = choose|j: int|
            #![trigger rev_source(post, j, c)]
            rev_source(post, j, c) && post[j].0 == k && (forall|l: int|
                j < l < post.len() ==> !(#[trigger] rev_source(post, l, c)));
        assert(j != i);
        assert(rev_source(pre, j, c));
        assert forall|l: int| j < l < pre.len() implies !rev_source(pre, l, c) by {
            assert(!rev_source(post, l, c));
        }
        assert(last_rev_source(pre, c, k));
    }
    if last_rev_source(pre, c, k) {
        let j = choose|j: int|
            #![trigger rev_source(pre, j, c)]
            rev_source(pre, j, c) && pre[j].0 == k && (forall|l: int|
                j < l < pre.len() ==> !(#[trigger] rev_source(pre, l, c)));
        assert(rev_source(post, j, c));
        assert forall|l: int| j < l < post.len() implies !rev_source(post, l, c) by {
            if l < i {
                assert(!rev_source(pre, l, c));
            } else {
                assert(l == i);
            }
        }
        assert(last_rev_source(post, c, k));
    }
}

/// Appending an entry that feeds `c` makes it c's one last source.
proof fn lemma_last_source_push_self(fwd: Seq<(u32, String)>, i: int, c: char)
    requires
        0 <= i < fwd.len(),
        rev_source(fwd.take(i + 1), i, c),
    ensures
        forall|k: u32| #[trigger] last_rev_source(fwd.take(i + 1), c, k) <==> k == fwd[i].0,
{
    let post = fwd.take(i + 1);
    assert(post[i] == fwd[i]);
    assert forall|k: u32| #[trigger] last_rev_source(post, c, k) implies k == fwd[i].0 by {
        let j = choose|j: int|
            #![trigger rev_source(post, j, c)]
            rev_source(post, j, c) && post[j].0 == k && (forall|l: int|
                j < l < post.len() ==> !(#[trigger] rev_source(post, l, c)));
        if j < i {
            assert(!rev_source(post, i, c));
            assert(false);
        }
        assert(j == i);
    }
    assert forall|k: u32| k == fwd[i].0 implies #[trigger] last_rev_source(post, c, k) by {
        assert(rev_source(post, i, c) && post[i].0 == k && (forall|l: int|
            i < l < post.len() ==> !(#[trigger] rev_source(post, l, c))));
    }
}

/// The forward and reverse Unicode maps of one font.
pub struct CMapData {
    /// code -> text, later entries winning on a repeated code.
    pub forward: Vec<(u32, String)>,
    /// single character -> code, built from the forward entries in order.
    pub reverse: Vec<(char, u32)>,
}

impl CMapData {
    /// The forward map: character code to decoded text.
    pub open spec fn fwd(&self) -> Map<u32, Seq<char>> {
        fwd_view_of(self.forward@)
    }

    /// The reverse map: single character back to a code.
    pub open spec fn rev(&self) -> Map<char, u32> {
        rev_view_of(self.reverse@)
    }

    /// Every reverse entry fits in two bytes and inverts a forward entry.
    pub open spec fn wf(&self) -> bool {
        forall|c: char, k: u32|
            #[trigger] self.rev().contains_pair(c, k) ==> k <= 0xFFFF && self.fwd().contains_pair(
                k,
                seq![c],
            )
    }

    /// Builds the map pair from forward entries with distinct codes. The
    /// reverse map keeps, for each single-character text, the code of the
    /// last forward entry carrying it, skipping codes above two bytes; with
    /// the entries in ascending code order (as the page orchestrator feeds
    /// them) the last entry is the highest code, a deterministic tie-break.
    pub fn new(forward: Vec<(u32, String)>) -> (r: CMapData)
        requires
            forall|a: int, b: int|
                0 <= a < b < forward@.len() ==> (#[trigger] forward@[a]).0 != (
                #[trigger] forward@[b]).0,
        ensures
            r.forward == forward,
            r.wf(),
            rev_inverts(forward@, r.rev()),
    {
        let mut reverse: Vec<(char, u32)> = Vec::new();
        proof {
            assert(forward@.take(0) =~= Seq::<(u32, String)>::empty());
            assert forall|c: char, k: u32| !last_rev_source(forward@.take(0), c, k) by {
                if last_rev_source(forward@.take(0), c, k) {
                    let j = choose|j: int|
                        #![trigger rev_source(forward@.take(0), j, c)]
                        rev_source(forward@.take(0), j, c);
                    assert(false);
                }
            }
        }
        let mut i: usize = 0;
        while i < forward.len()
            invariant
                i <= forward@.len(),
                forall|a: int, b: int|
                    0 <= a < b < forward@.len() ==> (#[trigger] forward@[a]).0 != (
                    #[trigger] forward@[b]).0,
                forall|c: char, k: u32|
                    #[trigger] rev_view_of(reverse@).contains_pair(c, k) ==> k <= 0xFFFF
                        && fwd_view_of(forward@).contains_pair(k, seq![c]),
                rev_inverts(forward@.take(i as int), rev_view_of(reverse@)),
            decreases forward@.len() - i,
        {
            let ghost pre = forward@.take(i as int);
            let ghost post = forward@.take(i + 1);
            proof {
                assert(post[i as int] == forward@[i as int]);
            }
            let code = forward[i].0;
            let text = &forward[i].1;
            if code <= 0xFFFF && text.unicode_len() == 1 {
                let c = text.as_str().get_char(0);
                let ghost before = reverse@;
                reverse.push((c, code));
                proof {
                    assert(reverse@.drop_last() =~= before);
                    assert(rev_view_of(reverse@) == rev_view_of(before).insert(c, code));
                    lemma_fwd_view_distinct(forward@, i as int);
                    assert(forward@[i as int].1@ =~= seq![c]);
                    assert forall|c2: char, k2: u32| #[trigger] rev_view_of(
                        reverse@,
                    ).contains_pair(c2, k2) implies k2 <= 0xFFFF && fwd_view_of(
                        forward@,
                    ).contains_pair(k2, seq![c2]) by {
                        if c2 == c {
                            assert(k2 == code);
                            assert(fwd_view_of(forward@).contains_pair(code, seq![c]));
                        } else {
                            assert(rev_view_of(before).contains_pair(c2, k2));
                        }
                    }
                    assert(rev_source(post, i as int, c));
                    lemma_last_source_push_self(forward@, i as int, c);
                    assert forall|c2: char, k2: u32|
                        rev_view_of(reverse@).contains_pair(c2, k2) == last_rev_source(
                            post,
                            c2,
                            k2,
                        ) by {
                        if c2 == c {
                            assert(rev_view_of(reverse@).contains_pair(c, k2) <==> k2 == code);
                            assert(last_rev_source(post, c, k2) <==> k2 == code);
                        } else {
                            assert(!rev_source(post, i as int, c2)) by {
                                if rev_source(post, i as int, c2) {
                                    assert(seq![c][0] == seq![c2][0]);
                                }
                            }
                            lemma_last_source_push_other(forward@, i as int, c2, k2);
                            assert(rev_view_of(reverse@).contains_pair(c2, k2)
                                == rev_view_of(before).contains_pair(c2, k2));
                            assert(rev_view_of(before).contains_pair(c2, k2)
                                == last_rev_source(pre, c2, k2));
                        }
                    }
                    assert(rev_inverts(post, rev_view_of(reverse@)));
                }
            } else {
                proof {
                    assert forall|c2: char, k2: u32|
                        rev_view_of(reverse@).contains_pair(c2, k2) == last_rev_source(
                            post,
                            c2,
                            k2,
                        ) by {
                        assert(!rev_source(post, i as int, c2)) by {
                            if rev_source(post, i as int, c2) {
                                assert(forward@[i as int].1@ == seq![c2]);
                                assert(false);
                            }
                        }
                        lemma_last_source_push_other(forward@, i as int, c2, k2);
                        assert(rev_view_of(reverse@).contains_pair(c2, k2) == last_rev_source(
                            pre,
                            c2,
                            k2,
                        ));
                    }
                    assert(rev_inverts(post, rev_view_of(reverse@)));
                }
            }
            i = i + 1;
        }
        proof {
            assert(forward@.take(i as int) =~= forward@);
        }
        CMapData { forward, reverse }
    }

    /// The text of the latest forward entry for `code`, if any.
    fn lookup_fwd(&self, code: u32) -> (r: Option<&String>)
        ensures
            match r {
                Option::Some(s) => self.fwd().contains_key(code) && s@ == self.fwd()[code],
                Option::None => !self.fwd().contains_key(code),
            },
    {
        let mut i: usize = self.forward.len();
        proof {
            assert(self.forward@.take(self.forward@.len() as int) =~= self.forward@);
        }
        while i > 0
            invariant
                i <= self.forward@.len(),
                self.fwd().contains_key(code) == fwd_view_of(
                    self.forward@.take(i as int),
                ).contains_key(code),
                fwd_view_of(self.forward@.take(i as int)).contains_key(code) ==> self.fwd()[code]
                    == fwd_view_of(self.forward@.take(i as int))[code],
            decreases i,
        {
            proof {
                let pre = self.forward@.take(i as int);
                assert(pre.drop_last() =~= self.forward@.take(i - 1));
                assert(pre.last() == self.forward@[i - 1]);
            }
            if self.forward[i - 1].0 == code {
                return Some(&self.forward[i - 1].1);
            }
            i = i - 1;
        }
        proof {
            assert(self.forward@.take(0) =~= Seq::<(u32, String)>::empty());
        }
        None
    }

    /// The code of the latest reverse entry for `c`, if any.
    fn lookup_rev(&self, c: char) -> (r: Option<u32>)
        ensures
            match r {
                Option::Some(k) => self.rev().contains_pair(c, k),
                Option::None => !self.rev().contains_key(c),
            },
    {
        let mut i: usize = self.reverse.len();
        proof {
            assert(self.reverse@.take(self.reverse@.len() as int) =~= self.reverse@);
        }
        while i > 0
            invariant
                i <= self.reverse@.len(),
                self.rev().contains_key(c) == rev_view_of(
                    self.reverse@.take(i as int),
                ).contains_key(c),
                rev_view_of(self.reverse@.take(i as int)).contains_key(c) ==> self.rev()[c]
                    == rev_view_of(self.reverse@.take(i as int))[c],
            decreases i,
        {
            proof {
                let pre = self.reverse@.take(i as int);
                assert(pre.drop_last() =~= self.reverse@.take(i - 1));
                assert(pre.last() == self.reverse@[i - 1]);
            }
            if self.reverse[i - 1].0 == c {
                return Some(self.reverse[i - 1].1);
            }
            i = i - 1;
        }
        proof {
            assert(self.reverse@.take(0) =~= Seq::<(char, u32)>::empty());
        }
        None
    }
}

/// Composite decoding: read two-byte big-endian units, look each up in the
/// forward map, concatenate the hits, drop unmapped units and a trailing odd
/// byte.
pub open spec fn composite_decode(fwd: Map<u32, Seq<char>>, bytes: Seq<u8>) -> Seq<char>
    decreases bytes.len(),
{
    if bytes.len() < 2 {
        seq![]
    } else {
        let code = (bytes[0] as int * 256 + bytes[1] as int) as u32;
        (if fwd.contains_key(code) {
            fwd[code]
        } else {
            seq![]
        }) + composite_decode(fwd, bytes.skip(2))
    }
}

/// Composite encoding: write each mapped character's code as a two-byte
/// big-endian unit, silently dropping unmapped characters and codes above
/// two bytes.
pub open spec fn composite_encode(rev: Map<char, u32>, text: Seq<char>) -> Seq<u8>
    decreases text.len(),
{
    if text.len() == 0 {
        seq![]
    } else {
        (if rev.contains_key(text[0]) && rev[text[0]] <= 0xFFFF {
            seq![(rev[text[0]] / 256) as u8, (rev[text[0]] % 256) as u8]
        } else {
            seq![]
        }) + composite_encode(rev, text.skip(1))
    }
}

impl CMapData {
    /// Decode composite text: two-byte units looked up in the forward map.
    pub fn decode_bytes(&self, bytes: &[u8]) -> (r: Vec<char>)
        ensures
            r@ == composite_decode(self.fwd(), bytes@),
    {
        let n = bytes.len();
        let mut out: Vec<char> = Vec::new();
        proof {
            assert(bytes@.skip(0) =~= bytes@);
            assert(out@ + composite_decode(self.fwd(), bytes@) =~= composite_decode(
                self.fwd(),
                bytes@,
            ));
        }
        let mut i: usize = 0;
        while n - i >= 2
            invariant
                i <= n,
                n == bytes@.len(),
                composite_decode(self.fwd(), bytes@) == out@ + composite_decode(
                    self.fwd(),
                    bytes@.skip(i as int),
                ),
            decreases n - i,
        {
            let ghost tail = bytes@.skip(i as int);
            proof {
                assert(tail[0] == bytes@[i as int]);
                assert(tail[1] == bytes@[i + 1]);
                assert(tail.skip(2) =~= bytes@.skip(i + 2));
            }
            let code: u32 = (bytes[i] as u32) * 256 + (bytes[i + 1] as u32);
            let ghost pre = out@;
            match self.lookup_fwd(code) {
                Option::Some(s) => {
                    let mut cs = crate::rules::str_chars(s.as_str());
                    out.append(&mut cs);
                },
                Option::None => {},
            }
            proof {
                assert(out@ + composite_decode(self.fwd(), bytes@.skip(i + 2)) =~= pre
                    + composite_decode(self.fwd(), tail));
            }
            i = i + 2;
        }
        proof {
            assert(bytes@.skip(i as int).len() < 2);
            assert(out@ + composite_decode(self.fwd(), bytes@.skip(i as int)) =~= out@);
        }
        out
    }

    /// Encode composite text: each mapped character becomes a two-byte unit.
    pub fn encode_chars(&self, text: &Vec<char>) -> (r: Vec<u8>)
        ensures
            r@ == composite_encode(self.rev(), text@),
    {
        let n = text.len();
        let mut out: Vec<u8> = Vec::new();
        proof {
            assert(text@.skip(0) =~= text@);
            assert(out@ + composite_encode(self.rev(), text@) =~= composite_encode(
                self.rev(),
                text@,
            ));
        }
        let mut i: usize = 0;
        while i < n
            invariant
                i <= n,
                n == text@.len(),
                composite_encode(self.rev(), text@) == out@ + composite_encode(
                    self.rev(),
                    text@.skip(i as int),
                ),
            decreases n - i,
        {
            let ghost tail = text@.skip(i as int);
            proof {
                assert(tail[0] == text@[i as int]);
                assert(tail.skip(1) =~= text@.skip(i + 1));
            }
            let c = text[i];
            let ghost pre = out@;
            match self.lookup_rev(c) {
                Option::Some(code) => {
                    if code <= 0xFFFF {
                        out.push((code / 256) as u8);
                        out.push((code % 256) as u8);
                        proof {
                            assert(out@ =~= pre + seq![
                                (self.rev()[c] / 256) as u8,
                                (self.rev()[c] % 256) as u8,
                            ]);
                        }
                    }
                },
                Option::None => {},
            }
            proof {
                assert(out@ + composite_encode(self.rev(), text@.skip(i + 1)) =~= pre
                    + composite_encode(self.rev(), tail));
            }
            i = i + 1;
        }
        proof {
            assert(text@.skip(i as int).len() == 0);
            assert(out@ + composite_encode(self.rev(), text@.skip(i as int)) =~= out@);
        }
        out
    }
}

/// Composite round trip: decoding an encoding of `text` returns `text` with
/// every character absent from the reverse map removed — not a full round
/// trip.
pub proof fn lemma_composite_round_trip(fwd: Map<u32, Seq<char>>, rev: Map<char, u32>, text: Seq<char>)
    requires
        forall|c: char, k: u32|
            #[trigger] rev.contains_pair(c, k) ==> k <= 0xFFFF && fwd.contains_pair(k, seq![c]),
    ensures
        composite_decode(fwd, composite_encode(rev, text)) == text.filter(
            |c: char| rev.dom().contains(c),
        ),
    decreases text.len(),
{
    broadcast use vstd::seq_lib::group_seq_properties;

    let pred = |c: char| rev.dom().contains(c);
    if text.len() == 0 {
        reveal(Seq::filter);
        assert(composite_encode(rev, text) =~= seq![]);
        assert(composite_decode(fwd, seq![]) =~= seq![]);
    } else {
        let c = text[0];
        let rest = text.skip(1);
        lemma_composite_round_trip(fwd, rev, rest);
        assert(text =~= seq![c] + rest);
        Seq::filter_distributes_over_add(seq![c], rest, pred);
        reveal_with_fuel(Seq::filter, 3);
        assert(seq![c].drop_last() =~= Seq::<char>::empty());
        if rev.dom().contains(c) {
            let k = rev[c];
            assert(rev.contains_pair(c, k));
            let enc = composite_encode(rev, text);
            assert(enc == seq![(k / 256) as u8, (k % 256) as u8] + composite_encode(rev, rest));
            assert(enc.len() >= 2);
            assert(enc[0] == (k / 256) as u8);
            assert(enc[1] == (k % 256) as u8);
            assert(enc.skip(2) =~= composite_encode(rev, rest));
            assert((k / 256) * 256 + (k % 256) == k) by {
                vstd::arithmetic::div_mod::lemma_fundamental_div_mod(k as int, 256);
            }
            assert(k / 256 <= 255);
            assert(enc[0] as int * 256 + enc[1] as int == k as int);
            assert((enc[0] as int * 256 + enc[1] as int) as u32 == k);
            assert(composite_decode(fwd, enc) == fwd[k] + composite_decode(fwd, enc.skip(2)));
            assert(fwd.contains_pair(k, seq![c]));
            assert(seq![c].filter(pred) =~= seq![c]);
            assert(composite_decode(fwd, enc) =~= seq![c] + rest.filter(pred));
        } else {
            assert(composite_encode(rev, text) =~= composite_encode(rev, rest));
            assert(seq![c].filter(pred) =~= Seq::<char>::empty());
            assert(text.filter(pred) =~= rest.filter(pred));
        }
    }
}

} // verus!
