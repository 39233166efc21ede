//! The substitution engine: an ordered list of (key, value) rules, each
//! replacing all occurrences of its key in a piece of decoded text.
//!
//! Rules are applied in list order; a later rule may match text that an
//! earlier rule introduced. A rule with an empty key never matches.

use vstd::prelude::*;

verus! {

/// One replacement rule: every occurrence of `key` becomes `value`.
pub struct ReplaceMap {
    pub key: String,
    pub value: String,
}

/// The key of `key` occurs in `t` starting at position `i`.
pub open spec fn match_at(t: Seq<char>, k: Seq<char>, i: int) -> bool {
    0 <= i && i + k.len() <= t.len() && t.subrange(i, i + k.len() as int) == k
}

/// A non-empty key occurs somewhere in `t`.
pub open spec fn occurs(t: Seq<char>, k: Seq<char>) -> bool {
    k.len() > 0 && exists|i: int| match_at(t, k, i)
}

/// Replace every occurrence of `k` in `t` by `v`, scanning left to right and
/// never rescanning replaced text. An empty key leaves `t` unchanged.
pub open spec fn replace_all_spec(t: Seq<char>, k: Seq<char>, v: Seq<char>) -> Seq<char>
    decreases t.len(),
{
    if k.len() == 0 || t.len() < k.len() {
        t
    } else if t.subrange(0, k.len() as int) == k {
        v + replace_all_spec(t.skip(k.len() as int), k, v)
    } else {
        seq![t[0]] + replace_all_spec(t.skip(1), k, v)
    }
}

/// The view of a rule list: each rule as its (key, value) character sequences.
pub open spec fn rules_view(rules: Seq<ReplaceMap>) -> Seq<(Seq<char>, Seq<char>)> {
    rules.map(|i: int, r: ReplaceMap| (r.key@, r.value@))
}

/// Apply every rule in list order; the flag records whether any rule's key
/// occurred in the text it was applied to.
pub open spec fn apply_rules_spec(t: Seq<char>, rules: Seq<(Seq<char>, Seq<char>)>) -> (Seq<
    char,
>, bool)
    decreases rules.len(),
{
    if rules.len() == 0 {
        (t, false)
    } else {
        let k = rules[0].0;
        let v = rules[0].1;
        let rest = apply_rules_spec(replace_all_spec(t, k, v), rules.skip(1));
        (rest.0, occurs(t, k) || rest.1)
    }
}

/// Replacing a key that does not occur leaves the text unchanged.
pub proof fn lemma_replace_noop(t: Seq<char>, k: Seq<char>, v: Seq<char>)
    requires
        !occurs(t, k),
    ensures
        replace_all_spec(t, k, v) == t,
    decreases t.len(),
{
    if k.len() == 0 || t.len() < k.len() {
    } else {
        assert(!match_at(t, k, 0));
        assert(t.subrange(0, k.len() as int) != k);
        assert forall|i: int| !match_at(t.skip(1), k, i) by {
            if match_at(t.skip(1), k, i) {
                assert(t.skip(1).subrange(i, i + k.len() as int) =~= t.subrange(
                    i + 1,
                    i + 1 + k.len() as int,
                ));
                assert(match_at(t, k, i + 1));
            }
        }
        lemma_replace_noop(t.skip(1), k, v);
        assert(seq![t[0]] + t.skip(1) =~= t);
    }
}

/// Rules are idempotent on clean text: applying the whole list to text in
/// which no rule's key occurs returns the text unchanged and reports no
/// modification.
pub proof fn lemma_rules_noop_on_clean_text(t: Seq<char>, rules: Seq<(Seq<char>, Seq<char>)>)
    requires
        forall|i: int| 0 <= i < rules.len() ==> !occurs(t, #[trigger] rules[i].0),
    ensures
        apply_rules_spec(t, rules) == (t, false),
    decreases rules.len(),
{
    if rules.len() > 0 {
        assert(!occurs(t, rules[0].0));
        lemma_replace_noop(t, rules[0].0, rules[0].1);
        assert(forall|i: int|
            0 <= i < rules.skip(1).len() ==> !occurs(t, #[trigger] rules.skip(1)[i].0));
        lemma_rules_noop_on_clean_text(t, rules.skip(1));
    }
}

/// The characters of a string slice, in order.
pub fn str_chars(s: &str) -> (r: Vec<char>)
    ensures
        r@ == s@,
{
    let len = s.unicode_len();
    let mut r: Vec<char> = Vec::new();
    let mut i: usize = 0;
    while i < len
        invariant
            i <= len,
            len == s@.len(),
            r@ == s@.subrange(0, i as int),
        decreases len - i,
    {
        r.push(s.get_char(i));
        proof {
            assert(r@ =~= s@.subrange(0, i + 1 as int));
        }
        i = i + 1;
    }
    proof {
        assert(r@ =~= s@);
    }
    r
}

/// `k` occurs in `t` at position `i`.
fn has_match_at(t: &Vec<char>, k: &Vec<char>, i: usize) -> (r: bool)
    requires
        i + k@.len() <= t@.len(),
    ensures
        r <==> match_at(t@, k@, i as int),
{
    let tlen = t.len();
    let klen = k.len();
    let mut j: usize = 0;
    while j < klen
        invariant
            j <= klen,
            klen == k@.len(),
            tlen == t@.len(),
            i + klen <= tlen,
            forall|m: int| 0 <= m < j ==> t@[i + m] == k@[m],
        decreases klen - j,
    {
        if t[i + j] != k[j] {
            assert(t@.subrange(i as int, i + k@.len() as int)[j as int] != k@[j as int]);
            return false;
        }
        j = j + 1;
    }
    proof {
        assert(t@.subrange(i as int, i + k@.len() as int) =~= k@);
    }
    true
}

/// Replace every occurrence of `k` in `t` by `v`; the flag reports whether
/// `k` occurred at all.
pub fn replace_chars(t: &Vec<char>, k: &Vec<char>, v: &Vec<char>) -> (r: (Vec<char>, bool))
    ensures
        r.0@ == replace_all_spec(t@, k@, v@),
        r.1 <==> occurs(t@, k@),
{
    if k.len() == 0 {
        let mut copy: Vec<char> = Vec::new();
        let mut i: usize = 0;
        while i < t.len()
            invariant
                i <= t@.len(),
                copy@ == t@.subrange(0, i as int),
            decreases t@.len() - i,
        {
            copy.push(t[i]);
            proof {
                assert(copy@ =~= t@.subrange(0, i + 1 as int));
            }
            i = i + 1;
        }
        proof {
            assert(copy@ =~= t@);
        }
        return (copy, false);
    }
    let mut out: Vec<char> = Vec::new();
    let mut found = false;
    let tlen = t.len();
    let klen = k.len();
    proof {
        assert(t@.skip(0) =~= t@);
        assert(out@ + replace_all_spec(t@, k@, v@) =~= replace_all_spec(t@, k@, v@));
    }
    let mut i: usize = 0;
    while i < tlen
        invariant
            i <= tlen,
            tlen == t@.len(),
            klen == k@.len(),
            k@.len() > 0,
            replace_all_spec(t@, k@, v@) == out@ + replace_all_spec(t@.skip(i as int), k@, v@),
            found <==> exists|m: int| 0 <= m && m + k@.len() <= i && match_at(t@, k@, m),
            !found ==> forall|m: int| 0 <= m < i ==> !match_at(t@, k@, m),
        decreases tlen - i,
    {
        let ghost pre = out@;
        let ghost rest = t@.skip(i as int);
        if klen <= tlen - i && has_match_at(t, k, i) {
            let mut j: usize = 0;
            while j < v.len()
                invariant
                    j <= v@.len(),
                    out@ == pre + v@.subrange(0, j as int),
                decreases v@.len() - j,
            {
                out.push(v[j]);
                proof {
                    assert(out@ =~= pre + v@.subrange(0, j + 1 as int));
                }
                j = j + 1;
            }
            proof {
                assert(out@ =~= pre + v@);
                assert(rest.subrange(0, k@.len() as int) =~= t@.subrange(
                    i as int,
                    i + k@.len() as int,
                ));
                assert(rest.subrange(0, k@.len() as int) == k@);
                assert(rest.skip(k@.len() as int) =~= t@.skip(i + k@.len() as int));
                assert(replace_all_spec(rest, k@, v@) == v@ + replace_all_spec(
                    t@.skip(i + k@.len() as int),
                    k@,
                    v@,
                ));
                assert(pre + (v@ + replace_all_spec(t@.skip(i + k@.len() as int), k@, v@)) =~= (pre
                    + v@) + replace_all_spec(t@.skip(i + k@.len() as int), k@, v@));
            }
            i = i + k.len();
            found = true;
        } else {
            proof {
                if i + k@.len() <= t@.len() {
                    assert(!match_at(t@, k@, i as int));
                    assert(rest.subrange(0, k@.len() as int) =~= t@.subrange(
                        i as int,
                        i + k@.len() as int,
                    ));
                    assert(rest.subrange(0, k@.len() as int) != k@);
                    assert(replace_all_spec(rest, k@, v@) == seq![rest[0]] + replace_all_spec(
                        rest.skip(1),
                        k@,
                        v@,
                    ));
                } else {
                    assert(rest.len() < k@.len());
                    assert(replace_all_spec(rest, k@, v@) == rest);
                    assert(rest.skip(1).len() < k@.len());
                    assert(replace_all_spec(rest.skip(1), k@, v@) == rest.skip(1));
                    assert(rest =~= seq![rest[0]] + rest.skip(1));
                }
                assert(rest[0] == t@[i as int]);
                assert(rest.skip(1) =~= t@.skip(i + 1));
                assert(pre + (seq![t@[i as int]] + replace_all_spec(t@.skip(i + 1), k@, v@)) =~= (
                pre + seq![t@[i as int]]) + replace_all_spec(t@.skip(i + 1), k@, v@));
            }
            out.push(t[i]);
            proof {
                assert(out@ =~= pre + seq![t@[i as int]]);
                if !found {
                    assert forall|m: int| 0 <= m < i + 1 implies !match_at(t@, k@, m) by {
                        if m < i {
                        } else {
                            assert(m == i);
                        }
                    }
                }
            }
            i = i + 1;
        }
    }
    proof {
        let tail = t@.skip(i as int);
        assert(tail.len() == 0);
        assert(replace_all_spec(tail, k@, v@) == tail);
        assert(out@ + tail =~= out@);
        if !found {
            assert(!occurs(t@, k@)) by {
                if occurs(t@, k@) {
                    let m = choose|m: int| match_at(t@, k@, m);
                    assert(m + k@.len() <= t@.len());
                    assert(m < i);
                    assert(!match_at(t@, k@, m));
                }
            }
        } else {
            let m = choose|m: int| 0 <= m && m + k@.len() <= i && match_at(t@, k@, m);
            assert(match_at(t@, k@, m));
        }
    }
    (out, found)
}

/// Apply every rule in list order to `text`; the flag reports whether any
/// rule's key occurred.
pub fn apply_rules(text: Vec<char>, rules: &Vec<ReplaceMap>) -> (r: (Vec<char>, bool))
    ensures
        r.0@ == apply_rules_spec(text@, rules_view(rules@)).0,
        r.1 == apply_rules_spec(text@, rules_view(rules@)).1,
{
    let ghost all = rules_view(rules@);
    let mut cur = text;
    let mut modified = false;
    proof {
        assert(all.skip(0) =~= all);
    }
    let mut i: usize = 0;
    while i < rules.len()
        invariant
            i <= rules@.len(),
            all == rules_view(rules@),
            apply_rules_spec(cur@, all.skip(i as int)).0 == apply_rules_spec(text@, all).0,
            (modified || apply_rules_spec(cur@, all.skip(i as int)).1) == apply_rules_spec(
                text@,
                all,
            ).1,
        decreases rules@.len() - i,
    {
        let key = str_chars(rules[i].key.as_str());
        let value = str_chars(rules[i].value.as_str());
        let ghost mid = all.skip(i as int);
        proof {
            assert(mid[0] == all[i as int]);
            assert(mid.skip(1) =~= all.skip(i + 1));
            assert(apply_rules_spec(cur@, mid).0 == apply_rules_spec(
                replace_all_spec(cur@, key@, value@),
                all.skip(i + 1),
            ).0);
        }
        let (next, matched) = replace_chars(&cur, &key, &value);
        cur = next;
        modified = modified || matched;
        i = i + 1;
    }
    proof {
        assert(all.skip(i as int) =~= Seq::<(Seq<char>, Seq<char>)>::empty());
        assert(apply_rules_spec(cur@, all.skip(i as int)).0 == cur@);
        assert(apply_rules_spec(cur@, all.skip(i as int)).1 == false);
    }
    (cur, modified)
}

} // verus!
