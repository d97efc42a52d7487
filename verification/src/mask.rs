//! Replacing the entities of a text by tags.
use vstd::prelude::*;
use vstd::utf8::*;

use crate::entity::{
    are_distinct, dedup_entities, dedup_of, is_dedup, is_same_key, key_of, keys_of,
    law_dedup_ignores_order, law_dedup_is_disjoint_and_complete, law_dedup_is_idempotent,
    law_dedup_is_unique, law_left_out_entity_shares_a_byte, lemma_dedup_members, lemma_dedup_of, picked, scores_are_numbers,
    ExtractedEntity,
};
use crate::select::{is_permutation, lemma_permutation_hits, Candidate};
use crate::text::{chars_of, lemma_encode_concat, slice, string_of};

verus! {

/// A character of a tag: letters and digits in upper case, an underscore for the rest.
pub open spec fn tag_char(c: char) -> char {
    if 'a' <= c <= 'z' {
        (c as u32 - 32) as char
    } else if ('A' <= c <= 'Z') || ('0' <= c <= '9') {
        c
    } else {
        '_'
    }
}

/// `s` with every run of underscores reduced to one.
pub open spec fn squeezed(s: Seq<char>) -> Seq<char>
    decreases s.len(),
{
    if s.len() == 0 {
        s
    } else {
        let front = squeezed(s.drop_last());
        if s.last() == '_' && front.len() > 0 && front.last() == '_' {
            front
        } else {
            front.push(s.last())
        }
    }
}

/// `s` without the underscores that it begins with.
pub open spec fn stripped_start(s: Seq<char>) -> Seq<char>
    decreases s.len(),
{
    if s.len() > 0 && s[0] == '_' {
        stripped_start(s.drop_first())
    } else {
        s
    }
}

/// `s` without the underscores that it ends with.
pub open spec fn stripped_end(s: Seq<char>) -> Seq<char>
    decreases s.len(),
{
    if s.len() > 0 && s.last() == '_' {
        stripped_end(s.drop_last())
    } else {
        s
    }
}

/// The name of a label in a tag: its characters as tag characters, with single
/// underscores and none at either end.
pub open spec fn tag_name(label: Seq<char>) -> Seq<char> {
    stripped_end(stripped_start(squeezed(label.map_values(|c: char| tag_char(c)))))
}

/// The tag that stands for an entity with this label.
pub open spec fn tag(label: Seq<char>) -> Seq<char> {
    seq!['['] + tag_name(label) + seq![']']
}

/// A character of a tag.
fn to_tag_char(c: char) -> (r: char)
    ensures
        r == tag_char(c),
{
    if 'a' <= c && c <= 'z' {
        (c as u8 - 32) as char
    } else if ('A' <= c && c <= 'Z') || ('0' <= c && c <= '9') {
        c
    } else {
        '_'
    }
}

/// The name of a label in a tag.
pub fn normalize_label_for_mask(label: &str) -> (r: String)
    ensures
        r@ == tag_name(label@),
{
    let cs = chars_of(label);
    let mut out: Vec<char> = Vec::new();
    let ghost mapped = label@.map_values(|c: char| tag_char(c));
    let mut i: usize = 0;
    assert(mapped.take(0) =~= Seq::empty());
    while i < cs.len()
        invariant
            cs@ == label@,
            mapped == label@.map_values(|c: char| tag_char(c)),
            i <= cs@.len(),
            out@ == squeezed(mapped.take(i as int)),
        decreases cs@.len() - i,
    {
        let c = to_tag_char(cs[i]);
        assert(mapped.take(i + 1).drop_last() =~= mapped.take(i as int));
        if !(c == '_' && out.len() > 0 && out[out.len() - 1] == '_') {
            out.push(c);
        }
        i += 1;
    }
    assert(mapped.take(i as int) =~= mapped);
    let ghost all = out@;
    let n = out.len();
    let mut a: usize = 0;
    assert(all.subrange(0, n as int) =~= all);
    while a < n && out[a] == '_'
        invariant
            all == out@,
            n == all.len(),
            a <= n,
            stripped_start(all.subrange(a as int, n as int)) == stripped_start(all),
        decreases n - a,
    {
        assert(all.subrange(a as int, n as int).drop_first() =~= all.subrange(a + 1, n as int));
        a += 1;
    }
    let ghost tail = all.subrange(a as int, n as int);
    assert(stripped_start(tail) == tail);
    let mut b: usize = n;
    while a < b && out[b - 1] == '_'
        invariant
            all == out@,
            n == all.len(),
            a <= b <= n,
            tail == all.subrange(a as int, n as int),
            stripped_end(all.subrange(a as int, b as int)) == stripped_end(tail),
        decreases b,
    {
        assert(all.subrange(a as int, b as int).drop_last() =~= all.subrange(a as int, b - 1));
        b -= 1;
    }
    string_of(&out, a, b)
}

/// The tag that stands for an entity with this label.
fn tag_for(label: &str) -> (r: String)
    ensures
        r@ == tag(label@),
{
    let name = normalize_label_for_mask(label);
    let mut r = String::new();
    r.push('[');
    r.append(name.as_str());
    r.push(']');
    assert(r@ =~= tag(label@));
    r
}

/// Whether the entity covers at least one byte of a text of `n` bytes, and none
/// beyond it.
pub open spec fn is_in_text(e: ExtractedEntity, n: nat) -> bool {
    e.start_char < e.end_char <= n
}

/// Whether an entity of a text with these bytes ends at or after the byte at which it
/// begins, within the text, and both are character boundaries.
pub open spec fn is_placed(bytes: Seq<u8>, e: ExtractedEntity) -> bool {
    &&& e.start_char <= e.end_char <= bytes.len()
    &&& is_char_boundary(bytes, e.start_char as int)
    &&& is_char_boundary(bytes, e.end_char as int)
}

/// The entities that lie in a text of `n` bytes.
pub open spec fn those_in_text(ents: Seq<ExtractedEntity>, n: nat) -> Seq<ExtractedEntity>
    decreases ents.len(),
{
    if ents.len() == 0 {
        ents
    } else {
        let front = those_in_text(ents.drop_last(), n);
        if is_in_text(ents.last(), n) {
            front.push(ents.last())
        } else {
            front
        }
    }
}

/// Where the last of the entities ends; the start of the text where there is none.
pub open spec fn end_of(ents: Seq<ExtractedEntity>) -> int {
    if ents.len() == 0 {
        0
    } else {
        ents.last().end_char as int
    }
}

/// The text up to the end of the last of the entities, each replaced by its tag.
pub open spec fn masked_up_to(bytes: Seq<u8>, ents: Seq<ExtractedEntity>) -> Seq<u8>
    decreases ents.len(),
{
    if ents.len() == 0 {
        Seq::empty()
    } else {
        let front = ents.drop_last();
        masked_up_to(bytes, front) + bytes.subrange(end_of(front), ents.last().start_char as int)
            + encode_utf8(tag(ents.last().label@))
    }
}

/// The text with each of the entities, which are disjoint and in text order,
/// replaced by its tag.
pub open spec fn masked(bytes: Seq<u8>, ents: Seq<ExtractedEntity>) -> Seq<u8> {
    masked_up_to(bytes, ents) + bytes.subrange(end_of(ents), bytes.len() as int)
}

/// Whether the entities begin and end at character boundaries.
pub open spec fn on_boundaries(bytes: Seq<u8>, ents: Seq<ExtractedEntity>) -> bool {
    forall|k: int|
        0 <= k < ents.len() ==> is_char_boundary(bytes, (#[trigger] ents[k]).start_char as int)
            && is_char_boundary(bytes, ents[k].end_char as int)
}

/// The entities of the text that are masked: those that lie in it, without overlaps.
pub open spec fn is_masked_set(
    bytes: Seq<u8>,
    ents: Seq<ExtractedEntity>,
    kept: Seq<ExtractedEntity>,
) -> bool {
    is_dedup(those_in_text(ents, bytes.len()), kept)
}

/// The entities of the text that are masked.
pub open spec fn kept_of(bytes: Seq<u8>, ents: Seq<ExtractedEntity>) -> Seq<ExtractedEntity> {
    dedup_of(those_in_text(ents, bytes.len()))
}

/// What is masked lies in the text, without overlaps.
pub proof fn lemma_kept_of(bytes: Seq<u8>, ents: Seq<ExtractedEntity>)
    requires
        ents.len() <= usize::MAX,
    ensures
        is_masked_set(bytes, ents, kept_of(bytes, ents)),
{
    lemma_those_in_text(ents, bytes.len());
    lemma_dedup_of(those_in_text(ents, bytes.len()));
}

/// The text with its entities masked.
pub open spec fn redaction_of(bytes: Seq<u8>, ents: Seq<ExtractedEntity>) -> Seq<u8> {
    masked(bytes, kept_of(bytes, ents))
}

/// Whether what is masked begins and ends at character boundaries.
pub open spec fn can_be_masked(bytes: Seq<u8>, ents: Seq<ExtractedEntity>) -> bool {
    on_boundaries(bytes, kept_of(bytes, ents))
}

/// The entities that lie in a text of `n` bytes.
fn keep_in_text(ents: &[ExtractedEntity], n: usize) -> (kept: Vec<ExtractedEntity>)
    ensures
        kept@ == those_in_text(ents@, n as nat),
{
    let mut kept: Vec<ExtractedEntity> = Vec::new();
    let mut i: usize = 0;
    assert(ents@.take(0) =~= Seq::empty());
    while i < ents.len()
        invariant
            i <= ents@.len(),
            kept@ == those_in_text(ents@.take(i as int), n as nat),
        decreases ents@.len() - i,
    {
        assert(ents@.take(i + 1).drop_last() =~= ents@.take(i as int));
        if ents[i].start_char < ents[i].end_char && ents[i].end_char <= n {
            kept.push(ents[i].clone());
        }
        i += 1;
    }
    assert(ents@.take(i as int) =~= ents@);
    kept
}

/// All of them lie in the text.
proof fn lemma_those_in_text(ents: Seq<ExtractedEntity>, n: nat)
    ensures
        forall|i: int|
            0 <= i < those_in_text(ents, n).len() ==> is_in_text(
                #[trigger] those_in_text(ents, n)[i],
                n,
            ),
        forall|i: int|
            0 <= i < those_in_text(ents, n).len() ==> ents.contains(
                #[trigger] those_in_text(ents, n)[i],
            ),
        those_in_text(ents, n).len() <= ents.len(),
    decreases ents.len(),
{
    if ents.len() > 0 {
        let front = ents.drop_last();
        lemma_those_in_text(front, n);
        let those = those_in_text(ents, n);
        assert forall|i: int| 0 <= i < those.len() implies ents.contains(#[trigger] those[i]) by {
            if i < those_in_text(front, n).len() {
                assert(those[i] == those_in_text(front, n)[i]);
                let j = choose|j: int| 0 <= j < front.len() && front[j] == those[i];
                assert(ents[j] == those[i]);
            } else {
                assert(ents[ents.len() - 1] == those[i]);
            }
        }
    }
}

/// What is left of entities that lie in the text lies in it, one after the other.
proof fn lemma_dedup_in_text(
    ents: Seq<ExtractedEntity>,
    n: nat,
    kept: Seq<ExtractedEntity>,
)
    requires
        ents.len() <= usize::MAX,
        is_dedup(ents, kept),
        forall|i: int| 0 <= i < ents.len() ==> is_in_text(#[trigger] ents[i], n),
    ensures
        forall|k: int| 0 <= k < kept.len() ==> is_in_text(#[trigger] kept[k], n),
        forall|j: int, k: int|
            0 <= j < k < kept.len() ==> (#[trigger] kept[j]).end_char <= (
            #[trigger] kept[k]).start_char,
{
    law_dedup_is_disjoint_and_complete(ents, kept);
    assert forall|k: int| 0 <= k < kept.len() implies is_in_text(#[trigger] kept[k], n) by {
        assert(ents.contains(kept[k]));
        let i = choose|i: int| 0 <= i < ents.len() && ents[i] == kept[k];
        assert(is_in_text(ents[i], n));
    }
    assert forall|j: int, k: int| 0 <= j < k < kept.len() implies (#[trigger] kept[j]).end_char <= (
    #[trigger] kept[k]).start_char by {
        assert(is_in_text(kept[j], n) && is_in_text(kept[k], n));
        assert(!key_of(kept[j]).conflicts(key_of(kept[k])));
    }
}

/// Whether those of the entities that lie in the text begin and end at character
/// boundaries.
pub open spec fn lie_well(bytes: Seq<u8>, ents: Seq<ExtractedEntity>) -> bool {
    forall|i: int|
        0 <= i < ents.len() && is_in_text(#[trigger] ents[i], bytes.len()) ==> is_char_boundary(
            bytes,
            ents[i].start_char as int,
        ) && is_char_boundary(bytes, ents[i].end_char as int)
}

/// Entities that all lie well can be masked.
pub proof fn lemma_lie_well(bytes: Seq<u8>, ents: Seq<ExtractedEntity>)
    requires
        ents.len() <= usize::MAX,
        lie_well(bytes, ents),
    ensures
        can_be_masked(bytes, ents),
{
    let pool = those_in_text(ents, bytes.len());
    let kept = kept_of(bytes, ents);
    lemma_those_in_text(ents, bytes.len());
    lemma_kept_of(bytes, ents);
    lemma_dedup_members(pool, kept);
    assert forall|k: int| 0 <= k < kept.len() implies is_char_boundary(
        bytes,
        (#[trigger] kept[k]).start_char as int,
    ) && is_char_boundary(bytes, kept[k].end_char as int) by {
        assert(pool.contains(kept[k]));
        let i = choose|i: int| 0 <= i < pool.len() && pool[i] == kept[k];
        assert(is_in_text(pool[i], bytes.len()));
        assert(ents.contains(pool[i]));
        let j = choose|j: int| 0 <= j < ents.len() && ents[j] == pool[i];
        assert(is_in_text(ents[j], bytes.len()));
    }
}

/// Whether the entities, which lie in the text, begin and end at character boundaries.
fn all_on_boundaries(text: &str, ents: &Vec<ExtractedEntity>) -> (r: bool)
    requires
        forall|i: int|
            0 <= i < ents@.len() ==> is_in_text(#[trigger] ents@[i], encode_utf8(text@).len()),
    ensures
        r == on_boundaries(encode_utf8(text@), ents@),
{
    let mut i: usize = 0;
    while i < ents.len()
        invariant
            i <= ents@.len(),
            forall|j: int|
                0 <= j < ents@.len() ==> is_in_text(#[trigger] ents@[j], encode_utf8(text@).len()),
            forall|k: int|
                0 <= k < i ==> is_char_boundary(
                    encode_utf8(text@),
                    (#[trigger] ents@[k]).start_char as int,
                ) && is_char_boundary(encode_utf8(text@), ents@[k].end_char as int),
        decreases ents@.len() - i,
    {
        assert(is_in_text(ents@[i as int], encode_utf8(text@).len()));
        if !text.is_char_boundary(ents[i].start_char) || !text.is_char_boundary(ents[i].end_char) {
            return false;
        }
        i += 1;
    }
    true
}

/// The entities of the text that are masked.
fn keep_masked(text: &str, entities: &[ExtractedEntity]) -> (kept: Vec<ExtractedEntity>)
    ensures
        kept@ == kept_of(encode_utf8(text@), entities@),
        is_masked_set(encode_utf8(text@), entities@, kept@),
        forall|k: int|
            0 <= k < kept@.len() ==> is_in_text(#[trigger] kept@[k], encode_utf8(text@).len()),
        forall|j: int, k: int|
            0 <= j < k < kept@.len() ==> (#[trigger] kept@[j]).end_char <= (
            #[trigger] kept@[k]).start_char,
{
    let n = text.as_bytes().len();
    let valid = keep_in_text(entities, n);
    let ghost pool = valid@;
    assert(pool.len() == valid.len());
    proof {
        lemma_those_in_text(entities@, n as nat);
        assert forall|i: int| 0 <= i < pool.len() implies (#[trigger] pool[i]).start_char
            <= pool[i].end_char by {
            assert(is_in_text(those_in_text(entities@, n as nat)[i], n as nat));
        }
    }
    let kept = dedup_entities(valid);
    proof {
        lemma_dedup_in_text(pool, n as nat, kept@);
    }
    kept
}

/// Whether what would be masked begins and ends at character boundaries.
pub fn maskable(text: &str, entities: &[ExtractedEntity]) -> (r: bool)
    ensures
        r == can_be_masked(encode_utf8(text@), entities@),
{
    let kept = keep_masked(text, entities);
    all_on_boundaries(text, &kept)
}

/// `text` with each of its entities replaced by the tag of its label. Entities that
/// cover no byte or reach beyond the text are left out; of entities that overlap,
/// the one with priority is masked.
pub fn mask_pii_text(text: &str, entities: &[ExtractedEntity]) -> (r: String)
    requires
        can_be_masked(encode_utf8(text@), entities@),
    ensures
        encode_utf8(r@) == redaction_of(encode_utf8(text@), entities@),
        is_masked_set(
            encode_utf8(text@),
            entities@,
            kept_of(encode_utf8(text@), entities@),
        ),
{
    let ghost bytes = encode_utf8(text@);
    let n = text.as_bytes().len();
    let kept = keep_masked(text, entities);
    proof {
        encode_utf8_valid_utf8(text@);
        is_char_boundary_start_end_of_seq(bytes);
    }
    let mut out = String::new();
    let mut from: usize = 0;
    let mut k: usize = 0;
    assert(kept@.take(0) =~= Seq::empty());
    assert(encode_utf8(out@) =~= Seq::empty());
    while k < kept.len()
        invariant
            bytes == encode_utf8(text@),
            n == bytes.len(),
            k <= kept@.len(),
            on_boundaries(bytes, kept@),
            forall|j: int| 0 <= j < kept@.len() ==> is_in_text(#[trigger] kept@[j], n as nat),
            forall|i: int, j: int|
                0 <= i < j < kept@.len() ==> (#[trigger] kept@[i]).end_char <= (
                #[trigger] kept@[j]).start_char,
            from == end_of(kept@.take(k as int)),
            k > 0 ==> from == kept@[k - 1].end_char,
            from <= n,
            is_char_boundary(bytes, from as int),
            encode_utf8(out@) == masked_up_to(bytes, kept@.take(k as int)),
        decreases kept@.len() - k,
    {
        let ghost before = out@;
        assert(kept@.take(k + 1).drop_last() =~= kept@.take(k as int));
        assert(is_in_text(kept@[k as int], n as nat));
        assert(k > 0 ==> kept@[k - 1].end_char <= kept@[k as int].start_char);
        let gap = slice(text, from, kept[k].start_char);
        let t = tag_for(kept[k].label.as_str());
        out.append(gap);
        out.append(t.as_str());
        proof {
            lemma_encode_concat(before + gap@, t@);
            lemma_encode_concat(before, gap@);
        }
        from = kept[k].end_char;
        k += 1;
    }
    assert(kept@.take(k as int) =~= kept@);
    let ghost before = out@;
    let rest = slice(text, from, n);
    out.append(rest);
    proof {
        lemma_encode_concat(before, rest@);
        assert(encode_utf8(out@) == masked(bytes, kept@));
    }
    out
}

/// Whether `s` is fit to stand in a tag: upper-case letters, digits and single
/// underscores, none of them at either end.
pub open spec fn is_tag_name(s: Seq<char>) -> bool {
    &&& forall|i: int| 0 <= i < s.len() ==> tag_char(#[trigger] s[i]) == s[i]
    &&& forall|i: int| 0 < i < s.len() && #[trigger] s[i] == '_' ==> s[i - 1] != '_'
    &&& s.len() > 0 ==> s[0] != '_' && s.last() != '_'
}

/// A squeezed sequence holds characters of the sequence, and no two underscores in
/// a row.
proof fn lemma_squeezed(s: Seq<char>)
    requires
        forall|i: int| 0 <= i < s.len() ==> tag_char(#[trigger] s[i]) == s[i],
    ensures
        forall|i: int|
            0 <= i < squeezed(s).len() ==> tag_char(#[trigger] squeezed(s)[i]) == squeezed(s)[i],
        forall|i: int|
            0 < i < squeezed(s).len() && #[trigger] squeezed(s)[i] == '_' ==> squeezed(s)[i - 1]
                != '_',
    decreases s.len(),
{
    if s.len() > 0 {
        let front = squeezed(s.drop_last());
        lemma_squeezed(s.drop_last());
        let q = squeezed(s);
        assert forall|i: int| 0 <= i < q.len() implies tag_char(#[trigger] q[i]) == q[i] by {
            if i < front.len() {
                assert(q[i] == front[i]);
            } else {
                assert(q[i] == s[s.len() - 1]);
            }
        }
        assert forall|i: int| 0 < i < q.len() && #[trigger] q[i] == '_' implies q[i - 1] != '_' by {
            assert(q[i - 1] == front[i - 1]);
            if i < front.len() {
                assert(q[i] == front[i]);
            }
        }
    }
}

/// Stripping leaves a part of the sequence that does not begin with an underscore.
proof fn lemma_stripped_start(s: Seq<char>)
    ensures
        exists|a: int| 0 <= a <= s.len() && stripped_start(s) == #[trigger] s.skip(a),
        stripped_start(s).len() > 0 ==> stripped_start(s)[0] != '_',
    decreases s.len(),
{
    if s.len() > 0 && s[0] == '_' {
        lemma_stripped_start(s.drop_first());
        let a = choose|a: int|
            0 <= a <= s.drop_first().len() && stripped_start(s.drop_first())
                == #[trigger] s.drop_first().skip(a);
        assert(s.drop_first().skip(a) =~= s.skip(a + 1));
    } else {
        assert(s.skip(0) =~= s);
    }
}

/// Stripping leaves a part of the sequence that does not end with an underscore.
proof fn lemma_stripped_end(s: Seq<char>)
    ensures
        exists|b: int| 0 <= b <= s.len() && stripped_end(s) == #[trigger] s.take(b),
        stripped_end(s).len() > 0 ==> stripped_end(s).last() != '_',
    decreases s.len(),
{
    if s.len() > 0 && s.last() == '_' {
        lemma_stripped_end(s.drop_last());
        let b = choose|b: int|
            0 <= b <= s.drop_last().len() && stripped_end(s.drop_last())
                == #[trigger] s.drop_last().take(b);
        assert(s.drop_last().take(b) =~= s.take(b));
    } else {
        assert(s.take(s.len() as int) =~= s);
    }
}

/// Every label yields a name that is fit to stand in a tag.
pub proof fn law_tag_name_is_clean(label: Seq<char>)
    ensures
        is_tag_name(tag_name(label)),
{
    let upper = label.map_values(|c: char| tag_char(c));
    lemma_squeezed(upper);
    let q = squeezed(upper);
    lemma_stripped_start(q);
    let a = choose|a: int| 0 <= a <= q.len() && stripped_start(q) == #[trigger] q.skip(a);
    let t = stripped_start(q);
    lemma_stripped_end(t);
    let b = choose|b: int| 0 <= b <= t.len() && stripped_end(t) == #[trigger] t.take(b);
    let name = tag_name(label);
    assert forall|i: int| 0 <= i < name.len() implies tag_char(#[trigger] name[i]) == name[i] by {
        assert(name[i] == q[a + i]);
    }
    assert forall|i: int| 0 < i < name.len() && #[trigger] name[i] == '_' implies name[i - 1]
        != '_' by {
        assert(name[i] == q[a + i]);
        assert(name[i - 1] == q[a + i - 1]);
    }
}

/// A sequence without two underscores in a row is its own squeezed form.
proof fn lemma_squeezed_fixed(s: Seq<char>)
    requires
        forall|i: int| 0 < i < s.len() && #[trigger] s[i] == '_' ==> s[i - 1] != '_',
    ensures
        squeezed(s) == s,
    decreases s.len(),
{
    if s.len() > 0 {
        lemma_squeezed_fixed(s.drop_last());
        assert(squeezed(s) =~= s);
    }
}

/// A name that is fit to stand in a tag stands in it as it is.
pub proof fn law_clean_tag_name_is_kept(name: Seq<char>)
    requires
        is_tag_name(name),
    ensures
        tag_name(name) == name,
{
    assert(name.map_values(|c: char| tag_char(c)) =~= name);
    lemma_squeezed_fixed(name);
}

/// A text of which nothing is masked stays as it is.
pub proof fn law_nothing_masked(bytes: Seq<u8>)
    ensures
        masked(bytes, Seq::empty()) == bytes,
{
    assert(masked(bytes, Seq::empty()) =~= bytes);
}

/// The text and the entities determine what is masked, where the scores of those that lie
/// in the text are numbers.
pub proof fn law_masked_set_is_unique(
    bytes: Seq<u8>,
    ents: Seq<ExtractedEntity>,
    x: Seq<ExtractedEntity>,
    y: Seq<ExtractedEntity>,
)
    requires
        scores_are_numbers(keys_of(those_in_text(ents, bytes.len()))),
        is_masked_set(bytes, ents, x),
        is_masked_set(bytes, ents, y),
    ensures
        x == y,
{
    law_dedup_is_unique(those_in_text(ents, bytes.len()), x, y);
}

/// An entity that lies in the text is among those that do.
proof fn lemma_kept_in_text(ents: Seq<ExtractedEntity>, n: nat, i: int)
    requires
        0 <= i < ents.len(),
        is_in_text(ents[i], n),
    ensures
        those_in_text(ents, n).contains(ents[i]),
    decreases ents.len(),
{
    let front = those_in_text(ents.drop_last(), n);
    if i < ents.len() - 1 {
        lemma_kept_in_text(ents.drop_last(), n, i);
        let p = choose|p: int| 0 <= p < front.len() && front[p] == ents[i];
        assert(those_in_text(ents, n)[p] == ents[i]);
    } else {
        assert(those_in_text(ents, n)[front.len() as int] == ents[i]);
    }
}

/// Whether no two of the entities that lie in the text, at different places of the
/// list, have the same span and the same score.
spec fn are_distinct_in_text(ents: Seq<ExtractedEntity>, n: nat) -> bool {
    forall|i: int, j: int|
        0 <= i < ents.len() && 0 <= j < ents.len() && i != j && is_in_text(ents[i], n)
            && is_in_text(ents[j], n) ==> !is_same_key(#[trigger] ents[i], #[trigger] ents[j])
}

/// The entities that lie in the text are distinct where they are at different places of
/// the list.
proof fn lemma_distinct_in_text(ents: Seq<ExtractedEntity>, n: nat)
    ensures
        are_distinct(those_in_text(ents, n)) <==> are_distinct_in_text(ents, n),
    decreases ents.len(),
{
    if ents.len() > 0 {
        let front = ents.drop_last();
        let pool = those_in_text(ents, n);
        let before = those_in_text(front, n);
        let last = ents.len() - 1;
        lemma_distinct_in_text(front, n);
        lemma_those_in_text(front, n);
        if are_distinct(pool) {
            assert forall|i: int, j: int|
                0 <= i < before.len() && 0 <= j < before.len() && i != j implies !is_same_key(
                #[trigger] before[i],
                #[trigger] before[j],
            ) by {
                assert(pool[i] == before[i] && pool[j] == before[j]);
            }
            assert forall|i: int, j: int|
                0 <= i < ents.len() && 0 <= j < ents.len() && i != j && is_in_text(ents[i], n)
                    && is_in_text(ents[j], n) implies !is_same_key(
                #[trigger] ents[i],
                #[trigger] ents[j],
            ) by {
                if i < last && j < last {
                    assert(front[i] == ents[i] && front[j] == ents[j]);
                } else {
                    let k = if i < last {
                        i
                    } else {
                        j
                    };
                    lemma_kept_in_text(front, n, k);
                    let p = choose|p: int| 0 <= p < before.len() && before[p] == front[k];
                    assert(pool[p] == ents[k]);
                    assert(pool[before.len() as int] == ents[last]);
                    assert(!is_same_key(pool[p], pool[before.len() as int]));
                }
            }
        }
        if are_distinct_in_text(ents, n) {
            assert forall|i: int, j: int|
                0 <= i < front.len() && 0 <= j < front.len() && i != j && is_in_text(front[i], n)
                    && is_in_text(front[j], n) implies !is_same_key(
                #[trigger] front[i],
                #[trigger] front[j],
            ) by {
                assert(front[i] == ents[i] && front[j] == ents[j]);
            }
            assert forall|i: int, j: int|
                0 <= i < pool.len() && 0 <= j < pool.len() && i != j implies !is_same_key(
                #[trigger] pool[i],
                #[trigger] pool[j],
            ) by {
                if i < before.len() && j < before.len() {
                    assert(pool[i] == before[i] && pool[j] == before[j]);
                } else {
                    let k = if i < before.len() {
                        i
                    } else {
                        j
                    };
                    assert(pool[k] == before[k]);
                    assert(front.contains(before[k]));
                    let q = choose|q: int| 0 <= q < front.len() && front[q] == before[k];
                    assert(is_in_text(before[k], n));
                    assert(!is_same_key(ents[q], ents[last]));
                }
            }
        }
    }
}

/// Those of the entities that lie in the text are among those of the list in another
/// order that do.
proof fn lemma_reordered_members(ents: Seq<ExtractedEntity>, other: Seq<ExtractedEntity>, n: nat)
    requires
        forall|i: int| 0 <= i < ents.len() ==> other.contains(#[trigger] ents[i]),
    ensures
        forall|i: int|
            0 <= i < those_in_text(ents, n).len() ==> those_in_text(other, n).contains(
                #[trigger] those_in_text(ents, n)[i],
            ),
{
    let pool = those_in_text(ents, n);
    lemma_those_in_text(ents, n);
    assert forall|i: int| 0 <= i < pool.len() implies those_in_text(other, n).contains(
        #[trigger] pool[i],
    ) by {
        assert(ents.contains(pool[i]));
        let p = choose|p: int| 0 <= p < ents.len() && ents[p] == pool[i];
        assert(other.contains(ents[p]));
        let q = choose|q: int| 0 <= q < other.len() && other[q] == ents[p];
        assert(is_in_text(pool[i], n));
        lemma_kept_in_text(other, n, q);
    }
}

/// The order in which the entities are listed does not matter: a list put in another
/// order masks the same, where the scores of those that lie in the text are numbers and
/// no two of those have the same span and the same score.
pub proof fn law_order_of_entities_does_not_matter(
    bytes: Seq<u8>,
    ents: Seq<ExtractedEntity>,
    order: Seq<usize>,
)
    requires
        ents.len() <= usize::MAX,
        is_permutation(order, ents.len()),
        scores_are_numbers(keys_of(those_in_text(ents, bytes.len()))),
        are_distinct(those_in_text(ents, bytes.len())),
    ensures
        kept_of(bytes, picked(ents, order)) == kept_of(bytes, ents),
        redaction_of(bytes, picked(ents, order)) == redaction_of(bytes, ents),
        can_be_masked(bytes, picked(ents, order)) == can_be_masked(bytes, ents),
{
    let n = bytes.len();
    let other = picked(ents, order);
    assert forall|i: int| 0 <= i < ents.len() implies other.contains(#[trigger] ents[i]) by {
        lemma_permutation_hits(order, ents.len(), i as usize);
        let p = choose|p: int| 0 <= p < order.len() && order[p] == i;
        assert(other[p] == ents[i]);
    }
    assert forall|i: int| 0 <= i < other.len() implies ents.contains(#[trigger] other[i]) by {
        assert(order[i] < ents.len());
        assert(ents[order[i] as int] == other[i]);
    }
    lemma_reordered_members(ents, other, n);
    lemma_reordered_members(other, ents, n);
    lemma_distinct_in_text(ents, n);
    assert forall|i: int, j: int|
        0 <= i < other.len() && 0 <= j < other.len() && i != j && is_in_text(other[i], n)
            && is_in_text(other[j], n) implies !is_same_key(
        #[trigger] other[i],
        #[trigger] other[j],
    ) by {
        assert(order[i] < ents.len() && order[j] < ents.len() && order[i] != order[j]);
        assert(!is_same_key(ents[order[i] as int], ents[order[j] as int]));
    }
    lemma_distinct_in_text(other, n);
    lemma_those_in_text(ents, n);
    lemma_those_in_text(other, n);
    let pool = those_in_text(ents, n);
    assert forall|i: int| 0 <= i < pool.len() implies (#[trigger] pool[i]).start_char
        <= pool[i].end_char by {
        assert(is_in_text(pool[i], n));
    }
    lemma_kept_of(bytes, ents);
    lemma_kept_of(bytes, other);
    law_dedup_ignores_order(
        pool,
        those_in_text(other, n),
        kept_of(bytes, ents),
        kept_of(bytes, other),
    );
}

/// Entities that do not lie in the text do not matter: leaving them out masks the same,
/// and where none lies in it the text stays as it is.
pub proof fn law_entities_outside_do_not_matter(bytes: Seq<u8>, ents: Seq<ExtractedEntity>)
    requires
        ents.len() <= usize::MAX,
    ensures
        forall|kept: Seq<ExtractedEntity>|
            #![trigger is_masked_set(bytes, ents, kept)]
            is_masked_set(bytes, those_in_text(ents, bytes.len()), kept) == is_masked_set(
                bytes,
                ents,
                kept,
            ),
        kept_of(bytes, those_in_text(ents, bytes.len())) == kept_of(bytes, ents),
        redaction_of(bytes, those_in_text(ents, bytes.len())) == redaction_of(bytes, ents),
        can_be_masked(bytes, those_in_text(ents, bytes.len())) == can_be_masked(bytes, ents),
        those_in_text(ents, bytes.len()).len() == 0 ==> redaction_of(bytes, ents) == bytes,
{
    let pool = those_in_text(ents, bytes.len());
    lemma_those_in_text(ents, bytes.len());
    lemma_all_in_text(pool, bytes.len());
    if pool.len() == 0 {
        let kept = kept_of(bytes, ents);
        lemma_kept_of(bytes, ents);
        lemma_dedup_members(pool, kept);
        if kept.len() > 0 {
            assert(pool.contains(kept[0]));
        }
        assert(kept =~= Seq::empty());
        law_nothing_masked(bytes);
    }
}

/// What stands before the first masked entity and what stands after the last one is
/// kept as it is.
pub proof fn law_text_around_is_kept(bytes: Seq<u8>, ents: Seq<ExtractedEntity>)
    requires
        ents.len() > 0,
        forall|k: int| 0 <= k < ents.len() ==> is_in_text(#[trigger] ents[k], bytes.len()),
        forall|j: int, k: int|
            0 <= j < k < ents.len() ==> (#[trigger] ents[j]).end_char <= (
            #[trigger] ents[k]).start_char,
    ensures
        bytes.take(ents[0].start_char as int).is_prefix_of(masked(bytes, ents)),
        bytes.skip(ents.last().end_char as int).is_suffix_of(masked(bytes, ents)),
{
    lemma_masked_prefix(bytes, ents);
    let tail = bytes.subrange(end_of(ents), bytes.len() as int);
    assert(is_in_text(ents[0], bytes.len()));
    assert(is_in_text(ents[ents.len() - 1], bytes.len()));
    assert(bytes.skip(ents.last().end_char as int) =~= tail);
    let whole = masked(bytes, ents);
    let front = masked_up_to(bytes, ents);
    let head = bytes.take(ents[0].start_char as int);
    assert(head =~= whole.subrange(0, head.len() as int)) by {
        assert(head =~= front.subrange(0, head.len() as int));
    }
    assert(tail =~= whole.subrange(whole.len() - tail.len(), whole.len() as int));
}

/// The masked text begins with what stands before the first entity.
proof fn lemma_masked_prefix(bytes: Seq<u8>, ents: Seq<ExtractedEntity>)
    requires
        ents.len() > 0,
        forall|k: int| 0 <= k < ents.len() ==> is_in_text(#[trigger] ents[k], bytes.len()),
        forall|j: int, k: int|
            0 <= j < k < ents.len() ==> (#[trigger] ents[j]).end_char <= (
            #[trigger] ents[k]).start_char,
    ensures
        bytes.take(ents[0].start_char as int).is_prefix_of(masked_up_to(bytes, ents)),
    decreases ents.len(),
{
    let front = ents.drop_last();
    let head = bytes.take(ents[0].start_char as int);
    assert(is_in_text(ents[0], bytes.len()));
    assert(is_in_text(ents[ents.len() - 1], bytes.len()));
    if ents.len() == 1 {
        assert(masked_up_to(bytes, front) =~= Seq::empty());
        assert(bytes.subrange(0, ents[0].start_char as int) =~= head);
        assert(head =~= masked_up_to(bytes, ents).subrange(0, head.len() as int));
    } else {
        lemma_masked_prefix(bytes, front);
        assert(ents[ents.len() - 2].end_char <= ents[ents.len() - 1].start_char);
        assert(head =~= masked_up_to(bytes, ents).subrange(0, head.len() as int)) by {
            assert(head =~= masked_up_to(bytes, front).subrange(0, head.len() as int));
        }
    }
}

/// Entities that all lie in the text are all looked at.
pub proof fn lemma_all_in_text(ents: Seq<ExtractedEntity>, n: nat)
    requires
        forall|i: int| 0 <= i < ents.len() ==> is_in_text(#[trigger] ents[i], n),
    ensures
        those_in_text(ents, n) == ents,
    decreases ents.len(),
{
    if ents.len() > 0 {
        assert(is_in_text(ents[ents.len() - 1], n));
        lemma_all_in_text(ents.drop_last(), n);
        assert(those_in_text(ents, n) =~= ents);
    }
}

/// The reported list and the redacted text agree: of entities that lie in the text
/// and whose scores are numbers, masking what is left once overlaps are resolved
/// masks exactly what is left, and that is also what masking all of them masks.
pub proof fn law_report_and_redaction_agree(
    bytes: Seq<u8>,
    pooled: Seq<ExtractedEntity>,
    reported: Seq<ExtractedEntity>,
    kept: Seq<ExtractedEntity>,
)
    requires
        pooled.len() <= usize::MAX,
        reported.len() <= usize::MAX,
        scores_are_numbers(keys_of(pooled)),
        forall|i: int| 0 <= i < pooled.len() ==> is_in_text(#[trigger] pooled[i], bytes.len()),
        is_dedup(pooled, reported),
        is_masked_set(bytes, reported, kept),
    ensures
        kept == reported,
        is_masked_set(bytes, pooled, reported),
{
    lemma_all_in_text(pooled, bytes.len());
    lemma_dedup_in_text(pooled, bytes.len(), reported);
    lemma_all_in_text(reported, bytes.len());
    law_dedup_is_idempotent(pooled, reported, kept);
}

/// The entities that lie in a text are those of the first part of a list, then those of
/// the rest; one alone is where it covers a byte and none beyond the text.
pub proof fn law_entities_in_text_are_sifted(
    a: Seq<ExtractedEntity>,
    b: Seq<ExtractedEntity>,
    e: ExtractedEntity,
    n: nat,
)
    ensures
        those_in_text(a + b, n) == those_in_text(a, n) + those_in_text(b, n),
        e.start_char < e.end_char && e.end_char <= n ==> those_in_text(seq![e], n) == seq![e],
        !(e.start_char < e.end_char && e.end_char <= n) ==> those_in_text(seq![e], n).len() == 0,
    decreases b.len(),
{
    if b.len() == 0 {
        assert(a + b =~= a);
        assert(those_in_text(a, n) + those_in_text(b, n) =~= those_in_text(a, n));
    } else {
        assert((a + b).drop_last() =~= a + b.drop_last());
        law_entities_in_text_are_sifted(a, b.drop_last(), e, n);
        assert(those_in_text(a + b, n) =~= those_in_text(a, n) + those_in_text(b, n));
    }
    let one = seq![e];
    assert(one.drop_last() =~= Seq::empty());
    assert(those_in_text(one.drop_last(), n) =~= Seq::empty());
    if e.start_char < e.end_char && e.end_char <= n {
        assert(those_in_text(one, n) =~= one);
    }
}

/// The bytes of the tag of an entity.
#[verifier::opaque]
spec fn tag_bytes(e: ExtractedEntity) -> Seq<u8> {
    encode_utf8(tag(e.label@))
}

/// The entities come one after the other within a text of `n` bytes.
spec fn are_apart(ents: Seq<ExtractedEntity>, n: nat) -> bool {
    &&& forall|k: int|
        0 <= k < ents.len() ==> (#[trigger] ents[k]).start_char <= ents[k].end_char <= n
    &&& forall|j: int, k: int|
        0 <= j < k < ents.len() ==> (#[trigger] ents[j]).end_char <= (
        #[trigger] ents[k]).start_char
}

/// What stands in the masked text at place `p`: the tag of an entity, and before it the
/// bytes from the end of the entity before it, whose own tag stands at place `o`.
spec fn is_piece(
    bytes: Seq<u8>,
    ents: Seq<ExtractedEntity>,
    out: Seq<u8>,
    k: int,
    o: int,
    p: int,
) -> bool {
    &&& 0 <= p <= p + tag_bytes(ents[k]).len() <= out.len()
    &&& out.subrange(p, p + tag_bytes(ents[k]).len()) == tag_bytes(ents[k])
    &&& k == 0 ==> p == ents[0].start_char && out.take(p) == bytes.take(p)
    &&& k > 0 ==> {
        &&& 0 <= o
        &&& p == o + tag_bytes(ents[k - 1]).len() + (ents[k].start_char - ents[k - 1].end_char)
        &&& out.subrange(o + tag_bytes(ents[k - 1]).len(), p) == bytes.subrange(
            ents[k - 1].end_char as int,
            ents[k].start_char as int,
        )
    }
}

/// A piece stays where it is when something is put behind the masked text, and an entity
/// behind the others.
proof fn lemma_piece_stays(
    bytes: Seq<u8>,
    ents: Seq<ExtractedEntity>,
    more: Seq<ExtractedEntity>,
    out: Seq<u8>,
    rest: Seq<u8>,
    k: int,
    o: int,
    p: int,
)
    requires
        0 <= k < ents.len(),
        is_piece(bytes, ents, out, k, o, p),
        k > 0 ==> ents[k - 1].end_char <= ents[k].start_char,
    ensures
        is_piece(bytes, ents + more, out + rest, k, o, p),
{
    let all = ents + more;
    let whole = out + rest;
    assert(all[k] == ents[k]);
    let size = tag_bytes(ents[k]).len();
    assert(whole.subrange(p, p + size) =~= out.subrange(p, p + size));
    if k == 0 {
        assert(whole.take(p) =~= out.take(p));
    } else {
        assert(all[k - 1] == ents[k - 1]);
        let from = o + tag_bytes(ents[k - 1]).len();
        assert(whole.subrange(from, p) =~= out.subrange(from, p));
    }
}

/// The pieces of the text up to the end of the last entity.
proof fn lemma_masked_pieces(bytes: Seq<u8>, ents: Seq<ExtractedEntity>) -> (at: Seq<int>)
    requires
        are_apart(ents, bytes.len()),
    ensures
        at.len() == ents.len(),
        forall|k: int|
            0 <= k < ents.len() ==> is_piece(
                bytes,
                ents,
                masked_up_to(bytes, ents),
                k,
                if k > 0 {
                    at[k - 1]
                } else {
                    0
                },
                #[trigger] at[k],
            ),
        ents.len() > 0 ==> masked_up_to(bytes, ents).len() == at.last() + tag_bytes(
            ents.last(),
        ).len(),
    decreases ents.len(),
{
    if ents.len() == 0 {
        Seq::empty()
    } else {
        let front = ents.drop_last();
        let e = ents.last();
        let n = front.len() as int;
        assert(ents[n] == e);
        assert forall|k: int| 0 <= k < front.len() implies (#[trigger] front[k]).start_char
            <= front[k].end_char <= bytes.len() by {
            assert(front[k] == ents[k]);
        }
        assert forall|j: int, k: int| 0 <= j < k < front.len() implies (
        #[trigger] front[j]).end_char <= (#[trigger] front[k]).start_char by {
            assert(front[j] == ents[j] && front[k] == ents[k]);
        }
        let before = lemma_masked_pieces(bytes, front);
        let head = masked_up_to(bytes, front);
        let gap = bytes.subrange(end_of(front), e.start_char as int);
        let t = tag_bytes(e);
        let whole = masked_up_to(bytes, ents);
        assert(whole =~= head + (gap + t)) by {
            reveal(tag_bytes);
        }
        if n > 0 {
            assert(ents[n - 1].end_char <= ents[n].start_char);
            assert(end_of(front) == ents[n - 1].end_char);
        }
        let p = (head.len() + gap.len()) as int;
        let at = before.push(p);
        assert(ents =~= front + seq![e]);
        assert forall|k: int| 0 <= k < ents.len() implies is_piece(
            bytes,
            ents,
            whole,
            k,
            if k > 0 {
                at[k - 1]
            } else {
                0
            },
            #[trigger] at[k],
        ) by {
            if k < n {
                assert(at[k] == before[k]);
                let o = if k > 0 {
                    before[k - 1]
                } else {
                    0
                };
                if k > 0 {
                    assert(front[k - 1].end_char <= front[k].start_char);
                }
                lemma_piece_stays(bytes, front, seq![e], head, gap + t, k, o, before[k]);
            } else {
                assert(whole.subrange(p, p + t.len()) =~= t);
                if n == 0 {
                    assert(head =~= Seq::empty());
                    assert(whole.take(p) =~= bytes.take(p));
                } else {
                    let o = before[n - 1];
                    assert(is_piece(
                        bytes,
                        front,
                        head,
                        n - 1,
                        if n - 1 > 0 {
                            before[n - 2]
                        } else {
                            0
                        },
                        before[n - 1],
                    ));
                    assert(front.last() == ents[n - 1]);
                    assert(head.len() == o + tag_bytes(ents[n - 1]).len());
                    assert(whole.subrange(head.len() as int, p) =~= gap);
                }
            }
        }
        at
    }
}

/// Each of some entities, which are disjoint and in text order, is replaced by its tag, and
/// all other text is kept: in the masked text stand the bytes before the first entity, then
/// for each entity its label in brackets, followed by exactly the bytes from its end to the
/// start of the next one, and after the last one those up to the end of the text.
pub proof fn law_text_between_is_kept(bytes: Seq<u8>, ents: Seq<ExtractedEntity>) -> (at: Seq<int>)
    requires
        ents.len() > 0,
        forall|k: int|
            0 <= k < ents.len() ==> (#[trigger] ents[k]).start_char <= ents[k].end_char
                <= bytes.len(),
        forall|j: int, k: int|
            0 <= j < k < ents.len() ==> (#[trigger] ents[j]).end_char <= (
            #[trigger] ents[k]).start_char,
    ensures
        at.len() == ents.len(),
        at[0] == ents[0].start_char,
        masked(bytes, ents).take(at[0]) == bytes.take(at[0]),
        forall|k: int|
            0 <= k < ents.len() ==> {
                let size = encode_utf8(seq!['['] + tag_name(ents[k].label@) + seq![']']).len();
                &&& 0 <= #[trigger] at[k] <= at[k] + size <= masked(bytes, ents).len()
                &&& masked(bytes, ents).subrange(at[k], at[k] + size) == encode_utf8(
                    seq!['['] + tag_name(ents[k].label@) + seq![']'],
                )
                &&& k + 1 < ents.len() ==> {
                    &&& at[k + 1] == at[k] + size + (ents[k + 1].start_char - ents[k].end_char)
                    &&& masked(bytes, ents).subrange(at[k] + size, at[k + 1]) == bytes.subrange(
                        ents[k].end_char as int,
                        ents[k + 1].start_char as int,
                    )
                }
                &&& k + 1 == ents.len() ==> masked(bytes, ents).skip(at[k] + size) == bytes.skip(
                    ents[k].end_char as int,
                )
            },
{
    let at = lemma_masked_pieces(bytes, ents);
    let head = masked_up_to(bytes, ents);
    let tail = bytes.subrange(end_of(ents), bytes.len() as int);
    let whole = masked(bytes, ents);
    let none = Seq::<ExtractedEntity>::empty();
    assert(ents + none =~= ents);
    assert forall|k: int| 0 <= k < ents.len() implies is_piece(
        bytes,
        ents,
        whole,
        k,
        if k > 0 {
            at[k - 1]
        } else {
            0
        },
        #[trigger] at[k],
    ) by {
        let o = if k > 0 {
            at[k - 1]
        } else {
            0
        };
        if k > 0 {
            assert(ents[k - 1].end_char <= ents[k].start_char);
        }
        lemma_piece_stays(bytes, ents, none, head, tail, k, o, at[k]);
    }
    assert(at[0] == ents[0].start_char);
    assert forall|k: int| 0 <= k < ents.len() implies {
        let size = encode_utf8(seq!['['] + tag_name(ents[k].label@) + seq![']']).len();
        &&& 0 <= #[trigger] at[k] <= at[k] + size <= whole.len()
        &&& whole.subrange(at[k], at[k] + size) == encode_utf8(
            seq!['['] + tag_name(ents[k].label@) + seq![']'],
        )
        &&& k + 1 < ents.len() ==> {
            &&& at[k + 1] == at[k] + size + (ents[k + 1].start_char - ents[k].end_char)
            &&& whole.subrange(at[k] + size, at[k + 1]) == bytes.subrange(
                ents[k].end_char as int,
                ents[k + 1].start_char as int,
            )
        }
        &&& k + 1 == ents.len() ==> whole.skip(at[k] + size) == bytes.skip(ents[k].end_char as int)
    } by {
        assert(tag_bytes(ents[k]) == encode_utf8(
            seq!['['] + tag_name(ents[k].label@) + seq![']'],
        )) by {
            reveal(tag_bytes);
        }
        if k + 1 < ents.len() {
            let next = at[k + 1];
            assert(is_piece(bytes, ents, whole, k + 1, at[k], next));
        } else {
            assert(ents[k] == ents.last());
            assert(whole.skip(at[k] + tag_bytes(ents[k]).len()) =~= tail);
            assert(tail =~= bytes.skip(ents[k].end_char as int));
        }
    }
    at
}

/// Masking one entity more, which stands behind the others, leaves the text before it as it
/// was masked without it and the text behind it as it is: only its own bytes give way.
pub proof fn law_last_entity_is_masked_alone(bytes: Seq<u8>, ents: Seq<ExtractedEntity>)
    requires
        ents.len() > 0,
        forall|k: int|
            0 <= k < ents.len() ==> (#[trigger] ents[k]).start_char <= ents[k].end_char
                <= bytes.len(),
        forall|j: int, k: int|
            0 <= j < k < ents.len() ==> (#[trigger] ents[j]).end_char <= (
            #[trigger] ents[k]).start_char,
    ensures
        masked(bytes, ents) == masked(
            bytes.take(ents.last().start_char as int),
            ents.drop_last(),
        ) + encode_utf8(seq!['['] + tag_name(ents.last().label@) + seq![']']) + bytes.skip(
            ents.last().end_char as int,
        ),
        masked(bytes, ents).len() + (ents.last().end_char - ents.last().start_char) == masked(
            bytes,
            ents.drop_last(),
        ).len() + encode_utf8(seq!['['] + tag_name(ents.last().label@) + seq![']']).len(),
{
    let front = ents.drop_last();
    let e = ents.last();
    let n = front.len() as int;
    assert(ents[n] == e);
    if n > 0 {
        assert(ents[n - 1].end_char <= ents[n].start_char);
        assert(ents[n - 1].start_char <= ents[n - 1].end_char);
    }
    let start = e.start_char as int;
    let cut = bytes.take(start);
    lemma_masked_of_prefix(bytes, start, front);
    assert(bytes.subrange(end_of(front), start) =~= cut.subrange(end_of(front), start));
    assert(bytes.subrange(end_of(ents), bytes.len() as int) =~= bytes.skip(e.end_char as int));
}

/// What stands up to the last entity does not depend on the text behind it.
proof fn lemma_masked_of_prefix(bytes: Seq<u8>, n: int, ents: Seq<ExtractedEntity>)
    requires
        0 <= n <= bytes.len(),
        forall|k: int| 0 <= k < ents.len() ==> (#[trigger] ents[k]).start_char <= ents[k].end_char,
        forall|k: int| 0 <= k < ents.len() ==> (#[trigger] ents[k]).end_char <= n,
        forall|j: int, k: int|
            0 <= j < k < ents.len() ==> (#[trigger] ents[j]).end_char <= (
            #[trigger] ents[k]).start_char,
    ensures
        masked_up_to(bytes, ents) == masked_up_to(bytes.take(n), ents),
    decreases ents.len(),
{
    if ents.len() > 0 {
        let front = ents.drop_last();
        let last = ents.len() - 1;
        assert(ents[last] == ents.last());
        if last > 0 {
            assert(ents[last - 1].end_char <= ents[last].start_char);
        }
        assert forall|k: int| 0 <= k < front.len() implies (#[trigger] front[k]).start_char
            <= front[k].end_char && front[k].end_char <= n by {
            assert(front[k] == ents[k]);
        }
        assert forall|j: int, k: int| 0 <= j < k < front.len() implies (
        #[trigger] front[j]).end_char <= (#[trigger] front[k]).start_char by {
            assert(front[j] == ents[j] && front[k] == ents[k]);
        }
        lemma_masked_of_prefix(bytes, n, front);
        let start = ents.last().start_char as int;
        assert(bytes.subrange(end_of(front), start) =~= bytes.take(n).subrange(
            end_of(front),
            start,
        ));
    }
}

/// What is masked of a text are entities of the list that cover a byte of it and none
/// beyond it; they come one after the other; and one that is not masked, though it lies in
/// the text, shares a byte with one that is. So the redacted text is the text with exactly
/// these replaced.
pub proof fn law_redaction_masks_what_stands(bytes: Seq<u8>, ents: Seq<ExtractedEntity>) -> (kept:
    Seq<ExtractedEntity>)
    requires
        ents.len() <= usize::MAX,
    ensures
        redaction_of(bytes, ents) == masked(bytes, kept),
        kept == kept_of(bytes, ents),
        forall|k: int| 0 <= k < kept.len() ==> ents.contains(#[trigger] kept[k]),
        forall|k: int|
            0 <= k < kept.len() ==> (#[trigger] kept[k]).start_char < kept[k].end_char
                <= bytes.len(),
        forall|j: int, k: int|
            0 <= j < k < kept.len() ==> (#[trigger] kept[j]).end_char <= (
            #[trigger] kept[k]).start_char,
        forall|i: int|
            #![trigger ents[i]]
            0 <= i < ents.len() && ents[i].start_char < ents[i].end_char && ents[i].end_char
                <= bytes.len() ==> kept.contains(ents[i]) || exists|k: int|
                #![trigger kept[k]]
                0 <= k < kept.len() && ents[i].start_char < kept[k].end_char && kept[k].start_char
                    < ents[i].end_char,
{
    let n = bytes.len();
    let pool = those_in_text(ents, n);
    let kept = kept_of(bytes, ents);
    lemma_those_in_text(ents, n);
    lemma_kept_of(bytes, ents);
    lemma_dedup_members(pool, kept);
    lemma_dedup_in_text(pool, n, kept);
    assert forall|k: int| 0 <= k < kept.len() implies ents.contains(#[trigger] kept[k])
        && kept[k].start_char < kept[k].end_char <= bytes.len() by {
        assert(pool.contains(kept[k]));
        let i = choose|i: int| 0 <= i < pool.len() && pool[i] == kept[k];
        assert(ents.contains(pool[i]));
        assert(is_in_text(kept[k], n));
    }
    assert forall|i: int|
        #![trigger ents[i]]
        0 <= i < ents.len() && ents[i].start_char < ents[i].end_char && ents[i].end_char
            <= bytes.len() implies kept.contains(ents[i]) || exists|k: int|
        #![trigger kept[k]]
        0 <= k < kept.len() && ents[i].start_char < kept[k].end_char && kept[k].start_char
            < ents[i].end_char by {
        if !kept.contains(ents[i]) {
            lemma_kept_in_text(ents, n, i);
            let p = choose|p: int| 0 <= p < pool.len() && pool[p] == ents[i];
            let k = law_left_out_entity_shares_a_byte(pool, kept, p);
            assert(ents[i].start_char < kept[k].end_char);
        }
    }
    kept
}

/// Entities whose spans, where they cover a byte and none beyond the text, begin and end at
/// character boundaries can be masked.
pub proof fn law_entities_at_boundaries_can_be_masked(bytes: Seq<u8>, ents: Seq<ExtractedEntity>)
    requires
        ents.len() <= usize::MAX,
        forall|i: int|
            0 <= i < ents.len() && (#[trigger] ents[i]).start_char < ents[i].end_char
                && ents[i].end_char <= bytes.len() ==> is_char_boundary(
                bytes,
                ents[i].start_char as int,
            ) && is_char_boundary(bytes, ents[i].end_char as int),
    ensures
        can_be_masked(bytes, ents),
{
    lemma_lie_well(bytes, ents);
}

/// What begins with no underscore keeps its beginning when something is put behind it.
proof fn lemma_stripped_start_push(s: Seq<char>, c: char)
    ensures
        stripped_start(s).len() > 0 ==> stripped_start(s.push(c)) == stripped_start(s).push(c),
        stripped_start(s).len() == 0 && c != '_' ==> stripped_start(s.push(c)) == seq![c],
        stripped_start(s).len() == 0 && c == '_' ==> stripped_start(s.push(c)).len() == 0,
    decreases s.len(),
{
    let t = s.push(c);
    if s.len() > 0 && s[0] == '_' {
        assert(t.drop_first() =~= s.drop_first().push(c));
        lemma_stripped_start_push(s.drop_first(), c);
    } else if s.len() == 0 {
        let none = Seq::<char>::empty();
        assert(stripped_start(none).len() == 0);
        assert(t.drop_first() =~= none);
        assert(t =~= seq![c]);
    }
}

/// A label that grows by one character. A letter or a digit is put behind its name, in
/// upper case; an underscore comes before it where something else than a letter or a digit
/// stood last, unless it is the first. Anything else leaves the name as it is. The name of
/// an empty label is empty.
pub proof fn law_tag_name_grows_with_the_label(label: Seq<char>, c: char)
    ensures
        tag_name(Seq::empty()) == Seq::<char>::empty(),
        ({
            let upper = if 'a' <= c <= 'z' {
                (c as u32 - 32) as char
            } else {
                c
            };
            let fits = '0' <= c <= '9' || 'A' <= c <= 'Z' || 'a' <= c <= 'z';
            let after_gap = label.len() > 0 && {
                let d = label.last();
                !('0' <= d <= '9' || 'A' <= d <= 'Z' || 'a' <= d <= 'z')
            };
            tag_name(label.push(c)) == if !fits {
                tag_name(label)
            } else if after_gap && tag_name(label).len() > 0 {
                tag_name(label).push('_').push(upper)
            } else {
                tag_name(label).push(upper)
            }
        }),
{
    let none = Seq::<char>::empty();
    assert(none.map_values(|c: char| tag_char(c)) =~= none);
    let mapped = label.map_values(|c: char| tag_char(c));
    let q = squeezed(mapped);
    let s = stripped_start(q);
    let longer = label.push(c).map_values(|c: char| tag_char(c));
    assert(longer =~= mapped.push(tag_char(c)));
    assert(longer.drop_last() =~= mapped);
    lemma_squeezed(mapped);
    lemma_stripped_start(q);
    let a = choose|a: int| 0 <= a <= q.len() && s == #[trigger] q.skip(a);
    lemma_stripped_start_push(q, tag_char(c));
    if label.len() > 0 {
        assert(mapped.last() == tag_char(label.last()));
        assert(q.len() > 0 && q.last() == mapped.last()) by {
            let front = squeezed(mapped.drop_last());
            assert(q == front || q == front.push(mapped.last()));
        }
        if s.len() > 0 {
            assert(s.last() == q.last());
        }
    }
    assert(q.len() == 0 <==> label.len() == 0);
    if s.len() > 0 && s.last() == '_' {
        assert(s[0] != '_');
        assert(s.len() > 1);
        assert(s[s.len() - 1] == q[a + s.len() - 1]);
        assert(s[s.len() - 2] == q[a + s.len() - 2]);
        assert(s.drop_last().last() != '_');
        assert(stripped_end(s.drop_last()) == s.drop_last());
        assert(stripped_end(s) == s.drop_last());
        assert(s.drop_last().push('_') =~= s);
    }
    let name = tag_name(label.push(c));
    if tag_char(c) == '_' {
        if s.len() == 0 {
            assert(stripped_start(squeezed(longer)).len() == 0);
            assert(name =~= tag_name(label));
        }
        if q.len() == 0 || q.last() != '_' {
            assert(squeezed(longer) == q.push('_'));
            if s.len() > 0 {
                assert(s.push('_').drop_last() =~= s);
            }
        } else {
            assert(squeezed(longer) == q);
        }
    } else {
        assert(squeezed(longer) == q.push(tag_char(c)));
        let r = if s.len() > 0 {
            s.push(tag_char(c))
        } else {
            seq![tag_char(c)]
        };
        assert(r.last() == tag_char(c));
        assert(stripped_end(r) == r);
        assert(name == r);
        if s.len() > 0 && s.last() != '_' {
            assert(stripped_end(s) == s);
        }
        if s.len() == 0 {
            assert(tag_name(label) =~= Seq::empty());
            assert(seq![tag_char(c)] =~= Seq::<char>::empty().push(tag_char(c)));
        }
    }
}

} // verus!
