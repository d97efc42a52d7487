//! What the model reports of a text, and the set of spans that is redacted.
use vstd::prelude::*;

use crate::score::{above, is_above, is_nan};
use crate::select::{
    is_passed_over, is_permutation, is_selection, law_no_conflict_no_loss, law_selection_is_unique,
    lemma_order_of, lemma_order_unique, lemma_permutation_hits, lemma_selection_of, order_of,
    precedes, priority_order, select, selection_of, weak_order, Candidate,
};

verus! {

/// An entity found in a text: its span in bytes and in tokens, its label and the
/// bits of its score.
#[derive(Debug)]
pub struct ExtractedEntity {
    pub text: String,
    pub label: String,
    pub score: u32,
    pub start_tok: usize,
    pub end_tok: usize,
    pub start_char: usize,
    pub end_char: usize,
}

impl Clone for ExtractedEntity {
    fn clone(&self) -> (r: Self)
        ensures
            r == *self,
    {
        ExtractedEntity {
            text: self.text.clone(),
            label: self.label.clone(),
            score: self.score,
            start_tok: self.start_tok,
            end_tok: self.end_tok,
            start_char: self.start_char,
            end_char: self.end_char,
        }
    }
}

/// An entity as mathematical values.
pub struct EntityView {
    pub text: Seq<char>,
    pub label: Seq<char>,
    pub score: u32,
    pub start_tok: usize,
    pub end_tok: usize,
    pub start_char: usize,
    pub end_char: usize,
}

impl View for ExtractedEntity {
    type V = EntityView;

    open spec fn view(&self) -> EntityView {
        EntityView {
            text: self.text@,
            label: self.label@,
            score: self.score,
            start_tok: self.start_tok,
            end_tok: self.end_tok,
            start_char: self.start_char,
            end_char: self.end_char,
        }
    }
}

/// The entities as mathematical values.
pub open spec fn entity_views(ents: Seq<ExtractedEntity>) -> Seq<EntityView> {
    ents.map_values(|e: ExtractedEntity| e@)
}

/// What decides between entities that overlap: the byte span and the score.
#[derive(Clone, Copy)]
pub struct SpanKey {
    pub start: usize,
    pub end: usize,
    pub score: u32,
}

impl SpanKey {
    /// How many bytes the span covers.
    pub open spec fn width(self) -> int {
        if self.end >= self.start {
            self.end - self.start
        } else {
            0
        }
    }

    /// How many bytes the span covers.
    fn covered(&self) -> (r: usize)
        ensures
            r == self.width(),
    {
        if self.end >= self.start {
            self.end - self.start
        } else {
            0
        }
    }
}

/// The higher score has priority, then the wider span, then the one that begins
/// first. Spans conflict where they share a byte.
impl Candidate for SpanKey {
    open spec fn outranks(self, other: Self) -> bool {
        ||| is_above(self.score, other.score)
        ||| !is_above(other.score, self.score) && (self.width() > other.width() || (self.width()
            == other.width() && self.start < other.start))
    }

    open spec fn conflicts(self, other: Self) -> bool {
        !(self.end <= other.start || self.start >= other.end)
    }

    proof fn conflict_is_mutual(self, other: Self) {
    }

    fn has_priority(&self, other: &Self) -> (r: bool) {
        if above(self.score, other.score) {
            return true;
        }
        if above(other.score, self.score) {
            return false;
        }
        self.covered() > other.covered() || (self.covered() == other.covered() && self.start
            < other.start)
    }

    fn in_conflict(&self, other: &Self) -> (r: bool) {
        !(self.end <= other.start || self.start >= other.end)
    }
}

/// Where a span begins, as what puts it in its place in the text.
#[derive(Clone, Copy)]
pub struct StartKey {
    pub start: usize,
}

impl Candidate for StartKey {
    open spec fn outranks(self, other: Self) -> bool {
        self.start < other.start
    }

    open spec fn conflicts(self, other: Self) -> bool {
        false
    }

    proof fn conflict_is_mutual(self, other: Self) {
    }

    fn has_priority(&self, other: &Self) -> (r: bool) {
        self.start < other.start
    }

    fn in_conflict(&self, _other: &Self) -> (r: bool) {
        false
    }
}

/// The span and score of an entity.
pub open spec fn key_of(e: ExtractedEntity) -> SpanKey {
    SpanKey { start: e.start_char, end: e.end_char, score: e.score }
}

/// The spans and scores of the entities.
pub open spec fn keys_of(ents: Seq<ExtractedEntity>) -> Seq<SpanKey> {
    ents.map_values(|e: ExtractedEntity| key_of(e))
}

/// Whether every score is a number.
pub open spec fn scores_are_numbers(keys: Seq<SpanKey>) -> bool {
    forall|i: int| 0 <= i < keys.len() ==> !is_nan(#[trigger] keys[i].score)
}

/// Where every score is a number, priority is a weak order.
pub proof fn lemma_keys_weak_order(keys: Seq<SpanKey>)
    requires
        scores_are_numbers(keys),
    ensures
        weak_order(keys),
{
}

/// Whether the chosen positions stand in the order in which their spans begin, and
/// in order of priority where two begin at the same byte.
pub open spec fn in_text_order(keys: Seq<SpanKey>, chosen: Seq<usize>) -> bool {
    forall|a: int, b: int|
        0 <= a < b < chosen.len() ==> stands_before(
            keys,
            #[trigger] chosen[a] as int,
            #[trigger] chosen[b] as int,
        )
}

/// Whether item `i` begins before item `j`, or with it and with priority.
pub open spec fn stands_before(keys: Seq<SpanKey>, i: int, j: int) -> bool {
    ||| keys[i].start < keys[j].start
    ||| keys[i].start == keys[j].start && (weak_order(keys) ==> precedes(keys, i, j))
}

/// Where the chosen spans begin.
spec fn starts_of(keys: Seq<SpanKey>, chosen: Seq<usize>) -> Seq<StartKey> {
    Seq::new(chosen.len(), |a: int| StartKey { start: keys[chosen[a] as int].start })
}

/// The chosen spans, ordered by where they begin.
spec fn placed_of(keys: Seq<SpanKey>, chosen: Seq<usize>) -> Seq<usize> {
    let order = order_of(starts_of(keys, chosen));
    Seq::new(order.len(), |a: int| chosen[order[a] as int])
}

/// The spans that stand, in text order. Where a score is not a number, and with it the
/// priority among overlapping spans is open, some such spans that the keys determine.
pub closed spec fn spans_of(keys: Seq<SpanKey>) -> Seq<usize> {
    placed_of(keys, selection_of(keys))
}

/// The spans that stand are a selection in text order.
pub proof fn lemma_spans_of(keys: Seq<SpanKey>)
    requires
        keys.len() <= usize::MAX,
    ensures
        is_selection(keys, spans_of(keys)),
        in_text_order(keys, spans_of(keys)),
        spans_of(keys).len() <= keys.len(),
{
    let chosen = selection_of(keys);
    let starts = starts_of(keys, chosen);
    let order = order_of(starts);
    let placed = spans_of(keys);
    lemma_selection_of(keys);
    lemma_order_of(starts);
    lemma_reordered_selection(keys, chosen, order, placed);
    assert(weak_order(starts));
    assert forall|a: int, b: int| 0 <= a < b < placed.len() implies stands_before(
        keys,
        #[trigger] placed[a] as int,
        #[trigger] placed[b] as int,
    ) by {
        let x = order[a] as int;
        let y = order[b] as int;
        assert(precedes(starts, x, y));
        assert(placed[a] == chosen[x] && placed[b] == chosen[y]);
        if starts[x].start == starts[y].start && weak_order(keys) {
            assert(precedes(keys, chosen[x] as int, chosen[y] as int));
        }
    }
}

/// The spans that stand, in text order.
pub fn select_spans(keys: &Vec<SpanKey>) -> (placed: Vec<usize>)
    ensures
        placed@ == spans_of(keys@),
        is_selection(keys@, placed@),
        in_text_order(keys@, placed@),
{
    let chosen = select(keys);
    let mut starts: Vec<StartKey> = Vec::new();
    let mut i: usize = 0;
    while i < chosen.len()
        invariant
            i <= chosen@.len(),
            is_selection(keys@, chosen@),
            starts@ == starts_of(keys@, chosen@).take(i as int),
        decreases chosen@.len() - i,
    {
        assert(chosen@[i as int] < keys@.len());
        starts.push(StartKey { start: keys[chosen[i]].start });
        i += 1;
        assert(starts@ =~= starts_of(keys@, chosen@).take(i as int));
    }
    assert(starts@ =~= starts_of(keys@, chosen@));
    let order = priority_order(&starts);
    let mut placed: Vec<usize> = Vec::new();
    let mut k: usize = 0;
    while k < order.len()
        invariant
            k <= order@.len(),
            order@ == order_of(starts_of(keys@, chosen@)),
            is_permutation(order@, chosen@.len()),
            placed@ == placed_of(keys@, chosen@).take(k as int),
        decreases order@.len() - k,
    {
        placed.push(chosen[order[k]]);
        k += 1;
        assert(placed@ =~= placed_of(keys@, chosen@).take(k as int));
    }
    assert(placed@ =~= spans_of(keys@));
    assert(keys@.len() == keys.len());
    proof {
        lemma_spans_of(keys@);
    }
    placed
}

/// A selection put in another order is still one.
proof fn lemma_reordered_selection<T: Candidate>(
    items: Seq<T>,
    chosen: Seq<usize>,
    order: Seq<usize>,
    placed: Seq<usize>,
)
    requires
        chosen.len() <= usize::MAX,
        is_selection(items, chosen),
        is_permutation(order, chosen.len()),
        placed.len() == chosen.len(),
        forall|a: int| 0 <= a < placed.len() ==> #[trigger] placed[a] == chosen[order[a] as int],
    ensures
        is_selection(items, placed),
{
    assert forall|a: int, b: int|
        0 <= a < placed.len() && 0 <= b < placed.len() && a != b implies placed[a] != placed[b] by {
        assert(order[a] != order[b]);
    }
    assert forall|a: int, b: int|
        0 <= a < placed.len() && 0 <= b < placed.len() && a
            != b implies !items[#[trigger] placed[a] as int].conflicts(
        items[#[trigger] placed[b] as int],
    ) by {
        assert(order[a] != order[b]);
    }
    assert forall|i: usize| chosen.contains(i) implies placed.contains(i) by {
        let x = choose|x: int| 0 <= x < chosen.len() && chosen[x] == i;
        lemma_permutation_hits(order, chosen.len(), x as usize);
        let a = choose|a: int| 0 <= a < order.len() && order[a] == x;
        assert(placed[a] == i);
    }
    assert forall|i: usize| i < items.len() && !#[trigger] placed.contains(
        i,
    ) implies is_passed_over(items, placed, i) by {
        assert(is_passed_over(items, chosen, i));
        let x = choose|x: int|
            0 <= x < chosen.len() && items[i as int].conflicts(
                items[#[trigger] chosen[x] as int],
            ) && (weak_order(items) ==> precedes(items, chosen[x] as int, i as int));
        assert(chosen.contains(chosen[x]));
        let a = choose|a: int| 0 <= a < placed.len() && placed[a] == chosen[x];
        assert(placed[a] == chosen[x]);
    }
}

/// The entities at the given positions.
pub open spec fn picked(ents: Seq<ExtractedEntity>, at: Seq<usize>) -> Seq<ExtractedEntity> {
    Seq::new(at.len(), |a: int| ents[at[a] as int])
}

/// Whether `out` is what is left of `ents` once overlaps are resolved: the entities
/// of a selection of their spans, in text order.
pub open spec fn is_dedup(ents: Seq<ExtractedEntity>, out: Seq<ExtractedEntity>) -> bool {
    exists|at: Seq<usize>| #[trigger] is_dedup_at(ents, at, out)
}

/// Whether `out` is the entities at `at`, a selection in text order.
pub open spec fn is_dedup_at(
    ents: Seq<ExtractedEntity>,
    at: Seq<usize>,
    out: Seq<ExtractedEntity>,
) -> bool {
    &&& is_selection(keys_of(ents), at)
    &&& in_text_order(keys_of(ents), at)
    &&& out == picked(ents, at)
}

/// What is left of the entities once overlaps are resolved.
pub open spec fn dedup_of(ents: Seq<ExtractedEntity>) -> Seq<ExtractedEntity> {
    picked(ents, spans_of(keys_of(ents)))
}

/// What is left of the entities is the entities of a selection of their spans, in text
/// order.
pub proof fn lemma_dedup_of(ents: Seq<ExtractedEntity>)
    requires
        ents.len() <= usize::MAX,
    ensures
        is_dedup(ents, dedup_of(ents)),
        dedup_of(ents).len() <= ents.len(),
{
    lemma_spans_of(keys_of(ents));
    assert(is_dedup_at(ents, spans_of(keys_of(ents)), dedup_of(ents)));
}

/// The spans and scores of the entities.
fn keys(ents: &Vec<ExtractedEntity>) -> (keys: Vec<SpanKey>)
    ensures
        keys@ == keys_of(ents@),
{
    let mut keys: Vec<SpanKey> = Vec::new();
    let mut i: usize = 0;
    while i < ents.len()
        invariant
            i <= ents@.len(),
            keys@ == keys_of(ents@).take(i as int),
        decreases ents@.len() - i,
    {
        keys.push(
            SpanKey { start: ents[i].start_char, end: ents[i].end_char, score: ents[i].score },
        );
        i += 1;
        assert(keys@ =~= keys_of(ents@).take(i as int));
    }
    assert(keys_of(ents@).take(i as int) =~= keys_of(ents@));
    keys
}

/// Resolves the overlaps among entities pooled from several windows: the higher
/// score stands, then the wider span, then the one that begins first. What stands
/// comes in text order.
pub fn dedup_entities(ents: Vec<ExtractedEntity>) -> (out: Vec<ExtractedEntity>)
    requires
        ents@.len() > 1 ==> forall|i: int|
            0 <= i < ents@.len() ==> (#[trigger] ents@[i]).start_char <= ents@[i].end_char,
    ensures
        out@ == dedup_of(ents@),
        is_dedup(ents@, out@),
{
    let ks = keys(&ents);
    let at = select_spans(&ks);
    let mut out: Vec<ExtractedEntity> = Vec::new();
    let mut i: usize = 0;
    while i < at.len()
        invariant
            i <= at@.len(),
            is_selection(keys_of(ents@), at@),
            at@ == spans_of(keys_of(ents@)),
            out@ == picked(ents@, at@).take(i as int),
        decreases at@.len() - i,
    {
        assert(at@[i as int] < keys_of(ents@).len());
        out.push(ents[at[i]].clone());
        i += 1;
        assert(out@ =~= picked(ents@, at@).take(i as int));
    }
    assert(picked(ents@, at@).take(i as int) =~= picked(ents@, at@));
    assert(is_dedup_at(ents@, at@, out@));
    out
}

/// Two selections of the same spans in text order are the same sequence, where every
/// score is a number.
pub proof fn law_placed_selection_is_unique(keys: Seq<SpanKey>, a: Seq<usize>, b: Seq<usize>)
    requires
        scores_are_numbers(keys),
        is_selection(keys, a),
        is_selection(keys, b),
        in_text_order(keys, a),
        in_text_order(keys, b),
    ensures
        a == b,
{
    lemma_keys_weak_order(keys);
    law_selection_is_unique(keys, a, b);
    lemma_order_unique(keys.len(), |i: int, j: int| stands_before(keys, i, j), a, b);
}

/// What is left of pooled entities is determined by them, where every score is a
/// number.
pub proof fn law_dedup_is_unique(
    ents: Seq<ExtractedEntity>,
    x: Seq<ExtractedEntity>,
    y: Seq<ExtractedEntity>,
)
    requires
        scores_are_numbers(keys_of(ents)),
        is_dedup(ents, x),
        is_dedup(ents, y),
    ensures
        x == y,
{
    let a = choose|at: Seq<usize>| #[trigger] is_dedup_at(ents, at, x);
    let b = choose|at: Seq<usize>| #[trigger] is_dedup_at(ents, at, y);
    law_placed_selection_is_unique(keys_of(ents), a, b);
}

/// What is left are entities of the pool.
pub proof fn lemma_dedup_members(ents: Seq<ExtractedEntity>, out: Seq<ExtractedEntity>)
    requires
        is_dedup(ents, out),
    ensures
        forall|k: int| 0 <= k < out.len() ==> ents.contains(#[trigger] out[k]),
{
    let at = choose|at: Seq<usize>| #[trigger] is_dedup_at(ents, at, out);
    assert forall|k: int| 0 <= k < out.len() implies ents.contains(#[trigger] out[k]) by {
        assert(at[k] < keys_of(ents).len());
        assert(ents[at[k] as int] == out[k]);
    }
}

/// What is left are entities of the pool, in the order in which they begin, of which
/// no two share a byte; and every entity of the pool shares a byte with one of them
/// or is one of them.
pub proof fn law_dedup_is_disjoint_and_complete(
    ents: Seq<ExtractedEntity>,
    out: Seq<ExtractedEntity>,
)
    requires
        ents.len() <= usize::MAX,
        is_dedup(ents, out),
    ensures
        forall|k: int| 0 <= k < out.len() ==> ents.contains(#[trigger] out[k]),
        forall|j: int, k: int|
            0 <= j < k < out.len() ==> (#[trigger] out[j]).start_char <= (
            #[trigger] out[k]).start_char && !key_of(out[j]).conflicts(key_of(out[k])),
        forall|i: int|
            #![trigger ents[i]]
            0 <= i < ents.len() ==> out.contains(ents[i]) || exists|k: int|
                0 <= k < out.len() && key_of(ents[i]).conflicts(key_of(#[trigger] out[k])),
{
    lemma_dedup_members(ents, out);
    let at = choose|at: Seq<usize>| #[trigger] is_dedup_at(ents, at, out);
    let keys = keys_of(ents);
    assert forall|j: int, k: int| 0 <= j < k < out.len() implies (#[trigger] out[j]).start_char <= (
    #[trigger] out[k]).start_char && !key_of(out[j]).conflicts(key_of(out[k])) by {
        assert(at[j] < keys.len() && at[k] < keys.len());
        assert(stands_before(keys, at[j] as int, at[k] as int));
        assert(!keys[at[j] as int].conflicts(keys[at[k] as int]));
    }
    assert forall|i: int| #![trigger ents[i]] 0 <= i < ents.len() implies out.contains(ents[i])
        || exists|k: int|
        0 <= k < out.len() && key_of(ents[i]).conflicts(key_of(#[trigger] out[k])) by {
        if at.contains(i as usize) {
            let k = choose|k: int| 0 <= k < at.len() && at[k] == i;
            assert(out[k] == ents[i]);
        } else {
            assert(is_passed_over(keys, at, i as usize));
            let k = choose|k: int|
                0 <= k < at.len() && keys[i].conflicts(keys[#[trigger] at[k] as int]);
            assert(at[k] < keys.len());
            assert(key_of(ents[i]).conflicts(key_of(out[k])));
        }
    }
}

/// Every position of a list whose spans are disjoint and in text order stands, in
/// the order of the list.
pub proof fn lemma_disjoint_spans_all_stand(keys: Seq<SpanKey>, at: Seq<usize>)
    requires
        keys.len() <= usize::MAX,
        weak_order(keys),
        forall|i: int, j: int|
            0 <= i < j < keys.len() ==> !(#[trigger] keys[i]).conflicts(#[trigger] keys[j])
                && stands_before(keys, i, j),
        is_selection(keys, at),
        in_text_order(keys, at),
    ensures
        at == Seq::new(keys.len(), |i: int| i as usize),
{
    let all = Seq::new(keys.len(), |i: int| i as usize);
    assert forall|i: int, j: int|
        0 <= i < keys.len() && 0 <= j < keys.len() && i != j implies !#[trigger] keys[i].conflicts(
        keys[j],
    ) by {
        if i > j {
            keys[j].conflict_is_mutual(keys[i]);
        }
    }
    law_no_conflict_no_loss(keys, at);
    assert forall|i: usize| at.contains(i) <==> all.contains(i) by {
        if at.contains(i) {
            let k = choose|k: int| 0 <= k < at.len() && at[k] == i;
            assert(at[k] < keys.len());
            assert(all[i as int] == i);
        }
    }
    lemma_order_unique(keys.len(), |i: int, j: int| stands_before(keys, i, j), at, all);
}

/// Resolving overlaps a second time changes nothing, where every score is a number.
pub proof fn law_dedup_is_idempotent(
    ents: Seq<ExtractedEntity>,
    once: Seq<ExtractedEntity>,
    twice: Seq<ExtractedEntity>,
)
    requires
        once.len() <= usize::MAX,
        scores_are_numbers(keys_of(ents)),
        is_dedup(ents, once),
        is_dedup(once, twice),
    ensures
        twice == once,
{
    let at = choose|at: Seq<usize>| #[trigger] is_dedup_at(ents, at, once);
    let again = choose|at: Seq<usize>| #[trigger] is_dedup_at(once, at, twice);
    let keys = keys_of(ents);
    let left = keys_of(once);
    lemma_keys_weak_order(keys);
    assert forall|i: int| 0 <= i < left.len() implies left[i] == keys[at[i] as int] && at[i]
        < keys.len() by {}
    lemma_keys_weak_order(left);
    assert forall|i: int, j: int| 0 <= i < j < left.len() implies !(
    #[trigger] left[i]).conflicts(#[trigger] left[j]) && stands_before(left, i, j) by {
        assert(at[i] < keys.len() && at[j] < keys.len());
        assert(stands_before(keys, at[i] as int, at[j] as int));
    }
    lemma_disjoint_spans_all_stand(left, again);
    assert(twice =~= once);
}

/// Whether the two have the same span and the same score.
pub open spec fn is_same_key(a: ExtractedEntity, b: ExtractedEntity) -> bool {
    &&& a.start_char == b.start_char
    &&& a.end_char == b.end_char
    &&& !is_above(a.score, b.score)
    &&& !is_above(b.score, a.score)
}

/// Whether no two of the entities have the same span and the same score.
pub open spec fn are_distinct(ents: Seq<ExtractedEntity>) -> bool {
    forall|i: int, j: int|
        0 <= i < ents.len() && 0 <= j < ents.len() && i != j ==> !is_same_key(
            #[trigger] ents[i],
            #[trigger] ents[j],
        )
}

/// Whether the two lists hold the same entities.
pub open spec fn have_same_members(a: Seq<ExtractedEntity>, b: Seq<ExtractedEntity>) -> bool {
    &&& forall|i: int| 0 <= i < a.len() ==> b.contains(#[trigger] a[i])
    &&& forall|i: int| 0 <= i < b.len() ==> a.contains(#[trigger] b[i])
}

/// The position in `a` of entity `i` of `b`.
spec fn position_in(a: Seq<ExtractedEntity>, b: Seq<ExtractedEntity>, i: int) -> int {
    choose|p: int| 0 <= p < a.len() && a[p] == b[i]
}

/// An entity that precedes another with a different span or score outranks it.
proof fn lemma_distinct_outranks(ents: Seq<ExtractedEntity>, i: int, j: int)
    requires
        0 <= i < ents.len(),
        0 <= j < ents.len(),
        i != j,
        are_distinct(ents),
        scores_are_numbers(keys_of(ents)),
        ents[i].start_char <= ents[i].end_char,
        ents[j].start_char <= ents[j].end_char,
        precedes(keys_of(ents), i, j),
    ensures
        key_of(ents[i]).outranks(key_of(ents[j])),
{
    assert(!is_same_key(ents[i], ents[j]));
    assert(!is_nan(keys_of(ents)[i].score) && !is_nan(keys_of(ents)[j].score));
    assert(keys_of(ents)[i] == key_of(ents[i]) && keys_of(ents)[j] == key_of(ents[j]));
}

/// A selection of one list, in text order, is one of any list of the same entities.
proof fn lemma_selection_of_same_members(
    a: Seq<ExtractedEntity>,
    b: Seq<ExtractedEntity>,
    at: Seq<usize>,
) -> (there: Seq<usize>)
    requires
        a.len() <= usize::MAX,
        b.len() <= usize::MAX,
        have_same_members(a, b),
        are_distinct(a),
        are_distinct(b),
        scores_are_numbers(keys_of(a)),
        scores_are_numbers(keys_of(b)),
        forall|i: int| 0 <= i < b.len() ==> (#[trigger] b[i]).start_char <= b[i].end_char,
        is_selection(keys_of(b), at),
        in_text_order(keys_of(b), at),
    ensures
        is_selection(keys_of(a), there),
        in_text_order(keys_of(a), there),
        picked(a, there) == picked(b, at),
{
    let ka = keys_of(a);
    let kb = keys_of(b);
    lemma_keys_weak_order(ka);
    lemma_keys_weak_order(kb);
    let there = Seq::new(at.len(), |x: int| position_in(a, b, at[x] as int) as usize);
    assert forall|x: int| 0 <= x < at.len() implies #[trigger] there[x] < a.len()
        && a[there[x] as int] == b[at[x] as int] && ka[there[x] as int] == kb[at[x] as int] by {
        assert(at[x] < kb.len());
        assert(a.contains(b[at[x] as int]));
    }
    assert forall|x: int, y: int| 0 <= x < there.len() && 0 <= y < there.len() && x
        != y implies there[x] != there[y] by {
        assert(at[x] < kb.len() && at[y] < kb.len() && at[x] != at[y]);
        assert(!is_same_key(b[at[x] as int], b[at[y] as int]));
        assert(!is_nan(kb[at[x] as int].score));
        assert(a[there[x] as int] == b[at[x] as int] && a[there[y] as int] == b[at[y] as int]);
    }
    assert forall|x: int, y: int|
        0 <= x < there.len() && 0 <= y < there.len() && x
            != y implies !ka[#[trigger] there[x] as int].conflicts(
        ka[#[trigger] there[y] as int],
    ) by {
        assert(!kb[at[x] as int].conflicts(kb[at[y] as int]));
    }
    assert forall|i: usize| i < ka.len() && !#[trigger] there.contains(i) implies is_passed_over(
        ka,
        there,
        i,
    ) by {
        assert(b.contains(a[i as int]));
        let j = choose|j: int| 0 <= j < b.len() && b[j] == a[i as int];
        if at.contains(j as usize) {
            let x = choose|x: int| 0 <= x < at.len() && at[x] == j;
            let p = there[x] as int;
            assert(a[p] == b[j]);
            assert(p != i ==> !is_same_key(a[p], a[i as int]));
            assert(!is_nan(ka[p].score));
            assert(there[x] == i);
        }
        assert(is_passed_over(kb, at, j as usize));
        let x = choose|x: int|
            0 <= x < at.len() && kb[j].conflicts(kb[#[trigger] at[x] as int]) && precedes(
                kb,
                at[x] as int,
                j,
            );
        assert(at[x] < kb.len());
        assert(at[x] != j) by {
            if at[x] == j {
                assert(at.contains(j as usize));
            }
        }
        lemma_distinct_outranks(b, at[x] as int, j);
        assert(ka[there[x] as int] == kb[at[x] as int]);
        assert(ka[i as int] == kb[j]);
        assert(ka[i as int].conflicts(ka[there[x] as int]));
    }
    assert forall|x: int, y: int| 0 <= x < y < there.len() implies stands_before(
        ka,
        #[trigger] there[x] as int,
        #[trigger] there[y] as int,
    ) by {
        assert(at[x] < kb.len() && at[y] < kb.len() && at[x] != at[y]);
        assert(stands_before(kb, at[x] as int, at[y] as int));
        if kb[at[x] as int].start == kb[at[y] as int].start {
            lemma_distinct_outranks(b, at[x] as int, at[y] as int);
        }
    }
    assert(picked(a, there) =~= picked(b, at)) by {
        assert forall|x: int| 0 <= x < at.len() implies picked(a, there)[x] == picked(b, at)[x] by {
            assert(a[there[x] as int] == b[at[x] as int]);
        }
    }
    there
}

/// What is left of entities does not depend on the order in which they are listed, where
/// every score is a number, none ends before it begins, and no two have the same span
/// and the same score.
pub proof fn law_dedup_ignores_order(
    a: Seq<ExtractedEntity>,
    b: Seq<ExtractedEntity>,
    x: Seq<ExtractedEntity>,
    y: Seq<ExtractedEntity>,
)
    requires
        a.len() <= usize::MAX,
        b.len() <= usize::MAX,
        have_same_members(a, b),
        are_distinct(a),
        are_distinct(b),
        scores_are_numbers(keys_of(a)),
        forall|i: int| 0 <= i < a.len() ==> (#[trigger] a[i]).start_char <= a[i].end_char,
        is_dedup(a, x),
        is_dedup(b, y),
    ensures
        x == y,
{
    assert forall|i: int| 0 <= i < b.len() implies (#[trigger] b[i]).start_char <= b[i].end_char
        && !is_nan(keys_of(b)[i].score) by {
        assert(a.contains(b[i]));
        let j = choose|j: int| 0 <= j < a.len() && a[j] == b[i];
        assert(a[j].start_char <= a[j].end_char);
        assert(!is_nan(keys_of(a)[j].score));
    }
    let at = choose|at: Seq<usize>| #[trigger] is_dedup_at(b, at, y);
    let there = lemma_selection_of_same_members(a, b, at);
    assert(is_dedup_at(a, there, y));
    law_dedup_is_unique(a, x, y);
}

/// An entity that is left out shares a byte with one that stands.
pub proof fn law_left_out_entity_shares_a_byte(
    ents: Seq<ExtractedEntity>,
    out: Seq<ExtractedEntity>,
    i: int,
) -> (k: int)
    requires
        ents.len() <= usize::MAX,
        is_dedup(ents, out),
        0 <= i < ents.len(),
        !out.contains(ents[i]),
    ensures
        0 <= k < out.len(),
        ents[i].start_char < out[k].end_char,
        out[k].start_char < ents[i].end_char,
{
    law_dedup_is_disjoint_and_complete(ents, out);
    assert(!out.contains(ents[i]));
    choose|k: int| 0 <= k < out.len() && key_of(ents[i]).conflicts(key_of(#[trigger] out[k]))
}

/// The best entities stand, where every score is a number and none ends before it begins.
/// One that is left out shares a byte with one that stands and has a higher score; or the
/// same score and covers more bytes; or as many and begins before it; or begins with it
/// and is listed first. No two that stand share a byte, and they come as they stand in the
/// text.
pub proof fn law_best_entities_stand(ents: Seq<ExtractedEntity>, out: Seq<ExtractedEntity>) -> (at:
    Seq<usize>)
    requires
        ents.len() <= usize::MAX,
        is_dedup(ents, out),
        forall|i: int| 0 <= i < ents.len() ==> !is_nan((#[trigger] ents[i]).score),
        forall|i: int| 0 <= i < ents.len() ==> (#[trigger] ents[i]).start_char <= ents[i].end_char,
    ensures
        at.len() == out.len(),
        forall|k: int| 0 <= k < at.len() ==> #[trigger] at[k] < ents.len(),
        forall|k: int| 0 <= k < at.len() ==> out[k] == ents[#[trigger] at[k] as int],
        forall|j: int, k: int|
            0 <= j < k < out.len() ==> {
                &&& at[j] != at[k]
                &&& (#[trigger] out[j]).start_char <= (#[trigger] out[k]).start_char
                &&& out[j].end_char <= out[k].start_char || out[j].start_char >= out[k].end_char
                &&& out[j].start_char == out[k].start_char ==> {
                    ||| is_above(out[j].score, out[k].score)
                    ||| !is_above(out[k].score, out[j].score) && out[j].end_char > out[k].end_char
                    ||| !is_above(out[k].score, out[j].score) && out[j].end_char
                        == out[k].end_char && at[j] < at[k]
                }
            },
        forall|i: int|
            #![trigger ents[i]]
            0 <= i < ents.len() && !at.contains(i as usize) ==> exists|k: int|
                #![trigger out[k]]
                {
                    let wide = out[k].end_char - out[k].start_char;
                    let own = ents[i].end_char - ents[i].start_char;
                    &&& 0 <= k < out.len()
                    &&& ents[i].start_char < out[k].end_char
                    &&& out[k].start_char < ents[i].end_char
                    &&& is_above(out[k].score, ents[i].score) || (!is_above(
                        ents[i].score,
                        out[k].score,
                    ) && (wide > own || (wide == own && (out[k].start_char < ents[i].start_char
                        || (out[k].start_char == ents[i].start_char && at[k] < i)))))
                },
{
    let at = choose|at: Seq<usize>| #[trigger] is_dedup_at(ents, at, out);
    let keys = keys_of(ents);
    assert forall|i: int| 0 <= i < keys.len() implies !is_nan(#[trigger] keys[i].score) by {
        assert(keys[i] == key_of(ents[i]));
    }
    lemma_keys_weak_order(keys);
    assert forall|k: int| 0 <= k < at.len() implies #[trigger] at[k] < ents.len() && out[k]
        == ents[at[k] as int] && keys[at[k] as int] == key_of(out[k]) by {
        assert(at[k] < keys.len());
    }
    assert forall|j: int, k: int| 0 <= j < k < out.len() implies {
        &&& at[j] != at[k]
        &&& (#[trigger] out[j]).start_char <= (#[trigger] out[k]).start_char
        &&& out[j].end_char <= out[k].start_char || out[j].start_char >= out[k].end_char
        &&& out[j].start_char == out[k].start_char ==> {
            ||| is_above(out[j].score, out[k].score)
            ||| !is_above(out[k].score, out[j].score) && out[j].end_char > out[k].end_char
            ||| !is_above(out[k].score, out[j].score) && out[j].end_char == out[k].end_char
                && at[j] < at[k]
        }
    } by {
        assert(at[j] < ents.len() && at[k] < ents.len());
        assert(stands_before(keys, at[j] as int, at[k] as int));
        assert(!keys[at[j] as int].conflicts(keys[at[k] as int]));
        assert(ents[at[j] as int].start_char <= ents[at[j] as int].end_char);
        assert(ents[at[k] as int].start_char <= ents[at[k] as int].end_char);
    }
    assert forall|i: int| #![trigger ents[i]] 0 <= i < ents.len() && !at.contains(
        i as usize,
    ) implies exists|k: int|
        #![trigger out[k]]
        {
            let wide = out[k].end_char - out[k].start_char;
            let own = ents[i].end_char - ents[i].start_char;
            &&& 0 <= k < out.len()
            &&& ents[i].start_char < out[k].end_char
            &&& out[k].start_char < ents[i].end_char
            &&& is_above(out[k].score, ents[i].score) || (!is_above(ents[i].score, out[k].score)
                && (wide > own || (wide == own && (out[k].start_char < ents[i].start_char || (
            out[k].start_char == ents[i].start_char && at[k] < i)))))
        } by {
        assert(is_passed_over(keys, at, i as usize));
        let k = choose|k: int|
            0 <= k < at.len() && keys[i].conflicts(keys[#[trigger] at[k] as int]) && precedes(
                keys,
                at[k] as int,
                i,
            );
        assert(at[k] < ents.len());
        assert(keys[i] == key_of(ents[i]));
        assert(out[k] == ents[at[k] as int]);
        assert(ents[at[k] as int].start_char <= ents[at[k] as int].end_char);
    }
    at
}

/// Entities of which no two share a byte all stand, whatever their scores.
pub proof fn law_entities_apart_all_stand(ents: Seq<ExtractedEntity>, out: Seq<ExtractedEntity>)
    requires
        ents.len() <= usize::MAX,
        is_dedup(ents, out),
        forall|i: int, j: int|
            0 <= i < j < ents.len() ==> (#[trigger] ents[i]).end_char <= (
            #[trigger] ents[j]).start_char || ents[j].end_char <= ents[i].start_char,
    ensures
        out.len() == ents.len(),
        forall|i: int| 0 <= i < ents.len() ==> out.contains(#[trigger] ents[i]),
        forall|k: int| 0 <= k < out.len() ==> ents.contains(#[trigger] out[k]),
{
    lemma_dedup_members(ents, out);
    let at = choose|at: Seq<usize>| #[trigger] is_dedup_at(ents, at, out);
    let keys = keys_of(ents);
    assert forall|i: int, j: int|
        0 <= i < keys.len() && 0 <= j < keys.len() && i != j implies !#[trigger] keys[i].conflicts(
        keys[j],
    ) by {
        assert(keys[i] == key_of(ents[i]) && keys[j] == key_of(ents[j]));
        if i < j {
            assert(ents[i].end_char <= ents[j].start_char || ents[j].end_char
                <= ents[i].start_char);
        } else {
            assert(ents[j].end_char <= ents[i].start_char || ents[i].end_char
                <= ents[j].start_char);
        }
    }
    law_no_conflict_no_loss(keys, at);
    assert forall|i: int| 0 <= i < ents.len() implies out.contains(#[trigger] ents[i]) by {
        assert(at.contains(i as usize));
        let k = choose|k: int| 0 <= k < at.len() && at[k] == i as usize;
        assert(out[k] == ents[i]);
    }
    lemma_all_positions(at, ents.len());
}

/// A list of positions below `n` without repetition that holds each of them has `n`.
proof fn lemma_all_positions(at: Seq<usize>, n: nat)
    requires
        n <= usize::MAX,
        at.no_duplicates(),
        forall|a: int| 0 <= a < at.len() ==> #[trigger] at[a] < n,
        forall|i: usize| i < n ==> at.contains(i),
    ensures
        at.len() == n,
{
    let ints = at.map_values(|j: usize| j as int);
    let range = vstd::set_lib::set_int_range(0, n as int);
    vstd::set_lib::lemma_int_range(0, n as int);
    assert(ints.no_duplicates());
    ints.unique_seq_to_set();
    assert(ints.to_set() =~= range) by {
        assert forall|j: int| range.contains(j) implies ints.to_set().contains(j) by {
            assert(at.contains(j as usize));
            let a = choose|a: int| 0 <= a < at.len() && at[a] == j as usize;
            assert(ints[a] == j);
        }
        assert forall|j: int| ints.to_set().contains(j) implies range.contains(j) by {
            let a = choose|a: int| 0 <= a < ints.len() && ints[a] == j;
            assert(at[a] < n);
        }
    }
}

} // verus!
