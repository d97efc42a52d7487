//! From the model's scores to entities, relations and classifications.
use vstd::prelude::*;
use vstd::utf8::*;

use crate::entity::{entity_views, picked, EntityView, ExtractedEntity};
use crate::score::{above, is_above, is_nan, LOWEST, ZERO};
use crate::select::{
    in_priority_order, is_passed_over, is_selection, law_selection_is_unique, lemma_order_unique,
    precedes, select, weak_order, Candidate,
};
use crate::text::{
    is_blank, is_white_space, law_blank_is_all_white_space, slice, str_eq, trim, trimmed,
};

verus! {

/// Where the words of a text lie: for each word its tokens and its bytes, and how
/// many tokens there are in all.
pub struct WordMaps {
    pub tokens: Vec<(usize, usize)>,
    pub chars: Vec<(usize, usize)>,
    pub n_tokens: usize,
}

/// One cell of the model's scores: the word at which a span begins, one less than
/// the number of its words, and its label.
pub struct Cell {
    pub start: int,
    pub width: int,
    pub label: int,
}

/// The cell that stands at place `k` of the scores, which go through the words, for
/// each word through the widths, and for each width through the labels.
pub open spec fn cell_at(k: int, max_width: int, n_labels: int) -> Cell {
    Cell { start: k / (max_width * n_labels), width: (k / n_labels) % max_width, label: k % n_labels }
}

/// The last word of a cell's span; a span that would reach beyond the text ends with
/// its last word.
pub open spec fn last_word(cell: Cell, n_words: int) -> int {
    if cell.start + cell.width + 1 < n_words {
        cell.start + cell.width
    } else {
        n_words - 1
    }
}

/// The scores of one round over a text.
pub struct Scan<'a> {
    pub text: &'a str,
    pub maps: &'a WordMaps,
    pub labels: &'a Vec<String>,
    pub max_width: usize,
    pub threshold: u32,
    pub scores: &'a Vec<u32>,
}

impl<'a> Scan<'a> {
    /// There is a score for every cell.
    pub open spec fn well_formed(self) -> bool {
        self.scores@.len() == self.maps.tokens@.len() * self.max_width * self.labels@.len()
    }

    /// The cell of place `k`.
    pub open spec fn cell(self, k: int) -> Cell {
        cell_at(k, self.max_width as int, self.labels@.len() as int)
    }

    /// How many words there are.
    pub open spec fn n_words(self) -> int {
        self.maps.tokens@.len() as int
    }

    /// The tokens that the span of place `k` covers.
    pub open spec fn token_span(self, k: int) -> (usize, usize) {
        let words = self.maps.tokens@;
        (words[self.cell(k).start].0, words[last_word(self.cell(k), self.n_words())].1)
    }

    /// The bytes that the span of place `k` covers.
    pub open spec fn byte_span(self, k: int) -> (usize, usize) {
        let words = self.maps.chars@;
        (words[self.cell(k).start].0, words[last_word(self.cell(k), self.n_words())].1)
    }

    /// Whether the score of place `k` is above the threshold and its span covers
    /// tokens of the input.
    pub open spec fn passes(self, k: int) -> bool {
        &&& is_above(self.scores@[k], self.threshold)
        &&& self.token_span(k).1 <= self.maps.n_tokens
        &&& self.token_span(k).0 < self.token_span(k).1
    }

    /// Whether the span of place `k` lies in the text.
    pub open spec fn in_text(self, k: int) -> bool {
        self.byte_span(k).0 <= self.byte_span(k).1 <= encode_utf8(self.text@).len()
    }

    /// Whether the bytes of place `k` can be read, where they are: its words have bytes,
    /// which begin and end at character boundaries where they lie in the text.
    pub open spec fn is_readable(self, k: int) -> bool {
        &&& is_above(self.scores@[k], self.threshold) ==> self.cell(k).start < self.maps.chars@.len()
            && last_word(self.cell(k), self.n_words()) < self.maps.chars@.len()
        &&& self.passes(k) && self.in_text(k) ==> is_char_boundary(
            encode_utf8(self.text@),
            self.byte_span(k).0 as int,
        ) && is_char_boundary(encode_utf8(self.text@), self.byte_span(k).1 as int)
    }

    /// The characters that the span of place `k` covers; none where it does not lie
    /// in the text.
    pub open spec fn covered(self, k: int) -> Seq<char> {
        if self.in_text(k) {
            decode_utf8(
                encode_utf8(self.text@).subrange(
                    self.byte_span(k).0 as int,
                    self.byte_span(k).1 as int,
                ),
            )
        } else {
            Seq::empty()
        }
    }

    /// The entity that place `k` reports, if any: its span passes and covers more
    /// than white space.
    pub open spec fn found_at(self, k: int) -> Option<EntityView> {
        if self.passes(k) && !is_blank(self.covered(k)) {
            Some(
                EntityView {
                    text: trimmed(self.covered(k)),
                    label: self.labels@[self.cell(k).label]@,
                    score: self.scores@[k],
                    start_tok: self.token_span(k).0,
                    end_tok: self.token_span(k).1,
                    start_char: self.byte_span(k).0,
                    end_char: self.byte_span(k).1,
                },
            )
        } else {
            None
        }
    }

    /// The entities that the places below `k` report, in order.
    pub open spec fn found_below(self, k: int) -> Seq<EntityView>
        decreases k,
    {
        if k <= 0 {
            Seq::empty()
        } else {
            match self.found_at(k - 1) {
                Some(e) => self.found_below(k - 1).push(e),
                None => self.found_below(k - 1),
            }
        }
    }
}

/// The cell of a place lies within the words, widths and labels.
proof fn lemma_cell_in_range(k: int, n_words: int, max_width: int, n_labels: int)
    requires
        0 <= n_words,
        0 <= max_width,
        0 <= n_labels,
        0 <= k < n_words * max_width * n_labels,
    ensures
        max_width > 0,
        n_labels > 0,
        max_width * n_labels > 0,
        0 <= cell_at(k, max_width, n_labels).start < n_words,
        0 <= cell_at(k, max_width, n_labels).width < max_width,
        0 <= cell_at(k, max_width, n_labels).label < n_labels,
{
    assert(max_width > 0 && n_labels > 0 && max_width * n_labels > 0 && k < n_words * (max_width
        * n_labels)) by (nonlinear_arith)
        requires
            0 <= n_words,
            0 <= max_width,
            0 <= n_labels,
            0 <= k < n_words * max_width * n_labels,
    ;
    vstd::arithmetic::div_mod::lemma_multiply_divide_lt(k, max_width * n_labels, n_words);
    vstd::arithmetic::div_mod::lemma_div_pos_is_pos(k, max_width * n_labels);
    vstd::arithmetic::div_mod::lemma_div_pos_is_pos(k, n_labels);
    vstd::arithmetic::div_mod::lemma_mod_bound(k / n_labels, max_width);
    vstd::arithmetic::div_mod::lemma_mod_bound(k, n_labels);
}

/// The first and the last word of the span of place `k`, and its label.
fn span_at(scan: &Scan, k: usize) -> (r: (usize, usize, usize))
    requires
        scan.well_formed(),
        k < scan.scores@.len(),
    ensures
        r.0 == scan.cell(k as int).start,
        r.1 == last_word(scan.cell(k as int), scan.n_words()),
        r.2 == scan.cell(k as int).label,
        r.0 < scan.maps.tokens@.len(),
        r.1 < scan.maps.tokens@.len(),
        r.2 < scan.labels@.len(),
{
    let n_words = scan.maps.tokens.len();
    let n_labels = scan.labels.len();
    let max_width = scan.max_width;
    proof {
        lemma_cell_in_range(k as int, n_words as int, max_width as int, n_labels as int);
        assert(max_width * n_labels <= n_words * max_width * n_labels) by (nonlinear_arith)
            requires
                n_words >= 1,
                0 <= max_width * n_labels,
        ;
        assert(scan.scores.len() == n_words * max_width * n_labels);
    }
    let start: usize = k / (max_width * n_labels);
    let width: usize = (k / n_labels) % max_width;
    let label: usize = k % n_labels;
    let last: usize = if width < n_words - 1 - start {
        start + width
    } else {
        n_words - 1
    };
    (start, last, label)
}

/// The entity that place `k` reports, if any.
fn find_at(scan: &Scan, k: usize) -> (r: Option<ExtractedEntity>)
    requires
        scan.well_formed(),
        k < scan.scores@.len(),
        scan.is_readable(k as int),
    ensures
        match r {
            Some(e) => scan.found_at(k as int) == Some(e@),
            None => scan.found_at(k as int) is None,
        },
{
    if !above(scan.scores[k], scan.threshold) {
        return None;
    }
    let (start, last, label) = span_at(scan, k);
    let start_tok = scan.maps.tokens[start].0;
    let end_tok = scan.maps.tokens[last].1;
    if end_tok > scan.maps.n_tokens || start_tok >= end_tok {
        return None;
    }
    let start_char = scan.maps.chars[start].0;
    let end_char = scan.maps.chars[last].1;
    let n = scan.text.as_bytes().len();
    let covered: &str = if start_char <= end_char && end_char <= n {
        let part = slice(scan.text, start_char, end_char);
        proof {
            encode_utf8_decode_utf8(part@);
        }
        part
    } else {
        proof {
            reveal_strlit("");
            assert(""@ =~= Seq::<char>::empty());
        }
        ""
    };
    let text = trim(covered);
    if text.as_str().is_empty() {
        return None;
    }
    Some(
        ExtractedEntity {
            text,
            label: scan.labels[label].clone(),
            score: scan.scores[k],
            start_tok,
            end_tok,
            start_char,
            end_char,
        },
    )
}

/// Whether the bytes of place `k` can be read, where they are.
fn readable_at(scan: &Scan, k: usize) -> (r: bool)
    requires
        scan.well_formed(),
        k < scan.scores@.len(),
    ensures
        r == scan.is_readable(k as int),
{
    if !above(scan.scores[k], scan.threshold) {
        return true;
    }
    let (start, last, _label) = span_at(scan, k);
    if start >= scan.maps.chars.len() || last >= scan.maps.chars.len() {
        return false;
    }
    let start_tok = scan.maps.tokens[start].0;
    let end_tok = scan.maps.tokens[last].1;
    if end_tok > scan.maps.n_tokens || start_tok >= end_tok {
        return true;
    }
    let start_char = scan.maps.chars[start].0;
    let end_char = scan.maps.chars[last].1;
    if start_char > end_char || end_char > scan.text.as_bytes().len() {
        return true;
    }
    scan.text.is_char_boundary(start_char) && scan.text.is_char_boundary(end_char)
}

/// Whether all bytes that are read can be.
pub fn readable(scan: &Scan) -> (r: bool)
    requires
        scan.well_formed(),
    ensures
        r == forall|k: int| 0 <= k < scan.scores@.len() ==> #[trigger] scan.is_readable(k),
{
    let mut k: usize = 0;
    while k < scan.scores.len()
        invariant
            scan.well_formed(),
            k <= scan.scores@.len(),
            forall|j: int| 0 <= j < k ==> #[trigger] scan.is_readable(j),
        decreases scan.scores@.len() - k,
    {
        if !readable_at(scan, k) {
            assert(!scan.is_readable(k as int));
            return false;
        }
        k += 1;
    }
    true
}

/// The entities of one round: every span whose score is above the threshold, that
/// covers tokens of the input and more than white space, in the order of the scores.
pub fn find_matches(scan: &Scan) -> (out: Vec<ExtractedEntity>)
    requires
        scan.well_formed(),
        forall|k: int| 0 <= k < scan.scores@.len() ==> #[trigger] scan.is_readable(k),
    ensures
        entity_views(out@) == scan.found_below(scan.scores@.len() as int),
        forall|i: int| 0 <= i < out@.len() ==> is_finding_of(*scan, (#[trigger] out@[i])@),
        forall|i: int| 0 <= i < out@.len() ==> scan.scores@.contains((#[trigger] out@[i]).score),
{
    let mut out: Vec<ExtractedEntity> = Vec::new();
    let mut k: usize = 0;
    assert(entity_views(out@) =~= Seq::empty());
    while k < scan.scores.len()
        invariant
            scan.well_formed(),
            forall|j: int| 0 <= j < scan.scores@.len() ==> #[trigger] scan.is_readable(j),
            k <= scan.scores@.len(),
            entity_views(out@) == scan.found_below(k as int),
            forall|i: int| 0 <= i < out@.len() ==> is_finding_of(*scan, (#[trigger] out@[i])@),
            forall|i: int|
                0 <= i < out@.len() ==> scan.scores@.contains((#[trigger] out@[i]).score),
        decreases scan.scores@.len() - k,
    {
        assert(scan.is_readable(k as int));
        match find_at(scan, k) {
            Some(e) => {
                assert(entity_views(out@.push(e)) =~= entity_views(out@).push(e@));
                proof {
                    law_found_is_a_finding(*scan, k as int);
                    assert(scan.scores@[k as int] == e.score);
                }
                out.push(e);
            },
            None => {},
        }
        k += 1;
    }
    out
}

/// What is found lies in the text, covers at least one byte of it, begins and ends at
/// character boundaries, and has a score that is a number above the threshold.
pub proof fn law_found_lies_in_text(scan: Scan, k: int)
    requires
        scan.is_readable(k),
        scan.found_at(k) is Some,
    ensures
        ({
            let e = scan.found_at(k)->Some_0;
            &&& e.start_char < e.end_char <= encode_utf8(scan.text@).len()
            &&& is_char_boundary(encode_utf8(scan.text@), e.start_char as int)
            &&& is_char_boundary(encode_utf8(scan.text@), e.end_char as int)
            &&& is_above(e.score, scan.threshold)
            &&& !is_nan(e.score)
        }),
{
    if scan.in_text(k) {
        if scan.byte_span(k).0 == scan.byte_span(k).1 {
            let part = encode_utf8(scan.text@).subrange(
                scan.byte_span(k).0 as int,
                scan.byte_span(k).1 as int,
            );
            assert(part =~= Seq::empty());
            encode_utf8_decode_utf8(Seq::empty());
            assert(encode_utf8(Seq::empty()) =~= Seq::empty());
            assert(scan.covered(k) =~= Seq::empty());
        }
    }
}

/// Whether an entity covers the words from `first` to `last`, which are at most
/// `max_width`.
pub open spec fn covers_words(
    maps: WordMaps,
    max_width: int,
    first: int,
    last: int,
    e: EntityView,
) -> bool {
    &&& 0 <= first <= last < maps.tokens@.len()
    &&& last - first < max_width
    &&& e.start_tok == maps.tokens@[first].0
    &&& e.end_tok == maps.tokens@[last].1
    &&& e.start_char == maps.chars@[first].0
    &&& e.end_char == maps.chars@[last].1
}

/// Whether an entity is one that can be found in a text: a span of at most `max_width`
/// words that covers tokens of the input, lies in the text from one character boundary
/// to another, and holds more than white space; its text is what it covers, trimmed, its
/// label is one of those asked for, and its score is above the threshold.
pub open spec fn is_finding(
    text: Seq<char>,
    maps: WordMaps,
    labels: Seq<String>,
    max_width: int,
    threshold: u32,
    e: EntityView,
) -> bool {
    let bytes = encode_utf8(text);
    &&& is_above(e.score, threshold)
    &&& exists|l: int| 0 <= l < labels.len() && (#[trigger] labels[l])@ == e.label
    &&& exists|first: int, last: int| #[trigger] covers_words(maps, max_width, first, last, e)
    &&& e.start_tok < e.end_tok <= maps.n_tokens
    &&& e.start_char < e.end_char <= bytes.len()
    &&& is_char_boundary(bytes, e.start_char as int)
    &&& is_char_boundary(bytes, e.end_char as int)
    &&& e.text == trimmed(
        decode_utf8(bytes.subrange(e.start_char as int, e.end_char as int)),
    )
    &&& e.text.len() > 0
}

/// Whether the entity is one that can be found by these scores.
pub open spec fn is_finding_of(scan: Scan, e: EntityView) -> bool {
    is_finding(
        scan.text@,
        *scan.maps,
        scan.labels@,
        scan.max_width as int,
        scan.threshold,
        e,
    )
}

/// What a place of the scores reports can be found by them.
pub proof fn law_found_is_a_finding(scan: Scan, k: int)
    requires
        scan.well_formed(),
        0 <= k < scan.scores@.len(),
        scan.is_readable(k),
        scan.found_at(k) is Some,
    ensures
        is_finding_of(scan, scan.found_at(k)->Some_0),
{
    let e = scan.found_at(k)->Some_0;
    law_found_lies_in_text(scan, k);
    lemma_cell_in_range(
        k,
        scan.n_words(),
        scan.max_width as int,
        scan.labels@.len() as int,
    );
    let cell = scan.cell(k);
    assert(scan.labels@[cell.label]@ == e.label);
    assert(covers_words(
        *scan.maps,
        scan.max_width as int,
        cell.start,
        last_word(cell, scan.n_words()),
        e,
    ));
}

/// What decides between matches that overlap: the tokens, the score and, unless the
/// selection is flat, the label.
pub struct MatchKey<'a> {
    pub start: usize,
    pub end: usize,
    pub score: u32,
    pub label: &'a str,
    pub flat: bool,
}

/// The higher score has priority. Matches conflict where they share a token and
/// either the selection is flat or they have the same label.
impl<'a> Candidate for MatchKey<'a> {
    open spec fn outranks(self, other: Self) -> bool {
        is_above(self.score, other.score)
    }

    open spec fn conflicts(self, other: Self) -> bool {
        &&& !(self.end <= other.start || self.start >= other.end)
        &&& self.flat || other.flat || self.label@ == other.label@
    }

    proof fn conflict_is_mutual(self, other: Self) {
    }

    fn has_priority(&self, other: &Self) -> (r: bool) {
        above(self.score, other.score)
    }

    fn in_conflict(&self, other: &Self) -> (r: bool) {
        !(self.end <= other.start || self.start >= other.end) && (self.flat || other.flat
            || str_eq(self.label, other.label))
    }
}

/// Whether the key is that of the entity.
pub open spec fn is_key_of(key: MatchKey, e: ExtractedEntity, flat: bool) -> bool {
    &&& key.start == e.start_tok
    &&& key.end == e.end_tok
    &&& key.score == e.score
    &&& key.label@ == e.label@
    &&& key.flat == flat
}

/// Whether the keys are those of the entities.
pub open spec fn are_keys_of(
    keys: Seq<MatchKey>,
    ents: Seq<ExtractedEntity>,
    flat: bool,
) -> bool {
    &&& keys.len() == ents.len()
    &&& forall|i: int| 0 <= i < keys.len() ==> is_key_of(#[trigger] keys[i], ents[i], flat)
}

/// Whether `out` is what stands of the matches: a selection of them, in order of
/// priority where every score is a number.
pub open spec fn is_match_selection(
    ents: Seq<ExtractedEntity>,
    flat: bool,
    out: Seq<ExtractedEntity>,
) -> bool {
    exists|keys: Seq<MatchKey>, at: Seq<usize>|
        #[trigger] is_match_selection_at(ents, flat, keys, at, out)
}

/// Whether `out` is the entities at `at`, a selection of the matches with these keys.
pub open spec fn is_match_selection_at(
    ents: Seq<ExtractedEntity>,
    flat: bool,
    keys: Seq<MatchKey>,
    at: Seq<usize>,
    out: Seq<ExtractedEntity>,
) -> bool {
    &&& are_keys_of(keys, ents, flat)
    &&& is_selection(keys, at)
    &&& weak_order(keys) ==> in_priority_order(keys, at)
    &&& out == picked(ents, at)
}

/// What stands of the matches: the higher score first, and each only where it shares
/// no token with one before it (or, unless `flat_ner`, with one of its label).
pub fn select_matches(ents: &Vec<ExtractedEntity>, flat_ner: bool) -> (out: Vec<ExtractedEntity>)
    ensures
        is_match_selection(ents@, flat_ner, out@),
{
    let mut keys: Vec<MatchKey> = Vec::new();
    let mut i: usize = 0;
    while i < ents.len()
        invariant
            i <= ents@.len(),
            keys@.len() == i,
            forall|j: int| 0 <= j < i ==> is_key_of(#[trigger] keys@[j], ents@[j], flat_ner),
        decreases ents@.len() - i,
    {
        keys.push(
            MatchKey {
                start: ents[i].start_tok,
                end: ents[i].end_tok,
                score: ents[i].score,
                label: ents[i].label.as_str(),
                flat: flat_ner,
            },
        );
        i += 1;
    }
    let at = select(&keys);
    let mut out: Vec<ExtractedEntity> = Vec::new();
    let mut k: usize = 0;
    while k < at.len()
        invariant
            k <= at@.len(),
            keys@.len() == ents@.len(),
            is_selection(keys@, at@),
            out@ == picked(ents@, at@).take(k as int),
        decreases at@.len() - k,
    {
        assert(at@[k as int] < keys@.len());
        out.push(ents[at[k]].clone());
        k += 1;
        assert(out@ =~= picked(ents@, at@).take(k as int));
    }
    assert(picked(ents@, at@).take(k as int) =~= picked(ents@, at@));
    assert(is_match_selection_at(ents@, flat_ner, keys@, at@, out@));
    out
}

/// Whether two entities share a token.
pub open spec fn share_token(a: ExtractedEntity, b: ExtractedEntity) -> bool {
    !(a.end_tok <= b.start_tok || a.start_tok >= b.end_tok)
}

/// What stands of matches are some of them, and no two of one label share a token; in
/// a flat selection no two of any label do.
pub proof fn law_standing_matches_are_disjoint(
    ents: Seq<ExtractedEntity>,
    flat: bool,
    out: Seq<ExtractedEntity>,
)
    requires
        is_match_selection(ents, flat, out),
    ensures
        forall|k: int| 0 <= k < out.len() ==> ents.contains(#[trigger] out[k]),
        forall|j: int, k: int|
            0 <= j < k < out.len() && (flat || (#[trigger] out[j]).label@ == (
            #[trigger] out[k]).label@) ==> !share_token(out[j], out[k]),
{
    let (keys, at) = choose|keys: Seq<MatchKey>, at: Seq<usize>|
        #[trigger] is_match_selection_at(ents, flat, keys, at, out);
    assert forall|k: int| 0 <= k < out.len() implies ents.contains(#[trigger] out[k]) by {
        assert(at[k] < keys.len());
        assert(ents[at[k] as int] == out[k]);
    }
    assert forall|j: int, k: int|
        0 <= j < k < out.len() && (flat || (#[trigger] out[j]).label@ == (
        #[trigger] out[k]).label@) implies !share_token(out[j], out[k]) by {
        assert(at[j] < keys.len() && at[k] < keys.len());
        assert(is_key_of(keys[at[j] as int], ents[at[j] as int], flat));
        assert(is_key_of(keys[at[k] as int], ents[at[k] as int], flat));
        assert(!keys[at[j] as int].conflicts(keys[at[k] as int]));
    }
}

/// Where every score is a number, what stands comes in order of its scores: none is
/// above one before it.
pub proof fn law_standing_matches_descend(
    ents: Seq<ExtractedEntity>,
    flat: bool,
    out: Seq<ExtractedEntity>,
)
    requires
        forall|i: int| 0 <= i < ents.len() ==> !is_nan((#[trigger] ents[i]).score),
        is_match_selection(ents, flat, out),
    ensures
        forall|j: int, k: int|
            0 <= j < k < out.len() ==> !is_above((#[trigger] out[k]).score, (#[trigger] out[j]).score),
{
    let (keys, at) = choose|keys: Seq<MatchKey>, at: Seq<usize>|
        #[trigger] is_match_selection_at(ents, flat, keys, at, out);
    lemma_matches_weak_order(keys, ents, flat);
    assert forall|j: int, k: int| 0 <= j < k < out.len() implies !is_above(
        (#[trigger] out[k]).score,
        (#[trigger] out[j]).score,
    ) by {
        assert(at[j] < keys.len() && at[k] < keys.len());
        assert(is_key_of(keys[at[j] as int], ents[at[j] as int], flat));
        assert(is_key_of(keys[at[k] as int], ents[at[k] as int], flat));
        assert(precedes(keys, at[j] as int, at[k] as int));
    }
}

/// Where every score is a number, the priority of matches is a weak order.
proof fn lemma_matches_weak_order(keys: Seq<MatchKey>, ents: Seq<ExtractedEntity>, flat: bool)
    requires
        are_keys_of(keys, ents, flat),
        forall|i: int| 0 <= i < ents.len() ==> !is_nan((#[trigger] ents[i]).score),
    ensures
        weak_order(keys),
{
    assert forall|i: int| 0 <= i < keys.len() implies !is_nan((#[trigger] keys[i]).score) by {
        assert(is_key_of(keys[i], ents[i], flat));
    }
}

/// What stands of matches is determined by them, where every score is a number.
pub proof fn law_standing_matches_are_unique(
    ents: Seq<ExtractedEntity>,
    flat: bool,
    x: Seq<ExtractedEntity>,
    y: Seq<ExtractedEntity>,
)
    requires
        forall|i: int| 0 <= i < ents.len() ==> !is_nan((#[trigger] ents[i]).score),
        is_match_selection(ents, flat, x),
        is_match_selection(ents, flat, y),
    ensures
        x == y,
{
    let (keys, at) = choose|keys: Seq<MatchKey>, at: Seq<usize>|
        #[trigger] is_match_selection_at(ents, flat, keys, at, x);
    let (other_keys, other_at) = choose|keys: Seq<MatchKey>, at: Seq<usize>|
        #[trigger] is_match_selection_at(ents, flat, keys, at, y);
    lemma_matches_weak_order(keys, ents, flat);
    lemma_matches_weak_order(other_keys, ents, flat);
    lemma_selection_by_other_keys(ents, flat, other_keys, keys, other_at);
    law_selection_is_unique(keys, at, other_at);
    lemma_order_unique(keys.len(), |i: int, j: int| precedes(keys, i, j), at, other_at);
}

/// A selection by one list of keys of the entities is one by any such list.
proof fn lemma_selection_by_other_keys(
    ents: Seq<ExtractedEntity>,
    flat: bool,
    keys: Seq<MatchKey>,
    others: Seq<MatchKey>,
    at: Seq<usize>,
)
    requires
        weak_order(keys),
        weak_order(others),
        are_keys_of(keys, ents, flat),
        are_keys_of(others, ents, flat),
        is_selection(keys, at),
        in_priority_order(keys, at),
    ensures
        is_selection(others, at),
        in_priority_order(others, at),
{
    assert forall|i: int, j: int|
        0 <= i < keys.len() && 0 <= j < keys.len() implies #[trigger] others[i].conflicts(others[j])
        == keys[i].conflicts(keys[j]) by {
        assert(is_key_of(keys[i], ents[i], flat) && is_key_of(keys[j], ents[j], flat));
        assert(is_key_of(others[i], ents[i], flat) && is_key_of(others[j], ents[j], flat));
    }
    assert forall|i: int, j: int|
        0 <= i < keys.len() && 0 <= j < keys.len() implies #[trigger] precedes(others, i, j)
        == precedes(keys, i, j) by {
        assert(is_key_of(keys[i], ents[i], flat) && is_key_of(keys[j], ents[j], flat));
        assert(is_key_of(others[i], ents[i], flat) && is_key_of(others[j], ents[j], flat));
    }
    assert forall|a: int| 0 <= a < at.len() implies #[trigger] at[a] < others.len() by {
        assert(at[a] < keys.len());
    }
    assert forall|a: int, b: int|
        0 <= a < at.len() && 0 <= b < at.len() && a
            != b implies !others[#[trigger] at[a] as int].conflicts(
        others[#[trigger] at[b] as int],
    ) by {
        assert(at[a] < keys.len() && at[b] < keys.len());
        assert(!keys[at[a] as int].conflicts(keys[at[b] as int]));
    }
    assert forall|i: usize| i < others.len() && !#[trigger] at.contains(i) implies is_passed_over(
        others,
        at,
        i,
    ) by {
        assert(is_passed_over(keys, at, i));
        let a = choose|a: int|
            0 <= a < at.len() && keys[i as int].conflicts(
                keys[#[trigger] at[a] as int],
            ) && precedes(keys, at[a] as int, i as int);
        assert(at[a] < keys.len());
        assert(others[i as int].conflicts(others[at[a] as int]));
        assert(precedes(others, at[a] as int, i as int));
    }
    assert forall|a: int, b: int| 0 <= a < b < at.len() implies precedes(
        others,
        #[trigger] at[a] as int,
        #[trigger] at[b] as int,
    ) by {
        assert(at[a] < keys.len() && at[b] < keys.len());
        assert(precedes(keys, at[a] as int, at[b] as int));
    }
}

/// A relation between two entities.
#[derive(Debug)]
pub struct ExtractedRelation {
    pub head: ExtractedEntity,
    pub tail: ExtractedEntity,
    pub relation_type: String,
}

impl Clone for ExtractedRelation {
    fn clone(&self) -> (r: Self)
        ensures
            r == *self,
    {
        ExtractedRelation {
            head: self.head.clone(),
            tail: self.tail.clone(),
            relation_type: self.relation_type.clone(),
        }
    }
}

/// The class of a whole text.
#[derive(Debug)]
pub struct ExtractedClassification {
    pub task_name: String,
    pub label: String,
    pub score: u32,
}

impl Clone for ExtractedClassification {
    fn clone(&self) -> (r: Self)
        ensures
            r == *self,
    {
        ExtractedClassification {
            task_name: self.task_name.clone(),
            label: self.label.clone(),
            score: self.score,
        }
    }
}

/// The matches of all rounds, one round after the other.
pub open spec fn pooled(rounds: Seq<Vec<ExtractedEntity>>) -> Seq<ExtractedEntity>
    decreases rounds.len(),
{
    if rounds.len() == 0 {
        Seq::empty()
    } else {
        pooled(rounds.drop_last()) + rounds.last()@
    }
}

/// The entities of a task: what stands of the matches of all its rounds together.
pub fn decode_entities(rounds: &Vec<Vec<ExtractedEntity>>, flat_ner: bool) -> (out: Vec<
    ExtractedEntity,
>)
    ensures
        is_match_selection(pooled(rounds@), flat_ner, out@),
{
    let mut all: Vec<ExtractedEntity> = Vec::new();
    let mut i: usize = 0;
    assert(rounds@.take(0) =~= Seq::empty());
    while i < rounds.len()
        invariant
            i <= rounds@.len(),
            all@ == pooled(rounds@.take(i as int)),
        decreases rounds@.len() - i,
    {
        assert(rounds@.take(i + 1).drop_last() =~= rounds@.take(i as int));
        let round = &rounds[i];
        let mut j: usize = 0;
        let ghost before = all@;
        assert(round@.take(0) =~= Seq::empty());
        assert(all@ =~= before + round@.take(0));
        while j < round.len()
            invariant
                j <= round@.len(),
                all@ == before + round@.take(j as int),
            decreases round@.len() - j,
        {
            all.push(round[j].clone());
            j += 1;
            assert(all@ =~= before + round@.take(j as int));
        }
        assert(round@.take(j as int) =~= round@);
        i += 1;
    }
    assert(rounds@.take(i as int) =~= rounds@);
    select_matches(&all, flat_ner)
}

/// Whether `i` is the first of the entities with this label.
pub open spec fn is_first_with(ents: Seq<ExtractedEntity>, label: Seq<char>, i: int) -> bool {
    &&& 0 <= i < ents.len()
    &&& ents[i].label@ == label
    &&& forall|j: int| 0 <= j < i ==> (#[trigger] ents[j]).label@ != label
}

/// Whether one of the entities has this label.
pub open spec fn has_label(ents: Seq<ExtractedEntity>, label: Seq<char>) -> bool {
    exists|i: int| 0 <= i < ents.len() && (#[trigger] ents[i]).label@ == label
}

/// The first of the entities with this label.
fn first_with(ents: &Vec<ExtractedEntity>, label: &str) -> (r: Option<usize>)
    ensures
        match r {
            Some(i) => is_first_with(ents@, label@, i as int),
            None => !has_label(ents@, label@),
        },
{
    let mut i: usize = 0;
    while i < ents.len()
        invariant
            i <= ents@.len(),
            forall|j: int| 0 <= j < i ==> (#[trigger] ents@[j]).label@ != label@,
        decreases ents@.len() - i,
    {
        if str_eq(ents[i].label.as_str(), label) {
            return Some(i);
        }
        i += 1;
    }
    None
}

/// Whether `r` is the relation between what stands: the first head with the first
/// tail; none where one of the two is missing.
pub open spec fn is_relation_of(
    ents: Seq<ExtractedEntity>,
    relation_type: Seq<char>,
    r: Option<ExtractedRelation>,
) -> bool {
    match r {
        Some(rel) => {
            &&& rel.relation_type@ == relation_type
            &&& exists|i: int| #[trigger] is_first_with(ents, "head"@, i) && rel.head == ents[i]
            &&& exists|i: int| #[trigger] is_first_with(ents, "tail"@, i) && rel.tail == ents[i]
        },
        None => !has_label(ents, "head"@) || !has_label(ents, "tail"@),
    }
}

/// Whether `r` is what a round with these matches reports: the relation between what
/// stands of them.
pub open spec fn is_reported_relation(
    round: Seq<ExtractedEntity>,
    flat: bool,
    relation_type: Seq<char>,
    r: Option<ExtractedRelation>,
) -> bool {
    exists|standing: Seq<ExtractedEntity>|
        #[trigger] is_match_selection(round, flat, standing) && is_relation_of(
            standing,
            relation_type,
            r,
        )
}

/// The relation that one round reports, if any.
pub fn decode_relation(
    round: &Vec<ExtractedEntity>,
    flat_ner: bool,
    relation_type: &str,
) -> (r: Option<ExtractedRelation>)
    ensures
        is_reported_relation(round@, flat_ner, relation_type@, r),
{
    let standing = select_matches(round, flat_ner);
    match (first_with(&standing, "head"), first_with(&standing, "tail")) {
        (Some(h), Some(t)) => {
            let rel = ExtractedRelation {
                head: standing[h].clone(),
                tail: standing[t].clone(),
                relation_type: relation_type.to_owned(),
            };
            assert(is_first_with(standing@, "head"@, h as int) && rel.head == standing@[h as int]);
            assert(is_first_with(standing@, "tail"@, t as int) && rel.tail == standing@[t as int]);
            Some(rel)
        },
        _ => None,
    }
}

/// The relations among the reports of the rounds, in order.
pub open spec fn relations_among(found: Seq<Option<ExtractedRelation>>) -> Seq<ExtractedRelation>
    decreases found.len(),
{
    if found.len() == 0 {
        Seq::empty()
    } else {
        match found.last() {
            Some(rel) => relations_among(found.drop_last()).push(rel),
            None => relations_among(found.drop_last()),
        }
    }
}

/// Whether `found` is what the rounds report, round by round.
pub open spec fn are_reported_relations(
    rounds: Seq<Vec<ExtractedEntity>>,
    flat: bool,
    relation_type: Seq<char>,
    found: Seq<Option<ExtractedRelation>>,
) -> bool {
    &&& found.len() == rounds.len()
    &&& forall|i: int|
        0 <= i < rounds.len() ==> is_reported_relation(
            rounds[i]@,
            flat,
            relation_type,
            #[trigger] found[i],
        )
}

/// The relations of a task: one for each round that reports both a head and a tail.
pub fn decode_relations(
    rounds: &Vec<Vec<ExtractedEntity>>,
    flat_ner: bool,
    relation_type: &str,
) -> (out: Vec<ExtractedRelation>)
    ensures
        exists|found: Seq<Option<ExtractedRelation>>|
            #[trigger] are_reported_relations(rounds@, flat_ner, relation_type@, found) && out@
                == relations_among(found),
{
    let mut out: Vec<ExtractedRelation> = Vec::new();
    let ghost mut found = Seq::<Option<ExtractedRelation>>::empty();
    let mut i: usize = 0;
    while i < rounds.len()
        invariant
            i <= rounds@.len(),
            found.len() == i,
            forall|j: int|
                0 <= j < i ==> is_reported_relation(
                    rounds@[j]@,
                    flat_ner,
                    relation_type@,
                    #[trigger] found[j],
                ),
            out@ == relations_among(found),
        decreases rounds@.len() - i,
    {
        let r = decode_relation(&rounds[i], flat_ner, relation_type);
        proof {
            assert(found.push(r).drop_last() =~= found);
            found = found.push(r);
        }
        match r {
            Some(rel) => {
                out.push(rel);
            },
            None => {},
        }
        i += 1;
    }
    assert(are_reported_relations(rounds@, flat_ner, relation_type@, found));
    out
}

/// Whether `r` is the first of the best values: none is above it, it is above every
/// number before it, and it is above `floor`. Where no value is above `floor`, it is
/// the first place.
pub open spec fn is_first_best(values: Seq<u32>, floor: u32, r: int) -> bool {
    if exists|j: int| 0 <= j < values.len() && is_above(#[trigger] values[j], floor) {
        &&& 0 <= r < values.len()
        &&& is_above(values[r], floor)
        &&& forall|j: int| 0 <= j < values.len() ==> !is_above(#[trigger] values[j], values[r])
        &&& forall|j: int| 0 <= j < r ==> is_nan(#[trigger] values[j]) || is_above(values[r], values[j])
    } else {
        r == 0
    }
}

/// The first of the best values above `floor`, and that value; the first place and
/// `floor` where there is none.
fn first_best(values: &Vec<u32>, floor: u32) -> (r: (usize, u32))
    requires
        !is_nan(floor),
    ensures
        is_first_best(values@, floor, r.0 as int),
        r.1 == if exists|j: int| 0 <= j < values@.len() && is_above(#[trigger] values@[j], floor) {
            values@[r.0 as int]
        } else {
            floor
        },
{
    let mut best: usize = 0;
    let mut top: u32 = floor;
    let mut i: usize = 0;
    while i < values.len()
        invariant
            !is_nan(floor),
            !is_nan(top),
            i <= values@.len(),
            top == floor ==> best == 0 && forall|j: int|
                0 <= j < i ==> !is_above(#[trigger] values@[j], floor),
            top != floor ==> {
                &&& best < i
                &&& top == values@[best as int]
                &&& is_above(top, floor)
                &&& forall|j: int| 0 <= j < i ==> !is_above(#[trigger] values@[j], top)
                &&& forall|j: int|
                    0 <= j < best ==> is_nan(#[trigger] values@[j]) || is_above(top, values@[j])
            },
        decreases values@.len() - i,
    {
        if above(values[i], top) {
            top = values[i];
            best = i;
        }
        i += 1;
    }
    (best, top)
}

/// How many instances the count head predicts: the place of its greatest logit.
pub fn predicted_count(logits: &Vec<u32>) -> (r: usize)
    ensures
        is_first_best(logits@, LOWEST, r as int),
{
    first_best(logits, LOWEST).0
}

/// Whether `c` is the class that the probabilities of the labels give a text: the first
/// label with the greatest one, with that probability; zero where none is above it.
pub open spec fn is_class(
    c: ExtractedClassification,
    task_name: Seq<char>,
    labels: Seq<String>,
    probs: Seq<u32>,
) -> bool {
    &&& c.task_name@ == task_name
    &&& exists|i: int|
        #[trigger] is_first_best(probs, ZERO, i) && c.label@ == labels[i]@ && c.score
            == if is_above(probs[i], ZERO) {
            probs[i]
        } else {
            ZERO
        }
}

/// The class of a text: the label with the greatest probability.
pub fn classify(task_name: &str, labels: &Vec<String>, probs: &Vec<u32>) -> (r:
    ExtractedClassification)
    requires
        labels@.len() > 0,
        probs@.len() == labels@.len(),
    ensures
        is_class(r, task_name@, labels@, probs@),
{
    let (i, score) = first_best(probs, ZERO);
    assert(is_first_best(probs@, ZERO, i as int));
    ExtractedClassification { task_name: task_name.to_owned(), label: labels[i].clone(), score }
}

/// The tensor data of span `k` of a text with `n_words` words: its first and its last
/// word, or twice the first word of the text where it would reach beyond the text.
pub open spec fn span_words(k: int, max_width: int, n_words: int) -> (int, int) {
    let start = k / max_width;
    let end = start + k % max_width;
    if end >= n_words {
        (0, 0)
    } else {
        (start, end)
    }
}

/// The first and the last words of all spans of up to `max_width` words, in two lists.
pub fn span_bounds(n_words: usize, max_width: usize) -> (r: (Vec<i64>, Vec<i64>))
    requires
        n_words * max_width <= 0x0fff_ffff_ffff_ffff,
        n_words * max_width <= usize::MAX,
    ensures
        r.0@.len() == n_words * max_width,
        r.1@.len() == n_words * max_width,
        forall|k: int|
            #![trigger r.0@[k]]
            #![trigger r.1@[k]]
            0 <= k < n_words * max_width ==> (r.0@[k] as int, r.1@[k] as int) == span_words(
                k,
                max_width as int,
                n_words as int,
            ),
{
    let mut firsts: Vec<i64> = Vec::new();
    let mut lasts: Vec<i64> = Vec::new();
    let total: usize = n_words * max_width;
    let mut k: usize = 0;
    while k < total
        invariant
            total == n_words * max_width,
            total <= 0x0fff_ffff_ffff_ffff,
            k <= total,
            firsts@.len() == k,
            lasts@.len() == k,
            forall|j: int|
                #![trigger firsts@[j]]
                #![trigger lasts@[j]]
                0 <= j < k ==> (firsts@[j] as int, lasts@[j] as int) == span_words(
                    j,
                    max_width as int,
                    n_words as int,
                ),
        decreases total - k,
    {
        proof {
            assert(max_width > 0 && n_words <= total) by (nonlinear_arith)
                requires
                    total == n_words * max_width,
                    total > 0,
                    n_words >= 0,
                    max_width >= 0,
            ;
            vstd::arithmetic::div_mod::lemma_multiply_divide_lt(
                k as int,
                max_width as int,
                n_words as int,
            );
        }
        let start: usize = k / max_width;
        let width: usize = k % max_width;
        if width >= n_words - start {
            firsts.push(0);
            lasts.push(0);
        } else {
            firsts.push(start as i64);
            lasts.push((start + width) as i64);
        }
        k += 1;
    }
    (firsts, lasts)
}

/// The first and the last words of all spans of up to `max_width` words, in pairs.
pub fn span_pairs(n_words: usize, max_width: usize) -> (r: Vec<i64>)
    requires
        2 * n_words * max_width <= 0x0fff_ffff_ffff_ffff,
        2 * n_words * max_width <= usize::MAX,
    ensures
        r@.len() == 2 * n_words * max_width,
        forall|k: int|
            0 <= k < n_words * max_width ==> (#[trigger] r@[2 * k] as int, r@[2 * k + 1] as int)
                == span_words(k, max_width as int, n_words as int),
{
    proof {
        assert(n_words * max_width <= 2 * n_words * max_width) by (nonlinear_arith)
            requires
                n_words >= 0,
                max_width >= 0,
        ;
        assert(2 * n_words * max_width == 2 * (n_words * max_width)) by (nonlinear_arith);
    }
    let (firsts, lasts) = span_bounds(n_words, max_width);
    let mut r: Vec<i64> = Vec::new();
    let mut k: usize = 0;
    while k < firsts.len()
        invariant
            k <= firsts@.len(),
            firsts@.len() == lasts@.len(),
            r@.len() == 2 * k,
            forall|j: int|
                0 <= j < k ==> #[trigger] r@[2 * j] == firsts@[j] && r@[2 * j + 1] == lasts@[j],
        decreases firsts@.len() - k,
    {
        let ghost before = r@;
        r.push(firsts[k]);
        r.push(lasts[k]);
        proof {
            assert forall|j: int| 0 <= j < k + 1 implies #[trigger] r@[2 * j] == firsts@[j] && r@[2
                * j + 1] == lasts@[j] by {
                if j < k {
                    assert(r@[2 * j] == before[2 * j]);
                    assert(r@[2 * j + 1] == before[2 * j + 1]);
                }
            }
        }
        k += 1;
    }
    r
}

/// How the output of the structure head is laid out: how many rounds it predicts, how
/// many labels each has, and how wide a label's embedding is.
pub struct Projection {
    pub rounds: usize,
    pub labels: usize,
    pub hidden: usize,
}

/// The layout that a shape means: rounds by labels by width where it has three
/// dimensions; one round of labels by width where it has another number of two or
/// more; nothing where it has fewer.
pub open spec fn layout(shape: Seq<usize>) -> Projection {
    if shape.len() == 3 {
        Projection { rounds: shape[0], labels: shape[1], hidden: shape[2] }
    } else if shape.len() >= 2 {
        Projection { rounds: 1, labels: shape[0], hidden: shape[1] }
    } else {
        Projection { rounds: 1, labels: 0, hidden: 0 }
    }
}

/// The layout that a shape means.
pub fn projection(shape: &Vec<usize>) -> (r: Projection)
    ensures
        r == layout(shape@),
{
    if shape.len() == 3 {
        Projection { rounds: shape[0], labels: shape[1], hidden: shape[2] }
    } else if shape.len() >= 2 {
        Projection { rounds: 1, labels: shape[0], hidden: shape[1] }
    } else {
        Projection { rounds: 1, labels: 0, hidden: 0 }
    }
}

impl Projection {
    /// Whether the spans can be scored against the projection: the embeddings are as
    /// wide as those of the spans, there is one for every label, and there is a round.
    pub open spec fn is_fit(self, span_hidden: usize, n_labels: nat) -> bool {
        self.hidden == span_hidden && self.labels >= n_labels && self.rounds > 0
    }

    /// Whether the spans can be scored against the projection.
    pub fn fits(&self, span_hidden: usize, n_labels: usize) -> (r: bool)
        ensures
            r == self.is_fit(span_hidden, n_labels as nat),
    {
        self.hidden == span_hidden && self.labels >= n_labels && self.rounds > 0
    }
}

/// The scores go through the words, for each word through the widths, and for each width
/// through the labels.
proof fn lemma_cell_of_place(
    first: int,
    width: int,
    label: int,
    n_words: int,
    max_width: int,
    n_labels: int,
)
    requires
        0 <= first < n_words,
        0 <= width < max_width,
        0 <= label < n_labels,
    ensures
        0 <= (first * max_width + width) * n_labels + label < n_words * max_width * n_labels,
        cell_at((first * max_width + width) * n_labels + label, max_width, n_labels) == (Cell {
            start: first,
            width,
            label,
        }),
{
    let s = first * max_width + width;
    let k = s * n_labels + label;
    vstd::arithmetic::div_mod::lemma_fundamental_div_mod_converse(k, n_labels, s, label);
    vstd::arithmetic::div_mod::lemma_fundamental_div_mod_converse(s, max_width, first, width);
    assert(k == first * (max_width * n_labels) + (width * n_labels + label)) by (nonlinear_arith)
        requires
            k == (first * max_width + width) * n_labels + label,
    ;
    assert(0 <= width * n_labels + label < max_width * n_labels) by (nonlinear_arith)
        requires
            0 <= width < max_width,
            0 <= label < n_labels,
    ;
    vstd::arithmetic::div_mod::lemma_fundamental_div_mod_converse(
        k,
        max_width * n_labels,
        first,
        width * n_labels + label,
    );
    assert(0 <= k < n_words * max_width * n_labels) by (nonlinear_arith)
        requires
            k == first * (max_width * n_labels) + (width * n_labels + label),
            0 <= first < n_words,
            0 <= width * n_labels + label < max_width * n_labels,
    ;
}

/// A place is that of its cell.
proof fn lemma_place_of_cell(k: int, n_words: int, max_width: int, n_labels: int)
    requires
        0 <= n_words,
        0 <= max_width,
        0 <= n_labels,
        0 <= k < n_words * max_width * n_labels,
    ensures
        ({
            let c = cell_at(k, max_width, n_labels);
            &&& 0 <= c.start < n_words
            &&& 0 <= c.width < max_width
            &&& 0 <= c.label < n_labels
            &&& k == (c.start * max_width + c.width) * n_labels + c.label
        }),
{
    lemma_cell_in_range(k, n_words, max_width, n_labels);
    vstd::arithmetic::div_mod::lemma_fundamental_div_mod(k, n_labels);
    vstd::arithmetic::div_mod::lemma_fundamental_div_mod(k / n_labels, max_width);
    vstd::arithmetic::div_mod::lemma_div_denominator(k, n_labels, max_width);
    assert(n_labels * max_width == max_width * n_labels) by (nonlinear_arith);
    let c = cell_at(k, max_width, n_labels);
    let s = k / n_labels;
    assert(max_width * c.start == c.start * max_width) by (nonlinear_arith);
    assert(n_labels * s == s * n_labels) by (nonlinear_arith);
}

/// What a place below `n` reports is among what the places below `n` report.
proof fn lemma_report_is_found(scan: Scan, n: int, k: int) -> (i: int)
    requires
        0 <= k < n,
        scan.found_at(k) is Some,
    ensures
        0 <= i < scan.found_below(n).len(),
        scan.found_below(n)[i] == scan.found_at(k)->Some_0,
    decreases n,
{
    if k == n - 1 {
        scan.found_below(n - 1).len() as int
    } else {
        lemma_report_is_found(scan, n - 1, k)
    }
}

/// The places below `n` that report something, in order.
proof fn lemma_reporting_places(scan: Scan, n: int) -> (at: Seq<int>)
    requires
        0 <= n,
    ensures
        at.len() == scan.found_below(n).len(),
        forall|i: int| 0 <= i < at.len() ==> 0 <= #[trigger] at[i] < n,
        forall|i: int|
            0 <= i < at.len() ==> scan.found_at(#[trigger] at[i]) == Some(scan.found_below(n)[i]),
        forall|i: int, j: int| 0 <= i < j < at.len() ==> #[trigger] at[i] < #[trigger] at[j],
    decreases n,
{
    if n <= 0 {
        Seq::empty()
    } else {
        let front = lemma_reporting_places(scan, n - 1);
        match scan.found_at(n - 1) {
            Some(_) => front.push(n - 1),
            None => front,
        }
    }
}

/// Every span is found whose score is above the threshold: where the words from `first` to
/// `last`, at most `max_width` of them, cover tokens of the input, and their bytes lie in
/// the text and hold a character that is not white space, they are reported with exactly
/// these tokens and bytes, with the label, and with its score.
pub proof fn law_every_span_above_the_threshold_is_found(
    scan: Scan,
    out: Seq<ExtractedEntity>,
    first: int,
    last: int,
    label: int,
    c: int,
) -> (i: int)
    requires
        entity_views(out) == scan.found_below(scan.scores@.len() as int),
        scan.scores@.len() == scan.maps.tokens@.len() * scan.max_width * scan.labels@.len(),
        0 <= first <= last < scan.maps.tokens@.len(),
        last - first < scan.max_width,
        0 <= label < scan.labels@.len(),
        is_above(
            scan.scores@[(first * scan.max_width + (last - first)) * scan.labels@.len() + label],
            scan.threshold,
        ),
        scan.maps.tokens@[first].0 < scan.maps.tokens@[last].1 <= scan.maps.n_tokens,
        scan.maps.chars@[first].0 <= scan.maps.chars@[last].1 <= encode_utf8(scan.text@).len(),
        ({
            let covered = decode_utf8(
                encode_utf8(scan.text@).subrange(
                    scan.maps.chars@[first].0 as int,
                    scan.maps.chars@[last].1 as int,
                ),
            );
            0 <= c < covered.len() && !is_white_space(covered[c])
        }),
    ensures
        0 <= i < out.len(),
        out[i].start_tok == scan.maps.tokens@[first].0,
        out[i].end_tok == scan.maps.tokens@[last].1,
        out[i].start_char == scan.maps.chars@[first].0,
        out[i].end_char == scan.maps.chars@[last].1,
        out[i].label@ == scan.labels@[label]@,
        out[i].score == scan.scores@[(first * scan.max_width + (last - first))
            * scan.labels@.len() + label],
        out[i].text@ == trimmed(
            decode_utf8(
                encode_utf8(scan.text@).subrange(
                    scan.maps.chars@[first].0 as int,
                    scan.maps.chars@[last].1 as int,
                ),
            ),
        ),
{
    let n = scan.maps.tokens@.len() as int;
    let k = (first * scan.max_width + (last - first)) * scan.labels@.len() + label;
    lemma_cell_of_place(
        first,
        last - first,
        label,
        n,
        scan.max_width as int,
        scan.labels@.len() as int,
    );
    law_blank_is_all_white_space(scan.covered(k));
    let i = lemma_report_is_found(scan, scan.scores@.len() as int, k);
    assert(entity_views(out)[i] == out[i]@);
    i
}

/// A span whose words would reach beyond the text ends with its last word, and is found in
/// the same way.
pub proof fn law_every_span_beyond_the_text_is_found(
    scan: Scan,
    out: Seq<ExtractedEntity>,
    first: int,
    width: int,
    label: int,
    c: int,
) -> (i: int)
    requires
        entity_views(out) == scan.found_below(scan.scores@.len() as int),
        scan.scores@.len() == scan.maps.tokens@.len() * scan.max_width * scan.labels@.len(),
        0 <= first < scan.maps.tokens@.len() <= first + width,
        width < scan.max_width,
        0 <= label < scan.labels@.len(),
        is_above(
            scan.scores@[(first * scan.max_width + width) * scan.labels@.len() + label],
            scan.threshold,
        ),
        scan.maps.tokens@[first].0 < scan.maps.tokens@.last().1 <= scan.maps.n_tokens,
        scan.maps.chars@[first].0 <= scan.maps.chars@[scan.maps.tokens@.len() - 1].1
            <= encode_utf8(scan.text@).len(),
        ({
            let covered = decode_utf8(
                encode_utf8(scan.text@).subrange(
                    scan.maps.chars@[first].0 as int,
                    scan.maps.chars@[scan.maps.tokens@.len() - 1].1 as int,
                ),
            );
            0 <= c < covered.len() && !is_white_space(covered[c])
        }),
    ensures
        0 <= i < out.len(),
        out[i].start_tok == scan.maps.tokens@[first].0,
        out[i].end_tok == scan.maps.tokens@.last().1,
        out[i].start_char == scan.maps.chars@[first].0,
        out[i].end_char == scan.maps.chars@[scan.maps.tokens@.len() - 1].1,
        out[i].label@ == scan.labels@[label]@,
        out[i].score == scan.scores@[(first * scan.max_width + width) * scan.labels@.len()
            + label],
{
    let n = scan.maps.tokens@.len() as int;
    let k = (first * scan.max_width + width) * scan.labels@.len() + label;
    lemma_cell_of_place(
        first,
        width,
        label,
        n,
        scan.max_width as int,
        scan.labels@.len() as int,
    );
    law_blank_is_all_white_space(scan.covered(k));
    let i = lemma_report_is_found(scan, scan.scores@.len() as int, k);
    assert(entity_views(out)[i] == out[i]@);
    i
}

/// What is found comes in the order of the scores, one place at a time: each entity has a
/// first word, a width and a label of its own, with a score above the threshold; it covers
/// those words, as far as there are words, and its text is what it covers, trimmed.
pub proof fn law_found_comes_from_its_score(scan: Scan, out: Seq<ExtractedEntity>) -> (r: (
    Seq<int>,
    Seq<int>,
    Seq<int>,
))
    requires
        entity_views(out) == scan.found_below(scan.scores@.len() as int),
        scan.scores@.len() == scan.maps.tokens@.len() * scan.max_width * scan.labels@.len(),
    ensures
        r.0.len() == out.len(),
        r.1.len() == out.len(),
        r.2.len() == out.len(),
        forall|i: int|
            #![trigger out[i]]
            0 <= i < out.len() ==> {
                let n = scan.maps.tokens@.len();
                let last = if r.0[i] + r.1[i] < n {
                    r.0[i] + r.1[i]
                } else {
                    n - 1
                };
                &&& 0 <= r.0[i] < n
                &&& 0 <= r.1[i] < scan.max_width
                &&& 0 <= r.2[i] < scan.labels@.len()
                &&& out[i].score == scan.scores@[(r.0[i] * scan.max_width + r.1[i])
                    * scan.labels@.len() + r.2[i]]
                &&& is_above(out[i].score, scan.threshold)
                &&& out[i].label@ == scan.labels@[r.2[i]]@
                &&& out[i].start_tok == scan.maps.tokens@[r.0[i]].0
                &&& out[i].end_tok == scan.maps.tokens@[last].1
                &&& out[i].start_tok < out[i].end_tok <= scan.maps.n_tokens
                &&& out[i].start_char == scan.maps.chars@[r.0[i]].0
                &&& out[i].end_char == scan.maps.chars@[last].1
                &&& out[i].start_char <= out[i].end_char <= encode_utf8(scan.text@).len()
                &&& out[i].text@ == trimmed(
                    decode_utf8(
                        encode_utf8(scan.text@).subrange(
                            out[i].start_char as int,
                            out[i].end_char as int,
                        ),
                    ),
                )
                &&& out[i].text@.len() > 0
            },
        forall|i: int, j: int|
            #![trigger out[i], out[j]]
            0 <= i < j < out.len() ==> (r.0[i] * scan.max_width + r.1[i]) * scan.labels@.len()
                + r.2[i] < (r.0[j] * scan.max_width + r.1[j]) * scan.labels@.len() + r.2[j],
{
    let w = scan.max_width as int;
    let l = scan.labels@.len() as int;
    let n = scan.maps.tokens@.len() as int;
    let at = lemma_reporting_places(scan, scan.scores@.len() as int);
    let r = (
        Seq::new(at.len(), |i: int| cell_at(at[i], w, l).start),
        Seq::new(at.len(), |i: int| cell_at(at[i], w, l).width),
        Seq::new(at.len(), |i: int| cell_at(at[i], w, l).label),
    );
    assert(out.len() == entity_views(out).len());
    assert forall|i: int| 0 <= i < out.len() implies {
        &&& 0 <= #[trigger] at[i] < scan.scores@.len()
        &&& scan.found_at(at[i]) == Some(out[i]@)
        &&& at[i] == (r.0[i] * w + r.1[i]) * l + r.2[i]
        &&& 0 <= r.0[i] < n
        &&& 0 <= r.1[i] < w
        &&& 0 <= r.2[i] < l
    } by {
        assert(entity_views(out)[i] == out[i]@);
        lemma_place_of_cell(at[i], n, w, l);
    }
    assert forall|i: int| #![trigger out[i]] 0 <= i < out.len() implies {
        &&& is_above(out[i].score, scan.threshold)
        &&& out[i].start_char <= out[i].end_char <= encode_utf8(scan.text@).len()
        &&& out[i].text@ == trimmed(
            decode_utf8(
                encode_utf8(scan.text@).subrange(
                    out[i].start_char as int,
                    out[i].end_char as int,
                ),
            ),
        )
        &&& out[i].text@.len() > 0
    } by {
        let k = at[i];
        assert(scan.found_at(k) == Some(out[i]@));
        assert(trimmed(Seq::<char>::empty()).len() == 0);
        assert(scan.in_text(k));
    }
    assert forall|i: int, j: int|
        #![trigger out[i], out[j]]
        0 <= i < j < out.len() implies (r.0[i] * w + r.1[i]) * l + r.2[i] < (r.0[j] * w + r.1[j])
        * l + r.2[j] by {
        assert(at[i] < at[j]);
    }
    r
}

/// Scores that are not above the threshold are read of no text; and where every word has
/// bytes that begin and end at character boundaries, every text can be read.
pub proof fn law_words_at_boundaries_are_readable(scan: Scan, k: int)
    requires
        scan.scores@.len() == scan.maps.tokens@.len() * scan.max_width * scan.labels@.len(),
        0 <= k < scan.scores@.len(),
        is_above(scan.scores@[k], scan.threshold) ==> {
            &&& scan.maps.chars@.len() >= scan.maps.tokens@.len()
            &&& forall|w: int|
                0 <= w < scan.maps.tokens@.len() ==> {
                    &&& is_char_boundary(
                        encode_utf8(scan.text@),
                        (#[trigger] scan.maps.chars@[w]).0 as int,
                    )
                    &&& is_char_boundary(encode_utf8(scan.text@), scan.maps.chars@[w].1 as int)
                }
        },
    ensures
        scan.is_readable(k),
{
    lemma_cell_in_range(
        k,
        scan.maps.tokens@.len() as int,
        scan.max_width as int,
        scan.labels@.len() as int,
    );
    if is_above(scan.scores@[k], scan.threshold) {
        let last = last_word(scan.cell(k), scan.n_words());
        assert(0 <= last < scan.maps.tokens@.len());
        assert(scan.maps.chars@[scan.cell(k).start] == scan.maps.chars@[scan.cell(k).start]);
        assert(scan.maps.chars@[last] == scan.maps.chars@[last]);
    }
}

/// A match that is left out shares a token with one that stands, which has its label
/// unless the selection is flat.
pub proof fn law_left_out_match_shares_a_token(
    ents: Seq<ExtractedEntity>,
    flat: bool,
    out: Seq<ExtractedEntity>,
    i: int,
) -> (k: int)
    requires
        ents.len() <= usize::MAX,
        is_match_selection(ents, flat, out),
        0 <= i < ents.len(),
        !out.contains(ents[i]),
    ensures
        0 <= k < out.len(),
        ents[i].start_tok < out[k].end_tok,
        out[k].start_tok < ents[i].end_tok,
        flat || ents[i].label@ == out[k].label@,
{
    let (keys, at) = choose|keys: Seq<MatchKey>, at: Seq<usize>|
        #[trigger] is_match_selection_at(ents, flat, keys, at, out);
    if at.contains(i as usize) {
        let k = choose|k: int| 0 <= k < at.len() && at[k] == i as usize;
        assert(out[k] == ents[i]);
    }
    assert(is_passed_over(keys, at, i as usize));
    let k = choose|k: int|
        0 <= k < at.len() && keys[i].conflicts(keys[#[trigger] at[k] as int]);
    assert(at[k] < keys.len());
    assert(is_key_of(keys[i], ents[i], flat));
    assert(is_key_of(keys[at[k] as int], ents[at[k] as int], flat));
    k
}

/// The best matches stand, where every score is a number: one that is left out shares a
/// token with one that stands (of its label, unless the selection is flat) and has a
/// higher score, or the same one and is listed first. No two that stand do so, and they
/// come from the highest score to the lowest, and as they are listed where scores are
/// equal.
pub proof fn law_best_matches_stand(
    ents: Seq<ExtractedEntity>,
    flat: bool,
    out: Seq<ExtractedEntity>,
) -> (at: Seq<usize>)
    requires
        ents.len() <= usize::MAX,
        is_match_selection(ents, flat, out),
        forall|i: int| 0 <= i < ents.len() ==> !is_nan((#[trigger] ents[i]).score),
    ensures
        at.len() == out.len(),
        forall|k: int| 0 <= k < at.len() ==> #[trigger] at[k] < ents.len(),
        forall|k: int| 0 <= k < at.len() ==> out[k] == ents[#[trigger] at[k] as int],
        forall|j: int, k: int|
            0 <= j < k < out.len() ==> {
                &&& at[j] != at[k]
                &&& (#[trigger] out[j]).end_tok <= (#[trigger] out[k]).start_tok || out[k].end_tok
                    <= out[j].start_tok || !(flat || out[j].label@ == out[k].label@)
                &&& is_above(out[j].score, out[k].score) || (!is_above(
                    out[k].score,
                    out[j].score,
                ) && at[j] < at[k])
            },
        forall|i: int|
            #![trigger ents[i]]
            0 <= i < ents.len() && !at.contains(i as usize) ==> exists|k: int|
                #![trigger out[k]]
                {
                    &&& 0 <= k < out.len()
                    &&& ents[i].start_tok < out[k].end_tok
                    &&& out[k].start_tok < ents[i].end_tok
                    &&& flat || ents[i].label@ == out[k].label@
                    &&& is_above(out[k].score, ents[i].score) || (!is_above(
                        ents[i].score,
                        out[k].score,
                    ) && at[k] < i)
                },
{
    let (keys, at) = choose|keys: Seq<MatchKey>, at: Seq<usize>|
        #[trigger] is_match_selection_at(ents, flat, keys, at, out);
    lemma_matches_weak_order(keys, ents, flat);
    assert forall|k: int| 0 <= k < at.len() implies #[trigger] at[k] < ents.len() && out[k]
        == ents[at[k] as int] && is_key_of(keys[at[k] as int], out[k], flat) by {
        assert(at[k] < keys.len());
    }
    assert forall|j: int, k: int| 0 <= j < k < out.len() implies {
        &&& at[j] != at[k]
        &&& (#[trigger] out[j]).end_tok <= (#[trigger] out[k]).start_tok || out[k].end_tok
            <= out[j].start_tok || !(flat || out[j].label@ == out[k].label@)
        &&& is_above(out[j].score, out[k].score) || (!is_above(out[k].score, out[j].score)
            && at[j] < at[k])
    } by {
        assert(at[j] < ents.len() && at[k] < ents.len());
        assert(!keys[at[j] as int].conflicts(keys[at[k] as int]));
        assert(precedes(keys, at[j] as int, at[k] as int));
    }
    assert forall|i: int| #![trigger ents[i]] 0 <= i < ents.len() && !at.contains(
        i as usize,
    ) implies exists|k: int|
        #![trigger out[k]]
        {
            &&& 0 <= k < out.len()
            &&& ents[i].start_tok < out[k].end_tok
            &&& out[k].start_tok < ents[i].end_tok
            &&& flat || ents[i].label@ == out[k].label@
            &&& is_above(out[k].score, ents[i].score) || (!is_above(ents[i].score, out[k].score)
                && at[k] < i)
        } by {
        assert(is_passed_over(keys, at, i as usize));
        let k = choose|k: int|
            0 <= k < at.len() && keys[i].conflicts(keys[#[trigger] at[k] as int]) && precedes(
                keys,
                at[k] as int,
                i,
            );
        assert(at[k] < ents.len());
        assert(is_key_of(keys[i], ents[i], flat));
        assert(out[k] == ents[at[k] as int]);
    }
    at
}

/// The matches of a list of rounds are those of its first rounds, then those of the others;
/// of one round they are its own.
pub proof fn law_rounds_are_pooled_one_after_the_other(
    a: Seq<Vec<ExtractedEntity>>,
    b: Seq<Vec<ExtractedEntity>>,
    round: Vec<ExtractedEntity>,
)
    ensures
        pooled(a + b) == pooled(a) + pooled(b),
        pooled(seq![round]) == round@,
    decreases b.len(),
{
    if b.len() == 0 {
        assert(a + b =~= a);
        assert(pooled(a) + pooled(b) =~= pooled(a));
    } else {
        assert((a + b).drop_last() =~= a + b.drop_last());
        law_rounds_are_pooled_one_after_the_other(a, b.drop_last(), round);
        assert(pooled(a + b) =~= pooled(a) + pooled(b));
    }
    assert(seq![round].drop_last() =~= Seq::empty());
    assert(pooled(seq![round].drop_last()) =~= Seq::empty());
    assert(pooled(seq![round]) =~= round@);
}

/// A relation is reported exactly where a head and a tail stand; it joins the first of the
/// one with the first of the other, under the name that was asked for.
pub proof fn law_relation_joins_head_and_tail(
    standing: Seq<ExtractedEntity>,
    name: Seq<char>,
    r: Option<ExtractedRelation>,
)
    requires
        is_relation_of(standing, name, r),
    ensures
        r is Some <==> (exists|i: int|
            0 <= i < standing.len() && (#[trigger] standing[i]).label@ == "head"@) && (exists|
            i: int,
        |
            0 <= i < standing.len() && (#[trigger] standing[i]).label@ == "tail"@),
        r matches Some(rel) ==> {
            &&& rel.relation_type@ == name
            &&& rel.head.label@ == "head"@
            &&& rel.tail.label@ == "tail"@
            &&& exists|i: int|
                #![trigger standing[i]]
                0 <= i < standing.len() && standing[i] == rel.head && forall|j: int|
                    0 <= j < i ==> (#[trigger] standing[j]).label@ != "head"@
            &&& exists|i: int|
                #![trigger standing[i]]
                0 <= i < standing.len() && standing[i] == rel.tail && forall|j: int|
                    0 <= j < i ==> (#[trigger] standing[j]).label@ != "tail"@
        },
{
    if let Some(rel) = r {
        let h = choose|h: int|
            #[trigger] is_first_with(standing, "head"@, h) && rel.head == standing[h];
        let t = choose|t: int|
            #[trigger] is_first_with(standing, "tail"@, t) && rel.tail == standing[t];
        assert(standing[h].label@ == "head"@);
        assert(standing[t].label@ == "tail"@);
    }
}

/// The relations of reports are those of the first reports, then those of the others; one
/// report gives its own, if it has one.
pub proof fn law_relations_come_report_by_report(
    a: Seq<Option<ExtractedRelation>>,
    b: Seq<Option<ExtractedRelation>>,
    rel: ExtractedRelation,
)
    ensures
        relations_among(a + b) == relations_among(a) + relations_among(b),
        relations_among(seq![Some(rel)]) == seq![rel],
        relations_among(seq![None]) == Seq::<ExtractedRelation>::empty(),
    decreases b.len(),
{
    if b.len() == 0 {
        assert(a + b =~= a);
        assert(relations_among(a) + relations_among(b) =~= relations_among(a));
    } else {
        assert((a + b).drop_last() =~= a + b.drop_last());
        law_relations_come_report_by_report(a, b.drop_last(), rel);
        assert(relations_among(a + b) =~= relations_among(a) + relations_among(b));
    }
    let some = seq![Some(rel)];
    let none: Seq<Option<ExtractedRelation>> = seq![None];
    assert(some.drop_last() =~= Seq::empty());
    assert(none.drop_last() =~= Seq::empty());
    assert(relations_among(some.drop_last()) =~= Seq::empty());
    assert(relations_among(some) =~= seq![rel]);
    assert(relations_among(none) =~= Seq::empty());
}

/// The best of some numbers is one that none of them is above, and the first such; where
/// none is above the floor it is the first place.
pub proof fn law_first_of_the_best(values: Seq<u32>, floor: u32, r: int)
    requires
        is_first_best(values, floor, r),
    ensures
        (exists|j: int| 0 <= j < values.len() && is_above(#[trigger] values[j], floor)) ==> {
            &&& 0 <= r < values.len()
            &&& is_above(values[r], floor)
            &&& forall|j: int| 0 <= j < values.len() ==> !is_above(#[trigger] values[j], values[r])
            &&& forall|j: int|
                0 <= j < r && !is_nan(#[trigger] values[j]) ==> is_above(values[r], values[j])
        },
        (forall|j: int| 0 <= j < values.len() ==> !is_above(#[trigger] values[j], floor)) ==> r
            == 0,
{
}

/// The class of a text is the label whose probability none is above, the first such, with
/// that probability; it is the first label, with none, where no probability is above zero.
pub proof fn law_class_is_the_most_probable(
    c: ExtractedClassification,
    task_name: Seq<char>,
    labels: Seq<String>,
    probs: Seq<u32>,
) -> (i: int)
    requires
        is_class(c, task_name, labels, probs),
        labels.len() == probs.len(),
        labels.len() > 0,
    ensures
        c.task_name@ == task_name,
        0 <= i < labels.len(),
        c.label@ == labels[i]@,
        (exists|j: int| 0 <= j < probs.len() && is_above(#[trigger] probs[j], 0)) ==> {
            &&& c.score == probs[i]
            &&& is_above(c.score, 0)
            &&& forall|j: int| 0 <= j < probs.len() ==> !is_above(#[trigger] probs[j], c.score)
            &&& forall|j: int|
                0 <= j < i && !is_nan(#[trigger] probs[j]) ==> is_above(c.score, probs[j])
        },
        (forall|j: int| 0 <= j < probs.len() ==> !is_above(#[trigger] probs[j], 0)) ==> i == 0
            && c.score == 0,
{
    let i = choose|i: int|
        #[trigger] is_first_best(probs, ZERO, i) && c.label@ == labels[i]@ && c.score
            == if is_above(probs[i], ZERO) {
            probs[i]
        } else {
            ZERO
        };
    law_first_of_the_best(probs, ZERO, i);
    i
}

/// The spans go through the words, and for each word through the widths: each names its
/// first and its last word, and one that would reach beyond the text names none.
pub proof fn law_spans_name_their_words(first: int, width: int, max_width: int, n_words: int)
    requires
        0 <= first < n_words,
        0 <= width < max_width,
    ensures
        0 <= first * max_width + width < n_words * max_width,
        first + width < n_words ==> span_words(first * max_width + width, max_width, n_words) == (
            first,
            first + width,
        ),
        first + width >= n_words ==> span_words(first * max_width + width, max_width, n_words) == (
            0int,
            0int,
        ),
{
    let k = first * max_width + width;
    vstd::arithmetic::div_mod::lemma_fundamental_div_mod_converse(k, max_width, first, width);
    assert(0 <= k < n_words * max_width) by (nonlinear_arith)
        requires
            k == first * max_width + width,
            0 <= first < n_words,
            0 <= width < max_width,
    ;
}

/// The spans can be scored against a structure of three dimensions where its last one is
/// as wide as the embeddings of the spans, its middle one has at least the labels, and it
/// has a round; and against one of two dimensions, which is one round, in the same way.
/// Against one of fewer nothing can, where there are labels to score.
pub proof fn law_structure_is_read_by_its_shape(
    shape: Seq<usize>,
    span_hidden: usize,
    n_labels: nat,
)
    ensures
        shape.len() == 3 ==> {
            &&& layout(shape).rounds == shape[0]
            &&& layout(shape).is_fit(span_hidden, n_labels) <==> shape[0] > 0 && shape[1]
                >= n_labels && shape[2] == span_hidden
        },
        shape.len() == 2 || shape.len() > 3 ==> {
            &&& layout(shape).rounds == 1
            &&& layout(shape).is_fit(span_hidden, n_labels) <==> shape[0] >= n_labels && shape[1]
                == span_hidden
        },
        shape.len() < 2 && n_labels > 0 ==> !layout(shape).is_fit(span_hidden, n_labels),
{
}

/// Every round reports for itself: what it reports is the relation between what stands of
/// its own matches, and there is a report for each round.
pub proof fn law_every_round_reports_for_itself(
    rounds: Seq<Vec<ExtractedEntity>>,
    flat: bool,
    name: Seq<char>,
    found: Seq<Option<ExtractedRelation>>,
    j: int,
) -> (standing: Seq<ExtractedEntity>)
    requires
        are_reported_relations(rounds, flat, name, found),
        0 <= j < rounds.len(),
    ensures
        found.len() == rounds.len(),
        is_match_selection(rounds[j]@, flat, standing),
        is_relation_of(standing, name, found[j]),
{
    assert(is_reported_relation(rounds[j]@, flat, name, found[j]));
    choose|standing: Seq<ExtractedEntity>|
        #[trigger] is_match_selection(rounds[j]@, flat, standing) && is_relation_of(
            standing,
            name,
            found[j],
        )
}

} // verus!
