//! Answering an admitted request: a text is scanned window by window, what was found is
//! pooled, and the text is redacted once.
use vstd::prelude::*;
use vstd::string::*;
use vstd::utf8::*;

use crate::engine::InferenceParams;
use crate::entity::{
    dedup_entities, dedup_of, is_dedup, key_of, keys_of, law_dedup_is_disjoint_and_complete,
    law_dedup_is_idempotent, law_dedup_is_unique, law_left_out_entity_shares_a_byte,
    lemma_dedup_members, lemma_dedup_of, scores_are_numbers, ExtractedEntity,
};
use crate::http::{json_response, string_view, text_of, Handling, Reply, Request, Server, Ticket};
use crate::mask::{
    can_be_masked, is_in_text, is_masked_set, is_placed, kept_of,
    law_entities_outside_do_not_matter, lemma_all_in_text, lemma_kept_of, lemma_lie_well,
    mask_pii_text, maskable, masked, redaction_of,
};
use crate::select::Candidate;
use crate::text::{join3, lemma_boundary_in_prefix, lemma_bytes_determine, views};
use crate::windows::{law_windows_tile, window_ranges, windows, MAX_TEXT_BYTES};

verus! {

/// What a client asks: a text, and the bits of the threshold where it sets one.
pub struct ClassifyReq {
    pub text: String,
    pub threshold: Option<u32>,
}

/// An entity as it is reported.
pub struct Ent {
    pub label: String,
    pub text: String,
    pub start: usize,
    pub end: usize,
    pub score: u32,
}

/// What a client gets: the entities that were redacted, the redacted text, and the
/// number of windows in which the text was scanned.
pub struct ClassifyResp {
    pub entities: Vec<Ent>,
    pub redacted: String,
    pub parts: usize,
}

/// What the body of a request turned out to be.
pub enum Body {
    /// It could not be read as text.
    Unreadable,
    /// It is not the JSON of a request, for the given reason.
    NotJson(String),
    /// It asks for this.
    Asked(ClassifyReq),
}

/// A text that is being scanned.
pub struct Sweep<'a> {
    pub ticket: &'a Ticket,
    pub text: &'a str,
    pub params: InferenceParams,
    pub windows: Vec<(usize, &'a str)>,
    pub scanned: usize,
    pub pooled: Vec<ExtractedEntity>,
    /// Whether the model failed on a window.
    pub failed: bool,
}

impl Ticket {
    /// The threshold for a request: its own, or the one of the settings.
    pub open spec fn threshold_for(self, asked: ClassifyReq) -> u32 {
        match asked.threshold {
            Some(bits) => bits,
            None => self.threshold,
        }
    }

    /// Starts to scan the text that a body asks about. A body that is no request, or
    /// asks about too large a text, is answered at once.
    pub fn open<'a>(&'a self, body: &'a Body) -> (r: Result<Sweep<'a>, Reply>)
        requires
            self.well_formed(),
        ensures
            match *body {
                Body::Unreadable => r matches Err(reply) && reply.is_json(
                    400,
                    "{\"error\":\"bad body\"}"@,
                    string_view(self.allow_origin),
                ),
                Body::NotJson(e) => r matches Err(reply) && reply.is_json(
                    400,
                    "{\"error\":\"bad json: "@ + e@ + "\"}"@,
                    string_view(self.allow_origin),
                ),
                Body::Asked(asked) => if encode_utf8(asked.text@).len() > MAX_TEXT_BYTES {
                    r matches Err(reply) && reply.is_json(
                        413,
                        "{\"error\":\"text too large\"}"@,
                        string_view(self.allow_origin),
                    )
                } else {
                    &&& r matches Ok(sweep)
                    &&& sweep.well_formed()
                    &&& sweep.ticket == self
                    &&& sweep.text@ == asked.text@
                    &&& sweep.params.threshold == self.threshold_for(asked)
                    &&& sweep.params.flat_ner
                    &&& sweep.scanned == 0
                    &&& sweep.pooled@.len() == 0
                    &&& !sweep.failed
                },
            },
            *body matches Body::Asked(asked) ==> {
                &&& r is Ok <==> encode_utf8(asked.text@).len() <= 40_000
                &&& r matches Ok(sweep) ==> sweep.params.threshold == match asked.threshold {
                    Some(t) => t,
                    None => self.threshold,
                }
            },
    {
        let allow_origin = self.origin();
        match body {
            Body::Unreadable => Err(
                json_response(400, "{\"error\":\"bad body\"}", allow_origin),
            ),
            Body::NotJson(e) => {
                let text = join3("{\"error\":\"bad json: ", e.as_str(), "\"}");
                Err(json_response(400, text.as_str(), allow_origin))
            },
            Body::Asked(asked) => {
                let text = asked.text.as_str();
                if text.as_bytes().len() > MAX_TEXT_BYTES {
                    return Err(
                        json_response(413, "{\"error\":\"text too large\"}", allow_origin),
                    );
                }
                let threshold: u32 = match asked.threshold {
                    Some(bits) => bits,
                    None => self.threshold,
                };
                Ok(
                    Sweep {
                        ticket: self,
                        text,
                        params: InferenceParams { threshold, flat_ner: true },
                        windows: windows(text),
                        scanned: 0,
                        pooled: Vec::new(),
                        failed: false,
                    },
                )
            },
        }
    }

    /// The origin to echo.
    fn origin(&self) -> (r: Option<&str>)
        ensures
            text_of(r) == string_view(self.allow_origin),
    {
        match &self.allow_origin {
            Some(o) => Some(o.as_str()),
            None => None,
        }
    }

    /// The reply where the model failed on a window.
    fn infer_failed(&self, e: &str) -> (r: Reply)
        requires
            self.well_formed(),
        ensures
            r.is_json(
                500,
                "{\"error\":\"infer: "@ + e@ + "\"}"@,
                string_view(self.allow_origin),
            ),
    {
        let text = join3("{\"error\":\"infer: ", e, "\"}");
        json_response(500, text.as_str(), self.origin())
    }

    /// The reply that carries what a client gets, as JSON.
    pub fn answer(&self, body: &str) -> (r: Reply)
        requires
            self.well_formed(),
        ensures
            r.is_json(200, body@, string_view(self.allow_origin)),
    {
        json_response(200, body, self.origin())
    }
}

/// An entity found in a window that begins at byte `by`, as an entity of the text.
pub open spec fn shifted(e: ExtractedEntity, by: int) -> ExtractedEntity {
    ExtractedEntity {
        start_char: (e.start_char + by) as usize,
        end_char: (e.end_char + by) as usize,
        ..e
    }
}

/// The entities found in a window that begins at byte `by`, as entities of the text.
pub open spec fn all_shifted(ents: Seq<ExtractedEntity>, by: int) -> Seq<ExtractedEntity> {
    ents.map_values(|e: ExtractedEntity| shifted(e, by))
}

/// Whether the spans, counted from byte `by` on, can be counted at all.
pub open spec fn can_be_shifted(ents: Seq<ExtractedEntity>, by: int) -> bool {
    forall|i: int|
        0 <= i < ents.len() ==> (#[trigger] ents[i]).start_char + by <= usize::MAX
            && ents[i].end_char + by <= usize::MAX
}

/// An entity as it is reported.
pub open spec fn ent_of(e: ExtractedEntity) -> Ent {
    Ent { label: e.label, text: e.text, start: e.start_char, end: e.end_char, score: e.score }
}

/// The entities as they are reported.
pub open spec fn ents_of(selected: Seq<ExtractedEntity>) -> Seq<Ent> {
    selected.map_values(|e: ExtractedEntity| ent_of(e))
}

/// Whether the pooled entities can be redacted: where there are several, none ends
/// before it begins, and what is masked lies on character boundaries.
pub open spec fn can_be_redacted(bytes: Seq<u8>, pooled: Seq<ExtractedEntity>) -> bool {
    &&& pooled.len() > 1 ==> forall|i: int|
        0 <= i < pooled.len() ==> (#[trigger] pooled[i]).start_char <= pooled[i].end_char
    &&& can_be_masked(bytes, dedup_of(pooled))
}

/// Whether this is what a client gets for a text with these bytes and pooled entities:
/// what is left of them once overlaps are resolved is reported and masked.
pub open spec fn is_response(
    bytes: Seq<u8>,
    pooled: Seq<ExtractedEntity>,
    r: ClassifyResp,
) -> bool {
    &&& r.entities@ == ents_of(dedup_of(pooled))
    &&& encode_utf8(r.redacted@) == redaction_of(bytes, dedup_of(pooled))
    &&& r.parts == window_ranges(bytes).len()
}

impl<'a> Sweep<'a> {
    /// The bytes of the text.
    pub open spec fn bytes(self) -> Seq<u8> {
        encode_utf8(self.text@)
    }

    /// The windows are those of the text, and at most all of them have been scanned.
    pub open spec fn well_formed(self) -> bool {
        &&& self.ticket.well_formed()
        &&& self.scanned <= self.windows@.len()
        &&& self.windows@.len() == window_ranges(self.bytes()).len()
        &&& forall|k: int|
            #![trigger self.windows@[k]]
            0 <= k < self.windows@.len() ==> {
                let range = window_ranges(self.bytes())[k];
                &&& self.windows@[k].0 == range.0
                &&& encode_utf8(self.windows@[k].1@) == self.bytes().subrange(range.0, range.1)
            }
    }

    /// Whether this is a scan once these entities have been found in the window that was
    /// next: they are pooled behind the others, and the window after it is next.
    pub open spec fn has_pooled(self, before: Self, ents: Seq<ExtractedEntity>) -> bool {
        &&& self.text == before.text
        &&& self.params == before.params
        &&& self.windows == before.windows
        &&& self.scanned == before.scanned + 1
        &&& self.pooled@ == before.pooled@ + all_shifted(
            ents,
            before.windows@[before.scanned as int].0 as int,
        )
    }

    /// Whether all windows have been scanned, and the model failed on none.
    pub open spec fn is_complete(self) -> bool {
        !self.failed && self.scanned == self.windows@.len()
    }

    /// The window to scan next; none where all have been scanned, or the model failed on
    /// one.
    pub fn next(&self) -> (r: Option<&'a str>)
        requires
            self.well_formed(),
        ensures
            match r {
                Some(window) => {
                    &&& !self.failed
                    &&& self.scanned < self.windows@.len()
                    &&& window@ == self.windows@[self.scanned as int].1@
                },
                None => self.failed || self.is_complete(),
            },
    {
        if !self.failed && self.scanned < self.windows.len() {
            Some(self.windows[self.scanned].1)
        } else {
            None
        }
    }

    /// Whether the spans found in the next window can be counted from the start of the
    /// text.
    pub fn countable(&self, ents: &Vec<ExtractedEntity>) -> (r: bool)
        requires
            self.well_formed(),
            self.scanned < self.windows@.len(),
        ensures
            r == can_be_shifted(ents@, self.windows@[self.scanned as int].0 as int),
    {
        let offset: usize = self.windows[self.scanned].0;
        let mut i: usize = 0;
        while i < ents.len()
            invariant
                i <= ents@.len(),
                self.scanned < self.windows@.len(),
                offset == self.windows@[self.scanned as int].0,
                forall|j: int|
                    0 <= j < i ==> (#[trigger] ents@[j]).start_char + offset <= usize::MAX
                        && ents@[j].end_char + offset <= usize::MAX,
            decreases ents@.len() - i,
        {
            if ents[i].start_char > usize::MAX - offset || ents[i].end_char > usize::MAX - offset {
                assert(!(ents@[i as int].start_char + offset <= usize::MAX
                    && ents@[i as int].end_char + offset <= usize::MAX));
                return false;
            }
            i += 1;
        }
        true
    }

    /// Takes in what became of the next window. What was found is pooled; a failure of the
    /// model is answered, and ends the scan: no window after it is scanned, and nothing
    /// that was pooled is answered.
    pub fn take(&mut self, outcome: Result<Vec<ExtractedEntity>, String>) -> (r: Option<Reply>)
        requires
            old(self).well_formed(),
            !old(self).failed,
            old(self).scanned < old(self).windows@.len(),
            outcome matches Ok(ents) ==> can_be_shifted(
                ents@,
                old(self).windows@[old(self).scanned as int].0 as int,
            ),
        ensures
            final(self).well_formed(),
            final(self).ticket == old(self).ticket,
            final(self).text == old(self).text,
            final(self).params == old(self).params,
            final(self).windows == old(self).windows,
            outcome matches Ok(ents) ==> final(self).has_pooled(*old(self), ents@),
            match outcome {
                Ok(ents) => {
                    &&& r is None
                    &&& !final(self).failed
                    &&& final(self).scanned == old(self).scanned + 1
                    &&& final(self).pooled@ == old(self).pooled@ + all_shifted(
                        ents@,
                        old(self).windows@[old(self).scanned as int].0 as int,
                    )
                },
                Err(e) => {
                    &&& r matches Some(reply) && reply.is_json(
                        500,
                        "{\"error\":\"infer: "@ + e@ + "\"}"@,
                        string_view(old(self).ticket.allow_origin),
                    )
                    &&& final(self).failed
                    &&& !final(self).is_complete()
                    &&& final(self).scanned == old(self).scanned
                    &&& final(self).pooled == old(self).pooled
                },
            },
    {
        match outcome {
            Ok(ents) => {
                self.pool(&ents);
                None
            },
            Err(e) => {
                self.failed = true;
                Some(self.ticket.infer_failed(e.as_str()))
            },
        }
    }

    /// Pools what was found in the next window.
    fn pool(&mut self, ents: &Vec<ExtractedEntity>)
        requires
            old(self).well_formed(),
            old(self).scanned < old(self).windows@.len(),
            can_be_shifted(ents@, old(self).windows@[old(self).scanned as int].0 as int),
        ensures
            final(self).well_formed(),
            final(self).scanned == old(self).scanned + 1,
            final(self).pooled@ == old(self).pooled@ + all_shifted(
                ents@,
                old(self).windows@[old(self).scanned as int].0 as int,
            ),
            final(self).ticket == old(self).ticket,
            final(self).text == old(self).text,
            final(self).params == old(self).params,
            final(self).windows == old(self).windows,
            final(self).failed == old(self).failed,
    {
        let offset: usize = self.windows[self.scanned].0;
        let ghost found = all_shifted(ents@, offset as int);
        let ghost before = self.pooled@;
        let mut i: usize = 0;
        assert(before + found.take(0) =~= before);
        while i < ents.len()
            invariant
                i <= ents@.len(),
                offset == old(self).windows@[old(self).scanned as int].0,
                found == all_shifted(ents@, offset as int),
                can_be_shifted(ents@, offset as int),
                self.pooled@ == before + found.take(i as int),
                self.ticket == old(self).ticket,
                self.text == old(self).text,
                self.params == old(self).params,
                self.windows == old(self).windows,
                self.failed == old(self).failed,
                self.scanned == old(self).scanned,
                self.scanned < self.windows.len(),
            decreases ents@.len() - i,
        {
            let mut e = ents[i].clone();
            e.start_char = e.start_char + offset;
            e.end_char = e.end_char + offset;
            assert(e == found[i as int]);
            self.pooled.push(e);
            i += 1;
            assert(before + found.take(i as int) =~= (before + found.take(i - 1)).push(
                found[i - 1],
            ));
        }
        assert(found.take(i as int) =~= found);
        self.scanned = self.scanned + 1;
    }

    /// Whether the pooled entities can be redacted.
    pub fn redactable(&self) -> (r: bool)
        ensures
            r == can_be_redacted(self.bytes(), self.pooled@),
    {
        if self.pooled.len() > 1 {
            let mut i: usize = 0;
            while i < self.pooled.len()
                invariant
                    i <= self.pooled@.len(),
                    self.pooled@.len() > 1,
                    forall|j: int|
                        0 <= j < i ==> (#[trigger] self.pooled@[j]).start_char
                            <= self.pooled@[j].end_char,
                decreases self.pooled@.len() - i,
            {
                if self.pooled[i].start_char > self.pooled[i].end_char {
                    assert(!(self.pooled@[i as int].start_char <= self.pooled@[i as int].end_char));
                    return false;
                }
                i += 1;
            }
        }
        let pooled = self.pooled.clone();
        assert(pooled@ =~= self.pooled@);
        let selected = dedup_entities(pooled);
        maskable(self.text, selected.as_slice())
    }

    /// What the client gets, once all windows have been scanned: what is left of the
    /// pooled entities once overlaps are resolved, and the text with them redacted.
    pub fn finish(self) -> (r: ClassifyResp)
        requires
            self.well_formed(),
            self.is_complete(),
            can_be_redacted(self.bytes(), self.pooled@),
        ensures
            is_response(self.bytes(), self.pooled@, r),
            is_dedup(self.pooled@, dedup_of(self.pooled@)),
            is_masked_set(
                self.bytes(),
                dedup_of(self.pooled@),
                kept_of(self.bytes(), dedup_of(self.pooled@)),
            ),
    {
        let parts = self.windows.len();
        let selected = dedup_entities(self.pooled);
        let redacted = mask_pii_text(self.text, selected.as_slice());
        let entities = report(&selected);
        ClassifyResp { entities, redacted, parts }
    }
}

/// The entities as they are reported.
fn report(selected: &Vec<ExtractedEntity>) -> (r: Vec<Ent>)
    ensures
        r@ == ents_of(selected@),
{
    let mut r: Vec<Ent> = Vec::new();
    let mut i: usize = 0;
    while i < selected.len()
        invariant
            i <= selected@.len(),
            r@ == ents_of(selected@).take(i as int),
        decreases selected@.len() - i,
    {
        let e = &selected[i];
        r.push(
            Ent {
                label: e.label.clone(),
                text: e.text.clone(),
                start: e.start_char,
                end: e.end_char,
                score: e.score,
            },
        );
        i += 1;
        assert(r@ =~= ents_of(selected@).take(i as int));
    }
    assert(ents_of(selected@).take(i as int) =~= ents_of(selected@));
    r
}

/// A boundary of a part of a text is a boundary of the text.
proof fn lemma_boundary_of_part(bytes: Seq<u8>, a: int, b: int, i: int)
    requires
        valid_utf8(bytes),
        0 <= a <= b <= bytes.len(),
        is_char_boundary(bytes, a),
        is_char_boundary(bytes, b),
        0 <= i <= b - a,
        is_char_boundary(bytes.subrange(a, b), i),
    ensures
        is_char_boundary(bytes, a + i),
{
    lemma_boundary_in_prefix(bytes, a, b);
    let front = bytes.subrange(0, b);
    valid_utf8_split(front, a);
    let part = bytes.subrange(a, b);
    assert(front.subrange(a, front.len() as int) =~= part);
    if 0 < i < b - a {
        is_char_boundary_iff_not_is_continuation_byte(part, i);
        is_char_boundary_iff_not_is_continuation_byte(bytes, a + i);
    }
}

/// An entity that is placed in a part of a text is, once counted from the start of the
/// text, placed in the text, and covers the same bytes.
proof fn lemma_shift_keeps_place(bytes: Seq<u8>, a: int, b: int, e: ExtractedEntity)
    requires
        valid_utf8(bytes),
        bytes.len() <= usize::MAX,
        0 <= a <= b <= bytes.len(),
        is_char_boundary(bytes, a),
        is_char_boundary(bytes, b),
        is_placed(bytes.subrange(a, b), e),
    ensures
        is_placed(bytes, shifted(e, a)),
        bytes.subrange(a + e.start_char, a + e.end_char) == bytes.subrange(a, b).subrange(
            e.start_char as int,
            e.end_char as int,
        ),
        shifted(e, a).start_char == a + e.start_char,
        shifted(e, a).end_char == a + e.end_char,
{
    lemma_boundary_of_part(bytes, a, b, e.start_char as int);
    lemma_boundary_of_part(bytes, a, b, e.end_char as int);
    assert(bytes.subrange(a + e.start_char, a + e.end_char) =~= bytes.subrange(a, b).subrange(
        e.start_char as int,
        e.end_char as int,
    ));
}

/// What is found in a window is found in the text: an entity that is placed in a window
/// is, once counted from the start of the text, placed in it, and covers the same bytes.
pub proof fn law_found_in_window_is_found_in_text(bytes: Seq<u8>, k: int, e: ExtractedEntity)
    requires
        valid_utf8(bytes),
        bytes.len() <= usize::MAX,
        0 <= k < window_ranges(bytes).len(),
        is_placed(
            bytes.subrange(window_ranges(bytes)[k].0, window_ranges(bytes)[k].1),
            e,
        ),
    ensures
        ({
            let range = window_ranges(bytes)[k];
            let there = shifted(e, range.0);
            &&& is_placed(bytes, there)
            &&& there.label == e.label
            &&& there.text == e.text
            &&& there.score == e.score
            &&& bytes.subrange(there.start_char as int, there.end_char as int) == bytes.subrange(
                range.0,
                range.1,
            ).subrange(e.start_char as int, e.end_char as int)
        }),
{
    let range = window_ranges(bytes)[k];
    assert(0 <= range.0 <= range.1 <= bytes.len() && is_char_boundary(bytes, range.0)
        && is_char_boundary(bytes, range.1)) by {
        law_windows_tile(bytes);
    }
    lemma_shift_keeps_place(bytes, range.0, range.1, e);
}

/// Entities that are all placed in the text can be redacted.
pub proof fn law_placed_entities_can_be_redacted(bytes: Seq<u8>, pooled: Seq<ExtractedEntity>)
    requires
        pooled.len() <= usize::MAX,
        forall|i: int| 0 <= i < pooled.len() ==> is_placed(bytes, #[trigger] pooled[i]),
    ensures
        can_be_redacted(bytes, pooled),
{
    let selected = dedup_of(pooled);
    assert forall|i: int| 0 <= i < pooled.len() implies (#[trigger] pooled[i]).start_char
        <= pooled[i].end_char by {
        assert(is_placed(bytes, pooled[i]));
    }
    lemma_dedup_of(pooled);
    lemma_dedup_members(pooled, selected);
    assert forall|k: int|
        0 <= k < selected.len() && is_in_text(
            #[trigger] selected[k],
            bytes.len(),
        ) implies is_char_boundary(bytes, selected[k].start_char as int) && is_char_boundary(
        bytes,
        selected[k].end_char as int,
    ) by {
        assert(pooled.contains(selected[k]));
        let i = choose|i: int| 0 <= i < pooled.len() && pooled[i] == selected[k];
        assert(is_placed(bytes, pooled[i]));
    }
    lemma_lie_well(bytes, selected);
}

/// The reported entities and the redacted text of an answer agree: where the scores are
/// numbers and what is left once overlaps are resolved lies in the text, exactly that is
/// reported and exactly that is masked.
pub proof fn law_answer_agrees(
    bytes: Seq<u8>,
    pooled: Seq<ExtractedEntity>,
    selected: Seq<ExtractedEntity>,
    r: ClassifyResp,
)
    requires
        pooled.len() <= usize::MAX,
        scores_are_numbers(keys_of(pooled)),
        is_dedup(pooled, selected),
        forall|k: int| 0 <= k < selected.len() ==> is_in_text(#[trigger] selected[k], bytes.len()),
        is_response(bytes, pooled, r),
    ensures
        r.entities@ == ents_of(selected),
        encode_utf8(r.redacted@) == masked(bytes, selected),
{
    lemma_dedup_of(pooled);
    law_dedup_is_unique(pooled, dedup_of(pooled), selected);
    assert(selected.len() == r.entities.len());
    lemma_all_in_text(selected, bytes.len());
    lemma_kept_of(bytes, selected);
    law_dedup_is_idempotent(pooled, selected, kept_of(bytes, selected));
}

/// A text in which nothing was found comes back as it is, with nothing reported.
pub proof fn law_nothing_found_nothing_redacted(text: Seq<char>, r: ClassifyResp)
    requires
        is_response(encode_utf8(text), Seq::empty(), r),
    ensures
        r.redacted@ == text,
        r.entities@.len() == 0,
{
    let selected = dedup_of(Seq::empty());
    lemma_dedup_of(Seq::empty());
    lemma_dedup_members(Seq::empty(), selected);
    if selected.len() > 0 {
        assert(Seq::<ExtractedEntity>::empty().contains(selected[0]));
    }
    law_entities_outside_do_not_matter(encode_utf8(text), selected);
    lemma_all_in_text(selected, encode_utf8(text).len());
    lemma_bytes_determine(r.redacted@, text);
}

/// A request that sets a threshold is scanned with exactly that one, whatever the settings
/// hold; only one that sets none is scanned with the threshold of the settings, as they
/// were when it was admitted, and so it is with the labels.
pub proof fn law_request_sets_its_threshold<'a>(
    server: Server,
    request: Request,
    ticket: Ticket,
    asked: ClassifyReq,
    sweep: Sweep<'a>,
    t: u32,
)
    requires
        server.is_handling(request, Handling::Read(ticket)),
        sweep.params.threshold == ticket.threshold_for(asked),
    ensures
        asked.threshold == Some(t) ==> sweep.params.threshold == t,
        asked.threshold is None ==> sweep.params.threshold == server.state.threshold,
        views(ticket.labels@) == views(server.state.labels@),
{
}

/// What is found in a window is counted from the start of the text: every span is moved by
/// as many bytes as stand before the window, and nothing else changes.
pub proof fn law_window_is_counted_from_the_start(ents: Seq<ExtractedEntity>, by: int, i: int)
    requires
        0 <= by,
        0 <= i < ents.len(),
        ents[i].start_char + by <= usize::MAX,
        ents[i].end_char + by <= usize::MAX,
    ensures
        all_shifted(ents, by).len() == ents.len(),
        all_shifted(ents, by)[i].start_char == ents[i].start_char + by,
        all_shifted(ents, by)[i].end_char == ents[i].end_char + by,
        all_shifted(ents, by)[i].label == ents[i].label,
        all_shifted(ents, by)[i].text == ents[i].text,
        all_shifted(ents, by)[i].score == ents[i].score,
        all_shifted(ents, by)[i].start_tok == ents[i].start_tok,
        all_shifted(ents, by)[i].end_tok == ents[i].end_tok,
{
}

/// An answer reports entities of the pool, with their label, text, span and score, as they
/// stand in the text and no two of which share a byte; one that is not reported shares a
/// byte with one that is. It tells in how many windows the text was scanned.
pub proof fn law_answer_reports_what_stands(
    bytes: Seq<u8>,
    pooled: Seq<ExtractedEntity>,
    r: ClassifyResp,
) -> (from: Seq<int>)
    requires
        pooled.len() <= usize::MAX,
        is_response(bytes, pooled, r),
    ensures
        from.len() == r.entities@.len(),
        forall|k: int|
            0 <= k < from.len() ==> {
                &&& 0 <= #[trigger] from[k] < pooled.len()
                &&& r.entities@[k].label == pooled[from[k]].label
                &&& r.entities@[k].text == pooled[from[k]].text
                &&& r.entities@[k].start == pooled[from[k]].start_char
                &&& r.entities@[k].end == pooled[from[k]].end_char
                &&& r.entities@[k].score == pooled[from[k]].score
            },
        forall|j: int, k: int|
            0 <= j < k < r.entities@.len() ==> {
                &&& (#[trigger] r.entities@[j]).start <= (#[trigger] r.entities@[k]).start
                &&& r.entities@[j].end <= r.entities@[k].start || r.entities@[j].start
                    >= r.entities@[k].end
            },
        forall|i: int|
            #![trigger pooled[i]]
            0 <= i < pooled.len() ==> exists|k: int|
                #![trigger r.entities@[k]]
                0 <= k < r.entities@.len() && {
                    ||| r.entities@[k].label == pooled[i].label && r.entities@[k].text
                        == pooled[i].text && r.entities@[k].start == pooled[i].start_char
                        && r.entities@[k].end == pooled[i].end_char && r.entities@[k].score
                        == pooled[i].score
                    ||| pooled[i].start_char < r.entities@[k].end && r.entities@[k].start
                        < pooled[i].end_char
                },
        r.parts == window_ranges(bytes).len(),
{
    let selected = dedup_of(pooled);
    lemma_dedup_of(pooled);
    law_dedup_is_disjoint_and_complete(pooled, selected);
    let from = Seq::new(
        selected.len(),
        |k: int| choose|i: int| 0 <= i < pooled.len() && pooled[i] == selected[k],
    );
    assert(r.entities@.len() == selected.len());
    assert forall|k: int| 0 <= k < from.len() implies 0 <= #[trigger] from[k] < pooled.len()
        && pooled[from[k]] == selected[k] && r.entities@[k] == ent_of(selected[k]) by {
        assert(pooled.contains(selected[k]));
    }
    assert forall|j: int, k: int| 0 <= j < k < r.entities@.len() implies {
        &&& (#[trigger] r.entities@[j]).start <= (#[trigger] r.entities@[k]).start
        &&& r.entities@[j].end <= r.entities@[k].start || r.entities@[j].start
            >= r.entities@[k].end
    } by {
        assert(selected[j].start_char <= selected[k].start_char);
        assert(!key_of(selected[j]).conflicts(key_of(selected[k])));
    }
    assert forall|i: int| #![trigger pooled[i]] 0 <= i < pooled.len() implies exists|k: int|
        #![trigger r.entities@[k]]
        0 <= k < r.entities@.len() && {
            ||| r.entities@[k].label == pooled[i].label && r.entities@[k].text == pooled[i].text
                && r.entities@[k].start == pooled[i].start_char && r.entities@[k].end
                == pooled[i].end_char && r.entities@[k].score == pooled[i].score
            ||| pooled[i].start_char < r.entities@[k].end && r.entities@[k].start
                < pooled[i].end_char
        } by {
        if selected.contains(pooled[i]) {
            let k = choose|k: int| 0 <= k < selected.len() && selected[k] == pooled[i];
            assert(r.entities@[k] == ent_of(selected[k]));
        } else {
            let k = law_left_out_entity_shares_a_byte(pooled, selected, i);
            assert(r.entities@[k] == ent_of(selected[k]));
        }
    }
    from
}

/// Spans can be counted from the start of the text exactly where their ends still fit into
/// a machine word; in a text that may be scanned those of a window always do.
pub proof fn law_spans_of_a_window_can_be_counted(ents: Seq<ExtractedEntity>, by: int)
    requires
        0 <= by,
    ensures
        can_be_shifted(ents, by) <==> forall|i: int|
            0 <= i < ents.len() ==> (#[trigger] ents[i]).start_char + by <= usize::MAX
                && ents[i].end_char + by <= usize::MAX,
        by <= 40_000 && (forall|i: int|
            0 <= i < ents.len() ==> (#[trigger] ents[i]).start_char <= 40_000 && ents[i].end_char
                <= 40_000) ==> can_be_shifted(ents, by),
{
}

/// Entities that begin and end at character boundaries of the text, none of which ends
/// before it begins, can always be redacted.
pub proof fn law_entities_at_boundaries_can_be_redacted(
    bytes: Seq<u8>,
    pooled: Seq<ExtractedEntity>,
)
    requires
        pooled.len() <= usize::MAX,
        forall|i: int|
            0 <= i < pooled.len() ==> (#[trigger] pooled[i]).start_char <= pooled[i].end_char
                <= bytes.len() && is_char_boundary(bytes, pooled[i].start_char as int)
                && is_char_boundary(bytes, pooled[i].end_char as int),
    ensures
        can_be_redacted(bytes, pooled),
{
    assert forall|i: int| 0 <= i < pooled.len() implies is_placed(bytes, #[trigger] pooled[i]) by {}
    law_placed_entities_can_be_redacted(bytes, pooled);
}

/// Nothing that is found is lost: in a scan from its first window on, what was found in
/// window `k` is in the pool at the end, as it was found but for its span, which is counted
/// from the start of the text. As many windows have been scanned as there were findings,
/// and all of them were of the same text with the same parameters.
pub proof fn law_nothing_that_is_found_is_lost<'a>(
    states: Seq<Sweep<'a>>,
    found: Seq<Seq<ExtractedEntity>>,
    k: int,
    i: int,
) -> (p: int)
    requires
        states.len() == found.len() + 1,
        states[0].scanned == 0,
        forall|j: int|
            0 <= j < found.len() ==> (#[trigger] states[j + 1]).has_pooled(states[j], found[j]),
        0 <= k < found.len(),
        0 <= i < found[k].len(),
        states[0].windows@[k].0 + found[k][i].start_char <= usize::MAX,
        states[0].windows@[k].0 + found[k][i].end_char <= usize::MAX,
    ensures
        0 <= p < states.last().pooled@.len(),
        states.last().pooled@[p].start_char == states[0].windows@[k].0 + found[k][i].start_char,
        states.last().pooled@[p].end_char == states[0].windows@[k].0 + found[k][i].end_char,
        states.last().pooled@[p].label == found[k][i].label,
        states.last().pooled@[p].text == found[k][i].text,
        states.last().pooled@[p].score == found[k][i].score,
        states.last().scanned == found.len(),
        states.last().text == states[0].text,
        states.last().params == states[0].params,
    decreases found.len(),
{
    let n = found.len() - 1;
    lemma_scan_stays_the_same(states, found, n + 1);
    lemma_scan_stays_the_same(states, found, n);
    assert(states[n + 1].has_pooled(states[n], found[n]));
    assert(states.last() == states[n + 1]);
    let before = states[n];
    let by = before.windows@[n].0 as int;
    if k == n {
        assert(states.last().pooled@[before.pooled@.len() + i] == shifted(found[k][i], by));
        before.pooled@.len() + i
    } else {
        let front = states.drop_last();
        let seen = found.drop_last();
        assert forall|j: int| 0 <= j < seen.len() implies (#[trigger] front[j + 1]).has_pooled(
            front[j],
            seen[j],
        ) by {
            assert(front[j + 1] == states[j + 1] && front[j] == states[j] && seen[j] == found[j]);
        }
        assert(front[0] == states[0]);
        assert(seen[k] == found[k]);
        let p = law_nothing_that_is_found_is_lost(front, seen, k, i);
        assert(front.last() == before);
        assert(states.last().pooled@[p] == before.pooled@[p]);
        p
    }
}

/// A scan goes on with the same text, windows and parameters, one window at a time.
proof fn lemma_scan_stays_the_same<'a>(
    states: Seq<Sweep<'a>>,
    found: Seq<Seq<ExtractedEntity>>,
    n: int,
)
    requires
        states.len() == found.len() + 1,
        states[0].scanned == 0,
        forall|j: int|
            0 <= j < found.len() ==> (#[trigger] states[j + 1]).has_pooled(states[j], found[j]),
        0 <= n <= found.len(),
    ensures
        states[n].scanned == n,
        states[n].windows == states[0].windows,
        states[n].text == states[0].text,
        states[n].params == states[0].params,
    decreases n,
{
    if n > 0 {
        lemma_scan_stays_the_same(states, found, n - 1);
        assert(states[n - 1 + 1].has_pooled(states[n - 1], found[n - 1]));
    }
}

} // verus!
