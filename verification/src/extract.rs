//! Running a text through the model: what to ask of its parts, one after the other, and
//! what to make of what they say.
use vstd::prelude::*;
use vstd::utf8::*;

use crate::decode::{
    are_reported_relations, classify, decode_entities, decode_relations, find_matches, is_class,
    is_finding, is_first_best, is_first_with, is_match_selection, is_relation_of,
    is_reported_relation, law_left_out_match_shares_a_token, law_standing_matches_are_disjoint, layout, pooled, predicted_count, projection, relations_among, ExtractedClassification,
    ExtractedRelation, Scan, WordMaps,
};
use crate::engine::{InferenceParams, TaskKind};
use crate::entity::{entity_views, ExtractedEntity};
use crate::mask::{is_in_text, is_placed};
use crate::score::{is_above, is_nan, LOWEST};

verus! {

/// What is asked of a text.
pub struct Task {
    pub kind: TaskKind,
    pub name: String,
    pub labels: Vec<String>,
}

/// How far the run of a text has come.
#[derive(Clone, Copy)]
pub enum Stage {
    /// The spans of the text have no embeddings yet.
    Spans,
    /// The classification at hand has no probabilities yet.
    Probabilities,
    /// The task at hand has no count yet.
    Count,
    /// The task at hand has this count, and no structure yet.
    Structure(usize),
    /// The task at hand is scored in this many rounds.
    Rounds(usize),
    /// All tasks are done.
    Done,
}

/// The run of a text.
pub struct Extraction<'a> {
    pub text: &'a str,
    pub maps: &'a WordMaps,
    pub tasks: &'a Vec<Task>,
    pub max_width: usize,
    pub params: InferenceParams,
    /// How wide the embeddings of the spans are.
    pub span_hidden: usize,
    /// The task at hand.
    pub at: usize,
    pub stage: Stage,
    /// What the rounds of the task at hand have found.
    pub rounds: Vec<Vec<ExtractedEntity>>,
    pub entities: Vec<ExtractedEntity>,
    pub relations: Vec<ExtractedRelation>,
    pub classifications: Vec<ExtractedClassification>,
}

/// Where task `at` begins.
pub open spec fn opening(tasks: Seq<Task>, at: int) -> Stage {
    if at >= tasks.len() {
        Stage::Done
    } else if tasks[at].kind == TaskKind::Classification {
        Stage::Probabilities
    } else {
        Stage::Count
    }
}

/// How many of the tasks before task `at` are classifications.
pub open spec fn classifications_below(tasks: Seq<Task>, at: int) -> nat
    decreases at,
{
    if at <= 0 {
        0
    } else if tasks[at - 1].kind == TaskKind::Classification {
        classifications_below(tasks, at - 1) + 1
    } else {
        classifications_below(tasks, at - 1)
    }
}

/// The name of a relation: the first label of its task.
pub open spec fn relation_name(task: Task) -> Seq<char> {
    if task.labels@.len() > 0 {
        task.labels@[0]@
    } else {
        ""@
    }
}

/// Whether no score is above `top`.
pub open spec fn are_scores_within(scores: Seq<u32>, top: u32) -> bool {
    forall|k: int| 0 <= k < scores.len() ==> !is_above(#[trigger] scores[k], top)
}

/// Whether no entity has a score above `top`.
pub open spec fn are_within(ents: Seq<ExtractedEntity>, top: u32) -> bool {
    forall|i: int| 0 <= i < ents.len() ==> !is_above((#[trigger] ents[i]).score, top)
}

/// What is asked in a run.
pub struct Query {
    pub text: Seq<char>,
    pub maps: WordMaps,
    pub tasks: Seq<Task>,
    pub max_width: int,
    pub threshold: u32,
}

impl Query {
    /// Whether an entity can be found in the text for task `t`.
    pub open spec fn is_found(self, t: int, e: ExtractedEntity) -> bool {
        is_finding(
            self.text,
            self.maps,
            self.tasks[t].labels@,
            self.max_width,
            self.threshold,
            e@,
        )
    }

    /// Whether task `t` asks for entities, and the entity can be found for it.
    pub open spec fn is_entity(self, t: int, e: ExtractedEntity) -> bool {
        &&& 0 <= t < self.tasks.len()
        &&& self.tasks[t].kind == TaskKind::Entities
        &&& self.is_found(t, e)
    }

    /// Whether task `t` asks for relations and names this one, and its head and its tail
    /// can be found for it under those labels.
    pub open spec fn is_relation(self, t: int, rel: ExtractedRelation) -> bool {
        &&& 0 <= t < self.tasks.len()
        &&& self.tasks[t].kind == TaskKind::Relations
        &&& rel.relation_type@ == relation_name(self.tasks[t])
        &&& self.is_found(t, rel.head) && rel.head.label@ == "head"@
        &&& self.is_found(t, rel.tail) && rel.tail.label@ == "tail"@
    }

    /// Whether all that the rounds have found can be found for task `t`.
    pub open spec fn are_found(self, t: int, rounds: Seq<Vec<ExtractedEntity>>) -> bool {
        forall|j: int, i: int|
            0 <= j < rounds.len() && 0 <= i < rounds[j]@.len() ==> self.is_found(
                t,
                #[trigger] rounds[j]@[i],
            )
    }

    /// Whether one of the first `at` tasks asks for entities, and this one can be found for
    /// it.
    pub open spec fn is_entity_below(self, at: int, e: ExtractedEntity) -> bool {
        exists|t: int| t < at && #[trigger] self.is_entity(t, e)
    }

    /// Whether one of the first `at` tasks asks for this relation, and it can be found for
    /// it.
    pub open spec fn is_relation_below(self, at: int, rel: ExtractedRelation) -> bool {
        exists|t: int| t < at && #[trigger] self.is_relation(t, rel)
    }

    /// Whether each of the entities can be found for one of the first `at` tasks.
    pub open spec fn are_entities(self, at: int, ents: Seq<ExtractedEntity>) -> bool {
        forall|i: int| 0 <= i < ents.len() ==> self.is_entity_below(at, #[trigger] ents[i])
    }

    /// Whether each of the relations can be found for one of the first `at` tasks.
    pub open spec fn are_relations(self, at: int, rels: Seq<ExtractedRelation>) -> bool {
        forall|i: int| 0 <= i < rels.len() ==> self.is_relation_below(at, #[trigger] rels[i])
    }
}

impl<'a> Extraction<'a> {
    /// What is asked in this run.
    pub open spec fn query(self) -> Query {
        Query {
            text: self.text@,
            maps: *self.maps,
            tasks: self.tasks@,
            max_width: self.max_width as int,
            threshold: self.params.threshold,
        }
    }

    /// What the rounds of the task at hand have found can be found for it, and what has
    /// been reported can be found for a task before it that asks for it.
    pub open spec fn is_sound(self) -> bool {
        &&& self.query().are_found(self.at as int, self.rounds@)
        &&& self.query().are_entities(self.at as int, self.entities@)
        &&& self.query().are_relations(self.at as int, self.relations@)
    }

    /// Whether nothing that has been found has a score above `top`.
    pub open spec fn is_within(self, top: u32) -> bool {
        &&& forall|j: int| 0 <= j < self.rounds@.len() ==> are_within((#[trigger] self.rounds@[j])@, top)
        &&& are_within(self.entities@, top)
        &&& forall|i: int|
            0 <= i < self.relations@.len() ==> {
                &&& !is_above((#[trigger] self.relations@[i]).head.score, top)
                &&& !is_above(self.relations@[i].tail.score, top)
            }
    }

    /// The stage is one of the task at hand, every classification before it has been
    /// reported once, of a text without words nothing has been, and what has been reported
    /// can be found in the text.
    pub open spec fn well_formed(self) -> bool {
        &&& self.at <= self.tasks@.len()
        &&& match self.stage {
            Stage::Spans => self.at == 0,
            Stage::Probabilities => self.at < self.tasks@.len() && self.tasks@[self.at as int].kind
                == TaskKind::Classification,
            Stage::Count => self.is_scoring(),
            Stage::Structure(count) => self.is_scoring() && count > 0,
            Stage::Rounds(n) => self.is_scoring() && self.rounds@.len() < n,
            Stage::Done => self.at == self.tasks@.len() || self.maps.tokens@.len() == 0,
        }
        &&& self.maps.tokens@.len() == 0 ==> {
            &&& self.stage is Done
            &&& self.at == 0
            &&& self.entities@.len() == 0
            &&& self.relations@.len() == 0
        }
        &&& !(self.stage is Rounds) ==> self.rounds@.len() == 0
        &&& self.classifications@.len() == classifications_below(self.tasks@, self.at as int)
        &&& self.is_sound()
    }

    /// Whether the task at hand is one whose spans are scored.
    pub open spec fn is_scoring(self) -> bool {
        self.at < self.tasks@.len() && self.tasks@[self.at as int].kind != TaskKind::Classification
    }

    /// Whether this is the run of the same text for the same tasks.
    pub open spec fn is_same_run(self, other: Self) -> bool {
        &&& self.text == other.text
        &&& self.maps == other.maps
        &&& self.tasks == other.tasks
        &&& self.max_width == other.max_width
        &&& self.params == other.params
    }

    /// Whether nothing has been reported since.
    pub open spec fn has_same_findings(self, other: Self) -> bool {
        &&& self.entities == other.entities
        &&& self.relations == other.relations
        &&& self.classifications == other.classifications
    }

    /// Whether the task that was at hand is over.
    pub open spec fn is_past(self, before: Self) -> bool {
        &&& self.at == before.at + 1
        &&& self.stage == opening(self.tasks@, self.at as int)
    }

    /// The scores of a round of the task at hand.
    pub open spec fn scan<'b>(self, scores: &'b Vec<u32>) -> Scan<'b> where 'a: 'b {
        Scan {
            text: self.text,
            maps: self.maps,
            labels: &self.tasks@[self.at as int].labels,
            max_width: self.max_width,
            threshold: self.params.threshold,
            scores,
        }
    }

    /// Whether the rounds of the task at hand have been reported: what stands of the
    /// entities of all of them, or the relations of each; nothing where the task asks
    /// for neither.
    pub open spec fn reports(self, before: Self, rounds: Seq<Vec<ExtractedEntity>>) -> bool {
        let task = before.tasks@[before.at as int];
        &&& self.classifications == before.classifications
        &&& if task.kind == TaskKind::Entities {
            exists|standing: Seq<ExtractedEntity>| #[trigger]
                is_match_selection(pooled(rounds), before.params.flat_ner, standing)
                    && self.entities@ == before.entities@ + standing
        } else {
            self.entities@ == before.entities@
        }
        &&& if task.kind == TaskKind::Relations {
            exists|found: Seq<Option<ExtractedRelation>>| #[trigger]
                are_reported_relations(rounds, before.params.flat_ner, relation_name(task), found)
                    && self.relations@ == before.relations@ + relations_among(found)
        } else {
            self.relations@ == before.relations@
        }
    }

    /// The run of a text for some tasks. A text without words is done at once.
    pub fn new(
        text: &'a str,
        maps: &'a WordMaps,
        tasks: &'a Vec<Task>,
        max_width: usize,
        params: InferenceParams,
    ) -> (r: Self)
        ensures
            r.well_formed(),
            r.text == text,
            r.maps == maps,
            r.tasks == tasks,
            r.max_width == max_width,
            r.params == params,
            r.span_hidden == 0,
            r.at == 0,
            r.stage == if maps.tokens@.len() == 0 {
                Stage::Done
            } else {
                Stage::Spans
            },
            r.entities@.len() == 0,
            r.relations@.len() == 0,
            r.classifications@.len() == 0,
    {
        let stage = if maps.tokens.len() == 0 {
            Stage::Done
        } else {
            Stage::Spans
        };
        Extraction {
            text,
            maps,
            tasks,
            max_width,
            params,
            span_hidden: 0,
            at: 0,
            stage,
            rounds: Vec::new(),
            entities: Vec::new(),
            relations: Vec::new(),
            classifications: Vec::new(),
        }
    }

    /// Where the task at hand begins.
    fn opening_stage(&self) -> (r: Stage)
        requires
            self.at <= self.tasks@.len(),
        ensures
            r == opening(self.tasks@, self.at as int),
    {
        if self.at >= self.tasks.len() {
            Stage::Done
        } else if self.tasks[self.at].kind == TaskKind::Classification {
            Stage::Probabilities
        } else {
            Stage::Count
        }
    }

    /// Goes on to the next task.
    fn advance(&mut self)
        requires
            old(self).maps.tokens@.len() > 0,
            old(self).at < old(self).tasks@.len(),
            old(self).classifications@.len() == classifications_below(
                old(self).tasks@,
                old(self).at + 1,
            ),
            old(self).query().are_entities(old(self).at + 1, old(self).entities@),
            old(self).query().are_relations(old(self).at + 1, old(self).relations@),
        ensures
            final(self).well_formed(),
            final(self).is_same_run(*old(self)),
            final(self).has_same_findings(*old(self)),
            final(self).span_hidden == old(self).span_hidden,
            final(self).is_past(*old(self)),
    {
        assert(self.at < self.tasks.len());
        self.at = self.at + 1;
        self.rounds = Vec::new();
        self.stage = self.opening_stage();
    }

    /// Takes in how wide the embeddings of the spans are, and begins with the first task.
    pub fn take_spans(&mut self, span_hidden: usize)
        requires
            old(self).well_formed(),
            old(self).stage is Spans,
        ensures
            final(self).well_formed(),
            final(self).is_same_run(*old(self)),
            final(self).has_same_findings(*old(self)),
            final(self).span_hidden == span_hidden,
            final(self).at == 0,
            final(self).stage == opening(final(self).tasks@, 0),
    {
        self.span_hidden = span_hidden;
        self.stage = self.opening_stage();
    }

    /// Takes in the probabilities of the labels of a classification.
    pub fn take_probabilities(&mut self, probs: &Vec<u32>)
        requires
            old(self).well_formed(),
            old(self).stage is Probabilities,
            old(self).tasks@[old(self).at as int].labels@.len() > 0,
            probs@.len() == old(self).tasks@[old(self).at as int].labels@.len(),
        ensures
            final(self).well_formed(),
            final(self).is_same_run(*old(self)),
            final(self).span_hidden == old(self).span_hidden,
            final(self).is_past(*old(self)),
            final(self).entities == old(self).entities,
            final(self).relations == old(self).relations,
            final(self).classifications@.len() == old(self).classifications@.len() + 1,
            final(self).classifications@.drop_last() == old(self).classifications@,
            is_class(
                final(self).classifications@.last(),
                old(self).tasks@[old(self).at as int].name@,
                old(self).tasks@[old(self).at as int].labels@,
                probs@,
            ),
    {
        let task = &self.tasks[self.at];
        let c = classify(task.name.as_str(), &task.labels, probs);
        let ghost before = self.classifications@;
        self.classifications.push(c);
        self.advance();
        assert(self.classifications@.drop_last() =~= before);
    }

    /// Takes in the logits of the count: a task of which nothing is expected is over.
    pub fn take_count(&mut self, logits: &Vec<u32>)
        requires
            old(self).well_formed(),
            old(self).stage is Count,
        ensures
            final(self).well_formed(),
            final(self).is_same_run(*old(self)),
            final(self).has_same_findings(*old(self)),
            final(self).span_hidden == old(self).span_hidden,
            exists|count: usize|
                #[trigger] is_first_best(logits@, LOWEST, count as int) && if count == 0 {
                    final(self).is_past(*old(self))
                } else {
                    final(self).at == old(self).at && final(self).stage == Stage::Structure(count)
                },
    {
        let count = predicted_count(logits);
        assert(is_first_best(logits@, LOWEST, count as int));
        if count == 0 {
            self.advance();
        } else {
            self.stage = Stage::Structure(count);
        }
    }

    /// Takes in the shape of the structure, and tells whether the spans can be scored
    /// against it; a task whose spans cannot is over.
    pub fn take_structure(&mut self, shape: &Vec<usize>) -> (r: bool)
        requires
            old(self).well_formed(),
            old(self).stage is Structure,
        ensures
            final(self).well_formed(),
            final(self).is_same_run(*old(self)),
            final(self).has_same_findings(*old(self)),
            final(self).span_hidden == old(self).span_hidden,
            ({
                let p = layout(shape@);
                let n_labels = old(self).tasks@[old(self).at as int].labels@.len();
                &&& r == p.is_fit(old(self).span_hidden, n_labels)
                &&& if r {
                    &&& final(self).at == old(self).at
                    &&& final(self).stage == Stage::Rounds(p.rounds)
                    &&& final(self).rounds@.len() == 0
                } else {
                    final(self).is_past(*old(self))
                }
            }),
    {
        let p = projection(shape);
        if p.fits(self.span_hidden, self.tasks[self.at].labels.len()) {
            self.stage = Stage::Rounds(p.rounds);
            true
        } else {
            self.advance();
            false
        }
    }

    /// Takes in the scores of a round. After the last one the task is reported and over.
    /// What is found has no score above all those that were taken in.
    pub fn take_scores(&mut self, scores: &Vec<u32>)
        requires
            old(self).well_formed(),
            old(self).stage is Rounds,
            old(self).scan(scores).well_formed(),
            forall|k: int|
                0 <= k < scores@.len() ==> #[trigger] old(self).scan(scores).is_readable(k),
        ensures
            final(self).well_formed(),
            final(self).is_same_run(*old(self)),
            final(self).span_hidden == old(self).span_hidden,
            exists|round: Vec<ExtractedEntity>|
                entity_views(#[trigger] round@) == old(self).scan(scores).found_below(
                    scores@.len() as int,
                ) && if old(self).rounds@.len() + 1 < old(self).stage->Rounds_0 {
                    &&& final(self).at == old(self).at
                    &&& final(self).stage == old(self).stage
                    &&& final(self).rounds@ == old(self).rounds@.push(round)
                    &&& final(self).has_same_findings(*old(self))
                } else {
                    &&& final(self).is_past(*old(self))
                    &&& final(self).reports(*old(self), old(self).rounds@.push(round))
                },
            forall|top: u32|
                #[trigger] old(self).is_within(top) && are_scores_within(scores@, top)
                    ==> final(self).is_within(top),
    {
        let ghost before = *self;
        let total: usize = match self.stage {
            Stage::Rounds(n) => n,
            _ => 0,
        };
        let task = &self.tasks[self.at];
        let scan = Scan {
            text: self.text,
            maps: self.maps,
            labels: &task.labels,
            max_width: self.max_width,
            threshold: self.params.threshold,
            scores,
        };
        assert(scan == before.scan(scores));
        let round = find_matches(&scan);
        let ghost found = round;
        assert(entity_views(found@) == before.scan(scores).found_below(scores@.len() as int));
        self.rounds.push(round);
        assert(self.query().are_found(before.at as int, self.rounds@));
        if self.rounds.len() < total {
            return;
        }
        match task.kind {
            TaskKind::Entities => {
                let mut standing = decode_entities(&self.rounds, self.params.flat_ner);
                let ghost s = standing@;
                assert(is_match_selection(
                    pooled(before.rounds@.push(found)),
                    before.params.flat_ner,
                    s,
                ));
                proof {
                    lemma_standing_are_entities(
                        before.query(),
                        before.at as int,
                        self.rounds@,
                        before.params.flat_ner,
                        s,
                    );
                }
                self.entities.append(&mut standing);
                assert(self.entities@ =~= before.entities@ + s);
            },
            TaskKind::Relations => {
                let name: &str = if task.labels.len() > 0 {
                    task.labels[0].as_str()
                } else {
                    ""
                };
                let mut more = decode_relations(&self.rounds, self.params.flat_ner, name);
                let ghost m = more@;
                proof {
                    let reported = choose|reported: Seq<Option<ExtractedRelation>>| #[trigger]
                        are_reported_relations(
                            self.rounds@,
                            self.params.flat_ner,
                            name@,
                            reported,
                        ) && m == relations_among(reported);
                    assert(are_reported_relations(
                        before.rounds@.push(found),
                        before.params.flat_ner,
                        relation_name(before.tasks@[before.at as int]),
                        reported,
                    ));
                    lemma_reported_are_relations(
                        before.query(),
                        before.at as int,
                        self.rounds@,
                        before.params.flat_ner,
                        reported,
                    );
                }
                self.relations.append(&mut more);
                assert(self.relations@ =~= before.relations@ + m);
            },
            TaskKind::Classification | TaskKind::Unknown => {},
        }
        self.advance();
        assert(self.reports(before, before.rounds@.push(found)));
        proof {
            assert forall|top: u32| #[trigger]
                before.is_within(top) && are_scores_within(scores@, top) implies self.is_within(
                top,
            ) by {
                lemma_report_within(*self, before, before.rounds@.push(found), top);
            }
        }
    }

    /// What a run that is over has reported.
    pub fn finish(self) -> (r: (
        Vec<ExtractedEntity>,
        Vec<ExtractedRelation>,
        Vec<ExtractedClassification>,
    ))
        requires
            self.well_formed(),
            self.stage is Done,
        ensures
            r == (self.entities, self.relations, self.classifications),
            self.maps.tokens@.len() > 0 ==> r.2@.len() == classifications_below(
                self.tasks@,
                self.tasks@.len() as int,
            ),
            self.query().are_entities(self.tasks@.len() as int, r.0@),
            self.query().are_relations(self.tasks@.len() as int, r.1@),
            self.maps.tokens@.len() == 0 ==> r.0@.len() == 0 && r.1@.len() == 0 && r.2@.len() == 0,
    {
        (self.entities, self.relations, self.classifications)
    }
}

/// What is pooled comes from one of the rounds.
proof fn lemma_pooled(rounds: Seq<Vec<ExtractedEntity>>, i: int) -> (r: (int, int))
    requires
        0 <= i < pooled(rounds).len(),
    ensures
        0 <= r.0 < rounds.len(),
        0 <= r.1 < rounds[r.0]@.len(),
        rounds[r.0]@[r.1] == pooled(rounds)[i],
    decreases rounds.len(),
{
    let front = pooled(rounds.drop_last());
    if i < front.len() {
        lemma_pooled(rounds.drop_last(), i)
    } else {
        (rounds.len() - 1, i - front.len())
    }
}

/// What is among the relations of the rounds is the relation of one of them.
proof fn lemma_relations_among(found: Seq<Option<ExtractedRelation>>, i: int) -> (j: int)
    requires
        0 <= i < relations_among(found).len(),
    ensures
        0 <= j < found.len(),
        found[j] == Some(relations_among(found)[i]),
    decreases found.len(),
{
    let front = relations_among(found.drop_last());
    if i < front.len() {
        lemma_relations_among(found.drop_last(), i)
    } else {
        found.len() - 1
    }
}

/// What stands of matches is one of them.
proof fn lemma_standing(
    ents: Seq<ExtractedEntity>,
    flat: bool,
    standing: Seq<ExtractedEntity>,
    i: int,
) -> (k: int)
    requires
        is_match_selection(ents, flat, standing),
        0 <= i < standing.len(),
    ensures
        0 <= k < ents.len(),
        standing[i] == ents[k],
{
    law_standing_matches_are_disjoint(ents, flat, standing);
    choose|k: int| 0 <= k < ents.len() && standing[i] == #[trigger] ents[k]
}

/// What stands of the rounds of a task for entities can be found for it.
proof fn lemma_standing_are_entities(
    q: Query,
    t: int,
    rounds: Seq<Vec<ExtractedEntity>>,
    flat: bool,
    standing: Seq<ExtractedEntity>,
)
    requires
        0 <= t < q.tasks.len(),
        q.tasks[t].kind == TaskKind::Entities,
        q.are_found(t, rounds),
        is_match_selection(pooled(rounds), flat, standing),
    ensures
        q.are_entities(t + 1, standing),
{
    assert forall|i: int| 0 <= i < standing.len() implies q.is_entity_below(
        t + 1,
        #[trigger] standing[i],
    ) by {
        let k = lemma_standing(pooled(rounds), flat, standing, i);
        let (a, b) = lemma_pooled(rounds, k);
        assert(q.is_found(t, rounds[a]@[b]));
        assert(q.is_entity(t, standing[i]));
    }
}

/// The head and the tail of a relation that the rounds report are from one of them.
proof fn lemma_relation_source(
    rounds: Seq<Vec<ExtractedEntity>>,
    flat: bool,
    name: Seq<char>,
    found: Seq<Option<ExtractedRelation>>,
    i: int,
) -> (r: (int, int, int))
    requires
        are_reported_relations(rounds, flat, name, found),
        0 <= i < relations_among(found).len(),
    ensures
        0 <= r.0 < rounds.len(),
        0 <= r.1 < rounds[r.0]@.len(),
        0 <= r.2 < rounds[r.0]@.len(),
        relations_among(found)[i].relation_type@ == name,
        relations_among(found)[i].head == rounds[r.0]@[r.1],
        relations_among(found)[i].tail == rounds[r.0]@[r.2],
        relations_among(found)[i].head.label@ == "head"@,
        relations_among(found)[i].tail.label@ == "tail"@,
{
    let rel = relations_among(found)[i];
    let j = lemma_relations_among(found, i);
    assert(is_reported_relation(rounds[j]@, flat, name, found[j]));
    let round = rounds[j]@;
    let standing = choose|standing: Seq<ExtractedEntity>|
        #[trigger] is_match_selection(round, flat, standing) && is_relation_of(
            standing,
            name,
            found[j],
        );
    let h = choose|h: int|
        #[trigger] is_first_with(standing, "head"@, h) && rel.head == standing[h];
    let l = choose|l: int|
        #[trigger] is_first_with(standing, "tail"@, l) && rel.tail == standing[l];
    let a = lemma_standing(round, flat, standing, h);
    let b = lemma_standing(round, flat, standing, l);
    (j, a, b)
}

/// What the rounds of a task for relations report can be found for it.
proof fn lemma_reported_are_relations(
    q: Query,
    t: int,
    rounds: Seq<Vec<ExtractedEntity>>,
    flat: bool,
    found: Seq<Option<ExtractedRelation>>,
)
    requires
        0 <= t < q.tasks.len(),
        q.tasks[t].kind == TaskKind::Relations,
        q.are_found(t, rounds),
        are_reported_relations(rounds, flat, relation_name(q.tasks[t]), found),
    ensures
        q.are_relations(t + 1, relations_among(found)),
{
    let rels = relations_among(found);
    let name = relation_name(q.tasks[t]);
    assert forall|i: int| 0 <= i < rels.len() implies q.is_relation_below(
        t + 1,
        #[trigger] rels[i],
    ) by {
        let (j, a, b) = lemma_relation_source(rounds, flat, name, found, i);
        assert(q.is_found(t, rounds[j]@[a]));
        assert(q.is_found(t, rounds[j]@[b]));
        assert(q.is_relation(t, rels[i]));
    }
}

/// A report of rounds without a score above `top` adds none to the findings.
proof fn lemma_report_within(
    after: Extraction,
    before: Extraction,
    rounds: Seq<Vec<ExtractedEntity>>,
    top: u32,
)
    requires
        before.is_within(top),
        after.reports(before, rounds),
        after.rounds@.len() == 0,
        forall|j: int| 0 <= j < rounds.len() ==> are_within((#[trigger] rounds[j])@, top),
    ensures
        after.is_within(top),
{
    let task = before.tasks@[before.at as int];
    let flat = before.params.flat_ner;
    if task.kind == TaskKind::Entities {
        let standing = choose|standing: Seq<ExtractedEntity>| #[trigger]
            is_match_selection(pooled(rounds), flat, standing) && after.entities@
                == before.entities@ + standing;
        assert forall|i: int| 0 <= i < standing.len() implies !is_above(
            (#[trigger] standing[i]).score,
            top,
        ) by {
            let k = lemma_standing(pooled(rounds), flat, standing, i);
            let (a, b) = lemma_pooled(rounds, k);
            assert(are_within(rounds[a]@, top));
        }
    }
    if task.kind == TaskKind::Relations {
        let name = relation_name(task);
        let found = choose|found: Seq<Option<ExtractedRelation>>| #[trigger]
            are_reported_relations(rounds, flat, name, found) && after.relations@
                == before.relations@ + relations_among(found);
        let rels = relations_among(found);
        assert forall|i: int| 0 <= i < rels.len() implies !is_above(
            (#[trigger] rels[i]).head.score,
            top,
        ) && !is_above(rels[i].tail.score, top) by {
            let (j, h, l) = lemma_relation_source(rounds, flat, name, found, i);
            assert(are_within(rounds[j]@, top));
        }
    }
}

/// What a run reports can be found in its text: every entity, at every stage, is one of a
/// task that asks for entities. It lies in the text, and its score is a number above the
/// threshold.
pub proof fn law_reported_entities_are_found(run: Extraction, i: int)
    requires
        run.well_formed(),
        0 <= i < run.entities@.len(),
    ensures
        run.query().is_entity_below(run.at as int, run.entities@[i]),
        is_placed(encode_utf8(run.text@), run.entities@[i]),
        is_in_text(run.entities@[i], encode_utf8(run.text@).len()),
        is_above(run.entities@[i].score, run.params.threshold),
        !is_nan(run.entities@[i].score),
{
    let e = run.entities@[i];
    let t = choose|t: int| #[trigger] run.query().is_entity(t, e);
    assert(run.query().is_entity(t, e));
}

/// What a run reports of relations is found in its text: the head and the tail of each lie
/// in the text, and their scores are above the threshold.
pub proof fn law_reported_relations_are_found(run: Extraction, i: int)
    requires
        run.well_formed(),
        0 <= i < run.relations@.len(),
    ensures
        run.query().is_relation_below(run.at as int, run.relations@[i]),
        is_in_text(run.relations@[i].head, encode_utf8(run.text@).len()),
        is_in_text(run.relations@[i].tail, encode_utf8(run.text@).len()),
        is_above(run.relations@[i].head.score, run.params.threshold),
        is_above(run.relations@[i].tail.score, run.params.threshold),
{
    let rel = run.relations@[i];
    let t = choose|t: int| #[trigger] run.query().is_relation(t, rel);
    assert(run.query().is_relation(t, rel));
}

/// A task begins with what it needs first: a classification with its probabilities, any
/// other with its count; and behind the last task a run is done.
pub proof fn law_task_begins_with_what_it_needs(tasks: Seq<Task>, at: int)
    requires
        0 <= at,
    ensures
        opening(tasks, at) is Done <==> at >= tasks.len(),
        at < tasks.len() ==> (opening(tasks, at) is Probabilities <==> tasks[at].kind
            == TaskKind::Classification),
        at < tasks.len() ==> (opening(tasks, at) is Count <==> tasks[at].kind
            != TaskKind::Classification),
{
}

/// A run that is done has reported as many classes as there are classifications among its
/// tasks.
pub proof fn law_classifications_are_counted(tasks: Seq<Task>, at: int)
    requires
        0 <= at < tasks.len(),
    ensures
        classifications_below(tasks, 0) == 0,
        tasks[at].kind == TaskKind::Classification ==> classifications_below(tasks, at + 1)
            == classifications_below(tasks, at) + 1,
        tasks[at].kind != TaskKind::Classification ==> classifications_below(tasks, at + 1)
            == classifications_below(tasks, at),
{
}

/// Reporting a task takes back nothing that was reported before, and adds to the entities
/// only for a task that asks for entities, to the relations only for one that asks for
/// those. For one that asks for entities every match of every round is added, or shares a
/// token with one that is, of its label unless none of any may overlap.
pub proof fn law_report_of_a_task_is_complete(
    after: Extraction,
    before: Extraction,
    rounds: Seq<Vec<ExtractedEntity>>,
    j: int,
    i: int,
)
    requires
        after.reports(before, rounds),
        pooled(rounds).len() <= usize::MAX,
        0 <= j < rounds.len(),
        0 <= i < rounds[j]@.len(),
    ensures
        before.entities@.is_prefix_of(after.entities@),
        before.relations@.is_prefix_of(after.relations@),
        after.classifications == before.classifications,
        before.tasks@[before.at as int].kind != TaskKind::Entities ==> after.entities@
            == before.entities@,
        before.tasks@[before.at as int].kind != TaskKind::Relations ==> after.relations@
            == before.relations@,
        before.tasks@[before.at as int].kind == TaskKind::Entities ==> exists|k: int|
            #![trigger after.entities@[k]]
            before.entities@.len() <= k < after.entities@.len() && {
                ||| after.entities@[k] == rounds[j]@[i]
                ||| rounds[j]@[i].start_tok < after.entities@[k].end_tok
                    && after.entities@[k].start_tok < rounds[j]@[i].end_tok && (
                before.params.flat_ner || rounds[j]@[i].label@ == after.entities@[k].label@)
            },
{
    let task = before.tasks@[before.at as int];
    let flat = before.params.flat_ner;
    assert(before.entities@ =~= before.entities@.subrange(0, before.entities@.len() as int));
    assert(before.relations@ =~= before.relations@.subrange(0, before.relations@.len() as int));
    if task.kind == TaskKind::Relations {
        let found = choose|found: Seq<Option<ExtractedRelation>>| #[trigger]
            are_reported_relations(rounds, flat, relation_name(task), found) && after.relations@
                == before.relations@ + relations_among(found);
        assert(before.relations@ =~= after.relations@.subrange(
            0,
            before.relations@.len() as int,
        ));
    }
    if task.kind == TaskKind::Entities {
        let standing = choose|standing: Seq<ExtractedEntity>| #[trigger]
            is_match_selection(pooled(rounds), flat, standing) && after.entities@
                == before.entities@ + standing;
        assert(before.entities@ =~= after.entities@.subrange(0, before.entities@.len() as int));
        let p = lemma_in_pool(rounds, j, i);
        let n = before.entities@.len() as int;
        if standing.contains(pooled(rounds)[p]) {
            let k = choose|k: int| 0 <= k < standing.len() && standing[k] == pooled(rounds)[p];
            assert(after.entities@[n + k] == standing[k]);
        } else {
            let k = law_left_out_match_shares_a_token(pooled(rounds), flat, standing, p);
            assert(after.entities@[n + k] == standing[k]);
        }
    }
}

/// What a round has found is in the pool.
proof fn lemma_in_pool(rounds: Seq<Vec<ExtractedEntity>>, j: int, i: int) -> (p: int)
    requires
        0 <= j < rounds.len(),
        0 <= i < rounds[j]@.len(),
    ensures
        0 <= p < pooled(rounds).len(),
        pooled(rounds)[p] == rounds[j]@[i],
    decreases rounds.len(),
{
    let front = pooled(rounds.drop_last());
    if j < rounds.len() - 1 {
        assert(rounds.drop_last()[j] == rounds[j]);
        lemma_in_pool(rounds.drop_last(), j, i)
    } else {
        front.len() + i
    }
}

/// A relation is named after the first label of its task.
pub proof fn law_relation_has_the_first_label(task: Task)
    ensures
        task.labels@.len() > 0 ==> relation_name(task) == task.labels@[0]@,
        task.labels@.len() == 0 ==> relation_name(task).len() == 0,
{
    reveal_strlit("");
}

/// The scores of a round are read for the text of the run, for the labels of the task at
/// hand and against the threshold of the run; once a task is over the next one is at hand,
/// and it is the same run.
pub proof fn law_round_is_read_for_its_task<'a>(
    run: Extraction<'a>,
    before: Extraction<'a>,
    scores: &'a Vec<u32>,
)
    ensures
        run.scan(scores).text == run.text,
        run.scan(scores).maps == run.maps,
        run.scan(scores).labels == run.tasks@[run.at as int].labels,
        run.scan(scores).max_width == run.max_width,
        run.scan(scores).threshold == run.params.threshold,
        run.scan(scores).scores == scores,
        run.is_past(before) ==> run.at == before.at + 1 && run.stage == opening(
            run.tasks@,
            before.at + 1,
        ),
        run.is_same_run(before) ==> run.text == before.text && run.maps == before.maps
            && run.tasks == before.tasks && run.max_width == before.max_width && run.params
            == before.params,
        run.has_same_findings(before) ==> run.entities == before.entities && run.relations
            == before.relations && run.classifications == before.classifications,
{
}

} // verus!
