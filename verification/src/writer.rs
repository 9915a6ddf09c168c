//! The postings accumulator: collects (document, term) subscriptions
//! during an index build, keeps each term's list strictly increasing, and
//! serializes everything, in ascending term order, into a pluggable
//! segment-writing collaborator.
use vstd::prelude::*;

use crate::DocId;
use crate::Term;
use crate::postings::strictly_increasing;

verus! {

/// Failure reported by a segment writer. `serialize` passes the first one
/// on unchanged and stops.
#[derive(Debug)]
pub struct SegmentError;

/// One event of the serialization stream, as an in-memory segment writer
/// records it.
#[derive(Debug, PartialEq)]
pub enum SegmentEvent {
    /// A term begins, carrying the term and its document frequency.
    TermHeader(Term, usize),
    /// The ordered document ids of the current term.
    DocList(Vec<DocId>),
}

/// The ghost counterpart of `SegmentEvent`; what segment-writer contracts
/// speak about.
pub enum SpecEvent {
    TermHeader(Term, nat),
    DocList(Seq<DocId>),
}

impl View for SegmentEvent {
    type V = SpecEvent;

    open spec fn view(&self) -> SpecEvent {
        match self {
            SegmentEvent::TermHeader(t, f) => SpecEvent::TermHeader(*t, *f as nat),
            SegmentEvent::DocList(v) => SpecEvent::DocList(v@),
        }
    }
}

/// A sink for the (term, document list) stream that an accumulator emits
/// when it is serialized. A write either succeeds and appends one event,
/// or fails and appends nothing.
pub trait SegmentSerializer: Sized {
    /// Everything successfully written so far, in order.
    spec fn events(&self) -> Seq<SpecEvent>;

    /// Begin a new term, carrying its document frequency.
    fn new_term(&mut self, term: Term, doc_freq: usize) -> (r: Result<(), SegmentError>)
        ensures
            r is Ok ==> final(self).events() == old(self).events().push(
                SpecEvent::TermHeader(term, doc_freq as nat),
            ),
            r is Err ==> final(self).events() == old(self).events(),
    ;

    /// Write the full ordered document-id list of the current term.
    fn write_docs(&mut self, docs: &Vec<DocId>) -> (r: Result<(), SegmentError>)
        ensures
            r is Ok ==> final(self).events() == old(self).events().push(
                SpecEvent::DocList(docs@),
            ),
            r is Err ==> final(self).events() == old(self).events(),
    ;
}

/// A term's posting list after one subscription: the id is appended only
/// when it is strictly greater than the current last element; repeats and
/// out-of-order arrivals are dropped silently.
pub open spec fn subscribe_step(s: Seq<DocId>, doc: DocId) -> Seq<DocId> {
    if s.len() == 0 || s.last() < doc {
        s.push(doc)
    } else {
        s
    }
}

/// The accumulator. Terms are looked up through an ordered table mapping
/// each term to a dense handle; posting lists live in an append-only store
/// indexed by those handles.
pub struct PostingsWriter {
    postings: Vec<Vec<DocId>>,
    term_index: Vec<(Term, usize)>,
}

impl PostingsWriter {
    /// The lookup table: (term, handle) pairs in ascending term order.
    pub closed spec fn table(self) -> Seq<(Term, usize)> {
        self.term_index@
    }

    /// The posting lists, indexed by handle in first-seen term order.
    pub closed spec fn rows(self) -> Seq<Seq<DocId>> {
        self.postings@.map_values(|v: Vec<DocId>| v@)
    }

    /// How many distinct terms have been seen.
    pub open spec fn num_terms(self) -> int {
        self.rows().len() as int
    }

    /// Whether `t` has been subscribed at least once.
    pub open spec fn contains_term(self, t: Term) -> bool {
        exists|k: int| 0 <= k < self.table().len() && (#[trigger] self.table()[k]).0 == t
    }

    /// The table slot holding `t`.
    pub open spec fn slot_of(self, t: Term) -> int
        recommends
            self.contains_term(t),
    {
        choose|k: int| 0 <= k < self.table().len() && (#[trigger] self.table()[k]).0 == t
    }

    /// The dense handle assigned to `t`: the k-th distinct term seen got
    /// handle k, and handles never change.
    pub open spec fn handle_of(self, t: Term) -> int
        recommends
            self.contains_term(t),
    {
        self.table()[self.slot_of(t)].1 as int
    }

    /// The posting list accumulated for `t`.
    pub open spec fn postings_for(self, t: Term) -> Seq<DocId>
        recommends
            self.contains_term(t),
    {
        self.rows()[self.handle_of(t)]
    }

    /// Accumulator invariant: table sorted strictly by term, handles dense
    /// and distinct, every posting list strictly increasing.
    pub open spec fn wf(self) -> bool {
        &&& self.table().len() == self.rows().len()
        &&& forall|a: int, b: int|
            0 <= a < b < self.table().len()
                ==> (#[trigger] self.table()[a]).0 < (#[trigger] self.table()[b]).0
        &&& forall|k: int|
            0 <= k < self.table().len() ==> (#[trigger] self.table()[k]).1 < self.rows().len()
        &&& forall|a: int, b: int|
            0 <= a < b < self.table().len()
                ==> (#[trigger] self.table()[a]).1 != (#[trigger] self.table()[b]).1
        &&& forall|h: int| 0 <= h < self.rows().len() ==> strictly_increasing(#[trigger] self.rows()[h])
    }

    /// Sorted keys are unique: a slot holding `t` is the slot of `t`.
    proof fn lemma_slot_unique(self, k: int, t: Term)
        requires
            self.wf(),
            0 <= k < self.table().len(),
            self.table()[k].0 == t,
        ensures
            self.contains_term(t),
            self.slot_of(t) == k,
            self.handle_of(t) == self.table()[k].1 as int,
    {
        let m = self.slot_of(t);
        if m < k {
            assert(self.table()[m].0 < self.table()[k].0);
        }
        if m > k {
            assert(self.table()[k].0 < self.table()[m].0);
        }
    }

    /// Look the term up, creating its (empty) posting list and assigning
    /// the next dense handle on first sight; return the handle.
    #[verifier::loop_isolation(false)]
    fn get_term_postings(&mut self, term: Term) -> (h: usize)
        requires
            old(self).wf(),
        ensures
            final(self).wf(),
            final(self).contains_term(term),
            h as int == final(self).handle_of(term),
            h < final(self).num_terms(),
            old(self).contains_term(term) ==> *final(self) == *old(self),
            !old(self).contains_term(term) ==> {
                &&& final(self).num_terms() == old(self).num_terms() + 1
                &&& h as int == old(self).num_terms()
                &&& final(self).postings_for(term) == Seq::<DocId>::empty()
                &&& forall|t: Term|
                    t != term ==> (final(self).contains_term(t) <==> old(self).contains_term(t))
                &&& forall|t: Term|
                    t != term && old(self).contains_term(t)
                        ==> final(self).handle_of(t) == old(self).handle_of(t)
                            && final(self).postings_for(t) == old(self).postings_for(t)
            },
    {
        let mut k: usize = 0;
        while k < self.term_index.len() && self.term_index[k].0 < term
            invariant
                0 <= k <= self.table().len(),
                forall|idx: int| 0 <= idx < k ==> (#[trigger] self.table()[idx]).0 < term,
            decreases self.table().len() - k,
        {
            k = k + 1;
        }
        if k < self.term_index.len() {
            let pair = self.term_index[k];
            if pair.0 == term {
                proof {
                    self.lemma_slot_unique(k as int, term);
                }
                return pair.1;
            }
        }
        // the term is new: its slot is k, its handle the next dense index
        proof {
            assert forall|idx: int| k <= idx < self.table().len()
                implies (#[trigger] self.table()[idx]).0 > term by {
                if idx > k {
                    assert(self.table()[k as int].0 < self.table()[idx].0);
                }
            }
            assert(!self.contains_term(term));
        }
        let ghost s0 = *self;
        let h = self.postings.len();
        self.postings.push(Vec::new());
        self.term_index.insert(k, (term, h));
        proof {
            assert(self.table() == s0.table().insert(k as int, (term, h)));
            assert(self.rows() =~= s0.rows().push(Seq::<DocId>::empty()));
            // where each old slot went
            assert forall|idx: int| 0 <= idx < self.table().len()
                implies #[trigger] self.table()[idx] == (if idx < k {
                    s0.table()[idx]
                } else if idx == k {
                    (term, h)
                } else {
                    s0.table()[idx - 1]
                }) by {}
            assert(self.wf());
            self.lemma_slot_unique(k as int, term);
            assert(self.postings_for(term) =~= Seq::<DocId>::empty());
            assert forall|t: Term| t != term && self.contains_term(t)
                implies s0.contains_term(t) by {
                let m = self.slot_of(t);
                if m < k {
                    assert(s0.table()[m].0 == t);
                } else {
                    assert(s0.table()[m - 1].0 == t);
                }
            }
            assert forall|t: Term| t != term && s0.contains_term(t)
                implies self.contains_term(t)
                    && self.handle_of(t) == s0.handle_of(t)
                    && self.postings_for(t) == s0.postings_for(t) by {
                let m = s0.slot_of(t);
                let m2: int = if m < k { m } else { m + 1 };
                assert(self.table()[m2].0 == t);
                self.lemma_slot_unique(m2, t);
                assert(self.slot_of(t) == m2);
                assert(self.table()[m2].1 == s0.table()[m].1);
                assert(s0.table()[m].1 < s0.rows().len());
                assert(self.rows()[s0.handle_of(t)] == s0.rows()[s0.handle_of(t)]);
            }
        }
        h
    }

    /// Record that `doc` contains `term`. The first sighting of a term
    /// assigns it the next dense handle; the id is appended to the term's
    /// list only when strictly greater than its last element, so repeats
    /// and out-of-order arrivals are absorbed silently and the list stays
    /// strictly increasing. This call cannot fail.
    pub fn suscribe(&mut self, doc: DocId, term: Term)
        requires
            old(self).wf(),
        ensures
            final(self).wf(),
            final(self).contains_term(term),
            strictly_increasing(final(self).postings_for(term)),
            !old(self).contains_term(term) ==> {
                &&& final(self).num_terms() == old(self).num_terms() + 1
                &&& final(self).handle_of(term) == old(self).num_terms()
                &&& final(self).postings_for(term) == seq![doc]
            },
            old(self).contains_term(term) ==> {
                &&& final(self).num_terms() == old(self).num_terms()
                &&& final(self).handle_of(term) == old(self).handle_of(term)
                &&& final(self).postings_for(term) == subscribe_step(
                    old(self).postings_for(term),
                    doc,
                )
            },
            forall|t: Term|
                t != term ==> ((final(self).contains_term(t) <==> old(self).contains_term(t))
                    && (old(self).contains_term(t) ==> final(self).handle_of(t) == old(
                    self,
                ).handle_of(t) && final(self).postings_for(t) == old(self).postings_for(t))),
    {
        let h = self.get_term_postings(term);
        let ghost mid = *self;
        let row_len = self.postings[h].len();
        proof {
            assert(mid.rows()[h as int] == mid.postings@[h as int]@);
        }
        if row_len == 0 || self.postings[h][row_len - 1] < doc {
            self.postings[h].push(doc);
            proof {
                assert(self.postings@ == mid.postings@.update(
                    h as int,
                    self.postings@[h as int],
                ));
                assert(self.postings@[h as int]@ == mid.postings@[h as int]@.push(doc));
                assert(self.rows() =~= mid.rows().update(
                    h as int,
                    mid.rows()[h as int].push(doc),
                ));
                assert(self.table() == mid.table());
                let row = mid.rows()[h as int];
                assert forall|i: int, j: int| 0 <= i < j < row.push(doc).len()
                    implies row.push(doc)[i] < row.push(doc)[j] by {
                    if j == row.len() {
                        if i < row.len() - 1 {
                            assert(row[i] < row[row.len() - 1]);
                        }
                    }
                }
                assert(self.wf());
                assert(self.handle_of(term) == mid.handle_of(term));
                assert(self.postings_for(term) == subscribe_step(mid.rows()[h as int], doc));
                assert forall|t: Term| t != term && mid.contains_term(t)
                    implies self.handle_of(t) == mid.handle_of(t)
                        && self.postings_for(t) == mid.postings_for(t) by {
                    let m = mid.slot_of(t);
                    mid.lemma_slot_unique(m, t);
                    self.lemma_slot_unique(m, t);
                    // distinct handles: t's row is not the updated one
                    let mslot = mid.slot_of(term);
                    if m != mslot {
                        assert(mid.table()[m].1 != mid.table()[mslot].1);
                    }
                    assert(mid.handle_of(t) != h as int);
                }
            }
        } else {
            proof {
                assert(self.postings_for(term) == mid.rows()[h as int]);
                assert(mid.rows()[h as int].len() > 0);
                assert(mid.rows()[h as int].last()
                    == mid.postings@[h as int]@[row_len - 1]);
                assert(!(mid.rows()[h as int].last() < doc));
                assert(self.postings_for(term) == subscribe_step(mid.rows()[h as int], doc));
            }
        }
    }

    /// A fresh, empty accumulator.
    pub fn new() -> (r: PostingsWriter)
        ensures
            r.wf(),
            r.num_terms() == 0,
            forall|t: Term| !r.contains_term(t),
    {
        let r = PostingsWriter { postings: Vec::new(), term_index: Vec::new() };
        proof {
            assert(r.rows() =~= Seq::<Seq<DocId>>::empty());
        }
        r
    }

    /// The full stream `serialize` emits: for each term in ascending
    /// order, a header with its document frequency, then its ordered ids.
    pub open spec fn event_stream(self) -> Seq<SpecEvent> {
        Seq::new(
            2 * self.table().len(),
            |e: int| if e % 2 == 0 {
                SpecEvent::TermHeader(
                    self.table()[e / 2].0,
                    self.rows()[self.table()[e / 2].1 as int].len(),
                )
            } else {
                SpecEvent::DocList(self.rows()[self.table()[e / 2].1 as int])
            },
        )
    }

    /// Emit every (term, frequency, ids) triple in ascending term order
    /// into the given writer. The first failure the writer reports is
    /// returned at once and ends the iteration: on `Err` the writer holds
    /// a strict prefix of the stream, on `Ok` all of it.
    #[verifier::loop_isolation(false)]
    pub fn serialize<S: SegmentSerializer>(&self, serializer: &mut S) -> (r: Result<
        (),
        SegmentError,
    >)
        requires
            self.wf(),
        ensures
            r is Ok ==> final(serializer).events() == old(serializer).events()
                + self.event_stream(),
            r is Err ==> exists|m: int|
                0 <= m < self.event_stream().len() && final(serializer).events() == old(
                    serializer,
                ).events() + #[trigger] self.event_stream().take(m),
    {
        let ghost stream = self.event_stream();
        let mut j: usize = 0;
        while j < self.term_index.len()
            invariant
                0 <= j <= self.table().len(),
                serializer.events() == old(serializer).events() + stream.take(2 * j as int),
            decreases self.table().len() - j,
        {
            let pair = self.term_index[j];
            let docs = &self.postings[pair.1];
            let freq = docs.len();
            proof {
                assert(self.rows()[pair.1 as int] == self.postings@[pair.1 as int]@);
                assert(stream[2 * j as int] == SpecEvent::TermHeader(pair.0, freq as nat));
                assert(stream[2 * j as int + 1] == SpecEvent::DocList(docs@));
            }
            match serializer.new_term(pair.0, freq) {
                Ok(_) => {},
                Err(e) => {
                    proof {
                        assert(0 <= 2 * (j as int) && 2 * (j as int) < stream.len());
                    }
                    return Err(e);
                },
            }
            proof {
                assert(stream.take(2 * j as int + 1)
                    =~= stream.take(2 * j as int).push(stream[2 * j as int]));
                assert(old(serializer).events() + stream.take(2 * j as int + 1)
                    =~= (old(serializer).events() + stream.take(2 * j as int)).push(
                    stream[2 * j as int],
                ));
            }
            match serializer.write_docs(docs) {
                Ok(_) => {},
                Err(e) => {
                    proof {
                        assert(0 <= 2 * (j as int) + 1 && 2 * (j as int) + 1 < stream.len());
                    }
                    return Err(e);
                },
            }
            proof {
                assert(stream.take(2 * j as int + 2)
                    =~= stream.take(2 * j as int + 1).push(stream[2 * j as int + 1]));
                assert(old(serializer).events() + stream.take(2 * j as int + 2)
                    =~= (old(serializer).events() + stream.take(2 * j as int + 1)).push(
                    stream[2 * j as int + 1],
                ));
            }
            j = j + 1;
        }
        proof {
            assert(stream.take(2 * j as int) =~= stream);
        }
        Ok(())
    }
}

/// An in-memory segment writer: records every event and never fails.
pub struct VecSegmentWriter {
    /// The events recorded so far, in order.
    pub recorded: Vec<SegmentEvent>,
}

impl VecSegmentWriter {
    /// An empty recorder.
    pub fn new() -> (r: VecSegmentWriter)
        ensures
            r.events() == Seq::<SpecEvent>::empty(),
    {
        let r = VecSegmentWriter { recorded: Vec::new() };
        proof {
            assert(r.events() =~= Seq::<SpecEvent>::empty());
        }
        r
    }
}

impl SegmentSerializer for VecSegmentWriter {
    open spec fn events(&self) -> Seq<SpecEvent> {
        self.recorded@.map_values(|e: SegmentEvent| e@)
    }

    fn new_term(&mut self, term: Term, doc_freq: usize) -> (r: Result<(), SegmentError>) {
        self.recorded.push(SegmentEvent::TermHeader(term, doc_freq));
        proof {
            assert(self.events() =~= old(self).events().push(
                SpecEvent::TermHeader(term, doc_freq as nat),
            ));
        }
        Ok(())
    }

    fn write_docs(&mut self, docs: &Vec<DocId>) -> (r: Result<(), SegmentError>) {
        let copy = copy_doc_ids(docs);
        self.recorded.push(SegmentEvent::DocList(copy));
        proof {
            assert(self.events() =~= old(self).events().push(SpecEvent::DocList(docs@)));
        }
        Ok(())
    }
}

/// A segment writer that accepts a set number of writes and fails every
/// one after that; it drives `serialize` into its error path under test.
pub struct FailingSegmentWriter {
    /// How many more calls will succeed.
    pub ok_calls_left: usize,
    /// The events recorded so far, in order.
    pub recorded: Vec<SegmentEvent>,
}

impl FailingSegmentWriter {
    /// A writer whose first `ok_calls` writes succeed.
    pub fn new(ok_calls: usize) -> (r: FailingSegmentWriter)
        ensures
            r.events() == Seq::<SpecEvent>::empty(),
    {
        let r = FailingSegmentWriter { ok_calls_left: ok_calls, recorded: Vec::new() };
        proof {
            assert(r.events() =~= Seq::<SpecEvent>::empty());
        }
        r
    }
}

impl SegmentSerializer for FailingSegmentWriter {
    open spec fn events(&self) -> Seq<SpecEvent> {
        self.recorded@.map_values(|e: SegmentEvent| e@)
    }

    fn new_term(&mut self, term: Term, doc_freq: usize) -> (r: Result<(), SegmentError>) {
        if self.ok_calls_left == 0 {
            return Err(SegmentError);
        }
        self.ok_calls_left = self.ok_calls_left - 1;
        self.recorded.push(SegmentEvent::TermHeader(term, doc_freq));
        proof {
            assert(self.events() =~= old(self).events().push(
                SpecEvent::TermHeader(term, doc_freq as nat),
            ));
        }
        Ok(())
    }

    fn write_docs(&mut self, docs: &Vec<DocId>) -> (r: Result<(), SegmentError>) {
        if self.ok_calls_left == 0 {
            return Err(SegmentError);
        }
        self.ok_calls_left = self.ok_calls_left - 1;
        let copy = copy_doc_ids(docs);
        self.recorded.push(SegmentEvent::DocList(copy));
        proof {
            assert(self.events() =~= old(self).events().push(SpecEvent::DocList(docs@)));
        }
        Ok(())
    }
}

/// An element-by-element copy of a document-id list.
fn copy_doc_ids(docs: &Vec<DocId>) -> (r: Vec<DocId>)
    ensures
        r@ == docs@,
{
    let mut r: Vec<DocId> = Vec::new();
    let mut idx: usize = 0;
    while idx < docs.len()
        invariant
            0 <= idx <= docs@.len(),
            r@ == docs@.take(idx as int),
        decreases docs@.len() - idx,
    {
        r.push(docs[idx]);
        idx = idx + 1;
        proof {
            assert(docs@.take(idx as int) =~= docs@.take(idx as int - 1).push(
                docs@[idx as int - 1],
            ));
        }
    }
    proof {
        assert(docs@.take(docs@.len() as int) =~= docs@);
    }
    r
}

} // verus!

