//! Leapfrog intersection of sorted posting lists: a lazy engine that owns
//! one cursor per query term and produces the ids present in every list,
//! in increasing order, using skip-ahead instead of linear scans.
use vstd::prelude::*;

use crate::DocId;
use crate::postings::Postings;
use crate::postings::strictly_increasing;

verus! {

/// The ids common to all the given sequences: the standard set
/// intersection.
pub open spec fn inter_of(seqs: Seq<Seq<DocId>>) -> Set<DocId> {
    Set::new(
        |d: DocId| forall|j: int| 0 <= j < seqs.len() ==> (#[trigger] seqs[j]).contains(d),
    )
}

/// How many elements cursor `c` has not consumed yet.
pub open spec fn rem_count<T: Postings>(c: T) -> int {
    c.all_docs().len() - c.pos()
}

/// Total number of unconsumed elements over a whole cursor collection;
/// the engine's termination measure.
pub open spec fn total_rem<T: Postings>(s: Seq<T>) -> int
    decreases s.len(),
{
    if s.len() == 0 {
        0
    } else {
        total_rem(s.drop_last()) + rem_count(s.last())
    }
}

proof fn lemma_total_rem_nonneg<T: Postings>(s: Seq<T>)
    requires
        forall|j: int| 0 <= j < s.len() ==> (#[trigger] s[j]).pos() <= s[j].all_docs().len(),
    ensures
        total_rem(s) >= 0,
    decreases s.len(),
{
    if s.len() > 0 {
        lemma_total_rem_nonneg(s.drop_last());
    }
}

proof fn lemma_total_rem_update<T: Postings>(s: Seq<T>, j: int, c: T)
    requires
        0 <= j < s.len(),
    ensures
        total_rem(s.update(j, c)) == total_rem(s) - rem_count(s[j]) + rem_count(c),
    decreases s.len(),
{
    if s.len() > 0 {
        if j == s.len() - 1 {
            assert(s.update(j, c).drop_last() =~= s.drop_last());
        } else {
            assert(s.update(j, c).drop_last() =~= s.drop_last().update(j, c));
            lemma_total_rem_update(s.drop_last(), j, c);
        }
    }
}

/// The intersection engine: owns its cursors; `next` produces the ids
/// present in every list, smallest first.
pub struct IntersectionPostings<T: Postings> {
    postings: Vec<T>,
}

impl<T: Postings> IntersectionPostings<T> {
    /// The owned cursors, in their current order (the engine reorders them
    /// as it runs, which never changes what it will produce).
    pub closed spec fn cursors(self) -> Seq<T> {
        self.postings@
    }

    /// Number of cursors.
    pub open spec fn n(self) -> int {
        self.cursors().len() as int
    }

    /// The underlying document sequences, in current cursor order.
    pub open spec fn doc_seqs(self) -> Seq<Seq<DocId>> {
        self.cursors().map_values(|c: T| c.all_docs())
    }

    /// The ids cursor `j` has not consumed yet.
    pub open spec fn avail(self, j: int) -> Set<DocId> {
        Set::new(
            |d: DocId| exists|k: int|
                self.cursors()[j].pos() <= k < self.cursors()[j].all_docs().len()
                    && (#[trigger] self.cursors()[j].all_docs()[k]) == d,
        )
    }

    /// The ids the engine can still produce: those not consumed yet by any
    /// cursor. Each `next` call removes exactly its result from this set.
    pub open spec fn remaining(self) -> Set<DocId> {
        Set::new(
            |d: DocId| forall|j: int| 0 <= j < self.n() ==> #[trigger] self.avail(j).contains(d),
        )
    }

    /// A single cursor in a state the engine can work with.
    pub open spec fn cursor_ok(c: T) -> bool {
        &&& strictly_increasing(c.all_docs())
        &&& 0 <= c.pos() <= c.all_docs().len()
    }

    /// Every value some cursor has already returned lies strictly below
    /// everything the pivot (front) cursor can still produce.
    pub open spec fn aligned(self) -> bool {
        forall|j: int, k: int|
            0 <= j < self.n() && (#[trigger] self.cursors()[j]).pos() > 0
                && self.cursors()[0].pos() <= k < self.cursors()[0].all_docs().len()
                ==> self.cursors()[j].all_docs()[self.cursors()[j].pos() - 1]
                    < #[trigger] self.cursors()[0].all_docs()[k]
    }

    /// Engine invariant: at least one cursor, every cursor sorted and in
    /// bounds, and the cursors mutually aligned.
    pub open spec fn wf(self) -> bool {
        &&& self.n() >= 1
        &&& forall|j: int| 0 <= j < self.n() ==> Self::cursor_ok(#[trigger] self.cursors()[j])
        &&& self.aligned()
    }

    /// `remaining` is finite: it sits inside the element set of the first
    /// list.
    proof fn lemma_remaining_finite(self)
        requires
            self.wf(),
        ensures
            self.remaining().finite(),
            self.remaining() <= self.cursors()[0].all_docs().to_set(),
    {
        broadcast use vstd::seq_lib::seq_to_set_is_finite;
        broadcast use vstd::set_lib::lemma_set_subset_finite;

        let docs0 = self.cursors()[0].all_docs();
        assert forall|d: DocId| self.remaining().contains(d)
            implies docs0.to_set().contains(d) by {
            assert(self.avail(0).contains(d));
            let k = choose|k: int|
                self.cursors()[0].pos() <= k < docs0.len() && (#[trigger] docs0[k]) == d;
            assert(docs0[k] == d);
            assert(docs0.contains(d));
        }
        assert(self.remaining() <= docs0.to_set());
    }

    /// Build the engine from freshly opened cursors, one per query term.
    /// Afterwards `remaining()` is exactly the set intersection of the
    /// underlying lists.
    pub fn from_postings(postings: Vec<T>) -> (r: IntersectionPostings<T>)
        requires
            postings@.len() >= 1,
            forall|j: int|
                0 <= j < postings@.len()
                    ==> strictly_increasing((#[trigger] postings@[j]).all_docs()),
            forall|j: int| 0 <= j < postings@.len() ==> (#[trigger] postings@[j]).pos() == 0,
        ensures
            r.wf(),
            r.doc_seqs() == postings@.map_values(|c: T| c.all_docs()),
            r.remaining() == inter_of(r.doc_seqs()),
    {
        let r = IntersectionPostings { postings };
        proof {
            assert(r.doc_seqs().len() == r.n());
            assert forall|d: DocId| r.remaining().contains(d)
                implies inter_of(r.doc_seqs()).contains(d) by {
                assert forall|j: int| 0 <= j < r.doc_seqs().len()
                    implies (#[trigger] r.doc_seqs()[j]).contains(d) by {
                    let c = r.cursors()[j];
                    assert(r.avail(j).contains(d));
                    let k = choose|k: int|
                        c.pos() <= k < c.all_docs().len() && (#[trigger] c.all_docs()[k]) == d;
                    assert(c.all_docs()[k] == d);
                    assert(r.doc_seqs()[j] == c.all_docs());
                }
            }
            assert forall|d: DocId| inter_of(r.doc_seqs()).contains(d)
                implies r.remaining().contains(d) by {
                assert forall|j: int| 0 <= j < r.n()
                    implies (#[trigger] r.avail(j)).contains(d) by {
                    let c = r.cursors()[j];
                    assert(r.doc_seqs()[j] == c.all_docs());
                    assert(r.doc_seqs()[j].contains(d));
                    let k = choose|k: int| 0 <= k < c.all_docs().len() && c.all_docs()[k] == d;
                    assert(c.pos() <= k < c.all_docs().len() && c.all_docs()[k] == d);
                }
            }
            assert(r.remaining() =~= inter_of(r.doc_seqs()));
        }
        r
    }
}

impl<T: Postings> IntersectionPostings<T> {
    /// The value cursor `c` returned most recently (meaningful when
    /// `c.pos() > 0`).
    pub open spec fn last_ret(c: T) -> DocId
        recommends
            c.pos() > 0,
    {
        c.all_docs()[c.pos() - 1]
    }

    /// Produce the smallest id still present in every list, or report that
    /// none is left. Exhaustion is permanent: once `None` comes back,
    /// `remaining()` is empty and every later call reports `None` again.
    #[verifier::loop_isolation(false)]
    #[verifier::rlimit(60)]
    pub fn next(&mut self) -> (r: Option<DocId>)
        requires
            old(self).wf(),
        ensures
            final(self).wf(),
            final(self).n() == old(self).n(),
            match r {
                Some(v) => {
                    &&& old(self).remaining().contains(v)
                    &&& (forall|d: DocId| old(self).remaining().contains(d) ==> v <= d)
                    &&& final(self).remaining() == old(self).remaining().remove(v)
                },
                None => {
                    &&& old(self).remaining().is_empty()
                    &&& final(self).remaining().is_empty()
                },
            },
    {
        let ghost r_init = old(self).remaining();
        let n = self.postings.len();
        let first = self.postings[0].next();
        let mut candidate: DocId;
        match first {
            None => {
                proof {
                    let s0 = *old(self);
                    assert forall|d: DocId| !r_init.contains(d) by {
                        if r_init.contains(d) {
                            assert(s0.avail(0).contains(d));
                            let k = choose|k: int|
                                s0.cursors()[0].pos() <= k < s0.cursors()[0].all_docs().len()
                                    && (#[trigger] s0.cursors()[0].all_docs()[k]) == d;
                        }
                    }
                    assert(r_init.is_empty());
                    assert forall|j: int| 0 <= j < self.n()
                        implies Self::cursor_ok(#[trigger] self.cursors()[j])
                            && self.cursors()[j].pos() == s0.cursors()[j].pos()
                            && self.cursors()[j].all_docs() == s0.cursors()[j].all_docs() by {
                    }
                    assert(self.wf());
                    assert forall|d: DocId| !self.remaining().contains(d) by {
                        if self.remaining().contains(d) {
                            assert(self.avail(0).contains(d));
                            let k = choose|k: int|
                                self.cursors()[0].pos() <= k < self.cursors()[0].all_docs().len()
                                    && (#[trigger] self.cursors()[0].all_docs()[k]) == d;
                        }
                    }
                    assert(self.remaining().is_empty());
                }
                return None;
            },
            Some(v) => {
                candidate = v;
            },
        }
        let ghost c1 = candidate;
        proof {
            let s0 = *old(self);
            let p0 = s0.cursors()[0].pos();
            // the invariants below hold on entry to the scan
            assert(self.cursors() =~= s0.cursors().update(0, self.cursors()[0]));
            assert(candidate == s0.cursors()[0].all_docs()[p0]);
            // everything still producible is at least the candidate
            assert forall|d: DocId| r_init.contains(d) implies d >= candidate by {
                assert(s0.avail(0).contains(d));
                let k = choose|k: int|
                    p0 <= k < s0.cursors()[0].all_docs().len()
                        && (#[trigger] s0.cursors()[0].all_docs()[k]) == d;
            }
            // ids above the candidate stay available everywhere
            assert forall|j: int, d: DocId|
                0 <= j < self.n() && r_init.contains(d) && d > candidate
                implies #[trigger] self.avail(j).contains(d) by {
                assert(s0.avail(j).contains(d));
                let k = choose|k: int|
                    s0.cursors()[j].pos() <= k < s0.cursors()[j].all_docs().len()
                        && (#[trigger] s0.cursors()[j].all_docs()[k]) == d;
                if j == 0 {
                    assert(s0.cursors()[0].all_docs()[k] > s0.cursors()[0].all_docs()[p0]);
                    assert(k > p0);
                    assert(self.cursors()[0].pos() <= k < self.cursors()[0].all_docs().len()
                        && self.cursors()[0].all_docs()[k] == d);
                } else {
                    assert(self.cursors()[j].pos() <= k < self.cursors()[j].all_docs().len()
                        && self.cursors()[j].all_docs()[k] == d);
                }
            }
            // if the candidate is producible, the unscanned cursors
            // still have it
            assert forall|j: int|
                1 <= j < self.n() && r_init.contains(candidate)
                implies #[trigger] self.avail(j).contains(candidate) by {
                assert(s0.avail(j).contains(candidate));
                let k = choose|k: int|
                    s0.cursors()[j].pos() <= k < s0.cursors()[j].all_docs().len()
                        && (#[trigger] s0.cursors()[j].all_docs()[k]) == candidate;
                assert(self.cursors()[j].pos() <= k < self.cursors()[j].all_docs().len()
                    && self.cursors()[j].all_docs()[k] == candidate);
            }
            // ids at or above the first candidate that lie in every
            // list were producible at entry
            assert forall|d: DocId|
                d >= c1 && #[trigger] inter_of(self.doc_seqs()).contains(d)
                implies r_init.contains(d) by {
                assert forall|j: int| 0 <= j < s0.n()
                    implies (#[trigger] s0.avail(j)).contains(d) by {
                    assert(self.doc_seqs()[j].contains(d));
                    assert(self.doc_seqs()[j] == self.cursors()[j].all_docs());
                    assert(s0.cursors()[j].all_docs() == self.cursors()[j].all_docs());
                    let c = s0.cursors()[j];
                    let k = choose|k: int| 0 <= k < c.all_docs().len() && c.all_docs()[k] == d;
                    if c.pos() > 0 {
                        // aligned at entry: the last value this cursor
                        // returned is below the entry candidate
                        assert(Self::last_ret(c) < s0.cursors()[0].all_docs()[p0]);
                        assert(c.all_docs()[c.pos() - 1] < d);
                        assert(k >= c.pos());
                    }
                    assert(c.pos() <= k < c.all_docs().len() && (#[trigger] c.all_docs()[k]) == d);
                }
            }
            // scan-state invariants
            assert forall|j: int| 1 <= j < self.n()
                implies (#[trigger] self.cursors()[j]).pos() == 0
                    || Self::last_ret(self.cursors()[j]) < candidate by {
                if self.cursors()[j].pos() > 0 {
                    assert(s0.cursors()[j].all_docs()[s0.cursors()[j].pos() - 1]
                        < s0.cursors()[0].all_docs()[p0]);
                }
            }
        }
        let mut i: usize = 1;
        while i < n
            invariant
                n == self.n(),
                1 <= i <= n,
                forall|j: int| 0 <= j < n ==> Self::cursor_ok(#[trigger] self.cursors()[j]),
                self.cursors()[0].pos() > 0,
                Self::last_ret(self.cursors()[0]) == candidate,
                forall|j: int|
                    1 <= j < i ==> (#[trigger] self.cursors()[j]).pos() > 0
                        && Self::last_ret(self.cursors()[j]) == candidate,
                forall|j: int|
                    i <= j < n ==> (#[trigger] self.cursors()[j]).pos() == 0
                        || Self::last_ret(self.cursors()[j]) < candidate,
                c1 <= candidate,
                forall|d: DocId| r_init.contains(d) ==> d >= candidate,
                forall|j: int, d: DocId|
                    0 <= j < n && r_init.contains(d) && d > candidate
                        ==> #[trigger] self.avail(j).contains(d),
                forall|j: int|
                    i <= j < n && r_init.contains(candidate)
                        ==> #[trigger] self.avail(j).contains(candidate),
                forall|d: DocId|
                    d >= c1 && #[trigger] inter_of(self.doc_seqs()).contains(d)
                        ==> r_init.contains(d),
            decreases total_rem(self.postings@), n - i,
        {
            let ghost s0 = *self;
            let sr = self.postings[i].skip_next(candidate);
            proof {
                assert(self.cursors() =~= s0.cursors().update(i as int, self.cursors()[i as int]));
                lemma_total_rem_update(s0.cursors(), i as int, self.cursors()[i as int]);
            }
            match sr {
                None => {
                    proof {
                        let ci = self.cursors()[i as int];
                        // nothing at or above the candidate was left in
                        // list i, so nothing at all can still be produced
                        assert forall|d: DocId| !r_init.contains(d) by {
                            if r_init.contains(d) {
                                assert(d >= candidate);
                                if d == candidate {
                                    assert(s0.avail(i as int).contains(candidate));
                                } else {
                                    assert(s0.avail(i as int).contains(d));
                                }
                                let k = choose|k: int|
                                    s0.cursors()[i as int].pos() <= k
                                        < s0.cursors()[i as int].all_docs().len()
                                        && (#[trigger] s0.cursors()[i as int].all_docs()[k]) == d;
                                assert(ci.all_docs()[k] < candidate);
                            }
                        }
                        assert(r_init.is_empty());
                        assert forall|d: DocId| !self.remaining().contains(d) by {
                            if self.remaining().contains(d) {
                                assert(self.avail(i as int).contains(d));
                                let k = choose|k: int|
                                    ci.pos() <= k < ci.all_docs().len()
                                        && (#[trigger] ci.all_docs()[k]) == d;
                            }
                        }
                        assert(self.remaining().is_empty());
                        // alignment: every returned value is at most the
                        // candidate, and the pivot's tail is above it
                        assert forall|j: int, k: int|
                            0 <= j < self.n() && (#[trigger] self.cursors()[j]).pos() > 0
                                && self.cursors()[0].pos() <= k < self.cursors()[0].all_docs().len()
                            implies Self::last_ret(self.cursors()[j])
                                < #[trigger] self.cursors()[0].all_docs()[k] by {
                            assert(self.cursors()[0].all_docs()[k]
                                > self.cursors()[0].all_docs()[self.cursors()[0].pos() - 1]);
                            if j != i {
                                assert(Self::last_ret(self.cursors()[j]) <= candidate);
                            } else {
                                let cj = self.cursors()[j];
                                if s0.cursors()[j].pos() == cj.pos() {
                                    assert(Self::last_ret(cj) < candidate);
                                } else {
                                    assert(cj.all_docs()[cj.pos() - 1] < candidate);
                                }
                            }
                        }
                        assert(self.wf());
                    }
                    return None;
                },
                Some(v) => {
                    if v == candidate {
                        proof {
                            let ci = self.cursors()[i as int];
                            let cp = s0.cursors()[i as int].pos();
                            // cursor i advanced onto the candidate
                            assert(cp < ci.pos());
                            assert(Self::last_ret(ci) == candidate);
                            // ids above the candidate are still available
                            // in list i
                            assert forall|d: DocId|
                                r_init.contains(d) && d > candidate
                                implies #[trigger] self.avail(i as int).contains(d) by {
                                assert(s0.avail(i as int).contains(d));
                                let k = choose|k: int|
                                    cp <= k < s0.cursors()[i as int].all_docs().len()
                                        && (#[trigger] s0.cursors()[i as int].all_docs()[k]) == d;
                                assert(ci.all_docs()[k] == d);
                                assert(ci.all_docs()[ci.pos() - 1] == candidate);
                                assert(k > ci.pos() - 1);
                            }
                            assert forall|j: int, d: DocId|
                                0 <= j < n && r_init.contains(d) && d > candidate
                                implies #[trigger] self.avail(j).contains(d) by {
                                if j != i {
                                    assert(s0.avail(j).contains(d));
                                    let k = choose|k: int|
                                        s0.cursors()[j].pos() <= k
                                            < s0.cursors()[j].all_docs().len()
                                            && (#[trigger] s0.cursors()[j].all_docs()[k]) == d;
                                    assert(self.cursors()[j].all_docs()[k] == d);
                                }
                            }
                            // if the candidate is producible it stays
                            // available on the cursors not scanned yet
                            assert forall|j: int|
                                i as int + 1 <= j < n && r_init.contains(candidate)
                                implies #[trigger] self.avail(j).contains(candidate) by {
                                assert(s0.avail(j).contains(candidate));
                                let k = choose|k: int|
                                    s0.cursors()[j].pos() <= k < s0.cursors()[j].all_docs().len()
                                        && (#[trigger] s0.cursors()[j].all_docs()[k]) == candidate;
                                assert(self.cursors()[j].all_docs()[k] == candidate);
                            }
                            assert(self.doc_seqs() =~= s0.doc_seqs());
                        }
                        i = i + 1;
                    } else {
                        proof {
                            let ci = self.cursors()[i as int];
                            let cp = s0.cursors()[i as int].pos();
                            assert(v > candidate);
                            assert(cp < ci.pos());
                            assert(Self::last_ret(ci) == v);
                            // the candidate is not producible: list i has
                            // nothing equal to it past its cursor
                            assert(!r_init.contains(candidate)) by {
                                if r_init.contains(candidate) {
                                    assert(s0.avail(i as int).contains(candidate));
                                    let k = choose|k: int|
                                        cp <= k < s0.cursors()[i as int].all_docs().len()
                                            && (#[trigger] s0.cursors()[i as int].all_docs()[k])
                                                == candidate;
                                    assert(ci.all_docs()[k] == candidate);
                                    assert(k >= ci.pos() - 1 ==> ci.all_docs()[k] >= v);
                                    assert(k < ci.pos() - 1 ==> ci.all_docs()[k] < candidate);
                                }
                            }
                            // everything producible is at least v
                            assert forall|d: DocId| r_init.contains(d) implies d >= v by {
                                assert(d >= candidate);
                                assert(d != candidate);
                                assert(s0.avail(i as int).contains(d));
                                let k = choose|k: int|
                                    cp <= k < s0.cursors()[i as int].all_docs().len()
                                        && (#[trigger] s0.cursors()[i as int].all_docs()[k]) == d;
                                assert(ci.all_docs()[k] == d);
                                assert(k < ci.pos() - 1 ==> ci.all_docs()[k] < candidate);
                                assert(k >= ci.pos() - 1);
                                assert(k > ci.pos() - 1 ==> ci.all_docs()[k] > v);
                            }
                        }
                        let ghost s1 = *self;
                        swap_front(&mut self.postings, i);
                        proof {
                            let sw = s1.cursors()
                                .update(0, s1.cursors()[i as int])
                                .update(i as int, s1.cursors()[0]);
                            assert(self.cursors() == sw);
                            assert(self.cursors()[0] == s1.cursors()[i as int]);
                            assert(self.cursors()[i as int] == s1.cursors()[0]);
                            assert forall|j: int|
                                0 <= j < n && j != 0 && j != i
                                implies #[trigger] self.cursors()[j] == s1.cursors()[j] by {}
                            // availability is permuted along with the
                            // cursors
                            assert forall|j: int, d: DocId|
                                0 <= j < n && r_init.contains(d) && d > v
                                implies #[trigger] self.avail(j).contains(d) by {
                                let pj: int = if j == 0 { i as int } else if j == i { 0 } else { j };
                                assert(self.cursors()[j] == s1.cursors()[pj]);
                                assert(s0.avail(pj).contains(d));
                                let k = choose|k: int|
                                    s0.cursors()[pj].pos() <= k
                                        < s0.cursors()[pj].all_docs().len()
                                        && (#[trigger] s0.cursors()[pj].all_docs()[k]) == d;
                                if pj == i {
                                    // the skip advanced this cursor, but d
                                    // lies past v, so past its new position
                                    let ci = s1.cursors()[i as int];
                                    assert(ci.all_docs()[k] == d);
                                    assert(k < ci.pos() - 1 ==> ci.all_docs()[k] < candidate);
                                    assert(ci.all_docs()[ci.pos() - 1] == v);
                                    assert(k > ci.pos() - 1);
                                } else {
                                    assert(s1.cursors()[pj] == s0.cursors()[pj]);
                                }
                                assert(s1.cursors()[pj].pos() <= k
                                    < s1.cursors()[pj].all_docs().len()
                                    && s1.cursors()[pj].all_docs()[k] == d);
                                assert(self.cursors()[j].all_docs()[k] == d);
                            }
                            // the new candidate, if producible, is still
                            // available on every cursor behind the pivot
                            assert forall|j: int|
                                1 <= j < n && r_init.contains(v)
                                implies #[trigger] self.avail(j).contains(v) by {
                                let pj: int = if j == i { 0 } else { j };
                                assert(self.cursors()[j] == s1.cursors()[pj]);
                                assert(s0.avail(pj).contains(v));
                                let k = choose|k: int|
                                    s0.cursors()[pj].pos() <= k
                                        < s0.cursors()[pj].all_docs().len()
                                        && (#[trigger] s0.cursors()[pj].all_docs()[k]) == v;
                                assert(s1.cursors()[pj] == s0.cursors()[pj]);
                                assert(self.cursors()[j].all_docs()[k] == v);
                            }
                            // the membership condition of the intersection
                            // is unchanged by the permutation
                            assert forall|d: DocId|
                                d >= c1 && #[trigger] inter_of(self.doc_seqs()).contains(d)
                                implies r_init.contains(d) by {
                                assert forall|j: int| 0 <= j < n
                                    implies (#[trigger] s1.doc_seqs()[j]).contains(d) by {
                                    let pj: int = if j == 0 { i as int } else if j == i { 0 } else { j };
                                    assert(s1.doc_seqs()[j] == s1.cursors()[j].all_docs());
                                    assert(self.doc_seqs()[pj] == self.cursors()[pj].all_docs());
                                    assert(self.cursors()[pj] == s1.cursors()[j]);
                                    assert(self.doc_seqs()[pj].contains(d));
                                }
                                assert(inter_of(s1.doc_seqs()).contains(d));
                                assert(s1.doc_seqs() =~= s0.doc_seqs());
                                assert(inter_of(s0.doc_seqs()).contains(d));
                            }
                            // the swap leaves the total of unconsumed
                            // elements unchanged
                            lemma_total_rem_update(s1.cursors(), 0, s1.cursors()[i as int]);
                            lemma_total_rem_update(
                                s1.cursors().update(0, s1.cursors()[i as int]),
                                i as int,
                                s1.cursors()[0],
                            );
                            lemma_total_rem_nonneg(self.cursors());
                        }
                        candidate = v;
                        i = 1;
                    }
                },
            }
            proof {
                lemma_total_rem_nonneg(self.cursors());
            }
        }
        proof {
            // every cursor stands on the candidate: it is in every list
            assert forall|j: int| 0 <= j < self.doc_seqs().len()
                implies (#[trigger] self.doc_seqs()[j]).contains(candidate) by {
                let c = self.cursors()[j];
                assert(c.pos() > 0 && Self::last_ret(c) == candidate);
                assert(self.doc_seqs()[j] == c.all_docs());
                assert(c.all_docs()[c.pos() - 1] == candidate);
            }
            assert(inter_of(self.doc_seqs()).contains(candidate));
            assert(r_init.contains(candidate));
            // what is left is exactly what was left before, minus the
            // candidate
            assert forall|d: DocId| #[trigger] self.remaining().contains(d)
                implies r_init.remove(candidate).contains(d) by {
                assert(self.avail(0).contains(d));
                let k0 = choose|k: int|
                    self.cursors()[0].pos() <= k < self.cursors()[0].all_docs().len()
                        && (#[trigger] self.cursors()[0].all_docs()[k]) == d;
                assert(d > candidate);
                assert forall|j: int| 0 <= j < self.doc_seqs().len()
                    implies (#[trigger] self.doc_seqs()[j]).contains(d) by {
                    assert(self.avail(j).contains(d));
                    let k = choose|k: int|
                        self.cursors()[j].pos() <= k < self.cursors()[j].all_docs().len()
                            && (#[trigger] self.cursors()[j].all_docs()[k]) == d;
                    assert(self.cursors()[j].all_docs()[k] == d);
                    assert(self.doc_seqs()[j] == self.cursors()[j].all_docs());
                }
                assert(inter_of(self.doc_seqs()).contains(d));
            }
            assert forall|d: DocId| r_init.remove(candidate).contains(d)
                implies #[trigger] self.remaining().contains(d) by {
                assert(d >= candidate && d != candidate);
                assert forall|j: int| 0 <= j < self.n()
                    implies #[trigger] self.avail(j).contains(d) by {}
            }
            assert(self.remaining() =~= r_init.remove(candidate));
            // alignment at exit
            assert forall|j: int, k: int|
                0 <= j < self.n() && (#[trigger] self.cursors()[j]).pos() > 0
                    && self.cursors()[0].pos() <= k < self.cursors()[0].all_docs().len()
                implies Self::last_ret(self.cursors()[j])
                    < #[trigger] self.cursors()[0].all_docs()[k] by {
                assert(Self::last_ret(self.cursors()[j]) == candidate);
                assert(self.cursors()[0].all_docs()[k]
                    > self.cursors()[0].all_docs()[self.cursors()[0].pos() - 1]);
            }
            assert(self.wf());
        }
        Some(candidate)
    }
}

impl<T: Postings> IntersectionPostings<T> {
    /// Drain the engine: every id present in all the lists, in increasing
    /// order, each exactly once.
    pub fn collect(self) -> (r: Vec<DocId>)
        requires
            self.wf(),
        ensures
            strictly_increasing(r@),
            forall|d: DocId| #[trigger] r@.contains(d) <==> self.remaining().contains(d),
    {
        broadcast use vstd::set::group_set_axioms;

        let mut this = self;
        let ghost r0 = this.remaining();
        proof {
            this.lemma_remaining_finite();
        }
        let mut out: Vec<DocId> = Vec::new();
        let mut done = false;
        while !done
            invariant
                this.wf(),
                this.remaining().finite(),
                this.remaining() <= r0,
                done ==> this.remaining().is_empty(),
                strictly_increasing(out@),
                forall|d: DocId| #[trigger] out@.contains(d)
                    <==> (r0.contains(d) && !this.remaining().contains(d)),
                forall|d: DocId, e: DocId|
                    #[trigger] this.remaining().contains(d) && #[trigger] out@.contains(e)
                        ==> e < d,
            decreases this.remaining().len() + (if done { 0int } else { 1int }),
        {
            let ghost pre = this;
            match this.next() {
                Some(v) => {
                    let ghost old_out = out@;
                    out.push(v);
                    proof {
                        this.lemma_remaining_finite();
                        assert(out@ == old_out.push(v));
                        assert forall|a: int, b: int| 0 <= a < b < out@.len()
                            implies out@[a] < out@[b] by {
                            if b == out@.len() - 1 {
                                assert(out@[a] == old_out[a]);
                                assert(old_out.contains(old_out[a]));
                            }
                        }
                        assert forall|d: DocId| #[trigger] out@.contains(d)
                            implies (r0.contains(d) && !this.remaining().contains(d)) by {
                            if old_out.contains(d) {
                            } else {
                                let k = choose|k: int| 0 <= k < out@.len() && out@[k] == d;
                                assert(out@[out@.len() - 1] == v);
                                if k < out@.len() - 1 {
                                    assert(old_out[k] == d);
                                    assert(old_out.contains(d));
                                }
                                assert(d == v);
                            }
                        }
                        assert forall|d: DocId|
                            r0.contains(d) && !this.remaining().contains(d)
                            implies #[trigger] out@.contains(d) by {
                            if d != v && !pre.remaining().contains(d) {
                                assert(old_out.contains(d));
                                let k = choose|k: int|
                                    0 <= k < old_out.len() && old_out[k] == d;
                                assert(out@[k] == d);
                            } else {
                                assert(out@[out@.len() - 1] == v);
                            }
                        }
                        assert forall|d: DocId, e: DocId|
                            #[trigger] this.remaining().contains(d)
                                && #[trigger] out@.contains(e)
                            implies e < d by {
                            assert(pre.remaining().contains(d) && d != v);
                            let k = choose|k: int| 0 <= k < out@.len() && out@[k] == e;
                            if k < out@.len() - 1 {
                                assert(old_out[k] == e);
                                assert(old_out.contains(e));
                            } else {
                                assert(e == v);
                            }
                        }
                    }
                },
                None => {
                    done = true;
                },
            }
        }
        out
    }
}

/// Two strictly increasing sequences with the same members are the same
/// sequence.
pub proof fn lemma_sorted_same_members(a: Seq<DocId>, b: Seq<DocId>)
    requires
        strictly_increasing(a),
        strictly_increasing(b),
        forall|d: DocId| a.contains(d) <==> b.contains(d),
    ensures
        a == b,
    decreases a.len(),
{
    if a.len() == 0 {
        if b.len() > 0 {
            assert(b.contains(b[0]));
            assert(a.contains(b[0]));
        }
        assert(a =~= b);
    } else {
        assert(a.contains(a[0]));
        assert(b.contains(b[0]));
        let k = choose|k: int| 0 <= k < b.len() && b[k] == a[0];
        let m = choose|m: int| 0 <= m < a.len() && a[m] == b[0];
        assert(a[0] == b[0]);
        let at = a.skip(1);
        let bt = b.skip(1);
        assert forall|i: int, j: int| 0 <= i < j < at.len() implies at[i] < at[j] by {
            assert(at[i] == a[i + 1] && at[j] == a[j + 1]);
        }
        assert forall|i: int, j: int| 0 <= i < j < bt.len() implies bt[i] < bt[j] by {
            assert(bt[i] == b[i + 1] && bt[j] == b[j + 1]);
        }
        assert forall|d: DocId| at.contains(d) implies bt.contains(d) by {
            let p = choose|p: int| 0 <= p < at.len() && at[p] == d;
            assert(a[p + 1] == d);
            assert(a.contains(d));
            let q = choose|q: int| 0 <= q < b.len() && b[q] == d;
            assert(d > a[0]);
            assert(q != 0);
            assert(bt[q - 1] == d);
        }
        assert forall|d: DocId| bt.contains(d) implies at.contains(d) by {
            let p = choose|p: int| 0 <= p < bt.len() && bt[p] == d;
            assert(b[p + 1] == d);
            assert(b.contains(d));
            let q = choose|q: int| 0 <= q < a.len() && a[q] == d;
            assert(d > b[0]);
            assert(q != 0);
            assert(at[q - 1] == d);
        }
        lemma_sorted_same_members(at, bt);
        assert(a.len() == b.len());
        assert forall|i: int| 0 <= i < a.len() implies a[i] == b[i] by {
            if i > 0 {
                assert(at[i - 1] == bt[i - 1]);
            }
        }
        assert(a =~= b);
    }
}

/// The intersection of a single list is the list's member set.
pub proof fn lemma_inter_of_single(s: Seq<DocId>)
    ensures
        inter_of(seq![s]) == s.to_set(),
{
    assert(seq![s][0] == s);
    assert forall|d: DocId| s.to_set().contains(d)
        implies inter_of(seq![s]).contains(d) by {
        assert forall|j: int| 0 <= j < seq![s].len()
            implies (#[trigger] seq![s][j]).contains(d) by {
            assert(seq![s][j] == s);
        }
    }
    assert(inter_of(seq![s]) =~= s.to_set());
}

/// Intersecting a single sorted, duplicate-free list passes it through
/// unchanged: a strictly increasing enumeration of that intersection is
/// the list itself.
pub proof fn lemma_single_list_passthrough(s: Seq<DocId>, out: Seq<DocId>)
    requires
        strictly_increasing(s),
        strictly_increasing(out),
        forall|d: DocId| out.contains(d) <==> inter_of(seq![s]).contains(d),
    ensures
        out == s,
{
    lemma_inter_of_single(s);
    assert forall|d: DocId| out.contains(d) <==> s.contains(d) by {
        assert(inter_of(seq![s]).contains(d) == s.to_set().contains(d));
    }
    lemma_sorted_same_members(out, s);
}

/// If any input list is empty, the intersection is empty.
pub proof fn lemma_empty_list_empty_inter(seqs: Seq<Seq<DocId>>, j: int)
    requires
        0 <= j < seqs.len(),
        seqs[j].len() == 0,
    ensures
        inter_of(seqs).is_empty(),
{
    assert forall|d: DocId| !inter_of(seqs).contains(d) by {
        if inter_of(seqs).contains(d) {
            assert(seqs[j].contains(d));
        }
    }
    assert(inter_of(seqs) =~= Set::<DocId>::empty());
}

/// Exchange the cursors at positions 0 and `i`, with no aliasing.
fn swap_front<T: Postings>(v: &mut Vec<T>, i: usize)
    requires
        1 <= i < old(v)@.len(),
    ensures
        final(v)@ == old(v)@.update(0, old(v)@[i as int]).update(i as int, old(v)@[0]),
{
    let a = v.remove(i);
    v.insert(0, a);
    let b = v.remove(1);
    v.insert(i, b);
    proof {
        assert(final(v)@ =~= old(v)@.update(0, old(v)@[i as int]).update(i as int, old(v)@[0]));
    }
}

} // verus!

