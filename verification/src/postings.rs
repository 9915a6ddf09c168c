//! The postings capability: a forward-only cursor over a sorted,
//! duplicate-free sequence of document ids, with sequential advance and
//! skip-ahead, together with a simple in-memory implementation.
use vstd::prelude::*;

use crate::DocId;

verus! {

/// A sequence of document ids is strictly increasing: sorted and free of
/// duplicates.
pub open spec fn strictly_increasing(s: Seq<DocId>) -> bool {
    forall|i: int, j: int| 0 <= i < j < s.len() ==> s[i] < s[j]
}

/// A forward-only cursor over a sequence of document ids.
///
/// The cursor is described by two ghost quantities: `all_docs`, the whole
/// underlying sequence (never changed by cursor movement), and `pos`, the
/// number of elements consumed so far. The most recently returned value,
/// when `pos > 0`, is `all_docs()[pos - 1]`.
pub trait Postings: Sized {
    /// The full underlying document-id sequence this cursor walks over.
    spec fn all_docs(&self) -> Seq<DocId>;

    /// How many elements the cursor has consumed so far.
    spec fn pos(&self) -> int;

    /// Produce the next document id, advancing the cursor by one, or report
    /// exhaustion and stay put.
    fn next(&mut self) -> (r: Option<DocId>)
        requires
            0 <= old(self).pos() <= old(self).all_docs().len(),
        ensures
            final(self).all_docs() == old(self).all_docs(),
            old(self).pos() < old(self).all_docs().len() ==> {
                &&& r == Some(old(self).all_docs()[old(self).pos()])
                &&& final(self).pos() == old(self).pos() + 1
            },
            old(self).pos() == old(self).all_docs().len() ==> {
                &&& r is None
                &&& final(self).pos() == old(self).pos()
            },
    ;

    /// Advance the cursor past every remaining value strictly less than
    /// `target` and return the value it stops on, or report exhaustion.
    ///
    /// When the most recently returned value is already `>= target`, the
    /// call is a no-op that returns that value again: the cursor never
    /// moves backward and never re-emits an earlier value as if it were
    /// new.
    fn skip_next(&mut self, target: DocId) -> (r: Option<DocId>)
        requires
            0 <= old(self).pos() <= old(self).all_docs().len(),
        ensures
            final(self).all_docs() == old(self).all_docs(),
            old(self).pos() <= final(self).pos() <= final(self).all_docs().len(),
            (old(self).pos() > 0 && old(self).all_docs()[old(self).pos() - 1] >= target) ==> {
                &&& final(self).pos() == old(self).pos()
                &&& r == Some(old(self).all_docs()[old(self).pos() - 1])
            },
            (old(self).pos() == 0 || old(self).all_docs()[old(self).pos() - 1] < target)
                ==> match r {
                Some(v) => {
                    &&& old(self).pos() < final(self).pos()
                    &&& v == final(self).all_docs()[final(self).pos() - 1]
                    &&& v >= target
                    &&& forall|k: int|
                        old(self).pos() <= k < final(self).pos() - 1
                            ==> final(self).all_docs()[k] < target
                },
                None => {
                    &&& final(self).pos() == final(self).all_docs().len()
                    &&& forall|k: int|
                        old(self).pos() <= k < final(self).all_docs().len()
                            ==> final(self).all_docs()[k] < target
                },
            },
    ;
}

/// An in-memory posting list: a cursor walking a `Vec` of document ids.
pub struct VecPostings {
    doc_ids: Vec<DocId>,
    cursor: usize,
}

impl VecPostings {
    /// A fresh cursor over `vals`, positioned before the first element.
    pub fn new(vals: Vec<DocId>) -> (r: VecPostings)
        ensures
            r.all_docs() == vals@,
            r.pos() == 0,
    {
        VecPostings { doc_ids: vals, cursor: 0 }
    }
}

impl Postings for VecPostings {
    closed spec fn all_docs(&self) -> Seq<DocId> {
        self.doc_ids@
    }

    closed spec fn pos(&self) -> int {
        self.cursor as int
    }

    fn next(&mut self) -> (r: Option<DocId>) {
        if self.cursor >= self.doc_ids.len() {
            None
        } else {
            self.cursor = self.cursor + 1;
            Some(self.doc_ids[self.cursor - 1])
        }
    }

    fn skip_next(&mut self, target: DocId) -> (r: Option<DocId>) {
        if self.cursor > 0 && self.doc_ids[self.cursor - 1] >= target {
            return Some(self.doc_ids[self.cursor - 1]);
        }
        let ghost docs = self.doc_ids@;
        let ghost p0 = self.cursor as int;
        while self.cursor < self.doc_ids.len()
            invariant
                docs == old(self).doc_ids@,
                p0 == old(self).pos(),
                p0 == 0 || docs[p0 - 1] < target,
                self.doc_ids@ == docs,
                p0 <= self.cursor as int <= docs.len(),
                forall|k: int| p0 <= k < self.cursor as int ==> docs[k] < target,
            decreases docs.len() - self.cursor as int,
        {
            let v = self.doc_ids[self.cursor];
            self.cursor = self.cursor + 1;
            if v >= target {
                return Some(v);
            }
        }
        None
    }
}

} // verus!
