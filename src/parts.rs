//! The partition iterator: hands out the parts of a balanced partition of a
//! slice, from the front and from the back, without copying.
use crate::layout::{lemma_part_bounds, part_count, part_start, Layout};
use vstd::prelude::*;

verus! {

/// Part `i` of the balanced partition of `s` into at most `n` parts.
pub open spec fn part_of<T>(s: Seq<T>, n: nat, i: int) -> Seq<T> {
    s.subrange(part_start(s.len(), n, i), part_start(s.len(), n, i + 1))
}

/// The balanced partition of `s` into at most `n` parts, in order.
pub open spec fn parts_of<T>(s: Seq<T>, n: nat) -> Seq<Seq<T>> {
    Seq::new(part_count(s.len(), n), |i: int| part_of(s, n, i))
}

/// Iterator over the parts of a slice. Parts come out from the front with
/// `next` and from the back with `next_back`; the two ends meet without
/// skipping or repeating a part.
pub struct Parts<'a, T> {
    rest: &'a [T],
    layout: Layout,
    big_left: usize,
    small_left: usize,
    whole: Ghost<Seq<T>>,
    n_parts: Ghost<nat>,
    front: Ghost<int>,
    back: Ghost<int>,
}

impl<'a, T> Parts<'a, T> {
    /// The slice being partitioned.
    pub closed spec fn source(&self) -> Seq<T> {
        self.whole@
    }

    /// The number of parts asked for.
    pub closed spec fn requested(&self) -> nat {
        self.n_parts@
    }

    /// Index of the next part that `next` hands out.
    pub closed spec fn front(&self) -> int {
        self.front@
    }

    /// One past the index of the next part that `next_back` hands out.
    pub closed spec fn back(&self) -> int {
        self.back@
    }

    /// All parts of the partition.
    pub open spec fn all_parts(&self) -> Seq<Seq<T>> {
        parts_of(self.source(), self.requested())
    }

    /// The parts not yet handed out, in order.
    pub open spec fn remaining(&self) -> Seq<Seq<T>> {
        self.all_parts().subrange(self.front(), self.back())
    }

    pub closed spec fn wf(&self) -> bool {
        let len = self.whole@.len();
        let n = self.n_parts@;
        let bc = self.layout.big_count as int;
        &&& n > 0
        &&& len <= usize::MAX
        &&& self.layout == Layout::planned(len, n)
        &&& self.layout.describes(len, n)
        &&& 0 <= self.front@ <= self.back@ <= part_count(len, n)
        &&& self.rest@ == self.whole@.subrange(
            part_start(len, n, self.front@),
            part_start(len, n, self.back@),
        )
        &&& self.big_left == if self.front@ < bc {
            (if self.back@ < bc {
                self.back@
            } else {
                bc
            }) - self.front@
        } else {
            0
        }
        &&& self.small_left == self.back@ - self.front@ - self.big_left
    }

    /// Starts the partition of `slice` into at most `n_parts` parts.
    pub fn new(slice: &'a [T], n_parts: usize) -> (r: Self)
        requires
            n_parts > 0,
        ensures
            r.wf(),
            r.source() == slice@,
            r.requested() == n_parts,
            r.front() == 0,
            r.back() == part_count(slice@.len(), n_parts as nat),
            r.remaining() == parts_of(slice@, n_parts as nat),
    {
        let layout = Layout::plan(slice.len(), n_parts);
        let r = Parts {
            rest: slice,
            layout,
            big_left: layout.big_count,
            small_left: layout.small_count,
            whole: Ghost(slice@),
            n_parts: Ghost(n_parts as nat),
            front: Ghost(0),
            back: Ghost(layout.parts() as int),
        };
        proof {
            let len = slice@.len();
            lemma_part_bounds(len, n_parts as nat, 0, part_count(len, n_parts as nat) as int);
            assert(r.rest@ =~= r.whole@.subrange(0, len as int));
            assert(r.remaining() =~= parts_of(slice@, n_parts as nat));
        }
        r
    }

    /// Like `new`, but gives `None` where no part is asked for.
    pub fn try_new(slice: &'a [T], n_parts: usize) -> (r: Option<Self>)
        ensures
            n_parts == 0 <==> r is None,
            r matches Some(p) ==> p.wf() && p.source() == slice@ && p.requested() == n_parts
                && p.front() == 0 && p.back() == part_count(slice@.len(), n_parts as nat)
                && p.remaining() == parts_of(slice@, n_parts as nat),
    {
        if n_parts == 0 {
            None
        } else {
            Some(Parts::new(slice, n_parts))
        }
    }

    /// Hands out the front part, if any is left.
    pub fn next(&mut self) -> (r: Option<&'a [T]>)
        requires
            old(self).wf(),
        ensures
            final(self).wf(),
            final(self).source() == old(self).source(),
            final(self).requested() == old(self).requested(),
            final(self).back() == old(self).back(),
            old(self).front() < old(self).back() ==> {
                &&& r is Some
                &&& r.unwrap()@ == part_of(old(self).source(), old(self).requested(), old(self).front())
                &&& final(self).front() == old(self).front() + 1
            },
            old(self).front() == old(self).back() ==> r is None && final(self).front() == old(self).front(),
    {
        let ghost len = self.whole@.len();
        let ghost n = self.n_parts@;
        let ghost f = self.front@;
        let size = if self.big_left > 0 {
            self.big_left = self.big_left - 1;
            self.layout.big_size
        } else if self.small_left > 0 {
            self.small_left = self.small_left - 1;
            self.layout.small_size
        } else {
            return None;
        };
        proof {
            assert(self.layout.size_of(f) == size);
            lemma_part_bounds(len, n, f + 1, self.back@);
            lemma_part_bounds(len, n, f, f + 1);
        }
        let (head, tail) = self.rest.split_at(size);
        self.rest = tail;
        self.front = Ghost(f + 1);
        proof {
            assert(head@ =~= part_of(self.whole@, n, f));
            assert(self.rest@ =~= self.whole@.subrange(
                part_start(len, n, self.front@),
                part_start(len, n, self.back@),
            ));
        }
        Some(head)
    }

    /// Hands out the back part, if any is left.
    pub fn next_back(&mut self) -> (r: Option<&'a [T]>)
        requires
            old(self).wf(),
        ensures
            final(self).wf(),
            final(self).source() == old(self).source(),
            final(self).requested() == old(self).requested(),
            final(self).front() == old(self).front(),
            old(self).front() < old(self).back() ==> {
                &&& r is Some
                &&& r.unwrap()@ == part_of(old(self).source(), old(self).requested(), old(self).back() - 1)
                &&& final(self).back() == old(self).back() - 1
            },
            old(self).front() == old(self).back() ==> r is None && final(self).back() == old(self).back(),
    {
        let ghost len = self.whole@.len();
        let ghost n = self.n_parts@;
        let ghost b = self.back@;
        let size = if self.small_left > 0 {
            self.small_left = self.small_left - 1;
            self.layout.small_size
        } else if self.big_left > 0 {
            self.big_left = self.big_left - 1;
            self.layout.big_size
        } else {
            return None;
        };
        proof {
            assert(self.layout.size_of(b - 1) == size);
            lemma_part_bounds(len, n, self.front@, b - 1);
            lemma_part_bounds(len, n, b - 1, b);
        }
        let cut = self.rest.len() - size;
        let (head, tail) = self.rest.split_at(cut);
        self.rest = head;
        self.back = Ghost(b - 1);
        proof {
            assert(tail@ =~= part_of(self.whole@, n, b - 1));
            assert(self.rest@ =~= self.whole@.subrange(
                part_start(len, n, self.front@),
                part_start(len, n, self.back@),
            ));
        }
        Some(tail)
    }

    /// The exact number of parts left.
    pub fn len(&self) -> (r: usize)
        requires
            self.wf(),
        ensures
            r == self.back() - self.front(),
    {
        self.big_left + self.small_left
    }

    /// Lower and upper bound of the number of parts left; both are exact.
    pub fn size_hint(&self) -> (r: (usize, Option<usize>))
        requires
            self.wf(),
        ensures
            r.0 == self.back() - self.front(),
            r.1 == Some(r.0),
    {
        let n = self.len();
        (n, Some(n))
    }
    /// Pulls every part left from the front, in order.
    pub fn into_vec(self) -> (r: Vec<&'a [T]>)
        requires
            self.wf(),
        ensures
            r@.len() == self.remaining().len(),
            forall|k: int| 0 <= k < r@.len() ==> (#[trigger] r@[k])@ == self.remaining()[k],
    {
        let mut it = self;
        let mut out: Vec<&'a [T]> = Vec::new();
        while it.len() > 0
            invariant
                self.wf(),
                it.wf(),
                it.source() == self.source(),
                it.requested() == self.requested(),
                it.back() == self.back(),
                it.front() == self.front() + out@.len(),
                it.front() <= it.back(),
                forall|k: int| 0 <= k < out@.len() ==> (#[trigger] out@[k])@ == self.remaining()[k],
            decreases it.back() - it.front(),
        {
            let ghost f = it.front();
            let p = it.next();
            proof {
                assert(self.back() <= self.all_parts().len());
                assert(self.remaining()[f - self.front()] == self.all_parts()[f]);
            }
            out.push(p.unwrap());
        }
        out
    }

    /// Pulls every part left from the back: the parts in reverse order.
    pub fn into_rev_vec(self) -> (r: Vec<&'a [T]>)
        requires
            self.wf(),
        ensures
            r@.len() == self.remaining().len(),
            forall|k: int| 0 <= k < r@.len() ==> (#[trigger] r@[k])@ == self.remaining().reverse()[k],
    {
        let mut it = self;
        let mut out: Vec<&'a [T]> = Vec::new();
        while it.len() > 0
            invariant
                self.wf(),
                it.wf(),
                it.source() == self.source(),
                it.requested() == self.requested(),
                it.front() == self.front(),
                it.back() == self.back() - out@.len(),
                it.front() <= it.back(),
                forall|k: int| 0 <= k < out@.len() ==> (#[trigger] out@[k])@ == self.remaining().reverse()[k],
            decreases it.back() - it.front(),
        {
            let ghost b = it.back();
            let p = it.next_back();
            proof {
                let k = out@.len() as int;
                assert(self.back() <= self.all_parts().len());
                assert(self.remaining().reverse()[k] == self.remaining()[self.remaining().len() - 1 - k]);
                assert(self.remaining().reverse()[k] == self.all_parts()[b - 1]);
            }
            out.push(p.unwrap());
        }
        out
    }
}

} // verus!
