//! The partition planner: from a length and a requested number of parts to
//! the sizes and counts of the two bands of a balanced partition.
use vstd::arithmetic::div_mod::{
    lemma_basic_div, lemma_fundamental_div_mod, lemma_mod_bound, lemma_small_mod,
};
use vstd::arithmetic::mul::lemma_mul_inequality;
use vstd::prelude::*;

verus! {

/// How many parts `len` elements are cut into when at most `n` parts are asked for:
/// never an empty part, so never more parts than elements.
pub open spec fn part_count(len: nat, n: nat) -> nat {
    if len < n {
        len
    } else {
        n
    }
}

/// The offset at which part `i` starts. The first `len % n` parts are one
/// element longer than the rest (the larger band comes first).
pub open spec fn part_start(len: nat, n: nat, i: int) -> int
    recommends
        n > 0,
{
    let q = (len / n) as int;
    let r = (len % n) as int;
    i * q + if i < r {
        i
    } else {
        r
    }
}

/// The length of part `i`.
pub open spec fn part_len(len: nat, n: nat, i: int) -> int {
    part_start(len, n, i + 1) - part_start(len, n, i)
}

/// Each part is `len / n` elements long, plus one for the first `len % n` parts;
/// part `i` and the parts before it end where part `i + 1` starts.
pub proof fn lemma_part_len(len: nat, n: nat, i: int)
    requires
        n > 0,
        0 <= i,
    ensures
        part_len(len, n, i) == (len / n) as int + if i < (len % n) as int {
            1int
        } else {
            0int
        },
{
    let q = (len / n) as int;
    assert((i + 1) * q == i * q + q) by (nonlinear_arith);
}

/// Parts start in increasing order, the first at 0 and the one past the last at `len`.
pub proof fn lemma_part_bounds(len: nat, n: nat, i: int, j: int)
    requires
        n > 0,
        0 <= i <= j <= part_count(len, n),
    ensures
        part_start(len, n, 0) == 0,
        part_start(len, n, i) <= part_start(len, n, j),
        part_start(len, n, part_count(len, n) as int) == len,
        part_start(len, n, j) <= len,
{
    let q = (len / n) as int;
    let r = (len % n) as int;
    lemma_fundamental_div_mod(len as int, n as int);
    lemma_mod_bound(len as int, n as int);
    if len < n {
        lemma_basic_div(len as int, n as int);
        lemma_small_mod(len, n);
    }
    lemma_mul_inequality(i, j, q);
    lemma_mul_inequality(j, part_count(len, n) as int, q);
    assert(q >= 0);
    assert(part_start(len, n, part_count(len, n) as int) == len) by {
        if len >= n {
            assert(n as int * q == q * n as int) by (nonlinear_arith);
        }
    }
}

/// Sizes and counts of the two bands of a balanced partition. The parts of
/// the larger band come first.
#[derive(Clone, Copy, Debug, PartialEq, Eq, Structural)]
pub struct Layout {
    pub big_size: usize,
    pub big_count: usize,
    pub small_size: usize,
    pub small_count: usize,
}

impl Layout {
    /// The layout that `plan` gives. Fewer elements than parts: one element per
    /// part. Otherwise `len % n` parts of `len / n + 1` elements, then the rest
    /// of `len / n`; where the division is exact the larger band is empty and
    /// takes the size of the smaller.
    pub open spec fn planned(len: nat, n: nat) -> Layout {
        if len < n {
            Layout { big_size: 1, big_count: len as usize, small_size: 0, small_count: 0 }
        } else {
            let q = len / n;
            let r = len % n;
            Layout {
                big_size: (if r == 0 {
                    q
                } else {
                    q + 1
                }) as usize,
                big_count: r as usize,
                small_size: q as usize,
                small_count: (n - r) as usize,
            }
        }
    }

    /// Total number of parts.
    pub open spec fn parts(self) -> nat {
        (self.big_count + self.small_count) as nat
    }

    /// The size of part `i`.
    pub open spec fn size_of(self, i: int) -> int {
        if i < self.big_count {
            self.big_size as int
        } else {
            self.small_size as int
        }
    }

    /// The layout cuts `len` elements into the balanced partition of at most `n` parts.
    pub open spec fn describes(self, len: nat, n: nat) -> bool {
        &&& self.parts() == part_count(len, n)
        &&& self.big_size * self.big_count + self.small_size * self.small_count == len
        &&& forall|i: int| 0 <= i < self.parts() ==> #[trigger] self.size_of(i) == part_len(len, n, i)
        &&& forall|i: int| 0 <= i < self.parts() ==> #[trigger] self.size_of(i) > 0
        &&& (self.big_count > 0 && self.small_count > 0) ==> self.big_size == self.small_size + 1
    }

    /// Plans the balanced partition of `len` elements into at most `n_parts` parts.
    pub fn plan(len: usize, n_parts: usize) -> (r: Layout)
        requires
            n_parts > 0,
        ensures
            r == Layout::planned(len as nat, n_parts as nat),
            r.describes(len as nat, n_parts as nat),
    {
        proof {
            Layout::lemma_planned(len as nat, n_parts as nat);
        }
        if len < n_parts {
            Layout { big_size: 1, big_count: len, small_size: 0, small_count: 0 }
        } else {
            let q = len / n_parts;
            let r = len % n_parts;
            let big_size = if r == 0 {
                q
            } else {
                proof {
                    lemma_fundamental_div_mod(len as int, n_parts as int);
                    assert(n_parts as int * q as int >= q as int) by (nonlinear_arith)
                        requires
                            n_parts >= 1,
                            q >= 0,
                    ;
                }
                q + 1
            };
            Layout { big_size, big_count: r, small_size: q, small_count: n_parts - r }
        }
    }

    /// The planned layout describes the balanced partition.
    pub proof fn lemma_planned(len: nat, n: nat)
        requires
            n > 0,
            len <= usize::MAX,
            n <= usize::MAX,
        ensures
            Layout::planned(len, n).describes(len, n),
    {
        let l = Layout::planned(len, n);
        let q = (len / n) as int;
        let r = (len % n) as int;
        lemma_fundamental_div_mod(len as int, n as int);
        lemma_mod_bound(len as int, n as int);
        assert(q >= 0) by {
            vstd::arithmetic::div_mod::lemma_div_pos_is_pos(len as int, n as int);
        }
        if len < n {
            lemma_basic_div(len as int, n as int);
            lemma_small_mod(len, n);
        } else {
            assert(q >= 1) by {
                vstd::arithmetic::div_mod::lemma_div_is_ordered(n as int, len as int, n as int);
                vstd::arithmetic::div_mod::lemma_div_basics(n as int);
            }
            assert(q * n as int >= q) by (nonlinear_arith)
                requires
                    n >= 1,
                    q >= 0,
            ;
            assert(n as int * q == q * n as int) by (nonlinear_arith);
            assert(q <= len);
            assert(r > 0 ==> q + 1 <= len);
            assert(l.small_size == q);
            assert(l.small_count == n - r);
            assert(l.big_count == r);
            assert(r > 0 ==> l.big_size == q + 1);
            assert(l.big_size * l.big_count + l.small_size * l.small_count == len) by {
                if r == 0 {
                    assert(l.big_size * l.big_count == 0) by (nonlinear_arith)
                        requires
                            l.big_count == 0,
                    ;
                    assert(l.small_size * l.small_count == q * n) by (nonlinear_arith)
                        requires
                            l.small_size == q,
                            l.small_count == n,
                    ;
                } else {
                    assert(l.big_size * l.big_count + l.small_size * l.small_count == (q + 1) * r
                        + q * (n - r)) by (nonlinear_arith)
                        requires
                            l.big_size == q + 1,
                            l.big_count == r,
                            l.small_size == q,
                            l.small_count == n - r,
                    ;
                    assert((q + 1) * r + q * (n - r) == q * n + r) by (nonlinear_arith);
                }
            }
        }
        assert forall|i: int| 0 <= i < l.parts() implies #[trigger] l.size_of(i) == part_len(len, n, i)
            && l.size_of(i) > 0 by {
            lemma_part_len(len, n, i);
        }
    }
}

} // verus!
