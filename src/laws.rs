//! What holds of every balanced partition, and of every order in which its
//! parts are pulled from the two ends.
use crate::layout::{lemma_part_bounds, lemma_part_len, part_count, part_len, part_start};
use crate::parts::{part_of, parts_of};
use vstd::arithmetic::div_mod::{lemma_basic_div, lemma_mod_bound, lemma_small_mod};
use vstd::prelude::*;
use vstd::set_lib::{lemma_int_range, set_int_range};

verus! {

/// Sum of the lengths of a sequence of sub-views.
pub open spec fn total_len<T>(ps: Seq<Seq<T>>) -> nat
    decreases ps.len(),
{
    if ps.len() == 0 {
        0
    } else {
        total_len(ps.drop_last()) + ps.last().len()
    }
}

/// Indices of the parts handed out when pulls are made in the order `dirs`
/// (`true` from the front, `false` from the back) while parts `front` up to,
/// not including, `back` are left.
pub open spec fn pulled(front: int, back: int, dirs: Seq<bool>) -> Seq<int>
    decreases dirs.len(),
{
    if dirs.len() == 0 || front >= back {
        Seq::empty()
    } else if dirs[0] {
        seq![front] + pulled(front + 1, back, dirs.drop_first())
    } else {
        seq![back - 1] + pulled(front, back - 1, dirs.drop_first())
    }
}

/// The sub-views handed out by pulls in the order `dirs` from a fresh
/// partition of `s` into at most `n` parts.
pub open spec fn pulled_parts<T>(s: Seq<T>, n: nat, dirs: Seq<bool>) -> Seq<Seq<T>> {
    pulled(0, part_count(s.len(), n) as int, dirs).map_values(|i: int| parts_of(s, n)[i])
}

proof fn lemma_part_len_bounds(len: nat, n: nat, i: int)
    requires
        n > 0,
        0 <= i < part_count(len, n),
    ensures
        part_len(len, n, i) >= 1,
        len >= n ==> part_len(len, n, i) == (len / n) as int + if i < (len % n) as int {
            1int
        } else {
            0int
        },
        len >= n ==> (len / n) as int >= 1,
        len < n ==> part_len(len, n, i) == 1,
{
    lemma_part_len(len, n, i);
    lemma_mod_bound(len as int, n as int);
    if len < n {
        lemma_basic_div(len as int, n as int);
        lemma_small_mod(len, n);
    } else {
        vstd::arithmetic::div_mod::lemma_div_is_ordered(n as int, len as int, n as int);
        vstd::arithmetic::div_mod::lemma_div_basics(n as int);
    }
}

proof fn lemma_part_view_len<T>(s: Seq<T>, n: nat, i: int)
    requires
        n > 0,
        0 <= i < part_count(s.len(), n),
    ensures
        parts_of(s, n)[i].len() == part_len(s.len(), n, i),
        parts_of(s, n)[i] == part_of(s, n, i),
{
    lemma_part_bounds(s.len(), n, i, i + 1);
    lemma_part_bounds(s.len(), n, i + 1, part_count(s.len(), n) as int);
}

proof fn lemma_prefix_total<T>(s: Seq<T>, n: nat, k: int)
    requires
        n > 0,
        0 <= k <= part_count(s.len(), n),
    ensures
        total_len(parts_of(s, n).subrange(0, k)) == part_start(s.len(), n, k),
    decreases k,
{
    lemma_part_bounds(s.len(), n, 0, k);
    if k > 0 {
        lemma_prefix_total(s, n, k - 1);
        assert(parts_of(s, n).subrange(0, k).drop_last() =~= parts_of(s, n).subrange(0, k - 1));
        lemma_part_view_len(s, n, k - 1);
    }
}

/// The lengths of the parts add up to the length of the whole.
pub proof fn lemma_lengths_cover<T>(s: Seq<T>, n: nat)
    requires
        n > 0,
    ensures
        total_len(parts_of(s, n)) == s.len(),
{
    let c = part_count(s.len(), n) as int;
    lemma_prefix_total(s, n, c);
    lemma_part_bounds(s.len(), n, c, c);
    assert(parts_of(s, n).subrange(0, c) =~= parts_of(s, n));
}

/// There are as many parts as asked for, but never more than elements, and
/// none of them is empty; an empty slice has no part at all.
pub proof fn lemma_count_and_no_empty<T>(s: Seq<T>, n: nat)
    requires
        n > 0,
    ensures
        s.len() == 0 ==> parts_of(s, n).len() == 0,
        s.len() > 0 ==> parts_of(s, n).len() == if n < s.len() {
            n
        } else {
            s.len()
        },
        forall|i: int| 0 <= i < parts_of(s, n).len() ==> #[trigger] parts_of(s, n)[i].len() > 0,
{
    assert forall|i: int| 0 <= i < parts_of(s, n).len() implies #[trigger] parts_of(s, n)[i].len()
        > 0 by {
        lemma_part_view_len(s, n, i);
        lemma_part_len_bounds(s.len(), n, i);
    }
}

/// Any two parts differ in length by at most one: there are at most two
/// lengths, one element apart.
pub proof fn lemma_lengths_balanced<T>(s: Seq<T>, n: nat)
    requires
        n > 0,
    ensures
        forall|i: int, j: int|
            0 <= i < parts_of(s, n).len() && 0 <= j < parts_of(s, n).len() ==> #[trigger] parts_of(
                s,
                n,
            )[i].len() <= #[trigger] parts_of(s, n)[j].len() + 1,
{
    assert forall|i: int, j: int|
        0 <= i < parts_of(s, n).len() && 0 <= j < parts_of(s, n).len() implies #[trigger] parts_of(
        s,
        n,
    )[i].len() <= #[trigger] parts_of(s, n)[j].len() + 1 by {
        lemma_part_view_len(s, n, i);
        lemma_part_view_len(s, n, j);
        lemma_part_len_bounds(s.len(), n, i);
        lemma_part_len_bounds(s.len(), n, j);
    }
}

/// With at least as many elements as parts asked for, exactly `len % n`
/// parts have the longer length `len / n + 1`, and they come first.
pub proof fn lemma_longer_count<T>(s: Seq<T>, n: nat)
    requires
        n > 0,
        n <= s.len(),
    ensures
        forall|i: int|
            0 <= i < parts_of(s, n).len() ==> (#[trigger] parts_of(s, n)[i].len() == s.len() / n + 1
                <==> i < s.len() % n),
        Set::new(|i: int| 0 <= i < parts_of(s, n).len() && parts_of(s, n)[i].len() == s.len() / n + 1).len()
            == s.len() % n,
{
    let longer = Set::new(
        |i: int| 0 <= i < parts_of(s, n).len() && parts_of(s, n)[i].len() == s.len() / n + 1,
    );
    lemma_mod_bound(s.len() as int, n as int);
    assert forall|i: int| 0 <= i < parts_of(s, n).len() implies (#[trigger] parts_of(s, n)[i].len()
        == s.len() / n + 1 <==> i < s.len() % n) by {
        lemma_part_view_len(s, n, i);
        lemma_part_len_bounds(s.len(), n, i);
    }
    assert(longer =~= set_int_range(0, (s.len() % n) as int));
    lemma_int_range(0, (s.len() % n) as int);
}

/// Distinct parts never overlap: each part ends at or before the start of
/// every later part, and the parts lie within the whole.
pub proof fn lemma_parts_disjoint(len: nat, n: nat, i: int, j: int)
    requires
        n > 0,
        0 <= i < j < part_count(len, n),
    ensures
        0 <= part_start(len, n, i) < part_start(len, n, i + 1) <= part_start(len, n, j)
            < part_start(len, n, j + 1) <= len,
{
    lemma_part_bounds(len, n, 0, i);
    lemma_part_bounds(len, n, i + 1, j);
    lemma_part_bounds(len, n, j + 1, part_count(len, n) as int);
    lemma_part_len_bounds(len, n, i);
    lemma_part_len_bounds(len, n, j);
}

proof fn lemma_pulled_one_way(front: int, back: int, dirs: Seq<bool>, forward: bool)
    requires
        front <= back,
        dirs.len() >= back - front,
        forall|k: int| 0 <= k < dirs.len() ==> dirs[k] == forward,
    ensures
        forward ==> pulled(front, back, dirs) =~= Seq::new((back - front) as nat, |k: int| front + k),
        !forward ==> pulled(front, back, dirs) =~= Seq::new(
            (back - front) as nat,
            |k: int| back - 1 - k,
        ),
    decreases dirs.len(),
{
    if dirs.len() > 0 && front < back {
        if forward {
            lemma_pulled_one_way(front + 1, back, dirs.drop_first(), forward);
        } else {
            lemma_pulled_one_way(front, back - 1, dirs.drop_first(), forward);
        }
    }
}

/// Pulling every part from the front gives the partition in order; pulling
/// every part from the back gives exactly the same parts in reverse order.
pub proof fn lemma_reverse_traversal<T>(s: Seq<T>, n: nat)
    requires
        n > 0,
    ensures
        pulled_parts(s, n, Seq::new(part_count(s.len(), n), |k: int| true)) == parts_of(s, n),
        pulled_parts(s, n, Seq::new(part_count(s.len(), n), |k: int| false)) == parts_of(
            s,
            n,
        ).reverse(),
{
    let c = part_count(s.len(), n);
    lemma_pulled_one_way(0, c as int, Seq::new(c, |k: int| true), true);
    lemma_pulled_one_way(0, c as int, Seq::new(c, |k: int| false), false);
    assert(pulled_parts(s, n, Seq::new(c, |k: int| true)) =~= parts_of(s, n));
    assert(pulled_parts(s, n, Seq::new(c, |k: int| false)) =~= parts_of(s, n).reverse());
}

proof fn lemma_pulled_permutes(front: int, back: int, dirs: Seq<bool>)
    requires
        front <= back,
        dirs.len() >= back - front,
    ensures
        pulled(front, back, dirs).len() == back - front,
        pulled(front, back, dirs).no_duplicates(),
        forall|k: int|
            0 <= k < pulled(front, back, dirs).len() ==> front <= #[trigger] pulled(
                front,
                back,
                dirs,
            )[k] < back,
        forall|i: int| front <= i < back ==> pulled(front, back, dirs).contains(i),
    decreases dirs.len(),
{
    let p = pulled(front, back, dirs);
    if dirs.len() > 0 && front < back {
        let (f2, b2, head) = if dirs[0] {
            (front + 1, back, front)
        } else {
            (front, back - 1, back - 1)
        };
        lemma_pulled_permutes(f2, b2, dirs.drop_first());
        let rest = pulled(f2, b2, dirs.drop_first());
        assert(p == seq![head] + rest);
        assert forall|k: int| 0 <= k < p.len() implies front <= #[trigger] p[k] < back by {
            if k > 0 {
                assert(p[k] == rest[k - 1]);
            }
        }
        assert forall|i: int| front <= i < back implies p.contains(i) by {
            if i != head {
                assert(f2 <= i < b2);
                assert(rest.contains(i));
                let k = choose|k: int| 0 <= k < rest.len() && rest[k] == i;
                assert(p[k + 1] == i);
            } else {
                assert(p[0] == i);
            }
        }
        assert forall|a: int, b: int| 0 <= a < p.len() && 0 <= b < p.len() && a != b implies p[a]
            != p[b] by {
            if a > 0 {
                assert(p[a] == rest[a - 1]);
            }
            if b > 0 {
                assert(p[b] == rest[b - 1]);
            }
        }
    }
}

/// However pulls from the front and from the back are interleaved, once as
/// many pulls as parts have been made every part has been handed out exactly
/// once, so that together they are the partition that pulling from the front
/// alone gives; and distinct parts cover disjoint ranges of the whole.
pub proof fn lemma_interleaved_pulls<T>(s: Seq<T>, n: nat, dirs: Seq<bool>)
    requires
        n > 0,
        dirs.len() >= part_count(s.len(), n),
    ensures
        pulled(0, part_count(s.len(), n) as int, dirs).len() == parts_of(s, n).len(),
        pulled(0, part_count(s.len(), n) as int, dirs).no_duplicates(),
        pulled(0, part_count(s.len(), n) as int, dirs).to_set() == set_int_range(
            0,
            part_count(s.len(), n) as int,
        ),
        forall|i: int, j: int|
            0 <= i < j < parts_of(s, n).len() ==> #[trigger] part_start(s.len(), n, i + 1)
                <= #[trigger] part_start(s.len(), n, j),
{
    let c = part_count(s.len(), n) as int;
    let p = pulled(0, c, dirs);
    lemma_pulled_permutes(0, c, dirs);
    assert(p.to_set() =~= set_int_range(0, c)) by {
        assert forall|i: int| p.to_set().contains(i) implies set_int_range(0, c).contains(i) by {
            let k = choose|k: int| 0 <= k < p.len() && p[k] == i;
        }
    }
    assert forall|i: int, j: int| 0 <= i < j < parts_of(s, n).len() implies #[trigger] part_start(
        s.len(),
        n,
        i + 1,
    ) <= #[trigger] part_start(s.len(), n, j) by {
        lemma_parts_disjoint(s.len(), n, i, j);
    }
}

} // verus!
