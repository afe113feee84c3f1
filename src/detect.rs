//! Contact detection: which collider pair of two bodies is found first, and in
//! which order a body meets the others it touches.
use vstd::arithmetic::div_mod::{lemma_mod_add_multiples_vanish, lemma_small_mod};
use vstd::prelude::*;

verus! {

/// The rows of a boolean grid, as sequences.
pub open spec fn rows(grid: &Vec<Vec<bool>>) -> Seq<Seq<bool>> {
    grid@.map_values(|row: Vec<bool>| row@)
}

/// Cell `(a, b)` exists in `hits` and comes strictly before `(c1, c2)` in
/// row-major order.
pub open spec fn precedes(hits: Seq<Seq<bool>>, a: int, b: int, c1: int, c2: int) -> bool {
    &&& 0 <= a < hits.len()
    &&& 0 <= b < hits[a].len()
    &&& (a < c1 || (a == c1 && b < c2))
}

/// `(c1, c2)` is an overlapping collider pair and no pair before it in
/// row-major order overlaps.
pub open spec fn is_first_hit(hits: Seq<Seq<bool>>, c1: int, c2: int) -> bool {
    &&& 0 <= c1 < hits.len()
    &&& 0 <= c2 < hits[c1].len()
    &&& hits[c1][c2]
    &&& forall|a: int, b: int| precedes(hits, a, b, c1, c2) ==> !hits[a][b]
}

/// Some collider pair overlaps.
pub open spec fn any_hit(hits: Seq<Seq<bool>>) -> bool {
    exists|a: int, b: int| 0 <= a < hits.len() && 0 <= b < hits[a].len() && hits[a][b]
}

/// Finds the first overlapping collider pair of two bodies.
///
/// `hits[c1][c2]` tells whether collider `c1` of the "self" body overlaps
/// collider `c2` of the "other" body. The search walks the self body's
/// colliders in order and, for each, the other body's colliders in order; the
/// first overlap found ends it, so at most one contact is reported per ordered
/// pair of bodies.
pub fn first_overlap(hits: &Vec<Vec<bool>>) -> (r: Option<(usize, usize)>)
    ensures
        match r {
            Some((c1, c2)) => is_first_hit(rows(hits), c1 as int, c2 as int),
            None => !any_hit(rows(hits)),
        },
{
    let ghost g = rows(hits);
    let mut a: usize = 0;
    while a < hits.len()
        invariant
            g == rows(hits),
            0 <= a <= hits@.len(),
            forall|x: int, y: int| 0 <= x < a && 0 <= y < g[x].len() ==> !g[x][y],
        decreases hits@.len() - a,
    {
        let row = &hits[a];
        let mut b: usize = 0;
        while b < row.len()
            invariant
                g == rows(hits),
                0 <= a < hits@.len(),
                row@ == g[a as int],
                0 <= b <= row@.len(),
                forall|x: int, y: int| 0 <= x < a && 0 <= y < g[x].len() ==> !g[x][y],
                forall|y: int| 0 <= y < b ==> !g[a as int][y],
            decreases row@.len() - b,
        {
            if row[b] {
                assert forall|x: int, y: int| precedes(g, x, y, a as int, b as int) implies !g[x][y] by {}
                return Some((a, b));
            }
            b = b + 1;
        }
        a = a + 1;
    }
    None
}

/// The `k`-th body that body `i` meets in a step over `n` bodies: first the
/// bodies after it, in order, then those before it.
pub open spec fn partner(n: int, i: int, k: int) -> int {
    (i + 1 + k) % n
}

/// Body `i` meets the bodies after it before it wraps round to those before it.
proof fn lemma_partner(n: int, i: int, k: int)
    requires
        0 <= i < n,
        0 <= k < n,
    ensures
        partner(n, i, k) == if i + 1 + k < n { i + 1 + k } else { i + 1 + k - n },
{
    let x = i + 1 + k;
    if x < n {
        lemma_small_mod(x as nat, n as nat);
    } else {
        lemma_mod_add_multiples_vanish(x - n, n);
        lemma_small_mod((x - n) as nat, n as nat);
    }
}

/// The order in which body `i` meets the other `n - 1` bodies.
pub open spec fn scan_order(n: int, i: int) -> Seq<int> {
    Seq::new((n - 1) as nat, |k: int| partner(n, i, k))
}

/// The bodies that body `i` touches, in the order it meets them. `row[j]` tells
/// whether body `i` touches body `j`; `row[i]` is never consulted.
pub open spec fn contacts_of(row: Seq<bool>, i: int) -> Seq<int> {
    scan_order(row.len() as int, i).filter(|j: int| row[j])
}

/// Every body listed as a contact of body `i` is another body that `i` touches,
/// and every other body that `i` touches is listed.
pub proof fn lemma_contacts_members(row: Seq<bool>, i: int)
    requires
        0 <= i < row.len(),
    ensures
        forall|x: int|
            0 <= x < contacts_of(row, i).len() ==> {
                let j = #[trigger] contacts_of(row, i)[x];
                0 <= j < row.len() && j != i && row[j]
            },
        forall|j: int| 0 <= j < row.len() && j != i && row[j] ==> contacts_of(row, i).contains(j),
{
    let n = row.len() as int;
    let order = scan_order(n, i);
    let pred = |j: int| row[j];
    let c = contacts_of(row, i);
    assert forall|x: int| 0 <= x < c.len() implies {
        let j = #[trigger] c[x];
        0 <= j < n && j != i && row[j]
    } by {
        order.lemma_filter_pred(pred, x);
        assert(c.contains(c[x]));
        order.lemma_filter_contains_rev(pred, c[x]);
        let k = choose|k: int| 0 <= k < order.len() && order[k] == c[x];
        lemma_partner(n, i, k);
    }
    assert forall|j: int| 0 <= j < n && j != i && row[j] implies c.contains(j) by {
        let k = if j > i { j - i - 1 } else { j + n - i - 1 };
        lemma_partner(n, i, k);
        assert(order[k] == j);
        order.lemma_filter_contains(pred, k);
    }
}

/// A body that touches no other body has no contacts.
pub proof fn lemma_no_contacts(row: Seq<bool>, i: int)
    requires
        0 <= i < row.len(),
        forall|j: int| 0 <= j < row.len() && j != i ==> !row[j],
    ensures
        contacts_of(row, i).len() == 0,
{
    lemma_contacts_members(row, i);
    if contacts_of(row, i).len() > 0 {
        assert(row[contacts_of(row, i)[0]]);
    }
}

/// A body has fewer contacts than there are bodies.
pub proof fn lemma_contacts_len(row: Seq<bool>, i: int)
    requires
        0 <= i < row.len(),
    ensures
        contacts_of(row, i).len() < row.len(),
{
    scan_order(row.len() as int, i).lemma_filter_len(|j: int| row[j]);
}

/// Lists the bodies that body `i` touches, in the order it meets them.
pub fn contacts(row: &Vec<bool>, i: usize) -> (r: Vec<usize>)
    requires
        i < row@.len(),
    ensures
        r@.map_values(|j: usize| j as int) == contacts_of(row@, i as int),
{
    let n = row.len();
    let ghost order = scan_order(n as int, i as int);
    let ghost pred = |j: int| row@[j];
    let mut r: Vec<usize> = Vec::new();
    let mut k: usize = 0;
    let mut j: usize = i + 1;
    if j == n {
        j = 0;
    }
    proof {
        lemma_partner(n as int, i as int, 0);
    }
    while k + 1 < n
        invariant
            n == row@.len(),
            i < n,
            order == scan_order(n as int, i as int),
            pred == (|j: int| row@[j]),
            0 <= k < n,
            j < n,
            j as int == partner(n as int, i as int, k as int),
            r@.map_values(|j: usize| j as int) == order.take(k as int).filter(pred),
        decreases n - k,
    {
        proof {
            assert(order.take(k + 1).drop_last() =~= order.take(k as int));
            reveal(Seq::filter);
        }
        if row[j] {
            r.push(j);
        }
        assert(r@.map_values(|j: usize| j as int) =~= order.take(k + 1).filter(pred));
        proof {
            lemma_partner(n as int, i as int, k as int);
            if k + 1 < n {
                lemma_partner(n as int, i as int, k + 1);
            }
        }
        k = k + 1;
        j = j + 1;
        if j == n {
            j = 0;
        }
    }
    assert(order.take(k as int) =~= order);
    r
}

} // verus!
