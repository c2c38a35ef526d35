//! The balls' passes over the colliders of the field, one tick at a time.
//!
//! Once per tick the engine tests every ball against every collider and
//! hands the findings over: one row for each ball, and in each row one
//! finding for each collider, in the order of the colliders. The balls are
//! taken in their order. Each bounces off every collider that it met, one
//! after the other, so that a later bounce starts from the heading that the
//! earlier ones left. A block leaves the field with the first ball that met
//! it and scores one point, however many balls meet it in the tick.

use vstd::prelude::*;
use crate::collision::{Collision, Heading, Reflection};
use crate::scoreboard::Scoreboard;

verus! {

/// What the tick reads of one collider: whether it is a block.
#[derive(Clone, Copy, Debug, PartialEq, Eq, Structural)]
pub struct Collider {
    pub block: bool,
}

/// One collider that a ball met, and what is to be done about it. Every
/// hit sounds; `despawn` says that the collider is a block and leaves the
/// field.
#[derive(Clone, Copy, Debug, PartialEq, Eq, Structural)]
pub struct Hit {
    /// The place of the collider in the list that was handed over.
    pub collider: usize,
    /// The axes on which the ball turned round at this collider.
    pub reflection: Reflection,
    pub despawn: bool,
}

/// A ball, as far as the game's rules know it.
#[derive(Clone, Copy, Debug, PartialEq, Eq, Structural)]
pub struct Ball {
    pub heading: Heading,
}

/// The findings of a tick as rows of plain findings.
pub open spec fn rows(findings: Seq<Vec<Option<Collision>>>) -> Seq<Seq<Option<Collision>>> {
    Seq::new(findings.len(), |b: int| findings[b]@)
}

/// Whether the findings have one row for each ball and in each row one
/// finding for each collider.
pub open spec fn fits(
    balls: nat,
    colliders: nat,
    findings: Seq<Seq<Option<Collision>>>,
) -> bool {
    &&& findings.len() == balls
    &&& forall|b: int| 0 <= b < findings.len() ==> (#[trigger] findings[b]).len() == colliders
}

/// The heading of a ball that set out with `start` and has passed over the
/// colliders of `row`.
pub open spec fn heading_after(start: Heading, row: Seq<Option<Collision>>) -> Heading
    decreases row.len(),
{
    if row.len() == 0 {
        start
    } else {
        let before = heading_after(start, row.drop_last());
        match row.last() {
            Some(side) => before.bounced(side),
            None => before,
        }
    }
}

/// Whether one of the balls before ball `b` met collider `i`.
pub open spec fn met_before(findings: Seq<Seq<Option<Collision>>>, b: int, i: int) -> bool
    decreases b,
{
    if b <= 0 {
        false
    } else {
        met_before(findings, b - 1, i) || findings[b - 1][i].is_some()
    }
}

/// Whether any ball met collider `i`.
pub open spec fn met_at_all(findings: Seq<Seq<Option<Collision>>>, i: int) -> bool {
    met_before(findings, findings.len() as int, i)
}

/// Whether ball `b` destroys collider `i`: the collider is a block, the ball
/// met it, and no ball before this one did.
pub open spec fn destroys(
    colliders: Seq<Collider>,
    findings: Seq<Seq<Option<Collision>>>,
    b: int,
    i: int,
) -> bool {
    colliders[i].block && findings[b][i].is_some() && !met_before(findings, b, i)
}

/// The hits of ball `b` on the first `n` colliders, in their order, where
/// the ball set out with `start`.
pub open spec fn hits_upto(
    start: Heading,
    colliders: Seq<Collider>,
    findings: Seq<Seq<Option<Collision>>>,
    b: int,
    n: int,
) -> Seq<Hit>
    decreases n,
{
    if n <= 0 {
        Seq::empty()
    } else {
        let earlier = hits_upto(start, colliders, findings, b, n - 1);
        match findings[b][n - 1] {
            Some(side) => earlier.push(
                Hit {
                    collider: (n - 1) as usize,
                    reflection: heading_after(start, findings[b].take(n - 1)).reflection(side),
                    despawn: destroys(colliders, findings, b, n - 1),
                },
            ),
            None => earlier,
        }
    }
}

/// The hits of ball `b` in this tick, where the ball set out with `start`.
pub open spec fn hits_of(
    start: Heading,
    colliders: Seq<Collider>,
    findings: Seq<Seq<Option<Collision>>>,
    b: int,
) -> Seq<Hit> {
    hits_upto(start, colliders, findings, b, findings[b].len() as int)
}

/// How many of the first `n` colliders are blocks that some ball met.
pub open spec fn destroyed_upto(
    colliders: Seq<Collider>,
    findings: Seq<Seq<Option<Collision>>>,
    n: int,
) -> nat
    decreases n,
{
    if n <= 0 {
        0
    } else {
        destroyed_upto(colliders, findings, n - 1) + if colliders[n - 1].block && met_at_all(
            findings,
            n - 1,
        ) {
            1nat
        } else {
            0nat
        }
    }
}

/// How many blocks the tick destroys: those that some ball met, each
/// counted once.
pub open spec fn blocks_destroyed(
    colliders: Seq<Collider>,
    findings: Seq<Seq<Option<Collision>>>,
) -> nat {
    destroyed_upto(colliders, findings, colliders.len() as int)
}

/// How many of `hits` mark their collider to leave the field.
pub open spec fn despawns(hits: Seq<Hit>) -> nat
    decreases hits.len(),
{
    if hits.len() == 0 {
        0
    } else {
        despawns(hits.drop_last()) + if hits.last().despawn {
            1nat
        } else {
            0nat
        }
    }
}

/// How many colliders the first `b` balls mark to leave the field, where
/// ball `c` set out with `starts[c]`.
pub open spec fn despawns_upto(
    starts: Seq<Heading>,
    colliders: Seq<Collider>,
    findings: Seq<Seq<Option<Collision>>>,
    b: int,
) -> nat
    decreases b,
{
    if b <= 0 {
        0
    } else {
        despawns_upto(starts, colliders, findings, b - 1) + despawns(
            hits_of(starts[b - 1], colliders, findings, b - 1),
        )
    }
}

/// The heading that `start` becomes when the reflections of `hits` are
/// applied to it one after the other.
pub open spec fn heading_through(start: Heading, hits: Seq<Hit>) -> Heading
    decreases hits.len(),
{
    if hits.len() == 0 {
        start
    } else {
        heading_through(start, hits.drop_last()).reflected(hits.last().reflection)
    }
}

/// No more blocks are destroyed than there are colliders.
pub proof fn lemma_destroyed_are_few(
    colliders: Seq<Collider>,
    findings: Seq<Seq<Option<Collision>>>,
    n: int,
)
    ensures
        destroyed_upto(colliders, findings, n) <= if n <= 0 {
            0
        } else {
            n
        },
    decreases n,
{
    if n > 0 {
        lemma_destroyed_are_few(colliders, findings, n - 1);
    }
}

/// A collider was met before ball `b` exactly when one of the balls before
/// `b` has a finding for it.
pub proof fn lemma_met_before_names_a_ball(
    findings: Seq<Seq<Option<Collision>>>,
    b: int,
    i: int,
)
    ensures
        met_before(findings, b, i) <==> exists|c: int|
            0 <= c < b && (#[trigger] findings[c])[i].is_some(),
    decreases b,
{
    if b > 0 {
        lemma_met_before_names_a_ball(findings, b - 1, i);
        if met_before(findings, b - 1, i) {
            let c = choose|c: int| 0 <= c < b - 1 && (#[trigger] findings[c])[i].is_some();
            assert(0 <= c < b && findings[c][i].is_some());
        } else if findings[b - 1][i].is_some() {
            assert(0 <= b - 1 < b && findings[b - 1][i].is_some());
        } else {
            assert forall|c: int| 0 <= c < b implies !(#[trigger] findings[c])[i].is_some() by {
                if c < b - 1 {
                    assert(!(exists|c: int|
                        0 <= c < b - 1 && (#[trigger] findings[c])[i].is_some()));
                }
            }
        }
    }
}

/// What a ball met stays met for every later ball.
pub proof fn lemma_met_stays_met(findings: Seq<Seq<Option<Collision>>>, c: int, b: int, i: int)
    requires
        0 <= c < b,
        findings[c][i].is_some() || met_before(findings, c, i),
    ensures
        met_before(findings, b, i),
    decreases b,
{
    if c < b - 1 {
        lemma_met_stays_met(findings, c, b - 1, i);
    }
}

/// Every hit names a collider that the ball met, within the first `n`, and
/// marks it to leave the field exactly when this ball destroys it.
pub proof fn lemma_hits_name_met_colliders(
    start: Heading,
    colliders: Seq<Collider>,
    findings: Seq<Seq<Option<Collision>>>,
    b: int,
    n: int,
    j: int,
)
    requires
        0 <= n <= usize::MAX,
        0 <= j < hits_upto(start, colliders, findings, b, n).len(),
    ensures
        hits_upto(start, colliders, findings, b, n).len() <= n,
        0 <= hits_upto(start, colliders, findings, b, n)[j].collider < n,
        findings[b][hits_upto(start, colliders, findings, b, n)[j].collider as int].is_some(),
        hits_upto(start, colliders, findings, b, n)[j].despawn == destroys(
            colliders,
            findings,
            b,
            hits_upto(start, colliders, findings, b, n)[j].collider as int,
        ),
    decreases n,
{
    lemma_hits_are_few(start, colliders, findings, b, n);
    if n > 0 {
        let earlier = hits_upto(start, colliders, findings, b, n - 1);
        lemma_hits_are_few(start, colliders, findings, b, n - 1);
        if j < earlier.len() {
            lemma_hits_name_met_colliders(start, colliders, findings, b, n - 1, j);
        }
    }
}

/// A ball has at most one hit for each collider.
pub proof fn lemma_hits_are_few(
    start: Heading,
    colliders: Seq<Collider>,
    findings: Seq<Seq<Option<Collision>>>,
    b: int,
    n: int,
)
    ensures
        hits_upto(start, colliders, findings, b, n).len() <= if n <= 0 {
            0
        } else {
            n
        },
    decreases n,
{
    if n > 0 {
        lemma_hits_are_few(start, colliders, findings, b, n - 1);
    }
}

/// The hits of a ball come in the order of the colliders, so no ball hits a
/// collider twice in one tick.
pub proof fn lemma_hits_come_in_order(
    start: Heading,
    colliders: Seq<Collider>,
    findings: Seq<Seq<Option<Collision>>>,
    b: int,
    n: int,
    j: int,
    k: int,
)
    requires
        0 <= n <= usize::MAX,
        0 <= j < k < hits_upto(start, colliders, findings, b, n).len(),
    ensures
        hits_upto(start, colliders, findings, b, n)[j].collider < hits_upto(
            start,
            colliders,
            findings,
            b,
            n,
        )[k].collider,
    decreases n,
{
    if n > 0 {
        let earlier = hits_upto(start, colliders, findings, b, n - 1);
        if k < earlier.len() {
            lemma_hits_come_in_order(start, colliders, findings, b, n - 1, j, k);
        } else {
            lemma_hits_name_met_colliders(start, colliders, findings, b, n - 1, j);
        }
    }
}

/// Every collider that a ball met has its hit among the hits of that ball.
pub proof fn lemma_met_colliders_are_hit(
    start: Heading,
    colliders: Seq<Collider>,
    findings: Seq<Seq<Option<Collision>>>,
    b: int,
    n: int,
    i: int,
)
    requires
        0 <= i < n <= usize::MAX,
        findings[b][i].is_some(),
    ensures
        exists|j: int|
            0 <= j < hits_upto(start, colliders, findings, b, n).len() && #[trigger] hits_upto(
                start,
                colliders,
                findings,
                b,
                n,
            )[j].collider == i,
    decreases n,
{
    let earlier = hits_upto(start, colliders, findings, b, n - 1);
    let now = hits_upto(start, colliders, findings, b, n);
    if i == n - 1 {
        assert(now[now.len() - 1].collider == i);
    } else {
        lemma_met_colliders_are_hit(start, colliders, findings, b, n - 1, i);
        let j = choose|j: int| 0 <= j < earlier.len() && #[trigger] earlier[j].collider == i;
        assert(now[j].collider == i);
    }
}

/// No block is marked twice to leave the field: two hits of one tick that
/// both mark the same collider are one hit of one ball.
pub proof fn lemma_no_block_despawned_twice(
    starts: Seq<Heading>,
    colliders: Seq<Collider>,
    findings: Seq<Seq<Option<Collision>>>,
    b1: int,
    j1: int,
    b2: int,
    j2: int,
)
    requires
        fits(findings.len(), colliders.len(), findings),
        colliders.len() <= usize::MAX,
        0 <= b1 < findings.len(),
        0 <= b2 < findings.len(),
        0 <= j1 < hits_of(starts[b1], colliders, findings, b1).len(),
        0 <= j2 < hits_of(starts[b2], colliders, findings, b2).len(),
        hits_of(starts[b1], colliders, findings, b1)[j1].despawn,
        hits_of(starts[b2], colliders, findings, b2)[j2].despawn,
        hits_of(starts[b1], colliders, findings, b1)[j1].collider == hits_of(
            starts[b2],
            colliders,
            findings,
            b2,
        )[j2].collider,
    ensures
        b1 == b2,
        j1 == j2,
{
    let n = colliders.len() as int;
    lemma_hits_name_met_colliders(starts[b1], colliders, findings, b1, n, j1);
    lemma_hits_name_met_colliders(starts[b2], colliders, findings, b2, n, j2);
    let i = hits_of(starts[b1], colliders, findings, b1)[j1].collider as int;
    if b1 < b2 {
        lemma_met_stays_met(findings, b1, b2, i);
    } else if b2 < b1 {
        lemma_met_stays_met(findings, b2, b1, i);
    } else if j1 < j2 {
        lemma_hits_come_in_order(starts[b1], colliders, findings, b1, n, j1, j2);
    } else if j2 < j1 {
        lemma_hits_come_in_order(starts[b1], colliders, findings, b1, n, j2, j1);
    }
}

/// Every block that some ball met is marked to leave the field, by a hit of
/// the first ball that met it.
pub proof fn lemma_each_destroyed_block_is_despawned(
    starts: Seq<Heading>,
    colliders: Seq<Collider>,
    findings: Seq<Seq<Option<Collision>>>,
    i: int,
) -> (first: (int, int))
    requires
        fits(findings.len(), colliders.len(), findings),
        0 <= i < colliders.len() <= usize::MAX,
        colliders[i].block,
        met_at_all(findings, i),
    ensures
        0 <= first.0 < findings.len(),
        !met_before(findings, first.0, i),
        0 <= first.1 < hits_of(starts[first.0], colliders, findings, first.0).len(),
        hits_of(starts[first.0], colliders, findings, first.0)[first.1].collider == i,
        hits_of(starts[first.0], colliders, findings, first.0)[first.1].despawn,
{
    let b = lemma_first_meeting(findings, findings.len() as int, i);
    let n = colliders.len() as int;
    lemma_met_colliders_are_hit(starts[b], colliders, findings, b, n, i);
    let hits = hits_of(starts[b], colliders, findings, b);
    let j = choose|j: int| 0 <= j < hits.len() && #[trigger] hits[j].collider == i;
    lemma_hits_name_met_colliders(starts[b], colliders, findings, b, n, j);
    (b, j)
}

/// A collider that was met before ball `b` has a first ball that met it.
pub proof fn lemma_first_meeting(
    findings: Seq<Seq<Option<Collision>>>,
    b: int,
    i: int,
) -> (first: int)
    requires
        met_before(findings, b, i),
    ensures
        0 <= first < b,
        findings[first][i].is_some(),
        !met_before(findings, first, i),
    decreases b,
{
    if met_before(findings, b - 1, i) {
        lemma_first_meeting(findings, b - 1, i)
    } else {
        b - 1
    }
}

/// Among the first `n` colliders, the blocks met before ball `b` and those
/// that ball `b` destroys are together the blocks met before ball `b + 1`.
proof fn lemma_despawns_add_up(
    start: Heading,
    colliders: Seq<Collider>,
    findings: Seq<Seq<Option<Collision>>>,
    b: int,
    n: int,
)
    requires
        0 <= b < findings.len(),
    ensures
        destroyed_upto(colliders, findings.take(b + 1), n) == destroyed_upto(
            colliders,
            findings.take(b),
            n,
        ) + despawns(hits_upto(start, colliders, findings, b, n)),
    decreases n,
{
    if n > 0 {
        lemma_despawns_add_up(start, colliders, findings, b, n - 1);
        lemma_met_before_of_beginning(findings, b, b, n - 1);
        lemma_met_before_of_beginning(findings, b + 1, b + 1, n - 1);
        lemma_met_before_of_beginning(findings, b + 1, b, n - 1);
        let earlier = hits_upto(start, colliders, findings, b, n - 1);
        let now = hits_upto(start, colliders, findings, b, n);
        assert(findings.take(b + 1)[b] == findings[b]);
        if findings[b][n - 1].is_some() {
            assert(now.drop_last() =~= earlier);
        }
    }
}

/// What was met before ball `c` depends on the rows before `c` alone.
pub proof fn lemma_met_before_of_beginning(
    findings: Seq<Seq<Option<Collision>>>,
    m: int,
    c: int,
    i: int,
)
    requires
        0 <= c <= m <= findings.len(),
    ensures
        met_before(findings.take(m), c, i) == met_before(findings, c, i),
    decreases c,
{
    if c > 0 {
        lemma_met_before_of_beginning(findings, m, c - 1, i);
    }
}

/// The score rises by exactly one for each block that is marked to leave
/// the field: the hits of all balls together mark as many colliders as the
/// tick destroys blocks.
pub proof fn lemma_one_point_per_despawn(
    starts: Seq<Heading>,
    colliders: Seq<Collider>,
    findings: Seq<Seq<Option<Collision>>>,
)
    requires
        fits(findings.len(), colliders.len(), findings),
    ensures
        despawns_upto(starts, colliders, findings, findings.len() as int) == blocks_destroyed(
            colliders,
            findings,
        ),
{
    lemma_despawns_of_beginning(starts, colliders, findings, findings.len() as int);
    assert(findings.take(findings.len() as int) =~= findings);
}

/// The first `b` balls together mark as many colliders as there are blocks
/// that one of them met.
proof fn lemma_despawns_of_beginning(
    starts: Seq<Heading>,
    colliders: Seq<Collider>,
    findings: Seq<Seq<Option<Collision>>>,
    b: int,
)
    requires
        fits(findings.len(), colliders.len(), findings),
        0 <= b <= findings.len(),
    ensures
        despawns_upto(starts, colliders, findings, b) == blocks_destroyed(
            colliders,
            findings.take(b),
        ),
    decreases b,
{
    let n = colliders.len() as int;
    if b > 0 {
        lemma_despawns_of_beginning(starts, colliders, findings, b - 1);
        lemma_despawns_add_up(starts[b - 1], colliders, findings, b - 1, n);
        assert(findings.take(b - 1 + 1) =~= findings.take(b));
        assert(findings[b - 1].len() == n);
    } else {
        lemma_nothing_met_nothing_destroyed(colliders, findings.take(0), n);
    }
}

/// Where no ball has passed, no block is destroyed.
proof fn lemma_nothing_met_nothing_destroyed(
    colliders: Seq<Collider>,
    findings: Seq<Seq<Option<Collision>>>,
    n: int,
)
    requires
        findings.len() == 0,
    ensures
        destroyed_upto(colliders, findings, n) == 0,
    decreases n,
{
    if n > 0 {
        lemma_nothing_met_nothing_destroyed(colliders, findings, n - 1);
    }
}

/// The reflections that the hits of a ball report, applied in their order
/// to the heading with which the ball set out, give the heading with which
/// it leaves the tick.
pub proof fn lemma_reflections_lead_to_heading(
    start: Heading,
    colliders: Seq<Collider>,
    findings: Seq<Seq<Option<Collision>>>,
    b: int,
    n: int,
)
    requires
        0 <= n <= findings[b].len(),
    ensures
        heading_through(start, hits_upto(start, colliders, findings, b, n)) == heading_after(
            start,
            findings[b].take(n),
        ),
    decreases n,
{
    if n > 0 {
        lemma_reflections_lead_to_heading(start, colliders, findings, b, n - 1);
        let earlier = hits_upto(start, colliders, findings, b, n - 1);
        let now = hits_upto(start, colliders, findings, b, n);
        assert(findings[b].take(n).drop_last() =~= findings[b].take(n - 1));
        if findings[b][n - 1].is_some() {
            assert(now.drop_last() =~= earlier);
        }
    }
}

/// A ball that met nothing keeps its heading and has no hits.
pub proof fn lemma_no_contact_no_change(
    start: Heading,
    colliders: Seq<Collider>,
    findings: Seq<Seq<Option<Collision>>>,
    b: int,
    n: int,
)
    requires
        0 <= n <= findings[b].len(),
        forall|i: int| 0 <= i < n ==> !(#[trigger] findings[b][i]).is_some(),
    ensures
        heading_after(start, findings[b].take(n)) == start,
        hits_upto(start, colliders, findings, b, n).len() == 0,
    decreases n,
{
    if n > 0 {
        lemma_no_contact_no_change(start, colliders, findings, b, n - 1);
        assert(findings[b].take(n).drop_last() =~= findings[b].take(n - 1));
    }
}

impl Ball {
    /// A ball with the given heading.
    pub fn new(heading: Heading) -> (b: Ball)
        ensures
            b.heading == heading,
    {
        Ball { heading }
    }

    /// How many blocks the tick destroys, and so how many points it scores.
    pub fn count_destroyed(
        colliders: &Vec<Collider>,
        findings: &Vec<Vec<Option<Collision>>>,
    ) -> (n: usize)
        requires
            fits(findings@.len(), colliders@.len(), rows(findings@)),
        ensures
            n == blocks_destroyed(colliders@, rows(findings@)),
    {
        let ghost table = rows(findings@);
        let mut n: usize = 0;
        let mut i: usize = 0;
        while i < colliders.len()
            invariant
                i <= colliders.len(),
                table == rows(findings@),
                fits(findings@.len(), colliders@.len(), table),
                n == destroyed_upto(colliders@, table, i as int),
                n <= i,
            decreases colliders.len() - i,
        {
            let mut met = false;
            let mut b: usize = 0;
            while b < findings.len()
                invariant
                    b <= findings.len(),
                    i < colliders.len(),
                    table == rows(findings@),
                    fits(findings@.len(), colliders@.len(), table),
                    met == met_before(table, b as int, i as int),
                decreases findings.len() - b,
            {
                assert(table[b as int].len() == colliders@.len());
                if findings[b][i].is_some() {
                    met = true;
                }
                b = b + 1;
            }
            if colliders[i].block && met {
                n = n + 1;
            }
            i = i + 1;
        }
        n
    }

    /// Passes ball `b` over the colliders, where the ball sets out with
    /// `start`. `met` says of each collider whether a ball before this one
    /// met it, and afterwards whether this ball or one before it did.
    fn pass(
        start: Heading,
        colliders: &Vec<Collider>,
        findings: &Vec<Vec<Option<Collision>>>,
        b: usize,
        met: &mut Vec<bool>,
    ) -> (out: (Heading, Vec<Hit>))
        requires
            b < findings@.len(),
            findings@[b as int]@.len() == colliders@.len(),
            old(met)@.len() == colliders@.len(),
            forall|k: int|
                0 <= k < colliders@.len() ==> old(met)@[k] == met_before(rows(findings@), b as int, k),
        ensures
            final(met)@.len() == colliders@.len(),
            forall|k: int|
                0 <= k < colliders@.len() ==> final(met)@[k] == met_before(
                    rows(findings@),
                    b + 1,
                    k,
                ),
            out.0 == heading_after(start, findings@[b as int]@),
            out.1@ == hits_of(start, colliders@, rows(findings@), b as int),
    {
        let ghost table = rows(findings@);
        let row = &findings[b];
        let mut heading = start;
        let mut hits: Vec<Hit> = Vec::new();
        let mut i: usize = 0;
        while i < colliders.len()
            invariant
                i <= colliders.len(),
                b < findings@.len(),
                table == rows(findings@),
                table[b as int] == row@,
                row@.len() == colliders@.len(),
                met@.len() == colliders@.len(),
                forall|k: int| 0 <= k < i ==> met@[k] == met_before(table, b + 1, k),
                forall|k: int|
                    i <= k < colliders@.len() ==> met@[k] == met_before(table, b as int, k),
                heading == heading_after(start, row@.take(i as int)),
                hits@ == hits_upto(start, colliders@, table, b as int, i as int),
            decreases colliders.len() - i,
        {
            proof {
                assert(row@.take(i + 1).drop_last() =~= row@.take(i as int));
                assert(met_before(table, b + 1, i as int) == (met_before(table, b as int, i as int)
                    || table[b as int][i as int].is_some()));
            }
            match row[i] {
                Some(side) => {
                    let reflection = heading.bounce(side);
                    let despawn = colliders[i].block && !met[i];
                    hits.push(Hit { collider: i, reflection, despawn });
                    met.set(i, true);
                },
                None => {},
            }
            i = i + 1;
        }
        proof {
            assert(row@.take(i as int) =~= row@);
        }
        (heading, hits)
    }

    /// Passes the balls over the colliders of one tick, in the order of the
    /// balls. Each ball bounces off every collider that it met, in the order
    /// of the colliders. The hits come back ball by ball, one for every
    /// collider that the ball met. A block is marked to leave the field by
    /// the first ball that met it and by no other, and adds one to the
    /// score.
    ///
    /// The findings must have a row for each ball and in each row a finding
    /// for each collider, and the score must have room for the blocks that
    /// this tick destroys.
    pub fn ball_collision(
        balls: &mut Vec<Ball>,
        scoreboard: &mut Scoreboard,
        colliders: &Vec<Collider>,
        findings: &Vec<Vec<Option<Collision>>>,
    ) -> (hits: Vec<Vec<Hit>>)
        requires
            fits(old(balls)@.len(), colliders@.len(), rows(findings@)),
            old(scoreboard).score + blocks_destroyed(colliders@, rows(findings@)) <= usize::MAX,
        ensures
            final(balls)@.len() == old(balls)@.len(),
            forall|b: int|
                0 <= b < old(balls)@.len() ==> (#[trigger] final(balls)@[b]).heading
                    == heading_after(old(balls)@[b].heading, rows(findings@)[b]),
            hits@.len() == old(balls)@.len(),
            forall|b: int|
                0 <= b < old(balls)@.len() ==> (#[trigger] hits@[b])@ == hits_of(
                    old(balls)@[b].heading,
                    colliders@,
                    rows(findings@),
                    b,
                ),
            final(scoreboard).score == old(scoreboard).score + blocks_destroyed(
                colliders@,
                rows(findings@),
            ),
            final(scoreboard).score >= old(scoreboard).score,
    {
        let ghost table = rows(findings@);
        let mut met: Vec<bool> = Vec::new();
        let mut i: usize = 0;
        while i < colliders.len()
            invariant
                i <= colliders.len(),
                met@.len() == i,
                forall|k: int| 0 <= k < i ==> met@[k] == met_before(table, 0, k),
            decreases colliders.len() - i,
        {
            met.push(false);
            i = i + 1;
        }
        let mut hits: Vec<Vec<Hit>> = Vec::new();
        let mut b: usize = 0;
        while b < balls.len()
            invariant
                b <= balls@.len(),
                balls@.len() == old(balls)@.len(),
                table == rows(findings@),
                fits(balls@.len(), colliders@.len(), table),
                met@.len() == colliders@.len(),
                forall|k: int|
                    0 <= k < colliders@.len() ==> met@[k] == met_before(table, b as int, k),
                forall|c: int|
                    0 <= c < b ==> (#[trigger] balls@[c]).heading == heading_after(
                        old(balls)@[c].heading,
                        table[c],
                    ),
                forall|c: int| b <= c < balls@.len() ==> balls@[c] == old(balls)@[c],
                hits@.len() == b,
                forall|c: int|
                    0 <= c < b ==> (#[trigger] hits@[c])@ == hits_of(
                        old(balls)@[c].heading,
                        colliders@,
                        table,
                        c,
                    ),
            decreases balls.len() - b,
        {
            assert(table[b as int].len() == colliders@.len());
            let start = balls[b].heading;
            let out = Ball::pass(start, colliders, findings, b, &mut met);
            balls.set(b, Ball { heading: out.0 });
            hits.push(out.1);
            b = b + 1;
        }
        let mut gained: usize = 0;
        let mut i: usize = 0;
        while i < colliders.len()
            invariant
                i <= colliders.len(),
                met@.len() == colliders@.len(),
                b == table.len(),
                forall|k: int|
                    0 <= k < colliders@.len() ==> met@[k] == met_before(table, b as int, k),
                gained == destroyed_upto(colliders@, table, i as int),
                gained <= i,
            decreases colliders.len() - i,
        {
            if colliders[i].block && met[i] {
                gained = gained + 1;
            }
            i = i + 1;
        }
        scoreboard.score = scoreboard.score + gained;
        hits
    }
}

} // verus!
