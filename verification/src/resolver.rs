//! The order-resolution engine.
//!
//! For a new order the engine indexes the flat recipe by destination piece,
//! walks the cheapest producing edge backward from the ordered piece until
//! it reaches raw material, and numbers one full chain of steps per ordered
//! unit into a BOM batch. The caller owns the store and the transport: it
//! fetches the order and the recipe, inserts the batch atomically, and
//! announces it; every decision in between is made here and is verified.

use vstd::prelude::*;
use vstd::arithmetic::div_mod::lemma_fundamental_div_mod_converse;
use vstd::multiset::Multiset;
use crate::bom::Bom;
use crate::bom::Recipe;
use crate::bom::Transformation;
use crate::digits::parse_i64;
use crate::digits::parse_i64_spec;
use crate::payload::parse_id_list;
use crate::payload::parse_id_list_spec;
use crate::NotificationChannel;

pub mod config;
pub mod time;

verus! {

/// A recipe indexed by destination piece: one group per distinct
/// `to_piece`, holding the transformations that produce that piece in
/// recipe order. A piece with no group is raw material (or unknown data —
/// the store cannot tell the two apart).
pub struct RecipeIndex {
    groups: Vec<(i64, Vec<Transformation>)>,
}

impl RecipeIndex {
    /// The destination piece of the group at position `k`.
    pub closed spec fn key_at(&self, k: int) -> int {
        self.groups@[k].0 as int
    }

    /// The transformations of the group at position `k`.
    pub closed spec fn group_at(&self, k: int) -> Seq<Transformation> {
        self.groups@[k].1@
    }

    /// How many distinct destination pieces the index knows.
    pub closed spec fn key_count(&self) -> nat {
        self.groups@.len()
    }

    /// Each destination appears in one group only, and no group is empty.
    pub open spec fn wf(&self) -> bool {
        &&& forall|k1: int, k2: int|
            0 <= k1 < k2 < self.key_count() ==> self.key_at(k1) != self.key_at(k2)
        &&& forall|k: int| 0 <= k < self.key_count() ==> self.group_at(k).len() > 0
    }

    /// Whether some transformation produces `p`.
    pub open spec fn contains_key(&self, p: int) -> bool {
        exists|k: int| 0 <= k < self.key_count() && self.key_at(k) == p
    }

    /// The group of transformations producing `p`.
    pub open spec fn group_of(&self, p: int) -> Seq<Transformation> {
        self.group_at(choose|k: int| 0 <= k < self.key_count() && self.key_at(k) == p)
    }

    /// The index as a mapping from destination piece to its group.
    pub open spec fn as_map(&self) -> Map<int, Seq<Transformation>> {
        Map::new(|p: int| self.contains_key(p), |p: int| self.group_of(p))
    }

    /// The position of the group for `piece`, if the index has one.
    fn find_key(&self, piece: i64) -> (r: Option<usize>)
        ensures
            match r {
                Some(k) => k < self.key_count() && self.key_at(k as int) == piece as int,
                None => !self.contains_key(piece as int),
            },
    {
        let mut k: usize = 0;
        while k < self.groups.len()
            invariant
                k <= self.key_count(),
                forall|j: int| 0 <= j < k ==> self.key_at(j) != piece as int,
            decreases self.key_count() - k,
        {
            if self.groups[k].0 == piece {
                return Some(k);
            }
            k = k + 1;
        }
        None
    }

    /// The transformations that produce `piece`, if any do.
    pub fn get(&self, piece: i64) -> (r: Option<&Vec<Transformation>>)
        requires
            self.wf(),
        ensures
            match r {
                Some(g) => self.contains_key(piece as int) && g@ == self.group_of(piece as int),
                None => !self.contains_key(piece as int),
            },
    {
        match self.find_key(piece) {
            Some(k) => {
                proof {
                    let w = choose|j: int|
                        0 <= j < self.key_count() && self.key_at(j) == piece as int;
                    assert(w == k);
                }
                Some(&self.groups[k].1)
            },
            None => None,
        }
    }

    /// How many distinct destination pieces the index knows.
    pub fn len(&self) -> (r: usize)
        ensures
            r == self.key_count(),
    {
        self.groups.len()
    }
}

/// What indexing a recipe yields: every transformation grouped under its
/// destination piece, groups in recipe order.
pub open spec fn spec_index(recipe: Seq<Transformation>) -> Map<int, Seq<Transformation>> {
    Map::new(
        |p: int| exists|j: int| 0 <= j < recipe.len() && recipe[j].to_piece as int == p,
        |p: int| recipe.filter(|t: Transformation| t.to_piece as int == p),
    )
}

/// The set of destination pieces of a recipe.
pub open spec fn destinations(recipe: Seq<Transformation>) -> Set<int> {
    recipe.map_values(|t: Transformation| t.to_piece as int).to_set()
}

/// No transformation of `s` produces `p`, so the group of `p` is empty.
proof fn lemma_filter_empty_when_no_match(s: Seq<Transformation>, p: int)
    requires
        forall|j: int| 0 <= j < s.len() ==> (#[trigger] s[j]).to_piece as int != p,
    ensures
        s.filter(|t: Transformation| t.to_piece as int == p) =~= Seq::<Transformation>::empty(),
    decreases s.len(),
{
    reveal(Seq::filter);
    if s.len() > 0 {
        lemma_filter_empty_when_no_match(s.drop_last(), p);
    }
}

/// Explodes a flat recipe into its per-destination groups.
///
/// Every transformation lands in the group of its `to_piece`, in recipe
/// order, with nothing lost and nothing duplicated; the index has exactly
/// one group per distinct destination.
pub fn map_flat_recipe(recipe: Recipe) -> (r: RecipeIndex)
    ensures
        r.wf(),
        r.as_map() == spec_index(recipe@),
        r.key_count() == destinations(recipe@).len(),
        r.key_count() <= recipe@.len(),
{
    broadcast use vstd::seq_lib::seq_to_set_is_finite;
    broadcast use vstd::set::axiom_set_insert_len;

    let ghost rec = recipe@;
    let mut idx = RecipeIndex { groups: Vec::new() };
    let n = recipe.len();
    let mut i: usize = 0;
    proof {
        assert(rec.take(0) =~= Seq::<Transformation>::empty());
        assert(destinations(rec.take(0)) =~= Set::<int>::empty());
    }
    while i < n
        invariant
            i <= n,
            n == rec.len(),
            recipe@ == rec,
            idx.wf(),
            idx.key_count() <= i,
            idx.key_count() == destinations(rec.take(i as int)).len(),
            destinations(rec.take(i as int)).finite(),
            forall|k: int|
                0 <= k < idx.key_count() ==> idx.group_at(k) == rec.take(i as int).filter(
                    |t: Transformation| t.to_piece as int == idx.key_at(k),
                ),
            forall|p: int|
                idx.contains_key(p) <==> exists|j: int|
                    0 <= j < i && (#[trigger] rec[j]).to_piece as int == p,
        decreases n - i,
    {
        let t = recipe[i];
        let ghost prefix = rec.take(i as int);
        let ghost longer = rec.take(i + 1);
        proof {
            assert(longer.drop_last() =~= prefix);
            assert(longer.last() == t);
            assert(destinations(longer) =~= destinations(prefix).insert(t.to_piece as int)) by {
                let pm = prefix.map_values(|x: Transformation| x.to_piece as int);
                assert(longer.map_values(|x: Transformation| x.to_piece as int) =~= pm + seq![
                    t.to_piece as int,
                ]);
                Seq::<int>::lemma_to_set_insert_commutes(pm, t.to_piece as int);
            }
            reveal(Seq::filter);
        }
        match idx.find_key(t.to_piece) {
            Some(k) => {
                let ghost old_idx = idx;
                idx.groups[k].1.push(t);
                proof {
                    assert(idx.groups@.len() == old_idx.groups@.len());
                    assert(forall|j: int|
                        0 <= j < idx.key_count() && j != k ==> idx.groups@[j]
                            == old_idx.groups@[j]);
                    assert(idx.groups@[k as int].0 == old_idx.groups@[k as int].0);
                    assert(idx.groups@[k as int].1@ == old_idx.groups@[k as int].1@.push(t));
                    assert(forall|j: int|
                        0 <= j < idx.key_count() ==> idx.key_at(j) == old_idx.key_at(j));
                    assert(idx.group_at(k as int) == old_idx.group_at(k as int).push(t));
                    assert(forall|j: int|
                        0 <= j < idx.key_count() && j != k ==> idx.group_at(j) == old_idx.group_at(
                            j,
                        ));
                    // the group of t's destination grows by t; every other
                    // group keeps its contents
                    assert forall|j: int| 0 <= j < idx.key_count() implies idx.group_at(j)
                        == longer.filter(
                        |x: Transformation| x.to_piece as int == idx.key_at(j),
                    ) by {
                        reveal(Seq::filter);
                        assert(longer.drop_last() =~= prefix);
                        if j == k {
                            assert(t.to_piece as int == idx.key_at(j));
                        } else {
                            assert(idx.key_at(j) != idx.key_at(k as int));
                            assert(t.to_piece as int != idx.key_at(j));
                        }
                    }
                    // the destination set gains nothing new
                    assert(destinations(prefix).contains(t.to_piece as int)) by {
                        assert((k as int) < old_idx.key_count() && old_idx.key_at(k as int)
                            == t.to_piece as int);
                        assert(old_idx.contains_key(t.to_piece as int));
                        assert(exists|j: int|
                            0 <= j < i && (#[trigger] rec[j]).to_piece as int == t.to_piece as int);
                        let w = choose|j: int|
                            0 <= j < i && (#[trigger] rec[j]).to_piece as int == t.to_piece as int;
                        assert(prefix.map_values(|x: Transformation| x.to_piece as int)[w]
                            == t.to_piece as int);
                        assert(prefix.map_values(|x: Transformation| x.to_piece as int).contains(
                            t.to_piece as int,
                        ));
                    }
                    assert(destinations(longer) =~= destinations(prefix));
                    // the key set is unchanged, and position i only repeats
                    // a destination that was already present
                    assert forall|p: int| idx.contains_key(p) implies (exists|j: int|
                        0 <= j < i + 1 && (#[trigger] rec[j]).to_piece as int == p) by {
                        let w = choose|kk: int|
                            0 <= kk < idx.key_count() && idx.key_at(kk) == p;
                        assert(old_idx.key_at(w) == p);
                        assert(old_idx.contains_key(p));
                        let j = choose|j: int|
                            0 <= j < i && (#[trigger] rec[j]).to_piece as int == p;
                        assert(0 <= j < i + 1 && rec[j].to_piece as int == p);
                    }
                    assert forall|p: int| (exists|j: int|
                        0 <= j < i + 1 && (#[trigger] rec[j]).to_piece as int == p) implies
                        idx.contains_key(p) by {
                        let j = choose|j: int|
                            0 <= j < i + 1 && (#[trigger] rec[j]).to_piece as int == p;
                        if j < i {
                            assert(old_idx.contains_key(p));
                            let w = choose|kk: int|
                                0 <= kk < old_idx.key_count() && old_idx.key_at(kk) == p;
                            assert(idx.key_at(w) == p);
                        } else {
                            assert(rec[j] == t);
                            assert(idx.key_at(k as int) == p);
                        }
                    }
                }
            },
            None => {
                let mut g: Vec<Transformation> = Vec::new();
                g.push(t);
                let ghost old_idx = idx;
                idx.groups.push((t.to_piece, g));
                proof {
                    let kc = old_idx.key_count() as int;
                    assert(idx.key_count() == kc + 1);
                    assert(forall|j: int| 0 <= j < kc ==> idx.key_at(j) == old_idx.key_at(j));
                    assert(forall|j: int| 0 <= j < kc ==> idx.group_at(j) == old_idx.group_at(j));
                    assert(idx.key_at(kc) == t.to_piece as int);
                    assert(idx.group_at(kc) =~= seq![t]);
                    assert(forall|j: int| 0 <= j < prefix.len()
                        ==> (#[trigger] prefix[j]).to_piece as int != t.to_piece as int);
                    lemma_filter_empty_when_no_match(prefix, t.to_piece as int);
                    assert(longer.filter(|x: Transformation| x.to_piece as int == t.to_piece as int)
                        =~= seq![t]);
                    assert forall|j: int| 0 <= j < kc implies idx.group_at(j) == longer.filter(
                        |x: Transformation| x.to_piece as int == idx.key_at(j),
                    ) by {
                        reveal(Seq::filter);
                        assert(longer.drop_last() =~= prefix);
                        assert(idx.key_at(j) == old_idx.key_at(j));
                        assert(old_idx.contains_key(old_idx.key_at(j)));
                        assert(t.to_piece as int != idx.key_at(j));
                    }
                    // a fresh destination: the set grows by one
                    assert(!destinations(prefix).contains(t.to_piece as int)) by {
                        if destinations(prefix).contains(t.to_piece as int) {
                            let m = prefix.map_values(|x: Transformation| x.to_piece as int);
                            let w = choose|j: int| 0 <= j < m.len() && m[j] == t.to_piece as int;
                            assert(rec[w].to_piece as int == t.to_piece as int);
                        }
                    }
                    // the new group's key answers for position i; old keys
                    // answer for the rest
                    assert forall|p: int| idx.contains_key(p) implies (exists|j: int|
                        0 <= j < i + 1 && (#[trigger] rec[j]).to_piece as int == p) by {
                        let w = choose|kk: int|
                            0 <= kk < idx.key_count() && idx.key_at(kk) == p;
                        if w < kc {
                            assert(old_idx.key_at(w) == p);
                            assert(old_idx.contains_key(p));
                            let j = choose|j: int|
                                0 <= j < i && (#[trigger] rec[j]).to_piece as int == p;
                            assert(0 <= j < i + 1 && rec[j].to_piece as int == p);
                        } else {
                            assert(p == t.to_piece as int);
                            assert(rec[i as int].to_piece as int == p);
                        }
                    }
                    assert forall|p: int| (exists|j: int|
                        0 <= j < i + 1 && (#[trigger] rec[j]).to_piece as int == p) implies
                        idx.contains_key(p) by {
                        let j = choose|j: int|
                            0 <= j < i + 1 && (#[trigger] rec[j]).to_piece as int == p;
                        if j < i {
                            assert(old_idx.contains_key(p));
                            let w = choose|kk: int|
                                0 <= kk < old_idx.key_count() && old_idx.key_at(kk) == p;
                            assert(idx.key_at(w) == p);
                        } else {
                            assert(rec[j] == t);
                            assert(idx.key_at(kc) == p);
                        }
                    }
                }
            },
        }
        i = i + 1;
    }
    proof {
        assert(rec.take(n as int) =~= rec);
        assert(idx.as_map() =~= spec_index(rec)) by {
            assert(forall|p: int| idx.contains_key(p) <==> exists|j: int|
                0 <= j < rec.len() && (#[trigger] rec[j]).to_piece as int == p);
            assert(forall|p: int|
                idx.contains_key(p) ==> idx.group_of(p) == rec.filter(
                    |t: Transformation| t.to_piece as int == p,
                ));
        }
    }
    idx
}

/// The first transformation of minimal cost: a later candidate replaces the
/// running choice only when strictly cheaper.
pub open spec fn first_min(s: Seq<Transformation>) -> Transformation
    recommends
        s.len() > 0,
    decreases s.len(),
{
    if s.len() <= 1 {
        s[0]
    } else {
        let m = first_min(s.drop_last());
        if s.last().cost < m.cost {
            s.last()
        } else {
            m
        }
    }
}

/// The greedy backward walk: starting from `piece`, keep taking the first
/// cheapest producing edge and move to its source, until the current piece
/// has no producing edge or `fuel` steps were taken.
///
/// On an acyclic recipe no destination can repeat along the walk, so fuel
/// equal to the number of distinct destinations never runs out before raw
/// material is reached; the bound only makes the walk total on data that
/// breaks that stated precondition.
pub open spec fn greedy_walk(
    m: Map<int, Seq<Transformation>>,
    piece: int,
    fuel: nat,
) -> Seq<Transformation>
    decreases fuel,
{
    if !m.dom().contains(piece) {
        Seq::empty()
    } else if fuel == 0 {
        Seq::empty()
    } else {
        let t = first_min(m[piece]);
        seq![t] + greedy_walk(m, t.from_piece as int, (fuel - 1) as nat)
    }
}

/// Decides the path to take to produce a piece: from the ordered piece
/// backward, the first cheapest producing edge at every step. The result is
/// ordered finished-to-root; the emitter reverses it for step numbering.
pub fn get_cheapest_path(starting_piece: i64, recipe_map: &RecipeIndex) -> (r: Vec<
    Transformation,
>)
    requires
        recipe_map.wf(),
    ensures
        r@ == greedy_walk(recipe_map.as_map(), starting_piece as int, recipe_map.key_count()),
{
    let ghost m = recipe_map.as_map();
    let mut path: Vec<Transformation> = Vec::new();
    let mut current = starting_piece;
    let mut fuel = recipe_map.len();
    loop
        invariant
            recipe_map.wf(),
            m == recipe_map.as_map(),
            fuel <= recipe_map.key_count(),
            greedy_walk(m, starting_piece as int, recipe_map.key_count()) == path@ + greedy_walk(
                m,
                current as int,
                fuel as nat,
            ),
        decreases fuel,
    {
        match recipe_map.get(current) {
            None => {
                proof {
                    assert(!m.dom().contains(current as int));
                    assert(greedy_walk(m, current as int, fuel as nat) =~= Seq::<
                        Transformation,
                    >::empty());
                    assert(path@ =~= path@ + greedy_walk(m, current as int, fuel as nat));
                }
                return path;
            },
            Some(group) => {
                proof {
                    assert(m.dom().contains(current as int));
                    assert(m[current as int] == group@);
                    let w = choose|k: int|
                        0 <= k < recipe_map.key_count() && recipe_map.key_at(k) == current as int;
                    assert(recipe_map.group_at(w).len() > 0);
                }
                if fuel == 0 {
                    proof {
                        assert(greedy_walk(m, current as int, 0) =~= Seq::<
                            Transformation,
                        >::empty());
                        assert(path@ =~= path@ + greedy_walk(m, current as int, fuel as nat));
                    }
                    return path;
                }
                let mut best = group[0];
                let mut gi: usize = 1;
                while gi < group.len()
                    invariant
                        1 <= gi <= group@.len(),
                        1 <= group@.len(),
                        best == first_min(group@.take(gi as int)),
                    decreases group@.len() - gi,
                {
                    proof {
                        assert(group@.take(gi + 1).drop_last() =~= group@.take(gi as int));
                        assert(group@.take(gi + 1).last() == group@[gi as int]);
                    }
                    if group[gi].cost < best.cost {
                        best = group[gi];
                    }
                    gi = gi + 1;
                }
                proof {
                    assert(group@.take(1).len() == 1);
                    assert(group@.take(group@.len() as int) =~= group@);
                    assert(best == first_min(m[current as int]));
                }
                path.push(best);
                proof {
                    assert(greedy_walk(m, current as int, fuel as nat) == seq![best]
                        + greedy_walk(m, best.from_piece as int, (fuel - 1) as nat));
                    assert(path@ + greedy_walk(m, best.from_piece as int, (fuel - 1) as nat)
                        =~= greedy_walk(m, starting_piece as int, recipe_map.key_count()));
                }
                current = best.from_piece;
                fuel = fuel - 1;
            },
        }
    }
}

/// What the emitter produces for one order: one full chain of steps per
/// ordered unit. The chain arrives finished-to-root; steps are numbered
/// root-to-finished, so entry `k` carries `piece_number == k / S + 1`,
/// `step_number == k % S + 1`, and the transformation at reversed chain
/// position `S - 1 - k % S` (`S` the chain length).
pub open spec fn spec_bom_batch(order_id: i64, pieces_total: i32, chain: Seq<Transformation>)
    -> Seq<Bom>
    recommends
        chain.len() <= i32::MAX,
{
    let s = chain.len() as int;
    let p = if pieces_total < 0 {
        0int
    } else {
        pieces_total as int
    };
    Seq::new(
        (p * s) as nat,
        |k: int| Bom {
            id: 0,
            order_id,
            transformation_id: chain[s - 1 - (k % s)].id,
            piece_number: (k / s + 1) as i32,
            pieces_total,
            step_number: (k % s + 1) as i32,
            steps_total: s as i32,
        },
    )
}

/// Numbers the full batch for one order: `pieces_total` copies of the
/// selected chain, each copy numbered `1..=steps_total` in production order
/// (the reverse of the chain's construction order).
pub fn build_bom_batch(order_id: i64, pieces_total: i32, chain: &Vec<Transformation>) -> (r: Vec<
    Bom,
>)
    requires
        chain@.len() <= i32::MAX,
    ensures
        r@ == spec_bom_batch(order_id, pieces_total, chain@),
{
    let ghost goal = spec_bom_batch(order_id, pieces_total, chain@);
    let steps_total = chain.len() as i32;
    let mut batch: Vec<Bom> = Vec::new();
    if pieces_total <= 0 || chain.len() == 0 {
        proof {
            let s = chain@.len() as int;
            let p = if pieces_total < 0 {
                0int
            } else {
                pieces_total as int
            };
            assert(p * s == 0) by (nonlinear_arith)
                requires
                    p == 0 || s == 0,
            ;
            assert(goal =~= Seq::<Bom>::empty());
        }
        return batch;
    }
    let p_total = pieces_total as usize;
    let s_total = chain.len();
    let mut pi: usize = 0;
    while pi < p_total
        invariant
            pi <= p_total,
            p_total == pieces_total as int,
            1 <= pieces_total,
            s_total == chain@.len(),
            1 <= s_total <= i32::MAX,
            steps_total == s_total as i32,
            goal == spec_bom_batch(order_id, pieces_total, chain@),
            goal.len() == p_total * s_total,
            batch@.len() == pi * s_total,
            batch@ == goal.take((pi * s_total) as int),
        decreases p_total - pi,
    {
        let mut si: usize = 0;
        proof {
            assert(pi * s_total + s_total == (pi + 1) * s_total) by (nonlinear_arith);
            assert((pi + 1) * s_total <= p_total * s_total) by (nonlinear_arith)
                requires pi + 1 <= p_total, s_total >= 1;
        }
        while si < s_total
            invariant
                si <= s_total,
                pi < p_total,
                p_total == pieces_total as int,
                1 <= pieces_total,
                s_total == chain@.len(),
                1 <= s_total <= i32::MAX,
                steps_total == s_total as i32,
                goal == spec_bom_batch(order_id, pieces_total, chain@),
                goal.len() == p_total * s_total,
                (pi + 1) * s_total <= p_total * s_total,
                pi * s_total + s_total == (pi + 1) * s_total,
                batch@.len() == pi * s_total + si,
                batch@ == goal.take((pi * s_total + si) as int),
            decreases s_total - si,
        {
            let ghost k = (pi * s_total + si) as int;
            proof {
                lemma_fundamental_div_mod_converse(k, s_total as int, pi as int, si as int);
                assert(goal[k] == (Bom {
                    id: 0,
                    order_id,
                    transformation_id: chain@[s_total - 1 - si].id,
                    piece_number: (pi + 1) as i32,
                    pieces_total,
                    step_number: (si + 1) as i32,
                    steps_total,
                }));
            }
            let b = Bom::new(
                order_id,
                chain[s_total - 1 - si].id,
                (pi + 1) as i32,
                pieces_total,
                (si + 1) as i32,
                steps_total,
            );
            batch.push(b);
            proof {
                assert(goal.take(k + 1) =~= goal.take(k).push(goal[k]));
            }
            si = si + 1;
        }
        pi = pi + 1;
    }
    proof {
        assert(goal.take((p_total * s_total) as int) =~= goal);
    }
    batch
}

/// Why a resolution step failed.
#[derive(Clone, Copy, Debug, PartialEq, Eq, Structural)]
pub enum ResolveError {
    /// A "new order" payload that is not a decimal order id.
    InvalidOrderPayload,
    /// A "new BOM batch" payload in which no id parses.
    InvalidBomPayload,
    /// The ordered piece has no producing transformation: an empty chain is
    /// a data-integrity condition, not a zero-step batch.
    EmptyChain,
}

impl ResolveError {
    /// A short operator-facing description of the failure.
    pub fn describe(&self) -> (r: &'static str)
        ensures
            *self == ResolveError::InvalidOrderPayload ==> r@ == "invalid order payload"@,
            *self == ResolveError::InvalidBomPayload ==> r@ == "invalid bom payload"@,
            *self == ResolveError::EmptyChain ==> r@ == "no production steps for the ordered piece"@,
    {
        match self {
            ResolveError::InvalidOrderPayload => "invalid order payload",
            ResolveError::InvalidBomPayload => "invalid bom payload",
            ResolveError::EmptyChain => "no production steps for the ordered piece",
        }
    }
}

/// What the resolution loop must do next for one incoming event.
#[derive(Debug)]
pub enum EventAction {
    /// Run the full pipeline for this order id.
    ResolveOrder(i64),
    /// Fetch these BOM entries and check line compatibility downstream.
    CheckBomBatch(Vec<i64>),
    /// Unknown channel: log a warning and stay idle.
    Ignore,
}

/// Reads a "new order" payload: the decimal id of the freshly placed order.
/// A payload that does not parse is rejected; the loop treats that as
/// fatal.
pub fn parse_order_event(payload: &str) -> (r: Result<i64, ResolveError>)
    ensures
        parse_i64_spec(payload@) is Some ==> r == Ok::<i64, ResolveError>(
            parse_i64_spec(payload@)->0,
        ),
        parse_i64_spec(payload@) is None ==> r == Err::<i64, ResolveError>(
            ResolveError::InvalidOrderPayload,
        ),
{
    match parse_i64(payload) {
        Some(id) => Ok(id),
        None => Err(ResolveError::InvalidOrderPayload),
    }
}

/// Reads a "new BOM batch" payload: comma-joined decimal ids, ids that fail
/// to parse skipped. An empty or fully-unparseable list is rejected, and
/// nothing is looked up for it.
pub fn parse_bom_entry_event(payload: &str) -> (r: Result<Vec<i64>, ResolveError>)
    ensures
        match r {
            Ok(ids) => ids@ == parse_id_list_spec(payload@) && ids@.len() > 0,
            Err(e) => e == ResolveError::InvalidBomPayload && parse_id_list_spec(
                payload@,
            ).len() == 0,
        },
{
    let ids = parse_id_list(payload);
    if ids.len() == 0 {
        Err(ResolveError::InvalidBomPayload)
    } else {
        Ok(ids)
    }
}

/// Routes one incoming notification: an order id to resolve, a batch to
/// check, or — on an unknown channel — nothing at all, so that new topics
/// never break the loop.
pub fn dispatch_event(channel: &str, payload: &str) -> (r: Result<EventAction, ResolveError>)
    ensures
        channel@ == "new_order"@ ==> (match r {
            Ok(EventAction::ResolveOrder(id)) => parse_i64_spec(payload@) == Some(id),
            Err(e) => parse_i64_spec(payload@) is None && e == ResolveError::InvalidOrderPayload,
            _ => false,
        }),
        channel@ == "new_bom_entry"@ ==> (match r {
            Ok(EventAction::CheckBomBatch(ids)) => ids@ == parse_id_list_spec(payload@)
                && ids@.len() > 0,
            Err(e) => e == ResolveError::InvalidBomPayload && parse_id_list_spec(
                payload@,
            ).len() == 0,
            _ => false,
        }),
        channel@ != "new_order"@ && channel@ != "new_bom_entry"@ ==> (r matches Ok(a)
            && a is Ignore),
{
    proof {
        reveal_strlit("new_order");
        reveal_strlit("new_bom_entry");
        // distinct channel names: revealing both fixes their lengths
        assert("new_order"@.len() != "new_bom_entry"@.len());
    }
    match NotificationChannel::from_name(channel) {
        NotificationChannel::NewOrder => match parse_order_event(payload) {
            Ok(id) => Ok(EventAction::ResolveOrder(id)),
            Err(e) => Err(e),
        },
        NotificationChannel::NewBomEntry => match parse_bom_entry_event(payload) {
            Ok(ids) => Ok(EventAction::CheckBomBatch(ids)),
            Err(e) => Err(e),
        },
        NotificationChannel::Unknown => Ok(EventAction::Ignore),
    }
}

/// The chain the engine selects for `piece_id` out of `recipe`.
pub open spec fn spec_selected_chain(piece_id: i64, recipe: Seq<Transformation>) -> Seq<
    Transformation,
> {
    greedy_walk(spec_index(recipe), piece_id as int, destinations(recipe).len())
}

/// What resolving one order yields: the numbered batch, or the explicit
/// empty-chain condition when the ordered piece has no producing
/// transformation.
pub open spec fn spec_plan(
    order_id: i64,
    piece_id: i64,
    quantity: i32,
    recipe: Seq<Transformation>,
) -> Result<Seq<Bom>, ResolveError> {
    let chain = spec_selected_chain(piece_id, recipe);
    if chain.len() == 0 {
        Err(ResolveError::EmptyChain)
    } else {
        Ok(spec_bom_batch(order_id, quantity, chain))
    }
}

/// The in-memory half of BOM generation for one order: index the fetched
/// recipe, select the cheapest chain for the ordered piece, and number the
/// batch. The caller fetched `recipe` for `piece_id` and inserts the result
/// atomically, announcing the new row ids on the "new BOM batch" channel;
/// on an empty chain it must insert nothing and announce nothing.
pub fn plan_bom_batch(order_id: i64, piece_id: i64, quantity: i32, recipe: Recipe) -> (r: Result<
    Vec<Bom>,
    ResolveError,
>)
    requires
        recipe@.len() <= i32::MAX,
    ensures
        match r {
            Ok(batch) => spec_plan(order_id, piece_id, quantity, recipe@) matches Ok(b)
                && batch@ == b,
            Err(e) => spec_plan(order_id, piece_id, quantity, recipe@) == Err::<Seq<Bom>,
            ResolveError>(e),
        },
{
    let ghost rec = recipe@;
    let recipe_map = map_flat_recipe(recipe);
    let chain = get_cheapest_path(piece_id, &recipe_map);
    proof {
        assert(chain@ == spec_selected_chain(piece_id, rec));
        assert(chain@.len() <= recipe_map.key_count()) by {
            lemma_walk_len(recipe_map.as_map(), piece_id as int, recipe_map.key_count());
        }
    }
    if chain.len() == 0 {
        return Err(ResolveError::EmptyChain);
    }
    let batch = build_bom_batch(order_id, quantity, &chain);
    Ok(batch)
}

/// A greedy walk takes at most `fuel` steps.
proof fn lemma_walk_len(m: Map<int, Seq<Transformation>>, piece: int, fuel: nat)
    ensures
        greedy_walk(m, piece, fuel).len() <= fuel,
    decreases fuel,
{
    if m.dom().contains(piece) && fuel > 0 {
        let t = first_min(m[piece]);
        lemma_walk_len(m, t.from_piece as int, (fuel - 1) as nat);
    }
}

/// Filtering by destination keeps exactly the occurrences aimed at that
/// destination and drops every other.
proof fn lemma_filter_multiset(s: Seq<Transformation>, p: int, t: Transformation)
    ensures
        s.filter(|x: Transformation| x.to_piece as int == p).to_multiset().count(t) == (
        if t.to_piece as int == p {
            s.to_multiset().count(t)
        } else {
            0
        }),
    decreases s.len(),
{
    broadcast use vstd::seq_lib::group_to_multiset_ensures;
    broadcast use vstd::multiset::group_multiset_axioms;

    reveal(Seq::filter);
    if s.len() == 0 {
        assert(s.to_multiset() =~= Multiset::<Transformation>::empty());
        assert(s.filter(|x: Transformation| x.to_piece as int == p) =~= Seq::<
            Transformation,
        >::empty());
    } else {
        let rest = s.drop_last();
        let last = s.last();
        lemma_filter_multiset(rest, p, t);
        assert(s =~= rest.push(last));
        assert(s.to_multiset() == rest.push(last).to_multiset());
        assert(rest.push(last).to_multiset() =~= rest.to_multiset().insert(last));
        let fs = s.filter(|x: Transformation| x.to_piece as int == p);
        let fr = rest.filter(|x: Transformation| x.to_piece as int == p);
        if last.to_piece as int == p {
            assert(fs == fr.push(last));
            assert(fr.push(last).to_multiset() =~= fr.to_multiset().insert(last));
        } else {
            assert(fs == fr);
        }
    }
}

/// Law: for every recipe, indexing groups every transformation under its
/// `to_piece`, preserving all entries — no loss, no duplication — and
/// partitioning them correctly when several transformations share a
/// destination: a transformation occurs in the group of its own
/// destination exactly as often as in the recipe, and never in another
/// group. A piece without a group has no producing transformation at all.
pub proof fn lemma_index_partitions(recipe: Seq<Transformation>)
    ensures
        forall|p: int|
            #[trigger] spec_index(recipe).dom().contains(p) <==> (exists|j: int|
                0 <= j < recipe.len() && (#[trigger] recipe[j]).to_piece as int == p),
        forall|p: int, t: Transformation|
            spec_index(recipe).dom().contains(p) ==> #[trigger] spec_index(
                recipe,
            )[p].to_multiset().count(t) == (if t.to_piece as int == p {
                recipe.to_multiset().count(t)
            } else {
                0
            }),
{
    assert forall|p: int, t: Transformation| spec_index(recipe).dom().contains(p) implies
        #[trigger] spec_index(recipe)[p].to_multiset().count(t) == (if t.to_piece as int == p {
        recipe.to_multiset().count(t)
    } else {
        0
    }) by {
        lemma_filter_multiset(recipe, p, t);
        assert(spec_index(recipe)[p] == recipe.filter(
            |x: Transformation| x.to_piece as int == p,
        ));
    }
}

/// Law: emission produces exactly `pieces_total * steps_total` entries;
/// for each `piece_number` the `step_number` values are exactly
/// `1..=steps_total` with no gaps or repeats, and step `k` carries the
/// chain element at position `steps_total - k` — the chain is built
/// finished-to-root, steps are numbered root-to-finished.
pub proof fn lemma_batch_numbering(order_id: i64, pieces_total: i32, chain: Seq<Transformation>)
    requires
        1 <= pieces_total,
        1 <= chain.len() <= i32::MAX,
    ensures
        spec_bom_batch(order_id, pieces_total, chain).len() == pieces_total * chain.len(),
        forall|pn: int, k: int|
            1 <= pn <= pieces_total && 1 <= k <= chain.len() ==> #[trigger] spec_bom_batch(
                order_id,
                pieces_total,
                chain,
            )[(pn - 1) * chain.len() + (k - 1)] == (Bom {
                id: 0,
                order_id,
                transformation_id: chain[chain.len() - k].id,
                piece_number: pn as i32,
                pieces_total,
                step_number: k as i32,
                steps_total: chain.len() as i32,
            }),
{
    let s = chain.len() as int;
    assert forall|pn: int, k: int| 1 <= pn <= pieces_total && 1 <= k <= chain.len() implies
        #[trigger] spec_bom_batch(order_id, pieces_total, chain)[(pn - 1) * s + (k - 1)] == (Bom {
        id: 0,
        order_id,
        transformation_id: chain[s - k].id,
        piece_number: pn as i32,
        pieces_total,
        step_number: k as i32,
        steps_total: s as i32,
    }) by {
        let pt = pieces_total as int;
        let idx = (pn - 1) * s + (k - 1);
        assert(0 <= (pn - 1) * s + (k - 1) && (pn - 1) * s + (k - 1) < pt * s)
            by (nonlinear_arith)
            requires
                1 <= pn <= pt,
                1 <= k <= s,
        ;
        lemma_fundamental_div_mod_converse(idx, s, pn - 1, k - 1);
    }
}

/// The first-minimum really is a member of the group and cheapest in it.
proof fn lemma_first_min_minimal(s: Seq<Transformation>)
    requires
        s.len() > 0,
    ensures
        s.contains(first_min(s)),
        forall|j: int| 0 <= j < s.len() ==> first_min(s).cost <= (#[trigger] s[j]).cost,
    decreases s.len(),
{
    if s.len() == 1 {
        assert(s.contains(s[0]));
    } else {
        let rest = s.drop_last();
        lemma_first_min_minimal(rest);
        let m = first_min(rest);
        if s.last().cost < m.cost {
            assert(s.contains(s[s.len() - 1]));
        } else {
            let idx = choose|j: int| 0 <= j < rest.len() && rest[j] == m;
            assert(s[idx] == m);
            assert(s.contains(m));
        }
        assert forall|j: int| 0 <= j < s.len() implies first_min(s).cost <= (
        #[trigger] s[j]).cost by {
            if j < s.len() - 1 {
                assert(s[j] == rest[j]);
            }
        }
    }
}

/// Everything a filter keeps was in the unfiltered sequence.
proof fn lemma_filter_subset(s: Seq<Transformation>, pred: spec_fn(Transformation) -> bool)
    ensures
        forall|i: int|
            0 <= i < s.filter(pred).len() ==> s.contains(#[trigger] s.filter(pred)[i]),
    decreases s.len(),
{
    reveal(Seq::filter);
    if s.len() > 0 {
        let rest = s.drop_last();
        lemma_filter_subset(rest, pred);
        assert forall|i: int| 0 <= i < s.filter(pred).len() implies s.contains(
            #[trigger] s.filter(pred)[i],
        ) by {
            if i < rest.filter(pred).len() {
                let x = rest.filter(pred)[i];
                let idx = choose|j: int| 0 <= j < rest.len() && rest[j] == x;
                assert(s[idx] == x);
            } else {
                assert(s[s.len() - 1] == s.filter(pred)[i]);
            }
        }
    }
}

/// Along a greedy walk over a destination-keyed map, every step is the
/// first-cheapest member of the group of its own destination, the walk
/// starts at the given piece, and each step's source is the next step's
/// destination.
proof fn lemma_walk_links(m: Map<int, Seq<Transformation>>, piece: int, fuel: nat)
    requires
        forall|p: int| #[trigger] m.dom().contains(p) ==> m[p].len() > 0,
        forall|p: int, i: int|
            m.dom().contains(p) && 0 <= i < m[p].len() ==> (#[trigger] m[p][i]).to_piece as int
                == p,
    ensures
        greedy_walk(m, piece, fuel).len() > 0 ==> greedy_walk(m, piece, fuel)[0].to_piece as int
            == piece,
        forall|i: int|
            0 <= i < greedy_walk(m, piece, fuel).len() ==> {
                let t = #[trigger] greedy_walk(m, piece, fuel)[i];
                &&& m.dom().contains(t.to_piece as int)
                &&& m[t.to_piece as int].contains(t)
                &&& t == first_min(m[t.to_piece as int])
            },
        forall|i: int|
            0 <= i < greedy_walk(m, piece, fuel).len() - 1 ==> (#[trigger] greedy_walk(
                m,
                piece,
                fuel,
            )[i + 1]).to_piece as int == greedy_walk(m, piece, fuel)[i].from_piece as int,
    decreases fuel,
{
    let w = greedy_walk(m, piece, fuel);
    if m.dom().contains(piece) && fuel > 0 {
        let t = first_min(m[piece]);
        let rest = greedy_walk(m, t.from_piece as int, (fuel - 1) as nat);
        lemma_first_min_minimal(m[piece]);
        assert(m[piece].contains(t));
        let ti = choose|j: int| 0 <= j < m[piece].len() && m[piece][j] == t;
        assert(m[piece][ti].to_piece as int == piece);
        lemma_walk_links(m, t.from_piece as int, (fuel - 1) as nat);
        assert(w == seq![t] + rest);
        assert(w[0] == t);
        assert forall|i: int| 0 <= i < w.len() implies {
            let s = #[trigger] w[i];
            &&& m.dom().contains(s.to_piece as int)
            &&& m[s.to_piece as int].contains(s)
            &&& s == first_min(m[s.to_piece as int])
        } by {
            if i > 0 {
                assert(w[i] == rest[i - 1]);
            } else {
                assert(w[0].to_piece as int == piece);
            }
        }
        assert forall|i: int| 0 <= i < w.len() - 1 implies (#[trigger] w[i + 1]).to_piece as int
            == w[i].from_piece as int by {
            if i == 0 {
                assert(rest.len() > 0);
                assert(w[1] == rest[0]);
                assert(rest[0].to_piece as int == t.from_piece as int);
            } else {
                assert(w[i] == rest[i - 1]);
                assert(w[i + 1] == rest[i]);
                assert(0 <= i - 1 < rest.len() - 1);
                assert(rest[(i - 1) + 1].to_piece as int == rest[i - 1].from_piece as int);
            }
        }
    }
}

/// Law: the selected chain really walks the recipe, finished piece first:
/// its first step produces the ordered piece, each later step produces
/// what the step before it consumes, every step is a transformation of the
/// recipe, and no recipe transformation into the same piece is cheaper
/// than the chosen step.
pub proof fn lemma_selected_chain_follows_recipe(piece_id: i64, recipe: Seq<Transformation>)
    ensures
        spec_selected_chain(piece_id, recipe).len() > 0 ==> spec_selected_chain(
            piece_id,
            recipe,
        )[0].to_piece == piece_id,
        forall|i: int|
            0 <= i < spec_selected_chain(piece_id, recipe).len() ==> recipe.contains(
                #[trigger] spec_selected_chain(piece_id, recipe)[i],
            ),
        forall|i: int|
            0 <= i < spec_selected_chain(piece_id, recipe).len() - 1 ==> (
            #[trigger] spec_selected_chain(piece_id, recipe)[i + 1]).to_piece
                == spec_selected_chain(piece_id, recipe)[i].from_piece,
        forall|i: int, j: int|
            0 <= i < spec_selected_chain(piece_id, recipe).len() && 0 <= j < recipe.len() && (
            #[trigger] recipe[j]).to_piece == (#[trigger] spec_selected_chain(
                piece_id,
                recipe,
            )[i]).to_piece ==> spec_selected_chain(piece_id, recipe)[i].cost <= recipe[j].cost,
{
    broadcast use vstd::seq_lib::group_filter_ensures;

    let m = spec_index(recipe);
    let chain = spec_selected_chain(piece_id, recipe);
    assert forall|p: int| #[trigger] m.dom().contains(p) implies m[p].len() > 0 by {
        let j = choose|j: int| 0 <= j < recipe.len() && (#[trigger] recipe[j]).to_piece as int
            == p;
        assert(recipe.filter(|t: Transformation| t.to_piece as int == p).contains(recipe[j]));
    }
    lemma_walk_links(m, piece_id as int, destinations(recipe).len());
    assert forall|i: int| 0 <= i < chain.len() implies recipe.contains(#[trigger] chain[i]) by {
        let p = chain[i].to_piece as int;
        lemma_filter_subset(recipe, |t: Transformation| t.to_piece as int == p);
        let idx = choose|j: int|
            0 <= j < m[p].len() && #[trigger] m[p][j] == chain[i];
        assert(recipe.contains(m[p][idx]));
    }
    assert forall|i: int, j: int|
        0 <= i < chain.len() && 0 <= j < recipe.len() && (#[trigger] recipe[j]).to_piece == (
        #[trigger] chain[i]).to_piece implies chain[i].cost <= recipe[j].cost by {
        let p = chain[i].to_piece as int;
        assert(m[p].contains(recipe[j]));
        lemma_first_min_minimal(m[p]);
        let idx = choose|jj: int| 0 <= jj < m[p].len() && m[p][jj] == recipe[j];
        assert(first_min(m[p]).cost <= m[p][idx].cost);
    }
}

/// A greedy walk that stops before its fuel bound stopped because it
/// reached a piece with no group.
proof fn lemma_walk_ends_at_root(m: Map<int, Seq<Transformation>>, piece: int, fuel: nat)
    ensures
        greedy_walk(m, piece, fuel).len() < fuel && greedy_walk(m, piece, fuel).len() == 0
            ==> !m.dom().contains(piece),
        greedy_walk(m, piece, fuel).len() < fuel && greedy_walk(m, piece, fuel).len() > 0
            ==> !m.dom().contains(
            greedy_walk(m, piece, fuel).last().from_piece as int,
        ),
    decreases fuel,
{
    let w = greedy_walk(m, piece, fuel);
    if m.dom().contains(piece) && fuel > 0 {
        let t = first_min(m[piece]);
        let rest = greedy_walk(m, t.from_piece as int, (fuel - 1) as nat);
        lemma_walk_ends_at_root(m, t.from_piece as int, (fuel - 1) as nat);
        assert(w == seq![t] + rest);
        if w.len() < fuel {
            if rest.len() == 0 {
                assert(w.last() == t);
            } else {
                assert(w.last() == rest.last());
            }
        }
    }
}

/// Law: unless the fuel bound cut short a walk over cyclic data — which
/// the stated acyclicity precondition rules out — the selected chain ends
/// at raw material: the source of its last step has no producing
/// transformation, and an empty chain means the ordered piece itself has
/// none.
pub proof fn lemma_selected_chain_reaches_root(piece_id: i64, recipe: Seq<Transformation>)
    ensures
        spec_selected_chain(piece_id, recipe).len() < destinations(recipe).len()
            && spec_selected_chain(piece_id, recipe).len() == 0 ==> !spec_index(
            recipe,
        ).dom().contains(piece_id as int),
        spec_selected_chain(piece_id, recipe).len() < destinations(recipe).len()
            && spec_selected_chain(piece_id, recipe).len() > 0 ==> !spec_index(
            recipe,
        ).dom().contains(spec_selected_chain(piece_id, recipe).last().from_piece as int),
{
    lemma_walk_ends_at_root(spec_index(recipe), piece_id as int, destinations(recipe).len());
}

/// Law: delivery is at-least-once, not exactly-once. The engine keeps no
/// state across events, so re-delivering the same "new order" event plans
/// a second batch identical to the first instead of suppressing it; the
/// caller persists both.
pub proof fn lemma_redelivery_plans_again(
    order_id: i64,
    piece_id: i64,
    quantity: i32,
    recipe: Seq<Transformation>,
    first: Result<Seq<Bom>, ResolveError>,
    second: Result<Seq<Bom>, ResolveError>,
)
    requires
        first == spec_plan(order_id, piece_id, quantity, recipe),
        second == spec_plan(order_id, piece_id, quantity, recipe),
    ensures
        second == first,
        first matches Ok(batch) ==> second matches Ok(again) && again == batch,
{
}

} // verus!
