//! Production data model: tools, transformations, recipes and BOM entries,
//! together with the recipe-building state machine.
//!
//! A `Transformation` is a directed production edge: consuming `quantity`
//! units of `from_piece` with `tool` yields one unit of `to_piece` at a
//! monetary `cost` (integer minor units). A `Recipe` is the flat collection
//! of transformations reachable backward from a target piece. A `Bom` entry
//! is one production step for one unit of one order.

use vstd::prelude::*;
use crate::text::str_eq;

verus! {

/// The fixed set of tools the shop floor knows. A tool name outside the set
/// maps to `INVALID`.
#[derive(Clone, Copy, Debug, PartialEq, Eq, Structural)]
#[allow(clippy::upper_case_acronyms)]
pub enum Tools {
    T1,
    T2,
    T3,
    T4,
    T5,
    T6,
    INVALID,
}

/// What `Tools::from` yields for a given tool name.
pub open spec fn tool_from_name(s: Seq<char>) -> Tools {
    if s == "T1"@ {
        Tools::T1
    } else if s == "T2"@ {
        Tools::T2
    } else if s == "T3"@ {
        Tools::T3
    } else if s == "T4"@ {
        Tools::T4
    } else if s == "T5"@ {
        Tools::T5
    } else if s == "T6"@ {
        Tools::T6
    } else {
        Tools::INVALID
    }
}

impl core::convert::From<String> for Tools {
    /// Maps a tool name from the store onto the fixed tool set.
    fn from(value: String) -> (r: Tools) {
        let s = value.as_str();
        if str_eq(s, "T1") {
            Tools::T1
        } else if str_eq(s, "T2") {
            Tools::T2
        } else if str_eq(s, "T3") {
            Tools::T3
        } else if str_eq(s, "T4") {
            Tools::T4
        } else if str_eq(s, "T5") {
            Tools::T5
        } else if str_eq(s, "T6") {
            Tools::T6
        } else {
            Tools::INVALID
        }
    }
}

impl vstd::std_specs::convert::FromSpecImpl<String> for Tools {
    open spec fn obeys_from_spec() -> bool {
        true
    }

    open spec fn from_spec(v: String) -> Tools {
        tool_from_name(v@)
    }
}

/// A directed production edge of the transformation store.
#[derive(Clone, Copy, Debug, PartialEq, Eq, Structural)]
pub struct Transformation {
    pub id: i64,
    pub from_piece: i64,
    pub to_piece: i64,
    pub tool: Tools,
    pub quantity: i32,
    pub cost: i64,
}

/// A flat, unordered collection of transformations reachable backward from a
/// target piece.
pub type Recipe = Vec<Transformation>;

/// One production step for one unit of one order.
#[derive(Clone, Copy, Debug, PartialEq, Eq, Structural)]
pub struct Bom {
    pub id: i64,
    pub order_id: i64,
    pub transformation_id: i64,
    pub piece_number: i32,
    pub pieces_total: i32,
    pub step_number: i32,
    pub steps_total: i32,
}

impl Bom {
    /// A fresh, not yet persisted entry; the store assigns `id` on insertion.
    pub fn new(
        order_id: i64,
        transformation_id: i64,
        piece_number: i32,
        pieces_total: i32,
        step_number: i32,
        steps_total: i32,
    ) -> (r: Bom)
        ensures
            r == (Bom {
                id: 0,
                order_id,
                transformation_id,
                piece_number,
                pieces_total,
                step_number,
                steps_total,
            }),
    {
        Bom {
            id: 0,
            order_id,
            transformation_id,
            piece_number,
            pieces_total,
            step_number,
            steps_total,
        }
    }
}

/// The first occurrences of a sequence's elements, in order: an element
/// equal to an earlier one is dropped.
pub open spec fn first_occurrences<A>(s: Seq<A>) -> Seq<A>
    decreases s.len(),
{
    if s.len() == 0 {
        Seq::empty()
    } else {
        let rest = first_occurrences(s.drop_last());
        if s.drop_last().contains(s.last()) {
            rest
        } else {
            rest.push(s.last())
        }
    }
}

/// Pushing an element extends membership by exactly that element.
proof fn lemma_contains_push<A>(s: Seq<A>, x: A, y: A)
    ensures
        s.push(x).contains(y) <==> (s.contains(y) || y == x),
{
    if s.contains(y) {
        let j = choose|j: int| 0 <= j < s.len() && s[j] == y;
        assert(s.push(x)[j] == y);
    }
    if y == x {
        assert(s.push(x)[s.len() as int] == y);
    }
    if s.push(x).contains(y) {
        let j = choose|j: int| 0 <= j < s.push(x).len() && s.push(x)[j] == y;
        if j < s.len() {
            assert(s[j] == y);
        }
    }
}

/// Whether the generation gathered so far already holds this edge.
fn holds_transformation(v: &Vec<Transformation>, t: &Transformation) -> (r: bool)
    ensures
        r == v@.contains(*t),
{
    let mut i: usize = 0;
    while i < v.len()
        invariant
            i <= v@.len(),
            forall|j: int| 0 <= j < i ==> v@[j] != *t,
        decreases v@.len() - i,
    {
        if v[i] == *t {
            return true;
        }
        i = i + 1;
    }
    false
}

/// Whether the frontier gathered so far already holds this piece.
fn holds_piece(v: &Vec<i64>, p: i64) -> (r: bool)
    ensures
        r == v@.contains(p),
{
    let mut i: usize = 0;
    while i < v.len()
        invariant
            i <= v@.len(),
            forall|j: int| 0 <= j < i ==> v@[j] != p,
        decreases v@.len() - i,
    {
        if v[i] == p {
            return true;
        }
        i = i + 1;
    }
    false
}

/// Deduplicates one fetched generation: an edge equal to an earlier edge
/// of the same generation is dropped.
fn dedup_generation(v: &Vec<Transformation>) -> (r: Vec<Transformation>)
    ensures
        r@ == first_occurrences(v@),
{
    let mut out: Vec<Transformation> = Vec::new();
    let mut i: usize = 0;
    while i < v.len()
        invariant
            i <= v@.len(),
            out@ == first_occurrences(v@.take(i as int)),
            forall|x: Transformation| out@.contains(x) <==> v@.take(i as int).contains(x),
        decreases v@.len() - i,
    {
        let t = v[i];
        let ghost prefix = v@.take(i as int);
        let ghost entry = out@;
        proof {
            assert(v@.take(i + 1).drop_last() =~= prefix);
            assert(v@.take(i + 1).last() == t);
            assert(v@.take(i + 1) =~= prefix.push(t));
        }
        let dup = holds_transformation(&out, &t);
        if !dup {
            out.push(t);
        }
        proof {
            assert forall|x: Transformation| out@.contains(x) <==> v@.take(i + 1).contains(
                x,
            ) by {
                lemma_contains_push(prefix, t, x);
                if !dup {
                    lemma_contains_push(entry, t, x);
                }
            }
        }
        i = i + 1;
    }
    proof {
        assert(v@.take(v@.len() as int) =~= v@);
    }
    out
}

/// Builds a recipe generation by generation, from the finished piece back
/// toward raw material.
///
/// The caller owns the data access: it fetches, for every piece in
/// `targets`, the transformations that produce that piece, and hands the
/// concatenated result to `absorb`. A generation with no producing
/// transformations ends the build; the accumulated recipe is then the flat
/// recipe of the initial piece.
///
/// Termination of the overall build is a property of the data: a cyclic
/// transformation graph never yields an empty generation. Acyclicity is a
/// stated precondition of the pipeline, not enforced here.
pub struct RecipeBuilder {
    recipe: Vec<Transformation>,
    targets: Vec<i64>,
}

impl RecipeBuilder {
    /// The transformations accumulated so far.
    pub closed spec fn recipe_spec(&self) -> Seq<Transformation> {
        self.recipe@
    }

    /// The current frontier: the pieces whose producing transformations the
    /// caller must fetch next.
    pub closed spec fn targets_spec(&self) -> Seq<i64> {
        self.targets@
    }

    /// Starts a build for the piece a finished order asks for.
    pub fn new(final_piece_id: i64) -> (r: RecipeBuilder)
        ensures
            r.recipe_spec() == Seq::<Transformation>::empty(),
            r.targets_spec() == seq![final_piece_id],
    {
        let mut targets: Vec<i64> = Vec::new();
        targets.push(final_piece_id);
        RecipeBuilder { recipe: Vec::new(), targets }
    }

    /// The frontier to fetch for.
    pub fn targets(&self) -> (r: &Vec<i64>)
        ensures
            r@ == self.targets_spec(),
    {
        &self.targets
    }

    /// Takes in one fetched generation. Returns true when the generation is
    /// empty, which ends the build with the state unchanged. Otherwise the
    /// generation is deduplicated — an edge equal to an earlier edge of the
    /// same generation is dropped — and appended to the recipe, and the
    /// frontier becomes the set of the deduplicated generation's source
    /// pieces, each piece once, in first-encounter order.
    pub fn absorb(&mut self, transforms: Vec<Transformation>) -> (done: bool)
        ensures
            done == (transforms@.len() == 0),
            done ==> *final(self) == *old(self),
            !done ==> final(self).recipe_spec() == old(self).recipe_spec()
                + first_occurrences(transforms@),
            !done ==> final(self).targets_spec() == first_occurrences(
                first_occurrences(transforms@).map_values(|t: Transformation| t.from_piece),
            ),
    {
        if transforms.len() == 0 {
            return true;
        }
        let mut deduped = dedup_generation(&transforms);
        let ghost ded = deduped@;
        let ghost sources = ded.map_values(|t: Transformation| t.from_piece);

        let mut new_targets: Vec<i64> = Vec::new();
        let mut i: usize = 0;
        proof {
            assert(sources.take(0) =~= Seq::<i64>::empty());
        }
        while i < deduped.len()
            invariant
                i <= ded.len(),
                deduped@ == ded,
                sources == ded.map_values(|t: Transformation| t.from_piece),
                new_targets@ == first_occurrences(sources.take(i as int)),
                forall|p: i64| new_targets@.contains(p) <==> sources.take(i as int).contains(p),
            decreases ded.len() - i,
        {
            let p = deduped[i].from_piece;
            let ghost prefix = sources.take(i as int);
            let ghost entry = new_targets@;
            proof {
                assert(sources[i as int] == p);
                assert(sources.take(i + 1).drop_last() =~= prefix);
                assert(sources.take(i + 1).last() == p);
                assert(sources.take(i + 1) =~= prefix.push(p));
            }
            let dup = holds_piece(&new_targets, p);
            if !dup {
                new_targets.push(p);
            }
            proof {
                assert forall|q: i64| new_targets@.contains(q) <==> sources.take(i + 1).contains(
                    q,
                ) by {
                    lemma_contains_push(prefix, p, q);
                    if !dup {
                        lemma_contains_push(entry, p, q);
                    }
                }
            }
            i = i + 1;
        }
        proof {
            assert(sources.take(sources.len() as int) =~= sources);
        }
        self.targets = new_targets;
        self.recipe.append(&mut deduped);
        false
    }

    /// Hands the accumulated recipe over for indexing.
    pub fn into_recipe(self) -> (r: Vec<Transformation>)
        ensures
            r@ == self.recipe_spec(),
    {
        self.recipe
    }
}

} // verus!
