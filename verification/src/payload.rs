//! Payloads of the "new BOM batch" channel: comma-joined decimal ids.
//!
//! The emitter announces a finished batch as the comma-joined decimal ids of
//! every inserted row; the resolution loop parses such a payload back into
//! ids, skipping tokens that fail to parse. `lemma_id_list_round_trip` is
//! the round-trip law between the two directions.

use vstd::prelude::*;
use vstd::string::StrSliceExecFns;
use vstd::string::StringExecFns;
use crate::digits::int_to_seq;
use crate::digits::parse_i64_spec;
use crate::digits::parse_i64;
use crate::digits::i64_to_string;
use crate::digits::lemma_int_to_seq_no_comma;
use crate::digits::lemma_parse_int_to_seq;

verus! {

/// The index of the first comma of `s`, or -1 if there is none.
pub open spec fn first_comma(s: Seq<char>) -> int
    decreases s.len(),
{
    if s.len() == 0 {
        -1
    } else if s[0] == ',' {
        0
    } else {
        let r = first_comma(s.drop_first());
        if r == -1 {
            -1
        } else {
            r + 1
        }
    }
}

/// `first_comma` finds a comma if and only if one is there, and finds the
/// first one.
proof fn lemma_first_comma_props(s: Seq<char>)
    ensures
        -1 <= first_comma(s) < s.len(),
        first_comma(s) == -1 ==> (forall|j: int| 0 <= j < s.len() ==> s[j] != ','),
        first_comma(s) >= 0 ==> s[first_comma(s)] == ',',
        first_comma(s) >= 0 ==> (forall|j: int| 0 <= j < first_comma(s) ==> s[j] != ','),
    decreases s.len(),
{
    if s.len() == 0 {
    } else if s[0] == ',' {
    } else {
        let tail = s.drop_first();
        lemma_first_comma_props(tail);
        assert(forall|j: int| 1 <= j < s.len() ==> s[j] == tail[j - 1]);
        if first_comma(tail) == -1 {
            assert(forall|j: int| 0 <= j < s.len() ==> s[j] != ',');
        } else {
            assert(first_comma(s) == first_comma(tail) + 1);
            assert(s[first_comma(s)] == tail[first_comma(tail)]);
            assert(forall|j: int| 0 <= j < first_comma(s) ==> s[j] != ',');
        }
    }
}

/// The pieces of `s` between its commas, in order; `s` with no comma is one
/// piece. A payload of n commas has exactly n + 1 pieces, so an empty text
/// is one empty piece.
pub open spec fn split_commas(s: Seq<char>) -> Seq<Seq<char>>
    decreases s.len(),
    via split_commas_decreases
{
    let fc = first_comma(s);
    if fc == -1 {
        seq![s]
    } else {
        seq![s.take(fc)] + split_commas(s.skip(fc + 1))
    }
}

#[via_fn]
proof fn split_commas_decreases(s: Seq<char>) {
    lemma_first_comma_props(s);
}

/// The ids of a sequence of decimal tokens, with unparseable tokens skipped.
pub open spec fn collect_ids(parts: Seq<Seq<char>>) -> Seq<i64>
    decreases parts.len(),
{
    if parts.len() == 0 {
        Seq::empty()
    } else {
        let head = match parse_i64_spec(parts[0]) {
            Some(v) => seq![v],
            None => Seq::<i64>::empty(),
        };
        head + collect_ids(parts.drop_first())
    }
}

/// What parsing a "new BOM batch" payload yields: each comma-separated token
/// read as a decimal id, tokens that fail to parse skipped.
pub open spec fn parse_id_list_spec(s: Seq<char>) -> Seq<i64> {
    collect_ids(split_commas(s))
}

/// What formatting a batch announcement yields: the decimal ids joined by
/// single commas, no other characters.
pub open spec fn join_ids(ids: Seq<i64>) -> Seq<char>
    decreases ids.len(),
{
    if ids.len() == 0 {
        Seq::empty()
    } else if ids.len() == 1 {
        int_to_seq(ids[0] as int)
    } else {
        int_to_seq(ids[0] as int) + seq![','] + join_ids(ids.drop_first())
    }
}

/// Splitting at the first comma of `left + "," + right` gives back `left`
/// and the split of `right`, provided `left` itself has no comma.
proof fn lemma_split_concat(left: Seq<char>, right: Seq<char>)
    requires
        forall|j: int| 0 <= j < left.len() ==> left[j] != ',',
    ensures
        split_commas(left + seq![','] + right) == seq![left] + split_commas(right),
{
    let s = left + seq![','] + right;
    lemma_first_comma_props(s);
    assert(s[left.len() as int] == ',');
    assert(forall|j: int| 0 <= j < left.len() ==> s[j] == left[j]);
    let fc = first_comma(s);
    assert(fc == left.len()) by {
        if fc < left.len() {
            assert(s[fc] == left[fc]);
        }
        if fc > left.len() {
            assert(s[left.len() as int] != ',');
        }
    }
    assert(s.take(fc) =~= left);
    assert(s.skip(fc + 1) =~= right);
    assert(split_commas(s) =~= seq![left] + split_commas(right));
}

/// Round-trip law: parsing a formatted id list gives back exactly the ids
/// that were announced, in order — for every id list, the empty one
/// included.
pub proof fn lemma_id_list_round_trip(ids: Seq<i64>)
    ensures
        parse_id_list_spec(join_ids(ids)) == ids,
    decreases ids.len(),
{
    assert(collect_ids(Seq::<Seq<char>>::empty()) == Seq::<i64>::empty());
    if ids.len() == 0 {
        let s = join_ids(ids);
        assert(s =~= Seq::<char>::empty());
        assert(first_comma(s) == -1);
        let parts = split_commas(s);
        assert(parts =~= seq![s]);
        assert(parse_i64_spec(s) is None);
        assert(parts.drop_first() =~= Seq::<Seq<char>>::empty());
        assert(collect_ids(parts) =~= Seq::<i64>::empty());
        assert(parse_id_list_spec(join_ids(ids)) =~= ids);
    } else if ids.len() == 1 {
        let rep = int_to_seq(ids[0] as int);
        lemma_int_to_seq_no_comma(ids[0] as int);
        lemma_first_comma_props(rep);
        assert(first_comma(rep) == -1) by {
            if first_comma(rep) >= 0 {
                assert(rep[first_comma(rep)] == ',');
            }
        }
        let parts = split_commas(rep);
        assert(parts =~= seq![rep]);
        lemma_parse_int_to_seq(ids[0]);
        assert(parts[0] == rep);
        assert(parts.drop_first() =~= Seq::<Seq<char>>::empty());
        assert(collect_ids(parts) =~= seq![ids[0]]);
        assert(parse_id_list_spec(join_ids(ids)) =~= ids);
    } else {
        let rep = int_to_seq(ids[0] as int);
        let rest = ids.drop_first();
        lemma_int_to_seq_no_comma(ids[0] as int);
        lemma_split_concat(rep, join_ids(rest));
        lemma_parse_int_to_seq(ids[0]);
        lemma_id_list_round_trip(rest);
        assert(join_ids(ids) == rep + seq![','] + join_ids(rest));
        let parts = split_commas(join_ids(ids));
        assert(parts == seq![rep] + split_commas(join_ids(rest)));
        assert(parts[0] == rep);
        assert(parts.len() >= 1);
        assert(parts.drop_first() =~= split_commas(join_ids(rest)));
        assert(collect_ids(parts.drop_first()) == rest);
        assert(collect_ids(parts) =~= seq![ids[0]] + rest);
        assert(parse_id_list_spec(join_ids(ids)) =~= ids);
    }
}

/// Formatting one more id appends a comma and its decimal text (no comma
/// for the very first).
proof fn lemma_join_push(ids: Seq<i64>, x: i64)
    ensures
        ids.len() == 0 ==> join_ids(ids.push(x)) == int_to_seq(x as int),
        ids.len() > 0 ==> join_ids(ids.push(x)) == join_ids(ids) + seq![','] + int_to_seq(
            x as int,
        ),
    decreases ids.len(),
{
    let s = ids.push(x);
    if ids.len() == 0 {
        assert(s.len() == 1);
        assert(s[0] == x);
    } else if ids.len() == 1 {
        assert(s.drop_first() =~= seq![x]);
        assert(join_ids(seq![x]) == int_to_seq(x as int));
        assert(s[0] == ids[0]);
        assert(join_ids(s) == int_to_seq(s[0] as int) + seq![','] + join_ids(s.drop_first()));
        assert(join_ids(ids) == int_to_seq(ids[0] as int));
        assert(join_ids(s) =~= join_ids(ids) + seq![','] + int_to_seq(x as int));
    } else {
        lemma_join_push(ids.drop_first(), x);
        assert(s.drop_first() =~= ids.drop_first().push(x));
        assert(s[0] == ids[0]);
        assert(join_ids(s) == int_to_seq(s[0] as int) + seq![','] + join_ids(s.drop_first()));
        assert(join_ids(s.drop_first()) == join_ids(ids.drop_first()) + seq![','] + int_to_seq(
            x as int,
        ));
        assert(join_ids(ids) == int_to_seq(ids[0] as int) + seq![','] + join_ids(
            ids.drop_first(),
        ));
        assert(join_ids(s) =~= join_ids(ids) + seq![','] + int_to_seq(x as int));
    }
}

/// The announcement text for a batch's ids: decimal, comma-joined, exactly
/// as `join_ids` describes it.
pub fn format_id_list(ids: &Vec<i64>) -> (r: String)
    ensures
        r@ == join_ids(ids@),
{
    let mut out = String::new();
    let mut i: usize = 0;
    while i < ids.len()
        invariant
            i <= ids@.len(),
            out@ == join_ids(ids@.take(i as int)),
        decreases ids@.len() - i,
    {
        if i > 0 {
            out.append(",");
        }
        let rep = i64_to_string(ids[i]);
        out.append(rep.as_str());
        proof {
            reveal_strlit(",");
            lemma_join_push(ids@.take(i as int), ids@[i as int]);
            assert(ids@.take(i + 1) =~= ids@.take(i as int).push(ids@[i as int]));
            if i == 0 {
                assert(out@ =~= join_ids(ids@.take(i + 1)));
            } else {
                assert(out@ =~= join_ids(ids@.take(i as int)) + seq![','] + int_to_seq(
                    ids@[i as int] as int,
                ));
            }
        }
        i = i + 1;
    }
    proof {
        assert(ids@.take(ids@.len() as int) =~= ids@);
    }
    out
}

/// Parses a "new BOM batch" payload: comma-separated decimal ids, tokens
/// that fail to parse skipped, exactly as `parse_id_list_spec` describes it.
pub fn parse_id_list(payload: &str) -> (r: Vec<i64>)
    ensures
        r@ == parse_id_list_spec(payload@),
{
    let n = payload.unicode_len();
    let mut out: Vec<i64> = Vec::new();
    let mut pos: usize = 0;
    proof {
        assert(payload@.skip(0) =~= payload@);
    }
    loop
        invariant
            pos <= n,
            n == payload@.len(),
            parse_id_list_spec(payload@) == out@ + collect_ids(
                split_commas(payload@.skip(pos as int)),
            ),
        decreases n - pos,
    {
        let ghost rem = payload@.skip(pos as int);
        let mut j: usize = pos;
        while j < n && payload.get_char(j) != ','
            invariant
                pos <= j <= n,
                n == payload@.len(),
                forall|k: int| pos <= k < j ==> payload@[k] != ',',
            decreases n - j,
        {
            j = j + 1;
        }
        let seg = payload.substring_char(pos, j);
        proof {
            lemma_first_comma_props(rem);
            assert(forall|k: int| 0 <= k < j - pos ==> rem[k] != ',') by {
                assert(forall|k: int| 0 <= k < j - pos ==> rem[k] == payload@[pos + k]);
            }
            if j < n {
                assert(rem[j - pos] == ',');
                assert(first_comma(rem) == j - pos) by {
                    let fc = first_comma(rem);
                    if fc == -1 {
                        assert(rem[j - pos] != ',');
                    } else if fc < j - pos {
                        assert(rem[fc] != ',');
                    } else if fc > j - pos {
                        assert(rem[j - pos] != ',');
                    }
                }
                assert(rem.take(j - pos) =~= seg@);
                assert(rem.skip(j - pos + 1) =~= payload@.skip(j + 1));
                assert(split_commas(rem) == seq![seg@] + split_commas(payload@.skip(j + 1)));
            } else {
                assert(first_comma(rem) == -1) by {
                    if first_comma(rem) >= 0 {
                        assert(rem[first_comma(rem)] != ',');
                    }
                }
                assert(rem =~= seg@);
                assert(split_commas(rem) == seq![seg@]);
            }
        }
        match parse_i64(seg) {
            Some(v) => out.push(v),
            None => {},
        }
        if j == n {
            proof {
                let parts = split_commas(rem);
                assert(parts.drop_first() =~= Seq::<Seq<char>>::empty());
                assert(collect_ids(parts.drop_first()) =~= Seq::<i64>::empty());
                assert(out@ =~= parse_id_list_spec(payload@));
            }
            return out;
        }
        proof {
            let parts = split_commas(rem);
            assert(parts.drop_first() =~= split_commas(payload@.skip(j + 1)));
        }
        pos = j + 1;
    }
}

} // verus!
