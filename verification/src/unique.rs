//! Problems that only exist across a whole model: two inputs claiming the
//! same identity, the same environment name, or the same flag.
use vstd::prelude::*;
use crate::text::{views, str_views, str_eq, owned};
use crate::record::Record;

verus! {

/// One claim on a name: its namespace (`0` keys, `1` environment names,
/// `2` flags), the name, and the key of the input making it.
pub type Claim = (int, Seq<char>, Seq<char>);

/// The claims one record makes: its key, each environment name, each flag.
pub open spec fn record_claims(r: Record) -> Seq<Claim> {
    seq![(0int, r.key@, r.key@)] + tagged(1, r.spec_env_names(), r.key@) + tagged(
        2,
        r.spec_arg_labels(),
        r.key@,
    )
}

/// Claims in `space` on each of `names`, all made by `by`.
pub open spec fn tagged(space: int, names: Seq<Seq<char>>, by: Seq<char>) -> Seq<Claim> {
    Seq::new(names.len(), |i: int| (space, names[i], by))
}

/// Every claim a model makes, record by record.
pub open spec fn all_claims(rs: Seq<Record>) -> Seq<Claim>
    decreases rs.len(),
{
    if rs.len() == 0 {
        Seq::empty()
    } else {
        all_claims(rs.drop_last()) + record_claims(rs.last())
    }
}

/// The input that first claimed `what` in `space`, if any.
pub open spec fn first_claimant(cs: Seq<Claim>, space: int, what: Seq<char>) -> Option<Seq<char>>
    decreases cs.len(),
{
    if cs.len() == 0 {
        None
    } else {
        match first_claimant(cs.drop_last(), space, what) {
            Some(b) => Some(b),
            None => if cs.last().0 == space && cs.last().1 == what {
                Some(cs.last().2)
            } else {
                None
            },
        }
    }
}

/// The word for a namespace.
pub open spec fn space_name(space: int) -> Seq<char> {
    if space == 0 {
        "key"@
    } else if space == 1 {
        "env name"@
    } else {
        "flag"@
    }
}

/// The report of a second claim.
pub open spec fn clash_text(space: int, what: Seq<char>, first: Seq<char>, by: Seq<char>) -> Seq<char> {
    space_name(space) + " `"@ + what + "` is claimed by both `"@ + first + "` and `"@ + by + "`"@
}

/// One report for every claim on a name that an earlier claim already holds.
pub open spec fn claim_problems(cs: Seq<Claim>) -> Seq<Seq<char>>
    decreases cs.len(),
{
    if cs.len() == 0 {
        Seq::empty()
    } else {
        let p = claim_problems(cs.drop_last());
        let c = cs.last();
        match first_claimant(cs.drop_last(), c.0, c.1) {
            Some(first) => p.push(clash_text(c.0, c.1, first, c.2)),
            None => p,
        }
    }
}

/// What [`check_unique`] reports for a model.
pub open spec fn spec_check_unique(rs: Seq<Record>) -> Seq<Seq<char>> {
    claim_problems(all_claims(rs))
}

/// No two claims share a namespace and a name.
pub open spec fn claims_distinct(cs: Seq<Claim>) -> bool {
    forall|i: int, j: int|
        0 <= i < j < cs.len() ==> !(cs[i].0 == cs[j].0 && cs[i].1 == cs[j].1)
}

proof fn lemma_first_claimant(cs: Seq<Claim>, space: int, what: Seq<char>)
    ensures
        first_claimant(cs, space, what) is Some <==> exists|i: int|
            0 <= i < cs.len() && cs[i].0 == space && cs[i].1 == what,
    decreases cs.len(),
{
    if cs.len() > 0 {
        lemma_first_claimant(cs.drop_last(), space, what);
        if first_claimant(cs.drop_last(), space, what) is Some {
            let i = choose|i: int|
                0 <= i < cs.drop_last().len() && cs.drop_last()[i].0 == space && cs.drop_last()[i].1
                    == what;
            assert(cs[i] == cs.drop_last()[i]);
        } else {
            assert forall|i: int| 0 <= i < cs.len() - 1 implies !(cs[i].0 == space && cs[i].1 == what) by {
                assert(cs[i] == cs.drop_last()[i]);
            }
        }
    }
}

/// A model's report is empty exactly when no two inputs claim the same key,
/// the same environment name, or the same flag.
pub proof fn lemma_unique_iff_no_clash(cs: Seq<Claim>)
    ensures
        claim_problems(cs).len() == 0 <==> claims_distinct(cs),
    decreases cs.len(),
{
    if cs.len() > 0 {
        let init = cs.drop_last();
        lemma_unique_iff_no_clash(init);
        lemma_first_claimant(init, cs.last().0, cs.last().1);
        lemma_problems_grow(init);
        if claims_distinct(cs) {
            assert(claims_distinct(init)) by {
                assert forall|i: int, j: int| 0 <= i < j < init.len() implies !(init[i].0 == init[j].0
                    && init[i].1 == init[j].1) by {
                    assert(init[i] == cs[i] && init[j] == cs[j]);
                }
            }
            assert forall|i: int| 0 <= i < init.len() implies !(init[i].0 == cs.last().0
                && init[i].1 == cs.last().1) by {
                assert(init[i] == cs[i]);
                assert(cs.last() == cs[cs.len() - 1]);
            }
        } else {
            let (i, j) = choose|i: int, j: int|
                0 <= i < j < cs.len() && cs[i].0 == cs[j].0 && cs[i].1 == cs[j].1;
            if j == cs.len() - 1 {
                assert(init[i] == cs[i]);
            } else {
                assert(init[i] == cs[i] && init[j] == cs[j]);
                assert(!claims_distinct(init));
            }
        }
    }
}

proof fn lemma_problems_grow(cs: Seq<Claim>)
    ensures
        cs.len() > 0 ==> claim_problems(cs).len() >= claim_problems(cs.drop_last()).len(),
{
}

/// Records one claim: reports it when an earlier claim holds the name.
fn claim(
    seen: &mut Vec<(u8, String, String)>,
    problems: &mut Vec<String>,
    space: u8,
    what: &str,
    by: &str,
)
    requires
        space <= 2,
    ensures
        seen_view(final(seen)@) == seen_view(old(seen)@).push((space as int, what@, by@)),
        views(old(problems)@) == claim_problems(seen_view(old(seen)@)) ==> views(final(problems)@)
            == claim_problems(seen_view(final(seen)@)),
        views(final(problems)@) == match first_claimant(seen_view(old(seen)@), space as int, what@) {
            Some(first) => views(old(problems)@).push(clash_text(space as int, what@, first, by@)),
            None => views(old(problems)@),
        },
{
    let ghost cs = seen_view(seen@);
    let mut i: usize = 0;
    let mut found: Option<usize> = None;
    while i < seen.len()
        invariant
            i <= seen@.len(),
            cs == seen_view(seen@),
            found is None ==> first_claimant(cs.take(i as int), space as int, what@) is None,
            found matches Some(k) ==> k < seen@.len() && first_claimant(cs, space as int, what@)
                == Some(cs[k as int].2),
        decreases seen.len() - i,
    {
        assert(cs.take(i + 1).drop_last() =~= cs.take(i as int));
        if found.is_none() && seen[i].0 == space && str_eq(seen[i].1.as_str(), what) {
            found = Some(i);
            proof {
                lemma_first_claimant_prefix(cs, i as int, space as int, what@);
            }
        }
        i += 1;
    }
    assert(cs.take(seen@.len() as int) =~= cs);
    if let Some(k) = found {
        let mut msg = String::new();
        msg.append(if space == 0 {
            "key"
        } else if space == 1 {
            "env name"
        } else {
            "flag"
        });
        msg.append(" `");
        msg.append(what);
        msg.append("` is claimed by both `");
        msg.append(seen[k].2.as_str());
        msg.append("` and `");
        msg.append(by);
        msg.append("`");
        problems.push(msg);
        assert(views(problems@) =~= views(old(problems)@).push(
            clash_text(space as int, what@, cs[k as int].2, by@),
        ));
    }
    seen.push((space, owned(what), owned(by)));
    assert(seen_view(seen@) =~= cs.push((space as int, what@, by@)));
    proof {
        lemma_claim_problems_push(cs, (space as int, what@, by@));
    }
}

proof fn lemma_first_claimant_prefix(cs: Seq<Claim>, i: int, space: int, what: Seq<char>)
    requires
        0 <= i < cs.len(),
        first_claimant(cs.take(i), space, what) is None,
        cs[i].0 == space && cs[i].1 == what,
    ensures
        first_claimant(cs, space, what) == Some(cs[i].2),
    decreases cs.len() - i,
{
    if i == cs.len() - 1 {
        assert(cs.drop_last() =~= cs.take(i));
    } else {
        assert(cs.drop_last().take(i) =~= cs.take(i));
        lemma_first_claimant_prefix(cs.drop_last(), i, space, what);
    }
}

proof fn lemma_claim_problems_push(s: Seq<Claim>, c: Claim)
    ensures
        claim_problems(s.push(c)) == match first_claimant(s, c.0, c.1) {
            Some(first) => claim_problems(s).push(clash_text(c.0, c.1, first, c.2)),
            None => claim_problems(s),
        },
{
    assert(s.push(c).drop_last() =~= s);
}

/// The claims held so far, as plain values.
pub open spec fn seen_view(seen: Seq<(u8, String, String)>) -> Seq<Claim> {
    seen.map_values(|c: (u8, String, String)| (c.0 as int, c.1@, c.2@))
}

/// Problems that only exist across a whole model: two inputs claiming the same
/// identity, the same environment name, or the same flag.
///
/// A collision is silent at runtime (one binding simply shadows the other), so
/// it has to be caught here.
pub fn check_unique(records: &[Record]) -> (problems: Vec<String>)
    ensures
        views(problems@) == spec_check_unique(records@),
{
    let mut problems: Vec<String> = Vec::new();
    let mut seen: Vec<(u8, String, String)> = Vec::new();
    let mut i: usize = 0;
    while i < records.len()
        invariant
            i <= records@.len(),
            seen_view(seen@) == all_claims(records@.take(i as int)),
            views(problems@) == claim_problems(seen_view(seen@)),
        decreases records.len() - i,
    {
        let r = &records[i];
        let key = r.key.as_str();
        let ghost base = seen_view(seen@);
        assert(records@.take(i + 1).drop_last() =~= records@.take(i as int));
        claim(&mut seen, &mut problems, 0, key, key);
        let names = r.env_names();
        let mut j: usize = 0;
        while j < names.len()
            invariant
                j <= names@.len(),
                str_views(names@) == r.spec_env_names(),
                key@ == r.key@,
                seen_view(seen@) == base + seq![(0int, r.key@, r.key@)] + tagged(1, r.spec_env_names().take(j as int), r.key@),
                views(problems@) == claim_problems(seen_view(seen@)),
            decreases names.len() - j,
        {
            proof {
                assert(str_views(names@)[j as int] == names@[j as int]@);
                assert(names@[j as int]@ == r.spec_env_names()[j as int]);
            }
            claim(&mut seen, &mut problems, 1, names[j], key);
            assert(tagged(1, r.spec_env_names().take(j + 1), r.key@) =~= tagged(
                1,
                r.spec_env_names().take(j as int),
                r.key@,
            ).push((1int, names@[j as int]@, r.key@)));
            assert(seen_view(seen@) =~= base + seq![(0int, r.key@, r.key@)] + tagged(
                1,
                r.spec_env_names().take(j + 1),
                r.key@,
            ));
            j += 1;
        }
        assert(r.spec_env_names().take(names@.len() as int) =~= r.spec_env_names());
        let labels = r.arg_labels();
        let ghost mid = seen_view(seen@);
        let mut k: usize = 0;
        while k < labels.len()
            invariant
                k <= labels@.len(),
                views(labels@) == r.spec_arg_labels(),
                key@ == r.key@,
                seen_view(seen@) == mid + tagged(2, r.spec_arg_labels().take(k as int), r.key@),
                views(problems@) == claim_problems(seen_view(seen@)),
            decreases labels.len() - k,
        {
            proof {
                assert(views(labels@)[k as int] == labels@[k as int]@);
                assert(labels@[k as int]@ == r.spec_arg_labels()[k as int]);
            }
            claim(&mut seen, &mut problems, 2, labels[k].as_str(), key);
            assert(tagged(2, r.spec_arg_labels().take(k + 1), r.key@) =~= tagged(
                2,
                r.spec_arg_labels().take(k as int),
                r.key@,
            ).push((2int, labels@[k as int]@, r.key@)));
            assert(seen_view(seen@) =~= mid + tagged(2, r.spec_arg_labels().take(k + 1), r.key@));
            k += 1;
        }
        assert(r.spec_arg_labels().take(labels@.len() as int) =~= r.spec_arg_labels());
        assert(seen_view(seen@) =~= all_claims(records@.take(i + 1)));
        i += 1;
    }
    assert(records@.take(records@.len() as int) =~= records@);
    problems
}

} // verus!
