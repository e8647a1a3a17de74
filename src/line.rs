use vstd::prelude::*;
use vstd::string::StringExecFns;
use crate::ids::{extract_ids, ids_view, line_ids};
use crate::ranges::{condense_ranges, condensed, find_number_ranges, runs_of};

verus! {

/// Why a line has no summary.
#[derive(Debug, PartialEq)]
pub enum LineError {
    /// The line holds identifiers of more than one kind; these are the kinds,
    /// each once, in the order they first appear.
    MixedComponentTypes(Vec<String>),
    /// The line holds no identifier.
    NoComponentType,
}

/// The prefixes of a list of identifiers.
pub open spec fn prefixes(ids: Seq<(Seq<char>, u32)>) -> Seq<Seq<char>> {
    ids.map_values(|id: (Seq<char>, u32)| id.0)
}

/// The numbers of a list of identifiers.
pub open spec fn numbers(ids: Seq<(Seq<char>, u32)>) -> Seq<u32> {
    ids.map_values(|id: (Seq<char>, u32)| id.1)
}

/// Each prefix once, in the order of first appearance.
pub open spec fn distinct(ps: Seq<Seq<char>>) -> Seq<Seq<char>>
    decreases ps.len(),
{
    if ps.len() == 0 {
        Seq::empty()
    } else {
        let d = distinct(ps.drop_last());
        if d.contains(ps.last()) {
            d
        } else {
            d.push(ps.last())
        }
    }
}

/// The texts of a list of strings.
pub open spec fn names_view(v: Seq<String>) -> Seq<Seq<char>> {
    v.map_values(|s: String| s@)
}

/// The summary of a line whose identifiers all have the prefix `kind`.
pub open spec fn summary(kind: Seq<char>, ids: Seq<(Seq<char>, u32)>) -> Seq<char> {
    kind + seq![':'] + condensed(runs_of(numbers(ids)))
}

/// `distinct` keeps exactly the prefixes that occur, each once, so its
/// length is the number of different prefixes; it is empty only for no
/// prefixes.
pub proof fn lemma_distinct(ps: Seq<Seq<char>>)
    ensures
        distinct(ps).to_set() == ps.to_set(),
        distinct(ps).no_duplicates(),
        distinct(ps).len() == ps.to_set().len(),
        distinct(ps).len() == 0 <==> ps.len() == 0,
{
    lemma_distinct_keeps(ps);
    distinct(ps).unique_seq_to_set();
}

proof fn lemma_distinct_keeps(ps: Seq<Seq<char>>)
    ensures
        distinct(ps).to_set() == ps.to_set(),
        distinct(ps).no_duplicates(),
        distinct(ps).len() == 0 <==> ps.len() == 0,
    decreases ps.len(),
{
    if ps.len() > 0 {
        let q = ps.drop_last();
        lemma_distinct_keeps(q);
        assert(ps =~= q.push(ps.last()));
        q.lemma_push_to_set_commute(ps.last());
        let d = distinct(q);
        if !d.contains(ps.last()) {
            d.lemma_push_to_set_commute(ps.last());
        } else {
            assert(d.to_set().contains(ps.last()));
            assert(d.to_set().insert(ps.last()) =~= d.to_set());
        }
    }
}

/// Summarises one line as `KIND:ranges`: the line's identifiers must all
/// share one prefix, and their numbers, grouped into runs in the order they
/// come, are condensed.
pub fn process_line(line: &str) -> (r: Result<String, LineError>)
    ensures
        ({
            let ids = line_ids(line@);
            let kinds = distinct(prefixes(ids));
            &&& (r == Err::<String, LineError>(LineError::NoComponentType)) <==> ids.len() == 0
            &&& r is Ok <==> kinds.len() == 1
            &&& r is Err && r->Err_0 is MixedComponentTypes <==> kinds.len() > 1
            &&& kinds.len() == prefixes(ids).to_set().len()
            &&& r matches Ok(s) ==> s@ == summary(kinds[0], ids)
            &&& r matches Err(LineError::MixedComponentTypes(v)) ==> names_view(v@) == kinds
                && names_view(v@).to_set() == prefixes(ids).to_set()
                && names_view(v@).no_duplicates()
        }),
{
    let ids = extract_ids(line);
    let ghost all = ids_view(ids@);
    let mut kinds: Vec<String> = Vec::new();
    let mut nums: Vec<u32> = Vec::new();
    let mut i: usize = 0;
    while i < ids.len()
        invariant
            i <= ids.len(),
            all == ids_view(ids@),
            names_view(kinds@) == distinct(prefixes(all.subrange(0, i as int))),
            nums@ == numbers(all.subrange(0, i as int)),
        decreases ids.len() - i,
    {
        let ghost seen = all.subrange(0, i as int + 1);
        proof {
            assert(seen.drop_last() =~= all.subrange(0, i as int));
            assert(prefixes(seen).drop_last() =~= prefixes(all.subrange(0, i as int)));
            assert(prefixes(seen).last() == ids@[i as int].0@);
        }
        let kind = &ids[i].0;
        nums.push(ids[i].1);
        let mut found = false;
        let mut k: usize = 0;
        while k < kinds.len()
            invariant
                k <= kinds.len(),
                found == names_view(kinds@).subrange(0, k as int).contains(kind@),
            decreases kinds.len() - k,
        {
            let same = kinds[k] == *kind;
            proof {
                let ns = names_view(kinds@);
                let s0 = ns.subrange(0, k as int);
                let s1 = ns.subrange(0, k as int + 1);
                assert(ns[k as int] == kinds@[k as int]@);
                if same {
                    assert(s1[k as int] == kind@);
                }
                if s0.contains(kind@) {
                    let t = choose|t: int| 0 <= t < s0.len() && s0[t] == kind@;
                    assert(s1[t] == kind@);
                }
                if s1.contains(kind@) {
                    let t = choose|t: int| 0 <= t < s1.len() && s1[t] == kind@;
                    if t < k {
                        assert(s0[t] == kind@);
                    }
                }
            }
            if same {
                found = true;
            }
            k += 1;
        }
        assert(names_view(kinds@).subrange(0, kinds@.len() as int) =~= names_view(kinds@));
        if !found {
            let ghost before = names_view(kinds@);
            kinds.push(kind.clone());
            assert(names_view(kinds@) =~= before.push(kind@));
        }
        assert(nums@ =~= numbers(seen));
        i += 1;
    }
    proof {
        assert(all.subrange(0, all.len() as int) =~= all);
        lemma_distinct(prefixes(all));
    }
    if kinds.len() == 0 {
        return Err(LineError::NoComponentType);
    }
    if kinds.len() > 1 {
        return Err(LineError::MixedComponentTypes(kinds));
    }
    let condensed_runs = condense_ranges(find_number_ranges(nums));
    let mut out = kinds[0].clone();
    out.append(":");
    out.append(condensed_runs.as_str());
    proof {
        reveal_strlit(":");
        assert(out@ =~= summary(names_view(kinds@)[0], all));
    }
    Ok(out)
}

} // verus!
