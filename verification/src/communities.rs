//! Spectral communities: the number of clusters asked for, attaching cluster
//! labels to locations, and grouping locations by label for the report.

use vstd::prelude::*;

verus! {

/// The number of clusters asked of the graph: the requested number, at least
/// one, at most the number of locations.
pub open spec fn cluster_count_spec(requested: nat, n: nat) -> nat {
    let at_least_one = if requested < 1 { 1 } else { requested };
    if at_least_one < n { at_least_one } else { n }
}

/// `requested`, raised to 1 and then capped at `n`.
pub fn cluster_count(requested: usize, n: usize) -> (k: usize)
    ensures
        k == cluster_count_spec(requested as nat, n as nat),
        1 <= requested <= n ==> k == requested,
        n < requested ==> k == n,
        requested == 0 && 1 <= n ==> k == 1,
        n == 0 ==> k == 0,
{
    let at_least_one = if requested < 1 { 1 } else { requested };
    if at_least_one < n { at_least_one } else { n }
}

/// The label that location `i` receives from a label list: its own entry
/// where there is one, else 0.
pub open spec fn label_at(labels: Seq<usize>, i: int) -> usize {
    if 0 <= i < labels.len() { labels[i] } else { 0 }
}

/// The cluster count is the request itself whenever it lies between 1 and the
/// number of locations, the number of locations when the request exceeds it,
/// and 1 for a request of 0 (when there is at least one location).
pub proof fn lemma_cluster_count_clamps(requested: nat, n: nat)
    ensures
        1 <= requested <= n ==> cluster_count_spec(requested, n) == requested,
        n < requested ==> cluster_count_spec(requested, n) == n,
        requested == 0 && 1 <= n ==> cluster_count_spec(requested, n) == 1,
        cluster_count_spec(requested, n) <= n,
        1 <= n ==> 1 <= cluster_count_spec(requested, n),
{
}

/// A location with an entry in the label list takes that entry unchanged;
/// one beyond the list takes 0.
pub proof fn lemma_label_at_reads(labels: Seq<usize>, i: int)
    ensures
        0 <= i < labels.len() ==> label_at(labels, i) == labels[i],
        labels.len() <= i ==> label_at(labels, i) == 0,
{
}

/// Each location paired, in order, with its cluster label (0 where the label
/// list is too short).
pub fn pair_communities(locations: &Vec<String>, labels: &Vec<usize>) -> (communities: Vec<(String, usize)>)
    ensures
        communities.len() == locations.len(),
        forall|i: int| 0 <= i < locations.len() ==> (#[trigger] communities@[i]).0 == locations@[i],
        forall|i: int| 0 <= i < locations.len() ==> (#[trigger] communities@[i]).1 == label_at(labels@, i),
        forall|i: int| 0 <= i < locations.len() && i < labels.len() ==> (#[trigger] communities@[i]).1 == labels@[i],
        forall|i: int| labels.len() <= i < locations.len() ==> (#[trigger] communities@[i]).1 == 0,
{
    let mut communities: Vec<(String, usize)> = Vec::new();
    let mut i: usize = 0;
    while i < locations.len()
        invariant
            i <= locations.len(),
            communities.len() == i,
            forall|r: int| 0 <= r < i ==> (#[trigger] communities@[r]).0 == locations@[r],
            forall|r: int| 0 <= r < i ==> (#[trigger] communities@[r]).1 == label_at(labels@, r),
        decreases locations.len() - i,
    {
        let label = if i < labels.len() { labels[i] } else { 0 };
        communities.push((locations[i].clone(), label));
        i = i + 1;
    }
    communities
}

/// Some entry carries `label`.
pub open spec fn has_label(s: Seq<(String, usize)>, label: usize) -> bool {
    exists|i: int| 0 <= i < s.len() && (#[trigger] s[i]).1 == label
}

/// The names of the entries that carry `label`, in entry order.
pub open spec fn members_of(s: Seq<(String, usize)>, label: usize) -> Seq<String>
    decreases s.len(),
{
    if s.len() == 0 {
        Seq::empty()
    } else {
        let before = members_of(s.drop_last(), label);
        if s.last().1 == label {
            before.push(s.last().0)
        } else {
            before
        }
    }
}

/// The members of a label are exactly the entries carrying it, filtered in
/// order, with their names.
pub proof fn lemma_members_of_is_filter(s: Seq<(String, usize)>, label: usize)
    ensures
        members_of(s, label) == s.filter(|e: (String, usize)| e.1 == label).map_values(|e: (String, usize)| e.0),
    decreases s.len(),
{
    reveal_with_fuel(Seq::filter, 1);
    if s.len() > 0 {
        lemma_members_of_is_filter(s.drop_last(), label);
        assert(s.filter(|e: (String, usize)| e.1 == label).map_values(|e: (String, usize)| e.0)
            =~= members_of(s, label));
    } else {
        assert(s.filter(|e: (String, usize)| e.1 == label).map_values(|e: (String, usize)| e.0)
            =~= members_of(s, label));
    }
}

/// `groups` lists the communities of `s`: one group per label that occurs,
/// in strictly increasing label order, each with the names that carry its
/// label in their original order.
pub open spec fn is_grouping(s: Seq<(String, usize)>, groups: Seq<(usize, Vec<String>)>) -> bool {
    &&& forall|g: int| 0 <= g < groups.len() ==> has_label(s, (#[trigger] groups[g]).0)
    &&& forall|i: int| 0 <= i < s.len() ==> exists|g: int| 0 <= g < groups.len() && (#[trigger] groups[g]).0 == (#[trigger] s[i]).1
    &&& forall|g: int, h: int| 0 <= g < h < groups.len() ==> (#[trigger] groups[g]).0 < (#[trigger] groups[h]).0
    &&& forall|g: int| 0 <= g < groups.len() ==> (#[trigger] groups[g]).1@ == members_of(s, groups[g].0)
}

/// How many entries carry a label no greater than `bound`.
spec fn count_at_most(s: Seq<(String, usize)>, bound: usize) -> nat
    decreases s.len(),
{
    if s.len() == 0 {
        0
    } else {
        count_at_most(s.drop_last(), bound) + if s.last().1 <= bound { 1nat } else { 0nat }
    }
}

proof fn lemma_count_at_most_bounded(s: Seq<(String, usize)>, bound: usize)
    ensures
        count_at_most(s, bound) <= s.len(),
    decreases s.len(),
{
    if s.len() > 0 {
        lemma_count_at_most_bounded(s.drop_last(), bound);
    }
}

proof fn lemma_count_at_most_grows(s: Seq<(String, usize)>, low: usize, high: usize, w: int)
    requires
        low < high,
        0 <= w < s.len(),
        s[w].1 == high,
    ensures
        count_at_most(s, low) < count_at_most(s, high),
    decreases s.len(),
{
    if w == s.len() - 1 {
        lemma_count_at_most_monotone(s.drop_last(), low, high);
    } else {
        assert(s.drop_last()[w] == s[w]);
        lemma_count_at_most_grows(s.drop_last(), low, high, w);
    }
}

proof fn lemma_count_at_most_monotone(s: Seq<(String, usize)>, low: usize, high: usize)
    requires
        low <= high,
    ensures
        count_at_most(s, low) <= count_at_most(s, high),
    decreases s.len(),
{
    if s.len() > 0 {
        lemma_count_at_most_monotone(s.drop_last(), low, high);
    }
}

/// The names that carry `label`, in order.
fn collect_members(communities: &Vec<(String, usize)>, label: usize) -> (members: Vec<String>)
    ensures
        members@ == members_of(communities@, label),
{
    let mut members: Vec<String> = Vec::new();
    let mut i: usize = 0;
    while i < communities.len()
        invariant
            i <= communities.len(),
            members@ == members_of(communities@.take(i as int), label),
        decreases communities.len() - i,
    {
        proof {
            assert(communities@.take(i + 1).drop_last() =~= communities@.take(i as int));
        }
        if communities[i].1 == label {
            members.push(communities[i].0.clone());
        }
        i = i + 1;
    }
    proof {
        assert(communities@.take(communities.len() as int) =~= communities@);
    }
    members
}

/// Groups the locations by community label, as the report lists them: one
/// group per label that occurs, labels ascending, members in location order.
pub fn group_communities(communities: &Vec<(String, usize)>) -> (groups: Vec<(usize, Vec<String>)>)
    ensures
        is_grouping(communities@, groups@),
{
    let ghost s = communities@;
    let mut groups: Vec<(usize, Vec<String>)> = Vec::new();
    let mut started: bool = false;
    let mut floor: usize = 0;
    loop
        invariant
            s == communities@,
            started <==> groups.len() > 0,
            started ==> floor == groups@[groups.len() - 1].0,
            forall|g: int| 0 <= g < groups.len() ==> has_label(s, (#[trigger] groups@[g]).0),
            forall|g: int, h: int| 0 <= g < h < groups.len() ==> (#[trigger] groups@[g]).0 < (#[trigger] groups@[h]).0,
            forall|g: int| 0 <= g < groups.len() ==> (#[trigger] groups@[g]).1@ == members_of(s, groups@[g].0),
            forall|i: int| 0 <= i < s.len() && started && (#[trigger] s[i]).1 <= floor
                ==> exists|g: int| 0 <= g < groups.len() && (#[trigger] groups@[g]).0 == s[i].1,
        ensures
            is_grouping(s, groups@),
        decreases (if started { s.len() - count_at_most(s, floor) } else { s.len() + 1int }),
    {
        let ghost old_groups = groups@;
        let mut found: bool = false;
        let mut best: usize = 0;
        let mut i: usize = 0;
        while i < communities.len()
            invariant
                s == communities@,
                i <= communities.len(),
                !found ==> forall|k: int| 0 <= k < i && started ==> (#[trigger] s[k]).1 <= floor,
                !started && i > 0 ==> found,
                found ==> exists|k: int| 0 <= k < i && (#[trigger] s[k]).1 == best,
                found ==> (!started || best > floor),
                found ==> forall|k: int| 0 <= k < i && (!started || (#[trigger] s[k]).1 > floor) ==> best <= s[k].1,
            decreases communities.len() - i,
        {
            let label = communities[i].1;
            if !started || label > floor {
                if !found || label < best {
                    best = label;
                    found = true;
                }
            }
            i = i + 1;
        }
        if !found {
            proof {
                if !started {
                    assert(s.len() == 0);
                }
            }
            break;
        }
        let members = collect_members(communities, best);
        proof {
            if started {
                let w = choose|k: int| 0 <= k < s.len() && (#[trigger] s[k]).1 == best;
                lemma_count_at_most_grows(s, floor, best, w);
            }
            lemma_count_at_most_bounded(s, best);
        }
        groups.push((best, members));
        proof {
            assert forall|j: int| 0 <= j < s.len() && (#[trigger] s[j]).1 <= best
                implies exists|g: int| 0 <= g < groups.len() && (#[trigger] groups@[g]).0 == s[j].1 by {
                if started && s[j].1 <= floor {
                    let g = choose|g: int| 0 <= g < old_groups.len() && (#[trigger] old_groups[g]).0 == s[j].1;
                    assert(groups@[g] == old_groups[g]);
                } else {
                    assert(groups@[groups.len() - 1].0 == s[j].1);
                }
            }
        }
        floor = best;
        started = true;
    }
    groups
}

/// Total number of names over all groups.
pub open spec fn total_members(groups: Seq<(usize, Vec<String>)>) -> nat
    decreases groups.len(),
{
    if groups.len() == 0 {
        0
    } else {
        total_members(groups.drop_last()) + groups.last().1@.len()
    }
}

/// Sum, over the labels of `labels`, of how many entries of `s` carry each.
spec fn label_sizes(s: Seq<(String, usize)>, labels: Seq<usize>) -> nat
    decreases labels.len(),
{
    if labels.len() == 0 {
        0
    } else {
        label_sizes(s, labels.drop_last()) + members_of(s, labels.last()).len()
    }
}

/// How many positions of `labels` hold `x`.
spec fn hits(labels: Seq<usize>, x: usize) -> nat
    decreases labels.len(),
{
    if labels.len() == 0 {
        0
    } else {
        hits(labels.drop_last(), x) + if labels.last() == x { 1nat } else { 0nat }
    }
}

proof fn lemma_label_sizes_step(s: Seq<(String, usize)>, labels: Seq<usize>)
    requires
        s.len() > 0,
    ensures
        label_sizes(s, labels) == label_sizes(s.drop_last(), labels) + hits(labels, s.last().1),
    decreases labels.len(),
{
    if labels.len() > 0 {
        lemma_label_sizes_step(s, labels.drop_last());
    }
}

proof fn lemma_label_sizes_empty(s: Seq<(String, usize)>, labels: Seq<usize>)
    requires
        s.len() == 0,
    ensures
        label_sizes(s, labels) == 0,
    decreases labels.len(),
{
    if labels.len() > 0 {
        lemma_label_sizes_empty(s, labels.drop_last());
    }
}

proof fn lemma_hits_once(labels: Seq<usize>, x: usize)
    requires
        forall|a: int, b: int| 0 <= a < b < labels.len() ==> labels[a] < labels[b],
        labels.contains(x),
    ensures
        hits(labels, x) == 1,
    decreases labels.len(),
{
    let rest = labels.drop_last();
    if labels.last() == x {
        lemma_hits_absent(rest, x);
    } else {
        let w = choose|w: int| 0 <= w < labels.len() && labels[w] == x;
        assert(rest[w] == x);
        lemma_hits_once(rest, x);
    }
}

proof fn lemma_hits_absent(labels: Seq<usize>, x: usize)
    requires
        !labels.contains(x),
    ensures
        hits(labels, x) == 0,
    decreases labels.len(),
{
    if labels.len() > 0 {
        assert(labels[labels.len() - 1] == labels.last());
        assert(!labels.drop_last().contains(x)) by {
            if labels.drop_last().contains(x) {
                let w = choose|w: int| 0 <= w < labels.drop_last().len() && labels.drop_last()[w] == x;
                assert(labels[w] == x);
            }
        }
        lemma_hits_absent(labels.drop_last(), x);
    }
}

proof fn lemma_label_sizes_cover(s: Seq<(String, usize)>, labels: Seq<usize>)
    requires
        forall|a: int, b: int| 0 <= a < b < labels.len() ==> labels[a] < labels[b],
        forall|i: int| 0 <= i < s.len() ==> labels.contains((#[trigger] s[i]).1),
    ensures
        label_sizes(s, labels) == s.len(),
    decreases s.len(),
{
    if s.len() == 0 {
        lemma_label_sizes_empty(s, labels);
    } else {
        let p = s.drop_last();
        assert forall|i: int| 0 <= i < p.len() implies labels.contains((#[trigger] p[i]).1) by {
            assert(p[i] == s[i]);
        }
        lemma_label_sizes_cover(p, labels);
        lemma_label_sizes_step(s, labels);
        assert(s[s.len() - 1] == s.last());
        lemma_hits_once(labels, s.last().1);
    }
}

proof fn lemma_total_is_label_sizes(s: Seq<(String, usize)>, groups: Seq<(usize, Vec<String>)>)
    requires
        forall|g: int| 0 <= g < groups.len() ==> (#[trigger] groups[g]).1@ == members_of(s, groups[g].0),
    ensures
        total_members(groups) == label_sizes(s, groups.map_values(|g: (usize, Vec<String>)| g.0)),
    decreases groups.len(),
{
    if groups.len() > 0 {
        let rest = groups.drop_last();
        assert forall|g: int| 0 <= g < rest.len() implies (#[trigger] rest[g]).1@ == members_of(s, rest[g].0) by {
            assert(rest[g] == groups[g]);
        }
        lemma_total_is_label_sizes(s, rest);
        assert(groups.map_values(|g: (usize, Vec<String>)| g.0).drop_last()
            =~= rest.map_values(|g: (usize, Vec<String>)| g.0));
        assert(groups[groups.len() - 1] == groups.last());
    }
}

/// The communities partition the locations: over all groups there are exactly
/// as many names as there are entries.
pub proof fn lemma_grouping_partitions(s: Seq<(String, usize)>, groups: Seq<(usize, Vec<String>)>)
    requires
        is_grouping(s, groups),
    ensures
        total_members(groups) == s.len(),
{
    let labels = groups.map_values(|g: (usize, Vec<String>)| g.0);
    assert forall|i: int| 0 <= i < s.len() implies labels.contains((#[trigger] s[i]).1) by {
        let g = choose|g: int| 0 <= g < groups.len() && (#[trigger] groups[g]).0 == s[i].1;
        assert(labels[g] == s[i].1);
    }
    assert forall|a: int, b: int| 0 <= a < b < labels.len() implies labels[a] < labels[b] by {
        assert(labels[a] == groups[a].0 && labels[b] == groups[b].0);
    }
    lemma_label_sizes_cover(s, labels);
    lemma_total_is_label_sizes(s, groups);
}

/// Every entry is listed in the group of its own label.
pub proof fn lemma_grouping_lists_each(s: Seq<(String, usize)>, groups: Seq<(usize, Vec<String>)>, i: int)
    requires
        is_grouping(s, groups),
        0 <= i < s.len(),
    ensures
        exists|g: int| 0 <= g < groups.len() && (#[trigger] groups[g]).0 == s[i].1 && groups[g].1@.contains(s[i].0),
{
    let g = choose|g: int| 0 <= g < groups.len() && (#[trigger] groups[g]).0 == s[i].1;
    lemma_members_of_lists(s, i);
    assert(groups[g].0 == s[i].1 && groups[g].1@.contains(s[i].0));
}

proof fn lemma_members_of_lists(s: Seq<(String, usize)>, i: int)
    requires
        0 <= i < s.len(),
    ensures
        members_of(s, s[i].1).contains(s[i].0),
    decreases s.len(),
{
    let label = s[i].1;
    if i == s.len() - 1 {
        let m = members_of(s, label);
        assert(m[m.len() - 1] == s[i].0);
    } else {
        let p = s.drop_last();
        assert(p[i] == s[i]);
        lemma_members_of_lists(p, i);
        let w = choose|w: int| 0 <= w < members_of(p, label).len() && members_of(p, label)[w] == s[i].0;
        assert(members_of(s, label)[w] == s[i].0);
    }
}

} // verus!
