//! The spectral graph of the `cathedral_probe` crate, as seen from verified code.

use vstd::prelude::*;
use cathedral_probe::CathedralProbe;

verus! {

#[verifier::external_type_specification]
#[verifier::external_body]
pub struct ExCathedralProbe(CathedralProbe);

/// The node names a `CathedralProbe` holds, in index order.
pub uninterp spec fn probe_nodes(g: CathedralProbe) -> Seq<Seq<char>>;

/// The number of edges a `CathedralProbe` holds.
pub uninterp spec fn probe_edge_count(g: CathedralProbe) -> nat;

/// `CathedralProbe::new`: the graph it returns has exactly the given names
/// as its nodes, in the given order (its source copies them one for one), and
/// no edges (its source starts the edge list empty).
#[verifier::external_body]
fn probe_new(names: Vec<&str>) -> (g: CathedralProbe)
    ensures
        probe_nodes(g) == names@.map_values(|s: &str| s@),
        probe_edge_count(g) == 0,
{
    CathedralProbe::new(names)
}

/// A graph whose nodes are the given locations, in order, with no edges yet.
pub fn location_probe(locations: &Vec<String>) -> (g: CathedralProbe)
    ensures
        probe_nodes(g) == locations@.map_values(|s: String| s@),
        probe_edge_count(g) == 0,
{
    let mut names: Vec<&str> = Vec::new();
    let mut i: usize = 0;
    while i < locations.len()
        invariant
            i <= locations.len(),
            names.len() == i,
            forall|k: int| 0 <= k < i ==> names@[k]@ == locations@[k]@,
        decreases locations.len() - i,
    {
        names.push(locations[i].as_str());
        i = i + 1;
    }
    assert(names@.map_values(|s: &str| s@) =~= locations@.map_values(|s: String| s@));
    probe_new(names)
}

} // verus!
