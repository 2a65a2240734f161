//! Reading the Fiedler vector out of a one-dimensional spectral embedding.

use vstd::prelude::*;

verus! {

/// The first coordinate of a row, or `zero` for an empty row.
pub open spec fn first_or<T>(row: Seq<T>, zero: T) -> T {
    if row.len() > 0 { row[0] } else { zero }
}

/// Whether the embedding is read at all: it must have one row per node of a
/// graph of at least two nodes.
pub open spec fn embedding_usable(rows: nat, nodes: nat) -> bool {
    rows == nodes && nodes > 1
}

/// The embedding is read exactly when it has one row per node and there are
/// at least two nodes; a row gives its first coordinate, an empty row `zero`.
pub proof fn lemma_fiedler_reading<T>(rows: nat, nodes: nat, row: Seq<T>, zero: T)
    ensures
        embedding_usable(rows, nodes) <==> (rows == nodes && 2 <= nodes),
        row.len() > 0 ==> first_or(row, zero) == row[0],
        row.len() == 0 ==> first_or(row, zero) == zero,
{
}

/// Each location paired with its Fiedler coordinate. When the embedding has
/// one row per node (`nodes` of them, at least two), location `i` gets the
/// first coordinate of row `i`, or `zero` for an empty row; otherwise every
/// location gets `zero`.
pub fn fiedler_vector<T: Copy>(locations: &Vec<String>, nodes: usize, embedding: &Vec<Vec<T>>, zero: T)
    -> (coords: Vec<(String, T)>)
    requires
        embedding_usable(embedding.len() as nat, nodes as nat) ==> locations.len() <= embedding.len(),
    ensures
        coords.len() == locations.len(),
        forall|i: int| 0 <= i < locations.len() ==> (#[trigger] coords@[i]).0 == locations@[i],
        forall|i: int| 0 <= i < locations.len() ==> (#[trigger] coords@[i]).1 == (
            if embedding_usable(embedding.len() as nat, nodes as nat) {
                first_or(embedding@[i]@, zero)
            } else {
                zero
            }),
        embedding.len() == nodes && nodes >= 2 ==> forall|i: int| 0 <= i < locations.len() ==>
            (#[trigger] coords@[i]).1 == (if embedding@[i]@.len() > 0 { embedding@[i]@[0] } else { zero }),
        !(embedding.len() == nodes && nodes >= 2) ==> forall|i: int| 0 <= i < locations.len() ==>
            (#[trigger] coords@[i]).1 == zero,
{
    let usable = embedding.len() == nodes && nodes > 1;
    let mut coords: Vec<(String, T)> = Vec::new();
    let mut i: usize = 0;
    while i < locations.len()
        invariant
            i <= locations.len(),
            usable == embedding_usable(embedding.len() as nat, nodes as nat),
            usable ==> locations.len() <= embedding.len(),
            coords.len() == i,
            forall|r: int| 0 <= r < i ==> (#[trigger] coords@[r]).0 == locations@[r],
            forall|r: int| 0 <= r < i ==> (#[trigger] coords@[r]).1 == (
                if usable { first_or(embedding@[r]@, zero) } else { zero }),
        decreases locations.len() - i,
    {
        let value: T = if usable {
            let row = &embedding[i];
            if row.len() > 0 { row[0] } else { zero }
        } else {
            zero
        };
        coords.push((locations[i].clone(), value));
        i = i + 1;
    }
    coords
}

} // verus!
