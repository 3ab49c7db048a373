//! Which strokes can be picked on the canvas.
use vstd::prelude::*;

use crate::model::{Document, LayerId, LayerView, StrokeId};
use crate::positions::lemma_filter_map_has;

verus! {

/// A reference to a stroke by layer and stroke identifier.
#[derive(Clone, Copy, Debug, PartialEq, Eq, Hash, Structural)]
pub struct StrokeRef {
    pub layer_id: LayerId,
    pub stroke_id: StrokeId,
}

/// A stroke that can be picked: its reference and where it stands in the document.
#[derive(Clone, Copy, Debug, PartialEq, Eq, Structural)]
pub struct Pickable {
    pub reference: StrokeRef,
    pub layer_index: usize,
    pub stroke_index: usize,
}

/// The stroke at position `j` of layer `i`, when it can be picked: the layer
/// is visible and the stroke has at least one point.
pub open spec fn pick_at(layers: Seq<LayerView>, i: int, j: int) -> Option<Pickable> {
    if layers[i].visible && layers[i].strokes[j].points.len() > 0 {
        Some(
            Pickable {
                reference: StrokeRef { layer_id: layers[i].id, stroke_id: layers[i].strokes[j].id },
                layer_index: i as usize,
                stroke_index: j as usize,
            },
        )
    } else {
        None
    }
}

/// The strokes of layer `i` that can be picked, in order.
pub open spec fn layer_picks(layers: Seq<LayerView>, i: int) -> Seq<Pickable> {
    Seq::new(layers[i].strokes.len(), |j: int| j).filter_map(|j: int| pick_at(layers, i, j))
}

/// The strokes of the first `k` layers that can be picked, layer by layer.
pub open spec fn picks_upto(layers: Seq<LayerView>, k: int) -> Seq<Pickable>
    decreases k,
{
    if k <= 0 {
        Seq::empty()
    } else {
        picks_upto(layers, k - 1) + layer_picks(layers, k - 1)
    }
}

/// Every stroke that can be picked, from the bottom layer up and in the order
/// of each layer.
pub open spec fn picks(layers: Seq<LayerView>) -> Seq<Pickable> {
    picks_upto(layers, layers.len() as int)
}

/// The pick of stroke `j` of layer `i`, whatever the layer and stroke hold.
pub open spec fn pick_of(layers: Seq<LayerView>, i: int, j: int) -> Pickable {
    Pickable {
        reference: StrokeRef { layer_id: layers[i].id, stroke_id: layers[i].strokes[j].id },
        layer_index: i as usize,
        stroke_index: j as usize,
    }
}

/// Stroke `j` of layer `i` exists, has points, and its layer is visible.
pub open spec fn can_pick(layers: Seq<LayerView>, i: int, j: int) -> bool {
    &&& 0 <= i < layers.len()
    &&& 0 <= j < layers[i].strokes.len()
    &&& layers[i].visible
    &&& layers[i].strokes[j].points.len() > 0
}

proof fn lemma_picks_upto_complete(layers: Seq<LayerView>, k: int, i: int, j: int)
    requires
        0 <= i < k <= layers.len(),
        can_pick(layers, i, j),
    ensures
        picks_upto(layers, k).contains(pick_of(layers, i, j)),
    decreases k,
{
    let before = picks_upto(layers, k - 1);
    let here = layer_picks(layers, k - 1);
    assert(picks_upto(layers, k) == before + here);
    if i == k - 1 {
        let all = Seq::new(layers[i].strokes.len(), |t: int| t);
        let f = |t: int| pick_at(layers, i, t);
        assert(all[j] == j);
        lemma_filter_map_has(all, f, j);
        let q = choose|q: int| 0 <= q < here.len() && here[q] == pick_of(layers, i, j);
        assert((before + here)[before.len() + q] == pick_of(layers, i, j));
    } else {
        lemma_picks_upto_complete(layers, k - 1, i, j);
        let q = choose|q: int| 0 <= q < before.len() && before[q] == pick_of(layers, i, j);
        assert((before + here)[q] == pick_of(layers, i, j));
    }
}

proof fn lemma_picks_upto_sound(layers: Seq<LayerView>, k: int, p: Pickable)
    requires
        0 <= k <= layers.len(),
        picks_upto(layers, k).contains(p),
    ensures
        exists|i: int, j: int| i < k && can_pick(layers, i, j) && p == pick_of(layers, i, j),
    decreases k,
{
    if k > 0 {
        let before = picks_upto(layers, k - 1);
        let here = layer_picks(layers, k - 1);
        let all = Seq::new(layers[k - 1].strokes.len(), |t: int| t);
        let f = |t: int| pick_at(layers, k - 1, t);
        let r = before + here;
        assert(picks_upto(layers, k) == r);
        let q = choose|q: int| 0 <= q < r.len() && r[q] == p;
        if q < before.len() {
            assert(before[q] == p);
            lemma_picks_upto_sound(layers, k - 1, p);
        } else {
            assert(here[q - before.len()] == p);
            assert(here.contains(p));
            all.lemma_filter_map_contains(f, p);
            let t = choose|t: int| #[trigger] all.contains(t) && f(t) == Some(p);
            let u = choose|u: int| 0 <= u < all.len() && all[u] == t;
            assert(can_pick(layers, k - 1, t) && p == pick_of(layers, k - 1, t));
        }
    }
}

/// Exactly the strokes with points on visible layers can be picked: each
/// such stroke has its pick, naming it by layer and stroke identifiers and by
/// positions, and every pick is the pick of such a stroke.
pub proof fn lemma_picks_exactly(layers: Seq<LayerView>)
    ensures
        forall|i: int, j: int| #[trigger] can_pick(layers, i, j) ==> picks(layers).contains(pick_of(layers, i, j)),
        forall|p: Pickable| #[trigger] picks(layers).contains(p) ==> exists|i: int, j: int|
            can_pick(layers, i, j) && p == pick_of(layers, i, j),
{
    assert forall|i: int, j: int| #[trigger] can_pick(layers, i, j) implies picks(layers).contains(
        pick_of(layers, i, j),
    ) by {
        lemma_picks_upto_complete(layers, layers.len() as int, i, j);
    }
    assert forall|p: Pickable| #[trigger] picks(layers).contains(p) implies exists|i: int, j: int|
        can_pick(layers, i, j) && p == pick_of(layers, i, j) by {
        lemma_picks_upto_sound(layers, layers.len() as int, p);
    }
}

/// The strokes that can be picked: strokes with points on visible layers.
pub fn pickable_strokes(document: &Document) -> (found: Vec<Pickable>)
    ensures
        found@ == picks(document@.layers),
        forall|i: int, j: int| #[trigger] can_pick(document@.layers, i, j) ==> found@.contains(
            pick_of(document@.layers, i, j),
        ),
        forall|p: Pickable| #[trigger] found@.contains(p) ==> exists|i: int, j: int|
            can_pick(document@.layers, i, j) && p == pick_of(document@.layers, i, j),
{
    let ghost layers = document@.layers;
    let mut found: Vec<Pickable> = Vec::new();
    let n = document.layers.len();
    let mut i: usize = 0;
    while i < n
        invariant
            layers == document@.layers,
            n == layers.len(),
            i <= n,
            found@ == picks_upto(layers, i as int),
        decreases n - i,
    {
        let layer = &document.layers[i];
        let m = layer.strokes.len();
        let ghost all = Seq::new(m as nat, |j: int| j);
        let ghost before = found@;
        let mut j: usize = 0;
        while j < m
            invariant
                layers == document@.layers,
                i < n,
                n == layers.len(),
                layer == &document.layers@[i as int],
                m == layers[i as int].strokes.len(),
                all == Seq::new(m as nat, |j: int| j),
                j <= m,
                found@ == before + all.take(j as int).filter_map(|j: int| pick_at(layers, i as int, j)),
            decreases m - j,
        {
            proof {
                assert(all.take(j + 1).drop_last() =~= all.take(j as int));
                assert(layers[i as int].strokes[j as int] == layer.strokes@[j as int]@);
            }
            if layer.visible && layer.strokes[j].points.len() > 0 {
                found.push(
                    Pickable {
                        reference: StrokeRef { layer_id: layer.id, stroke_id: layer.strokes[j].id },
                        layer_index: i,
                        stroke_index: j,
                    },
                );
                proof {
                    let f = |j: int| pick_at(layers, i as int, j);
                    assert(all.take(j + 1).filter_map(f) == all.take(j as int).filter_map(f) + seq![
                        f(j as int)->0,
                    ]);
                    assert(found@ =~= before + all.take(j + 1).filter_map(f));
                }
            }
            j += 1;
        }
        proof {
            assert(all.take(m as int) =~= all);
        }
        i += 1;
    }
    proof {
        lemma_picks_exactly(layers);
    }
    found
}

} // verus!
