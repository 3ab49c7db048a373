//! Reversible edits of a document, for undo and redo.
use vstd::prelude::*;

use crate::model::{
    group_view_edits, has_stroke, layer_position, layer_views, lemma_layer_position,
    lemma_layer_position_cases, lemma_stroke_position, lemma_stroke_position_cases, stroke_index, stroke_position, stroke_views, with_layer,
    with_strokes, Document, DocumentView, Layer, LayerId, LayerView, Stroke, StrokeId, StrokeView,
};
use crate::stable_order::{
    item_at_rank, lemma_item_at_rank_unique, lemma_rank_onto, stable_rank, stable_ranks,
    stably_sorted,
};

verus! {

broadcast use group_view_edits;

/// An edit of a document that can be applied and reverted.
#[derive(Clone, Debug, PartialEq, Eq)]
#[allow(inconsistent_fields)]
pub enum Command {
    /// Insert `stroke` at `index` in a layer.
    AddStroke { layer_id: LayerId, stroke: Stroke, index: usize },
    /// Remove `strokes` from a layer; `indices` are where they stood.
    RemoveStrokes { layer_id: LayerId, strokes: Vec<Stroke>, indices: Vec<usize> },
    /// Replace strokes of a layer, matched by identifier, by their new versions.
    ModifyStrokes { layer_id: LayerId, before: Vec<Stroke>, after: Vec<Stroke> },
    /// Insert `layer` at `index` and make another layer active.
    AddLayer {
        layer: Layer,
        index: usize,
        previous_active_layer_id: LayerId,
        new_active_layer_id: LayerId,
    },
    /// Remove `layer`, which stood at `index`, and make another layer active.
    RemoveLayer {
        layer: Layer,
        index: usize,
        previous_active_layer_id: LayerId,
        new_active_layer_id: LayerId,
    },
    /// Move the layer at `from` to `to`.
    ReorderLayer { from: usize, to: usize },
    /// Replace a layer, matched by identifier, by a new version.
    SetLayer { before: Layer, after: Layer },
    /// Change the background colour.
    SetBackgroundColor { before: [u32; 4], after: [u32; 4] },
}

/// The mathematical value of a command.
#[allow(inconsistent_fields)]
pub enum CommandView {
    AddStroke { layer_id: LayerId, stroke: StrokeView, index: usize },
    RemoveStrokes { layer_id: LayerId, strokes: Seq<StrokeView>, indices: Seq<usize> },
    ModifyStrokes { layer_id: LayerId, before: Seq<StrokeView>, after: Seq<StrokeView> },
    AddLayer {
        layer: LayerView,
        index: usize,
        previous_active_layer_id: LayerId,
        new_active_layer_id: LayerId,
    },
    RemoveLayer {
        layer: LayerView,
        index: usize,
        previous_active_layer_id: LayerId,
        new_active_layer_id: LayerId,
    },
    ReorderLayer { from: usize, to: usize },
    SetLayer { before: LayerView, after: LayerView },
    SetBackgroundColor { before: [u32; 4], after: [u32; 4] },
}

impl View for Command {
    type V = CommandView;

    open spec fn view(&self) -> CommandView {
        match *self {
            Command::AddStroke { layer_id, stroke, index } => CommandView::AddStroke {
                layer_id,
                stroke: stroke@,
                index,
            },
            Command::RemoveStrokes { layer_id, strokes, indices } => CommandView::RemoveStrokes {
                layer_id,
                strokes: stroke_views(strokes@),
                indices: indices@,
            },
            Command::ModifyStrokes { layer_id, before, after } => CommandView::ModifyStrokes {
                layer_id,
                before: stroke_views(before@),
                after: stroke_views(after@),
            },
            Command::AddLayer { layer, index, previous_active_layer_id, new_active_layer_id } =>
                CommandView::AddLayer {
                layer: layer@,
                index,
                previous_active_layer_id,
                new_active_layer_id,
            },
            Command::RemoveLayer { layer, index, previous_active_layer_id, new_active_layer_id } =>
                CommandView::RemoveLayer {
                layer: layer@,
                index,
                previous_active_layer_id,
                new_active_layer_id,
            },
            Command::ReorderLayer { from, to } => CommandView::ReorderLayer { from, to },
            Command::SetLayer { before, after } => CommandView::SetLayer {
                before: before@,
                after: after@,
            },
            Command::SetBackgroundColor { before, after } => CommandView::SetBackgroundColor {
                before,
                after,
            },
        }
    }
}

// ---------------------------------------------------------------------------
// What the commands do, stated on values.

/// The smaller of `i` and `len`: a position clamped to the end of a sequence.
pub open spec fn clamp_to(i: int, len: int) -> int {
    if i < len {
        i
    } else {
        len
    }
}

/// `d` with the strokes of its first layer with identifier `layer_id` replaced
/// by `f` of them; `d` itself when there is no such layer.
pub open spec fn on_layer_strokes(
    d: DocumentView,
    layer_id: LayerId,
    f: spec_fn(Seq<StrokeView>) -> Seq<StrokeView>,
) -> DocumentView {
    match layer_position(d.layers, layer_id) {
        Some(i) => with_layer(d, i, with_strokes(d.layers[i], f(d.layers[i].strokes))),
        None => d,
    }
}

/// `strokes` without those whose identifier is `id`.
pub open spec fn without_id(strokes: Seq<StrokeView>, id: StrokeId) -> Seq<StrokeView> {
    strokes.filter(|s: StrokeView| s.id != id)
}

/// `strokes` without those whose identifier is one of the identifiers in `removed`.
pub open spec fn without_ids_of(strokes: Seq<StrokeView>, removed: Seq<StrokeView>) -> Seq<StrokeView> {
    strokes.filter(|s: StrokeView| !has_stroke(removed, s.id))
}

/// `strokes` with its first stroke of the identifier of `r` replaced by `r`;
/// unchanged without such a stroke.
pub open spec fn replace_first(strokes: Seq<StrokeView>, r: StrokeView) -> Seq<StrokeView> {
    match stroke_position(strokes, r.id) {
        Some(j) => strokes.update(j, r),
        None => strokes,
    }
}

/// `replace_first` with each of `rs` in turn.
pub open spec fn replace_each(strokes: Seq<StrokeView>, rs: Seq<StrokeView>) -> Seq<StrokeView>
    decreases rs.len(),
{
    if rs.len() == 0 {
        strokes
    } else {
        replace_first(replace_each(strokes, rs.drop_last()), rs.last())
    }
}

/// Inserts each stroke of `pairs` in turn at its position, clamped to the
/// current length.
pub open spec fn reinsert(strokes: Seq<StrokeView>, pairs: Seq<(usize, StrokeView)>) -> Seq<StrokeView>
    decreases pairs.len(),
{
    if pairs.len() == 0 {
        strokes
    } else {
        let t = reinsert(strokes, pairs.drop_last());
        t.insert(clamp_to(pairs.last().0 as int, t.len() as int), pairs.last().1)
    }
}

/// The pairs (position, stroke) of a removal, as many as both lists have.
pub open spec fn removal_pairs(indices: Seq<usize>, strokes: Seq<StrokeView>) -> Seq<(usize, StrokeView)> {
    let n = if indices.len() < strokes.len() { indices.len() } else { strokes.len() };
    Seq::new(n, |k: int| (indices[k], strokes[k]))
}

/// The positions of the removal pairs.
pub open spec fn pair_keys(pairs: Seq<(usize, StrokeView)>) -> Seq<usize> {
    pairs.map_values(|p: (usize, StrokeView)| p.0)
}

/// The removal pairs stably sorted by position.
pub open spec fn sorted_removal_pairs(indices: Seq<usize>, strokes: Seq<StrokeView>) -> Seq<(usize, StrokeView)> {
    let pairs = removal_pairs(indices, strokes);
    stably_sorted(pairs, pair_keys(pairs))
}

/// `layers` without those whose identifier is `id`.
pub open spec fn without_layer_id(layers: Seq<LayerView>, id: LayerId) -> Seq<LayerView> {
    layers.filter(|l: LayerView| l.id != id)
}

/// `layers` with its first layer of the identifier of `l` replaced by `l`;
/// unchanged without such a layer.
pub open spec fn replace_first_layer(layers: Seq<LayerView>, l: LayerView) -> Seq<LayerView> {
    match layer_position(layers, l.id) {
        Some(i) => layers.update(i, l),
        None => layers,
    }
}

/// `layers` with the layer at `from` moved to `to` (clamped); unchanged when
/// `from` is out of range.
pub open spec fn move_layer(layers: Seq<LayerView>, from: int, to: int) -> Seq<LayerView> {
    if layers.len() == 0 || from >= layers.len() {
        layers
    } else {
        let rest = layers.remove(from);
        rest.insert(clamp_to(to, rest.len() as int), layers[from])
    }
}

impl CommandView {
    /// The document after applying this command to `d`.
    pub open spec fn applied_to(self, d: DocumentView) -> DocumentView {
        match self {
            CommandView::AddStroke { layer_id, stroke, index } => on_layer_strokes(
                d,
                layer_id,
                |s: Seq<StrokeView>| s.insert(clamp_to(index as int, s.len() as int), stroke),
            ),
            CommandView::RemoveStrokes { layer_id, strokes, indices } => on_layer_strokes(
                d,
                layer_id,
                |s: Seq<StrokeView>| without_ids_of(s, strokes),
            ),
            CommandView::ModifyStrokes { layer_id, before, after } => on_layer_strokes(
                d,
                layer_id,
                |s: Seq<StrokeView>| replace_each(s, after),
            ),
            CommandView::AddLayer { layer, index, previous_active_layer_id, new_active_layer_id } =>
                DocumentView {
                layers: d.layers.insert(clamp_to(index as int, d.layers.len() as int), layer),
                active_layer_id: new_active_layer_id,
                ..d
            },
            CommandView::RemoveLayer { layer, index, previous_active_layer_id, new_active_layer_id } => {
                let n = d.layers.len() as int;
                let at = if n == 0 { 0 } else { clamp_to(index as int, n - 1) };
                DocumentView {
                    layers: if at < n && d.layers[at].id == layer.id {
                        d.layers.remove(at)
                    } else {
                        without_layer_id(d.layers, layer.id)
                    },
                    active_layer_id: new_active_layer_id,
                    ..d
                }
            },
            CommandView::ReorderLayer { from, to } => DocumentView {
                layers: move_layer(d.layers, from as int, to as int),
                ..d
            },
            CommandView::SetLayer { before, after } => DocumentView {
                layers: replace_first_layer(d.layers, after),
                ..d
            },
            CommandView::SetBackgroundColor { before, after } => DocumentView {
                background_color: after,
                ..d
            },
        }
    }

    /// The document after reverting this command on `d`.
    pub open spec fn reverted_from(self, d: DocumentView) -> DocumentView {
        match self {
            CommandView::AddStroke { layer_id, stroke, index } => on_layer_strokes(
                d,
                layer_id,
                |s: Seq<StrokeView>| without_id(s, stroke.id),
            ),
            CommandView::RemoveStrokes { layer_id, strokes, indices } => on_layer_strokes(
                d,
                layer_id,
                |s: Seq<StrokeView>| reinsert(s, sorted_removal_pairs(indices, strokes)),
            ),
            CommandView::ModifyStrokes { layer_id, before, after } => on_layer_strokes(
                d,
                layer_id,
                |s: Seq<StrokeView>| replace_each(s, before),
            ),
            CommandView::AddLayer { layer, index, previous_active_layer_id, new_active_layer_id } =>
                DocumentView {
                layers: without_layer_id(d.layers, layer.id),
                active_layer_id: previous_active_layer_id,
                ..d
            },
            CommandView::RemoveLayer { layer, index, previous_active_layer_id, new_active_layer_id } =>
                DocumentView {
                layers: d.layers.insert(clamp_to(index as int, d.layers.len() as int), layer),
                active_layer_id: previous_active_layer_id,
                ..d
            },
            CommandView::ReorderLayer { from, to } => DocumentView {
                layers: move_layer(d.layers, to as int, from as int),
                ..d
            },
            CommandView::SetLayer { before, after } => DocumentView {
                layers: replace_first_layer(d.layers, before),
                ..d
            },
            CommandView::SetBackgroundColor { before, after } => DocumentView {
                background_color: before,
                ..d
            },
        }
    }
}

// ---------------------------------------------------------------------------
// Editing sequences of strokes and layers.

/// The values of a sequence of (position, stroke) pairs.
pub open spec fn pair_views(pairs: Seq<(usize, Stroke)>) -> Seq<(usize, StrokeView)> {
    pairs.map_values(|p: (usize, Stroke)| (p.0, p.1@))
}

/// Whether some stroke of `strokes` has identifier `id`.
pub fn contains_stroke_id(strokes: &Vec<Stroke>, id: StrokeId) -> (found: bool)
    ensures
        found == has_stroke(stroke_views(strokes@), id),
{
    let n = strokes.len();
    let mut j: usize = 0;
    while j < n
        invariant
            n == strokes@.len(),
            j <= n,
            forall|k: int| 0 <= k < j ==> #[trigger] stroke_views(strokes@)[k].id != id,
        decreases n - j,
    {
        if strokes[j].id == id {
            proof {
                assert(stroke_views(strokes@)[j as int].id == id);
            }
            return true;
        }
        j += 1;
    }
    false
}

/// Keeps the strokes whose identifier is not `id`, in order.
pub fn retain_strokes_without_id(strokes: &mut Vec<Stroke>, id: StrokeId)
    ensures
        stroke_views(final(strokes)@) == without_id(stroke_views(old(strokes)@), id),
{
    let mut old_strokes: Vec<Stroke> = Vec::new();
    std::mem::swap(&mut old_strokes, strokes);
    let ghost orig = stroke_views(old_strokes@);
    let mut kept: Vec<Stroke> = Vec::new();
    for stroke in it: old_strokes
        invariant
            it.seq() == old_strokes@,
            orig == stroke_views(old_strokes@),
            stroke_views(kept@) == without_id(orig.take(it.index() as int), id),
    {
        proof {
            reveal_with_fuel(Seq::filter, 1);
            assert(orig.take(it.index() + 1).drop_last() =~= orig.take(it.index() as int));
        }
        if stroke.id != id {
            kept.push(stroke);
        }
    }
    proof {
        assert(orig.take(orig.len() as int) =~= orig);
    }
    *strokes = kept;
}

/// Keeps the strokes whose identifier is not that of any of `removed`, in order.
pub fn retain_strokes_without_ids_of(strokes: &mut Vec<Stroke>, removed: &Vec<Stroke>)
    ensures
        stroke_views(final(strokes)@) == without_ids_of(stroke_views(old(strokes)@), stroke_views(removed@)),
{
    let mut old_strokes: Vec<Stroke> = Vec::new();
    std::mem::swap(&mut old_strokes, strokes);
    let ghost orig = stroke_views(old_strokes@);
    let ghost gone = stroke_views(removed@);
    let mut kept: Vec<Stroke> = Vec::new();
    for stroke in it: old_strokes
        invariant
            it.seq() == old_strokes@,
            orig == stroke_views(old_strokes@),
            gone == stroke_views(removed@),
            stroke_views(kept@) == without_ids_of(orig.take(it.index() as int), gone),
    {
        proof {
            reveal_with_fuel(Seq::filter, 1);
            assert(orig.take(it.index() + 1).drop_last() =~= orig.take(it.index() as int));
        }
        if !contains_stroke_id(removed, stroke.id) {
            kept.push(stroke);
        }
    }
    proof {
        assert(orig.take(orig.len() as int) =~= orig);
    }
    *strokes = kept;
}

/// Replaces the first stroke with the identifier of `r` by a copy of `r`.
pub fn replace_first_stroke(strokes: &mut Vec<Stroke>, r: &Stroke)
    ensures
        stroke_views(final(strokes)@) == replace_first(stroke_views(old(strokes)@), r@),
{
    match stroke_index(strokes, r.id) {
        Some(j) => {
            proof {
                lemma_stroke_position(stroke_views(strokes@), r.id, j as int);
            }
            strokes.set(j, r.duplicate());
        },
        None => {
            proof {
                lemma_stroke_position_cases(stroke_views(strokes@), r.id);
            }
        },
    }
}

/// Replaces, for each of `rs` in turn, the first stroke with its identifier.
pub fn replace_each_stroke(strokes: &mut Vec<Stroke>, rs: &Vec<Stroke>)
    ensures
        stroke_views(final(strokes)@) == replace_each(stroke_views(old(strokes)@), stroke_views(rs@)),
{
    let ghost orig = stroke_views(strokes@);
    let ghost all = stroke_views(rs@);
    let n = rs.len();
    let mut i: usize = 0;
    while i < n
        invariant
            n == rs@.len(),
            i <= n,
            orig == stroke_views(old(strokes)@),
            all == stroke_views(rs@),
            stroke_views(strokes@) == replace_each(orig, all.take(i as int)),
        decreases n - i,
    {
        replace_first_stroke(strokes, &rs[i]);
        proof {
            assert(all.take(i + 1).drop_last() =~= all.take(i as int));
        }
        i += 1;
    }
    proof {
        assert(all.take(n as int) =~= all);
    }
}

/// The (position, stroke) pairs of a removal, stably sorted by position.
pub fn sorted_removal(indices: &Vec<usize>, strokes: &Vec<Stroke>) -> (sorted: Vec<(usize, Stroke)>)
    ensures
        pair_views(sorted@) == sorted_removal_pairs(indices@, stroke_views(strokes@)),
{
    let n = if indices.len() < strokes.len() { indices.len() } else { strokes.len() };
    let ghost pairs = removal_pairs(indices@, stroke_views(strokes@));
    let mut keys: Vec<usize> = Vec::new();
    let mut k: usize = 0;
    while k < n
        invariant
            n <= indices@.len(),
            n <= strokes@.len(),
            k <= n,
            keys@ == indices@.take(k as int),
        decreases n - k,
    {
        keys.push(indices[k]);
        k += 1;
        proof {
            assert(keys@ =~= indices@.take(k as int));
        }
    }
    proof {
        assert(keys@ =~= pair_keys(pairs));
    }
    let ranks = stable_ranks(&keys);
    let mut sorted: Vec<(usize, Stroke)> = Vec::new();
    let mut t: usize = 0;
    while t < n
        invariant
            n <= indices@.len(),
            n <= strokes@.len(),
            pairs == removal_pairs(indices@, stroke_views(strokes@)),
            pairs.len() == n,
            keys@ == pair_keys(pairs),
            ranks@.len() == n,
            forall|m: int| 0 <= m < n ==> #[trigger] ranks@[m] as int == stable_rank(keys@, m),
            t <= n,
            sorted@.len() == t,
            forall|u: int| 0 <= u < t ==> #[trigger] pair_views(sorted@)[u] == pairs[item_at_rank(keys@, u)],
        decreases n - t,
    {
        let mut k: usize = 0;
        while k < n && ranks[k] != t
            invariant
                ranks@.len() == n,
                k <= n,
                forall|m: int| 0 <= m < k ==> #[trigger] ranks@[m] != t,
            decreases n - k,
        {
            k += 1;
        }
        proof {
            lemma_rank_onto(keys@, t as int);
            if k == n {
                let w = item_at_rank(keys@, t as int);
                assert(ranks@[w] != t);
            }
            lemma_item_at_rank_unique(keys@, t as int, k as int);
        }
        let ghost prev = pair_views(sorted@);
        sorted.push((indices[k], strokes[k].duplicate()));
        proof {
            assert(pair_views(sorted@) =~= prev.push(pairs[k as int]));
        }
        t += 1;
    }
    proof {
        assert(pair_views(sorted@) =~= stably_sorted(pairs, pair_keys(pairs)));
    }
    sorted
}

/// Inserts each stroke of `pairs` in turn at its position, clamped to the
/// current length.
pub fn reinsert_strokes(strokes: &mut Vec<Stroke>, pairs: Vec<(usize, Stroke)>)
    ensures
        stroke_views(final(strokes)@) == reinsert(stroke_views(old(strokes)@), pair_views(pairs@)),
{
    let ghost orig = stroke_views(strokes@);
    let ghost all = pair_views(pairs@);
    for p in it: pairs
        invariant
            it.seq() == pairs@,
            all == pair_views(pairs@),
            orig == stroke_views(old(strokes)@),
            stroke_views(strokes@) == reinsert(orig, all.take(it.index() as int)),
    {
        let (index, stroke) = p;
        let len = strokes.len();
        let at = if index < len { index } else { len };
        strokes.insert(at, stroke);
        proof {
            assert(all.take(it.index() + 1).drop_last() =~= all.take(it.index() as int));
        }
    }
    proof {
        assert(all.take(all.len() as int) =~= all);
    }
}

/// Keeps the layers whose identifier is not `id`, in order.
pub fn retain_layers_without_id(layers: &mut Vec<Layer>, id: LayerId)
    ensures
        layer_views(final(layers)@) == without_layer_id(layer_views(old(layers)@), id),
{
    let mut old_layers: Vec<Layer> = Vec::new();
    std::mem::swap(&mut old_layers, layers);
    let ghost orig = layer_views(old_layers@);
    let mut kept: Vec<Layer> = Vec::new();
    for layer in it: old_layers
        invariant
            it.seq() == old_layers@,
            orig == layer_views(old_layers@),
            layer_views(kept@) == without_layer_id(orig.take(it.index() as int), id),
    {
        proof {
            reveal_with_fuel(Seq::filter, 1);
            assert(orig.take(it.index() + 1).drop_last() =~= orig.take(it.index() as int));
        }
        if layer.id != id {
            kept.push(layer);
        }
    }
    proof {
        assert(orig.take(orig.len() as int) =~= orig);
    }
    *layers = kept;
}

// ---------------------------------------------------------------------------
// Applying and reverting.

impl Command {
    /// Applies this command to `document`.
    pub fn apply(&self, document: &mut Document)
        ensures
            final(document)@ == self@.applied_to(old(document)@),
    {
        match self {
            Command::AddStroke { layer_id, stroke, index } => {
                match document.layer_index(*layer_id) {
                    Some(li) => {
                        proof {
                            lemma_layer_position(document@.layers, *layer_id, li as int);
                        }
                        let ghost layer = document@.layers[li as int];
                        let len = document.layers[li].strokes.len();
                        let at = if *index < len { *index } else { len };
                        document.layers[li].strokes.insert(at, stroke.duplicate());
                        proof {
                            assert(document@.layers[li as int] =~= with_strokes(
                                layer,
                                layer.strokes.insert(at as int, stroke@),
                            ));
                            assert(document@ =~= self@.applied_to(old(document)@));
                        }
                    },
                    None => {
                        proof {
                            lemma_layer_position_cases(document@.layers, *layer_id);
                        }
                    },
                }
            },
            Command::RemoveStrokes { layer_id, strokes, .. } => {
                match document.layer_index(*layer_id) {
                    Some(li) => {
                        proof {
                            lemma_layer_position(document@.layers, *layer_id, li as int);
                        }
                        let ghost layer = document@.layers[li as int];
                        retain_strokes_without_ids_of(&mut document.layers[li].strokes, strokes);
                        proof {
                            assert(document@.layers[li as int] =~= with_strokes(
                                layer,
                                without_ids_of(layer.strokes, stroke_views(strokes@)),
                            ));
                            assert(document@ =~= self@.applied_to(old(document)@));
                        }
                    },
                    None => {
                        proof {
                            lemma_layer_position_cases(document@.layers, *layer_id);
                        }
                    },
                }
            },
            Command::ModifyStrokes { layer_id, after, .. } => {
                match document.layer_index(*layer_id) {
                    Some(li) => {
                        proof {
                            lemma_layer_position(document@.layers, *layer_id, li as int);
                        }
                        let ghost layer = document@.layers[li as int];
                        replace_each_stroke(&mut document.layers[li].strokes, after);
                        proof {
                            assert(document@.layers[li as int] =~= with_strokes(
                                layer,
                                replace_each(layer.strokes, stroke_views(after@)),
                            ));
                            assert(document@ =~= self@.applied_to(old(document)@));
                        }
                    },
                    None => {
                        proof {
                            lemma_layer_position_cases(document@.layers, *layer_id);
                        }
                    },
                }
            },
            Command::AddLayer { layer, index, new_active_layer_id, .. } => {
                let len = document.layers.len();
                let at = if *index < len { *index } else { len };
                document.layers.insert(at, layer.duplicate());
                document.active_layer_id = *new_active_layer_id;
                proof {
                    assert(document@ =~= self@.applied_to(old(document)@));
                }
            },
            Command::RemoveLayer { layer, index, new_active_layer_id, .. } => {
                let len = document.layers.len();
                let at = if len == 0 {
                    0
                } else if *index < len - 1 {
                    *index
                } else {
                    len - 1
                };
                if at < len && document.layers[at].id == layer.id {
                    document.layers.remove(at);
                } else {
                    retain_layers_without_id(&mut document.layers, layer.id);
                }
                document.active_layer_id = *new_active_layer_id;
                proof {
                    assert(document@ =~= self@.applied_to(old(document)@));
                }
            },
            Command::ReorderLayer { from, to } => {
                let len = document.layers.len();
                if len == 0 || *from >= len {
                    proof {
                        assert(document@ =~= self@.applied_to(old(document)@));
                    }
                    return;
                }
                let ghost before = document@.layers;
                let layer = document.layers.remove(*from);
                let rest = document.layers.len();
                let at = if *to < rest { *to } else { rest };
                document.layers.insert(at, layer);
                proof {
                    assert(document@.layers =~= move_layer(before, *from as int, *to as int));
                    assert(document@ =~= self@.applied_to(old(document)@));
                }
            },
            Command::SetLayer { after, .. } => {
                replace_first_layer_exec(&mut document.layers, after);
                proof {
                    assert(document@ =~= self@.applied_to(old(document)@));
                }
            },
            Command::SetBackgroundColor { after, .. } => {
                document.background_color = *after;
                proof {
                    assert(document@ =~= self@.applied_to(old(document)@));
                }
            },
        }
    }

    /// Reverts this command on `document`.
    pub fn revert(&self, document: &mut Document)
        ensures
            final(document)@ == self@.reverted_from(old(document)@),
    {
        match self {
            Command::AddStroke { layer_id, stroke, .. } => {
                match document.layer_index(*layer_id) {
                    Some(li) => {
                        proof {
                            lemma_layer_position(document@.layers, *layer_id, li as int);
                        }
                        let ghost layer = document@.layers[li as int];
                        retain_strokes_without_id(&mut document.layers[li].strokes, stroke.id);
                        proof {
                            assert(document@.layers[li as int] =~= with_strokes(
                                layer,
                                without_id(layer.strokes, stroke.id),
                            ));
                            assert(document@ =~= self@.reverted_from(old(document)@));
                        }
                    },
                    None => {
                        proof {
                            lemma_layer_position_cases(document@.layers, *layer_id);
                        }
                    },
                }
            },
            Command::RemoveStrokes { layer_id, strokes, indices } => {
                match document.layer_index(*layer_id) {
                    Some(li) => {
                        proof {
                            lemma_layer_position(document@.layers, *layer_id, li as int);
                        }
                        let ghost layer = document@.layers[li as int];
                        let pairs = sorted_removal(indices, strokes);
                        reinsert_strokes(&mut document.layers[li].strokes, pairs);
                        proof {
                            assert(document@.layers[li as int] =~= with_strokes(
                                layer,
                                reinsert(layer.strokes, sorted_removal_pairs(indices@, stroke_views(strokes@))),
                            ));
                            assert(document@ =~= self@.reverted_from(old(document)@));
                        }
                    },
                    None => {
                        proof {
                            lemma_layer_position_cases(document@.layers, *layer_id);
                        }
                    },
                }
            },
            Command::ModifyStrokes { layer_id, before, .. } => {
                match document.layer_index(*layer_id) {
                    Some(li) => {
                        proof {
                            lemma_layer_position(document@.layers, *layer_id, li as int);
                        }
                        let ghost layer = document@.layers[li as int];
                        replace_each_stroke(&mut document.layers[li].strokes, before);
                        proof {
                            assert(document@.layers[li as int] =~= with_strokes(
                                layer,
                                replace_each(layer.strokes, stroke_views(before@)),
                            ));
                            assert(document@ =~= self@.reverted_from(old(document)@));
                        }
                    },
                    None => {
                        proof {
                            lemma_layer_position_cases(document@.layers, *layer_id);
                        }
                    },
                }
            },
            Command::AddLayer { layer, previous_active_layer_id, .. } => {
                retain_layers_without_id(&mut document.layers, layer.id);
                document.active_layer_id = *previous_active_layer_id;
                proof {
                    assert(document@ =~= self@.reverted_from(old(document)@));
                }
            },
            Command::RemoveLayer { layer, index, previous_active_layer_id, .. } => {
                let len = document.layers.len();
                let at = if *index < len { *index } else { len };
                document.layers.insert(at, layer.duplicate());
                document.active_layer_id = *previous_active_layer_id;
                proof {
                    assert(document@ =~= self@.reverted_from(old(document)@));
                }
            },
            Command::ReorderLayer { from, to } => {
                let len = document.layers.len();
                if len == 0 || *to >= len {
                    proof {
                        assert(document@ =~= self@.reverted_from(old(document)@));
                    }
                    return;
                }
                let ghost before = document@.layers;
                let layer = document.layers.remove(*to);
                let rest = document.layers.len();
                let at = if *from < rest { *from } else { rest };
                document.layers.insert(at, layer);
                proof {
                    assert(document@.layers =~= move_layer(before, *to as int, *from as int));
                    assert(document@ =~= self@.reverted_from(old(document)@));
                }
            },
            Command::SetLayer { before, .. } => {
                replace_first_layer_exec(&mut document.layers, before);
                proof {
                    assert(document@ =~= self@.reverted_from(old(document)@));
                }
            },
            Command::SetBackgroundColor { before, .. } => {
                document.background_color = *before;
                proof {
                    assert(document@ =~= self@.reverted_from(old(document)@));
                }
            },
        }
    }
}

/// Replaces the first layer with the identifier of `l` by a copy of `l`.
pub fn replace_first_layer_exec(layers: &mut Vec<Layer>, l: &Layer)
    ensures
        layer_views(final(layers)@) == replace_first_layer(layer_views(old(layers)@), l@),
{
    let n = layers.len();
    let mut i: usize = 0;
    while i < n
        invariant
            n == layers@.len(),
            layers@ == old(layers)@,
            i <= n,
            forall|j: int| 0 <= j < i ==> #[trigger] layer_views(layers@)[j].id != l.id,
        decreases n - i,
    {
        if layers[i].id == l.id {
            proof {
                lemma_layer_position(layer_views(layers@), l.id, i as int);
            }
            layers.set(i, l.duplicate());
            return;
        }
        i += 1;
    }
    proof {
        lemma_layer_position_cases(layer_views(layers@), l.id);
    }
}

} // verus!
