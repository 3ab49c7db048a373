//! The document model: documents hold layers, layers hold strokes.
//!
//! Coordinates, pressures, colours, opacities and width factors are stored as
//! the bit patterns of IEEE 754 single-precision numbers (`u32`).  The model
//! never computes on them: it only moves, copies and compares whole values, so
//! every operation here is exact on those bit patterns.
use vstd::prelude::*;

verus! {

/// Identifier of a layer.
pub type LayerId = u64;

/// Identifier of a stroke.
pub type StrokeId = u64;

/// Bit pattern of the single-precision value `1.0`.
pub const UNIT: u32 = 0x3f80_0000u32;

/// How a layer is composited onto the layers below it.
#[derive(Clone, Copy, Debug, PartialEq, Eq, Hash, Structural)]
pub enum BlendMode {
    Normal,
    Multiply,
    Screen,
    Add,
    Subtract,
}

/// The user-facing name of each blend mode.
pub open spec fn blend_label(mode: BlendMode) -> Seq<char> {
    match mode {
        BlendMode::Normal => "Normal"@,
        BlendMode::Multiply => "Multiply"@,
        BlendMode::Screen => "Screen"@,
        BlendMode::Add => "Add"@,
        BlendMode::Subtract => "Subtract"@,
    }
}

/// Each blend mode is shown under its own name, and no two modes share a
/// name.
pub proof fn lemma_blend_labels()
    ensures
        blend_label(BlendMode::Normal) == "Normal"@,
        blend_label(BlendMode::Multiply) == "Multiply"@,
        blend_label(BlendMode::Screen) == "Screen"@,
        blend_label(BlendMode::Add) == "Add"@,
        blend_label(BlendMode::Subtract) == "Subtract"@,
        forall|a: BlendMode, b: BlendMode| #[trigger] blend_label(a) == #[trigger] blend_label(b) <==> a == b,
{
    reveal_strlit("Normal");
    reveal_strlit("Multiply");
    reveal_strlit("Screen");
    reveal_strlit("Add");
    reveal_strlit("Subtract");
    assert forall|a: BlendMode, b: BlendMode| #[trigger] blend_label(a) == #[trigger] blend_label(b) implies a == b by {
        if a != b {
            assert(blend_label(a).len() != blend_label(b).len() || blend_label(a)[0] != blend_label(b)[0]
                || blend_label(a)[1] != blend_label(b)[1]);
        }
    }
}

impl BlendMode {
    /// Every blend mode, in the order in which they are offered.
    pub fn all() -> (modes: [BlendMode; 5])
        ensures
            modes@ == seq![
                BlendMode::Normal,
                BlendMode::Multiply,
                BlendMode::Screen,
                BlendMode::Add,
                BlendMode::Subtract,
            ],
    {
        [BlendMode::Normal, BlendMode::Multiply, BlendMode::Screen, BlendMode::Add, BlendMode::Subtract]
    }

    /// The blend mode of a new layer.
    pub fn default_mode() -> (mode: BlendMode)
        ensures
            mode == BlendMode::Normal,
    {
        BlendMode::Normal
    }

    /// The user-facing name of this blend mode.
    pub fn label(self) -> (label: &'static str)
        ensures
            label@ == blend_label(self),
    {
        proof {
            reveal_strlit("Normal");
            reveal_strlit("Multiply");
            reveal_strlit("Screen");
            reveal_strlit("Add");
            reveal_strlit("Subtract");
        }
        match self {
            BlendMode::Normal => "Normal",
            BlendMode::Multiply => "Multiply",
            BlendMode::Screen => "Screen",
            BlendMode::Add => "Add",
            BlendMode::Subtract => "Subtract",
        }
    }
}

/// One sampled point of a stroke: position and pen pressure (bit patterns).
#[derive(Clone, Copy, Debug, PartialEq, Eq, Structural)]
pub struct StrokePoint {
    pub x: u32,
    pub y: u32,
    pub pressure: u32,
}

impl StrokePoint {
    pub fn new(x: u32, y: u32, pressure: u32) -> (point: StrokePoint)
        ensures
            point == (StrokePoint { x, y, pressure }),
    {
        StrokePoint { x, y, pressure }
    }
}

/// A freehand stroke: its identifier, its points, its colour and its width factor.
#[derive(Clone, Debug, PartialEq, Eq)]
pub struct Stroke {
    pub id: StrokeId,
    pub points: Vec<StrokePoint>,
    pub color: [u32; 4],
    pub width_scale: u32,
}

/// The mathematical value of a stroke.
#[verifier::ext_equal]
pub struct StrokeView {
    pub id: StrokeId,
    pub points: Seq<StrokePoint>,
    pub color: [u32; 4],
    pub width_scale: u32,
}

impl View for Stroke {
    type V = StrokeView;

    open spec fn view(&self) -> StrokeView {
        StrokeView {
            id: self.id,
            points: self.points@,
            color: self.color,
            width_scale: self.width_scale,
        }
    }
}

/// A copy of a sequence of points.
pub fn copy_points(points: &Vec<StrokePoint>) -> (copy: Vec<StrokePoint>)
    ensures
        copy@ == points@,
{
    let mut copy: Vec<StrokePoint> = Vec::new();
    let n = points.len();
    let mut i: usize = 0;
    while i < n
        invariant
            n == points@.len(),
            i <= n,
            copy@ == points@.take(i as int),
        decreases n - i,
    {
        copy.push(points[i]);
        i += 1;
        proof {
            assert(copy@ =~= points@.take(i as int));
        }
    }
    proof {
        assert(points@.take(n as int) =~= points@);
    }
    copy
}

impl Stroke {
    /// A stroke with width factor one.
    pub fn new(id: StrokeId, points: Vec<StrokePoint>, color: [u32; 4]) -> (stroke: Stroke)
        ensures
            stroke@ == (StrokeView { id, points: points@, color, width_scale: UNIT }),
    {
        Stroke { id, points, color, width_scale: UNIT }
    }

    /// An independent copy of this stroke.
    pub fn duplicate(&self) -> (copy: Stroke)
        ensures
            copy@ == self@,
    {
        Stroke {
            id: self.id,
            points: copy_points(&self.points),
            color: self.color,
            width_scale: self.width_scale,
        }
    }
}

/// A copy of a sequence of strokes.
pub fn copy_strokes(strokes: &Vec<Stroke>) -> (copy: Vec<Stroke>)
    ensures
        copy@.map_values(|s: Stroke| s@) == strokes@.map_values(|s: Stroke| s@),
{
    let mut copy: Vec<Stroke> = Vec::new();
    let n = strokes.len();
    let mut i: usize = 0;
    while i < n
        invariant
            n == strokes@.len(),
            i <= n,
            copy@.len() == i,
            forall|j: int| 0 <= j < i ==> #[trigger] copy@[j]@ == strokes@[j]@,
        decreases n - i,
    {
        copy.push(strokes[i].duplicate());
        i += 1;
    }
    proof {
        assert(copy@.map_values(|s: Stroke| s@) =~= strokes@.map_values(|s: Stroke| s@));
    }
    copy
}

/// A layer: a named, ordered list of strokes with its display settings.
#[derive(Clone, Debug, PartialEq, Eq)]
pub struct Layer {
    pub id: LayerId,
    pub name: String,
    pub visible: bool,
    pub opacity: u32,
    pub blend_mode: BlendMode,
    pub strokes: Vec<Stroke>,
}

/// The mathematical value of a layer.
#[verifier::ext_equal]
pub struct LayerView {
    pub id: LayerId,
    pub name: Seq<char>,
    pub visible: bool,
    pub opacity: u32,
    pub blend_mode: BlendMode,
    pub strokes: Seq<StrokeView>,
}

/// The values of a sequence of strokes.
pub open spec fn stroke_views(strokes: Seq<Stroke>) -> Seq<StrokeView> {
    strokes.map_values(|s: Stroke| s@)
}

impl View for Layer {
    type V = LayerView;

    open spec fn view(&self) -> LayerView {
        LayerView {
            id: self.id,
            name: self.name@,
            visible: self.visible,
            opacity: self.opacity,
            blend_mode: self.blend_mode,
            strokes: stroke_views(self.strokes@),
        }
    }
}

impl Layer {
    /// A visible, fully opaque, empty layer with the normal blend mode.
    pub fn new(id: LayerId, name: &str) -> (layer: Layer)
        ensures
            layer@ == (LayerView {
                id,
                name: name@,
                visible: true,
                opacity: UNIT,
                blend_mode: BlendMode::Normal,
                strokes: Seq::empty(),
            }),
    {
        Layer::named(id, String::from_str(name))
    }

    /// A visible, fully opaque, empty layer with the given name.
    pub fn named(id: LayerId, name: String) -> (layer: Layer)
        ensures
            layer@ == (LayerView {
                id,
                name: name@,
                visible: true,
                opacity: UNIT,
                blend_mode: BlendMode::Normal,
                strokes: Seq::empty(),
            }),
    {
        let layer = Layer {
            id,
            name,
            visible: true,
            opacity: UNIT,
            blend_mode: BlendMode::Normal,
            strokes: Vec::new(),
        };
        proof {
            assert(layer@.strokes =~= Seq::<StrokeView>::empty());
        }
        layer
    }

    /// An independent copy of this layer.
    pub fn duplicate(&self) -> (copy: Layer)
        ensures
            copy@ == self@,
    {
        Layer {
            id: self.id,
            name: self.name.clone(),
            visible: self.visible,
            opacity: self.opacity,
            blend_mode: self.blend_mode,
            strokes: copy_strokes(&self.strokes),
        }
    }
}

/// The values of a sequence of layers.
pub open spec fn layer_views(layers: Seq<Layer>) -> Seq<LayerView> {
    layers.map_values(|l: Layer| l@)
}

/// A copy of a sequence of layers.
pub fn copy_layers(layers: &Vec<Layer>) -> (copy: Vec<Layer>)
    ensures
        layer_views(copy@) == layer_views(layers@),
{
    let mut copy: Vec<Layer> = Vec::new();
    let n = layers.len();
    let mut i: usize = 0;
    while i < n
        invariant
            n == layers@.len(),
            i <= n,
            copy@.len() == i,
            forall|j: int| 0 <= j < i ==> #[trigger] copy@[j]@ == layers@[j]@,
        decreases n - i,
    {
        copy.push(layers[i].duplicate());
        i += 1;
    }
    proof {
        assert(layer_views(copy@) =~= layer_views(layers@));
    }
    copy
}

/// A drawing: its canvas size and background, its layers from bottom to top,
/// the layer being drawn on, and the next identifiers to hand out.
#[derive(Clone, Debug, PartialEq, Eq)]
pub struct Document {
    pub width: u32,
    pub height: u32,
    pub background_color: [u32; 4],
    pub layers: Vec<Layer>,
    pub active_layer_id: LayerId,
    pub next_layer_id: LayerId,
    pub next_stroke_id: StrokeId,
}

/// The mathematical value of a document.
#[verifier::ext_equal]
pub struct DocumentView {
    pub width: u32,
    pub height: u32,
    pub background_color: [u32; 4],
    pub layers: Seq<LayerView>,
    pub active_layer_id: LayerId,
    pub next_layer_id: LayerId,
    pub next_stroke_id: StrokeId,
}

impl View for Document {
    type V = DocumentView;

    open spec fn view(&self) -> DocumentView {
        DocumentView {
            width: self.width,
            height: self.height,
            background_color: self.background_color,
            layers: layer_views(self.layers@),
            active_layer_id: self.active_layer_id,
            next_layer_id: self.next_layer_id,
            next_stroke_id: self.next_stroke_id,
        }
    }
}

// ---------------------------------------------------------------------------
// Finding layers and strokes by identifier.

/// Some layer in `layers` has identifier `id`.
pub open spec fn has_layer(layers: Seq<LayerView>, id: LayerId) -> bool {
    exists|i: int| 0 <= i < layers.len() && #[trigger] layers[i].id == id
}

/// `i` is the position of the first layer in `layers` with identifier `id`.
pub open spec fn first_layer_at(layers: Seq<LayerView>, id: LayerId, i: int) -> bool {
    &&& 0 <= i < layers.len()
    &&& layers[i].id == id
    &&& forall|j: int| 0 <= j < i ==> #[trigger] layers[j].id != id
}

/// The position of the first layer with identifier `id`, if there is one.
pub open spec fn layer_position(layers: Seq<LayerView>, id: LayerId) -> Option<int> {
    if has_layer(layers, id) {
        Some(choose|i: int| first_layer_at(layers, id, i))
    } else {
        None
    }
}

/// Some stroke in `strokes` has identifier `id`.
pub open spec fn has_stroke(strokes: Seq<StrokeView>, id: StrokeId) -> bool {
    exists|i: int| 0 <= i < strokes.len() && #[trigger] strokes[i].id == id
}

/// `i` is the position of the first stroke in `strokes` with identifier `id`.
pub open spec fn first_stroke_at(strokes: Seq<StrokeView>, id: StrokeId, i: int) -> bool {
    &&& 0 <= i < strokes.len()
    &&& strokes[i].id == id
    &&& forall|j: int| 0 <= j < i ==> #[trigger] strokes[j].id != id
}

/// The position of the first stroke with identifier `id`, if there is one.
pub open spec fn stroke_position(strokes: Seq<StrokeView>, id: StrokeId) -> Option<int> {
    if has_stroke(strokes, id) {
        Some(choose|i: int| first_stroke_at(strokes, id, i))
    } else {
        None
    }
}

/// The first layer with a given identifier is where `layer_position` points.
pub proof fn lemma_layer_position(layers: Seq<LayerView>, id: LayerId, i: int)
    requires
        first_layer_at(layers, id, i),
    ensures
        layer_position(layers, id) == Some(i),
{
    assert(has_layer(layers, id));
    let k = choose|k: int| first_layer_at(layers, id, k);
    if k < i {
        assert(layers[k].id != id);
    } else if k > i {
        assert(layers[i].id != id);
    }
}

/// Without a layer of the given identifier, `layer_position` is `None`; with
/// one, it names the first.
pub proof fn lemma_layer_position_cases(layers: Seq<LayerView>, id: LayerId)
    ensures
        layer_position(layers, id) is None <==> !has_layer(layers, id),
        layer_position(layers, id) matches Some(i) ==> first_layer_at(layers, id, i),
{
    if has_layer(layers, id) {
        let k = choose|k: int| 0 <= k < layers.len() && #[trigger] layers[k].id == id;
        lemma_first_layer_exists(layers, id, k);
    }
}

proof fn lemma_first_layer_exists(layers: Seq<LayerView>, id: LayerId, k: int)
    requires
        0 <= k < layers.len(),
        layers[k].id == id,
    ensures
        exists|i: int| first_layer_at(layers, id, i),
    decreases k,
{
    if exists|j: int| 0 <= j < k && #[trigger] layers[j].id == id {
        let j = choose|j: int| 0 <= j < k && #[trigger] layers[j].id == id;
        lemma_first_layer_exists(layers, id, j);
    } else {
        assert(first_layer_at(layers, id, k));
    }
}

/// The first stroke with a given identifier is where `stroke_position` points.
pub proof fn lemma_stroke_position(strokes: Seq<StrokeView>, id: StrokeId, i: int)
    requires
        first_stroke_at(strokes, id, i),
    ensures
        stroke_position(strokes, id) == Some(i),
{
    assert(has_stroke(strokes, id));
    let k = choose|k: int| first_stroke_at(strokes, id, k);
    if k < i {
        assert(strokes[k].id != id);
    } else if k > i {
        assert(strokes[i].id != id);
    }
}

/// Without a stroke of the given identifier, `stroke_position` is `None`; with
/// one, it names the first.
pub proof fn lemma_stroke_position_cases(strokes: Seq<StrokeView>, id: StrokeId)
    ensures
        stroke_position(strokes, id) is None <==> !has_stroke(strokes, id),
        stroke_position(strokes, id) matches Some(i) ==> first_stroke_at(strokes, id, i),
{
    if has_stroke(strokes, id) {
        let k = choose|k: int| 0 <= k < strokes.len() && #[trigger] strokes[k].id == id;
        lemma_first_stroke_exists(strokes, id, k);
    }
}

proof fn lemma_first_stroke_exists(strokes: Seq<StrokeView>, id: StrokeId, k: int)
    requires
        0 <= k < strokes.len(),
        strokes[k].id == id,
    ensures
        exists|i: int| first_stroke_at(strokes, id, i),
    decreases k,
{
    if exists|j: int| 0 <= j < k && #[trigger] strokes[j].id == id {
        let j = choose|j: int| 0 <= j < k && #[trigger] strokes[j].id == id;
        lemma_first_stroke_exists(strokes, id, j);
    } else {
        assert(first_stroke_at(strokes, id, k));
    }
}


// ---------------------------------------------------------------------------
// Names of new layers.

/// The decimal digit character of `d`.
pub open spec fn digit_char(d: nat) -> char {
    if d == 0 { '0' }
    else if d == 1 { '1' }
    else if d == 2 { '2' }
    else if d == 3 { '3' }
    else if d == 4 { '4' }
    else if d == 5 { '5' }
    else if d == 6 { '6' }
    else if d == 7 { '7' }
    else if d == 8 { '8' }
    else { '9' }
}

/// The decimal notation of `n`, without leading zeros.
pub open spec fn decimal(n: nat) -> Seq<char>
    decreases n,
{
    if n < 10 {
        seq![digit_char(n)]
    } else {
        decimal(n / 10).push(digit_char(n % 10))
    }
}

/// The number that a string of decimal digits denotes, most significant
/// digit first.
pub open spec fn digits_value(s: Seq<char>) -> int
    decreases s.len(),
{
    if s.len() == 0 {
        0
    } else {
        digits_value(s.drop_last()) * 10 + (s.last() as int - '0' as int)
    }
}

proof fn lemma_digit_char(d: nat)
    requires
        d < 10,
    ensures
        digit_char(d) as int - '0' as int == d,
        '0' <= digit_char(d) <= '9',
        d > 0 ==> digit_char(d) != '0',
{
    assert('0' as int == 48 && '1' as int == 49 && '2' as int == 50 && '3' as int == 51 && '4' as int == 52);
    assert('5' as int == 53 && '6' as int == 54 && '7' as int == 55 && '8' as int == 56 && '9' as int == 57);
}

/// The decimal notation of `n` is made of digits, starts with a nonzero
/// digit unless `n` is 0, and denotes `n`.
pub proof fn lemma_decimal_denotes(n: nat)
    ensures
        decimal(n).len() >= 1,
        forall|k: int| 0 <= k < decimal(n).len() ==> '0' <= #[trigger] decimal(n)[k] <= '9',
        n > 0 ==> decimal(n)[0] != '0',
        digits_value(decimal(n)) == n,
    decreases n,
{
    if n < 10 {
        lemma_digit_char(n);
        assert(decimal(n).drop_last() =~= Seq::<char>::empty());
        assert(digits_value(decimal(n)) == digits_value(Seq::<char>::empty()) * 10 + (digit_char(n) as int - '0' as int));
    } else {
        lemma_decimal_denotes(n / 10);
        lemma_digit_char(n % 10);
        let s = decimal(n);
        assert(s.drop_last() == decimal(n / 10));
        assert((n / 10) * 10 + n % 10 == n);
        assert(s[0] == decimal(n / 10)[0]);
        assert(s.last() == digit_char(n % 10));
        assert(digits_value(s) == digits_value(decimal(n / 10)) * 10 + (digit_char(n % 10) as int - '0' as int));
    }
}

/// The name given to the `n`-th layer: `Layer n`.
pub open spec fn numbered_layer_name(n: nat) -> Seq<char> {
    "Layer "@ + decimal(n)
}

fn digit_str(d: usize) -> (s: &'static str)
    requires
        d < 10,
    ensures
        s@ == seq![digit_char(d as nat)],
{
    proof {
        reveal_strlit("0");
        reveal_strlit("1");
        reveal_strlit("2");
        reveal_strlit("3");
        reveal_strlit("4");
        reveal_strlit("5");
        reveal_strlit("6");
        reveal_strlit("7");
        reveal_strlit("8");
        reveal_strlit("9");
    }
    if d == 0 { "0" }
    else if d == 1 { "1" }
    else if d == 2 { "2" }
    else if d == 3 { "3" }
    else if d == 4 { "4" }
    else if d == 5 { "5" }
    else if d == 6 { "6" }
    else if d == 7 { "7" }
    else if d == 8 { "8" }
    else { "9" }
}

fn append_decimal(s: &mut String, n: usize)
    ensures
        final(s)@ == old(s)@ + decimal(n as nat),
    decreases n,
{
    if n >= 10 {
        append_decimal(s, n / 10);
    }
    s.append(digit_str(n % 10));
    proof {
        assert(old(s)@ + decimal(n as nat) =~= if n >= 10 {
            old(s)@ + decimal((n / 10) as nat) + seq![digit_char((n % 10) as nat)]
        } else {
            old(s)@ + seq![digit_char((n % 10) as nat)]
        });
    }
}

/// The name `Layer n`.
pub fn numbered_layer_name_string(n: usize) -> (name: String)
    ensures
        name@ == numbered_layer_name(n as nat),
{
    let mut name = String::from_str("Layer ");
    proof {
        reveal_strlit("Layer ");
    }
    append_decimal(&mut name, n);
    name
}

/// The background of a new document: opaque white.
pub fn default_background_color() -> (color: [u32; 4])
    ensures
        color@ == seq![UNIT, UNIT, UNIT, UNIT],
{
    [UNIT, UNIT, UNIT, UNIT]
}

// ---------------------------------------------------------------------------
// Documents.

/// `after` is `before` with the layer at `i` replaced by `layer`.
pub open spec fn with_layer(before: DocumentView, i: int, layer: LayerView) -> DocumentView {
    DocumentView { layers: before.layers.update(i, layer), ..before }
}

/// `layer` with its strokes replaced by `strokes`.
pub open spec fn with_strokes(layer: LayerView, strokes: Seq<StrokeView>) -> LayerView {
    LayerView { strokes, ..layer }
}

impl Document {
    /// A document of the given size with one empty layer, `Layer 1`, which is active.
    pub fn new(width: u32, height: u32) -> (document: Document)
        ensures
            document@.width == width,
            document@.height == height,
            document@.background_color@ == seq![UNIT, UNIT, UNIT, UNIT],
            document@.layers == seq![LayerView {
                id: 1,
                name: "Layer 1"@,
                visible: true,
                opacity: UNIT,
                blend_mode: BlendMode::Normal,
                strokes: Seq::empty(),
            }],
            document@.active_layer_id == 1,
            document@.next_layer_id == 2,
            document@.next_stroke_id == 1,
    {
        let mut layers: Vec<Layer> = Vec::new();
        layers.push(Layer::new(1, "Layer 1"));
        let document = Document {
            width,
            height,
            background_color: default_background_color(),
            layers,
            active_layer_id: 1,
            next_layer_id: 2,
            next_stroke_id: 1,
        };
        proof {
            assert(document@.layers =~= seq![layers@[0]@]);
        }
        document
    }

    /// The position of the first layer with identifier `layer_id`.
    pub fn layer_index(&self, layer_id: LayerId) -> (index: Option<usize>)
        ensures
            match index {
                Some(i) => first_layer_at(self@.layers, layer_id, i as int),
                None => !has_layer(self@.layers, layer_id),
            },
    {
        let n = self.layers.len();
        let mut i: usize = 0;
        while i < n
            invariant
                n == self.layers@.len(),
                i <= n,
                forall|j: int| 0 <= j < i ==> #[trigger] self@.layers[j].id != layer_id,
            decreases n - i,
        {
            if self.layers[i].id == layer_id {
                return Some(i);
            }
            i += 1;
        }
        None
    }

    /// The first layer with identifier `layer_id`.
    pub fn layer(&self, layer_id: LayerId) -> (layer: Option<&Layer>)
        ensures
            match layer {
                Some(l) => exists|i: int| first_layer_at(self@.layers, layer_id, i) && l@ == self@.layers[i],
                None => !has_layer(self@.layers, layer_id),
            },
    {
        match self.layer_index(layer_id) {
            Some(i) => Some(&self.layers[i]),
            None => None,
        }
    }

    /// The first layer with identifier `layer_id`, for editing.
    pub fn layer_mut(&mut self, layer_id: LayerId) -> (layer: Option<&mut Layer>)
        ensures
            match layer {
                Some(l) => exists|i: int| {
                    &&& first_layer_at(old(self)@.layers, layer_id, i)
                    &&& l@ == old(self)@.layers[i]
                    &&& final(self)@ == with_layer(old(self)@, i, final(l)@)
                },
                None => !has_layer(old(self)@.layers, layer_id) && final(self)@ == old(self)@,
            },
    {
        match self.layer_index(layer_id) {
            Some(i) => {
                proof {
                    assert(layer_views(self.layers@.update(i as int, self.layers@[i as int]))
                        =~= self@.layers);
                }
                Some(&mut self.layers[i])
            },
            None => None,
        }
    }

    /// The active layer.
    pub fn active_layer(&self) -> (layer: &Layer)
        requires
            has_layer(self@.layers, self@.active_layer_id),
        ensures
            exists|i: int| first_layer_at(self@.layers, self@.active_layer_id, i) && layer@ == self@.layers[i],
    {
        match self.layer(self.active_layer_id) {
            Some(l) => l,
            None => {
                proof {
                    assert(false);
                }
                &self.layers[0]
            },
        }
    }

    /// Hands out the next stroke identifier.
    pub fn allocate_stroke_id(&mut self) -> (id: StrokeId)
        requires
            old(self).next_stroke_id < u64::MAX,
        ensures
            id == old(self)@.next_stroke_id,
            final(self)@ == (DocumentView { next_stroke_id: (id + 1) as u64, ..old(self)@ }),
    {
        let id = self.next_stroke_id;
        self.next_stroke_id = self.next_stroke_id + 1;
        id
    }

    /// Hands out the next layer identifier.
    pub fn allocate_layer_id(&mut self) -> (id: LayerId)
        requires
            old(self).next_layer_id < u64::MAX,
        ensures
            id == old(self)@.next_layer_id,
            final(self)@ == (DocumentView { next_layer_id: (id + 1) as u64, ..old(self)@ }),
    {
        let id = self.next_layer_id;
        self.next_layer_id = self.next_layer_id + 1;
        id
    }
    /// The active layer, for editing.
    pub fn active_layer_mut(&mut self) -> (layer: &mut Layer)
        requires
            has_layer(old(self)@.layers, old(self)@.active_layer_id),
        ensures
            exists|i: int| {
                &&& first_layer_at(old(self)@.layers, old(self)@.active_layer_id, i)
                &&& layer@ == old(self)@.layers[i]
                &&& final(self)@ == with_layer(old(self)@, i, final(layer)@)
            },
    {
        let index = self.layer_index(self.active_layer_id);
        match index {
            Some(i) => {
                proof {
                    assert(layer_views(self.layers@.update(i as int, self.layers@[i as int]))
                        =~= self@.layers);
                }
                &mut self.layers[i]
            },
            None => {
                proof {
                    assert(false);
                }
                &mut self.layers[0]
            },
        }
    }

    /// Appends a new empty layer named after the new layer count, makes it
    /// active and returns its identifier.
    pub fn add_layer(&mut self) -> (id: LayerId)
        requires
            old(self).next_layer_id < u64::MAX,
            old(self).layers@.len() < usize::MAX,
        ensures
            id == old(self)@.next_layer_id,
            final(self)@ == (DocumentView {
                layers: old(self)@.layers.push(LayerView {
                    id,
                    name: numbered_layer_name((old(self)@.layers.len() + 1) as nat),
                    visible: true,
                    opacity: UNIT,
                    blend_mode: BlendMode::Normal,
                    strokes: Seq::empty(),
                }),
                active_layer_id: id,
                next_layer_id: (id + 1) as u64,
                ..old(self)@
            }),
    {
        let id = self.allocate_layer_id();
        let name = numbered_layer_name_string(self.layers.len() + 1);
        let layer = Layer::named(id, name);
        self.layers.push(layer);
        self.active_layer_id = id;
        proof {
            assert(self@.layers =~= old(self)@.layers.push(layer@));
        }
        id
    }

    /// Removes the first layer with identifier `layer_id` and returns its
    /// position and the layer.  When it was the active layer, the layer now at
    /// that position (or the last one) becomes active, or identifier 0 when no
    /// layer is left.
    pub fn remove_layer(&mut self, layer_id: LayerId) -> (removed: Option<(usize, Layer)>)
        ensures
            match removed {
                Some((i, layer)) => {
                    let rest = old(self)@.layers.remove(i as int);
                    &&& first_layer_at(old(self)@.layers, layer_id, i as int)
                    &&& layer@ == old(self)@.layers[i as int]
                    &&& final(self)@ == (DocumentView {
                        layers: rest,
                        active_layer_id: if old(self)@.active_layer_id != layer_id {
                            old(self)@.active_layer_id
                        } else if rest.len() == 0 {
                            0
                        } else if i < rest.len() {
                            rest[i as int].id
                        } else {
                            rest[rest.len() - 1].id
                        },
                        ..old(self)@
                    })
                },
                None => !has_layer(old(self)@.layers, layer_id) && final(self)@ == old(self)@,
            },
    {
        let index = match self.layer_index(layer_id) {
            Some(i) => i,
            None => {
                return None;
            },
        };
        let layer = self.layers.remove(index);
        proof {
            assert(self@.layers =~= old(self)@.layers.remove(index as int));
        }
        if self.active_layer_id == layer_id {
            let n = self.layers.len();
            if n == 0 {
                self.active_layer_id = 0;
            } else {
                let candidate = if index < n - 1 { index } else { n - 1 };
                self.active_layer_id = self.layers[candidate].id;
            }
        }
        Some((index, layer))
    }

    /// Appends `stroke` to the first layer with identifier `layer_id` and
    /// returns its position there.  A stroke with identifier 0 first gets the
    /// next stroke identifier; that happens whether or not the layer exists.
    pub fn add_stroke_to_layer(&mut self, layer_id: LayerId, stroke: Stroke) -> (index: Option<usize>)
        requires
            stroke.id == 0 ==> old(self).next_stroke_id < u64::MAX,
        ensures
            ({
                let numbered = stroke.id == 0;
                let stored = if numbered {
                    StrokeView { id: old(self)@.next_stroke_id, ..stroke@ }
                } else {
                    stroke@
                };
                let counted = DocumentView {
                    next_stroke_id: if numbered {
                        (old(self)@.next_stroke_id + 1) as u64
                    } else {
                        old(self)@.next_stroke_id
                    },
                    ..old(self)@
                };
                match index {
                    Some(k) => exists|i: int| {
                        &&& first_layer_at(old(self)@.layers, layer_id, i)
                        &&& k == old(self)@.layers[i].strokes.len()
                        &&& final(self)@ == with_layer(
                            counted,
                            i,
                            with_strokes(old(self)@.layers[i], old(self)@.layers[i].strokes.push(stored)),
                        )
                    },
                    None => !has_layer(old(self)@.layers, layer_id) && final(self)@ == counted,
                }
            }),
    {
        let mut stroke = stroke;
        if stroke.id == 0 {
            stroke.id = self.allocate_stroke_id();
        }
        let ghost counted = self@;
        match self.layer_index(layer_id) {
            Some(i) => {
                let k = self.layers[i].strokes.len();
                let ghost before = self.layers@[i as int];
                self.layers[i].strokes.push(stroke);
                proof {
                    assert(self.layers@[i as int]@.strokes =~= before@.strokes.push(stroke@));
                    assert(self@.layers =~= counted.layers.update(
                        i as int,
                        with_strokes(before@, before@.strokes.push(stroke@)),
                    ));
                }
                Some(k)
            },
            None => None,
        }
    }

    /// The first stroke with identifier `stroke_id` in the first layer with
    /// identifier `layer_id`.
    pub fn find_stroke(&self, layer_id: LayerId, stroke_id: StrokeId) -> (stroke: Option<&Stroke>)
        ensures
            match stroke {
                Some(s) => exists|i: int, j: int| {
                    &&& first_layer_at(self@.layers, layer_id, i)
                    &&& first_stroke_at(self@.layers[i].strokes, stroke_id, j)
                    &&& s@ == self@.layers[i].strokes[j]
                },
                None => !has_layer(self@.layers, layer_id) || exists|i: int| {
                    &&& first_layer_at(self@.layers, layer_id, i)
                    &&& !has_stroke(self@.layers[i].strokes, stroke_id)
                },
            },
    {
        let i = match self.layer_index(layer_id) {
            Some(i) => i,
            None => {
                return None;
            },
        };
        match stroke_index(&self.layers[i].strokes, stroke_id) {
            Some(j) => {
                proof {
                    assert(self.layers@[i as int].strokes@[j as int]@ == self@.layers[i as int].strokes[j as int]);
                }
                Some(&self.layers[i].strokes[j])
            },
            None => None,
        }
    }

    /// The first stroke with identifier `stroke_id` in the first layer with
    /// identifier `layer_id`, for editing.
    pub fn find_stroke_mut(&mut self, layer_id: LayerId, stroke_id: StrokeId) -> (stroke: Option<&mut Stroke>)
        ensures
            match stroke {
                Some(s) => exists|i: int, j: int| {
                    &&& first_layer_at(old(self)@.layers, layer_id, i)
                    &&& first_stroke_at(old(self)@.layers[i].strokes, stroke_id, j)
                    &&& s@ == old(self)@.layers[i].strokes[j]
                    &&& final(self)@ == with_layer(
                        old(self)@,
                        i,
                        with_strokes(old(self)@.layers[i], old(self)@.layers[i].strokes.update(j, final(s)@)),
                    )
                },
                None => final(self)@ == old(self)@ && (!has_layer(old(self)@.layers, layer_id) || exists|i: int| {
                    &&& first_layer_at(old(self)@.layers, layer_id, i)
                    &&& !has_stroke(old(self)@.layers[i].strokes, stroke_id)
                }),
            },
    {
        let i = match self.layer_index(layer_id) {
            Some(i) => i,
            None => {
                return None;
            },
        };
        match stroke_index(&self.layers[i].strokes, stroke_id) {
            Some(j) => {
                proof {
                    assert(self.layers@[i as int].strokes@[j as int]@ == self@.layers[i as int].strokes[j as int]);
                }
                broadcast use {lemma_layer_views_update, lemma_stroke_views_update};
                Some(&mut self.layers[i].strokes[j])
            },
            None => None,
        }
    }
}

/// Replacing one layer replaces its value.
pub broadcast proof fn lemma_layer_views_update(layers: Seq<Layer>, i: int, layer: Layer)
    requires
        0 <= i < layers.len(),
    ensures
        #[trigger] layer_views(layers.update(i, layer)) == layer_views(layers).update(i, layer@),
{
    assert(layer_views(layers.update(i, layer)) =~= layer_views(layers).update(i, layer@));
}

/// Replacing one stroke replaces its value.
pub broadcast proof fn lemma_stroke_views_update(strokes: Seq<Stroke>, j: int, stroke: Stroke)
    requires
        0 <= j < strokes.len(),
    ensures
        #[trigger] stroke_views(strokes.update(j, stroke)) == stroke_views(strokes).update(j, stroke@),
{
    assert(stroke_views(strokes.update(j, stroke)) =~= stroke_views(strokes).update(j, stroke@));
}

/// Inserting one stroke inserts its value.
pub broadcast proof fn lemma_stroke_views_insert(strokes: Seq<Stroke>, j: int, stroke: Stroke)
    requires
        0 <= j <= strokes.len(),
    ensures
        #[trigger] stroke_views(strokes.insert(j, stroke)) == stroke_views(strokes).insert(j, stroke@),
{
    assert(stroke_views(strokes.insert(j, stroke)) =~= stroke_views(strokes).insert(j, stroke@));
}

/// Appending one stroke appends its value.
pub broadcast proof fn lemma_stroke_views_push(strokes: Seq<Stroke>, stroke: Stroke)
    ensures
        #[trigger] stroke_views(strokes.push(stroke)) == stroke_views(strokes).push(stroke@),
{
    assert(stroke_views(strokes.push(stroke)) =~= stroke_views(strokes).push(stroke@));
}

/// Inserting one layer inserts its value.
pub broadcast proof fn lemma_layer_views_insert(layers: Seq<Layer>, i: int, layer: Layer)
    requires
        0 <= i <= layers.len(),
    ensures
        #[trigger] layer_views(layers.insert(i, layer)) == layer_views(layers).insert(i, layer@),
{
    assert(layer_views(layers.insert(i, layer)) =~= layer_views(layers).insert(i, layer@));
}

/// Removing one layer removes its value.
pub broadcast proof fn lemma_layer_views_remove(layers: Seq<Layer>, i: int)
    requires
        0 <= i < layers.len(),
    ensures
        #[trigger] layer_views(layers.remove(i)) == layer_views(layers).remove(i),
{
    assert(layer_views(layers.remove(i)) =~= layer_views(layers).remove(i));
}

/// Appending one layer appends its value.
pub broadcast proof fn lemma_layer_views_push(layers: Seq<Layer>, layer: Layer)
    ensures
        #[trigger] layer_views(layers.push(layer)) == layer_views(layers).push(layer@),
{
    assert(layer_views(layers.push(layer)) =~= layer_views(layers).push(layer@));
}

/// The value-level facts about editing sequences of layers and strokes.
pub broadcast group group_view_edits {
    lemma_layer_views_update,
    lemma_layer_views_insert,
    lemma_layer_views_remove,
    lemma_layer_views_push,
    lemma_stroke_views_update,
    lemma_stroke_views_insert,
    lemma_stroke_views_push,
}

/// The position of the first stroke with identifier `stroke_id`.
pub fn stroke_index(strokes: &Vec<Stroke>, stroke_id: StrokeId) -> (index: Option<usize>)
    ensures
        match index {
            Some(j) => first_stroke_at(stroke_views(strokes@), stroke_id, j as int),
            None => !has_stroke(stroke_views(strokes@), stroke_id),
        },
{
    let n = strokes.len();
    let mut j: usize = 0;
    while j < n
        invariant
            n == strokes@.len(),
            j <= n,
            forall|k: int| 0 <= k < j ==> #[trigger] stroke_views(strokes@)[k].id != stroke_id,
        decreases n - j,
    {
        if strokes[j].id == stroke_id {
            return Some(j);
        }
        j += 1;
    }
    None
}

} // verus!
