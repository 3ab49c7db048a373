use inkline::model::{default_background_color, BlendMode, Document, Layer, Stroke, StrokePoint};

fn bits(value: f32) -> u32 {
    value.to_bits()
}

fn stroke(id: u64) -> Stroke {
    Stroke::new(
        id,
        vec![StrokePoint::new(bits(1.0), bits(2.0), bits(0.5))],
        [bits(0.0), bits(0.0), bits(0.0), bits(1.0)],
    )
}

#[test]
fn blend_mode_labels() {
    let labels: Vec<&str> = BlendMode::all().iter().map(|m| m.label()).collect();
    assert_eq!(labels, vec!["Normal", "Multiply", "Screen", "Add", "Subtract"]);
    assert_eq!(BlendMode::default_mode(), BlendMode::Normal);
}

#[test]
fn new_document_has_one_active_layer() {
    let document = Document::new(bits(1280.0), bits(800.0));
    assert_eq!(document.layers.len(), 1);
    assert_eq!(document.layers[0].name, "Layer 1");
    assert_eq!(document.active_layer_id, 1);
    assert_eq!(document.next_layer_id, 2);
    assert_eq!(document.next_stroke_id, 1);
    assert_eq!(document.background_color, default_background_color());
    assert_eq!(f32::from_bits(document.background_color[0]), 1.0);
    assert_eq!(document.active_layer().id, 1);
    assert_eq!(f32::from_bits(document.layers[0].opacity), 1.0);
}

#[test]
fn stroke_new_has_unit_width() {
    let s = stroke(3);
    assert_eq!(f32::from_bits(s.width_scale), 1.0);
    assert_eq!(s.duplicate(), s);
}

#[test]
fn add_layer_names_and_activates() {
    let mut document = Document::new(bits(10.0), bits(10.0));
    for _ in 0..9 {
        document.add_layer();
    }
    let id = document.add_layer();
    assert_eq!(id, 11);
    assert_eq!(document.active_layer_id, 11);
    assert_eq!(document.layers.last().unwrap().name, "Layer 11");
    assert_eq!(document.layers[9].name, "Layer 10");
    assert_eq!(document.next_layer_id, 12);
}

#[test]
fn remove_active_layer_activates_the_layer_in_its_place() {
    let mut document = Document::new(bits(10.0), bits(10.0));
    document.add_layer();
    document.add_layer();
    document.active_layer_id = 2;
    let (index, layer) = document.remove_layer(2).unwrap();
    assert_eq!(index, 1);
    assert_eq!(layer.id, 2);
    assert_eq!(document.active_layer_id, 3);
    let (index, _) = document.remove_layer(3).unwrap();
    assert_eq!(index, 1);
    assert_eq!(document.active_layer_id, 1);
    document.remove_layer(1).unwrap();
    assert_eq!(document.active_layer_id, 0);
    assert!(document.remove_layer(1).is_none());
}

#[test]
fn add_stroke_to_layer_numbers_new_strokes() {
    let mut document = Document::new(bits(10.0), bits(10.0));
    assert_eq!(document.add_stroke_to_layer(1, stroke(0)), Some(0));
    assert_eq!(document.add_stroke_to_layer(1, stroke(0)), Some(1));
    assert_eq!(document.add_stroke_to_layer(1, stroke(40)), Some(2));
    let ids: Vec<u64> = document.layers[0].strokes.iter().map(|s| s.id).collect();
    assert_eq!(ids, vec![1, 2, 40]);
    assert_eq!(document.next_stroke_id, 3);
    assert_eq!(document.add_stroke_to_layer(9, stroke(0)), None);
    assert_eq!(document.next_stroke_id, 4);
}

#[test]
fn find_strokes_and_layers() {
    let mut document = Document::new(bits(10.0), bits(10.0));
    document.layers.push(Layer::new(2, "Second"));
    document.add_stroke_to_layer(2, stroke(5));
    assert_eq!(document.layer_index(2), Some(1));
    assert_eq!(document.layer_index(3), None);
    assert_eq!(document.find_stroke(2, 5).unwrap().id, 5);
    assert!(document.find_stroke(1, 5).is_none());
    assert!(document.find_stroke(7, 5).is_none());
    document.find_stroke_mut(2, 5).unwrap().width_scale = bits(2.0);
    assert_eq!(f32::from_bits(document.find_stroke(2, 5).unwrap().width_scale), 2.0);
    document.active_layer_id = 2;
    document.active_layer_mut().visible = false;
    assert!(!document.layer(2).unwrap().visible);
}

#[test]
fn allocated_identifiers_increase() {
    let mut document = Document::new(bits(10.0), bits(10.0));
    let a = document.allocate_stroke_id();
    let b = document.allocate_stroke_id();
    assert_eq!((a, b), (1, 2));
    let l = document.allocate_layer_id();
    assert_eq!(l, 2);
    assert_eq!(document.next_layer_id, 3);
}
