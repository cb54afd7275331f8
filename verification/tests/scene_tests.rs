use diorama::codec::{scene_from_json, scene_to_json};
use diorama::geom::Vec3Fx;
use diorama::inspect::{InspectorState, SceneEditState};
use diorama::panel::{
    apply_f_stops, apply_focal_distance, apply_outline_width, effect_flag, outline_scale,
    tonemapping_switch, LutUiState,
};
use diorama::scene::{
    alpha_needs_blend, clamp_unit_fx, scene_file_name, EditableMesh, RgbaFx, SceneDoc, SceneObject,
    SpawnKind,
};

fn v(x: i64, y: i64, z: i64) -> Vec3Fx {
    Vec3Fx { x, y, z }
}

fn crystal() -> SceneObject {
    SceneObject {
        name: Some(b"Crystal".to_vec()),
        kind: SpawnKind::Sphere,
        position: v(1500, 650, -500),
        rotation_euler_mdeg: v(0, 0, 0),
        scale: v(600, 600, 600),
        color_rgba: RgbaFx { r: 750, g: 950, b: 1000, a: 1000 },
        metallic: 0,
        roughness: 100,
    }
}

#[test]
fn empty_scene_encodes_exactly() {
    let doc = SceneDoc::new(Vec::new());
    let out = scene_to_json(&doc);
    assert_eq!(out, b"{\"version\":1,\"objects\":[]}".to_vec());
}

#[test]
fn one_object_encodes_exactly() {
    let doc = SceneDoc::new(vec![crystal()]);
    let out = scene_to_json(&doc);
    let expected = "{\"version\":1,\"objects\":[{\"name\":\"Crystal\",\"kind\":\"Sphere\",\"position\":[1.500,0.650,-0.500],\"rotation_euler_deg\":[0.000,0.000,0.000],\"scale\":[0.600,0.600,0.600],\"color_rgba\":[0.750,0.950,1.000,1.000],\"metallic\":0.000,\"roughness\":0.100}]}";
    assert_eq!(out, expected.as_bytes().to_vec());
}

#[test]
fn nameless_object_encodes_null() {
    let mut o = crystal();
    o.name = None;
    let doc = SceneDoc::new(vec![o]);
    let out = scene_to_json(&doc);
    let text = String::from_utf8(out).unwrap();
    assert!(text.contains("{\"name\":null,\"kind\":\"Sphere\""));
}

#[test]
fn scene_round_trips() {
    let mut second = crystal();
    second.name = None;
    second.kind = SpawnKind::Plane;
    second.position = v(-2700, 20, -2300);
    second.metallic = 1000;
    let doc = SceneDoc::new(vec![crystal(), second]);
    let out = scene_to_json(&doc);
    let back = scene_from_json(&out).unwrap();
    assert_eq!(back.version, 1);
    assert_eq!(back.objects.len(), 2);
    assert_eq!(back.objects[0].name, Some(b"Crystal".to_vec()));
    assert_eq!(back.objects[0].kind, SpawnKind::Sphere);
    assert_eq!(back.objects[0].position, v(1500, 650, -500));
    assert_eq!(back.objects[0].color_rgba, RgbaFx { r: 750, g: 950, b: 1000, a: 1000 });
    assert_eq!(back.objects[0].roughness, 100);
    assert_eq!(back.objects[1].name, None);
    assert_eq!(back.objects[1].kind, SpawnKind::Plane);
    assert_eq!(back.objects[1].position, v(-2700, 20, -2300));
    assert_eq!(back.objects[1].metallic, 1000);
}

#[test]
fn empty_scene_round_trips() {
    let doc = SceneDoc::new(Vec::new());
    let out = scene_to_json(&doc);
    let back = scene_from_json(&out).unwrap();
    assert_eq!(back.version, 1);
    assert_eq!(back.objects.len(), 0);
}

#[test]
fn handwritten_canonical_document_decodes() {
    let text = "{\"version\":1,\"objects\":[{\"name\":\"Water\",\"kind\":\"Cuboid\",\"position\":[-2.700,0.020,-2.300],\"rotation_euler_deg\":[0.000,0.000,0.000],\"scale\":[1.000,1.000,1.000],\"color_rgba\":[0.550,0.850,0.950,0.800],\"metallic\":0.000,\"roughness\":0.050}]}";
    let doc = scene_from_json(&text.as_bytes().to_vec()).unwrap();
    assert_eq!(doc.objects.len(), 1);
    assert_eq!(doc.objects[0].name, Some(b"Water".to_vec()));
    assert_eq!(doc.objects[0].kind, SpawnKind::Cuboid);
    assert_eq!(doc.objects[0].position, v(-2700, 20, -2300));
    assert_eq!(doc.objects[0].color_rgba, RgbaFx { r: 550, g: 850, b: 950, a: 800 });
    assert_eq!(doc.objects[0].roughness, 50);
    // and it re-encodes to the very input
    assert_eq!(scene_to_json(&doc), text.as_bytes().to_vec());
}

#[test]
fn malformed_documents_are_rejected() {
    assert!(scene_from_json(&Vec::new()).is_err());
    assert!(scene_from_json(&b"not json".to_vec()).is_err());
    // trailing bytes beyond the document
    assert!(scene_from_json(&b"{\"version\":1,\"objects\":[]} ".to_vec()).is_err());
    // a non-canonical version number re-encodes differently
    assert!(scene_from_json(&b"{\"version\":01,\"objects\":[]}".to_vec()).is_err());
    // an unknown version tag
    assert!(scene_from_json(&b"{\"version\":2,\"objects\":[]}".to_vec()).is_err());
    // numbers must carry exactly three decimals
    let two_decimals = "{\"version\":1,\"objects\":[{\"name\":null,\"kind\":\"Plane\",\"position\":[1.50,0.000,0.000],\"rotation_euler_deg\":[0.000,0.000,0.000],\"scale\":[1.000,1.000,1.000],\"color_rgba\":[1.000,1.000,1.000,1.000],\"metallic\":0.000,\"roughness\":0.600}]}";
    assert!(scene_from_json(&two_decimals.as_bytes().to_vec()).is_err());
    // colour channels beyond full intensity are out of range
    let loud = "{\"version\":1,\"objects\":[{\"name\":null,\"kind\":\"Plane\",\"position\":[0.000,0.000,0.000],\"rotation_euler_deg\":[0.000,0.000,0.000],\"scale\":[1.000,1.000,1.000],\"color_rgba\":[2.000,1.000,1.000,1.000],\"metallic\":0.000,\"roughness\":0.600}]}";
    assert!(scene_from_json(&loud.as_bytes().to_vec()).is_err());
    // a minus on zero is not canonical: it re-encodes without the sign
    let negative_zero = "{\"version\":1,\"objects\":[{\"name\":null,\"kind\":\"Plane\",\"position\":[-0.000,0.000,0.000],\"rotation_euler_deg\":[0.000,0.000,0.000],\"scale\":[1.000,1.000,1.000],\"color_rgba\":[1.000,1.000,1.000,1.000],\"metallic\":0.000,\"roughness\":0.600}]}";
    assert!(scene_from_json(&negative_zero.as_bytes().to_vec()).is_err());
}

#[test]
fn longest_allowed_name_round_trips() {
    let mut o = crystal();
    o.name = Some(vec![b'x'; 256]);
    let doc = SceneDoc::new(vec![o]);
    let out = scene_to_json(&doc);
    let back = scene_from_json(&out).unwrap();
    assert_eq!(back.objects[0].name, Some(vec![b'x'; 256]));
    // one byte longer is over the limit and cannot stand in a document
    let stretched = String::from_utf8(out).unwrap().replace(
        &"x".repeat(256),
        &"x".repeat(257),
    );
    assert!(scene_from_json(&stretched.as_bytes().to_vec()).is_err());
}

#[test]
fn file_name_defaults_when_blank() {
    assert_eq!(scene_file_name(&Vec::new()), b"scene.json".to_vec());
    assert_eq!(scene_file_name(&b"  \t ".to_vec()), b"scene.json".to_vec());
    assert_eq!(scene_file_name(&b"level1.json".to_vec()), b"level1.json".to_vec());
}

#[test]
fn material_params_clamp_to_unit() {
    assert_eq!(clamp_unit_fx(-5), 0);
    assert_eq!(clamp_unit_fx(355), 355);
    assert_eq!(clamp_unit_fx(1500), 1000);
}

#[test]
fn nearly_opaque_alpha_needs_no_blend() {
    assert!(alpha_needs_blend(998));
    assert!(!alpha_needs_blend(999));
    assert!(!alpha_needs_blend(1000));
}

#[test]
fn default_kind_is_cuboid() {
    assert_eq!(SpawnKind::default(), SpawnKind::Cuboid);
    let mesh_info = EditableMesh { kind: SpawnKind::default() };
    assert_eq!(mesh_info.kind, SpawnKind::Cuboid);
}

#[test]
fn selection_state_machine() {
    let mut st = InspectorState::default();
    st.select(7);
    assert_eq!(st.selected, Some(7));
    assert!(st.window_open);
    assert!(!st.cache_initialized);
    assert_eq!(st.last_selected, Some(7));
    st.mark_cached(7);
    assert!(st.cache_initialized);
    assert!(!st.needs_reload(7));
    assert!(st.needs_reload(8));
    // re-selecting the same entity keeps the cache
    st.select(7);
    assert!(st.cache_initialized);
    // selecting another entity drops it
    st.select(8);
    assert!(!st.cache_initialized);
    assert_eq!(st.last_selected, Some(8));
    st.close_window();
    assert!(!st.window_open);
    assert_eq!(st.selected, Some(8));
    let prev = st.delete_selected();
    assert_eq!(prev, Some(8));
    assert_eq!(st.selected, None);
    assert_eq!(st.last_selected, None);
}

#[test]
fn spawn_focuses_new_entity() {
    let mut st = InspectorState::default();
    st.select(1);
    st.mark_cached(1);
    st.spawn_new(2);
    assert_eq!(st.selected, Some(2));
    assert!(st.window_open);
    assert!(!st.cache_initialized);
    assert_eq!(st.last_selected, Some(2));
}

#[test]
fn editor_panel_toggles() {
    let mut st = SceneEditState::default();
    assert!(st.panel_open);
    st.toggle();
    assert!(!st.panel_open);
    st.toggle();
    assert!(st.panel_open);
}

#[test]
fn panel_clamps_and_flags() {
    assert_eq!(apply_focal_distance(50), 100);
    assert_eq!(apply_focal_distance(15000), 15000);
    assert_eq!(apply_f_stops(5), 10);
    assert_eq!(apply_f_stops(2000), 2000);
    assert_eq!(apply_f_stops(100000), 64000);
    assert_eq!(apply_outline_width(-3), 0);
    assert_eq!(apply_outline_width(20), 20);
    assert_eq!(apply_outline_width(400), 250);
    assert_eq!(effect_flag(true), 1);
    assert_eq!(effect_flag(false), 0);
}

#[test]
fn outline_scale_hides_when_disabled() {
    assert_eq!(outline_scale(true, 30), 1030);
    assert_eq!(outline_scale(true, -5), 1000);
    assert_eq!(outline_scale(false, 30), 0);
}

#[test]
fn pending_lut_path_takes_effect_once() {
    let mut lut = LutUiState::default();
    assert_eq!(lut.path, b"luts/lookup.png".to_vec());
    assert!(lut.pending.is_none());
    assert!(!lut.apply_pending());
    lut.pending = Some(b"luts/noir.png".to_vec());
    assert!(lut.apply_pending());
    assert_eq!(lut.path, b"luts/noir.png".to_vec());
    assert!(lut.pending.is_none());
    assert!(!lut.apply_pending());
    assert_eq!(lut.path, b"luts/noir.png".to_vec());
}

#[test]
fn tonemapping_switch_cases() {
    assert_eq!(tonemapping_switch(true, true), (true, false));
    assert_eq!(tonemapping_switch(true, false), (false, false));
    assert_eq!(tonemapping_switch(false, true), (false, true));
    assert_eq!(tonemapping_switch(false, false), (false, true));
}
