//! The scene file format: canonical JSON, written and read entirely here.
//!
//! A saved scene is one JSON document — a version tag and a flat array of
//! object descriptors — in a fixed, canonical shape: keys in declaration
//! order, no whitespace, and every number as a signed decimal with exactly
//! three digits after the point (the fixed-point thousandths written out).
//! `scene_to_json` produces that encoding, byte for byte, as its contract
//! states; `scene_from_json` inverts it exactly: the canonical document of
//! every well-formed scene decodes, whatever it hands out re-encodes to the
//! very input, and everything else is rejected.

use vstd::prelude::*;
use crate::FX_ONE;
use crate::geom::Vec3Fx;
use crate::scene::{
    RgbaFx, SceneDoc, SceneObject, SpawnKind, name_byte_ok, name_ok, MAX_NAME_LEN,
    SCENE_NUM_LIMIT, SCENE_VERSION,
};

verus! {

/// The bytes of `{"version":`.
pub open spec fn doc_head_bytes() -> Seq<u8> {
    seq![0x7bu8, 0x22u8, 0x76u8, 0x65u8, 0x72u8, 0x73u8, 0x69u8, 0x6fu8, 0x6eu8, 0x22u8, 0x3au8]
}

fn lit_doc_head() -> (v: Vec<u8>)
    ensures
        v@ == doc_head_bytes(),
{
    let mut v: Vec<u8> = Vec::new();
    v.push(0x7b);
    v.push(0x22);
    v.push(0x76);
    v.push(0x65);
    v.push(0x72);
    v.push(0x73);
    v.push(0x69);
    v.push(0x6f);
    v.push(0x6e);
    v.push(0x22);
    v.push(0x3a);
    proof {
        assert(v@ =~= doc_head_bytes());
    }
    v
}

/// The bytes of `,"objects":[`.
pub open spec fn objs_open_bytes() -> Seq<u8> {
    seq![0x2cu8, 0x22u8, 0x6fu8, 0x62u8, 0x6au8, 0x65u8, 0x63u8, 0x74u8, 0x73u8, 0x22u8, 0x3au8, 0x5bu8]
}

fn lit_objs_open() -> (v: Vec<u8>)
    ensures
        v@ == objs_open_bytes(),
{
    let mut v: Vec<u8> = Vec::new();
    v.push(0x2c);
    v.push(0x22);
    v.push(0x6f);
    v.push(0x62);
    v.push(0x6a);
    v.push(0x65);
    v.push(0x63);
    v.push(0x74);
    v.push(0x73);
    v.push(0x22);
    v.push(0x3a);
    v.push(0x5b);
    proof {
        assert(v@ =~= objs_open_bytes());
    }
    v
}

/// The bytes of `]}`.
pub open spec fn doc_tail_bytes() -> Seq<u8> {
    seq![0x5du8, 0x7du8]
}

fn lit_doc_tail() -> (v: Vec<u8>)
    ensures
        v@ == doc_tail_bytes(),
{
    let mut v: Vec<u8> = Vec::new();
    v.push(0x5d);
    v.push(0x7d);
    proof {
        assert(v@ =~= doc_tail_bytes());
    }
    v
}

/// The bytes of `{"name":`.
pub open spec fn name_key_bytes() -> Seq<u8> {
    seq![0x7bu8, 0x22u8, 0x6eu8, 0x61u8, 0x6du8, 0x65u8, 0x22u8, 0x3au8]
}

fn lit_name_key() -> (v: Vec<u8>)
    ensures
        v@ == name_key_bytes(),
{
    let mut v: Vec<u8> = Vec::new();
    v.push(0x7b);
    v.push(0x22);
    v.push(0x6e);
    v.push(0x61);
    v.push(0x6d);
    v.push(0x65);
    v.push(0x22);
    v.push(0x3a);
    proof {
        assert(v@ =~= name_key_bytes());
    }
    v
}

/// The bytes of `null`.
pub open spec fn null_word_bytes() -> Seq<u8> {
    seq![0x6eu8, 0x75u8, 0x6cu8, 0x6cu8]
}

fn lit_null_word() -> (v: Vec<u8>)
    ensures
        v@ == null_word_bytes(),
{
    let mut v: Vec<u8> = Vec::new();
    v.push(0x6e);
    v.push(0x75);
    v.push(0x6c);
    v.push(0x6c);
    proof {
        assert(v@ =~= null_word_bytes());
    }
    v
}

/// The bytes of `,"kind":"`.
pub open spec fn kind_key_bytes() -> Seq<u8> {
    seq![0x2cu8, 0x22u8, 0x6bu8, 0x69u8, 0x6eu8, 0x64u8, 0x22u8, 0x3au8, 0x22u8]
}

fn lit_kind_key() -> (v: Vec<u8>)
    ensures
        v@ == kind_key_bytes(),
{
    let mut v: Vec<u8> = Vec::new();
    v.push(0x2c);
    v.push(0x22);
    v.push(0x6b);
    v.push(0x69);
    v.push(0x6e);
    v.push(0x64);
    v.push(0x22);
    v.push(0x3a);
    v.push(0x22);
    proof {
        assert(v@ =~= kind_key_bytes());
    }
    v
}

/// The bytes of `","position":[`.
pub open spec fn pos_key_bytes() -> Seq<u8> {
    seq![0x22u8, 0x2cu8, 0x22u8, 0x70u8, 0x6fu8, 0x73u8, 0x69u8, 0x74u8, 0x69u8, 0x6fu8, 0x6eu8, 0x22u8, 0x3au8, 0x5bu8]
}

fn lit_pos_key() -> (v: Vec<u8>)
    ensures
        v@ == pos_key_bytes(),
{
    let mut v: Vec<u8> = Vec::new();
    v.push(0x22);
    v.push(0x2c);
    v.push(0x22);
    v.push(0x70);
    v.push(0x6f);
    v.push(0x73);
    v.push(0x69);
    v.push(0x74);
    v.push(0x69);
    v.push(0x6f);
    v.push(0x6e);
    v.push(0x22);
    v.push(0x3a);
    v.push(0x5b);
    proof {
        assert(v@ =~= pos_key_bytes());
    }
    v
}

/// The bytes of `],"rotation_euler_deg":[`.
pub open spec fn rot_key_bytes() -> Seq<u8> {
    seq![0x5du8, 0x2cu8, 0x22u8, 0x72u8, 0x6fu8, 0x74u8, 0x61u8, 0x74u8, 0x69u8, 0x6fu8, 0x6eu8, 0x5fu8, 0x65u8, 0x75u8, 0x6cu8, 0x65u8, 0x72u8, 0x5fu8, 0x64u8, 0x65u8, 0x67u8, 0x22u8, 0x3au8, 0x5bu8]
}

fn lit_rot_key() -> (v: Vec<u8>)
    ensures
        v@ == rot_key_bytes(),
{
    let mut v: Vec<u8> = Vec::new();
    v.push(0x5d);
    v.push(0x2c);
    v.push(0x22);
    v.push(0x72);
    v.push(0x6f);
    v.push(0x74);
    v.push(0x61);
    v.push(0x74);
    v.push(0x69);
    v.push(0x6f);
    v.push(0x6e);
    v.push(0x5f);
    v.push(0x65);
    v.push(0x75);
    v.push(0x6c);
    v.push(0x65);
    v.push(0x72);
    v.push(0x5f);
    v.push(0x64);
    v.push(0x65);
    v.push(0x67);
    v.push(0x22);
    v.push(0x3a);
    v.push(0x5b);
    proof {
        assert(v@ =~= rot_key_bytes());
    }
    v
}

/// The bytes of `],"scale":[`.
pub open spec fn scale_key_bytes() -> Seq<u8> {
    seq![0x5du8, 0x2cu8, 0x22u8, 0x73u8, 0x63u8, 0x61u8, 0x6cu8, 0x65u8, 0x22u8, 0x3au8, 0x5bu8]
}

fn lit_scale_key() -> (v: Vec<u8>)
    ensures
        v@ == scale_key_bytes(),
{
    let mut v: Vec<u8> = Vec::new();
    v.push(0x5d);
    v.push(0x2c);
    v.push(0x22);
    v.push(0x73);
    v.push(0x63);
    v.push(0x61);
    v.push(0x6c);
    v.push(0x65);
    v.push(0x22);
    v.push(0x3a);
    v.push(0x5b);
    proof {
        assert(v@ =~= scale_key_bytes());
    }
    v
}

/// The bytes of `],"color_rgba":[`.
pub open spec fn color_key_bytes() -> Seq<u8> {
    seq![0x5du8, 0x2cu8, 0x22u8, 0x63u8, 0x6fu8, 0x6cu8, 0x6fu8, 0x72u8, 0x5fu8, 0x72u8, 0x67u8, 0x62u8, 0x61u8, 0x22u8, 0x3au8, 0x5bu8]
}

fn lit_color_key() -> (v: Vec<u8>)
    ensures
        v@ == color_key_bytes(),
{
    let mut v: Vec<u8> = Vec::new();
    v.push(0x5d);
    v.push(0x2c);
    v.push(0x22);
    v.push(0x63);
    v.push(0x6f);
    v.push(0x6c);
    v.push(0x6f);
    v.push(0x72);
    v.push(0x5f);
    v.push(0x72);
    v.push(0x67);
    v.push(0x62);
    v.push(0x61);
    v.push(0x22);
    v.push(0x3a);
    v.push(0x5b);
    proof {
        assert(v@ =~= color_key_bytes());
    }
    v
}

/// The bytes of `],"metallic":`.
pub open spec fn metallic_key_bytes() -> Seq<u8> {
    seq![0x5du8, 0x2cu8, 0x22u8, 0x6du8, 0x65u8, 0x74u8, 0x61u8, 0x6cu8, 0x6cu8, 0x69u8, 0x63u8, 0x22u8, 0x3au8]
}

fn lit_metallic_key() -> (v: Vec<u8>)
    ensures
        v@ == metallic_key_bytes(),
{
    let mut v: Vec<u8> = Vec::new();
    v.push(0x5d);
    v.push(0x2c);
    v.push(0x22);
    v.push(0x6d);
    v.push(0x65);
    v.push(0x74);
    v.push(0x61);
    v.push(0x6c);
    v.push(0x6c);
    v.push(0x69);
    v.push(0x63);
    v.push(0x22);
    v.push(0x3a);
    proof {
        assert(v@ =~= metallic_key_bytes());
    }
    v
}

/// The bytes of `,"roughness":`.
pub open spec fn rough_key_bytes() -> Seq<u8> {
    seq![0x2cu8, 0x22u8, 0x72u8, 0x6fu8, 0x75u8, 0x67u8, 0x68u8, 0x6eu8, 0x65u8, 0x73u8, 0x73u8, 0x22u8, 0x3au8]
}

fn lit_rough_key() -> (v: Vec<u8>)
    ensures
        v@ == rough_key_bytes(),
{
    let mut v: Vec<u8> = Vec::new();
    v.push(0x2c);
    v.push(0x22);
    v.push(0x72);
    v.push(0x6f);
    v.push(0x75);
    v.push(0x67);
    v.push(0x68);
    v.push(0x6e);
    v.push(0x65);
    v.push(0x73);
    v.push(0x73);
    v.push(0x22);
    v.push(0x3a);
    proof {
        assert(v@ =~= rough_key_bytes());
    }
    v
}

/// The bytes of `}`.
pub open spec fn obj_tail_bytes() -> Seq<u8> {
    seq![0x7du8]
}

fn lit_obj_tail() -> (v: Vec<u8>)
    ensures
        v@ == obj_tail_bytes(),
{
    let mut v: Vec<u8> = Vec::new();
    v.push(0x7d);
    proof {
        assert(v@ =~= obj_tail_bytes());
    }
    v
}

/// The bytes of `,`.
pub open spec fn comma_bytes() -> Seq<u8> {
    seq![0x2cu8]
}

fn lit_comma() -> (v: Vec<u8>)
    ensures
        v@ == comma_bytes(),
{
    let mut v: Vec<u8> = Vec::new();
    v.push(0x2c);
    proof {
        assert(v@ =~= comma_bytes());
    }
    v
}

/// The bytes of `"`.
pub open spec fn quote_bytes() -> Seq<u8> {
    seq![0x22u8]
}

fn lit_quote() -> (v: Vec<u8>)
    ensures
        v@ == quote_bytes(),
{
    let mut v: Vec<u8> = Vec::new();
    v.push(0x22);
    proof {
        assert(v@ =~= quote_bytes());
    }
    v
}

/// The bytes of `Cuboid`.
pub open spec fn kind_cuboid_bytes() -> Seq<u8> {
    seq![0x43u8, 0x75u8, 0x62u8, 0x6fu8, 0x69u8, 0x64u8]
}

fn lit_kind_cuboid() -> (v: Vec<u8>)
    ensures
        v@ == kind_cuboid_bytes(),
{
    let mut v: Vec<u8> = Vec::new();
    v.push(0x43);
    v.push(0x75);
    v.push(0x62);
    v.push(0x6f);
    v.push(0x69);
    v.push(0x64);
    proof {
        assert(v@ =~= kind_cuboid_bytes());
    }
    v
}

/// The bytes of `Sphere`.
pub open spec fn kind_sphere_bytes() -> Seq<u8> {
    seq![0x53u8, 0x70u8, 0x68u8, 0x65u8, 0x72u8, 0x65u8]
}

fn lit_kind_sphere() -> (v: Vec<u8>)
    ensures
        v@ == kind_sphere_bytes(),
{
    let mut v: Vec<u8> = Vec::new();
    v.push(0x53);
    v.push(0x70);
    v.push(0x68);
    v.push(0x65);
    v.push(0x72);
    v.push(0x65);
    proof {
        assert(v@ =~= kind_sphere_bytes());
    }
    v
}

/// The bytes of `Plane`.
pub open spec fn kind_plane_bytes() -> Seq<u8> {
    seq![0x50u8, 0x6cu8, 0x61u8, 0x6eu8, 0x65u8]
}

fn lit_kind_plane() -> (v: Vec<u8>)
    ensures
        v@ == kind_plane_bytes(),
{
    let mut v: Vec<u8> = Vec::new();
    v.push(0x50);
    v.push(0x6c);
    v.push(0x61);
    v.push(0x6e);
    v.push(0x65);
    proof {
        assert(v@ =~= kind_plane_bytes());
    }
    v
}

/// The decimal digits of `n`, most significant first.
pub open spec fn dec_bytes(n: nat) -> Seq<u8>
    decreases n,
{
    if n < 10 {
        seq![(0x30 + n) as u8]
    } else {
        dec_bytes((n / 10) as nat) + seq![(0x30 + n % 10) as u8]
    }
}

/// Three zero-padded digits of the thousandths `m` (below 1000).
pub open spec fn frac3_bytes(m: nat) -> Seq<u8> {
    seq![(0x30 + m / 100) as u8, (0x30 + (m / 10) % 10) as u8, (0x30 + m % 10) as u8]
}

/// The canonical decimal of a nonnegative fixed-point value: whole units, a
/// point, and exactly three thousandth digits.
pub open spec fn mag_bytes(m: int) -> Seq<u8>
    recommends
        m >= 0,
{
    dec_bytes((m / 1000) as nat) + seq![0x2eu8] + frac3_bytes((m % 1000) as nat)
}

/// The canonical decimal of a fixed-point value, signed.
pub open spec fn num_bytes(v: int) -> Seq<u8> {
    if v < 0 {
        seq![0x2du8] + mag_bytes(-v)
    } else {
        mag_bytes(v)
    }
}

/// A name's place in the document: the bytes in quotes, or the word `null`.
pub open spec fn name_json(name: Option<Vec<u8>>) -> Seq<u8> {
    match name {
        Some(n) => quote_bytes() + n@ + quote_bytes(),
        None => null_word_bytes(),
    }
}

/// A shape kind's name in the document.
pub open spec fn kind_json(k: SpawnKind) -> Seq<u8> {
    match k {
        SpawnKind::Cuboid => kind_cuboid_bytes(),
        SpawnKind::Sphere => kind_sphere_bytes(),
        SpawnKind::Plane => kind_plane_bytes(),
    }
}

/// Three coordinates, comma-separated (the surrounding brackets belong to
/// the neighbouring keys).
pub open spec fn triple_json(v: Vec3Fx) -> Seq<u8> {
    num_bytes(v.x as int) + comma_bytes() + num_bytes(v.y as int) + comma_bytes() + num_bytes(
        v.z as int,
    )
}

/// Four colour channels, comma-separated.
pub open spec fn rgba_json(c: RgbaFx) -> Seq<u8> {
    num_bytes(c.r as int) + comma_bytes() + num_bytes(c.g as int) + comma_bytes() + num_bytes(
        c.b as int,
    ) + comma_bytes() + num_bytes(c.a as int)
}

/// An object descriptor's opening: its name and kind.
pub open spec fn obj_head_json(o: SceneObject) -> Seq<u8> {
    name_key_bytes() + name_json(o.name) + kind_key_bytes() + kind_json(o.kind)
}

/// An object descriptor's transform: position, rotation and scale.
pub open spec fn obj_transform_json(o: SceneObject) -> Seq<u8> {
    pos_key_bytes() + triple_json(o.position) + rot_key_bytes() + triple_json(
        o.rotation_euler_mdeg,
    ) + scale_key_bytes() + triple_json(o.scale)
}

/// An object descriptor's material and closing brace.
pub open spec fn obj_material_json(o: SceneObject) -> Seq<u8> {
    color_key_bytes() + rgba_json(o.color_rgba) + metallic_key_bytes() + num_bytes(
        o.metallic as int,
    ) + rough_key_bytes() + num_bytes(o.roughness as int) + obj_tail_bytes()
}

/// One object descriptor, canonical: opening, transform, material.
#[verifier::opaque]
pub open spec fn obj_json(o: SceneObject) -> Seq<u8> {
    obj_head_json(o) + obj_transform_json(o) + obj_material_json(o)
}

/// The object list after its first element: each further object behind a
/// comma.
pub open spec fn rest_objs_json(s: Seq<SceneObject>) -> Seq<u8>
    decreases s.len(),
{
    if s.len() == 0 {
        Seq::empty()
    } else {
        comma_bytes() + obj_json(s[0]) + rest_objs_json(s.skip(1))
    }
}

/// The whole object list, comma-separated.
pub open spec fn objs_json(s: Seq<SceneObject>) -> Seq<u8> {
    if s.len() == 0 {
        Seq::empty()
    } else {
        obj_json(s[0]) + rest_objs_json(s.skip(1))
    }
}

/// The whole document, canonical.
pub open spec fn doc_json(d: SceneDoc) -> Seq<u8> {
    doc_head_bytes() + dec_bytes(d.version as nat) + objs_open_bytes() + objs_json(d.objects@)
        + doc_tail_bytes()
}

/// Appending an object to a nonempty tail appends a comma and its encoding.
#[verifier::rlimit(50)]
proof fn lemma_rest_objs_snoc(s: Seq<SceneObject>, o: SceneObject)
    ensures
        rest_objs_json(s.push(o)) == rest_objs_json(s) + comma_bytes() + obj_json(o),
    decreases s.len(),
{
    reveal_with_fuel(rest_objs_json, 2);
    if s.len() == 0 {
        assert(s.push(o)[0] == o);
        assert(s.push(o).skip(1) =~= Seq::<SceneObject>::empty());
        assert(rest_objs_json(s.push(o)) == comma_bytes() + obj_json(o) + rest_objs_json(
            s.push(o).skip(1),
        ));
        assert(rest_objs_json(s.push(o)) == comma_bytes() + obj_json(o) + Seq::<u8>::empty());
        assert(rest_objs_json(s) == Seq::<u8>::empty());
        assert(comma_bytes() + obj_json(o) + Seq::<u8>::empty() =~= Seq::<u8>::empty()
            + comma_bytes() + obj_json(o));
    } else {
        assert(s.push(o)[0] == s[0]);
        assert(s.push(o).skip(1) =~= s.skip(1).push(o));
        lemma_rest_objs_snoc(s.skip(1), o);
        assert(rest_objs_json(s.push(o)) == comma_bytes() + obj_json(s[0]) + (rest_objs_json(
            s.skip(1),
        ) + comma_bytes() + obj_json(o)));
        assert(comma_bytes() + obj_json(s[0]) + (rest_objs_json(s.skip(1)) + comma_bytes()
            + obj_json(o)) =~= (comma_bytes() + obj_json(s[0]) + rest_objs_json(s.skip(1)))
            + comma_bytes() + obj_json(o));
    }
}

/// Appending an object to a list appends its encoding, behind a comma when
/// the list was not empty.
#[verifier::rlimit(50)]
proof fn lemma_objs_snoc(s: Seq<SceneObject>, o: SceneObject)
    ensures
        s.len() == 0 ==> objs_json(s.push(o)) == obj_json(o),
        s.len() > 0 ==> objs_json(s.push(o)) == objs_json(s) + comma_bytes() + obj_json(o),
{
    if s.len() == 0 {
        assert(s.push(o).skip(1) =~= Seq::<SceneObject>::empty());
        assert(objs_json(s.push(o)) =~= obj_json(o));
    } else {
        assert(s.push(o).skip(1) =~= s.skip(1).push(o));
        lemma_rest_objs_snoc(s.skip(1), o);
        assert(objs_json(s.push(o)) =~= objs_json(s) + comma_bytes() + obj_json(o));
    }
}

/// Append the decimal digits of `n`.
fn push_dec(out: &mut Vec<u8>, n: u64)
    ensures
        final(out)@ == old(out)@ + dec_bytes(n as nat),
    decreases n,
{
    if n >= 10 {
        push_dec(out, n / 10);
    }
    out.push(0x30 + (n % 10) as u8);
    proof {
        assert(out@ =~= old(out)@ + dec_bytes(n as nat));
    }
}

/// Append the canonical decimal of a fixed-point value.
fn push_num(out: &mut Vec<u8>, v: i64)
    requires
        -SCENE_NUM_LIMIT <= v <= SCENE_NUM_LIMIT,
    ensures
        final(out)@ == old(out)@ + num_bytes(v as int),
{
    let m: i64 = if v < 0 {
        out.push(0x2d);
        -v
    } else {
        v
    };
    push_dec(out, (m / 1000) as u64);
    out.push(0x2e);
    let f: i64 = m % 1000;
    out.push(0x30 + (f / 100) as u8);
    out.push(0x30 + ((f / 10) % 10) as u8);
    out.push(0x30 + (f % 10) as u8);
    proof {
        assert(out@ =~= old(out)@ + num_bytes(v as int));
    }
}

/// Append a copy of the given bytes.
fn push_bytes(out: &mut Vec<u8>, b: &Vec<u8>)
    ensures
        final(out)@ == old(out)@ + b@,
{
    let ghost out0: Seq<u8> = out@;
    let mut i: usize = 0;
    while i < b.len()
        invariant
            i <= b.len(),
            out@ == out0 + b@.subrange(0, i as int),
        decreases b.len() - i,
    {
        out.push(b[i]);
        i = i + 1;
        proof {
            assert(out@ =~= out0 + b@.subrange(0, i as int));
        }
    }
    proof {
        assert(out@ =~= out0 + b@);
    }
}

/// Append three comma-separated coordinates.
fn push_triple(out: &mut Vec<u8>, v: &Vec3Fx)
    requires
        v.bounded(SCENE_NUM_LIMIT as int),
    ensures
        final(out)@ == old(out)@ + triple_json(*v),
{
    push_num(out, v.x);
    let mut c1 = lit_comma();
    out.append(&mut c1);
    push_num(out, v.y);
    let mut c2 = lit_comma();
    out.append(&mut c2);
    push_num(out, v.z);
    proof {
        assert(out@ =~= old(out)@ + triple_json(*v));
    }
}

/// Append one object descriptor.
/// Append an object's opening: its name and kind.
fn push_obj_head(out: &mut Vec<u8>, o: &SceneObject)
    requires
        o.well_formed(),
    ensures
        final(out)@ == old(out)@ + obj_head_json(*o),
{
    let mut l0 = lit_name_key();
    out.append(&mut l0);
    match &o.name {
        Some(n) => {
            let mut q1 = lit_quote();
            out.append(&mut q1);
            push_bytes(out, n);
            let mut q2 = lit_quote();
            out.append(&mut q2);
        },
        None => {
            let mut nl = lit_null_word();
            out.append(&mut nl);
        },
    }
    let mut l1 = lit_kind_key();
    out.append(&mut l1);
    match o.kind {
        SpawnKind::Cuboid => {
            let mut k = lit_kind_cuboid();
            out.append(&mut k);
        },
        SpawnKind::Sphere => {
            let mut k = lit_kind_sphere();
            out.append(&mut k);
        },
        SpawnKind::Plane => {
            let mut k = lit_kind_plane();
            out.append(&mut k);
        },
    }
    proof {
        assert(out@ =~= old(out)@ + obj_head_json(*o));
    }
}

/// Append an object's transform: position, rotation and scale.
fn push_obj_transform(out: &mut Vec<u8>, o: &SceneObject)
    requires
        o.well_formed(),
    ensures
        final(out)@ == old(out)@ + obj_transform_json(*o),
{
    let mut l2 = lit_pos_key();
    out.append(&mut l2);
    push_triple(out, &o.position);
    let mut l3 = lit_rot_key();
    out.append(&mut l3);
    push_triple(out, &o.rotation_euler_mdeg);
    let mut l4 = lit_scale_key();
    out.append(&mut l4);
    push_triple(out, &o.scale);
    proof {
        assert(out@ =~= old(out)@ + obj_transform_json(*o));
    }
}

/// Append an object's material parameters and closing brace.
fn push_obj_material(out: &mut Vec<u8>, o: &SceneObject)
    requires
        o.well_formed(),
    ensures
        final(out)@ == old(out)@ + obj_material_json(*o),
{
    let mut l5 = lit_color_key();
    out.append(&mut l5);
    push_num(out, o.color_rgba.r);
    let mut c1 = lit_comma();
    out.append(&mut c1);
    push_num(out, o.color_rgba.g);
    let mut c2 = lit_comma();
    out.append(&mut c2);
    push_num(out, o.color_rgba.b);
    let mut c3 = lit_comma();
    out.append(&mut c3);
    push_num(out, o.color_rgba.a);
    let mut l6 = lit_metallic_key();
    out.append(&mut l6);
    push_num(out, o.metallic);
    let mut l7 = lit_rough_key();
    out.append(&mut l7);
    push_num(out, o.roughness);
    let mut l8 = lit_obj_tail();
    out.append(&mut l8);
    proof {
        assert(out@ =~= old(out)@ + obj_material_json(*o));
    }
}

/// Append one object descriptor.
fn push_object(out: &mut Vec<u8>, o: &SceneObject)
    requires
        o.well_formed(),
    ensures
        final(out)@ == old(out)@ + obj_json(*o),
{
    push_obj_head(out, o);
    push_obj_transform(out, o);
    push_obj_material(out, o);
    proof {
        reveal(obj_json);
        assert(out@ =~= old(out)@ + obj_json(*o));
    }
}

/// Encode a whole scene as its canonical document, byte for byte.
#[verifier::rlimit(50)]
pub fn scene_to_json(doc: &SceneDoc) -> (out: Vec<u8>)
    requires
        doc.well_formed(),
    ensures
        out@ == doc_json(*doc),
{
    let mut out: Vec<u8> = Vec::new();
    let mut h = lit_doc_head();
    out.append(&mut h);
    push_dec(&mut out, doc.version as u64);
    let mut ok = lit_objs_open();
    out.append(&mut ok);
    let ghost pre: Seq<u8> = out@;
    let mut i: usize = 0;
    while i < doc.objects.len()
        invariant
            i <= doc.objects.len(),
            doc.well_formed(),
            out@ == pre + objs_json(doc.objects@.subrange(0, i as int)),
        decreases doc.objects.len() - i,
    {
        if i > 0 {
            let mut c = lit_comma();
            out.append(&mut c);
        }
        push_object(&mut out, &doc.objects[i]);
        proof {
            lemma_objs_snoc(doc.objects@.subrange(0, i as int), doc.objects@[i as int]);
            assert(doc.objects@.subrange(0, i as int + 1) =~= doc.objects@.subrange(
                0,
                i as int,
            ).push(doc.objects@[i as int]));
            assert(out@ =~= pre + objs_json(doc.objects@.subrange(0, i as int + 1)));
        }
        i = i + 1;
    }
    let mut t = lit_doc_tail();
    out.append(&mut t);
    proof {
        assert(doc.objects@.subrange(0, doc.objects.len() as int) =~= doc.objects@);
        assert(out@ =~= doc_json(*doc));
    }
    out
}

/// Why a scene document was rejected: it is not the canonical encoding of
/// any well-formed scene.
#[derive(Clone, Copy, PartialEq, Eq, Structural, Debug)]
pub enum SceneParseError {
    Malformed,
}

/// Whether two byte strings are equal.
fn bytes_eq(a: &Vec<u8>, b: &Vec<u8>) -> (r: bool)
    ensures
        r == (a@ == b@),
{
    if a.len() != b.len() {
        return false;
    }
    let mut i: usize = 0;
    while i < a.len()
        invariant
            i <= a.len(),
            a.len() == b.len(),
            forall|k: int| 0 <= k < i ==> a@[k] == b@[k],
        decreases a.len() - i,
    {
        if a[i] != b[i] {
            return false;
        }
        i = i + 1;
    }
    proof {
        assert(a@ =~= b@);
    }
    true
}

/// The bytes `w` stand in `s` at position `i`.
pub open spec fn matches_at(s: Seq<u8>, i: int, w: Seq<u8>) -> bool {
    0 <= i && i + w.len() <= s.len() && s.subrange(i, i + w.len()) == w
}

/// Two pieces standing together split into each standing on its own.
proof fn lemma_matches_split(s: Seq<u8>, i: int, a: Seq<u8>, b: Seq<u8>)
    requires
        matches_at(s, i, a + b),
    ensures
        matches_at(s, i, a),
        matches_at(s, i + a.len(), b),
{
    assert(s.subrange(i, i + a.len()) =~= a);
    assert forall|t: int| 0 <= t < b.len() implies s.subrange(
        i + a.len(),
        i + a.len() + b.len(),
    )[t] == b[t] by {
        assert((a + b)[a.len() + t] == b[t]);
        assert(s.subrange(i, i + (a + b).len())[a.len() + t] == (a + b)[a.len() + t]);
    }
    assert(s.subrange(i + a.len(), i + a.len() + b.len()) =~= b);
}

/// A whole suffix that is `a` followed by `b` has `a` standing at its start
/// and `b` as the rest of the suffix.
proof fn lemma_suffix_split(s: Seq<u8>, i: int, a: Seq<u8>, b: Seq<u8>)
    requires
        0 <= i <= s.len(),
        s.subrange(i, s.len() as int) == a + b,
    ensures
        matches_at(s, i, a),
        s.subrange(i + a.len(), s.len() as int) == b,
{
    assert(s.subrange(i, s.len() as int).len() == a.len() + b.len());
    assert(s.subrange(i, i + a.len()) =~= a);
    assert forall|t: int| 0 <= t < b.len() implies s.subrange(i + a.len(), s.len() as int)[t]
        == b[t] by {
        assert((a + b)[a.len() + t] == b[t]);
        assert(s.subrange(i, s.len() as int)[a.len() + t] == (a + b)[a.len() + t]);
    }
    assert(s.subrange(i + a.len(), s.len() as int) =~= b);
}

/// Advance past the expected bytes `w` at `i`, exactly when they are there.
fn eat_lit(s: &Vec<u8>, i: usize, w: &Vec<u8>) -> (r: Option<usize>)
    requires
        i <= s.len(),
    ensures
        match r {
            Some(j) => j == i + w.len() && matches_at(s@, i as int, w@),
            None => !matches_at(s@, i as int, w@),
        },
{
    if s.len() - i < w.len() {
        return None;
    }
    let mut k: usize = 0;
    while k < w.len()
        invariant
            k <= w.len(),
            i + w.len() <= s.len(),
            forall|t: int| 0 <= t < k ==> s@[i + t] == w@[t],
        decreases w.len() - k,
    {
        if s[i + k] != w[k] {
            proof {
                assert(!matches_at(s@, i as int, w@)) by {
                    if matches_at(s@, i as int, w@) {
                        assert(s@.subrange(i as int, i + w@.len())[k as int] == w@[k as int]);
                    }
                }
            }
            return None;
        }
        k = k + 1;
    }
    proof {
        assert(s@.subrange(i as int, i + w@.len()) =~= w@);
    }
    Some(i + w.len())
}

/// The value of a digit run, read left to right.
pub open spec fn fold_digits(s: Seq<u8>) -> int
    decreases s.len(),
{
    if s.len() == 0 {
        0
    } else {
        fold_digits(s.drop_last()) * 10 + (s.last() - 0x30)
    }
}

/// A run of decimal digit bytes.
pub open spec fn all_digits(s: Seq<u8>) -> bool {
    forall|t: int| 0 <= t < s.len() ==> 0x30 <= #[trigger] s[t] <= 0x39
}

/// The decimal digits of `n` are digits, and read back as `n`.
proof fn lemma_dec_reads_back(n: nat)
    ensures
        dec_bytes(n).len() >= 1,
        all_digits(dec_bytes(n)),
        fold_digits(dec_bytes(n)) == n,
    decreases n,
{
    if n < 10 {
        assert(dec_bytes(n).drop_last() =~= Seq::<u8>::empty());
        assert(fold_digits(Seq::<u8>::empty()) == 0);
        assert(dec_bytes(n).last() == (0x30 + n) as u8);
        assert((0x30 + n) as u8 - 0x30 == n);
        assert(all_digits(dec_bytes(n)));
    } else {
        lemma_dec_reads_back((n / 10) as nat);
        assert(dec_bytes(n).drop_last() =~= dec_bytes((n / 10) as nat));
        assert(dec_bytes(n).last() == (0x30 + n % 10) as u8);
        assert((0x30 + n % 10) as u8 - 0x30 == n % 10);
        assert(fold_digits(dec_bytes(n)) == fold_digits(dec_bytes((n / 10) as nat)) * 10 + (n
            % 10));
        assert forall|t: int| 0 <= t < dec_bytes(n).len() implies 0x30 <= #[trigger] dec_bytes(
            n,
        )[t] <= 0x39 by {
            if t < dec_bytes(n).len() - 1 {
                assert(dec_bytes(n)[t] == dec_bytes((n / 10) as nat)[t]);
            }
        }
    }
}

/// Any front part of a decimal reads back as at most the whole.
proof fn lemma_dec_prefix_le(n: nat, t: int)
    requires
        0 <= t <= dec_bytes(n).len(),
    ensures
        0 <= fold_digits(dec_bytes(n).subrange(0, t)) <= n,
    decreases n,
{
    if t == dec_bytes(n).len() {
        lemma_dec_reads_back(n);
        assert(dec_bytes(n).subrange(0, t) =~= dec_bytes(n));
    } else if n < 10 {
        assert(dec_bytes(n).subrange(0, t) =~= Seq::<u8>::empty());
    } else {
        assert(dec_bytes(n).subrange(0, t) =~= dec_bytes((n / 10) as nat).subrange(0, t));
        lemma_dec_prefix_le((n / 10) as nat, t);
    }
}

/// One more digit folded in: ten times the run so far, plus the digit.
proof fn lemma_fold_step(s: Seq<u8>, a: int, j: int)
    requires
        0 <= a <= j < s.len(),
    ensures
        fold_digits(s.subrange(a, j + 1)) == fold_digits(s.subrange(a, j)) * 10 + (s[j] - 0x30),
{
    assert(s.subrange(a, j + 1).drop_last() =~= s.subrange(a, j));
    assert(s.subrange(a, j + 1).last() == s[j]);
}

/// Where the digit loop stops on a canonical decimal: exactly past the whole
/// units, having read them back.
proof fn lemma_digits_land(s: Seq<u8>, i: int, i0: int, j: int, ip: int, v: int)
    requires
        -SCENE_NUM_LIMIT <= v <= SCENE_NUM_LIMIT,
        matches_at(s, i, num_bytes(v)),
        i0 == if v < 0 {
            i + 1
        } else {
            i
        },
        i0 <= j <= s.len(),
        all_digits(s.subrange(i0, j)),
        ip == fold_digits(s.subrange(i0, j)),
        j == s.len() || !(0x30 <= s[j] <= 0x39),
    ensures
        ({
            let mv: int = if v < 0 {
                -v
            } else {
                v
            };
            let dl = dec_bytes((mv / 1000) as nat).len();
            &&& j == i0 + dl
            &&& ip == mv / 1000
            &&& i0 + dl + 4 == i + num_bytes(v).len()
            &&& i + num_bytes(v).len() <= s.len()
            &&& s[i0 + dl] == 0x2e
            &&& s[i0 + dl + 1] == 0x30 + (mv % 1000) / 100
            &&& s[i0 + dl + 2] == 0x30 + ((mv % 1000) / 10) % 10
            &&& s[i0 + dl + 3] == 0x30 + (mv % 1000) % 10
        }),
{
    let mv: int = if v < 0 {
        -v
    } else {
        v
    };
    let dseq = dec_bytes((mv / 1000) as nat);
    let point_frac = seq![0x2eu8] + frac3_bytes((mv % 1000) as nat);
    if v < 0 {
        lemma_matches_split(s, i, seq![0x2du8], mag_bytes(mv));
    }
    assert(matches_at(s, i0, mag_bytes(mv)));
    assert(mag_bytes(mv) == (dseq + seq![0x2eu8]) + frac3_bytes((mv % 1000) as nat));
    assert(dseq + point_frac =~= (dseq + seq![0x2eu8]) + frac3_bytes((mv % 1000) as nat));
    lemma_matches_split(s, i0, dseq, point_frac);
    lemma_matches_split(s, i0 + dseq.len(), seq![0x2eu8], frac3_bytes((mv % 1000) as nat));
    lemma_dec_reads_back((mv / 1000) as nat);
    let dl = dseq.len();
    assert(s.subrange(i0 + dl, i0 + dl + 1)[0] == s[i0 + dl]);
    assert(s[i0 + dl] == 0x2e);
    let fr = frac3_bytes((mv % 1000) as nat);
    assert(s.subrange(i0 + dl + 1, i0 + dl + 4)[0] == s[i0 + dl + 1]);
    assert(s.subrange(i0 + dl + 1, i0 + dl + 4)[1] == s[i0 + dl + 2]);
    assert(s.subrange(i0 + dl + 1, i0 + dl + 4)[2] == s[i0 + dl + 3]);
    assert(s[i0 + dl + 1] == fr[0] && s[i0 + dl + 2] == fr[1] && s[i0 + dl + 3] == fr[2]);
    if j < i0 + dl {
        assert(s.subrange(i0, i0 + dl)[j - i0] == s[j]);
        assert(s[j] == dseq[j - i0]);
        assert(false);
    }
    if j > i0 + dl {
        assert(s.subrange(i0, j)[dl as int] == s[i0 + dl]);
        assert(false);
    }
    assert(s.subrange(i0, j) =~= dseq);
}

/// Read a canonical fixed-point decimal at `i`: an optional minus, digits,
/// a point, and exactly three thousandth digits.
fn parse_num(s: &Vec<u8>, i: usize) -> (r: Option<(i64, usize)>)
    requires
        i <= s.len(),
    ensures
        match r {
            Some((v, j)) => i < j <= s.len() && -SCENE_NUM_LIMIT <= v <= SCENE_NUM_LIMIT,
            None => true,
        },
        forall|v: i64|
            -SCENE_NUM_LIMIT <= v <= SCENE_NUM_LIMIT && #[trigger] matches_at(
                s@,
                i as int,
                num_bytes(v as int),
            ) ==> r == Some((v, (i + num_bytes(v as int).len()) as usize)),
{
    let mut j: usize = i;
    let mut neg: bool = false;
    if j < s.len() && s[j] == 0x2d {
        neg = true;
        j = j + 1;
    }
    let ghost i0: int = j as int;
    let digits_start: usize = j;
    let mut ip: u64 = 0;
    while j < s.len() && 0x30 <= s[j] && s[j] <= 0x39
        invariant
            i <= digits_start <= j <= s.len(),
            i0 == digits_start,
            neg == (i < s.len() && s@[i as int] == 0x2d),
            digits_start == if neg {
                i + 1
            } else {
                i as int
            },
            ip < 100000000000000,
            ip == fold_digits(s@.subrange(i0, j as int)),
            all_digits(s@.subrange(i0, j as int)),
        decreases s.len() - j,
    {
        if ip >= 10000000000000 {
            proof {
                lemma_cap_unreachable(s@, i as int, i0, j as int, ip as int, neg);
            }
            return None;
        }
        proof {
            lemma_fold_step(s@, i0, j as int);
        }
        ip = ip * 10 + (s[j] - 0x30) as u64;
        j = j + 1;
        proof {
            assert(all_digits(s@.subrange(i0, j as int)));
        }
    }
    let ghost jd: int = j as int;
    proof {
        lemma_num_completeness_setup(s@, i as int, i0, jd, ip as int, neg);
    }
    if j == digits_start {
        return None;
    }
    if !(j < s.len() && s[j] == 0x2e) {
        return None;
    }
    j = j + 1;
    if s.len() - j < 3 {
        return None;
    }
    let d1: u8 = s[j];
    let d2: u8 = s[j + 1];
    let d3: u8 = s[j + 2];
    if !(0x30 <= d1 && d1 <= 0x39 && 0x30 <= d2 && d2 <= 0x39 && 0x30 <= d3 && d3 <= 0x39) {
        return None;
    }
    j = j + 3;
    let frac: u64 = (d1 - 0x30) as u64 * 100 + (d2 - 0x30) as u64 * 10 + (d3 - 0x30) as u64;
    let m: u64 = ip * 1000 + frac;
    if m > SCENE_NUM_LIMIT as u64 {
        proof {
            assert forall|v: i64|
                -SCENE_NUM_LIMIT <= v <= SCENE_NUM_LIMIT && #[trigger] matches_at(
                    s@,
                    i as int,
                    num_bytes(v as int),
                ) implies false by {
                let mv: int = if v < 0 {
                    -(v as int)
                } else {
                    v as int
                };
                lemma_three_digits((mv % 1000) as int);
                assert(frac == mv % 1000);
                assert(m == mv);
            }
        }
        return None;
    }
    let v: i64 = if neg {
        -(m as i64)
    } else {
        m as i64
    };
    proof {
        assert forall|vv: i64|
            -SCENE_NUM_LIMIT <= vv <= SCENE_NUM_LIMIT && #[trigger] matches_at(
                s@,
                i as int,
                num_bytes(vv as int),
            ) implies v == vv && j == i + num_bytes(vv as int).len() by {
            let mv: int = if vv < 0 {
                -(vv as int)
            } else {
                vv as int
            };
            lemma_three_digits((mv % 1000) as int);
            assert(frac == mv % 1000);
            assert(m == mv);
        }
    }
    Some((v, j))
}

/// Putting a three-digit number back together from its digits.
proof fn lemma_three_digits(x: int)
    requires
        0 <= x < 1000,
    ensures
        (x / 100) * 100 + ((x / 10) % 10) * 10 + x % 10 == x,
{
}

/// The digit loop cannot outgrow its accumulator while a canonical decimal
/// of the document's range stands at `i`.
proof fn lemma_cap_unreachable(s: Seq<u8>, i: int, i0: int, j: int, ip: int, neg: bool)
    requires
        0 <= i <= s.len(),
        i0 == if neg {
            i + 1
        } else {
            i
        },
        neg == (i < s.len() && s[i] == 0x2d),
        i0 <= j < s.len(),
        all_digits(s.subrange(i0, j)),
        ip == fold_digits(s.subrange(i0, j)),
        0x30 <= s[j] <= 0x39,
        ip >= 10000000000000,
    ensures
        forall|v: i64|
            -SCENE_NUM_LIMIT <= v <= SCENE_NUM_LIMIT ==> !#[trigger] matches_at(
                s,
                i,
                num_bytes(v as int),
            ),
{
    assert forall|v: i64|
        -SCENE_NUM_LIMIT <= v <= SCENE_NUM_LIMIT implies !#[trigger] matches_at(
        s,
        i,
        num_bytes(v as int),
    ) by {
        if matches_at(s, i, num_bytes(v as int)) {
            let mv: int = if v < 0 {
                -(v as int)
            } else {
                v as int
            };
            let enc = num_bytes(v as int);
            let dseq = dec_bytes((mv / 1000) as nat);
            let frs = frac3_bytes((mv % 1000) as nat);
            lemma_dec_reads_back((mv / 1000) as nat);
            assert(s.subrange(i, i + enc.len())[0] == s[i]);
            if v < 0 {
                assert(enc[0] == 0x2d);
                lemma_matches_split(s, i, seq![0x2du8], mag_bytes(mv));
            } else {
                assert(enc[0] == dseq[0]);
                assert(0x30 <= s[i] <= 0x39);
            }
            assert(matches_at(s, i0, mag_bytes(mv)));
            assert(mag_bytes(mv) =~= dseq + (seq![0x2eu8] + frs));
            lemma_matches_split(s, i0, dseq, seq![0x2eu8] + frs);
            lemma_matches_split(s, i0 + dseq.len(), seq![0x2eu8], frs);
            assert(s.subrange(i0 + dseq.len(), i0 + dseq.len() + 1)[0] == s[i0 + dseq.len()]);
            assert(s[i0 + dseq.len()] == 0x2e);
            let t: int = j - i0;
            if t >= dseq.len() {
                if t == dseq.len() {
                    assert(0x30 <= s[j] <= 0x39);
                } else {
                    assert(s.subrange(i0, j)[dseq.len() as int] == s[i0 + dseq.len()]);
                }
                assert(false);
            }
            assert forall|u: int| 0 <= u < t implies s.subrange(i0, j)[u] == dseq.subrange(
                0,
                t,
            )[u] by {
                assert(s.subrange(i0, i0 + dseq.len())[u] == s[i0 + u]);
                assert(s.subrange(i0, j)[u] == s[i0 + u]);
            }
            assert(s.subrange(i0, j) =~= dseq.subrange(0, t));
            lemma_dec_prefix_le((mv / 1000) as nat, t);
            assert(ip <= mv / 1000);
            assert(mv / 1000 <= 1000000000000);
            assert(false);
        }
    }
}

/// After the digit loop of a decimal parse, each value whose canonical
/// decimal stands at `i` pins down everything the parse goes on to read:
/// where the point and the three thousandth digits stand, and what they are.
proof fn lemma_num_completeness_setup(s: Seq<u8>, i: int, i0: int, j: int, ip: int, neg: bool)
    requires
        0 <= i <= s.len(),
        i0 == if neg {
            i + 1
        } else {
            i
        },
        neg == (i < s.len() && s[i] == 0x2d),
        i0 <= j <= s.len(),
        all_digits(s.subrange(i0, j)),
        ip == fold_digits(s.subrange(i0, j)),
        j == s.len() || !(0x30 <= s[j] <= 0x39),
    ensures
        forall|v: i64|
            -SCENE_NUM_LIMIT <= v <= SCENE_NUM_LIMIT && #[trigger] matches_at(
                s,
                i,
                num_bytes(v as int),
            ) ==> {
                let mv: int = if v < 0 {
                    -(v as int)
                } else {
                    v as int
                };
                &&& neg == (v < 0)
                &&& j > i0
                &&& j + 4 <= s.len()
                &&& j + 4 == i + num_bytes(v as int).len()
                &&& ip == mv / 1000
                &&& s[j] == 0x2e
                &&& s[j + 1] == 0x30 + (mv % 1000) / 100
                &&& s[j + 2] == 0x30 + ((mv % 1000) / 10) % 10
                &&& s[j + 3] == 0x30 + (mv % 1000) % 10
            },
{
    assert forall|v: i64|
        -SCENE_NUM_LIMIT <= v <= SCENE_NUM_LIMIT && #[trigger] matches_at(
            s,
            i,
            num_bytes(v as int),
        ) implies {
        let mv: int = if v < 0 {
            -(v as int)
        } else {
            v as int
        };
        &&& neg == (v < 0)
        &&& j > i0
        &&& j + 4 <= s.len()
        &&& j + 4 == i + num_bytes(v as int).len()
        &&& ip == mv / 1000
        &&& s[j] == 0x2e
        &&& s[j + 1] == 0x30 + (mv % 1000) / 100
        &&& s[j + 2] == 0x30 + ((mv % 1000) / 10) % 10
        &&& s[j + 3] == 0x30 + (mv % 1000) % 10
    } by {
        let mv: int = if v < 0 {
            -(v as int)
        } else {
            v as int
        };
        let enc = num_bytes(v as int);
        assert(s.subrange(i, i + enc.len())[0] == s[i]);
        if v < 0 {
            assert(enc[0] == 0x2d);
            assert(s[i] == 0x2d);
        } else {
            lemma_dec_reads_back((mv / 1000) as nat);
            assert(enc[0] == dec_bytes((mv / 1000) as nat)[0]);
            assert(0x30 <= s[i] <= 0x39);
        }
        assert(neg == (v < 0));
        lemma_digits_land(s, i, i0, j, ip, v as int);
        lemma_dec_reads_back((mv / 1000) as nat);
    }
}

/// Read an unsigned decimal at `i` (the version tag). A decimal standing at
/// `i` and ending there (at the input's end or a non-digit) is read whole.
fn parse_uint(s: &Vec<u8>, i: usize) -> (r: Option<(u32, usize)>)
    requires
        i <= s.len(),
    ensures
        match r {
            Some((v, j)) => i < j <= s.len(),
            None => true,
        },
        forall|n: u32|
            #[trigger] matches_at(s@, i as int, dec_bytes(n as nat)) && (i + dec_bytes(
                n as nat,
            ).len() == s.len() || !(0x30 <= s@[i + dec_bytes(n as nat).len()] <= 0x39)) ==> r
                == Some((n, (i + dec_bytes(n as nat).len()) as usize)),
{
    let mut j: usize = i;
    let mut n: u64 = 0;
    while j < s.len() && 0x30 <= s[j] && s[j] <= 0x39
        invariant
            i <= j <= s.len(),
            n < 100000000000,
            n == fold_digits(s@.subrange(i as int, j as int)),
            all_digits(s@.subrange(i as int, j as int)),
        decreases s.len() - j,
    {
        if n >= 10000000000 {
            proof {
                assert forall|nn: u32|
                    #[trigger] matches_at(s@, i as int, dec_bytes(nn as nat)) && (i + dec_bytes(
                        nn as nat,
                    ).len() == s.len() || !(0x30 <= s@[i + dec_bytes(nn as nat).len()]
                        <= 0x39)) implies false by {
                    lemma_dec_reads_back(nn as nat);
                    let dl = dec_bytes(nn as nat).len() as int;
                    let t: int = j - i;
                    if t >= dl {
                        // the byte after the decimal would have to be one of
                        // the digits the loop is still running over
                        if t == dl {
                            assert(0x30 <= s@[j as int] <= 0x39);
                        } else {
                            assert(s@.subrange(i as int, j as int)[dl] == s@[i + dl]);
                        }
                        assert(i + dl < s.len());
                        assert(0x30 <= s@[i + dl] <= 0x39);
                        assert(false);
                    } else {
                        assert forall|u: int| 0 <= u < t implies s@.subrange(i as int, j as int)[u]
                            == dec_bytes(nn as nat).subrange(0, t)[u] by {
                            assert(s@.subrange(i as int, i + dl)[u] == s@[i + u]);
                            assert(s@.subrange(i as int, j as int)[u] == s@[i + u]);
                        }
                        assert(s@.subrange(i as int, j as int) =~= dec_bytes(nn as nat).subrange(
                            0,
                            t,
                        ));
                        lemma_dec_prefix_le(nn as nat, t);
                        assert(n <= nn);
                    }
                }
            }
            return None;
        }
        proof {
            lemma_fold_step(s@, i as int, j as int);
        }
        n = n * 10 + (s[j] - 0x30) as u64;
        j = j + 1;
        proof {
            assert(all_digits(s@.subrange(i as int, j as int)));
        }
    }
    proof {
        assert forall|nn: u32|
            #[trigger] matches_at(s@, i as int, dec_bytes(nn as nat)) && (i + dec_bytes(
                nn as nat,
            ).len() == s.len() || !(0x30 <= s@[i + dec_bytes(nn as nat).len()] <= 0x39)) implies j
            == i + dec_bytes(nn as nat).len() && n == nn by {
            lemma_dec_reads_back(nn as nat);
            let dl = dec_bytes(nn as nat).len() as int;
            if j < i + dl {
                assert(s@.subrange(i as int, i + dl)[j - i] == s@[j as int]);
                assert(0x30 <= s@[j as int] <= 0x39);
                assert(false);
            }
            if j > i + dl {
                assert(s@.subrange(i as int, j as int)[dl] == s@[i + dl]);
                assert(false);
            }
            assert forall|u: int| 0 <= u < dl implies s@.subrange(i as int, j as int)[u]
                == dec_bytes(nn as nat)[u] by {
                assert(s@.subrange(i as int, i + dl)[u] == s@[i + u]);
                assert(s@.subrange(i as int, j as int)[u] == s@[i + u]);
            }
            assert(s@.subrange(i as int, j as int) =~= dec_bytes(nn as nat));
        }
    }
    if j == i {
        return None;
    }
    if n > 0xffffffff {
        return None;
    }
    Some((n as u32, j))
}

/// Read an object name at `i`: either the word `null` or a quoted run of
/// plain printable bytes. Exactly the encoded names standing at `i` are
/// read, and read whole.
fn parse_name(s: &Vec<u8>, i: usize) -> (r: Option<(Option<Vec<u8>>, usize)>)
    requires
        i <= s.len(),
    ensures
        match r {
            Some((n, j)) => {
                &&& i < j <= s.len()
                &&& match n {
                    Some(name) => name_ok(name@),
                    None => true,
                }
            },
            None => true,
        },
        forall|nm: Option<Vec<u8>>|
            valid_name(nm) && #[trigger] matches_at(s@, i as int, name_json(nm)) ==> match r {
                Some((res, j)) => j == i + name_json(nm).len() && name_json(res) == name_json(nm),
                None => false,
            },
{
    if i < s.len() && s[i] == 0x22 {
        let mut j: usize = i + 1;
        let mut name: Vec<u8> = Vec::new();
        while j < s.len() && s[j] != 0x22 && name.len() < MAX_NAME_LEN
            invariant
                i < s.len(),
                s@[i as int] == 0x22,
                i < j <= s.len(),
                j == i + 1 + name@.len(),
                name@ == s@.subrange(i as int + 1, j as int),
                name@.len() <= MAX_NAME_LEN,
                forall|k: int| 0 <= k < name@.len() ==> name_byte_ok(#[trigger] name@[k]),
            decreases s.len() - j,
        {
            let b: u8 = s[j];
            if !(0x20 <= b && b <= 0x7e && b != 0x22 && b != 0x5c) {
                proof {
                    assert forall|nm: Option<Vec<u8>>|
                        valid_name(nm) && #[trigger] matches_at(
                            s@,
                            i as int,
                            name_json(nm),
                        ) implies false by {
                        lemma_quoted_name_shape(s@, i as int, nm);
                        let bb = nm.unwrap()@;
                        if j > i + 1 + bb.len() {
                            assert(name@[bb.len() as int] == s@[i as int + 1 + bb.len()]);
                            assert(name_byte_ok(name@[bb.len() as int]));
                            assert(false);
                        } else if j == i + 1 + bb.len() {
                            assert(s@[j as int] == 0x22);
                            assert(false);
                        } else {
                            assert(s@[j as int] == bb[j - i - 1]);
                            assert(name_byte_ok(bb[j - i - 1]));
                            assert(false);
                        }
                    }
                }
                return None;
            }
            name.push(b);
            j = j + 1;
            proof {
                assert(name@ =~= s@.subrange(i as int + 1, j as int));
            }
        }
        if !(j < s.len() && s[j] == 0x22) {
            proof {
                assert forall|nm: Option<Vec<u8>>|
                    valid_name(nm) && #[trigger] matches_at(
                        s@,
                        i as int,
                        name_json(nm),
                    ) implies false by {
                    lemma_quoted_name_shape(s@, i as int, nm);
                    let bb = nm.unwrap()@;
                    lemma_name_loop_lands(s@, i as int, j as int, name@, bb);
                }
            }
            return None;
        }
        proof {
            assert forall|nm: Option<Vec<u8>>|
                valid_name(nm) && #[trigger] matches_at(s@, i as int, name_json(nm)) implies (j + 1
                == i + name_json(nm).len() && name_json(Some(name)) == name_json(nm)) by {
                lemma_quoted_name_shape(s@, i as int, nm);
                let bb = nm.unwrap()@;
                lemma_name_loop_lands(s@, i as int, j as int, name@, bb);
                assert(name@ =~= bb);
                assert(name_json(Some(name)) == name_json(nm));
            }
        }
        Some((Some(name), j + 1))
    } else {
        let null_word = lit_null_word();
        match eat_lit(s, i, &null_word) {
            Some(j) => {
                proof {
                    assert forall|nm: Option<Vec<u8>>|
                        valid_name(nm) && #[trigger] matches_at(
                            s@,
                            i as int,
                            name_json(nm),
                        ) implies (j == i + name_json(nm).len() && name_json(
                        Option::<Vec<u8>>::None,
                    ) == name_json(nm)) by {
                        if nm is Some {
                            lemma_quoted_name_shape(s@, i as int, nm);
                        }
                    }
                }
                Some((None, j))
            },
            None => {
                proof {
                    assert forall|nm: Option<Vec<u8>>|
                        valid_name(nm) && #[trigger] matches_at(
                            s@,
                            i as int,
                            name_json(nm),
                        ) implies false by {
                        if nm is Some {
                            lemma_quoted_name_shape(s@, i as int, nm);
                        } else {
                            assert(name_json(nm) == null_word_bytes());
                        }
                    }
                }
                None
            },
        }
    }
}

/// A name's validity: absent, or made of plain bytes and bounded.
pub open spec fn valid_name(nm: Option<Vec<u8>>) -> bool {
    match nm {
        Some(b) => name_ok(b@),
        None => true,
    }
}

/// What a quoted name's encoding pins down at `i`: the quotes around it and
/// each byte between them.
proof fn lemma_quoted_name_shape(s: Seq<u8>, i: int, nm: Option<Vec<u8>>)
    requires
        valid_name(nm),
        matches_at(s, i, name_json(nm)),
        nm is Some || (0 <= i < s.len() && s[i] == 0x22),
    ensures
        nm is Some,
        ({
            let bb = nm.unwrap()@;
            &&& i + 2 + bb.len() <= s.len()
            &&& s[i] == 0x22
            &&& s[i + 1 + bb.len()] == 0x22
            &&& forall|t: int| 0 <= t < bb.len() ==> s[i + 1 + t] == bb[t]
            &&& name_json(nm).len() == bb.len() + 2
        }),
{
    if nm is None {
        assert(s.subrange(i, i + name_json(nm).len())[0] == s[i]);
        assert(name_json(nm)[0] == 0x6e);
        assert(false);
    }
    let bb = nm.unwrap()@;
    assert(name_json(nm) == (quote_bytes() + bb) + quote_bytes());
    lemma_matches_split(s, i, quote_bytes() + bb, quote_bytes());
    lemma_matches_split(s, i, quote_bytes(), bb);
    assert(s.subrange(i, i + 1)[0] == s[i]);
    assert(s.subrange(i + 1 + bb.len(), i + 2 + bb.len())[0] == s[i + 1 + bb.len()]);
    assert forall|t: int| 0 <= t < bb.len() implies s[i + 1 + t] == bb[t] by {
        assert(s.subrange(i + 1, i + 1 + bb.len())[t] == s[i + 1 + t]);
    }
}

/// Where the name loop stops on a quoted name: exactly at the closing
/// quote, having collected the name.
proof fn lemma_name_loop_lands(s: Seq<u8>, i: int, j: int, collected: Seq<u8>, bb: Seq<u8>)
    requires
        0 <= i,
        i + 2 + bb.len() <= s.len(),
        s[i] == 0x22,
        s[i + 1 + bb.len()] == 0x22,
        forall|t: int| 0 <= t < bb.len() ==> s[i + 1 + t] == bb[t],
        forall|t: int| 0 <= t < bb.len() ==> name_byte_ok(#[trigger] bb[t]),
        bb.len() <= MAX_NAME_LEN,
        i < j <= s.len(),
        j == i + 1 + collected.len(),
        collected == s.subrange(i + 1, j),
        forall|k: int| 0 <= k < collected.len() ==> name_byte_ok(#[trigger] collected[k]),
        j == s.len() || s[j] == 0x22 || collected.len() == MAX_NAME_LEN,
    ensures
        j == i + 1 + bb.len(),
        j < s.len(),
        s[j] == 0x22,
        collected == bb,
{
    if j > i + 1 + bb.len() {
        assert(s.subrange(i + 1, j)[bb.len() as int] == s[i + 1 + bb.len()]);
        assert(collected[bb.len() as int] == s[i + 1 + bb.len()]);
        assert(name_byte_ok(collected[bb.len() as int]));
        assert(false);
    }
    if j < i + 1 + bb.len() {
        assert(s[j] == bb[j - i - 1]);
        if s[j] == 0x22 {
            assert(name_byte_ok(bb[j - i - 1]));
            assert(false);
        }
        assert(collected.len() < bb.len());
        assert(j < s.len());
        assert(false);
    }
    assert forall|t: int| 0 <= t < bb.len() implies collected[t] == bb[t] by {
        assert(s.subrange(i + 1, j)[t] == s[i + 1 + t]);
        assert(collected[t] == s[i + 1 + t]);
    }
    assert(collected =~= bb);
}

/// Read a shape kind's name at `i`. Exactly the kind names standing at `i`
/// are read, whole.
fn parse_kind(s: &Vec<u8>, i: usize) -> (r: Option<(SpawnKind, usize)>)
    requires
        i <= s.len(),
    ensures
        match r {
            Some((k, j)) => i < j <= s.len(),
            None => true,
        },
        forall|k: SpawnKind|
            #[trigger] matches_at(s@, i as int, kind_json(k)) ==> r == Some(
                (k, (i + kind_json(k).len()) as usize),
            ),
{
    let cuboid = lit_kind_cuboid();
    match eat_lit(s, i, &cuboid) {
        Some(j) => {
            proof {
                lemma_kind_first_byte(s@, i as int);
            }
            return Some((SpawnKind::Cuboid, j));
        },
        None => {},
    }
    let sphere = lit_kind_sphere();
    match eat_lit(s, i, &sphere) {
        Some(j) => {
            proof {
                lemma_kind_first_byte(s@, i as int);
            }
            return Some((SpawnKind::Sphere, j));
        },
        None => {},
    }
    let plane = lit_kind_plane();
    match eat_lit(s, i, &plane) {
        Some(j) => {
            proof {
                lemma_kind_first_byte(s@, i as int);
            }
            return Some((SpawnKind::Plane, j));
        },
        None => {},
    }
    None
}

/// The three kind names start with three different bytes, so at most one of
/// them can stand at any position.
proof fn lemma_kind_first_byte(s: Seq<u8>, i: int)
    ensures
        forall|k: SpawnKind|
            #[trigger] matches_at(s, i, kind_json(k)) ==> s[i] == kind_json(k)[0],
{
    assert forall|k: SpawnKind| #[trigger] matches_at(s, i, kind_json(k)) implies s[i] == kind_json(
        k,
    )[0] by {
        assert(s.subrange(i, i + kind_json(k).len())[0] == s[i]);
    }
}

/// Where the pieces of an encoded coordinate triple stand.
proof fn lemma_triple_layout(s: Seq<u8>, i: int, t3: Vec3Fx)
    requires
        matches_at(s, i, triple_json(t3)),
    ensures
        ({
            let a = num_bytes(t3.x as int);
            let b = num_bytes(t3.y as int);
            let c = num_bytes(t3.z as int);
            &&& matches_at(s, i, a)
            &&& matches_at(s, i + a.len(), comma_bytes())
            &&& matches_at(s, i + a.len() + 1, b)
            &&& matches_at(s, i + a.len() + 1 + b.len(), comma_bytes())
            &&& matches_at(s, i + a.len() + 1 + b.len() + 1, c)
            &&& triple_json(t3).len() == a.len() + 1 + b.len() + 1 + c.len()
        }),
{
    let a = num_bytes(t3.x as int);
    let b = num_bytes(t3.y as int);
    let c = num_bytes(t3.z as int);
    assert(triple_json(t3) == (((a + comma_bytes()) + b) + comma_bytes()) + c);
    lemma_matches_split(s, i, ((a + comma_bytes()) + b) + comma_bytes(), c);
    lemma_matches_split(s, i, (a + comma_bytes()) + b, comma_bytes());
    lemma_matches_split(s, i, a + comma_bytes(), b);
    lemma_matches_split(s, i, a, comma_bytes());
}

/// Where the pieces of an encoded colour stand.
proof fn lemma_rgba_layout(s: Seq<u8>, i: int, c4: RgbaFx)
    requires
        matches_at(s, i, rgba_json(c4)),
    ensures
        ({
            let a = num_bytes(c4.r as int);
            let b = num_bytes(c4.g as int);
            let c = num_bytes(c4.b as int);
            let d = num_bytes(c4.a as int);
            &&& matches_at(s, i, a)
            &&& matches_at(s, i + a.len(), comma_bytes())
            &&& matches_at(s, i + a.len() + 1, b)
            &&& matches_at(s, i + a.len() + 1 + b.len(), comma_bytes())
            &&& matches_at(s, i + a.len() + 1 + b.len() + 1, c)
            &&& matches_at(s, i + a.len() + 1 + b.len() + 1 + c.len(), comma_bytes())
            &&& matches_at(s, i + a.len() + 1 + b.len() + 1 + c.len() + 1, d)
            &&& rgba_json(c4).len() == a.len() + 1 + b.len() + 1 + c.len() + 1 + d.len()
        }),
{
    let a = num_bytes(c4.r as int);
    let b = num_bytes(c4.g as int);
    let c = num_bytes(c4.b as int);
    let d = num_bytes(c4.a as int);
    assert(rgba_json(c4) == (((((a + comma_bytes()) + b) + comma_bytes()) + c) + comma_bytes())
        + d);
    lemma_matches_split(
        s,
        i,
        ((((a + comma_bytes()) + b) + comma_bytes()) + c) + comma_bytes(),
        d,
    );
    lemma_matches_split(s, i, (((a + comma_bytes()) + b) + comma_bytes()) + c, comma_bytes());
    lemma_matches_split(s, i, ((a + comma_bytes()) + b) + comma_bytes(), c);
    lemma_matches_split(s, i, (a + comma_bytes()) + b, comma_bytes());
    lemma_matches_split(s, i, a + comma_bytes(), b);
    lemma_matches_split(s, i, a, comma_bytes());
}

/// Read a colour channel or material parameter at `i`: a number within
/// `[0, FX_ONE]`. Exactly the in-range encoded values at `i` are read.
fn parse_unit_num(s: &Vec<u8>, i: usize) -> (r: Option<(i64, usize)>)
    requires
        i <= s.len(),
    ensures
        match r {
            Some((v, j)) => i < j <= s.len() && 0 <= v <= FX_ONE,
            None => true,
        },
        forall|v: i64|
            0 <= v <= FX_ONE && #[trigger] matches_at(s@, i as int, num_bytes(v as int)) ==> r
                == Some((v, (i + num_bytes(v as int).len()) as usize)),
{
    match parse_num(s, i) {
        Some((v, j)) => {
            if 0 <= v && v <= FX_ONE {
                Some((v, j))
            } else {
                None
            }
        },
        None => None,
    }
}

/// Read three comma-separated coordinates at `i`. Exactly the encoded
/// in-range triples standing at `i` are read, whole.
fn parse_triple(s: &Vec<u8>, i: usize) -> (r: Option<(Vec3Fx, usize)>)
    requires
        i <= s.len(),
    ensures
        match r {
            Some((v, j)) => i < j <= s.len() && v.bounded(SCENE_NUM_LIMIT as int),
            None => true,
        },
        forall|t3: Vec3Fx|
            t3.bounded(SCENE_NUM_LIMIT as int) && #[trigger] matches_at(
                s@,
                i as int,
                triple_json(t3),
            ) ==> r == Some((t3, (i + triple_json(t3).len()) as usize)),
{
    proof {
        assert forall|t3: Vec3Fx|
            t3.bounded(SCENE_NUM_LIMIT as int) && #[trigger] matches_at(
                s@,
                i as int,
                triple_json(t3),
            ) implies matches_at(s@, i as int, num_bytes(t3.x as int)) by {
            lemma_triple_layout(s@, i as int, t3);
        }
    }
    let comma = lit_comma();
    let (x, j1) = match parse_num(s, i) {
        Some(p) => p,
        None => {
            return None;
        },
    };
    let j2 = match eat_lit(s, j1, &comma) {
        Some(j) => j,
        None => {
            proof {
                assert forall|t3: Vec3Fx|
                    t3.bounded(SCENE_NUM_LIMIT as int) && #[trigger] matches_at(
                        s@,
                        i as int,
                        triple_json(t3),
                    ) implies false by {
                    lemma_triple_layout(s@, i as int, t3);
                }
            }
            return None;
        },
    };
    proof {
        assert forall|t3: Vec3Fx|
            t3.bounded(SCENE_NUM_LIMIT as int) && #[trigger] matches_at(
                s@,
                i as int,
                triple_json(t3),
            ) implies matches_at(s@, j2 as int, num_bytes(t3.y as int)) by {
            lemma_triple_layout(s@, i as int, t3);
        }
    }
    let (y, j3) = match parse_num(s, j2) {
        Some(p) => p,
        None => {
            return None;
        },
    };
    let j4 = match eat_lit(s, j3, &comma) {
        Some(j) => j,
        None => {
            proof {
                assert forall|t3: Vec3Fx|
                    t3.bounded(SCENE_NUM_LIMIT as int) && #[trigger] matches_at(
                        s@,
                        i as int,
                        triple_json(t3),
                    ) implies false by {
                    lemma_triple_layout(s@, i as int, t3);
                }
            }
            return None;
        },
    };
    proof {
        assert forall|t3: Vec3Fx|
            t3.bounded(SCENE_NUM_LIMIT as int) && #[trigger] matches_at(
                s@,
                i as int,
                triple_json(t3),
            ) implies matches_at(s@, j4 as int, num_bytes(t3.z as int)) by {
            lemma_triple_layout(s@, i as int, t3);
        }
    }
    let (z, j5) = match parse_num(s, j4) {
        Some(p) => p,
        None => {
            return None;
        },
    };
    proof {
        assert forall|t3: Vec3Fx|
            t3.bounded(SCENE_NUM_LIMIT as int) && #[trigger] matches_at(
                s@,
                i as int,
                triple_json(t3),
            ) implies (Vec3Fx { x, y, z } == t3 && j5 == i + triple_json(t3).len()) by {
            lemma_triple_layout(s@, i as int, t3);
        }
    }
    Some((Vec3Fx { x, y, z }, j5))
}

/// Read four comma-separated colour channels at `i`. Exactly the encoded
/// well-formed colours standing at `i` are read, whole.
fn parse_rgba(s: &Vec<u8>, i: usize) -> (r: Option<(RgbaFx, usize)>)
    requires
        i <= s.len(),
    ensures
        match r {
            Some((c, j)) => i < j <= s.len() && c.well_formed(),
            None => true,
        },
        forall|c4: RgbaFx|
            c4.well_formed() && #[trigger] matches_at(s@, i as int, rgba_json(c4)) ==> r == Some(
                (c4, (i + rgba_json(c4).len()) as usize),
            ),
{
    proof {
        assert forall|c4: RgbaFx|
            c4.well_formed() && #[trigger] matches_at(s@, i as int, rgba_json(c4)) implies
            matches_at(s@, i as int, num_bytes(c4.r as int)) by {
            lemma_rgba_layout(s@, i as int, c4);
        }
    }
    let comma = lit_comma();
    let (cr, j1) = match parse_unit_num(s, i) {
        Some(p) => p,
        None => {
            return None;
        },
    };
    let j2 = match eat_lit(s, j1, &comma) {
        Some(j) => j,
        None => {
            proof {
                assert forall|c4: RgbaFx|
                    c4.well_formed() && #[trigger] matches_at(
                        s@,
                        i as int,
                        rgba_json(c4),
                    ) implies false by {
                    lemma_rgba_layout(s@, i as int, c4);
                }
            }
            return None;
        },
    };
    proof {
        assert forall|c4: RgbaFx|
            c4.well_formed() && #[trigger] matches_at(s@, i as int, rgba_json(c4)) implies
            matches_at(s@, j2 as int, num_bytes(c4.g as int)) by {
            lemma_rgba_layout(s@, i as int, c4);
        }
    }
    let (cg, j3) = match parse_unit_num(s, j2) {
        Some(p) => p,
        None => {
            return None;
        },
    };
    let j4 = match eat_lit(s, j3, &comma) {
        Some(j) => j,
        None => {
            proof {
                assert forall|c4: RgbaFx|
                    c4.well_formed() && #[trigger] matches_at(
                        s@,
                        i as int,
                        rgba_json(c4),
                    ) implies false by {
                    lemma_rgba_layout(s@, i as int, c4);
                }
            }
            return None;
        },
    };
    proof {
        assert forall|c4: RgbaFx|
            c4.well_formed() && #[trigger] matches_at(s@, i as int, rgba_json(c4)) implies
            matches_at(s@, j4 as int, num_bytes(c4.b as int)) by {
            lemma_rgba_layout(s@, i as int, c4);
        }
    }
    let (cb, j5) = match parse_unit_num(s, j4) {
        Some(p) => p,
        None => {
            return None;
        },
    };
    let j6 = match eat_lit(s, j5, &comma) {
        Some(j) => j,
        None => {
            proof {
                assert forall|c4: RgbaFx|
                    c4.well_formed() && #[trigger] matches_at(
                        s@,
                        i as int,
                        rgba_json(c4),
                    ) implies false by {
                    lemma_rgba_layout(s@, i as int, c4);
                }
            }
            return None;
        },
    };
    proof {
        assert forall|c4: RgbaFx|
            c4.well_formed() && #[trigger] matches_at(s@, i as int, rgba_json(c4)) implies
            matches_at(s@, j6 as int, num_bytes(c4.a as int)) by {
            lemma_rgba_layout(s@, i as int, c4);
        }
    }
    let (ca, j7) = match parse_unit_num(s, j6) {
        Some(p) => p,
        None => {
            return None;
        },
    };
    proof {
        assert forall|c4: RgbaFx|
            c4.well_formed() && #[trigger] matches_at(s@, i as int, rgba_json(c4)) implies (RgbaFx {
                r: cr,
                g: cg,
                b: cb,
                a: ca,
            } == c4 && j7 == i + rgba_json(c4).len()) by {
            lemma_rgba_layout(s@, i as int, c4);
        }
    }
    Some((RgbaFx { r: cr, g: cg, b: cb, a: ca }, j7))
}

/// Where the pieces of an object's opening stand.
proof fn lemma_obj_head_layout(s: Seq<u8>, i: int, o: SceneObject)
    requires
        matches_at(s, i, obj_head_json(o)),
    ensures
        ({
            let p1 = i + name_key_bytes().len();
            let p2 = p1 + name_json(o.name).len();
            let p3 = p2 + kind_key_bytes().len();
            &&& matches_at(s, i, name_key_bytes())
            &&& matches_at(s, p1, name_json(o.name))
            &&& matches_at(s, p2, kind_key_bytes())
            &&& matches_at(s, p3, kind_json(o.kind))
            &&& i + obj_head_json(o).len() == p3 + kind_json(o.kind).len()
        }),
{
    lemma_matches_split(
        s,
        i,
        (name_key_bytes() + name_json(o.name)) + kind_key_bytes(),
        kind_json(o.kind),
    );
    lemma_matches_split(s, i, name_key_bytes() + name_json(o.name), kind_key_bytes());
    lemma_matches_split(s, i, name_key_bytes(), name_json(o.name));
}

/// Where the pieces of an object's transform stand.
proof fn lemma_obj_transform_layout(s: Seq<u8>, i: int, o: SceneObject)
    requires
        matches_at(s, i, obj_transform_json(o)),
    ensures
        ({
            let p1 = i + pos_key_bytes().len();
            let p2 = p1 + triple_json(o.position).len();
            let p3 = p2 + rot_key_bytes().len();
            let p4 = p3 + triple_json(o.rotation_euler_mdeg).len();
            let p5 = p4 + scale_key_bytes().len();
            &&& matches_at(s, i, pos_key_bytes())
            &&& matches_at(s, p1, triple_json(o.position))
            &&& matches_at(s, p2, rot_key_bytes())
            &&& matches_at(s, p3, triple_json(o.rotation_euler_mdeg))
            &&& matches_at(s, p4, scale_key_bytes())
            &&& matches_at(s, p5, triple_json(o.scale))
            &&& i + obj_transform_json(o).len() == p5 + triple_json(o.scale).len()
        }),
{
    lemma_matches_split(
        s,
        i,
        (((pos_key_bytes() + triple_json(o.position)) + rot_key_bytes()) + triple_json(
            o.rotation_euler_mdeg,
        )) + scale_key_bytes(),
        triple_json(o.scale),
    );
    lemma_matches_split(
        s,
        i,
        ((pos_key_bytes() + triple_json(o.position)) + rot_key_bytes()) + triple_json(
            o.rotation_euler_mdeg,
        ),
        scale_key_bytes(),
    );
    lemma_matches_split(
        s,
        i,
        (pos_key_bytes() + triple_json(o.position)) + rot_key_bytes(),
        triple_json(o.rotation_euler_mdeg),
    );
    lemma_matches_split(s, i, pos_key_bytes() + triple_json(o.position), rot_key_bytes());
    lemma_matches_split(s, i, pos_key_bytes(), triple_json(o.position));
}

/// Where the pieces of an object's material and closing brace stand.
proof fn lemma_obj_material_layout(s: Seq<u8>, i: int, o: SceneObject)
    requires
        matches_at(s, i, obj_material_json(o)),
    ensures
        ({
            let p1 = i + color_key_bytes().len();
            let p2 = p1 + rgba_json(o.color_rgba).len();
            let p3 = p2 + metallic_key_bytes().len();
            let p4 = p3 + num_bytes(o.metallic as int).len();
            let p5 = p4 + rough_key_bytes().len();
            let p6 = p5 + num_bytes(o.roughness as int).len();
            &&& matches_at(s, i, color_key_bytes())
            &&& matches_at(s, p1, rgba_json(o.color_rgba))
            &&& matches_at(s, p2, metallic_key_bytes())
            &&& matches_at(s, p3, num_bytes(o.metallic as int))
            &&& matches_at(s, p4, rough_key_bytes())
            &&& matches_at(s, p5, num_bytes(o.roughness as int))
            &&& matches_at(s, p6, obj_tail_bytes())
            &&& i + obj_material_json(o).len() == p6 + 1
        }),
{
    lemma_matches_split(
        s,
        i,
        ((((color_key_bytes() + rgba_json(o.color_rgba)) + metallic_key_bytes()) + num_bytes(
            o.metallic as int,
        )) + rough_key_bytes()) + num_bytes(o.roughness as int),
        obj_tail_bytes(),
    );
    lemma_matches_split(
        s,
        i,
        (((color_key_bytes() + rgba_json(o.color_rgba)) + metallic_key_bytes()) + num_bytes(
            o.metallic as int,
        )) + rough_key_bytes(),
        num_bytes(o.roughness as int),
    );
    lemma_matches_split(
        s,
        i,
        ((color_key_bytes() + rgba_json(o.color_rgba)) + metallic_key_bytes()) + num_bytes(
            o.metallic as int,
        ),
        rough_key_bytes(),
    );
    lemma_matches_split(
        s,
        i,
        (color_key_bytes() + rgba_json(o.color_rgba)) + metallic_key_bytes(),
        num_bytes(o.metallic as int),
    );
    lemma_matches_split(s, i, color_key_bytes() + rgba_json(o.color_rgba), metallic_key_bytes());
    lemma_matches_split(s, i, color_key_bytes(), rgba_json(o.color_rgba));
}

/// Read an object's opening at `i`: its name and kind.
fn parse_obj_head(s: &Vec<u8>, i: usize) -> (r: Option<(Option<Vec<u8>>, SpawnKind, usize)>)
    requires
        i <= s.len(),
    ensures
        match r {
            Some((nm, k, j)) => i < j <= s.len() && valid_name(nm),
            None => true,
        },
        forall|oo: SceneObject|
            valid_name(oo.name) && #[trigger] matches_at(s@, i as int, obj_head_json(oo))
                ==> match r {
                Some((nm, k, j)) => j == i + obj_head_json(oo).len() && name_json(nm) == name_json(
                    oo.name,
                ) && k == oo.kind,
                None => false,
            },
{
    let name_key = lit_name_key();
    let j0 = match eat_lit(s, i, &name_key) {
        Some(j) => j,
        None => {
            proof {
                assert forall|oo: SceneObject|
                    valid_name(oo.name) && #[trigger] matches_at(
                        s@,
                        i as int,
                        obj_head_json(oo),
                    ) implies false by {
                    lemma_obj_head_layout(s@, i as int, oo);
                }
            }
            return None;
        },
    };
    let (name, j1) = match parse_name(s, j0) {
        Some(p) => p,
        None => {
            proof {
                assert forall|oo: SceneObject|
                    valid_name(oo.name) && #[trigger] matches_at(
                        s@,
                        i as int,
                        obj_head_json(oo),
                    ) implies false by {
                    lemma_obj_head_layout(s@, i as int, oo);
                }
            }
            return None;
        },
    };
    let kind_key = lit_kind_key();
    let j2 = match eat_lit(s, j1, &kind_key) {
        Some(j) => j,
        None => {
            proof {
                assert forall|oo: SceneObject|
                    valid_name(oo.name) && #[trigger] matches_at(
                        s@,
                        i as int,
                        obj_head_json(oo),
                    ) implies false by {
                    lemma_obj_head_layout(s@, i as int, oo);
                }
            }
            return None;
        },
    };
    let (kind, j3) = match parse_kind(s, j2) {
        Some(p) => p,
        None => {
            proof {
                assert forall|oo: SceneObject|
                    valid_name(oo.name) && #[trigger] matches_at(
                        s@,
                        i as int,
                        obj_head_json(oo),
                    ) implies false by {
                    lemma_obj_head_layout(s@, i as int, oo);
                }
            }
            return None;
        },
    };
    proof {
        assert forall|oo: SceneObject|
            valid_name(oo.name) && #[trigger] matches_at(s@, i as int, obj_head_json(oo)) implies (
        j3 == i + obj_head_json(oo).len() && name_json(name) == name_json(oo.name) && kind
            == oo.kind) by {
            lemma_obj_head_layout(s@, i as int, oo);
        }
    }
    Some((name, kind, j3))
}

/// Read an object's transform at `i`: position, rotation and scale.
fn parse_obj_transform(s: &Vec<u8>, i: usize) -> (r: Option<(Vec3Fx, Vec3Fx, Vec3Fx, usize)>)
    requires
        i <= s.len(),
    ensures
        match r {
            Some((p3, r3, s3, j)) => {
                &&& i < j <= s.len()
                &&& p3.bounded(SCENE_NUM_LIMIT as int)
                &&& r3.bounded(SCENE_NUM_LIMIT as int)
                &&& s3.bounded(SCENE_NUM_LIMIT as int)
            },
            None => true,
        },
        forall|oo: SceneObject|
            oo.position.bounded(SCENE_NUM_LIMIT as int) && oo.rotation_euler_mdeg.bounded(
                SCENE_NUM_LIMIT as int,
            ) && oo.scale.bounded(SCENE_NUM_LIMIT as int) && #[trigger] matches_at(
                s@,
                i as int,
                obj_transform_json(oo),
            ) ==> match r {
                Some((p3, r3, s3, j)) => j == i + obj_transform_json(oo).len() && p3 == oo.position
                    && r3 == oo.rotation_euler_mdeg && s3 == oo.scale,
                None => false,
            },
{
    let pos_key = lit_pos_key();
    let j4 = match eat_lit(s, i, &pos_key) {
        Some(j) => j,
        None => {
            proof {
                assert forall|oo: SceneObject|
                    oo.position.bounded(SCENE_NUM_LIMIT as int) && oo.rotation_euler_mdeg.bounded(
                        SCENE_NUM_LIMIT as int,
                    ) && oo.scale.bounded(SCENE_NUM_LIMIT as int) && #[trigger] matches_at(
                        s@,
                        i as int,
                        obj_transform_json(oo),
                    ) implies false by {
                    lemma_obj_transform_layout(s@, i as int, oo);
                }
            }
            return None;
        },
    };
    let (position, j5) = match parse_triple(s, j4) {
        Some(p) => p,
        None => {
            proof {
                assert forall|oo: SceneObject|
                    oo.position.bounded(SCENE_NUM_LIMIT as int) && oo.rotation_euler_mdeg.bounded(
                        SCENE_NUM_LIMIT as int,
                    ) && oo.scale.bounded(SCENE_NUM_LIMIT as int) && #[trigger] matches_at(
                        s@,
                        i as int,
                        obj_transform_json(oo),
                    ) implies false by {
                    lemma_obj_transform_layout(s@, i as int, oo);
                }
            }
            return None;
        },
    };
    let rot_key = lit_rot_key();
    let j6 = match eat_lit(s, j5, &rot_key) {
        Some(j) => j,
        None => {
            proof {
                assert forall|oo: SceneObject|
                    oo.position.bounded(SCENE_NUM_LIMIT as int) && oo.rotation_euler_mdeg.bounded(
                        SCENE_NUM_LIMIT as int,
                    ) && oo.scale.bounded(SCENE_NUM_LIMIT as int) && #[trigger] matches_at(
                        s@,
                        i as int,
                        obj_transform_json(oo),
                    ) implies false by {
                    lemma_obj_transform_layout(s@, i as int, oo);
                }
            }
            return None;
        },
    };
    let (rotation, j7) = match parse_triple(s, j6) {
        Some(p) => p,
        None => {
            proof {
                assert forall|oo: SceneObject|
                    oo.position.bounded(SCENE_NUM_LIMIT as int) && oo.rotation_euler_mdeg.bounded(
                        SCENE_NUM_LIMIT as int,
                    ) && oo.scale.bounded(SCENE_NUM_LIMIT as int) && #[trigger] matches_at(
                        s@,
                        i as int,
                        obj_transform_json(oo),
                    ) implies false by {
                    lemma_obj_transform_layout(s@, i as int, oo);
                }
            }
            return None;
        },
    };
    let scale_key = lit_scale_key();
    let j8 = match eat_lit(s, j7, &scale_key) {
        Some(j) => j,
        None => {
            proof {
                assert forall|oo: SceneObject|
                    oo.position.bounded(SCENE_NUM_LIMIT as int) && oo.rotation_euler_mdeg.bounded(
                        SCENE_NUM_LIMIT as int,
                    ) && oo.scale.bounded(SCENE_NUM_LIMIT as int) && #[trigger] matches_at(
                        s@,
                        i as int,
                        obj_transform_json(oo),
                    ) implies false by {
                    lemma_obj_transform_layout(s@, i as int, oo);
                }
            }
            return None;
        },
    };
    let (scale, j9) = match parse_triple(s, j8) {
        Some(p) => p,
        None => {
            proof {
                assert forall|oo: SceneObject|
                    oo.position.bounded(SCENE_NUM_LIMIT as int) && oo.rotation_euler_mdeg.bounded(
                        SCENE_NUM_LIMIT as int,
                    ) && oo.scale.bounded(SCENE_NUM_LIMIT as int) && #[trigger] matches_at(
                        s@,
                        i as int,
                        obj_transform_json(oo),
                    ) implies false by {
                    lemma_obj_transform_layout(s@, i as int, oo);
                }
            }
            return None;
        },
    };
    proof {
        assert forall|oo: SceneObject|
            oo.position.bounded(SCENE_NUM_LIMIT as int) && oo.rotation_euler_mdeg.bounded(
                SCENE_NUM_LIMIT as int,
            ) && oo.scale.bounded(SCENE_NUM_LIMIT as int) && #[trigger] matches_at(
                s@,
                i as int,
                obj_transform_json(oo),
            ) implies (j9 == i + obj_transform_json(oo).len() && position == oo.position && rotation
            == oo.rotation_euler_mdeg && scale == oo.scale) by {
            lemma_obj_transform_layout(s@, i as int, oo);
        }
    }
    Some((position, rotation, scale, j9))
}

/// Read an object's material and closing brace at `i`.
fn parse_obj_material(s: &Vec<u8>, i: usize) -> (r: Option<(RgbaFx, i64, i64, usize)>)
    requires
        i <= s.len(),
    ensures
        match r {
            Some((c4, met, rough, j)) => {
                &&& i < j <= s.len()
                &&& c4.well_formed()
                &&& 0 <= met <= FX_ONE
                &&& 0 <= rough <= FX_ONE
            },
            None => true,
        },
        forall|oo: SceneObject|
            oo.color_rgba.well_formed() && 0 <= oo.metallic <= FX_ONE && 0 <= oo.roughness
                <= FX_ONE && #[trigger] matches_at(s@, i as int, obj_material_json(oo))
                ==> match r {
                Some((c4, met, rough, j)) => j == i + obj_material_json(oo).len() && c4
                    == oo.color_rgba && met == oo.metallic && rough == oo.roughness,
                None => false,
            },
{
    let color_key = lit_color_key();
    let j10 = match eat_lit(s, i, &color_key) {
        Some(j) => j,
        None => {
            proof {
                assert forall|oo: SceneObject|
                    oo.color_rgba.well_formed() && 0 <= oo.metallic <= FX_ONE && 0 <= oo.roughness
                        <= FX_ONE && #[trigger] matches_at(
                        s@,
                        i as int,
                        obj_material_json(oo),
                    ) implies false by {
                    lemma_obj_material_layout(s@, i as int, oo);
                }
            }
            return None;
        },
    };
    let (color, j11) = match parse_rgba(s, j10) {
        Some(p) => p,
        None => {
            proof {
                assert forall|oo: SceneObject|
                    oo.color_rgba.well_formed() && 0 <= oo.metallic <= FX_ONE && 0 <= oo.roughness
                        <= FX_ONE && #[trigger] matches_at(
                        s@,
                        i as int,
                        obj_material_json(oo),
                    ) implies false by {
                    lemma_obj_material_layout(s@, i as int, oo);
                }
            }
            return None;
        },
    };
    let metallic_key = lit_metallic_key();
    let j12 = match eat_lit(s, j11, &metallic_key) {
        Some(j) => j,
        None => {
            proof {
                assert forall|oo: SceneObject|
                    oo.color_rgba.well_formed() && 0 <= oo.metallic <= FX_ONE && 0 <= oo.roughness
                        <= FX_ONE && #[trigger] matches_at(
                        s@,
                        i as int,
                        obj_material_json(oo),
                    ) implies false by {
                    lemma_obj_material_layout(s@, i as int, oo);
                }
            }
            return None;
        },
    };
    let (metallic, j13) = match parse_unit_num(s, j12) {
        Some(p) => p,
        None => {
            proof {
                assert forall|oo: SceneObject|
                    oo.color_rgba.well_formed() && 0 <= oo.metallic <= FX_ONE && 0 <= oo.roughness
                        <= FX_ONE && #[trigger] matches_at(
                        s@,
                        i as int,
                        obj_material_json(oo),
                    ) implies false by {
                    lemma_obj_material_layout(s@, i as int, oo);
                }
            }
            return None;
        },
    };
    let rough_key = lit_rough_key();
    let j14 = match eat_lit(s, j13, &rough_key) {
        Some(j) => j,
        None => {
            proof {
                assert forall|oo: SceneObject|
                    oo.color_rgba.well_formed() && 0 <= oo.metallic <= FX_ONE && 0 <= oo.roughness
                        <= FX_ONE && #[trigger] matches_at(
                        s@,
                        i as int,
                        obj_material_json(oo),
                    ) implies false by {
                    lemma_obj_material_layout(s@, i as int, oo);
                }
            }
            return None;
        },
    };
    let (roughness, j15) = match parse_unit_num(s, j14) {
        Some(p) => p,
        None => {
            proof {
                assert forall|oo: SceneObject|
                    oo.color_rgba.well_formed() && 0 <= oo.metallic <= FX_ONE && 0 <= oo.roughness
                        <= FX_ONE && #[trigger] matches_at(
                        s@,
                        i as int,
                        obj_material_json(oo),
                    ) implies false by {
                    lemma_obj_material_layout(s@, i as int, oo);
                }
            }
            return None;
        },
    };
    let obj_tail = lit_obj_tail();
    let j16 = match eat_lit(s, j15, &obj_tail) {
        Some(j) => j,
        None => {
            proof {
                assert forall|oo: SceneObject|
                    oo.color_rgba.well_formed() && 0 <= oo.metallic <= FX_ONE && 0 <= oo.roughness
                        <= FX_ONE && #[trigger] matches_at(
                        s@,
                        i as int,
                        obj_material_json(oo),
                    ) implies false by {
                    lemma_obj_material_layout(s@, i as int, oo);
                }
            }
            return None;
        },
    };
    proof {
        assert forall|oo: SceneObject|
            oo.color_rgba.well_formed() && 0 <= oo.metallic <= FX_ONE && 0 <= oo.roughness
                <= FX_ONE && #[trigger] matches_at(s@, i as int, obj_material_json(oo)) implies (j16
            == i + obj_material_json(oo).len() && color == oo.color_rgba && metallic == oo.metallic
            && roughness == oo.roughness) by {
            lemma_obj_material_layout(s@, i as int, oo);
        }
    }
    Some((color, metallic, roughness, j16))
}

/// Read one object descriptor at `i`. Exactly the encodings of well-formed
/// objects standing at `i` are read, whole, and the object handed back
/// re-encodes as the object that stood there.
fn parse_object(s: &Vec<u8>, i: usize) -> (r: Option<(SceneObject, usize)>)
    requires
        i <= s.len(),
    ensures
        match r {
            Some((o, j)) => i < j <= s.len() && o.well_formed(),
            None => true,
        },
        forall|oo: SceneObject|
            oo.well_formed() && #[trigger] matches_at(s@, i as int, obj_json(oo)) ==> match r {
                Some((o, j)) => j == i + obj_json(oo).len() && obj_json(o) == obj_json(oo),
                None => false,
            },
{
    proof {
        assert forall|oo: SceneObject|
            oo.well_formed() && #[trigger] matches_at(s@, i as int, obj_json(oo)) implies (
        matches_at(s@, i as int, obj_head_json(oo)) && matches_at(
            s@,
            i + obj_head_json(oo).len(),
            obj_transform_json(oo),
        ) && matches_at(
            s@,
            i + obj_head_json(oo).len() + obj_transform_json(oo).len(),
            obj_material_json(oo),
        ) && obj_json(oo).len() == obj_head_json(oo).len() + obj_transform_json(oo).len()
            + obj_material_json(oo).len()) by {
            reveal(obj_json);
            lemma_matches_split(
                s@,
                i as int,
                obj_head_json(oo) + obj_transform_json(oo),
                obj_material_json(oo),
            );
            lemma_matches_split(s@, i as int, obj_head_json(oo), obj_transform_json(oo));
        }
    }
    let (name, kind, j3) = match parse_obj_head(s, i) {
        Some(p) => p,
        None => {
            return None;
        },
    };
    let (position, rotation, scale, j9) = match parse_obj_transform(s, j3) {
        Some(p) => p,
        None => {
            return None;
        },
    };
    let (color, metallic, roughness, j16) = match parse_obj_material(s, j9) {
        Some(p) => p,
        None => {
            return None;
        },
    };
    let o = SceneObject {
        name,
        kind,
        position,
        rotation_euler_mdeg: rotation,
        scale,
        color_rgba: color,
        metallic,
        roughness,
    };
    proof {
        assert forall|oo: SceneObject|
            oo.well_formed() && #[trigger] matches_at(s@, i as int, obj_json(oo)) implies (j16 == i
            + obj_json(oo).len() && obj_json(o) == obj_json(oo)) by {
            reveal(obj_json);
            assert(obj_head_json(o) == obj_head_json(oo));
            assert(obj_transform_json(o) == obj_transform_json(oo));
            assert(obj_material_json(o) == obj_material_json(oo));
        }
    }
    Some((o, j16))
}

/// Where the pieces of an encoded document stand.
proof fn lemma_doc_layout(s: Seq<u8>, d: SceneDoc)
    requires
        d.well_formed(),
        s == doc_json(d),
    ensures
        ({
            let p1 = doc_head_bytes().len() as int;
            let p2 = p1 + dec_bytes(d.version as nat).len();
            let p3 = p2 + objs_open_bytes().len();
            &&& matches_at(s, 0, doc_head_bytes())
            &&& matches_at(s, p1, dec_bytes(d.version as nat))
            &&& matches_at(s, p2, objs_open_bytes())
            &&& s[p1 + dec_bytes(d.version as nat).len()] == 0x2c
            &&& s.subrange(p3, s.len() as int) == objs_json(d.objects@) + doc_tail_bytes()
            &&& s.len() == p3 + objs_json(d.objects@).len() + 2
        }),
{
    let head = doc_head_bytes();
    let dv = dec_bytes(d.version as nat);
    let open = objs_open_bytes();
    let objs = objs_json(d.objects@);
    let tail = doc_tail_bytes();
    assert(s.subrange(0, s.len() as int) =~= s);
    assert(((head + dv) + open) + (objs + tail) =~= doc_json(d));
    lemma_suffix_split(s, 0, (head + dv) + open, objs + tail);
    lemma_matches_split(s, 0, head + dv, open);
    lemma_matches_split(s, 0, head, dv);
    assert(s.subrange(
        head.len() + dv.len() as int,
        head.len() + dv.len() + open.len() as int,
    )[0] == s[head.len() + dv.len() as int]);
}

/// The first byte of every encoded object is the opening brace.
proof fn lemma_obj_json_first_byte(o: SceneObject)
    ensures
        obj_json(o).len() >= 1,
        obj_json(o)[0] == 0x7b,
{
    reveal(obj_json);
    assert(obj_head_json(o)[0] == name_key_bytes()[0]);
    assert(obj_json(o)[0] == obj_head_json(o)[0]);
}

/// Lists whose objects encode alike encode alike.
proof fn lemma_objs_json_congruent(a: Seq<SceneObject>, b: Seq<SceneObject>)
    requires
        a.len() == b.len(),
        forall|t: int| 0 <= t < a.len() ==> #[trigger] obj_json(a[t]) == obj_json(b[t]),
    ensures
        objs_json(a) == objs_json(b),
    decreases a.len(),
{
    if a.len() > 0 {
        lemma_rest_objs_congruent(a.skip(1), b.skip(1));
    }
}

/// The same, for the comma-led rest of a list.
proof fn lemma_rest_objs_congruent(a: Seq<SceneObject>, b: Seq<SceneObject>)
    requires
        a.len() == b.len(),
        forall|t: int| 0 <= t < a.len() ==> #[trigger] obj_json(a[t]) == obj_json(b[t]),
    ensures
        rest_objs_json(a) == rest_objs_json(b),
    decreases a.len(),
{
    if a.len() > 0 {
        assert(a.skip(1).len() == b.skip(1).len());
        assert forall|t: int| 0 <= t < a.skip(1).len() implies #[trigger] obj_json(a.skip(1)[t])
            == obj_json(b.skip(1)[t]) by {
            assert(a.skip(1)[t] == a[t + 1]);
            assert(b.skip(1)[t] == b[t + 1]);
        }
        lemma_rest_objs_congruent(a.skip(1), b.skip(1));
    }
}

/// A comma-led rest of a list, unrolled one object.
proof fn lemma_rest_objs_unroll(objs: Seq<SceneObject>, k: int)
    requires
        0 <= k < objs.len(),
    ensures
        rest_objs_json(objs.skip(k)) == comma_bytes() + obj_json(objs[k]) + rest_objs_json(
            objs.skip(k + 1),
        ),
{
    assert(objs.skip(k)[0] == objs[k]);
    assert(objs.skip(k).skip(1) =~= objs.skip(k + 1));
}

/// What remains to be read once `k` objects of an encoded document's list
/// have been, the separators between them included.
pub open spec fn doc_remainder(d: SceneDoc, k: int) -> Seq<u8> {
    if k < d.objects@.len() {
        obj_json(d.objects@[k]) + rest_objs_json(d.objects@.skip(k + 1)) + doc_tail_bytes()
    } else {
        doc_tail_bytes()
    }
}

/// Decode a scene from its canonical document.
///
/// This inverts `scene_to_json` exactly, both ways: the canonical document
/// of every well-formed scene decodes, and anything it hands back is well
/// formed and re-encodes, byte for byte, to the very input. An error comes
/// exactly on input that is no well-formed scene's canonical document —
/// other whitespace, other key orders, other number shapes, values out of
/// range, or an unknown version tag.
pub fn scene_from_json(s: &Vec<u8>) -> (r: Result<SceneDoc, SceneParseError>)
    ensures
        match r {
            Ok(d) => d.well_formed() && s@ == doc_json(d),
            Err(_) => forall|d: SceneDoc| d.well_formed() ==> s@ != #[trigger] doc_json(d),
        },
{
    let doc_head = lit_doc_head();
    let j0 = match eat_lit(s, 0, &doc_head) {
        Some(j) => j,
        None => {
            proof {
                assert forall|d: SceneDoc| d.well_formed() implies s@ != #[trigger] doc_json(
                    d,
                ) by {
                    if s@ == doc_json(d) {
                        lemma_doc_layout(s@, d);
                    }
                }
            }
            return Err(SceneParseError::Malformed);
        },
    };
    let (version, j1) = match parse_uint(s, j0) {
        Some(p) => p,
        None => {
            proof {
                assert forall|d: SceneDoc| d.well_formed() implies s@ != #[trigger] doc_json(
                    d,
                ) by {
                    if s@ == doc_json(d) {
                        lemma_doc_layout(s@, d);
                    }
                }
            }
            return Err(SceneParseError::Malformed);
        },
    };
    if version != SCENE_VERSION {
        proof {
            assert forall|d: SceneDoc| d.well_formed() implies s@ != #[trigger] doc_json(d) by {
                if s@ == doc_json(d) {
                    lemma_doc_layout(s@, d);
                }
            }
        }
        return Err(SceneParseError::Malformed);
    }
    let objs_open = lit_objs_open();
    let mut j = match eat_lit(s, j1, &objs_open) {
        Some(j) => j,
        None => {
            proof {
                assert forall|d: SceneDoc| d.well_formed() implies s@ != #[trigger] doc_json(
                    d,
                ) by {
                    if s@ == doc_json(d) {
                        lemma_doc_layout(s@, d);
                    }
                }
            }
            return Err(SceneParseError::Malformed);
        },
    };
    let mut objects: Vec<SceneObject> = Vec::new();
    let mut done: bool = false;
    if j < s.len() && s[j] == 0x5d {
        done = true;
        proof {
            assert forall|d: SceneDoc|
                d.well_formed() && s@ == #[trigger] doc_json(d) implies (objects@.len()
                == d.objects@.len() && s@.subrange(j as int, s@.len() as int) == doc_remainder(
                d,
                objects@.len() as int,
            )) by {
                lemma_doc_layout(s@, d);
                if d.objects@.len() > 0 {
                    lemma_obj_json_first_byte(d.objects@[0]);
                    assert(objs_json(d.objects@)[0] == obj_json(d.objects@[0])[0]);
                    assert((objs_json(d.objects@) + doc_tail_bytes())[0] == objs_json(
                        d.objects@,
                    )[0]);
                    assert(s@.subrange(j as int, s@.len() as int)[0] == s@[j as int]);
                    assert(false);
                }
                assert(objs_json(d.objects@) =~= Seq::<u8>::empty());
                assert(objs_json(d.objects@) + doc_tail_bytes() =~= doc_tail_bytes());
            }
        }
    } else {
        proof {
            assert forall|d: SceneDoc|
                d.well_formed() && s@ == #[trigger] doc_json(d) implies (objects@.len()
                < d.objects@.len() && s@.subrange(j as int, s@.len() as int) == doc_remainder(
                d,
                objects@.len() as int,
            )) by {
                lemma_doc_layout(s@, d);
                if d.objects@.len() == 0 {
                    assert(objs_json(d.objects@) =~= Seq::<u8>::empty());
                    assert(objs_json(d.objects@) + doc_tail_bytes() =~= doc_tail_bytes());
                    assert(s@.subrange(j as int, s@.len() as int)[0] == s@[j as int]);
                    assert(s@[j as int] == 0x5d);
                    assert(false);
                }
                assert(objs_json(d.objects@) == obj_json(d.objects@[0]) + rest_objs_json(
                    d.objects@.skip(1),
                ));
                assert((obj_json(d.objects@[0]) + rest_objs_json(d.objects@.skip(1)))
                    + doc_tail_bytes() =~= (obj_json(d.objects@[0]) + rest_objs_json(
                    d.objects@.skip(1),
                )) + doc_tail_bytes());
                assert(s@.subrange(j as int, s@.len() as int) =~= doc_remainder(d, 0));
            }
        }
    }
    while !done
        invariant
            j <= s.len(),
            forall|k: int| 0 <= k < objects.len() ==> (#[trigger] objects[k]).well_formed(),
            forall|d: SceneDoc|
                d.well_formed() && s@ == #[trigger] doc_json(d) ==> {
                    &&& objects@.len() <= d.objects@.len()
                    &&& !done ==> objects@.len() < d.objects@.len()
                    &&& done ==> objects@.len() == d.objects@.len()
                    &&& forall|t: int|
                        0 <= t < objects@.len() ==> #[trigger] obj_json(objects@[t]) == obj_json(
                            d.objects@[t],
                        )
                    &&& s@.subrange(j as int, s@.len() as int) == doc_remainder(
                        d,
                        objects@.len() as int,
                    )
                },
        decreases s.len() - j,
    {
        let (o, j2) = match parse_object(s, j) {
            Some(p) => p,
            None => {
                proof {
                    assert forall|d: SceneDoc| d.well_formed() implies s@ != #[trigger] doc_json(
                        d,
                    ) by {
                        if s@ == doc_json(d) {
                            let k = objects@.len() as int;
                            assert(doc_remainder(d, k) =~= obj_json(d.objects@[k]) + (
                            rest_objs_json(d.objects@.skip(k + 1)) + doc_tail_bytes()));
                            lemma_suffix_split(
                                s@,
                                j as int,
                                obj_json(d.objects@[k]),
                                rest_objs_json(d.objects@.skip(k + 1)) + doc_tail_bytes(),
                            );
                        }
                    }
                }
                return Err(SceneParseError::Malformed);
            },
        };
        proof {
            assert forall|d: SceneDoc|
                d.well_formed() && s@ == #[trigger] doc_json(d) implies {
                let k = objects@.len() as int;
                &&& obj_json(o) == obj_json(d.objects@[k])
                &&& j2 == j + obj_json(d.objects@[k]).len()
                &&& s@.subrange(j2 as int, s@.len() as int) == rest_objs_json(
                    d.objects@.skip(k + 1),
                ) + doc_tail_bytes()
            } by {
                let k = objects@.len() as int;
                assert(doc_remainder(d, k) =~= obj_json(d.objects@[k]) + (rest_objs_json(
                    d.objects@.skip(k + 1),
                ) + doc_tail_bytes()));
                lemma_suffix_split(
                    s@,
                    j as int,
                    obj_json(d.objects@[k]),
                    rest_objs_json(d.objects@.skip(k + 1)) + doc_tail_bytes(),
                );
            }
        }
        let ghost old_objects: Seq<SceneObject> = objects@;
        let ghost old_j: int = j as int;
        objects.push(o);
        j = j2;
        if j < s.len() && s[j] == 0x2c {
            j = j + 1;
            proof {
                assert forall|d: SceneDoc|
                    d.well_formed() && s@ == #[trigger] doc_json(d) implies (objects@.len()
                    < d.objects@.len() && s@.subrange(j as int, s@.len() as int) == doc_remainder(
                    d,
                    objects@.len() as int,
                ) && (forall|t: int|
                    0 <= t < objects@.len() ==> #[trigger] obj_json(objects@[t]) == obj_json(
                        d.objects@[t],
                    ))) by {
                    let k = old_objects.len() as int;
                    assert(doc_remainder(d, k) =~= obj_json(d.objects@[k]) + (rest_objs_json(
                        d.objects@.skip(k + 1),
                    ) + doc_tail_bytes()));
                    lemma_suffix_split(
                        s@,
                        old_j,
                        obj_json(d.objects@[k]),
                        rest_objs_json(d.objects@.skip(k + 1)) + doc_tail_bytes(),
                    );
                    if k + 1 == d.objects@.len() {
                        assert(rest_objs_json(d.objects@.skip(k + 1)) == Seq::<u8>::empty());
                        assert(rest_objs_json(d.objects@.skip(k + 1)) + doc_tail_bytes()
                            =~= doc_tail_bytes());
                        assert(s@.subrange(j2 as int, s@.len() as int)[0] == s@[j2 as int]);
                        assert(false);
                    }
                    lemma_rest_objs_unroll(d.objects@, k + 1);
                    assert((comma_bytes() + obj_json(d.objects@[k + 1]) + rest_objs_json(
                        d.objects@.skip(k + 2),
                    )) + doc_tail_bytes() =~= comma_bytes() + ((obj_json(d.objects@[k + 1])
                        + rest_objs_json(d.objects@.skip(k + 2))) + doc_tail_bytes()));
                    lemma_suffix_split(
                        s@,
                        j2 as int,
                        comma_bytes(),
                        (obj_json(d.objects@[k + 1]) + rest_objs_json(d.objects@.skip(k + 2)))
                            + doc_tail_bytes(),
                    );
                    assert(s@.subrange(j as int, s@.len() as int) =~= doc_remainder(d, k + 1));
                    assert forall|t: int| 0 <= t < objects@.len() implies #[trigger] obj_json(
                        objects@[t],
                    ) == obj_json(d.objects@[t]) by {
                        if t < k {
                            assert(objects@[t] == old_objects[t]);
                        } else {
                            assert(objects@[t] == o);
                        }
                    }
                }
            }
        } else {
            done = true;
            proof {
                assert forall|d: SceneDoc|
                    d.well_formed() && s@ == #[trigger] doc_json(d) implies (objects@.len()
                    == d.objects@.len() && s@.subrange(j as int, s@.len() as int) == doc_remainder(
                    d,
                    objects@.len() as int,
                ) && (forall|t: int|
                    0 <= t < objects@.len() ==> #[trigger] obj_json(objects@[t]) == obj_json(
                        d.objects@[t],
                    ))) by {
                    let k = old_objects.len() as int;
                    if k + 1 < d.objects@.len() {
                        lemma_rest_objs_unroll(d.objects@, k + 1);
                        assert((comma_bytes() + obj_json(d.objects@[k + 1]) + rest_objs_json(
                            d.objects@.skip(k + 2),
                        )) + doc_tail_bytes() =~= comma_bytes() + ((obj_json(d.objects@[k + 1])
                            + rest_objs_json(d.objects@.skip(k + 2))) + doc_tail_bytes()));
                        assert(s@.subrange(j as int, s@.len() as int)[0] == s@[j as int]);
                        assert(s@[j as int] == 0x2c);
                        assert(false);
                    }
                    assert(rest_objs_json(d.objects@.skip(k + 1)) == Seq::<u8>::empty());
                    assert(rest_objs_json(d.objects@.skip(k + 1)) + doc_tail_bytes()
                        =~= doc_tail_bytes());
                    assert forall|t: int| 0 <= t < objects@.len() implies #[trigger] obj_json(
                        objects@[t],
                    ) == obj_json(d.objects@[t]) by {
                        if t < k {
                            assert(objects@[t] == old_objects[t]);
                        } else {
                            assert(objects@[t] == o);
                        }
                    }
                }
            }
        }
    }
    let doc_tail = lit_doc_tail();
    let j3 = match eat_lit(s, j, &doc_tail) {
        Some(j2) => j2,
        None => {
            proof {
                assert forall|d: SceneDoc| d.well_formed() implies s@ != #[trigger] doc_json(
                    d,
                ) by {
                    if s@ == doc_json(d) {
                        lemma_suffix_split(
                            s@,
                            j as int,
                            doc_tail_bytes(),
                            Seq::<u8>::empty(),
                        );
                        assert(doc_tail_bytes() + Seq::<u8>::empty() =~= doc_tail_bytes());
                    }
                }
            }
            return Err(SceneParseError::Malformed);
        },
    };
    if j3 != s.len() {
        proof {
            assert forall|d: SceneDoc| d.well_formed() implies s@ != #[trigger] doc_json(d) by {
                if s@ == doc_json(d) {
                    assert(s@.subrange(j as int, s@.len() as int).len() == 2);
                }
            }
        }
        return Err(SceneParseError::Malformed);
    }
    let doc = SceneDoc { version: SCENE_VERSION, objects };
    let out = scene_to_json(&doc);
    if bytes_eq(&out, s) {
        Ok(doc)
    } else {
        proof {
            assert forall|d: SceneDoc| d.well_formed() implies s@ != #[trigger] doc_json(d) by {
                if s@ == doc_json(d) {
                    lemma_objs_json_congruent(doc.objects@, d.objects@);
                    assert(doc_json(doc) == doc_json(d));
                }
            }
        }
        Err(SceneParseError::Malformed)
    }
}

} // verus!
