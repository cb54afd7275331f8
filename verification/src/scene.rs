//! The scene document: what the editor saves and loads.
//!
//! A scene is a version tag and a flat list of object descriptors — shape
//! kind, transform, colour and material parameters. Continuous values are
//! fixed point (thousandths): positions, scales, colours in `[0, FX_ONE]`,
//! rotations in thousandths of a degree. Object names are plain printable
//! bytes so the document format (see the codec) needs no escaping.

use vstd::prelude::*;
use crate::FX_ONE;
use crate::geom::{COORD_LIMIT, Vec3Fx};

verus! {

/// The one version of the scene format this library writes and reads.
pub const SCENE_VERSION: u32 = 1;

/// Largest magnitude any fixed-point value in a scene document may have;
/// keeps every number well within the codec's decimal range.
pub const SCENE_NUM_LIMIT: i64 = 1000000000000;

/// Longest allowed object name, in bytes.
pub const MAX_NAME_LEN: usize = 256;

/// The alpha (in thousandths) below which a loaded colour is drawn blended.
pub const BLEND_ALPHA_FX: i64 = 999;

/// The shape an editable object was spawned with.
#[derive(Clone, Copy, PartialEq, Eq, Structural, Debug)]
pub enum SpawnKind {
    Cuboid,
    Sphere,
    Plane,
}

impl Default for SpawnKind {
    /// New objects default to a cuboid.
    fn default() -> (r: Self)
        ensures
            r == SpawnKind::Cuboid,
    {
        SpawnKind::Cuboid
    }
}

/// Persisted mesh info carried by every editable entity, so a scene can be
/// saved and respawned.
#[derive(Clone, Copy, PartialEq, Eq, Structural, Debug)]
pub struct EditableMesh {
    pub kind: SpawnKind,
}

/// A colour with alpha, each channel in thousandths of full intensity.
#[derive(Clone, Copy, PartialEq, Eq, Structural, Debug)]
pub struct RgbaFx {
    pub r: i64,
    pub g: i64,
    pub b: i64,
    pub a: i64,
}

impl RgbaFx {
    /// All four channels within `[0, FX_ONE]`.
    pub open spec fn well_formed(self) -> bool {
        &&& 0 <= self.r <= FX_ONE
        &&& 0 <= self.g <= FX_ONE
        &&& 0 <= self.b <= FX_ONE
        &&& 0 <= self.a <= FX_ONE
    }
}

/// A byte an object name may hold: printable ASCII except the two bytes the
/// document format would otherwise have to escape.
pub open spec fn name_byte_ok(b: u8) -> bool {
    0x20 <= b <= 0x7e && b != 0x22 && b != 0x5c
}

/// A whole object name: bounded, and every byte plain.
pub open spec fn name_ok(s: Seq<u8>) -> bool {
    s.len() <= MAX_NAME_LEN && forall|i: int| 0 <= i < s.len() ==> name_byte_ok(#[trigger] s[i])
}

/// One saved object: an optional name, the shape it was spawned with, its
/// transform, and its material.
pub struct SceneObject {
    pub name: Option<Vec<u8>>,
    pub kind: SpawnKind,
    pub position: Vec3Fx,
    pub rotation_euler_mdeg: Vec3Fx,
    pub scale: Vec3Fx,
    pub color_rgba: RgbaFx,
    pub metallic: i64,
    pub roughness: i64,
}

impl SceneObject {
    /// Every field in its documented range.
    pub open spec fn well_formed(self) -> bool {
        &&& match self.name {
            Some(n) => name_ok(n@),
            None => true,
        }
        &&& self.position.bounded(SCENE_NUM_LIMIT as int)
        &&& self.rotation_euler_mdeg.bounded(SCENE_NUM_LIMIT as int)
        &&& self.scale.bounded(SCENE_NUM_LIMIT as int)
        &&& self.color_rgba.well_formed()
        &&& 0 <= self.metallic <= FX_ONE
        &&& 0 <= self.roughness <= FX_ONE
    }
}

/// A whole saved scene: the format version and the objects.
pub struct SceneDoc {
    pub version: u32,
    pub objects: Vec<SceneObject>,
}

impl SceneDoc {
    /// The current version tag, and every object in range.
    pub open spec fn well_formed(self) -> bool {
        &&& self.version == SCENE_VERSION
        &&& forall|i: int|
            0 <= i < self.objects.len() ==> (#[trigger] self.objects[i]).well_formed()
    }

    /// Wrap the gathered objects under the current version tag.
    pub fn new(objects: Vec<SceneObject>) -> (doc: SceneDoc)
        requires
            forall|i: int| 0 <= i < objects.len() ==> (#[trigger] objects[i]).well_formed(),
        ensures
            doc.well_formed(),
            doc.version == SCENE_VERSION,
            doc.objects == objects,
    {
        SceneDoc { version: SCENE_VERSION, objects }
    }
}

/// Clamp a fixed-point value into `[0, FX_ONE]`, as material parameters are
/// on their way into a material.
pub fn clamp_unit_fx(v: i64) -> (r: i64)
    ensures
        r == crate::rig::clamp_i(v as int, 0, FX_ONE as int),
        0 <= r <= FX_ONE,
{
    if v < 0 {
        0
    } else if v > FX_ONE {
        FX_ONE
    } else {
        v
    }
}

/// Whether a loaded colour's alpha asks for blended drawing: anything short
/// of (nearly) opaque.
pub fn alpha_needs_blend(alpha_fx: i64) -> (r: bool)
    ensures
        r == (alpha_fx < BLEND_ALPHA_FX),
{
    alpha_fx < BLEND_ALPHA_FX
}

/// An ASCII whitespace byte.
pub open spec fn ws_byte(b: u8) -> bool {
    b == 0x20 || b == 0x09 || b == 0x0a || b == 0x0d
}

/// A name that is empty or all whitespace.
pub open spec fn blank_name(s: Seq<u8>) -> bool {
    forall|i: int| 0 <= i < s.len() ==> ws_byte(#[trigger] s[i])
}

/// The file name scenes go to when none was typed.
pub open spec fn default_scene_file() -> Seq<u8> {
    seq![0x73u8, 0x63u8, 0x65u8, 0x6eu8, 0x65u8, 0x2eu8, 0x6au8, 0x73u8, 0x6fu8, 0x6eu8]
}

/// The file a scene is saved to or loaded from: what the user typed, unless
/// that is blank, in which case the default.
pub fn scene_file_name(typed: &Vec<u8>) -> (r: Vec<u8>)
    ensures
        r@ == if blank_name(typed@) {
            default_scene_file()
        } else {
            typed@
        },
{
    let mut blank: bool = true;
    let mut i: usize = 0;
    while i < typed.len()
        invariant
            i <= typed.len(),
            blank == (forall|k: int| 0 <= k < i ==> ws_byte(#[trigger] typed@[k])),
        decreases typed.len() - i,
    {
        let b: u8 = typed[i];
        if !(b == 0x20 || b == 0x09 || b == 0x0a || b == 0x0d) {
            blank = false;
        }
        i = i + 1;
    }
    if blank {
        let mut r: Vec<u8> = Vec::new();
        r.push(0x73);
        r.push(0x63);
        r.push(0x65);
        r.push(0x6e);
        r.push(0x65);
        r.push(0x2e);
        r.push(0x6a);
        r.push(0x73);
        r.push(0x6f);
        r.push(0x6e);
        proof {
            assert(r@ =~= default_scene_file());
        }
        r
    } else {
        let mut r: Vec<u8> = Vec::new();
        let mut i2: usize = 0;
        while i2 < typed.len()
            invariant
                i2 <= typed.len(),
                r@ == typed@.subrange(0, i2 as int),
            decreases typed.len() - i2,
        {
            r.push(typed[i2]);
            i2 = i2 + 1;
            proof {
                assert(r@ =~= typed@.subrange(0, i2 as int));
            }
        }
        proof {
            assert(r@ =~= typed@);
        }
        r
    }
}

} // verus!
