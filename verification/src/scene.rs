//! The scene at the start: a cube with a hidden marker on it, a light and a camera.
use crate::controls::{Color, Controls};
use crate::pick::{Marker, Pick, Visibility, CUBE_HALF};
use crate::ray::ONE;
use crate::single::{law_value_of_fields, Single, ZERO};
use crate::transform::Transform;
use crate::vector::Vec3;
use vstd::arithmetic::power2::{lemma2_to64, lemma_pow2_adds};
use vstd::prelude::*;

verus! {

/// The bits of 1.5, the cube's edge length.
pub const CUBE_EDGE: u32 = 0x3fc0_0000;

/// The bits of 0.4, the roughness of the cube's surface.
pub const CUBE_ROUGHNESS: u32 = 0x3ecc_cccd;

/// The bits of 0.1, the radius of the marker's sphere.
pub const MARKER_RADIUS: u32 = 0x3dcc_cccd;

/// The bits of 1.0, 0.5 and 0.1, the marker's colour.
pub const MARKER_RED: u32 = 0x3f80_0000;

pub const MARKER_GREEN: u32 = 0x3f00_0000;

pub const MARKER_BLUE: u32 = 0x3dcc_cccd;

/// The bits of 9000.0, the light's illuminance.
pub const ILLUMINANCE: u32 = 0x460c_a000;

/// The bits of 2.0.
pub const TWO: u32 = 0x4000_0000;

/// The bits of 4.0.
pub const FOUR: u32 = 0x4080_0000;

/// The bits of 6.0.
pub const SIX: u32 = 0x40c0_0000;

/// The bits of 8.0.
pub const EIGHT: u32 = 0x4100_0000;

/// What a surface looks like. A roughness that is not given is the engine's default, and
/// so is all that is not named here.
#[derive(Clone, Copy, PartialEq, Eq, Structural, Debug)]
pub struct StandardMaterial {
    pub base_color: Color,
    pub perceptual_roughness: Option<Single>,
    /// Whether light leaves the surface as it is.
    pub unlit: bool,
}

/// The marker of the picked point, a sphere.
#[derive(Clone, Copy, PartialEq, Eq, Structural, Debug)]
pub struct MarkerSphere {
    pub radius: Single,
    pub material: StandardMaterial,
    pub state: Marker,
}

/// The cube that spins. The marker is its child.
#[derive(Clone, Copy, PartialEq, Eq, Structural, Debug)]
pub struct Spinner {
    pub transform: Transform,
    pub edges: Vec3,
    pub material: StandardMaterial,
    pub marker: MarkerSphere,
}

/// A place from which to look at a target.
#[derive(Clone, Copy, PartialEq, Eq, Structural, Debug)]
pub struct Viewpoint {
    pub position: Vec3,
    pub target: Vec3,
    pub up: Vec3,
}

/// The light, which shines the way it looks.
#[derive(Clone, Copy, PartialEq, Eq, Structural, Debug)]
pub struct DirectionalLight {
    pub illuminance: Single,
    pub viewpoint: Viewpoint,
}

/// The camera, and whether its picture is tone mapped.
#[derive(Clone, Copy, PartialEq, Eq, Structural, Debug)]
pub struct Camera {
    pub viewpoint: Viewpoint,
    pub tonemapping: bool,
}

/// What is in the scene.
#[derive(Clone, Copy, PartialEq, Eq, Structural, Debug)]
pub struct Scene {
    pub spinner: Spinner,
    pub light: DirectionalLight,
    pub camera: Camera,
}

/// The vector with components of the given bits.
pub open spec fn vector_of_bits(x: u32, y: u32, z: u32) -> Vec3 {
    Vec3 { x: Single { bits: x }, y: Single { bits: y }, z: Single { bits: z } }
}

/// The place at the given position that looks at the cube's centre, with the second axis up.
pub open spec fn looking_at_cube(x: u32, y: u32, z: u32) -> Viewpoint {
    Viewpoint {
        position: vector_of_bits(x, y, z),
        target: vector_of_bits(ZERO, ZERO, ZERO),
        up: vector_of_bits(ZERO, ONE, ZERO),
    }
}

fn vec3(x: u32, y: u32, z: u32) -> (r: Vec3)
    ensures
        r == vector_of_bits(x, y, z),
{
    Vec3::new(Single::from_bits(x), Single::from_bits(y), Single::from_bits(z))
}

fn viewpoint(x: u32, y: u32, z: u32) -> (r: Viewpoint)
    ensures
        r == looking_at_cube(x, y, z),
{
    Viewpoint { position: vec3(x, y, z), target: vec3(ZERO, ZERO, ZERO), up: vec3(ZERO, ONE, ZERO) }
}

/// The marker's material: orange, and not shaded.
pub open spec fn marker_material() -> StandardMaterial {
    StandardMaterial {
        base_color: Color {
            red: Single { bits: MARKER_RED },
            green: Single { bits: MARKER_GREEN },
            blue: Single { bits: MARKER_BLUE },
        },
        perceptual_roughness: None,
        unlit: true,
    }
}

/// The scene at the start. The cube has the colour that is set by then.
pub fn setup(controls: &Controls) -> (r: Scene)
    ensures
        r.spinner.transform == Transform::identity(),
        r.spinner.edges == vector_of_bits(CUBE_EDGE, CUBE_EDGE, CUBE_EDGE),
        r.spinner.material == (StandardMaterial {
            base_color: controls.color,
            perceptual_roughness: Some(Single { bits: CUBE_ROUGHNESS }),
            unlit: false,
        }),
        r.spinner.marker == (MarkerSphere {
            radius: Single { bits: MARKER_RADIUS },
            material: marker_material(),
            state: Marker { transform: Transform::identity(), visibility: Visibility::Hidden },
        }),
        r.light == (DirectionalLight {
            illuminance: Single { bits: ILLUMINANCE },
            viewpoint: looking_at_cube(FOUR, EIGHT, FOUR),
        }),
        r.camera == (Camera { viewpoint: looking_at_cube(ZERO, TWO, SIX), tonemapping: false }),
        Pick::initial().marked(r.spinner.marker.state) == r.spinner.marker.state,
{
    let material = StandardMaterial {
        base_color: controls.color,
        perceptual_roughness: Some(Single::from_bits(CUBE_ROUGHNESS)),
        unlit: false,
    };
    let marker_material = StandardMaterial {
        base_color: Color::srgb(
            Single::from_bits(MARKER_RED),
            Single::from_bits(MARKER_GREEN),
            Single::from_bits(MARKER_BLUE),
        ),
        perceptual_roughness: None,
        unlit: true,
    };
    let marker = MarkerSphere {
        radius: Single::from_bits(MARKER_RADIUS),
        material: marker_material,
        state: Marker { transform: Transform::new(), visibility: Visibility::Hidden },
    };
    Scene {
        spinner: Spinner {
            transform: Transform::new(),
            edges: vec3(CUBE_EDGE, CUBE_EDGE, CUBE_EDGE),
            material,
            marker,
        },
        light: DirectionalLight {
            illuminance: Single::from_bits(ILLUMINANCE),
            viewpoint: viewpoint(FOUR, EIGHT, FOUR),
        },
        camera: Camera { viewpoint: viewpoint(ZERO, TWO, SIX), tonemapping: false },
    }
}

/// The cube that is picked on is the cube that is drawn: its edge is twice the distance
/// of its faces from its centre.
pub proof fn law_picked_cube_is_drawn_cube()
    ensures
        (Single { bits: CUBE_EDGE }).value() == 2 * (Single { bits: CUBE_HALF }).value(),
{
    lemma2_to64();
    lemma_pow2_adds(125, 1);
    law_value_of_fields(Single { bits: CUBE_EDGE }, 127, 0x40_0000);
    law_value_of_fields(Single { bits: CUBE_HALF }, 126, 0x40_0000);
}

} // verus!
