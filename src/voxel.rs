//! The per-cell data of the map and the palette of voxel types.
use vstd::prelude::*;

verus! {

/// Identifies the type of a voxel; it indexes into a [`SdfVoxelPalette`].
#[derive(Clone, Copy, Debug, PartialEq, Eq, Structural, Hash)]
pub struct SdfVoxelType(pub u8);

/// Quantized signed distance from an isosurface, in steps of one
/// thirty-second of a voxel edge. Negative values lie inside the solid.
#[derive(Clone, Copy, Debug, PartialEq, Eq, Structural, Hash)]
pub struct VoxelDistance(pub i8);

/// The data stored at each point of the voxel map.
#[derive(Clone, Copy, Debug, PartialEq, Eq, Structural, Hash)]
pub struct SdfVoxel {
    pub voxel_type: SdfVoxelType,
    pub distance: VoxelDistance,
}

/// Index of a material layer used for texture blending.
#[derive(Clone, Copy, Debug, PartialEq, Eq, Structural, Hash)]
pub struct VoxelMaterial(pub u8);

/// Metadata about one type of voxel.
#[derive(Clone, Copy, Debug, PartialEq, Eq, Structural, Hash)]
pub struct SdfVoxelTypeInfo {
    pub is_empty: bool,
    pub material: VoxelMaterial,
}

/// Number of quantization steps per voxel edge length.
pub const STEPS_PER_VOXEL: u64 = 32;

/// Number of material layers that vertex material weights can count.
pub const NUM_MATERIAL_LAYERS: u8 = 4;

/// The material id that stands for "no material".
pub const NULL_MATERIAL: u8 = 255;

/// The ambient voxel: empty type with the largest representable distance.
pub open spec fn empty_voxel() -> SdfVoxel {
    SdfVoxel { voxel_type: SdfVoxelType(0), distance: VoxelDistance(127) }
}

/// Quotient of `a` by `b`, rounded toward zero.
pub open spec fn trunc_div(a: int, b: int) -> int {
    if a >= 0 {
        a / b
    } else {
        -((-a) / b)
    }
}

pub open spec fn clamp_i8(x: int) -> int {
    if x < -128 {
        -128
    } else if x > 127 {
        127
    } else {
        x
    }
}

/// The encoded step count of the real distance `numerator / denominator`
/// (in voxel edge lengths): scaled to steps, rounded toward zero and clamped
/// to the representable range.
pub open spec fn encoded_steps(numerator: int, denominator: int) -> int {
    clamp_i8(trunc_div(STEPS_PER_VOXEL as int * numerator, denominator))
}

impl SdfVoxel {
    pub fn new(voxel_type: SdfVoxelType, distance: VoxelDistance) -> (r: Self)
        ensures
            r.voxel_type == voxel_type,
            r.distance == distance,
    {
        Self { voxel_type, distance }
    }

    /// The ambient voxel, as every unwritten point of the map reads.
    pub fn empty() -> (r: Self)
        ensures
            r == empty_voxel(),
    {
        SdfVoxel { voxel_type: SdfVoxelType(0), distance: VoxelDistance(i8::MAX) }
    }

    pub fn get_type_index(&self) -> (r: usize)
        ensures
            r == self.voxel_type.0 as usize,
    {
        self.voxel_type.0 as usize
    }
}

impl Default for SdfVoxel {
    fn default() -> (r: Self)
        ensures
            r == empty_voxel(),
    {
        SdfVoxel { voxel_type: SdfVoxelType(0), distance: VoxelDistance(i8::MAX) }
    }
}

impl VoxelDistance {
    /// The smallest representable distance (deepest inside the solid).
    pub fn min() -> (r: Self)
        ensures
            r.0 == i8::MIN,
            forall|d: VoxelDistance| r.0 <= d.0,
    {
        Self(i8::MIN)
    }

    /// The largest representable distance (farthest outside the solid).
    pub fn max() -> (r: Self)
        ensures
            r.0 == i8::MAX,
            forall|d: VoxelDistance| d.0 <= r.0,
    {
        Self(i8::MAX)
    }

    /// Encodes the real distance `numerator / denominator` voxel edges.
    pub fn encode_ratio(numerator: i32, denominator: u32) -> (r: Self)
        requires
            denominator > 0,
        ensures
            r.0 as int == encoded_steps(numerator as int, denominator as int),
    {
        let scaled: i64 = STEPS_PER_VOXEL as i64 * numerator as i64;
        assert(-(1i64 << 40) <= scaled <= (1i64 << 40)) by (bit_vector)
            requires scaled == 32 * numerator as i64;
        let d: u64 = denominator as u64;
        let steps: i64 = if scaled >= 0 {
            ((scaled as u64) / d) as i64
        } else {
            let q: u64 = ((-scaled) as u64) / d;
            -(q as i64)
        };
        let clamped: i64 = if steps < -128 {
            -128
        } else if steps > 127 {
            127
        } else {
            steps
        };
        Self(clamped as i8)
    }

    /// The number of quantization steps this distance holds; the real
    /// distance is this value divided by [`STEPS_PER_VOXEL`].
    pub fn steps(self) -> (r: i32)
        ensures
            r == self.0 as i32,
    {
        self.0 as i32
    }

    pub fn is_inside(self) -> (r: bool)
        ensures
            r == (self.0 < 0),
    {
        self.0 < 0
    }
}

/// The voxel after a brush changes its distance by `delta` steps: the
/// distance saturates at the representable range; a voxel that the brush
/// makes solid takes `brush_type`, and one that it clears becomes empty.
pub fn apply_sdf_delta(v: SdfVoxel, delta: i16, brush_type: SdfVoxelType) -> (r: SdfVoxel)
    ensures
        r.distance.0 as int == clamp_i8(v.distance.0 + delta),
        r.voxel_type == if delta < 0 && r.distance.0 < 0 {
            brush_type
        } else if delta > 0 && r.distance.0 >= 0 {
            SdfVoxelType(0)
        } else {
            v.voxel_type
        },
{
    let sum: i32 = v.distance.0 as i32 + delta as i32;
    let d: i8 = if sum < -128 {
        -128
    } else if sum > 127 {
        127
    } else {
        sum as i8
    };
    let t = if delta < 0 && d < 0 {
        brush_type
    } else if delta > 0 && d >= 0 {
        SdfVoxelType(0)
    } else {
        v.voxel_type
    };
    SdfVoxel { voxel_type: t, distance: VoxelDistance(d) }
}

/// Encoding keeps the order of real distances: for `n1 / d <= n2 / d`,
/// the first encodes to at most the second.
pub proof fn lemma_encode_monotonic(n1: int, n2: int, d: int)
    requires
        n1 <= n2,
        d > 0,
    ensures
        encoded_steps(n1, d) <= encoded_steps(n2, d),
{
    let a = STEPS_PER_VOXEL as int * n1;
    let b = STEPS_PER_VOXEL as int * n2;
    assert(a <= b);
    if a >= 0 {
        vstd::arithmetic::div_mod::lemma_div_is_ordered(a, b, d);
    } else if b >= 0 {
        vstd::arithmetic::div_mod::lemma_div_pos_is_pos(-a, d);
        vstd::arithmetic::div_mod::lemma_div_pos_is_pos(b, d);
    } else {
        vstd::arithmetic::div_mod::lemma_div_is_ordered(-b, -a, d);
    }
}

/// Decoding an encoded distance that lies in the representable range gives
/// it back to within one quantization step: `|steps / 32 - n / d| < 1 / 32`.
pub proof fn lemma_encode_within_one_step(n: int, d: int)
    requires
        d > 0,
        -128 * d <= STEPS_PER_VOXEL as int * n <= 127 * d,
    ensures
        -d < STEPS_PER_VOXEL as int * n - d * encoded_steps(n, d) < d,
{
    let a = STEPS_PER_VOXEL as int * n;
    if a >= 0 {
        vstd::arithmetic::div_mod::lemma_fundamental_div_mod(a, d);
        vstd::arithmetic::div_mod::lemma_div_is_ordered(a, 127 * d, d);
        vstd::arithmetic::div_mod::lemma_div_multiples_vanish(127, d);
        vstd::arithmetic::div_mod::lemma_div_pos_is_pos(a, d);
        let q = a / d;
        assert(0 <= q <= 127);
        assert(trunc_div(a, d) == q);
        assert(encoded_steps(n, d) == q);
        assert(a == d * q + a % d);
        assert(0 <= a % d < d);
    } else {
        let b = -a;
        vstd::arithmetic::div_mod::lemma_fundamental_div_mod(b, d);
        vstd::arithmetic::div_mod::lemma_div_is_ordered(b, 128 * d, d);
        vstd::arithmetic::div_mod::lemma_div_multiples_vanish(128, d);
        vstd::arithmetic::div_mod::lemma_div_pos_is_pos(b, d);
        let q = b / d;
        assert(0 <= q <= 128);
        assert(trunc_div(a, d) == -q);
        assert(encoded_steps(n, d) == -q);
        assert(b == d * q + b % d);
        assert(0 <= b % d < d);
        assert(d * (-q) == -(d * q)) by (nonlinear_arith);
    }
}

/// Whether `infos` makes a palette: non-empty, at most 256 types, type zero
/// empty, and every non-empty type naming a material layer that vertex
/// weights can count.
pub open spec fn palette_ok(infos: Seq<SdfVoxelTypeInfo>) -> bool {
    &&& infos.len() > 0
    &&& infos.len() <= 256
    &&& infos[0].is_empty
    &&& forall|i: int|
        0 <= i < infos.len() && !(#[trigger] infos[i]).is_empty ==> infos[i].material.0
            < NUM_MATERIAL_LAYERS
}

/// The palette of voxel types; entry `i` describes type id `i`. Type id
/// zero is the ambient type and is always empty.
pub struct SdfVoxelPalette {
    infos: Vec<SdfVoxelTypeInfo>,
}

impl SdfVoxelPalette {
    /// The type records, by type id.
    pub closed spec fn infos(&self) -> Seq<SdfVoxelTypeInfo> {
        self.infos@
    }

    pub open spec fn wf(&self) -> bool {
        palette_ok(self.infos())
    }

    /// Whether the type id of `v` lies in the palette.
    pub open spec fn covers(&self, v: SdfVoxel) -> bool {
        (v.voxel_type.0 as int) < self.infos().len()
    }

    /// Whether `v` is of an empty type; a type id outside the palette
    /// counts as occupied, so that it is never skipped.
    pub open spec fn is_empty_type(&self, v: SdfVoxel) -> bool {
        self.covers(v) && self.infos()[v.voxel_type.0 as int].is_empty
    }

    /// Builds a palette, refusing one whose type zero is missing or not
    /// empty, that has more than 256 entries, or whose non-empty types name
    /// a material layer out of range.
    pub fn new(infos: Vec<SdfVoxelTypeInfo>) -> (r: Option<Self>)
        ensures
            r.is_some() <==> palette_ok(infos@),
            r.is_some() ==> r.unwrap().infos() == infos@,
    {
        if infos.len() == 0 || infos.len() > 256 || !infos[0].is_empty {
            return None;
        }
        let mut i: usize = 0;
        while i < infos.len()
            invariant
                i <= infos@.len(),
                forall|j: int|
                    0 <= j < i && !(#[trigger] infos@[j]).is_empty
                        ==> infos@[j].material.0 < NUM_MATERIAL_LAYERS,
            decreases infos@.len() - i,
        {
            if !infos[i].is_empty && infos[i].material.0 >= NUM_MATERIAL_LAYERS {
                return None;
            }
            i += 1;
        }
        Some(SdfVoxelPalette { infos })
    }

    pub fn len(&self) -> (r: usize)
        ensures
            r == self.infos().len(),
    {
        self.infos.len()
    }

    /// Whether `voxel` is of an empty type.
    pub fn is_empty(&self, voxel: SdfVoxel) -> (r: bool)
        ensures
            r == self.is_empty_type(voxel),
    {
        (voxel.voxel_type.0 as usize) < self.infos.len() && self.infos[voxel.voxel_type.0 as usize].is_empty
    }

    pub fn info(&self, voxel: SdfVoxel) -> (r: SdfVoxelTypeInfo)
        requires
            self.covers(voxel),
        ensures
            r == self.infos()[voxel.voxel_type.0 as int],
    {
        self.infos[voxel.voxel_type.0 as usize]
    }
}

impl SdfVoxelTypeInfo {
    pub fn is_empty(&self) -> (r: bool)
        ensures
            r == self.is_empty,
    {
        self.is_empty
    }

    pub fn material(&self) -> (r: VoxelMaterial)
        ensures
            r == self.material,
    {
        self.material
    }
}

} // verus!
