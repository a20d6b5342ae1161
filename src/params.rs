use vstd::prelude::*;

verus! {

/// Bit-extraction rule of the perceptual hash.
#[derive(Clone, Copy, Debug, PartialEq, Eq, Structural)]
pub enum HashAlgorithm {
    Gradient,
    DoubleGradient,
    VertGradient,
    Blockhash,
    Mean,
}

/// Resampling filter used when shrinking an image to the hash resolution.
#[derive(Clone, Copy, Debug, PartialEq, Eq, Structural)]
pub enum ResizeFilter {
    Lanczos3,
    Gaussian,
    Nearest,
}

/// Which geometric variants of each image are hashed and cross-compared.
#[derive(Clone, Copy, Debug, PartialEq, Eq, Structural)]
pub enum GeometricInvariance {
    Off,
    MirrorFlip,
    MirrorFlipRotate90,
}

/// One element of the dihedral group of the square: a clockwise rotation by
/// `quarter_turns` right angles, followed by a horizontal mirror when `mirrored`.
#[derive(Clone, Copy, Debug, PartialEq, Eq, Structural)]
pub struct Transform {
    pub quarter_turns: u8,
    pub mirrored: bool,
}

impl Transform {
    pub open spec fn wf(self) -> bool {
        self.quarter_turns < 4
    }
}

/// The transforms that `mode` asks for, in the order in which they are hashed.
pub open spec fn transforms_of(mode: GeometricInvariance) -> Seq<Transform> {
    match mode {
        GeometricInvariance::Off => seq![Transform { quarter_turns: 0, mirrored: false }],
        GeometricInvariance::MirrorFlip => seq![
            Transform { quarter_turns: 0, mirrored: false },
            Transform { quarter_turns: 0, mirrored: true },
        ],
        GeometricInvariance::MirrorFlipRotate90 => Seq::new(
            8,
            |i: int| Transform { quarter_turns: (i / 2) as u8, mirrored: i % 2 == 1 },
        ),
    }
}

/// The hash variants required by `mode`: the identity alone, the identity and
/// its mirror, or all eight rotations and mirrors.
pub fn variant_transforms(mode: GeometricInvariance) -> (r: Vec<Transform>)
    ensures
        r@ == transforms_of(mode),
        forall|i: int| 0 <= i < r@.len() ==> (#[trigger] r@[i]).wf(),
{
    let mut r: Vec<Transform> = Vec::new();
    match mode {
        GeometricInvariance::Off => {
            r.push(Transform { quarter_turns: 0, mirrored: false });
            assert(r@ =~= transforms_of(mode));
        },
        GeometricInvariance::MirrorFlip => {
            r.push(Transform { quarter_turns: 0, mirrored: false });
            r.push(Transform { quarter_turns: 0, mirrored: true });
            assert(r@ =~= transforms_of(mode));
        },
        GeometricInvariance::MirrorFlipRotate90 => {
            let mut k: u8 = 0;
            while k < 8
                invariant
                    k <= 8,
                    r@.len() == k as int,
                    forall|i: int|
                        0 <= i < k ==> #[trigger] r@[i] == (Transform {
                            quarter_turns: (i / 2) as u8,
                            mirrored: i % 2 == 1,
                        }),
                decreases 8 - k,
            {
                r.push(Transform { quarter_turns: k / 2, mirrored: k % 2 == 1 });
                k = k + 1;
            }
            assert(r@ =~= transforms_of(mode));
        },
    }
    r
}

/// Settings of one run; immutable while it lasts.
#[derive(Clone, Copy, Debug, PartialEq, Eq, Structural)]
pub struct SimilarImagesParameters {
    pub similarity: u32,
    pub hash_size: u8,
    pub hash_alg: HashAlgorithm,
    pub image_filter: ResizeFilter,
    pub exclude_images_with_same_size: bool,
    pub geometric_invariance: GeometricInvariance,
}

impl SimilarImagesParameters {
    pub fn new(
        similarity: u32,
        hash_size: u8,
        hash_alg: HashAlgorithm,
        image_filter: ResizeFilter,
        exclude_images_with_same_size: bool,
        geometric_invariance: GeometricInvariance,
    ) -> (r: Self)
        ensures
            r == (SimilarImagesParameters {
                similarity,
                hash_size,
                hash_alg,
                image_filter,
                exclude_images_with_same_size,
                geometric_invariance,
            }),
    {
        SimilarImagesParameters {
            similarity,
            hash_size,
            hash_alg,
            image_filter,
            exclude_images_with_same_size,
            geometric_invariance,
        }
    }
}

} // verus!
