//! Choice of a camera intrinsic model from its name, and the check of the
//! number of distortion parameters that the model takes.
use vstd::prelude::*;

verus! {

/// The camera models that can be configured by name.
#[derive(Clone, Copy, Debug, PartialEq, Eq, Structural)]
pub enum CameraModelKind {
    /// Extended unified camera model: `[alpha, beta]`.
    EUCM,
    /// Unified camera model: `[alpha]`.
    UCM,
    /// OpenCV radial-tangential model: `[k1, k2, p1, p2, k3]`.
    OpenCVModel5,
    /// Kannala-Brandt fisheye model: `[k1, k2, k3, k4]`.
    KannalaBrandt4,
    /// Field-of-view model: `[w]`.
    FovCamera,
}

/// Why a camera model could not be configured.
#[derive(Debug, PartialEq, Eq)]
pub enum CameraModelError {
    /// The model is known but got the wrong number of distortion parameters.
    WrongParameterCount { kind: CameraModelKind, found: usize },
    /// No model has this name.
    UnknownModelName { name: String },
}

/// The model that a name selects: each model has its own name, and a lower-case
/// alias (and an upper-case one for the last three).
pub open spec fn spec_model_kind(name: Seq<char>) -> Option<CameraModelKind> {
    if name == "EUCM"@ || name == "eucm"@ {
        Some(CameraModelKind::EUCM)
    } else if name == "UCM"@ || name == "ucm"@ {
        Some(CameraModelKind::UCM)
    } else if name == "OpenCVModel5"@ || name == "opencv5"@ || name == "OPENCV5"@ {
        Some(CameraModelKind::OpenCVModel5)
    } else if name == "KannalaBrandt4"@ || name == "kb4"@ || name == "KB4"@ {
        Some(CameraModelKind::KannalaBrandt4)
    } else if name == "FovCamera"@ || name == "fov_camera"@ || name == "FOV_CAMERA"@ {
        Some(CameraModelKind::FovCamera)
    } else {
        None
    }
}

/// The number of distortion parameters that each model takes.
pub open spec fn spec_param_count(kind: CameraModelKind) -> usize {
    match kind {
        CameraModelKind::EUCM => 2,
        CameraModelKind::UCM => 1,
        CameraModelKind::OpenCVModel5 => 5,
        CameraModelKind::KannalaBrandt4 => 4,
        CameraModelKind::FovCamera => 1,
    }
}

/// The outcome of configuring model `name` with `n_params` distortion parameters.
pub open spec fn spec_check_model(name: Seq<char>, n_params: usize) -> Result<
    CameraModelKind,
    (Option<CameraModelKind>, usize),
> {
    match spec_model_kind(name) {
        Some(kind) => if n_params == spec_param_count(kind) {
            Ok(kind)
        } else {
            Err((Some(kind), n_params))
        },
        None => Err((None, n_params)),
    }
}

/// The message reported for each error.
pub open spec fn spec_error_message(e: CameraModelError) -> Seq<char> {
    match e {
        CameraModelError::WrongParameterCount { kind, .. } => match kind {
            CameraModelKind::EUCM => "EUCM requires 2 distortion parameters: [alpha, beta]"@,
            CameraModelKind::UCM => "UCM requires 1 distortion parameter: [alpha]"@,
            CameraModelKind::OpenCVModel5 =>
                "OpenCVModel5 requires 5 distortion parameters: [k1, k2, p1, p2, k3]"@,
            CameraModelKind::KannalaBrandt4 =>
                "KannalaBrandt4 requires 4 distortion parameters: [k1, k2, k3, k4]"@,
            CameraModelKind::FovCamera => "FovCamera requires 1 distortion parameter: [w]"@,
        },
        CameraModelError::UnknownModelName { name } => "Unknown model name: '"@ + name@
            + "'. Supported: EUCM, UCM, OpenCVModel5, KannalaBrandt4, FovCamera"@,
    }
}

/// A known model is accepted with exactly its number of distortion
/// parameters (two for EUCM, one for UCM, five for OpenCVModel5, four for
/// KannalaBrandt4, one for FovCamera); any other number is reported as a
/// wrong count of that model, and an unknown name is reported as such.
pub proof fn lemma_model_check_counts(name: Seq<char>, n_params: usize)
    ensures
        spec_check_model(name, n_params) matches Ok(kind) ==> n_params == match kind {
            CameraModelKind::EUCM => 2usize,
            CameraModelKind::UCM => 1usize,
            CameraModelKind::OpenCVModel5 => 5usize,
            CameraModelKind::KannalaBrandt4 => 4usize,
            CameraModelKind::FovCamera => 1usize,
        },
        forall|kind: CameraModelKind|
            spec_model_kind(name) == Some(kind) && n_params != match kind {
            CameraModelKind::EUCM => 2usize,
            CameraModelKind::UCM => 1usize,
            CameraModelKind::OpenCVModel5 => 5usize,
            CameraModelKind::KannalaBrandt4 => 4usize,
            CameraModelKind::FovCamera => 1usize,
        } ==> spec_check_model(name, n_params) == Err::<
            CameraModelKind,
            (Option<CameraModelKind>, usize),
        >((Some(kind), n_params)),
        spec_model_kind(name) is None ==> spec_check_model(name, n_params) == Err::<
            CameraModelKind,
            (Option<CameraModelKind>, usize),
        >((None, n_params)),
{
}

/// Do two strings hold the same characters?
pub fn str_equal(a: &str, b: &str) -> (same: bool)
    ensures
        same == (a@ == b@),
{
    let n = a.unicode_len();
    if n != b.unicode_len() {
        return false;
    }
    let mut i: usize = 0;
    while i < n
        invariant
            n == a@.len(),
            n == b@.len(),
            i <= n,
            forall|j: int| 0 <= j < i ==> a@[j] == b@[j],
        decreases n - i,
    {
        if a.get_char(i) != b.get_char(i) {
            return false;
        }
        i += 1;
    }
    assert(a@ =~= b@);
    true
}

/// The camera model selected by `model_name`, if any.
pub fn camera_model_kind(model_name: &str) -> (kind: Option<CameraModelKind>)
    ensures
        kind == spec_model_kind(model_name@),
{
    if str_equal(model_name, "EUCM") || str_equal(model_name, "eucm") {
        Some(CameraModelKind::EUCM)
    } else if str_equal(model_name, "UCM") || str_equal(model_name, "ucm") {
        Some(CameraModelKind::UCM)
    } else if str_equal(model_name, "OpenCVModel5") || str_equal(model_name, "opencv5")
        || str_equal(model_name, "OPENCV5") {
        Some(CameraModelKind::OpenCVModel5)
    } else if str_equal(model_name, "KannalaBrandt4") || str_equal(model_name, "kb4")
        || str_equal(model_name, "KB4") {
        Some(CameraModelKind::KannalaBrandt4)
    } else if str_equal(model_name, "FovCamera") || str_equal(model_name, "fov_camera")
        || str_equal(model_name, "FOV_CAMERA") {
        Some(CameraModelKind::FovCamera)
    } else {
        None
    }
}

/// The number of distortion parameters that `kind` takes.
pub fn distortion_param_count(kind: CameraModelKind) -> (n: usize)
    ensures
        n == spec_param_count(kind),
{
    match kind {
        CameraModelKind::EUCM => 2,
        CameraModelKind::UCM => 1,
        CameraModelKind::OpenCVModel5 => 5,
        CameraModelKind::KannalaBrandt4 => 4,
        CameraModelKind::FovCamera => 1,
    }
}

/// Checks that `model_name` names a camera model and that `n_params`
/// distortion parameters are what that model takes.
pub fn check_generic_model(model_name: &str, n_params: usize) -> (r: Result<
    CameraModelKind,
    CameraModelError,
>)
    ensures
        match r {
            Ok(kind) => spec_check_model(model_name@, n_params) == Ok::<
                CameraModelKind,
                (Option<CameraModelKind>, usize),
            >(kind),
            Err(CameraModelError::WrongParameterCount { kind, found }) => spec_check_model(
                model_name@,
                n_params,
            ) == Err::<CameraModelKind, (Option<CameraModelKind>, usize)>((Some(kind), found)),
            Err(CameraModelError::UnknownModelName { name }) => name@ == model_name@
                && spec_check_model(model_name@, n_params) == Err::<
                CameraModelKind,
                (Option<CameraModelKind>, usize),
            >((None, n_params)),
        },
        r matches Ok(kind) ==> n_params == match kind {
            CameraModelKind::EUCM => 2usize,
            CameraModelKind::UCM => 1usize,
            CameraModelKind::OpenCVModel5 => 5usize,
            CameraModelKind::KannalaBrandt4 => 4usize,
            CameraModelKind::FovCamera => 1usize,
        },
        forall|kind: CameraModelKind|
            spec_model_kind(model_name@) == Some(kind) ==> (r is Ok <==> n_params == match kind {
            CameraModelKind::EUCM => 2usize,
            CameraModelKind::UCM => 1usize,
            CameraModelKind::OpenCVModel5 => 5usize,
            CameraModelKind::KannalaBrandt4 => 4usize,
            CameraModelKind::FovCamera => 1usize,
        }),
        forall|kind: CameraModelKind|
            spec_model_kind(model_name@) == Some(kind) && r is Err ==> r == Err::<
            CameraModelKind,
            CameraModelError,
        >(CameraModelError::WrongParameterCount { kind, found: n_params }),
{
    match camera_model_kind(model_name) {
        Some(kind) => {
            if n_params == distortion_param_count(kind) {
                Ok(kind)
            } else {
                Err(CameraModelError::WrongParameterCount { kind, found: n_params })
            }
        },
        None => Err(CameraModelError::UnknownModelName { name: String::from_str(model_name) }),
    }
}

impl CameraModelError {
    /// The message that describes this error.
    pub fn message(&self) -> (msg: String)
        ensures
            msg@ == spec_error_message(*self),
    {
        match self {
            CameraModelError::WrongParameterCount { kind, .. } => match kind {
                CameraModelKind::EUCM => String::from_str(
                    "EUCM requires 2 distortion parameters: [alpha, beta]",
                ),
                CameraModelKind::UCM => String::from_str(
                    "UCM requires 1 distortion parameter: [alpha]",
                ),
                CameraModelKind::OpenCVModel5 => String::from_str(
                    "OpenCVModel5 requires 5 distortion parameters: [k1, k2, p1, p2, k3]",
                ),
                CameraModelKind::KannalaBrandt4 => String::from_str(
                    "KannalaBrandt4 requires 4 distortion parameters: [k1, k2, k3, k4]",
                ),
                CameraModelKind::FovCamera => String::from_str(
                    "FovCamera requires 1 distortion parameter: [w]",
                ),
            },
            CameraModelError::UnknownModelName { name } => {
                let mut msg = String::from_str("Unknown model name: '");
                msg.append(name.as_str());
                msg.append("'. Supported: EUCM, UCM, OpenCVModel5, KannalaBrandt4, FovCamera");
                msg
            },
        }
    }
}

} // verus!
