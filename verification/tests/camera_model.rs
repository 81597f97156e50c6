use toy_vo::camera_model::{
    camera_model_kind, check_generic_model, distortion_param_count, str_equal, CameraModelError,
    CameraModelKind,
};

#[test]
fn every_alias_selects_its_model() {
    let cases = [
        ("EUCM", CameraModelKind::EUCM),
        ("eucm", CameraModelKind::EUCM),
        ("UCM", CameraModelKind::UCM),
        ("ucm", CameraModelKind::UCM),
        ("OpenCVModel5", CameraModelKind::OpenCVModel5),
        ("opencv5", CameraModelKind::OpenCVModel5),
        ("OPENCV5", CameraModelKind::OpenCVModel5),
        ("KannalaBrandt4", CameraModelKind::KannalaBrandt4),
        ("kb4", CameraModelKind::KannalaBrandt4),
        ("KB4", CameraModelKind::KannalaBrandt4),
        ("FovCamera", CameraModelKind::FovCamera),
        ("fov_camera", CameraModelKind::FovCamera),
        ("FOV_CAMERA", CameraModelKind::FovCamera),
    ];
    for (name, kind) in cases {
        assert_eq!(camera_model_kind(name), Some(kind), "{}", name);
    }
}

#[test]
fn near_miss_names_select_nothing() {
    for name in ["Eucm", "ucm ", "", "KB", "kb44", "fovcamera", "OpenCV5", "pinhole"] {
        assert_eq!(camera_model_kind(name), None, "{}", name);
    }
}

#[test]
fn parameter_counts() {
    assert_eq!(distortion_param_count(CameraModelKind::EUCM), 2);
    assert_eq!(distortion_param_count(CameraModelKind::UCM), 1);
    assert_eq!(distortion_param_count(CameraModelKind::OpenCVModel5), 5);
    assert_eq!(distortion_param_count(CameraModelKind::KannalaBrandt4), 4);
    assert_eq!(distortion_param_count(CameraModelKind::FovCamera), 1);
}

#[test]
fn check_accepts_the_right_count() {
    assert_eq!(check_generic_model("eucm", 2), Ok(CameraModelKind::EUCM));
    assert_eq!(check_generic_model("UCM", 1), Ok(CameraModelKind::UCM));
    assert_eq!(check_generic_model("opencv5", 5), Ok(CameraModelKind::OpenCVModel5));
    assert_eq!(check_generic_model("KB4", 4), Ok(CameraModelKind::KannalaBrandt4));
    assert_eq!(check_generic_model("fov_camera", 1), Ok(CameraModelKind::FovCamera));
}

#[test]
fn check_rejects_a_wrong_count() {
    let e = check_generic_model("EUCM", 1).unwrap_err();
    assert_eq!(e, CameraModelError::WrongParameterCount { kind: CameraModelKind::EUCM, found: 1 });
    assert_eq!(e.message(), "EUCM requires 2 distortion parameters: [alpha, beta]");
    let e = check_generic_model("ucm", 0).unwrap_err();
    assert_eq!(e.message(), "UCM requires 1 distortion parameter: [alpha]");
    let e = check_generic_model("OPENCV5", 4).unwrap_err();
    assert_eq!(e.message(), "OpenCVModel5 requires 5 distortion parameters: [k1, k2, p1, p2, k3]");
    let e = check_generic_model("kb4", 5).unwrap_err();
    assert_eq!(e.message(), "KannalaBrandt4 requires 4 distortion parameters: [k1, k2, k3, k4]");
    let e = check_generic_model("FOV_CAMERA", 2).unwrap_err();
    assert_eq!(e, CameraModelError::WrongParameterCount { kind: CameraModelKind::FovCamera, found: 2 });
    assert_eq!(e.message(), "FovCamera requires 1 distortion parameter: [w]");
}

#[test]
fn check_rejects_an_unknown_name() {
    let e = check_generic_model("pinhole", 0).unwrap_err();
    assert_eq!(e, CameraModelError::UnknownModelName { name: "pinhole".to_string() });
    assert_eq!(
        e.message(),
        "Unknown model name: 'pinhole'. Supported: EUCM, UCM, OpenCVModel5, KannalaBrandt4, FovCamera"
    );
}

#[test]
fn string_equality() {
    assert!(str_equal("kb4", "kb4"));
    assert!(!str_equal("kb4", "KB4"));
    assert!(!str_equal("kb4", "kb"));
    assert!(str_equal("", ""));
}
