use cs_flythrough::cli::{parse_headless_args, ArgError, Flag, HeadlessArgs};

fn parse(args: &[&str]) -> Result<HeadlessArgs, ArgError> {
    let v: Vec<String> = args.iter().map(|s| s.to_string()).collect();
    parse_headless_args(&v)
}

fn floats(v: &Option<Vec<String>>) -> Option<Vec<f32>> {
    v.as_ref().map(|parts| parts.iter().map(|p| p.parse::<f32>().unwrap()).collect())
}

#[test]
fn test_headless_args_defaults() {
    let args = parse(&[]).unwrap();
    assert_eq!(args.frame_count, 1);
    assert_eq!(args.frame_step, 60);
    assert_eq!(args.width, 1920);
    assert_eq!(args.height, 1080);
    assert!(!args.walkthrough);
    assert!(args.camera_pos.is_none());
    assert!(args.camera_angle_deg.is_none());
    assert!(args.map.is_none());
    assert_eq!(args.output_dir, "./captures/");
}

#[test]
fn test_headless_args_resolution() {
    let args = parse(&["--resolution", "640x480"]).unwrap();
    assert_eq!(args.width, 640);
    assert_eq!(args.height, 480);
}

#[test]
fn test_headless_args_camera_pos() {
    let args = parse(&["--camera-pos", "1.0,2.5,-3.0"]).unwrap();
    assert_eq!(floats(&args.camera_pos), Some(vec![1.0, 2.5, -3.0]));
}

#[test]
fn test_headless_args_camera_angle() {
    let args = parse(&["--camera-angle", "90.0,0.0"]).unwrap();
    assert_eq!(floats(&args.camera_angle_deg), Some(vec![90.0, 0.0]));
}

#[test]
fn test_headless_args_walkthrough_and_frame_count() {
    let args = parse(&["--walkthrough", "--frame-count", "10", "--frame-step", "30"]).unwrap();
    assert!(args.walkthrough);
    assert_eq!(args.frame_count, 10);
    assert_eq!(args.frame_step, 30);
}

#[test]
fn test_headless_args_map_override() {
    let args = parse(&["--map", "cs_office"]).unwrap();
    assert_eq!(args.map.as_deref(), Some("cs_office"));
}

#[test]
fn test_headless_args_frame_count_zero_passes_parsing() {
    let args = parse(&["--frame-count", "0"]).unwrap();
    assert_eq!(args.frame_count, 0);
}

#[test]
fn test_headless_args_frame_step_zero_passes_parsing() {
    let args = parse(&["--frame-step", "0"]).unwrap();
    assert_eq!(args.frame_step, 0);
}

#[test]
fn test_headless_args_unknown_flag_errors() {
    assert!(parse(&["--bogus"]).is_err());
}

#[test]
fn test_headless_args_missing_value_errors() {
    assert!(parse(&["--output"]).is_err());
    assert!(parse(&["--frame-count"]).is_err());
}

#[test]
fn test_headless_args_camera_pos_wrong_count_errors() {
    assert!(parse(&["--camera-pos", "1.0,2.0"]).is_err());
}

#[test]
fn output_dir_and_trimmed_coordinates() {
    let args = parse(&["--output", "/tmp/shots", "--camera-pos", " 1 , 2 ,3 "]).unwrap();
    assert_eq!(args.output_dir, "/tmp/shots");
    assert_eq!(args.camera_pos, Some(vec!["1".to_string(), "2".to_string(), "3".to_string()]));
}

#[test]
fn missing_value_names_the_flag() {
    assert!(matches!(parse(&["--map"]), Err(ArgError::MissingValue(Flag::MapName))));
    assert!(matches!(parse(&["--resolution"]), Err(ArgError::MissingValue(Flag::Resolution))));
}

#[test]
fn invalid_float_reports_the_piece() {
    match parse(&["--camera-pos", "1,abc,3"]) {
        Err(ArgError::InvalidFloat { flag: Flag::CameraPos, part }) => assert_eq!(part, "abc"),
        _ => panic!("expected an invalid float"),
    }
}

#[test]
fn wrong_count_reports_the_count() {
    assert!(matches!(
        parse(&["--camera-angle", "1,2,3"]),
        Err(ArgError::WrongCount { flag: Flag::CameraAngle, count: 3 })
    ));
}

#[test]
fn bad_numbers_and_resolutions() {
    assert!(matches!(parse(&["--frame-count", "-1"]), Err(ArgError::InvalidNumber(Flag::FrameCount))));
    assert!(matches!(parse(&["--frame-step", "x"]), Err(ArgError::InvalidNumber(Flag::FrameStep))));
    assert!(matches!(parse(&["--resolution", "640"]), Err(ArgError::ResolutionFormat)));
    assert!(matches!(parse(&["--resolution", "ax480"]), Err(ArgError::InvalidWidth)));
    assert!(matches!(parse(&["--resolution", "640xb"]), Err(ArgError::InvalidHeight)));
    assert!(matches!(parse(&["--resolution", "640x480x2"]), Err(ArgError::InvalidHeight)));
}

#[test]
fn unknown_flag_reports_it() {
    match parse(&["--walkthrough", "--nope"]) {
        Err(ArgError::UnknownFlag(f)) => assert_eq!(f, "--nope"),
        _ => panic!("expected an unknown flag"),
    }
}

#[test]
fn later_flags_override_earlier() {
    let args = parse(&["--map", "a", "--map", "b", "--frame-count", "2", "--frame-count", "5"]).unwrap();
    assert_eq!(args.map.as_deref(), Some("b"));
    assert_eq!(args.frame_count, 5);
}

#[test]
fn error_messages_name_the_problem() {
    let msg = |a: &[&str]| parse(a).unwrap_err().message();
    assert_eq!(msg(&["--output"]), "--output requires a directory path");
    assert_eq!(msg(&["--camera-angle"]), "--camera-angle requires yaw,pitch (degrees)");
    assert_eq!(msg(&["--camera-pos", "1,x,2"]), "invalid float in --camera-pos: 'x'");
    assert_eq!(
        msg(&["--camera-pos", "1.0,2.0"]),
        "--camera-pos requires exactly 3 comma-separated values, got 2"
    );
    assert_eq!(
        msg(&["--camera-angle", "1,2,3"]),
        "--camera-angle requires exactly 2 comma-separated values, got 3"
    );
    assert_eq!(msg(&["--frame-count", "-1"]), "--frame-count must be a non-negative integer");
    assert_eq!(msg(&["--frame-step", "x"]), "--frame-step must be a positive integer");
    assert_eq!(msg(&["--resolution", "640"]), "--resolution must be WxH format (e.g. 1920x1080)");
    assert_eq!(msg(&["--resolution", "ax1"]), "invalid width in --resolution");
    assert_eq!(msg(&["--resolution", "1xb"]), "invalid height in --resolution");
    assert_eq!(msg(&["--bogus"]), "unknown flag: '--bogus'");
}
