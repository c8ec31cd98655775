use embed_anything_binding::backend::{
    finish_init, init_onnx_runtime, BackendState, InitStep, STATUS_FAILED, STATUS_OK,
};

fn path_of(step: InitStep) -> Option<String> {
    match step {
        InitStep::Load { path } => Some(path),
        InitStep::Finished { .. } => None,
    }
}

fn status_of(step: InitStep) -> Option<i32> {
    match step {
        InitStep::Load { .. } => None,
        InitStep::Finished { status } => Some(status),
    }
}

#[test]
fn statuses_are_zero_and_nonzero() {
    assert_eq!(STATUS_OK, 0);
    assert_eq!(STATUS_FAILED, 1);
}

#[test]
fn first_request_loads_the_decoded_path() {
    let state = BackendState::new();
    assert!(!state.configured);
    let step = init_onnx_runtime(&state, &Some(b"/usr/lib/libonnxruntime.so".to_vec()));
    assert_eq!(path_of(step), Some("/usr/lib/libonnxruntime.so".to_string()));
}

#[test]
fn null_path_fails() {
    let state = BackendState::new();
    assert_eq!(status_of(init_onnx_runtime(&state, &None)), Some(1));
}

#[test]
fn malformed_path_fails() {
    let state = BackendState::new();
    let step = init_onnx_runtime(&state, &Some(vec![b'/', b'l', 0xff, 0xfe]));
    assert_eq!(status_of(step), Some(1));
}

#[test]
fn successful_load_configures_the_backend() {
    let mut state = BackendState::new();
    assert_eq!(finish_init(&mut state, true), 0);
    assert!(state.configured);
}

#[test]
fn failed_load_leaves_the_backend_unconfigured() {
    let mut state = BackendState::new();
    assert_eq!(finish_init(&mut state, false), 1);
    assert!(!state.configured);
    let step = init_onnx_runtime(&state, &Some(b"lib.so".to_vec()));
    assert_eq!(path_of(step), Some("lib.so".to_string()));
    assert_eq!(finish_init(&mut state, true), 0);
    assert!(state.configured);
}

#[test]
fn second_initialisation_fails() {
    let mut state = BackendState::new();
    assert_eq!(finish_init(&mut state, true), 0);
    let step = init_onnx_runtime(&state, &Some(b"/usr/lib/libonnxruntime.so".to_vec()));
    assert_eq!(status_of(step), Some(1));
    assert_eq!(finish_init(&mut state, true), 1);
    assert!(state.configured);
    assert_eq!(finish_init(&mut state, false), 1);
    assert!(state.configured);
}
