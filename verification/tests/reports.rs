use tensorpeek::json::Json;
use tensorpeek::report::{filter_match, Report, Tensor};

#[test]
fn numel_handles_scalars_and_zero_dims() {
    assert_eq!(Tensor::new("s", "f32", vec![], 0, 4).numel, 1);
    assert_eq!(Tensor::new("e", "f32", vec![0, 4], 0, 0).numel, 0);
    assert_eq!(Tensor::new("m", "f32", vec![2, 3, 4], 0, 96).numel, 24);
    // A hostile header whose dimension product exceeds u128 must
    // saturate, not panic with an arithmetic overflow.
    let hostile = Tensor::new("h", "f32", vec![u64::MAX; 4], 0, 0);
    assert_eq!(hostile.numel, u128::MAX);
}

#[test]
fn parameters_sum_uses_wide_arithmetic() {
    let mut r = Report::new("x", "safetensors", 0);
    // Two tensors that together overflow u64 element counts must not wrap.
    r.tensors
        .push(Tensor::new("a", "f32", vec![u64::MAX / 2, 3], 0, 0));
    r.tensors
        .push(Tensor::new("b", "f32", vec![u64::MAX / 2, 3], 0, 0));
    assert_eq!(r.parameters(), (u64::MAX / 2) as u128 * 3 * 2);
}

#[test]
fn json_shape_has_stable_top_level_keys() {
    let mut r = Report::new("m.npy", "npy", 100);
    r.tensors.push(Tensor::new("", "f32", vec![2, 3], 0, 24));
    let j = r.to_json(true, None);
    for key in [
        "file",
        "format",
        "file_bytes",
        "header_bytes",
        "data_bytes",
        "tensor_count",
        "parameters",
        "tensors",
    ] {
        assert!(j.get(key).is_some(), "missing key {key}");
    }
    assert!(
        j.get("problems").is_none(),
        "empty problems must be omitted"
    );
}

#[test]
fn filter_narrows_the_tensor_list_but_not_the_counts() {
    let mut r = Report::new("m.safetensors", "safetensors", 0);
    r.tensors
        .push(Tensor::new("fc1.weight", "f32", vec![8], 0, 32));
    r.tensors
        .push(Tensor::new("fc1.bias", "f32", vec![8], 32, 32));
    r.tensors
        .push(Tensor::new("fc2.weight", "f32", vec![8], 64, 32));
    let j = r.to_json(true, Some("*.weight"));
    assert_eq!(j.get("tensors").and_then(Json::as_arr).unwrap().len(), 2);
    assert_eq!(j.get("tensor_count").and_then(Json::as_int), Some(3));
}

#[test]
fn glob_star_question_alternatives_and_backtracking() {
    assert!(filter_match("blk.*.weight", "blk.31.attn_q.weight"));
    assert!(filter_match("fc?.bias", "fc1.bias"));
    assert!(!filter_match("fc?.bias", "fc10.bias"));
    assert!(filter_match("*.bias,*.weight", "fc1.weight"));
    assert!(filter_match("*", ""));
    assert!(!filter_match("", "x"));
    // Multiple stars require backtracking, not greedy first-match.
    assert!(filter_match("*attn*weight", "blk.0.attn_output.weight"));
    assert!(!filter_match("*attn*weight", "blk.0.ffn_down.weight"));
}
