use tensorpeek::render::{human_bytes, human_count, tensor_table};
use tensorpeek::report::{Report, Tensor};

#[test]
fn columns_line_up_across_rows() {
    let mut r = Report::new("m.safetensors", "safetensors", 0);
    r.tensors
        .push(Tensor::new("embed.weight", "f32", vec![32, 8], 0, 1024));
    r.tensors.push(Tensor::new("b", "bf16", vec![], 1024, 2));
    let table = tensor_table(&r, None);
    let lines: Vec<&str> = table.lines().collect();
    let col = lines[1].find("DTYPE").unwrap();
    assert_eq!(lines[2].find("f32"), Some(col));
    assert_eq!(lines[3].find("bf16"), Some(col));
    assert!(lines[3].starts_with("b "), "short names are padded");
    assert!(lines[3].contains("scalar"));
}

#[test]
fn unnamed_npy_tensor_renders_a_dash_and_problems_are_appended() {
    let mut r = Report::new("a.npy", "npy", 0);
    r.tensors.push(Tensor::new("", "f32", vec![3], 0, 12));
    r.problems.push("something is off".into());
    let table = tensor_table(&r, None);
    assert!(
        table.contains("1 tensor ·"),
        "singular, not '1 tensors': {table}"
    );
    assert!(
        table
            .lines()
            .any(|l| l.starts_with("-  ") || l.starts_with("-    ")),
        "table:\n{table}"
    );
    assert!(table.contains("problem: something is off"));
}

#[test]
fn humanizers_cover_the_boundaries() {
    assert_eq!(human_bytes(0), "0 B");
    assert_eq!(human_bytes(1023), "1023 B");
    assert_eq!(human_bytes(1024), "1.0 KiB");
    assert_eq!(human_bytes(17_408), "17.0 KiB");
    assert_eq!(human_bytes(5 * 1024 * 1024 * 1024), "5.0 GiB");
    assert_eq!(human_count(999), "999");
    assert_eq!(human_count(124_400_000), "124.4 M");
    assert_eq!(human_count(7_240_000_000), "7.2 B");
}
