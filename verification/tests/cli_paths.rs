use boxpacker::cli::{html_output_path, Cli, SearchPreset, DEFAULT_INPUT_PATH, DEFAULT_OUTPUT_PATH};

#[test]
fn derives_html_path_from_json_output() {
    assert_eq!(html_output_path("results/packing.json"), "results/packing.html".to_owned());
}

#[test]
fn derives_html_path_when_output_has_no_extension() {
    assert_eq!(html_output_path("results/packing"), "results/packing.html".to_owned());
}

#[test]
fn derives_html_path_for_other_extensions_and_defaults() {
    assert_eq!(html_output_path("results/packed.data"), "results/packed.html".to_owned());
    let cli = Cli {
        input: DEFAULT_INPUT_PATH.to_owned(),
        output: DEFAULT_OUTPUT_PATH.to_owned(),
        preset: SearchPreset::Balanced,
        time_limit: None,
        seed: 0,
        threads: 1,
    };
    assert_eq!(cli.html_output_path(), "output.html".to_owned());
    assert_eq!(DEFAULT_INPUT_PATH, "input.json");
}
