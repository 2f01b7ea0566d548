use psychedelic::stills::{
    directory_arg, frame_file_name, number_arg, number_args, parse_count, Backend,
};

fn arguments(values: &[&str]) -> Vec<String> {
    values.iter().map(|value| value.to_string()).collect()
}

#[test]
fn arguments_fall_back_to_defaults() {
    let args = arguments(&["stills"]);
    let (seed, count, size) = number_args(&args).expect("request");
    assert_eq!(seed, 1);
    assert_eq!(count, 4);
    assert_eq!(size, 320);
    assert_eq!(directory_arg(&args), ".");
}

#[test]
fn numbers_and_directory_are_read_in_order() {
    let args = arguments(&["stills", "9", "2", "64", "/tmp/out"]);
    let (seed, count, size) = number_args(&args).expect("request");
    assert_eq!(seed, 9);
    assert_eq!(count, 2);
    assert_eq!(size, 64);
    assert_eq!(directory_arg(&args), "/tmp/out");
}

#[test]
fn an_argument_that_is_not_a_number_is_reported() {
    let error = number_args(&arguments(&["stills", "wat"])).expect_err("bad seed");
    assert_eq!(error, "seed must be a number, got wat");
}

#[test]
fn the_first_bad_argument_is_the_one_reported() {
    let error = number_args(&arguments(&["stills", "3", "many", "huge"])).expect_err("bad count");
    assert_eq!(error, "count must be a number, got many");
    let error = number_args(&arguments(&["stills", "3", "2", "-8"])).expect_err("bad size");
    assert_eq!(error, "size must be a number, got -8");
}

#[test]
fn counts_parse_as_the_standard_library_parses_them() {
    for text in ["0", "7", "+12", "00042", "18446744073709551615", "", "+", "-1", "1_000", " 5", "4x", "18446744073709551616", "٣"] {
        assert_eq!(parse_count(text), text.parse::<usize>().ok(), "{text:?}");
    }
}

#[test]
fn a_missing_argument_keeps_its_fallback() {
    let args = arguments(&["stills"]);
    assert_eq!(number_arg(&args, 7, "count", 9), Ok(9));
    assert_eq!(number_arg(&arguments(&["stills", "+5"]), 1, "seed", 1), Ok(5));
}

#[test]
fn frames_are_named_by_backend_and_padded_index() {
    assert_eq!(frame_file_name(Backend::Cpu, 0), "still-000.png");
    assert_eq!(frame_file_name(Backend::Cpu, 1), "still-001.png");
    assert_eq!(frame_file_name(Backend::Gpu, 0), "gpu-000.png");
    assert_eq!(frame_file_name(Backend::Gpu, 42), "gpu-042.png");
    assert_eq!(frame_file_name(Backend::Cpu, 1234), "still-1234.png");
}
