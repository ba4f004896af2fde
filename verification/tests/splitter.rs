use native_manners::splitter::{
    find_delimiter, split_candidates_list, split_record, split_strings, split_values, InputValue,
    SplitError, SplitResult, DELIMITER,
};

fn strings(items: &[&str]) -> Vec<String> {
    let mut v: Vec<String> = Vec::new();
    for s in items {
        v.push((*s).to_string());
    }
    v
}

fn split_ok(items: &[&str]) -> SplitResult {
    match split_strings(&strings(items)) {
        Ok(res) => res,
        Err(e) => panic!("unexpected error: {:?}", e),
    }
}

#[test]
fn delimiter_is_colon() {
    assert_eq!(DELIMITER, ':');
}

#[test]
fn single_record_with_payload() {
    let res = split_ok(&["abc123:candidateA"]);
    assert_eq!(res.identifiers, strings(&["abc123"]));
    assert_eq!(res.payloads, strings(&["candidateA"]));
}

#[test]
fn payload_keeps_later_delimiters() {
    let res = split_ok(&["u1:a:b:c"]);
    assert_eq!(res.identifiers, strings(&["u1"]));
    assert_eq!(res.payloads, strings(&["a:b:c"]));
}

#[test]
fn three_records_in_order() {
    let res = split_ok(&["u1:x", "u2:y", "u3:z"]);
    assert_eq!(res.identifiers, strings(&["u1", "u2", "u3"]));
    assert_eq!(res.payloads, strings(&["x", "y", "z"]));
}

#[test]
fn record_without_delimiter() {
    let res = split_ok(&["noDelimiterHere"]);
    assert_eq!(res.identifiers, strings(&["noDelimiterHere"]));
    assert_eq!(res.payloads, strings(&[""]));
}

#[test]
fn empty_input_rejected() {
    let records: Vec<String> = Vec::new();
    assert_eq!(split_strings(&records).unwrap_err(), SplitError::EmptyInput);
    let values: Vec<InputValue> = Vec::new();
    assert_eq!(split_values(&values).unwrap_err(), SplitError::EmptyInput);
    assert_eq!(
        split_candidates_list(Some(&values)).unwrap_err(),
        SplitError::EmptyInput
    );
}

#[test]
fn non_text_element_rejected() {
    let values = vec![
        InputValue::Text("u1:x".to_string()),
        InputValue::Other,
        InputValue::Text("u3:z".to_string()),
    ];
    assert_eq!(
        split_values(&values).unwrap_err(),
        SplitError::InvalidRecordEncoding { index: 1 }
    );
}

#[test]
fn first_non_text_element_is_reported() {
    let values = vec![InputValue::Other, InputValue::Other];
    assert_eq!(
        split_values(&values).unwrap_err(),
        SplitError::InvalidRecordEncoding { index: 0 }
    );
}

#[test]
fn missing_argument_rejected() {
    assert_eq!(
        split_candidates_list(None).unwrap_err(),
        SplitError::MissingArgument
    );
}

#[test]
fn candidates_list_success() {
    let values = vec![
        InputValue::Text("u1:x".to_string()),
        InputValue::Text("u2:y".to_string()),
    ];
    let res = split_candidates_list(Some(&values)).unwrap();
    assert_eq!(res.identifiers, strings(&["u1", "u2"]));
    assert_eq!(res.payloads, strings(&["x", "y"]));
}

#[test]
fn splitting_twice_gives_identical_outputs() {
    let input = strings(&["u1:a:b", "noDelim", ":x", "y:"]);
    let first = split_strings(&input).unwrap();
    let second = split_strings(&input).unwrap();
    assert_eq!(first.identifiers, second.identifiers);
    assert_eq!(first.payloads, second.payloads);
}

#[test]
fn outputs_are_aligned_with_input() {
    let input = strings(&["a:1", "b", "c:2:3", ":", ""]);
    let res = split_strings(&input).unwrap();
    assert_eq!(res.identifiers.len(), input.len());
    assert_eq!(res.payloads.len(), input.len());
}

#[test]
fn records_with_a_delimiter_reconstruct() {
    let input = strings(&["abc123:candidateA", "u1:a:b:c", ":", "x:", ":y", "::"]);
    let res = split_strings(&input).unwrap();
    for i in 0..input.len() {
        let rebuilt = format!("{}:{}", res.identifiers[i], res.payloads[i]);
        assert_eq!(rebuilt, input[i]);
    }
}

#[test]
fn permuting_input_permutes_outputs_identically() {
    let forward = strings(&["u1:x", "u2:y", "u3:z"]);
    let backward = strings(&["u3:z", "u2:y", "u1:x"]);
    let res_f = split_strings(&forward).unwrap();
    let res_b = split_strings(&backward).unwrap();
    for i in 0..3 {
        assert_eq!(res_b.identifiers[i], res_f.identifiers[2 - i]);
        assert_eq!(res_b.payloads[i], res_f.payloads[2 - i]);
    }
}

#[test]
fn delimiter_edge_cases() {
    assert_eq!(split_record(""), ("".to_string(), "".to_string()));
    assert_eq!(split_record(":"), ("".to_string(), "".to_string()));
    assert_eq!(split_record("::"), ("".to_string(), ":".to_string()));
    assert_eq!(split_record(":x"), ("".to_string(), "x".to_string()));
    assert_eq!(split_record("x:"), ("x".to_string(), "".to_string()));
    assert_eq!(split_record("x"), ("x".to_string(), "".to_string()));
}

#[test]
fn split_record_is_not_byte_indexed() {
    let (identifier, payload) = split_record("ß日:本:語");
    assert_eq!(identifier, "ß日".to_string());
    assert_eq!(payload, "本:語".to_string());
}

#[test]
fn find_delimiter_returns_first_occurrence() {
    assert_eq!(find_delimiter("abc123:candidateA"), 6);
    assert_eq!(find_delimiter("u1:a:b:c"), 2);
    assert_eq!(find_delimiter(":head"), 0);
    assert_eq!(find_delimiter("noDelimiterHere"), 15);
    assert_eq!(find_delimiter(""), 0);
}

#[test]
fn error_messages() {
    assert_eq!(
        SplitError::MissingArgument.message(),
        "Argument 1 must be passed"
    );
    assert_eq!(
        SplitError::EmptyInput.message(),
        "Candidates list must not be empty"
    );
    assert_eq!(
        SplitError::InvalidRecordEncoding { index: 2 }.message(),
        "Candidates list element is not a text value"
    );
}
