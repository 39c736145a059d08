use record_lines::{parse_line, records, split_fields, MalformedLine, Parsed, Record};

fn record(name: &str, length: &str) -> Record {
    Record { name: name.to_string(), length: length.to_string() }
}

#[test]
fn fields_are_cut_at_commas_and_trimmed() {
    assert_eq!(split_fields(" Little penguin , 33 "), vec!["Little penguin", "33"]);
    assert_eq!(split_fields("a,b,c"), vec!["a", "b", "c"]);
}

#[test]
fn fields_of_a_line_without_comma() {
    assert_eq!(split_fields("  no comma here "), vec!["no comma here"]);
    assert_eq!(split_fields(""), vec![""]);
    assert_eq!(split_fields("   "), vec![""]);
}

#[test]
fn fields_may_be_empty() {
    assert_eq!(split_fields(" , ,"), vec!["", "", ""]);
}

#[test]
fn fields_agree_with_std() {
    for line in ["a,b", " a , b ", ",", "", "x", "\u{3000}a\u{3000},\tb\r", "a,b,c,d"] {
        let expected: Vec<String> = line.split(',').map(|f| f.trim().to_string()).collect();
        assert_eq!(split_fields(line), expected, "{:?}", line);
    }
}

#[test]
fn a_data_line_is_a_record() {
    assert_eq!(parse_line(1, "Little penguin,33"), Parsed::Record(record("Little penguin", "33")));
    assert_eq!(parse_line(7, "Invalid,data"), Parsed::Record(record("Invalid", "data")));
}

#[test]
fn the_fields_of_a_record_are_trimmed() {
    assert_eq!(
        parse_line(2, "    Yellow-eyed penguin ,\t65  "),
        Parsed::Record(record("Yellow-eyed penguin", "65"))
    );
}

#[test]
fn fields_after_the_second_are_left_out() {
    assert_eq!(parse_line(1, "a,1,b,2"), Parsed::Record(record("a", "1")));
}

#[test]
fn line_zero_is_skipped_whatever_it_holds() {
    assert_eq!(parse_line(0, "common name,length (cm)"), Parsed::Skipped);
    assert_eq!(parse_line(0, "Little penguin,33"), Parsed::Skipped);
    assert_eq!(parse_line(0, "no comma"), Parsed::Skipped);
    assert_eq!(parse_line(0, ""), Parsed::Skipped);
}

#[test]
fn a_blank_line_is_skipped() {
    assert_eq!(parse_line(1, ""), Parsed::Skipped);
    assert_eq!(parse_line(3, "    "), Parsed::Skipped);
    assert_eq!(parse_line(3, "\t\u{3000}\r"), Parsed::Skipped);
}

#[test]
fn a_line_of_one_field_is_malformed() {
    assert_eq!(parse_line(1, "Little penguin"), Parsed::Malformed);
    assert_eq!(parse_line(1, " 33 "), Parsed::Malformed);
}

#[test]
fn a_line_of_empty_fields_is_a_record() {
    assert_eq!(parse_line(1, ","), Parsed::Record(record("", "")));
    assert_eq!(parse_line(1, " , "), Parsed::Record(record("", "")));
}

#[test]
fn records_of_a_block() {
    let text = "common name,length (cm)\nLittle penguin,33\nYellow-eyed penguin,65\n";
    assert_eq!(
        records(text),
        Ok(vec![record("Little penguin", "33"), record("Yellow-eyed penguin", "65")])
    );
}

#[test]
fn records_keep_lengths_that_are_no_numbers() {
    let text = "name,length\nInvalid,data\nFiordland penguin,60";
    assert_eq!(records(text), Ok(vec![record("Invalid", "data"), record("Fiordland penguin", "60")]));
}

#[test]
fn records_of_an_indented_block() {
    let text = "common name,length (cm)\n    Little penguin,33\n    Invalid,data\n    ";
    assert_eq!(records(text), Ok(vec![record("Little penguin", "33"), record("Invalid", "data")]));
}

#[test]
fn records_of_a_block_with_carriage_returns() {
    let text = "name,length\r\nLittle penguin,33\r\n\r\nFiordland penguin,60\r";
    assert_eq!(
        records(text),
        Ok(vec![record("Little penguin", "33"), record("Fiordland penguin", "60")])
    );
}

#[test]
fn a_block_without_data_lines_holds_no_record() {
    assert_eq!(records("common name,length (cm)"), Ok(vec![]));
    assert_eq!(records("common name,length (cm)\n"), Ok(vec![]));
    assert_eq!(records("no comma in the header\n"), Ok(vec![]));
    assert_eq!(records(""), Ok(vec![]));
    assert_eq!(records("\n"), Ok(vec![]));
}

#[test]
fn a_block_of_blank_lines_holds_no_record() {
    assert_eq!(records("header\n\n   \n\t\n"), Ok(vec![]));
}

#[test]
fn the_header_does_not_matter() {
    let rest = "Little penguin,33\nFiordland penguin,60\n";
    let expected = Ok(vec![record("Little penguin", "33"), record("Fiordland penguin", "60")]);
    for header in ["common name,length (cm)", "", "Emperor penguin,110", "x", " , ,"] {
        assert_eq!(records(&format!("{}\n{}", header, rest)), expected, "{:?}", header);
    }
}

#[test]
fn a_blank_last_line_does_not_matter() {
    assert_eq!(records("header\na,1\n   "), records("header\na,1\n"));
    assert_eq!(records("header\nbad\n\t"), Err(MalformedLine { line: 1 }));
}

#[test]
fn a_blank_line_does_not_matter() {
    let with = "header\nLittle penguin,33\n  \t \nFiordland penguin,60\n";
    let without = "header\nLittle penguin,33\nFiordland penguin,60\n";
    assert_eq!(records(with), records(without));
    assert_eq!(records("header\nbad\n \nworse\n"), Err(MalformedLine { line: 1 }));
}

#[test]
fn the_first_malformed_line_is_named() {
    let text = "header\nLittle penguin,33\n\nno comma\nFiordland penguin,60\nnone either\n";
    assert_eq!(records(text), Err(MalformedLine { line: 3 }));
}

#[test]
fn a_malformed_header_is_no_fault() {
    assert_eq!(records("header without comma\na,1"), Ok(vec![record("a", "1")]));
}

#[test]
fn parsing_twice_gives_the_same_records() {
    let text = "common name,length (cm)\nLittle penguin,33\nInvalid,data\n";
    assert_eq!(records(text), records(text));
    assert_eq!(parse_line(1, "a, b"), parse_line(1, "a, b"));
}
