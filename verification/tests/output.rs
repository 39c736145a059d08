use record_lines::{emit, format_record, lines, parse_line, records, render, Parsed, Record};

const PENGUINS: &str = "\
    common name,length (cm)
    Little penguin,33
    Yellow-eyed penguin,65
    Fiordland penguin,60
    Invalid,data
    ";

fn read(length: &str) -> Option<String> {
    length.parse::<f32>().ok().map(|value| value.to_string())
}

fn output(text: &str) -> Vec<String> {
    let found = records(text).unwrap();
    let readings: Vec<Option<String>> = found.iter().map(|r| read(&r.length)).collect();
    render(&found, &readings)
}

fn output_line_by_line(text: &str) -> Vec<String> {
    let mut out = Vec::new();
    for (index, line) in lines(text).iter().enumerate() {
        match parse_line(index, line) {
            Parsed::Record(record) => {
                let reading = read(&record.length);
                out.extend(emit(&record, reading.as_deref()));
            }
            Parsed::Skipped => {}
            Parsed::Malformed => panic!("line {} has fewer than two fields", index),
        }
    }
    out
}

#[test]
fn one_record_gives_one_line() {
    let out = output("common name,length (cm)\nLittle penguin,33\n");
    assert_eq!(out, vec!["Little penguin, 33cm"]);
}

#[test]
fn the_penguins() {
    let expected = vec!["Little penguin, 33cm", "Yellow-eyed penguin, 65cm", "Fiordland penguin, 60cm"];
    assert_eq!(output(PENGUINS), expected);
    assert_eq!(output_line_by_line(PENGUINS), expected);
}

#[test]
fn the_header_is_never_written() {
    assert_eq!(output("Emperor penguin,110\nLittle penguin,33\n"), vec!["Little penguin, 33cm"]);
    assert_eq!(output("Emperor penguin,110\n"), Vec::<String>::new());
    assert_eq!(output("Emperor penguin,110"), Vec::<String>::new());
    assert_eq!(output("1,2\n3,4"), vec!["3, 4cm"]);
}

#[test]
fn a_length_that_is_no_number_gives_no_line() {
    assert_eq!(output("header\nInvalid,data"), Vec::<String>::new());
    assert_eq!(output("header\nInvalid,data\nLittle penguin,33"), vec!["Little penguin, 33cm"]);
    assert_eq!(output("header\na,\nb, \nc,12cm\nd,1 2"), Vec::<String>::new());
}

#[test]
fn a_blank_line_gives_no_line() {
    assert_eq!(output("header\n\nLittle penguin,33\n   \n\t\n"), vec!["Little penguin, 33cm"]);
    assert_eq!(output("header\n\n\n"), Vec::<String>::new());
}

#[test]
fn fields_are_trimmed_before_they_are_read_and_written() {
    assert_eq!(output("header\n   Little penguin  ,   33  \n"), vec!["Little penguin, 33cm"]);
    assert_eq!(output("header\n\tFiordland penguin\t,\t60\r\n"), vec!["Fiordland penguin, 60cm"]);
    assert_eq!(read(" 33"), None);
}

#[test]
fn no_data_lines_give_no_output() {
    assert_eq!(output("common name,length (cm)\n"), Vec::<String>::new());
    assert_eq!(output("common name,length (cm)"), Vec::<String>::new());
    assert_eq!(output(""), Vec::<String>::new());
    assert_eq!(render(&vec![], &vec![]), Vec::<String>::new());
}

#[test]
fn the_same_block_gives_the_same_output() {
    let first = output(PENGUINS);
    let second = output(PENGUINS);
    assert_eq!(first, second);
    assert_eq!(output_line_by_line(PENGUINS), first);
}

#[test]
fn lengths_are_written_as_the_number_they_stand_for() {
    let out = output("header\na,33.0\nb,1e2\nc,0.50\nd,+7\ne,.25\nf,-0\ng,inf\nh,NaN\n");
    assert_eq!(
        out,
        vec!["a, 33cm", "b, 100cm", "c, 0.5cm", "d, 7cm", "e, 0.25cm", "f, -0cm", "g, infcm", "h, NaNcm"]
    );
}

#[test]
fn format_record_joins_name_and_length() {
    assert_eq!(format_record("Little penguin", "33"), "Little penguin, 33cm");
    assert_eq!(format_record("", ""), ", cm");
    assert_eq!(format_record("a,b", "1.5"), "a,b, 1.5cm");
}

#[test]
fn emit_gives_a_line_for_a_reading_and_none_without() {
    let record = Record { name: "Little penguin".to_string(), length: "33.0".to_string() };
    assert_eq!(emit(&record, Some("33")), Some("Little penguin, 33cm".to_string()));
    assert_eq!(emit(&record, None), None);
}

#[test]
fn render_leaves_out_records_without_reading() {
    let found = vec![
        Record { name: "a".to_string(), length: "1".to_string() },
        Record { name: "b".to_string(), length: "x".to_string() },
        Record { name: "c".to_string(), length: "3".to_string() },
    ];
    let readings = vec![Some("1".to_string()), None, Some("3".to_string())];
    assert_eq!(render(&found, &readings), vec!["a, 1cm", "c, 3cm"]);
    let none = vec![None, None, None];
    assert_eq!(render(&found, &none), Vec::<String>::new());
}

#[test]
fn render_keeps_the_order_of_the_records() {
    let found = vec![
        Record { name: "z".to_string(), length: "2".to_string() },
        Record { name: "a".to_string(), length: "1".to_string() },
    ];
    let readings = vec![Some("2".to_string()), Some("1".to_string())];
    assert_eq!(render(&found, &readings), vec!["z, 2cm", "a, 1cm"]);
}

#[test]
fn render_takes_a_missing_reading_as_none() {
    let found = vec![
        Record { name: "a".to_string(), length: "1".to_string() },
        Record { name: "b".to_string(), length: "2".to_string() },
    ];
    assert_eq!(render(&found, &vec![Some("1".to_string())]), vec!["a, 1cm"]);
    assert_eq!(render(&found, &vec![]), Vec::<String>::new());
}

#[test]
fn render_passes_over_readings_without_record() {
    let found = vec![Record { name: "a".to_string(), length: "1".to_string() }];
    let readings = vec![Some("1".to_string()), Some("2".to_string()), None];
    assert_eq!(render(&found, &readings), vec!["a, 1cm"]);
    assert_eq!(render(&vec![], &readings), Vec::<String>::new());
}
