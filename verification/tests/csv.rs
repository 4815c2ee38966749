use autoeq::csv::{
    create_csv, extract_columns, find_csv_columns, find_csv_separators, is_float_token,
    parse_autoeq, parse_crinacle, parse_csv, parse_generic, parse_rew, pick_columns, ParsedCsv,
};
use autoeq::AutoEqError;

fn numbers(v: &[String]) -> Vec<f64> {
    v.iter().map(|s| s.parse::<f64>().unwrap()).collect()
}

fn csv_message(r: autoeq::Result<ParsedCsv>) -> String {
    match r {
        Err(AutoEqError::CsvParse(m)) => m,
        other => panic!("expected a CSV error, got {:?}", other),
    }
}

#[test]
fn test_parse_autoeq_format() {
    let csv = "frequency,raw,smoothed\n20.00,3.50,3.20\n50.00,2.10,2.00\n";
    let result = parse_csv(csv).unwrap();
    assert_eq!(numbers(&result.frequency), vec![20.0, 50.0]);
    assert_eq!(numbers(&result.raw), vec![3.5, 2.1]);
}

#[test]
fn test_parse_rew_format() {
    let csv = "* REW V5.20\n* Freq(Hz) SPL(dB) Phase(degrees)\n20.0 3.5 10.0\n50.0 2.1 20.0\n";
    let result = parse_csv(csv).unwrap();
    assert_eq!(numbers(&result.frequency), vec![20.0, 50.0]);
    assert_eq!(numbers(&result.raw), vec![3.5, 2.1]);
}

#[test]
fn test_parse_rew_2col_format() {
    let csv = "* REW V5.20\n* Freq(Hz) SPL(dB)\n20.0 3.5\n50.0 2.1\n";
    let result = parse_csv(csv).unwrap();
    assert_eq!(numbers(&result.frequency), vec![20.0, 50.0]);
    assert_eq!(numbers(&result.raw), vec![3.5, 2.1]);
}

#[test]
fn test_parse_crinacle_format() {
    let csv = "Some header\nFrequency\tdB\tUnweighted\n20.0\t3.5\n50.0\t2.1\n";
    let result = parse_csv(csv).unwrap();
    assert_eq!(numbers(&result.frequency), vec![20.0, 50.0]);
    assert_eq!(numbers(&result.raw), vec![3.5, 2.1]);
}

#[test]
fn test_parse_generic_csv() {
    let csv = "Freq,SPL\n20.0,3.5\n50.0,2.1\n";
    let result = parse_csv(csv).unwrap();
    assert_eq!(numbers(&result.frequency), vec![20.0, 50.0]);
    assert_eq!(numbers(&result.raw), vec![3.5, 2.1]);
}

#[test]
fn test_parse_generic_semicolon() {
    let csv = "Freq;SPL\n20,0;3,5\n50,0;2,1\n";
    let result = parse_csv(csv).unwrap();
    assert_eq!(numbers(&result.frequency), vec![20.0, 50.0]);
    assert_eq!(numbers(&result.raw), vec![3.5, 2.1]);
}

#[test]
fn test_parse_no_header() {
    let csv = "20.0,3.5\n50.0,2.1\n";
    let result = parse_csv(csv).unwrap();
    assert_eq!(numbers(&result.frequency), vec![20.0, 50.0]);
    assert_eq!(numbers(&result.raw), vec![3.5, 2.1]);
}

#[test]
fn test_create_csv() {
    let names = vec!["frequency".to_string(), "raw".to_string()];
    let columns: Vec<Vec<String>> = vec![vec![20.0, 50.0], vec![3.5, 2.1]]
        .into_iter()
        .map(|c: Vec<f64>| c.iter().map(|v| format!("{:.2}", v)).collect())
        .collect();
    let csv = create_csv(&names, &columns);
    assert!(csv.starts_with("frequency,raw"));
    assert!(csv.contains("20.00"));
}

#[test]
fn test_find_csv_separators_comma() {
    let (col, dec) = find_csv_separators("20.0,3.5\n50.0,2.1\n").unwrap();
    assert_eq!(col, ',');
    assert_eq!(dec, '.');
}

#[test]
fn test_find_csv_separators_semicolon() {
    let (col, dec) = find_csv_separators("20,0;3,5\n50,0;2,1\n").unwrap();
    assert_eq!(col, ';');
    assert_eq!(dec, ',');
}

#[test]
fn create_csv_exact_text_and_padding() {
    let names = vec!["a".to_string(), "b".to_string()];
    let columns = vec![vec!["1.00".to_string(), "2.00".to_string()], vec!["3.00".to_string()]];
    assert_eq!(create_csv(&names, &columns), "a,b\n1.00,3.00\n2.00,NaN");
    assert_eq!(create_csv(&vec![], &vec![]), "");
}

#[test]
fn separators_error_cases() {
    match find_csv_separators("abc\ndef\n") {
        Err(AutoEqError::CsvParse(m)) => assert_eq!(m, "No numeric lines found"),
        other => panic!("{:?}", other),
    }
    match find_csv_separators("20\n50\n") {
        Err(AutoEqError::CsvParse(m)) => assert_eq!(m, "Could not find column separator"),
        other => panic!("{:?}", other),
    }
    match find_csv_separators("20;3|5\n50;2|1\n") {
        Err(AutoEqError::CsvParse(m)) => assert_eq!(m, "Ambiguous separators"),
        other => panic!("{:?}", other),
    }
    match find_csv_separators("20,0;3,5|1\n50,0;2,1|1\n") {
        Err(AutoEqError::CsvParse(m)) => assert_eq!(m, "Ambiguous separators"),
        other => panic!("{:?}", other),
    }
    assert_eq!(find_csv_separators("20 3\n50 2\n").unwrap(), (' ', '.'));
    assert_eq!(find_csv_separators("20\t3\n50\t2\n").unwrap(), ('\t', '.'));
    assert_eq!(find_csv_separators("20|3\n50|2\n").unwrap(), ('|', '.'));
    assert_eq!(find_csv_separators("20,0|3,5\n50,0|2,1\n").unwrap(), ('|', ','));
}

#[test]
fn columns_detection() {
    let cols = find_csv_columns("Freq;SPL\n20,0;3,5\n50,0;2,1\n", ';').unwrap();
    assert_eq!(cols, vec!["Freq".to_string(), "SPL".to_string()]);
    assert!(find_csv_columns("20.0,3.5\n50.0,2.1\n", ',').is_none());
    assert!(find_csv_columns("x,y\n20.0,3.5\n50.0,2.1,7\n", ',').is_none());
    assert!(find_csv_columns("* a,b\n20.0,3.5\n", ',').is_none());
    let cols = find_csv_columns("note\n  gain , frequency \n20.0,3.5\n", ',').unwrap();
    assert_eq!(cols, vec!["gain".to_string(), "frequency".to_string()]);
}

#[test]
fn column_choice_takes_last_match() {
    assert_eq!(pick_columns(&vec![false, true, true], &vec![true, false, false]), (2, 0));
    assert_eq!(pick_columns(&vec![false, false], &vec![false, false]), (0, 1));
    assert_eq!(pick_columns(&vec![], &vec![]), (0, 1));
}

#[test]
fn generic_header_order_is_respected() {
    let r = parse_generic("SPL,Frequency\n3.5,20\n2.1,50\n").unwrap();
    assert_eq!(numbers(&r.frequency), vec![20.0, 50.0]);
    assert_eq!(numbers(&r.raw), vec![3.5, 2.1]);
    let r = parse_csv("gain;freq\n3,5;20\n2,1;50\n").unwrap();
    assert_eq!(numbers(&r.frequency), vec![20.0, 50.0]);
    assert_eq!(numbers(&r.raw), vec![3.5, 2.1]);
}

#[test]
fn extract_columns_reads_chosen_fields() {
    let r = extract_columns("x;1,5;2\n7;8,25;9\n", ';', ',', 2, 1).unwrap();
    assert_eq!(r.frequency, vec!["9".to_string()]);
    assert_eq!(r.raw, vec!["8.25".to_string()]);
    assert_eq!(csv_message(extract_columns("a\nb\n", ',', '.', 0, 1)), "No valid data found in CSV");
}

#[test]
fn format_specific_errors() {
    assert_eq!(csv_message(parse_autoeq("")), "Empty CSV");
    assert_eq!(csv_message(parse_autoeq("raw,smoothed\n1,2\n")), "No frequency column");
    assert_eq!(csv_message(parse_autoeq("frequency,raw\nx,y\n")), "No data found in AutoEq CSV");
    assert_eq!(csv_message(parse_rew("* nothing\n")), "No valid data in REW format");
    assert_eq!(csv_message(parse_crinacle("a\nb\n")), "No Crinacle header found");
    assert_eq!(csv_message(parse_crinacle("Frequency\tdB\nx\ty\n")), "No valid data in Crinacle format");
    assert_eq!(csv_message(parse_csv("hello\nworld\n")), "No numeric lines found");
}

#[test]
fn autoeq_columns_by_name() {
    let r = parse_autoeq("error,FREQUENCY,SPL\n1,20,3\n2,50,4\n").unwrap();
    assert_eq!(r.frequency, vec!["20".to_string(), "50".to_string()]);
    assert_eq!(r.raw, vec!["3".to_string(), "4".to_string()]);
    let r = parse_autoeq("frequency,smoothed\n20,3\n50\n").unwrap();
    assert_eq!(r.frequency, vec!["20".to_string()]);
}

#[test]
fn rew_skips_missing_values() {
    let r = parse_rew("* x\n20 ?\n30 1.5 9\nabc 1\n40\n").unwrap();
    assert_eq!(r.frequency, vec!["30".to_string()]);
    assert_eq!(r.raw, vec!["1.5".to_string()]);
}

#[test]
fn cleaning_trims_and_drops_blank_lines() {
    let r = parse_csv("  \r\n frequency,raw \r\n\r\n 20 , 1 \n\n 30,2\n").unwrap();
    assert_eq!(r.frequency, vec!["20".to_string(), "30".to_string()]);
    assert_eq!(r.raw, vec!["1".to_string(), "2".to_string()]);
}

#[test]
fn float_token_recognition_matches_std() {
    let samples = [
        "1", "1.", ".5", "1.5e3", "1E-3", "+2", "-2.5", "inf", "-Infinity", "NaN", "nan", "e5", ".",
        "1e", "1e+", "1..2", "1.2.3", " 1", "1 ", "", "+", "0x10", "1_0", "infinit", "iNf", "5e-07",
        "1.e5", ".e5", "--1", "+.5",
    ];
    for s in samples.iter() {
        let chars: Vec<char> = s.chars().collect();
        assert_eq!(is_float_token(&chars), s.parse::<f64>().is_ok(), "{:?}", s);
    }
}

#[test]
fn cleaning_again_changes_nothing() {
    let raw = "  frequency,raw \r\n\n 20.0,1.5\t\n\n  1000,-2  \n";
    let cleaned = "frequency,raw\n20.0,1.5\n1000,-2";
    let a = parse_csv(raw).unwrap();
    let b = parse_csv(cleaned).unwrap();
    assert_eq!(a.frequency, b.frequency);
    assert_eq!(a.raw, b.raw);
    assert_eq!(a.frequency, vec!["20.0".to_string(), "1000".to_string()]);
}

#[test]
fn parsed_columns_are_numbers_of_equal_length() {
    for text in [
        "frequency,raw\n20,1\n30,2\nabc,3\n40,nan\n",
        "* Freq(Hz) SPL(dB)\n20 1e1\n30 -inf\n",
        "freq;spl\n20,5;1,25\n30,0;-2\n",
    ] {
        let p = parse_csv(text).unwrap();
        assert_eq!(p.frequency.len(), p.raw.len());
        assert!(!p.frequency.is_empty());
        for t in p.frequency.iter().chain(p.raw.iter()) {
            assert!(t.parse::<f64>().is_ok(), "{}", t);
        }
    }
}

#[test]
fn written_table_reads_back() {
    let names = vec!["frequency".to_string(), "raw".to_string()];
    let freq: Vec<String> = ["20.00", "1000.00", "20000.00"].iter().map(|s| s.to_string()).collect();
    let raw: Vec<String> = ["-1.50", "0.00", "3.25"].iter().map(|s| s.to_string()).collect();
    let text = create_csv(&names, &vec![freq.clone(), raw.clone()]);
    assert_eq!(text, "frequency,raw\n20.00,-1.50\n1000.00,0.00\n20000.00,3.25");
    let back = parse_csv(&text).unwrap();
    assert_eq!(back.frequency, freq);
    assert_eq!(back.raw, raw);
}
