use ici_core::parse::{
    classify_row_count, data_start_line, read_lines, Sniff,
    check_size, chars_to_string, classify_columns, decode, dedupe_header, field_count_matches_allowing_trailing_empty,
    header_present_at, lay_out_table, normalize_line_endings, pick_delimiter_lenient, prepare_cell, resolve_settings,
    sniff_constrained, split_fields, split_lines, strip_bom, text_chars, trim, CellKind, DecimalSeparator, Delimiter,
    Encoding, ParseError, ParseOverrides, PreparedCell, MAX_FILE_BYTES,
};

fn chars(s: &str) -> Vec<char> {
    s.chars().collect()
}

fn string(v: &[char]) -> String {
    v.iter().collect()
}

fn lines_of(text: &str) -> Vec<Vec<char>> {
    split_lines(&normalize_line_endings(&chars(text)))
}

fn reads_as_number(field: &[char], decimal: DecimalSeparator) -> CellKind {
    match prepare_cell(field, decimal) {
        PreparedCell::Missing => CellKind::Missing,
        PreparedCell::Candidate { text, unit_prefix } => {
            let t = string(&text);
            if t.parse::<f64>().map(|v| v.is_finite()).unwrap_or(false) {
                return CellKind::Number;
            }
            match unit_prefix {
                Some(p) if string(&p).parse::<f64>().map(|v| v.is_finite()).unwrap_or(false) => CellKind::Number,
                _ => CellKind::Invalid,
            }
        }
    }
}

fn numeric_table(lines: &[Vec<char>], delims: &[Delimiter], decs: &[DecimalSeparator]) -> Vec<Vec<Vec<bool>>> {
    delims
        .iter()
        .map(|&d| {
            decs.iter()
                .map(|&e| {
                    lines
                        .iter()
                        .map(|l| split_fields(l, d).iter().all(|f| reads_as_number(f, e) != CellKind::Invalid))
                        .collect()
                })
                .collect()
        })
        .collect()
}

fn count_table(lines: &[Vec<char>], delims: &[Delimiter], decs: &[DecimalSeparator]) -> Vec<Vec<Vec<usize>>> {
    delims
        .iter()
        .map(|&d| {
            decs.iter()
                .map(|&e| {
                    lines
                        .iter()
                        .map(|l| split_fields(l, d).iter().filter(|f| reads_as_number(f, e) == CellKind::Number).count())
                        .collect()
                })
                .collect()
        })
        .collect()
}

#[test]
fn strip_bom_removes_only_a_leading_utf8_bom() {
    assert_eq!(strip_bom(&[0xEF, 0xBB, 0xBF, b'a']), b"a");
    assert_eq!(strip_bom(b"abc"), b"abc");
    assert_eq!(strip_bom(&[0xEF, 0xBB]), &[0xEF, 0xBB]);
}

#[test]
fn decode_prefers_utf8_and_falls_back_to_cp1252() {
    let (s, e) = decode("a\u{b5}b".as_bytes(), None);
    assert_eq!(s, "a\u{b5}b");
    assert_eq!(e, Encoding::Utf8);
    let (s, e) = decode(&[b'a', 0xB5, b'b'], None);
    assert_eq!(s, "a\u{b5}b");
    assert_eq!(e, Encoding::Cp1252);
    let (s, e) = decode(&[0x80], Some(Encoding::Cp1252));
    assert_eq!(s, "\u{20ac}");
    assert_eq!(e, Encoding::Cp1252);
    let (s, e) = decode(&[b'x', 0xFF], Some(Encoding::Utf8));
    assert_eq!(s, "x\u{fffd}");
    assert_eq!(e, Encoding::Utf8);
    let (s, _) = decode(&[0xEF, 0xBB, 0xBF, b'q'], None);
    assert_eq!(s, "q");
}

#[test]
fn normalize_line_endings_maps_crlf_and_cr_to_lf() {
    assert_eq!(string(&normalize_line_endings(&chars("a\r\nb\rc\n\r"))), "a\nb\nc\n\n");
    assert_eq!(chars_to_string(&text_chars("h\u{e9}")), "h\u{e9}");
}

#[test]
fn split_lines_drops_trailing_empty_lines() {
    let lines = lines_of("a\nb\n\n\n");
    assert_eq!(lines, vec![chars("a"), chars("b")]);
    assert!(lines_of("\n\n").is_empty());
    assert_eq!(lines_of("\na"), vec![chars(""), chars("a")]);
}

#[test]
fn split_fields_by_delimiter() {
    assert_eq!(split_fields(&chars("1;2;;3"), Delimiter::Semicolon), vec![chars("1"), chars("2"), chars(""), chars("3")]);
    assert_eq!(split_fields(&chars(""), Delimiter::Tab), vec![chars("")]);
    assert_eq!(Delimiter::Pipe.as_char(), '|');
}

#[test]
fn trailing_empty_field_counts_as_a_match() {
    let f = split_fields(&chars("a,b,"), Delimiter::Comma);
    assert!(field_count_matches_allowing_trailing_empty(&f, 2));
    assert!(field_count_matches_allowing_trailing_empty(&f, 3));
    assert!(!field_count_matches_allowing_trailing_empty(&f, 1));
    let g = split_fields(&chars("a,b,c"), Delimiter::Comma);
    assert!(!field_count_matches_allowing_trailing_empty(&g, 2));
}

#[test]
fn trim_removes_unicode_whitespace() {
    assert_eq!(string(&trim(&chars("\u{a0} x y\t"))), "x y");
}

#[test]
fn prepare_cell_recognizes_missing_tokens_and_units() {
    assert!(matches!(prepare_cell(&chars("  "), DecimalSeparator::Dot), PreparedCell::Missing));
    assert!(matches!(prepare_cell(&chars("NaN"), DecimalSeparator::Dot), PreparedCell::Missing));
    assert!(matches!(prepare_cell(&chars(" na "), DecimalSeparator::Dot), PreparedCell::Missing));
    match prepare_cell(&chars(" 1,5 "), DecimalSeparator::Comma) {
        PreparedCell::Candidate { text, unit_prefix } => {
            assert_eq!(string(&text), "1.5");
            assert!(unit_prefix.is_none());
        }
        PreparedCell::Missing => panic!("expected a candidate"),
    }
    match prepare_cell(&chars("12 sec"), DecimalSeparator::Dot) {
        PreparedCell::Candidate { text, unit_prefix } => {
            assert_eq!(string(&text), "12 sec");
            assert_eq!(unit_prefix.map(|p| string(&p)), Some("12".to_string()));
        }
        PreparedCell::Missing => panic!("expected a candidate"),
    }
    assert_eq!(reads_as_number(&chars("charge"), DecimalSeparator::Dot), CellKind::Invalid);
    assert_eq!(reads_as_number(&chars("3.5 %"), DecimalSeparator::Dot), CellKind::Number);
}

#[test]
fn check_size_rejects_empty_and_oversized_input() {
    assert_eq!(check_size(0), Err(ParseError::EmptyFile));
    assert_eq!(
        check_size(MAX_FILE_BYTES + 1),
        Err(ParseError::FileTooLarge { bytes: MAX_FILE_BYTES + 1, limit: MAX_FILE_BYTES })
    );
    assert_eq!(check_size(MAX_FILE_BYTES), Ok(()));
}

#[test]
fn sniff_finds_block_after_preamble_with_header() {
    let text = "Instrument: X\nOperator: Y\nt\tI\tU\n0\t0\t3.1\n1\t0\t3.1\n2\t1\t3.2\n3\t1\t3.3\n4\t0\t3.3\n5\t0\t3.3\n";
    let lines = lines_of(text);
    let delims = Delimiter::candidates();
    let decs = DecimalSeparator::candidates();
    let table = numeric_table(&lines, &delims, &decs);
    let s = sniff_constrained(&lines, &delims, &decs, &table).unwrap();
    assert_eq!(s.delimiter, Delimiter::Tab);
    assert_eq!(s.decimal_separator, DecimalSeparator::Dot);
    assert_eq!(s.preamble_lines, 2);
    assert!(s.header_present);
}

#[test]
fn sniff_reads_semicolons_with_decimal_commas() {
    let text = "a;b\n1,5;2,5\n2,5;3,5\n3,5;4,5\n4,5;5,5\n5,5;6,5\n";
    let lines = lines_of(text);
    let delims = Delimiter::candidates();
    let decs = DecimalSeparator::candidates();
    let table = numeric_table(&lines, &delims, &decs);
    let s = sniff_constrained(&lines, &delims, &decs, &table).unwrap();
    assert_eq!(s.delimiter, Delimiter::Semicolon);
    assert_eq!(s.decimal_separator, DecimalSeparator::Comma);
    assert_eq!(s.preamble_lines, 0);
    assert!(s.header_present);
}

#[test]
fn sniff_reports_every_delimiter_tried_when_no_block_is_found() {
    let lines = lines_of("just some words\nand more words\n");
    let delims = Delimiter::candidates();
    let decs = DecimalSeparator::candidates();
    let table = numeric_table(&lines, &delims, &decs);
    match sniff_constrained(&lines, &delims, &decs, &table) {
        Err(ParseError::NoDataBlockFound { delimiters_tried }) => assert_eq!(delimiters_tried, delims),
        other => panic!("unexpected {other:?}"),
    }
}

#[test]
fn header_present_at_a_known_line() {
    let lines = lines_of("meta\nx,y\n1,2\n");
    assert!(header_present_at(&lines, 1, Delimiter::Comma, false));
    assert!(!header_present_at(&lines, 1, Delimiter::Comma, true));
    assert!(!header_present_at(&lines, 0, Delimiter::Comma, false));
    assert!(!header_present_at(&lines, 7, Delimiter::Comma, false));
}

#[test]
fn lenient_pick_scores_the_known_region() {
    let lines = lines_of("x;y\n1;2\n3;4\n");
    let delims = Delimiter::candidates();
    let decs = DecimalSeparator::candidates();
    let counts = count_table(&lines, &delims, &decs);
    let (d, e) = pick_delimiter_lenient(&lines, 0, &delims, &decs, &counts).unwrap();
    assert_eq!(d, Delimiter::Semicolon);
    assert_eq!(e, DecimalSeparator::Dot);
}

#[test]
fn resolve_settings_honours_overrides() {
    let lines = lines_of("x,y\n1,2\n3,4\n");
    let ov = ParseOverrides {
        encoding: None,
        delimiter: Some(Delimiter::Comma),
        decimal_separator: Some(DecimalSeparator::Dot),
        skip_lines: Some(0),
        header_present: None,
    };
    let delims = vec![Delimiter::Comma];
    let decs = vec![DecimalSeparator::Dot];
    let table = numeric_table(&lines, &delims, &decs);
    let counts = count_table(&lines, &delims, &decs);
    let s = resolve_settings(&lines, &ov, &table, &counts).unwrap();
    assert_eq!(s.delimiter, Delimiter::Comma);
    assert_eq!(s.decimal_separator, DecimalSeparator::Dot);
    assert_eq!(s.preamble_lines, 0);
    assert!(s.header_present);
    let forced = ParseOverrides { header_present: Some(false), ..ov };
    let s = resolve_settings(&lines, &forced, &table, &counts).unwrap();
    assert!(!s.header_present);
}

#[test]
fn lay_out_table_fixes_header_and_drops_ragged_rows() {
    let lines = lines_of("t,t,,\n1,2,3\n1,2\n4,5,6\n");
    let layout = lay_out_table(&lines, 1, Delimiter::Comma, true);
    assert_eq!(layout.header, vec!["t".to_string(), "t (2)".to_string(), "col3".to_string()]);
    assert!(layout.header_trailing_dropped);
    assert!(!layout.header_synthesized);
    assert_eq!(layout.rows.len(), 2);
    assert_eq!(layout.ragged_rows_dropped, 1);
    assert_eq!(layout.ragged_row_line_numbers, vec![3]);
}

#[test]
fn lay_out_table_synthesizes_names_and_drops_trailing_delimiters() {
    let lines = lines_of("1;2;\n3;4;\n");
    let layout = lay_out_table(&lines, 0, Delimiter::Semicolon, false);
    assert!(layout.header_synthesized);
    assert!(layout.body_trailing_dropped);
    assert_eq!(layout.header, vec!["col1".to_string(), "col2".to_string()]);
    assert_eq!(layout.rows, vec![vec![chars("1"), chars("2")], vec![chars("3"), chars("4")]]);
}

#[test]
fn classify_columns_by_majority_of_numbers() {
    let (n, i, m) = (CellKind::Number, CellKind::Invalid, CellKind::Missing);
    let kinds = vec![vec![n, i, m], vec![n, i, m], vec![i, n, m]];
    let r = classify_columns(&kinds, 3);
    assert_eq!(r.is_numeric, vec![true, false, true]);
    assert_eq!(r.invalid_counts, vec![1, 2, 0]);
    assert_eq!(r.first_invalid_rows[0], vec![2]);
    assert_eq!(r.first_invalid_rows[1], vec![0, 1]);
}

#[test]
fn split_fields_joined_give_the_line_back() {
    for line in ["a;b;;c", ";", "", "x"] {
        let fields = split_fields(&chars(line), Delimiter::Semicolon);
        let joined: Vec<String> = fields.iter().map(|f| string(f)).collect();
        assert_eq!(joined.join(";"), line);
        assert!(fields.iter().all(|f| !f.contains(&';')));
    }
}

#[test]
fn normalizing_twice_is_normalizing_once() {
    let once = normalize_line_endings(&chars("a\r\r\nb\rc"));
    assert_eq!(normalize_line_endings(&once), once);
    assert!(!once.contains(&'\r'));
    assert_eq!(string(&once), "a\n\nb\nc");
}

#[test]
fn parse_error_messages() {
    assert_eq!(ParseError::EmptyFile.message(), "File is empty.");
    assert_eq!(
        ParseError::FileTooLarge { bytes: 300, limit: 262144000 }.message(),
        "File is 300 bytes, exceeding the 262144000 byte limit."
    );
    assert_eq!(
        ParseError::NoDataBlockFound { delimiters_tried: vec![Delimiter::Tab, Delimiter::Pipe] }.message(),
        "Could not locate a delimited data block. Tried delimiters: [Tab, Pipe]."
    );
    assert_eq!(
        ParseError::NoDataBlockFound { delimiters_tried: vec![] }.message(),
        "Could not locate a delimited data block. Tried delimiters: []."
    );
    assert_eq!(
        ParseError::NoDataRows.message(),
        "No data rows remain after the header/preamble boundary currently in effect."
    );
}

fn dedupe(names: &[&str]) -> Vec<String> {
    let v: Vec<Vec<char>> = names.iter().map(|n| chars(n)).collect();
    dedupe_header(&v).iter().map(|n| string(n)).collect()
}

#[test]
fn dedupe_numbers_repeats_and_skips_taken_names() {
    assert_eq!(dedupe(&["x", "x", "x"]), vec!["x", "x (2)", "x (3)"]);
    assert_eq!(dedupe(&["x", "x", "x (2)"]), vec!["x", "x (3)", "x (2)"]);
    assert_eq!(dedupe(&["a", "a", "a (2)", "a (3)", "a"]), vec!["a", "a (4)", "a (2)", "a (3)", "a (5)"]);
    assert_eq!(dedupe(&["p", "q"]), vec!["p", "q"]);
}

#[test]
fn header_with_one_field_fewer_than_trailing_rows_is_kept() {
    let lines = lines_of("a\tb\n1\t2\t\n3\t4\t\n5\t6\t\n7\t8\t\n9\t10\t\n");
    let delims = Delimiter::candidates();
    let decs = DecimalSeparator::candidates();
    let table = numeric_table(&lines, &delims, &decs);
    let s = sniff_constrained(&lines, &delims, &decs, &table).unwrap();
    assert_eq!(s.delimiter, Delimiter::Tab);
    assert!(s.header_present);
    assert_eq!(s.preamble_lines, 0);
    assert!(header_present_at(&lines, 0, Delimiter::Tab, false));
    let layout = lay_out_table(&lines, 1, Delimiter::Tab, true);
    assert_eq!(layout.header, vec!["a".to_string(), "b".to_string()]);
    assert!(layout.body_trailing_dropped);
    // without a trailing delimiter on every row, one field fewer is no header
    let lines = lines_of("a\tb\n1\t2\t\n3\t4\n");
    assert!(!header_present_at(&lines, 0, Delimiter::Tab, false));
}

#[test]
fn sniff_block_reaches_back_to_its_first_numeric_row() {
    let lines = lines_of("junk\n1\t2\n3\t4\n5\t6\n7\t8\n9\t10\n11\t12\n");
    let delims = Delimiter::candidates();
    let decs = DecimalSeparator::candidates();
    let table = numeric_table(&lines, &delims, &decs);
    let s = sniff_constrained(&lines, &delims, &decs, &table).unwrap();
    assert_eq!(s.delimiter, Delimiter::Tab);
    assert_eq!(s.preamble_lines, 1);
    assert!(!s.header_present);
}

#[test]
fn read_lines_decodes_normalizes_and_splits() {
    let (lines, enc) = read_lines(b"a;b\r\n1;2\r\n\r\n", None).unwrap();
    assert_eq!(enc, Encoding::Utf8);
    assert_eq!(lines, vec![chars("a;b"), chars("1;2")]);
    assert_eq!(read_lines(b"", None).unwrap_err(), ParseError::EmptyFile);
    assert_eq!(read_lines(b"\xEF\xBB\xBF\n\n", None).unwrap_err(), ParseError::EmptyFile);
    let (lines, enc) = read_lines(b"\xB2", None).unwrap();
    assert_eq!(enc, Encoding::Cp1252);
    assert_eq!(lines, vec![chars("\u{b2}")]);
}

#[test]
fn classify_row_count_covers_both_samples() {
    assert_eq!(classify_row_count(0, None), 0);
    assert_eq!(classify_row_count(10, None), 10);
    assert_eq!(classify_row_count(6000, None), 5000);
    assert_eq!(classify_row_count(6000, Some(5500)), 5701);
    assert_eq!(classify_row_count(6000, Some(5900)), 6000);
    assert_eq!(classify_row_count(6000, Some(7000)), 6000);
    assert_eq!(classify_row_count(10000, Some(4900)), 5101);
}

#[test]
fn data_start_line_follows_preamble_and_header() {
    let s = |preamble_lines: usize, header_present: bool| Sniff {
        delimiter: Delimiter::Tab,
        decimal_separator: DecimalSeparator::Dot,
        preamble_lines,
        header_present,
    };
    assert_eq!(data_start_line(5, &s(2, true)), Ok(3));
    assert_eq!(data_start_line(5, &s(2, false)), Ok(2));
    assert_eq!(data_start_line(3, &s(2, true)), Err(ParseError::NoDataRows));
    assert_eq!(data_start_line(2, &s(2, false)), Err(ParseError::NoDataRows));
}

#[test]
fn layout_reports_at_most_ten_ragged_lines_and_keeps_full_rows() {
    let mut text = String::from("a,b\n");
    for i in 0..12 {
        text.push_str(&format!("{i}\n{i},{i}\n"));
    }
    let lines = lines_of(&text);
    let layout = lay_out_table(&lines, 1, Delimiter::Comma, true);
    assert_eq!(layout.ragged_rows_dropped, 12);
    assert_eq!(layout.ragged_row_line_numbers, vec![2, 4, 6, 8, 10, 12, 14, 16, 18, 20]);
    assert_eq!(layout.rows.len(), 12);
    assert!(layout.rows.iter().all(|r| r.len() == layout.header.len()));
}
