use ici_core::parse::{
    classify_columns, classify_row_count, data_start_line, decimals_for, delims_for, lay_out_table, prepare_cell,
    read_lines, resolve_settings, split_fields, trim, CellKind, PreparedCell, WARN_FILE_BYTES,
};
use ici_core::parse::{
    CoercionFailure, DecimalSeparator, Delimiter, Encoding, ParseError, ParseOverrides, ParseReport, SourceFormat,
    MAX_FILE_BYTES,
};

#[derive(Debug, Clone)]
struct Column {
    name: String,
    is_numeric: bool,
    values: Vec<f64>,
    strings: Vec<String>,
}

#[derive(Debug, Clone)]
struct ParsedTable {
    columns: Vec<Column>,
    report: ParseReport,
}

#[derive(Debug, Clone, Copy)]
enum Cell {
    Number(f64),
    Missing,
    Invalid,
}

fn finite_number(text: &[char]) -> Option<f64> {
    let s: String = text.iter().collect();
    match s.parse::<f64>() {
        Ok(v) if v.is_finite() => Some(v),
        _ => None,
    }
}

fn parse_cell(field: &[char], decimal: DecimalSeparator) -> Cell {
    match prepare_cell(field, decimal) {
        PreparedCell::Missing => Cell::Missing,
        PreparedCell::Candidate { text, unit_prefix } => {
            if let Some(v) = finite_number(&text) {
                return Cell::Number(v);
            }
            match unit_prefix.as_deref().and_then(finite_number) {
                Some(v) => Cell::Number(v),
                None => Cell::Invalid,
            }
        }
    }
}

fn cell_kind(cell: Cell) -> CellKind {
    match cell {
        Cell::Number(_) => CellKind::Number,
        Cell::Missing => CellKind::Missing,
        Cell::Invalid => CellKind::Invalid,
    }
}

fn numeric_lines(lines: &[Vec<char>], d: Delimiter, e: DecimalSeparator, upto: usize) -> (Vec<bool>, Vec<usize>) {
    let mut all_numeric = Vec::with_capacity(upto);
    let mut counts = Vec::with_capacity(upto);
    for line in &lines[..upto] {
        let cells: Vec<Cell> = split_fields(line, d).iter().map(|f| parse_cell(f, e)).collect();
        all_numeric.push(cells.iter().all(|c| !matches!(c, Cell::Invalid)));
        counts.push(cells.iter().filter(|c| matches!(c, Cell::Number(_))).count());
    }
    (all_numeric, counts)
}

fn parse_default(bytes: &[u8]) -> Result<ParsedTable, ParseError> {
    parse(bytes, &ParseOverrides::default())
}

fn parse(bytes: &[u8], overrides: &ParseOverrides) -> Result<ParsedTable, ParseError> {
    let (lines, encoding) = read_lines(bytes, overrides.encoding)?;

    let mut warnings = Vec::new();
    if bytes.len() > WARN_FILE_BYTES {
        warnings.push(format!(
            "File is {:.1} MB; parsing may take a moment.",
            bytes.len() as f64 / (1024.0 * 1024.0)
        ));
    }

    let n = lines.len();
    let delims = delims_for(overrides.delimiter);
    let decs = decimals_for(overrides.decimal_separator);
    let upto = classify_row_count(n, overrides.skip_lines);
    let mut numeric = Vec::with_capacity(delims.len());
    let mut numeric_counts = Vec::with_capacity(delims.len());
    for &d in &delims {
        let mut by_decimal = Vec::with_capacity(decs.len());
        let mut counts_by_decimal = Vec::with_capacity(decs.len());
        for &e in &decs {
            let (all_numeric, counts) = numeric_lines(&lines, d, e, upto);
            by_decimal.push(all_numeric);
            counts_by_decimal.push(counts);
        }
        numeric.push(by_decimal);
        numeric_counts.push(counts_by_decimal);
    }

    let settings = resolve_settings(&lines, overrides, &numeric, &numeric_counts)?;
    let delimiter = settings.delimiter;
    let decimal_separator = settings.decimal_separator;
    let preamble_lines = settings.preamble_lines;
    let header_present = settings.header_present;
    let data_start = data_start_line(n, &settings)?;

    let layout = lay_out_table(&lines, data_start, delimiter, header_present);
    if layout.header_synthesized {
        warnings.push(
            "No header row detected; columns were named col1, col2, ... by position.".to_string(),
        );
    }
    if layout.header_trailing_dropped {
        warnings.push("Dropped a trailing empty column present on the header row only.".to_string());
    }
    if layout.body_trailing_dropped {
        warnings.push("Dropped a trailing empty column produced by a trailing delimiter.".to_string());
    }
    if layout.ragged_rows_dropped > 0 {
        warnings.push(format!(
            "Dropped {} row(s) with an unexpected field count (first line(s): {:?}).",
            layout.ragged_rows_dropped, layout.ragged_row_line_numbers
        ));
    }

    let expected_f = layout.header.len();
    let n_rows = layout.rows.len();
    let cells: Vec<Vec<Cell>> = layout
        .rows
        .iter()
        .map(|row| row.iter().map(|f| parse_cell(f, decimal_separator)).collect())
        .collect();
    let kinds: Vec<Vec<CellKind>> = cells.iter().map(|row| row.iter().map(|&c| cell_kind(c)).collect()).collect();
    let classified = classify_columns(&kinds, expected_f);

    let mut columns = Vec::with_capacity(expected_f);
    let mut coercion_failures = Vec::new();
    for col in 0..expected_f {
        let is_numeric = classified.is_numeric[col];
        let (values, strings) = if is_numeric {
            let values = cells
                .iter()
                .map(|row| match row[col] {
                    Cell::Number(v) => v,
                    _ => f64::NAN,
                })
                .collect();
            (values, Vec::new())
        } else {
            let strings = layout.rows.iter().map(|row| trim(&row[col]).iter().collect()).collect();
            (Vec::new(), strings)
        };
        columns.push(Column { name: layout.header[col].clone(), is_numeric, values, strings });
        if is_numeric && classified.invalid_counts[col] > 0 {
            coercion_failures.push(CoercionFailure {
                column: layout.header[col].clone(),
                count: classified.invalid_counts[col],
                first_rows: classified.first_invalid_rows[col].clone(),
            });
        }
    }
    for failure in &coercion_failures {
        warnings.push(format!(
            "Column '{}': {} value(s) could not be parsed as numbers (first row(s): {:?}).",
            failure.column, failure.count, failure.first_rows
        ));
    }

    let report = ParseReport {
        encoding,
        delimiter,
        decimal_separator,
        preamble_lines_skipped: preamble_lines,
        header_present,
        header_synthesized: layout.header_synthesized,
        n_rows,
        n_columns: expected_f,
        trailing_column_dropped: layout.header_trailing_dropped || layout.body_trailing_dropped,
        ragged_rows_dropped: layout.ragged_rows_dropped,
        ragged_row_line_numbers: layout.ragged_row_line_numbers,
        coercion_failures,
        warnings,
        source: SourceFormat::Text,
    };

    Ok(ParsedTable { columns, report })
}

fn parse_default_size_only(size: usize) -> ParseError {
    let bytes = vec![b'a'; size];
    parse_default(&bytes).unwrap_err()
}

#[test]
fn bare_csv_with_header() {
    let text = "a,b,c\n1,2,3\n4,5,6\n7,8,9\n10,11,12\n13,14,15\n";
    let table = parse_default(text.as_bytes()).unwrap();
    assert_eq!(table.report.delimiter, Delimiter::Comma);
    assert_eq!(table.report.decimal_separator, DecimalSeparator::Dot);
    assert!(table.report.header_present);
    assert!(!table.report.header_synthesized);
    assert_eq!(table.report.n_rows, 5);
    assert_eq!(table.columns[0].name, "a");
    assert_eq!(table.columns[0].values, vec![1.0, 4.0, 7.0, 10.0, 13.0]);
}

#[test]
fn headerless_tsv_synthesizes_columns() {
    let text = "1\t2\n3\t4\n5\t6\n7\t8\n9\t10\n";
    let table = parse_default(text.as_bytes()).unwrap();
    assert!(!table.report.header_present);
    assert!(table.report.header_synthesized);
    assert_eq!(table.columns[0].name, "col1");
    assert_eq!(table.columns[1].name, "col2");
    assert_eq!(table.report.preamble_lines_skipped, 0);
}

#[test]
fn two_line_preamble() {
    let text = "Instrument export\nOperator: someone\ntime\tvalue\n0\t1\n1\t2\n2\t3\n3\t4\n4\t5\n";
    let table = parse_default(text.as_bytes()).unwrap();
    assert_eq!(table.report.preamble_lines_skipped, 2);
    assert!(table.report.header_present);
    assert_eq!(table.columns[0].name, "time");
    assert_eq!(table.columns[1].name, "value");
}

#[test]
fn decimal_comma_is_semicolon_delimited() {
    let text = "x;y\n0,0;1,5\n1,0;2,5\n2,0;3,5\n3,0;4,5\n4,0;5,5\n";
    let table = parse_default(text.as_bytes()).unwrap();
    assert_eq!(table.report.delimiter, Delimiter::Semicolon);
    assert_eq!(table.report.decimal_separator, DecimalSeparator::Comma);
    assert_eq!(table.columns[0].values, vec![0.0, 1.0, 2.0, 3.0, 4.0]);
    assert_eq!(table.columns[1].values, vec![1.5, 2.5, 3.5, 4.5, 5.5]);
}

#[test]
fn cp1252_bytes_decode_without_mojibake() {
    let mut bytes = b"area/cm\xB2\tvalue\n".to_vec();
    bytes.extend_from_slice(b"1.0\t2\n2.0\t4\n3.0\t6\n4.0\t8\n5.0\t10\n");
    assert!(std::str::from_utf8(&bytes).is_err(), "fixture must be invalid UTF-8");
    let table = parse_default(&bytes).unwrap();
    assert_eq!(table.report.encoding, Encoding::Cp1252);
    assert_eq!(table.columns[0].name, "area/cm\u{b2}");
}

#[test]
fn utf8_bom_is_stripped() {
    let mut bytes = vec![0xEF, 0xBB, 0xBF];
    bytes.extend_from_slice(b"a,b\n1,2\n3,4\n5,6\n7,8\n9,10\n");
    let table = parse_default(&bytes).unwrap();
    assert_eq!(table.report.encoding, Encoding::Utf8);
    assert_eq!(table.columns[0].name, "a");
}

#[test]
fn ragged_final_row_is_dropped_with_warning() {
    let text = "a,b\n1,2\n3,4\n5,6\n7,8\n9,10\n11\n";
    let table = parse_default(text.as_bytes()).unwrap();
    assert_eq!(table.report.n_rows, 5);
    assert_eq!(table.report.ragged_rows_dropped, 1);
    assert_eq!(table.report.ragged_row_line_numbers, vec![7]);
}

#[test]
fn trailing_delimiter_produces_phantom_column_that_gets_dropped() {
    let text = "a\tb\t\n1\t2\t\n3\t4\t\n5\t6\t\n7\t8\t\n9\t10\t\n";
    let table = parse_default(text.as_bytes()).unwrap();
    assert!(table.report.trailing_column_dropped);
    assert_eq!(table.report.n_columns, 2);
    assert_eq!(table.columns.len(), 2);
    assert_eq!(table.columns[1].name, "b");
}

#[test]
fn trailing_delimiter_header_one_fewer_field() {
    let text = "a\tb\n1\t2\t\n3\t4\t\n5\t6\t\n7\t8\t\n9\t10\t\n";
    let table = parse_default(text.as_bytes()).unwrap();
    assert!(table.report.trailing_column_dropped);
    assert_eq!(table.report.n_columns, 2);
    assert!(table.report.header_present);
    assert_eq!(table.report.preamble_lines_skipped, 0);
    assert_eq!(table.columns[0].name, "a");
    assert_eq!(table.columns[1].name, "b");
    assert_eq!(table.report.n_rows, 5);
}

#[test]
fn crlf_line_endings_are_normalized() {
    let text = "a,b\r\n1,2\r\n3,4\r\n5,6\r\n7,8\r\n9,10\r\n";
    let table = parse_default(text.as_bytes()).unwrap();
    assert_eq!(table.report.n_rows, 5);
    assert_eq!(table.columns[0].values, vec![1.0, 3.0, 5.0, 7.0, 9.0]);
}

#[test]
fn lf_only_line_endings_work() {
    let text = "a,b\n1,2\n3,4\n5,6\n7,8\n9,10\n";
    let table = parse_default(text.as_bytes()).unwrap();
    assert_eq!(table.report.n_rows, 5);
}

#[test]
fn preamble_with_mismatched_tab_table_defeats_naive_sniffer() {
    let text = "Export settings\nmode\trange\tstep\nA\t1\t2\nB\t3\t4\n\ntime/s\tEwe/V\n0.0\t1.0\n0.2\t1.1\n0.4\t1.2\n0.6\t1.3\n0.8\t1.4\n";
    let table = parse_default(text.as_bytes()).unwrap();
    assert_eq!(table.report.n_columns, 2);
    assert_eq!(table.columns[0].name, "time/s");
    assert_eq!(table.columns[1].name, "Ewe/V");
    assert_eq!(table.report.preamble_lines_skipped, 5);
    assert_eq!(table.report.n_rows, 5);
}

#[test]
fn scientific_notation_parses() {
    let text = "a,b\n2.901364069601998E+005,1\n1.0E-003,2\n3.0,3\n4.0,4\n5.0,5\n";
    let table = parse_default(text.as_bytes()).unwrap();
    assert!((table.columns[0].values[0] - 2.901364069601998E+005).abs() < 1e-6);
    assert!((table.columns[0].values[1] - 1.0E-003).abs() < 1e-12);
}

#[test]
fn numeric_column_with_trailing_unit_suffix_parses_as_numeric() {
    let text = "t,x\n0 sec,1\n1 sec,2\n2 sec,3\n3 sec,4\n4 sec,5\n";
    let table = parse_default(text.as_bytes()).unwrap();
    assert!(table.columns[0].is_numeric);
    assert_eq!(table.columns[0].values, vec![0.0, 1.0, 2.0, 3.0, 4.0]);
    assert!(table.report.coercion_failures.is_empty());
}

#[test]
fn unit_suffix_parsing_composes_with_comma_decimal_separator() {
    let text = "t;x\n0,5 sec;1\n1,25 sec;2\n2,5 sec;3\n3,0 sec;4\n4,75 sec;5\n";
    let table = parse_default(text.as_bytes()).unwrap();
    assert!(table.columns[0].is_numeric);
    assert_eq!(table.columns[0].values, vec![0.5, 1.25, 2.5, 3.0, 4.75]);
}

#[test]
fn text_column_without_a_leading_number_is_not_coerced() {
    let text = "t,state\n0,charge\n1,charge\n2,rest\n3,rest\n4,discharge\n";
    let overrides = ParseOverrides { skip_lines: Some(0), ..Default::default() };
    let table = parse(text.as_bytes(), &overrides).unwrap();
    assert!(!table.columns[1].is_numeric);
    assert_eq!(table.columns[1].strings, vec!["charge", "charge", "rest", "rest", "discharge"]);
}

#[test]
fn missing_tokens_become_nan_without_coercion_failure() {
    let text = "a,b\n1,NA\n2,NaN\n3,Inf\n4,-Inf\n5,null\n6,-\n7,\n";
    let table = parse_default(text.as_bytes()).unwrap();
    assert!(table.columns[1].is_numeric);
    assert!(table.columns[1].values.iter().all(|v| v.is_nan()));
    assert!(table.report.coercion_failures.is_empty());
}

#[test]
fn non_numeric_column_is_retained_as_text_for_grouping() {
    let text = "t,state\n0,charge\n1,charge\n2,rest\n3,rest\n4,discharge\n";
    let overrides = ParseOverrides { skip_lines: Some(0), ..Default::default() };
    let table = parse(text.as_bytes(), &overrides).unwrap();
    assert_eq!(table.report.delimiter, Delimiter::Comma);
    assert!(table.report.header_present);
    assert!(!table.columns[1].is_numeric);
    assert_eq!(table.columns[1].strings, vec!["charge", "charge", "rest", "rest", "discharge"]);
    assert!(table.columns[1].values.is_empty());
}

#[test]
fn duplicate_header_names_are_deduplicated() {
    let text = "x,x,x\n1,2,3\n4,5,6\n7,8,9\n10,11,12\n13,14,15\n";
    let table = parse_default(text.as_bytes()).unwrap();
    assert_eq!(table.columns[0].name, "x");
    assert_eq!(table.columns[1].name, "x (2)");
    assert_eq!(table.columns[2].name, "x (3)");
}

#[test]
fn empty_header_cell_is_named_by_position() {
    let text = "a,,c\n1,2,3\n4,5,6\n7,8,9\n10,11,12\n13,14,15\n";
    let table = parse_default(text.as_bytes()).unwrap();
    assert_eq!(table.columns[1].name, "col2");
}

#[test]
fn override_delimiter_forces_reparse() {
    let text = "a,b\n1,2\n3,4\n5,6\n7,8\n9,10\n";
    let overrides = ParseOverrides { delimiter: Some(Delimiter::Semicolon), ..Default::default() };
    let table = parse(text.as_bytes(), &overrides).unwrap();
    assert_eq!(table.report.delimiter, Delimiter::Semicolon);
    assert_eq!(table.report.n_columns, 1);
}

#[test]
fn override_skip_lines_and_header_present() {
    let text = "junk1\njunk2\njunk3\na,b\n1,2\n3,4\n5,6\n7,8\n9,10\n";
    let overrides = ParseOverrides { skip_lines: Some(3), header_present: Some(true), ..Default::default() };
    let table = parse(text.as_bytes(), &overrides).unwrap();
    assert_eq!(table.report.preamble_lines_skipped, 3);
    assert_eq!(table.columns[0].name, "a");
    assert_eq!(table.report.n_rows, 5);
}

#[test]
fn override_header_present_false_treats_header_row_as_data() {
    let text = "a,b\n1,2\n3,4\n5,6\n7,8\n9,10\n";
    let overrides = ParseOverrides { header_present: Some(false), skip_lines: Some(0), ..Default::default() };
    let table = parse(text.as_bytes(), &overrides).unwrap();
    assert!(!table.report.header_present);
    assert_eq!(table.columns[0].name, "col1");
    assert_eq!(table.report.n_rows, 6);
}

#[test]
fn no_data_block_found_names_delimiters_tried() {
    let text = "just some free text\nwith no structure at all\n";
    let err = parse_default(text.as_bytes()).unwrap_err();
    match err {
        ParseError::NoDataBlockFound { delimiters_tried } => {
            assert_eq!(delimiters_tried.len(), 4);
        }
        other => panic!("expected NoDataBlockFound, got {other:?}"),
    }
}

#[test]
fn empty_file_is_rejected() {
    let err = parse_default(b"").unwrap_err();
    assert_eq!(err, ParseError::EmptyFile);
}

#[test]
fn file_too_large_is_rejected() {
    let err = parse_default_size_only(MAX_FILE_BYTES + 1);
    assert!(matches!(err, ParseError::FileTooLarge { .. }));
}

#[test]
fn duplicate_header_names_never_collide_with_existing_ones() {
    let text = "x,x,x (2)\n1,2,3\n4,5,6\n7,8,9\n10,11,12\n13,14,15\n";
    let table = parse_default(text.as_bytes()).unwrap();
    let names: Vec<&str> = table.columns.iter().map(|c| c.name.as_str()).collect();
    assert_eq!(names, vec!["x", "x (3)", "x (2)"]);
}
