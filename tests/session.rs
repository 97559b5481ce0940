use typed_csv::{
    exact_match, is_positional_name, map_headers, match_matrix, DecodeSession, EncodeSession,
    FieldEvent, FieldNamesDecoder, FieldNamesEncoder, HeaderStep, Phase, ReadError, RowStep,
};

fn bytes(names: &[&str]) -> Vec<Vec<u8>> {
    names.iter().map(|n| n.as_bytes().to_vec()).collect()
}

fn ready_session(headers: &[&str], names: &[&str], reorder: bool, ignore: bool) -> DecodeSession {
    let mut s = DecodeSession::new(reorder, ignore);
    assert!(matches!(s.accept_headers(Ok(bytes(headers))), HeaderStep::FieldNamesNeeded));
    let names = bytes(names);
    let m = match_matrix(s.headers(), &names, &exact_match);
    assert!(s.accept_field_names(Ok(names), &m).is_ok());
    s
}

fn decode_row(s: &mut DecodeSession, fields: &[&str]) -> RowStep {
    assert!(s.start_row(false));
    for f in fields {
        match s.feed(FieldEvent::Data(f.as_bytes().to_vec())) {
            RowStep::Continue => {}
            other => return other,
        }
    }
    s.feed(FieldEvent::EndOfRecord)
}

fn record(step: RowStep) -> Vec<Vec<u8>> {
    match step {
        RowStep::Record(r) => r,
        _ => panic!("expected a record"),
    }
}

#[test]
fn names_skip_tuple_positions() {
    let mut d = FieldNamesDecoder::new();
    d.read_struct_field(b"name1".to_vec(), 0);
    d.read_struct_field(b"dist".to_vec(), 1);
    d.read_struct_field(b"_field0".to_vec(), 0);
    d.read_struct_field(b"size".to_vec(), 0);
    assert_eq!(d.into_field_names(), bytes(&["name1", "dist", "size"]));
}

#[test]
fn encoder_names_skip_tuple_positions() {
    let mut e = FieldNamesEncoder::new();
    e.emit_struct_field(b"count".to_vec(), 0);
    e.emit_struct_field(b"_field0".to_vec(), 0);
    e.emit_struct_field(b"animal".to_vec(), 1);
    assert_eq!(e.into_field_names(), bytes(&["count", "animal"]));
}

#[test]
fn placeholder_needs_the_right_position() {
    assert!(is_positional_name(&b"_field0".to_vec(), 0));
    assert!(is_positional_name(&b"_field12".to_vec(), 12));
    assert!(is_positional_name(&b"_field4294967296".to_vec(), 4294967296));
    assert!(!is_positional_name(&b"_field1".to_vec(), 0));
    assert!(!is_positional_name(&b"_field".to_vec(), 0));
    assert!(!is_positional_name(&b"_field01".to_vec(), 1));
    assert!(!is_positional_name(&b"field0".to_vec(), 0));
    let mut d = FieldNamesDecoder::new();
    d.read_struct_field(b"_field1".to_vec(), 0);
    assert_eq!(d.into_field_names(), bytes(&["_field1"]));
}

#[test]
fn no_fields_give_no_names() {
    assert!(FieldNamesDecoder::new().into_field_names().is_empty());
    assert!(FieldNamesEncoder::new().into_field_names().is_empty());
}

#[test]
fn strict_policy_accepts_matching_headers() {
    let mut s = ready_session(&["a", "b"], &["a", "b"], false, false);
    assert_eq!(record(decode_row(&mut s, &["0", "1"])), bytes(&["0", "1"]));
}

#[test]
fn strict_policy_rejects_swapped_headers() {
    let mut s = DecodeSession::new(false, false);
    s.accept_headers(Ok(bytes(&["b", "a"])));
    let names = bytes(&["a", "b"]);
    let m = match_matrix(s.headers(), &names, &exact_match);
    assert!(matches!(s.accept_field_names(Ok(names), &m), Err(ReadError::HeaderNameMismatch)));
    assert!(s.is_done());
}

#[test]
fn reorder_policy_permutes_columns() {
    let mut s = ready_session(&["b", "a"], &["a", "b"], true, false);
    assert_eq!(record(decode_row(&mut s, &["0", "1"])), bytes(&["1", "0"]));
}

#[test]
fn ignore_policy_discards_unused_column() {
    let mut s = ready_session(&["a", "b", "c"], &["a", "b"], false, true);
    assert_eq!(record(decode_row(&mut s, &["0", "1", "2"])), bytes(&["0", "1"]));
    assert_eq!(record(decode_row(&mut s, &["3", "4", "5"])), bytes(&["3", "4"]));
}

#[test]
fn empty_header_row_means_no_rows() {
    let mut s = DecodeSession::new(false, false);
    assert!(matches!(s.accept_headers(Ok(Vec::new())), HeaderStep::NoData));
    assert!(s.is_done());
    assert!(!s.start_row(false));
}

#[test]
fn extra_data_column_is_an_error() {
    let mut s = ready_session(&["a", "b"], &["a", "b"], false, false);
    assert_eq!(record(decode_row(&mut s, &["0", "1"])), bytes(&["0", "1"]));
    assert!(matches!(decode_row(&mut s, &["0", "1", "2"]),
                     RowStep::Failed(ReadError::ExtraDataColumns)));
    assert!(s.is_done());
}

#[test]
fn headers_are_reconciled_once() {
    let mut s = ready_session(&["b", "a"], &["a", "b"], true, false);
    assert!(!s.needs_headers());
    assert!(matches!(s.accept_headers(Ok(bytes(&["x", "y", "z"]))), HeaderStep::AlreadyProcessed));
    assert!(matches!(s.accept_headers(Ok(Vec::new())), HeaderStep::AlreadyProcessed));
    assert_eq!(s.headers(), &bytes(&["b", "a"]));
    assert_eq!(record(decode_row(&mut s, &["0", "1"])), bytes(&["1", "0"]));
}

#[test]
fn end_of_input_without_fields_ends_cleanly() {
    let mut s = ready_session(&["a", "b"], &["a", "b"], false, false);
    assert!(s.start_row(false));
    assert!(matches!(s.feed(FieldEvent::EndOfInput), RowStep::End));
    assert!(s.is_done());
}

#[test]
fn parser_error_in_a_row_ends_the_session() {
    let mut s = ready_session(&["a"], &["a"], false, false);
    assert!(s.start_row(false));
    let step = s.feed(FieldEvent::Failed(csv::Error::Decode("bad".to_string())));
    assert!(matches!(step, RowStep::Failed(ReadError::Codec(_))));
    assert!(s.is_done());
}

#[test]
fn input_done_ends_the_rows() {
    let mut s = ready_session(&["a"], &["a"], false, false);
    assert!(!s.start_row(true));
    assert!(s.is_done());
}

#[test]
fn new_session_awaits_headers() {
    let s = DecodeSession::new(true, true);
    assert!(s.needs_headers());
    assert!(!s.is_done());
    assert!(Phase::AwaitingHeaders != Phase::Done);
}

#[test]
fn map_headers_strict_identity() {
    let m = vec![vec![true, false], vec![false, true]];
    assert_eq!(map_headers(&m, 2, false, false).unwrap(), vec![Some(0), Some(1)]);
}

#[test]
fn map_headers_count_mismatch_reports_both_counts() {
    let m = vec![vec![true, false, false], vec![false, true, false]];
    assert!(matches!(map_headers(&m, 3, true, true),
                     Err(ReadError::HeaderCountMismatch { expected: 3, actual: 2 })));
    let m = vec![vec![true], vec![false], vec![false]];
    assert!(matches!(map_headers(&m, 1, true, false),
                     Err(ReadError::HeaderCountMismatch { expected: 1, actual: 3 })));
}

#[test]
fn map_headers_reorder_is_greedy() {
    // Field 0 matches columns 0 and 1, field 1 only column 0: the greedy
    // choice gives column 0 to field 0 and leaves field 1 without a match.
    let m = vec![vec![true, true], vec![true, false]];
    assert!(matches!(map_headers(&m, 2, true, false), Err(ReadError::HeaderNameMismatch)));
    let m = vec![vec![true, true], vec![true, true]];
    assert_eq!(map_headers(&m, 2, true, false).unwrap(), vec![Some(0), Some(1)]);
}

#[test]
fn map_headers_reorder_and_ignore() {
    // Headers b,c,a against fields a,b.
    let m = vec![vec![false, true], vec![false, false], vec![true, false]];
    assert_eq!(map_headers(&m, 2, true, true).unwrap(), vec![Some(1), None, Some(0)]);
}

#[test]
fn map_headers_in_order_with_unused_columns() {
    // Headers a,x,a,b against fields a,a,b.
    let m = vec![
        vec![true, true, false],
        vec![false, false, false],
        vec![true, true, false],
        vec![false, false, true],
    ];
    assert_eq!(map_headers(&m, 3, false, true).unwrap(), vec![Some(0), None, Some(1), Some(2)]);
}

#[test]
fn map_headers_no_fields() {
    let m: Vec<Vec<bool>> = vec![Vec::new(), Vec::new()];
    assert_eq!(map_headers(&m, 0, false, true).unwrap(), vec![None, None]);
}

#[test]
fn exact_match_compares_bytes() {
    assert!(exact_match(&b"abc".to_vec(), &b"abc".to_vec()));
    assert!(!exact_match(&b"abc".to_vec(), &b"abd".to_vec()));
    assert!(!exact_match(&b"ab".to_vec(), &b"abc".to_vec()));
    assert!(!exact_match(&b"B".to_vec(), &b"b".to_vec()));
}

#[test]
fn match_matrix_asks_the_predicate() {
    let headers = bytes(&["A", "b", "c"]);
    let names = bytes(&["a", "b"]);
    let m = match_matrix(&headers, &names, &|h: &Vec<u8>, f: &Vec<u8>| h.eq_ignore_ascii_case(f));
    assert_eq!(m, vec![vec![true, false], vec![false, true], vec![false, false]]);
}

#[test]
fn header_is_written_once() {
    let mut e = EncodeSession::new();
    assert!(e.needs_header());
    e.header_written();
    assert!(!e.needs_header());
}

#[test]
fn empty_record_is_written_as_one_empty_field() {
    assert_eq!(EncodeSession::row_to_write(Vec::new()), vec![Vec::<u8>::new()]);
    assert_eq!(EncodeSession::row_to_write(bytes(&["0", "1"])), bytes(&["0", "1"]));
}

#[test]
fn round_trip_through_csv() {
    let mut enc = FieldNamesEncoder::new();
    enc.emit_struct_field(b"a".to_vec(), 0);
    enc.emit_struct_field(b"b".to_vec(), 1);
    let names = enc.into_field_names();
    let rows = vec![bytes(&["0", "1"]), bytes(&["x,y", "\"q\""])];

    let mut session = EncodeSession::new();
    let mut w = csv::Writer::from_memory();
    for row in &rows {
        if session.needs_header() {
            w.write(names.iter()).unwrap();
            session.header_written();
        }
        w.write(EncodeSession::row_to_write(row.clone()).iter()).unwrap();
    }
    let text = w.into_string();
    assert_eq!(text, "a,b\n0,1\n\"x,y\",\"\"\"q\"\"\"\n");

    let mut p = csv::Reader::from_string(text);
    let mut s = DecodeSession::new(false, false);
    assert!(matches!(s.accept_headers(p.byte_headers()), HeaderStep::FieldNamesNeeded));
    let m = match_matrix(s.headers(), &names, &exact_match);
    assert!(s.accept_field_names(Ok(names.clone()), &m).is_ok());
    let mut decoded = Vec::new();
    while s.start_row(p.done()) {
        loop {
            let ev = match p.next_bytes() {
                csv::NextField::Data(d) => FieldEvent::Data(d.to_vec()),
                csv::NextField::EndOfRecord => FieldEvent::EndOfRecord,
                csv::NextField::EndOfCsv => FieldEvent::EndOfInput,
                csv::NextField::Error(e) => FieldEvent::Failed(e),
            };
            match s.feed(ev) {
                RowStep::Continue => {}
                RowStep::Record(r) => {
                    decoded.push(r);
                    break;
                }
                _ => break,
            }
        }
    }
    assert_eq!(decoded, rows);
}
