//! Whole-report parsing, the canonical writer, and the failure modes of the
//! assembly.
use ghcprof::parser::ser::serialize_prof;
use ghcprof::parser::text_line;
use ghcprof::parser::{parse_prof, parse_prof_file, total_alloc, ParseError};

fn full_report() -> String {
    let mut s = String::new();
    s.push_str("  Thu Dec 29 13:55 2016 Time and Allocation Profiling Report  (Final)\n");
    s.push_str("\n");
    s.push_str("     rncryptor-tests +RTS -p -RTS\n");
    s.push_str("\n");
    s.push_str("  total time  =       53.62 secs   (53615 ticks @ 1000 us, 1 processor)\n");
    s.push_str("  total alloc = 60,261,923,248 bytes  (excludes profiling overheads)\n");
    s.push_str("\n");
    s.push_str("COST CENTRE        MODULE            %time %alloc\n");
    s.push_str("\n");
    s.push_str("makeKey            Crypto.Types       61.0   89.5\n");
    s.push_str("encryptBlock       Crypto.Encrypt     12.5    0.0\n");
    s.push_str("\n");
    s.push_str("\n");
    s.push_str("                         individual     inherited\n");
    s.push_str("COST CENTRE   MODULE     no. entries  %time %alloc %time %alloc\n");
    s.push_str("\n");
    s.push_str("MAIN          MAIN       559    0     0.3  0.0  100.0  100.0\n");
    s.push_str(" CAF          Main       707    0     0.0  0.0   61.3   89.5\n");
    s.push_str("  makeKey     Crypto     801    3    61.0 89.5   61.2   89.5\n");
    s.push_str(" CAF          Encrypt    700    0     0.1  0.0   12.6    0.0\n");
    s
}

#[test]
fn parses_a_whole_report() {
    let input = full_report();
    match parse_prof(input.as_bytes(), 0) {
        Ok((prof, p)) => {
            assert_eq!(p, input.len());
            assert_eq!(prof.header.program, b"rncryptor-tests +RTS -p -RTS".to_vec());
            assert_eq!(prof.summary.0.len(), 2);
            assert_eq!(prof.extended_summary.0.len(), 1);
            let main = &prof.extended_summary.0[0];
            assert_eq!(main.value.cost_centre, b"MAIN".to_vec());
            assert_eq!(main.sub_forest.len(), 2);
        }
        e => panic!("{:?}", e),
    }
}

#[test]
fn reparsing_canonical_text_gives_equal_report() {
    let input = full_report();
    let prof = parse_prof_file(input.as_bytes()).expect("the fixture parses");
    let canonical = serialize_prof(&prof);
    let again = parse_prof_file(&canonical).expect("the canonical text parses");
    assert_eq!(prof, again);
}

#[test]
fn reserializing_twice_is_stable() {
    let input = full_report();
    let prof = parse_prof_file(input.as_bytes()).expect("the fixture parses");
    let once = serialize_prof(&prof);
    let again = parse_prof_file(&once).expect("the canonical text parses");
    let twice = serialize_prof(&again);
    assert_eq!(once, twice);
}

#[test]
fn missing_extended_summary_fails_whole_assembly() {
    let mut s = String::new();
    s.push_str("  Title\n\n  prog\n\n");
    s.push_str("  total time  =       1.0 secs   (10 ticks @ 1000 us, 1 processor)\n");
    s.push_str("  total alloc = 100 bytes  (excludes profiling overheads)\n");
    s.push_str("\nCOST CENTRE  MODULE  %time %alloc\n\n");
    s.push_str("main  Main  50.0  40.5\n");
    s.push_str("\n");
    s.push_str("\n");
    s.push_str("   individual inherited\n");
    s.push_str("COST CENTRE MODULE no. entries %time %alloc %time %alloc\n");
    s.push_str("\n");
    // The separator is complete but no extended-summary row follows: the
    // result is a failure, never a report with an empty forest.
    assert!(parse_prof_file(s.as_bytes()).is_none());
}

#[test]
fn truncated_file_fails_whole_assembly() {
    let mut s = String::new();
    s.push_str("  Title\n\n  prog\n\n");
    s.push_str("  total time  =       1.0 secs   (10 ticks @ 1000 us, 1 processor)\n");
    s.push_str("  total alloc = 100 bytes  (excludes profiling overheads)\n");
    s.push_str("\nCOST CENTRE  MODULE  %time %alloc\n\n");
    s.push_str("main  Main  50.0  40.5\n");
    s.push_str("\n");
    assert!(parse_prof_file(s.as_bytes()).is_none());
}

#[test]
fn unrepresentable_total_alloc_is_malformed_number() {
    let line = "  total alloc = 99,999,999,999,999,999,999,999 bytes  (excludes profiling overheads)\n";
    assert_eq!(
        total_alloc(line.as_bytes(), 0),
        Err(ParseError::MalformedNumber)
    );
    let mut s = String::new();
    s.push_str("  Title\n\n  prog\n\n");
    s.push_str("  total time  =       1.0 secs   (10 ticks @ 1000 us, 1 processor)\n");
    s.push_str(line);
    s.push_str("\nCOST CENTRE  MODULE  %time %alloc\n\nmain  Main  1.0  1.0\n\n");
    s.push_str("\nh1\nh2\n\nMAIN MAIN 1 0 0.3 0.0 100.0 100.0\n");
    assert!(parse_prof_file(s.as_bytes()).is_none());
}

#[test]
fn line_without_terminator_is_malformed_section() {
    assert_eq!(
        text_line(b"no terminator here", 0),
        Err(ParseError::MalformedSection)
    );
}
