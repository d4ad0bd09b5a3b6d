//! The grammar, section by section, on realistic report text.
use ghcprof::parser::{
    parse_extended_summary, parse_header, parse_header_and_summary, parse_summaries_sep,
    parse_summary, parse_summary_line, text_line, total_alloc, total_time, Decimal, TotalAlloc,
    TotalTime,
};

#[test]
fn can_parse_report_title() {
    let input = "  Thu Dec 29 13:55 2016 Time and Allocation Profiling Report  (Final)\nrest";
    match text_line(input.as_bytes(), 0) {
        Ok((x, p)) => {
            assert_eq!(
                x,
                b"Thu Dec 29 13:55 2016 Time and Allocation Profiling Report  (Final)".to_vec()
            );
            assert_eq!(&input.as_bytes()[p..], b"rest");
        }
        e => panic!("{:?}", e),
    }
}

#[test]
fn can_parse_prog_name() {
    let input = "     rncryptor-tests +RTS -p -RTS\n\n";
    match text_line(input.as_bytes(), 0) {
        Ok((x, _)) => assert_eq!(x, b"rncryptor-tests +RTS -p -RTS".to_vec()),
        e => panic!("{:?}", e),
    }
}

#[test]
fn can_parse_total_time() {
    let input = "  total time  =       53.62 secs   (53615 ticks @ 1000 us, 1 processor)\n";
    match total_time(input.as_bytes(), 0) {
        Ok((x, p)) => {
            assert_eq!(p, input.len());
            assert_eq!(
                x,
                TotalTime {
                    time: Decimal::new(5362, 2),
                    ticks: 53615,
                    freq: 1000,
                    procs: 1,
                }
            );
        }
        e => panic!("{:?}", e),
    }
}

#[test]
fn can_parse_total_alloc() {
    let input = "  total alloc = 60,261,923,248 bytes  (excludes profiling overheads)\n";
    match total_alloc(input.as_bytes(), 0) {
        Ok((x, _)) => assert_eq!(x, TotalAlloc { bytes: 60_261_923_248 }),
        e => panic!("{:?}", e),
    }
}

#[test]
fn can_parse_header() {
    let input = "  Thu Dec 29 13:55 2016 Time and Allocation Profiling Report  (Final)\n\n     rncryptor-tests +RTS -p -RTS\n\n  total time  =       53.62 secs   (53615 ticks @ 1000 us, 1 processor)\n  total alloc = 60,261,923,248 bytes  (excludes profiling overheads)\n";
    match parse_header(input.as_bytes(), 0) {
        Ok((x, p)) => {
            assert_eq!(p, input.len());
            assert_eq!(x.program, b"rncryptor-tests +RTS -p -RTS".to_vec());
            assert_eq!(x.total_alloc, TotalAlloc { bytes: 60_261_923_248 });
        }
        e => panic!("{:?}", e),
    }
}

#[test]
fn can_parse_summary_line() {
    let input = "encryptBlock                                      Crypto.RNCryptor.V3.Encrypt  25.4    0.0\n";
    match parse_summary_line(input.as_bytes(), 0) {
        Ok((x, p)) => {
            assert_eq!(p, input.len());
            assert_eq!(x.module, b"Crypto.RNCryptor.V3.Encrypt".to_vec());
        }
        e => panic!("{:?}", e),
    }
}

fn nine_rows() -> String {
    let mut s = String::new();
    s.push_str("encryptBlock                                      Crypto.RNCryptor.V3.Encrypt  25.4    0.0\n");
    s.push_str("decryptBlock                                      Crypto.RNCryptor.V3.Decrypt  25.1    0.0\n");
    s.push_str("fastpbkdf2_fn.\\.\\.\\                               Crypto.KDF.PBKDF2            15.2    0.0\n");
    s.push_str("encryptBytes                                      Crypto.RNCryptor.V3.Encrypt  12.3   16.5\n");
    s.push_str("fastRandBs.hashes                                 Data.ByteString.Arbitrary    10.9   16.6\n");
    s.push_str("encryptStreamWithContext.finaliseEncryption.(...) Crypto.RNCryptor.V3.Encrypt   2.7   16.5\n");
    s.push_str("streamingRoundTrip                                Tests                         2.7   16.5\n");
    s.push_str("fastRandBs                                        Data.ByteString.Arbitrary     2.7   16.5\n");
    s.push_str("decryptBytes                                      Crypto.RNCryptor.V3.Decrypt   2.2   16.5\n");
    s.push_str("\n");
    s
}

#[test]
fn can_parse_summary() {
    let input = nine_rows();
    match parse_summary(input.as_bytes(), 0) {
        Ok((sum, p)) => {
            assert_eq!(p, input.len());
            assert_eq!(sum.0.len(), 9);
            assert_eq!(sum.0[8].alloc_perc, Decimal::new(165, 1));
        }
        e => panic!("{:?}", e),
    }
}

#[test]
fn can_parse_extended_summary() {
    let mut input = String::new();
    input.push_str("MAIN                                                           MAIN                                     559           0    0.3    0.0   100.0  100.0\n");
    input.push_str(" arbitrary                                                     Tests                                   2302           0    0.0    0.0     5.6    3.5\n");
    input.push_str("  arbitrary                                                    Data.ByteString.Arbitrary               2304           0    0.0    0.0     5.6    3.5\n");
    input.push_str("   fastRandBs                                                  Data.ByteString.Arbitrary               2307           0    0.4    1.7     5.6    3.5\n");
    input.push_str("    slowRandBs                                                 Data.ByteString.Arbitrary               2319           0    0.0    0.0     0.0    0.0\n");
    input.push_str("    fastRandBs.preChunks                                       Data.ByteString.Arbitrary               2313         100    0.0    0.0     0.0    0.0\n");
    input.push_str("    fastRandBs.hashes                                          Data.ByteString.Arbitrary               2312         100    5.3    1.7     5.3    1.7\n");
    match parse_extended_summary(input.as_bytes(), 0) {
        Ok((forest, p)) => {
            assert_eq!(p, input.len());
            let trees = &forest.0;
            assert_eq!(trees[0].depth, 0);
            assert_eq!(trees[0].value.cost_centre, b"MAIN".to_vec());
            // The builder treats an equal peeked depth as the start of a
            // child block, so the three rows at depth four after fastRandBs
            // come out chained as nested single-child nodes rather than as
            // three siblings. Whether the producing tool means equal-depth
            // rows as siblings is an open question; this asserts the
            // behaviour exactly as it stands today.
            assert_eq!(trees.len(), 1);
            let main = &trees[0];
            assert_eq!(main.sub_forest.len(), 1);
            let arb1 = &main.sub_forest[0];
            assert_eq!(arb1.value.cost_centre, b"arbitrary".to_vec());
            assert_eq!(arb1.sub_forest.len(), 1);
            let arb2 = &arb1.sub_forest[0];
            assert_eq!(arb2.value.cost_centre, b"arbitrary".to_vec());
            assert_eq!(arb2.sub_forest.len(), 1);
            let fast = &arb2.sub_forest[0];
            assert_eq!(fast.value.cost_centre, b"fastRandBs".to_vec());
            assert_eq!(fast.sub_forest.len(), 1);
            let slow = &fast.sub_forest[0];
            assert_eq!(slow.value.cost_centre, b"slowRandBs".to_vec());
            assert_eq!(slow.depth, 4);
            assert_eq!(slow.sub_forest.len(), 1);
            let pre = &slow.sub_forest[0];
            assert_eq!(pre.value.cost_centre, b"fastRandBs.preChunks".to_vec());
            assert_eq!(pre.depth, 4);
            assert_eq!(pre.sub_forest.len(), 1);
            let hashes = &pre.sub_forest[0];
            assert_eq!(hashes.value.cost_centre, b"fastRandBs.hashes".to_vec());
            assert_eq!(hashes.depth, 4);
            assert_eq!(hashes.sub_forest.len(), 0);
        }
        e => panic!("{:?}", e),
    }
}

#[test]
fn can_parse_summaries_sep() {
    let input = "\n                                                                                                                          individual     inherited\nCOST CENTRE                                                    MODULE                                   no.     entries  %time %alloc   %time %alloc\n\n";
    match parse_summaries_sep(input.as_bytes(), 0) {
        Ok(_) => {}
        e => panic!("{:?}", e),
    }
}

#[test]
fn can_parse_header_and_summary() {
    let mut input = String::new();
    input.push_str("  Thu Dec 29 13:55 2016 Time and Allocation Profiling Report  (Final)\n");
    input.push_str("\n");
    input.push_str("     rncryptor-tests +RTS -p -RTS\n");
    input.push_str("\n");
    input.push_str("  total time  =       53.62 secs   (53615 ticks @ 1000 us, 1 processor)\n");
    input.push_str("  total alloc = 60,261,923,248 bytes  (excludes profiling overheads)\n");
    input.push_str("\n");
    input.push_str("COST CENTRE                                       MODULE                      %time %alloc\n");
    input.push_str("\n");
    input.push_str("makeKey                                           Crypto.RNCryptor.Types       61.0   89.5\n");
    input.push_str("encryptBlock                                      Crypto.RNCryptor.V3.Encrypt  12.5    0.0\n");
    input.push_str("decryptBlock                                      Crypto.RNCryptor.V3.Decrypt  12.5    0.0\n");
    input.push_str("fastRandBs.hashes                                 Data.ByteString.Arbitrary     5.3    1.7\n");
    input.push_str("encryptBytes                                      Crypto.RNCryptor.V3.Encrypt   5.2    1.7\n");
    input.push_str("decryptBytes                                      Crypto.RNCryptor.V3.Decrypt   1.5    1.7\n");
    input.push_str("streamingRoundTrip                                Tests                         0.6    1.7\n");
    input.push_str("encryptStreamWithContext.finaliseEncryption.(...) Crypto.RNCryptor.V3.Encrypt   0.6    1.7\n");
    input.push_str("fastRandBs                                        Data.ByteString.Arbitrary     0.4    1.7\n");
    input.push_str("\n");
    match parse_header_and_summary(input.as_bytes(), 0) {
        Ok(_) => {}
        e => panic!("{:?}", e),
    }
}
