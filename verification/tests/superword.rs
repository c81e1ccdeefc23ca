//! The superword pretokenizer.

use gigatoken::pretokenize::fast::superword::FastSuperwordPretokenizer;
use gigatoken::pretokenize::walker::{SpanBatch, PRETOKEN_CHUNK};

#[test]
fn yields_whole_segment_as_one_pretoken() {
    let cases: &[&[u8]] = &[
        b"",
        b"a",
        b"hello world",
        b"the quick brown fox jumps over the lazy dog",
        "multi\nline\ntext with spaces".as_bytes(),
    ];
    for &case in cases {
        let mut walk = FastSuperwordPretokenizer::new(case);
        let mut toks: Vec<&[u8]> = Vec::new();
        while let Some(p) = walk.next() {
            toks.push(p.0);
        }
        if case.is_empty() {
            assert!(toks.is_empty(), "empty input yields no pretokens");
        } else {
            assert_eq!(toks, vec![case], "must yield the whole segment unsplit");
        }
    }
}

/// The chunked span source must reproduce the iterator: one whole-segment span.
#[test]
fn fill_spans_matches_iterator() {
    let input = b"a superword spanning many spaces here and there";
    let mut src = FastSuperwordPretokenizer::new(input);
    let mut batch = SpanBatch::new();
    let mut got: Vec<&[u8]> = Vec::new();
    loop {
        let n = src.fill_spans(&mut batch);
        for i in 0..n {
            got.push(batch.span(i));
        }
        if n < PRETOKEN_CHUNK {
            break;
        }
    }
    assert_eq!(got, vec![&input[..]]);
}
