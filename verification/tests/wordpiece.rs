//! WordPiece segmentation.

use gigatoken::bpe::wordpiece::WordPiece;
use gigatoken::TokenId;

/// The vocabulary `{[UNK]: 0, ab: 1, ##cd: 2}`.
fn small() -> WordPiece {
    WordPiece::new(
        &vec![
            ("[UNK]".to_string(), TokenId(0)),
            ("ab".to_string(), TokenId(1)),
            ("##cd".to_string(), TokenId(2)),
        ],
        "[UNK]",
        "##",
        100,
    )
    .unwrap()
}

fn enc(wp: &WordPiece, s: &str) -> Vec<u32> {
    let mut out = Vec::new();
    wp.encode_unit(s.as_bytes(), &mut out);
    out.into_iter().map(|t| t.0).collect()
}

/// Every case measured against `tokenizers` 0.22.2.
#[test]
fn wordpiece_maxmatch_measured_cases() {
    let wp = small();
    assert_eq!(enc(&wp, "abcd"), vec![1, 2]);
    assert_eq!(enc(&wp, "ab"), vec![1]);
    // Failure at any position discards the pieces already matched.
    assert_eq!(enc(&wp, "abce"), vec![0]);
    assert_eq!(enc(&wp, "abc"), vec![0]);
    assert_eq!(enc(&wp, "abcdab"), vec![0]);
    // A head piece is not usable as a continuation, and vice versa.
    assert_eq!(enc(&wp, "cd"), vec![0]);
    // Empty emits nothing at all — not an UNK.
    assert_eq!(enc(&wp, ""), Vec::<u32>::new());
}

/// `unaffable → un ##aff ##able`, the canonical BERT example.
#[test]
fn wordpiece_longest_match_first() {
    let wp = WordPiece::new(
        &vec![
            ("[UNK]".to_string(), TokenId(0)),
            ("un".to_string(), TokenId(1)),
            ("##aff".to_string(), TokenId(2)),
            ("##able".to_string(), TokenId(3)),
            ("##a".to_string(), TokenId(4)),
        ],
        "[UNK]",
        "##",
        100,
    )
    .unwrap();
    assert_eq!(enc(&wp, "unaffable"), vec![1, 2, 3]);
}

/// The cap counts chars, not bytes: 4 × `é` is 8 bytes and 4 chars, so it
/// passes at 4 and fails at 3. Measured both ways.
#[test]
fn wordpiece_length_cap_counts_chars() {
    let vocab = || {
        vec![
            ("[UNK]".to_string(), TokenId(0)),
            ("é".to_string(), TokenId(1)),
            ("##é".to_string(), TokenId(2)),
        ]
    };
    let at4 = WordPiece::new(&vocab(), "[UNK]", "##", 4).unwrap();
    assert_eq!(enc(&at4, "éééé"), vec![1, 2, 2, 2]);
    let at3 = WordPiece::new(&vocab(), "[UNK]", "##", 3).unwrap();
    assert_eq!(enc(&at3, "éééé"), vec![0]);

    let ascii = WordPiece::new(
        &vec![
            ("[UNK]".to_string(), TokenId(0)),
            ("a".to_string(), TokenId(1)),
            ("##a".to_string(), TokenId(2)),
        ],
        "[UNK]",
        "##",
        4,
    )
    .unwrap();
    assert_eq!(enc(&ascii, "aaaa"), vec![1, 2, 2, 2]);
    assert_eq!(enc(&ascii, "aaaaa"), vec![0]);
}

/// A non-`##` prefix must work, and a piece is classified by prefix at
/// load time rather than by lookup order.
#[test]
fn wordpiece_custom_prefix() {
    let wp = WordPiece::new(
        &vec![
            ("<unk>".to_string(), TokenId(0)),
            ("foo".to_string(), TokenId(1)),
            ("@@bar".to_string(), TokenId(2)),
        ],
        "<unk>",
        "@@",
        100,
    )
    .unwrap();
    assert_eq!(enc(&wp, "foobar"), vec![1, 2]);
    assert_eq!(wp.prefix(), "@@");
}

/// Multi-byte candidates must not be split mid-character by the byte-wise
/// backoff: with `é` (2 bytes) in the vocab, `"éa"` must find `é` even
/// though the backoff probes the 1-byte prefix 0xC3 on the way down.
#[test]
fn wordpiece_bytewise_backoff_cannot_match_partial_char() {
    let wp = WordPiece::new(
        &vec![
            ("[UNK]".to_string(), TokenId(0)),
            ("é".to_string(), TokenId(1)),
            ("##a".to_string(), TokenId(2)),
        ],
        "[UNK]",
        "##",
        100,
    )
    .unwrap();
    assert_eq!(enc(&wp, "éa"), vec![1, 2]);
}

/// A vocab without its own unk token is a load error, not a panic at
/// encode time.
#[test]
fn wordpiece_missing_unk_is_an_error() {
    let err = WordPiece::new(&vec![("a".to_string(), TokenId(0))], "[UNK]", "##", 100)
        .expect_err("should reject");
    assert!(err.message().contains("[UNK]"), "{}", err.message());
}
