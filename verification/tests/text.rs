//! Text and its encoding.

use gigatoken::bpe::decode::{cleanup, replace};
use gigatoken::bpe::tiktoken::{AddedTokenDef, Tokenizer};
use gigatoken::bpe::wordpiece::{WordPiece, WordPieceDecoder};
use gigatoken::pretokenize::options::PretokenizerType;
use gigatoken::text::{chars_of, join, same, show_decimal, show_list, split_space};
use gigatoken::utf8::{
    decode_at, decode_cp, decode_first, decode_last, decode_last_len, push_char, trim_to_utf8,
};
use gigatoken::TokenId;

#[test]
fn characters_are_decoded_at_either_end() {
    let s = "aé好🙂".as_bytes();
    assert_eq!(decode_at(s, 0), Some(('a' as u32, 1)));
    assert_eq!(decode_at(s, 1), Some(('é' as u32, 2)));
    assert_eq!(decode_at(s, 2), None, "inside a character");
    assert_eq!(decode_at(s, 3), Some(('好' as u32, 3)));
    assert_eq!(decode_at(s, 6), Some(('🙂' as u32, 4)));
    assert_eq!(decode_cp(s, 2), (0xFFFD, 1));
    assert_eq!(decode_cp(s, 3), ('好' as u32, 3));
    assert_eq!(decode_first(s), Some('a' as u32));
    assert_eq!(decode_last(s), Some('🙂' as u32));
    assert_eq!(decode_last_len(s), Some(('🙂' as u32, 4)));
    assert_eq!(decode_first(b""), None);
    assert_eq!(decode_last(b"\x80"), None);
    assert_eq!(decode_at(b"\xc0\x80", 0), None, "overlong");
    assert_eq!(decode_at(b"\xed\xa0\x80", 0), None, "a surrogate");
}

#[test]
fn characters_are_encoded() {
    let mut out = b"x".to_vec();
    for c in ['a', 'é', '好', '🙂'] {
        push_char(&mut out, c);
    }
    assert_eq!(out, "xaé好🙂".as_bytes());
}

#[test]
fn partial_characters_are_dropped_at_the_end() {
    for (bytes, left) in [
        (&b""[..], 0),
        (b"ab", 2),
        (b"ab\xe5\xa5", 2),
        (b"a\xff", 1),
        (b"\xffab", 0),
        ("好".as_bytes(), 3),
    ] {
        let mut buf = bytes.to_vec();
        trim_to_utf8(&mut buf);
        assert_eq!(buf, &bytes[..left]);
    }
}

#[test]
fn strings_are_compared_split_and_joined() {
    assert!(same("é", "é") && !same("e", "é") && same("", ""));
    assert_eq!(chars_of("aé"), vec!['a', 'é']);
    assert_eq!(split_space("aé b c"), Some(("aé".to_string(), "b c".to_string())));
    assert_eq!(split_space(" "), Some((String::new(), String::new())));
    assert_eq!(split_space("ab"), None);
    assert_eq!(join("a", "b"), "ab");
    assert_eq!(show_decimal(0), "0");
    assert_eq!(show_decimal(u64::MAX), u64::MAX.to_string());
    let list = vec!["a\"".to_string(), "b\n".to_string()];
    assert_eq!(show_list(&list), format!("{list:?}"));
    assert_eq!(show_list(&Vec::new()), "[]");
}

#[test]
fn patterns_are_replaced_from_left_to_right() {
    assert_eq!(replace(b"aaa", b"aa", b"b"), b"ba");
    assert_eq!(replace(b"abab", b"ab", b"abab"), b"abababab");
    assert_eq!(replace(b"ab", b"", b"x"), b"ab");
}

#[test]
fn punctuation_is_tidied() {
    assert_eq!(cleanup(b" ."), b".");
    assert_eq!(cleanup(b"a ? b ! c , d"), b"a? b! c, d");
    assert_eq!(cleanup(b"do n't"), b"don't");
    assert_eq!(cleanup(b"I 'm he 's we 've they 're"), b"I'm he's we've they're");
}

fn words() -> Tokenizer {
    let vocab = ["[UNK]", "ab", "##cd", "abcd", "é"];
    let entries: Vec<(String, TokenId)> =
        vocab.iter().enumerate().map(|(i, p)| (p.to_string(), TokenId(i as u32))).collect();
    let model = WordPiece::new(&entries, "[UNK]", "##", 4).unwrap();
    let bytes = vocab.iter().map(|p| p.as_bytes().to_vec()).collect();
    let mut t = Tokenizer::new_wordpiece(model, bytes);
    t.scheme = PretokenizerType::Bert;
    t
}

fn tokens(t: &Tokenizer, text: &[u8]) -> Vec<u32> {
    let mut out = Vec::new();
    t.encode_with_added_tokens_flat(text, &mut out);
    out
}

/// A word that is a piece of its own is that piece, unless it is too long.
#[test]
fn whole_words_are_single_pieces() {
    let t = words();
    assert_eq!(tokens(&t, b"abcd"), vec![3]);
    assert_eq!(tokens(&t, b"ab abcdcd"), vec![1, 0]);
    assert_eq!(tokens(&t, b""), Vec::<u32>::new());
}

#[test]
fn wordpiece_text_is_put_together() {
    let mut t = words();
    let ids = [TokenId(1), TokenId(2), TokenId(9), TokenId(4)];
    assert_eq!(t.decode_wordpiece(&ids).unwrap(), "ab ##cd é");
    t.set_wordpiece_decoder(Some(WordPieceDecoder { prefix: "##".to_string(), cleanup: false }));
    assert_eq!(t.decode_wordpiece(&ids).unwrap(), "abcd é");
    assert_eq!(t.decode_wordpiece(&[TokenId(2)]).unwrap(), "##cd", "the first piece keeps its prefix");
    assert_eq!(t.decode_wordpiece(&[]).unwrap(), "");
    t.vocab[1] = vec![0xff];
    assert_eq!(t.decode_wordpiece(&ids), None);
    assert_eq!(t.decode(&[TokenId(2), TokenId(9), TokenId(3)]), b"##cdabcd");
}

#[test]
fn the_longest_added_token_is_matched_first() {
    let mut t = words();
    for (content, id) in [("<a>", 10), ("<a>b", 11), ("", 12), ("<a>b", 13)] {
        t.added_tokens.push(AddedTokenDef {
            content: content.as_bytes().to_vec(),
            id: TokenId(id),
            lstrip: false,
            rstrip: false,
        });
    }
    assert_eq!(tokens(&t, b"ab<a>b<a>ab"), vec![1, 11, 10, 1]);
    assert_eq!(tokens(&t, b"<a>"), vec![10]);
    assert_eq!(tokens(&t, "é<a".as_bytes()), vec![4, 0, 0]);
}
