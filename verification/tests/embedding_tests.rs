use vecstore::embedding::{embed_lanes, BYTE_SCALE, DIM};

fn embed(text: &str) -> Vec<f32> {
    embed_lanes(text)
        .iter()
        .map(|lane| lane.iter().fold(0f32, |sum, b| sum + (*b as f32) / (BYTE_SCALE as f32)))
        .collect()
}

fn embed_in_one_pass(text: &str) -> Vec<f32> {
    let mut v = vec![0f32; 8];
    for (i, b) in text.bytes().enumerate() {
        v[i % 8] += (b as f32) / 255.0;
    }
    v
}

#[test]
fn constants() {
    assert_eq!(DIM, 8);
    assert_eq!(BYTE_SCALE, 255);
}

#[test]
fn empty_text_has_eight_empty_lanes() {
    let lanes = embed_lanes("");
    assert_eq!(lanes.len(), 8);
    assert!(lanes.iter().all(|lane| lane.is_empty()));
    assert_eq!(embed(""), vec![0f32; 8]);
}

#[test]
fn short_text_fills_leading_lanes() {
    let lanes = embed_lanes("hello");
    assert_eq!(
        lanes,
        vec![vec![104u8], vec![101], vec![108], vec![108], vec![111], vec![], vec![], vec![]]
    );
}

#[test]
fn long_text_wraps_around() {
    let lanes = embed_lanes("abcdefghijklmnopqrs");
    assert_eq!(lanes.len(), 8);
    assert_eq!(lanes[0], b"aiq".to_vec());
    assert_eq!(lanes[1], b"bjr".to_vec());
    assert_eq!(lanes[2], b"cks".to_vec());
    assert_eq!(lanes[3], b"dl".to_vec());
    assert_eq!(lanes[7], b"hp".to_vec());
}

#[test]
fn lanes_follow_bytes_not_characters() {
    let lanes = embed_lanes("\u{e9}a");
    assert_eq!(lanes[0], vec![0xc3]);
    assert_eq!(lanes[1], vec![0xa9]);
    assert_eq!(lanes[2], vec![0x61]);
    assert!(lanes[3].is_empty());
}

#[test]
fn lanes_hold_every_byte_once() {
    for text in ["", "a", "12345678", "123456789", "the quick brown fox jumps over the lazy dog"] {
        let lanes = embed_lanes(text);
        assert_eq!(lanes.len(), DIM);
        assert_eq!(lanes.iter().map(|lane| lane.len()).sum::<usize>(), text.len());
        for (i, b) in text.bytes().enumerate() {
            assert_eq!(lanes[i % 8][i / 8], b);
        }
    }
}

#[test]
fn embedding_is_deterministic() {
    for text in ["", "hello", "world", "\u{10348} and more text than eight bytes"] {
        assert_eq!(embed_lanes(text), embed_lanes(text));
        assert_eq!(embed(text), embed(text));
    }
}

#[test]
fn embedding_has_eight_components() {
    for text in ["", "a", "hello", "exactly8", "more than eight bytes of text"] {
        assert_eq!(embed_lanes(text).len(), 8);
        assert_eq!(embed(text).len(), 8);
    }
}

#[test]
fn embedding_exact_values() {
    let v = embed("hello");
    assert_eq!(
        v,
        vec![104.0f32 / 255.0, 101.0 / 255.0, 108.0 / 255.0, 108.0 / 255.0, 111.0 / 255.0, 0.0, 0.0, 0.0]
    );
    let w = embed("aaaaaaaaa");
    assert_eq!(w[0], 97.0f32 / 255.0 + 97.0f32 / 255.0);
    assert_eq!(w[1], 97.0f32 / 255.0);
}

#[test]
fn folding_lanes_equals_one_pass_accumulation() {
    for text in ["", "hello", "world", "a much longer text, so that every component adds up several bytes"] {
        assert_eq!(embed(text), embed_in_one_pass(text));
    }
}
