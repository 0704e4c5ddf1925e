use mnemo::embeddings::HashingEmbedder;

#[test]
fn counts_have_the_configured_dimension() {
    let emb = HashingEmbedder::new(128);
    assert_eq!(emb.dimension(), 128);
    assert_eq!(emb.token_counts("some text").len(), 128);
    assert_eq!(HashingEmbedder::default_dim().dimension(), 384);
    assert_eq!(emb.model_name(), "hashing");
    assert_eq!(emb.model_version(), "0.1.0");
}

#[test]
fn empty_text_has_zero_counts() {
    let emb = HashingEmbedder::default_dim();
    assert!(emb.token_counts("").iter().all(|&c| c == 0));
    assert!(emb.token_counts(" \n\t ").iter().all(|&c| c == 0));
}

#[test]
fn a_token_lands_in_its_fnv_bucket_with_its_sign() {
    let emb = HashingEmbedder::default_dim();
    let counts = emb.token_counts("a");
    // FNV-1a of "a" is 0xaf63dc4c8601ec8c: bucket 268 of 384, top bit set.
    assert_eq!(counts[268], -1);
    assert_eq!(counts.iter().filter(|&&c| c != 0).count(), 1);
    let twice = emb.token_counts("a A");
    assert_eq!(twice[268], -2);
    let accented = HashingEmbedder::new(16).token_counts("HÉLLO");
    assert_eq!(accented[0], -1);
}

#[test]
fn counts_are_deterministic() {
    let emb = HashingEmbedder::default_dim();
    assert_eq!(emb.token_counts("hello world"), emb.token_counts("hello world"));
    assert_ne!(emb.token_counts("rust programming"), emb.token_counts("french cooking"));
}

#[test]
fn counts_ignore_token_order_and_case() {
    let emb = HashingEmbedder::new(64);
    let a = emb.token_counts("Rust memory engine rust");
    let b = emb.token_counts("engine RUST rust\tMemory");
    assert_eq!(a, b);
    let total: i128 = a.iter().map(|c| c.abs()).sum();
    assert!(total > 0);
}

#[test]
fn new_chunks_get_version_four_ids() {
    let doc = mnemo::ids::DocumentId::new();
    let chunk = mnemo::models::Chunk::new(doc, String::from("some text"), 3);
    assert_eq!((chunk.id.0 >> 76) & 0xf, 4);
    assert_eq!(chunk.document_id, doc);
    assert_eq!(chunk.end_offset, 9);
    assert_eq!(chunk.chunk_index, 3);
}

#[test]
fn ids_carry_the_rfc_4122_variant() {
    for _ in 0..8 {
        let id = mnemo::ids::SourceId::new();
        assert_eq!((id.0 >> 62) & 3, 2);
        assert_eq!((id.0 >> 76) & 0xf, 4);
    }
    let chunk = mnemo::models::Chunk::new(mnemo::ids::DocumentId::new(), String::from("x"), 0);
    assert_eq!((chunk.id.0 >> 62) & 3, 2);
}
