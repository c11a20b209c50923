use cos_engine::embed::{mock_seed, packing, seed_from_digest, unpacking, Embedder, Probe};
use cos_engine::ingest::sha256;

#[test]
fn new_takes_model_and_trims_url() {
    let e = Embedder::new("ollama:nomic-embed-text", "http://h:11434//", 768);
    assert_eq!(e.model, "nomic-embed-text");
    assert_eq!(e.url, "http://h:11434");
    assert_eq!(e.dims, 768);
    assert_eq!(e.spec, "ollama:nomic-embed-text");
    let e = Embedder::new("bare", "u", 3);
    assert_eq!(e.model, "bare");
}

#[test]
fn mock_is_recognised_by_prefix() {
    assert!(Embedder::new("mock:hash", "u", 8).is_mock());
    assert!(!Embedder::new("ollama:mock", "u", 8).is_mock());
    assert!(!Embedder::new("mock", "u", 8).is_mock());
}

#[test]
fn probe_of_mock_is_ready() {
    assert!(matches!(Embedder::new("mock:hash", "u", 8).probe(), Probe::Ready));
}

#[test]
fn probe_of_server_pings() {
    match Embedder::new("ollama:m", "http://h/", 8).probe() {
        Probe::Ping(r) => {
            assert_eq!(r.server, "http://h");
            assert_eq!(r.endpoint, "http://h/api/embed");
            assert_eq!(r.fallback, "http://h/api/embeddings");
            assert_eq!(r.model, "m");
            assert_eq!(r.input, "ping");
        }
        Probe::Ready => panic!("a server must be pinged"),
    }
}

#[test]
fn mock_seed_repeats_the_digest() {
    let seed = mock_seed("hello", 70);
    assert_eq!(seed.len(), 70);
    let hex = sha256("hello");
    let digest: Vec<u8> = (0..32)
        .map(|i| u8::from_str_radix(&hex[2 * i..2 * i + 2], 16).unwrap())
        .collect();
    for i in 0..70 {
        assert_eq!(seed[i], digest[i % 32]);
    }
    assert_ne!(mock_seed("hello", 4), mock_seed("hellp", 4));
}

#[test]
fn seed_from_digest_cycles() {
    let d: Vec<u8> = (0u8..32).collect();
    let s = seed_from_digest(&d, 35);
    assert_eq!(s[31], 31);
    assert_eq!(s[32], 0);
    assert_eq!(s[34], 2);
}

#[test]
fn packing_is_little_endian() {
    assert_eq!(packing(&[1.0f32.to_bits()]), vec![0x00, 0x00, 0x80, 0x3f]);
    assert_eq!(packing(&[0x0403_0201, 0xdead_beef]), vec![1, 2, 3, 4, 0xef, 0xbe, 0xad, 0xde]);
    assert!(packing(&[]).is_empty());
}

#[test]
fn unpacking_drops_a_partial_group() {
    assert_eq!(unpacking(&[1, 2, 3, 4, 9, 9]), vec![0x0403_0201]);
    assert!(unpacking(&[1, 2, 3]).is_empty());
}

#[test]
fn unpack_of_pack_round_trips() {
    let v: Vec<u32> = vec![0, 1, u32::MAX, 0x3f80_0000, 0x8000_0001];
    assert_eq!(unpacking(&packing(&v)), v);
    let f = [0.25f32, -1.5, f32::MAX];
    let back: Vec<f32> = unpacking(&packing(&f.map(f32::to_bits)))
        .into_iter()
        .map(f32::from_bits)
        .collect();
    assert_eq!(back, f.to_vec());
}

#[test]
fn pack_of_unpack_keeps_whole_groups() {
    let b = vec![9, 8, 7, 6, 5, 4, 3, 2, 1];
    assert_eq!(packing(&unpacking(&b)), b[..8].to_vec());
}

#[test]
fn embedder_model_agrees_with_config() {
    for spec in ["ollama:nomic-embed-text", "mock:hash", "x:y:z"] {
        assert_eq!(Embedder::new(spec, "u", 1).model, cos_engine::config::Config::parse_embedder(spec).0);
    }
}
