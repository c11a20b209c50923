//! Embedders: which model a spec names, where an ollama server is asked,
//! what a mock embedder derives its vectors from, and how vectors are laid
//! out as bytes in the brain. The HTTP exchange and the floating-point
//! arithmetic stand outside the library; vectors are handled here as the
//! bit patterns of their `f32` components.
use vstd::prelude::*;

use crate::ingest::{sha256_digest, sha256_digest_of};
use crate::text::{
    char_vecs, chars_of, concat_str, has_prefix, nth_field, split_chars, starts_with_chars,
    string_of, sub_chars,
};

verus! {

broadcast use vstd::string::group_string_axioms;

/// An embedder: the spec it was configured with (`"ollama:<model>"` or
/// `"mock:<name>"`), the server URL, the model, and the vector width.
#[derive(Debug)]
pub struct Embedder {
    pub spec: String,
    pub url: String,
    pub model: String,
    pub dims: usize,
}

/// `s` without any trailing `c` (`str::trim_end_matches` with a character).
pub open spec fn trim_trailing(s: Seq<char>, c: char) -> Seq<char>
    decreases s.len(),
{
    if s.len() > 0 && s.last() == c {
        trim_trailing(s.drop_last(), c)
    } else {
        s
    }
}

/// `trim_trailing(s, c)` is `s` less exactly its trailing run of `c`: a
/// prefix of `s` that does not end in `c`, followed in `s` by nothing but
/// `c`. A text that does not end in `c` is kept whole.
pub proof fn lemma_trim_trailing(s: Seq<char>, c: char)
    ensures
        ({
            let r = trim_trailing(s, c);
            &&& r.len() <= s.len()
            &&& r == s.subrange(0, r.len() as int)
            &&& forall|i: int| r.len() <= i < s.len() ==> s[i] == c
            &&& r.len() == 0 || r.last() != c
            &&& (s.len() == 0 || s.last() != c) ==> r == s
        }),
    decreases s.len(),
{
    if s.len() > 0 && s.last() == c {
        lemma_trim_trailing(s.drop_last(), c);
        let r = trim_trailing(s, c);
        assert(r == s.drop_last().subrange(0, r.len() as int));
        assert(r =~= s.subrange(0, r.len() as int));
        assert forall|i: int| r.len() <= i < s.len() implies s[i] == c by {
            if i < s.len() - 1 {
                assert(s[i] == s.drop_last()[i]);
            }
        }
    } else {
        assert(s =~= s.subrange(0, s.len() as int));
    }
}

/// The model of an embedder spec: its second `:`-separated field, or the
/// whole spec when it has no `:`.
pub open spec fn embedder_model(spec: Seq<char>) -> Seq<char> {
    match nth_field(spec, ':', 1) {
        Some(m) => m,
        None => spec,
    }
}

/// When an embedder spec names a model, the embedder uses the model that
/// `parse_embedder` reads from the same spec when the configuration is made.
pub proof fn lemma_model_agrees_with_config(spec: Seq<char>)
    requires
        nth_field(spec, ':', 1) is Some,
    ensures
        embedder_model(spec) == crate::config::spec_model(spec),
{
}

/// A request for one embedding from an ollama server: the server, the
/// endpoint to try first, the older endpoint to fall back to, the model and the text.
#[derive(Debug)]
pub struct EmbedRequest {
    pub server: String,
    pub endpoint: String,
    pub fallback: String,
    pub model: String,
    pub input: String,
}

/// What a probe of the embedder takes: nothing for a mock embedder, one
/// embedding of `"ping"` from a server otherwise.
#[derive(Debug)]
pub enum Probe {
    Ready,
    Ping(EmbedRequest),
}

impl Embedder {
    /// `Embedder::new`: the model is the spec's second `:`-separated field
    /// (the whole spec without one); the URL loses its trailing slashes.
    pub fn new(spec: &str, url: &str, dims: u32) -> (e: Embedder)
        ensures
            e.spec@ == spec@,
            e.url@ == trim_trailing(url@, '/'),
            e.url@ == url@.subrange(0, e.url@.len() as int),
            forall|i: int| e.url@.len() <= i < url@.len() ==> url@[i] == '/',
            e.url@.len() == 0 || e.url@.last() != '/',
            e.model@ == embedder_model(spec@),
            e.dims == dims as usize,
    {
        proof {
            lemma_trim_trailing(url@, '/');
        }
        let chars = chars_of(spec);
        let fields = split_chars(&chars, ':');
        assert(char_vecs(fields@).len() == fields@.len());
        let model = if fields.len() > 1 {
            assert(char_vecs(fields@)[1] == fields@[1]@);
            string_of(&fields[1])
        } else {
            string_of(&chars)
        };
        let u = chars_of(url);
        let mut n: usize = u.len();
        assert(u@.subrange(0, n as int) =~= u@);
        while n > 0 && u[n - 1] == '/'
            invariant
                n <= u.len(),
                trim_trailing(u@, '/') == trim_trailing(u@.subrange(0, n as int), '/'),
            decreases n,
        {
            assert(u@.subrange(0, n as int).drop_last() =~= u@.subrange(0, n - 1));
            n = n - 1;
        }
        let trimmed = sub_chars(&u, 0, n);
        Embedder { spec: string_of(&chars), url: string_of(&trimmed), model, dims: dims as usize }
    }

    /// `is_mock`: the spec begins with `mock:`.
    pub fn is_mock(&self) -> (b: bool)
        ensures
            b == has_prefix(self.spec@, "mock:"@),
    {
        let s = chars_of(self.spec.as_str());
        let p = chars_of("mock:");
        starts_with_chars(&s, &p)
    }

    /// The request for an embedding of `text`: `<url>/api/embed` first,
    /// `<url>/api/embeddings` if that fails.
    pub fn ollama_request(&self, text: &str) -> (r: EmbedRequest)
        ensures
            r.server@ == self.url@,
            r.endpoint@ == self.url@ + "/api/embed"@,
            r.fallback@ == self.url@ + "/api/embeddings"@,
            r.model@ == self.model@,
            r.input@ == text@,
    {
        EmbedRequest {
            server: string_of(&chars_of(self.url.as_str())),
            endpoint: concat_str(self.url.as_str(), "/api/embed"),
            fallback: concat_str(self.url.as_str(), "/api/embeddings"),
            model: string_of(&chars_of(self.model.as_str())),
            input: string_of(&chars_of(text)),
        }
    }

    /// `probe`: a mock embedder is always ready; any other is asked for an
    /// embedding of `"ping"`.
    pub fn probe(&self) -> (p: Probe)
        ensures
            has_prefix(self.spec@, "mock:"@) ==> p is Ready,
            !has_prefix(self.spec@, "mock:"@) ==> (p matches Probe::Ping(r) && r.server@ == self.url@
                && r.endpoint@
                == self.url@ + "/api/embed"@ && r.fallback@ == self.url@ + "/api/embeddings"@
                && r.model@ == self.model@ && r.input@ == "ping"@),
    {
        if self.is_mock() {
            Probe::Ready
        } else {
            Probe::Ping(self.ollama_request("ping"))
        }
    }
}

/// The bytes a mock embedding of `text` is computed from: the SHA-256
/// digest of the text, repeated to `dims` bytes.
pub open spec fn mock_seed_of(text: Seq<char>, dims: nat) -> Seq<u8> {
    let d = sha256_digest_of(vstd::utf8::encode_utf8(text));
    Seq::new(dims, |i: int| d[i % 32])
}

/// `digest` repeated to `dims` bytes: byte `i` is `digest[i % 32]`.
pub fn seed_from_digest(digest: &[u8], dims: usize) -> (out: Vec<u8>)
    requires
        digest@.len() == 32,
    ensures
        out@ == Seq::new(dims as nat, |i: int| digest@[i % 32]),
{
    let mut out: Vec<u8> = Vec::new();
    let mut i: usize = 0;
    while i < dims
        invariant
            i <= dims,
            digest@.len() == 32,
            out@ =~= Seq::new(dims as nat, |i: int| digest@[i % 32]).take(i as int),
        decreases dims - i,
    {
        out.push(digest[i % 32]);
        i = i + 1;
    }
    assert(Seq::new(dims as nat, |i: int| digest@[i % 32]).take(dims as int) =~= Seq::new(
        dims as nat,
        |i: int| digest@[i % 32],
    ));
    out
}

/// The bytes a mock embedding of `text` is computed from: component `i` of
/// the vector is derived from byte `i` of the result.
pub fn mock_seed(text: &str, dims: usize) -> (out: Vec<u8>)
    ensures
        out@ == mock_seed_of(text@, dims as nat),
{
    let digest = sha256_digest(text.as_bytes());
    seed_from_digest(digest.as_slice(), dims)
}

// ---------------------------------------------------------------------------
// Vector layout in the brain
// ---------------------------------------------------------------------------

/// Byte `j` (0 to 3, least significant first) of `w`.
pub open spec fn byte_of(w: u32, j: int) -> u8 {
    if j == 0 {
        (w & 0xff) as u8
    } else if j == 1 {
        ((w >> 8u32) & 0xff) as u8
    } else if j == 2 {
        ((w >> 16u32) & 0xff) as u8
    } else {
        ((w >> 24u32) & 0xff) as u8
    }
}

/// The word whose little-endian bytes are `b0, b1, b2, b3`.
pub open spec fn le_word(b0: u8, b1: u8, b2: u8, b3: u8) -> u32 {
    (b0 as u32) | ((b1 as u32) << 8u32) | ((b2 as u32) << 16u32) | ((b3 as u32) << 24u32)
}

/// `packing`: each word as four little-endian bytes, in order.
pub open spec fn packed(ws: Seq<u32>) -> Seq<u8> {
    Seq::new(4 * ws.len(), |k: int| byte_of(ws[k / 4], k % 4))
}

/// `unpacking`: each whole group of four bytes as a little-endian word; a
/// trailing group of fewer than four bytes is dropped.
pub open spec fn unpacked(bs: Seq<u8>) -> Seq<u32> {
    Seq::new(bs.len() / 4, |i: int| le_word(bs[4 * i], bs[4 * i + 1], bs[4 * i + 2], bs[4 * i + 3]))
}

proof fn lemma_word_bytes(w: u32)
    ensures
        le_word(byte_of(w, 0), byte_of(w, 1), byte_of(w, 2), byte_of(w, 3)) == w,
{
    assert(((w & 0xff) as u8) as u32 | ((((w >> 8u32) & 0xff) as u8) as u32) << 8u32 | ((((w
        >> 16u32) & 0xff) as u8) as u32) << 16u32 | ((((w >> 24u32) & 0xff) as u8) as u32)
        << 24u32 == w) by (bit_vector);
}

proof fn lemma_bytes_word(b0: u8, b1: u8, b2: u8, b3: u8)
    ensures
        byte_of(le_word(b0, b1, b2, b3), 0) == b0,
        byte_of(le_word(b0, b1, b2, b3), 1) == b1,
        byte_of(le_word(b0, b1, b2, b3), 2) == b2,
        byte_of(le_word(b0, b1, b2, b3), 3) == b3,
{
    let w = le_word(b0, b1, b2, b3);
    assert(w == (b0 as u32) | ((b1 as u32) << 8u32) | ((b2 as u32) << 16u32) | ((b3 as u32)
        << 24u32));
    assert((((b0 as u32) | ((b1 as u32) << 8u32) | ((b2 as u32) << 16u32) | ((b3 as u32)
        << 24u32)) & 0xff) as u8 == b0) by (bit_vector);
    assert(((((b0 as u32) | ((b1 as u32) << 8u32) | ((b2 as u32) << 16u32) | ((b3 as u32)
        << 24u32)) >> 8u32) & 0xff) as u8 == b1) by (bit_vector);
    assert(((((b0 as u32) | ((b1 as u32) << 8u32) | ((b2 as u32) << 16u32) | ((b3 as u32)
        << 24u32)) >> 16u32) & 0xff) as u8 == b2) by (bit_vector);
    assert(((((b0 as u32) | ((b1 as u32) << 8u32) | ((b2 as u32) << 16u32) | ((b3 as u32)
        << 24u32)) >> 24u32) & 0xff) as u8 == b3) by (bit_vector);
}

proof fn lemma_div_mod_4(i: int, j: int)
    requires
        0 <= i,
        0 <= j < 4,
    ensures
        (4 * i + j) / 4 == i,
        (4 * i + j) % 4 == j,
{
    assert((4 * i + j) / 4 == i) by (nonlinear_arith)
        requires
            0 <= i,
            0 <= j < 4,
    ;
    assert((4 * i + j) % 4 == j) by (nonlinear_arith)
        requires
            0 <= i,
            0 <= j < 4,
    ;
}

/// Unpacking what was packed gives back the words.
pub proof fn lemma_unpack_pack(ws: Seq<u32>)
    ensures
        unpacked(packed(ws)) == ws,
{
    let p = packed(ws);
    assert(p.len() / 4 == ws.len()) by (nonlinear_arith)
        requires
            p.len() == 4 * ws.len(),
    ;
    assert forall|i: int| 0 <= i < ws.len() implies #[trigger] unpacked(p)[i] == ws[i] by {
        lemma_div_mod_4(i, 0);
        lemma_div_mod_4(i, 1);
        lemma_div_mod_4(i, 2);
        lemma_div_mod_4(i, 3);
        assert(4 * i + 3 < p.len()) by (nonlinear_arith)
            requires
                0 <= i < ws.len(),
                p.len() == 4 * ws.len(),
        ;
        lemma_word_bytes(ws[i]);
    }
    assert(unpacked(p) =~= ws);
}

/// Packing what was unpacked gives back the bytes, up to the last whole
/// group of four.
pub proof fn lemma_pack_unpack(bs: Seq<u8>)
    ensures
        packed(unpacked(bs)) == bs.take((4 * (bs.len() / 4)) as int),
{
    let u = unpacked(bs);
    let n = bs.len() / 4;
    assert(4 * n <= bs.len()) by (nonlinear_arith)
        requires
            n == bs.len() / 4,
    ;
    assert forall|k: int| 0 <= k < 4 * n implies #[trigger] packed(u)[k] == bs[k] by {
        let i = k / 4;
        let j = k % 4;
        assert(k == 4 * i + j && 0 <= i < n && 0 <= j < 4) by (nonlinear_arith)
            requires
                0 <= k < 4 * n,
                i == k / 4,
                j == k % 4,
        ;
        lemma_div_mod_4(i, 0);
        lemma_div_mod_4(i, 3);
        lemma_bytes_word(bs[4 * i], bs[4 * i + 1], bs[4 * i + 2], bs[4 * i + 3]);
    }
    assert(packed(u) =~= bs.take((4 * (bs.len() / 4)) as int));
}

fn byte_of_exec(w: u32, j: usize) -> (b: u8)
    requires
        j < 4,
    ensures
        b == byte_of(w, j as int),
{
    if j == 0 {
        (w & 0xff) as u8
    } else if j == 1 {
        ((w >> 8u32) & 0xff) as u8
    } else if j == 2 {
        ((w >> 16u32) & 0xff) as u8
    } else {
        ((w >> 24u32) & 0xff) as u8
    }
}

/// `packing`: a vector (given by the bit patterns of its components) as the
/// bytes stored in the brain, four little-endian bytes per component.
pub fn packing(v: &[u32]) -> (out: Vec<u8>)
    requires
        4 * v@.len() <= usize::MAX,
    ensures
        out@ == packed(v@),
{
    let mut out: Vec<u8> = Vec::new();
    let mut i: usize = 0;
    while i < v.len()
        invariant
            i <= v@.len(),
            4 * v@.len() <= usize::MAX,
            out@ == packed(v@.take(i as int)),
        decreases v.len() - i,
    {
        let w = v[i];
        let mut j: usize = 0;
        while j < 4
            invariant
                i < v@.len(),
                w == v@[i as int],
                j <= 4,
                out@.len() == 4 * i + j,
                forall|k: int| 0 <= k < 4 * i + j ==> out@[k] == byte_of(v@[k / 4], k % 4),
            decreases 4 - j,
        {
            out.push(byte_of_exec(w, j));
            proof {
                lemma_div_mod_4(i as int, j as int);
            }
            j = j + 1;
        }
        i = i + 1;
        assert(out@ =~= packed(v@.take(i as int))) by {
            assert forall|k: int| 0 <= k < 4 * i implies out@[k] == byte_of(
                v@.take(i as int)[k / 4],
                k % 4,
            ) by {
                assert(0 <= k / 4 < i) by (nonlinear_arith)
                    requires
                        0 <= k < 4 * i,
                ;
            }
        }
    }
    assert(v@.take(v@.len() as int) =~= v@);
    out
}

/// `unpacking`: the stored bytes of a vector back as the bit patterns of
/// its components; a trailing group of fewer than four bytes is dropped.
pub fn unpacking(b: &[u8]) -> (out: Vec<u32>)
    ensures
        out@ == unpacked(b@),
        out@.len() == b@.len() / 4,
{
    let n = b.len() / 4;
    let mut out: Vec<u32> = Vec::new();
    let mut i: usize = 0;
    while i < n
        invariant
            n == b@.len() / 4,
            i <= n,
            out@ =~= unpacked(b@).take(i as int),
        decreases n - i,
    {
        let len = b.len();
        assert(4 * i + 3 < len) by (nonlinear_arith)
            requires
                i < n,
                n == len / 4,
        ;
        let k = 4 * i;
        let w = (b[k] as u32) | ((b[k + 1] as u32) << 8u32) | ((b[k + 2] as u32) << 16u32) | ((b[k
            + 3] as u32) << 24u32);
        out.push(w);
        i = i + 1;
    }
    assert(unpacked(b@).take(n as int) =~= unpacked(b@));
    out
}

} // verus!
