//! Ingest: what a vault's markdown files become before they reach the brain.
//! A file's title, content hash and chunks are computed here; which
//! directory entries are walked is decided here; the walk itself reads the
//! disk and stands outside the library.
use vstd::prelude::*;
use sha2::{Digest, Sha256};

use crate::paths::{extension_chars, file_name_chars, file_stem, name_extension, stem_chars};
use crate::text::{
    chars_eq, sub_chars,
    chars_of, char_vecs, char_width_exec, has_content, has_content_chars, has_prefix, lemma_trim_trimmed,
    lemma_utf8_len_concat, lines, lines_of, lines_scan, starts_with_chars, strip_cr, string_of, strings,
    trim, trim_chars, trim_end, trim_start, trim_str, utf8_len,
};

verus! {

broadcast use vstd::string::group_string_axioms;

// ---------------------------------------------------------------------------
// Content hash
// ---------------------------------------------------------------------------

/// The SHA-256 digest of `data`, as computed by the `sha2` crate.
pub uninterp spec fn sha256_digest_of(data: Seq<u8>) -> Seq<u8>;

/// Calls `sha2::Sha256` (`new`, `update(data)`, `finalize`). The contract
/// claims that the digest depends on `data` alone, naming it
/// `sha256_digest_of(data)`, and that it is 32 bytes long (the output size
/// `U32` of `Sha256`). What the digest is, is not stated: SHA-256 is not
/// written out here.
#[verifier::external_body]
pub(crate) fn sha256_digest(data: &[u8]) -> (out: Vec<u8>)
    ensures
        out@ == sha256_digest_of(data@),
        out@.len() == 32,
{
    let mut h = Sha256::new();
    h.update(data);
    h.finalize().to_vec()
}

/// The lower-case hexadecimal digit for `n < 16`.
pub open spec fn hex_digit(n: u8) -> char {
    if n < 10 {
        (48 + n) as char
    } else {
        (87 + n) as char
    }
}

/// `format!("{:x}", bytes)` for a digest: two lower-case hex digits per byte,
/// high nibble first.
pub open spec fn lower_hex(bytes: Seq<u8>) -> Seq<char>
    decreases bytes.len(),
{
    if bytes.len() == 0 {
        seq![]
    } else {
        lower_hex(bytes.drop_last()) + seq![
            hex_digit(bytes.last() / 16),
            hex_digit(bytes.last() % 16),
        ]
    }
}

proof fn lemma_lower_hex_len(bytes: Seq<u8>)
    ensures
        lower_hex(bytes).len() == 2 * bytes.len(),
    decreases bytes.len(),
{
    if bytes.len() > 0 {
        lemma_lower_hex_len(bytes.drop_last());
    }
}

fn hex_digit_exec(n: u8) -> (c: char)
    requires
        n < 16,
    ensures
        c == hex_digit(n),
{
    if n < 10 {
        ((48 + n) as u8) as char
    } else {
        ((87 + n) as u8) as char
    }
}

/// The hex string of `s`'s SHA-256 digest (of its UTF-8 bytes).
pub open spec fn sha256_hex(s: Seq<char>) -> Seq<char> {
    lower_hex(sha256_digest_of(vstd::utf8::encode_utf8(s)))
}

/// `format!("{:x}", digest)`: the digest as lower-case hex, two digits per
/// byte.
pub fn hex_digest(digest: &[u8]) -> (out: String)
    ensures
        out@ == lower_hex(digest@),
        out@.len() == 2 * digest@.len(),
{
    let mut hex: Vec<char> = Vec::new();
    let mut i: usize = 0;
    while i < digest.len()
        invariant
            i <= digest@.len(),
            hex@ == lower_hex(digest@.take(i as int)),
        decreases digest.len() - i,
    {
        let b = digest[i];
        hex.push(hex_digit_exec(b / 16));
        hex.push(hex_digit_exec(b % 16));
        proof {
            let t = digest@.take(i + 1);
            assert(t.drop_last() =~= digest@.take(i as int));
            assert(t.last() == b);
            assert(hex@ =~= lower_hex(t));
        }
        i = i + 1;
    }
    assert(digest@.take(digest@.len() as int) =~= digest@);
    proof {
        lemma_lower_hex_len(digest@);
    }
    string_of(&hex)
}

/// `sha256`: the SHA-256 digest of `s`'s UTF-8 bytes, as 64 lower-case hex
/// digits.
pub fn sha256(s: &str) -> (out: String)
    ensures
        out@ == sha256_hex(s@),
        out@.len() == 64,
{
    let digest = sha256_digest(s.as_bytes());
    hex_digest(digest.as_slice())
}

// ---------------------------------------------------------------------------
// Chunking
// ---------------------------------------------------------------------------

/// The marker of a second-level heading, which opens a new chunk.
pub open spec fn section_marker() -> Seq<char> {
    seq!['#', '#', ' ']
}

/// A chunk is closed once it holds more than this many bytes.
pub open spec fn chunk_byte_limit() -> nat {
    3000
}

/// One line of the chunker: a second-level heading closes the open chunk if
/// it has content; the line and a line feed are appended; a chunk over the
/// byte limit is closed.
pub open spec fn chunk_step(chunks: Seq<Seq<char>>, buf: Seq<char>, line: Seq<char>) -> (
    Seq<Seq<char>>,
    Seq<char>,
) {
    let (c1, b1) = if has_prefix(line, section_marker()) && has_content(buf) {
        (chunks.push(trim(buf)), Seq::<char>::empty())
    } else {
        (chunks, buf)
    };
    let b2 = b1 + line.push('\n');
    if utf8_len(b2) > chunk_byte_limit() {
        (c1.push(trim(b2)), Seq::<char>::empty())
    } else {
        (c1, b2)
    }
}

/// The chunker over the first lines: closed chunks and the open one.
pub open spec fn chunk_scan(ls: Seq<Seq<char>>) -> (Seq<Seq<char>>, Seq<char>)
    decreases ls.len(),
{
    if ls.len() == 0 {
        (seq![], seq![])
    } else {
        let (c, b) = chunk_scan(ls.drop_last());
        chunk_step(c, b, ls.last())
    }
}

/// `chunk_markdown(body)`: the chunks of `body`, each trimmed. After the
/// last line an open chunk with content is closed; a body that gave no
/// chunk at all gives the one chunk `trim(body)`.
pub open spec fn markdown_chunks(body: Seq<char>) -> Seq<Seq<char>> {
    let (c, b) = chunk_scan(lines(body));
    let c2 = if has_content(b) {
        c.push(trim(b))
    } else {
        c
    };
    if c2.len() == 0 {
        seq![trim(body)]
    } else {
        c2
    }
}

/// `trim` leaves a trimmed text unchanged.
pub proof fn lemma_trim_idempotent(s: Seq<char>)
    ensures
        trim(trim(s)) == trim(s),
{
    let t = trim(s);
    lemma_trim_trimmed(s);
    if t.len() > 0 {
        assert(trim_start(t) == t);
        assert(trim_end(t) == t);
    } else {
        assert(trim_start(t) == t);
        assert(trim_end(t) == t);
    }
}

/// Every element of `chunk_scan(ls).0` is trimmed.
proof fn lemma_chunk_scan_trimmed(ls: Seq<Seq<char>>)
    ensures
        forall|i: int|
            0 <= i < chunk_scan(ls).0.len() ==> trim(#[trigger] chunk_scan(ls).0[i])
                == chunk_scan(ls).0[i],
    decreases ls.len(),
{
    if ls.len() > 0 {
        lemma_chunk_scan_trimmed(ls.drop_last());
        let (c, b) = chunk_scan(ls.drop_last());
        let line = ls.last();
        lemma_trim_idempotent(b);
        let b1 = if has_prefix(line, section_marker()) && has_content(b) {
            Seq::<char>::empty()
        } else {
            b
        };
        lemma_trim_idempotent(b1 + line.push('\n'));
    }
}

/// The chunks of a body: never none, and each is trimmed.
pub proof fn lemma_markdown_chunks_shape(body: Seq<char>)
    ensures
        markdown_chunks(body).len() >= 1,
        forall|i: int|
            0 <= i < markdown_chunks(body).len() ==> trim(#[trigger] markdown_chunks(body)[i])
                == markdown_chunks(body)[i],
{
    lemma_chunk_scan_trimmed(lines(body));
    let (c, b) = chunk_scan(lines(body));
    lemma_trim_idempotent(b);
    lemma_trim_idempotent(body);
}

/// The lines `ls`, each followed by a line feed, one after another.
pub open spec fn lines_text(ls: Seq<Seq<char>>) -> Seq<char>
    decreases ls.len(),
{
    if ls.len() == 0 {
        seq![]
    } else {
        lines_text(ls.drop_last()) + ls.last().push('\n')
    }
}

proof fn lemma_push_len(s: Seq<char>, c: char)
    ensures
        utf8_len(s.push(c)) == utf8_len(s) + crate::text::char_width(c),
{
    assert(s.push(c).drop_last() =~= s);
}

proof fn lemma_lines_scan_bytes(s: Seq<char>)
    ensures
        utf8_len(lines_text(lines_scan(s).0)) + utf8_len(lines_scan(s).1) <= utf8_len(s),
    decreases s.len(),
{
    if s.len() > 0 {
        lemma_lines_scan_bytes(s.drop_last());
        let (done, cur) = lines_scan(s.drop_last());
        if s.last() == '\n' {
            let l = strip_cr(cur);
            assert(done.push(l).drop_last() =~= done);
            lemma_utf8_len_concat(lines_text(done), l.push('\n'));
            lemma_push_len(l, '\n');
            assert(utf8_len(l) <= utf8_len(cur));
        } else {
            lemma_push_len(cur, s.last());
        }
    }
}

/// The lines of a text, each with a line feed, take at most one byte more
/// than the text.
proof fn lemma_lines_bytes(s: Seq<char>)
    ensures
        utf8_len(lines_text(lines(s))) <= utf8_len(s) + 1,
{
    lemma_lines_scan_bytes(s);
    let (done, cur) = lines_scan(s);
    if cur.len() > 0 {
        assert(done.push(cur).drop_last() =~= done);
        lemma_utf8_len_concat(lines_text(done), cur.push('\n'));
        lemma_push_len(cur, '\n');
    }
}

proof fn lemma_chunk_scan_plain(ls: Seq<Seq<char>>)
    requires
        forall|i: int| 0 <= i < ls.len() ==> !has_prefix(#[trigger] ls[i], seq!['#', '#', ' ']),
        utf8_len(lines_text(ls)) <= chunk_byte_limit(),
    ensures
        chunk_scan(ls) == (Seq::<Seq<char>>::empty(), lines_text(ls)),
    decreases ls.len(),
{
    if ls.len() > 0 {
        let pre = ls.drop_last();
        lemma_utf8_len_concat(lines_text(pre), ls.last().push('\n'));
        assert forall|i: int| 0 <= i < pre.len() implies !has_prefix(#[trigger] pre[i], seq!['#', '#', ' ']) by {
            assert(pre[i] == ls[i]);
        }
        lemma_chunk_scan_plain(pre);
        assert(section_marker() =~= seq!['#', '#', ' ']);
        assert(!has_prefix(ls[ls.len() - 1], seq!['#', '#', ' ']));
    }
}

/// Only a line that begins with `"## "` opens a new chunk below the byte
/// limit: a body of fewer than 3000 bytes with no such line is one chunk,
/// all of its lines (each with its line feed) trimmed, when they hold any
/// text.
pub proof fn lemma_one_chunk_without_sections(body: Seq<char>)
    requires
        utf8_len(body) < 3000,
        forall|i: int|
            0 <= i < lines(body).len() ==> !has_prefix(#[trigger] lines(body)[i], seq!['#', '#', ' ']),
    ensures
        markdown_chunks(body).len() == 1,
        has_content(lines_text(lines(body))) ==> markdown_chunks(body)[0] == trim(
            lines_text(lines(body)),
        ),
{
    lemma_lines_bytes(body);
    lemma_chunk_scan_plain(lines(body));
}

proof fn lemma_lines_text_split(ls: Seq<Seq<char>>, j: int, k: int)
    requires
        0 <= j <= k <= ls.len(),
    ensures
        lines_text(ls.take(k)) == lines_text(ls.take(j)) + lines_text(ls.subrange(j, k)),
    decreases k - j,
{
    if k > j {
        lemma_lines_text_split(ls, j, k - 1);
        assert(ls.take(k).drop_last() =~= ls.take(k - 1));
        assert(ls.subrange(j, k).drop_last() =~= ls.subrange(j, k - 1));
        assert(ls.take(k).last() == ls[k - 1]);
        assert(ls.subrange(j, k).last() == ls[k - 1]);
    } else {
        assert(ls.subrange(j, k) =~= Seq::<Seq<char>>::empty());
    }
}

proof fn lemma_chunk_scan_after_section(ls: Seq<Seq<char>>, j: int, k: int)
    requires
        0 < j < k <= ls.len(),
        has_prefix(ls[j], seq!['#', '#', ' ']),
        forall|i: int| 0 <= i < ls.len() && i != j ==> !has_prefix(#[trigger] ls[i], seq!['#', '#', ' ']),
        has_content(lines_text(ls.take(j))),
        utf8_len(lines_text(ls)) <= chunk_byte_limit(),
    ensures
        chunk_scan(ls.take(k)) == (seq![trim(lines_text(ls.take(j)))], lines_text(ls.subrange(j, k))),
    decreases k - j,
{
    lemma_lines_text_split(ls, k, ls.len() as int);
    assert(ls.take(ls.len() as int) =~= ls);
    lemma_utf8_len_concat(lines_text(ls.take(k)), lines_text(ls.subrange(k, ls.len() as int)));
    lemma_lines_text_split(ls, j, k);
    lemma_utf8_len_concat(lines_text(ls.take(j)), lines_text(ls.subrange(j, k)));
    assert(ls.take(k).drop_last() =~= ls.take(k - 1));
    assert(ls.take(k).last() == ls[k - 1]);
    assert(section_marker() =~= seq!['#', '#', ' ']);
    if k == j + 1 {
        let pre = ls.take(j);
        assert forall|i: int| 0 <= i < pre.len() implies !has_prefix(#[trigger] pre[i], seq!['#', '#', ' ']) by {
            assert(pre[i] == ls[i]);
        }
        lemma_utf8_len_concat(lines_text(pre), lines_text(ls.subrange(j, k)));
        lemma_chunk_scan_plain(pre);
        assert(ls.subrange(j, k) =~= seq![ls[j]]);
        assert(seq![ls[j]].drop_last() =~= Seq::<Seq<char>>::empty());
        assert(lines_text(seq![ls[j]]) =~= Seq::<char>::empty() + ls[j].push('\n'));
    } else {
        lemma_chunk_scan_after_section(ls, j, k - 1);
        lemma_lines_text_split(ls, j, k - 1);
        assert(ls.subrange(j, k).drop_last() =~= ls.subrange(j, k - 1));
        assert(ls.subrange(j, k).last() == ls[k - 1]);
        assert(!has_prefix(ls[k - 1], seq!['#', '#', ' ']));
    }
}

/// A line that begins with `"## "` opens a new chunk: in a body of fewer
/// than 3000 bytes whose only such line follows lines with text, the text
/// before that line is the first chunk and the line with the rest of the
/// body is the second.
pub proof fn lemma_section_opens_chunk(body: Seq<char>, j: int)
    requires
        utf8_len(body) < 3000,
        0 < j < lines(body).len(),
        has_prefix(lines(body)[j], seq!['#', '#', ' ']),
        forall|i: int|
            0 <= i < lines(body).len() && i != j ==> !has_prefix(
                #[trigger] lines(body)[i],
                seq!['#', '#', ' '],
            ),
        has_content(lines_text(lines(body).take(j))),
    ensures
        markdown_chunks(body) == seq![
            trim(lines_text(lines(body).take(j))),
            trim(lines_text(lines(body).subrange(j, lines(body).len() as int))),
        ],
{
    let ls = lines(body);
    lemma_lines_bytes(body);
    lemma_chunk_scan_after_section(ls, j, ls.len() as int);
    assert(ls.take(ls.len() as int) =~= ls);
    let rest = ls.subrange(j, ls.len() as int);
    lemma_lines_text_split(ls, j, ls.len() as int);
    assert(rest[0] == ls[j]);
    assert(has_content(lines_text(rest))) by {
        lemma_lines_text_split(rest, 1, rest.len() as int);
        assert(rest.take(rest.len() as int) =~= rest);
        assert(rest.take(1).drop_last() =~= Seq::<Seq<char>>::empty());
        assert(lines_text(Seq::<Seq<char>>::empty()) =~= Seq::<char>::empty());
        assert(lines_text(rest.take(1)) =~= ls[j].push('\n'));
        assert(ls[j].subrange(0, 3) =~= seq!['#', '#', ' ']);
        assert(ls[j][0] == ls[j].subrange(0, 3)[0]);
        assert(lines_text(rest)[0] == '#');
        assert(!crate::text::is_white_space(lines_text(rest)[0]));
    }
}

/// `min(utf8_len(s), limit + 1)`: enough to tell whether `s` is over the
/// byte limit.
pub open spec fn capped_len(s: Seq<char>) -> nat {
    if utf8_len(s) > chunk_byte_limit() + 1 {
        chunk_byte_limit() + 1
    } else {
        utf8_len(s)
    }
}

fn push_counted(buf: &mut Vec<char>, cap: usize, c: char) -> (out: usize)
    requires
        cap == capped_len(old(buf)@),
    ensures
        final(buf)@ == old(buf)@.push(c),
        out == capped_len(final(buf)@),
{
    let w = char_width_exec(c);
    buf.push(c);
    proof {
        assert(buf@.drop_last() =~= old(buf)@);
    }
    if cap + w > 3001 {
        3001
    } else {
        cap + w
    }
}

/// `chunk_markdown`: splits a markdown body into chunks at second-level
/// headings (`"## "`), and wherever a chunk grows past 3000 bytes.
pub fn chunk_markdown(body: &str) -> (out: Vec<String>)
    ensures
        strings(out@) == markdown_chunks(body@),
        out@.len() >= 1,
        forall|i: int| 0 <= i < out@.len() ==> trim(#[trigger] out@[i]@) == out@[i]@,
{
    let chars = chars_of(body);
    let ls = lines_of(&chars);
    let marker: Vec<char> = vec!['#', '#', ' '];
    assert(marker@ =~= section_marker());
    let mut chunks: Vec<String> = Vec::new();
    let mut buf: Vec<char> = Vec::new();
    let mut cap: usize = 0;
    let mut i: usize = 0;
    while i < ls.len()
        invariant
            i <= ls.len(),
            marker@ == section_marker(),
            (strings(chunks@), buf@) == chunk_scan(char_vecs(ls@).take(i as int)),
            cap == capped_len(buf@),
        decreases ls.len() - i,
    {
        let line = &ls[i];
        let ghost lines_so_far = char_vecs(ls@).take(i + 1);
        proof {
            assert(lines_so_far.drop_last() =~= char_vecs(ls@).take(i as int));
            assert(lines_so_far.last() == line@);
        }
        if starts_with_chars(line, &marker) && has_content_chars(&buf) {
            let t = trim_chars(&buf);
            let ghost old_chunks = chunks@;
            chunks.push(string_of(&t));
            assert(strings(chunks@) =~= strings(old_chunks).push(t@));
            buf = Vec::new();
            cap = 0;
        }
        let ghost b1 = buf@;
        let mut j: usize = 0;
        while j < line.len()
            invariant
                j <= line.len(),
                buf@ == b1 + line@.take(j as int),
                cap == capped_len(buf@),
            decreases line.len() - j,
        {
            cap = push_counted(&mut buf, cap, line[j]);
            j = j + 1;
            assert(buf@ =~= b1 + line@.take(j as int));
        }
        cap = push_counted(&mut buf, cap, '\n');
        assert(buf@ =~= b1 + line@.push('\n'));
        if cap > 3000 {
            let t = trim_chars(&buf);
            let ghost old_chunks = chunks@;
            chunks.push(string_of(&t));
            assert(strings(chunks@) =~= strings(old_chunks).push(t@));
            buf = Vec::new();
            cap = 0;
        }
        i = i + 1;
    }
    assert(char_vecs(ls@).take(ls.len() as int) =~= char_vecs(ls@));
    if has_content_chars(&buf) {
        let t = trim_chars(&buf);
        let ghost old_chunks = chunks@;
        chunks.push(string_of(&t));
        assert(strings(chunks@) =~= strings(old_chunks).push(t@));
    }
    if chunks.len() == 0 {
        let t = trim_str(body);
        let ghost old_chunks = chunks@;
        chunks.push(t);
        assert(strings(chunks@) =~= strings(old_chunks).push(t@));
    }
    assert(strings(chunks@) == markdown_chunks(body@));
    proof {
        lemma_markdown_chunks_shape(body@);
        assert forall|i: int| 0 <= i < chunks@.len() implies trim(#[trigger] chunks@[i]@)
            == chunks@[i]@ by {
            assert(strings(chunks@)[i] == chunks@[i]@);
            assert(trim(markdown_chunks(body@)[i]) == markdown_chunks(body@)[i]);
        }
    }
    chunks
}

// ---------------------------------------------------------------------------
// Titles
// ---------------------------------------------------------------------------

/// The marker of a first-level heading.
pub open spec fn title_marker() -> Seq<char> {
    seq!['#', ' ']
}

/// The text of the first line that, trimmed, begins with `"# "`: the rest of
/// that trimmed line, trimmed again.
pub open spec fn heading_title(ls: Seq<Seq<char>>) -> Option<Seq<char>>
    decreases ls.len(),
{
    if ls.len() == 0 {
        None
    } else {
        let t = trim(ls[0]);
        if has_prefix(t, title_marker()) {
            Some(trim(t.subrange(2, t.len() as int)))
        } else {
            heading_title(ls.drop_first())
        }
    }
}

/// `title_of(body, rel)`: the first `# ` heading of the body; without one,
/// the file stem of `rel`; without that, `rel` itself.
pub open spec fn page_title(body: Seq<char>, rel: Seq<char>) -> Seq<char> {
    match heading_title(lines(body)) {
        Some(t) => t,
        None => match file_stem(rel) {
            Some(s) => s,
            None => rel,
        },
    }
}

proof fn lemma_heading_title_at(ls: Seq<Seq<char>>, j: int)
    requires
        0 <= j < ls.len(),
        has_prefix(trim(ls[j]), seq!['#', ' ']),
        forall|k: int| 0 <= k < j ==> !has_prefix(trim(#[trigger] ls[k]), seq!['#', ' ']),
    ensures
        heading_title(ls) == Some(trim(trim(ls[j]).subrange(2, trim(ls[j]).len() as int))),
    decreases j,
{
    assert(title_marker() =~= seq!['#', ' ']);
    if j > 0 {
        assert(!has_prefix(trim(ls[0]), seq!['#', ' ']));
        let rest = ls.drop_first();
        assert forall|k: int| 0 <= k < j - 1 implies !has_prefix(trim(#[trigger] rest[k]), seq!['#', ' ']) by {
            assert(rest[k] == ls[k + 1]);
        }
        assert(rest[j - 1] == ls[j]);
        lemma_heading_title_at(rest, j - 1);
    }
}

proof fn lemma_heading_title_none(ls: Seq<Seq<char>>)
    requires
        forall|k: int| 0 <= k < ls.len() ==> !has_prefix(trim(#[trigger] ls[k]), seq!['#', ' ']),
    ensures
        heading_title(ls) is None,
    decreases ls.len(),
{
    assert(title_marker() =~= seq!['#', ' ']);
    if ls.len() > 0 {
        assert(!has_prefix(trim(ls[0]), seq!['#', ' ']));
        let rest = ls.drop_first();
        assert forall|k: int| 0 <= k < rest.len() implies !has_prefix(trim(#[trigger] rest[k]), seq!['#', ' ']) by {
            assert(rest[k] == ls[k + 1]);
        }
        lemma_heading_title_none(rest);
    }
}

/// A page's title comes from the first line of its whole body that,
/// trimmed, begins with `"# "`, wherever that line stands: the rest of the
/// trimmed line, trimmed.
pub proof fn lemma_title_is_first_heading(body: Seq<char>, rel: Seq<char>, j: int)
    requires
        0 <= j < lines(body).len(),
        has_prefix(trim(lines(body)[j]), seq!['#', ' ']),
        forall|k: int| 0 <= k < j ==> !has_prefix(trim(#[trigger] lines(body)[k]), seq!['#', ' ']),
    ensures
        page_title(body, rel) == trim(
            trim(lines(body)[j]).subrange(2, trim(lines(body)[j]).len() as int),
        ),
{
    lemma_heading_title_at(lines(body), j);
}

/// A page with no line that, trimmed, begins with `"# "` is titled by the
/// file stem of its path, or by the path itself when it has no file name.
pub proof fn lemma_title_without_heading(body: Seq<char>, rel: Seq<char>)
    requires
        forall|k: int|
            0 <= k < lines(body).len() ==> !has_prefix(trim(#[trigger] lines(body)[k]), seq!['#', ' ']),
    ensures
        page_title(body, rel) == match file_stem(rel) {
            Some(s) => s,
            None => rel,
        },
{
    lemma_heading_title_none(lines(body));
}

/// `title_of`: the title of a page.
pub fn title_of(body: &str, rel: &str) -> (out: String)
    ensures
        out@ == page_title(body@, rel@),
{
    let chars = chars_of(body);
    let ls = lines_of(&chars);
    let marker: Vec<char> = vec!['#', ' '];
    assert(marker@ =~= title_marker());
    let mut i: usize = 0;
    assert(char_vecs(ls@).subrange(0, ls@.len() as int) =~= char_vecs(ls@));
    while i < ls.len()
        invariant
            i <= ls.len(),
            marker@ == title_marker(),
            heading_title(lines(body@)) == heading_title(
                char_vecs(ls@).subrange(i as int, ls@.len() as int),
            ),
            char_vecs(ls@) == lines(body@),
        decreases ls.len() - i,
    {
        let ghost rest = char_vecs(ls@).subrange(i as int, ls@.len() as int);
        assert(rest[0] == ls@[i as int]@);
        let t = trim_chars(&ls[i]);
        if starts_with_chars(&t, &marker) {
            let after = sub_chars(&t, 2, t.len());
            let title = trim_chars(&after);
            return string_of(&title);
        }
        assert(rest.drop_first() =~= char_vecs(ls@).subrange(i + 1, ls@.len() as int));
        i = i + 1;
    }
    let r = chars_of(rel);
    match file_name_chars(&r) {
        Some(name) => {
            let stem = stem_chars(&name);
            string_of(&stem)
        },
        None => string_of(&r),
    }
}

// ---------------------------------------------------------------------------
// Walking a vault
// ---------------------------------------------------------------------------

/// What the vault walk does with one directory entry.
#[derive(Clone, Copy, Debug, PartialEq, Eq, Structural)]
pub enum EntryKind {
    /// Left out: hidden entries, the engine's own export directory, and
    /// files that are not markdown.
    Skip,
    /// A directory to walk into.
    Descend,
    /// A markdown file to ingest.
    Markdown,
}

/// The name of the engine's export directory inside a vault.
pub open spec fn export_dir_name() -> Seq<char> {
    seq!['g', 'b', 'r', 'a', 'i', 'n']
}

/// What the walk does with an entry called `name`.
pub open spec fn entry_kind(name: Seq<char>, is_dir: bool) -> EntryKind {
    if has_prefix(name, seq!['.']) || name == export_dir_name() {
        EntryKind::Skip
    } else if is_dir {
        EntryKind::Descend
    } else if name_extension(name) == Some(seq!['m', 'd']) {
        EntryKind::Markdown
    } else {
        EntryKind::Skip
    }
}

/// The walk's decision for one directory entry: hidden entries and the
/// export directory are skipped, directories are walked into, and files are
/// ingested when their extension is `md`.
pub fn classify_entry(name: &str, is_dir: bool) -> (kind: EntryKind)
    ensures
        kind == entry_kind(name@, is_dir),
{
    let n = chars_of(name);
    let dot: Vec<char> = vec!['.'];
    let export: Vec<char> = vec!['g', 'b', 'r', 'a', 'i', 'n'];
    assert(dot@ =~= seq!['.']);
    assert(export@ =~= export_dir_name());
    if starts_with_chars(&n, &dot) || chars_eq(&n, &export) {
        return EntryKind::Skip;
    }
    if is_dir {
        return EntryKind::Descend;
    }
    let md: Vec<char> = vec!['m', 'd'];
    assert(md@ =~= seq!['m', 'd']);
    match extension_chars(&n) {
        Some(e) => if chars_eq(&e, &md) {
            EntryKind::Markdown
        } else {
            EntryKind::Skip
        },
        None => EntryKind::Skip,
    }
}

/// `rel` with every backslash turned into a slash.
pub open spec fn forward_slashes(rel: Seq<char>) -> Seq<char> {
    rel.map_values(|c: char| if c == '\\' { '/' } else { c })
}

/// The path of a file relative to its vault, with `/` as the separator.
pub fn normalize_rel(rel: &str) -> (out: String)
    ensures
        out@ == forward_slashes(rel@),
{
    let v = chars_of(rel);
    let mut w: Vec<char> = Vec::new();
    let mut i: usize = 0;
    while i < v.len()
        invariant
            i <= v.len(),
            w@ == forward_slashes(v@.take(i as int)),
        decreases v.len() - i,
    {
        if v[i] == '\\' {
            w.push('/');
        } else {
            w.push(v[i]);
        }
        i = i + 1;
        assert(w@ =~= forward_slashes(v@.take(i as int)));
    }
    assert(v@.take(v.len() as int) =~= v@);
    string_of(&w)
}

/// A markdown file found in a vault, ready to be imported.
#[derive(Clone, Debug)]
pub struct Discovered {
    pub path: String,
    pub rel: String,
    pub title: String,
    pub body: String,
    pub mtime: i64,
    pub hash: String,
    pub chunks: Vec<String>,
}

/// What ingest makes of a file's text: its title, hash and chunks are those
/// of the body.
pub open spec fn discovered_from(
    d: Discovered,
    path: Seq<char>,
    rel: Seq<char>,
    body: Seq<char>,
    mtime: i64,
) -> bool {
    &&& d.path@ == path
    &&& d.rel@ == rel
    &&& d.body@ == body
    &&& d.mtime == mtime
    &&& d.title@ == page_title(body, rel)
    &&& d.hash@ == sha256_hex(body)
    &&& strings(d.chunks@) == markdown_chunks(body)
}

/// Builds the record of a markdown file from its path, its path relative to
/// the vault, its text and its modification time.
pub fn discover(path: String, rel: String, body: String, mtime: i64) -> (d: Discovered)
    ensures
        discovered_from(d, path@, rel@, body@, mtime),
{
    let title = title_of(body.as_str(), rel.as_str());
    let hash = sha256(body.as_str());
    let chunks = chunk_markdown(body.as_str());
    Discovered { path, rel, title, body, mtime, hash, chunks }
}

// ---------------------------------------------------------------------------
// Ordering discovered files
// ---------------------------------------------------------------------------

/// Lexicographic order on byte strings (the order of `str`'s `Ord`).
pub open spec fn bytes_le(a: Seq<u8>, b: Seq<u8>) -> bool
    decreases a.len(),
{
    if a.len() == 0 {
        true
    } else if b.len() == 0 {
        false
    } else if a[0] != b[0] {
        a[0] < b[0]
    } else {
        bytes_le(a.drop_first(), b.drop_first())
    }
}

/// `a` and `b` first differ at `i`, where `a`'s byte is the smaller.
pub open spec fn first_difference_below(a: Seq<u8>, b: Seq<u8>, i: int) -> bool {
    &&& 0 <= i < a.len()
    &&& i < b.len()
    &&& a.take(i) == b.take(i)
    &&& a[i] < b[i]
}

/// `bytes_le` is the lexicographic order: `a <= b` exactly when `a` is a
/// prefix of `b`, or at the first byte where they differ `a`'s is smaller.
pub proof fn lemma_bytes_le_lexicographic(a: Seq<u8>, b: Seq<u8>)
    ensures
        bytes_le(a, b) <==> ((a.len() <= b.len() && b.take(a.len() as int) == a) || exists|i: int|
            first_difference_below(a, b, i)),
    decreases a.len(),
{
    if a.len() == 0 {
        assert(b.take(0) =~= a);
    } else if b.len() == 0 {
        assert(!exists|i: int| first_difference_below(a, b, i));
    } else if a[0] != b[0] {
        if a[0] < b[0] {
            assert(a.take(0) =~= b.take(0));
            assert(first_difference_below(a, b, 0));
        } else {
            assert(!(a.len() <= b.len() && b.take(a.len() as int) == a)) by {
                if a.len() <= b.len() && b.take(a.len() as int) == a {
                    assert(b.take(a.len() as int)[0] == b[0]);
                }
            }
            assert forall|i: int| !first_difference_below(a, b, i) by {
                if first_difference_below(a, b, i) && i > 0 {
                    assert(a.take(i)[0] == b.take(i)[0]);
                }
            }
        }
    } else {
        let a1 = a.drop_first();
        let b1 = b.drop_first();
        lemma_bytes_le_lexicographic(a1, b1);
        if a.len() <= b.len() {
            assert(b.take(a.len() as int) == a <==> b1.take(a1.len() as int) == a1) by {
                if b.take(a.len() as int) == a {
                    assert(b1.take(a1.len() as int) =~= b.take(a.len() as int).drop_first());
                }
                if b1.take(a1.len() as int) == a1 {
                    assert(b.take(a.len() as int) =~= seq![b[0]] + b1.take(a1.len() as int));
                    assert(a =~= seq![a[0]] + a1);
                }
            }
        }
        if exists|i: int| first_difference_below(a1, b1, i) {
            let i = choose|i: int| first_difference_below(a1, b1, i);
            assert(a.take(i + 1) =~= seq![a[0]] + a1.take(i));
            assert(b.take(i + 1) =~= seq![b[0]] + b1.take(i));
            assert(first_difference_below(a, b, i + 1));
        }
        if exists|i: int| first_difference_below(a, b, i) {
            let i = choose|i: int| first_difference_below(a, b, i);
            if i == 0 {
                assert(false);
            } else {
                assert(a1.take(i - 1) =~= a.take(i).drop_first());
                assert(b1.take(i - 1) =~= b.take(i).drop_first());
                assert(first_difference_below(a1, b1, i - 1));
            }
        }
    }
}

/// Any two byte strings are ordered one way or the other.
pub proof fn lemma_bytes_le_total(a: Seq<u8>, b: Seq<u8>)
    ensures
        bytes_le(a, b) || bytes_le(b, a),
    decreases a.len(),
{
    if a.len() > 0 && b.len() > 0 && a[0] == b[0] {
        lemma_bytes_le_total(a.drop_first(), b.drop_first());
    }
}

/// The order on byte strings is transitive.
pub proof fn lemma_bytes_le_transitive(a: Seq<u8>, b: Seq<u8>, c: Seq<u8>)
    requires
        bytes_le(a, b),
        bytes_le(b, c),
    ensures
        bytes_le(a, c),
    decreases a.len(),
{
    if a.len() > 0 && b.len() > 0 && c.len() > 0 && a[0] == b[0] && b[0] == c[0] {
        lemma_bytes_le_transitive(a.drop_first(), b.drop_first(), c.drop_first());
    }
}

/// Whether `a <= b` in byte order.
pub fn bytes_le_exec(a: &[u8], b: &[u8]) -> (le: bool)
    ensures
        le == bytes_le(a@, b@),
{
    let mut i: usize = 0;
    assert(a@.subrange(0, a@.len() as int) =~= a@);
    assert(b@.subrange(0, b@.len() as int) =~= b@);
    while i < a.len() && i < b.len()
        invariant
            i <= a.len(),
            i <= b.len(),
            bytes_le(a@, b@) == bytes_le(a@.subrange(i as int, a@.len() as int), b@.subrange(i as int, b@.len() as int)),
        decreases a.len() - i,
    {
        let ghost x = a@.subrange(i as int, a@.len() as int);
        let ghost y = b@.subrange(i as int, b@.len() as int);
        assert(x[0] == a@[i as int]);
        assert(y[0] == b@[i as int]);
        if a[i] != b[i] {
            return a[i] < b[i];
        }
        assert(x.drop_first() =~= a@.subrange(i + 1, a@.len() as int));
        assert(y.drop_first() =~= b@.subrange(i + 1, b@.len() as int));
        i = i + 1;
    }
    i == a.len()
}

/// The key files are ordered by: the UTF-8 bytes of their relative path.
pub open spec fn rel_key(d: Discovered) -> Seq<u8> {
    vstd::utf8::encode_utf8(d.rel@)
}

/// `v` is in ascending order of relative path.
pub open spec fn sorted_by_rel(v: Seq<Discovered>) -> bool {
    forall|i: int, j: int| 0 <= i < j < v.len() ==> bytes_le(rel_key(#[trigger] v[i]), rel_key(#[trigger] v[j]))
}

/// Whether `a.rel <= b.rel`.
fn rel_le(a: &Discovered, b: &Discovered) -> (le: bool)
    ensures
        le == bytes_le(rel_key(*a), rel_key(*b)),
{
    bytes_le_exec(a.rel.as_str().as_bytes(), b.rel.as_str().as_bytes())
}

/// `idx` lists `n` distinct positions below `n`: a permutation of `0..n`.
pub open spec fn is_permutation(idx: Seq<int>, n: nat) -> bool {
    &&& idx.len() == n
    &&& forall|k: int| 0 <= k < n ==> 0 <= #[trigger] idx[k] < n
    &&& forall|k: int, l: int| 0 <= k < l < n ==> #[trigger] idx[k] != #[trigger] idx[l]
}

/// `out` is `inp` stably sorted by relative path, `out[k]` being `inp[idx[k]]`:
/// ascending byte order of `rel`, files with equal paths in their order in
/// `inp`.
pub open spec fn stably_sorted(out: Seq<Discovered>, inp: Seq<Discovered>, idx: Seq<int>) -> bool {
    &&& is_permutation(idx, inp.len())
    &&& out.len() == inp.len()
    &&& forall|k: int| 0 <= k < out.len() ==> #[trigger] out[k] == inp[idx[k]]
    &&& sorted_by_rel(out)
    &&& forall|k: int, l: int|
        0 <= k < l < out.len() && rel_key(#[trigger] out[k]) == rel_key(#[trigger] out[l]) ==> idx[k]
            < idx[l]
}

proof fn lemma_bytes_le_reflexive(a: Seq<u8>)
    ensures
        bytes_le(a, a),
    decreases a.len(),
{
    if a.len() > 0 {
        lemma_bytes_le_reflexive(a.drop_first());
    }
}

/// Orders discovered files by relative path (`sort_by` on `rel`): the
/// result holds the same files, in ascending byte order of `rel`; files with
/// equal paths keep their order.
pub fn sort_by_rel(v: &mut Vec<Discovered>)
    ensures
        exists|idx: Seq<int>| stably_sorted(final(v)@, old(v)@, idx),
{
    let mut rest: Vec<Discovered> = Vec::new();
    std::mem::swap(v, &mut rest);
    let ghost orig = rest@;
    let ghost n = orig.len();
    assert(n == rest.len());
    let ghost mut idx: Seq<int> = Seq::empty();
    let mut c: usize = 0;
    assert(rest@.subrange(0, n as int) =~= orig);
    while rest.len() > 0
        invariant
            orig == old(v)@,
            n == orig.len(),
            n <= usize::MAX,
            c <= n,
            rest@ == orig.subrange(c as int, n as int),
            v@.len() == c,
            idx.len() == c,
            forall|t: int| 0 <= t < c ==> 0 <= #[trigger] idx[t] < c,
            forall|t: int, u: int| 0 <= t < u < c ==> #[trigger] idx[t] != #[trigger] idx[u],
            forall|t: int| 0 <= t < c ==> #[trigger] v@[t] == orig[idx[t]],
            sorted_by_rel(v@),
            forall|t: int, u: int|
                0 <= t < u < c && rel_key(#[trigger] v@[t]) == rel_key(#[trigger] v@[u]) ==> idx[t]
                    < idx[u],
        decreases rest.len(),
    {
        let x = rest.remove(0);
        assert(x == orig[c as int]);
        let mut p: usize = 0;
        while p < v.len() && rel_le(&v[p], &x)
            invariant
                p <= v.len(),
                forall|q: int| 0 <= q < p ==> bytes_le(rel_key(#[trigger] v@[q]), rel_key(x)),
            decreases v.len() - p,
        {
            p = p + 1;
        }
        let ghost v0 = v@;
        let ghost idx0 = idx;
        v.insert(p, x);
        proof {
            idx = idx0.insert(p as int, c as int);
            lemma_bytes_le_reflexive(rel_key(x));
            if p < v0.len() {
                lemma_bytes_le_total(rel_key(v0[p as int]), rel_key(x));
            }
            assert forall|t: int| 0 <= t < c + 1 implies 0 <= #[trigger] idx[t] < c + 1 by {
                if t < p {
                    assert(idx[t] == idx0[t]);
                } else if t > p {
                    assert(idx[t] == idx0[t - 1]);
                }
            }
            assert forall|t: int, u: int| 0 <= t < u < c + 1 implies #[trigger] idx[t]
                != #[trigger] idx[u] by {
                if t < p && u < p {
                    assert(idx[t] == idx0[t] && idx[u] == idx0[u]);
                } else if t < p && u == p {
                    assert(idx[t] == idx0[t]);
                } else if t < p {
                    assert(idx[t] == idx0[t] && idx[u] == idx0[u - 1]);
                } else if t == p {
                    assert(idx[u] == idx0[u - 1]);
                } else {
                    assert(idx[t] == idx0[t - 1] && idx[u] == idx0[u - 1]);
                }
            }
            assert forall|t: int| 0 <= t < c + 1 implies #[trigger] v@[t] == orig[idx[t]] by {
                if t < p {
                    assert(v@[t] == v0[t] && idx[t] == idx0[t]);
                } else if t > p {
                    assert(v@[t] == v0[t - 1] && idx[t] == idx0[t - 1]);
                }
            }
            assert forall|i: int, j: int| 0 <= i < j < v@.len() implies bytes_le(
                rel_key(#[trigger] v@[i]),
                rel_key(#[trigger] v@[j]),
            ) by {
                if j < p {
                    assert(v@[i] == v0[i] && v@[j] == v0[j]);
                } else if j == p {
                    assert(v@[i] == v0[i]);
                } else if i < p {
                    assert(v@[i] == v0[i] && v@[j] == v0[j - 1]);
                    lemma_bytes_le_transitive(rel_key(v0[i]), rel_key(x), rel_key(v0[p as int]));
                    if j - 1 > p {
                        lemma_bytes_le_transitive(rel_key(v0[i]), rel_key(v0[p as int]), rel_key(v0[j - 1]));
                    }
                } else if i == p {
                    assert(v@[j] == v0[j - 1]);
                    if j - 1 > p {
                        lemma_bytes_le_transitive(rel_key(x), rel_key(v0[p as int]), rel_key(v0[j - 1]));
                    }
                } else {
                    assert(v@[i] == v0[i - 1] && v@[j] == v0[j - 1]);
                }
            }
            assert forall|t: int, u: int|
                0 <= t < u < c + 1 && rel_key(#[trigger] v@[t]) == rel_key(#[trigger] v@[u]) implies idx[t]
                    < idx[u] by {
                if t < p && u < p {
                    assert(v@[t] == v0[t] && v@[u] == v0[u]);
                    assert(idx[t] == idx0[t] && idx[u] == idx0[u]);
                } else if t < p && u == p {
                    assert(idx[t] == idx0[t]);
                } else if t < p {
                    assert(v@[t] == v0[t] && v@[u] == v0[u - 1]);
                    assert(idx[t] == idx0[t] && idx[u] == idx0[u - 1]);
                } else if t == p {
                    assert(v@[u] == v0[u - 1]);
                    if u - 1 > p {
                        lemma_bytes_le_transitive(rel_key(v0[p as int]), rel_key(v0[u - 1]), rel_key(x));
                    }
                    assert(false);
                } else {
                    assert(v@[t] == v0[t - 1] && v@[u] == v0[u - 1]);
                    assert(idx[t] == idx0[t - 1] && idx[u] == idx0[u - 1]);
                }
            }
        }
        c = c + 1;
        assert(rest@ =~= orig.subrange(c as int, n as int));
    }
    assert(stably_sorted(v@, orig, idx));
}

/// A markdown file as the walk read it: its path, its path relative to the
/// vault (before separators are normalized), its text and its modification
/// time in seconds.
#[derive(Clone, Debug)]
pub struct FoundFile {
    pub path: String,
    pub rel: String,
    pub body: String,
    pub mtime: i64,
}

/// The record ingest makes of a file the walk read.
pub open spec fn record_of(d: Discovered, f: FoundFile) -> bool {
    discovered_from(d, f.path@, forward_slashes(f.rel@), f.body@, f.mtime)
}

/// `out` is what `walk_vault` makes of the files `found`: one record per
/// file, `out[k]` being the record of `found[idx[k]]`, in ascending byte
/// order of relative path, files with equal paths in the order found.
pub open spec fn walk_result(out: Seq<Discovered>, found: Seq<FoundFile>, idx: Seq<int>) -> bool {
    &&& is_permutation(idx, found.len())
    &&& out.len() == found.len()
    &&& forall|k: int| 0 <= k < out.len() ==> record_of(#[trigger] out[k], found[idx[k]])
    &&& sorted_by_rel(out)
    &&& forall|k: int, l: int|
        0 <= k < l < out.len() && rel_key(#[trigger] out[k]) == rel_key(#[trigger] out[l]) ==> idx[k]
            < idx[l]
}

/// What `walk_vault` returns is in ascending lexicographic order of the
/// UTF-8 bytes of the whole relative path.
pub proof fn lemma_walk_sorted(out: Seq<Discovered>, found: Seq<FoundFile>, idx: Seq<int>)
    requires
        walk_result(out, found, idx),
    ensures
        forall|k: int, l: int|
            0 <= k < l < out.len() ==> bytes_le(
                vstd::utf8::encode_utf8((#[trigger] out[k]).rel@),
                vstd::utf8::encode_utf8((#[trigger] out[l]).rel@),
            ),
{
    assert forall|k: int, l: int| 0 <= k < l < out.len() implies bytes_le(
        vstd::utf8::encode_utf8((#[trigger] out[k]).rel@),
        vstd::utf8::encode_utf8((#[trigger] out[l]).rel@),
    ) by {
        assert(bytes_le(rel_key(out[k]), rel_key(out[l])));
    }
}

/// `walk_vault`, once the walk has read the vault's markdown files: one
/// record per file (relative paths with `/` separators, title, hash and
/// chunks computed from the text), ordered by relative path.
pub fn walk_vault(found: Vec<FoundFile>) -> (out: Vec<Discovered>)
    ensures
        exists|idx: Seq<int>| walk_result(out@, found@, idx),
        forall|k: int, l: int|
            0 <= k < l < out@.len() ==> bytes_le(
                vstd::utf8::encode_utf8((#[trigger] out@[k]).rel@),
                vstd::utf8::encode_utf8((#[trigger] out@[l]).rel@),
            ),
{
    let mut records: Vec<Discovered> = Vec::new();
    let mut found = found;
    let ghost all = found@;
    let mut k: usize = 0;
    let n = found.len();
    while found.len() > 0
        invariant
            k + found@.len() == n,
            n == all.len(),
            records@.len() == k,
            found@ == all.subrange(k as int, n as int),
            forall|j: int| 0 <= j < k ==> record_of(#[trigger] records@[j], all[j]),
        decreases found.len(),
    {
        let f = found.remove(0);
        assert(f == all[k as int]);
        let rel = normalize_rel(f.rel.as_str());
        let d = discover(f.path, rel, f.body, f.mtime);
        records.push(d);
        k = k + 1;
        assert(found@ =~= all.subrange(k as int, n as int));
    }
    let ghost before = records@;
    sort_by_rel(&mut records);
    proof {
        let idx = choose|idx: Seq<int>| stably_sorted(records@, before, idx);
        assert forall|q: int| 0 <= q < records@.len() implies record_of(#[trigger] records@[q], all[idx[q]]) by {
            assert(records@[q] == before[idx[q]]);
        }
        assert(walk_result(records@, all, idx));
        lemma_walk_sorted(records@, all, idx);
    }
    records
}

} // verus!
