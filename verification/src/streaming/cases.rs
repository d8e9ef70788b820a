//! What the streaming probes conclude from what crossed the boundary.
//!
//! A probe drives a worker, and the host side of that is I/O. What it then
//! decides, from the bytes, the chunk times and how `exec` ended, is here.

use sha2::Digest;
use sha2::Sha256;
use vstd::prelude::*;
use vstd::string::*;

use crate::text::{lines, lines_of};
use crate::report::{truncate, truncated};
use crate::streaming::drive::{all_bytes, exec_note, exec_note_text, utf8_lossy, Drained, ExecStatus};
use crate::streaming::outcome::{Measures, Outcome};
use crate::streaming::{Case, Verdict};
use crate::streaming::outcome::joined;
use crate::text::{chars_of, decimal, owned, push_char, push_decimal, push_str, string_of};

verus! {

broadcast use vstd::string::group_string_axioms;

/// 64 KiB, the chunk size of the bulk payloads.
pub const CHUNK: usize = 65536;

/// `{name}`, the placeholder a fixture carries for a variable.
pub open spec fn placeholder(name: Seq<char>) -> Seq<char> {
    seq!['{'] + name + seq!['}']
}

/// `s` with each occurrence of `pattern`, scanned left to right without
/// overlap, replaced by `value`, as `str::replace` does for a non-empty
/// pattern.
pub open spec fn replaced(s: Seq<char>, pattern: Seq<char>, value: Seq<char>) -> Seq<char>
    decreases s.len(),
{
    if pattern.len() == 0 || s.len() < pattern.len() {
        s
    } else if s.take(pattern.len() as int) == pattern {
        value + replaced(s.skip(pattern.len() as int), pattern, value)
    } else {
        seq![s[0]] + replaced(s.drop_first(), pattern, value)
    }
}

/// `source` with the variables substituted one after the other.
pub open spec fn rendered_fixture(source: Seq<char>, vars: Seq<(Seq<char>, Seq<char>)>) -> Seq<char>
    decreases vars.len(),
{
    if vars.len() == 0 {
        source
    } else {
        replaced(
            rendered_fixture(source, vars.drop_last()),
            placeholder(vars.last().0),
            vars.last().1,
        )
    }
}

/// The text of each variable.
pub open spec fn var_texts(vars: Seq<(&str, String)>) -> Seq<(Seq<char>, Seq<char>)> {
    vars.map_values(|v: (&str, String)| (v.0@, v.1@))
}

fn replace_text(s: &Vec<char>, pattern: &Vec<char>, value: &Vec<char>) -> (r: Vec<char>)
    requires
        pattern.len() > 0,
    ensures
        r@ == replaced(s@, pattern@, value@),
{
    let mut out: Vec<char> = Vec::new();
    let mut pos: usize = 0;
    assert(s@.skip(0) =~= s@);
    while pos < s.len()
        invariant
            pattern.len() > 0,
            pos <= s.len(),
            out@ + replaced(s@.skip(pos as int), pattern@, value@) == replaced(s@, pattern@, value@),
        decreases s.len() - pos,
    {
        let ghost rest = s@.skip(pos as int);
        let ghost before = out@;
        let mut matched = pattern.len() <= s.len() - pos;
        if matched {
            let mut k: usize = 0;
            while k < pattern.len()
                invariant
                    pos + pattern.len() <= s.len(),
                    k <= pattern.len(),
                    matched ==> forall|m: int| 0 <= m < k ==> s@[pos + m] == pattern@[m],
                    !matched ==> exists|m: int| 0 <= m < pattern.len() && s@[pos + m] != pattern@[m],
                decreases pattern.len() - k,
            {
                if s[pos + k] != pattern[k] {
                    matched = false;
                }
                k += 1;
            }
            proof {
                if matched {
                    assert(rest.take(pattern@.len() as int) =~= pattern@);
                } else {
                    let m = choose|m: int| 0 <= m < pattern.len() && s@[pos + m] != pattern@[m];
                    assert(rest.take(pattern@.len() as int)[m] != pattern@[m]);
                }
            }
        }
        if matched {
            let mut k: usize = 0;
            while k < value.len()
                invariant
                    k <= value.len(),
                    out@ == before + value@.take(k as int),
                decreases value.len() - k,
            {
                out.push(value[k]);
                k += 1;
                assert(out@ =~= before + value@.take(k as int));
            }
            proof {
                assert(value@.take(value.len() as int) =~= value@);
                assert(rest.skip(pattern@.len() as int) =~= s@.skip(pos + pattern.len()));
            }
            pos = pos + pattern.len();
            assert(out@ + replaced(s@.skip(pos as int), pattern@, value@) =~= before + replaced(rest, pattern@, value@));
        } else {
            out.push(s[pos]);
            proof {
                assert(rest.drop_first() =~= s@.skip(pos + 1));
                if rest.len() < pattern.len() {
                    assert(replaced(rest.drop_first(), pattern@, value@) == rest.drop_first());
                    assert(rest =~= seq![rest[0]] + rest.drop_first());
                }
            }
            pos = pos + 1;
            assert(out@ + replaced(s@.skip(pos as int), pattern@, value@) =~= before + replaced(rest, pattern@, value@));
        }
    }
    proof {
        assert(s@.skip(pos as int) =~= Seq::<char>::empty());
        assert(out@ + Seq::<char>::empty() =~= out@);
    }
    out
}

/// A fixture with its `{NAME}` placeholders filled in, variable by variable.
/// Fixtures carry their sizes this way rather than reading a query string or
/// a header, so a backend with a weak `URL` still gets the guest the corpus
/// meant to run.
pub fn render(source: &str, vars: &Vec<(&str, String)>) -> (r: String)
    ensures
        r@ == rendered_fixture(source@, var_texts(vars@)),
{
    let mut current = chars_of(source);
    let mut i: usize = 0;
    while i < vars.len()
        invariant
            i <= vars.len(),
            current@ == rendered_fixture(source@, var_texts(vars@.subrange(0, i as int))),
        decreases vars.len() - i,
    {
        let name = chars_of(vars[i].0);
        let mut pattern: Vec<char> = Vec::new();
        pattern.push('{');
        let mut k: usize = 0;
        while k < name.len()
            invariant
                k <= name.len(),
                pattern@ == seq!['{'] + name@.take(k as int),
            decreases name.len() - k,
        {
            pattern.push(name[k]);
            k += 1;
            assert(pattern@ =~= seq!['{'] + name@.take(k as int));
        }
        pattern.push('}');
        assert(name@.take(name.len() as int) =~= name@);
        assert(pattern@ =~= placeholder(vars@[i as int].0@));
        let value = chars_of(vars[i].1.as_str());
        current = replace_text(&current, &pattern, &value);
        proof {
            assert(var_texts(vars@.subrange(0, i + 1)).drop_last() =~= var_texts(vars@.subrange(0, i as int)));
            assert(var_texts(vars@.subrange(0, i + 1)).last() == (vars@[i as int].0@, vars@[i as int].1@));
        }
        i += 1;
    }
    assert(vars@.subrange(0, i as int) =~= vars@);
    string_of(&current)
}

/// Byte `k` of the bulk payload: the first 8 bytes of each 64 KiB chunk hold
/// the chunk's index, little-endian; the rest count 0 to 255 over and over.
pub open spec fn payload_byte(k: int) -> u8 {
    let c = (k / CHUNK as int) as u64;
    let i = k % CHUNK as int;
    if i < 8 {
        ((c >> ((8 * i) as u64)) & 0xff) as u8
    } else {
        (k % 256) as u8
    }
}

/// The bulk payload of `chunks` chunks.
pub open spec fn payload_bytes(chunks: nat) -> Seq<u8> {
    Seq::new(chunks * CHUNK as nat, |k: int| payload_byte(k))
}

/// Chunk `c` of a payload cut in 64 KiB chunks.
pub open spec fn chunk_at(payload: Seq<u8>, c: int) -> Seq<u8> {
    payload.subrange(c * CHUNK as int, (c + 1) * CHUNK as int)
}

/// A deterministic payload of `chunks` chunks of 64 KiB, each carrying its
/// own index: any dropped or reordered chunk changes its digest.
pub fn payload(chunks: usize) -> (r: Vec<u8>)
    requires
        chunks * CHUNK <= usize::MAX,
    ensures
        r@ == payload_bytes(chunks as nat),
{
    let mut out: Vec<u8> = Vec::new();
    let mut c: usize = 0;
    while c < chunks
        invariant
            c <= chunks,
            chunks * CHUNK <= usize::MAX,
            out@.len() == c * CHUNK,
            forall|k: int| 0 <= k < out@.len() ==> #[trigger] out@[k] == payload_byte(k),
        decreases chunks - c,
    {
        let mut i: usize = 0;
        proof {
            assert(c * CHUNK + CHUNK <= chunks * CHUNK) by (nonlinear_arith)
                requires c < chunks;
        }
        while i < CHUNK
            invariant
                i <= CHUNK,
                c < chunks,
                c * CHUNK + CHUNK <= usize::MAX,
                out@.len() == c * CHUNK + i,
                forall|k: int| 0 <= k < out@.len() ==> #[trigger] out@[k] == payload_byte(k),
            decreases CHUNK - i,
        {
            let ghost k = c * CHUNK + i;
            proof {
                assert(k / 65536 == c && k % 65536 == i) by (nonlinear_arith)
                    requires k == c * 65536 + i, c >= 0, 0 <= i < 65536;
                assert(k % 256 == i % 256) by (nonlinear_arith)
                    requires k == c * 65536 + i, c >= 0, i >= 0;
            }
            let b: u8 = if i < 8 {
                (((c as u64) >> ((8 * i) as u64)) & 0xff) as u8
            } else {
                (i % 256) as u8
            };
            out.push(b);
            assert(out@[k] == payload_byte(k));
            i += 1;
        }
        c += 1;
        assert(out@.len() == c * CHUNK) by (nonlinear_arith)
            requires out@.len() == (c - 1) * CHUNK + CHUNK;
    }
    assert(out@ =~= payload_bytes(chunks as nat));
    out
}

/// Two different chunks of the payload never hold the same bytes: the 8
/// bytes of a chunk's index tell it from every other, so dropping, repeating
/// or reordering chunks changes the payload.
pub proof fn law_payload_chunks_distinct(chunks: nat, c1: int, c2: int)
    requires
        0 <= c1 < c2 < chunks,
        chunks * CHUNK <= u64::MAX,
    ensures
        chunk_at(payload_bytes(chunks), c1) != chunk_at(payload_bytes(chunks), c2),
{
    let p = payload_bytes(chunks);
    let a = c1 as u64;
    let b = c2 as u64;
    assert(c2 * CHUNK + CHUNK <= chunks * CHUNK) by (nonlinear_arith)
        requires c2 < chunks;
    assert((a & 0xff == b & 0xff && (a >> 8u64) & 0xff == (b >> 8u64) & 0xff
        && (a >> 16u64) & 0xff == (b >> 16u64) & 0xff && (a >> 24u64) & 0xff == (b >> 24u64) & 0xff
        && (a >> 32u64) & 0xff == (b >> 32u64) & 0xff && (a >> 40u64) & 0xff == (b >> 40u64) & 0xff
        && (a >> 48u64) & 0xff == (b >> 48u64) & 0xff && (a >> 56u64) & 0xff == (b >> 56u64) & 0xff)
        ==> a == b) by (bit_vector);
    assert forall|j: int| 0 <= j < 8 implies #[trigger] chunk_at(p, c1)[j] == ((a >> ((8 * j) as u64)) & 0xff) as u8
        && chunk_at(p, c2)[j] == ((b >> ((8 * j) as u64)) & 0xff) as u8 by {
        let k1 = c1 * CHUNK + j;
        let k2 = c2 * CHUNK + j;
        assert(k1 / 65536 == c1 && k1 % 65536 == j) by (nonlinear_arith)
            requires k1 == c1 * 65536 + j, c1 >= 0, 0 <= j < 8;
        assert(k2 / 65536 == c2 && k2 % 65536 == j) by (nonlinear_arith)
            requires k2 == c2 * 65536 + j, c2 >= 0, 0 <= j < 8;
        assert(chunk_at(p, c1)[j] == p[k1]);
        assert(chunk_at(p, c2)[j] == p[k2]);
    }
    if chunk_at(p, c1) == chunk_at(p, c2) {
        assert forall|j: int| 0 <= j < 8 implies #[trigger] index_byte(a, j) == index_byte(b, j) by {
            assert(chunk_at(p, c1)[j] == chunk_at(p, c2)[j]);
            lemma_low_byte(a >> ((8 * j) as u64), b >> ((8 * j) as u64));
        }
        assert(index_byte(a, 0) == index_byte(b, 0));
        assert(index_byte(a, 1) == index_byte(b, 1));
        assert(index_byte(a, 2) == index_byte(b, 2));
        assert(index_byte(a, 3) == index_byte(b, 3));
        assert(index_byte(a, 4) == index_byte(b, 4));
        assert(index_byte(a, 5) == index_byte(b, 5));
        assert(index_byte(a, 6) == index_byte(b, 6));
        assert(index_byte(a, 7) == index_byte(b, 7));
        assert(a >> 0u64 == a) by (bit_vector);
        assert(b >> 0u64 == b) by (bit_vector);
        assert(a == b);
    }
}

/// Byte `j` of `x`, counted from the low end.
pub open spec fn index_byte(x: u64, j: int) -> u64 {
    (x >> ((8 * j) as u64)) & 0xff
}

/// Two words with the same low byte as `u8` have the same low byte.
proof fn lemma_low_byte(x: u64, y: u64)
    by (bit_vector)
    ensures
        ((x & 0xff) as u8 == (y & 0xff) as u8) ==> (x & 0xff) == (y & 0xff),
{
}

/// `payload` cut into pieces of `size` bytes, the last one possibly shorter.
pub open spec fn pieces(payload: Seq<u8>, size: nat) -> Seq<Seq<u8>>
    decreases payload.len(),
{
    if payload.len() == 0 || size == 0 {
        Seq::empty()
    } else if payload.len() <= size {
        seq![payload]
    } else {
        seq![payload.take(size as int)] + pieces(payload.skip(size as int), size)
    }
}

/// The bytes of `pieces`, one after the other.
pub open spec fn rejoined(pieces: Seq<Seq<u8>>) -> Seq<u8>
    decreases pieces.len(),
{
    if pieces.len() == 0 {
        Seq::empty()
    } else {
        pieces[0] + rejoined(pieces.drop_first())
    }
}

/// Cutting a payload into chunks loses and reorders nothing: the chunks
/// rejoined are the payload, each holds `size` bytes but the last, and none
/// is empty.
pub proof fn law_pieces_rejoin(payload: Seq<u8>, size: nat)
    requires
        size > 0,
    ensures
        rejoined(pieces(payload, size)) == payload,
        forall|k: int|
            0 <= k < pieces(payload, size).len() ==> 0 < (#[trigger] pieces(payload, size)[k]).len() <= size,
        forall|k: int|
            0 <= k < pieces(payload, size).len() - 1 ==> (#[trigger] pieces(payload, size)[k]).len() == size,
    decreases payload.len(),
{
    if payload.len() > size {
        let rest = payload.skip(size as int);
        law_pieces_rejoin(rest, size);
        let ps = pieces(payload, size);
        assert(ps.drop_first() =~= pieces(rest, size));
        assert(payload =~= payload.take(size as int) + rest);
        assert forall|k: int| 0 <= k < ps.len() implies 0 < (#[trigger] ps[k]).len() <= size by {
            if k > 0 {
                assert(ps[k] == pieces(rest, size)[k - 1]);
            }
        }
        assert forall|k: int| 0 <= k < ps.len() - 1 implies (#[trigger] ps[k]).len() == size by {
            if k > 0 {
                assert(ps[k] == pieces(rest, size)[k - 1]);
            }
        }
    } else if payload.len() > 0 {
        let ps = pieces(payload, size);
        assert(ps == seq![payload]);
        assert(ps.drop_first() =~= Seq::<Seq<u8>>::empty());
        assert(rejoined(ps.drop_first()) == Seq::<u8>::empty());
        assert(rejoined(ps) =~= payload + Seq::<u8>::empty());
    }
}

/// `payload` as the chunks a host feeds into a request body.
pub fn chunks_of(payload: &[u8], size: usize) -> (r: Vec<Vec<u8>>)
    requires
        size > 0,
    ensures
        r@.len() == pieces(payload@, size as nat).len(),
        forall|k: int| 0 <= k < r@.len() ==> #[trigger] r@[k]@ == pieces(payload@, size as nat)[k],
{
    let mut out: Vec<Vec<u8>> = Vec::new();
    let mut pos: usize = 0;
    let ghost all = pieces(payload@, size as nat);
    assert(payload@.skip(0) =~= payload@);
    while pos < payload.len()
        invariant
            size > 0,
            pos <= payload@.len(),
            all == pieces(payload@, size as nat),
            out@.map_values(|v: Vec<u8>| v@) + pieces(payload@.skip(pos as int), size as nat) == all,
        decreases payload.len() - pos,
    {
        let ghost rest = payload@.skip(pos as int);
        let end = if payload.len() - pos <= size { payload.len() } else { pos + size };
        let mut piece: Vec<u8> = Vec::new();
        let mut k: usize = pos;
        while k < end
            invariant
                pos <= k <= end,
                end <= payload.len(),
                piece@ == payload@.subrange(pos as int, k as int),
            decreases end - k,
        {
            piece.push(payload[k]);
            k += 1;
            assert(piece@ =~= payload@.subrange(pos as int, k as int));
        }
        let ghost before = out@;
        proof {
            if end == payload.len() {
                assert(piece@ =~= rest);
                assert(payload@.skip(end as int) =~= Seq::<u8>::empty());
            } else {
                assert(piece@ =~= rest.take(size as int));
                assert(rest.skip(size as int) =~= payload@.skip(end as int));
            }
        }
        out.push(piece);
        pos = end;
        assert(out@.map_values(|v: Vec<u8>| v@) + pieces(payload@.skip(pos as int), size as nat)
            =~= before.map_values(|v: Vec<u8>| v@) + pieces(rest, size as nat));
    }
    proof {
        assert(payload@.skip(pos as int) =~= Seq::<u8>::empty());
        assert(out@.map_values(|v: Vec<u8>| v@) =~= all);
        assert forall|k: int| 0 <= k < out@.len() implies #[trigger] out@[k]@ == all[k] by {
            assert(out@.map_values(|v: Vec<u8>| v@)[k] == out@[k]@);
        }
    }
    out
}

/// What SHA-256 makes of `data`.
pub uninterp spec fn sha256_of(data: Seq<u8>) -> Seq<u8>;

/// Calls `sha2::Sha256::digest` (the `Digest` trait's one-shot hash).
/// Claimed: the result is `sha256_of` the data, 32 bytes long, as the
/// output type `GenericArray<u8, U32>` fixes.
#[verifier::external_body]
fn sha256(data: &[u8]) -> (r: Vec<u8>)
    ensures
        r@ == sha256_of(data@),
        r@.len() == 32,
{
    Sha256::digest(data).to_vec()
}

/// The lower-case hex digit of `d`.
pub open spec fn hex_digit(d: nat) -> char {
    if d < 10 {
        crate::text::digit(d)
    } else if d == 10 {
        'a'
    } else if d == 11 {
        'b'
    } else if d == 12 {
        'c'
    } else if d == 13 {
        'd'
    } else if d == 14 {
        'e'
    } else {
        'f'
    }
}

/// `bytes` in lower-case hex, two digits a byte, as `{:02x}` writes each.
pub open spec fn hex(bytes: Seq<u8>) -> Seq<char>
    decreases bytes.len(),
{
    if bytes.len() == 0 {
        Seq::empty()
    } else {
        hex(bytes.drop_last()) + seq![
            hex_digit((bytes.last() / 16) as nat),
            hex_digit((bytes.last() % 16) as nat),
        ]
    }
}

fn hex_digit_char(d: u8) -> (c: char)
    requires
        d < 16,
    ensures
        c == hex_digit(d as nat),
{
    if d < 10 {
        crate::text::digit_char(d as u64)
    } else if d == 10 {
        'a'
    } else if d == 11 {
        'b'
    } else if d == 12 {
        'c'
    } else if d == 13 {
        'd'
    } else if d == 14 {
        'e'
    } else {
        'f'
    }
}

/// The SHA-256 of `bytes`, in lower-case hex.
pub fn digest(bytes: &[u8]) -> (r: String)
    ensures
        r@ == hex(sha256_of(bytes@)),
        r@.len() == 64,
{
    let h = sha256(bytes);
    let mut out = String::new();
    let mut i: usize = 0;
    while i < h.len()
        invariant
            i <= h.len(),
            out@ == hex(h@.subrange(0, i as int)),
            out@.len() == 2 * i,
        decreases h.len() - i,
    {
        assert(h@.subrange(0, i + 1).drop_last() =~= h@.subrange(0, i as int));
        let b = h[i];
        push_char(&mut out, hex_digit_char(b / 16));
        push_char(&mut out, hex_digit_char(b % 16));
        i += 1;
        assert(out@ =~= hex(h@.subrange(0, i as int)));
    }
    assert(h@.subrange(0, i as int) =~= h@);
    out
}


/// What `{:?}` writes for a string.
pub uninterp spec fn debug_text(s: Seq<char>) -> Seq<char>;

/// Formats a string with `{:?}`, std's `Debug` for `str`. Claimed: the
/// result is `debug_text` of the string. The quoting and escaping rules are
/// left to the name.
#[verifier::external_body]
fn debug_quoted(s: &str) -> (r: String)
    ensures
        r@ == debug_text(s@),
{
    format!("{s:?}")
}

/// Whole milliseconds in `nanos`, as `Duration::as_millis` counts them.
pub open spec fn millis(nanos: u128) -> nat {
    (nanos / 1_000_000) as nat
}

/// The text of each note.
pub open spec fn note_texts(notes: Seq<String>) -> Seq<Seq<char>> {
    notes.map_values(|s: String| s@)
}

/// The outcome is `Wrong` with this detail.
pub open spec fn wrong_with(o: Outcome, detail: Seq<char>) -> bool {
    o matches Outcome::Wrong { detail: d } && d@ == detail
}

/// The outcome is `Rejects` with this detail.
pub open spec fn rejects_with(o: Outcome, detail: Seq<char>) -> bool {
    o matches Outcome::Rejects { detail: d } && d@ == detail
}

/// The outcome is `Skipped` with this detail.
pub open spec fn skipped_with(o: Outcome, detail: Seq<char>) -> bool {
    o matches Outcome::Skipped { detail: d } && d@ == detail
}

/// What one request/response exchange produced, once the body has been read.
pub struct Exchange {
    pub status: u16,
    pub drained: Drained,
    pub exec_status: ExecStatus,
}

/// The body of an exchange as text.
pub open spec fn body_text(e: Exchange) -> Seq<char> {
    utf8_lossy(all_bytes(e.drained.chunks@))
}

/// The notes every exchange carries: how the body arrived, how `exec`
/// ended, whether every chunk landed at once, and an error on the channel.
pub open spec fn exchange_notes(e: Exchange) -> Seq<Seq<char>> {
    seq![
        "body arrived as "@ + if e.drained.streamed {
            "ResponseBody::Stream"@
        } else {
            "ResponseBody::Bytes or None"@
        },
        exec_note_text(e.exec_status),
    ] + (if e.drained.chunks@.len() > 1 && e.drained.chunks@[0].at_nanos
        == e.drained.total_nanos {
        seq!["every chunk arrived at the same instant"@]
    } else {
        Seq::empty()
    }) + match e.drained.error {
        Some(error) => seq!["body channel carried Err("@ + error@ + ")"@],
        None => Seq::empty(),
    }
}

/// `m` holds the numbers of the exchange, then its notes, then `extra`.
pub open spec fn measures_of(e: Exchange, m: Measures, extra: Seq<Seq<char>>) -> bool {
    &&& m.ttfc_ms == if e.drained.chunks@.len() == 0 {
        None
    } else {
        Some(millis(e.drained.chunks@[0].at_nanos) as u64)
    }
    &&& m.total_ms == Some(millis(e.drained.total_nanos) as u64)
    &&& m.chunks matches Some(n) && n == e.drained.chunks@.len()
    &&& m.bytes matches Some(n) && n == all_bytes(e.drained.chunks@).len()
    &&& note_texts(m.notes@) == exchange_notes(e) + extra
}

/// The detail of a body that is not what was expected.
pub open spec fn mismatch(expected: Seq<char>, got: Seq<char>, status: u16) -> Seq<char> {
    "expected "@ + debug_text(expected) + ", got "@ + debug_text(truncated(got, 120))
        + " (status "@ + decimal(status as nat) + ")"@
}

/// A body that matches is `Ok`; anything else is `Wrong`, with what came back.
pub open spec fn judged(o: Outcome, e: Exchange, expected: Seq<char>) -> bool {
    if body_text(e) == expected {
        o is Correct
    } else {
        wrong_with(o, mismatch(expected, body_text(e), e.status))
    }
}

/// `s` as `{:?}` writes it.
pub(crate) fn debug_string(s: &String) -> (r: String)
    ensures
        r@ == debug_text(s@),
{
    debug_quoted(s.as_str())
}

fn push_millis(s: &mut String, nanos: u128)
    ensures
        final(s)@ == old(s)@ + decimal(millis(nanos)),
{
    push_decimal(s, nanos / 1_000_000);
}

fn text_is(s: &String, expected: &str) -> (r: bool)
    ensures
        r == (s@ == expected@),
{
    crate::text::same_text(s.as_str(), expected)
}

impl Exchange {
    /// The body as text.
    pub fn text(&self) -> (r: String)
        ensures
            r@ == body_text(*self),
    {
        self.drained.text()
    }

    /// The numbers of the exchange and the notes every exchange carries.
    pub fn measures(&self) -> (m: Measures)
        ensures
            measures_of(*self, m, Seq::empty()),
    {
        let d = &self.drained;
        let ttfc = match d.ttfc() {
            Some(at) => Some((at / 1_000_000) as u64),
            None => None,
        };
        let mut notes: Vec<String> = Vec::new();
        let mut arrived = owned("body arrived as ");
        if d.streamed {
            push_str(&mut arrived, "ResponseBody::Stream");
        } else {
            push_str(&mut arrived, "ResponseBody::Bytes or None");
        }
        notes.push(arrived);
        notes.push(exec_note(&self.exec_status));
        let ghost base = note_texts(notes@);
        if d.chunks.len() > 1 && d.chunks[0].at_nanos == d.total_nanos {
            notes.push(owned("every chunk arrived at the same instant"));
        }
        let ghost middle = note_texts(notes@);
        match &d.error {
            Some(error) => {
                let mut n = owned("body channel carried Err(");
                push_str(&mut n, error.as_str());
                push_str(&mut n, ")");
                notes.push(n);
            },
            None => {},
        }
        let bytes = d.bytes();
        let m = Measures {
            ttfc_ms: ttfc,
            total_ms: Some((d.total_nanos / 1_000_000) as u64),
            chunks: Some(d.chunks.len()),
            bytes: Some(bytes.len()),
            notes,
        };
        assert(note_texts(m.notes@) =~= exchange_notes(*self) + Seq::<Seq<char>>::empty());
        m
    }
}

/// A body that matches is `Ok`; anything else is reported with what came back.
pub fn against(e: &Exchange, expected: &str) -> (o: Outcome)
    ensures
        judged(o, *e, expected@),
{
    let text = e.text();
    if text_is(&text, expected) {
        return Outcome::Correct;
    }
    let mut detail = owned("expected ");
    let quoted = debug_quoted(expected);
    push_str(&mut detail, quoted.as_str());
    push_str(&mut detail, ", got ");
    let cut = truncate(text.as_str(), 120);
    let got = debug_quoted(cut.as_str());
    push_str(&mut detail, got.as_str());
    push_str(&mut detail, " (status ");
    push_decimal(&mut detail, e.status as u128);
    push_str(&mut detail, ")");
    Outcome::wrong(detail)
}

/// The verdict of a probe that only asks for one body: judged against it,
/// with the exchange's numbers.
pub fn checked(e: &Exchange, expected: &str) -> (v: Verdict)
    ensures
        judged(v.outcome, *e, expected@),
        measures_of(*e, v.measures, Seq::empty()),
{
    let outcome = against(e, expected);
    Verdict { outcome, measures: e.measures() }
}

/// The note that says what the guest reported.
pub open spec fn reported_note(text: Seq<char>) -> Seq<char> {
    "guest reported "@ + debug_text(text)
}

fn note_reported(m: &mut Measures, text: &String)
    ensures
        note_texts(final(m).notes@) == note_texts(old(m).notes@).push(reported_note(text@)),
        final(m).ttfc_ms == old(m).ttfc_ms,
        final(m).total_ms == old(m).total_ms,
        final(m).chunks == old(m).chunks,
        final(m).bytes == old(m).bytes,
{
    let mut note = owned("guest reported ");
    let quoted = debug_quoted(text.as_str());
    push_str(&mut note, quoted.as_str());
    m.note(note);
    assert(note_texts(m.notes@) =~= note_texts(old(m).notes@).push(reported_note(text@)));
}

/// The verdict of a probe whose guest reports the shape the body reached it
/// in: `streams` when it saw the chunks, `buffers` when it saw one.
pub fn shaped(e: &Exchange, streams: &str, buffers: &str) -> (v: Verdict)
    ensures
        if body_text(*e) == streams@ {
            v.outcome is Streams
        } else if body_text(*e) == buffers@ {
            v.outcome is Buffers
        } else {
            judged(v.outcome, *e, streams@)
        },
        measures_of(*e, v.measures, seq![reported_note(body_text(*e))]),
{
    let text = e.text();
    let mut measures = e.measures();
    let outcome = if text_is(&text, streams) {
        Outcome::Streams
    } else if text_is(&text, buffers) {
        Outcome::Buffers
    } else {
        against(e, streams)
    };
    note_reported(&mut measures, &text);
    assert(note_texts(measures.notes@) =~= exchange_notes(*e) + seq![reported_note(body_text(*e))]);
    Verdict { outcome, measures }
}

/// When a guest read a request body it was fed.
pub open spec fn threw_prefix() -> Seq<char> {
    "threw:partial:"@
}

/// The verdict of an `Err` chunk mid-request: a read that rejects is the
/// wanted answer; a body that just ends is the interesting failure, because
/// upstream loss then looks like a short upload.
pub fn request_error_verdict(e: &Exchange) -> (v: Verdict)
    ensures
        if crate::text::starts_with(body_text(*e), threw_prefix()) {
            v.outcome is Correct
        } else if body_text(*e) == "done:partial"@ {
            wrong_with(v.outcome, "the error became a clean end of body: truncation is silent"@)
        } else {
            judged(v.outcome, *e, "threw:partial:<error>"@)
        },
        measures_of(*e, v.measures, seq![reported_note(body_text(*e))]),
{
    let text = e.text();
    let mut measures = e.measures();
    let outcome = if starts_with_text(&text, "threw:partial:") {
        Outcome::Correct
    } else if text_is(&text, "done:partial") {
        Outcome::wrong(owned("the error became a clean end of body: truncation is silent"))
    } else {
        against(e, "threw:partial:<error>")
    };
    note_reported(&mut measures, &text);
    assert(note_texts(measures.notes@) =~= exchange_notes(*e) + seq![reported_note(body_text(*e))]);
    Verdict { outcome, measures }
}

fn starts_with_text(s: &String, prefix: &str) -> (r: bool)
    ensures
        r == crate::text::starts_with(s@, prefix@),
{
    let a = chars_of(s.as_str());
    let b = chars_of(prefix);
    if b.len() > a.len() {
        return false;
    }
    let mut i: usize = 0;
    while i < b.len()
        invariant
            b.len() <= a.len(),
            a@ == s@,
            b@ == prefix@,
            i <= b.len(),
            forall|k: int| 0 <= k < i ==> a@[k] == b@[k],
        decreases b.len() - i,
    {
        if a[i] != b[i] {
            assert(a@.subrange(0, b@.len() as int)[i as int] != b@[i as int]);
            return false;
        }
        i += 1;
    }
    assert(a@.subrange(0, b@.len() as int) =~= b@);
    true
}


/// A white-space character, as `char::is_whitespace` and `str::trim` take it.
pub open spec fn is_white(c: char) -> bool {
    let u = c as u32;
    ||| 0x09 <= u <= 0x0D
    ||| u == 0x20
    ||| u == 0x85
    ||| u == 0xA0
    ||| u == 0x1680
    ||| 0x2000 <= u <= 0x200A
    ||| u == 0x2028
    ||| u == 0x2029
    ||| u == 0x202F
    ||| u == 0x205F
    ||| u == 0x3000
}

/// `s` without its leading white space.
pub open spec fn trim_start(s: Seq<char>) -> Seq<char>
    decreases s.len(),
{
    if s.len() > 0 && is_white(s[0]) {
        trim_start(s.drop_first())
    } else {
        s
    }
}

/// `s` without its trailing white space.
pub open spec fn trim_end(s: Seq<char>) -> Seq<char>
    decreases s.len(),
{
    if s.len() > 0 && is_white(s.last()) {
        trim_end(s.drop_last())
    } else {
        s
    }
}

/// `s` without white space at either end, as `str::trim` returns it.
pub open spec fn trimmed(s: Seq<char>) -> Seq<char> {
    trim_end(trim_start(s))
}

/// An ASCII decimal digit.
pub open spec fn is_digit(c: char) -> bool {
    0x30 <= (c as u32) <= 0x39
}

/// The number the digits of `s` spell.
pub open spec fn digits_value(s: Seq<char>) -> nat
    decreases s.len(),
{
    if s.len() == 0 {
        0
    } else {
        10 * digits_value(s.drop_last()) + ((s.last() as u32) - 0x30) as nat
    }
}

/// `s` without the `+` a number may start with.
pub open spec fn unsigned_body(s: Seq<char>) -> Seq<char> {
    if s.len() > 0 && s[0] == '+' {
        s.drop_first()
    } else {
        s
    }
}

/// One or more digits whose value fits in 64 bits, as that value.
pub open spec fn parsed_digits(body: Seq<char>) -> Option<u64> {
    if body.len() > 0 && (forall|i: int| 0 <= i < body.len() ==> is_digit(#[trigger] body[i]))
        && digits_value(body) <= u64::MAX {
        Some(digits_value(body) as u64)
    } else {
        None
    }
}

/// What `str::parse::<u64>` makes of `s`: an optional `+`, then one or more
/// digits whose value fits in 64 bits.
pub open spec fn parsed_u64(s: Seq<char>) -> Option<u64> {
    parsed_digits(unsigned_body(s))
}

/// The second `:`-separated field of `line`, as `split(':').nth(1)` finds it.
pub open spec fn second_field(line: Seq<char>) -> Option<Seq<char>> {
    let c = crate::text::index_of(line, ':');
    if c < line.len() {
        let rest = line.skip(c + 1int);
        Some(rest.take(crate::text::index_of(rest, ':') as int))
    } else {
        None
    }
}

/// The guest timestamp a stamped line carries, if it carries one.
pub open spec fn stamp_of(line: Seq<char>) -> Option<u64> {
    match second_field(line) {
        Some(f) => parsed_u64(trimmed(f)),
        None => None,
    }
}

/// The timestamps of `ls`, in order.
pub open spec fn stamps_in(ls: Seq<Seq<char>>) -> Seq<u64>
    decreases ls.len(),
{
    if ls.len() == 0 {
        Seq::empty()
    } else {
        match stamp_of(ls[0]) {
            Some(v) => seq![v] + stamps_in(ls.drop_first()),
            None => stamps_in(ls.drop_first()),
        }
    }
}

/// The spread between the first and last guest timestamp, in ms.
pub open spec fn spread_of(text: Seq<char>) -> Option<u64> {
    let stamps = stamps_in(lines(text));
    if stamps.len() == 0 {
        None
    } else if stamps.last() >= stamps[0] {
        Some((stamps.last() - stamps[0]) as u64)
    } else {
        Some(0)
    }
}

proof fn lemma_trim_start(s: Seq<char>, a: int)
    requires
        0 <= a <= s.len(),
        forall|k: int| 0 <= k < a ==> is_white(s[k]),
        a < s.len() ==> !is_white(s[a]),
    ensures
        trim_start(s) == s.skip(a),
    decreases a,
{
    if a > 0 {
        lemma_trim_start(s.drop_first(), a - 1);
        assert(s.drop_first().skip(a - 1) =~= s.skip(a));
    } else {
        assert(s.skip(0) =~= s);
    }
}

proof fn lemma_trim_end(s: Seq<char>, b: int)
    requires
        0 <= b <= s.len(),
        forall|k: int| b <= k < s.len() ==> is_white(s[k]),
        b > 0 ==> !is_white(s[b - 1]),
    ensures
        trim_end(s) == s.take(b),
    decreases s.len() - b,
{
    if b < s.len() {
        lemma_trim_end(s.drop_last(), b);
        assert(s.drop_last().take(b) =~= s.take(b));
    } else {
        assert(s.take(b) =~= s);
    }
}

proof fn lemma_digits_grow(s: Seq<char>, k: int)
    requires
        0 <= k <= s.len(),
        forall|i: int| 0 <= i < s.len() ==> is_digit(#[trigger] s[i]),
    ensures
        digits_value(s.take(k)) <= digits_value(s),
    decreases s.len() - k,
{
    if k < s.len() {
        lemma_digits_grow(s.drop_last(), k);
        assert(s.drop_last().take(k) =~= s.take(k));
        assert(is_digit(s[s.len() - 1]));
    } else {
        assert(s.take(k) =~= s);
    }
}

fn parse_u64(s: &Vec<char>, from: usize, to: usize) -> (r: Option<u64>)
    requires
        from <= to <= s.len(),
    ensures
        r == parsed_u64(s@.subrange(from as int, to as int)),
{
    let ghost t = s@.subrange(from as int, to as int);
    let mut start = from;
    if start < to && s[start] == '+' {
        start += 1;
    }
    let ghost body = s@.subrange(start as int, to as int);
    assert(body =~= unsigned_body(t));
    if start == to {
        return None;
    }
    let mut v: u64 = 0;
    let mut i: usize = start;
    while i < to
        invariant
            start <= i <= to <= s.len(),
            start < to,
            from <= start,
            body == s@.subrange(start as int, to as int),
            body == unsigned_body(s@.subrange(from as int, to as int)),
            forall|k: int| start <= k < i ==> is_digit(#[trigger] s@[k]),
            v == digits_value(s@.subrange(start as int, i as int)),
        decreases to - i,
    {
        let c = s[i];
        if !((c as u32) >= 0x30 && (c as u32) <= 0x39) {
            assert(!is_digit(body[i - start]));
            return None;
        }
        let d = ((c as u32) - 0x30) as u64;
        assert(s@.subrange(start as int, i + 1).drop_last() =~= s@.subrange(start as int, i as int));
        if v > (u64::MAX - d) / 10 {
            proof {
                assert(10 * v + d > u64::MAX) by (nonlinear_arith)
                    requires v > (u64::MAX - d) / 10, d <= 9;
                if forall|k: int| 0 <= k < body.len() ==> is_digit(#[trigger] body[k]) {
                    lemma_digits_grow(body, i + 1 - start);
                    assert(body.take(i + 1 - start) =~= s@.subrange(start as int, i + 1));
                }
            }
            return None;
        }
        v = v * 10 + d;
        i += 1;
    }
    assert(s@.subrange(start as int, i as int) =~= body);
    Some(v)
}

fn stamp_of_line(line: &Vec<char>) -> (r: Option<u64>)
    ensures
        r == stamp_of(line@),
{
    let mut c: usize = 0;
    while c < line.len() && line[c] != ':'
        invariant
            c <= line.len(),
            forall|m: int| 0 <= m < c ==> line@[m] != ':',
        decreases line.len() - c,
    {
        c += 1;
    }
    proof {
        crate::text::lemma_index_of(line@, ':', c as int);
    }
    if c == line.len() {
        return None;
    }
    let ghost rest = line@.skip(c + 1);
    let mut e: usize = c + 1;
    while e < line.len() && line[e] != ':'
        invariant
            c + 1 <= e <= line.len(),
            forall|m: int| c + 1 <= m < e ==> line@[m] != ':',
        decreases line.len() - e,
    {
        e += 1;
    }
    proof {
        crate::text::lemma_index_of(rest, ':', e - c - 1);
    }
    let ghost field = line@.subrange(c + 1, e as int);
    assert(field =~= rest.take(e - c - 1));
    let mut a: usize = c + 1;
    while a < e && is_white_char(line[a])
        invariant
            c + 1 <= a <= e,
            e <= line.len(),
            forall|m: int| c + 1 <= m < a ==> is_white(#[trigger] line@[m]),
        decreases e - a,
    {
        a += 1;
    }
    proof {
        lemma_trim_start(field, a - c - 1);
        assert(field.skip(a - c - 1) =~= line@.subrange(a as int, e as int));
    }
    let mut b: usize = e;
    while b > a && is_white_char(line[b - 1])
        invariant
            a <= b <= e,
            e <= line.len(),
            forall|m: int| b <= m < e ==> is_white(#[trigger] line@[m]),
        decreases b,
    {
        b -= 1;
    }
    proof {
        let t = line@.subrange(a as int, e as int);
        lemma_trim_end(t, b - a);
        assert(t.take(b - a) =~= line@.subrange(a as int, b as int));
    }
    parse_u64(line, a, b)
}

fn is_white_char(c: char) -> (r: bool)
    ensures
        r == is_white(c),
{
    let u = c as u32;
    (0x09 <= u && u <= 0x0D) || u == 0x20 || u == 0x85 || u == 0xA0 || u == 0x1680 || (0x2000 <= u
        && u <= 0x200A) || u == 0x2028 || u == 0x2029 || u == 0x202F || u == 0x205F || u == 0x3000
}

/// Spread between the first and last guest timestamp, in ms: each stamped
/// line carries its stamp after the first `:`.
pub fn stamp_spread(text: &str) -> (r: Option<u64>)
    ensures
        r == spread_of(text@),
{
    let ls = lines_of(text);
    let ghost all = lines(text@);
    let mut stamps: Vec<u64> = Vec::new();
    let mut i: usize = 0;
    assert(all.skip(0) =~= all);
    while i < ls.len()
        invariant
            i <= ls.len(),
            ls@.len() == all.len(),
            forall|k: int| 0 <= k < ls@.len() ==> #[trigger] ls@[k]@ == all[k],
            stamps@ + stamps_in(all.skip(i as int)) == stamps_in(all),
        decreases ls.len() - i,
    {
        let ghost before = stamps@;
        proof {
            assert(all.skip(i as int).drop_first() =~= all.skip(i + 1));
            assert(all.skip(i as int)[0] == ls@[i as int]@);
        }
        match stamp_of_line(&ls[i]) {
            Some(v) => stamps.push(v),
            None => {},
        }
        i += 1;
        assert(stamps@ + stamps_in(all.skip(i as int)) =~= before + stamps_in(all.skip(i - 1)));
    }
    assert(all.skip(i as int) =~= Seq::<Seq<char>>::empty());
    assert(stamps@ =~= stamps_in(all));
    if stamps.len() == 0 {
        None
    } else {
        let first = stamps[0];
        let last = stamps[stamps.len() - 1];
        Some(if last >= first { last - first } else { 0 })
    }
}

/// The number of lines in `text`, as `str::lines().count()` counts them.
pub fn line_count(text: &str) -> (n: usize)
    ensures
        n == lines(text@).len(),
{
    lines_of(text).len()
}


/// The verdict of a fetch that never got its response head: a refusal that
/// says why `exec` gave up, when it did.
pub fn no_response(detail: String, done: ExecStatus) -> (v: Verdict)
    ensures
        rejects_with(
            v.outcome,
            match done {
                ExecStatus::Failed(reason) => detail@ + ": "@ + reason@,
                _ => detail@,
            },
        ),
        v.measures.ttfc_ms is None,
        v.measures.total_ms is None,
        v.measures.chunks is None,
        v.measures.bytes is None,
        note_texts(v.measures.notes@) == seq![exec_note_text(done)],
{
    let mut d = detail;
    match &done {
        ExecStatus::Failed(reason) => {
            push_str(&mut d, ": ");
            push_str(&mut d, reason.as_str());
        },
        _ => {},
    }
    let mut v = Verdict::new(Outcome::rejects(d));
    v.measures.note(exec_note(&done));
    assert(note_texts(v.measures.notes@) =~= seq![exec_note_text(done)]);
    v
}

/// How a host-side producer feeding a request body ended.
pub enum FeedReport {
    /// It stopped: how many items were accepted, over how long, and whether
    /// the channel refused one.
    Finished { sent: usize, span_nanos: u128, refused: bool },
    /// Its task failed: why.
    Failed(String),
    /// It was still blocked when the probe stopped waiting.
    Blocked,
}

/// Whether the channel closed on the producer.
pub open spec fn channel_word(refused: bool) -> Seq<char> {
    if refused {
        "closed"@
    } else {
        "stayed open"@
    }
}

/// The note of a producer that did not finish, having waited `wait_secs`.
pub open spec fn feed_trouble(feed: FeedReport, wait_secs: nat) -> Seq<char> {
    match feed {
        FeedReport::Failed(e) => "producer task failed: "@ + e@,
        _ => "producer was still blocked "@ + decimal(wait_secs) + "s after the response"@,
    }
}

fn push_feed_trouble(s: &mut String, feed: &FeedReport, wait_secs: u64)
    requires
        !(feed is Finished),
    ensures
        final(s)@ == old(s)@ + feed_trouble(*feed, wait_secs as nat),
{
    let ghost start = s@;
    match feed {
        FeedReport::Failed(e) => {
            push_str(s, "producer task failed: ");
            push_str(s, e.as_str());
        },
        _ => {
            push_str(s, "producer was still blocked ");
            push_decimal(s, wait_secs as u128);
            push_str(s, "s after the response");
        },
    }
    assert(s@ =~= start + feed_trouble(*feed, wait_secs as nat));
}

/// What a probe whose guest does not read all of a request body notes about
/// the producer: how much of `of` it got through, and the channel's fate.
pub open spec fn unread_note(feed: FeedReport, of: nat, timed: bool) -> Seq<char> {
    match feed {
        FeedReport::Finished { sent, span_nanos, refused } => "producer sent "@ + decimal(
            sent as nat,
        ) + " of "@ + decimal(of) + " chunks"@ + (if timed {
            " in "@ + decimal(millis(span_nanos)) + "ms"@
        } else {
            Seq::empty()
        }) + ", channel "@ + channel_word(refused),
        _ => feed_trouble(feed, 2),
    }
}

/// The verdict of a probe whose guest answers without reading the whole
/// request body: the body against `expected`, and what became of the
/// producer of `of` chunks.
pub fn unread_verdict(e: &Exchange, expected: &str, feed: &FeedReport, of: usize, timed: bool) -> (v: Verdict)
    ensures
        judged(v.outcome, *e, expected@),
        measures_of(*e, v.measures, seq![unread_note(*feed, of as nat, timed)]),
{
    let mut measures = e.measures();
    let outcome = against(e, expected);
    let mut note = String::new();
    match feed {
        FeedReport::Finished { sent, span_nanos, refused } => {
            push_str(&mut note, "producer sent ");
            push_decimal(&mut note, *sent as u128);
            push_str(&mut note, " of ");
            push_decimal(&mut note, of as u128);
            push_str(&mut note, " chunks");
            if timed {
                push_str(&mut note, " in ");
                push_millis(&mut note, *span_nanos);
                push_str(&mut note, "ms");
            }
            push_str(&mut note, ", channel ");
            if *refused {
                push_str(&mut note, "closed");
            } else {
                push_str(&mut note, "stayed open");
            }
        },
        _ => push_feed_trouble(&mut note, feed, 2),
    }
    assert(note@ =~= unread_note(*feed, of as nat, timed));
    measures.note(note);
    assert(note_texts(measures.notes@) =~= exchange_notes(*e) + seq![unread_note(*feed, of as nat, timed)]);
    Verdict { outcome, measures }
}

/// The verdict of the paced guest: eight stamped chunks, 40ms apart. A
/// backend that streams shows a first chunk long before the last one is
/// produced; a backend that collects shows both at the same instant.
pub open spec fn paced_outcome(o: Outcome, e: Exchange) -> bool {
    let text = body_text(e);
    let ttfc = if e.drained.chunks@.len() == 0 {
        e.drained.total_nanos
    } else {
        e.drained.chunks@[0].at_nanos
    };
    if e.drained.chunks@.len() == 0 {
        wrong_with(o, "no body at all: the paced guest produced nothing"@)
    } else if lines(text).len() != 8 {
        wrong_with(o, "expected 8 stamped lines, got "@ + decimal(lines(text).len()))
    } else if millis(ttfc) * 2 < millis(e.drained.total_nanos) {
        o is Streams
    } else {
        o is Buffers
    }
}

/// The note on how long the guest took by its own clock, when it stamped.
pub open spec fn spread_notes(text: Seq<char>) -> Seq<Seq<char>> {
    match spread_of(text) {
        Some(spread) => seq!["guest produced over "@ + decimal(spread as nat) + "ms of its own clock"@],
        None => Seq::empty(),
    }
}

/// The verdict of the time-to-first-chunk probe.
pub fn paced_verdict(e: &Exchange) -> (v: Verdict)
    ensures
        paced_outcome(v.outcome, *e),
        measures_of(*e, v.measures, spread_notes(body_text(*e))),
{
    let mut measures = e.measures();
    let ttfc = match e.drained.ttfc() {
        Some(at) => at,
        None => e.drained.total_nanos,
    };
    let total = e.drained.total_nanos;
    let text = e.text();
    let stamps = stamp_spread(text.as_str());
    if let Some(spread) = stamps {
        let mut note = owned("guest produced over ");
        push_decimal(&mut note, spread as u128);
        push_str(&mut note, "ms of its own clock");
        measures.note(note);
    }
    assert(note_texts(measures.notes@) =~= exchange_notes(*e) + spread_notes(body_text(*e)));
    let count = line_count(text.as_str());
    let outcome = if e.drained.chunks.len() == 0 {
        Outcome::wrong(owned("no body at all: the paced guest produced nothing"))
    } else if count != 8 {
        let mut d = owned("expected 8 stamped lines, got ");
        push_decimal(&mut d, count as u128);
        Outcome::wrong(d)
    } else if (ttfc / 1_000_000) * 2 < total / 1_000_000 {
        Outcome::Streams
    } else {
        Outcome::Buffers
    };
    Verdict { outcome, measures }
}

/// The note of the pipeline probe.
pub open spec fn pipeline_note() -> Seq<char> {
    "the guest closed on exactly 2 x the 16-slot high-water mark"@
}

/// The verdict of a pull-driven guest that stops on exactly twice the
/// 16-slot high-water mark: all 32 stamped lines have to arrive.
pub fn pipeline_verdict(e: &Exchange) -> (v: Verdict)
    ensures
        if lines(body_text(*e)).len() == 32 {
            v.outcome is Correct
        } else {
            wrong_with(v.outcome, "expected 32 stamped lines, got "@ + decimal(lines(body_text(*e)).len()))
        },
        measures_of(*e, v.measures, seq![pipeline_note()]),
{
    let mut measures = e.measures();
    let text = e.text();
    let count = line_count(text.as_str());
    let outcome = if count == 32 {
        Outcome::Correct
    } else {
        let mut d = owned("expected 32 stamped lines, got ");
        push_decimal(&mut d, count as u128);
        Outcome::wrong(d)
    };
    measures.note(owned("the guest closed on exactly 2 x the 16-slot high-water mark"));
    assert(note_texts(measures.notes@) =~= exchange_notes(*e) + seq![pipeline_note()]);
    Verdict { outcome, measures }
}

/// The verdict of a guest that errors its own stream after two chunks. The
/// host should get an `Err` on the channel; a clean close means a truncated
/// response is indistinguishable from a complete one.
pub fn guest_error_verdict(e: &Exchange) -> (v: Verdict)
    ensures
        if e.drained.error is Some {
            v.outcome is Correct
        } else if body_text(*e) == "chunk0chunk1"@ {
            wrong_with(v.outcome, "the guest error became a clean end of body: truncation is silent"@)
        } else if body_text(*e).len() == 0 {
            rejects_with(v.outcome, "no body: the error swallowed the whole response"@)
        } else {
            wrong_with(v.outcome, "unexpected body "@ + debug_text(body_text(*e)))
        },
        measures_of(*e, v.measures, seq!["host received "@ + debug_text(body_text(*e))]),
{
    let mut measures = e.measures();
    let text = e.text();
    let outcome = if e.drained.error.is_some() {
        Outcome::Correct
    } else if text_is(&text, "chunk0chunk1") {
        Outcome::wrong(owned("the guest error became a clean end of body: truncation is silent"))
    } else if text.as_str().unicode_len() == 0 {
        Outcome::rejects(owned("no body: the error swallowed the whole response"))
    } else {
        let mut d = owned("unexpected body ");
        let q = debug_quoted(text.as_str());
        push_str(&mut d, q.as_str());
        Outcome::wrong(d)
    };
    let mut note = owned("host received ");
    let q = debug_quoted(text.as_str());
    push_str(&mut note, q.as_str());
    measures.note(note);
    assert(note_texts(measures.notes@) =~= exchange_notes(*e) + seq!["host received "@ + debug_text(body_text(*e))]);
    Verdict { outcome, measures }
}

/// What the second fetch after a hang-up says about the worker: a fetch that
/// never got its head found the worker unusable; one that did has to answer
/// 200, with some body. `answer` is the status and the chunks read, if the
/// head came.
pub fn follow_up_outcome(answer: Option<(u16, usize)>) -> (o: Outcome)
    ensures
        follow_up_judged(o, answer),
{
    match answer {
        None => Outcome::rejects(owned("the worker was unusable after the client left")),
        Some((status, chunks)) => {
            if status != 200 {
                let mut d = owned("the follow-up answered ");
                push_decimal(&mut d, status as u128);
                return Outcome::wrong(d);
            }
            if chunks == 0 {
                return Outcome::wrong(owned("the follow-up answered with no body at all"));
            }
            Outcome::Correct
        },
    }
}

/// `o` is what the follow-up fetch says about the worker, given the status
/// and chunk count it got, or nothing when its head never came.
pub open spec fn follow_up_judged(o: Outcome, answer: Option<(u16, usize)>) -> bool {
    match answer {
        None => rejects_with(o, "the worker was unusable after the client left"@),
        Some((status, chunks)) => if status != 200 {
            wrong_with(o, "the follow-up answered "@ + decimal(status as nat))
        } else if chunks == 0 {
            wrong_with(o, "the follow-up answered with no body at all"@)
        } else {
            o is Correct
        },
    }
}

/// `m` has the numbers of `before` and its notes followed by `extra`.
pub open spec fn noted(before: Measures, m: Measures, extra: Seq<Seq<char>>) -> bool {
    &&& m.ttfc_ms == before.ttfc_ms
    &&& m.total_ms == before.total_ms
    &&& m.chunks == before.chunks
    &&& m.bytes == before.bytes
    &&& note_texts(m.notes@) == note_texts(before.notes@) + extra
}

fn note_text(m: &mut Measures, text: String)
    ensures
        noted(*old(m), *final(m), seq![text@]),
{
    m.note(text);
    assert(note_texts(m.notes@) =~= note_texts(old(m).notes@) + seq![text@]);
}

/// What a fetch whose response head never came is told.
pub open spec fn no_head_text() -> Seq<char> {
    "the worker sent no response"@
}

/// The follow-up fetch got no response head: that, and how `exec` ended, are
/// noted, and the worker was unusable.
pub fn follow_up_unusable(m: &mut Measures, done: &ExecStatus) -> (o: Outcome)
    ensures
        follow_up_judged(o, None),
        noted(*old(m), *final(m), seq!["the follow-up fetch: "@ + no_head_text(), exec_note_text(*done)]),
{
    let ghost start = *m;
    let mut a = owned("the follow-up fetch: ");
    push_str(&mut a, "the worker sent no response");
    note_text(m, a);
    note_text(m, exec_note(done));
    assert(note_texts(m.notes@) =~= note_texts(start.notes@) + seq![
        "the follow-up fetch: "@ + no_head_text(),
        exec_note_text(*done),
    ]);
    follow_up_outcome(None)
}

/// The follow-up head arrived after `head_nanos` with `status`: noted.
pub fn follow_up_head(m: &mut Measures, head_nanos: u128, status: u16)
    ensures
        noted(
            *old(m),
            *final(m),
            seq![
                "the follow-up head arrived "@ + decimal(millis(head_nanos)) + "ms in with status "@
                    + decimal(status as nat),
            ],
        ),
{
    let mut a = owned("the follow-up head arrived ");
    push_millis(&mut a, head_nanos);
    push_str(&mut a, "ms in with status ");
    push_decimal(&mut a, status as u128);
    note_text(m, a);
}

/// The follow-up read `chunks` chunks of a response with `status`: noted, and
/// judged.
pub fn follow_up_delivered(m: &mut Measures, status: u16, chunks: usize) -> (o: Outcome)
    ensures
        follow_up_judged(o, Some((status, chunks))),
        noted(*old(m), *final(m), seq!["the follow-up delivered "@ + decimal(chunks as nat) + " chunks"@]),
{
    let mut a = owned("the follow-up delivered ");
    push_decimal(&mut a, chunks as u128);
    push_str(&mut a, " chunks");
    note_text(m, a);
    follow_up_outcome(Some((status, chunks)))
}

/// The follow-up fetch was still going after `secs` seconds: noted, and it
/// hangs.
pub fn follow_up_stuck(m: &mut Measures, secs: u64) -> (o: Outcome)
    ensures
        o is Hangs,
        noted(*old(m), *final(m), seq!["the follow-up fetch was still going "@ + decimal(secs as nat) + "s in"@]),
{
    let mut a = owned("the follow-up fetch was still going ");
    push_decimal(&mut a, secs as u128);
    push_str(&mut a, "s in");
    note_text(m, a);
    Outcome::Hangs
}

/// What became of the first fetch of the hang-up probe.
pub enum HangUpEvent {
    /// No response head came; how `exec` stood.
    NoHead(ExecStatus),
    /// The body was not a stream, so there was nothing to cancel.
    NotStreamed,
    /// `taken` chunks were read before hanging up, `read_nanos` from `exec`
    /// start: the hang-up is where the body ended. `exec` then came back (or
    /// not, as `done` says) `recovery_nanos` after the hang-up.
    Read { taken: usize, read_nanos: u128, recovery_nanos: u128, done: ExecStatus },
}

/// The hang-up half of the disconnect probe: a worker whose response never
/// came refuses, one that never streams is skipped, and one whose `exec`
/// does not come back after the client left hangs; otherwise the time it
/// took to come back, for the follow-up to weigh. As every time in
/// `Measures`, `total_ms` counts from `exec` start: it is when the body
/// ended, at the hang-up; the recovery time goes in the last note.
pub fn hang_up_result(event: HangUpEvent, measures: &mut Measures) -> (r: Result<u128, Outcome>)
    ensures
        match event {
            HangUpEvent::NoHead(done) => {
                &&& r matches Err(o) && rejects_with(o, no_head_text())
                &&& noted(*old(measures), *final(measures), seq![exec_note_text(done)])
            },
            HangUpEvent::NotStreamed => {
                &&& r matches Err(o) && skipped_with(o, "the backend never streams a response"@)
                &&& noted(
                    *old(measures),
                    *final(measures),
                    seq!["the body was not a stream, so there was nothing to cancel"@],
                )
            },
            HangUpEvent::Read { taken, read_nanos, recovery_nanos, done } => {
                &&& r == if done is Running {
                    Err::<u128, Outcome>(Outcome::Hangs)
                } else {
                    Ok(recovery_nanos)
                }
                &&& final(measures).chunks == Some(taken)
                &&& final(measures).total_ms == Some(millis(read_nanos) as u64)
                &&& final(measures).ttfc_ms == old(measures).ttfc_ms
                &&& final(measures).bytes == old(measures).bytes
                &&& note_texts(final(measures).notes@) == note_texts(old(measures).notes@) + seq![
                    decimal(taken as nat) + " chunks read over "@ + decimal(millis(read_nanos))
                        + "ms before hanging up"@,
                    exec_note_text(done),
                    "exec came back "@ + decimal(millis(recovery_nanos)) + "ms after the client left"@,
                ]
            },
        },
{
    match event {
        HangUpEvent::NoHead(done) => {
            note_text(measures, exec_note(&done));
            Err(Outcome::rejects(owned("the worker sent no response")))
        },
        HangUpEvent::NotStreamed => {
            note_text(measures, owned("the body was not a stream, so there was nothing to cancel"));
            Err(Outcome::skipped(owned("the backend never streams a response")))
        },
        HangUpEvent::Read { taken, read_nanos, recovery_nanos, done } => {
            let ghost start = note_texts(measures.notes@);
            measures.chunks = Some(taken);
            let mut a = String::new();
            push_decimal(&mut a, taken as u128);
            push_str(&mut a, " chunks read over ");
            push_millis(&mut a, read_nanos);
            push_str(&mut a, "ms before hanging up");
            measures.note(a);
            measures.total_ms = Some((read_nanos / 1_000_000) as u64);
            measures.note(exec_note(&done));
            let mut b = owned("exec came back ");
            push_millis(&mut b, recovery_nanos);
            push_str(&mut b, "ms after the client left");
            measures.note(b);
            assert(note_texts(measures.notes@) =~= start + seq![
                decimal(taken as nat) + " chunks read over "@ + decimal(millis(read_nanos))
                    + "ms before hanging up"@,
                exec_note_text(done),
                "exec came back "@ + decimal(millis(recovery_nanos)) + "ms after the client left"@,
            ]);
            match done {
                ExecStatus::Running => Err(Outcome::Hangs),
                _ => Ok(recovery_nanos),
            }
        },
    }
}

/// The text a worker that would not start is refused with.
pub open spec fn init_failure_text(reason: Seq<char>) -> Seq<char> {
    "worker init failed: "@ + reason
}

/// Why a worker did not start, given the runtime's own words.
pub fn init_failure(reason: &str) -> (r: String)
    ensures
        r@ == init_failure_text(reason@),
{
    let mut r = owned("worker init failed: ");
    push_str(&mut r, reason);
    r
}

/// The verdict of a probe whose worker would not start.
pub fn init_refusal(reason: &str) -> (v: Verdict)
    ensures
        rejects_with(v.outcome, init_failure_text(reason@)),
        crate::streaming::is_empty_measures(v.measures),
{
    Verdict::new(Outcome::rejects(init_failure(reason)))
}

/// The verdict of a fetch whose response head never came: the worker sent
/// no response, and why `exec` gave up when it did.
pub fn no_head(done: ExecStatus) -> (v: Verdict)
    ensures
        rejects_with(
            v.outcome,
            match done {
                ExecStatus::Failed(reason) => no_head_text() + ": "@ + reason@,
                _ => no_head_text(),
            },
        ),
        v.measures.ttfc_ms is None,
        v.measures.total_ms is None,
        v.measures.chunks is None,
        v.measures.bytes is None,
        note_texts(v.measures.notes@) == seq![exec_note_text(done)],
{
    no_response(owned("the worker sent no response"), done)
}

/// How long a worker may take to come back once its client has left.
pub open spec fn recovery_limit_nanos() -> u128 {
    1_000_000_000
}

/// The verdict of the hang-up probe: a worker that served the follow-up but
/// came back later than a second after the client left recovered too slowly.
pub fn recovery_verdict(outcome: Outcome, recovery_nanos: u128, measures: Measures) -> (v: Verdict)
    ensures
        v.measures == measures,
        if outcome is Correct && recovery_nanos > recovery_limit_nanos() {
            wrong_with(
                v.outcome,
                "the worker recovered, but only "@ + decimal(millis(recovery_nanos))
                    + "ms after the client left"@,
            )
        } else {
            v.outcome == outcome
        },
{
    if matches!(outcome, Outcome::Correct) && recovery_nanos > 1_000_000_000 {
        let mut d = owned("the worker recovered, but only ");
        push_millis(&mut d, recovery_nanos);
        push_str(&mut d, "ms after the client left");
        return Verdict { outcome: Outcome::wrong(d), measures };
    }
    Verdict { outcome, measures }
}

/// The note of the echo probe.
pub open spec fn echo_note(chunks: nat) -> Seq<char> {
    "4 chunks in, "@ + decimal(chunks) + " chunks out"@
}

/// The verdict of the echo probe: the four request chunks have to come back,
/// and coming back as four or more chunks is streaming.
pub fn echo_verdict(e: &Exchange) -> (v: Verdict)
    ensures
        if body_text(*e) == "Hello World!"@ && e.drained.chunks@.len() >= 4 {
            v.outcome is Streams
        } else {
            judged(v.outcome, *e, "Hello World!"@)
        },
        measures_of(*e, v.measures, seq![echo_note(e.drained.chunks@.len())]),
{
    let mut measures = e.measures();
    let mut outcome = against(e, "Hello World!");
    if matches!(outcome, Outcome::Correct) && e.drained.chunks.len() >= 4 {
        outcome = Outcome::Streams;
    }
    let mut note = owned("4 chunks in, ");
    push_decimal(&mut note, e.drained.chunks.len() as u128);
    push_str(&mut note, " chunks out");
    measures.note(note);
    assert(note_texts(measures.notes@) =~= exchange_notes(*e) + seq![echo_note(e.drained.chunks@.len())]);
    Verdict { outcome, measures }
}


/// The text of each chunk of `chunks`.
pub open spec fn chunk_texts(chunks: Seq<crate::streaming::drive::Chunk>) -> Seq<Seq<char>> {
    chunks.map_values(|c: crate::streaming::drive::Chunk| utf8_lossy(c.bytes@))
}

/// `values` as `{:?}` writes a list of strings: each quoted, between brackets.
pub open spec fn debug_list(values: Seq<Seq<char>>) -> Seq<char> {
    "["@ + joined(values.map_values(|v: Seq<char>| debug_text(v))) + "]"@
}

/// The doubled numbers the transform guest should send back, one a chunk.
pub open spec fn doubled() -> Seq<Seq<char>> {
    seq!["2"@, "4"@, "6"@, "8"@, "10"@]
}

/// What the transform probe notes about its producer.
pub open spec fn transform_feed_note(feed: FeedReport) -> Seq<char> {
    match feed {
        FeedReport::Finished { sent, span_nanos, .. } => "producer sent "@ + decimal(sent as nat)
            + " of 5 numbers over "@ + decimal(millis(span_nanos)) + "ms"@,
        _ => feed_trouble(feed, 2),
    }
}

fn chunk_text(c: &crate::streaming::drive::Chunk) -> (r: String)
    ensures
        r@ == utf8_lossy(c.bytes@),
{
    crate::streaming::drive::lossy(c.bytes.as_slice())
}

/// The verdict of the bidirectional probe: numbers go in one at a time
/// while their doubles come back out. Both directions have to be live at
/// once for the doubles to come back one a chunk.
pub fn transform_verdict(e: &Exchange, feed: &FeedReport) -> (v: Verdict)
    ensures
        if chunk_texts(e.drained.chunks@) == doubled() {
            v.outcome is Streams
        } else if body_text(*e) == "246810"@ {
            v.outcome is Buffers
        } else {
            judged(v.outcome, *e, "246810"@)
        },
        measures_of(
            *e,
            v.measures,
            seq![
                transform_feed_note(*feed),
                "host received "@ + debug_list(chunk_texts(e.drained.chunks@)),
            ],
        ),
{
    let mut measures = e.measures();
    let chunks = &e.drained.chunks;
    let mut values: Vec<String> = Vec::new();
    let mut i: usize = 0;
    while i < chunks.len()
        invariant
            i <= chunks.len(),
            values@.len() == i,
            forall|k: int| 0 <= k < i ==> #[trigger] values@[k]@ == utf8_lossy(chunks@[k].bytes@),
        decreases chunks.len() - i,
    {
        values.push(chunk_text(&chunks[i]));
        i += 1;
    }
    let ghost texts = chunk_texts(chunks@);
    assert(values@.map_values(|s: String| s@) =~= texts);

    let mut note = String::new();
    match feed {
        FeedReport::Finished { sent, span_nanos, .. } => {
            push_str(&mut note, "producer sent ");
            push_decimal(&mut note, *sent as u128);
            push_str(&mut note, " of 5 numbers over ");
            push_millis(&mut note, *span_nanos);
            push_str(&mut note, "ms");
        },
        _ => push_feed_trouble(&mut note, feed, 2),
    }
    assert(note@ =~= transform_feed_note(*feed));
    measures.note(note);

    let ghost quoted = texts.map_values(|v: Seq<char>| debug_text(v));
    let mut list = owned("[");
    let mut k: usize = 0;
    while k < values.len()
        invariant
            k <= values.len(),
            values@.len() == texts.len(),
            forall|m: int| 0 <= m < values@.len() ==> #[trigger] values@[m]@ == texts[m],
            quoted == texts.map_values(|v: Seq<char>| debug_text(v)),
            list@ == "["@ + joined(quoted.take(k as int)),
        decreases values.len() - k,
    {
        let ghost before = list@;
        if k > 0 {
            push_str(&mut list, ", ");
        }
        let q = debug_quoted(values[k].as_str());
        push_str(&mut list, q.as_str());
        proof {
            assert(quoted.take(k + 1).drop_last() =~= quoted.take(k as int));
            if k == 0 {
                assert(quoted.take(1)[0] == quoted[0]);
            }
        }
        k += 1;
        assert(list@ =~= "["@ + joined(quoted.take(k as int)));
    }
    push_str(&mut list, "]");
    assert(quoted.take(k as int) =~= quoted);
    let mut received = owned("host received ");
    push_str(&mut received, list.as_str());
    assert(received@ =~= "host received "@ + debug_list(texts));
    measures.note(received);

    let mut streams = values.len() == 5;
    if streams {
        let expected = ["2", "4", "6", "8", "10"];
        let mut m: usize = 0;
        while m < 5
            invariant
                m <= 5,
                values@.len() == 5,
                forall|j: int| 0 <= j < 5 ==> #[trigger] values@[j]@ == texts[j],
                expected@.len() == 5,
                expected@[0]@ == doubled()[0] && expected@[1]@ == doubled()[1] && expected@[2]@ == doubled()[2]
                    && expected@[3]@ == doubled()[3] && expected@[4]@ == doubled()[4],
                streams ==> forall|j: int| 0 <= j < m ==> texts[j] == doubled()[j],
                !streams ==> texts != doubled(),
            decreases 5 - m,
        {
            if !text_is(&values[m], expected[m]) {
                streams = false;
            }
            m += 1;
        }
        assert(streams ==> texts =~= doubled());
    }
    let outcome = if streams {
        Outcome::Streams
    } else {
        let text = e.text();
        if text_is(&text, "246810") {
            Outcome::Buffers
        } else {
            against(e, "246810")
        }
    };
    assert(note_texts(measures.notes@) =~= exchange_notes(*e) + seq![
        transform_feed_note(*feed),
        "host received "@ + debug_list(chunk_texts(e.drained.chunks@)),
    ]);
    Verdict { outcome, measures }
}


/// What the slow-reader guest should report for `count` chunks numbered
/// from 1.
pub open spec fn backpressure_expected(count: nat) -> Seq<char> {
    "chunks="@ + decimal(count) + ",sum="@ + decimal(count * (count + 1) / 2)
}

/// The least time the producer can take when the channel pushes back: the
/// guest has to read `count - capacity` chunks, each costing `guest_delay`,
/// halved for slack.
pub open spec fn backpressure_floor(capacity: nat, count: nat, guest_delay: nat) -> nat {
    let unread = if count > capacity {
        (count - capacity) as nat
    } else {
        0
    };
    let cost = if guest_delay * unread > u64::MAX {
        u64::MAX as nat
    } else {
        guest_delay * unread
    };
    cost / 2
}

/// The producer's span in whole milliseconds, as `as_millis() as u64` keeps it.
pub open spec fn span_millis(span_nanos: u128) -> u64 {
    millis(span_nanos) as u64
}

/// The verdict of an input-backpressure cadence: a fast producer against a
/// guest that sleeps `guest_delay` ms a chunk. A correct body counts as
/// streaming when the producer took at least the floor, since without
/// backpressure its span collapses to nothing.
pub open spec fn backpressure_outcome(
    o: Outcome,
    e: Exchange,
    capacity: nat,
    count: nat,
    guest_delay: nat,
    feed: FeedReport,
) -> bool {
    let expected = backpressure_expected(count);
    match feed {
        FeedReport::Finished { span_nanos, .. } => if body_text(e) == expected {
            if span_millis(span_nanos) >= backpressure_floor(capacity, count, guest_delay) {
                o is Streams
            } else {
                o is Buffers
            }
        } else {
            judged(o, e, expected)
        },
        _ => judged(o, e, expected),
    }
}

/// The notes of an input-backpressure cadence.
pub open spec fn backpressure_notes(
    e: Exchange,
    capacity: nat,
    count: nat,
    guest_delay: nat,
    feed: FeedReport,
) -> Seq<Seq<char>> {
    match feed {
        FeedReport::Finished { sent, span_nanos, .. } => seq![
            "producer pushed "@ + decimal(sent as nat) + " chunks in "@ + decimal(
                span_millis(span_nanos) as nat,
            ) + "ms through a "@ + decimal(capacity) + "-slot channel"@,
        ] + if body_text(e) == backpressure_expected(count) {
            seq![
                "backpressure floor for this cadence is "@ + decimal(
                    backpressure_floor(capacity, count, guest_delay),
                ) + "ms"@,
            ]
        } else {
            Seq::empty()
        },
        _ => seq![feed_trouble(feed, 5)],
    }
}

/// The verdict of an input-backpressure cadence of `count` chunks through a
/// `capacity`-slot channel, against a guest that sleeps `guest_delay` ms a
/// chunk.
pub fn backpressure_verdict(
    e: &Exchange,
    capacity: usize,
    count: u64,
    guest_delay: u64,
    feed: &FeedReport,
) -> (v: Verdict)
    requires
        count * (count + 1) <= u64::MAX,
    ensures
        backpressure_outcome(v.outcome, *e, capacity as nat, count as nat, guest_delay as nat, *feed),
        measures_of(*e, v.measures, backpressure_notes(*e, capacity as nat, count as nat, guest_delay as nat, *feed)),
{
    assert(count < u64::MAX) by (nonlinear_arith)
        requires
            count * (count + 1) <= u64::MAX,
    ;
    let mut expected = owned("chunks=");
    push_decimal(&mut expected, count as u128);
    push_str(&mut expected, ",sum=");
    push_decimal(&mut expected, (count * (count + 1) / 2) as u128);
    assert(expected@ =~= backpressure_expected(count as nat));
    let mut measures = e.measures();
    let mut outcome = against(e, expected.as_str());
    let unread: u64 = if count > capacity as u64 { count - capacity as u64 } else { 0 };
    assert((guest_delay as u128) * (unread as u128) <= u128::MAX) by (nonlinear_arith)
        requires
            guest_delay <= u64::MAX,
            unread <= u64::MAX,
    ;
    let cost: u64 = if guest_delay as u128 * unread as u128 > u64::MAX as u128 {
        u64::MAX
    } else {
        guest_delay * unread
    };
    let floor = cost / 2;
    assert(floor == backpressure_floor(capacity as nat, count as nat, guest_delay as nat));
    let ghost base = note_texts(measures.notes@);
    match feed {
        FeedReport::Finished { sent, span_nanos, .. } => {
            let span = (*span_nanos / 1_000_000) as u64;
            let mut note = owned("producer pushed ");
            push_decimal(&mut note, *sent as u128);
            push_str(&mut note, " chunks in ");
            push_decimal(&mut note, span as u128);
            push_str(&mut note, "ms through a ");
            push_decimal(&mut note, capacity as u128);
            push_str(&mut note, "-slot channel");
            measures.note(note);
            if matches!(outcome, Outcome::Correct) {
                outcome = if span >= floor {
                    Outcome::Streams
                } else {
                    Outcome::Buffers
                };
                let mut fl = owned("backpressure floor for this cadence is ");
                push_decimal(&mut fl, floor as u128);
                push_str(&mut fl, "ms");
                measures.note(fl);
            }
        },
        _ => {
            let mut note = String::new();
            push_feed_trouble(&mut note, feed, 5);
            measures.note(note);
        },
    }
    assert(note_texts(measures.notes@) =~= exchange_notes(*e) + backpressure_notes(
        *e,
        capacity as nat,
        count as nat,
        guest_delay as nat,
        *feed,
    ));
    Verdict { outcome, measures }
}

/// The verdict of a pull-driven guest of 60 chunks read every 20ms: if the
/// slow reader reaches back to the guest, the guest's own stamps spread out
/// to match the host's reading time.
pub open spec fn slow_drain_outcome(o: Outcome, e: Exchange) -> bool {
    let text = body_text(e);
    let host = millis(e.drained.total_nanos) as u64;
    if lines(text).len() != 60 {
        wrong_with(o, "expected 60 stamped lines, got "@ + decimal(lines(text).len()))
    } else {
        match spread_of(text) {
            Some(guest) => if guest * 2 >= host {
                o is Streams
            } else {
                o is Buffers
            },
            None => wrong_with(o, "no guest timestamps to compare"@),
        }
    }
}

/// The note comparing the guest's spread with the host's.
pub open spec fn slow_drain_notes(e: Exchange) -> Seq<Seq<char>> {
    let text = body_text(e);
    if lines(text).len() != 60 {
        Seq::empty()
    } else {
        match spread_of(text) {
            Some(guest) => seq![
                "guest produced over "@ + decimal(guest as nat) + "ms while the host read over "@
                    + decimal((millis(e.drained.total_nanos) as u64) as nat) + "ms"@,
            ],
            None => Seq::empty(),
        }
    }
}

/// The verdict of the slow-drain probe.
pub fn slow_drain_verdict(e: &Exchange) -> (v: Verdict)
    requires
        spread_of(body_text(*e)) matches Some(guest) ==> guest * 2 <= u64::MAX,
    ensures
        slow_drain_outcome(v.outcome, *e),
        measures_of(*e, v.measures, slow_drain_notes(*e)),
{
    let mut measures = e.measures();
    let text = e.text();
    let host = (e.drained.total_nanos / 1_000_000) as u64;
    let guest_span = stamp_spread(text.as_str());
    let count = line_count(text.as_str());
    let outcome = if count != 60 {
        let mut d = owned("expected 60 stamped lines, got ");
        push_decimal(&mut d, count as u128);
        Outcome::wrong(d)
    } else {
        match guest_span {
            Some(guest) => {
                let mut note = owned("guest produced over ");
                push_decimal(&mut note, guest as u128);
                push_str(&mut note, "ms while the host read over ");
                push_decimal(&mut note, host as u128);
                push_str(&mut note, "ms");
                measures.note(note);
                if guest * 2 >= host {
                    Outcome::Streams
                } else {
                    Outcome::Buffers
                }
            },
            None => Outcome::wrong(owned("no guest timestamps to compare")),
        }
    };
    assert(note_texts(measures.notes@) =~= exchange_notes(*e) + slow_drain_notes(*e));
    Verdict { outcome, measures }
}

/// The first 16 characters of a digest.
fn digest_prefix(d: &String) -> (r: String)
    requires
        d@.len() >= 16,
    ensures
        r@ == d@.take(16),
{
    let cs = chars_of(d.as_str());
    let mut v: Vec<char> = Vec::new();
    let mut i: usize = 0;
    while i < 16
        invariant
            i <= 16,
            cs@ == d@,
            cs@.len() >= 16,
            v@ == cs@.take(i as int),
        decreases 16 - i,
    {
        v.push(cs[i]);
        i += 1;
        assert(v@ =~= cs@.take(i as int));
    }
    string_of(&v)
}

/// The two digest notes: the first 16 hex digits expected and received.
pub open spec fn digest_notes(expected: Seq<char>, actual: Seq<char>) -> Seq<Seq<char>> {
    seq!["sha256 expected "@ + expected.take(16), "sha256 received "@ + actual.take(16)]
}

pub(crate) fn note_digests(m: &mut Measures, expected: &String, actual: &String)
    requires
        expected@.len() >= 16,
        actual@.len() >= 16,
    ensures
        note_texts(final(m).notes@) == note_texts(old(m).notes@) + digest_notes(expected@, actual@),
        final(m).ttfc_ms == old(m).ttfc_ms,
        final(m).total_ms == old(m).total_ms,
        final(m).chunks == old(m).chunks,
        final(m).bytes == old(m).bytes,
{
    let mut a = owned("sha256 expected ");
    let p = digest_prefix(expected);
    push_str(&mut a, p.as_str());
    m.note(a);
    let mut b = owned("sha256 received ");
    let q = digest_prefix(actual);
    push_str(&mut b, q.as_str());
    m.note(b);
    assert(note_texts(m.notes@) =~= note_texts(old(m).notes@) + digest_notes(expected@, actual@));
}

/// The number of chunks in the bulk payload: 512 of 64 KiB is 32 MiB.
pub open spec fn bulk_chunks() -> nat {
    512
}

/// The verdict of 32 MiB generated by the guest, compared by digest so a
/// dropped or reordered chunk cannot pass as a size match.
pub fn generated_verdict(e: &Exchange) -> (v: Verdict)
    ensures
        ({
            let bulk = payload_bytes(512);
            let expected = hex(sha256_of(bulk));
            let actual = hex(sha256_of(all_bytes(e.drained.chunks@)));
            &&& if actual == expected {
                v.outcome is Correct
            } else {
                wrong_with(
                    v.outcome,
                    "sha256 "@ + decimal(all_bytes(e.drained.chunks@).len()) + " bytes out, expected "@
                        + decimal(512 * 65536) + " bytes"@,
                )
            }
            &&& measures_of(*e, v.measures, digest_notes(expected, actual))
        }),
{
    let mut measures = e.measures();
    let bulk = payload(512);
    let expected = digest(bulk.as_slice());
    let received = e.drained.bytes();
    let actual = digest(received.as_slice());
    let outcome = if actual == expected {
        Outcome::Correct
    } else {
        let mut d = owned("sha256 ");
        push_decimal(&mut d, received.len() as u128);
        push_str(&mut d, " bytes out, expected ");
        push_decimal(&mut d, (512 * CHUNK) as u128);
        push_str(&mut d, " bytes");
        Outcome::wrong(d)
    };
    note_digests(&mut measures, &expected, &actual);
    Verdict { outcome, measures }
}

/// The verdict of a payload sent in and straight back out again, digested on
/// both sides: `expected` is the digest of the `sent` bytes.
pub fn echoed_verdict(e: &Exchange, expected: &String, sent: usize) -> (v: Verdict)
    requires
        expected@.len() >= 16,
    ensures
        ({
            let actual = hex(sha256_of(all_bytes(e.drained.chunks@)));
            &&& if actual == expected@ {
                v.outcome is Correct
            } else {
                wrong_with(
                    v.outcome,
                    "sha256 mismatch on "@ + decimal(all_bytes(e.drained.chunks@).len())
                        + " bytes back of "@ + decimal(sent as nat),
                )
            }
            &&& measures_of(*e, v.measures, digest_notes(expected@, actual))
        }),
{
    let received = e.drained.bytes();
    let actual = digest(received.as_slice());
    let mut measures = e.measures();
    let outcome = if actual == *expected {
        Outcome::Correct
    } else {
        let mut d = owned("sha256 mismatch on ");
        push_decimal(&mut d, received.len() as u128);
        push_str(&mut d, " bytes back of ");
        push_decimal(&mut d, sent as u128);
        Outcome::wrong(d)
    };
    note_digests(&mut measures, expected, &actual);
    Verdict { outcome, measures }
}

/// The verdict when the backend does not even start under the heap cap the
/// probe asks for: that would report as a streaming failure, which would be
/// a lie about a different thing, so the probe is skipped.
pub fn heap_cap_skip(heap_max_mb: usize, detail: &str) -> (v: Verdict)
    ensures
        skipped_with(
            v.outcome,
            "the backend does not start under a "@ + decimal(heap_max_mb as nat) + "MB heap cap: "@
                + detail@,
        ),
        crate::streaming::is_empty_measures(v.measures),
{
    let mut d = owned("the backend does not start under a ");
    push_decimal(&mut d, heap_max_mb as u128);
    push_str(&mut d, "MB heap cap: ");
    push_str(&mut d, detail);
    Verdict::new(Outcome::skipped(d))
}


/// Case `i` of the JavaScript corpus: its name, the dimension it measures, and its budget in seconds.
pub open spec fn js_case(i: int) -> (Seq<char>, Seq<char>, u64) {
    if i == 0 {
        ("request_text"@, "request streaming"@, 30)
    } else if i == 1 {
        ("request_reader"@, "request streaming"@, 30)
    } else if i == 2 {
        ("request_json"@, "request streaming"@, 30)
    } else if i == 3 {
        ("request_binary"@, "request streaming"@, 30)
    } else if i == 4 {
        ("request_utf8_boundary"@, "request streaming"@, 30)
    } else if i == 5 {
        ("request_large"@, "request streaming"@, 30)
    } else if i == 6 {
        ("request_empty"@, "request streaming"@, 30)
    } else if i == 7 {
        ("request_double_consume"@, "request streaming"@, 30)
    } else if i == 8 {
        ("request_never_consumed"@, "request streaming"@, 30)
    } else if i == 9 {
        ("request_partial_read"@, "request streaming"@, 30)
    } else if i == 10 {
        ("request_error_midstream"@, "mid-stream error"@, 30)
    } else if i == 11 {
        ("response_ttfc"@, "response streaming"@, 30)
    } else if i == 12 {
        ("response_buffered_shape"@, "response streaming"@, 30)
    } else if i == 13 {
        ("response_echo"@, "response streaming"@, 30)
    } else if i == 14 {
        ("response_pipeline_multiple"@, "response streaming"@, 30)
    } else if i == 15 {
        ("response_error_midstream"@, "mid-stream error"@, 30)
    } else if i == 16 {
        ("disconnect_recovery"@, "cancellation"@, 30)
    } else if i == 17 {
        ("bidirectional_transform"@, "bidirectional"@, 30)
    } else if i == 18 {
        ("backpressure_slow_reader"@, "backpressure"@, 30)
    } else if i == 19 {
        ("backpressure_minimal_buffer"@, "backpressure"@, 30)
    } else if i == 20 {
        ("backpressure_no_data_loss"@, "backpressure"@, 30)
    } else if i == 21 {
        ("backpressure_slow_drain"@, "backpressure"@, 30)
    } else if i == 22 {
        ("integrity_response_32mib"@, "integrity"@, 180)
    } else if i == 23 {
        ("integrity_echo_32mib"@, "integrity"@, 180)
    } else {
        ("integrity_echo_32mib_capped"@, "integrity"@, 180)
    }
}

fn js_case_info(i: usize) -> (r: (&'static str, &'static str, u64))
    requires
        i < 25,
    ensures
        r.0@ == js_case(i as int).0,
        r.1@ == js_case(i as int).1,
        r.2 == js_case(i as int).2,
{
    if i == 0 {
        ("request_text", "request streaming", 30)
    } else if i == 1 {
        ("request_reader", "request streaming", 30)
    } else if i == 2 {
        ("request_json", "request streaming", 30)
    } else if i == 3 {
        ("request_binary", "request streaming", 30)
    } else if i == 4 {
        ("request_utf8_boundary", "request streaming", 30)
    } else if i == 5 {
        ("request_large", "request streaming", 30)
    } else if i == 6 {
        ("request_empty", "request streaming", 30)
    } else if i == 7 {
        ("request_double_consume", "request streaming", 30)
    } else if i == 8 {
        ("request_never_consumed", "request streaming", 30)
    } else if i == 9 {
        ("request_partial_read", "request streaming", 30)
    } else if i == 10 {
        ("request_error_midstream", "mid-stream error", 30)
    } else if i == 11 {
        ("response_ttfc", "response streaming", 30)
    } else if i == 12 {
        ("response_buffered_shape", "response streaming", 30)
    } else if i == 13 {
        ("response_echo", "response streaming", 30)
    } else if i == 14 {
        ("response_pipeline_multiple", "response streaming", 30)
    } else if i == 15 {
        ("response_error_midstream", "mid-stream error", 30)
    } else if i == 16 {
        ("disconnect_recovery", "cancellation", 30)
    } else if i == 17 {
        ("bidirectional_transform", "bidirectional", 30)
    } else if i == 18 {
        ("backpressure_slow_reader", "backpressure", 30)
    } else if i == 19 {
        ("backpressure_minimal_buffer", "backpressure", 30)
    } else if i == 20 {
        ("backpressure_no_data_loss", "backpressure", 30)
    } else if i == 21 {
        ("backpressure_slow_drain", "backpressure", 30)
    } else if i == 22 {
        ("integrity_response_32mib", "integrity", 180)
    } else if i == 23 {
        ("integrity_echo_32mib", "integrity", 180)
    } else {
        ("integrity_echo_32mib_capped", "integrity", 180)
    }
}

/// The JavaScript corpus, in the order it runs: each case's name, dimension
/// and budget in seconds from the table, and `runs[i]` to run case `i`.
pub fn corpus<R>(runs: Vec<R>) -> (r: Vec<Case<R>>)
    requires
        runs@.len() == 25,
    ensures
        r@.len() == 25,
        forall|i: int|
            0 <= i < 25 ==> {
                &&& (#[trigger] r@[i]).name@ == js_case(i).0
                &&& r@[i].dimension@ == js_case(i).1
                &&& r@[i].budget_secs == js_case(i).2
                &&& r@[i].run == runs@[i]
            },
{
    let ghost all = runs@;
    let mut rest = runs;
    let mut out: Vec<Case<R>> = Vec::new();
    let mut i: usize = 0;
    while i < 25
        invariant
            i <= 25,
            all.len() == 25,
            rest@ == all.skip(i as int),
            out@.len() == i,
            forall|k: int|
                0 <= k < i ==> {
                    &&& (#[trigger] out@[k]).name@ == js_case(k).0
                    &&& out@[k].dimension@ == js_case(k).1
                    &&& out@[k].budget_secs == js_case(k).2
                    &&& out@[k].run == all[k]
                },
        decreases 25 - i,
    {
        let run = rest.remove(0);
        proof {
            assert(rest@ =~= all.skip(i + 1));
        }
        let (name, dimension, budget_secs) = js_case_info(i);
        out.push(Case { name, dimension, budget_secs, run });
        i += 1;
    }
    out
}

} // verus!
