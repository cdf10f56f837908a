//! Planning of one file's download: the probe's reading of range support,
//! the choice between streaming and chunking, the byte range of every
//! chunk, the retry backoff, and the reassembly of chunks into the file.

use vstd::prelude::*;

verus! {

/// Bytes of one ranged request.
pub const CHUNK_SIZE: u64 = 5 * 1024 * 1024;

/// Per-request deadline, in seconds.
pub const CHUNK_TIMEOUT_SECS: u64 = 60;

/// Files at least this large are chunked, where the server allows ranges.
pub const CHUNKED_DOWNLOAD_THRESHOLD: u64 = 10 * 1024 * 1024;

/// Ranged requests in flight per file.
pub const MAX_CONCURRENT_CHUNKS: usize = 3;

/// Retries each chunk may spend.
pub const MAX_CHUNK_RETRIES: u32 = 3;

/// The upper-case letters folded for the range-support test.
pub open spec fn lower_u(c: char) -> int {
    if 65 <= c as u32 <= 90 {
        c as u32 + 32
    } else {
        c as u32 as int
    }
}

/// ASCII-case-insensitive equality of two character sequences.
pub open spec fn eq_ignore_case(a: Seq<char>, b: Seq<char>) -> bool {
    a.len() == b.len() && forall|i: int| 0 <= i < a.len() ==> lower_u(#[trigger] a[i]) == lower_u(
        b[i],
    )
}

/// A server grants ranges exactly when its header value is the token
/// `bytes`, in any case.
pub open spec fn spec_range_supported(v: Option<Seq<char>>) -> bool {
    match v {
        Option::Some(s) => eq_ignore_case(s, "bytes"@),
        Option::None => false,
    }
}

/// Decides `spec_range_supported` of a probe's header value.
pub fn range_supported(v: Option<&str>) -> (r: bool)
    ensures
        r == spec_range_supported(match v {
            Option::Some(s) => Option::Some(s@),
            Option::None => Option::None,
        }),
{
    proof {
        reveal_strlit("bytes");
    }
    let s = match v {
        Option::Some(s) => s,
        Option::None => {
            return false;
        },
    };
    let pat = "bytes";
    let slen = s.unicode_len();
    if slen != 5 {
        return false;
    }
    let mut i: usize = 0;
    while i < 5
        invariant
            slen == s@.len(),
            slen == 5,
            "bytes"@.len() == 5,
            i <= 5,
            pat@ == "bytes"@,
            match v {
                Option::Some(x) => x@ == s@,
                Option::None => false,
            },
            forall|k: int| 0 <= k < i ==> lower_u(#[trigger] s@[k]) == lower_u("bytes"@[k]),
        decreases 5 - i,
    {
        let ca = s.get_char(i) as u32;
        let cb = pat.get_char(i) as u32;
        let la = if 65 <= ca && ca <= 90 {
            ca + 32
        } else {
            ca
        };
        let lb = if 65 <= cb && cb <= 90 {
            cb + 32
        } else {
            cb
        };
        if la != lb {
            proof {
                assert(lower_u(s@[i as int]) != lower_u("bytes"@[i as int]));
                assert(!eq_ignore_case(s@, "bytes"@));
            }
            return false;
        }
        i = i + 1;
    }
    proof {
        assert(eq_ignore_case(s@, "bytes"@));
    }
    true
}

/// Chunked mode is chosen exactly for large files on range-granting
/// servers.
pub open spec fn spec_use_chunked(content_length: int, supports_range: bool) -> bool {
    content_length >= CHUNKED_DOWNLOAD_THRESHOLD && supports_range
}

/// Decides `spec_use_chunked`.
pub fn use_chunked(content_length: u64, supports_range: bool) -> (r: bool)
    ensures
        r == spec_use_chunked(content_length as int, supports_range),
{
    content_length >= CHUNKED_DOWNLOAD_THRESHOLD && supports_range
}

/// How many chunks a file of this length takes: the length divided by the
/// chunk size, rounded up.
pub open spec fn spec_chunk_count(len: int) -> int {
    (len + CHUNK_SIZE - 1) / (CHUNK_SIZE as int)
}

/// Computes `spec_chunk_count`.
pub fn chunk_count(content_length: u64) -> (r: u64)
    requires
        content_length <= u64::MAX - CHUNK_SIZE,
    ensures
        r as int == spec_chunk_count(content_length as int),
{
    (content_length + CHUNK_SIZE - 1) / CHUNK_SIZE
}

/// The inclusive byte range of one chunk.
pub open spec fn spec_chunk_start(i: int) -> int {
    i * (CHUNK_SIZE as int)
}

/// The last byte of one chunk: a full stride in, or the file's end.
pub open spec fn spec_chunk_end(i: int, len: int) -> int {
    if i * (CHUNK_SIZE as int) + (CHUNK_SIZE as int) - 1 <= len - 1 {
        i * (CHUNK_SIZE as int) + (CHUNK_SIZE as int) - 1
    } else {
        len - 1
    }
}

/// Computes one chunk's inclusive byte range.
pub fn chunk_range(i: u64, content_length: u64) -> (r: (u64, u64))
    requires
        content_length > 0,
        (i as int) < spec_chunk_count(content_length as int),
        content_length + CHUNK_SIZE - 1 <= u64::MAX,
    ensures
        r.0 as int == spec_chunk_start(i as int),
        r.1 as int == spec_chunk_end(i as int, content_length as int),
        r.0 <= r.1 < content_length,
{
    proof {
        assert(i as int * (CHUNK_SIZE as int) < content_length as int) by (nonlinear_arith)
            requires
                (i as int) < spec_chunk_count(content_length as int),
                spec_chunk_count(content_length as int) == (content_length as int + CHUNK_SIZE
                    - 1) / (CHUNK_SIZE as int),
                content_length > 0,
        {
        }
    }
    let start = i * CHUNK_SIZE;
    let end = if start + CHUNK_SIZE - 1 <= content_length - 1 {
        start + CHUNK_SIZE - 1
    } else {
        content_length - 1
    };
    (start, end)
}

/// The delay before a retry: 100 ms doubled for each attempt already
/// spent.
pub fn backoff_ms(attempt: u32) -> (r: u64)
    requires
        1 <= attempt <= 56,
    ensures
        r as int == 100 * vstd::arithmetic::power2::pow2((attempt - 1) as nat),
{
    let mut acc: u64 = 100;
    let mut i: u32 = 0;
    proof {
        vstd::arithmetic::power2::lemma2_to64();
        assert(acc as int == 100 * vstd::arithmetic::power2::pow2(0));
    }
    while i < attempt - 1
        invariant
            i <= attempt - 1,
            attempt <= 56,
            acc as int == 100 * vstd::arithmetic::power2::pow2(i as nat),
        decreases attempt - 1 - i,
    {
        proof {
            vstd::arithmetic::power2::lemma2_to64();
            vstd::arithmetic::power2::lemma2_to64_rest();
            if (i + 1) < 55 {
                vstd::arithmetic::power2::lemma_pow2_strictly_increases((i + 1) as nat, 55);
            }
            vstd::arithmetic::power2::lemma_pow2_unfold((i + 1) as nat);
        }
        acc = acc * 2;
        i = i + 1;
    }
    acc
}

/// A ranged response succeeds only as HTTP 206 Partial Content.
pub fn is_partial_content(status: u16) -> (r: bool)
    ensures
        r == (status == 206),
{
    status == 206
}

/// The bytes of a chunk list, joined in index order.
pub open spec fn concat_bytes(s: Seq<Seq<u8>>) -> Seq<u8>
    decreases s.len(),
{
    if s.len() == 0 {
        Seq::empty()
    } else {
        s[0] + concat_bytes(s.drop_first())
    }
}

/// Joins downloaded chunks in index order, exactly `concat_bytes`.
pub fn assemble_chunks(chunks: &Vec<Vec<u8>>) -> (r: Vec<u8>)
    requires
        concat_bytes(chunks@.map_values(|c: Vec<u8>| c@)).len() <= usize::MAX,
    ensures
        r@ == concat_bytes(chunks@.map_values(|c: Vec<u8>| c@)),
{
    let ghost cv = chunks@.map_values(|c: Vec<u8>| c@);
    let mut r: Vec<u8> = Vec::new();
    let mut k: usize = 0;
    proof {
        assert(cv.skip(0) =~= cv);
        assert(r@ + concat_bytes(cv.skip(0)) =~= concat_bytes(cv));
    }
    while k < chunks.len()
        invariant
            k <= chunks.len(),
            cv == chunks@.map_values(|c: Vec<u8>| c@),
            concat_bytes(cv) == r@ + concat_bytes(cv.skip(k as int)),
            concat_bytes(cv).len() <= usize::MAX,
        decreases chunks.len() - k,
    {
        let ghost rest = cv.skip(k as int);
        proof {
            assert(rest[0] == cv[k as int]);
            assert(rest.drop_first() =~= cv.skip(k + 1));
            lemma_concat_bytes_len(cv.skip(k + 1));
        }
        let chunk = &chunks[k];
        let mut t: usize = 0;
        let ghost r0 = r@;
        while t < chunk.len()
            invariant
                t <= chunk.len(),
                k < chunks.len(),
                cv == chunks@.map_values(|c: Vec<u8>| c@),
                chunk@ == cv[k as int],
                r@ == r0 + cv[k as int].take(t as int),
                r0.len() + cv[k as int].len() <= usize::MAX,
            decreases chunk.len() - t,
        {
            r.push(chunk[t]);
            proof {
                assert(r@ =~= r0 + cv[k as int].take(t + 1));
            }
            t = t + 1;
        }
        proof {
            assert(cv[k as int].take(cv[k as int].len() as int) =~= cv[k as int]);
            assert(r@ + concat_bytes(cv.skip(k + 1)) =~= (r0 + cv[k as int]) + concat_bytes(
                cv.skip(k + 1),
            ));
            assert(r0 + (cv[k as int] + concat_bytes(cv.skip(k + 1))) =~= (r0 + cv[k as int])
                + concat_bytes(cv.skip(k + 1)));
        }
        k = k + 1;
    }
    proof {
        assert(cv.skip(cv.len() as int) =~= Seq::<Seq<u8>>::empty());
        assert(r@ + Seq::<u8>::empty() =~= r@);
    }
    r
}

proof fn lemma_concat_bytes_len(s: Seq<Seq<u8>>)
    ensures
        concat_bytes(s).len() >= 0,
{
}

/// What the lossy UTF-8 decode yields for a byte sequence: a function of
/// the bytes alone, spoken for only by the decoding call below.
pub uninterp spec fn decoded_text(bytes: Seq<u8>) -> Seq<char>;

/// Relies on `String::from_utf8_lossy`: valid UTF-8 decodes exactly, an
/// invalid sequence is replaced — a download never fails over encoding.
#[verifier::external_body]
fn decode_utf8(bytes: Vec<u8>) -> (r: String)
    ensures
        r@ == decoded_text(bytes@),
{
    String::from_utf8_lossy(&bytes).into_owned()
}

/// Joins downloaded chunks in index order and decodes the result, exactly
/// `decoded_text` of `concat_bytes`.
pub fn assemble_and_decode(chunks: &Vec<Vec<u8>>) -> (r: String)
    requires
        concat_bytes(chunks@.map_values(|c: Vec<u8>| c@)).len() <= usize::MAX,
    ensures
        r@ == decoded_text(concat_bytes(chunks@.map_values(|c: Vec<u8>| c@))),
{
    let bytes = assemble_chunks(chunks);
    decode_utf8(bytes)
}

/// Where a suffix of the chunk run starts in the body.
pub open spec fn chunk_lo(k: int, len: int) -> int {
    if k * (CHUNK_SIZE as int) < len {
        k * (CHUNK_SIZE as int)
    } else {
        len
    }
}

/// Chunks cut from a body by the planned ranges reassemble to the body:
/// what chunked mode stores equals what one plain read would have.
pub proof fn lemma_chunk_reassembly(chunks: Seq<Seq<u8>>, body: Seq<u8>)
    requires
        body.len() > 0,
        chunks.len() == spec_chunk_count(body.len() as int),
        forall|i: int|
            0 <= i < chunks.len() ==> #[trigger] chunks[i] == body.subrange(
                spec_chunk_start(i),
                spec_chunk_end(i, body.len() as int) + 1,
            ),
    ensures
        concat_bytes(chunks) == body,
{
    lemma_chunk_reassembly_from(chunks, body, 0);
    assert(chunks.skip(0) =~= chunks);
    assert(chunk_lo(0, body.len() as int) == 0);
    assert(body.subrange(0, body.len() as int) =~= body);
}

proof fn lemma_chunk_reassembly_from(chunks: Seq<Seq<u8>>, body: Seq<u8>, k: int)
    requires
        body.len() > 0,
        chunks.len() == spec_chunk_count(body.len() as int),
        0 <= k <= chunks.len(),
        forall|i: int|
            0 <= i < chunks.len() ==> #[trigger] chunks[i] == body.subrange(
                spec_chunk_start(i),
                spec_chunk_end(i, body.len() as int) + 1,
            ),
    ensures
        concat_bytes(chunks.skip(k)) == body.subrange(
            chunk_lo(k, body.len() as int),
            body.len() as int,
        ),
    decreases chunks.len() - k,
{
    let c = CHUNK_SIZE as int;
    let len = body.len() as int;
    let n = chunks.len() as int;
    if k == n {
        assert(k * c >= len) by (nonlinear_arith)
            requires
                n == (len + c - 1) / c,
                k == n,
                c == CHUNK_SIZE as int,
                len > 0,
        {
        }
        assert(chunk_lo(k, len) == len);
        assert(chunks.skip(k) =~= Seq::<Seq<u8>>::empty());
        assert(body.subrange(len, len) =~= Seq::<u8>::empty());
    } else {
        assert(k * c < len) by (nonlinear_arith)
            requires
                n == (len + c - 1) / c,
                0 <= k < n,
                c == CHUNK_SIZE as int,
                len > 0,
        {
        }
        assert(chunk_lo(k, len) == k * c);
        assert((k + 1) * c == k * c + c) by (nonlinear_arith) {
        }
        lemma_chunk_reassembly_from(chunks, body, k + 1);
        let rest = chunks.skip(k);
        assert(rest[0] == chunks[k]);
        assert(rest.drop_first() =~= chunks.skip(k + 1));
        let hi = spec_chunk_end(k, len) + 1;
        assert(hi == chunk_lo(k + 1, len));
        assert(body.subrange(k * c, hi) + body.subrange(hi, len) =~= body.subrange(k * c, len));
        assert(chunks[k] + concat_bytes(chunks.skip(k + 1)) =~= body.subrange(k * c, len));
    }
}

} // verus!
