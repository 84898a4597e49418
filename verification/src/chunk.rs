//! Chunked file transfer.
//!
//! A file's bytes are framed into fixed-size blocks of `CHUNK_SIZE`
//! bytes. Each block is decoded to text leniently — invalid byte
//! sequences are replaced, never fatal — and sent as one non-terminal
//! envelope; after the last block exactly one terminal envelope with
//! empty content ends the transfer. A transfer that stops without a
//! terminal envelope was aborted by an I/O failure, and
//! `is_complete_transfer` tells the two apart.

use vstd::prelude::*;
use vstd::slice::slice_subrange;
use vstd::arithmetic::div_mod::lemma_fundamental_div_mod_converse;

verus! {

/// The fixed block size of a transfer, in bytes (64 KiB).
pub const CHUNK_SIZE: usize = 65536;

/// One unit of a streamed transfer.
pub struct ChunkEnvelope {
    pub content: String,
    pub terminal: bool,
}

/// The mathematical value of a `ChunkEnvelope`.
pub struct EnvelopeV {
    pub content: Seq<char>,
    pub terminal: bool,
}

impl View for ChunkEnvelope {
    type V = EnvelopeV;

    open spec fn view(&self) -> EnvelopeV {
        EnvelopeV { content: self.content@, terminal: self.terminal }
    }
}

/// The values of a sequence of envelopes.
pub open spec fn envs_of(s: Seq<ChunkEnvelope>) -> Seq<EnvelopeV> {
    s.map_values(|e: ChunkEnvelope| e@)
}

/// The text that lenient UTF-8 decoding yields for the given bytes: a
/// function of the bytes alone.
pub uninterp spec fn lossy_text_of(bytes: Seq<u8>) -> Seq<char>;

/// Relies on `String::from_utf8_lossy`: the decoded text depends on the
/// bytes alone, and bytes that are valid UTF-8 decode exactly, with no
/// replacement.
#[verifier::external_body]
fn decode_lossy(bytes: &[u8]) -> (r: String)
    ensures
        r@ == lossy_text_of(bytes@),
        vstd::utf8::valid_utf8(bytes@) ==> r@ == vstd::utf8::decode_utf8(bytes@),
{
    String::from_utf8_lossy(bytes).into_owned()
}

/// How many blocks an `n`-byte file is framed into: `ceil(n / CHUNK_SIZE)`.
pub open spec fn chunk_count(n: int) -> int {
    if n <= 0 {
        0
    } else {
        (n - 1) / (CHUNK_SIZE as int) + 1
    }
}

/// The bytes of block `i`: a full `CHUNK_SIZE` bytes except for the
/// final block, which holds what remains.
pub open spec fn chunk_at(b: Seq<u8>, i: int) -> Seq<u8> {
    let start = i * (CHUNK_SIZE as int);
    let end = if start + (CHUNK_SIZE as int) <= b.len() {
        start + (CHUNK_SIZE as int)
    } else {
        b.len() as int
    };
    b.subrange(start, end)
}

/// The byte blocks of a transfer, in file order.
pub open spec fn chunk_seq(b: Seq<u8>) -> Seq<Seq<u8>> {
    Seq::new(chunk_count(b.len() as int) as nat, |i: int| chunk_at(b, i))
}

/// The envelope carrying block `i`.
pub open spec fn nonterminal_env(b: Seq<u8>, i: int) -> EnvelopeV {
    EnvelopeV { content: lossy_text_of(chunk_at(b, i)), terminal: false }
}

/// The terminal envelope: empty content, terminal flag set.
pub open spec fn terminal_env() -> EnvelopeV {
    EnvelopeV { content: Seq::empty(), terminal: true }
}

/// The whole transfer of a file with bytes `b`: one non-terminal
/// envelope per block, then exactly one terminal envelope.
pub open spec fn stream_spec(b: Seq<u8>) -> Seq<EnvelopeV> {
    Seq::new(chunk_count(b.len() as int) as nat, |i: int| nonterminal_env(b, i)).push(
        terminal_env(),
    )
}

/// Frames a whole file held in memory into its transfer envelopes.
pub fn stream_of_bytes(bytes: &[u8]) -> (r: Vec<ChunkEnvelope>)
    ensures
        envs_of(r@) == stream_spec(bytes@),
{
    let n = bytes.len();
    let mut out: Vec<ChunkEnvelope> = Vec::new();
    let mut pos: usize = 0;
    proof {
        assert(envs_of(out@) =~= Seq::<EnvelopeV>::empty());
    }
    while pos < n
        invariant
            n == bytes@.len(),
            pos <= n,
            n > 0 && pos < n ==> pos == out@.len() * (CHUNK_SIZE as int),
            pos == n ==> out@.len() == chunk_count(n as int),
            envs_of(out@) =~= Seq::new(out@.len(), |i: int| nonterminal_env(bytes@, i)),
        decreases n - pos,
    {
        let ghost k = out@.len() as int;
        let end = if n - pos >= CHUNK_SIZE {
            pos + CHUNK_SIZE
        } else {
            n
        };
        let block = slice_subrange(bytes, pos, end);
        let content = decode_lossy(block);
        let ghost before = out@;
        out.push(ChunkEnvelope { content, terminal: false });
        proof {
            assert(chunk_at(bytes@, k) =~= bytes@.subrange(pos as int, end as int));
            assert(envs_of(out@) =~= envs_of(before).push(nonterminal_env(bytes@, k)));
            assert(envs_of(out@) =~= Seq::new(out@.len(), |i: int| nonterminal_env(bytes@, i)));
            if end == n {
                // the final block: position n - 1 lies in block k
                lemma_fundamental_div_mod_converse(
                    n as int - 1,
                    CHUNK_SIZE as int,
                    k,
                    n as int - 1 - k * (CHUNK_SIZE as int),
                );
            }
        }
        pos = end;
    }
    out.push(ChunkEnvelope { content: String::new(), terminal: true });
    proof {
        assert(envs_of(out@) =~= stream_spec(bytes@));
    }
    out
}

/// One non-terminal envelope for a block the shell just read, for a
/// transfer streamed block by block.
pub fn block_envelope(block: &[u8]) -> (r: ChunkEnvelope)
    ensures
        r@ == (EnvelopeV { content: lossy_text_of(block@), terminal: false }),
{
    ChunkEnvelope { content: decode_lossy(block), terminal: false }
}

/// The terminal envelope that ends a successful transfer.
pub fn terminal_envelope() -> (r: ChunkEnvelope)
    ensures
        r@ == terminal_env(),
{
    let r = ChunkEnvelope { content: String::new(), terminal: true };
    proof {
        assert(r@.content =~= Seq::<char>::empty());
    }
    r
}

/// A transfer that ran to completion: it ends with exactly one terminal
/// envelope, that envelope carries empty content, and no earlier
/// envelope is terminal. A sequence that fails this test was aborted.
pub open spec fn complete_transfer(s: Seq<EnvelopeV>) -> bool {
    &&& s.len() > 0
    &&& s.last().terminal
    &&& s.last().content.len() == 0
    &&& forall|i: int| 0 <= i < s.len() - 1 ==> !(#[trigger] s[i]).terminal
}

/// Decides whether a received transfer ran to completion, so a caller
/// can tell a successful (possibly empty) transfer from an aborted one.
pub fn is_complete_transfer(v: &Vec<ChunkEnvelope>) -> (r: bool)
    ensures
        r == complete_transfer(envs_of(v@)),
{
    let n = v.len();
    if n == 0 {
        return false;
    }
    let last = &v[n - 1];
    proof {
        assert(envs_of(v@).last() == v@[n - 1]@);
    }
    if !last.terminal {
        return false;
    }
    if last.content.unicode_len() != 0 {
        return false;
    }
    let mut i: usize = 0;
    while i < n - 1
        invariant
            i <= n - 1,
            n == v@.len(),
            n > 0,
            envs_of(v@).last().terminal,
            envs_of(v@).last().content.len() == 0,
            forall|j: int| 0 <= j < i ==> !(#[trigger] envs_of(v@)[j]).terminal,
        decreases n - 1 - i,
    {
        if v[i].terminal {
            proof {
                assert(envs_of(v@)[i as int].terminal);
            }
            return false;
        }
        i = i + 1;
    }
    true
}

/// A streamed transfer is always complete: exactly one terminal
/// envelope, carrying empty content, after all the blocks.
pub proof fn lemma_stream_complete(b: Seq<u8>)
    ensures
        complete_transfer(stream_spec(b)),
        stream_spec(b).len() == chunk_count(b.len() as int) + 1,
        forall|i: int|
            0 <= i < chunk_count(b.len() as int) ==> #[trigger] stream_spec(b)[i]
                == nonterminal_env(b, i),
{
}

/// A transfer of an empty file is exactly one terminal envelope with
/// empty content.
pub proof fn lemma_stream_empty(b: Seq<u8>)
    requires
        b.len() == 0,
    ensures
        stream_spec(b) =~= seq![terminal_env()],
{
}

/// The byte blocks of a transfer, taken from block `i` on.
spec fn chunks_from(b: Seq<u8>, i: int) -> Seq<Seq<u8>>
    decreases chunk_count(b.len() as int) - i,
{
    if 0 <= i < chunk_count(b.len() as int) {
        seq![chunk_at(b, i)] + chunks_from(b, i + 1)
    } else {
        Seq::empty()
    }
}

/// The block start positions never pass the end of the file.
proof fn lemma_chunk_start_in_range(n: int, i: int)
    requires
        0 <= i < chunk_count(n),
    ensures
        0 <= i * (CHUNK_SIZE as int) < n,
{
    let cs = CHUNK_SIZE as int;
    assert(i <= (n - 1) / cs);
    assert(((n - 1) / cs) * cs <= n - 1) by {
        vstd::arithmetic::div_mod::lemma_fundamental_div_mod(n - 1, cs);
    }
    assert(i * cs <= ((n - 1) / cs) * cs) by (nonlinear_arith)
        requires
            i <= (n - 1) / cs,
            cs > 0,
    ;
}

/// Concatenating the blocks from `i` on yields the bytes from block
/// `i`'s start on.
proof fn lemma_chunks_from_reconstruct(b: Seq<u8>, i: int)
    requires
        0 <= i,
    ensures
        chunks_from(b, i).flatten() =~= if i < chunk_count(b.len() as int) {
            b.skip(i * (CHUNK_SIZE as int))
        } else {
            Seq::<u8>::empty()
        },
    decreases chunk_count(b.len() as int) - i,
{
    let cs = CHUNK_SIZE as int;
    let count = chunk_count(b.len() as int);
    if i < count {
        lemma_chunk_start_in_range(b.len() as int, i);
        lemma_chunks_from_reconstruct(b, i + 1);
        let s = chunks_from(b, i);
        assert(s.first() == chunk_at(b, i));
        assert(s.drop_first() =~= chunks_from(b, i + 1));
        if i + 1 < count {
            lemma_chunk_start_in_range(b.len() as int, i + 1);
            assert((i + 1) * cs == i * cs + cs);
            assert(chunk_at(b, i) + b.skip((i + 1) * cs) =~= b.skip(i * cs));
        } else {
            // block i is the last: it reaches the end of the file
            assert(i == count - 1);
            assert((count - 1) * cs == count * cs - cs);
            assert(b.len() <= count * cs) by {
                assert(count == (b.len() - 1) / cs + 1);
                vstd::arithmetic::div_mod::lemma_fundamental_div_mod(b.len() as int - 1, cs);
            }
            assert(chunk_at(b, i) =~= b.skip(i * cs));
        }
    }
}

/// The blocks of a transfer concatenate to the original bytes: nothing
/// is lost, duplicated or reordered by framing.
pub proof fn lemma_chunks_reconstruct(b: Seq<u8>)
    ensures
        chunk_seq(b).flatten() =~= b,
{
    lemma_chunks_from_reconstruct(b, 0);
    lemma_chunk_seq_is_chunks_from(b, 0);
    assert(chunk_seq(b).skip(0) =~= chunk_seq(b));
    if chunk_count(b.len() as int) > 0 {
        assert(b.skip(0) =~= b);
    } else {
        assert(b.len() == 0);
        assert(chunk_seq(b) =~= Seq::<Seq<u8>>::empty());
        assert(Seq::<Seq<u8>>::empty().flatten() =~= Seq::<u8>::empty());
    }
}

/// `chunk_seq` agrees with the recursive enumeration of blocks.
proof fn lemma_chunk_seq_is_chunks_from(b: Seq<u8>, i: int)
    requires
        0 <= i <= chunk_count(b.len() as int),
    ensures
        chunks_from(b, i) =~= chunk_seq(b).skip(i),
    decreases chunk_count(b.len() as int) - i,
{
    if i < chunk_count(b.len() as int) {
        lemma_chunk_seq_is_chunks_from(b, i + 1);
    }
}

} // verus!
