//! The content hash of a run of tokens.
use std::collections::hash_map::DefaultHasher;
use vstd::prelude::*;
use vstd::std_specs::hash::DefaultHasherAdditionalSpecFns;
use crate::types::{ContentHash, TokenId};

verus! {

/// The `k` low bytes of `x`, least significant first.
pub open spec fn le_bytes(x: nat, k: nat) -> Seq<u8>
    decreases k,
{
    if k == 0 {
        Seq::empty()
    } else {
        seq![(x % 256) as u8] + le_bytes(x / 256, (k - 1) as nat)
    }
}

/// The tokens laid out as consecutive little-endian 32-bit words.
pub open spec fn tokens_le_bytes(tokens: Seq<TokenId>) -> Seq<u8>
    decreases tokens.len(),
{
    if tokens.len() == 0 {
        Seq::empty()
    } else {
        tokens_le_bytes(tokens.drop_last()) + le_bytes(tokens.last() as nat, 4)
    }
}

/// The content hash of a run of tokens: `DefaultHasher` fed first the
/// token count as a 64-bit little-endian word, then the tokens' bytes.
/// These are the two writes that hashing a `[u32]` slice makes on a 64-bit
/// little-endian target, spelled out so that the result does not depend on
/// the machine.
pub open spec fn token_hash(tokens: Seq<TokenId>) -> ContentHash {
    DefaultHasher::spec_finish(seq![le_bytes(tokens.len(), 8), tokens_le_bytes(tokens)])
}

/// The content hash depends on the token values and their order alone:
/// equal runs of tokens hash alike.
pub proof fn lemma_token_hash_of_equal_runs(a: Seq<TokenId>, b: Seq<TokenId>)
    requires
        a.len() == b.len(),
        forall|i: int| 0 <= i < a.len() ==> a[i] == b[i],
    ensures
        token_hash(a) == token_hash(b),
{
    assert(a =~= b);
}

/// The value of bytes read as a little-endian number.
pub open spec fn le_value(bytes: Seq<u8>) -> nat
    decreases bytes.len(),
{
    if bytes.len() == 0 {
        0
    } else {
        bytes[0] as nat + 256 * le_value(bytes.drop_first())
    }
}

/// `256` to the power `k`: one more than the largest value `k` bytes hold.
pub open spec fn byte_range(k: nat) -> nat
    decreases k,
{
    if k == 0 {
        1
    } else {
        256 * byte_range((k - 1) as nat)
    }
}

/// Writing a value that fits in `k` bytes and reading the bytes back gives
/// the value.
proof fn lemma_le_bytes_read_back(x: nat, k: nat)
    requires
        x < byte_range(k),
    ensures
        le_bytes(x, k).len() == k,
        le_value(le_bytes(x, k)) == x,
    decreases k,
{
    if k > 0 {
        let b = byte_range((k - 1) as nat);
        assert(x / 256 < b) by (nonlinear_arith)
            requires
                x < 256 * b,
        ;
        lemma_le_bytes_read_back(x / 256, (k - 1) as nat);
        let bytes = le_bytes(x, k);
        assert(bytes.drop_first() =~= le_bytes(x / 256, (k - 1) as nat));
        assert(bytes[0] == (x % 256) as u8);
        assert(x == 256 * (x / 256) + x % 256);
    }
}

/// The bytes of a run of tokens: four per token, the `i`-th four being the
/// `i`-th token.
proof fn lemma_tokens_le_bytes_layout(s: Seq<TokenId>)
    ensures
        tokens_le_bytes(s).len() == 4 * s.len(),
        forall|i: int|
            0 <= i < s.len() ==> #[trigger] tokens_le_bytes(s).subrange(4 * i, 4 * i + 4)
                == le_bytes(s[i] as nat, 4),
    decreases s.len(),
{
    if s.len() > 0 {
        let p = s.drop_last();
        lemma_tokens_le_bytes_layout(p);
        assert(s.last() < byte_range(4)) by {
            reveal_with_fuel(byte_range, 5);
        }
        lemma_le_bytes_read_back(s.last() as nat, 4);
        let all = tokens_le_bytes(s);
        assert(all == tokens_le_bytes(p) + le_bytes(s.last() as nat, 4));
        assert forall|i: int| 0 <= i < s.len() implies #[trigger] all.subrange(4 * i, 4 * i + 4)
            == le_bytes(s[i] as nat, 4) by {
            if i < p.len() {
                assert(all.subrange(4 * i, 4 * i + 4) =~= tokens_le_bytes(p).subrange(
                    4 * i,
                    4 * i + 4,
                ));
                assert(p[i] == s[i]);
            } else {
                assert(all.subrange(4 * i, 4 * i + 4) =~= le_bytes(s.last() as nat, 4));
            }
        }
    }
}

/// The content hash reads every token of the run: it is `DefaultHasher`'s
/// result on an 8-byte word that holds the run's length and on four bytes
/// per token that hold, in order, each token of the run.
pub proof fn lemma_token_hash_reads_every_token(s: Seq<TokenId>)
    requires
        s.len() <= u64::MAX,
    ensures
        exists|len_word: Seq<u8>, words: Seq<u8>|
            #![trigger le_value(len_word), words.len()]
            {
                &&& token_hash(s) == DefaultHasher::spec_finish(seq![len_word, words])
                &&& len_word.len() == 8
                &&& le_value(len_word) == s.len()
                &&& words.len() == 4 * s.len()
                &&& forall|i: int|
                    0 <= i < s.len() ==> le_value(#[trigger] words.subrange(4 * i, 4 * i + 4))
                        == s[i]
            },
{
    assert(s.len() < byte_range(8)) by {
        reveal_with_fuel(byte_range, 9);
    }
    lemma_le_bytes_read_back(s.len(), 8);
    lemma_tokens_le_bytes_layout(s);
    let len_word = le_bytes(s.len(), 8);
    let words = tokens_le_bytes(s);
    assert forall|i: int| 0 <= i < s.len() implies le_value(
        #[trigger] words.subrange(4 * i, 4 * i + 4),
    ) == s[i] by {
        assert(s[i] < byte_range(4)) by {
            reveal_with_fuel(byte_range, 5);
        }
        lemma_le_bytes_read_back(s[i] as nat, 4);
    }
    assert(token_hash(s) == DefaultHasher::spec_finish(seq![len_word, words]));
    assert(le_value(len_word) == s.len() && words.len() == 4 * s.len());
}

/// Runs that differ in length or in any one token are hashed from different
/// inputs: whatever `DefaultHasher` makes of them, it is handed different
/// bytes.
pub proof fn lemma_distinct_runs_hash_distinct_inputs(a: Seq<TokenId>, b: Seq<TokenId>)
    requires
        a.len() <= u64::MAX,
        b.len() <= u64::MAX,
        a != b,
    ensures
        exists|input_a: Seq<Seq<u8>>, input_b: Seq<Seq<u8>>|
            {
                &&& token_hash(a) == #[trigger] DefaultHasher::spec_finish(input_a)
                &&& token_hash(b) == #[trigger] DefaultHasher::spec_finish(input_b)
                &&& input_a != input_b
            },
{
    lemma_token_hash_reads_every_token(a);
    lemma_token_hash_reads_every_token(b);
    let (la, wa) = choose|len_word: Seq<u8>, words: Seq<u8>|
        #![trigger le_value(len_word), words.len()]
        {
            &&& token_hash(a) == DefaultHasher::spec_finish(seq![len_word, words])
            &&& len_word.len() == 8
            &&& le_value(len_word) == a.len()
            &&& words.len() == 4 * a.len()
            &&& forall|i: int|
                0 <= i < a.len() ==> le_value(#[trigger] words.subrange(4 * i, 4 * i + 4))
                    == a[i]
        };
    let (lb, wb) = choose|len_word: Seq<u8>, words: Seq<u8>|
        #![trigger le_value(len_word), words.len()]
        {
            &&& token_hash(b) == DefaultHasher::spec_finish(seq![len_word, words])
            &&& len_word.len() == 8
            &&& le_value(len_word) == b.len()
            &&& words.len() == 4 * b.len()
            &&& forall|i: int|
                0 <= i < b.len() ==> le_value(#[trigger] words.subrange(4 * i, 4 * i + 4))
                    == b[i]
        };
    let input_a = seq![la, wa];
    let input_b = seq![lb, wb];
    if input_a == input_b {
        assert(input_a[0] == input_b[0]);
        assert(input_a[1] == input_b[1]);
        assert(a.len() == b.len());
        assert forall|i: int| 0 <= i < a.len() implies a[i] == b[i] by {
            assert(wa.subrange(4 * i, 4 * i + 4) == wb.subrange(4 * i, 4 * i + 4));
        }
        assert(a =~= b);
    }
    assert(token_hash(a) == DefaultHasher::spec_finish(input_a));
    assert(token_hash(b) == DefaultHasher::spec_finish(input_b));
}

/// Appends the `k` low bytes of `x`, least significant first.
pub(crate) fn push_le_bytes(out: &mut Vec<u8>, x: u64, k: usize)
    ensures
        final(out)@ == old(out)@ + le_bytes(x as nat, k as nat),
    decreases k,
{
    if k > 0 {
        let ghost before = out@;
        out.push((x % 256) as u8);
        push_le_bytes(out, x / 256, k - 1);
        assert(final(out)@ =~= before + le_bytes(x as nat, k as nat));
    } else {
        assert(out@ =~= out@ + le_bytes(x as nat, k as nat));
    }
}

/// The hash of the `i`-th full block of `tokens`.
pub open spec fn chunk_hash(tokens: Seq<TokenId>, block_size: nat, i: int) -> ContentHash {
    token_hash(tokens.subrange(i * block_size, (i + 1) * block_size))
}

/// The hash of a full block depends on that block's tokens alone: two
/// prompts whose blocks hold the same tokens, at whatever position and
/// whatever the other tokens, give those blocks the same hash.
pub proof fn lemma_chunk_hash_of_equal_blocks(
    a: Seq<TokenId>,
    b: Seq<TokenId>,
    block_size: nat,
    i: int,
    j: int,
)
    requires
        a.subrange(i * block_size, (i + 1) * block_size) == b.subrange(
            j * block_size,
            (j + 1) * block_size,
        ),
    ensures
        chunk_hash(a, block_size, i) == chunk_hash(b, block_size, j),
{
}

/// The hash of a full block reads every token of that block: it is
/// `DefaultHasher`'s result on an 8-byte word that holds the block size and
/// on four bytes per token that hold, in order, the block's tokens.
pub proof fn lemma_chunk_hash_reads_every_token(tokens: Seq<TokenId>, block_size: nat, i: int)
    requires
        0 <= i,
        (i + 1) * block_size <= tokens.len(),
        block_size <= u64::MAX,
    ensures
        exists|len_word: Seq<u8>, words: Seq<u8>|
            #![trigger le_value(len_word), words.len()]
            {
                &&& chunk_hash(tokens, block_size, i) == DefaultHasher::spec_finish(
                    seq![len_word, words],
                )
                &&& len_word.len() == 8
                &&& le_value(len_word) == block_size
                &&& words.len() == 4 * block_size
                &&& forall|k: int|
                    0 <= k < block_size ==> le_value(#[trigger] words.subrange(4 * k, 4 * k + 4))
                        == tokens[i * block_size + k]
            },
{
    assert((i + 1) * block_size == i * block_size + block_size) by (nonlinear_arith);
    assert(0 <= i * block_size) by (nonlinear_arith)
        requires
            0 <= i,
    ;
    let s = tokens.subrange(i * block_size, (i + 1) * block_size);
    lemma_token_hash_reads_every_token(s);
    let (len_word, words) = choose|len_word: Seq<u8>, words: Seq<u8>|
        #![trigger le_value(len_word), words.len()]
        {
            &&& token_hash(s) == DefaultHasher::spec_finish(seq![len_word, words])
            &&& len_word.len() == 8
            &&& le_value(len_word) == s.len()
            &&& words.len() == 4 * s.len()
            &&& forall|k: int|
                0 <= k < s.len() ==> le_value(#[trigger] words.subrange(4 * k, 4 * k + 4))
                    == s[k]
        };
    assert forall|k: int| 0 <= k < block_size implies le_value(
        #[trigger] words.subrange(4 * k, 4 * k + 4),
    ) == tokens[i * block_size + k] by {
        assert(s[k] == tokens[i * block_size + k]);
    }
    assert(le_value(len_word) == block_size && words.len() == 4 * block_size);
}

} // verus!
