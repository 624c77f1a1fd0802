//! Encoding a text into shuffled, tagged hexadecimal chunks, and decoding
//! such chunks back with a key.

use crate::pcg::{pcg_nth, pcg_output, pcg_state_after, pcg_step, seeded_inc, seeded_state, Pcg};
use crate::text::{
    lemma_ascii_utf8, is_hex_digit, ascii_chars, ascii_string, base64_decode, base64_encode, base64_of, hex_decode, hex_digit,
    hex_encode, hex_of, is_ascii_bytes, is_hex_text, is_lower_hex_digit, string_from_utf8, unhex,
};
use vstd::prelude::*;
use vstd::arithmetic::div_mod::{lemma_fundamental_div_mod, lemma_mod_multiples_basic};
use vstd::slice::slice_to_vec;
use vstd::utf8::*;

verus! {

/// The number of hexadecimal digits of an order prefix: one 32-bit value.
pub const U32_HEX_LENGTH: u32 = 8;

/// The lowest `n` hexadecimal digits of `v`, most significant first.
pub open spec fn hex_width(v: nat, n: nat) -> Seq<u8>
    decreases n,
{
    if n == 0 {
        Seq::empty()
    } else {
        hex_width(v / 16, (n - 1) as nat).push(hex_digit((v % 16) as int))
    }
}

/// The order prefix that tags a chunk: eight lowercase hexadecimal digits.
pub open spec fn order_prefix(v: u32) -> Seq<u8> {
    hex_width(v as nat, 8)
}

/// The random hexadecimal digit drawn from a generator in the given state.
pub open spec fn random_hex_digit(state: u64) -> u8 {
    hex_digit((pcg_output(state) % 16) as int)
}

/// The `n` random hexadecimal digits that a generator in the given state draws.
pub open spec fn random_hex_digits(state: u64, inc: u64, n: nat) -> Seq<u8> {
    Seq::new(n, |i: int| random_hex_digit(pcg_state_after(state, inc, i as nat)))
}

/// `parts` cuts `s` into consecutive slices of length `p`, in order.
#[verifier::opaque]
pub open spec fn is_partition_of(parts: Seq<Seq<u8>>, s: Seq<u8>, p: nat) -> bool {
    &&& s.len() == parts.len() * p
    &&& forall|k: int|
        0 <= k < parts.len() ==> #[trigger] parts[k] == s.subrange(k * p, k * p + p)
}

proof fn lemma_hex_width_len(v: nat, n: nat)
    ensures
        hex_width(v, n).len() == n,
    decreases n,
{
    if n > 0 {
        lemma_hex_width_len(v / 16, (n - 1) as nat);
    }
}

proof fn lemma_hex_width_lower(v: nat, n: nat)
    ensures
        forall|i: int| 0 <= i < n ==> is_lower_hex_digit(#[trigger] hex_width(v, n)[i]),
    decreases n,
{
    if n > 0 {
        lemma_hex_width_lower(v / 16, (n - 1) as nat);
        lemma_hex_width_len(v / 16, (n - 1) as nat);
    }
}

/// The lowercase hexadecimal digit of a value below sixteen.
fn hex_digit_of(v: u32) -> (r: u8)
    requires
        v < 16,
    ensures
        r == hex_digit(v as int),
        is_lower_hex_digit(r),
{
    if v < 10 {
        48 + v as u8
    } else {
        87 + v as u8
    }
}

/// Formats a value as its order prefix.
fn format_order_prefix(v: u32) -> (r: Vec<u8>)
    ensures
        r@ == order_prefix(v),
        r@.len() == U32_HEX_LENGTH,
        forall|i: int| 0 <= i < r@.len() ==> is_lower_hex_digit(#[trigger] r@[i]),
{
    let mut digits: Vec<u8> = Vec::new();
    let mut x: u32 = v;
    let mut k: usize = 0;
    while k < 8
        invariant
            k <= 8,
            hex_width(v as nat, 8) == hex_width(x as nat, (8 - k) as nat) + digits@,
        decreases 8 - k,
    {
        let d = hex_digit_of(x % 16);
        let ghost before = digits@;
        digits.insert(0, d);
        assert(hex_width(x as nat, (8 - k) as nat) + before =~= hex_width(
            (x / 16) as nat,
            (8 - k - 1) as nat,
        ) + digits@);
        x = x / 16;
        k = k + 1;
    }
    assert(hex_width(x as nat, 0) =~= Seq::<u8>::empty());
    assert(digits@ =~= order_prefix(v));
    proof {
        lemma_hex_width_len(v as nat, 8);
        lemma_hex_width_lower(v as nat, 8);
    }
    digits
}

/// Draws one random lowercase hexadecimal digit.
fn gen_rand_hex_char(rng: &mut Pcg) -> (r: u8)
    ensures
        r == random_hex_digit(old(rng).state()),
        is_lower_hex_digit(r),
        final(rng).state() == pcg_step(old(rng).state(), old(rng).inc()),
        final(rng).inc() == old(rng).inc(),
{
    let char_idx = rng.next() % 16;
    hex_digit_of(char_idx)
}

/// Appends `n` random lowercase hexadecimal digits to `out`.
fn push_noise(out: &mut Vec<u8>, rng: &mut Pcg, n: usize)
    ensures
        final(out)@ == old(out)@ + random_hex_digits(old(rng).state(), old(rng).inc(), n as nat),
        final(rng).state() == old(rng).state_after(n as nat),
        final(rng).inc() == old(rng).inc(),
{
    let ghost start = out@;
    let ghost s0 = rng.state();
    let mut k: usize = 0;
    while k < n
        invariant
            k <= n,
            rng.inc() == old(rng).inc(),
            rng.state() == pcg_state_after(s0, rng.inc(), k as nat),
            out@ == start + random_hex_digits(s0, rng.inc(), k as nat),
        decreases n - k,
    {
        let c = gen_rand_hex_char(rng);
        out.push(c);
        k = k + 1;
        assert(out@ =~= start + random_hex_digits(s0, rng.inc(), k as nat));
    }
}

/// The number of digits that bring a length up to a multiple of `p`.
pub open spec fn padding_len(len: nat, p: nat) -> nat {
    if len % p == 0 {
        0
    } else {
        (p - len % p) as nat
    }
}

/// The contents of each vector of a sequence.
pub open spec fn views(v: Seq<Vec<u8>>) -> Seq<Seq<u8>> {
    v.map_values(|x: Vec<u8>| x@)
}

proof fn lemma_padded_len(len: nat, p: nat)
    requires
        p > 0,
    ensures
        (len + padding_len(len, p)) % p == 0,
{
    lemma_fundamental_div_mod(len as int, p as int);
    if len % p != 0 {
        assert(len + padding_len(len, p) == (len as int / p as int + 1) * p) by (nonlinear_arith)
            requires
                len == p * (len as int / p as int) + len % p,
                padding_len(len, p) == p - len % p,
        ;
        lemma_mod_multiples_basic(len as int / p as int + 1, p as int);
    } else {
        assert(len == (len as int / p as int) * p) by (nonlinear_arith)
            requires
                len == p * (len as int / p as int) + len % p,
                len % p == 0,
        ;
        lemma_mod_multiples_basic(len as int / p as int, p as int);
    }
}

/// Pads `input` with random hexadecimal digits up to a multiple of `p`,
/// then cuts it into consecutive slices of length `p`.
fn split_into_partitions(input: &Vec<u8>, p: usize, rng: &mut Pcg) -> (r: Vec<Vec<u8>>)
    requires
        p > 0,
    ensures
        is_partition_of(
            views(r@),
            input@ + random_hex_digits(
                old(rng).state(),
                old(rng).inc(),
                padding_len(input@.len(), p as nat),
            ),
            p as nat,
        ),
        final(rng).state() == old(rng).state_after(padding_len(input@.len(), p as nat)),
        final(rng).inc() == old(rng).inc(),
{
    proof {
        reveal(is_partition_of);
    }
    let rem = input.len() % p;
    let pad: usize = if rem == 0 {
        0
    } else {
        p - rem
    };
    let mut padded: Vec<u8> = input.clone();
    assert(padded@ =~= input@);
    push_noise(&mut padded, rng, pad);
    let ghost whole = padded@;
    proof {
        lemma_padded_len(input@.len(), p as nat);
    }
    let mut parts: Vec<Vec<u8>> = Vec::new();
    let mut pos: usize = 0;
    assert(parts@.len() == 0);
    assert(pos == parts@.len() * p) by (nonlinear_arith)
        requires
            pos == 0,
            parts@.len() == 0,
    ;
    while pos < padded.len()
        invariant
            p > 0,
            padded@ == whole,
            whole.len() % (p as nat) == 0,
            pos <= whole.len(),
            pos == parts@.len() * p,
            forall|k: int|
                0 <= k < parts@.len() ==> #[trigger] parts@[k]@ == whole.subrange(k * p, k * p + p),
        decreases whole.len() - pos,
    {
        proof {
            lemma_fundamental_div_mod(whole.len() as int, p as int);
            lemma_fundamental_div_mod(pos as int, p as int);
            lemma_mod_multiples_basic(parts@.len() as int, p as int);
            assert(pos + p <= whole.len()) by (nonlinear_arith)
                requires
                    pos < whole.len(),
                    whole.len() == p * (whole.len() as int / p as int),
                    pos == p * (pos as int / p as int),
                    p > 0,
            ;
        }
        let mut part: Vec<u8> = Vec::new();
        let mut j: usize = 0;
        while j < p
            invariant
                pos + p <= whole.len(),
                whole.len() == padded.len(),
                padded@ == whole,
                j <= p,
                part@ == whole.subrange(pos as int, pos + j),
            decreases p - j,
        {
            part.push(padded[pos + j]);
            j = j + 1;
            assert(part@ =~= whole.subrange(pos as int, pos + j));
        }
        let ghost k0 = parts@.len() as int;
        parts.push(part);
        pos = pos + p;
        assert(pos == parts@.len() * p) by (nonlinear_arith)
            requires
                pos == k0 * p + p,
                parts@.len() == k0 + 1,
        ;
    }
    assert(views(parts@).len() == parts@.len());
    assert(whole.len() == views(parts@).len() * p);
    assert forall|k: int| 0 <= k < views(parts@).len() implies #[trigger] views(parts@)[k]
        == whole.subrange(k * p, k * p + p) by {
        assert(views(parts@)[k] == parts@[k]@);
    }
    parts
}

/// The most candidates passed over in a row for one chunk; the next one is
/// then taken whatever the skip draw says, so that tagging ends.
pub const MAX_SKIPS: u64 = 0xffff_ffff;

/// `perm` orders the indices below `n`: each exactly once.
pub open spec fn is_permutation(perm: Seq<usize>, n: nat) -> bool {
    &&& perm.len() == n
    &&& forall|i: int| 0 <= i < n ==> #[trigger] perm[i] < n
    &&& forall|i: int, j: int| 0 <= i < j < n ==> perm[i] != perm[j]
}

/// `inv` undoes `perm`: the position that `perm` gives each index.
pub open spec fn is_inverse(perm: Seq<usize>, inv: Seq<usize>, n: nat) -> bool {
    &&& is_permutation(inv, n)
    &&& forall|k: int| 0 <= k < n ==> #[trigger] perm[inv[k] as int] == k
}

/// `tagged` holds each slice of `parts` behind an order prefix and
/// `noise_len` noise digits; the prefixes are draws of the ordering
/// generator (state `state`, increment `inc`), taken in increasing order
/// from its first `limit` draws.
#[verifier::opaque]
pub open spec fn is_tagging_of(
    tagged: Seq<Seq<u8>>,
    parts: Seq<Seq<u8>>,
    noise_len: nat,
    state: u64,
    inc: u64,
    limit: nat,
) -> bool {
    &&& tagged.len() == parts.len()
    &&& forall|k: int|
        0 <= k < parts.len() ==> #[trigger] tagged[k].len() == 8 + noise_len + parts[k].len()
    &&& forall|k: int|
        0 <= k < parts.len() ==> #[trigger] tagged[k].subrange((8 + noise_len) as int, tagged[k].len() as int)
            == parts[k]
    &&& forall|k: int| 0 <= k < parts.len() ==> #[trigger] is_lower_hex_text(tagged[k])
    &&& exists|draws: Seq<nat>| #[trigger] tag_draws(tagged, state, inc, limit, draws)
}

/// `draws` are increasing draw numbers below `limit`, and each chunk of
/// `tagged` begins with the order prefix of its draw.
pub open spec fn tag_draws(
    tagged: Seq<Seq<u8>>,
    state: u64,
    inc: u64,
    limit: nat,
    draws: Seq<nat>,
) -> bool {
    &&& draws.len() == tagged.len()
    &&& forall|a: int, b: int| 0 <= a < b < draws.len() ==> draws[a] < draws[b]
    &&& forall|k: int| 0 <= k < draws.len() ==> #[trigger] draws[k] < limit
    &&& forall|k: int|
        0 <= k < tagged.len() ==> #[trigger] tagged[k].subrange(0, 8) == order_prefix(
            pcg_nth(state, inc, draws[k]),
        )
}

/// Tags every slice, in order, with an order prefix drawn from `order` and
/// `noise_len` noise digits drawn from `aux`. Each candidate prefix is
/// passed over when its skip draw from `aux` falls below `threshold`.
fn tag_partitions(
    parts: &Vec<Vec<u8>>,
    order: &mut Pcg,
    aux: &mut Pcg,
    threshold: u32,
    noise_len: usize,
) -> (r: Vec<Vec<u8>>)
    requires
        forall|j: int| 0 <= j < parts@.len() ==> #[trigger] is_lower_hex_text(parts@[j]@),
    ensures
        exists|limit: nat|
            is_tagging_of(
                views(r@),
                views(parts@),
                noise_len as nat,
                old(order).state(),
                old(order).inc(),
                limit,
            ),
        forall|j: int| 0 <= j < r@.len() ==> #[trigger] is_lower_hex_text(r@[j]@),
        r@.len() == parts@.len(),
        final(order).inc() == old(order).inc(),
        final(aux).inc() == old(aux).inc(),
{
    proof {
        reveal(is_tagging_of);
    }
    let ghost s0 = order.state();
    let ghost inc = order.inc();
    let ghost mut drawn: nat = 0;
    let ghost mut draws: Seq<nat> = Seq::empty();
    let mut tagged: Vec<Vec<u8>> = Vec::new();
    let mut k: usize = 0;
    while k < parts.len()
        invariant
            k <= parts.len(),
            tagged@.len() == k,
            order.inc() == inc,
            aux.inc() == old(aux).inc(),
            order.state() == pcg_state_after(s0, inc, drawn),
            draws.len() == k,
            forall|a: int| 0 <= a < k ==> #[trigger] draws[a] < drawn,
            forall|a: int, b: int| 0 <= a < b < k ==> draws[a] < draws[b],
            forall|j: int| 0 <= j < parts@.len() ==> #[trigger] is_lower_hex_text(parts@[j]@),
            forall|j: int| 0 <= j < k ==> #[trigger] is_lower_hex_text(tagged@[j]@),
            forall|j: int|
                0 <= j < k ==> #[trigger] tagged@[j]@.len() == 8 + noise_len + parts@[j]@.len(),
            forall|j: int|
                0 <= j < k ==> #[trigger] tagged@[j]@.subrange(8 + noise_len, tagged@[j]@.len() as int)
                    == parts@[j]@,
            forall|j: int, i: int|
                0 <= j < k && 8 <= i < 8 + noise_len ==> is_lower_hex_digit(#[trigger] tagged@[j]@[i]),
            forall|j: int|
                0 <= j < k ==> #[trigger] tagged@[j]@.subrange(0, 8) == order_prefix(
                    pcg_nth(s0, inc, draws[j]),
                ),
        decreases parts.len() - k,
    {
        let ghost mut at: nat = drawn;
        let mut candidate = order.next();
        proof {
            drawn = drawn + 1;
        }
        let mut skips: u64 = 0;
        while skips < MAX_SKIPS && aux.next() < threshold
            invariant
                order.inc() == inc,
                aux.inc() == old(aux).inc(),
                order.state() == pcg_state_after(s0, inc, drawn),
                drawn == at + 1,
                candidate == pcg_nth(s0, inc, at),
                forall|a: int| 0 <= a < k ==> #[trigger] draws[a] < at,
            decreases MAX_SKIPS - skips,
        {
            proof {
                at = drawn;
            }
            candidate = order.next();
            proof {
                drawn = drawn + 1;
            }
            skips = skips + 1;
        }
        let mut chunk = format_order_prefix(candidate);
        let ghost prefix = chunk@;
        let ghost aux_before = *aux;
        push_noise(&mut chunk, aux, noise_len);
        let ghost with_noise = chunk@;
        proof {
            lemma_random_digits_lower(aux_before.state(), aux_before.inc(), noise_len as nat);
            assert(is_lower_hex_text(with_noise));
        }
        let mut j: usize = 0;
        while j < parts[k].len()
            invariant
                k < parts.len(),
                j <= parts@[k as int]@.len(),
                with_noise.len() == 8 + noise_len,
                is_lower_hex_text(with_noise),
                is_lower_hex_text(parts@[k as int]@),
                chunk@ == with_noise + parts@[k as int]@.subrange(0, j as int),
            decreases parts@[k as int]@.len() - j,
        {
            chunk.push(parts[k][j]);
            j = j + 1;
            assert(chunk@ =~= with_noise + parts@[k as int]@.subrange(0, j as int));
        }
        assert(chunk@.subrange(0, 8) =~= prefix);
        assert(chunk@ =~= with_noise + parts@[k as int]@);
        assert(is_lower_hex_text(chunk@));
        assert(chunk@.subrange(8 + noise_len, chunk@.len() as int) =~= parts@[k as int]@);
        proof {
            draws = draws.push(at);
        }
        tagged.push(chunk);
        k = k + 1;
    }
    assert(views(tagged@).len() == views(parts@).len());
    assert(is_tagging_of(views(tagged@), views(parts@), noise_len as nat, s0, inc, drawn)) by {
        assert forall|j: int| 0 <= j < k implies #[trigger] views(tagged@)[j].subrange(0, 8)
            == order_prefix(pcg_nth(s0, inc, draws[j])) by {
            assert(views(tagged@)[j] == tagged@[j]@);
        }
        assert(tag_draws(views(tagged@), s0, inc, drawn, draws));
        assert(forall|j: int| 0 <= j < k ==> #[trigger] views(tagged@)[j] == tagged@[j]@);
        assert forall|j: int| 0 <= j < k implies #[trigger] is_lower_hex_text(views(tagged@)[j]) by {
            assert(views(tagged@)[j] == tagged@[j]@);
        }
        assert(forall|j: int| 0 <= j < k ==> #[trigger] views(parts@)[j] == parts@[j]@);
    }
    tagged
}

/// Draws a uniform shuffle of the indices below `n` from `aux`: from the
/// last position down, each is swapped with one at or before it.
fn shuffle_order(n: usize, aux: &mut Pcg) -> (r: Vec<usize>)
    ensures
        is_permutation(r@, n as nat),
        exists|inv: Seq<usize>| is_inverse(r@, inv, n as nat),
        final(aux).inc() == old(aux).inc(),
{
    let mut perm: Vec<usize> = Vec::new();
    let mut k: usize = 0;
    while k < n
        invariant
            k <= n,
            perm@.len() == k,
            forall|i: int| 0 <= i < k ==> #[trigger] perm@[i] == i,
        decreases n - k,
    {
        perm.push(k);
        k = k + 1;
    }
    let ghost mut inv: Seq<usize> = perm@;
    let mut i: usize = n;
    while i > 1
        invariant
            i <= n,
            aux.inc() == old(aux).inc(),
            is_permutation(perm@, n as nat),
            is_permutation(inv, n as nat),
            forall|k: int| 0 <= k < n ==> #[trigger] perm@[inv[k] as int] == k,
            forall|k: int| 0 <= k < n ==> #[trigger] inv[perm@[k] as int] == k,
        decreases i,
    {
        i = i - 1;
        let j: usize = aux.next() as usize % (i + 1);
        let a = perm[i];
        let b = perm[j];
        perm.set(i, b);
        perm.set(j, a);
        proof {
            inv = inv.update(b as int, i).update(a as int, j);
        }
    }
    assert(is_inverse(perm@, inv, n as nat));
    perm
}

/// Whether every byte is a lowercase hexadecimal digit.
pub open spec fn is_lower_hex_text(s: Seq<u8>) -> bool {
    forall|i: int| 0 <= i < s.len() ==> is_lower_hex_digit(#[trigger] s[i])
}

/// A key that decodes the chunks of one encoding.
#[derive(Debug, Clone, Copy, PartialEq, Eq)]
pub struct Key {
    /// The initial state of the ordering generator.
    pub rng_init_state: u64,
    /// The sequence value of the ordering generator.
    pub rng_init_seq: u64,
    /// The length of the text's base64 form, which tells data from padding.
    pub base64_len: u64,
    /// The number of noise digits in each chunk.
    pub noise_len: u32,
}

/// The options of an encoding. Each chunk is `output_len` hexadecimal digits:
/// an 8-digit order prefix, then `noise_len` noise digits, then data, where
/// `noise_len` is drawn below `output_len - min_data_in_chunk - 8`.
#[derive(Debug, Clone, Copy, PartialEq, Eq)]
pub struct Bananapeel {
    /// The length of each chunk, in hexadecimal digits.
    pub output_len: u32,
    /// The fewest data digits in each chunk.
    pub min_data_in_chunk: u32,
    /// The largest chance that a candidate order prefix is passed over, as a
    /// fraction of `u32::MAX`: the skip threshold is drawn below it.
    pub max_value_skip_bound: u32,
}

impl Bananapeel {
    /// There is room for the order prefix, some noise and some data.
    pub open spec fn valid(&self) -> bool {
        self.output_len > self.min_data_in_chunk as int + 8
    }

    /// The bound below which the noise length is drawn.
    pub open spec fn max_noise_len(&self) -> int {
        self.output_len - self.min_data_in_chunk - 8
    }

    /// `chunks` and `key` are an encoding of `text` under these options: the
    /// hexadecimal form of the text's base64 form, padded with hexadecimal
    /// digits, is cut into equal slices; each is tagged with an order prefix
    /// drawn from the key's generator and `key.noise_len` noise digits; the
    /// tagged slices are then shuffled. The order prefixes come from the
    /// generator's first `limit` draws.
    #[verifier::opaque]
    pub open spec fn encodes_within(
        &self,
        text: Seq<char>,
        chunks: Seq<Seq<char>>,
        key: Key,
        limit: nat,
    ) -> bool {
        let hex = hex_of(base64_of(encode_utf8(text)));
        let p = (self.output_len - key.noise_len - 8) as nat;
        &&& key.base64_len == base64_of(encode_utf8(text)).len()
        &&& key.noise_len < self.max_noise_len()
        &&& exists|padding: Seq<u8>, parts: Seq<Seq<u8>>, tagged: Seq<Seq<u8>>, perm: Seq<usize>|
            {
                &&& padding.len() == padding_len(hex.len(), p)
                &&& is_lower_hex_text(padding)
                &&& is_partition_of(parts, hex + padding, p)
                &&& is_tagging_of(
                    tagged,
                    parts,
                    key.noise_len as nat,
                    seeded_state(key.rng_init_state, key.rng_init_seq),
                    seeded_inc(key.rng_init_seq),
                    limit,
                )
                &&& is_permutation(perm, parts.len())
                &&& exists|inv: Seq<usize>| is_inverse(perm, inv, parts.len())
                &&& chunks.len() == parts.len()
                &&& forall|k: int|
                    0 <= k < chunks.len() ==> #[trigger] chunks[k] == ascii_chars(tagged[perm[k] as int])
            }
    }

    /// `chunks` and `key` are an encoding of `text` under these options.
    pub open spec fn encodes(&self, text: Seq<char>, chunks: Seq<Seq<char>>, key: Key) -> bool {
        exists|limit: nat| self.encodes_within(text, chunks, key, limit)
    }

    /// Options whose chunks look like SHA-256 digests: 64 digits, at least 32
    /// of them data, and a skip chance of at most three quarters.
    pub fn default_sha256() -> (r: Self)
        ensures
            r.output_len == 64,
            r.min_data_in_chunk == 32,
            r.max_value_skip_bound == 3221225471,
            r.valid(),
    {
        Bananapeel { output_len: 64, min_data_in_chunk: 32, max_value_skip_bound: 3221225471 }
    }

    /// Encodes `input` under a fresh key: both generators are seeded from the
    /// operating system's entropy source. `None` when that source is
    /// unavailable.
    pub fn encode(&self, input: &str) -> (r: Option<(Vec<String>, Key)>)
        requires
            self.valid(),
        ensures
            r is Some ==> self.encodes(input@, (r->0).0@.map_values(|c: String| c@), (r->0).1),
            r is Some ==> forall|k: int|
                0 <= k < (r->0).0@.len() ==> (#[trigger] (r->0).0@[k])@.len() == self.output_len,
    {
        let aux_seed = match Pcg::new_seed() {
            Some(seed) => seed,
            None => {
                return None;
            },
        };
        let order_seed = match Pcg::new_seed() {
            Some(seed) => seed,
            None => {
                return None;
            },
        };
        Some(self.encode_with_seeds(input, aux_seed, order_seed))
    }

    /// Whether these options leave room for the order prefix, noise and data.
    pub fn is_valid(&self) -> (r: bool)
        ensures
            r == self.valid(),
    {
        self.output_len >= 9 && self.output_len - 8 > self.min_data_in_chunk
    }

    #[verifier::rlimit(100)]
    /// Encodes `input` with the two given seed pairs: `aux_seed` seeds the
    /// generator of noise, padding, skips and shuffle, `order_seed` the
    /// ordering generator, whose seed goes into the key.
    pub fn encode_with_seeds(&self, input: &str, aux_seed: (u64, u64), order_seed: (u64, u64)) -> (r: (
        Vec<String>,
        Key,
    ))
        requires
            self.valid(),
        ensures
            self.encodes(input@, r.0@.map_values(|c: String| c@), r.1),
            r.1.rng_init_state == order_seed.0,
            r.1.rng_init_seq == order_seed.1,
            r.1.noise_len == pcg_output(seeded_state(aux_seed.0, aux_seed.1))
                % (self.max_noise_len() as u32),
            forall|k: int| 0 <= k < r.0@.len() ==> (#[trigger] r.0@[k])@.len() == self.output_len,
    {
        let max_noise_len: u32 = self.output_len - self.min_data_in_chunk - U32_HEX_LENGTH;
        let mut aux = Pcg::from_seed(aux_seed.0, aux_seed.1);
        let noise_len: u32 = aux.next() % max_noise_len;
        let value_skip_threshold: u32 = if self.max_value_skip_bound == 0 {
            0
        } else {
            aux.next() % self.max_value_skip_bound
        };
        let bytes = input.as_bytes();
        let base64_encoded = base64_encode(bytes);
        let base64_len = base64_encoded.len() as u64;
        let hex_encoded = hex_encode(base64_encoded.as_slice());
        let partition_len: u32 = self.output_len - noise_len - U32_HEX_LENGTH;
        let ghost aux_before_pad = aux;
        let parts = split_into_partitions(&hex_encoded, partition_len as usize, &mut aux);
        let mut order = Pcg::from_seed(order_seed.0, order_seed.1);
        let ghost padding = random_hex_digits(
            aux_before_pad.state(),
            aux_before_pad.inc(),
            padding_len(hex_encoded@.len(), partition_len as nat),
        );
        proof {
            lemma_hex_of_lower(base64_encoded@);
            lemma_random_digits_lower(aux_before_pad.state(), aux_before_pad.inc(), padding.len());
            assert(is_lower_hex_text(hex_encoded@ + padding));
            lemma_parts_lower(views(parts@), hex_encoded@ + padding, partition_len as nat);
            assert forall|j: int| 0 <= j < parts@.len() implies #[trigger] is_lower_hex_text(parts@[j]@) by {
                assert(views(parts@)[j] == parts@[j]@);
            }
        }
        let tagged = tag_partitions(&parts, &mut order, &mut aux, value_skip_threshold, noise_len as usize);
        let perm = shuffle_order(tagged.len(), &mut aux);
        let chunks = collect_chunks(&tagged, &perm);
        proof {
            let views_of_chunks = chunks@.map_values(|c: String| c@);
            assert forall|k: int| 0 <= k < views_of_chunks.len() implies #[trigger] views_of_chunks[k]
                == ascii_chars(views(tagged@)[perm@[k] as int]) by {
                assert(views_of_chunks[k] == chunks@[k]@);
            }
            assert(views(parts@).len() == tagged@.len());
            let inv = choose|inv: Seq<usize>| is_inverse(perm@, inv, tagged@.len() as nat);
            assert(is_inverse(perm@, inv, views(parts@).len()));
            let limit = choose|limit: nat|
                is_tagging_of(
                    views(tagged@),
                    views(parts@),
                    noise_len as nat,
                    seeded_state(order_seed.0, order_seed.1),
                    seeded_inc(order_seed.1),
                    limit,
                );
            lemma_encoding(
                *self,
                input@,
                views_of_chunks,
                Key { rng_init_state: order_seed.0, rng_init_seq: order_seed.1, base64_len, noise_len },
                padding,
                views(parts@),
                views(tagged@),
                perm@,
                limit,
            );
            assert forall|k: int| 0 <= k < chunks@.len() implies (#[trigger] chunks@[k])@.len()
                == self.output_len by {
                assert(views_of_chunks[k] == chunks@[k]@);
            }
        }
        let key = Key {
            rng_init_state: order_seed.0,
            rng_init_seq: order_seed.1,
            base64_len,
            noise_len,
        };
        (chunks, key)
    }
}

/// Gathers the parts of an encoding, and the length of its chunks.
proof fn lemma_encoding(
    cfg: Bananapeel,
    text: Seq<char>,
    chunks: Seq<Seq<char>>,
    key: Key,
    padding: Seq<u8>,
    parts: Seq<Seq<u8>>,
    tagged: Seq<Seq<u8>>,
    perm: Seq<usize>,
    limit: nat,
)
    requires
        cfg.valid(),
        key.base64_len == base64_of(encode_utf8(text)).len(),
        key.noise_len < cfg.max_noise_len(),
        padding.len() == padding_len(
            hex_of(base64_of(encode_utf8(text))).len(),
            (cfg.output_len - key.noise_len - 8) as nat,
        ),
        is_lower_hex_text(padding),
        is_lower_hex_text(hex_of(base64_of(encode_utf8(text)))),
        is_partition_of(
            parts,
            hex_of(base64_of(encode_utf8(text))) + padding,
            (cfg.output_len - key.noise_len - 8) as nat,
        ),
        is_tagging_of(
            tagged,
            parts,
            key.noise_len as nat,
            seeded_state(key.rng_init_state, key.rng_init_seq),
            seeded_inc(key.rng_init_seq),
            limit,
        ),
        is_permutation(perm, parts.len()),
        exists|inv: Seq<usize>| is_inverse(perm, inv, parts.len()),
        chunks.len() == parts.len(),
        forall|k: int| 0 <= k < chunks.len() ==> #[trigger] chunks[k] == ascii_chars(tagged[perm[k] as int]),
    ensures
        cfg.encodes_within(text, chunks, key, limit),
        cfg.encodes(text, chunks, key),
        forall|k: int| 0 <= k < chunks.len() ==> (#[trigger] chunks[k]).len() == cfg.output_len,
{
    reveal(is_partition_of);
    reveal(is_tagging_of);
    reveal(Bananapeel::encodes_within);
    let p = (cfg.output_len - key.noise_len - 8) as nat;
    let hex = hex_of(base64_of(encode_utf8(text)));
    lemma_parts_lower(parts, hex + padding, p);
    assert forall|k: int| 0 <= k < chunks.len() implies (#[trigger] chunks[k]).len() == cfg.output_len by {
        let j = perm[k] as int;
        assert(tagged[j].len() == 8 + key.noise_len + parts[j].len());
    }
    assert(cfg.encodes_within(text, chunks, key, limit));
}

/// Every byte of a hexadecimal form is a lowercase digit.
proof fn lemma_hex_of_lower(b: Seq<u8>)
    ensures
        is_lower_hex_text(hex_of(b)),
{
}

/// The slices of a lowercase hexadecimal text are lowercase hexadecimal.
proof fn lemma_parts_lower(parts: Seq<Seq<u8>>, s: Seq<u8>, p: nat)
    requires
        is_partition_of(parts, s, p),
        is_lower_hex_text(s),
    ensures
        forall|k: int| 0 <= k < parts.len() ==> #[trigger] is_lower_hex_text(parts[k]),
        forall|k: int| 0 <= k < parts.len() ==> (#[trigger] parts[k]).len() == p,
{
    reveal(is_partition_of);
    assert forall|k: int| 0 <= k < parts.len() implies is_lower_hex_text(#[trigger] parts[k])
        && parts[k].len() == p by {
        assert(k * p + p <= parts.len() * p) by (nonlinear_arith)
            requires
                0 <= k < parts.len(),
        ;
        assert(0 <= k * p) by (nonlinear_arith)
            requires
                0 <= k,
        ;
        assert(parts[k] == s.subrange(k * p, k * p + p));
        assert forall|i: int| 0 <= i < parts[k].len() implies is_lower_hex_digit(#[trigger] parts[k][i]) by {
            assert(parts[k][i] == s[k * p + i]);
        }
    }
}

/// Random hexadecimal digits are lowercase digits.
proof fn lemma_random_digits_lower(state: u64, inc: u64, n: nat)
    ensures
        is_lower_hex_text(random_hex_digits(state, inc, n)),
{
}

/// Puts the tagged chunks in the order of `perm`, as strings.
fn collect_chunks(tagged: &Vec<Vec<u8>>, perm: &Vec<usize>) -> (r: Vec<String>)
    requires
        is_permutation(perm@, tagged@.len() as nat),
        forall|j: int| 0 <= j < tagged@.len() ==> #[trigger] is_lower_hex_text(tagged@[j]@),
    ensures
        r@.len() == perm@.len(),
        forall|k: int| 0 <= k < r@.len() ==> #[trigger] r@[k]@ == ascii_chars(tagged@[perm@[k] as int]@),
{
    let mut chunks: Vec<String> = Vec::new();
    let mut k: usize = 0;
    while k < perm.len()
        invariant
            is_permutation(perm@, tagged@.len() as nat),
            k <= perm@.len(),
            chunks@.len() == k,
            forall|j: int| 0 <= j < tagged@.len() ==> #[trigger] is_lower_hex_text(tagged@[j]@),
            forall|j: int| 0 <= j < k ==> #[trigger] chunks@[j]@ == ascii_chars(tagged@[perm@[j] as int]@),
        decreases perm@.len() - k,
    {
        let chunk = tagged[perm[k]].clone();
        assert(chunk@ =~= tagged@[perm@[k as int] as int]@);
        assert(is_lower_hex_text(chunk@));
        assert(is_ascii_bytes(chunk@));
        chunks.push(ascii_string(chunk));
        k = k + 1;
    }
    chunks
}

/// Why chunks could not be decoded.
#[derive(Debug)]
pub enum DecodeFailure {
    /// The joined data is not hexadecimal.
    HexDecodeError(hex::FromHexError),
    /// The decoded data is not URL-safe unpadded base64.
    Base64DecodeError(base64::DecodeError),
    /// A chunk is shorter than its order prefix and noise.
    MalformedChunk,
    /// The joined data is shorter than the key's base64 length.
    DataTooShort,
    /// The decoded bytes are not UTF-8.
    InvalidUtf8,
    /// The ordering generator was drawn as often as allowed before every
    /// chunk was placed.
    SearchExhausted,
}

/// A hexadecimal text without its last digit when their number is odd.
pub open spec fn drop_odd(s: Seq<u8>) -> Seq<u8> {
    if s.len() % 2 == 1 {
        s.drop_last()
    } else {
        s
    }
}

/// The base64 text that joined chunk data spells: its digits read as bytes,
/// cut to `base64_len`.
pub open spec fn payload_of(data: Seq<u8>, base64_len: nat) -> Seq<u8> {
    unhex(drop_odd(data)).subrange(0, base64_len as int)
}

/// A chunk without its order prefix and noise.
pub open spec fn stripped(chunk: Seq<u8>, noise_len: nat) -> Seq<u8> {
    chunk.subrange((8 + noise_len) as int, chunk.len() as int)
}

/// The data of the chunks, in the given order, joined.
pub open spec fn joined(chunks: Seq<Seq<u8>>, order: Seq<usize>, noise_len: nat) -> Seq<u8>
    decreases order.len(),
{
    if order.len() == 0 {
        Seq::empty()
    } else {
        joined(chunks, order.drop_last(), noise_len) + stripped(
            chunks[order.last() as int],
            noise_len,
        )
    }
}

/// The bytes of each string.
pub open spec fn utf8_bytes(strings: Seq<String>) -> Seq<Seq<u8>> {
    chunk_bytes(strings.map_values(|s: String| s@))
}

/// What turning joined chunk data into text gives: a hexadecimal error
/// exactly when the data (without a last odd digit) is not hexadecimal; a
/// length error exactly when it is, but spells fewer than `base64_len` bytes;
/// otherwise, where those bytes are the base64 text of UTF-8 bytes, the text
/// those bytes encode.
pub open spec fn reassembly_outcome(
    data: Seq<u8>,
    base64_len: nat,
    r: Result<String, DecodeFailure>,
) -> bool {
    &&& (r matches Err(DecodeFailure::HexDecodeError(_))) <==> !is_hex_text(drop_odd(data))
    &&& (r matches Err(DecodeFailure::DataTooShort)) <==> (is_hex_text(drop_odd(data)) && unhex(
        drop_odd(data),
    ).len() < base64_len)
    &&& !(r matches Err(DecodeFailure::MalformedChunk))
    &&& !(r matches Err(DecodeFailure::SearchExhausted))
    &&& forall|b: Seq<u8>|
        #[trigger] base64_of(b) == payload_of(data, base64_len) && is_hex_text(drop_odd(data))
            && unhex(drop_odd(data)).len() >= base64_len && valid_utf8(b) ==> (r is Ok
            && r->Ok_0@ == decode_utf8(b))
}

/// Turns joined chunk data into the text: drops a last odd digit, reads the
/// digits as bytes, cuts them to `base64_len`, decodes base64, then UTF-8.
fn reassemble(data: Vec<u8>, base64_len: u64) -> (r: Result<String, DecodeFailure>)
    ensures
        reassembly_outcome(data@, base64_len as nat, r),
{
    let mut hex = data;
    if hex.len() % 2 != 0 {
        hex.pop();
    }
    assert(hex@ =~= drop_odd(data@));
    let base64 = match hex_decode(hex.as_slice()) {
        Ok(b) => b,
        Err(e) => {
            return Err(DecodeFailure::HexDecodeError(e));
        },
    };
    if (base64.len() as u64) < base64_len {
        return Err(DecodeFailure::DataTooShort);
    }
    let mut unpadded: Vec<u8> = Vec::new();
    let mut i: usize = 0;
    while (i as u64) < base64_len
        invariant
            base64_len <= base64@.len(),
            i <= base64_len,
            unpadded@ == base64@.subrange(0, i as int),
        decreases base64_len - i,
    {
        unpadded.push(base64[i]);
        i = i + 1;
        assert(unpadded@ =~= base64@.subrange(0, i as int));
    }
    assert(unpadded@ =~= payload_of(data@, base64_len as nat));
    let decoded = match base64_decode(unpadded.as_slice()) {
        Ok(b) => b,
        Err(e) => {
            return Err(DecodeFailure::Base64DecodeError(e));
        },
    };
    match string_from_utf8(decoded) {
        Some(text) => Ok(text),
        None => Err(DecodeFailure::InvalidUtf8),
    }
}

/// Whether a chunk begins with the given 8-digit order prefix.
fn starts_with_prefix(chunk: &Vec<u8>, prefix: &Vec<u8>) -> (r: bool)
    requires
        prefix@.len() == 8,
    ensures
        r == (chunk@.len() >= 8 && chunk@.subrange(0, 8) == prefix@),
{
    if chunk.len() < 8 {
        return false;
    }
    let mut i: usize = 0;
    while i < 8
        invariant
            i <= 8,
            chunk@.len() >= 8,
            prefix@.len() == 8,
            chunk@.subrange(0, i as int) == prefix@.subrange(0, i as int),
        decreases 8 - i,
    {
        if chunk[i] != prefix[i] {
            assert(chunk@.subrange(0, 8)[i as int] != prefix@[i as int]);
            return false;
        }
        i = i + 1;
        assert(chunk@.subrange(0, i as int) =~= prefix@.subrange(0, i as int));
    }
    assert(chunk@.subrange(0, 8) =~= prefix@.subrange(0, 8));
    assert(prefix@.subrange(0, 8) =~= prefix@);
    true
}

/// The first `count` chunks of `order` begin with order prefixes that the
/// generator (state `state`, increment `inc`) drew among its first `limit`
/// draws, in the order it drew them.
pub open spec fn is_search_order(
    chunks: Seq<Seq<u8>>,
    order: Seq<usize>,
    count: nat,
    state: u64,
    inc: u64,
    limit: nat,
) -> bool {
    exists|draws: Seq<nat>| #[trigger] search_draws(chunks, order, count, state, inc, limit, draws)
}

/// `draws` are nondecreasing draw numbers below `limit`, and the `k`-th
/// chunk of `order` begins with the order prefix of the `k`-th draw.
pub open spec fn search_draws(
    chunks: Seq<Seq<u8>>,
    order: Seq<usize>,
    count: nat,
    state: u64,
    inc: u64,
    limit: nat,
    draws: Seq<nat>,
) -> bool {
    &&& draws.len() == count
    &&& forall|a: int, b: int| 0 <= a < b < count ==> draws[a] <= draws[b]
    &&& forall|k: int| 0 <= k < count ==> #[trigger] draws[k] < limit
    &&& forall|k: int|
        0 <= k < count ==> #[trigger] chunks[order[k] as int].subrange(0, 8) == order_prefix(
            pcg_nth(state, inc, draws[k]),
        )
}

/// A chunk begins with none of the order prefixes of the generator's first
/// `limit` draws.
pub open spec fn misses_draws(chunk: Seq<u8>, state: u64, inc: u64, limit: nat) -> bool {
    forall|t: nat| t < limit ==> #[trigger] order_prefix(pcg_nth(state, inc, t)) != chunk.subrange(0, 8)
}

/// What decoding chunks (as bytes) with a key and at most `max_draws` draws
/// gives: a chunk error exactly when a chunk is shorter than its prefix and
/// noise; an exhausted search only when some chunk begins with none of the
/// prefixes of the first `max_draws` draws; otherwise the chunks are put in
/// an order that those draws give, and their joined data is reassembled.
pub open spec fn decode_outcome(
    chunks: Seq<Seq<u8>>,
    key: Key,
    max_draws: nat,
    r: Result<String, DecodeFailure>,
) -> bool {
    let state = seeded_state(key.rng_init_state, key.rng_init_seq);
    let inc = seeded_inc(key.rng_init_seq);
    &&& (r matches Err(DecodeFailure::MalformedChunk)) <==> exists|i: int|
        0 <= i < chunks.len() && (#[trigger] chunks[i]).len() < 8 + key.noise_len
    &&& (r matches Err(DecodeFailure::SearchExhausted)) ==> exists|i: int|
        0 <= i < chunks.len() && #[trigger] misses_draws(chunks[i], state, inc, max_draws)
    &&& !(r matches Err(DecodeFailure::MalformedChunk)) && !(r matches Err(
        DecodeFailure::SearchExhausted,
    )) ==> exists|order: Seq<usize>|
        {
            &&& is_permutation(order, chunks.len())
            &&& is_search_order(chunks, order, chunks.len(), state, inc, max_draws)
            &&& reassembly_outcome(joined(chunks, order, key.noise_len as nat), key.base64_len as nat, r)
        }
}

impl Bananapeel {
    /// Decodes chunks with the key of their encoding. Chunks are placed by
    /// drawing the key's generator and finding the chunks that begin with
    /// each draw's order prefix; at most `max_draws` draws are made, since
    /// with a wrong key the search would not end.
    pub fn decode(partitions: &[String], key: Key, max_draws: u64) -> (r: Result<String, DecodeFailure>)
        ensures
            decode_outcome(utf8_bytes(partitions@), key, max_draws as nat, r),
    {
        let n = partitions.len();
        let noise_len = key.noise_len as usize;
        let ghost all = utf8_bytes(partitions@);
        let mut chunks: Vec<Vec<u8>> = Vec::new();
        let mut i: usize = 0;
        while i < n
            invariant
                n == partitions@.len(),
                all == utf8_bytes(partitions@),
                noise_len == key.noise_len,
                i <= n,
                chunks@.len() == i,
                forall|j: int| 0 <= j < i ==> #[trigger] chunks@[j]@ == all[j],
                forall|j: int| 0 <= j < i ==> (#[trigger] all[j]).len() >= 8 + noise_len,
            decreases n - i,
        {
            let bytes = slice_to_vec(partitions[i].as_str().as_bytes());
            assert(bytes@ == all[i as int]);
            if bytes.len() < 8 || bytes.len() - 8 < noise_len {
                return Err(DecodeFailure::MalformedChunk);
            }
            chunks.push(bytes);
            i = i + 1;
        }
        let mut rng = Pcg::from_seed(key.rng_init_state, key.rng_init_seq);
        let ghost s0 = rng.state();
        let ghost inc = rng.inc();
        let mut order: Vec<usize> = Vec::new();
        let mut k: usize = 0;
        while k < n
            invariant
                k <= n,
                order@.len() == k,
                forall|j: int| 0 <= j < k ==> #[trigger] order@[j] == j,
            decreases n - k,
        {
            order.push(k);
            k = k + 1;
        }
        let ghost mut drawn: nat = 0;
        let ghost mut draws: Seq<nat> = Seq::empty();
        let mut next_idx: usize = 0;
        let mut used: u64 = 0;
        while next_idx < n
            invariant
                n == chunks@.len(),
                n == partitions@.len(),
                all == utf8_bytes(partitions@),
                noise_len == key.noise_len,
                forall|j: int| 0 <= j < n ==> #[trigger] chunks@[j]@ == all[j],
                forall|j: int| 0 <= j < n ==> (#[trigger] all[j]).len() >= 8 + noise_len,
                is_permutation(order@, n as nat),
                next_idx <= n,
                used <= max_draws,
                rng.inc() == inc,
                rng.state() == pcg_state_after(s0, inc, drawn),
                draws.len() == next_idx,
                forall|a: int| 0 <= a < next_idx ==> #[trigger] draws[a] < drawn,
                forall|a: int, b: int| 0 <= a < b < next_idx ==> draws[a] <= draws[b],
                forall|j: int|
                    0 <= j < next_idx ==> #[trigger] all[order@[j] as int].subrange(0, 8)
                        == order_prefix(pcg_nth(s0, inc, draws[j])),
                drawn == used,
                s0 == seeded_state(key.rng_init_state, key.rng_init_seq),
                inc == seeded_inc(key.rng_init_seq),
                forall|q: int, t: nat|
                    #![trigger all[order@[q] as int].subrange(0, 8), pcg_nth(s0, inc, t)]
                    next_idx <= q < n && t < drawn ==> all[order@[q] as int].subrange(0, 8)
                        != order_prefix(pcg_nth(s0, inc, t)),
            decreases max_draws - used,
        {
            if used == max_draws {
                assert(!exists|i: int|
                    0 <= i < partitions@.len() && (#[trigger] utf8_bytes(partitions@)[i]).len() < 8
                        + key.noise_len);
                let ghost left = order@[next_idx as int] as int;
                assert forall|t: nat| t < max_draws implies #[trigger] order_prefix(pcg_nth(s0, inc, t))
                    != all[left].subrange(0, 8) by {
                    assert(all[order@[next_idx as int] as int].subrange(0, 8) != order_prefix(
                        pcg_nth(s0, inc, t),
                    ));
                }
                assert(0 <= left < all.len());
                assert(misses_draws(all[left], s0, inc, max_draws as nat));
                assert(decode_outcome(all, key, max_draws as nat, Err(DecodeFailure::SearchExhausted)));
                return Err(DecodeFailure::SearchExhausted);
            }
            used = used + 1;
            let ghost at = drawn;
            let value = rng.next();
            proof {
                drawn = drawn + 1;
            }
            let prefix = format_order_prefix(value);
            let mut i: usize = next_idx;
            while i < n
                invariant
                    n == chunks@.len(),
                    forall|j: int| 0 <= j < n ==> #[trigger] chunks@[j]@ == all[j],
                    is_permutation(order@, n as nat),
                    next_idx <= i <= n,
                    prefix@ == order_prefix(value),
                    prefix@.len() == 8,
                    value == pcg_nth(s0, inc, at),
                    drawn == at + 1,
                    draws.len() == next_idx,
                    forall|a: int| 0 <= a < next_idx ==> #[trigger] draws[a] <= at,
                    forall|a: int, b: int| 0 <= a < b < next_idx ==> draws[a] <= draws[b],
                    forall|j: int|
                        0 <= j < next_idx ==> #[trigger] all[order@[j] as int].subrange(0, 8)
                            == order_prefix(pcg_nth(s0, inc, draws[j])),
                    forall|j: int| 0 <= j < n ==> (#[trigger] all[j]).len() >= 8,
                    forall|q: int, t: nat|
                        #![trigger all[order@[q] as int].subrange(0, 8), pcg_nth(s0, inc, t)]
                        next_idx <= q < i && t <= at ==> all[order@[q] as int].subrange(0, 8)
                            != order_prefix(pcg_nth(s0, inc, t)),
                    forall|q: int, t: nat|
                        #![trigger all[order@[q] as int].subrange(0, 8), pcg_nth(s0, inc, t)]
                        i <= q < n && t < at ==> all[order@[q] as int].subrange(0, 8)
                            != order_prefix(pcg_nth(s0, inc, t)),
                decreases n - i,
            {
                let ghost before = order@;
                assert(chunks@[order@[i as int] as int]@ == all[order@[i as int] as int]);
                if starts_with_prefix(&chunks[order[i]], &prefix) {
                    let a = order[i];
                    let b = order[next_idx];
                    order.set(i, b);
                    order.set(next_idx, a);
                    proof {
                        draws = draws.push(at);
                        assert forall|q: int, t: nat|
                            next_idx + 1 <= q < i + 1 && t <= at implies #[trigger] all[order@[q] as int].subrange(0, 8)
                                != order_prefix(#[trigger] pcg_nth(s0, inc, t)) by {
                            if q == i {
                                assert(order@[q] == before[next_idx as int]);
                                assert(all[before[next_idx as int] as int].subrange(0, 8)
                                    != order_prefix(pcg_nth(s0, inc, t)));
                            } else {
                                assert(order@[q] == before[q]);
                                assert(all[before[q] as int].subrange(0, 8)
                                    != order_prefix(pcg_nth(s0, inc, t)));
                            }
                        }
                        assert forall|q: int, t: nat|
                            i + 1 <= q < n && t < at implies #[trigger] all[order@[q] as int].subrange(0, 8)
                                != order_prefix(#[trigger] pcg_nth(s0, inc, t)) by {
                            assert(order@[q] == before[q]);
                            assert(all[before[q] as int].subrange(0, 8)
                                != order_prefix(pcg_nth(s0, inc, t)));
                        }
                    }
                    next_idx = next_idx + 1;
                } else {
                    proof {
                        assert(all[order@[i as int] as int].subrange(0, 8) != order_prefix(
                            pcg_nth(s0, inc, at),
                        ));
                        assert forall|q: int, t: nat|
                            next_idx <= q < i + 1 && t <= at implies #[trigger] all[order@[q] as int].subrange(0, 8)
                                != order_prefix(#[trigger] pcg_nth(s0, inc, t)) by {
                            if q < i {
                                assert(all[order@[q] as int].subrange(0, 8)
                                    != order_prefix(pcg_nth(s0, inc, t)));
                            } else if t < at {
                                assert(all[order@[q] as int].subrange(0, 8)
                                    != order_prefix(pcg_nth(s0, inc, t)));
                            }
                        }
                    }
                }
                i = i + 1;
            }
            assert forall|a: int| 0 <= a < next_idx implies #[trigger] draws[a] < drawn by {}
            assert forall|q: int, t: nat| next_idx <= q < n && t < drawn implies #[trigger] all[order@[q] as int].subrange(0, 8)
                != order_prefix(#[trigger] pcg_nth(s0, inc, t)) by {
                assert(t <= at);
            }
        }
        let mut data: Vec<u8> = Vec::new();
        let mut k: usize = 0;
        while k < n
            invariant
                n == chunks@.len(),
                noise_len == key.noise_len,
                forall|j: int| 0 <= j < n ==> #[trigger] chunks@[j]@ == all[j],
                forall|j: int| 0 <= j < n ==> (#[trigger] all[j]).len() >= 8 + noise_len,
                is_permutation(order@, n as nat),
                k <= n,
                data@ == joined(all, order@.subrange(0, k as int), noise_len as nat),
            decreases n - k,
        {
            let c = &chunks[order[k]];
            assert(c@ == all[order@[k as int] as int]);
            let clen = c.len();
            assert(clen >= 8 + noise_len);
            let mut j: usize = 8 + noise_len;
            let ghost before = data@;
            while j < c.len()
                invariant
                    8 + noise_len <= j <= c@.len(),
                    data@ == before + c@.subrange((8 + noise_len) as int, j as int),
                decreases c@.len() - j,
            {
                data.push(c[j]);
                j = j + 1;
                assert(data@ =~= before + c@.subrange((8 + noise_len) as int, j as int));
            }
            assert(order@.subrange(0, k + 1).drop_last() =~= order@.subrange(0, k as int));
            k = k + 1;
        }
        assert(order@.subrange(0, n as int) =~= order@);
        let ghost final_order = order@;
        let ghost joined_data = data@;
        let r = reassemble(data, key.base64_len);
        proof {
            assert(search_draws(all, final_order, n as nat, s0, inc, max_draws as nat, draws));
            assert(is_search_order(all, final_order, n as nat, s0, inc, max_draws as nat));
            assert(joined_data == joined(all, final_order, key.noise_len as nat));
            assert(is_permutation(final_order, all.len()));
            assert(!exists|i: int|
                0 <= i < all.len() && (#[trigger] all[i]).len() < 8 + key.noise_len);
            assert(reassembly_outcome(joined(all, final_order, key.noise_len as nat), key.base64_len as nat, r));
        }
        r
    }
}

/// The number of bytes of a key's portable form.
pub const KEY_BYTES: usize = 28;

/// The `n` bytes of `v`, least significant first.
pub open spec fn le_bytes(v: nat, n: nat) -> Seq<u8>
    decreases n,
{
    if n == 0 {
        Seq::empty()
    } else {
        seq![(v % 256) as u8] + le_bytes(v / 256, (n - 1) as nat)
    }
}

/// The number that bytes spell, least significant first.
pub open spec fn le_value(b: Seq<u8>) -> nat
    decreases b.len(),
{
    if b.len() == 0 {
        0
    } else {
        b[0] as nat + 256 * le_value(b.drop_first())
    }
}

impl Key {
    /// The portable form: the two seed values, the base64 length and the
    /// noise length, each least significant byte first.
    pub open spec fn spec_bytes(&self) -> Seq<u8> {
        le_bytes(self.rng_init_state as nat, 8) + le_bytes(self.rng_init_seq as nat, 8) + le_bytes(
            self.base64_len as nat,
            8,
        ) + le_bytes(self.noise_len as nat, 4)
    }

    /// The key's portable form.
    pub fn to_bytes(&self) -> (r: Vec<u8>)
        ensures
            r@ == self.spec_bytes(),
            r@.len() == KEY_BYTES,
    {
        let mut out: Vec<u8> = Vec::new();
        push_le(&mut out, self.rng_init_state, 8);
        push_le(&mut out, self.rng_init_seq, 8);
        push_le(&mut out, self.base64_len, 8);
        push_le(&mut out, self.noise_len as u64, 4);
        proof {
            lemma_le_bytes_len(self.rng_init_state as nat, 8);
            lemma_le_bytes_len(self.rng_init_seq as nat, 8);
            lemma_le_bytes_len(self.base64_len as nat, 8);
            lemma_le_bytes_len(self.noise_len as nat, 4);
        }
        assert(out@ =~= self.spec_bytes());
        out
    }

    /// Reads a key from its portable form; `None` unless there are exactly
    /// as many bytes as the form has.
    pub fn from_bytes(b: &[u8]) -> (r: Option<Key>)
        ensures
            r is Some <==> b@.len() == KEY_BYTES,
            r is Some ==> r->0.rng_init_state == le_value(b@.subrange(0, 8)),
            r is Some ==> r->0.rng_init_seq == le_value(b@.subrange(8, 16)),
            r is Some ==> r->0.base64_len == le_value(b@.subrange(16, 24)),
            r is Some ==> r->0.noise_len == le_value(b@.subrange(24, 28)),
    {
        if b.len() != KEY_BYTES {
            return None;
        }
        let rng_init_state = read_le(b, 0, 8);
        let rng_init_seq = read_le(b, 8, 8);
        let base64_len = read_le(b, 16, 8);
        let noise_len = read_le(b, 24, 4);
        proof {
            lemma_le_value_bound(b@.subrange(24, 28));
            lemma_pow256_values();
        }
        Some(Key { rng_init_state, rng_init_seq, base64_len, noise_len: noise_len as u32 })
    }
}

proof fn lemma_le_bytes_len(v: nat, n: nat)
    ensures
        le_bytes(v, n).len() == n,
    decreases n,
{
    if n > 0 {
        lemma_le_bytes_len(v / 256, (n - 1) as nat);
    }
}

/// The number that `n` bytes spell is below `256^n`.
proof fn lemma_le_value_bound(b: Seq<u8>)
    ensures
        le_value(b) < pow256(b.len()),
    decreases b.len(),
{
    if b.len() > 0 {
        lemma_le_value_bound(b.drop_first());
        let rest = le_value(b.drop_first());
        let p = pow256(b.drop_first().len());
        assert(b[0] as nat + 256 * rest < 256 * p) by (nonlinear_arith)
            requires
                rest < p,
                b[0] < 256,
        ;
    }
}

/// Two hundred fifty-six to the `n`-th power.
pub open spec fn pow256(n: nat) -> nat
    decreases n,
{
    if n == 0 {
        1
    } else {
        256 * pow256((n - 1) as nat)
    }
}

/// Reading back the bytes of a number below `256^n` gives that number.
proof fn lemma_le_round_trip(v: nat, n: nat)
    requires
        v < pow256(n),
    ensures
        le_value(le_bytes(v, n)) == v,
    decreases n,
{
    if n > 0 {
        assert(v / 256 < pow256((n - 1) as nat)) by (nonlinear_arith)
            requires
                v < 256 * pow256((n - 1) as nat),
        ;
        lemma_le_round_trip(v / 256, (n - 1) as nat);
        let b = le_bytes(v, n);
        assert(b.drop_first() =~= le_bytes(v / 256, (n - 1) as nat));
    } else {
        assert(v == 0);
    }
}

/// Appends the `n` lowest bytes of `v`, least significant first.
fn push_le(out: &mut Vec<u8>, v: u64, n: usize)
    ensures
        final(out)@ == old(out)@ + le_bytes(v as nat, n as nat),
{
    let ghost start = out@;
    let mut x: u64 = v;
    let mut k: usize = 0;
    while k < n
        invariant
            k <= n,
            start + le_bytes(v as nat, n as nat) == out@ + le_bytes(x as nat, (n - k) as nat),
        decreases n - k,
    {
        let ghost before = out@;
        assert(le_bytes(x as nat, (n - k) as nat) == seq![(x % 256) as u8] + le_bytes(
            (x / 256) as nat,
            (n - k - 1) as nat,
        ));
        out.push((x % 256) as u8);
        assert(before + le_bytes(x as nat, (n - k) as nat) =~= out@ + le_bytes(
            (x / 256) as nat,
            (n - k - 1) as nat,
        ));
        x = x / 256;
        k = k + 1;
    }
    assert(le_bytes(x as nat, 0) =~= Seq::<u8>::empty());
    assert(out@ =~= old(out)@ + le_bytes(v as nat, n as nat));
}

/// The powers of two hundred fifty-six that bound a `u64`.
proof fn lemma_pow256_values()
    ensures
        pow256(7) == 0x100_0000_0000_0000,
        pow256(8) == 0x1_0000_0000_0000_0000,
        pow256(4) == 0x1_0000_0000,
        pow256(3) == 0x100_0000,
{
    reveal_with_fuel(pow256, 9);
}

/// Reads `n` bytes at `off`, least significant first.
fn read_le(b: &[u8], off: usize, n: usize) -> (r: u64)
    requires
        n <= 8,
        off + n <= b@.len(),
    ensures
        r == le_value(b@.subrange(off as int, off + n)),
{
    proof {
        lemma_pow256_values();
    }
    let blen = b.len();
    let mut acc: u64 = 0;
    let mut i: usize = n;
    assert(b@.subrange((off + n) as int, (off + n) as int) =~= Seq::<u8>::empty());
    while i > 0
        invariant
            i <= n <= 8,
            off + n <= b@.len(),
            blen == b@.len(),
            acc == le_value(b@.subrange(off + i, off + n)),
            pow256(7) == 0x100_0000_0000_0000,
            pow256(8) == 0x1_0000_0000_0000_0000,
        decreases i,
    {
        i = i - 1;
        let ghost rest = b@.subrange(off + i + 1, off + n);
        let ghost here = b@.subrange(off + i, off + n);
        assert(here.drop_first() =~= rest);
        proof {
            lemma_le_value_bound(rest);
            lemma_pow_mono(rest.len(), 7);
        }
        assert(acc < 0x100_0000_0000_0000);
        acc = acc * 256 + b[off + i] as u64;
    }
    acc
}

/// Powers of two hundred fifty-six grow with the exponent.
proof fn lemma_pow_mono(a: nat, b: nat)
    requires
        a <= b,
    ensures
        pow256(a) <= pow256(b),
    decreases b,
{
    if a < b {
        lemma_pow_mono(a, (b - 1) as nat);
    }
}

/// A key read back from its portable form is the key itself.
pub proof fn lemma_key_bytes_round_trip(key: Key)
    ensures
        key.spec_bytes().len() == KEY_BYTES,
        le_value(key.spec_bytes().subrange(0, 8)) == key.rng_init_state,
        le_value(key.spec_bytes().subrange(8, 16)) == key.rng_init_seq,
        le_value(key.spec_bytes().subrange(16, 24)) == key.base64_len,
        le_value(key.spec_bytes().subrange(24, 28)) == key.noise_len,
{
    lemma_pow256_values();
    lemma_le_bytes_len(key.rng_init_state as nat, 8);
    lemma_le_bytes_len(key.rng_init_seq as nat, 8);
    lemma_le_bytes_len(key.base64_len as nat, 8);
    lemma_le_bytes_len(key.noise_len as nat, 4);
    let b = key.spec_bytes();
    assert(b.subrange(0, 8) =~= le_bytes(key.rng_init_state as nat, 8));
    assert(b.subrange(8, 16) =~= le_bytes(key.rng_init_seq as nat, 8));
    assert(b.subrange(16, 24) =~= le_bytes(key.base64_len as nat, 8));
    assert(b.subrange(24, 28) =~= le_bytes(key.noise_len as nat, 4));
    lemma_le_round_trip(key.rng_init_state as nat, 8);
    lemma_le_round_trip(key.rng_init_seq as nat, 8);
    lemma_le_round_trip(key.base64_len as nat, 8);
    lemma_le_round_trip(key.noise_len as nat, 4);
}

/// Options that leave no room for noise, with data filling all but the
/// order prefix, are not valid.
pub proof fn lemma_no_noise_room_rejected(cfg: Bananapeel)
    requires
        cfg.output_len >= 8,
        cfg.min_data_in_chunk == cfg.output_len - 8,
    ensures
        !cfg.valid(),
{
}

/// The UTF-8 bytes of each chunk.
pub open spec fn chunk_bytes(chunks: Seq<Seq<char>>) -> Seq<Seq<u8>> {
    chunks.map_values(|c: Seq<char>| encode_utf8(c))
}

/// Reading back the hexadecimal form of `b`, followed by any lowercase
/// digits, gives `b` again.
proof fn lemma_unhex_hex(b: Seq<u8>, pad: Seq<u8>)
    requires
        is_lower_hex_text(pad),
    ensures
        is_hex_text(drop_odd(hex_of(b) + pad)),
        unhex(drop_odd(hex_of(b) + pad)).len() >= b.len(),
        unhex(drop_odd(hex_of(b) + pad)).subrange(0, b.len() as int) == b,
{
    let h = hex_of(b);
    let s = h + pad;
    let d = drop_odd(s);
    assert(d.len() >= h.len());
    assert forall|i: int| 0 <= i < d.len() implies is_hex_digit(#[trigger] d[i]) by {
        assert(d[i] == s[i]);
        if i >= h.len() {
            assert(s[i] == pad[i - h.len()]);
        }
    }
    assert forall|i: int| 0 <= i < b.len() implies #[trigger] unhex(d)[i] == b[i] by {
        assert(d[2 * i] == h[2 * i]);
        assert(d[2 * i + 1] == h[2 * i + 1]);
        assert((2 * i) / 2 == i);
        assert((2 * i + 1) / 2 == i);
        assert((2 * i) % 2 == 0);
        assert((2 * i + 1) % 2 == 1);
    }
    assert(unhex(d).subrange(0, b.len() as int) =~= b);
}

/// The data of the chunks, taken in the order in which they were tagged,
/// joins up to the text that was cut into slices.
#[verifier::spinoff_prover]
#[verifier::rlimit(50)]
proof fn lemma_joined_in_tag_order(
    bytes: Seq<Seq<u8>>,
    tagged: Seq<Seq<u8>>,
    parts: Seq<Seq<u8>>,
    perm: Seq<usize>,
    inv: Seq<usize>,
    s: Seq<u8>,
    p: nat,
    noise_len: nat,
    m: nat,
)
    requires
        m <= parts.len(),
        bytes.len() == parts.len(),
        tagged.len() == parts.len(),
        is_permutation(perm, parts.len()),
        is_inverse(perm, inv, parts.len()),
        forall|k: int| 0 <= k < bytes.len() ==> #[trigger] bytes[k] == tagged[perm[k] as int],
        forall|k: int|
            0 <= k < parts.len() ==> #[trigger] tagged[k].subrange(
                (8 + noise_len) as int,
                tagged[k].len() as int,
            ) == parts[k],
        s.len() == parts.len() * p,
        forall|k: int| 0 <= k < parts.len() ==> #[trigger] parts[k] == s.subrange(k * p, k * p + p),
    ensures
        joined(bytes, inv.subrange(0, m as int), noise_len) == s.subrange(0, (m * p) as int),
    decreases m,
{
    if m == 0 {
        assert(joined(bytes, inv.subrange(0, 0), noise_len) =~= Seq::<u8>::empty());
        assert(s.subrange(0, 0) =~= Seq::<u8>::empty());
    } else {
        let k = (m - 1) as nat;
        lemma_joined_in_tag_order(bytes, tagged, parts, perm, inv, s, p, noise_len, k);
        let order = inv.subrange(0, m as int);
        assert(order.drop_last() =~= inv.subrange(0, k as int));
        let j = inv[k as int] as int;
        assert(order.last() == inv[k as int]);
        assert(perm[j] == k);
        assert(stripped(bytes[j], noise_len) == parts[k as int]);
        assert(k * p + p == m * p) by (nonlinear_arith)
            requires
                k + 1 == m,
        ;
        assert(m * p <= parts.len() * p) by (nonlinear_arith)
            requires
                m <= parts.len(),
        ;
        assert(0 <= k * p) by (nonlinear_arith);
        assert(s.subrange(0, (k * p) as int) + s.subrange((k * p) as int, (k * p + p) as int) =~= s.subrange(0, (m * p) as int));
        assert(joined(bytes, order, noise_len) == joined(bytes, order.drop_last(), noise_len) + stripped(
            bytes[order.last() as int],
            noise_len,
        ));
        assert(stripped(bytes[j], noise_len) == s.subrange((k * p) as int, (k * p + p) as int));
    }
}

/// The chunks of an encoding, their data joined in the order in which they
/// were tagged, spell the base64 form of the text, and that base64 form
/// holds the text's UTF-8 bytes: decoding in tagging order gives the text
/// back.
pub proof fn lemma_encoding_reassembles(cfg: Bananapeel, text: Seq<char>, chunks: Seq<Seq<char>>, key: Key)
    requires
        cfg.valid(),
        cfg.encodes(text, chunks, key),
    ensures
        exists|order: Seq<usize>|
            {
                &&& is_permutation(order, chunks.len())
                &&& payload_of(joined(chunk_bytes(chunks), order, key.noise_len as nat), key.base64_len as nat)
                    == base64_of(encode_utf8(text))
            },
        valid_utf8(encode_utf8(text)),
        decode_utf8(encode_utf8(text)) == text,
{
    let limit = choose|limit: nat| cfg.encodes_within(text, chunks, key, limit);
    reveal(Bananapeel::encodes_within);
    reveal(is_partition_of);
    reveal(is_tagging_of);
    broadcast use encode_utf8_valid_utf8, encode_utf8_decode_utf8;

    let b = base64_of(encode_utf8(text));
    let hex = hex_of(b);
    let p = (cfg.output_len - key.noise_len - 8) as nat;
    let (padding, parts, tagged, perm) = choose|
        padding: Seq<u8>,
        parts: Seq<Seq<u8>>,
        tagged: Seq<Seq<u8>>,
        perm: Seq<usize>,
    |
        {
            &&& padding.len() == padding_len(hex.len(), p)
            &&& is_lower_hex_text(padding)
            &&& is_partition_of(parts, hex + padding, p)
            &&& is_tagging_of(
                tagged,
                parts,
                key.noise_len as nat,
                seeded_state(key.rng_init_state, key.rng_init_seq),
                seeded_inc(key.rng_init_seq),
                limit,
            )
            &&& is_permutation(perm, parts.len())
            &&& exists|inv: Seq<usize>| is_inverse(perm, inv, parts.len())
            &&& chunks.len() == parts.len()
            &&& forall|k: int|
                0 <= k < chunks.len() ==> #[trigger] chunks[k] == ascii_chars(tagged[perm[k] as int])
        };
    let inv = choose|inv: Seq<usize>| is_inverse(perm, inv, parts.len());
    let bytes = chunk_bytes(chunks);
    lemma_hex_of_lower(b);
    lemma_parts_lower(parts, hex + padding, p);
    assert forall|k: int| 0 <= k < bytes.len() implies #[trigger] bytes[k] == tagged[perm[k] as int] by {
        let t = tagged[perm[k] as int];
        assert(is_lower_hex_text(t));
        assert(is_ascii_bytes(t));
        lemma_ascii_utf8(t);
        assert(bytes[k] == encode_utf8(chunks[k]));
        assert(encode_utf8(decode_utf8(t)) == t) by {
            decode_utf8_encode_utf8(t);
        }
    }
    lemma_joined_in_tag_order(bytes, tagged, parts, perm, inv, hex + padding, p, key.noise_len as nat, parts.len());
    assert(inv.subrange(0, parts.len() as int) =~= inv);
    assert((hex + padding).subrange(0, (parts.len() * p) as int) =~= hex + padding);
    lemma_unhex_hex(b, padding);
    assert(is_permutation(inv, chunks.len()));
}

/// Two of the generator's first `limit` draws never share an order prefix.
pub open spec fn distinct_prefixes(state: u64, inc: u64, limit: nat) -> bool {
    forall|a: nat, b: nat|
        #![trigger pcg_nth(state, inc, a), pcg_nth(state, inc, b)]
        a < b < limit ==> order_prefix(pcg_nth(state, inc, a)) != order_prefix(pcg_nth(state, inc, b))
}

/// A strictly increasing map of the indices below `n` into themselves is
/// the identity: no index below `k` is skipped.
proof fn lemma_increasing_at_least(sig: Seq<int>, n: nat, k: nat)
    requires
        sig.len() == n,
        k < n,
        forall|a: int| 0 <= a < n ==> 0 <= #[trigger] sig[a] < n,
        forall|a: int, b: int| 0 <= a < b < n ==> sig[a] < sig[b],
    ensures
        sig[k as int] >= k,
    decreases k,
{
    if k > 0 {
        lemma_increasing_at_least(sig, n, (k - 1) as nat);
        assert(sig[k - 1] < sig[k as int]);
    }
}

/// A strictly increasing map of the indices below `n` into themselves is
/// the identity: no index above `k` is reached early.
proof fn lemma_increasing_at_most(sig: Seq<int>, n: nat, k: nat)
    requires
        sig.len() == n,
        k < n,
        forall|a: int| 0 <= a < n ==> 0 <= #[trigger] sig[a] < n,
        forall|a: int, b: int| 0 <= a < b < n ==> sig[a] < sig[b],
    ensures
        sig[k as int] <= k,
    decreases n - k,
{
    if k + 1 < n {
        lemma_increasing_at_most(sig, n, k + 1);
        assert(sig[k as int] < sig[k + 1 as int]);
    }
}

/// Every chunk of an encoding whose prefixes come from the generator's first
/// `max_draws` draws is long enough for its prefix and noise, and begins with
/// the prefix of one of those draws.
proof fn lemma_chunks_found(cfg: Bananapeel, text: Seq<char>, chunks: Seq<Seq<char>>, key: Key, max_draws: nat)
    requires
        cfg.valid(),
        cfg.encodes_within(text, chunks, key, max_draws),
    ensures
        forall|i: int|
            0 <= i < chunks.len() ==> !#[trigger] misses_draws(
                chunk_bytes(chunks)[i],
                seeded_state(key.rng_init_state, key.rng_init_seq),
                seeded_inc(key.rng_init_seq),
                max_draws,
            ),
        forall|i: int|
            0 <= i < chunks.len() ==> (#[trigger] chunk_bytes(chunks)[i]).len() >= 8 + key.noise_len,
{
    reveal(Bananapeel::encodes_within);
    reveal(is_partition_of);
    reveal(is_tagging_of);
    let state = seeded_state(key.rng_init_state, key.rng_init_seq);
    let inc = seeded_inc(key.rng_init_seq);
    let hex = hex_of(base64_of(encode_utf8(text)));
    let p = (cfg.output_len - key.noise_len - 8) as nat;
    let (padding, parts, tagged, perm) = choose|
        padding: Seq<u8>,
        parts: Seq<Seq<u8>>,
        tagged: Seq<Seq<u8>>,
        perm: Seq<usize>,
    |
        {
            &&& padding.len() == padding_len(hex.len(), p)
            &&& is_lower_hex_text(padding)
            &&& is_partition_of(parts, hex + padding, p)
            &&& is_tagging_of(tagged, parts, key.noise_len as nat, state, inc, max_draws)
            &&& is_permutation(perm, parts.len())
            &&& exists|inv: Seq<usize>| is_inverse(perm, inv, parts.len())
            &&& chunks.len() == parts.len()
            &&& forall|k: int|
                0 <= k < chunks.len() ==> #[trigger] chunks[k] == ascii_chars(tagged[perm[k] as int])
        };
    let d = choose|d: Seq<nat>| tag_draws(tagged, state, inc, max_draws, d);
    let bytes = chunk_bytes(chunks);
    assert forall|k: int| 0 <= k < bytes.len() implies #[trigger] bytes[k] == tagged[perm[k] as int] by {
        let t = tagged[perm[k] as int];
        assert(is_lower_hex_text(t));
        lemma_ascii_utf8(t);
        assert(bytes[k] == encode_utf8(chunks[k]));
        decode_utf8_encode_utf8(t);
    }
    assert forall|i: int| 0 <= i < bytes.len() implies (#[trigger] bytes[i]).len() >= 8 + key.noise_len by {
        assert(tagged[perm[i] as int].len() == 8 + key.noise_len + parts[perm[i] as int].len());
    }
    assert forall|i: int| 0 <= i < bytes.len() implies !#[trigger] misses_draws(bytes[i], state, inc, max_draws) by {
        let j = perm[i] as int;
        assert(tagged[j].subrange(0, 8) == order_prefix(pcg_nth(state, inc, d[j])));
        assert(d[j] < max_draws);
    }
}

/// When the ordering generator's draws below `max_draws` have pairwise
/// different order prefixes and an encoding took its prefixes from those
/// draws, every order that the search may give is the order in which the
/// slices were tagged: the chunks' data, stripped of prefix and noise, comes
/// back slice by slice, with no slice lost or repeated.
pub proof fn lemma_search_order_is_tag_order(
    cfg: Bananapeel,
    text: Seq<char>,
    chunks: Seq<Seq<char>>,
    key: Key,
    max_draws: nat,
    order: Seq<usize>,
)
    requires
        cfg.valid(),
        cfg.encodes_within(text, chunks, key, max_draws),
        distinct_prefixes(
            seeded_state(key.rng_init_state, key.rng_init_seq),
            seeded_inc(key.rng_init_seq),
            max_draws,
        ),
        is_permutation(order, chunks.len()),
        is_search_order(
            chunk_bytes(chunks),
            order,
            chunks.len(),
            seeded_state(key.rng_init_state, key.rng_init_seq),
            seeded_inc(key.rng_init_seq),
            max_draws,
        ),
    ensures
        exists|padding: Seq<u8>|
            #![trigger is_lower_hex_text(padding)]
            {
                let hex = hex_of(base64_of(encode_utf8(text)));
                let p = (cfg.output_len - key.noise_len - 8) as nat;
                &&& is_lower_hex_text(padding)
                &&& padding.len() == padding_len(hex.len(), p)
                &&& joined(chunk_bytes(chunks), order, key.noise_len as nat) == hex + padding
                &&& forall|k: int|
                    0 <= k < chunks.len() ==> #[trigger] stripped(
                        chunk_bytes(chunks)[order[k] as int],
                        key.noise_len as nat,
                    ) == (hex + padding).subrange(k * p, k * p + p)
            },
{
    reveal(Bananapeel::encodes_within);
    reveal(is_partition_of);
    reveal(is_tagging_of);
    broadcast use encode_utf8_valid_utf8, encode_utf8_decode_utf8;

    let state = seeded_state(key.rng_init_state, key.rng_init_seq);
    let inc = seeded_inc(key.rng_init_seq);
    let b = base64_of(encode_utf8(text));
    let hex = hex_of(b);
    let p = (cfg.output_len - key.noise_len - 8) as nat;
    let (padding, parts, tagged, perm) = choose|
        padding: Seq<u8>,
        parts: Seq<Seq<u8>>,
        tagged: Seq<Seq<u8>>,
        perm: Seq<usize>,
    |
        {
            &&& padding.len() == padding_len(hex.len(), p)
            &&& is_lower_hex_text(padding)
            &&& is_partition_of(parts, hex + padding, p)
            &&& is_tagging_of(tagged, parts, key.noise_len as nat, state, inc, max_draws)
            &&& is_permutation(perm, parts.len())
            &&& exists|inv: Seq<usize>| is_inverse(perm, inv, parts.len())
            &&& chunks.len() == parts.len()
            &&& forall|k: int|
                0 <= k < chunks.len() ==> #[trigger] chunks[k] == ascii_chars(tagged[perm[k] as int])
        };
    let inv = choose|inv: Seq<usize>| is_inverse(perm, inv, parts.len());
    let d = choose|d: Seq<nat>| tag_draws(tagged, state, inc, max_draws, d);
    let n = chunks.len();
    let bytes = chunk_bytes(chunks);
    lemma_hex_of_lower(b);
    lemma_parts_lower(parts, hex + padding, p);
    assert forall|k: int| 0 <= k < bytes.len() implies #[trigger] bytes[k] == tagged[perm[k] as int] by {
        let t = tagged[perm[k] as int];
        assert(is_lower_hex_text(t));
        lemma_ascii_utf8(t);
        assert(bytes[k] == encode_utf8(chunks[k]));
        decode_utf8_encode_utf8(t);
    }
    let e = choose|e: Seq<nat>| search_draws(bytes, order, n, state, inc, max_draws, e);
    // Each chunk is placed at the draw it was tagged with.
    assert forall|k: int| 0 <= k < n implies #[trigger] e[k] == d[perm[order[k] as int] as int] by {
        let c = order[k] as int;
        let j = perm[c] as int;
        assert(bytes[c].subrange(0, 8) == order_prefix(pcg_nth(state, inc, e[k])));
        assert(tagged[j].subrange(0, 8) == order_prefix(pcg_nth(state, inc, d[j])));
        assert(e[k] < max_draws);
        assert(d[j] < max_draws);
        if e[k] < d[j] {
            assert(order_prefix(pcg_nth(state, inc, e[k])) != order_prefix(pcg_nth(state, inc, d[j])));
        } else if d[j] < e[k] {
            assert(order_prefix(pcg_nth(state, inc, d[j])) != order_prefix(pcg_nth(state, inc, e[k])));
        }
    }
    let sig = Seq::new(n, |k: int| perm[order[k] as int] as int);
    assert forall|a: int, c: int| 0 <= a < c < n implies sig[a] < sig[c] by {
        assert(e[a] <= e[c]);
        if sig[a] > sig[c] {
            assert(d[sig[c]] < d[sig[a]]);
        } else if sig[a] == sig[c] {
            assert(order[a] != order[c]);
        }
    }
    assert forall|k: int| 0 <= k < n implies order[k] == inv[k] by {
        lemma_increasing_at_least(sig, n, k as nat);
        lemma_increasing_at_most(sig, n, k as nat);
        assert(perm[order[k] as int] == k);
        assert(perm[inv[k] as int] == k);
        if order[k] != inv[k] {
            if order[k] < inv[k] {
                assert(perm[order[k] as int] != perm[inv[k] as int]);
            } else {
                assert(perm[inv[k] as int] != perm[order[k] as int]);
            }
        }
    }
    assert(order =~= inv);
    lemma_joined_in_tag_order(bytes, tagged, parts, perm, inv, hex + padding, p, key.noise_len as nat, parts.len());
    assert(inv.subrange(0, parts.len() as int) =~= inv);
    assert((hex + padding).subrange(0, (parts.len() * p) as int) =~= hex + padding);
    assert forall|k: int| 0 <= k < chunks.len() implies #[trigger] stripped(bytes[order[k] as int], key.noise_len as nat)
        == (hex + padding).subrange(k * p, k * p + p) by {
        assert(perm[inv[k] as int] == k);
        assert(parts[k] == (hex + padding).subrange(k * p, k * p + p));
    }
}

/// Decoding an encoding gives back the text, when the ordering generator's
/// draws below the decode's draw budget have pairwise different order
/// prefixes and the encoding took its prefixes from those draws: whatever
/// decoding may return, it returns the text.
pub proof fn lemma_round_trip(
    cfg: Bananapeel,
    text: Seq<char>,
    chunks: Seq<Seq<char>>,
    key: Key,
    max_draws: nat,
    r: Result<String, DecodeFailure>,
)
    requires
        cfg.valid(),
        cfg.encodes_within(text, chunks, key, max_draws),
        distinct_prefixes(
            seeded_state(key.rng_init_state, key.rng_init_seq),
            seeded_inc(key.rng_init_seq),
            max_draws,
        ),
        decode_outcome(chunk_bytes(chunks), key, max_draws, r),
    ensures
        r is Ok,
        r->Ok_0@ == text,
{
    broadcast use encode_utf8_valid_utf8, encode_utf8_decode_utf8;

    let state = seeded_state(key.rng_init_state, key.rng_init_seq);
    let inc = seeded_inc(key.rng_init_seq);
    let bytes = chunk_bytes(chunks);
    let b = base64_of(encode_utf8(text));
    let hex = hex_of(b);
    let p = (cfg.output_len - key.noise_len - 8) as nat;
    reveal(Bananapeel::encodes_within);
    assert(key.base64_len == b.len());
    lemma_chunks_found(cfg, text, chunks, key, max_draws);
    assert(!exists|i: int| 0 <= i < bytes.len() && (#[trigger] bytes[i]).len() < 8 + key.noise_len);
    assert(!exists|i: int| 0 <= i < bytes.len() && #[trigger] misses_draws(bytes[i], state, inc, max_draws));
    let order = choose|order: Seq<usize>|
        {
            &&& is_permutation(order, bytes.len())
            &&& is_search_order(bytes, order, bytes.len(), state, inc, max_draws)
            &&& reassembly_outcome(joined(bytes, order, key.noise_len as nat), key.base64_len as nat, r)
        };
    lemma_search_order_is_tag_order(cfg, text, chunks, key, max_draws, order);
    let padding = choose|padding: Seq<u8>|
        #![trigger is_lower_hex_text(padding)]
        {
            let hex = hex_of(base64_of(encode_utf8(text)));
            let p = (cfg.output_len - key.noise_len - 8) as nat;
            &&& is_lower_hex_text(padding)
            &&& padding.len() == padding_len(hex.len(), p)
            &&& joined(chunk_bytes(chunks), order, key.noise_len as nat) == hex + padding
            &&& forall|k: int|
                0 <= k < chunks.len() ==> #[trigger] stripped(
                    chunk_bytes(chunks)[order[k] as int],
                    key.noise_len as nat,
                ) == (hex + padding).subrange(k * p, k * p + p)
        };
    lemma_unhex_hex(b, padding);
    assert(payload_of(joined(bytes, order, key.noise_len as nat), key.base64_len as nat) == b);
    assert(valid_utf8(encode_utf8(text)));
}

} // verus!