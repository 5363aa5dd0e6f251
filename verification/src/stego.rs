//! The integer side of the invisible signature: which 8×8 block carries
//! which bit. A 16-bit length header is written first, each of its bits
//! repeated over 40 blocks; the message bits then cycle over the following
//! blocks, as many whole copies as fit (at most 96). Blocks are visited in
//! a fixed pseudo-random order so that a local edit spares most copies.
use vstd::prelude::*;
use crate::text::{text_bytes, text_from_bytes, utf8_decode, utf8_of};

verus! {

/// Bits of the length header.
pub const HEADER_BITS: usize = 16;
/// Blocks carrying each header bit.
pub const HEADER_REPEAT: usize = 40;
/// Blocks taken by the header.
pub const HEADER_BLOCKS: usize = 640;
/// Fewest copies of the message an image must hold.
pub const MIN_REPEAT: usize = 6;
/// Most copies of the message written.
pub const MAX_REPEAT: usize = 96;
/// Longest message, in bytes.
pub const MAX_PAYLOAD: usize = 512;

// ── Copies ───────────────────────────────────────────────────────────────────

/// Copies of a message of `pb` bits that `total` blocks hold after the header.
pub open spec fn repeat_spec(total: nat, pb: nat) -> nat {
    if pb == 0 || total <= HEADER_BLOCKS {
        0
    } else if (total - HEADER_BLOCKS) as nat / pb <= MAX_REPEAT {
        (total - HEADER_BLOCKS) as nat / pb
    } else {
        MAX_REPEAT as nat
    }
}

/// Copies of the message that `total_blocks` blocks hold (`payload_repeat`).
pub fn payload_repeat(total_blocks: usize, payload_bits: usize) -> (r: usize)
    ensures
        r == repeat_spec(total_blocks as nat, payload_bits as nat),
{
    if payload_bits == 0 || total_blocks <= HEADER_BLOCKS {
        return 0;
    }
    let n = (total_blocks - HEADER_BLOCKS) / payload_bits;
    if n <= MAX_REPEAT {
        n
    } else {
        MAX_REPEAT
    }
}

/// Blocks of 8×8 pixels in a `w`×`h` image.
pub open spec fn block_count(w: nat, h: nat) -> nat {
    (w / 8) * (h / 8)
}

/// Bytes a `w`×`h` image can carry: at least [`MIN_REPEAT`] copies after the
/// header.
pub open spec fn capacity_spec(w: nat, h: nat) -> nat {
    (if block_count(w, h) > HEADER_BLOCKS {
        (block_count(w, h) - HEADER_BLOCKS) as nat
    } else {
        0nat
    }) / MIN_REPEAT as nat / 8
}

/// Bytes an image can carry (`capacity_bytes`).
pub fn capacity_bytes(width: u32, height: u32) -> (r: usize)
    requires
        block_count(width as nat, height as nat) <= usize::MAX,
    ensures
        r == capacity_spec(width as nat, height as nat),
{
    let bw = (width / 8) as usize;
    let bh = (height / 8) as usize;
    assert(bw * bh == block_count(width as nat, height as nat));
    let blocks = bw * bh;
    let free = if blocks > HEADER_BLOCKS { blocks - HEADER_BLOCKS } else { 0 };
    free / MIN_REPEAT / 8
}

/// A message that fits an image is written at least [`MIN_REPEAT`] times, so
/// the reader accepts the length it finds.
pub proof fn lemma_capacity_copies(w: nat, h: nat, len: nat)
    requires
        1 <= len <= capacity_spec(w, h),
    ensures
        repeat_spec(block_count(w, h), 8 * len) >= MIN_REPEAT,
{
    let free = (block_count(w, h) - HEADER_BLOCKS) as nat;
    assert(block_count(w, h) > HEADER_BLOCKS) by {
        if block_count(w, h) <= HEADER_BLOCKS {
            assert(capacity_spec(w, h) == 0);
        }
    }
    assert(free / 6 / 8 >= len);
    assert(free / 6 / 8 == free / 48) by {
        vstd::arithmetic::div_mod::lemma_div_denominator(free as int, 6, 8);
    }
    assert(free >= 48 * len) by (nonlinear_arith)
        requires
            free / 48 >= len,
    ;
    assert(free / (8 * len) >= 6) by (nonlinear_arith)
        requires
            free >= 48 * len,
            len >= 1,
    ;
}

// ── Bits ─────────────────────────────────────────────────────────────────────

/// The `n` low bits of `v`, most significant first.
pub open spec fn be_bits(v: nat, n: nat) -> Seq<bool>
    decreases n,
{
    if n == 0 {
        seq![]
    } else {
        be_bits(v / 2, (n - 1) as nat).push(v % 2 == 1)
    }
}

/// The number written by bits, most significant first.
pub open spec fn bits_value(s: Seq<bool>) -> nat
    decreases s.len(),
{
    if s.len() == 0 {
        0
    } else {
        2 * bits_value(s.drop_last()) + if s.last() {
            1nat
        } else {
            0nat
        }
    }
}

pub open spec fn p2(n: nat) -> nat
    decreases n,
{
    if n == 0 {
        1
    } else {
        2 * p2((n - 1) as nat)
    }
}

/// Reading `n` bits back gives the value modulo `2^n`.
pub proof fn lemma_be_bits_value(v: nat, n: nat)
    ensures
        be_bits(v, n).len() == n,
        bits_value(be_bits(v, n)) == v % p2(n),
    decreases n,
{
    if n > 0 {
        lemma_be_bits_value(v / 2, (n - 1) as nat);
        let m = p2((n - 1) as nat);
        assert(m > 0) by {
            lemma_p2_pos((n - 1) as nat);
        }
        assert(be_bits(v, n).drop_last() == be_bits(v / 2, (n - 1) as nat));
        let q = v / 2;
        let r = v % 2;
        assert(2 * (q % m) + r == v % (2 * m)) by (nonlinear_arith)
            requires
                m > 0,
                q == v / 2,
                r == v % 2,
        {
            vstd::arithmetic::div_mod::lemma_fundamental_div_mod(v as int, 2);
            vstd::arithmetic::div_mod::lemma_fundamental_div_mod(q as int, m as int);
            let a = q / m;
            let b = q % m;
            assert(v == 2 * m * a + (2 * b + r));
            assert(0 <= 2 * b + r < 2 * m);
            vstd::arithmetic::div_mod::lemma_fundamental_div_mod_converse(
                v as int,
                (2 * m) as int,
                a as int,
                (2 * b + r) as int,
            );
        }
    } else {
        assert(v % 1 == 0);
    }
}

pub proof fn lemma_p2_pos(n: nat)
    ensures
        p2(n) > 0,
    decreases n,
{
    if n > 0 {
        lemma_p2_pos((n - 1) as nat);
    }
}

/// Bits of the bytes, each most significant first.
pub open spec fn bytes_bits(p: Seq<u8>) -> Seq<bool>
    decreases p.len(),
{
    if p.len() == 0 {
        seq![]
    } else {
        bytes_bits(p.drop_last()) + be_bits(p.last() as nat, 8)
    }
}

/// The bits written for a message: its length on 16 bits, then its bytes.
pub open spec fn bits_spec(p: Seq<u8>) -> Seq<bool> {
    be_bits(p.len() % 65536, 16) + bytes_bits(p)
}

/// Bytes read back from bits, 8 at a time.
pub open spec fn bytes_from_bits(b: Seq<bool>, n: nat) -> Seq<u8> {
    Seq::new(n, |i: int| bits_value(b.subrange(8 * i, 8 * i + 8)) as u8)
}

proof fn lemma_bytes_bits(p: Seq<u8>)
    ensures
        bytes_bits(p).len() == 8 * p.len(),
        forall|i: int| 0 <= i < p.len() ==> #[trigger] bytes_bits(p).subrange(8 * i, 8 * i + 8) == be_bits(p[i] as nat, 8),
    decreases p.len(),
{
    if p.len() > 0 {
        lemma_bytes_bits(p.drop_last());
        lemma_be_bits_value(p.last() as nat, 8);
        let prev = bytes_bits(p.drop_last());
        assert forall|i: int| 0 <= i < p.len() implies #[trigger] bytes_bits(p).subrange(8 * i, 8 * i + 8)
            == be_bits(p[i] as nat, 8) by {
            if i < p.len() - 1 {
                assert(bytes_bits(p).subrange(8 * i, 8 * i + 8) =~= prev.subrange(8 * i, 8 * i + 8));
                assert(p.drop_last()[i] == p[i]);
            } else {
                assert(bytes_bits(p).subrange(8 * i, 8 * i + 8) =~= be_bits(p.last() as nat, 8));
            }
        }
    }
}

/// Reading back the bits written for a message gives its length from the
/// header and its bytes from the rest.
pub proof fn lemma_bits_roundtrip(p: Seq<u8>)
    requires
        p.len() < 65536,
    ensures
        bits_spec(p).len() == HEADER_BITS + 8 * p.len(),
        bits_value(bits_spec(p).take(HEADER_BITS as int)) == p.len(),
        bytes_from_bits(bits_spec(p).skip(HEADER_BITS as int), p.len()) == p,
{
    lemma_be_bits_value(p.len() % 65536, 16);
    lemma_bytes_bits(p);
    assert(p2(16) == 65536) by {
        reveal_with_fuel(p2, 17);
    }
    let b = bits_spec(p);
    assert(b.take(16) =~= be_bits(p.len() % 65536, 16));
    assert(b.skip(16) =~= bytes_bits(p));
    assert forall|i: int| 0 <= i < p.len() implies #[trigger] bytes_from_bits(b.skip(16), p.len())[i] == p[i] by {
        lemma_be_bits_value(p[i] as nat, 8);
        assert(p2(8) == 256) by {
            reveal_with_fuel(p2, 9);
        }
        assert(bytes_bits(p).subrange(8 * i, 8 * i + 8) == be_bits(p[i] as nat, 8));
    }
    assert(bytes_from_bits(b.skip(16), p.len()) =~= p);
}

fn push_be_bits(out: &mut Vec<bool>, v: u64, n: usize)
    ensures
        final(out)@ == old(out)@ + be_bits(v as nat, n as nat),
    decreases n,
{
    if n > 0 {
        push_be_bits(out, v / 2, n - 1);
        out.push(v % 2 == 1);
    }
}

/// The bits written for a message (`bits_of`).
pub fn bits_of(payload: &[u8]) -> (r: Vec<bool>)
    ensures
        r@ == bits_spec(payload@),
{
    let mut r: Vec<bool> = Vec::new();
    push_be_bits(&mut r, (payload.len() % 65536) as u64, 16);
    let ghost head = r@;
    let mut i: usize = 0;
    while i < payload.len()
        invariant
            i <= payload.len(),
            head == be_bits(payload@.len() % 65536, 16),
            r@ == head + bytes_bits(payload@.take(i as int)),
        decreases payload.len() - i,
    {
        assert(payload@.take(i + 1).drop_last() =~= payload@.take(i as int));
        push_be_bits(&mut r, payload[i] as u64, 8);
        i += 1;
    }
    assert(payload@.take(i as int) =~= payload@);
    r
}

/// The number written by bits (`(len << 1) | bit` for each bit).
pub fn bits_number(bits: &[bool]) -> (v: u64)
    requires
        bits@.len() <= 63,
    ensures
        v == bits_value(bits@),
{
    let mut v: u64 = 0;
    let mut i: usize = 0;
    proof {
        assert(p2(63) == 0x8000_0000_0000_0000) by {
            reveal_with_fuel(p2, 64);
        }
    }
    while i < bits.len()
        invariant
            i <= bits.len(),
            bits@.len() <= 63,
            p2(63) == 0x8000_0000_0000_0000,
            v == bits_value(bits@.take(i as int)),
            v < p2(i as nat),
        decreases bits.len() - i,
    {
        assert(bits@.take(i + 1).drop_last() =~= bits@.take(i as int));
        proof {
            lemma_p2_mono((i + 1) as nat, 63);
            assert(p2((i + 1) as nat) == 2 * p2(i as nat));
        }
        v = 2 * v + if bits[i] { 1 } else { 0 };
        i += 1;
    }
    assert(bits@.take(i as int) =~= bits@);
    v
}

proof fn lemma_p2_mono(a: nat, b: nat)
    requires
        a <= b,
    ensures
        p2(a) <= p2(b),
    decreases b,
{
    if a < b {
        lemma_p2_mono(a, (b - 1) as nat);
        lemma_p2_pos((b - 1) as nat);
    }
}

// ── Block order ──────────────────────────────────────────────────────────────

pub open spec fn lcg_next(state: u64) -> u64 {
    state.wrapping_mul(6364136223846793005).wrapping_add(1442695040888963407)
}

pub open spec fn swap_at(o: Seq<usize>, i: int, j: int) -> Seq<usize> {
    o.update(i, o[j]).update(j, o[i])
}

/// Fisher–Yates from position `i` down to 1, each swap partner drawn from a
/// 64-bit linear congruential generator (high bits).
pub open spec fn shuffle(o: Seq<usize>, state: u64, i: nat) -> Seq<usize>
    decreases i,
{
    if i == 0 {
        o
    } else {
        let st = lcg_next(state);
        let j = ((st >> 33u64) as nat) % (i + 1);
        shuffle(swap_at(o, i as int, j as int), st, (i - 1) as nat)
    }
}

/// The visiting order of `count` blocks: the identity shuffled from a fixed
/// seed, so that writer and reader agree.
pub open spec fn order_spec(count: nat) -> Seq<usize> {
    let id = Seq::new(count, |k: int| k as usize);
    if count == 0 {
        id
    } else {
        shuffle(id, 0x5DEECE66D, (count - 1) as nat)
    }
}

/// Each of `0..n` exactly once.
pub open spec fn is_perm(o: Seq<usize>, n: nat) -> bool {
    &&& o.len() == n
    &&& forall|i: int| 0 <= i < n ==> #[trigger] o[i] < n
    &&& forall|i: int, j: int| 0 <= i < j < n ==> o[i] != o[j]
}

/// The visiting order of `count` blocks (`block_order`); it visits every
/// block once.
pub fn block_order(count: usize) -> (r: Vec<usize>)
    ensures
        r@ == order_spec(count as nat),
        is_perm(r@, count as nat),
{
    let mut order: Vec<usize> = Vec::new();
    let mut k: usize = 0;
    while k < count
        invariant
            k <= count,
            order@.len() == k,
            forall|j: int| 0 <= j < k ==> #[trigger] order@[j] == j as usize,
        decreases count - k,
    {
        order.push(k);
        k += 1;
    }
    let ghost id = order@;
    assert(id =~= Seq::new(count as nat, |k: int| k as usize));
    if count == 0 {
        return order;
    }
    let mut state: u64 = 0x5DEECE66D;
    let mut i: usize = count - 1;
    while i >= 1
        invariant
            i < count,
            shuffle(order@, state, i as nat) == order_spec(count as nat),
            is_perm(order@, count as nat),
        decreases i,
    {
        state = state.wrapping_mul(6364136223846793005).wrapping_add(1442695040888963407);
        assert((state >> 33u64) < 0x8000_0000u64) by (bit_vector);
        let hi = (state >> 33u64) as usize;
        let j = hi % (i + 1);
        let ghost before = order@;
        let a = order[i];
        let b = order[j];
        order.set(i, b);
        order.set(j, a);
        assert(order@ =~= swap_at(before, i as int, j as int));
        proof {
            assert forall|x: int, y: int| 0 <= x < y < count implies order@[x] != order@[y] by {
                let sx = if x == i { j as int } else if x == j { i as int } else { x };
                let sy = if y == i { j as int } else if y == j { i as int } else { y };
                assert(order@[x] == before[sx]);
                assert(order@[y] == before[sy]);
                assert(sx != sy);
                if sx < sy {
                } else {
                }
            }
        }
        i -= 1;
    }
    order
}

// ── Writing ──────────────────────────────────────────────────────────────────

/// The bit block number `slot` (in visiting order) carries: a header bit
/// for the first [`HEADER_BLOCKS`], then the message bits in turn, none past
/// `repeat` copies.
pub open spec fn bit_at_spec(bits: Seq<bool>, slot: nat, repeat: nat) -> Option<bool> {
    if slot < HEADER_BLOCKS {
        if slot / (HEADER_REPEAT as nat) < bits.len() {
            Some(bits[(slot / (HEADER_REPEAT as nat)) as int])
        } else {
            None
        }
    } else {
        let pb = bits.len() - HEADER_BITS;
        let pos = slot - HEADER_BLOCKS;
        if pb <= 0 || repeat == 0 || pos >= pb * repeat {
            None
        } else {
            Some(bits[HEADER_BITS + pos % pb])
        }
    }
}

/// The bit a block carries (`bit_at`).
pub fn bit_at(bits: &[bool], slot: usize, repeat: usize) -> (r: Option<bool>)
    requires
        bits@.len() >= HEADER_BITS,
    ensures
        r == bit_at_spec(bits@, slot as nat, repeat as nat),
{
    if slot < HEADER_BLOCKS {
        let k = slot / HEADER_REPEAT;
        if k < bits.len() {
            return Some(bits[k]);
        }
        return None;
    }
    let payload_bits = bits.len() - HEADER_BITS;
    if payload_bits == 0 || repeat == 0 {
        return None;
    }
    let pos = slot - HEADER_BLOCKS;
    if pos / payload_bits >= repeat {
        proof {
            assert(pos >= payload_bits * repeat) by (nonlinear_arith)
                requires
                    pos / payload_bits >= repeat,
                    payload_bits > 0,
            ;
        }
        return None;
    }
    proof {
        assert(pos < payload_bits * repeat) by (nonlinear_arith)
            requires
                pos / payload_bits < repeat,
                payload_bits > 0,
        ;
    }
    Some(bits[HEADER_BITS + pos % payload_bits])
}

/// Why a signature could not be written or read.
#[derive(Debug)]
pub enum StegoError {
    /// Nothing to write.
    Empty,
    /// Longer than [`MAX_PAYLOAD`] bytes.
    TooLong,
    /// The image holds at most `capacity` bytes; `wanted` were asked for.
    TooSmall { capacity: usize, wanted: usize },
    /// The image is under 64×64 pixels.
    ImageTooSmall,
    /// No plausible length in the header.
    NotFound,
    /// The bytes read are not UTF-8.
    Unreadable,
}

/// The message shown for an error.
pub open spec fn stego_message_spec(e: StegoError) -> Seq<char> {
    match e {
        StegoError::Empty => "Signature invisible vide"@,
        StegoError::TooLong => "Signature invisible trop longue (512 octets max)"@,
        StegoError::TooSmall { capacity, wanted } => "Image trop petite pour cette signature : "@
            + crate::text::dec_str(capacity as nat) + " caractères possibles, "@ + crate::text::dec_str(
            wanted as nat,
        ) + " demandés"@,
        StegoError::ImageTooSmall => "Image trop petite pour porter une signature"@,
        StegoError::NotFound => "Aucune signature invisible détectée"@,
        StegoError::Unreadable => "Signature illisible (image trop dégradée)"@,
    }
}

impl StegoError {
    /// The message shown for the error.
    pub fn message(&self) -> (r: String)
        ensures
            r@ == stego_message_spec(*self),
    {
        match self {
            StegoError::Empty => String::from_str("Signature invisible vide"),
            StegoError::TooLong => String::from_str("Signature invisible trop longue (512 octets max)"),
            StegoError::TooSmall { capacity, wanted } => {
                let mut out = crate::text::chars_of("Image trop petite pour cette signature : ");
                crate::text::push_all(&mut out, crate::text::dec_string(*capacity as u64).as_slice());
                crate::text::push_str(&mut out, " caractères possibles, ");
                crate::text::push_all(&mut out, crate::text::dec_string(*wanted as u64).as_slice());
                crate::text::push_str(&mut out, " demandés");
                crate::text::string_of(out.as_slice())
            },
            StegoError::ImageTooSmall => String::from_str("Image trop petite pour porter une signature"),
            StegoError::NotFound => String::from_str("Aucune signature invisible détectée"),
            StegoError::Unreadable => String::from_str("Signature illisible (image trop dégradée)"),
        }
    }
}

/// The (block, bit) pairs written for a message, in visiting order: every
/// slot that [`bit_at_spec`] gives a bit.
pub open spec fn plan_spec(p: Seq<u8>, blocks: nat) -> Seq<(usize, bool)> {
    let bits = bits_spec(p);
    let rep = repeat_spec(blocks, (bits.len() - HEADER_BITS) as nat);
    let n = HEADER_BLOCKS + (bits.len() - HEADER_BITS) * rep;
    Seq::new(
        if n <= blocks {
            n as nat
        } else {
            blocks
        },
        |s: int| (order_spec(blocks)[s], bit_at_spec(bits, s as nat, rep)->0),
    )
}

/// What writing a signature takes for a `w`×`h` image: the text checked
/// against the limits, then the bit each visited block must carry
/// (`embed`, without the pixel arithmetic).
pub fn embed_plan(text: &str, width: u32, height: u32) -> (r: Result<Vec<(usize, bool)>, StegoError>)
    requires
        block_count(width as nat, height as nat) <= usize::MAX,
    ensures
        ({
            let p = utf8_of(text@);
            let cap = capacity_spec(width as nat, height as nat);
            &&& p.len() == 0 ==> (r matches Err(StegoError::Empty))
            &&& 0 < p.len() && p.len() > MAX_PAYLOAD ==> (r matches Err(StegoError::TooLong))
            &&& 0 < p.len() <= MAX_PAYLOAD && p.len() > cap ==> (r matches Err(StegoError::TooSmall { capacity, wanted })
                && capacity == cap && wanted == p.len())
            &&& 0 < p.len() <= MAX_PAYLOAD && p.len() <= cap ==> (r matches Ok(plan) && plan@ == plan_spec(
                p,
                block_count(width as nat, height as nat),
            ))
        }),
{
    let payload = text_bytes(text);
    if payload.len() == 0 {
        return Err(StegoError::Empty);
    }
    if payload.len() > MAX_PAYLOAD {
        return Err(StegoError::TooLong);
    }
    let capacity = capacity_bytes(width, height);
    if payload.len() > capacity {
        return Err(StegoError::TooSmall { capacity, wanted: payload.len() });
    }
    let bits = bits_of(payload.as_slice());
    proof {
        lemma_bits_roundtrip(payload@);
    }
    let bw = (width / 8) as usize;
    let bh = (height / 8) as usize;
    assert(bw * bh == block_count(width as nat, height as nat));
    let order = block_order(bw * bh);
    let repeat = payload_repeat(order.len(), bits.len() - HEADER_BITS);
    let pb = bits.len() - HEADER_BITS;
    let limit = if repeat == 0 {
        assert(pb * repeat == 0) by (nonlinear_arith)
            requires
                repeat == 0,
        ;
        HEADER_BLOCKS
    } else {
        assert(order@.len() > HEADER_BLOCKS);
        assert(repeat <= (order@.len() - HEADER_BLOCKS) as nat / (pb as nat));
        assert(pb * repeat <= order@.len() - HEADER_BLOCKS) by (nonlinear_arith)
            requires
                repeat <= (order@.len() - HEADER_BLOCKS) as nat / (pb as nat),
                pb > 0,
                order@.len() > HEADER_BLOCKS,
        ;
        HEADER_BLOCKS + pb * repeat
    };
    let mut plan: Vec<(usize, bool)> = Vec::new();
    let mut slot: usize = 0;
    while slot < order.len() && slot < limit
        invariant
            slot <= order.len(),
            bits@ == bits_spec(payload@),
            bits@.len() == HEADER_BITS + pb,
            pb > 0,
            order@ == order_spec((bw * bh) as nat),
            repeat == repeat_spec(order@.len() as nat, pb as nat),
            limit == HEADER_BLOCKS + pb * repeat,
            slot <= limit,
            plan@.len() == slot,
            forall|s: int| 0 <= s < slot ==> #[trigger] plan@[s] == (order@[s], bit_at_spec(bits@, s as nat, repeat as nat)->0),
        decreases order.len() - slot,
    {
        let b = bit_at(bits.as_slice(), slot, repeat);
        proof {
            if slot < HEADER_BLOCKS {
                assert(slot / 40 < 16);
            }
        }
        plan.push((order[slot], b.unwrap()));
        slot += 1;
    }
    proof {
        let blocks = (bw * bh) as nat;
        assert(order@.len() == blocks);
        assert(slot == (if limit <= order@.len() { limit as nat } else { blocks }));
        let ps = plan_spec(payload@, blocks);
        assert(ps.len() == slot);
        assert forall|s: int| 0 <= s < slot implies plan@[s] == ps[s] by {}
        assert(plan@ =~= ps);
    }
    Ok(plan)
}

// ── Reading ──────────────────────────────────────────────────────────────────

/// The visiting order for reading a `w`×`h` image; under 64×64 pixels no
/// signature is looked for.
pub fn extract_order(width: u32, height: u32) -> (r: Result<Vec<usize>, StegoError>)
    requires
        block_count(width as nat, height as nat) <= usize::MAX,
    ensures
        width < 64 || height < 64 ==> r matches Err(StegoError::ImageTooSmall),
        !(width < 64 || height < 64) ==> (r matches Ok(o) && o@ == order_spec(
            block_count(width as nat, height as nat),
        )),
{
    if width < 64 || height < 64 {
        return Err(StegoError::ImageTooSmall);
    }
    let bw = (width / 8) as usize;
    let bh = (height / 8) as usize;
    assert(bw * bh == block_count(width as nat, height as nat));
    Ok(block_order(bw * bh))
}

/// The message length the header signs give, and the copies it implies, if
/// plausible: 1 to [`MAX_PAYLOAD`] bytes, at least [`MIN_REPEAT`] copies.
pub open spec fn length_check(len: nat, blocks: nat) -> Option<nat> {
    let rep = repeat_spec(blocks, 8 * len);
    if len == 0 || len > MAX_PAYLOAD || rep < MIN_REPEAT {
        None
    } else {
        Some(rep)
    }
}

/// Reads the length header (one sign per header bit, most significant
/// first) and checks it against the image's blocks.
pub fn read_length(header: &[bool], blocks: usize) -> (r: Result<(usize, usize), StegoError>)
    requires
        header@.len() == HEADER_BITS,
    ensures
        match length_check(bits_value(header@), blocks as nat) {
            Some(rep) => r matches Ok((len, repeat)) && len == bits_value(header@) && repeat == rep,
            None => r matches Err(StegoError::NotFound),
        },
{
    let v = bits_number(header);
    proof {
        assert(bits_value(header@) < 65536) by {
            lemma_bits_value_bound(header@);
            assert(p2(16) == 65536) by {
                reveal_with_fuel(p2, 17);
            }
        }
    }
    let len = v as usize;
    if len == 0 || len > MAX_PAYLOAD {
        return Err(StegoError::NotFound);
    }
    let repeat = payload_repeat(blocks, len * 8);
    if repeat < MIN_REPEAT {
        return Err(StegoError::NotFound);
    }
    Ok((len, repeat))
}

proof fn lemma_bits_value_bound(s: Seq<bool>)
    ensures
        bits_value(s) < p2(s.len()),
    decreases s.len(),
{
    if s.len() > 0 {
        lemma_bits_value_bound(s.drop_last());
    }
}

/// Which message bit the block at `slot` votes for, while within the copies.
pub open spec fn vote_spec(slot: nat, pb: nat, repeat: nat) -> Option<nat> {
    if slot < HEADER_BLOCKS || pb == 0 {
        None
    } else if slot - HEADER_BLOCKS >= pb * repeat {
        None
    } else {
        Some(((slot - HEADER_BLOCKS) as nat) % pb)
    }
}

/// The message bit a block votes for (`None` for header blocks and past
/// the last copy).
pub fn vote_index(slot: usize, payload_bits: usize, repeat: usize) -> (r: Option<usize>)
    ensures
        match r {
            Some(k) => vote_spec(slot as nat, payload_bits as nat, repeat as nat) == Some(k as nat),
            None => vote_spec(slot as nat, payload_bits as nat, repeat as nat) is None,
        },
{
    if slot < HEADER_BLOCKS || payload_bits == 0 {
        return None;
    }
    let pos = slot - HEADER_BLOCKS;
    if pos / payload_bits >= repeat {
        proof {
            assert(pos >= payload_bits * repeat) by (nonlinear_arith)
                requires
                    pos / payload_bits >= repeat,
                    payload_bits > 0,
            ;
        }
        return None;
    }
    proof {
        assert(pos < payload_bits * repeat) by (nonlinear_arith)
            requires
                pos / payload_bits < repeat,
                payload_bits > 0,
        ;
    }
    Some(pos % payload_bits)
}

/// The text of the bytes the message signs give (8 per byte, most
/// significant first).
pub fn decode_text(signs: &[bool], len: usize) -> (r: Result<String, StegoError>)
    requires
        signs@.len() >= 8 * len,
    ensures
        match utf8_decode(bytes_from_bits(signs@, len as nat)) {
            Some(t) => r matches Ok(s) && s@ == t,
            None => r matches Err(StegoError::Unreadable),
        },
        r matches Ok(s) ==> utf8_of(s@) == bytes_from_bits(signs@, len as nat) && utf8_of(s@).len() == len,
{
    let mut bytes: Vec<u8> = Vec::new();
    let mut i: usize = 0;
    while i < len
        invariant
            i <= len,
            signs@.len() >= 8 * len,
            bytes@.len() == i,
            forall|k: int| 0 <= k < i ==> #[trigger] bytes@[k] == bits_value(signs@.subrange(8 * k, 8 * k + 8)) as u8,
        decreases len - i,
    {
        assert(8 * i + 8 <= 8 * len);
        assert(8 * len <= signs@.len());
        assert(signs@.len() == signs.len());
        let chunk = vstd::slice::slice_subrange(signs, 8 * i, 8 * i + 8);
        let v = bits_number(chunk);
        proof {
            lemma_bits_value_bound(chunk@);
            assert(p2(8) == 256) by {
                reveal_with_fuel(p2, 9);
            }
        }
        bytes.push(v as u8);
        i += 1;
    }
    assert(bytes@ =~= bytes_from_bits(signs@, len as nat));
    match text_from_bytes(bytes.as_slice()) {
        Some(t) => {
            proof {
                vstd::utf8::decode_utf8_encode_utf8(bytes@);
            }
            Ok(t)
        },
        None => Err(StegoError::Unreadable),
    }
}

/// Reading what writing put: for a message that fits, the header gives its
/// length, the length passes the reader's check with the same number of
/// copies, every block the reader counts towards a bit carries that bit,
/// and the bytes come back unchanged.
pub proof fn lemma_signature_roundtrip(p: Seq<u8>, w: nat, h: nat)
    requires
        1 <= p.len() <= MAX_PAYLOAD,
        p.len() <= capacity_spec(w, h),
    ensures
        bits_value(bits_spec(p).take(HEADER_BITS as int)) == p.len(),
        length_check(p.len(), block_count(w, h)) == Some(repeat_spec(block_count(w, h), 8 * p.len())),
        bytes_from_bits(bits_spec(p).skip(HEADER_BITS as int), p.len()) == p,
        forall|s: nat|
            s < HEADER_BLOCKS ==> #[trigger] bit_at_spec(bits_spec(p), s, repeat_spec(block_count(w, h), 8 * p.len()))
                == Some(bits_spec(p)[(s / (HEADER_REPEAT as nat)) as int]),
        forall|s: nat|
            #![trigger vote_spec(s, 8 * p.len(), repeat_spec(block_count(w, h), 8 * p.len()))]
            vote_spec(s, 8 * p.len(), repeat_spec(block_count(w, h), 8 * p.len())) matches Some(k)
                ==> bit_at_spec(bits_spec(p), s, repeat_spec(block_count(w, h), 8 * p.len())) == Some(
                bits_spec(p)[HEADER_BITS + k],
            ),
{
    lemma_bits_roundtrip(p);
    lemma_capacity_copies(w, h, p.len());
    let rep = repeat_spec(block_count(w, h), 8 * p.len());
    let bits = bits_spec(p);
    assert forall|s: nat| s < HEADER_BLOCKS implies #[trigger] bit_at_spec(bits, s, rep) == Some(
        bits[(s / (HEADER_REPEAT as nat)) as int],
    ) by {
        assert(s / 40 < 16);
    }
}

} // verus!
