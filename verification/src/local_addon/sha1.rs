//! SHA-1 (FIPS 180-4), which names a torrent.
use vstd::prelude::*;
use vstd::slice::slice_subrange;

verus! {

/// The five words that the hash carries from block to block.
#[verifier::ext_equal]
pub struct Words {
    pub a: u32,
    pub b: u32,
    pub c: u32,
    pub d: u32,
    pub e: u32,
}

/// The words before the first block.
pub open spec fn initial() -> Words {
    Words { a: 0x67452301, b: 0xEFCDAB89, c: 0x98BADCFE, d: 0x10325476, e: 0xC3D2E1F0 }
}

/// A word turned left by `n` bits.
pub open spec fn rotl(x: u32, n: u32) -> u32 {
    (x << n) | (x >> ((32 - n) as u32))
}

fn rotate_left(x: u32, n: u32) -> (r: u32)
    requires
        0 < n < 32,
    ensures
        r == rotl(x, n),
{
    (x << n) | (x >> (32 - n))
}

/// Four bytes as a word, the most significant first.
pub open spec fn word_at(b: Seq<u8>, at: int) -> u32 {
    (b[at] * 16777216 + b[at + 1] * 65536 + b[at + 2] * 256 + b[at + 3]) as u32
}

/// The `t`-th word of a block's message schedule.
pub open spec fn schedule(block: Seq<u8>, t: nat) -> u32
    decreases t,
{
    if t < 16 {
        word_at(block, 4 * t as int)
    } else {
        rotl(
            schedule(block, (t - 3) as nat) ^ schedule(block, (t - 8) as nat) ^ schedule(
                block,
                (t - 14) as nat,
            ) ^ schedule(block, (t - 16) as nat),
            1,
        )
    }
}

/// The function of the `t`-th round.
pub open spec fn round_function(t: nat, b: u32, c: u32, d: u32) -> u32 {
    if t < 20 {
        (b & c) | (!b & d)
    } else if t < 40 {
        b ^ c ^ d
    } else if t < 60 {
        (b & c) | (b & d) | (c & d)
    } else {
        b ^ c ^ d
    }
}

/// The constant of the `t`-th round.
pub open spec fn round_constant(t: nat) -> u32 {
    if t < 20 {
        0x5A827999
    } else if t < 40 {
        0x6ED9EBA1
    } else if t < 60 {
        0x8F1BBCDC
    } else {
        0xCA62C1D6
    }
}

/// What the `t`-th round makes of the words.
pub open spec fn round(s: Words, t: nat, word: u32) -> Words {
    Words {
        a: rotl(s.a, 5).wrapping_add(round_function(t, s.b, s.c, s.d)).wrapping_add(
            s.e,
        ).wrapping_add(round_constant(t)).wrapping_add(word),
        b: s.a,
        c: rotl(s.b, 30),
        d: s.c,
        e: s.d,
    }
}

/// What the first `t` rounds make of the words.
pub open spec fn rounds(s: Words, block: Seq<u8>, t: nat) -> Words
    decreases t,
{
    if t == 0 {
        s
    } else {
        round(
            rounds(s, block, (t - 1) as nat),
            (t - 1) as nat,
            schedule(block, (t - 1) as nat),
        )
    }
}

/// What one block of 64 bytes makes of the words.
pub open spec fn compress(s: Words, block: Seq<u8>) -> Words {
    let r = rounds(s, block, 80);
    Words {
        a: s.a.wrapping_add(r.a),
        b: s.b.wrapping_add(r.b),
        c: s.c.wrapping_add(r.c),
        d: s.d.wrapping_add(r.d),
        e: s.e.wrapping_add(r.e),
    }
}

/// What the whole blocks of a message make of the words.
pub open spec fn compress_all(s: Words, message: Seq<u8>) -> Words
    decreases message.len(),
{
    if message.len() < 64 {
        s
    } else {
        compress_all(compress(s, message.take(64)), message.skip(64))
    }
}

/// Four bytes of a word, the most significant first.
pub open spec fn word_bytes(w: u32) -> Seq<u8> {
    seq![
        (w / 16777216) as u8,
        (w / 65536 % 256) as u8,
        (w / 256 % 256) as u8,
        (w % 256) as u8,
    ]
}

/// Eight bytes of a number, the most significant first.
pub open spec fn length_bytes(n: u64) -> Seq<u8> {
    word_bytes((n / 4294967296) as u32) + word_bytes((n % 4294967296) as u32)
}

/// How many zero bytes stand between the 0x80 behind `len` bytes and the
/// length that ends the last block.
pub open spec fn zero_count(len: nat) -> nat {
    if len % 64 < 56 {
        (55 - len % 64) as nat
    } else {
        (119 - len % 64) as nat
    }
}

/// A message padded to whole blocks: 0x80, zeros, and its length in bits.
pub open spec fn padded_spec(data: Seq<u8>) -> Seq<u8> {
    data + seq![0x80u8] + Seq::new(zero_count(data.len()), |i: int| 0u8) + length_bytes(
        ((data.len() as u64) as nat * 8 % 0x1_0000_0000_0000_0000) as u64,
    )
}

/// The bytes of the five words.
pub open spec fn words_bytes(s: Words) -> Seq<u8> {
    word_bytes(s.a) + word_bytes(s.b) + word_bytes(s.c) + word_bytes(s.d) + word_bytes(s.e)
}

/// The SHA-1 digest of a message.
pub open spec fn digest_spec(data: Seq<u8>) -> Seq<u8> {
    words_bytes(compress_all(initial(), padded_spec(data)))
}

/// Padding fills the last block.
pub proof fn a_padded_message_is_whole_blocks(data: Seq<u8>)
    ensures
        padded_spec(data).len() % 64 == 0,
{
}

/// A SHA-1 hash under way.
pub struct Sha1 {
    h: [u32; 5],
}

impl View for Sha1 {
    type V = Words;

    closed spec fn view(&self) -> Words {
        Words { a: self.h@[0], b: self.h@[1], c: self.h@[2], d: self.h@[3], e: self.h@[4] }
    }
}

impl Sha1 {
    pub fn new() -> (s: Sha1)
        ensures
            s@ == initial(),
    {
        Sha1 { h: [0x67452301, 0xEFCDAB89, 0x98BADCFE, 0x10325476, 0xC3D2E1F0] }
    }

    /// Take in the whole blocks of a message.
    pub fn update(&mut self, data: &[u8])
        ensures
            final(self)@ == compress_all(old(self)@, data@),
    {
        let mut i: usize = 0;
        proof {
            assert(data@.skip(0) =~= data@);
        }
        while data.len() - i >= 64
            invariant
                i <= data@.len(),
                compress_all(old(self)@, data@) == compress_all(self@, data@.skip(i as int)),
            decreases data@.len() - i,
        {
            let block = slice_subrange(data, i, i + 64);
            proof {
                assert(block@ =~= data@.skip(i as int).take(64));
                assert(data@.skip(i as int).skip(64) =~= data@.skip(i + 64));
            }
            self.process_chunk(block);
            i += 64;
        }
    }

    /// Take in one block of 64 bytes.
    pub fn process_chunk(&mut self, chunk: &[u8])
        requires
            chunk@.len() == 64,
        ensures
            final(self)@ == compress(old(self)@, chunk@),
    {
        let mut w: [u32; 80] = [0u32; 80];
        let mut i: usize = 0;
        while i < 16
            invariant
                i <= 16,
                chunk@.len() == 64,
                forall|j: int| 0 <= j < i ==> w@[j] == schedule(chunk@, j as nat),
            decreases 16 - i,
        {
            w[i] = chunk[4 * i] as u32 * 16777216 + chunk[4 * i + 1] as u32 * 65536 + chunk[4 * i
                + 2] as u32 * 256 + chunk[4 * i + 3] as u32;
            i += 1;
        }
        while i < 80
            invariant
                16 <= i <= 80,
                forall|j: int| 0 <= j < i ==> w@[j] == schedule(chunk@, j as nat),
            decreases 80 - i,
        {
            let x: u32 = w[i - 3] ^ w[i - 8] ^ w[i - 14] ^ w[i - 16];
            w[i] = rotate_left(x, 1);
            i += 1;
        }
        let ghost start = self@;
        let mut a: u32 = self.h[0];
        let mut b: u32 = self.h[1];
        let mut c: u32 = self.h[2];
        let mut d: u32 = self.h[3];
        let mut e: u32 = self.h[4];
        let mut t: usize = 0;
        while t < 80
            invariant
                t <= 80,
                forall|j: int| 0 <= j < 80 ==> w@[j] == schedule(chunk@, j as nat),
                rounds(start, chunk@, t as nat) == (Words { a, b, c, d, e }),
            decreases 80 - t,
        {
            let f: u32 = if t < 20 {
                (b & c) | (!b & d)
            } else if t < 40 {
                b ^ c ^ d
            } else if t < 60 {
                (b & c) | (b & d) | (c & d)
            } else {
                b ^ c ^ d
            };
            let k: u32 = if t < 20 {
                0x5A827999
            } else if t < 40 {
                0x6ED9EBA1
            } else if t < 60 {
                0x8F1BBCDC
            } else {
                0xCA62C1D6
            };
            let temp: u32 = rotate_left(a, 5).wrapping_add(f).wrapping_add(e).wrapping_add(
                k,
            ).wrapping_add(w[t]);
            e = d;
            d = c;
            c = rotate_left(b, 30);
            b = a;
            a = temp;
            t += 1;
        }
        self.h = [
            self.h[0].wrapping_add(a),
            self.h[1].wrapping_add(b),
            self.h[2].wrapping_add(c),
            self.h[3].wrapping_add(d),
            self.h[4].wrapping_add(e),
        ];
    }
}

fn push_word(out: &mut Vec<u8>, w: u32)
    ensures
        final(out)@ == old(out)@ + word_bytes(w),
{
    out.push((w / 16777216) as u8);
    out.push((w / 65536 % 256) as u8);
    out.push((w / 256 % 256) as u8);
    out.push((w % 256) as u8);
    proof {
        assert(out@ =~= old(out)@ + word_bytes(w));
    }
}

/// The SHA-1 digest of a message: twenty bytes.
pub fn sha1_digest(data: &[u8]) -> (r: [u8; 20])
    ensures
        r@ == digest_spec(data@),
{
    let mut padded: Vec<u8> = Vec::new();
    padded.extend_from_slice(data);
    proof {
        assert(padded@ =~= data@);
    }
    padded.push(0x80);
    let left: usize = data.len() % 64;
    let zeros: usize = if left < 56 {
        55 - left
    } else {
        119 - left
    };
    let mut i: usize = 0;
    let ghost base = padded@;
    while i < zeros
        invariant
            i <= zeros,
            padded@ == base + Seq::new(i as nat, |j: int| 0u8),
        decreases zeros - i,
    {
        padded.push(0);
        proof {
            assert(padded@ =~= base + Seq::new((i + 1) as nat, |j: int| 0u8));
        }
        i += 1;
    }
    let bits: u64 = (data.len() as u64).wrapping_mul(8);
    push_word(&mut padded, (bits / 4294967296) as u32);
    push_word(&mut padded, (bits % 4294967296) as u32);
    proof {
        assert(padded@ =~= padded_spec(data@));
    }
    let mut sha1 = Sha1::new();
    sha1.update(padded.as_slice());
    let mut out: Vec<u8> = Vec::new();
    push_word(&mut out, sha1.h[0]);
    push_word(&mut out, sha1.h[1]);
    push_word(&mut out, sha1.h[2]);
    push_word(&mut out, sha1.h[3]);
    push_word(&mut out, sha1.h[4]);
    proof {
        assert(out@ =~= digest_spec(data@));
    }
    let mut r: [u8; 20] = [0u8; 20];
    let mut k: usize = 0;
    while k < 20
        invariant
            k <= 20,
            out@.len() == 20,
            forall|j: int| 0 <= j < k ==> r@[j] == out@[j],
        decreases 20 - k,
    {
        r[k] = out[k];
        k += 1;
    }
    proof {
        assert(r@ =~= out@);
    }
    r
}

/// A message that is padded is the message, 0x80, no more zeros than fill
/// the last block, and its length in bits in eight bytes, the most
/// significant first.
pub proof fn a_message_is_padded_with_its_length(data: Seq<u8>)
    requires
        data.len() < 0x1000_0000_0000_0000,
    ensures
        ({
            let p = padded_spec(data);
            let n = data.len() as int;
            let m = p.len() as int;
            &&& m % 64 == 0
            &&& n + 9 <= m < n + 73
            &&& p.take(n) == data
            &&& p[n] == 0x80
            &&& forall|i: int| n < i < m - 8 ==> #[trigger] p[i] == 0
            &&& n * 8 == p[m - 1] + 256 * (p[m - 2] + 256 * (p[m - 3] + 256 * (p[m - 4] + 256 * (p[m
                - 5] + 256 * (p[m - 6] + 256 * (p[m - 7] + 256 * p[m - 8]))))))
        }),
{
    let p = padded_spec(data);
    let n = data.len();
    let bits = (n as u64 as nat * 8 % 0x1_0000_0000_0000_0000) as u64;
    assert(bits == n * 8);
    assert(p.take(n as int) =~= data);
    let tail = length_bytes(bits);
    let high = (bits / 4294967296) as u32;
    let low = (bits % 4294967296) as u32;
    assert(bits == high * 4294967296 + low);
    let m = p.len() as int;
    assert(p[m - 8] == tail[0] && p[m - 7] == tail[1] && p[m - 6] == tail[2] && p[m - 5] == tail[3]);
    assert(p[m - 4] == tail[4] && p[m - 3] == tail[5] && p[m - 2] == tail[6] && p[m - 1] == tail[7]);
    lemma_word(high);
    lemma_word(low);
}

proof fn lemma_word(w: u32)
    ensures
        ({
            let b = word_bytes(w);
            w == b[3] + 256 * (b[2] + 256 * (b[1] + 256 * b[0]))
        }),
{
}

/// Hashing goes block by block: whole blocks and then more are the blocks,
/// and then the rest from where they led.
pub proof fn hashing_goes_block_by_block(s: Words, a: Seq<u8>, b: Seq<u8>)
    requires
        a.len() % 64 == 0,
    ensures
        compress_all(s, a + b) == compress_all(compress_all(s, a), b),
        a.len() == 64 ==> compress_all(s, a) == compress(s, a),
    decreases a.len(),
{
    if a.len() == 0 {
        assert(a + b =~= b);
    } else {
        let first = a.take(64);
        let rest = a.skip(64);
        assert((a + b).take(64) =~= first);
        assert((a + b).skip(64) =~= rest + b);
        hashing_goes_block_by_block(compress(s, first), rest, b);
        if a.len() == 64 {
            assert(first =~= a);
            assert(rest.len() == 0);
        }
    }
}

} // verus!
