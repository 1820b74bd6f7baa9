//! Channel codecs over in-memory sequences of binary symbols.
//!
//! Every codec is a pure transform: `encode` adds redundancy to a message,
//! `decode` attempts to invert it. The repetition codec inflates each symbol
//! into `n` copies and votes on each received block; the Hamming(7,4)-style
//! block codec protects groups of four symbols with three parity symbols and
//! corrects any single flipped symbol per codeword; a composition chains
//! codecs into a pipeline.

use vstd::prelude::*;
use vstd::arithmetic::div_mod::lemma_fundamental_div_mod;
use vstd::arithmetic::div_mod::lemma_fundamental_div_mod_converse;
use vstd::slice::slice_to_vec;

verus! {

/// The capability every codec offers: transform a symbol sequence forward
/// (`encode`) and attempt to invert that transform (`decode`). Both are total
/// over well-formed codecs and return an empty output for an empty input.
pub trait Encoder<Input, Output> {
    /// The codec's configuration invariant, established at construction.
    spec fn wf(&self) -> bool;

    /// What `encode` returns, as a function on mathematical sequences.
    spec fn spec_encode(&self, m: Seq<Input>) -> Seq<Output>;

    /// What `decode` returns, as a function on mathematical sequences.
    spec fn spec_decode(&self, m: Seq<Output>) -> Seq<Input>;

    fn encode(&self, message: &[Input]) -> (r: Vec<Output>)
        requires
            self.wf(),
        ensures
            r@ == self.spec_encode(message@),
    ;

    fn decode(&self, message: &[Output]) -> (r: Vec<Input>)
        requires
            self.wf(),
        ensures
            r@ == self.spec_decode(message@),
    ;
}

/// Each input symbol repeated `n` times, in input order.
pub open spec fn repeat_encode(n: nat, m: Seq<bool>) -> Seq<bool> {
    Seq::new(n * m.len(), |u: int| m[u / n as int])
}

/// How many symbols of `s` are `true`.
pub open spec fn count_true(s: Seq<bool>) -> nat
    decreases s.len(),
{
    if s.len() == 0 {
        0
    } else {
        count_true(s.drop_last()) + (if s.last() {
            1nat
        } else {
            0nat
        })
    }
}

/// Vote on each consecutive block of `n` received symbols: the decoded symbol
/// is `true` exactly when at least `n / 2` (integer division) of the block is
/// `true`. With `n` odd this threshold is one below a strict majority, so a
/// block with exactly `(n - 1) / 2` true symbols decodes to `true`; that is
/// the codec's documented policy, kept as is. An input whose length is not a
/// multiple of `n` decodes to the empty sequence rather than an error.
pub open spec fn repeat_decode(n: nat, m: Seq<bool>) -> Seq<bool> {
    if n == 0 || m.len() % n != 0 {
        Seq::empty()
    } else {
        Seq::new(
            m.len() / n,
            |k: int| count_true(m.subrange(k * n as int, k * n as int + n)) >= n / 2,
        )
    }
}

/// The repetition codec: a fixed odd inflation factor `n`, set once at
/// construction and never changed.
#[derive(Debug, Clone)]
pub struct RN {
    n: u8,
}

impl RN {
    /// The inflation factor as a mathematical integer.
    pub closed spec fn spec_n(&self) -> nat {
        self.n as nat
    }

    /// Builds a repetition codec. Succeeds exactly when `n` is odd (an odd
    /// `u8` is necessarily at least 1); an even `n` yields a construction
    /// error and no instance.
    pub fn make_rn(n: u8) -> (r: Result<RN, ()>)
        ensures
            r is Ok <==> n % 2 == 1,
            r matches Ok(c) ==> c.spec_n() == n as nat && c.wf(),
    {
        if n % 2 == 0 {
            Err(())
        } else {
            Ok(RN { n })
        }
    }
}

impl Encoder<bool, bool> for RN {
    /// Well formed when the factor is odd (hence at least 1).
    open spec fn wf(&self) -> bool {
        self.spec_n() % 2 == 1
    }

    open spec fn spec_encode(&self, m: Seq<bool>) -> Seq<bool> {
        repeat_encode(self.spec_n(), m)
    }

    open spec fn spec_decode(&self, m: Seq<bool>) -> Seq<bool> {
        repeat_decode(self.spec_n(), m)
    }

    fn encode(&self, message: &[bool]) -> (r: Vec<bool>)
    {
        let nn = self.n as usize;
        let ghost n = self.spec_n() as int;
        let mut result: Vec<bool> = Vec::new();
        let mut i: usize = 0;
        while i < message.len()
            invariant
                i <= message.len(),
                nn == n,
                1 <= n,
                result@.len() == i * n,
                forall|u: int| 0 <= u < result@.len() ==> result@[u] == message@[u / n],
            decreases message.len() - i,
        {
            let c = message[i];
            let mut j: usize = 0;
            while j < nn
                invariant
                    i < message.len(),
                    j <= nn,
                    nn == n,
                    1 <= n,
                    c == message@[i as int],
                    result@.len() == i * n + j,
                    forall|u: int| 0 <= u < result@.len() ==> result@[u] == message@[u / n],
                decreases nn - j,
            {
                proof {
                    lemma_fundamental_div_mod_converse((i as int) * n + j, n, i as int, j as int);
                }
                result.push(c);
                j += 1;
            }
            proof {
                assert((i as int + 1) * n == i as int * n + n) by (nonlinear_arith);
            }
            i += 1;
        }
        proof {
            assert(message@.len() * n == n * message@.len()) by (nonlinear_arith);
            assert(result@ =~= repeat_encode(self.spec_n(), message@));
        }
        result
    }

    fn decode(&self, message: &[bool]) -> (r: Vec<bool>)
    {
        let nn = self.n as usize;
        let ghost n = self.spec_n() as int;
        let mut result: Vec<bool> = Vec::new();
        if message.len() % nn != 0 {
            proof {
                assert(repeat_decode(self.spec_n(), message@) =~= Seq::<bool>::empty());
            }
            return result;
        }
        let dl = message.len() / nn;
        proof {
            lemma_fundamental_div_mod(message.len() as int, n);
            assert(n * (dl as int) == (dl as int) * n) by (nonlinear_arith);
        }
        let mut k: usize = 0;
        while k < dl
            invariant
                k <= dl,
                nn == n,
                n == self.spec_n(),
                1 <= n,
                dl == message.len() as int / n,
                message.len() as int % n == 0,
                message.len() as int == dl * n,
                result@.len() == k,
                forall|t: int| 0 <= t < k ==> result@[t] == (count_true(
                    message@.subrange(t * n, t * n + n),
                ) >= self.spec_n() / 2),
            decreases dl - k,
        {
            proof {
                assert(k as int * n + n <= dl * n) by (nonlinear_arith)
                    requires
                        (k as int) < dl,
                        1 <= n;
            }
            let base = k * nn;
            let mut count: usize = 0;
            let mut j: usize = 0;
            while j < nn
                invariant
                    j <= nn,
                    nn == n,
                    n == self.spec_n(),
                    1 <= n,
                    base == k as int * n,
                    base + nn <= message.len(),
                    count <= j,
                    count == count_true(message@.subrange(base as int, base as int + j)),
                decreases nn - j,
            {
                proof {
                    assert(message@.subrange(base as int, base as int + j + 1).drop_last() =~= message@.subrange(
                        base as int,
                        base as int + j,
                    ));
                }
                if message[base + j] {
                    count += 1;
                }
                j += 1;
            }
            result.push(count >= nn / 2);
            k += 1;
        }
        proof {
            assert(result@ =~= repeat_decode(self.spec_n(), message@));
        }
        result
    }
}

/// Exclusive or of two symbols.
pub open spec fn xor(a: bool, b: bool) -> bool {
    a != b
}

/// Exclusive or of three symbols.
pub open spec fn xor3(a: bool, b: bool, c: bool) -> bool {
    xor(xor(a, b), c)
}

/// How many 4-symbol data groups the block encoder forms: every symbol lands
/// in a group, so a trailing fragment still opens one final group.
pub open spec fn h74_groups(len: nat) -> nat {
    (len + 3) / 4
}

/// Data symbol `i` of the message, with positions past the end read as
/// `false`: a trailing group with fewer than four symbols is zero-padded,
/// both in the emitted data symbols and in the parity computation.
pub open spec fn h74_data(m: Seq<bool>, i: int) -> bool {
    if 0 <= i < m.len() {
        m[i]
    } else {
        false
    }
}

/// Parity symbol `j` of group `g`: the exclusive or of the group's data
/// symbols at the three positions other than `j`.
pub open spec fn h74_parity(m: Seq<bool>, g: int, j: int) -> bool {
    if j == 0 {
        xor3(h74_data(m, 4 * g + 1), h74_data(m, 4 * g + 2), h74_data(m, 4 * g + 3))
    } else if j == 1 {
        xor3(h74_data(m, 4 * g + 0), h74_data(m, 4 * g + 2), h74_data(m, 4 * g + 3))
    } else {
        xor3(h74_data(m, 4 * g + 0), h74_data(m, 4 * g + 1), h74_data(m, 4 * g + 3))
    }
}

/// Symbol `u` of the encoded stream: codeword `u / 7` carries its group's
/// four data symbols (offsets 0 to 3) followed by three parity symbols.
pub open spec fn h74_encode_bit(m: Seq<bool>, u: int) -> bool {
    if u % 7 < 4 {
        h74_data(m, 4 * (u / 7) + u % 7)
    } else {
        h74_parity(m, u / 7, u % 7 - 4)
    }
}

/// One codeword of seven symbols per data group.
pub open spec fn h74_encode(m: Seq<bool>) -> Seq<bool> {
    Seq::new(7 * h74_groups(m.len()), |u: int| h74_encode_bit(m, u))
}

/// Syndrome bit `j` of received codeword `g`: the received parity symbol `j`
/// xored with parity `j` recomputed from the received data symbols.
pub open spec fn h74_syndrome_bit(m: Seq<bool>, g: int, j: int) -> bool {
    if j == 0 {
        xor(m[7 * g + 4], xor3(m[7 * g + 1], m[7 * g + 2], m[7 * g + 3]))
    } else if j == 1 {
        xor(m[7 * g + 5], xor3(m[7 * g + 0], m[7 * g + 2], m[7 * g + 3]))
    } else {
        xor(m[7 * g + 6], xor3(m[7 * g + 0], m[7 * g + 1], m[7 * g + 3]))
    }
}

/// The syndrome of received codeword `g`, with bit `j` weighted `2^j`.
pub open spec fn h74_syndrome(m: Seq<bool>, g: int) -> int {
    (if h74_syndrome_bit(m, g, 0) {
        1int
    } else {
        0int
    }) + (if h74_syndrome_bit(m, g, 1) {
        2int
    } else {
        0int
    }) + (if h74_syndrome_bit(m, g, 2) {
        4int
    } else {
        0int
    })
}

/// The data position a syndrome corrects, or -1 when it names none: a zero
/// syndrome means a clean codeword, and syndromes 1, 2 and 4 point at a
/// parity symbol, which carries no data. Error patterns of two or more
/// flipped symbols are outside the code's capability and may be silently
/// mis-corrected; that limitation is intrinsic and kept as is.
pub open spec fn h74_correction(s: int) -> int {
    if s == 3 {
        2
    } else if s == 5 {
        1
    } else if s == 6 {
        0
    } else if s == 7 {
        3
    } else {
        -1
    }
}

/// Decoded symbol `t`: data symbol `t % 4` of received codeword `t / 4`,
/// flipped exactly when the codeword's syndrome names that position.
pub open spec fn h74_decode_bit(m: Seq<bool>, t: int) -> bool {
    xor(m[7 * (t / 4) + t % 4], h74_correction(h74_syndrome(m, t / 4)) == t % 4)
}

/// Four data symbols recovered from each whole received codeword; trailing
/// symbols beyond the last whole 7-symbol codeword are dropped.
pub open spec fn h74_decode(m: Seq<bool>) -> Seq<bool> {
    Seq::new(4 * (m.len() / 7), |t: int| h74_decode_bit(m, t))
}

/// The Hamming(7,4)-style block codec: stateless, every instance behaves
/// identically. The codeword layout keeps the four data symbols first, which
/// is a reordering of the classic presentation with identical properties.
#[derive(Clone, Debug)]
pub struct Hamming74 {}

impl Hamming74 {
    /// Builds a block codec; construction never fails.
    pub fn make_hamming74() -> (r: Hamming74)
        ensures
            r.wf(),
    {
        Hamming74 {  }
    }
}

impl Encoder<bool, bool> for Hamming74 {
    /// Stateless, so nothing can be malformed.
    open spec fn wf(&self) -> bool {
        true
    }

    open spec fn spec_encode(&self, m: Seq<bool>) -> Seq<bool> {
        h74_encode(m)
    }

    open spec fn spec_decode(&self, m: Seq<bool>) -> Seq<bool> {
        h74_decode(m)
    }

    fn encode(&self, message: &[bool]) -> (r: Vec<bool>)
    {
        let len = message.len();
        let groups = len / 4 + (if len % 4 != 0 {
            1
        } else {
            0
        });
        proof {
            lemma_fundamental_div_mod(len as int, 4);
            if len % 4 == 0 {
                lemma_fundamental_div_mod_converse(len as int + 3, 4, len as int / 4, 3);
            } else {
                lemma_fundamental_div_mod_converse(
                    len as int + 3,
                    4,
                    len as int / 4 + 1,
                    (len % 4) as int - 1,
                );
            }
        }
        let mut result: Vec<bool> = Vec::new();
        let mut g: usize = 0;
        while g < groups
            invariant
                g <= groups,
                len == message.len(),
                groups == h74_groups(message@.len()),
                len as int % 4 == 0 ==> 4 * (groups as int) == len,
                len as int % 4 != 0 ==> 4 * (groups as int) == len + 4 - len as int % 4,
                result@.len() == 7 * g,
                forall|u: int| 0 <= u < result@.len() ==> result@[u] == h74_encode_bit(message@, u),
            decreases groups - g,
        {
            let base = 4 * g;
            let rem = len - base;
            let d0 = if rem > 0 {
                message[base]
            } else {
                false
            };
            let d1 = if rem > 1 {
                message[base + 1]
            } else {
                false
            };
            let d2 = if rem > 2 {
                message[base + 2]
            } else {
                false
            };
            let d3 = if rem > 3 {
                message[base + 3]
            } else {
                false
            };
            let p0 = (d1 != d2) != d3;
            let p1 = (d0 != d2) != d3;
            let p2 = (d0 != d1) != d3;
            result.push(d0);
            result.push(d1);
            result.push(d2);
            result.push(d3);
            result.push(p0);
            result.push(p1);
            result.push(p2);
            proof {
                assert forall|u: int| 7 * (g as int) <= u < 7 * (g as int) + 7 implies result@[u]
                    == h74_encode_bit(message@, u) by {
                    lemma_fundamental_div_mod_converse(u, 7, g as int, u - 7 * (g as int));
                }
            }
            g += 1;
        }
        proof {
            assert(result@ =~= h74_encode(message@));
        }
        result
    }

    fn decode(&self, message: &[bool]) -> (r: Vec<bool>)
    {
        let len = message.len();
        let words = len / 7;
        proof {
            lemma_fundamental_div_mod(len as int, 7);
        }
        let mut result: Vec<bool> = Vec::new();
        let mut w: usize = 0;
        while w < words
            invariant
                w <= words,
                len == message.len(),
                words == len as int / 7,
                7 * (words as int) <= len,
                result@.len() == 4 * w,
                forall|t: int| 0 <= t < result@.len() ==> result@[t] == h74_decode_bit(message@, t),
            decreases words - w,
        {
            let base = 7 * w;
            let r0 = message[base];
            let r1 = message[base + 1];
            let r2 = message[base + 2];
            let r3 = message[base + 3];
            let r4 = message[base + 4];
            let r5 = message[base + 5];
            let r6 = message[base + 6];
            let s0 = r4 != ((r1 != r2) != r3);
            let s1 = r5 != ((r0 != r2) != r3);
            let s2 = r6 != ((r0 != r1) != r3);
            let s: u8 = (if s0 {
                1
            } else {
                0
            }) + (if s1 {
                2
            } else {
                0
            }) + (if s2 {
                4
            } else {
                0
            });
            result.push(r0 != (s == 6));
            result.push(r1 != (s == 5));
            result.push(r2 != (s == 3));
            result.push(r3 != (s == 7));
            proof {
                assert(s as int == h74_syndrome(message@, w as int));
                assert forall|t: int| 4 * (w as int) <= t < 4 * (w as int) + 4 implies result@[t]
                    == h74_decode_bit(message@, t) by {
                    lemma_fundamental_div_mod_converse(t, 4, w as int, t - 4 * (w as int));
                }
            }
            w += 1;
        }
        proof {
            assert(result@ =~= h74_decode(message@));
        }
        result
    }
}

/// One concrete codec, as a member of a pipeline. The combinator treats all
/// members uniformly through the codec contract.
pub enum Codec {
    Rn(RN),
    Hamming(Hamming74),
}

impl Encoder<bool, bool> for Codec {
    open spec fn wf(&self) -> bool {
        match self {
            Codec::Rn(c) => c.wf(),
            Codec::Hamming(c) => c.wf(),
        }
    }

    open spec fn spec_encode(&self, m: Seq<bool>) -> Seq<bool> {
        match self {
            Codec::Rn(c) => c.spec_encode(m),
            Codec::Hamming(c) => c.spec_encode(m),
        }
    }

    open spec fn spec_decode(&self, m: Seq<bool>) -> Seq<bool> {
        match self {
            Codec::Rn(c) => c.spec_decode(m),
            Codec::Hamming(c) => c.spec_decode(m),
        }
    }

    fn encode(&self, message: &[bool]) -> (r: Vec<bool>)
    {
        match self {
            Codec::Rn(c) => c.encode(message),
            Codec::Hamming(c) => c.encode(message),
        }
    }

    fn decode(&self, message: &[bool]) -> (r: Vec<bool>)
    {
        match self {
            Codec::Rn(c) => c.decode(message),
            Codec::Hamming(c) => c.decode(message),
        }
    }
}

/// What a pipeline's encode returns: each stage's encode, applied in list
/// order, each stage consuming the previous stage's output.
pub open spec fn pipeline_encode(cs: Seq<Codec>, m: Seq<bool>) -> Seq<bool>
    decreases cs.len(),
{
    if cs.len() == 0 {
        m
    } else {
        pipeline_encode(cs.drop_first(), cs[0].spec_encode(m))
    }
}

/// What a pipeline's decode returns: each stage's decode, applied in reverse
/// list order, inverting the pipeline stage by stage.
pub open spec fn pipeline_decode(cs: Seq<Codec>, m: Seq<bool>) -> Seq<bool>
    decreases cs.len(),
{
    if cs.len() == 0 {
        m
    } else {
        pipeline_decode(cs.drop_last(), cs.last().spec_decode(m))
    }
}

/// An ordered pipeline of codecs, itself a codec. The stage order is
/// significant and caller-controlled; nothing is deduplicated or reordered.
pub struct Composition {
    components: Vec<Codec>,
}

impl Composition {
    /// The pipeline's stages, in application order.
    pub closed spec fn spec_components(&self) -> Seq<Codec> {
        self.components@
    }

    /// Builds an empty pipeline, whose encode and decode both leave a
    /// message unchanged.
    pub fn make_composition() -> (r: Composition)
        ensures
            r.spec_components() == Seq::<Codec>::empty(),
            r.wf(),
    {
        Composition { components: Vec::new() }
    }

    /// Appends a codec at the end of the pipeline. Appending after encoded
    /// messages are already in flight changes what every later call computes,
    /// so construction and use are intended as separate phases; that is the
    /// caller's responsibility and is not checked at run time.
    pub fn add_encoder(&mut self, new: Codec)
        ensures
            final(self).spec_components() == old(self).spec_components().push(new),
    {
        self.components.push(new);
    }
}

impl Encoder<bool, bool> for Composition {
    /// Well formed when every stage is.
    open spec fn wf(&self) -> bool {
        forall|i: int|
            0 <= i < self.spec_components().len() ==> self.spec_components()[i].wf()
    }

    open spec fn spec_encode(&self, m: Seq<bool>) -> Seq<bool> {
        pipeline_encode(self.spec_components(), m)
    }

    open spec fn spec_decode(&self, m: Seq<bool>) -> Seq<bool> {
        pipeline_decode(self.spec_components(), m)
    }

    fn encode(&self, message: &[bool]) -> (r: Vec<bool>)
    {
        let ghost cs = self.spec_components();
        let mut result: Vec<bool> = slice_to_vec(message);
        let mut k: usize = 0;
        proof {
            assert(cs.skip(0) =~= cs);
        }
        while k < self.components.len()
            invariant
                k <= self.components.len(),
                self.wf(),
                cs == self.spec_components(),
                pipeline_encode(cs, message@) == pipeline_encode(cs.skip(k as int), result@),
            decreases self.components.len() - k,
        {
            proof {
                assert(cs.skip(k as int).drop_first() =~= cs.skip(k as int + 1));
            }
            let stage_result = self.components[k].encode(result.as_slice());
            result = stage_result;
            k += 1;
        }
        proof {
            assert(cs.skip(cs.len() as int) =~= Seq::<Codec>::empty());
        }
        result
    }

    fn decode(&self, message: &[bool]) -> (r: Vec<bool>)
    {
        let ghost cs = self.spec_components();
        let mut result: Vec<bool> = slice_to_vec(message);
        let mut k: usize = self.components.len();
        proof {
            assert(cs.take(cs.len() as int) =~= cs);
        }
        while k > 0
            invariant
                k <= self.components.len(),
                self.wf(),
                cs == self.spec_components(),
                pipeline_decode(cs, message@) == pipeline_decode(cs.take(k as int), result@),
            decreases k,
        {
            k -= 1;
            proof {
                assert(cs.take(k as int + 1).drop_last() =~= cs.take(k as int));
            }
            let stage_result = self.components[k].decode(result.as_slice());
            result = stage_result;
        }
        proof {
            assert(cs.take(0) =~= Seq::<Codec>::empty());
        }
        result
    }
}

/// When every symbol of `s` equals `c`, the count of true symbols is all or
/// nothing.
pub proof fn lemma_count_true_uniform(s: Seq<bool>, c: bool)
    requires
        forall|i: int| 0 <= i < s.len() ==> s[i] == c,
    ensures
        count_true(s) == if c {
            s.len()
        } else {
            0nat
        },
    decreases s.len(),
{
    if s.len() > 0 {
        lemma_count_true_uniform(s.drop_last(), c);
    }
}

/// Law: the repetition codec maps an empty message to an empty encoding and
/// an empty received sequence to an empty decoding, whatever the factor.
pub proof fn lemma_repetition_empty(n: nat)
    ensures
        repeat_encode(n, Seq::<bool>::empty()) == Seq::<bool>::empty(),
        repeat_decode(n, Seq::<bool>::empty()) == Seq::<bool>::empty(),
{
    assert(repeat_encode(n, Seq::<bool>::empty()) =~= Seq::<bool>::empty());
    assert(repeat_decode(n, Seq::<bool>::empty()) =~= Seq::<bool>::empty());
}

/// Law: the block codec maps an empty sequence to an empty sequence, in both
/// directions.
pub proof fn lemma_hamming74_empty()
    ensures
        h74_encode(Seq::<bool>::empty()) == Seq::<bool>::empty(),
        h74_decode(Seq::<bool>::empty()) == Seq::<bool>::empty(),
{
    assert(h74_encode(Seq::<bool>::empty()) =~= Seq::<bool>::empty());
    assert(h74_decode(Seq::<bool>::empty()) =~= Seq::<bool>::empty());
}

/// Law: a pipeline maps an empty sequence to an empty sequence, in both
/// directions, whatever its stages.
pub proof fn lemma_pipeline_empty(cs: Seq<Codec>)
    ensures
        pipeline_encode(cs, Seq::<bool>::empty()) == Seq::<bool>::empty(),
        pipeline_decode(cs, Seq::<bool>::empty()) == Seq::<bool>::empty(),
    decreases cs.len(),
{
    if cs.len() > 0 {
        match cs[0] {
            Codec::Rn(c) => lemma_repetition_empty(c.spec_n()),
            Codec::Hamming(_) => lemma_hamming74_empty(),
        }
        lemma_pipeline_empty(cs.drop_first());
        match cs.last() {
            Codec::Rn(c) => lemma_repetition_empty(c.spec_n()),
            Codec::Hamming(_) => lemma_hamming74_empty(),
        }
        lemma_pipeline_empty(cs.drop_last());
    }
}

/// Law: on a clean channel the repetition codec is lossless: decoding an
/// encoding returns the original message, for every odd factor and every
/// finite message — except factor 1, where the vote threshold `n / 2` is 0
/// and every received block decodes to `true`, so only all-true messages
/// survive the round trip; those messages are the one restriction here.
pub proof fn lemma_repetition_round_trip(n: nat, m: Seq<bool>)
    requires
        n % 2 == 1,
        n == 1 ==> (forall|i: int| 0 <= i < m.len() ==> m[i]),
    ensures
        repeat_decode(n, repeat_encode(n, m)) == m,
{
    let e = repeat_encode(n, m);
    let ni = n as int;
    assert(m.len() * ni == ni * m.len()) by (nonlinear_arith);
    lemma_fundamental_div_mod_converse(ni * m.len(), ni, m.len() as int, 0);
    let d = repeat_decode(n, e);
    assert forall|k: int| 0 <= k < m.len() implies d[k] == m[k] by {
        assert((k + 1) * ni == k * ni + ni && (k + 1) * ni <= m.len() * ni) by (nonlinear_arith)
            requires
                0 <= k,
                k + 1 <= m.len(),
                0 < ni;
        let block = e.subrange(k * ni, k * ni + ni);
        assert forall|u: int| 0 <= u < block.len() implies block[u] == m[k] by {
            lemma_fundamental_div_mod_converse(k * ni + u, ni, k, u);
        };
        lemma_count_true_uniform(block, m[k]);
        lemma_fundamental_div_mod(ni, 2);
    };
    assert(d =~= m);
}

/// Law: on a clean channel the block codec is lossless on every message
/// whose length is a multiple of 4: decoding an encoding returns the
/// original message.
pub proof fn lemma_hamming74_round_trip(m: Seq<bool>)
    requires
        m.len() % 4 == 0,
    ensures
        h74_decode(h74_encode(m)) == m,
{
    let e = h74_encode(m);
    let q = m.len() as int / 4;
    lemma_fundamental_div_mod(m.len() as int, 4);
    lemma_fundamental_div_mod_converse(m.len() as int + 3, 4, q, 3);
    lemma_fundamental_div_mod_converse(7 * q, 7, q, 0);
    let d = h74_decode(e);
    assert forall|t: int| 0 <= t < m.len() implies d[t] == m[t] by {
        lemma_fundamental_div_mod(t, 4);
        let g = t / 4;
        lemma_fundamental_div_mod_converse(7 * g + 0, 7, g, 0);
        lemma_fundamental_div_mod_converse(7 * g + 1, 7, g, 1);
        lemma_fundamental_div_mod_converse(7 * g + 2, 7, g, 2);
        lemma_fundamental_div_mod_converse(7 * g + 3, 7, g, 3);
        lemma_fundamental_div_mod_converse(7 * g + 4, 7, g, 4);
        lemma_fundamental_div_mod_converse(7 * g + 5, 7, g, 5);
        lemma_fundamental_div_mod_converse(7 * g + 6, 7, g, 6);
        assert(h74_syndrome(e, g) == 0);
    };
    assert(d =~= m);
}

/// Law: the block codec corrects any single flipped symbol. For every
/// codeword (the encoding of four data symbols) and every flip of one of its
/// seven positions, decoding the corrupted codeword recovers the original
/// four data symbols.
pub proof fn lemma_hamming74_single_error(m: Seq<bool>, p: int)
    requires
        m.len() == 4,
        0 <= p < 7,
    ensures
        h74_decode(h74_encode(m).update(p, !h74_encode(m)[p])) == m,
{
    let e = h74_encode(m);
    let c = e.update(p, !e[p]);
    let d = h74_decode(c);
    assert forall|t: int| 0 <= t < 4 implies d[t] == m[t] by {
        lemma_fundamental_div_mod_converse(t, 4, 0, t);
        lemma_fundamental_div_mod_converse(0, 7, 0, 0);
        lemma_fundamental_div_mod_converse(1, 7, 0, 1);
        lemma_fundamental_div_mod_converse(2, 7, 0, 2);
        lemma_fundamental_div_mod_converse(3, 7, 0, 3);
        lemma_fundamental_div_mod_converse(4, 7, 0, 4);
        lemma_fundamental_div_mod_converse(5, 7, 0, 5);
        lemma_fundamental_div_mod_converse(6, 7, 0, 6);
    };
    assert(d =~= m);
}

/// Law: a pipeline of the triple-repetition codec followed by the block
/// codec decodes its own encoding back to the original message, for every
/// message whose length is a multiple of 4 (so that the intermediate stream
/// aligns with the block codec's groups). The decode path applies each
/// stage's inverse in reverse order, which is what makes this hold.
pub proof fn lemma_composition_round_trip(r: RN, h: Hamming74, m: Seq<bool>)
    requires
        r.spec_n() == 3,
        m.len() % 4 == 0,
    ensures
        pipeline_decode(
            seq![Codec::Rn(r), Codec::Hamming(h)],
            pipeline_encode(seq![Codec::Rn(r), Codec::Hamming(h)], m),
        ) == m,
{
    let cs = seq![Codec::Rn(r), Codec::Hamming(h)];
    let e1 = repeat_encode(3, m);
    let e2 = h74_encode(e1);
    reveal_with_fuel(pipeline_encode, 3);
    reveal_with_fuel(pipeline_decode, 3);
    assert(cs.drop_first() =~= seq![Codec::Hamming(h)]);
    assert(seq![Codec::Hamming(h)].drop_first() =~= Seq::<Codec>::empty());
    assert(pipeline_encode(cs, m) == e2);
    let q = m.len() as int / 4;
    lemma_fundamental_div_mod(m.len() as int, 4);
    lemma_fundamental_div_mod_converse(3 * m.len() as int, 4, 3 * q, 0);
    lemma_hamming74_round_trip(e1);
    lemma_repetition_round_trip(3, m);
    assert(cs.drop_last() =~= seq![Codec::Rn(r)]);
    assert(seq![Codec::Rn(r)].drop_last() =~= Seq::<Codec>::empty());
    assert(pipeline_decode(cs, e2) == m);
}

} // verus!
