//! The ciphers: sequences of operations on single bytes, some of which depend on where in the
//! stream the byte is.

use vstd::prelude::*;
use vstd::slice::slice_subrange;
use vstd::string::*;
use vstd::utf8::*;

verus! {

/// One operation on a byte.
#[derive(Debug, Clone, Copy, PartialEq, Eq, Structural)]
pub enum CipherOp {
    /// The order of the bits is reversed.
    Rev,
    /// The byte is combined with this one by exclusive or.
    Xor(u8),
    /// The byte is combined with its position by exclusive or.
    XorPos,
    /// This number is added.
    Add(u8),
    /// The position is added.
    AddPos,
}

/// A cipher: its operations in the order in which a byte is encrypted.
pub type CipherSpec = Vec<CipherOp>;

/// The byte that ends the description of a cipher.
pub const END: u8 = 0x0;

/// The byte that stands for [`CipherOp::Rev`].
pub const REV: u8 = 0x1;

/// The byte that begins [`CipherOp::Xor`].
pub const XOR: u8 = 0x2;

/// The byte that stands for [`CipherOp::XorPos`].
pub const XOR_POS: u8 = 0x3;

/// The byte that begins [`CipherOp::Add`].
pub const ADD: u8 = 0x4;

/// The byte that stands for [`CipherOp::AddPos`].
pub const ADD_POS: u8 = 0x5;

/// The bytes that describe an operation.
pub open spec fn op_bytes(op: CipherOp) -> Seq<u8> {
    match op {
        CipherOp::Rev => seq![REV],
        CipherOp::Xor(n) => seq![XOR, n],
        CipherOp::XorPos => seq![XOR_POS],
        CipherOp::Add(n) => seq![ADD, n],
        CipherOp::AddPos => seq![ADD_POS],
    }
}

/// The bytes that describe a sequence of operations.
pub open spec fn ops_bytes(ops: Seq<CipherOp>) -> Seq<u8>
    decreases ops.len(),
{
    if ops.len() == 0 {
        Seq::empty()
    } else {
        op_bytes(ops.first()) + ops_bytes(ops.drop_first())
    }
}

/// Whether `input` begins with the operation `op`, and `rest` follows it.
pub open spec fn begins_with_op(input: Seq<u8>, op: CipherOp, rest: Seq<u8>) -> bool {
    input == op_bytes(op) + rest
}

/// Whether `input` begins with the description of the cipher `ops`, and `rest` follows it.
pub open spec fn begins_with_spec(input: Seq<u8>, ops: Seq<CipherOp>, rest: Seq<u8>) -> bool {
    input == ops_bytes(ops) + seq![END] + rest
}

/// Reads the operation at the beginning of `input`, and gives what follows it.
pub fn parse_cipher_op<'a>(input: &'a [u8]) -> (out: Option<(&'a [u8], CipherOp)>)
    ensures
        out matches Some((rest, op)) ==> begins_with_op(input@, op, rest@),
        out is None ==> forall|op: CipherOp, rest: Seq<u8>| !begins_with_op(input@, op, rest),
{
    let one_byte = input.len() >= 1;
    let two_bytes = input.len() >= 2;
    let out = if one_byte && input[0] == REV {
        Some((slice_subrange(input, 1, input.len()), CipherOp::Rev))
    } else if two_bytes && input[0] == XOR {
        Some((slice_subrange(input, 2, input.len()), CipherOp::Xor(input[1])))
    } else if one_byte && input[0] == XOR_POS {
        Some((slice_subrange(input, 1, input.len()), CipherOp::XorPos))
    } else if two_bytes && input[0] == ADD {
        Some((slice_subrange(input, 2, input.len()), CipherOp::Add(input[1])))
    } else if one_byte && input[0] == ADD_POS {
        Some((slice_subrange(input, 1, input.len()), CipherOp::AddPos))
    } else {
        None
    };
    proof {
        if let Some((rest, op)) = out {
            assert(input@ == op_bytes(op) + rest@);
        } else {
            assert forall|op: CipherOp, rest: Seq<u8>| !begins_with_op(input@, op, rest) by {
                assert((op_bytes(op) + rest)[0] == op_bytes(op)[0]);
                assert((op_bytes(op) + rest).len() == op_bytes(op).len() + rest.len());
            }
        }
    }
    out
}

/// Reads the description of a cipher at the beginning of `input`, and gives what follows it.
pub fn parse_cipher_spec<'a>(input: &'a [u8]) -> (out: Option<(&'a [u8], CipherSpec)>)
    ensures
        out matches Some((rest, ops)) ==> begins_with_spec(input@, ops@, rest@),
        out is None ==> forall|ops: Seq<CipherOp>, rest: Seq<u8>|
            !begins_with_spec(input@, ops, rest),
{
    let mut ops: Vec<CipherOp> = Vec::new();
    let mut remaining: &'a [u8] = input;
    assert(input@ == ops_bytes(ops@) + remaining@);
    loop
        invariant
            input@ == ops_bytes(ops@) + remaining@,
        decreases remaining.len(),
    {
        match parse_cipher_op(remaining) {
            Some((rest, op)) => {
                let ghost before = ops@;
                ops.push(op);
                proof {
                    lemma_ops_bytes_push(before, op);
                    assert(input@ == ops_bytes(before) + op_bytes(op) + rest@);
                }
                remaining = rest;
            },
            None => {
                if remaining.len() > 0 && remaining[0] == END {
                    let rest = slice_subrange(remaining, 1, remaining.len());
                    assert(remaining@ == seq![END] + rest@);
                    assert(input@ == ops_bytes(ops@) + seq![END] + rest@);
                    return Some((rest, ops));
                }
                proof {
                    assert forall|all: Seq<CipherOp>, rest: Seq<u8>|
                        !begins_with_spec(input@, all, rest) by {
                        lemma_no_description(ops@, remaining@, all, rest);
                    }
                }
                return None;
            },
        }
    }
}

/// A description of a cipher has one meaning: no bytes can be read in two ways.
pub proof fn law_descriptions_are_unambiguous(
    input: Seq<u8>,
    a: Seq<CipherOp>,
    rest_a: Seq<u8>,
    b: Seq<CipherOp>,
    rest_b: Seq<u8>,
)
    requires
        begins_with_spec(input, a, rest_a),
        begins_with_spec(input, b, rest_b),
    ensures
        a == b,
        rest_a == rest_b,
    decreases a.len(),
{
    if a.len() == 0 || b.len() == 0 {
        assert(input[0] == if a.len() == 0 {
            END
        } else {
            op_bytes(a.first())[0]
        });
        assert(input[0] == if b.len() == 0 {
            END
        } else {
            op_bytes(b.first())[0]
        });
        assert(a == b);
        assert(input.skip(1) == rest_a);
        assert(input.skip(1) == rest_b);
    } else {
        let tail_a = ops_bytes(a.drop_first()) + seq![END] + rest_a;
        let tail_b = ops_bytes(b.drop_first()) + seq![END] + rest_b;
        assert(input == op_bytes(a.first()) + tail_a);
        assert(input == op_bytes(b.first()) + tail_b);
        lemma_same_op(a.first(), tail_a, b.first(), tail_b);
        law_descriptions_are_unambiguous(
            tail_a,
            a.drop_first(),
            rest_a,
            b.drop_first(),
            rest_b,
        );
        assert(a == seq![a.first()] + a.drop_first());
        assert(b == seq![b.first()] + b.drop_first());
    }
}

proof fn lemma_same_op(a: CipherOp, rest_a: Seq<u8>, b: CipherOp, rest_b: Seq<u8>)
    requires
        op_bytes(a) + rest_a == op_bytes(b) + rest_b,
    ensures
        a == b,
        rest_a == rest_b,
{
    let input = op_bytes(a) + rest_a;
    assert(input[0] == op_bytes(a)[0]);
    assert(input[0] == op_bytes(b)[0]);
    assert(op_bytes(a).len() == op_bytes(b).len());
    if op_bytes(a).len() == 2 {
        assert(input[1] == op_bytes(a)[1]);
        assert(input[1] == op_bytes(b)[1]);
    }
    let n = op_bytes(a).len() as int;
    assert(input.skip(n) == rest_a);
    assert(input.skip(n) == rest_b);
}

proof fn lemma_ops_bytes_push(ops: Seq<CipherOp>, op: CipherOp)
    ensures
        ops_bytes(ops.push(op)) == ops_bytes(ops) + op_bytes(op),
    decreases ops.len(),
{
    if ops.len() == 0 {
        assert(ops.push(op).drop_first() == Seq::<CipherOp>::empty());
        assert(ops.push(op).first() == op);
        assert(ops_bytes(Seq::<CipherOp>::empty()) == Seq::<u8>::empty());
    } else {
        assert(ops.push(op).drop_first() == ops.drop_first().push(op));
        assert(ops.push(op).first() == ops.first());
        lemma_ops_bytes_push(ops.drop_first(), op);
    }
}

proof fn lemma_no_description(
    ops: Seq<CipherOp>,
    remaining: Seq<u8>,
    all: Seq<CipherOp>,
    rest: Seq<u8>,
)
    requires
        forall|op: CipherOp, rest: Seq<u8>| !begins_with_op(remaining, op, rest),
        remaining.len() == 0 || remaining[0] != END,
    ensures
        !begins_with_spec(ops_bytes(ops) + remaining, all, rest),
    decreases ops.len(),
{
    let input = ops_bytes(ops) + remaining;
    if !begins_with_spec(input, all, rest) {
    } else if all.len() == 0 {
        assert(input[0] == END);
        if ops.len() > 0 {
            assert(input[0] == op_bytes(ops.first())[0]);
        } else {
            assert(input == remaining);
        }
    } else {
        let tail = ops_bytes(all.drop_first()) + seq![END] + rest;
        assert(input == op_bytes(all.first()) + tail);
        if ops.len() == 0 {
            assert(input == remaining);
            assert(begins_with_op(remaining, all.first(), tail));
        } else {
            let after = ops_bytes(ops.drop_first()) + remaining;
            assert(input == op_bytes(ops.first()) + after);
            lemma_same_op(ops.first(), after, all.first(), tail);
            lemma_no_description(ops.drop_first(), remaining, all.drop_first(), rest);
        }
    }
}

/// `b` with its bits in the opposite order.
pub open spec fn reversed_bits(b: u8) -> u8 {
    ((b & 0x01) << 7) | ((b & 0x02) << 5) | ((b & 0x04) << 3) | ((b & 0x08) << 1) | ((b & 0x10)
        >> 1) | ((b & 0x20) >> 3) | ((b & 0x40) >> 5) | ((b & 0x80) >> 7)
}

/// Each bit of a reversed byte is the bit of the byte that is as far from the other end.
pub proof fn law_bits_are_reversed(b: u8, i: u8)
    requires
        i < 8,
    ensures
        (reversed_bits(b) >> i) & 1 == (b >> ((7 - i) as u8)) & 1,
{
    assert((reversed_bits(b) >> i) & 1 == (b >> ((7 - i) as u8)) & 1) by (bit_vector)
        requires
            i < 8,
    ;
}

/// `b` with its bits in the opposite order.
fn reverse_bits(b: u8) -> (out: u8)
    ensures
        out == reversed_bits(b),
{
    ((b & 0x01) << 7) | ((b & 0x02) << 5) | ((b & 0x04) << 3) | ((b & 0x08) << 1) | ((b & 0x10)
        >> 1) | ((b & 0x20) >> 3) | ((b & 0x40) >> 5) | ((b & 0x80) >> 7)
}

/// A byte at position `pos`, encrypted by one operation.
pub open spec fn encrypted_by(op: CipherOp, pos: u8, b: u8) -> u8 {
    match op {
        CipherOp::Rev => reversed_bits(b),
        CipherOp::Xor(n) => b ^ n,
        CipherOp::XorPos => b ^ pos,
        CipherOp::Add(n) => ((b + n) % 0x100) as u8,
        CipherOp::AddPos => ((b + pos) % 0x100) as u8,
    }
}

/// A byte at position `pos`, decrypted by one operation.
pub open spec fn decrypted_by(op: CipherOp, pos: u8, b: u8) -> u8 {
    match op {
        CipherOp::Rev => reversed_bits(b),
        CipherOp::Xor(n) => b ^ n,
        CipherOp::XorPos => b ^ pos,
        CipherOp::Add(n) => ((b - n) % 0x100) as u8,
        CipherOp::AddPos => ((b - pos) % 0x100) as u8,
    }
}

/// A byte at position `pos`, encrypted: the operations are done from the first to the last.
pub open spec fn encrypted(ops: Seq<CipherOp>, pos: u8, b: u8) -> u8
    decreases ops.len(),
{
    if ops.len() == 0 {
        b
    } else {
        encrypted_by(ops.last(), pos, encrypted(ops.drop_last(), pos, b))
    }
}

/// A byte at position `pos`, decrypted: the operations are undone from the last to the first.
pub open spec fn decrypted(ops: Seq<CipherOp>, pos: u8, b: u8) -> u8
    decreases ops.len(),
{
    if ops.len() == 0 {
        b
    } else {
        decrypted(ops.drop_last(), pos, decrypted_by(ops.last(), pos, b))
    }
}

/// The position that is `i` bytes after `pos`. Positions begin again after the last one.
pub open spec fn advanced(pos: u8, i: int) -> u8 {
    ((pos + i) % 0x100) as u8
}

/// Going on twice is going on once.
pub proof fn lemma_advanced(pos: u8, i: int, j: int)
    ensures
        advanced(advanced(pos, i), j) == advanced(pos, i + j),
{
}

/// A piece of a stream that begins at position `pos`, encrypted.
pub open spec fn encrypted_stream(ops: Seq<CipherOp>, pos: u8, bytes: Seq<u8>) -> Seq<u8> {
    bytes.map(|i: int, b: u8| encrypted(ops, advanced(pos, i), b))
}

/// A piece of a stream that begins at position `pos`, decrypted.
pub open spec fn decrypted_stream(ops: Seq<CipherOp>, pos: u8, bytes: Seq<u8>) -> Seq<u8> {
    bytes.map(|i: int, b: u8| decrypted(ops, advanced(pos, i), b))
}

proof fn lemma_op_is_undone(op: CipherOp, pos: u8, b: u8)
    ensures
        decrypted_by(op, pos, encrypted_by(op, pos, b)) == b,
        encrypted_by(op, pos, decrypted_by(op, pos, b)) == b,
{
    match op {
        CipherOp::Rev => {
            assert(reversed_bits(reversed_bits(b)) == b) by (bit_vector);
        },
        CipherOp::Xor(n) => {
            assert((b ^ n) ^ n == b) by (bit_vector);
        },
        CipherOp::XorPos => {
            assert((b ^ pos) ^ pos == b) by (bit_vector);
        },
        CipherOp::Add(n) => {
            lemma_sum_is_undone(b, n);
        },
        CipherOp::AddPos => {
            lemma_sum_is_undone(b, pos);
        },
    }
}

proof fn lemma_sum_is_undone(b: u8, n: u8)
    ensures
        (((b + n) % 0x100) - n) % 0x100 == b,
        (((b - n) % 0x100) + n) % 0x100 == b,
{
}

/// Decryption undoes encryption, and encryption undoes decryption.
pub proof fn law_decryption_undoes_encryption(ops: Seq<CipherOp>, pos: u8, b: u8)
    ensures
        decrypted(ops, pos, encrypted(ops, pos, b)) == b,
        encrypted(ops, pos, decrypted(ops, pos, b)) == b,
    decreases ops.len(),
{
    if ops.len() > 0 {
        lemma_op_is_undone(ops.last(), pos, encrypted(ops.drop_last(), pos, b));
        lemma_op_is_undone(ops.last(), pos, b);
        law_decryption_undoes_encryption(ops.drop_last(), pos, b);
        law_decryption_undoes_encryption(
            ops.drop_last(),
            pos,
            decrypted_by(ops.last(), pos, b),
        );
    }
}

/// A stream that is encrypted from some position on and decrypted from the same position on comes
/// out as it went in.
pub proof fn law_stream_is_read_back(ops: Seq<CipherOp>, pos: u8, bytes: Seq<u8>)
    ensures
        decrypted_stream(ops, pos, encrypted_stream(ops, pos, bytes)) == bytes,
        encrypted_stream(ops, pos, decrypted_stream(ops, pos, bytes)) == bytes,
{
    assert forall|i: int| 0 <= i < bytes.len() implies decrypted(
        ops,
        advanced(pos, i),
        encrypted(ops, advanced(pos, i), #[trigger] bytes[i]),
    ) == bytes[i] && encrypted(ops, advanced(pos, i), decrypted(ops, advanced(pos, i), bytes[i]))
        == bytes[i] by {
        law_decryption_undoes_encryption(ops, advanced(pos, i), bytes[i]);
    }
}

/// A stream may be encrypted and decrypted piece by piece.
pub proof fn law_pieces_of_a_stream(ops: Seq<CipherOp>, pos: u8, a: Seq<u8>, b: Seq<u8>)
    ensures
        encrypted_stream(ops, pos, a + b) == encrypted_stream(ops, pos, a) + encrypted_stream(
            ops,
            advanced(pos, a.len() as int),
            b,
        ),
        decrypted_stream(ops, pos, a + b) == decrypted_stream(ops, pos, a) + decrypted_stream(
            ops,
            advanced(pos, a.len() as int),
            b,
        ),
{
    let e = encrypted_stream(ops, pos, a) + encrypted_stream(ops, advanced(pos, a.len() as int), b);
    let d = decrypted_stream(ops, pos, a) + decrypted_stream(ops, advanced(pos, a.len() as int), b);
    assert forall|i: int| 0 <= i < (a + b).len() implies encrypted_stream(ops, pos, a + b)[i]
        == e[i] && decrypted_stream(ops, pos, a + b)[i] == d[i] by {
        if i >= a.len() {
            lemma_advanced(pos, a.len() as int, i - a.len());
        }
    }
}

/// Which way a byte goes.
#[derive(Debug, Clone, Copy, PartialEq, Eq, Structural)]
pub enum CipherDirection {
    /// To the client.
    Encrypt,
    /// From the client.
    Decrypt,
}

/// A cipher, and where each of the two streams is.
#[derive(Debug)]
pub struct Encoder<'a> {
    pub spec: &'a CipherSpec,
    pub incoming_pos: u8,
    pub outgoing_pos: u8,
}

impl<'a> Encoder<'a> {
    /// Both streams are at their beginning.
    pub fn new(spec: &'a CipherSpec) -> (out: Self)
        ensures
            out == (Encoder { spec, incoming_pos: 0, outgoing_pos: 0 }),
    {
        Encoder { spec, incoming_pos: 0, outgoing_pos: 0 }
    }

    /// Encrypts or decrypts the next byte of a stream.
    pub fn apply_cipher(&mut self, byte: u8, direction: CipherDirection) -> (out: u8)
        ensures
            direction is Encrypt ==> out == encrypted(old(self).spec@, old(self).outgoing_pos, byte)
                && *final(self) == (Encoder {
                outgoing_pos: advanced(old(self).outgoing_pos, 1),
                ..*old(self)
            }),
            direction is Decrypt ==> out == decrypted(old(self).spec@, old(self).incoming_pos, byte)
                && *final(self) == (Encoder {
                incoming_pos: advanced(old(self).incoming_pos, 1),
                ..*old(self)
            }),
    {
        match direction {
            CipherDirection::Encrypt => {
                let pos: u8 = self.outgoing_pos;
                let out: u8 = encrypt(self.spec, pos, byte);
                self.outgoing_pos = pos.wrapping_add(1);
                out
            },
            CipherDirection::Decrypt => {
                let pos: u8 = self.incoming_pos;
                let out: u8 = decrypt(self.spec, pos, byte);
                self.incoming_pos = pos.wrapping_add(1);
                out
            },
        }
    }
}

/// Encrypts one byte by one operation.
fn encrypt_by(op: CipherOp, pos: u8, byte: u8) -> (out: u8)
    ensures
        out == encrypted_by(op, pos, byte),
{
    match op {
        CipherOp::Rev => reverse_bits(byte),
        CipherOp::Xor(n) => byte ^ n,
        CipherOp::XorPos => byte ^ pos,
        CipherOp::Add(n) => byte.wrapping_add(n),
        CipherOp::AddPos => byte.wrapping_add(pos),
    }
}

/// Decrypts one byte by one operation.
fn decrypt_by(op: CipherOp, pos: u8, byte: u8) -> (out: u8)
    ensures
        out == decrypted_by(op, pos, byte),
{
    match op {
        CipherOp::Rev => reverse_bits(byte),
        CipherOp::Xor(n) => byte ^ n,
        CipherOp::XorPos => byte ^ pos,
        CipherOp::Add(n) => byte.wrapping_sub(n),
        CipherOp::AddPos => byte.wrapping_sub(pos),
    }
}

/// Encrypts one byte.
fn encrypt(spec: &CipherSpec, pos: u8, byte: u8) -> (out: u8)
    ensures
        out == encrypted(spec@, pos, byte),
{
    let mut out: u8 = byte;
    let mut i: usize = 0;
    while i < spec.len()
        invariant
            i <= spec.len(),
            out == encrypted(spec@.take(i as int), pos, byte),
        decreases spec.len() - i,
    {
        assert(spec@.take(i + 1).drop_last() == spec@.take(i as int));
        out = encrypt_by(spec[i], pos, out);
        i = i + 1;
    }
    assert(spec@.take(spec@.len() as int) == spec@);
    out
}

/// Decrypts one byte.
fn decrypt(spec: &CipherSpec, pos: u8, byte: u8) -> (out: u8)
    ensures
        out == decrypted(spec@, pos, byte),
{
    let mut out: u8 = byte;
    let mut i: usize = spec.len();
    assert(spec@.take(spec@.len() as int) == spec@);
    while i > 0
        invariant
            i <= spec.len(),
            decrypted(spec@.take(i as int), pos, out) == decrypted(spec@, pos, byte),
        decreases i,
    {
        assert(spec@.take(i as int).drop_last() == spec@.take(i - 1));
        i = i - 1;
        out = decrypt_by(spec[i], pos, out);
    }
    out
}

/// The request with which a cipher is tried.
pub open spec fn test_message() -> Seq<u8> {
    encode_utf8("10x toy car,15x dog on a string,4x inflatable motorcycle"@)
}

/// Whether a cipher leaves the request with which it is tried as it is.
pub open spec fn leaves_test_message(ops: Seq<CipherOp>) -> bool {
    encrypted_stream(ops, 0, test_message()) == test_message()
}

/// Whether a cipher disguises nothing, as far as a trial request shows.
pub fn is_noop_cipher(spec: &CipherSpec) -> (out: bool)
    ensures
        out == leaves_test_message(spec@),
{
    let mut encoder = Encoder::new(spec);
    let message = "10x toy car,15x dog on a string,4x inflatable motorcycle".as_bytes();
    let ghost disguised = encrypted_stream(spec@, 0, message@);
    let mut i: usize = 0;
    while i < message.len()
        invariant
            i <= message.len(),
            message@ == test_message(),
            disguised == encrypted_stream(spec@, 0, message@),
            encoder == (Encoder { spec, incoming_pos: 0, outgoing_pos: advanced(0, i as int) }),
            forall|k: int| 0 <= k < i ==> disguised[k] == #[trigger] message@[k],
        decreases message.len() - i,
    {
        let byte: u8 = message[i];
        if encoder.apply_cipher(byte, CipherDirection::Encrypt) != byte {
            assert(disguised[i as int] != message@[i as int]);
            return false;
        }
        i = i + 1;
    }
    assert(disguised == message@);
    true
}

/// A cipher that changes no byte anywhere is found out.
pub proof fn law_ciphers_without_effect_are_found(ops: Seq<CipherOp>)
    requires
        forall|pos: u8, b: u8| #[trigger] encrypted(ops, pos, b) == b,
    ensures
        leaves_test_message(ops),
{
    assert(encrypted_stream(ops, 0, test_message()) == test_message());
}

/// Operations done after one another are one operation: what a cipher does is what its parts do.
pub proof fn law_ciphers_in_sequence(a: Seq<CipherOp>, b: Seq<CipherOp>, pos: u8, byte: u8)
    ensures
        encrypted(a + b, pos, byte) == encrypted(b, pos, encrypted(a, pos, byte)),
    decreases b.len(),
{
    if b.len() == 0 {
        assert(a + b == a);
    } else {
        assert((a + b).drop_last() == a + b.drop_last());
        law_ciphers_in_sequence(a, b.drop_last(), pos, byte);
    }
}

/// Ciphers whose operations cancel out have no effect: none at all, a reversal or an exclusive or
/// done twice, and numbers whose sum is nothing or comes round.
pub proof fn law_operations_that_cancel_out(pos: u8, n: u8, m: u8, byte: u8)
    ensures
        encrypted(Seq::empty(), pos, byte) == byte,
        encrypted(seq![CipherOp::Rev, CipherOp::Rev], pos, byte) == byte,
        encrypted(seq![CipherOp::Xor(n), CipherOp::Xor(n)], pos, byte) == byte,
        encrypted(seq![CipherOp::XorPos, CipherOp::XorPos], pos, byte) == byte,
        encrypted(seq![CipherOp::Xor(0)], pos, byte) == byte,
        (n + m) % 0x100 == 0 ==> encrypted(seq![CipherOp::Add(n), CipherOp::Add(m)], pos, byte)
            == byte,
{
    lemma_two_operations(CipherOp::Rev, CipherOp::Rev, pos, byte);
    lemma_two_operations(CipherOp::Xor(n), CipherOp::Xor(n), pos, byte);
    lemma_two_operations(CipherOp::XorPos, CipherOp::XorPos, pos, byte);
    lemma_two_operations(CipherOp::Add(n), CipherOp::Add(m), pos, byte);
    lemma_op_is_undone(CipherOp::Rev, pos, byte);
    lemma_op_is_undone(CipherOp::Xor(n), pos, byte);
    lemma_op_is_undone(CipherOp::XorPos, pos, byte);
    if (n + m) % 0x100 == 0 {
        lemma_sum_comes_round(byte, n, m);
    }
    assert(byte ^ 0 == byte) by (bit_vector);
    let nothing = seq![CipherOp::Xor(0)];
    assert(nothing.drop_last() == Seq::<CipherOp>::empty());
    assert(encrypted(nothing.drop_last(), pos, byte) == byte);
}

proof fn lemma_two_operations(a: CipherOp, b: CipherOp, pos: u8, byte: u8)
    ensures
        encrypted(seq![a, b], pos, byte) == encrypted_by(b, pos, encrypted_by(a, pos, byte)),
{
    assert(seq![a, b].drop_last() == seq![a]);
    assert(seq![a].drop_last() == Seq::<CipherOp>::empty());
    reveal_with_fuel(encrypted, 3);
}

proof fn lemma_sum_comes_round(b: u8, n: u8, m: u8)
    requires
        (n + m) % 0x100 == 0,
    ensures
        (((b + n) % 0x100) + m) % 0x100 == b,
{
}

/// Each operation has its byte, and behind it the number that it takes. The bytes of operations
/// follow one another, and a zero ends them.
pub proof fn law_operations_are_described(a: Seq<CipherOp>, b: Seq<CipherOp>, n: u8, rest: Seq<u8>)
    ensures
        ops_bytes(Seq::empty()) == Seq::<u8>::empty(),
        ops_bytes(seq![CipherOp::Rev]) == seq![1u8],
        ops_bytes(seq![CipherOp::Xor(n)]) == seq![2u8, n],
        ops_bytes(seq![CipherOp::XorPos]) == seq![3u8],
        ops_bytes(seq![CipherOp::Add(n)]) == seq![4u8, n],
        ops_bytes(seq![CipherOp::AddPos]) == seq![5u8],
        ops_bytes(a + b) == ops_bytes(a) + ops_bytes(b),
        begins_with_spec(ops_bytes(a) + seq![0u8] + rest, a, rest),
    decreases a.len(),
{
    assert(ops_bytes(Seq::<CipherOp>::empty()) == Seq::<u8>::empty());
    lemma_one_operation(CipherOp::Rev);
    lemma_one_operation(CipherOp::Xor(n));
    lemma_one_operation(CipherOp::XorPos);
    lemma_one_operation(CipherOp::Add(n));
    lemma_one_operation(CipherOp::AddPos);
    if a.len() == 0 {
        assert(a + b == b);
        assert(ops_bytes(a) + ops_bytes(b) == ops_bytes(b));
    } else {
        law_operations_are_described(a.drop_first(), b, n, rest);
        assert((a + b).drop_first() == a.drop_first() + b);
        assert((a + b).first() == a.first());
        assert(ops_bytes(a + b) == op_bytes(a.first()) + (ops_bytes(a.drop_first()) + ops_bytes(b)));
    }
}

proof fn lemma_one_operation(op: CipherOp)
    ensures
        ops_bytes(seq![op]) == op_bytes(op),
{
    assert(seq![op].drop_first() == Seq::<CipherOp>::empty());
    assert(ops_bytes(Seq::<CipherOp>::empty()) == Seq::<u8>::empty());
    assert(op_bytes(op) + Seq::<u8>::empty() == op_bytes(op));
}

/// What begins with no operation is not taken for one: the first byte is none of theirs, or the number
/// that it takes is missing.
pub proof fn law_other_bytes_are_no_operation(input: Seq<u8>, op: CipherOp, rest: Seq<u8>)
    requires
        begins_with_op(input, op, rest),
    ensures
        input.len() > 0,
        1 <= input[0] <= 5,
        input[0] == 2 || input[0] == 4 ==> input.len() > 1 && rest == input.skip(2),
        input[0] == 1 || input[0] == 3 || input[0] == 5 ==> rest == input.skip(1),
        input[0] == 1 <==> op is Rev,
        input[0] == 2 <==> op is Xor,
        input[0] == 3 <==> op is XorPos,
        input[0] == 4 <==> op is Add,
        input[0] == 5 <==> op is AddPos,
        op matches CipherOp::Xor(n) ==> n == input[1],
        op matches CipherOp::Add(n) ==> n == input[1],
{
    assert(input[0] == op_bytes(op)[0]);
    if op_bytes(op).len() == 2 {
        assert(input[1] == op_bytes(op)[1]);
    }
    assert(input.skip(op_bytes(op).len() as int) == rest);
}

/// What the operations do to a byte, bit by bit: a reversal puts each bit as far from the other end,
/// and an exclusive or turns over the bits that are set in the number or in the position.
pub proof fn law_bits_are_disguised(pos: u8, n: u8, b: u8, i: u8)
    requires
        i < 8,
    ensures
        (encrypted(seq![CipherOp::Rev], pos, b) >> i) & 1 == (b >> ((7 - i) as u8)) & 1,
        (encrypted(seq![CipherOp::Xor(n)], pos, b) >> i) & 1 == 1 <==> (b >> i) & 1 != (n >> i) & 1,
        (encrypted(seq![CipherOp::XorPos], pos, b) >> i) & 1 == 1 <==> (b >> i) & 1 != (pos >> i)
            & 1,
        encrypted(seq![CipherOp::Xor(n)], pos, 0) == n,
        encrypted(seq![CipherOp::XorPos], pos, 0) == pos,
{
    lemma_one_step(CipherOp::Rev, pos, b);
    lemma_one_step(CipherOp::Xor(n), pos, b);
    lemma_one_step(CipherOp::XorPos, pos, b);
    lemma_one_step(CipherOp::XorPos, pos, 0);
    lemma_one_step(CipherOp::Xor(n), pos, 0);
    law_bits_are_reversed(b, i);
    lemma_xor_bit(b, n, i);
    lemma_xor_bit(b, pos, i);
    assert(0u8 ^ pos == pos) by (bit_vector);
    assert(0u8 ^ n == n) by (bit_vector);
}

proof fn lemma_xor_bit(a: u8, b: u8, i: u8)
    requires
        i < 8,
    ensures
        ((a ^ b) >> i) & 1 == 1 <==> (a >> i) & 1 != (b >> i) & 1,
{
    assert(((a ^ b) >> i) & 1 == 1 <==> (a >> i) & 1 != (b >> i) & 1) by (bit_vector)
        requires
            i < 8,
    ;
}

proof fn lemma_one_step(op: CipherOp, pos: u8, b: u8)
    ensures
        encrypted(seq![op], pos, b) == encrypted_by(op, pos, b),
{
    assert(seq![op].drop_last() == Seq::<CipherOp>::empty());
    assert(encrypted(Seq::<CipherOp>::empty(), pos, b) == b);
}

/// An addition gives the sum of a byte and the number or the position, less 256 where that is more than
/// a byte holds.
pub proof fn law_sums_are_disguised(pos: u8, n: u8, b: u8)
    ensures
        encrypted(seq![CipherOp::Add(n)], pos, b) == b + n || encrypted(
            seq![CipherOp::Add(n)],
            pos,
            b,
        ) == b + n - 256,
        encrypted(seq![CipherOp::AddPos], pos, b) == b + pos || encrypted(
            seq![CipherOp::AddPos],
            pos,
            b,
        ) == b + pos - 256,
{
    lemma_one_step(CipherOp::Add(n), pos, b);
    lemma_one_step(CipherOp::AddPos, pos, b);
}

/// Each byte of a stream is disguised at its own position: the first one at the position where the
/// stream is, each later one at the next, and after 255 they begin at zero again.
pub proof fn law_positions_count_on(ops: Seq<CipherOp>, pos: u8, bytes: Seq<u8>, i: int)
    requires
        0 <= i < bytes.len(),
    ensures
        encrypted_stream(ops, pos, bytes).len() == bytes.len(),
        decrypted_stream(ops, pos, bytes).len() == bytes.len(),
        (pos + i - advanced(pos, i)) % 256 == 0,
        encrypted_stream(ops, pos, bytes)[i] == encrypted(ops, advanced(pos, i), bytes[i]),
        decrypted_stream(ops, pos, bytes)[i] == decrypted(ops, advanced(pos, i), bytes[i]),
{
}

/// A cipher is found to have no effect exactly if it leaves every byte of a certain request as it
/// is, each at its place.
pub proof fn law_ciphers_are_tried_on_a_request(ops: Seq<CipherOp>)
    ensures
        test_message() == seq![
            49u8, 48u8, 120u8, 32u8, 116u8, 111u8, 121u8, 32u8, 99u8, 97u8, 114u8, 44u8,
            49u8, 53u8, 120u8, 32u8, 100u8, 111u8, 103u8, 32u8, 111u8, 110u8, 32u8, 97u8,
            32u8, 115u8, 116u8, 114u8, 105u8, 110u8, 103u8, 44u8, 52u8, 120u8, 32u8, 105u8,
            110u8, 102u8, 108u8, 97u8, 116u8, 97u8, 98u8, 108u8, 101u8, 32u8, 109u8, 111u8,
            116u8, 111u8, 114u8, 99u8, 121u8, 99u8, 108u8, 101u8,
        ],
        leaves_test_message(ops) <==> forall|i: int|
            0 <= i < 56 ==> encrypted(ops, i as u8, #[trigger] test_message()[i]) == test_message()[i],
{
    reveal_strlit("10x toy car,15x dog on a string,4x inflatable motorcycle");
    lemma_trial();
    let m = test_message();
    assert(m =~= seq![
            49u8, 48u8, 120u8, 32u8, 116u8, 111u8, 121u8, 32u8, 99u8, 97u8, 114u8, 44u8,
            49u8, 53u8, 120u8, 32u8, 100u8, 111u8, 103u8, 32u8, 111u8, 110u8, 32u8, 97u8,
            32u8, 115u8, 116u8, 114u8, 105u8, 110u8, 103u8, 44u8, 52u8, 120u8, 32u8, 105u8,
            110u8, 102u8, 108u8, 97u8, 116u8, 97u8, 98u8, 108u8, 101u8, 32u8, 109u8, 111u8,
            116u8, 111u8, 114u8, 99u8, 121u8, 99u8, 108u8, 101u8,
        ]);
    let disguised = encrypted_stream(ops, 0, m);
    assert forall|i: int| 0 <= i < 56 implies disguised[i] == encrypted(
        ops,
        i as u8,
        #[trigger] m[i],
    ) by {
        assert(advanced(0, i) == i as u8);
    }
    if leaves_test_message(ops) {
        assert forall|i: int| 0 <= i < 56 implies encrypted(ops, i as u8, #[trigger] m[i]) == m[i] by {
            assert(disguised[i] == m[i]);
        }
    }
    if forall|i: int| 0 <= i < 56 ==> encrypted(ops, i as u8, #[trigger] m[i]) == m[i] {
        assert(disguised =~= m);
    }
}

proof fn lemma_trial()
    ensures
        test_message().len() == 56,
        forall|i: int|
            0 <= i < 56 ==> #[trigger] test_message()[i]
                == "10x toy car,15x dog on a string,4x inflatable motorcycle"@[i] as u8,
{
    reveal_strlit("10x toy car,15x dog on a string,4x inflatable motorcycle");
    let text = "10x toy car,15x dog on a string,4x inflatable motorcycle"@;
    is_ascii_chars_encode_utf8(text);
}

} // verus!
