//! The binary encoding of checkpoints: base-128 variable-length integers,
//! little-endian 32-bit words, and tagged fields.
use vstd::prelude::*;

verus! {

/// The base-128 encoding of `v`, least significant group first; every byte
/// but the last has its top bit set.
pub open spec fn varint(v: nat) -> Seq<u8>
    decreases v,
{
    if v < 128 {
        seq![v as u8]
    } else {
        seq![(128 + v % 128) as u8] + varint(v / 128)
    }
}

/// The value and length of the variable-length integer that starts `s` and
/// is at most `limit` bytes long, if there is one.
pub open spec fn varint_prefix(s: Seq<u8>, limit: nat) -> Option<(nat, nat)>
    decreases limit,
{
    if limit == 0 || s.len() == 0 {
        None
    } else if s[0] < 128 {
        Some((s[0] as nat, 1))
    } else {
        match varint_prefix(s.skip(1), (limit - 1) as nat) {
            Some((v, n)) => Some(((s[0] - 128 + 128 * v) as nat, n + 1)),
            None => None,
        }
    }
}

/// As `varint_prefix`, where the value fits 64 bits.
pub open spec fn varint_within(s: Seq<u8>, limit: nat) -> Option<(u64, nat)> {
    match varint_prefix(s, limit) {
        Some((v, n)) => if v <= u64::MAX {
            Some((v as u64, n))
        } else {
            None
        },
        None => None,
    }
}

/// The 64-bit variable-length integer that starts `s`, with its length: at
/// most ten bytes are read.
pub open spec fn read_varint(s: Seq<u8>) -> Option<(u64, nat)> {
    varint_within(s, 10)
}

/// 128 to the power `n`.
pub open spec fn pow128(n: nat) -> nat
    decreases n,
{
    if n == 0 {
        1
    } else {
        128 * pow128((n - 1) as nat)
    }
}

/// A value below `128^k` is encoded in at most `k` bytes.
pub proof fn lemma_varint_len(v: nat, k: nat)
    requires
        k >= 1,
        v < pow128(k),
    ensures
        1 <= varint(v).len() <= k,
    decreases v,
{
    reveal_with_fuel(pow128, 2);
    if v >= 128 {
        if k == 1 {
            assert(pow128(1) == 128);
        } else {
            assert(pow128(k) == 128 * pow128((k - 1) as nat));
            lemma_varint_len(v / 128, (k - 1) as nat);
        }
    }
}

/// Every 64-bit value is encoded in at most ten bytes.
pub proof fn lemma_varint_len_u64(v: u64)
    ensures
        1 <= varint(v as nat).len() <= 10,
{
    reveal_with_fuel(pow128, 2);
    assert(pow128(1) == 0x80);
    assert(pow128(2) == 0x4000);
    assert(pow128(3) == 0x200000);
    assert(pow128(4) == 0x10000000);
    assert(pow128(5) == 0x800000000);
    assert(pow128(6) == 0x40000000000);
    assert(pow128(7) == 0x2000000000000);
    assert(pow128(8) == 0x100000000000000);
    assert(pow128(9) == 0x8000000000000000);
    assert(pow128(10) == 0x400000000000000000);
    lemma_varint_len(v as nat, 10);
}

/// Reading what was written gives the value back, whatever follows it.
pub proof fn lemma_varint_round_trip(v: nat, rest: Seq<u8>, limit: nat)
    requires
        varint(v).len() <= limit,
    ensures
        varint_prefix(varint(v) + rest, limit) == Some((v, varint(v).len())),
    decreases v,
{
    let s = varint(v) + rest;
    if v < 128 {
        assert(s[0] == v as u8);
    } else {
        let tail = varint(v / 128);
        assert(s[0] == (128 + v % 128) as u8);
        assert(s.skip(1) =~= tail + rest);
        lemma_varint_round_trip(v / 128, rest, (limit - 1) as nat);
    }
}

/// Appends the variable-length encoding of `value`.
pub fn put_varint(buf: &mut Vec<u8>, value: u64)
    ensures
        final(buf)@ == old(buf)@ + varint(value as nat),
{
    let mut v: u64 = value;
    while v >= 128
        invariant
            buf@ + varint(v as nat) == old(buf)@ + varint(value as nat),
        decreases v,
    {
        let ghost before = buf@;
        buf.push((128 + v % 128) as u8);
        proof {
            assert(before + varint(v as nat) =~= before.push((128 + v % 128) as u8) + varint(
                (v / 128) as nat,
            ));
        }
        v = v / 128;
    }
    let ghost before = buf@;
    buf.push(v as u8);
    proof {
        assert(before + varint(v as nat) =~= before.push(v as u8));
    }
}

/// Reads a variable-length integer of at most `limit` bytes from
/// `bytes[pos..end]`; returns its value and its length.
fn take_varint_within(bytes: &[u8], pos: usize, end: usize, limit: u8) -> (r: Option<(u64, usize)>)
    requires
        pos <= end <= bytes.len(),
    ensures
        match varint_within(bytes@.subrange(pos as int, end as int), limit as nat) {
            Some((v, n)) => r == Some((v, n as usize)) && 1 <= n <= end - pos && n <= limit,
            None => r is None,
        },
    decreases limit,
{
    let ghost s = bytes@.subrange(pos as int, end as int);
    if limit == 0 || pos >= end {
        return None;
    }
    let b = bytes[pos];
    assert(s[0] == b);
    if b < 128 {
        return Some((b as u64, 1));
    }
    proof {
        assert(s.skip(1) =~= bytes@.subrange(pos + 1, end as int));
    }
    match take_varint_within(bytes, pos + 1, end, limit - 1) {
        None => None,
        Some((v, n)) => {
            let low: u64 = (b - 128) as u64;
            if v > (u64::MAX - low) / 128 {
                None
            } else {
                Some((low + 128 * v, n + 1))
            }
        },
    }
}

/// Reads a variable-length integer from `bytes[pos..end]`; returns its value
/// and its length.
pub fn take_varint(bytes: &[u8], pos: usize, end: usize) -> (r: Option<(u64, usize)>)
    requires
        pos <= end <= bytes.len(),
    ensures
        match read_varint(bytes@.subrange(pos as int, end as int)) {
            Some((v, n)) => r == Some((v, n as usize)) && 1 <= n <= end - pos,
            None => r is None,
        },
{
    take_varint_within(bytes, pos, end, 10)
}

/// The four bytes of a word, least significant first.
pub open spec fn word_bytes(w: u32) -> Seq<u8> {
    seq![(w % 256) as u8, (w / 256 % 256) as u8, (w / 65536 % 256) as u8, (w / 16777216) as u8]
}

/// The word whose four bytes, least significant first, start at `s[i]`.
pub open spec fn word_at(s: Seq<u8>, i: int) -> u32 {
    (s[i] + 256 * s[i + 1] + 65536 * s[i + 2] + 16777216 * s[i + 3]) as u32
}

/// The words one after another, four bytes each.
pub open spec fn words_bytes(ws: Seq<u32>) -> Seq<u8> {
    Seq::new((4 * ws.len()) as nat, |j: int| word_bytes(ws[j / 4])[j % 4])
}

/// The words held by a run of bytes, four bytes each; a ragged end is left
/// out.
pub open spec fn bytes_words(s: Seq<u8>) -> Seq<u32> {
    Seq::new((s.len() / 4) as nat, |i: int| word_at(s, 4 * i))
}

/// Reading the bytes of words gives the words back.
pub proof fn lemma_words_round_trip(ws: Seq<u32>)
    ensures
        words_bytes(ws).len() == 4 * ws.len(),
        bytes_words(words_bytes(ws)) == ws,
{
    let s = words_bytes(ws);
    assert forall|i: int| 0 <= i < ws.len() implies word_at(s, 4 * i) == ws[i] by {
        let w = ws[i];
        assert(s[4 * i] == word_bytes(w)[0]);
        assert(s[4 * i + 1] == word_bytes(w)[1]);
        assert(s[4 * i + 2] == word_bytes(w)[2]);
        assert(s[4 * i + 3] == word_bytes(w)[3]);
    }
    assert(bytes_words(s) =~= ws);
}

/// Appends the bytes of each word.
pub fn put_words(buf: &mut Vec<u8>, words: &Vec<u32>)
    ensures
        final(buf)@ == old(buf)@ + words_bytes(words@),
{
    let mut i: usize = 0;
    proof {
        assert(buf@ =~= old(buf)@ + words_bytes(words@.take(0)));
    }
    while i < words.len()
        invariant
            i <= words.len(),
            buf@ == old(buf)@ + words_bytes(words@.take(i as int)),
        decreases words.len() - i,
    {
        let w = words[i];
        let ghost before = buf@;
        buf.push((w % 256) as u8);
        buf.push((w / 256 % 256) as u8);
        buf.push((w / 65536 % 256) as u8);
        buf.push((w / 16777216) as u8);
        proof {
            let a = words_bytes(words@.take(i as int));
            let b = words_bytes(words@.take(i + 1));
            assert(b =~= a + word_bytes(w));
            assert(buf@ =~= before + word_bytes(w));
            assert(buf@ =~= old(buf)@ + b);
        }
        i += 1;
    }
    proof {
        assert(words@.take(words.len() as int) =~= words@);
    }
}

/// Reads the word that starts at `bytes[at]`.
pub fn take_word(bytes: &[u8], at: usize) -> (r: u32)
    requires
        at + 4 <= bytes.len(),
    ensures
        r == word_at(bytes@, at as int),
{
    let b0: u32 = bytes[at] as u32;
    let b1: u32 = bytes[at + 1] as u32;
    let b2: u32 = bytes[at + 2] as u32;
    let b3: u32 = bytes[at + 3] as u32;
    b0 + 256 * b1 + 65536 * b2 + 16777216 * b3
}

/// Appends to `out` the words held by `bytes[start..stop]`.
pub fn take_words(out: &mut Vec<u32>, bytes: &[u8], start: usize, stop: usize)
    requires
        start <= stop <= bytes.len(),
        (stop - start) % 4 == 0,
    ensures
        final(out)@ == old(out)@ + bytes_words(bytes@.subrange(start as int, stop as int)),
{
    let ghost s = bytes@.subrange(start as int, stop as int);
    let mut at: usize = start;
    proof {
        assert(out@ =~= old(out)@ + bytes_words(s).take(0));
    }
    while at < stop
        invariant
            start <= at <= stop <= bytes.len(),
            (at - start) % 4 == 0,
            (stop - start) % 4 == 0,
            s == bytes@.subrange(start as int, stop as int),
            out@ == old(out)@ + bytes_words(s).take((at - start) / 4),
        decreases stop - at,
    {
        let w = take_word(bytes, at);
        let ghost i = (at - start) / 4;
        let ghost before = out@;
        out.push(w);
        proof {
            assert(word_at(s, 4 * i) == w);
            assert(bytes_words(s).take(i + 1) =~= bytes_words(s).take(i).push(w));
            assert(out@ =~= old(out)@ + bytes_words(s).take(i + 1));
        }
        at += 4;
    }
    proof {
        assert(bytes_words(s).take((stop - start) / 4) =~= bytes_words(s));
    }
}

/// The nesting of groups that is followed at the top of a checkpoint; one
/// less inside a document.
pub const NESTING_LIMIT: u32 = 100;

/// What a field carries, by its wire type.
pub enum Payload {
    /// A variable-length integer.
    Varint(u64),
    /// Eight bytes, which no field of a checkpoint uses.
    Fixed64,
    /// A run of bytes preceded by its length.
    Bytes(Seq<u8>),
    /// A group of fields closed by an end key, which no field of a
    /// checkpoint uses.
    Group,
    /// One little-endian 32-bit word.
    Fixed32(u32),
}

/// A field: its number and what it carries.
pub struct Field {
    pub number: nat,
    pub payload: Payload,
}

/// The key that starts `s`: the field number, the wire type and the key's
/// length. The key is a variable-length integer that fits 32 bits; its low
/// three bits are the wire type, at most 5, and the rest is the field number,
/// which is not zero.
pub open spec fn read_key(s: Seq<u8>) -> Option<(nat, nat, nat)> {
    match read_varint(s) {
        None => None,
        Some((key, n)) => if key > u32::MAX || key / 8 == 0 || key % 8 > 5 {
            None
        } else {
            Some(((key / 8) as nat, (key % 8) as nat, n))
        },
    }
}

/// The length of what follows the key of a field of the given number and
/// wire type at the start of `rest`, where groups may nest `budget` deep.
pub open spec fn body_len(rest: Seq<u8>, number: nat, wire: nat, budget: nat) -> Option<nat>
    decreases budget, rest.len(), 1nat,
{
    if wire == 0 {
        match read_varint(rest) {
            Some((_, m)) => Some(m),
            None => None,
        }
    } else if wire == 1 {
        if rest.len() >= 8 {
            Some(8)
        } else {
            None
        }
    } else if wire == 2 {
        match read_varint(rest) {
            Some((len, m)) => if len <= rest.len() - m {
                Some((m + len) as nat)
            } else {
                None
            },
            None => None,
        }
    } else if wire == 3 {
        if budget == 0 {
            None
        } else {
            group_len(rest, number, budget)
        }
    } else if wire == 5 {
        if rest.len() >= 4 {
            Some(4)
        } else {
            None
        }
    } else {
        None
    }
}

/// The length of the rest of a group of the given number: the fields at the
/// start of `s`, each within a budget one less, up to and with the end key,
/// which has the group's number.
pub open spec fn group_len(s: Seq<u8>, number: nat, budget: nat) -> Option<nat>
    decreases budget, s.len(), 0nat,
{
    match read_key(s) {
        None => None,
        Some((inner, wire, n)) => if wire == 4 {
            if inner == number {
                Some(n)
            } else {
                None
            }
        } else if budget <= 1 || n == 0 || n > s.len() {
            None
        } else {
            match body_len(s.skip(n as int), inner, wire, (budget - 1) as nat) {
                None => None,
                Some(m) => if n + m > s.len() {
                    None
                } else {
                    match group_len(s.skip((n + m) as int), number, budget) {
                        Some(r) => Some(n + m + r),
                        None => None,
                    }
                },
            }
        },
    }
}

/// The field that starts `s`, with its length, where groups may nest
/// `budget` deep.
pub open spec fn read_field(s: Seq<u8>, budget: nat) -> Option<(Field, nat)> {
    match read_key(s) {
        None => None,
        Some((number, wire, n)) => {
            let rest = s.skip(n as int);
            match body_len(rest, number, wire, budget) {
                None => None,
                Some(m) => {
                    let payload = if wire == 0 {
                        Payload::Varint(read_varint(rest).unwrap().0)
                    } else if wire == 1 {
                        Payload::Fixed64
                    } else if wire == 2 {
                        Payload::Bytes(
                            rest.subrange(read_varint(rest).unwrap().1 as int, m as int),
                        )
                    } else if wire == 3 {
                        Payload::Group
                    } else {
                        Payload::Fixed32(word_at(rest, 0))
                    };
                    Some((Field { number, payload }, n + m))
                },
            }
        },
    }
}

/// What a field carries, as read from a buffer: a run of bytes is given by
/// its bounds in the buffer.
pub enum Token {
    Varint(u64),
    Fixed64,
    Bytes { start: usize, stop: usize },
    Group,
    Fixed32(u32),
}

impl Token {
    /// The payload this token stands for in `bytes`.
    pub open spec fn payload(self, bytes: Seq<u8>) -> Payload {
        match self {
            Token::Varint(v) => Payload::Varint(v),
            Token::Fixed64 => Payload::Fixed64,
            Token::Bytes { start, stop } => Payload::Bytes(
                bytes.subrange(start as int, stop as int),
            ),
            Token::Group => Payload::Group,
            Token::Fixed32(w) => Payload::Fixed32(w),
        }
    }
}

/// A field as read from a buffer, with the position that follows it.
pub struct FieldToken {
    pub number: u32,
    pub token: Token,
    pub next: usize,
}

/// Reads the key that starts at `bytes[pos]`; returns the field number, the
/// wire type and the key's length.
pub fn take_key(bytes: &[u8], pos: usize, end: usize) -> (r: Option<(u32, u8, usize)>)
    requires
        pos <= end <= bytes.len(),
    ensures
        match read_key(bytes@.subrange(pos as int, end as int)) {
            Some((number, wire, n)) => r == Some((number as u32, wire as u8, n as usize)) && 1 <= n
                <= end - pos && number <= u32::MAX && wire <= 5,
            None => r is None,
        },
{
    match take_varint(bytes, pos, end) {
        None => None,
        Some((key, n)) => {
            if key > 0xFFFF_FFFF || key / 8 == 0 || key % 8 > 5 {
                None
            } else {
                Some(((key / 8) as u32, (key % 8) as u8, n))
            }
        },
    }
}

/// Measures what follows the key of a field of the given number and wire
/// type in `bytes[pos..end]`.
pub fn take_body_len(
    bytes: &[u8],
    pos: usize,
    end: usize,
    number: u32,
    wire: u8,
    budget: u32,
) -> (r: Option<usize>)
    requires
        pos <= end <= bytes.len(),
    ensures
        match body_len(
            bytes@.subrange(pos as int, end as int),
            number as nat,
            wire as nat,
            budget as nat,
        ) {
            Some(m) => r == Some(m as usize) && m <= end - pos,
            None => r is None,
        },
    decreases budget, end - pos, 1nat,
{
    if wire == 0 {
        match take_varint(bytes, pos, end) {
            Some((_, m)) => Some(m),
            None => None,
        }
    } else if wire == 1 {
        if end - pos >= 8 {
            Some(8)
        } else {
            None
        }
    } else if wire == 2 {
        match take_varint(bytes, pos, end) {
            Some((len, m)) => if len <= (end - pos - m) as u64 {
                Some(m + len as usize)
            } else {
                None
            },
            None => None,
        }
    } else if wire == 3 {
        if budget == 0 {
            None
        } else {
            take_group_len(bytes, pos, end, number, budget)
        }
    } else if wire == 5 {
        if end - pos >= 4 {
            Some(4)
        } else {
            None
        }
    } else {
        None
    }
}

/// Measures the rest of a group of the given number in `bytes[pos..end]`.
pub fn take_group_len(bytes: &[u8], pos: usize, end: usize, number: u32, budget: u32) -> (r: Option<
    usize,
>)
    requires
        pos <= end <= bytes.len(),
    ensures
        match group_len(bytes@.subrange(pos as int, end as int), number as nat, budget as nat) {
            Some(m) => r == Some(m as usize) && m <= end - pos,
            None => r is None,
        },
    decreases budget, end - pos, 0nat,
{
    let ghost whole = bytes@.subrange(pos as int, end as int);
    let mut at: usize = pos;
    loop
        invariant
            pos <= at <= end <= bytes.len(),
            whole == bytes@.subrange(pos as int, end as int),
            group_len(whole, number as nat, budget as nat) == match group_len(
                bytes@.subrange(at as int, end as int),
                number as nat,
                budget as nat,
            ) {
                Some(r) => Some((at - pos + r) as nat),
                None => None,
            },
        decreases end - at,
    {
        let ghost s = bytes@.subrange(at as int, end as int);
        let (inner, wire, n) = match take_key(bytes, at, end) {
            None => { return None; },
            Some(k) => k,
        };
        if wire == 4 {
            return if inner == number {
                Some(at - pos + n)
            } else {
                None
            };
        }
        if budget <= 1 {
            return None;
        }
        proof {
            assert(s.skip(n as int) =~= bytes@.subrange(at + n, end as int));
        }
        let m = match take_body_len(bytes, at + n, end, inner, wire, budget - 1) {
            None => { return None; },
            Some(m) => m,
        };
        proof {
            assert(s.skip((n + m) as int) =~= bytes@.subrange(at + n + m, end as int));
        }
        at = at + n + m;
    }
}

/// Reads the field that starts at `bytes[pos]` and ends by `end`.
pub fn take_field(bytes: &[u8], pos: usize, end: usize, budget: u32) -> (r: Option<FieldToken>)
    requires
        pos <= end <= bytes.len(),
    ensures
        match read_field(bytes@.subrange(pos as int, end as int), budget as nat) {
            Some((f, n)) => {
                &&& r matches Some(t)
                &&& t.number == f.number
                &&& t.token.payload(bytes@) == f.payload
                &&& t.next == pos + n
                &&& pos < t.next <= end
                &&& t.token matches Token::Bytes { start, stop } ==> pos <= start <= stop <= end
            },
            None => r is None,
        },
{
    let ghost s = bytes@.subrange(pos as int, end as int);
    let (number, wire, n) = match take_key(bytes, pos, end) {
        None => { return None; },
        Some(k) => k,
    };
    let at: usize = pos + n;
    proof {
        assert(s.skip(n as int) =~= bytes@.subrange(at as int, end as int));
    }
    let ghost rest = bytes@.subrange(at as int, end as int);
    let m = match take_body_len(bytes, at, end, number, wire, budget) {
        None => { return None; },
        Some(m) => m,
    };
    let token = if wire == 0 {
        match take_varint(bytes, at, end) {
            Some((v, _)) => Token::Varint(v),
            None => { return None; },
        }
    } else if wire == 1 {
        Token::Fixed64
    } else if wire == 2 {
        match take_varint(bytes, at, end) {
            Some((_, k)) => {
                proof {
                    assert(rest.subrange(k as int, m as int) =~= bytes@.subrange(
                        at + k,
                        at + m,
                    ));
                }
                Token::Bytes { start: at + k, stop: at + m }
            },
            None => { return None; },
        }
    } else if wire == 3 {
        Token::Group
    } else {
        let w = take_word(bytes, at);
        proof {
            assert(word_at(rest, 0) == w);
        }
        Token::Fixed32(w)
    };
    Some(FieldToken { number, token, next: at + m })
}

} // verus!
