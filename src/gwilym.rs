//! Decoder for crash-report addresses: a stream of three-character chunks
//! over a 64-symbol alphabet, followed by a version marker.
use vstd::prelude::*;
use vstd::string::StringSliceAdditionalSpecFns;

verus! {

/// Why a crash string could not be decoded.
#[derive(Clone, Copy, Debug, PartialEq, Eq)]
pub enum DecodeError {
    /// No `v` separates the payload from the version.
    MissingVersion,
    /// The version after the last `v` is not `1`.
    UnsupportedVersion,
    /// The payload length is not a multiple of three.
    BadLength,
}

/// The symbol at position `i` of the alphabet `0-9`, `=`, `A-Z`, `_`, `a-z`.
pub open spec fn alphabet_at(i: int) -> u8 {
    if i < 10 {
        (48 + i) as u8
    } else if i == 10 {
        61u8
    } else if i < 37 {
        (65 + (i - 11)) as u8
    } else if i == 37 {
        95u8
    } else {
        (97 + (i - 38)) as u8
    }
}

pub open spec fn in_alphabet(c: u8) -> bool {
    exists|i: int| 0 <= i < 64 && alphabet_at(i) == c
}

/// The position of `c` in the alphabet, or 0 for a byte outside it.
pub open spec fn char_value(c: u8) -> u32 {
    if in_alphabet(c) {
        (choose|i: int| 0 <= i < 64 && alphabet_at(i) == c) as u32
    } else {
        0
    }
}

/// The value of the chunk at the front of `s`: three symbols of 5, 5 and 6 bits
/// (the middle one may carry a sixth bit, which then overlaps).
pub open spec fn chunk_value(s: Seq<u8>) -> u32
    recommends
        s.len() >= 3,
{
    ((char_value(s[0]) << 11u32) | (char_value(s[1]) << 6u32)) | char_value(s[2])
}

/// Bit 16 of a chunk value marks the upper half of a full 32-bit address.
pub open spec fn is_upper(v: u32) -> bool {
    v & 0x10000u32 != 0
}

/// The address encoded at the front of `s`. A plain chunk is an offset into
/// cartridge space (`0x0800_0000`); an upper chunk gives the high half and
/// the address that follows gives the low half (0 when none follows).
pub open spec fn next_item(s: Seq<u8>) -> Option<u32>
    decreases s.len(),
{
    if s.len() < 3 {
        None
    } else {
        let v = chunk_value(s);
        if is_upper(v) {
            let lower = match next_item(s.subrange(3, s.len() as int)) {
                Some(x) => x,
                None => 0u32,
            };
            Some((v << 16u32) | (lower & 0xffffu32))
        } else {
            Some(v | 0x0800_0000u32)
        }
    }
}

/// How many bytes the address at the front of `s` takes.
pub open spec fn item_len(s: Seq<u8>) -> int
    decreases s.len(),
{
    if s.len() < 3 {
        0
    } else if is_upper(chunk_value(s)) {
        3 + item_len(s.subrange(3, s.len() as int))
    } else {
        3
    }
}

/// Every address encoded in `s`, in order.
pub open spec fn decode_all(s: Seq<u8>) -> Seq<u32>
    decreases s.len(),
{
    if s.len() < 3 {
        Seq::empty()
    } else {
        let n = item_len(s);
        if 3 <= n <= s.len() {
            seq![next_item(s).unwrap()] + decode_all(s.subrange(n, s.len() as int))
        } else {
            Seq::empty()
        }
    }
}

pub open spec fn crash_prefix() -> Seq<u8> {
    "https://agbrs.dev/crash#".spec_bytes()
}

/// `b` without the crash-report URL prefix, if it has one.
pub open spec fn stripped(b: Seq<u8>) -> Seq<u8> {
    let p = crash_prefix();
    if p.len() <= b.len() && b.subrange(0, p.len() as int) == p {
        b.subrange(p.len() as int, b.len() as int)
    } else {
        b
    }
}

/// Index of the last `v` in `b`, or -1.
pub open spec fn last_v(b: Seq<u8>) -> int
    decreases b.len(),
{
    if b.len() == 0 {
        -1
    } else if b.last() == 118u8 {
        b.len() - 1
    } else {
        last_v(b.drop_last())
    }
}

/// The payload of a crash string, or why there is none.
pub open spec fn payload_of(b: Seq<u8>) -> Result<Seq<u8>, DecodeError> {
    let s = stripped(b);
    let k = last_v(s);
    if k < 0 {
        Err(DecodeError::MissingVersion)
    } else if s.subrange(k + 1, s.len() as int) != seq![49u8] {
        Err(DecodeError::UnsupportedVersion)
    } else if k % 3 != 0 {
        Err(DecodeError::BadLength)
    } else {
        Ok(s.subrange(0, k))
    }
}

pub open spec fn all_ascii(s: Seq<u8>) -> bool {
    forall|i: int| 0 <= i < s.len() ==> #[trigger] s[i] < 128
}

/// The addresses of a crash string, read one at a time.
pub struct GwilymDecodeIter {
    payload: Vec<u8>,
    pos: usize,
}

impl GwilymDecodeIter {
    /// The bytes not read yet.
    pub closed spec fn remaining(&self) -> Seq<u8> {
        self.payload@.subrange(self.pos as int, self.payload@.len() as int)
    }

    pub closed spec fn wf(&self) -> bool {
        self.pos <= self.payload@.len()
    }

    fn new(input: &str) -> (r: Result<GwilymDecodeIter, DecodeError>)
        ensures
            match payload_of(input.spec_bytes()) {
                Ok(p) => r matches Ok(it) && it.wf() && it.remaining() == p && (it.ascii_rest() <==> all_ascii(p)),
                Err(e) => r == Err::<GwilymDecodeIter, DecodeError>(e),
            },
    {
        let bytes = input.as_bytes();
        let start = prefix_len(bytes);
        let mut k: usize = bytes.len();
        proof {
            assert(stripped(bytes@) =~= bytes@.subrange(start as int, k as int));
        }
        while k > start && bytes[k - 1] != 118u8
            invariant
                start <= k <= bytes@.len(),
                last_v(stripped(bytes@)) == last_v(bytes@.subrange(start as int, k as int)),
            decreases k,
        {
            proof {
                let t = bytes@.subrange(start as int, k as int);
                assert(t.drop_last() =~= bytes@.subrange(start as int, k - 1));
            }
            k = k - 1;
        }
        if k == start {
            return Err(DecodeError::MissingVersion);
        }
        let v = k - 1;
        let s = Ghost(stripped(bytes@));
        assert(last_v(s@) == v - start);
        let tail_len = bytes.len() - k;
        if !(tail_len == 1 && bytes[k] == 49u8) {
            proof {
                let t = s@.subrange(v - start + 1, s@.len() as int);
                if t == seq![49u8] {
                    assert(t.len() == 1);
                    assert(t[0] == bytes@[k as int]);
                }
            }
            return Err(DecodeError::UnsupportedVersion);
        }
        proof {
            assert(s@.subrange(v - start + 1, s@.len() as int) =~= seq![49u8]);
        }
        if (v - start) % 3 != 0 {
            return Err(DecodeError::BadLength);
        }
        let mut payload: Vec<u8> = Vec::new();
        let mut i: usize = start;
        while i < v
            invariant
                start <= i <= v,
                v < bytes@.len(),
                payload@ =~= bytes@.subrange(start as int, i as int),
            decreases v - i,
        {
            payload.push(bytes[i]);
            i = i + 1;
        }
        proof {
            assert(s@.subrange(0, v - start) =~= payload@);
        }
        let it = GwilymDecodeIter { payload, pos: 0 };
        proof {
            assert(it.remaining() =~= it.payload@);
        }
        Ok(it)
    }
}

/// Length of the crash-report URL prefix at the front of `b`, or 0.
fn prefix_len(b: &[u8]) -> (r: usize)
    ensures
        r <= b@.len(),
        stripped(b@) == b@.subrange(r as int, b@.len() as int),
{
    let p = "https://agbrs.dev/crash#".as_bytes();
    if p.len() > b.len() {
        proof {
            assert(b@.subrange(0, b@.len() as int) =~= b@);
        }
        return 0;
    }
    let mut i: usize = 0;
    while i < p.len()
        invariant
            i <= p@.len() <= b@.len(),
            p@ == crash_prefix(),
            forall|j: int| 0 <= j < i ==> b@[j] == p@[j],
        decreases p@.len() - i,
    {
        if b[i] != p[i] {
            proof {
                assert(b@.subrange(0, p@.len() as int)[i as int] != p@[i as int]);
                assert(b@.subrange(0, b@.len() as int) =~= b@);
            }
            return 0;
        }
        i = i + 1;
    }
    proof {
        assert(b@.subrange(0, p@.len() as int) =~= p@);
    }
    p.len()
}

/// Decodes a crash string, with or without the crash-report URL in front.
pub fn gwilym_decode(input: &str) -> (r: Result<GwilymDecodeIter, DecodeError>)
    ensures
        match payload_of(input.spec_bytes()) {
            Ok(p) => r matches Ok(it) && it.wf() && it.remaining() == p && (it.ascii_rest() <==> all_ascii(p)),
            Err(e) => r == Err::<GwilymDecodeIter, DecodeError>(e),
        },
{
    GwilymDecodeIter::new(input)
}

/// The position of a symbol in the alphabet; 0 for any other ASCII byte.
fn get_value_for_char(input: u8) -> (r: u32)
    requires
        input < 128,
    ensures
        r == char_value(input),
{
    let r: u32 = if 48 <= input && input <= 57 {
        (input - 48) as u32
    } else if input == 61 {
        10
    } else if 65 <= input && input <= 90 {
        (input - 65 + 11) as u32
    } else if input == 95 {
        37
    } else if 97 <= input && input <= 122 {
        (input - 97 + 38) as u32
    } else {
        0
    };
    proof {
        if (48 <= input && input <= 57) || input == 61 || (65 <= input && input <= 90) || input == 95
            || (97 <= input && input <= 122) {
            assert(alphabet_at(r as int) == input);
        }
        if in_alphabet(input) {
            let i = choose|i: int| 0 <= i < 64 && alphabet_at(i) == input;
            if i < 10 {
                assert(input == 48 + i);
            } else if i == 10 {
                assert(input == 61);
            } else if i < 37 {
                assert(input == 65 + (i - 11));
            } else if i == 37 {
                assert(input == 95);
            } else {
                assert(input == 97 + (i - 38));
            }
            assert(i == r);
        }
    }
    r
}

/// The value of the three-byte chunk at `i`.
fn decode_chunk(chunk: &Vec<u8>, i: usize) -> (r: u32)
    requires
        i + 3 <= chunk.len(),
        chunk@[i as int] < 128,
        chunk@[i + 1] < 128,
        chunk@[i + 2] < 128,
    ensures
        r == chunk_value(chunk@.subrange(i as int, chunk@.len() as int)),
{
    let a = get_value_for_char(chunk[i]);
    let b = get_value_for_char(chunk[i + 1]);
    let c = get_value_for_char(chunk[i + 2]);
    proof {
        let t = chunk@.subrange(i as int, chunk@.len() as int);
        assert(t[0] == chunk@[i as int] && t[1] == chunk@[i + 1] && t[2] == chunk@[i + 2]);
    }
    (a << 11u32) | (b << 6u32) | c
}

proof fn lemma_item_len(s: Seq<u8>)
    ensures
        s.len() >= 3 ==> 3 <= item_len(s) <= s.len(),
        s.len() >= 3 ==> next_item(s) is Some,
    decreases s.len(),
{
    if s.len() >= 3 {
        let rest = s.subrange(3, s.len() as int);
        lemma_item_len(rest);
        if rest.len() < 3 {
            assert(item_len(rest) == 0);
        }
    }
}

impl GwilymDecodeIter {
    /// Whether every byte not read yet is ASCII.
    pub open spec fn ascii_rest(&self) -> bool {
        all_ascii(self.remaining())
    }

    /// The next address, or `None` once the payload is used up.
    pub fn next(&mut self) -> (r: Option<u32>)
        requires
            old(self).wf(),
            old(self).ascii_rest(),
        ensures
            r == next_item(old(self).remaining()),
            final(self).wf(),
            final(self).ascii_rest(),
            old(self).remaining().len() >= 3 ==> final(self).remaining() == old(self).remaining().subrange(
                item_len(old(self).remaining()),
                old(self).remaining().len() as int,
            ),
            old(self).remaining().len() < 3 ==> final(self).remaining() == old(self).remaining(),
        decreases old(self).remaining().len(),
    {
        let ghost rest = self.remaining();
        if self.payload.len() - self.pos < 3 {
            return None;
        }
        let i = self.pos;
        assert(rest[0] == self.payload@[i as int] && rest[1] == self.payload@[i + 1] && rest[2] == self.payload@[i + 2]);
        let value = decode_chunk(&self.payload, i);
        assert(chunk_value(self.payload@.subrange(i as int, self.payload@.len() as int)) == chunk_value(rest));
        self.pos = i + 3;
        proof {
            let after = rest.subrange(3, rest.len() as int);
            assert(self.remaining() =~= after);
            assert forall|j: int| 0 <= j < after.len() implies #[trigger] after[j] < 128 by {
                assert(after[j] == rest[j + 3]);
            }
        }
        if value & 0x10000u32 != 0 {
            let upper_bits = value << 16u32;
            let lower = match self.next() {
                Some(x) => x,
                None => 0,
            };
            proof {
                let after = rest.subrange(3, rest.len() as int);
                lemma_item_len(after);
                if after.len() >= 3 {
                    assert(after.subrange(item_len(after), after.len() as int) =~= rest.subrange(
                        item_len(rest),
                        rest.len() as int,
                    ));
                } else {
                    assert(is_upper(chunk_value(rest)));
                    assert(item_len(after) == 0);
                    assert(item_len(rest) == 3);
                    assert(rest.subrange(item_len(rest), rest.len() as int) =~= after);
                }
            }
            Some(upper_bits | (lower & 0xffffu32))
        } else {
            Some(value | 0x0800_0000u32)
        }
    }

    /// Every address not read yet, in order.
    pub fn collect_vec(&mut self) -> (r: Vec<u32>)
        requires
            old(self).wf(),
            old(self).ascii_rest(),
        ensures
            r@ == decode_all(old(self).remaining()),
            final(self).wf(),
            final(self).remaining().len() < 3,
    {
        let mut out: Vec<u32> = Vec::new();
        let ghost start = self.remaining();
        loop
            invariant
                self.wf(),
                self.ascii_rest(),
                start == old(self).remaining(),
                decode_all(start) == out@ + decode_all(self.remaining()),
            decreases self.remaining().len(),
        {
            let ghost rest = self.remaining();
            proof {
                lemma_item_len(rest);
            }
            match self.next() {
                Some(x) => {
                    out.push(x);
                    proof {
                        assert(decode_all(rest) == seq![x] + decode_all(self.remaining()));
                        assert(out@ + decode_all(self.remaining()) =~= (out@.drop_last() + seq![x]) + decode_all(self.remaining()));
                    }
                },
                None => {
                    assert(out@ + decode_all(rest) =~= out@);
                    return out;
                },
            }
        }
    }
}

} // verus!
