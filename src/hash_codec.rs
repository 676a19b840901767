use vstd::prelude::*;

verus! {

/// The character that stands for a nibble in the textual form of a hash.
pub open spec fn hex_digit(n: int) -> char {
    seq!['0', '1', '2', '3', '4', '5', '6', '7', '8', '9', 'a', 'b', 'c', 'd', 'e', 'f'][n]
}

/// The nibble that a hexadecimal character stands for, of either case.
pub open spec fn hex_value(c: char) -> Option<u8> {
    if '0' <= c && c <= '9' {
        Some((c as u32 - '0' as u32) as u8)
    } else if 'a' <= c && c <= 'f' {
        Some((c as u32 - 'a' as u32 + 10) as u8)
    } else if 'A' <= c && c <= 'F' {
        Some((c as u32 - 'A' as u32 + 10) as u8)
    } else {
        None
    }
}

pub proof fn lemma_hex_digit_value(n: u8)
    requires
        n < 16,
    ensures
        hex_value(hex_digit(n as int)) == Some(n),
{
}

fn digit_of(n: u8) -> (r: &'static str)
    requires
        n < 16,
    ensures
        r@ == seq![hex_digit(n as int)],
{
    let digits = "0123456789abcdef";
    proof {
        reveal_strlit("0123456789abcdef");
    }
    assert(digits.is_ascii());
    digits.substring_ascii(n as usize, n as usize + 1)
}


/// Number of bytes in a manager hash.
pub const HASH_LEN: usize = 64;

/// The two characters that stand for one byte, high nibble first.
pub open spec fn byte_text(b: u8) -> Seq<char> {
    seq![hex_digit((b / 16) as int), hex_digit((b % 16) as int)]
}

/// The textual form of a byte sequence: two lowercase hexadecimal digits per byte.
pub open spec fn encode_hash(h: Seq<u8>) -> Seq<char>
    decreases h.len(),
{
    if h.len() == 0 {
        Seq::empty()
    } else {
        encode_hash(h.drop_last()) + byte_text(h.last())
    }
}

/// Whether a text is the hexadecimal form of exactly `HASH_LEN` bytes.
pub open spec fn is_hash_text(s: Seq<char>) -> bool {
    &&& s.len() == 2 * HASH_LEN
    &&& forall|i: int| 0 <= i < s.len() ==> (#[trigger] hex_value(s[i])) is Some
}

/// The byte that the digits at `2 * i` and `2 * i + 1` of a text stand for.
pub open spec fn byte_at(s: Seq<char>, i: int) -> u8 {
    (hex_value(s[2 * i])->0 * 16 + hex_value(s[2 * i + 1])->0) as u8
}

/// The bytes a hash text stands for, where it is one.
pub open spec fn decode_hash(s: Seq<char>) -> Option<Seq<u8>> {
    if is_hash_text(s) {
        Some(Seq::new(HASH_LEN as nat, |i: int| byte_at(s, i)))
    } else {
        None
    }
}

proof fn lemma_encode_len_index(h: Seq<u8>)
    ensures
        encode_hash(h).len() == 2 * h.len(),
        forall|i: int|
            0 <= i < h.len() ==> encode_hash(h)[2 * i] == hex_digit((h[i] / 16) as int)
                && encode_hash(h)[2 * i + 1] == hex_digit((h[i] % 16) as int),
    decreases h.len(),
{
    if h.len() > 0 {
        lemma_encode_len_index(h.drop_last());
        assert forall|i: int| 0 <= i < h.len() implies encode_hash(h)[2 * i] == hex_digit(
            (h[i] / 16) as int,
        ) && encode_hash(h)[2 * i + 1] == hex_digit((h[i] % 16) as int) by {
            if i < h.len() - 1 {
                assert(h.drop_last()[i] == h[i]);
            }
        }
    }
}

/// Decoding the textual form of a hash gives the hash back: no byte value is lost.
pub proof fn lemma_hash_round_trip(h: Seq<u8>)
    requires
        h.len() == HASH_LEN,
    ensures
        decode_hash(encode_hash(h)) == Some(h),
{
    let s = encode_hash(h);
    lemma_encode_len_index(h);
    assert forall|i: int| 0 <= i < s.len() implies (#[trigger] hex_value(s[i])) is Some by {
        let j = i / 2;
        assert(i == 2 * j || i == 2 * j + 1);
        lemma_hex_digit_value(h[j] / 16);
        lemma_hex_digit_value(h[j] % 16);
    }
    assert forall|i: int| 0 <= i < HASH_LEN implies byte_at(s, i) == h[i] by {
        lemma_hex_digit_value(h[i] / 16);
        lemma_hex_digit_value(h[i] % 16);
    }
    assert(decode_hash(s)->0 =~= h);
}

/// Writes a hash in its textual form.
pub fn encode_hash_text(hash: &[u8; 64]) -> (r: String)
    ensures
        r@ == encode_hash(hash@),
{
    let mut out = String::from_str("");
    proof {
        reveal_strlit("");
    }
    let mut i: usize = 0;
    while i < HASH_LEN
        invariant
            i <= HASH_LEN,
            hash@.len() == HASH_LEN,
            out@ == encode_hash(hash@.subrange(0, i as int)),
        decreases HASH_LEN - i,
    {
        let b = hash[i];
        out.append(digit_of(b / 16));
        out.append(digit_of(b % 16));
        proof {
            let next = hash@.subrange(0, i + 1);
            assert(next.drop_last() =~= hash@.subrange(0, i as int));
        }
        i += 1;
    }
    assert(hash@.subrange(0, HASH_LEN as int) =~= hash@);
    out
}

fn nibble_of(c: char) -> (r: Option<u8>)
    ensures
        r == hex_value(c),
{
    if '0' <= c && c <= '9' {
        Some((c as u32 - '0' as u32) as u8)
    } else if 'a' <= c && c <= 'f' {
        Some((c as u32 - 'a' as u32 + 10) as u8)
    } else if 'A' <= c && c <= 'F' {
        Some((c as u32 - 'A' as u32 + 10) as u8)
    } else {
        None
    }
}

/// Reads a hash back from its textual form; any text that is not exactly
/// `HASH_LEN` bytes in hexadecimal is refused.
pub fn parse_hash(s: &str) -> (r: Result<[u8; 64], String>)
    ensures
        r is Ok <==> is_hash_text(s@),
        r matches Ok(h) ==> decode_hash(s@) == Some(h@),
        r matches Err(e) ==> e@ == "Incorrect hash"@,
{
    let n = s.unicode_len();
    if n != 2 * HASH_LEN {
        return Err(String::from_str("Incorrect hash"));
    }
    let mut hash = [0u8; 64];
    let mut i: usize = 0;
    while i < HASH_LEN
        invariant
            n == s@.len() == 2 * HASH_LEN,
            i <= HASH_LEN,
            hash@.len() == HASH_LEN,
            forall|k: int| 0 <= k < 2 * i ==> (#[trigger] hex_value(s@[k])) is Some,
            forall|k: int| 0 <= k < i ==> hash@[k] == byte_at(s@, k),
        decreases HASH_LEN - i,
    {
        let hi = nibble_of(s.get_char(2 * i));
        let lo = nibble_of(s.get_char(2 * i + 1));
        match (hi, lo) {
            (Some(h), Some(l)) => {
                hash[i] = h * 16 + l;
            },
            _ => {
                assert(!is_hash_text(s@)) by {
                    if hi is None {
                        assert(hex_value(s@[2 * i as int]) is None);
                    } else {
                        assert(hex_value(s@[2 * i + 1]) is None);
                    }
                }
                return Err(String::from_str("Incorrect hash"));
            },
        }
        i += 1;
    }
    assert(decode_hash(s@)->0 =~= hash@);
    Ok(hash)
}

} // verus!
