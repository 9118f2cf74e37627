use vstd::prelude::*;

verus! {

/// Byte `i` of the word `v`, little-endian: byte 0 is the least significant
/// byte and lives at the lowest address of the word.
pub open spec fn word_byte(v: u64, i: int) -> u8 {
    ((v >> ((8 * i) as u64)) & 0xff) as u8
}

/// The eight bytes of the word `v`, lowest address first.
pub open spec fn word_bytes(v: u64) -> Seq<u8> {
    Seq::new(8, |i: int| word_byte(v, i))
}

/// The word assembled from eight bytes in little-endian order.
pub open spec fn word_of_bytes(b: Seq<u8>) -> u64
    recommends
        b.len() == 8,
{
    (b[0] as u64) | ((b[1] as u64) << 8u64) | ((b[2] as u64) << 16u64) | ((b[3] as u64) << 24u64)
        | ((b[4] as u64) << 32u64) | ((b[5] as u64) << 40u64) | ((b[6] as u64) << 48u64) | ((
    b[7] as u64) << 56u64)
}

proof fn lemma_word_extract(w: u64, b0: u8, b1: u8, b2: u8, b3: u8, b4: u8, b5: u8, b6: u8, b7: u8)
    by (bit_vector)
    requires
        w == (b0 as u64) | ((b1 as u64) << 8u64) | ((b2 as u64) << 16u64) | ((b3 as u64)
            << 24u64) | ((b4 as u64) << 32u64) | ((b5 as u64) << 40u64) | ((b6 as u64) << 48u64)
            | ((b7 as u64) << 56u64),
    ensures
        (w >> 0u64) & 0xff == b0 as u64,
        (w >> 8u64) & 0xff == b1 as u64,
        (w >> 16u64) & 0xff == b2 as u64,
        (w >> 24u64) & 0xff == b3 as u64,
        (w >> 32u64) & 0xff == b4 as u64,
        (w >> 40u64) & 0xff == b5 as u64,
        (w >> 48u64) & 0xff == b6 as u64,
        (w >> 56u64) & 0xff == b7 as u64,
{
}

/// Law: assembling a word from eight bytes and taking its bytes again gives
/// back the same eight bytes.
pub proof fn lemma_word_byte_round_trip(b: Seq<u8>)
    requires
        b.len() == 8,
    ensures
        forall|i: int| 0 <= i < 8 ==> word_byte(word_of_bytes(b), i) == b[i],
{
    let w = word_of_bytes(b);
    lemma_word_extract(w, b[0], b[1], b[2], b[3], b[4], b[5], b[6], b[7]);
    assert(word_byte(w, 0) == b[0]);
    assert(word_byte(w, 1) == b[1]);
    assert(word_byte(w, 2) == b[2]);
    assert(word_byte(w, 3) == b[3]);
    assert(word_byte(w, 4) == b[4]);
    assert(word_byte(w, 5) == b[5]);
    assert(word_byte(w, 6) == b[6]);
    assert(word_byte(w, 7) == b[7]);
}

/// Byte `i` of the word `v`, as executable code.
pub fn extract_byte(v: u64, i: usize) -> (b: u8)
    requires
        i < 8,
    ensures
        b == word_byte(v, i as int),
{
    let sh: u64 = 8 * (i as u64);
    ((v >> sh) & 0xff) as u8
}

/// The word held in `b` at the eight bytes starting at `start`,
/// little-endian.
pub fn word_from_bytes(b: &Vec<u8>, start: usize) -> (w: u64)
    requires
        start + 8 <= b@.len(),
    ensures
        w == word_of_bytes(b@.subrange(start as int, start as int + 8)),
{
    let len = b.len();
    let w = (b[start] as u64) | ((b[start + 1] as u64) << 8u64) | ((b[start + 2] as u64) << 16u64)
        | ((b[start + 3] as u64) << 24u64) | ((b[start + 4] as u64) << 32u64) | ((b[start
        + 5] as u64) << 40u64) | ((b[start + 6] as u64) << 48u64) | ((b[start + 7] as u64)
        << 56u64);
    proof {
        let s = b@.subrange(start as int, start as int + 8);
        assert(s[0] == b@[start as int] && s[1] == b@[start as int + 1] && s[2] == b@[start as int
            + 2] && s[3] == b@[start as int + 3] && s[4] == b@[start as int + 4] && s[5] == b@[
        start as int + 5] && s[6] == b@[start as int + 6] && s[7] == b@[start as int + 7]);
    }
    w
}

/// How many whole words the encoding of `n` text bytes occupies once a null
/// terminator is appended and the total is padded to a word boundary.
pub open spec fn padded_word_count(n: nat) -> nat {
    n / 8 + 1
}

/// The byte length of the encoding of `n` text bytes: always a multiple of
/// eight and always strictly longer than the text, so even an empty text
/// yields one all-null word.
pub open spec fn padded_len(n: nat) -> nat {
    8 * padded_word_count(n)
}

/// The encoded form of a text: the text itself, then a null terminator,
/// then null padding up to a word boundary.
pub open spec fn padded_bytes(s: Seq<u8>) -> Seq<u8> {
    s + Seq::new((padded_len(s.len()) - s.len()) as nat, |i: int| 0u8)
}

/// Shape of the encoding: its length, the copied text, and the null tail.
pub proof fn lemma_padded_shape(s: Seq<u8>)
    ensures
        padded_bytes(s).len() == padded_len(s.len()),
        padded_len(s.len()) % 8 == 0,
        s.len() < padded_len(s.len()) <= s.len() + 8,
        forall|i: int| 0 <= i < s.len() ==> padded_bytes(s)[i] == s[i],
        forall|i: int| s.len() <= i < padded_len(s.len()) ==> padded_bytes(s)[i] == 0,
{
    let n = s.len();
    assert(8 * (n / 8 + 1) % 8 == 0 && n < 8 * (n / 8 + 1) <= n + 8) by (nonlinear_arith);
}

/// Encodes a text for pushing: appends one null terminator, then null bytes
/// until the length is a multiple of eight.
pub fn encode_padded(text: &Vec<u8>) -> (r: Vec<u8>)
    requires
        text@.len() + 8 <= usize::MAX,
    ensures
        r@ == padded_bytes(text@),
        r@.len() == padded_len(text@.len()),
{
    let n = text.len();
    let mut r: Vec<u8> = Vec::new();
    let mut i: usize = 0;
    while i < n
        invariant
            i <= n,
            n == text@.len(),
            r@ == text@.subrange(0, i as int),
        decreases n - i,
    {
        r.push(text[i]);
        i += 1;
        proof {
            assert(r@ =~= text@.subrange(0, i as int));
        }
    }
    proof {
        assert(r@ =~= text@);
    }
    let pad = 8 - (n % 8);
    let mut k: usize = 0;
    while k < pad
        invariant
            k <= pad,
            pad == 8 - (n % 8),
            n == text@.len(),
            r@ == text@ + Seq::new(k as nat, |j: int| 0u8),
        decreases pad - k,
    {
        r.push(0);
        k += 1;
        proof {
            assert(r@ =~= text@ + Seq::new(k as nat, |j: int| 0u8));
        }
    }
    proof {
        assert(8 * ((n as nat) / 8 + 1) == n + 8 - n % 8) by (nonlinear_arith);
        assert(r@ =~= padded_bytes(text@));
    }
    r
}

/// How many bytes stand before the first null in `b`; all of `b` if no byte
/// is null.
pub open spec fn leading_nonzero(b: Seq<u8>) -> nat
    decreases b.len(),
{
    if b.len() == 0 || b[0] == 0 {
        0
    } else {
        (1 + leading_nonzero(b.drop_first())) as nat
    }
}

proof fn lemma_leading_nonzero_char(b: Seq<u8>, n: int)
    requires
        0 <= n <= b.len(),
        forall|j: int| 0 <= j < n ==> b[j] != 0,
        n == b.len() || b[n] == 0,
    ensures
        leading_nonzero(b) == n,
    decreases b.len(),
{
    if n == 0 {
        if b.len() != 0 {
            assert(b[0] == 0);
        }
    } else {
        assert(b[0] != 0);
        let t = b.drop_first();
        assert forall|j: int| 0 <= j < n - 1 implies t[j] != 0 by {
            assert(t[j] == b[j + 1]);
        }
        lemma_leading_nonzero_char(t, n - 1);
    }
}

/// How a raw byte is shown: a byte below 0x80 as the character with its code
/// point, anything else as a question mark.
pub open spec fn display_byte(b: u8) -> char {
    if b < 0x80 {
        b as char
    } else {
        '?'
    }
}

/// The readable text a word decodes to: its bytes before the first null,
/// each shown as `display_byte` says.
pub open spec fn word_text(v: u64) -> Seq<char> {
    Seq::new(leading_nonzero(word_bytes(v)), |i: int| display_byte(word_byte(v, i)))
}

/// Relies on `String::from_utf8_lossy` of std: a sequence of bytes below
/// 0x80 is valid UTF-8 and decodes to the characters with the same code
/// points, one per byte.
#[verifier::external_body]
fn ascii_to_string(bytes: &Vec<u8>) -> (s: String)
    requires
        forall|i: int| 0 <= i < bytes@.len() ==> bytes@[i] < 0x80,
    ensures
        s@ == bytes@.map_values(|b: u8| b as char),
{
    String::from_utf8_lossy(bytes.as_slice()).into_owned()
}

/// Decodes one word into readable text: the bytes before the first null, in
/// little-endian order, each byte below 0x80 as its character and any other
/// byte as a question mark.
pub fn u64_to_string(value: u64) -> (s: String)
    ensures
        s@ == word_text(value),
{
    let mut n: usize = 0;
    while n < 8 && extract_byte(value, n) != 0
        invariant
            n <= 8,
            forall|j: int| 0 <= j < n ==> word_byte(value, j) != 0,
        decreases 8 - n,
    {
        n += 1;
    }
    proof {
        lemma_leading_nonzero_char(word_bytes(value), n as int);
    }
    let mut shown: Vec<u8> = Vec::new();
    let mut i: usize = 0;
    while i < n
        invariant
            i <= n <= 8,
            shown@.len() == i,
            forall|j: int| 0 <= j < i ==> shown@[j] < 0x80,
            forall|j: int| 0 <= j < i ==> shown@[j] as char == display_byte(word_byte(value, j)),
        decreases n - i,
    {
        let b = extract_byte(value, i);
        if b < 0x80 {
            shown.push(b);
        } else {
            shown.push(0x3f);
        }
        i += 1;
    }
    let s = ascii_to_string(&shown);
    proof {
        assert(s@ =~= word_text(value));
    }
    s
}

} // verus!
