//! The signature and its textual form: `iqdb_` followed by lowercase hex
//! digits, 16 for each average component (the big-endian bits of an IEEE-754
//! double) and 4 for each coefficient (big-endian two's complement).
use vstd::prelude::*;
use vstd::relations::sorted_by;
use vstd::string::StringSliceAdditionalSpecFns;
use crate::sort::{coef_le, lemma_sorted_coefs_fixed, sort_coefs, sorted_coefs};

verus! {

/// Coefficients in a signature.
pub const NUM_COEFS: usize = 120;

/// Coefficients of each color (Y, I, Q), stored one color after the other.
pub const COEFS_PER_COLOR: usize = 40;

/// Length of the textual form: the prefix, 3 * 16 and 120 * 4 hex digits.
pub const TEXT_LEN: usize = 533;

/// A compressed image descriptor.
#[derive(Debug, PartialEq)]
pub struct Signature {
    /// The average Y, I and Q components, each as the bits of an IEEE-754 double.
    pub avgl: (u64, u64, u64),
    /// The signed coefficient indices: 40 of color Y, then 40 of I, then 40 of Q.
    pub sig: Vec<i16>,
}

/// The text was not a signature.
#[derive(Debug)]
pub struct InvalidHash;

/// The coefficients of color `c`.
pub open spec fn color_block(s: Seq<i16>, c: int) -> Seq<i16> {
    s.subrange(40 * c, 40 * c + 40)
}

/// Each color's 40 coefficients in ascending order.
pub open spec fn normalized(s: Seq<i16>) -> Seq<i16> {
    sorted_coefs(color_block(s, 0)) + sorted_coefs(color_block(s, 1)) + sorted_coefs(
        color_block(s, 2),
    )
}

/// 120 coefficients, ascending within each color.
pub open spec fn is_normalized(s: Seq<i16>) -> bool {
    &&& s.len() == NUM_COEFS
    &&& forall|c: int| 0 <= c < 3 ==> sorted_by(#[trigger] color_block(s, c), coef_le())
}

/// The lowercase hex digit of `d < 16`.
pub open spec fn hex_char(d: nat) -> u8 {
    if d < 10 {
        (48 + d) as u8
    } else {
        (87 + d) as u8
    }
}

/// The `n` lowest hex digits of `x`, most significant first.
pub open spec fn hex_of(x: nat, n: nat) -> Seq<u8>
    decreases n,
{
    if n == 0 {
        Seq::empty()
    } else {
        hex_of(x / 16, (n - 1) as nat).push(hex_char(x % 16))
    }
}

/// Four hex digits for each coefficient.
pub open spec fn coefs_hex(c: Seq<i16>) -> Seq<u8>
    decreases c.len(),
{
    if c.len() == 0 {
        Seq::empty()
    } else {
        coefs_hex(c.drop_last()) + hex_of((c.last() as u16) as nat, 4)
    }
}

/// `iqdb_`
pub open spec fn text_prefix() -> Seq<u8> {
    seq![105u8, 113u8, 100u8, 98u8, 95u8]
}

/// The textual form of a signature, as ASCII bytes.
pub open spec fn signature_text(avgl: (u64, u64, u64), sig: Seq<i16>) -> Seq<u8> {
    text_prefix() + hex_of(avgl.0 as nat, 16) + hex_of(avgl.1 as nat, 16) + hex_of(
        avgl.2 as nat,
        16,
    ) + coefs_hex(sig)
}

pub open spec fn is_hex_byte(b: u8) -> bool {
    (48 <= b <= 57) || (97 <= b <= 102) || (65 <= b <= 70)
}

/// The value of a hex digit of either case.
pub open spec fn hex_value(b: u8) -> nat {
    if 48 <= b <= 57 {
        (b - 48) as nat
    } else if 97 <= b <= 102 {
        (b - 87) as nat
    } else {
        (b - 55) as nat
    }
}

/// The number that a run of hex digits spells, most significant first.
pub open spec fn digits_value(t: Seq<u8>) -> nat
    decreases t.len(),
{
    if t.len() == 0 {
        0
    } else {
        digits_value(t.drop_last()) * 16 + hex_value(t.last())
    }
}

/// The prefix, then hex digits of either case, at the right length.
pub open spec fn is_signature_text(t: Seq<u8>) -> bool {
    &&& t.len() == TEXT_LEN
    &&& t.subrange(0, 5) == text_prefix()
    &&& forall|i: int| 5 <= i < t.len() ==> is_hex_byte(#[trigger] t[i])
}

/// Average component `k` spelled in a text.
pub open spec fn text_avgl(t: Seq<u8>, k: int) -> u64 {
    digits_value(t.subrange(5 + 16 * k, 21 + 16 * k)) as u64
}

/// The coefficients spelled in a text, in the order written.
pub open spec fn text_coefs(t: Seq<u8>) -> Seq<i16> {
    Seq::new(120, |j: int| (digits_value(t.subrange(53 + 4 * j, 57 + 4 * j)) as u16) as i16)
}

pub open spec fn pow16(n: nat) -> nat
    decreases n,
{
    if n == 0 {
        1
    } else {
        16 * pow16((n - 1) as nat)
    }
}

proof fn lemma_hex_of(x: nat, n: nat)
    ensures
        hex_of(x, n).len() == n,
        forall|i: int| 0 <= i < n ==> is_hex_byte(#[trigger] hex_of(x, n)[i]),
        x < pow16(n) ==> digits_value(hex_of(x, n)) == x,
    decreases n,
{
    if n > 0 {
        lemma_hex_of(x / 16, (n - 1) as nat);
        let h = hex_of(x, n);
        assert(h.drop_last() =~= hex_of(x / 16, (n - 1) as nat));
        assert(hex_value(hex_char(x % 16)) == x % 16);
        if x < pow16(n) {
            assert(x / 16 < pow16((n - 1) as nat));
        }
    }
}

proof fn lemma_digits_bound(t: Seq<u8>)
    requires
        forall|i: int| 0 <= i < t.len() ==> is_hex_byte(#[trigger] t[i]),
    ensures
        digits_value(t) < pow16(t.len()),
    decreases t.len(),
{
    if t.len() > 0 {
        lemma_digits_bound(t.drop_last());
        let a = digits_value(t.drop_last());
        let p = pow16((t.len() - 1) as nat);
        let h = hex_value(t.last());
        assert(h < 16);
        assert(a * 16 + h < 16 * p) by (nonlinear_arith)
            requires
                a < p,
                h < 16,
        ;
    }
}

proof fn lemma_coefs_hex(c: Seq<i16>)
    ensures
        coefs_hex(c).len() == 4 * c.len(),
        forall|j: int|
            0 <= j < c.len() ==> #[trigger] coefs_hex(c).subrange(4 * j, 4 * j + 4) == hex_of(
                (c[j] as u16) as nat,
                4,
            ),
    decreases c.len(),
{
    if c.len() > 0 {
        let d = c.drop_last();
        lemma_coefs_hex(d);
        lemma_hex_of((c.last() as u16) as nat, 4);
        assert forall|j: int| 0 <= j < c.len() implies #[trigger] coefs_hex(c).subrange(
            4 * j,
            4 * j + 4,
        ) == hex_of((c[j] as u16) as nat, 4) by {
            if j < d.len() {
                assert(coefs_hex(c).subrange(4 * j, 4 * j + 4) =~= coefs_hex(d).subrange(
                    4 * j,
                    4 * j + 4,
                ));
                assert(d[j] == c[j]);
            } else {
                assert(coefs_hex(c).subrange(4 * j, 4 * j + 4) =~= hex_of(
                    (c.last() as u16) as nat,
                    4,
                ));
            }
        }
    }
}

proof fn lemma_pow16_values()
    ensures
        pow16(4) == 0x10000,
        pow16(16) == 0x1_0000_0000_0000_0000,
{
    reveal_with_fuel(pow16, 17);
}

/// Formatting a signature and parsing the text gives the signature back, once
/// each color's coefficients are in ascending order.
pub proof fn lemma_text_round_trip(avgl: (u64, u64, u64), sig: Seq<i16>)
    requires
        is_normalized(sig),
    ensures
        is_signature_text(signature_text(avgl, sig)),
        text_avgl(signature_text(avgl, sig), 0) == avgl.0,
        text_avgl(signature_text(avgl, sig), 1) == avgl.1,
        text_avgl(signature_text(avgl, sig), 2) == avgl.2,
        normalized(text_coefs(signature_text(avgl, sig))) == sig,
{
    let t = signature_text(avgl, sig);
    let h0 = hex_of(avgl.0 as nat, 16);
    let h1 = hex_of(avgl.1 as nat, 16);
    let h2 = hex_of(avgl.2 as nat, 16);
    let ch = coefs_hex(sig);
    lemma_hex_of(avgl.0 as nat, 16);
    lemma_hex_of(avgl.1 as nat, 16);
    lemma_hex_of(avgl.2 as nat, 16);
    lemma_coefs_hex(sig);
    lemma_pow16_values();
    assert(t.subrange(0, 5) =~= text_prefix());
    assert(t.subrange(5, 21) =~= h0);
    assert(t.subrange(21, 37) =~= h1);
    assert(t.subrange(37, 53) =~= h2);
    assert forall|i: int| 5 <= i < t.len() implies is_hex_byte(#[trigger] t[i]) by {
        if i < 21 {
            assert(t[i] == h0[i - 5]);
        } else if i < 37 {
            assert(t[i] == h1[i - 21]);
        } else if i < 53 {
            assert(t[i] == h2[i - 37]);
        } else {
            let j = (i - 53) / 4;
            assert(ch.subrange(4 * j, 4 * j + 4) == hex_of((sig[j] as u16) as nat, 4));
            lemma_hex_of((sig[j] as u16) as nat, 4);
            assert(t[i] == ch[i - 53]);
            assert(ch[i - 53] == ch.subrange(4 * j, 4 * j + 4)[i - 53 - 4 * j]);
        }
    }
    let tc = text_coefs(t);
    assert forall|j: int| 0 <= j < 120 implies tc[j] == sig[j] by {
        assert(t.subrange(53 + 4 * j, 57 + 4 * j) =~= ch.subrange(4 * j, 4 * j + 4));
        let c = sig[j];
        lemma_hex_of((c as u16) as nat, 4);
        assert(ch.subrange(4 * j, 4 * j + 4) == hex_of((c as u16) as nat, 4));
        assert(digits_value(t.subrange(53 + 4 * j, 57 + 4 * j)) == (c as u16) as nat);
        assert(((c as u16) as i16) == c) by (bit_vector);
    }
    assert(tc =~= sig);
    lemma_sorted_coefs_fixed(color_block(sig, 0));
    lemma_sorted_coefs_fixed(color_block(sig, 1));
    lemma_sorted_coefs_fixed(color_block(sig, 2));
    assert(normalized(sig) =~= sig);
}

proof fn lemma_pow16_mono(m: nat, n: nat)
    requires
        m <= n,
    ensures
        pow16(m) <= pow16(n),
    decreases n,
{
    if m < n {
        lemma_pow16_mono(m, (n - 1) as nat);
    }
}

/// The characters of an ASCII byte string.
pub open spec fn ascii_chars(b: Seq<u8>) -> Seq<char> {
    Seq::new(b.len(), |i: int| b[i] as char)
}

/// Relies on `String::from_utf8`: bytes below 128 are valid UTF-8, one
/// character each, so the call succeeds.
#[verifier::external_body]
fn ascii_string(b: Vec<u8>) -> (r: String)
    requires
        forall|i: int| 0 <= i < b@.len() ==> b@[i] < 128,
    ensures
        r@ == ascii_chars(b@),
{
    String::from_utf8(b).unwrap()
}

/// Appends the `n` lowest hex digits of `x`, most significant first.
fn push_hex(out: &mut Vec<u8>, x: u64, n: usize)
    requires
        n <= 16,
    ensures
        final(out)@ == old(out)@ + hex_of(x as nat, n as nat),
        (forall|i: int| 0 <= i < old(out)@.len() ==> old(out)@[i] < 128) ==> forall|i: int|
            0 <= i < final(out)@.len() ==> final(out)@[i] < 128,
    decreases n,
{
    if n > 0 {
        push_hex(out, x / 16, n - 1);
        let d = (x % 16) as u8;
        let c = if d < 10 {
            48 + d
        } else {
            87 + d
        };
        out.push(c);
        assert(out@ =~= old(out)@ + hex_of(x as nat, n as nat));
    }
}

/// The decimal value of a hex digit already checked.
fn hex_digit_value(b: u8) -> (r: u8)
    requires
        is_hex_byte(b),
    ensures
        r as nat == hex_value(b),
        r < 16,
{
    if b <= 57 {
        b - 48
    } else if b >= 97 {
        b - 87
    } else {
        b - 55
    }
}

/// The number spelled by `n <= 16` hex digits starting at `start`.
fn read_hex(b: &[u8], start: usize, n: usize) -> (r: u64)
    requires
        start + n <= b@.len() == TEXT_LEN,
        n <= 16,
        forall|i: int| start <= i < start + n ==> is_hex_byte(#[trigger] b@[i]),
    ensures
        r as nat == digits_value(b@.subrange(start as int, start + n)),
{
    let mut v: u64 = 0;
    let mut k: usize = start;
    let end = start + n;
    while k < end
        invariant
            end == start + n,
            start <= k <= start + n <= b@.len(),
            n <= 16,
            forall|i: int| start <= i < start + n ==> is_hex_byte(#[trigger] b@[i]),
            v as nat == digits_value(b@.subrange(start as int, k as int)),
        decreases end - k,
    {
        let d = hex_digit_value(b[k]);
        proof {
            let t = b@.subrange(start as int, k + 1);
            assert(t.drop_last() =~= b@.subrange(start as int, k as int));
            assert forall|i: int| 0 <= i < t.len() implies is_hex_byte(#[trigger] t[i]) by {
                assert(t[i] == b@[start + i]);
            }
            lemma_digits_bound(t);
            lemma_pow16_mono(t.len(), 16);
            lemma_pow16_values();
        }
        v = v * 16 + d as u64;
        k = k + 1;
    }
    v
}

/// The coefficients of color `color`, ascending.
fn sorted_block(c: &Vec<i16>, color: usize) -> (r: Vec<i16>)
    requires
        c@.len() == NUM_COEFS,
        color < 3,
    ensures
        r@ == sorted_coefs(color_block(c@, color as int)),
{
    let mut block: Vec<i16> = Vec::new();
    let start = color * COEFS_PER_COLOR;
    let mut j: usize = 0;
    while j < COEFS_PER_COLOR
        invariant
            c@.len() == NUM_COEFS,
            color < 3,
            start == 40 * color,
            j <= COEFS_PER_COLOR,
            block@ == c@.subrange(start as int, start + j),
        decreases COEFS_PER_COLOR - j,
    {
        block.push(c[start + j]);
        j = j + 1;
        assert(block@ =~= c@.subrange(start as int, start + j));
    }
    sort_coefs(&mut block);
    block
}

/// Sorts each color's coefficients ascending.
pub fn normalize_coefs(c: &Vec<i16>) -> (r: Vec<i16>)
    requires
        c@.len() == NUM_COEFS,
    ensures
        r@ == normalized(c@),
{
    let mut r = sorted_block(c, 0);
    let mut b1 = sorted_block(c, 1);
    let mut b2 = sorted_block(c, 2);
    r.append(&mut b1);
    r.append(&mut b2);
    r
}

impl Signature {
    /// The textual form, as ASCII bytes.
    pub fn to_hash_bytes(&self) -> (r: Vec<u8>)
        ensures
            r@ == signature_text(self.avgl, self.sig@),
            forall|i: int| 0 <= i < r@.len() ==> r@[i] < 128,
    {
        let mut out: Vec<u8> = Vec::new();
        out.push(105u8);
        out.push(113u8);
        out.push(100u8);
        out.push(98u8);
        out.push(95u8);
        assert(out@ =~= text_prefix());
        push_hex(&mut out, self.avgl.0, 16);
        push_hex(&mut out, self.avgl.1, 16);
        push_hex(&mut out, self.avgl.2, 16);
        let ghost head = out@;
        let mut j: usize = 0;
        while j < self.sig.len()
            invariant
                j <= self.sig@.len(),
                head == text_prefix() + hex_of(self.avgl.0 as nat, 16) + hex_of(
                    self.avgl.1 as nat,
                    16,
                ) + hex_of(self.avgl.2 as nat, 16),
                out@ == head + coefs_hex(self.sig@.subrange(0, j as int)),
                forall|i: int| 0 <= i < out@.len() ==> out@[i] < 128,
            decreases self.sig@.len() - j,
        {
            push_hex(&mut out, self.sig[j] as u16 as u64, 4);
            proof {
                let c = self.sig@.subrange(0, j + 1);
                assert(c.drop_last() =~= self.sig@.subrange(0, j as int));
                assert(((self.sig@[j as int] as u16) as u64) as nat == (c.last() as u16) as nat);
            }
            j = j + 1;
            assert(out@ =~= head + coefs_hex(self.sig@.subrange(0, j as int)));
        }
        assert(self.sig@.subrange(0, j as int) =~= self.sig@);
        out
    }

    /// The textual form: `iqdb_` and lowercase hex digits.
    pub fn to_string(&self) -> (r: String)
        ensures
            r@ == ascii_chars(signature_text(self.avgl, self.sig@)),
    {
        ascii_string(self.to_hash_bytes())
    }

    /// Reads a textual form (hex digits of either case); each color's
    /// coefficients come out in ascending order.
    pub fn parse(s: &str) -> (r: Result<Signature, InvalidHash>)
        ensures
            r is Ok <==> is_signature_text(s.spec_bytes()),
            r matches Ok(sig) ==> {
                &&& sig.avgl == (
                    text_avgl(s.spec_bytes(), 0),
                    text_avgl(s.spec_bytes(), 1),
                    text_avgl(s.spec_bytes(), 2),
                )
                &&& sig.sig@ == normalized(text_coefs(s.spec_bytes()))
            },
    {
        Signature::parse_bytes(s.as_bytes())
    }

    fn parse_bytes(b: &[u8]) -> (r: Result<Signature, InvalidHash>)
        ensures
            r is Ok <==> is_signature_text(b@),
            r matches Ok(sig) ==> {
                &&& sig.avgl == (text_avgl(b@, 0), text_avgl(b@, 1), text_avgl(b@, 2))
                &&& sig.sig@ == normalized(text_coefs(b@))
            },
    {
        if b.len() != TEXT_LEN {
            return Err(InvalidHash);
        }
        if b[0] != 105u8 || b[1] != 113u8 || b[2] != 100u8 || b[3] != 98u8 || b[4] != 95u8 {
            assert(b@.subrange(0, 5) != text_prefix()) by {
                if b@.subrange(0, 5) == text_prefix() {
                    assert(b@.subrange(0, 5)[0] == b@[0]);
                    assert(b@.subrange(0, 5)[1] == b@[1]);
                    assert(b@.subrange(0, 5)[2] == b@[2]);
                    assert(b@.subrange(0, 5)[3] == b@[3]);
                    assert(b@.subrange(0, 5)[4] == b@[4]);
                }
            }
            return Err(InvalidHash);
        }
        assert(b@.subrange(0, 5) =~= text_prefix());
        let mut i: usize = 5;
        while i < TEXT_LEN
            invariant
                b@.len() == TEXT_LEN,
                5 <= i <= TEXT_LEN,
                forall|k: int| 5 <= k < i ==> is_hex_byte(#[trigger] b@[k]),
            decreases TEXT_LEN - i,
        {
            let c = b[i];
            if !((48 <= c && c <= 57) || (97 <= c && c <= 102) || (65 <= c && c <= 70)) {
                return Err(InvalidHash);
            }
            i = i + 1;
        }
        let y = read_hex(b, 5, 16);
        let ci = read_hex(b, 21, 16);
        let cq = read_hex(b, 37, 16);
        let mut coefs: Vec<i16> = Vec::new();
        let mut j: usize = 0;
        while j < NUM_COEFS
            invariant
                b@.len() == TEXT_LEN,
                is_signature_text(b@),
                j <= NUM_COEFS,
                coefs@ == text_coefs(b@).subrange(0, j as int),
            decreases NUM_COEFS - j,
        {
            let v = read_hex(b, 53 + 4 * j, 4);
            coefs.push(v as u16 as i16);
            j = j + 1;
            assert(coefs@ =~= text_coefs(b@).subrange(0, j as int));
        }
        assert(coefs@ =~= text_coefs(b@));
        let sig = normalize_coefs(&coefs);
        Ok(Signature { avgl: (y, ci, cq), sig })
    }
}

} // verus!
