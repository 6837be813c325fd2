//! Byte-level helpers for working with UTF-8 source text: slicing at character
//! boundaries, comparing strings and rendering numbers.
use vstd::prelude::*;
use vstd::string::*;
use vstd::utf8::*;

verus! {

/// An index of a valid UTF-8 sequence holding an ASCII byte starts a character.
pub proof fn lemma_boundary_at_ascii(bytes: Seq<u8>, i: int)
    requires
        valid_utf8(bytes),
        0 <= i < bytes.len(),
        bytes[i] < 0x80,
    ensures
        is_char_boundary(bytes, i),
{
    is_char_boundary_iff_not_is_continuation_byte(bytes, i);
}

/// The index right after an ASCII byte of a valid UTF-8 sequence starts a
/// character (or is the end of the sequence).
pub proof fn lemma_boundary_after_ascii(bytes: Seq<u8>, i: int)
    requires
        valid_utf8(bytes),
        0 <= i < bytes.len(),
        bytes[i] < 0x80,
    ensures
        is_char_boundary(bytes, i + 1),
        i + 1 < bytes.len() ==> !is_continuation_byte(bytes[i + 1]),
{
    is_char_boundary_start_end_of_seq(bytes);
    if i + 1 < bytes.len() {
        lemma_boundary_at_ascii(bytes, i);
        valid_utf8_split(bytes, i);
        let suffix = bytes.subrange(i, bytes.len() as int);
        assert(pop_first_scalar(suffix) =~= bytes.subrange(i + 1, bytes.len() as int));
        let rest = bytes.subrange(i + 1, bytes.len() as int);
        assert(valid_utf8(rest));
        is_char_boundary_iff_not_is_continuation_byte(rest, 0);
        assert(rest[0] == bytes[i + 1]);
        is_char_boundary_iff_not_is_continuation_byte(bytes, i + 1);
    }
}

/// Both ends of the encoding of a string are character boundaries.
pub proof fn lemma_str_ends(s: &str)
    ensures
        valid_utf8(s.spec_bytes()),
        is_char_boundary(s.spec_bytes(), 0),
        is_char_boundary(s.spec_bytes(), s.spec_bytes().len() as int),
{
    encode_utf8_valid_utf8(s@);
    is_char_boundary_start_end_of_seq(s.spec_bytes());
}

/// The characters of a string are the decoding of its bytes.
pub proof fn lemma_view_is_decoded_bytes(s: &str)
    ensures
        valid_utf8(s.spec_bytes()),
        s@ == decode_utf8(s.spec_bytes()),
{
    encode_utf8_valid_utf8(s@);
    encode_utf8_decode_utf8(s@);
}

/// The part of `s` between the byte offsets `from` and `to`, both character boundaries.
pub fn substr<'a>(s: &'a str, from: usize, to: usize) -> (r: &'a str)
    requires
        from <= to <= s.spec_bytes().len(),
        is_char_boundary(s.spec_bytes(), from as int),
        is_char_boundary(s.spec_bytes(), to as int),
    ensures
        r.spec_bytes() == s.spec_bytes().subrange(from as int, to as int),
{
    proof {
        encode_utf8_valid_utf8(s@);
    }
    let (left, _right) = s.split_at(to);
    proof {
        let b = s.spec_bytes();
        let l = b.subrange(0, to as int);
        valid_utf8_split(b, to as int);
        assert(left.spec_bytes() =~= l);
        if from < to {
            is_char_boundary_iff_not_is_continuation_byte(b, from as int);
            is_char_boundary_iff_not_is_continuation_byte(l, from as int);
        } else {
            is_char_boundary_start_end_of_seq(l);
        }
    }
    let (_head, r) = left.split_at(from);
    proof {
        assert(r.spec_bytes() =~= s.spec_bytes().subrange(from as int, to as int));
    }
    r
}

/// Whether two byte slices hold the same bytes.
pub fn bytes_eq(x: &[u8], y: &[u8]) -> (r: bool)
    ensures
        r == (x@ == y@),
{
    if x.len() != y.len() {
        return false;
    }
    let mut i: usize = 0;
    while i < x.len()
        invariant
            x@.len() == y@.len(),
            0 <= i <= x@.len(),
            forall|j: int| 0 <= j < i ==> x@[j] == y@[j],
        decreases x@.len() - i,
    {
        if x[i] != y[i] {
            return false;
        }
        i = i + 1;
    }
    assert(x@ =~= y@);
    true
}

/// `x` comes before `y` in the order of their bytes; a proper prefix comes first.
pub open spec fn bytes_lt(x: Seq<u8>, y: Seq<u8>) -> bool
    decreases x.len(),
{
    if x.len() == 0 {
        y.len() > 0
    } else if y.len() == 0 {
        false
    } else if x[0] != y[0] {
        x[0] < y[0]
    } else {
        bytes_lt(x.drop_first(), y.drop_first())
    }
}

/// The order of bytes is a strict total order.
pub proof fn bytes_lt_is_a_strict_total_order(x: Seq<u8>, y: Seq<u8>, z: Seq<u8>)
    ensures
        !bytes_lt(x, x),
        x != y ==> bytes_lt(x, y) || bytes_lt(y, x),
        !(bytes_lt(x, y) && bytes_lt(y, x)),
        bytes_lt(x, y) && bytes_lt(y, z) ==> bytes_lt(x, z),
    decreases x.len(),
{
    if x.len() > 0 && y.len() > 0 && z.len() > 0 {
        bytes_lt_is_a_strict_total_order(x.drop_first(), y.drop_first(), z.drop_first());
        if x[0] == y[0] && x != y {
            assert(x.drop_first() != y.drop_first()) by {
                if x.drop_first() == y.drop_first() {
                    assert(x =~= seq![x[0]] + x.drop_first());
                    assert(y =~= seq![y[0]] + y.drop_first());
                }
            }
        }
    } else if x.len() > 0 && y.len() > 0 {
        bytes_lt_is_a_strict_total_order(x.drop_first(), y.drop_first(), y.drop_first());
        if x[0] == y[0] && x != y {
            assert(x.drop_first() != y.drop_first()) by {
                if x.drop_first() == y.drop_first() {
                    assert(x =~= seq![x[0]] + x.drop_first());
                    assert(y =~= seq![y[0]] + y.drop_first());
                }
            }
        }
    } else if x.len() > 0 {
        bytes_lt_is_a_strict_total_order(x.drop_first(), x.drop_first(), x.drop_first());
    } else if y.len() == 0 {
        assert(x =~= y);
    }
}

/// Whether `x` comes before `y` in the order of their bytes.
pub fn bytes_less(x: &[u8], y: &[u8]) -> (r: bool)
    ensures
        r == bytes_lt(x@, y@),
{
    let mut i: usize = 0;
    assert(x@.skip(0) =~= x@);
    assert(y@.skip(0) =~= y@);
    while i < x.len() && i < y.len() && x[i] == y[i]
        invariant
            0 <= i <= x@.len(),
            i <= y@.len(),
            bytes_lt(x@, y@) == bytes_lt(x@.skip(i as int), y@.skip(i as int)),
        decreases x@.len() - i,
    {
        assert(x@.skip(i as int).drop_first() =~= x@.skip(i + 1));
        assert(y@.skip(i as int).drop_first() =~= y@.skip(i + 1));
        i = i + 1;
    }
    if i == x.len() {
        i < y.len()
    } else if i == y.len() {
        false
    } else {
        x[i] < y[i]
    }
}

/// Whether two strings hold the same characters.
pub fn str_eq(a: &str, b: &str) -> (r: bool)
    ensures
        r == (a@ == b@),
{
    let x = a.as_bytes();
    let y = b.as_bytes();
    let r = bytes_eq(x, y);
    proof {
        encode_utf8_decode_utf8(a@);
        encode_utf8_decode_utf8(b@);
    }
    r
}

/// The character of a decimal digit.
pub open spec fn digit_char(d: nat) -> char {
    if d == 0 { '0' }
    else if d == 1 { '1' }
    else if d == 2 { '2' }
    else if d == 3 { '3' }
    else if d == 4 { '4' }
    else if d == 5 { '5' }
    else if d == 6 { '6' }
    else if d == 7 { '7' }
    else if d == 8 { '8' }
    else { '9' }
}

/// The pieces of `s` between the pairs of `sep` found from the left without
/// overlap, as `str::split` gives them for a pattern of two `sep`; the current
/// piece began at `start` and the search stands at `i`.
pub open spec fn pieces_between<A>(s: Seq<A>, sep: A, start: int, i: int) -> Seq<Seq<A>>
    decreases s.len() - i,
{
    if i + 1 >= s.len() {
        seq![s.subrange(start, s.len() as int)]
    } else if s[i] == sep && s[i + 1] == sep {
        seq![s.subrange(start, i)] + pieces_between(s, sep, i + 2, i + 2)
    } else {
        pieces_between(s, sep, start, i + 1)
    }
}

/// No two `sep` follow each other from index `i` on: the rest of `s` is one piece.
pub proof fn lemma_pieces_without_pairs<A>(s: Seq<A>, sep: A, start: int, i: int)
    requires
        0 <= start <= i <= s.len(),
        forall|k: int| i <= k && k + 1 < s.len() ==> !(#[trigger] s[k] == sep && s[k + 1] == sep),
    ensures
        pieces_between(s, sep, start, i) == seq![s.subrange(start, s.len() as int)],
    decreases s.len() - i,
{
    if i + 1 < s.len() {
        lemma_pieces_without_pairs(s, sep, start, i + 1);
    }
}

/// The first two `sep` from index `i` on stand at `k`: the current piece ends there.
pub proof fn lemma_pieces_up_to_pair<A>(s: Seq<A>, sep: A, start: int, i: int, k: int)
    requires
        0 <= start <= i <= k,
        k + 1 < s.len(),
        s[k] == sep && s[k + 1] == sep,
        forall|m: int| i <= m < k ==> !(#[trigger] s[m] == sep && s[m + 1] == sep),
    ensures
        pieces_between(s, sep, start, i) == seq![s.subrange(start, k)] + pieces_between(
            s,
            sep,
            k + 2,
            k + 2,
        ),
    decreases k - i,
{
    if i < k {
        lemma_pieces_up_to_pair(s, sep, start, i + 1, k);
    }
}

/// The decimal notation of a natural number, without leading zeros.
pub open spec fn decimal(n: nat) -> Seq<char>
    decreases n,
{
    if n < 10 {
        seq![digit_char(n)]
    } else {
        decimal(n / 10) + seq![digit_char(n % 10)]
    }
}

fn digit_str(d: usize) -> (r: &'static str)
    requires
        d < 10,
    ensures
        r@ == seq![digit_char(d as nat)],
{
    proof {
        reveal_strlit("0");
        reveal_strlit("1");
        reveal_strlit("2");
        reveal_strlit("3");
        reveal_strlit("4");
        reveal_strlit("5");
        reveal_strlit("6");
        reveal_strlit("7");
        reveal_strlit("8");
        reveal_strlit("9");
    }
    if d == 0 { "0" }
    else if d == 1 { "1" }
    else if d == 2 { "2" }
    else if d == 3 { "3" }
    else if d == 4 { "4" }
    else if d == 5 { "5" }
    else if d == 6 { "6" }
    else if d == 7 { "7" }
    else if d == 8 { "8" }
    else { "9" }
}

/// The decimal notation of `n`.
pub fn usize_to_string(n: usize) -> (s: String)
    ensures
        s@ == decimal(n as nat),
    decreases n,
{
    if n < 10 {
        String::from_str(digit_str(n))
    } else {
        let mut s = usize_to_string(n / 10);
        s.append(digit_str(n % 10));
        s
    }
}

/// The decimal notation of `n`.
pub fn u128_to_string(n: u128) -> (s: String)
    ensures
        s@ == decimal(n as nat),
    decreases n,
{
    if n < 10 {
        String::from_str(digit_str(n as usize))
    } else {
        let mut s = u128_to_string(n / 10);
        s.append(digit_str((n % 10) as usize));
        s
    }
}

/// `count` copies of `unit` put one after the other.
pub open spec fn repeat(unit: Seq<char>, count: nat) -> Seq<char>
    decreases count,
{
    if count == 0 {
        Seq::empty()
    } else {
        repeat(unit, (count - 1) as nat) + unit
    }
}

/// `count` copies of `unit`.
pub fn repeat_str(unit: &str, count: usize) -> (s: String)
    ensures
        s@ == repeat(unit@, count as nat),
{
    let mut s = String::new();
    let mut i: usize = 0;
    while i < count
        invariant
            i <= count,
            s@ == repeat(unit@, i as nat),
        decreases count - i,
    {
        s.append(unit);
        i = i + 1;
    }
    s
}

} // verus!

verus! {

/// Whether the bytes of `bytes` from `lo` up to `hi` are exactly `word`.
pub fn range_eq(bytes: &[u8], lo: usize, hi: usize, word: &[u8]) -> (r: bool)
    requires
        lo <= hi <= bytes@.len(),
    ensures
        r == (bytes@.subrange(lo as int, hi as int) == word@),
{
    if hi - lo != word.len() {
        return false;
    }
    let mut i: usize = 0;
    while i < word.len()
        invariant
            lo <= hi <= bytes@.len(),
            hi - lo == word@.len(),
            0 <= i <= word@.len(),
            forall|j: int| 0 <= j < i ==> bytes@[lo + j] == word@[j],
        decreases word@.len() - i,
    {
        if bytes[lo + i] != word[i] {
            return false;
        }
        i = i + 1;
    }
    assert(bytes@.subrange(lo as int, hi as int) =~= word@);
    true
}

} // verus!
