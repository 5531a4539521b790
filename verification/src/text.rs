//! Byte-level text helpers: UTF-8 decoding at the trace boundary, and the
//! decimal and hexadecimal renderings used for addresses.

use vstd::prelude::*;

verus! {

/// Whether every byte is ASCII.
pub open spec fn is_ascii_seq(b: Seq<u8>) -> bool {
    forall|i: int| 0 <= i < b.len() ==> b[i] < 128
}

/// The characters of a sequence of ASCII bytes.
pub open spec fn ascii_chars(b: Seq<u8>) -> Seq<char> {
    b.map_values(|x: u8| x as char)
}

/// What decoding bytes as UTF-8 yields, with the empty string standing in
/// for bytes that are not valid UTF-8.  The result depends on the bytes
/// alone.
pub uninterp spec fn utf8_decode_or_empty(b: Seq<u8>) -> Seq<char>;

/// Relies on `String::from_utf8`: it decodes valid UTF-8 bytes and rejects
/// the rest (an empty string stands in); ASCII bytes decode to themselves.
#[verifier::external_body]
pub fn bytes_to_string(v: &[u8]) -> (r: String)
    ensures
        r@ == utf8_decode_or_empty(v@),
        is_ascii_seq(v@) ==> r@ == ascii_chars(v@),
        v@.len() == 0 ==> r@.len() == 0,
{
    String::from_utf8(v.to_vec()).unwrap_or_default()
}

/// The ASCII bytes of `n` in decimal, no leading zeros.
pub open spec fn dec_bytes(n: int) -> Seq<u8>
    decreases n,
{
    if n < 10 {
        seq![(48 + if n >= 0 { n } else { 0 }) as u8]
    } else {
        dec_bytes(n / 10).push((48 + n % 10) as u8)
    }
}

/// The ASCII byte of one hexadecimal digit, lower case.
pub open spec fn hex_digit(d: int) -> u8 {
    if d < 10 {
        (48 + d) as u8
    } else {
        (87 + d) as u8
    }
}

/// The ASCII bytes of `n` in lower-case hexadecimal, no leading zeros.
pub open spec fn hex_bytes(n: int) -> Seq<u8>
    decreases n,
{
    if n < 16 {
        seq![hex_digit(if n >= 0 { n } else { 0 })]
    } else {
        hex_bytes(n / 16).push(hex_digit(n % 16))
    }
}

pub proof fn lemma_dec_bytes_ascii(n: int)
    ensures
        is_ascii_seq(dec_bytes(n)),
    decreases n,
{
    if n >= 10 {
        lemma_dec_bytes_ascii(n / 10);
    }
}

pub proof fn lemma_hex_bytes_ascii(n: int)
    ensures
        is_ascii_seq(hex_bytes(n)),
    decreases n,
{
    if n >= 16 {
        lemma_hex_bytes_ascii(n / 16);
    }
}

/// Appends the decimal rendering of `v`.
pub fn push_dec_u32(out: &mut Vec<u8>, v: u32)
    ensures
        final(out)@ == old(out)@ + dec_bytes(v as int),
        is_ascii_seq(old(out)@) ==> is_ascii_seq(final(out)@),
    decreases v,
{
    if v < 10 {
        out.push(48 + v as u8);
    } else {
        push_dec_u32(out, v / 10);
        out.push(48 + (v % 10) as u8);
    }
    proof {
        assert(out@ =~= old(out)@ + dec_bytes(v as int));
        lemma_dec_bytes_ascii(v as int);
        if is_ascii_seq(old(out)@) {
            assert(is_ascii_seq(out@));
        }
    }
}

/// Appends the lower-case hexadecimal rendering of `v`.
pub fn push_hex_u16(out: &mut Vec<u8>, v: u16)
    ensures
        final(out)@ == old(out)@ + hex_bytes(v as int),
        is_ascii_seq(old(out)@) ==> is_ascii_seq(final(out)@),
    decreases v,
{
    if v < 16 {
        let d = v as u8;
        if d < 10 {
            out.push(48 + d);
        } else {
            out.push(87 + d);
        }
    } else {
        push_hex_u16(out, v / 16);
        let d = (v % 16) as u8;
        if d < 10 {
            out.push(48 + d);
        } else {
            out.push(87 + d);
        }
    }
    proof {
        assert(out@ =~= old(out)@ + hex_bytes(v as int));
        lemma_hex_bytes_ascii(v as int);
        if is_ascii_seq(old(out)@) {
            assert(is_ascii_seq(out@));
        }
    }
}

/// Relies on `String`'s `FromIterator`: collecting characters yields
/// exactly those characters.
#[verifier::external_body]
pub fn chars_to_string(v: &Vec<char>) -> (r: String)
    ensures
        r@ == v@,
{
    v.iter().collect()
}

/// The characters of a string, as a vector.
pub fn str_to_chars(s: &str) -> (v: Vec<char>)
    ensures
        v@ == s@,
{
    let n = s.unicode_len();
    let mut v: Vec<char> = Vec::new();
    let mut i: usize = 0;
    while i < n
        invariant
            0 <= i <= n,
            n == s@.len(),
            v@ == s@.subrange(0, i as int),
        decreases n - i,
    {
        let c = s.get_char(i);
        v.push(c);
        proof {
            assert(v@ =~= s@.subrange(0, i + 1));
        }
        i = i + 1;
    }
    proof {
        assert(s@.subrange(0, n as int) =~= s@);
    }
    v
}

/// Splitting a character sequence at a separator, with `cur` the piece
/// accumulated so far: the list of pieces, in order.  An empty input
/// yields the one accumulated piece, so a separator at either end yields
/// an empty piece there.
pub open spec fn split_acc(s: Seq<char>, sep: char, cur: Seq<char>) -> Seq<Seq<char>>
    decreases s.len(),
{
    if s.len() == 0 {
        seq![cur]
    } else if s[0] == sep {
        seq![cur] + split_acc(s.subrange(1, s.len() as int), sep, Seq::empty())
    } else {
        split_acc(s.subrange(1, s.len() as int), sep, cur.push(s[0]))
    }
}

/// The pieces of `s` split at `sep`.
pub open spec fn split_chars(s: Seq<char>, sep: char) -> Seq<Seq<char>> {
    split_acc(s, sep, Seq::empty())
}

/// How many pieces are empty.
pub open spec fn count_empty(toks: Seq<Seq<char>>) -> int
    decreases toks.len(),
{
    if toks.len() == 0 {
        0
    } else {
        (if toks[0].len() == 0 {
            1int
        } else {
            0int
        }) + count_empty(toks.subrange(1, toks.len() as int))
    }
}

/// The non-empty pieces, in order.
pub open spec fn nonempty_tokens(toks: Seq<Seq<char>>) -> Seq<Seq<char>>
    decreases toks.len(),
{
    if toks.len() == 0 {
        Seq::empty()
    } else {
        (if toks[0].len() == 0 {
            Seq::empty()
        } else {
            seq![toks[0]]
        }) + nonempty_tokens(toks.subrange(1, toks.len() as int))
    }
}

/// The non-empty pieces joined with `sep` between them; `started` records
/// whether a piece has already been written.
pub open spec fn join_rest(toks: Seq<Seq<char>>, sep: char, started: bool) -> Seq<char>
    decreases toks.len(),
{
    if toks.len() == 0 {
        Seq::empty()
    } else if toks[0].len() == 0 {
        join_rest(toks.subrange(1, toks.len() as int), sep, started)
    } else {
        (if started {
            seq![sep]
        } else {
            Seq::empty()
        }) + toks[0] + join_rest(toks.subrange(1, toks.len() as int), sep, true)
    }
}

/// Splits the characters of `v` at `sep`.
pub fn split_vec_chars(v: &Vec<char>, sep: char) -> (out: Vec<Vec<char>>)
    ensures
        out@.map_values(|t: Vec<char>| t@) == split_chars(v@, sep),
{
    let n = v.len();
    let mut out: Vec<Vec<char>> = Vec::new();
    let mut cur: Vec<char> = Vec::new();
    let mut i: usize = 0;
    proof {
        assert(v@.subrange(0, n as int) =~= v@);
        assert(out@.map_values(|t: Vec<char>| t@) =~= Seq::<Seq<char>>::empty());
        assert(Seq::<Seq<char>>::empty() + split_acc(v@, sep, Seq::empty()) =~= split_acc(
            v@,
            sep,
            Seq::empty(),
        ));
    }
    while i < n
        invariant
            0 <= i <= n,
            n == v@.len(),
            split_chars(v@, sep) == out@.map_values(|t: Vec<char>| t@) + split_acc(
                v@.subrange(i as int, n as int),
                sep,
                cur@,
            ),
        decreases n - i,
    {
        let ghost pre = v@.subrange(i as int, n as int);
        proof {
            assert(pre.subrange(1, pre.len() as int) =~= v@.subrange(i + 1, n as int));
            assert(pre[0] == v@[i as int]);
        }
        if v[i] == sep {
            let ghost old_out_view = out@.map_values(|t: Vec<char>| t@);
            let ghost cur_view = cur@;
            let done = cur;
            out.push(done);
            cur = Vec::new();
            proof {
                assert(out@.map_values(|t: Vec<char>| t@) =~= old_out_view + seq![cur_view]);
                assert(old_out_view + (seq![cur_view] + split_acc(
                    v@.subrange(i + 1, n as int),
                    sep,
                    Seq::empty(),
                )) =~= (old_out_view + seq![cur_view]) + split_acc(
                    v@.subrange(i + 1, n as int),
                    sep,
                    Seq::empty(),
                ));
            }
        } else {
            cur.push(v[i]);
        }
        i = i + 1;
    }
    proof {
        assert(v@.subrange(n as int, n as int) =~= Seq::<char>::empty());
    }
    let done = cur;
    out.push(done);
    proof {
        assert(out@.map_values(|t: Vec<char>| t@) =~= split_chars(v@, sep));
    }
    out
}

/// Character-wise string equality.
pub fn str_eq(a: &str, b: &str) -> (r: bool)
    ensures
        r == (a@ == b@),
{
    let n = a.unicode_len();
    if n != b.unicode_len() {
        proof {
            assert(a@ != b@);
        }
        return false;
    }
    let mut i: usize = 0;
    while i < n
        invariant
            0 <= i <= n,
            n == a@.len(),
            n == b@.len(),
            forall|j: int| 0 <= j < i ==> a@[j] == b@[j],
        decreases n - i,
    {
        if a.get_char(i) != b.get_char(i) {
            return false;
        }
        i = i + 1;
    }
    proof {
        assert(a@ =~= b@);
    }
    true
}

/// Appends one ASCII byte.
pub fn push_ascii_byte(out: &mut Vec<u8>, b: u8)
    requires
        b < 128,
    ensures
        final(out)@ == old(out)@.push(b),
        is_ascii_seq(old(out)@) ==> is_ascii_seq(final(out)@),
{
    out.push(b);
    proof {
        if is_ascii_seq(old(out)@) {
            assert(is_ascii_seq(out@));
        }
    }
}

} // verus!
