use vstd::prelude::*;
use vstd::utf8::*;

verus! {

/// The byte that separates tokens: an ASCII space.
const SPACE: u8 = 0x20;

/// No character of `s` is a space.
pub open spec fn no_space(s: Seq<char>) -> bool {
    forall|j: int| 0 <= j < s.len() ==> s[j] != ' '
}

/// `i` is the position of the first space in `s`.
pub open spec fn is_first_space(s: Seq<char>, i: int) -> bool {
    &&& 0 <= i < s.len()
    &&& s[i] == ' '
    &&& no_space(s.take(i))
}

/// `t` is the leading token of `s`: a prefix of `s` without a space that ends at the
/// first space of `s`, or at its end.
pub open spec fn is_leading_token(s: Seq<char>, t: Seq<char>) -> bool {
    &&& t.len() <= s.len()
    &&& t == s.take(t.len() as int)
    &&& no_space(t)
    &&& t.len() < s.len() ==> s[t.len() as int] == ' '
}

/// The encoding of a character other than a space holds no byte 0x20; that of a space
/// is that one byte.
proof fn lemma_encode_scalar_space(c: char)
    ensures
        c == ' ' ==> encode_scalar(c as u32) == seq![0x20u8],
        c != ' ' ==> forall|j: int|
            0 <= j < encode_scalar(c as u32).len() ==> #[trigger] encode_scalar(c as u32)[j] != 0x20u8,
        encode_scalar(c as u32).len() >= 1,
{
    let v = c as u32;
    if has_width_1_encoding(v) {
        assert(v <= 0x7f ==> (v & 0x7f) as u8 == v as u8) by (bit_vector);
        assert(v <= 0x7f ==> (v as u8 == 0x20u8 <==> v == 0x20u32)) by (bit_vector);
    } else {
        assert(forall|x: u8| #[trigger] (0xC0u8 | x) != 0x20u8) by (bit_vector);
        assert(forall|x: u8| #[trigger] (0xE0u8 | x) != 0x20u8) by (bit_vector);
        assert(forall|x: u8| #[trigger] (0xF0u8 | x) != 0x20u8) by (bit_vector);
        assert(forall|x: u8| #[trigger] (0x80u8 | x) != 0x20u8) by (bit_vector);
    }
}

/// Where the bytes of the encoding of `cs` before `n` hold no 0x20 and `n` is the end
/// or a 0x20 byte, those bytes encode the characters of `cs` before its first space.
proof fn lemma_first_space_byte(cs: Seq<char>, n: int) -> (k: int)
    requires
        0 <= n <= encode_utf8(cs).len(),
        forall|j: int| 0 <= j < n ==> encode_utf8(cs)[j] != 0x20u8,
        n == encode_utf8(cs).len() || encode_utf8(cs)[n] == 0x20u8,
    ensures
        0 <= k <= cs.len(),
        encode_utf8(cs.take(k)) == encode_utf8(cs).take(n),
        no_space(cs.take(k)),
        k < cs.len() ==> cs[k] == ' ',
        k == cs.len() <==> n == encode_utf8(cs).len(),
    decreases cs.len(),
{
    let bs = encode_utf8(cs);
    if cs.len() == 0 {
        assert(cs.take(0) =~= Seq::<char>::empty());
        assert(bs.take(0) =~= Seq::<u8>::empty());
        0
    } else {
        let c = cs[0];
        let e = encode_scalar(c as u32);
        let rest = cs.drop_first();
        lemma_encode_scalar_space(c);
        assert(bs == e + encode_utf8(rest));
        if c == ' ' {
            assert(bs[0] == 0x20u8);
            assert(n == 0);
            assert(cs.take(0) =~= Seq::<char>::empty());
            assert(bs.take(0) =~= Seq::<u8>::empty());
            0
        } else {
            if n < e.len() {
                assert(bs[n] == e[n]);
            }
            assert(n >= e.len());
            let m = n - e.len();
            assert forall|j: int| 0 <= j < m implies encode_utf8(rest)[j] != 0x20u8 by {
                assert(bs[j + e.len()] == encode_utf8(rest)[j]);
            }
            if m < encode_utf8(rest).len() {
                assert(bs[n] == encode_utf8(rest)[m]);
            }
            let k1 = lemma_first_space_byte(rest, m);
            let k = k1 + 1;
            let p = cs.take(k);
            assert(p[0] == c);
            assert(p.drop_first() =~= rest.take(k1));
            assert(encode_utf8(p) == e + encode_utf8(rest.take(k1)));
            assert(bs.take(n) =~= e + encode_utf8(rest).take(m));
            assert forall|j: int| 0 <= j < p.len() implies p[j] != ' ' by {
                if j > 0 {
                    assert(p[j] == rest.take(k1)[j - 1]);
                }
            }
            k
        }
    }
}

/// A leading token ends at the first space where there is one, and is the whole text
/// where there is none.
proof fn lemma_leading_token_ends_at_first_space(s: Seq<char>, t: Seq<char>)
    requires
        is_leading_token(s, t),
    ensures
        no_space(s) ==> t == s,
        forall|i: int| is_first_space(s, i) ==> t == s.take(i),
{
    if t.len() == s.len() {
        assert(t =~= s);
    }
    assert forall|i: int| is_first_space(s, i) implies t == s.take(i) by {
        if i < t.len() {
            assert(t[i] == s[i]);
        } else if i > t.len() {
            assert(s.take(i)[t.len() as int] == s[t.len() as int]);
        }
    }
}

/// The leading token of `s`: the characters before its first space, or all of `s` where
/// it holds none. The result is a view into `s`; the scan reads each byte at most once.
pub fn first_word(s: &str) -> (r: &str)
    ensures
        is_leading_token(s@, r@),
        no_space(s@) ==> r@ == s@,
        forall|i: int| is_first_space(s@, i) ==> r@ == s@.take(i),
{
    broadcast use group_utf8_lib;

    let bytes = s.as_bytes();
    let mut i: usize = 0;
    while i < bytes.len()
        invariant
            bytes@ == encode_utf8(s@),
            i <= bytes@.len(),
            forall|j: int| 0 <= j < i ==> bytes@[j] != 0x20u8,
        decreases bytes@.len() - i,
    {
        if bytes[i] == SPACE {
            let ghost k = lemma_first_space_byte(s@, i as int);
            proof {
                assert(!is_continuation_byte(0x20u8)) by (bit_vector);
                encode_utf8_valid_utf8(s@);
                is_char_boundary_iff_not_is_continuation_byte(bytes@, i as int);
            }
            let (head, _) = s.split_at(i);
            proof {
                encode_utf8_decode_utf8(head@);
                encode_utf8_decode_utf8(s@.take(k));
                lemma_leading_token_ends_at_first_space(s@, head@);
            }
            return head;
        }
        i = i + 1;
    }
    let ghost k = lemma_first_space_byte(s@, i as int);
    proof {
        assert(s@.take(k) =~= s@);
        lemma_leading_token_ends_at_first_space(s@, s@);
    }
    s
}

/// The leading token of a text is unique.
pub proof fn lemma_leading_token_unique(s: Seq<char>, t: Seq<char>, u: Seq<char>)
    requires
        is_leading_token(s, t),
        is_leading_token(s, u),
    ensures
        t == u,
{
    if t.len() < u.len() {
        assert(u[t.len() as int] == s[t.len() as int]);
    } else if u.len() < t.len() {
        assert(t[u.len() as int] == s[u.len() as int]);
    }
    assert(t =~= u);
}

/// Extracting the leading token of a leading token gives it back unchanged.
pub proof fn lemma_leading_token_idempotent(s: Seq<char>, t: Seq<char>, u: Seq<char>)
    requires
        is_leading_token(s, t),
        is_leading_token(t, u),
    ensures
        u == t,
{
    assert(t.take(t.len() as int) =~= t);
    assert(is_leading_token(t, t));
    lemma_leading_token_unique(t, t, u);
}

} // verus!
