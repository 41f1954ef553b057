//! Text as a sequence of characters, measured and cut by its UTF-8 bytes.
use vstd::prelude::*;
use vstd::string::*;
use vstd::utf8::*;

verus! {

/// The number of bytes in the UTF-8 encoding of `s`.
pub open spec fn utf8_len(s: Seq<char>) -> nat {
    encode_utf8(s).len()
}

/// The number of bytes in the UTF-8 encoding of one character.
pub open spec fn char_width(c: char) -> nat {
    encode_scalar(c as u32).len()
}

/// Every character is encoded in one to four bytes.
pub proof fn lemma_char_width_bounds(c: char)
    ensures
        1 <= char_width(c) <= 4,
{
}

/// The encoding of a non-empty text is that of its first character followed
/// by that of the rest.
pub proof fn lemma_encode_unfold(s: Seq<char>)
    requires
        s.len() > 0,
    ensures
        encode_utf8(s) == encode_scalar(s[0] as u32) + encode_utf8(s.drop_first()),
        utf8_len(s) == char_width(s[0]) + utf8_len(s.drop_first()),
        valid_first_scalar(encode_utf8(s)),
        length_of_first_scalar(encode_utf8(s)) == char_width(s[0]),
        pop_first_scalar(encode_utf8(s)) == encode_utf8(s.drop_first()),
{
    encode_utf8_first_scalar(s);
    assert(pop_first_scalar(encode_utf8(s)) =~= encode_utf8(s.drop_first()));
}

/// Encoding distributes over concatenation.
pub proof fn lemma_encode_concat(a: Seq<char>, b: Seq<char>)
    ensures
        encode_utf8(a + b) == encode_utf8(a) + encode_utf8(b),
        utf8_len(a + b) == utf8_len(a) + utf8_len(b),
    decreases a.len(),
{
    if a.len() == 0 {
        assert(a + b =~= b);
        assert(encode_utf8(a) + encode_utf8(b) =~= encode_utf8(b));
    } else {
        lemma_encode_concat(a.drop_first(), b);
        assert((a + b).drop_first() =~= a.drop_first() + b);
        assert(encode_utf8(a + b) =~= encode_utf8(a) + encode_utf8(b));
    }
}

/// Two texts with the same encoding are the same text.
pub proof fn lemma_encode_injective(a: Seq<char>, b: Seq<char>)
    requires
        encode_utf8(a) == encode_utf8(b),
    ensures
        a == b,
{
    encode_utf8_decode_utf8(a);
    encode_utf8_decode_utf8(b);
}

/// Cutting the encoding of a text at a character boundary cuts the text
/// between two characters.
pub proof fn lemma_split_at_boundary(s: Seq<char>, left: Seq<char>, right: Seq<char>, mid: int)
    requires
        is_char_boundary(encode_utf8(s), mid),
        encode_utf8(left) == encode_utf8(s).subrange(0, mid),
        encode_utf8(right) == encode_utf8(s).subrange(mid, encode_utf8(s).len() as int),
    ensures
        left + right == s,
        utf8_len(left) == mid,
        0 <= mid <= utf8_len(s),
{
    let bytes = encode_utf8(s);
    encode_utf8_valid_utf8(s);
    decode_utf8_split(bytes, mid);
    encode_utf8_decode_utf8(s);
    encode_utf8_decode_utf8(left);
    encode_utf8_decode_utf8(right);
    assert(0 <= mid <= bytes.len()) by {
        reveal_with_fuel(is_char_boundary, 1);
    }
}

/// Splits a string slice in two at a byte offset that lies between two
/// characters.
pub fn split_str<'a>(s: &'a str, mid: usize) -> (r: (&'a str, &'a str))
    requires
        is_char_boundary(s.spec_bytes(), mid as int),
    ensures
        r.0@ + r.1@ == s@,
        utf8_len(r.0@) == mid,
        r.0.spec_bytes() == s.spec_bytes().subrange(0, mid as int),
        r.1.spec_bytes() == s.spec_bytes().subrange(mid as int, s.spec_bytes().len() as int),
{
    let r = s.split_at(mid);
    proof {
        lemma_split_at_boundary(s@, r.0@, r.1@, mid as int);
    }
    r
}

/// True if the two string slices hold the same text.
pub fn same_text(a: &str, b: &str) -> (r: bool)
    ensures
        r == (a@ == b@),
{
    let x = a.as_bytes();
    let y = b.as_bytes();
    if x.len() != y.len() {
        return false;
    }
    let mut i: usize = 0;
    while i < x.len()
        invariant
            i <= x.len(),
            x.len() == y.len(),
            x@ == a.spec_bytes(),
            y@ == b.spec_bytes(),
            forall|j: int| 0 <= j < i ==> x@[j] == y@[j],
        decreases x.len() - i,
    {
        if x[i] != y[i] {
            return false;
        }
        i = i + 1;
    }
    proof {
        assert(x@ =~= y@);
        lemma_encode_injective(a@, b@);
    }
    true
}

/// The byte offset of the end of `a` in the encoding of `a + b` lies between
/// two characters.
pub proof fn lemma_boundary_after_prefix(a: Seq<char>, b: Seq<char>)
    ensures
        is_char_boundary(encode_utf8(a + b), utf8_len(a) as int),
    decreases a.len(),
{
    encode_utf8_valid_utf8(a + b);
    if a.len() > 0 {
        lemma_encode_unfold(a);
        lemma_encode_unfold(a + b);
        lemma_encode_concat(a, b);
        assert((a + b).drop_first() =~= a.drop_first() + b);
        lemma_boundary_after_prefix(a.drop_first(), b);
        reveal_with_fuel(is_char_boundary, 2);
    }
}

/// A character below 0x80 is encoded as one byte, its own value; every byte
/// in the encoding of any other character is 0x80 or more.
pub proof fn lemma_ascii_encoding(c: char)
    ensures
        (c as u32) < 0x80 ==> encode_scalar(c as u32) == seq![(c as u32) as u8],
        (c as u32) >= 0x80 ==> encode_scalar(c as u32)[0] >= 0x80,
        (c as u32) < 0x80 <==> char_width(c) == 1,
{
    let v = c as u32;
    if v < 0x80 {
        assert((v & 0x7F) as u8 == v as u8) by (bit_vector)
            requires
                v < 0x80,
        ;
        assert(encode_scalar(v) =~= seq![v as u8]);
    } else {
        assert((0xC0u8 | ((v >> 6) & 0x1F) as u8) >= 0x80) by (bit_vector);
        assert((0xE0u8 | ((v >> 12) & 0x0F) as u8) >= 0x80) by (bit_vector);
        assert((0xF0u8 | ((v >> 18) & 0x7) as u8) >= 0x80) by (bit_vector);
    }
}

/// Two characters with the same scalar value are the same character.
pub proof fn lemma_char_by_value(a: char, b: char)
    requires
        a as u32 == b as u32,
    ensures
        a == b,
{
    char_u32_cast(a, a as u32);
    char_u32_cast(b, b as u32);
}

/// The first byte of the encoding of a non-empty text tells whether its
/// first character is below 0x80, and which one it is if so.
pub proof fn lemma_first_byte(s: Seq<char>)
    requires
        s.len() > 0,
    ensures
        utf8_len(s) > 0,
        encode_utf8(s)[0] < 0x80 <==> (s[0] as u32) < 0x80,
        (s[0] as u32) < 0x80 ==> encode_utf8(s)[0] == s[0] as u32 && char_width(s[0]) == 1,
{
    lemma_encode_unfold(s);
    lemma_ascii_encoding(s[0]);
}

/// The byte at which the character `s[k]` starts in the encoding of `s`.
pub proof fn lemma_byte_of_char(s: Seq<char>, k: int)
    requires
        0 <= k < s.len(),
    ensures
        utf8_len(s.subrange(0, k)) < utf8_len(s),
        encode_utf8(s)[utf8_len(s.subrange(0, k)) as int] < 0x80 <==> (s[k] as u32) < 0x80,
        (s[k] as u32) < 0x80 ==> encode_utf8(s)[utf8_len(s.subrange(0, k)) as int] == s[k] as u32,
        (s[k] as u32) < 0x80 ==> utf8_len(s.subrange(0, k + 1)) == utf8_len(s.subrange(0, k)) + 1,
{
    let a = s.subrange(0, k);
    let b = s.subrange(k, s.len() as int);
    assert(a + b =~= s);
    lemma_encode_concat(a, b);
    lemma_first_byte(b);
    assert(s.subrange(0, k + 1) =~= a + seq![s[k]]);
    lemma_encode_concat(a, seq![s[k]]);
    lemma_encode_unfold(seq![s[k]]);
    assert(seq![s[k]].drop_first() =~= Seq::<char>::empty());
    assert(encode_utf8(Seq::<char>::empty()) =~= Seq::<u8>::empty());
}

/// Where the first `n` characters of `s` are below 0x80, they are the first
/// `n` bytes of its encoding, and the next byte, if there is one, starts the
/// next character.
pub proof fn lemma_ascii_run(s: Seq<char>, n: int)
    requires
        0 <= n <= s.len(),
        forall|i: int| 0 <= i < n ==> (#[trigger] s[i] as u32) < 0x80,
    ensures
        utf8_len(s.subrange(0, n)) == n,
        n <= utf8_len(s),
        forall|i: int| 0 <= i < n ==> #[trigger] encode_utf8(s)[i] == s[i] as u32,
        n < s.len() <==> n < utf8_len(s),
        n < s.len() ==> (encode_utf8(s)[n] < 0x80 <==> (s[n] as u32) < 0x80),
        n < s.len() && (s[n] as u32) < 0x80 ==> encode_utf8(s)[n] == s[n] as u32,
    decreases n,
{
    if n == 0 {
        assert(s.subrange(0, 0) =~= Seq::<char>::empty());
        assert(encode_utf8(Seq::<char>::empty()) =~= Seq::<u8>::empty());
    } else {
        lemma_ascii_run(s, n - 1);
        assert((s[n - 1] as u32) < 0x80);
        lemma_byte_of_char(s, n - 1);
    }
    if n < s.len() {
        lemma_byte_of_char(s, n);
    } else {
        assert(s.subrange(0, n) =~= s);
    }
}

/// Where the first `n` bytes of the encoding of `s` are below 0x80, they are
/// the first `n` characters of `s`, and the next byte, if there is one,
/// starts the next character.
pub proof fn lemma_ascii_bytes_run(s: Seq<char>, n: int)
    requires
        0 <= n <= utf8_len(s),
        forall|i: int| 0 <= i < n ==> #[trigger] encode_utf8(s)[i] < 0x80,
    ensures
        n <= s.len(),
        utf8_len(s.subrange(0, n)) == n,
        forall|i: int| 0 <= i < n ==> (#[trigger] s[i] as u32) == encode_utf8(s)[i],
        n < s.len() <==> n < utf8_len(s),
        n < s.len() ==> (encode_utf8(s)[n] < 0x80 <==> (s[n] as u32) < 0x80),
        n < s.len() && (s[n] as u32) < 0x80 ==> encode_utf8(s)[n] == s[n] as u32,
    decreases n,
{
    if n > 0 {
        lemma_ascii_bytes_run(s, n - 1);
        assert(encode_utf8(s)[n - 1] < 0x80);
    }
    lemma_ascii_run(s, n);
}

/// Two parts that make up `s`, the first as long in bytes as the first `k`
/// characters of `s`, are `s` cut behind its first `k` characters.
pub proof fn lemma_split_is_subrange(s: Seq<char>, left: Seq<char>, right: Seq<char>, k: int)
    requires
        0 <= k <= s.len(),
        left + right == s,
        utf8_len(left) == utf8_len(s.subrange(0, k)),
    ensures
        left == s.subrange(0, k),
        right == s.subrange(k, s.len() as int),
{
    let a = s.subrange(0, k);
    let b = s.subrange(k, s.len() as int);
    assert(a + b =~= s);
    lemma_encode_concat(a, b);
    lemma_encode_concat(left, right);
    assert(encode_utf8(left) =~= encode_utf8(s).subrange(0, utf8_len(left) as int));
    assert(encode_utf8(a) =~= encode_utf8(s).subrange(0, utf8_len(a) as int));
    lemma_encode_injective(left, a);
    assert(right =~= b) by {
        assert(left.len() == k);
        assert forall|i: int| 0 <= i < right.len() implies right[i] == b[i] by {
            assert(right[i] == (left + right)[k + i]);
        }
    }
}

/// The encoding of a text takes at most four bytes for each character.
pub proof fn lemma_utf8_len_le_four_each(s: Seq<char>)
    ensures
        utf8_len(s) <= 4 * s.len(),
    decreases s.len(),
{
    if s.len() > 0 {
        lemma_encode_unfold(s);
        lemma_utf8_len_le_four_each(s.drop_first());
    }
}

/// A text has at most as many characters as its encoding has bytes.
pub proof fn lemma_len_le_utf8_len(s: Seq<char>)
    ensures
        s.len() <= utf8_len(s),
    decreases s.len(),
{
    if s.len() > 0 {
        lemma_encode_unfold(s);
        lemma_len_le_utf8_len(s.drop_first());
    }
}

/// Splits a string slice around the one-byte character that starts at byte
/// `at`, which is left out of both parts.
pub fn split_around_byte<'a>(s: &'a str, at: usize) -> (r: (&'a str, &'a str))
    requires
        at < s.spec_bytes().len(),
        s.spec_bytes()[at as int] < 0x80,
    ensures
        r.0@.len() < s@.len(),
        s@ == r.0@ + seq![s@[r.0@.len() as int]] + r.1@,
        s@[r.0@.len() as int] as u32 == s.spec_bytes()[at as int],
        r.0@ == s@.subrange(0, r.0@.len() as int),
        r.1@ == s@.subrange(r.0@.len() as int + 1, s@.len() as int),
        r.0.spec_bytes() == s.spec_bytes().subrange(0, at as int),
        r.1.spec_bytes() == s.spec_bytes().subrange(at + 1, s.spec_bytes().len() as int),
{
    proof {
        encode_utf8_valid_utf8(s@);
        is_char_boundary_iff_is_leading_byte(s.spec_bytes(), at as int);
    }
    let (before, rest) = split_str(s, at);
    proof {
        assert(rest.spec_bytes()[0] == s.spec_bytes()[at as int]);
        assert(rest@.len() > 0) by {
            if rest@.len() == 0 {
                assert(encode_utf8(rest@).len() == 0);
            }
        }
        lemma_first_byte(rest@);
        lemma_boundary_after_prefix(seq![rest@[0]], rest@.drop_first());
        assert(seq![rest@[0]] + rest@.drop_first() =~= rest@);
        lemma_byte_of_char(rest@, 0);
        assert(rest@.subrange(0, 1) =~= seq![rest@[0]]);
        assert(rest@.subrange(0, 0) =~= Seq::<char>::empty());
        assert(encode_utf8(Seq::<char>::empty()) =~= Seq::<u8>::empty());
    }
    let (one, after) = split_str(rest, 1);
    proof {
        lemma_len_le_utf8_len(one@);
        assert(one@.len() == 1) by {
            if one@.len() == 0 {
                assert(encode_utf8(one@).len() == 0);
            }
        }
        assert(one@[0] == (one@ + after@)[0]);
        assert(after@ =~= rest@.subrange(1, rest@.len() as int));
        let k = before@.len() as int;
        assert(s@[k] == rest@[0]);
        assert(before@ =~= s@.subrange(0, k));
        assert(after@ =~= s@.subrange(k + 1, s@.len() as int));
        assert(s@ =~= before@ + seq![s@[k]] + after@);
        assert(after.spec_bytes() =~= s.spec_bytes().subrange(
            at + 1,
            s.spec_bytes().len() as int,
        ));
    }
    (before, after)
}

/// The longest prefix of `s`, cut between two characters, whose encoding
/// takes at most `max` bytes.
pub open spec fn prefix_within(s: Seq<char>, max: nat) -> Seq<char>
    decreases s.len(),
{
    if s.len() == 0 || char_width(s[0]) > max {
        Seq::empty()
    } else {
        seq![s[0]] + prefix_within(s.drop_first(), (max - char_width(s[0])) as nat)
    }
}

/// What `prefix_within` returns is a prefix that fits, and the next character
/// of `s`, if there is one, would not fit behind it.
pub proof fn lemma_prefix_within(s: Seq<char>, max: nat)
    ensures
        prefix_within(s, max).len() <= s.len(),
        prefix_within(s, max) == s.subrange(0, prefix_within(s, max).len() as int),
        utf8_len(prefix_within(s, max)) <= max,
        utf8_len(prefix_within(s, max)) <= utf8_len(s),
        prefix_within(s, max).len() < s.len() ==> utf8_len(prefix_within(s, max)) + char_width(
            s[prefix_within(s, max).len() as int],
        ) > max,
        utf8_len(s) <= max ==> prefix_within(s, max) == s,
    decreases s.len(),
{
    if s.len() == 0 {
        assert(prefix_within(s, max) =~= s.subrange(0, 0));
        assert(encode_utf8(Seq::<char>::empty()) =~= Seq::<u8>::empty());
    } else if char_width(s[0]) > max {
        lemma_encode_unfold(s);
        assert(prefix_within(s, max) =~= s.subrange(0, 0));
        assert(encode_utf8(Seq::<char>::empty()) =~= Seq::<u8>::empty());
    } else {
        let w = char_width(s[0]);
        let rest = s.drop_first();
        let p = prefix_within(rest, (max - w) as nat);
        lemma_prefix_within(rest, (max - w) as nat);
        lemma_encode_unfold(s);
        lemma_encode_concat(seq![s[0]], p);
        lemma_encode_unfold(seq![s[0]]);
        assert(seq![s[0]].drop_first() =~= Seq::<char>::empty());
        assert(encode_utf8(Seq::<char>::empty()) =~= Seq::<u8>::empty());
        assert(utf8_len(seq![s[0]]) == w);
        assert(seq![s[0]] + p =~= s.subrange(0, p.len() as int + 1)) by {
            assert(p == rest.subrange(0, p.len() as int));
        }
        if utf8_len(s) <= max {
            assert(seq![s[0]] + rest =~= s);
        }
    }
}

/// A byte offset that lies between two characters of `s`, with no such
/// offset after it up to `max`, is where `prefix_within` cuts.
pub proof fn lemma_last_boundary_is_prefix_within(s: Seq<char>, max: nat, m: int)
    requires
        is_char_boundary(encode_utf8(s), m),
        m <= max,
        forall|j: int| m < j <= max ==> !is_char_boundary(encode_utf8(s), j),
    ensures
        encode_utf8(prefix_within(s, max)) == encode_utf8(s).subrange(0, m),
    decreases s.len(),
{
    let bytes = encode_utf8(s);
    encode_utf8_valid_utf8(s);
    reveal_with_fuel(is_char_boundary, 2);
    if s.len() == 0 {
        assert(encode_utf8(prefix_within(s, max)) =~= bytes.subrange(0, m));
    } else {
        let w = char_width(s[0]) as int;
        let rest = s.drop_first();
        lemma_encode_unfold(s);
        encode_utf8_valid_utf8(rest);
        if m == 0 {
            assert(is_char_boundary(bytes, w));
            assert(encode_utf8(prefix_within(s, max)) =~= bytes.subrange(0, m));
        } else {
            assert(is_char_boundary(encode_utf8(rest), m - w));
            assert(m - w >= 0);
            assert forall|j: int| m - w < j <= max - w implies !is_char_boundary(
                encode_utf8(rest),
                j,
            ) by {
                if is_char_boundary(encode_utf8(rest), j) {
                    assert(is_char_boundary(bytes, j + w));
                }
            }
            lemma_last_boundary_is_prefix_within(rest, (max - w) as nat, m - w);
            let p = prefix_within(rest, (max - w) as nat);
            lemma_encode_concat(seq![s[0]], p);
            lemma_encode_unfold(seq![s[0]]);
            assert(seq![s[0]].drop_first() =~= Seq::<char>::empty());
            assert(encode_utf8(seq![s[0]]) =~= encode_scalar(s[0] as u32));
            assert(encode_utf8(prefix_within(s, max)) =~= bytes.subrange(0, m));
        }
    }
}

/// Trims a string to at most `max` bytes without cutting a character in two.
pub fn truncate_to_char_boundary<'a>(s: &'a str, max: usize) -> (r: &'a str)
    ensures
        r@ == prefix_within(s@, max as nat),
{
    if max >= s.as_bytes().len() {
        proof {
            lemma_prefix_within(s@, max as nat);
        }
        s
    } else {
        let mut m: usize = max;
        proof {
            encode_utf8_valid_utf8(s@);
        }
        while !s.is_char_boundary(m)
            invariant
                m <= max,
                valid_utf8(s.spec_bytes()),
                forall|j: int| m < j <= max ==> !is_char_boundary(s.spec_bytes(), j),
            decreases m,
        {
            m = m - 1;
        }
        let (head, tail) = split_str(s, m);
        proof {
            lemma_last_boundary_is_prefix_within(s@, max as nat, m as int);
            lemma_encode_concat(head@, tail@);
            assert(encode_utf8(head@) =~= encode_utf8(s@).subrange(0, m as int));
            lemma_encode_injective(head@, prefix_within(s@, max as nat));
        }
        head
    }
}

/// The index of the last occurrence of `c` in `s`, or -1 where there is none.
pub open spec fn last_index_of(s: Seq<char>, c: char) -> int
    decreases s.len(),
{
    if s.len() == 0 {
        -1
    } else if s.last() == c {
        s.len() - 1
    } else {
        last_index_of(s.drop_last(), c)
    }
}

/// `last_index_of` points at an occurrence that no other one follows.
pub proof fn lemma_last_index_of(s: Seq<char>, c: char)
    ensures
        -1 <= last_index_of(s, c) < s.len(),
        last_index_of(s, c) >= 0 ==> s[last_index_of(s, c)] == c,
        forall|j: int| last_index_of(s, c) < j < s.len() ==> s[j] != c,
    decreases s.len(),
{
    if s.len() > 0 && s.last() != c {
        let front = s.drop_last();
        lemma_last_index_of(front, c);
        assert forall|j: int| last_index_of(s, c) < j < s.len() implies s[j] != c by {
            if j < front.len() {
                assert(front[j] != c);
            }
        }
    }
}

/// An index at which `c` stands, with no `c` behind it, is `last_index_of`.
pub proof fn lemma_last_index_is(s: Seq<char>, c: char, k: int)
    requires
        -1 <= k < s.len(),
        k >= 0 ==> s[k] == c,
        forall|j: int| k < j < s.len() ==> s[j] != c,
    ensures
        last_index_of(s, c) == k,
{
    lemma_last_index_of(s, c);
}

} // verus!
