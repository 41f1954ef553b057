//! Filename normalization: NFC form, no problem characters, no reserved
//! device names, and a bounded length in UTF-8 bytes.
use crate::text::{
    last_index_of, lemma_ascii_bytes_run, lemma_boundary_after_prefix, lemma_byte_of_char,
    lemma_char_by_value, lemma_char_width_bounds, lemma_encode_concat, lemma_last_index_is,
    lemma_last_index_of, lemma_len_le_utf8_len, lemma_prefix_within, lemma_split_is_subrange,
    lemma_utf8_len_le_four_each, prefix_within, split_around_byte, split_str,
    truncate_to_char_boundary, utf8_len,
};
use crate::unicode::{in_nfc, is_nfc, nfc_of, to_nfc};
use vstd::prelude::*;
use vstd::string::*;
use vstd::utf8::*;

verus! {

/// The maximum length of a filename, in UTF-8 bytes.
pub const MAX_FILENAME_LENGTH: usize = 120;

/// True if the character may cause problems on one or more platforms.
pub open spec fn is_disallowed(c: char) -> bool {
    ||| c == '['
    ||| c == ']'
    ||| c == '<'
    ||| c == '>'
    ||| c == ':'
    ||| c == '"'
    ||| c == '/'
    ||| c == '?'
    ||| c == '*'
    ||| c == '^'
    ||| c == '\\'
    ||| c == '|'
    ||| (c as u32) < 0x20
    ||| c == '\x7f'
}

/// True if the character may cause problems on one or more platforms.
pub fn disallowed_char(c: char) -> (r: bool)
    ensures
        r == is_disallowed(c),
{
    match c {
        '[' | ']' | '<' | '>' | ':' | '"' | '/' | '?' | '*' | '^' | '\\' | '|' => true,
        _ => (c as u32) < 0x20 || c == '\x7f',
    }
}

/// True if `name` holds no disallowed character.
pub open spec fn is_clean(name: Seq<char>) -> bool {
    forall|i: int| 0 <= i < name.len() ==> !is_disallowed(#[trigger] name[i])
}

/// The characters that a filename keeps.
pub open spec fn allowed() -> spec_fn(char) -> bool {
    |c: char| !is_disallowed(c)
}

/// `name` without its disallowed characters; the others stay in order.
pub open spec fn without_disallowed(name: Seq<char>) -> Seq<char> {
    name.filter(allowed())
}

/// Filtering keeps a text whose characters all pass.
proof fn lemma_filter_keeps_all(s: Seq<char>, pred: spec_fn(char) -> bool)
    requires
        forall|i: int| 0 <= i < s.len() ==> pred(#[trigger] s[i]),
    ensures
        s.filter(pred) == s,
    decreases s.len(),
{
    reveal(Seq::filter);
    if s.len() > 0 {
        lemma_filter_keeps_all(s.drop_last(), pred);
        assert(s.drop_last().push(s.last()) =~= s);
    }
}

/// Nothing that is disallowed is left in `without_disallowed`, and a text
/// with nothing disallowed in it is left as it is.
pub proof fn lemma_without_disallowed(name: Seq<char>)
    ensures
        is_clean(without_disallowed(name)),
        is_clean(name) ==> without_disallowed(name) == name,
{
    assert forall|i: int| 0 <= i < without_disallowed(name).len() implies !is_disallowed(
        #[trigger] without_disallowed(name)[i],
    ) by {
        name.lemma_filter_pred(allowed(), i);
    }
    if is_clean(name) {
        lemma_filter_keeps_all(name, allowed());
    }
}

/// True if the byte is a character of its own that is disallowed.
fn disallowed_byte(b: u8) -> (r: bool)
    ensures
        r == (b < 0x80 && is_disallowed(b as char)),
{
    b < 0x80 && disallowed_char(b as char)
}

/// Removes every disallowed character from a filename.
pub fn remove_disallowed(name: &str) -> (r: String)
    ensures
        r@ == without_disallowed(name@),
{
    let mut out = String::new();
    let mut rest: &str = name;
    let mut done = false;
    proof {
        assert(out@ + without_disallowed(rest@) =~= without_disallowed(name@));
    }
    while !done
        invariant
            done ==> out@ == without_disallowed(name@),
            !done ==> out@ + without_disallowed(rest@) == without_disallowed(name@),
        decreases (if done { 0nat } else { 1 + rest@.len() }),
    {
        let bytes = rest.as_bytes();
        let mut i: usize = 0;
        while i < bytes.len() && !disallowed_byte(bytes[i])
            invariant
                i <= bytes.len(),
                forall|j: int|
                    0 <= j < i ==> !(bytes@[j] < 0x80 && is_disallowed(bytes@[j] as char)),
            decreases bytes.len() - i,
        {
            i = i + 1;
        }
        if i == bytes.len() {
            proof {
                lemma_none_disallowed(rest@);
                lemma_without_disallowed(rest@);
            }
            out.append(rest);
            done = true;
        } else {
            let (keep, next) = split_around_byte(rest, i);
            proof {
                let bad = rest@[keep@.len() as int];
                lemma_char_by_value(bad, bytes@[i as int] as char);
                lemma_none_disallowed(keep@);
                lemma_without_disallowed(keep@);
                Seq::filter_distributes_over_add(keep@ + seq![bad], next@, allowed());
                Seq::filter_distributes_over_add(keep@, seq![bad], allowed());
                assert(seq![bad].filter(allowed()) =~= Seq::<char>::empty()) by {
                    reveal_with_fuel(Seq::filter, 2);
                }
                assert(out@ + keep@ + without_disallowed(next@) =~= out@ + without_disallowed(
                    rest@,
                ));
            }
            out.append(keep);
            rest = next;
        }
    }
    out
}

/// A text in whose encoding no byte is a disallowed character holds no
/// disallowed character.
proof fn lemma_none_disallowed(s: Seq<char>)
    requires
        forall|j: int|
            0 <= j < encode_utf8(s).len() ==> !(encode_utf8(s)[j] < 0x80 && is_disallowed(
                encode_utf8(s)[j] as char,
            )),
    ensures
        is_clean(s),
{
    assert forall|k: int| 0 <= k < s.len() implies !is_disallowed(#[trigger] s[k]) by {
        if is_disallowed(s[k]) {
            lemma_byte_of_char(s, k);
            let off = utf8_len(s.subrange(0, k)) as int;
            lemma_char_by_value(s[k], encode_utf8(s)[off] as char);
        }
    }
}

/// True if `c` is the ASCII letter `lower`, in either case.
pub open spec fn same_letter(c: char, lower: char) -> bool {
    c as u32 == lower as u32 || c as u32 + 0x20 == lower as u32
}

/// True if `c` is one of the digits 1 to 9.
pub open spec fn is_unit_digit(c: char) -> bool {
    '1' as u32 <= c as u32 <= '9' as u32
}

/// True if `name` starts with the three given letters, in any case.
pub open spec fn starts_with_letters(name: Seq<char>, a: char, b: char, c: char) -> bool {
    &&& name.len() >= 3
    &&& same_letter(name[0], a)
    &&& same_letter(name[1], b)
    &&& same_letter(name[2], c)
}

/// The length of the reserved device name that `name` consists of, or that
/// stands in it before a dot; 0 where there is none. The names are CON, PRN,
/// AUX, NUL, COM1 to COM9 and LPT1 to LPT9, in any case.
pub open spec fn device_name_len(name: Seq<char>) -> nat {
    if (starts_with_letters(name, 'c', 'o', 'n') || starts_with_letters(name, 'p', 'r', 'n')
        || starts_with_letters(name, 'a', 'u', 'x') || starts_with_letters(name, 'n', 'u', 'l'))
        && (name.len() == 3 || name[3] == '.') {
        3
    } else if (starts_with_letters(name, 'c', 'o', 'm') || starts_with_letters(
        name,
        'l',
        'p',
        't',
    )) && name.len() >= 4 && is_unit_digit(name[3]) && (name.len() == 4 || name[4] == '.') {
        4
    } else {
        0
    }
}

/// `name` with an underscore behind the reserved device name, if it has one.
pub open spec fn escaped(name: Seq<char>) -> Seq<char> {
    let k = device_name_len(name) as int;
    if k == 0 {
        name
    } else {
        name.subrange(0, k) + seq!['_'] + name.subrange(k, name.len() as int)
    }
}

/// True if the byte is the ASCII letter `lower`, in either case.
fn byte_is_letter(b: u8, lower: u8) -> (r: bool)
    requires
        0x61 <= lower <= 0x7a,
    ensures
        r == (b == lower || b + 0x20 == lower),
{
    b == lower || (b < 0x80 && b + 0x20 == lower)
}

/// True if the three bytes spell the three letters, in any case.
fn bytes_spell(x: u8, y: u8, z: u8, a: u8, b: u8, c: u8) -> (r: bool)
    requires
        0x61 <= a <= 0x7a,
        0x61 <= b <= 0x7a,
        0x61 <= c <= 0x7a,
    ensures
        r == ((x == a || x + 0x20 == a) && (y == b || y + 0x20 == b) && (z == c || z + 0x20
            == c)),
{
    byte_is_letter(x, a) && byte_is_letter(y, b) && byte_is_letter(z, c)
}

/// Finds the reserved device name at the start of a filename: its length, or
/// 0 where there is none.
pub fn device_name_length(name: &str) -> (r: usize)
    ensures
        r == device_name_len(name@),
        r == 0 || r == 3 || r == 4,
        r > 0 ==> r <= name@.len() && utf8_len(name@.subrange(0, r as int)) == r,
{
    let bytes = name.as_bytes();
    let n = bytes.len();
    proof {
        let s = name@;
        lemma_ascii_bytes_run(s, 0);
        if n >= 1 && bytes@[0] < 0x80 {
            lemma_ascii_bytes_run(s, 1);
            if n >= 2 && bytes@[1] < 0x80 {
                lemma_ascii_bytes_run(s, 2);
                if n >= 3 && bytes@[2] < 0x80 {
                    lemma_ascii_bytes_run(s, 3);
                    if n >= 4 && bytes@[3] < 0x80 {
                        lemma_ascii_bytes_run(s, 4);
                        if bytes@[3] == 0x2e {
                            lemma_char_by_value(s[3], '.');
                        }
                        if n >= 5 && bytes@[4] == 0x2e {
                            lemma_char_by_value(s[4], '.');
                        }
                    }
                }
            }
        }
    }
    if n < 3 {
        return 0;
    }
    let x = bytes[0];
    let y = bytes[1];
    let z = bytes[2];
    if (bytes_spell(x, y, z, 0x63, 0x6f, 0x6e) || bytes_spell(x, y, z, 0x70, 0x72, 0x6e)
        || bytes_spell(x, y, z, 0x61, 0x75, 0x78) || bytes_spell(x, y, z, 0x6e, 0x75, 0x6c)) && (n
        == 3 || bytes[3] == 0x2e) {
        3
    } else if (bytes_spell(x, y, z, 0x63, 0x6f, 0x6d) || bytes_spell(x, y, z, 0x6c, 0x70, 0x74))
        && n >= 4 && 0x31 <= bytes[3] && bytes[3] <= 0x39 && (n == 4 || bytes[4] == 0x2e) {
        4
    } else {
        0
    }
}

/// Puts an underscore behind the reserved device name at the start of a
/// filename, before the dot if one follows; other names stay as they are.
pub fn escape_device_name(name: &str) -> (r: String)
    ensures
        r@ == escaped(name@),
{
    let k = device_name_length(name);
    if k == 0 {
        name.to_owned()
    } else {
        proof {
            let s = name@;
            let a = s.subrange(0, k as int);
            let b = s.subrange(k as int, s.len() as int);
            assert(a + b =~= s);
            lemma_boundary_after_prefix(a, b);
        }
        let (device, tail) = split_str(name, k);
        proof {
            lemma_split_is_subrange(name@, device@, tail@, k as int);
            reveal_strlit("_");
            assert("_"@ =~= seq!['_']);
        }
        let mut out = device.to_owned();
        out.append("_");
        out.append(tail);
        out
    }
}

/// The part of a filename before its last dot; the whole name where it has
/// no dot.
pub open spec fn stem_of(name: Seq<char>) -> Seq<char> {
    let dot = last_index_of(name, '.');
    if dot < 0 {
        name
    } else {
        name.subrange(0, dot)
    }
}

/// The part of a filename behind its last dot; empty where it has no dot.
pub open spec fn extension_of(name: Seq<char>) -> Seq<char> {
    let dot = last_index_of(name, '.');
    if dot < 0 {
        Seq::empty()
    } else {
        name.subrange(dot + 1, name.len() as int)
    }
}

/// The extension of `name`, capped to 10 bytes.
pub open spec fn truncated_extension(name: Seq<char>) -> Seq<char> {
    prefix_within(extension_of(name), 10)
}

/// The stem of `name`, capped so that stem, dot and capped extension take at
/// most `max_bytes` bytes together.
pub open spec fn truncated_stem(name: Seq<char>, max_bytes: nat) -> Seq<char> {
    prefix_within(
        stem_of(name),
        (max_bytes - utf8_len(truncated_extension(name)) - 1) as nat,
    )
}

/// Stem and extension put together again; the dot is left out where the
/// extension is empty.
pub open spec fn joined(stem: Seq<char>, extension: Seq<char>) -> Seq<char> {
    if extension.len() == 0 {
        stem
    } else {
        stem + seq!['.'] + extension
    }
}

/// `name`, shortened to at most `max_bytes` bytes where it is longer.
pub open spec fn truncated_name(name: Seq<char>, max_bytes: nat) -> Seq<char> {
    if utf8_len(name) <= max_bytes {
        name
    } else {
        joined(truncated_stem(name, max_bytes), truncated_extension(name))
    }
}

/// Splits a filename around its last dot.
fn split_at_last_dot<'a>(fname: &'a str) -> (r: (&'a str, &'a str))
    ensures
        r.0@ == stem_of(fname@),
        r.1@ == extension_of(fname@),
{
    let bytes = fname.as_bytes();
    let mut i: usize = bytes.len();
    while i > 0 && bytes[i - 1] != 0x2E
        invariant
            i <= bytes.len(),
            forall|j: int| i <= j < bytes.len() ==> bytes@[j] != 0x2E,
        decreases i,
    {
        i = i - 1;
    }
    proof {
        encode_utf8_valid_utf8(fname@);
    }
    if i == 0 {
        proof {
            is_char_boundary_start_end_of_seq(fname.spec_bytes());
        }
        let (stem, ext) = split_str(fname, bytes.len());
        proof {
            lemma_encode_concat(stem@, ext@);
            lemma_len_le_utf8_len(ext@);
            assert(ext@ =~= Seq::<char>::empty());
            assert(stem@ =~= fname@);
            assert forall|k: int| 0 <= k < fname@.len() implies fname@[k] != '.' by {
                lemma_byte_of_char(fname@, k);
            }
            lemma_last_index_is(fname@, '.', -1);
        }
        (stem, ext)
    } else {
        let (stem, ext) = split_around_byte(fname, i - 1);
        proof {
            let name = fname@;
            let k = stem@.len() as int;
            lemma_char_by_value(name[k], '.');
            assert forall|j: int| k < j < name.len() implies name[j] != '.' by {
                let e = j - k - 1;
                lemma_byte_of_char(ext@, e);
                let off = utf8_len(ext@.subrange(0, e)) as int;
                assert(ext.spec_bytes()[off] == bytes@[i + off]);
            }
            lemma_last_index_is(name, '.', k);
        }
        (stem, ext)
    }
}

/// Splits a filename into stem and extension, and trims both so that the
/// two, with a dot between them, take at most `max_bytes` bytes.
pub fn split_and_truncate_filename<'a>(fname: &'a str, max_bytes: usize) -> (r: (
    &'a str,
    &'a str,
))
    requires
        max_bytes > 10,
    ensures
        r.0@ == truncated_stem(fname@, max_bytes as nat),
        r.1@ == truncated_extension(fname@),
{
    let (stem, ext) = split_at_last_dot(fname);
    let ext = truncate_to_char_boundary(ext, 10);
    proof {
        lemma_prefix_within(extension_of(fname@), 10);
    }
    let stem_len: usize = max_bytes - ext.as_bytes().len() - 1;
    let stem = truncate_to_char_boundary(stem, stem_len);
    (stem, ext)
}

/// Puts a stem and an extension together again.
fn join_name(stem: &str, ext: &str) -> (r: String)
    ensures
        r@ == joined(stem@, ext@),
{
    let mut out = stem.to_owned();
    if !ext.is_empty() {
        proof {
            reveal_strlit(".");
            assert("."@ =~= seq!['.']);
        }
        out.append(".");
        out.append(ext);
    }
    out
}

/// The length bound that shortening keeps.
pub proof fn lemma_truncated_name_fits(name: Seq<char>, max_bytes: nat)
    requires
        max_bytes > 10,
    ensures
        utf8_len(truncated_name(name, max_bytes)) <= max_bytes,
{
    let ext = truncated_extension(name);
    let stem = truncated_stem(name, max_bytes);
    lemma_prefix_within(extension_of(name), 10);
    lemma_prefix_within(stem_of(name), (max_bytes - utf8_len(ext) - 1) as nat);
    lemma_encode_concat(stem, seq!['.']);
    lemma_encode_concat(stem + seq!['.'], ext);
    lemma_byte_of_char(seq!['.'], 0);
    assert(seq!['.'].subrange(0, 1) =~= seq!['.']);
    assert(seq!['.'].subrange(0, 0) =~= Seq::<char>::empty());
    assert(encode_utf8(Seq::<char>::empty()) =~= Seq::<u8>::empty());
}

/// Shortens a filename to at most `max_bytes` bytes where it is longer,
/// keeping as much of its extension as fits in 10 bytes.
pub fn truncate_filename(fname: &str, max_bytes: usize) -> (r: String)
    requires
        max_bytes > 10,
    ensures
        r@ == truncated_name(fname@, max_bytes as nat),
        utf8_len(r@) <= max_bytes,
{
    proof {
        lemma_truncated_name_fits(fname@, max_bytes as nat);
    }
    if fname.as_bytes().len() <= max_bytes {
        return fname.to_owned();
    }
    let (stem, ext) = split_and_truncate_filename(fname, max_bytes);
    join_name(stem, ext)
}

/// `name` in Normalization Form C: itself where it is in that form already.
pub open spec fn composed(name: Seq<char>) -> Seq<char> {
    if in_nfc(name) {
        name
    } else {
        nfc_of(name)
    }
}

/// What is done to a name once it is in Normalization Form C: disallowed
/// characters are removed, a reserved device name is escaped, and the result
/// is shortened to `MAX_FILENAME_LENGTH` bytes.
pub open spec fn sanitized(name: Seq<char>) -> Seq<char> {
    truncated_name(escaped(without_disallowed(name)), MAX_FILENAME_LENGTH as nat)
}

/// The filename that `normalize_filename` gives for `name`.
pub open spec fn normalized(name: Seq<char>) -> Seq<char> {
    sanitized(composed(name))
}

/// An escaped name has no reserved device name at its start any more, and
/// escaping brings no disallowed character in.
pub proof fn lemma_escaped(name: Seq<char>)
    ensures
        device_name_len(escaped(name)) == 0,
        is_clean(name) ==> is_clean(escaped(name)),
{
    let k = device_name_len(name) as int;
    let x = escaped(name);
    if k != 0 {
        assert(x.len() == name.len() + 1);
        assert(forall|i: int| 0 <= i < k ==> x[i] == name[i]);
        assert(x[k] == '_');
        if is_clean(name) {
            assert forall|i: int| 0 <= i < x.len() implies !is_disallowed(#[trigger] x[i]) by {
                if i < k {
                    assert(x[i] == name[i]);
                } else if i > k {
                    assert(x[i] == name[i - 1]);
                }
            }
        }
    }
}

/// Two names that agree up to a dot that both hold at the same place start
/// with the same reserved device name, or both with none.
proof fn lemma_device_name_up_to_dot(a: Seq<char>, b: Seq<char>, dot: int)
    requires
        0 <= dot < a.len(),
        dot < b.len(),
        a[dot] == '.',
        forall|i: int| 0 <= i <= dot ==> a[i] == b[i],
    ensures
        device_name_len(a) == device_name_len(b),
{
    assert(b[dot] == '.');
    if dot >= 1 {
        assert(a[0] == b[0]);
    }
    if dot >= 2 {
        assert(a[1] == b[1]);
    }
    if dot >= 3 {
        assert(a[2] == b[2]);
    }
    if dot >= 4 {
        assert(a[3] == b[3]);
    }
    if dot >= 5 {
        assert(a[4] == b[4]);
    }
}

/// Two names of five characters or more that agree in the first five start
/// with the same reserved device name, or both with none.
proof fn lemma_device_name_by_prefix(a: Seq<char>, b: Seq<char>)
    requires
        a.len() >= 5,
        b.len() >= 5,
        forall|i: int| 0 <= i < 5 ==> a[i] == b[i],
    ensures
        device_name_len(a) == device_name_len(b),
{
    assert(a[0] == b[0]);
    assert(a[1] == b[1]);
    assert(a[2] == b[2]);
    assert(a[3] == b[3]);
    assert(a[4] == b[4]);
}

/// Shortening a name to `MAX_FILENAME_LENGTH` bytes brings no reserved
/// device name to its start and no disallowed character in.
pub proof fn lemma_truncated_name_keeps(name: Seq<char>)
    ensures
        device_name_len(name) == 0 ==> device_name_len(
            truncated_name(name, MAX_FILENAME_LENGTH as nat),
        ) == 0,
        is_clean(name) ==> is_clean(truncated_name(name, MAX_FILENAME_LENGTH as nat)),
{
    let max = MAX_FILENAME_LENGTH as nat;
    let t = truncated_name(name, max);
    if utf8_len(name) > max {
        let st = stem_of(name);
        let ex = extension_of(name);
        let ext = truncated_extension(name);
        let cap = (max - utf8_len(ext) - 1) as nat;
        let stem = truncated_stem(name, max);
        let dot = last_index_of(name, '.');
        lemma_last_index_of(name, '.');
        lemma_prefix_within(ex, 10);
        lemma_prefix_within(st, cap);
        assert(forall|i: int| 0 <= i < stem.len() ==> stem[i] == name[i]);
        assert(forall|i: int| 0 <= i < ext.len() ==> ext[i] == ex[i]);
        if is_clean(name) {
            assert forall|i: int| 0 <= i < t.len() implies !is_disallowed(#[trigger] t[i]) by {
                if i < stem.len() {
                    assert(t[i] == name[i]);
                } else if i > stem.len() {
                    assert(t[i] == ext[i - stem.len() - 1]);
                    assert(ext[i - stem.len() - 1] == name[dot + 1 + (i - stem.len() - 1)]);
                }
            }
        }
        if device_name_len(name) == 0 {
            if stem.len() >= 5 {
                assert(forall|i: int| 0 <= i < 5 ==> t[i] == stem[i]);
                lemma_device_name_by_prefix(t, name);
            } else {
                lemma_utf8_len_le_four_each(stem);
                if stem.len() < st.len() {
                    lemma_char_width_bounds(st[stem.len() as int]);
                    assert(false);
                }
                assert(stem =~= st);
                if ext.len() == 0 {
                    if ex.len() > 0 {
                        lemma_char_width_bounds(ex[0]);
                        assert(false);
                    }
                    if dot < 0 {
                        assert(name == st);
                    } else {
                        assert(name =~= st + seq!['.']);
                        lemma_encode_concat(st, seq!['.']);
                        lemma_utf8_len_le_four_each(seq!['.']);
                    }
                    assert(false);
                } else {
                    assert(t[stem.len() as int] == '.');
                    lemma_device_name_up_to_dot(t, name, stem.len() as int);
                }
            }
        }
    }
}

/// What `sanitized` gives takes at most `MAX_FILENAME_LENGTH` bytes, holds no
/// disallowed character, does not start with a reserved device name, and is
/// left as it is when it is sanitized again.
pub proof fn lemma_sanitized(name: Seq<char>)
    ensures
        utf8_len(sanitized(name)) <= MAX_FILENAME_LENGTH,
        is_clean(sanitized(name)),
        device_name_len(sanitized(name)) == 0,
        sanitized(sanitized(name)) == sanitized(name),
{
    let cleaned = without_disallowed(name);
    let esc = escaped(cleaned);
    let out = sanitized(name);
    lemma_without_disallowed(name);
    lemma_escaped(cleaned);
    lemma_truncated_name_keeps(esc);
    lemma_truncated_name_fits(esc, MAX_FILENAME_LENGTH as nat);
    lemma_without_disallowed(out);
}

/// A normalized name that is in Normalization Form C is left as it is when
/// it is normalized again. Removing a disallowed character can bring a
/// letter and a combining mark together, so not every normalized name is in
/// that form.
pub proof fn lemma_normalize_idempotent(name: Seq<char>)
    requires
        in_nfc(normalized(name)),
    ensures
        normalized(normalized(name)) == normalized(name),
{
    lemma_sanitized(composed(name));
}

/// Adjusts a filename into a form that is valid on every common platform.
///
/// - The filename is brought into Normalization Form C.
/// - Any problem characters are removed.
/// - Device names like CON and PRN get an underscore appended.
/// - The filename is limited to 120 bytes.
pub fn normalize_filename(fname: &str) -> (r: String)
    ensures
        r@ == normalized(fname@),
        utf8_len(r@) <= MAX_FILENAME_LENGTH,
        is_clean(r@),
        device_name_len(r@) == 0,
{
    proof {
        lemma_sanitized(composed(fname@));
    }
    let composed_name = if is_nfc(fname) {
        fname.to_owned()
    } else {
        to_nfc(fname)
    };
    let cleaned = remove_disallowed(composed_name.as_str());
    let escaped_name = escape_device_name(cleaned.as_str());
    truncate_filename(escaped_name.as_str(), MAX_FILENAME_LENGTH)
}

} // verus!
