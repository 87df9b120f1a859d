//! Facts about the UTF-8 encoding of character sequences, and byte-level helpers on strings.
use vstd::prelude::*;
use vstd::utf8::*;

verus! {

/// The number of bytes that `t` takes in UTF-8.
pub open spec fn byte_len(t: Seq<char>) -> nat {
    encode_utf8(t).len()
}

/// Whether the byte offset `o` falls between two characters of `t` (or at either end).
pub open spec fn char_offset(t: Seq<char>, o: int) -> bool {
    exists|k: int| 0 <= k <= t.len() && #[trigger] byte_len(t.take(k)) == o
}

/// Encoding distributes over concatenation.
pub proof fn lemma_encode_concat(a: Seq<char>, b: Seq<char>)
    ensures
        encode_utf8(a + b) == encode_utf8(a) + encode_utf8(b),
    decreases a.len(),
{
    if a.len() == 0 {
        assert(a + b =~= b);
        assert(encode_utf8(a) =~= Seq::<u8>::empty());
        assert(encode_utf8(a) + encode_utf8(b) =~= encode_utf8(b));
    } else {
        lemma_encode_concat(a.drop_first(), b);
        assert((a + b).drop_first() =~= a.drop_first() + b);
        assert((a + b)[0] == a[0]);
        assert(encode_utf8(a + b) =~= encode_utf8(a) + encode_utf8(b));
    }
}

/// Every character takes at least one byte.
pub proof fn lemma_encode_len(a: Seq<char>)
    ensures
        byte_len(a) >= a.len(),
        a.len() > 0 ==> byte_len(a) > 0,
    decreases a.len(),
{
    if a.len() > 0 {
        lemma_encode_len(a.drop_first());
    }
}

/// The byte length of a longer prefix is larger.
pub proof fn lemma_prefix_len_mono(t: Seq<char>, i: int, j: int)
    requires
        0 <= i <= j <= t.len(),
    ensures
        byte_len(t.take(i)) <= byte_len(t.take(j)),
        i < j ==> byte_len(t.take(i)) < byte_len(t.take(j)),
{
    assert(t.take(j) =~= t.take(i) + t.subrange(i, j));
    lemma_encode_concat(t.take(i), t.subrange(i, j));
    lemma_encode_len(t.subrange(i, j));
}

/// Appending keeps every character offset of the front part.
pub proof fn lemma_char_offset_extend(t: Seq<char>, u: Seq<char>, o: int)
    requires
        char_offset(t, o),
    ensures
        char_offset(t + u, o),
{
    let k = choose|k: int| 0 <= k <= t.len() && #[trigger] byte_len(t.take(k)) == o;
    assert((t + u).take(k) =~= t.take(k));
    assert(byte_len((t + u).take(k)) == o);
}

/// The end of a sequence is a character offset.
pub proof fn lemma_char_offset_end(t: Seq<char>)
    ensures
        char_offset(t, byte_len(t) as int),
{
    assert(t.take(t.len() as int) =~= t);
    assert(byte_len(t.take(t.len() as int)) == byte_len(t));
}

/// The last byte of a non-empty encoding is a line feed exactly when the last character is one.
pub proof fn lemma_last_byte_newline(t: Seq<char>)
    requires
        t.len() > 0,
    ensures
        encode_utf8(t).len() > 0,
        encode_utf8(t).last() == 10u8 <==> t.last() == '\n',
{
    let front = t.drop_last();
    let c = t.last();
    assert(t =~= front + seq![c]);
    lemma_encode_concat(front, seq![c]);
    assert(seq![c].drop_first() =~= Seq::<char>::empty());
    assert(seq![c][0] == c);
    assert(encode_utf8(Seq::<char>::empty()) =~= Seq::<u8>::empty());
    assert(encode_utf8(seq![c]) == encode_scalar(c as u32) + encode_utf8(Seq::<char>::empty()));
    assert(encode_utf8(seq![c]) =~= encode_scalar(c as u32));
    let v = c as u32;
    if has_width_1_encoding(v) {
        assert(((v & 0x7F) as u8 == 10u8) <==> v == 10u32) by (bit_vector)
            requires
                v <= 0x7F,
        ;
    } else {
        assert((0x80u8 | (v & 0x3F) as u8) != 10u8) by (bit_vector);
    }
    assert(('\n' as u32) == 10u32);
    assert(v == 10u32 ==> c == '\n') by {
        if v == 10u32 {
            vstd::utf8::char_u32_cast(c, v);
        }
    }
}

/// Whether a character is alphabetic, as Unicode defines it.
pub uninterp spec fn is_alphabetic_char(c: char) -> bool;

/// Whether a character is alphabetic or numeric, as Unicode defines it.
pub uninterp spec fn is_alphanumeric_char(c: char) -> bool;

/// Whether a character has the Unicode White_Space property.
pub open spec fn is_whitespace_char(c: char) -> bool {
    let v = c as u32;
    ||| 0x09 <= v <= 0x0D
    ||| v == 0x20 || v == 0x85 || v == 0xA0 || v == 0x1680
    ||| 0x2000 <= v <= 0x200A
    ||| v == 0x2028 || v == 0x2029 || v == 0x202F || v == 0x205F || v == 0x3000
}

/// Relies on `char::is_alphabetic`: a property of the character alone.
#[verifier::external_body]
pub(crate) fn alphabetic(c: char) -> (r: bool)
    ensures
        r == is_alphabetic_char(c),
{
    c.is_alphabetic()
}

/// Relies on `char::is_alphanumeric`: a property of the character alone.
#[verifier::external_body]
pub(crate) fn alphanumeric(c: char) -> (r: bool)
    ensures
        r == is_alphanumeric_char(c),
{
    c.is_alphanumeric()
}

/// Whether `c` is white space.
pub fn whitespace(c: char) -> (r: bool)
    ensures
        r == is_whitespace_char(c),
{
    let v = c as u32;
    (0x09 <= v && v <= 0x0D) || v == 0x20 || v == 0x85 || v == 0xA0 || v == 0x1680 || (0x2000 <= v
        && v <= 0x200A) || v == 0x2028 || v == 0x2029 || v == 0x202F || v == 0x205F || v == 0x3000
}

/// Relies on `str::chars` collected into a `Vec`: the characters of the string, in order.
#[verifier::external_body]
pub(crate) fn chars_of(s: &str) -> (r: Vec<char>)
    ensures
        r@ == s@,
{
    s.chars().collect()
}

/// Relies on collecting characters into a `String`: the string of exactly those characters.
#[verifier::external_body]
pub(crate) fn string_of(v: &[char]) -> (r: String)
    ensures
        r@ == v@,
{
    v.iter().collect()
}

/// The number of bytes that `c` takes in UTF-8.
pub fn utf8_width(c: char) -> (r: usize)
    ensures
        r == encode_scalar(c as u32).len(),
        1 <= r <= 4,
{
    let v = c as u32;
    proof {
        char_is_scalar(c);
    }
    if v <= 0x7F {
        1
    } else if v <= 0x7FF {
        2
    } else if v <= 0xFFFF {
        3
    } else {
        4
    }
}

/// Adding one character adds its width.
pub proof fn lemma_byte_len_push(t: Seq<char>, k: int)
    requires
        0 <= k < t.len(),
    ensures
        byte_len(t.take(k + 1)) == byte_len(t.take(k)) + encode_scalar(t[k] as u32).len(),
{
    assert(t.take(k + 1) =~= t.take(k) + seq![t[k]]);
    lemma_encode_concat(t.take(k), seq![t[k]]);
    assert(seq![t[k]].drop_first() =~= Seq::<char>::empty());
    assert(encode_utf8(Seq::<char>::empty()) =~= Seq::<u8>::empty());
    assert(encode_utf8(seq![t[k]]) =~= encode_scalar(t[k] as u32) + encode_utf8(Seq::<char>::empty()));
}

/// The byte offset at which each character starts, and the end offset last.
pub fn offsets_of(t: &Vec<char>) -> (r: Vec<usize>)
    requires
        byte_len(t@) <= usize::MAX,
    ensures
        r@.len() == t@.len() + 1,
        forall|k: int| 0 <= k <= t@.len() ==> #[trigger] r@[k] == byte_len(t@.take(k)),
{
    let mut r: Vec<usize> = Vec::new();
    let mut acc: usize = 0;
    r.push(0);
    proof {
        assert(t@.take(0) =~= Seq::<char>::empty());
        assert(encode_utf8(Seq::<char>::empty()) =~= Seq::<u8>::empty());
    }
    let mut i: usize = 0;
    while i < t.len()
        invariant
            i <= t@.len(),
            byte_len(t@) <= usize::MAX,
            r@.len() == i + 1,
            acc == byte_len(t@.take(i as int)),
            forall|k: int| 0 <= k <= i ==> #[trigger] r@[k] == byte_len(t@.take(k)),
        decreases t@.len() - i,
    {
        proof {
            lemma_byte_len_push(t@, i as int);
            lemma_prefix_len_mono(t@, i + 1, t@.len() as int);
            assert(t@.take(t@.len() as int) =~= t@);
        }
        acc = acc + utf8_width(t[i]);
        r.push(acc);
        i += 1;
    }
    r
}

/// The characters from the first alphabetic one on.
pub open spec fn skip_non_alphabetic(s: Seq<char>) -> Seq<char>
    decreases s.len(),
{
    if s.len() > 0 && !is_alphabetic_char(s[0]) {
        skip_non_alphabetic(s.drop_first())
    } else {
        s
    }
}

/// The characters from the first non-white one on.
pub open spec fn trim_start_ws(s: Seq<char>) -> Seq<char>
    decreases s.len(),
{
    if s.len() > 0 && is_whitespace_char(s[0]) {
        trim_start_ws(s.drop_first())
    } else {
        s
    }
}

/// The characters up to the last non-white one.
pub open spec fn trim_end_ws(s: Seq<char>) -> Seq<char>
    decreases s.len(),
{
    if s.len() > 0 && is_whitespace_char(s.last()) {
        trim_end_ws(s.drop_last())
    } else {
        s
    }
}

/// Where the characters `t[from..to]` start once non-alphabetic ones are skipped.
pub fn skip_non_alphabetic_from(t: &Vec<char>, from: usize, to: usize) -> (r: usize)
    requires
        from <= to <= t@.len(),
    ensures
        from <= r <= to,
        t@.subrange(r as int, to as int) == skip_non_alphabetic(t@.subrange(from as int, to as int)),
    decreases to - from,
{
    if from < to && !alphabetic(t[from]) {
        proof {
            assert(t@.subrange(from as int, to as int).drop_first() =~= t@.subrange(from + 1, to as int));
        }
        skip_non_alphabetic_from(t, from + 1, to)
    } else {
        from
    }
}

/// Where the characters `t[from..to]` start once leading white space is skipped.
pub fn trim_start_from(t: &Vec<char>, from: usize, to: usize) -> (r: usize)
    requires
        from <= to <= t@.len(),
    ensures
        from <= r <= to,
        t@.subrange(r as int, to as int) == trim_start_ws(t@.subrange(from as int, to as int)),
    decreases to - from,
{
    if from < to && whitespace(t[from]) {
        proof {
            assert(t@.subrange(from as int, to as int).drop_first() =~= t@.subrange(from + 1, to as int));
        }
        trim_start_from(t, from + 1, to)
    } else {
        from
    }
}

/// Where the characters `t[from..to]` end once trailing white space is dropped.
pub fn trim_end_to(t: &Vec<char>, from: usize, to: usize) -> (r: usize)
    requires
        from <= to <= t@.len(),
    ensures
        from <= r <= to,
        t@.subrange(from as int, r as int) == trim_end_ws(t@.subrange(from as int, to as int)),
    decreases to - from,
{
    if from < to && whitespace(t[to - 1]) {
        proof {
            assert(t@.subrange(from as int, to as int).drop_last() =~= t@.subrange(from as int, to - 1));
        }
        trim_end_to(t, from, to - 1)
    } else {
        from + (to - from)
    }
}

} // verus!
