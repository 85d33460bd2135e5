//! Character-level helpers shared by the form validation and the CSRF code:
//! Unicode whitespace, trimming, UTF-8 byte lengths and string comparison.
use vstd::prelude::*;
use vstd::string::StringSliceAdditionalSpecFns;

verus! {

broadcast use vstd::string::group_string_axioms;

/// `char::is_whitespace`: the characters with the Unicode `White_Space` property.
pub open spec fn is_whitespace_spec(c: char) -> bool {
    let v = c as u32;
    ||| 0x09 <= v <= 0x0D
    ||| v == 0x20
    ||| v == 0x85
    ||| v == 0xA0
    ||| v == 0x1680
    ||| 0x2000 <= v <= 0x200A
    ||| v == 0x2028
    ||| v == 0x2029
    ||| v == 0x202F
    ||| v == 0x205F
    ||| v == 0x3000
}

/// The sequence without its leading whitespace.
pub open spec fn trim_start(s: Seq<char>) -> Seq<char>
    decreases s.len(),
{
    if s.len() > 0 && is_whitespace_spec(s[0]) {
        trim_start(s.drop_first())
    } else {
        s
    }
}

/// The sequence without its trailing whitespace.
pub open spec fn trim_end(s: Seq<char>) -> Seq<char>
    decreases s.len(),
{
    if s.len() > 0 && is_whitespace_spec(s.last()) {
        trim_end(s.drop_last())
    } else {
        s
    }
}

/// `str::trim`: the sequence without leading and trailing whitespace.
pub open spec fn trim(s: Seq<char>) -> Seq<char> {
    trim_end(trim_start(s))
}

/// Number of bytes of the UTF-8 encoding of a character sequence
/// (what `str::len` returns).
pub open spec fn utf8_len(s: Seq<char>) -> nat {
    vstd::utf8::encode_utf8(s).len()
}

/// Number of bytes of the UTF-8 encoding of one character.
pub open spec fn char_utf8_width(c: char) -> nat {
    let v = c as u32;
    if v <= 0x7F {
        1
    } else if v <= 0x7FF {
        2
    } else if v <= 0xFFFF {
        3
    } else {
        4
    }
}

/// Whether `c` is whitespace, as `char::is_whitespace` decides it.
pub fn is_whitespace(c: char) -> (ws: bool)
    ensures
        ws == is_whitespace_spec(c),
{
    let v = c as u32;
    (0x09 <= v && v <= 0x0D) || v == 0x20 || v == 0x85 || v == 0xA0 || v == 0x1680 || (0x2000
        <= v && v <= 0x200A) || v == 0x2028 || v == 0x2029 || v == 0x202F || v == 0x205F || v
        == 0x3000
}

/// The characters of a string slice, in order.
pub fn chars_of(s: &str) -> (chars: Vec<char>)
    ensures
        chars@ == s@,
{
    let mut chars: Vec<char> = Vec::new();
    for c in it: s.chars()
        invariant
            chars@ == it.seq().take(it.index() as int),
            it.seq() == s@,
    {
        chars.push(c);
    }
    chars
}


proof fn lemma_trim_start_skips(s: Seq<char>, k: int)
    requires
        0 <= k <= s.len(),
        forall|i: int| 0 <= i < k ==> is_whitespace_spec(#[trigger] s[i]),
        k == s.len() || !is_whitespace_spec(s[k]),
    ensures
        trim_start(s) == s.subrange(k, s.len() as int),
    decreases k,
{
    if k == 0 {
        assert(s.subrange(0, s.len() as int) =~= s);
    } else {
        let t = s.drop_first();
        assert forall|i: int| 0 <= i < k - 1 implies is_whitespace_spec(#[trigger] t[i]) by {
            assert(t[i] == s[i + 1]);
        }
        lemma_trim_start_skips(t, k - 1);
        assert(t.subrange(k - 1, t.len() as int) =~= s.subrange(k, s.len() as int));
    }
}

proof fn lemma_trim_end_drops(s: Seq<char>, e: int)
    requires
        0 <= e <= s.len(),
        forall|i: int| e <= i < s.len() ==> is_whitespace_spec(#[trigger] s[i]),
        e == 0 || !is_whitespace_spec(s[e - 1]),
    ensures
        trim_end(s) == s.subrange(0, e),
    decreases s.len() - e,
{
    if e == s.len() {
        assert(s.subrange(0, e) =~= s);
    } else {
        let t = s.drop_last();
        assert forall|i: int| e <= i < t.len() implies is_whitespace_spec(#[trigger] t[i]) by {
            assert(t[i] == s[i]);
        }
        lemma_trim_end_drops(t, e);
        assert(t.subrange(0, e) =~= s.subrange(0, e));
    }
}

/// The bounds `(start, end)` such that `chars[start..end]` is the trimmed
/// form of `chars[lo..hi]`.
pub fn trim_bounds_in(chars: &Vec<char>, lo: usize, hi: usize) -> (bounds: (usize, usize))
    requires
        lo <= hi <= chars@.len(),
    ensures
        lo <= bounds.0 <= bounds.1 <= hi,
        chars@.subrange(bounds.0 as int, bounds.1 as int) == trim(
            chars@.subrange(lo as int, hi as int),
        ),
{
    let ghost s = chars@.subrange(lo as int, hi as int);
    let mut start: usize = lo;
    while start < hi && is_whitespace(chars[start])
        invariant
            lo <= start <= hi <= chars@.len(),
            forall|i: int| lo <= i < start ==> is_whitespace_spec(#[trigger] chars@[i]),
        decreases hi - start,
    {
        start = start + 1;
    }
    let mut end: usize = hi;
    while end > start && is_whitespace(chars[end - 1])
        invariant
            lo <= start <= end <= hi <= chars@.len(),
            forall|i: int| end <= i < hi ==> is_whitespace_spec(#[trigger] chars@[i]),
        decreases end,
    {
        end = end - 1;
    }
    proof {
        assert forall|i: int| 0 <= i < start - lo implies is_whitespace_spec(#[trigger] s[i]) by {
            assert(s[i] == chars@[lo + i]);
        }
        if start < hi {
            assert(s[start - lo] == chars@[start as int]);
        }
        lemma_trim_start_skips(s, start - lo);
        let t = s.subrange(start - lo, s.len() as int);
        assert(t =~= chars@.subrange(start as int, hi as int));
        assert forall|i: int| end - start <= i < t.len() implies is_whitespace_spec(#[trigger] t[i]) by {
            assert(t[i] == chars@[start + i]);
        }
        if end > start {
            assert(t[end - start - 1] == chars@[end - 1]);
        }
        lemma_trim_end_drops(t, end - start);
        assert(t.subrange(0, end - start) =~= chars@.subrange(start as int, end as int));
    }
    (start, end)
}

/// The bounds `(start, end)` such that `chars[start..end]` is the trimmed
/// sequence.
pub fn trim_bounds(chars: &Vec<char>) -> (bounds: (usize, usize))
    ensures
        bounds.0 <= bounds.1 <= chars@.len(),
        chars@.subrange(bounds.0 as int, bounds.1 as int) == trim(chars@),
{
    let n = chars.len();
    assert(chars@.subrange(0, n as int) =~= chars@);
    trim_bounds_in(chars, 0, n)
}

/// Index of the first occurrence of `c` in `s`, or the length of `s` when
/// there is none.
pub open spec fn first_index_of(s: Seq<char>, c: char) -> int
    decreases s.len(),
{
    if s.len() == 0 {
        0
    } else if s[0] == c {
        0
    } else {
        1 + first_index_of(s.drop_first(), c)
    }
}

/// The first occurrence is the index before which `c` does not occur and at
/// which it does (or the end).
pub proof fn lemma_first_index_of(s: Seq<char>, c: char, k: int)
    requires
        0 <= k <= s.len(),
        forall|i: int| 0 <= i < k ==> #[trigger] s[i] != c,
        k == s.len() || s[k] == c,
    ensures
        first_index_of(s, c) == k,
    decreases k,
{
    if k > 0 {
        let t = s.drop_first();
        assert forall|i: int| 0 <= i < k - 1 implies #[trigger] t[i] != c by {
            assert(t[i] == s[i + 1]);
        }
        if k < s.len() {
            assert(t[k - 1] == s[k]);
        }
        lemma_first_index_of(t, c, k - 1);
    }
}

/// The first occurrence lies inside the sequence, or is its length.
pub proof fn lemma_first_index_of_bound(s: Seq<char>, c: char)
    ensures
        0 <= first_index_of(s, c) <= s.len(),
        first_index_of(s, c) < s.len() ==> s[first_index_of(s, c)] == c,
    decreases s.len(),
{
    if s.len() > 0 && s[0] != c {
        lemma_first_index_of_bound(s.drop_first(), c);
    }
}

/// Position of the first `c` in `chars[lo..hi]`, or `hi` when there is none.
pub fn find_char(chars: &Vec<char>, lo: usize, hi: usize, c: char) -> (pos: usize)
    requires
        lo <= hi <= chars@.len(),
    ensures
        lo <= pos <= hi,
        pos - lo == first_index_of(chars@.subrange(lo as int, hi as int), c),
{
    let mut i: usize = lo;
    while i < hi && chars[i] != c
        invariant
            lo <= i <= hi <= chars@.len(),
            forall|j: int| lo <= j < i ==> #[trigger] chars@[j] != c,
        decreases hi - i,
    {
        i = i + 1;
    }
    proof {
        let s = chars@.subrange(lo as int, hi as int);
        assert forall|j: int| 0 <= j < i - lo implies #[trigger] s[j] != c by {
            assert(s[j] == chars@[lo + j]);
        }
        if i < hi {
            assert(s[i - lo] == chars@[i as int]);
        }
        lemma_first_index_of(s, c, i - lo);
    }
    i
}

/// Whether `chars[lo..hi]` is the character sequence `other`.
pub fn range_eq(chars: &Vec<char>, lo: usize, hi: usize, other: &Vec<char>) -> (equal: bool)
    requires
        lo <= hi <= chars@.len(),
    ensures
        equal == (chars@.subrange(lo as int, hi as int) == other@),
{
    if hi - lo != other.len() {
        return false;
    }
    let n = other.len();
    for k in 0..n
        invariant
            n == other@.len() == hi - lo,
            lo <= hi <= chars@.len(),
            forall|j: int| 0 <= j < k ==> chars@[lo + j] == other@[j],
    {
        if chars[lo + k] != other[k] {
            assert(chars@.subrange(lo as int, hi as int)[k as int] != other@[k as int]);
            return false;
        }
    }
    assert(chars@.subrange(lo as int, hi as int) =~= other@);
    true
}

proof fn lemma_char_width(c: char)
    ensures
        vstd::utf8::encode_scalar(c as u32).len() == char_utf8_width(c),
{
    vstd::utf8::char_is_scalar(c);
}

proof fn lemma_utf8_len_step(s: Seq<char>, i: int)
    requires
        0 <= i < s.len(),
    ensures
        utf8_len(s.subrange(i, s.len() as int)) == char_utf8_width(s[i]) + utf8_len(
            s.subrange(i + 1, s.len() as int),
        ),
{
    let t = s.subrange(i, s.len() as int);
    assert(t.drop_first() =~= s.subrange(i + 1, s.len() as int));
    lemma_char_width(s[i]);
}

proof fn lemma_utf8_len_suffix_monotone(s: Seq<char>, j: int, i: int)
    requires
        0 <= j <= i <= s.len(),
    ensures
        utf8_len(s.subrange(j, s.len() as int)) >= utf8_len(s.subrange(i, s.len() as int)),
    decreases i - j,
{
    if j < i {
        lemma_utf8_len_step(s, j);
        lemma_utf8_len_suffix_monotone(s, j + 1, i);
    }
}

/// Whether the UTF-8 encoding of `chars[lo..hi]` is longer than `limit` bytes.
pub fn utf8_len_exceeds(chars: &Vec<char>, lo: usize, hi: usize, limit: usize) -> (exceeds: bool)
    requires
        lo <= hi <= chars@.len(),
    ensures
        exceeds == (utf8_len(chars@.subrange(lo as int, hi as int)) > limit),
{
    let ghost s = chars@.subrange(lo as int, hi as int);
    let mut total: usize = 0;
    let mut i: usize = hi;
    while i > lo
        invariant
            lo <= i <= hi <= chars@.len(),
            s == chars@.subrange(lo as int, hi as int),
            total <= limit,
            total == utf8_len(s.subrange(i - lo, s.len() as int)),
        decreases i,
    {
        i = i - 1;
        let c = chars[i];
        let v = c as u32;
        let w: usize = if v <= 0x7F {
            1
        } else if v <= 0x7FF {
            2
        } else if v <= 0xFFFF {
            3
        } else {
            4
        };
        proof {
            assert(s[i - lo] == c);
            lemma_utf8_len_step(s, i - lo);
        }
        if w > limit - total {
            proof {
                lemma_utf8_len_suffix_monotone(s, 0, i - lo);
                assert(s.subrange(0, s.len() as int) =~= s);
            }
            return true;
        }
        total = total + w;
    }
    assert(s.subrange(0, s.len() as int) =~= s);
    false
}

/// Equality of two string slices, character for character.
pub fn str_eq(a: &str, b: &str) -> (equal: bool)
    ensures
        equal == (a@ == b@),
{
    let x = a.as_bytes();
    let y = b.as_bytes();
    proof {
        vstd::utf8::encode_utf8_decode_utf8(a@);
        vstd::utf8::encode_utf8_decode_utf8(b@);
    }
    if x.len() != y.len() {
        return false;
    }
    let n = x.len();
    for i in 0..n
        invariant
            n == x@.len() == y@.len(),
            x@ == a.spec_bytes(),
            y@ == b.spec_bytes(),
            forall|j: int| 0 <= j < i ==> x@[j] == y@[j],
    {
        if x[i] != y[i] {
            assert(x@[i as int] != y@[i as int]);
            assert(x@ != y@);
            return false;
        }
    }
    assert(x@ =~= y@);
    true
}


/// A sequence that neither starts nor ends with whitespace is its own trim.
pub proof fn lemma_trim_unchanged(s: Seq<char>)
    requires
        s.len() == 0 || (!is_whitespace_spec(s[0]) && !is_whitespace_spec(s.last())),
    ensures
        trim(s) == s,
{
    lemma_trim_start_skips(s, 0);
    assert(s.subrange(0, s.len() as int) =~= s);
    lemma_trim_end_drops(s, s.len() as int);
}

/// Whitespace in front of a sequence does not survive `trim_start`.
proof fn lemma_trim_start_prefix(w: Seq<char>, s: Seq<char>)
    requires
        forall|i: int| 0 <= i < w.len() ==> is_whitespace_spec(#[trigger] w[i]),
    ensures
        trim_start(w + s) == trim_start(s),
    decreases w.len(),
{
    if w.len() > 0 {
        assert((w + s)[0] == w[0]);
        assert((w + s).drop_first() =~= w.drop_first() + s);
        lemma_trim_start_prefix(w.drop_first(), s);
    } else {
        assert(w + s =~= s);
    }
}

/// Whitespace after a sequence does not survive `trim_end`.
proof fn lemma_trim_end_suffix(s: Seq<char>, w: Seq<char>)
    requires
        forall|i: int| 0 <= i < w.len() ==> is_whitespace_spec(#[trigger] w[i]),
    ensures
        trim_end(s + w) == trim_end(s),
    decreases w.len(),
{
    if w.len() > 0 {
        assert((s + w).last() == w.last());
        assert((s + w).drop_last() =~= s + w.drop_last());
        lemma_trim_end_suffix(s, w.drop_last());
    } else {
        assert(s + w =~= s);
    }
}

/// `trim_start` of a sequence followed by more text: the trimmed sequence
/// followed by that text, unless the sequence is all whitespace.
proof fn lemma_trim_start_append(s: Seq<char>, w: Seq<char>)
    ensures
        trim_start(s).len() > 0 ==> trim_start(s + w) == trim_start(s) + w,
        trim_start(s).len() == 0 ==> trim_start(s + w) == trim_start(w),
    decreases s.len(),
{
    if s.len() == 0 {
        assert(s + w =~= w);
    } else if is_whitespace_spec(s[0]) {
        assert((s + w)[0] == s[0]);
        assert((s + w).drop_first() =~= s.drop_first() + w);
        lemma_trim_start_append(s.drop_first(), w);
    } else {
        assert((s + w)[0] == s[0]);
    }
}

/// Surrounding a sequence with whitespace does not change its trimmed form.
pub proof fn lemma_trim_padding(before: Seq<char>, s: Seq<char>, after: Seq<char>)
    requires
        forall|i: int| 0 <= i < before.len() ==> is_whitespace_spec(#[trigger] before[i]),
        forall|i: int| 0 <= i < after.len() ==> is_whitespace_spec(#[trigger] after[i]),
    ensures
        trim(before + s + after) == trim(s),
{
    assert(before + s + after =~= before + (s + after));
    lemma_trim_start_prefix(before, s + after);
    lemma_trim_start_append(s, after);
    if trim_start(s).len() > 0 {
        lemma_trim_end_suffix(trim_start(s), after);
    } else {
        lemma_trim_start_skips(after, after.len() as int);
        assert(after.subrange(after.len() as int, after.len() as int) =~= Seq::<char>::empty());
        assert(trim_end(Seq::<char>::empty()) == Seq::<char>::empty());
    }
}

/// The characters that ASCII bytes stand for.
pub open spec fn ascii_chars(bytes: Seq<u8>) -> Seq<char> {
    Seq::new(bytes.len(), |i: int| bytes[i] as char)
}

/// ASCII bytes are valid UTF-8 and decode to one character per byte.
pub proof fn lemma_ascii_decode(bytes: Seq<u8>)
    requires
        forall|i: int| 0 <= i < bytes.len() ==> #[trigger] bytes[i] < 128,
    ensures
        vstd::utf8::valid_utf8(bytes),
        vstd::utf8::decode_utf8(bytes) == ascii_chars(bytes),
{
    let cs = ascii_chars(bytes);
    assert forall|i: int| 0 <= i < cs.len() implies '\0' <= #[trigger] cs[i] <= '\u{7f}' by {
        assert(bytes[i] < 128);
    }
    vstd::utf8::is_ascii_chars_encode_utf8(cs);
    assert forall|i: int| 0 <= i < cs.len() implies #[trigger] vstd::utf8::encode_utf8(cs)[i]
        == bytes[i] by {
        assert(cs[i] as u8 == bytes[i]);
    }
    assert(vstd::utf8::encode_utf8(cs) =~= bytes);
    vstd::utf8::encode_utf8_valid_utf8(cs);
    vstd::utf8::encode_utf8_decode_utf8(cs);
}

/// `std::str::from_utf8`: the string slice that the bytes encode, present
/// exactly when they are valid UTF-8.
#[verifier::external_body]
pub(crate) fn str_from_utf8(bytes: &[u8]) -> (text: Option<&str>)
    ensures
        text is Some <==> vstd::utf8::valid_utf8(bytes@),
        text matches Some(t) ==> t@ == vstd::utf8::decode_utf8(bytes@),
{
    std::str::from_utf8(bytes).ok()
}

/// `String::push`: appends one character.
#[verifier::external_body]
pub(crate) fn push_char(s: &mut String, c: char)
    ensures
        final(s)@ == old(s)@.push(c),
{
    s.push(c)
}


/// What `str::to_lowercase` returns: the Unicode lowercase mapping of each
/// character, some of which map to more than one character.
pub uninterp spec fn unicode_lowercase(s: Seq<char>) -> Seq<char>;

/// `str::to_lowercase`: the lowercase form of a string, a function of the
/// string alone (the Unicode tables are fixed in the standard library).
#[verifier::external_body]
pub(crate) fn to_lowercase(s: &str) -> (lower: String)
    ensures
        lower@ == unicode_lowercase(s@),
{
    s.to_lowercase()
}

} // verus!
