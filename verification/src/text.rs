//! Character-level helpers shared by the extractor, the validators, the
//! catalog and the search engine.

use vstd::prelude::*;

verus! {

/// `String::push` appends one character to the end of the string.
pub assume_specification[ String::push ](s: &mut String, c: char)
    ensures
        final(s)@ == old(s)@.push(c),
;

/// `text` in lower case, as `str::to_lowercase` gives it: by the Unicode
/// `Lowercase` property, which may change the number of characters.
pub uninterp spec fn lowercase(text: Seq<char>) -> Seq<char>;

/// `str::to_lowercase` returns the lower-case equivalent of the string as a
/// new `String`.
pub assume_specification[ str::to_lowercase ](s: &str) -> (r: String)
    ensures
        r@ == lowercase(s@),
;

/// The number of bytes that `text` takes in UTF-8.
pub open spec fn byte_len(text: Seq<char>) -> nat {
    vstd::utf8::encode_utf8(text).len()
}

/// The characters of a string, in order.
pub fn chars_of(s: &str) -> (v: Vec<char>)
    ensures
        v@ == s@,
{
    broadcast use vstd::string::group_string_axioms;

    let mut v: Vec<char> = Vec::new();
    for c in it: s.chars()
        invariant
            it.seq() == s@,
            v@ == s@.take(it.index()),
    {
        v.push(c);
    }
    v
}

/// The string made of `chars[from..to]`.
pub fn text_of(chars: &Vec<char>, from: usize, to: usize) -> (s: String)
    requires
        from <= to <= chars@.len(),
    ensures
        s@ == chars@.subrange(from as int, to as int),
{
    let mut s = String::new();
    let mut i: usize = from;
    while i < to
        invariant
            from <= i <= to <= chars@.len(),
            s@ == chars@.subrange(from as int, i as int),
        decreases to - i,
    {
        s.push(chars[i]);
        i += 1;
    }
    s
}

/// Whether `c` is one of the code points with the Unicode `White_Space`
/// property.
pub open spec fn is_space(c: char) -> bool {
    let n = c as u32;
    ||| 0x09 <= n <= 0x0d
    ||| n == 0x20
    ||| n == 0x85
    ||| n == 0xa0
    ||| n == 0x1680
    ||| 0x2000 <= n <= 0x200a
    ||| n == 0x2028
    ||| n == 0x2029
    ||| n == 0x202f
    ||| n == 0x205f
    ||| n == 0x3000
}

/// Whether `c` is white space.
pub fn char_is_space(c: char) -> (b: bool)
    ensures
        b == is_space(c),
{
    let n: u32 = c as u32;
    (0x09 <= n && n <= 0x0d) || n == 0x20 || n == 0x85 || n == 0xa0 || n == 0x1680 || (0x2000 <= n
        && n <= 0x200a) || n == 0x2028 || n == 0x2029 || n == 0x202f || n == 0x205f || n == 0x3000
}

/// Whether `c` is a control code: a code point of the general category `Cc`.
pub open spec fn is_control(c: char) -> bool {
    let n = c as u32;
    n <= 0x1f || 0x7f <= n <= 0x9f
}

/// Whether `c` is a control code.
pub fn char_is_control(c: char) -> (b: bool)
    ensures
        b == is_control(c),
{
    let n: u32 = c as u32;
    n <= 0x1f || (0x7f <= n && n <= 0x9f)
}

/// Whether `c` may stand in the name of an alias or a function: an ASCII
/// letter or digit, `_` or `-`.
pub open spec fn is_name_char(c: char) -> bool {
    'a' <= c <= 'z' || 'A' <= c <= 'Z' || '0' <= c <= '9' || c == '_' || c == '-'
}

/// Whether `c` may stand in a name.
pub fn char_is_name(c: char) -> (b: bool)
    ensures
        b == is_name_char(c),
{
    ('a' <= c && c <= 'z') || ('A' <= c && c <= 'Z') || ('0' <= c && c <= '9') || c == '_' || c
        == '-'
}

/// A set of characters that a scan looks for.
#[derive(Clone, Copy, Debug)]
pub enum CharClass {
    /// White space.
    Space,
    /// Anything but white space.
    NotSpace,
    /// Anything that may not stand in a name.
    NotName,
    /// A single or a double quote.
    Quote,
    /// The given character and no other.
    Exactly(char),
}

impl CharClass {
    /// Whether `c` belongs to the class.
    pub open spec fn holds(self, c: char) -> bool {
        match self {
            CharClass::Space => is_space(c),
            CharClass::NotSpace => !is_space(c),
            CharClass::NotName => !is_name_char(c),
            CharClass::Quote => c == '"' || c == '\'',
            CharClass::Exactly(wanted) => c == wanted,
        }
    }

    /// Whether `c` belongs to the class.
    pub fn test(&self, c: char) -> (b: bool)
        ensures
            b == self.holds(c),
    {
        match self {
            CharClass::Space => char_is_space(c),
            CharClass::NotSpace => !char_is_space(c),
            CharClass::NotName => !char_is_name(c),
            CharClass::Quote => c == '"' || c == '\'',
            CharClass::Exactly(wanted) => c == *wanted,
        }
    }
}

/// The least index at or after `from` whose character belongs to `class`, or
/// the length of `s` where there is none.
pub open spec fn first_in(s: Seq<char>, from: int, class: CharClass) -> int
    decreases s.len() - from,
{
    if from < 0 || from >= s.len() {
        s.len() as int
    } else if class.holds(s[from]) {
        from
    } else {
        first_in(s, from + 1, class)
    }
}

/// `first_in` is the first index from `from` on that is in the class:
/// nothing before it is, and it is unless it is the length.
pub proof fn lemma_first_in(s: Seq<char>, from: int, class: CharClass)
    requires
        0 <= from <= s.len(),
    ensures
        from <= first_in(s, from, class) <= s.len(),
        forall|j: int| from <= j < first_in(s, from, class) ==> !class.holds(#[trigger] s[j]),
        first_in(s, from, class) < s.len() ==> class.holds(s[first_in(s, from, class)]),
    decreases s.len() - from,
{
    if from < s.len() && !class.holds(s[from]) {
        lemma_first_in(s, from + 1, class);
    }
}

/// An index that is in the class with nothing in the class between `from`
/// and it is what `first_in` gives.
pub proof fn lemma_first_in_is(s: Seq<char>, from: int, class: CharClass, at: int)
    requires
        0 <= from <= at <= s.len(),
        forall|j: int| from <= j < at ==> !class.holds(#[trigger] s[j]),
        at < s.len() ==> class.holds(s[at]),
    ensures
        first_in(s, from, class) == at,
    decreases at - from,
{
    if from < at {
        lemma_first_in_is(s, from + 1, class, at);
    }
}

/// A scan that ends inside a prefix of `s` ends at the same place in `s`.
pub proof fn lemma_first_in_prefix(s: Seq<char>, prefix: Seq<char>, from: int, class: CharClass)
    requires
        0 <= from <= prefix.len() <= s.len(),
        s.take(prefix.len() as int) == prefix,
        first_in(prefix, from, class) < prefix.len(),
    ensures
        first_in(s, from, class) == first_in(prefix, from, class),
{
    lemma_first_in(prefix, from, class);
    let at = first_in(prefix, from, class);
    assert forall|j: int| from <= j < at implies !class.holds(#[trigger] s[j]) by {
        assert(s[j] == prefix[j]);
    }
    assert(s[at] == prefix[at]);
    lemma_first_in_is(s, from, class, at);
}

/// A scan of `prefix + rest` that starts in `rest` is a scan of `rest`.
pub proof fn lemma_first_in_shift(prefix: Seq<char>, rest: Seq<char>, from: int, class: CharClass)
    requires
        0 <= from <= rest.len(),
    ensures
        first_in(prefix + rest, prefix.len() + from, class) == prefix.len() + first_in(
            rest,
            from,
            class,
        ),
{
    lemma_first_in(rest, from, class);
    let s = prefix + rest;
    let at = first_in(rest, from, class);
    assert forall|j: int| prefix.len() + from <= j < prefix.len() + at implies !class.holds(
        #[trigger] s[j],
    ) by {
        assert(s[j] == rest[j - prefix.len()]);
    }
    if at < rest.len() {
        assert(s[prefix.len() + at] == rest[at]);
    }
    lemma_first_in_is(s, prefix.len() + from, class, prefix.len() + at);
}

/// Scans `chars` from `from` for the first character in `class`.
pub fn find_first(chars: &Vec<char>, from: usize, class: CharClass) -> (at: usize)
    requires
        from <= chars@.len(),
    ensures
        at == first_in(chars@, from as int, class),
        from <= at <= chars@.len(),
{
    let mut i: usize = from;
    while i < chars.len() && !class.test(chars[i])
        invariant
            from <= i <= chars@.len(),
            forall|j: int| from <= j < i ==> !class.holds(#[trigger] chars@[j]),
        decreases chars@.len() - i,
    {
        i += 1;
    }
    proof {
        lemma_first_in_is(chars@, from as int, class, i as int);
    }
    i
}

/// The length of `s` once the white space at its end is taken off.
pub open spec fn trimmed_end(s: Seq<char>) -> int
    decreases s.len(),
{
    if s.len() == 0 {
        0
    } else if is_space(s.last()) {
        trimmed_end(s.drop_last())
    } else {
        s.len() as int
    }
}

/// `s` without the white space at either end.
pub open spec fn trim(s: Seq<char>) -> Seq<char> {
    let end = trimmed_end(s);
    let start = first_in(s.take(end), 0, CharClass::NotSpace);
    s.subrange(start, end)
}

/// An end with only white space after it and none just before it is what
/// `trimmed_end` gives.
pub proof fn lemma_trimmed_end_is(s: Seq<char>, end: int)
    requires
        0 <= end <= s.len(),
        forall|j: int| end <= j < s.len() ==> is_space(#[trigger] s[j]),
        end > 0 ==> !is_space(s[end - 1]),
    ensures
        trimmed_end(s) == end,
    decreases s.len(),
{
    if s.len() > 0 && is_space(s.last()) {
        let head = s.drop_last();
        assert forall|j: int| end <= j < head.len() implies is_space(#[trigger] head[j]) by {
            assert(head[j] == s[j]);
        }
        if end > 0 {
            assert(head[end - 1] == s[end - 1]);
        }
        lemma_trimmed_end_is(head, end);
    }
}

/// A copy of `chars[from..to]`.
pub fn slice_of(chars: &Vec<char>, from: usize, to: usize) -> (v: Vec<char>)
    requires
        from <= to <= chars@.len(),
    ensures
        v@ == chars@.subrange(from as int, to as int),
{
    let mut v: Vec<char> = Vec::new();
    let mut i: usize = from;
    while i < to
        invariant
            from <= i <= to <= chars@.len(),
            v@ == chars@.subrange(from as int, i as int),
        decreases to - i,
    {
        v.push(chars[i]);
        i += 1;
    }
    v
}

/// `chars` without the white space at either end.
pub fn trimmed(chars: &Vec<char>) -> (v: Vec<char>)
    ensures
        v@ == trim(chars@),
{
    let mut end: usize = chars.len();
    while end > 0 && char_is_space(chars[end - 1])
        invariant
            end <= chars@.len(),
            forall|j: int| end <= j < chars@.len() ==> is_space(#[trigger] chars@[j]),
        decreases end,
    {
        end -= 1;
    }
    proof {
        lemma_trimmed_end_is(chars@, end as int);
    }
    let mut start: usize = 0;
    while start < end && char_is_space(chars[start])
        invariant
            start <= end <= chars@.len(),
            forall|j: int| 0 <= j < start ==> is_space(#[trigger] chars@[j]),
        decreases end - start,
    {
        start += 1;
    }
    proof {
        let head = chars@.take(end as int);
        assert forall|j: int| 0 <= j < start implies !CharClass::NotSpace.holds(
            #[trigger] head[j],
        ) by {
            assert(head[j] == chars@[j]);
        }
        lemma_first_in_is(head, 0, CharClass::NotSpace, start as int);
    }
    slice_of(chars, start, end)
}

/// `c` with an ASCII upper-case letter replaced by its lower-case form.
pub open spec fn fold_char(c: char) -> char {
    if 'A' <= c <= 'Z' {
        ((c as u32) + 32) as char
    } else {
        c
    }
}

/// `s` with every ASCII upper-case letter replaced by its lower-case form.
pub open spec fn fold(s: Seq<char>) -> Seq<char> {
    s.map_values(|c: char| fold_char(c))
}

/// `c` with an ASCII upper-case letter replaced by its lower-case form.
pub fn char_fold(c: char) -> (r: char)
    ensures
        r == fold_char(c),
{
    if 'A' <= c && c <= 'Z' {
        let b: u8 = c as u8;
        (b + 32) as char
    } else {
        c
    }
}

/// Whether two texts are equal once ASCII letter case is set aside.
pub fn same_folded(a: &Vec<char>, b: &Vec<char>) -> (r: bool)
    ensures
        r == (fold(a@) == fold(b@)),
{
    if a.len() != b.len() {
        assert(fold(a@).len() != fold(b@).len());
        return false;
    }
    let mut i: usize = 0;
    while i < a.len()
        invariant
            a@.len() == b@.len(),
            i <= a@.len(),
            fold(a@).take(i as int) == fold(b@).take(i as int),
        decreases a@.len() - i,
    {
        if char_fold(a[i]) != char_fold(b[i]) {
            assert(fold(a@)[i as int] != fold(b@)[i as int]);
            return false;
        }
        assert(fold(a@).take(i + 1) == fold(a@).take(i as int).push(fold(a@)[i as int]));
        assert(fold(b@).take(i + 1) == fold(b@).take(i as int).push(fold(b@)[i as int]));
        i += 1;
    }
    assert(fold(a@).take(i as int) == fold(a@));
    assert(fold(b@).take(i as int) == fold(b@));
    true
}

} // verus!
