//! Character-level helpers shared by the parsers and the error messages.
use vstd::prelude::*;

verus! {

/// The character of a decimal digit.
pub open spec fn digit_char(d: int) -> char {
    (d + 48) as char
}

/// The decimal notation of a natural number, without leading zeros.
pub open spec fn decimal_text(n: nat) -> Seq<char>
    decreases n,
{
    if n < 10 {
        seq![digit_char(n as int)]
    } else {
        decimal_text(n / 10).push(digit_char((n % 10) as int))
    }
}

/// `char::is_whitespace`: the characters of the Unicode property `White_Space`.
pub open spec fn is_white_space(c: char) -> bool {
    let v = c as u32;
    ||| 0x09 <= v <= 0x0d
    ||| v == 0x20
    ||| v == 0x85
    ||| v == 0xa0
    ||| v == 0x1680
    ||| 0x2000 <= v <= 0x200a
    ||| v == 0x2028
    ||| v == 0x2029
    ||| v == 0x202f
    ||| v == 0x205f
    ||| v == 0x3000
}

/// The index of the first character that is not white space (or the length).
pub open spec fn trim_start_index(s: Seq<char>) -> nat
    decreases s.len(),
{
    if s.len() == 0 {
        0
    } else if is_white_space(s[0]) {
        1 + trim_start_index(s.drop_first())
    } else {
        0
    }
}

/// The index just past the last character that is not white space (or 0).
pub open spec fn trim_end_index(s: Seq<char>) -> nat
    decreases s.len(),
{
    if s.len() == 0 {
        0
    } else if is_white_space(s.last()) {
        trim_end_index(s.drop_last())
    } else {
        s.len()
    }
}

/// `str::trim`: the text without its leading and trailing white space.
pub open spec fn trimmed(s: Seq<char>) -> Seq<char> {
    if trim_start_index(s) >= trim_end_index(s) {
        Seq::empty()
    } else {
        s.subrange(trim_start_index(s) as int, trim_end_index(s) as int)
    }
}

/// Whether every character of a text is ASCII.
pub open spec fn is_ascii_text(s: Seq<char>) -> bool {
    forall|i: int| 0 <= i < s.len() ==> (#[trigger] s[i] as u32) < 128
}

/// Whether a character is a small ASCII letter.
pub open spec fn is_ascii_small(c: char) -> bool {
    97 <= (c as u32) && (c as u32) <= 122
}

/// Whether a character is an ASCII capital.
pub open spec fn is_ascii_capital(c: char) -> bool {
    65 <= (c as u32) && (c as u32) <= 90
}

/// The ASCII capital of a small letter; any other character as it is.
pub open spec fn upper_char(c: char) -> char {
    if is_ascii_small(c) {
        (((c as u32) - 32) as u8) as char
    } else {
        c
    }
}

/// The small letter of an ASCII capital; any other character as it is.
pub open spec fn lower_char(c: char) -> char {
    if is_ascii_capital(c) {
        (((c as u32) + 32) as u8) as char
    } else {
        c
    }
}

/// A text with its small ASCII letters made capitals.
pub open spec fn ascii_upper(s: Seq<char>) -> Seq<char> {
    Seq::new(s.len(), |i: int| upper_char(s[i]))
}

/// A text with its ASCII capitals made small letters.
pub open spec fn ascii_lower(s: Seq<char>) -> Seq<char> {
    Seq::new(s.len(), |i: int| lower_char(s[i]))
}

/// What `str::to_uppercase` returns for a text (Unicode case mapping).
pub uninterp spec fn uppercase_of(s: Seq<char>) -> Seq<char>;

/// What `str::to_lowercase` returns for a text (Unicode case mapping).
pub uninterp spec fn lowercase_of(s: Seq<char>) -> Seq<char>;

/// What `Path::extension` gives for a path, when it is valid Unicode.
pub uninterp spec fn path_extension(path: Seq<char>) -> Option<Seq<char>>;

/// Where the last segment of a path begins: just past its last `/`, or 0.
pub open spec fn segment_start(p: Seq<char>) -> nat
    decreases p.len(),
{
    if p.len() == 0 {
        0
    } else if p.last() == '/' {
        p.len()
    } else {
        segment_start(p.drop_last())
    }
}

/// Whether a path ends in a segment that is `.` alone.
pub open spec fn ends_in_dot_segment(p: Seq<char>) -> bool {
    p.len() >= 1 && p.last() == '.' && (p.len() == 1 || p[p.len() - 2] == '/')
}

/// The file name of a path, as `Path::file_name` documents it: its final
/// component, where repeated and trailing `/` and `.` segments are
/// normalised away; none where that component is `..` or there is none.
pub open spec fn file_name_of(p: Seq<char>) -> Option<Seq<char>>
    decreases p.len(),
{
    if p.len() == 0 {
        None
    } else if p.last() == '/' || ends_in_dot_segment(p) {
        file_name_of(p.drop_last())
    } else {
        let seg = p.subrange(segment_start(p) as int, p.len() as int);
        if seg == seq!['.', '.'] {
            None
        } else {
            Some(seg)
        }
    }
}

/// The index of the last `.` of a text, or -1.
pub open spec fn last_dot(n: Seq<char>) -> int
    decreases n.len(),
{
    if n.len() == 0 {
        -1
    } else if n.last() == '.' {
        n.len() - 1
    } else {
        last_dot(n.drop_last())
    }
}

/// The extension of a path, as `Path::extension` documents it: the text of
/// the file name after its final `.`; none without a file name, without a
/// `.` in it, or where its only `.` begins it.
pub open spec fn file_extension_of(p: Seq<char>) -> Option<Seq<char>> {
    match file_name_of(p) {
        None => None,
        Some(n) => if last_dot(n) <= 0 {
            None
        } else {
            Some(n.subrange(last_dot(n) + 1, n.len() as int))
        },
    }
}

/// `std::path::Path::extension` followed by `OsStr::to_str`: the text after
/// the last `.` of the file name, named by `path_extension`; on a Unix path its
/// documentation gives the rule written out in `file_extension_of`.
#[verifier::external_body]
pub(crate) fn extension_of(path: &str) -> (r: Option<String>)
    ensures
        match path_extension(path@) {
            Some(e) => r is Some && r->Some_0@ == e,
            None => r is None,
        },
        match file_extension_of(path@) {
            Some(e) => r is Some && r->Some_0@ == e,
            None => r is None,
        },
{
    std::path::Path::new(path).extension().and_then(|e| e.to_str()).map(|e| e.to_string())
}

/// `String::push`: appends one character.
#[verifier::external_body]
pub(crate) fn push_char(s: &mut String, c: char)
    ensures
        final(s)@ == old(s)@.push(c),
{
    s.push(c);
}

/// `str::to_uppercase`, whose result is named by `uppercase_of`; on a text
/// of ASCII characters its documentation gives each small letter `a`-`z` its
/// capital and leaves every other character as it is.
#[verifier::external_body]
pub(crate) fn to_upper(s: &str) -> (r: String)
    ensures
        r@ == uppercase_of(s@),
        is_ascii_text(s@) ==> r@ == ascii_upper(s@),
{
    s.to_uppercase()
}

/// `str::to_lowercase`, whose result is named by `lowercase_of`; on a text
/// of ASCII characters its documentation gives each capital `A`-`Z` its small
/// letter and leaves every other character as it is.
#[verifier::external_body]
pub(crate) fn to_lower(s: &str) -> (r: String)
    ensures
        r@ == lowercase_of(s@),
        is_ascii_text(s@) ==> r@ == ascii_lower(s@),
{
    s.to_lowercase()
}

/// The characters of a text, in order.
pub fn chars_of(s: &str) -> (v: Vec<char>)
    ensures
        v@ == s@,
{
    broadcast use vstd::string::group_string_axioms;

    let mut v: Vec<char> = Vec::new();
    for c in it: s.chars()
        invariant
            it.seq() == s@,
            v.len() == it.index(),
            forall|j: int| 0 <= j < v.len() ==> v@[j] == it.seq()[j],
    {
        v.push(c);
    }
    assert(v@ =~= s@);
    v
}

/// A text made of the given characters.
pub fn string_of(cs: &[char]) -> (s: String)
    ensures
        s@ == cs@,
{
    let mut s = String::new();
    let mut i: usize = 0;
    while i < cs.len()
        invariant
            i <= cs@.len(),
            s@ == cs@.subrange(0, i as int),
        decreases cs@.len() - i,
    {
        push_char(&mut s, cs[i]);
        i = i + 1;
        assert(s@ =~= cs@.subrange(0, i as int));
    }
    assert(s@ =~= cs@);
    s
}

/// Whether two texts are equal, character by character.
pub fn same_text(a: &str, b: &str) -> (r: bool)
    ensures
        r == (a@ == b@),
{
    let x = chars_of(a);
    let y = chars_of(b);
    if x.len() != y.len() {
        return false;
    }
    let mut i: usize = 0;
    while i < x.len()
        invariant
            x@ == a@,
            y@ == b@,
            x@.len() == y@.len(),
            i <= x@.len(),
            forall|j: int| 0 <= j < i ==> x@[j] == y@[j],
        decreases x@.len() - i,
    {
        if x[i] != y[i] {
            return false;
        }
        i = i + 1;
    }
    assert(x@ =~= y@);
    true
}

/// Whether a character is white space in the sense of `char::is_whitespace`.
pub fn white_space(c: char) -> (b: bool)
    ensures
        b == is_white_space(c),
{
    let v = c as u32;
    (0x09 <= v && v <= 0x0d) || v == 0x20 || v == 0x85 || v == 0xa0 || v == 0x1680 || (0x2000
        <= v && v <= 0x200a) || v == 0x2028 || v == 0x2029 || v == 0x202f || v == 0x205f || v
        == 0x3000
}

proof fn lemma_trim_start(s: Seq<char>, i: int)
    requires
        0 <= i <= s.len(),
        forall|j: int| 0 <= j < i ==> is_white_space(s[j]),
    ensures
        trim_start_index(s) == i + trim_start_index(s.subrange(i, s.len() as int)),
    decreases i,
{
    if i > 0 {
        lemma_trim_start(s.drop_first(), i - 1);
        assert(s.drop_first().subrange(i - 1, s.drop_first().len() as int) =~= s.subrange(
            i,
            s.len() as int,
        ));
    } else {
        assert(s.subrange(0, s.len() as int) =~= s);
    }
}

proof fn lemma_trim_end(s: Seq<char>, j: int)
    requires
        0 <= j <= s.len(),
        forall|k: int| j <= k < s.len() ==> is_white_space(s[k]),
    ensures
        trim_end_index(s) == trim_end_index(s.subrange(0, j)),
    decreases s.len() - j,
{
    if j < s.len() {
        lemma_trim_end(s.drop_last(), j);
        assert(s.drop_last().subrange(0, j) =~= s.subrange(0, j));
    } else {
        assert(s.subrange(0, j) =~= s);
    }
}

/// `str::trim` on a sequence of characters.
pub fn trim_chars(s: &[char]) -> (r: Vec<char>)
    ensures
        r@ == trimmed(s@),
{
    let n = s.len();
    let mut i: usize = 0;
    while i < n && white_space(s[i])
        invariant
            i <= n,
            n == s@.len(),
            forall|j: int| 0 <= j < i ==> is_white_space(s@[j]),
        decreases n - i,
    {
        i = i + 1;
    }
    proof {
        lemma_trim_start(s@, i as int);
        let rest = s@.subrange(i as int, n as int);
        if i < n {
            assert(rest[0] == s@[i as int]);
        }
    }
    let mut j: usize = n;
    while j > i && white_space(s[j - 1])
        invariant
            i <= j <= n,
            n == s@.len(),
            forall|k: int| j <= k < n ==> is_white_space(s@[k]),
        decreases j,
    {
        j = j - 1;
    }
    proof {
        lemma_trim_end(s@, j as int);
        let pre = s@.subrange(0, j as int);
        if j > i {
            assert(pre.last() == s@[j - 1]);
            assert(!is_white_space(pre.last()));
            assert(trim_end_index(pre) == j);
            assert(trim_start_index(s@) == i);
        } else {
            assert(trim_start_index(s@) >= i);
            lemma_trim_end_le(pre, i as int);
        }
    }
    let mut r: Vec<char> = Vec::new();
    let mut k: usize = i;
    while k < j
        invariant
            i <= k <= j <= n,
            n == s@.len(),
            r@ == s@.subrange(i as int, k as int),
        decreases j - k,
    {
        r.push(s[k]);
        k = k + 1;
        assert(r@ =~= s@.subrange(i as int, k as int));
    }
    r
}

proof fn lemma_trim_end_le(s: Seq<char>, i: int)
    requires
        0 <= i,
        s.len() <= i,
    ensures
        trim_end_index(s) <= i,
    decreases s.len(),
{
    if s.len() > 0 && is_white_space(s.last()) {
        lemma_trim_end_le(s.drop_last(), i);
    }
}

fn push_decimal(out: &mut String, n: u64)
    ensures
        final(out)@ == old(out)@ + decimal_text(n as nat),
    decreases n,
{
    if n >= 10 {
        push_decimal(out, n / 10);
    }
    let d = (n % 10) as u8;
    let ch = (48u8 + d) as char;
    assert(ch == digit_char((n % 10) as int));
    push_char(out, ch);
    assert(final(out)@ =~= old(out)@ + decimal_text(n as nat)) by {
        if n >= 10 {
            assert(decimal_text(n as nat) == decimal_text((n / 10) as nat).push(
                digit_char((n % 10) as int),
            ));
        }
    }
}

/// The decimal notation of a number.
pub fn decimal_string(n: u64) -> (s: String)
    ensures
        s@ == decimal_text(n as nat),
{
    let mut s = String::new();
    push_decimal(&mut s, n);
    assert(s@ =~= decimal_text(n as nat));
    s
}


/// Whether every character of a run is ASCII.
fn all_ascii(cs: &Vec<char>) -> (b: bool)
    ensures
        b == is_ascii_text(cs@),
{
    let mut i: usize = 0;
    while i < cs.len()
        invariant
            i <= cs@.len(),
            forall|j: int| 0 <= j < i ==> (#[trigger] cs@[j] as u32) < 128,
        decreases cs@.len() - i,
    {
        if cs[i] as u32 >= 128 {
            return false;
        }
        i = i + 1;
    }
    true
}

/// A text in upper case, as `str::to_uppercase` gives it; an ASCII text is
/// upper-cased here, letter by letter.
pub fn upper_text(s: &str) -> (r: String)
    ensures
        r@ == uppercase_of(s@),
        is_ascii_text(s@) ==> r@ == ascii_upper(s@),
{
    let u = to_upper(s);
    let cs = chars_of(s);
    if !all_ascii(&cs) {
        return u;
    }
    let mut v: Vec<char> = Vec::new();
    let mut i: usize = 0;
    while i < cs.len()
        invariant
            i <= cs@.len(),
            is_ascii_text(cs@),
            v@ == ascii_upper(cs@).subrange(0, i as int),
        decreases cs@.len() - i,
    {
        let c = cs[i];
        assert((c as u32) < 128);
        let d = if 97 <= c as u32 && c as u32 <= 122 {
            let x: u8 = (c as u32 - 32) as u8;
            assert(x as u32 == (c as u32) - 32);
            let y = x as char;
            assert(y as u32 == x as u32);
            y
        } else {
            c
        };
        assert(d as u32 == upper_char(c) as u32);
        assert(d == upper_char(c));
        v.push(d);
        i = i + 1;
        assert(v@ =~= ascii_upper(cs@).subrange(0, i as int));
    }
    assert(v@ =~= ascii_upper(cs@));
    string_of(&v)
}

/// A text in lower case, as `str::to_lowercase` gives it; an ASCII text is
/// lower-cased here, letter by letter.
pub fn lower_text(s: &str) -> (r: String)
    ensures
        r@ == lowercase_of(s@),
        is_ascii_text(s@) ==> r@ == ascii_lower(s@),
{
    let u = to_lower(s);
    let cs = chars_of(s);
    if !all_ascii(&cs) {
        return u;
    }
    let mut v: Vec<char> = Vec::new();
    let mut i: usize = 0;
    while i < cs.len()
        invariant
            i <= cs@.len(),
            is_ascii_text(cs@),
            v@ == ascii_lower(cs@).subrange(0, i as int),
        decreases cs@.len() - i,
    {
        let c = cs[i];
        assert((c as u32) < 128);
        let d = if 65 <= c as u32 && c as u32 <= 90 {
            let x: u8 = (c as u32 + 32) as u8;
            assert(x as u32 == (c as u32) + 32);
            let y = x as char;
            assert(y as u32 == x as u32);
            y
        } else {
            c
        };
        assert(d as u32 == lower_char(c) as u32);
        assert(d == lower_char(c));
        v.push(d);
        i = i + 1;
        assert(v@ =~= ascii_lower(cs@).subrange(0, i as int));
    }
    assert(v@ =~= ascii_lower(cs@));
    string_of(&v)
}

/// Upper-casing an ASCII text keeps its length, makes each small letter
/// `a`-`z` the capital 32 code points below it, and leaves every other
/// character as it is.
pub proof fn lemma_ascii_upper(s: Seq<char>)
    ensures
        ascii_upper(s).len() == s.len(),
        forall|i: int|
            0 <= i < s.len() ==> {
                &&& 97 <= (s[i] as u32) <= 122 ==> (#[trigger] ascii_upper(s)[i] as u32) == (s[i] as u32) - 32
                &&& !(97 <= (s[i] as u32) <= 122) ==> ascii_upper(s)[i] == s[i]
            },
        is_ascii_text(s) ==> is_ascii_text(ascii_upper(s)),
{
}

/// Lower-casing an ASCII text keeps its length, makes each capital `A`-`Z`
/// the small letter 32 code points above it, and leaves every other character
/// as it is.
pub proof fn lemma_ascii_lower(s: Seq<char>)
    ensures
        ascii_lower(s).len() == s.len(),
        forall|i: int|
            0 <= i < s.len() ==> {
                &&& 65 <= (s[i] as u32) <= 90 ==> (#[trigger] ascii_lower(s)[i] as u32) == (s[i] as u32) + 32
                &&& !(65 <= (s[i] as u32) <= 90) ==> ascii_lower(s)[i] == s[i]
            },
        is_ascii_text(s) ==> is_ascii_text(ascii_lower(s)),
{
}

/// Two texts that differ only in the case of ASCII letters have the same
/// upper case and the same lower case.
pub proof fn lemma_case_blind(a: Seq<char>, b: Seq<char>)
    requires
        a.len() == b.len(),
        forall|i: int| 0 <= i < a.len() ==> #[trigger] upper_char(a[i]) == upper_char(b[i]),
    ensures
        ascii_upper(a) == ascii_upper(b),
        ascii_lower(a) == ascii_lower(b),
{
    assert(ascii_upper(a) =~= ascii_upper(b));
    assert forall|i: int| 0 <= i < a.len() implies #[trigger] lower_char(a[i]) == lower_char(b[i]) by {
        assert(upper_char(a[i]) == upper_char(b[i]));
    }
    assert(ascii_lower(a) =~= ascii_lower(b));
}


/// The extension of a path: the text after the last `.` of its file name,
/// as `Path::extension` gives it.
pub fn file_extension(path: &str) -> (r: Option<String>)
    ensures
        match path_extension(path@) {
            Some(e) => r is Some && r->Some_0@ == e,
            None => r is None,
        },
        match file_extension_of(path@) {
            Some(e) => r is Some && r->Some_0@ == e,
            None => r is None,
        },
{
    // std's own answer is asked for its contract, which ties the name
    // `path_extension` to the rule computed here
    let _std = extension_of(path);
    let cs = chars_of(path);
    let n = cs.len();
    let mut end: usize = n;
    proof {
        assert(cs@.subrange(0, n as int) =~= cs@);
    }
    while end > 0 && (cs[end - 1] == '/' || (cs[end - 1] == '.' && (end == 1 || cs[end - 2] == '/')))
        invariant
            end <= n,
            n == cs@.len(),
            file_name_of(cs@.subrange(0, end as int)) == file_name_of(cs@),
        decreases end,
    {
        proof {
            let q = cs@.subrange(0, end as int);
            assert(q.drop_last() =~= cs@.subrange(0, end - 1));
            assert(q.last() == cs@[end - 1]);
            if end >= 2 {
                assert(q[q.len() - 2] == cs@[end - 2]);
            }
        }
        end = end - 1;
    }
    let ghost q = cs@.subrange(0, end as int);
    if end == 0 {
        return None;
    }
    proof {
        assert(q.last() == cs@[end - 1]);
        if end >= 2 {
            assert(q[q.len() - 2] == cs@[end - 2]);
        }
    }
    // the start of the last segment
    let mut st: usize = end;
    while st > 0 && cs[st - 1] != '/'
        invariant
            st <= end <= n,
            n == cs@.len(),
            q == cs@.subrange(0, end as int),
            segment_start(q) == segment_start(cs@.subrange(0, st as int)),
            forall|k: int| st <= k < end ==> cs@[k] != '/',
        decreases st,
    {
        proof {
            let w = cs@.subrange(0, st as int);
            assert(w.drop_last() =~= cs@.subrange(0, st - 1));
            assert(w.last() == cs@[st - 1]);
            if st == end {
                assert(w =~= q);
            }
        }
        st = st - 1;
    }
    proof {
        let w = cs@.subrange(0, st as int);
        if st > 0 {
            assert(w.last() == cs@[st - 1]);
        }
        assert(segment_start(q) == st);
    }
    let ghost seg = cs@.subrange(st as int, end as int);
    proof {
        assert(q.subrange(st as int, end as int) =~= seg);
    }
    if end - st == 2 && cs[st] == '.' && cs[st + 1] == '.' {
        proof {
            assert(seg =~= seq!['.', '.']);
        }
        return None;
    }
    proof {
        if seg == seq!['.', '.'] {
            assert(seg[0] == cs@[st as int]);
            assert(seg[1] == cs@[st + 1]);
        }
    }
    // the last dot of the segment
    let mut d: usize = end;
    while d > st && cs[d - 1] != '.'
        invariant
            st <= d <= end <= n,
            n == cs@.len(),
            seg == cs@.subrange(st as int, end as int),
            last_dot(seg) == last_dot(cs@.subrange(st as int, d as int)),
        decreases d,
    {
        proof {
            let w = cs@.subrange(st as int, d as int);
            assert(w.drop_last() =~= cs@.subrange(st as int, d - 1));
            assert(w.last() == cs@[d - 1]);
        }
        d = d - 1;
    }
    proof {
        let w = cs@.subrange(st as int, d as int);
        if d > st {
            assert(w.last() == cs@[d - 1]);
        } else {
            assert(w.len() == 0);
        }
    }
    if d <= st + 1 {
        return None;
    }
    let mut out: Vec<char> = Vec::new();
    let mut k: usize = d;
    while k < end
        invariant
            d <= k <= end <= n,
            n == cs@.len(),
            out@ == cs@.subrange(d as int, k as int),
        decreases end - k,
    {
        out.push(cs[k]);
        k = k + 1;
        assert(out@ =~= cs@.subrange(d as int, k as int));
    }
    proof {
        assert(seg.subrange(last_dot(seg) + 1, seg.len() as int) =~= out@);
    }
    Some(string_of(&out))
}

/// `segment_start` of a path followed by text without `/` is that of the path.
proof fn lemma_segment_start_append(a: Seq<char>, b: Seq<char>)
    requires
        forall|i: int| 0 <= i < b.len() ==> b[i] != '/',
    ensures
        segment_start(a + b) == segment_start(a),
    decreases b.len(),
{
    if b.len() > 0 {
        assert((a + b).drop_last() =~= a + b.drop_last());
        assert((a + b).last() == b.last());
        lemma_segment_start_append(a, b.drop_last());
    } else {
        assert(a + b =~= a);
    }
}

/// Nothing after `segment_start` is a `/`, and what comes just before it is.
proof fn lemma_segment_start(p: Seq<char>)
    ensures
        segment_start(p) <= p.len(),
        forall|k: int| segment_start(p) <= k < p.len() ==> p[k] != '/',
        segment_start(p) > 0 ==> p[segment_start(p) - 1] == '/',
    decreases p.len(),
{
    if p.len() > 0 && p.last() != '/' {
        lemma_segment_start(p.drop_last());
        assert forall|k: int| segment_start(p) <= k < p.len() implies p[k] != '/' by {
            if k < p.len() - 1 {
                assert(p[k] == p.drop_last()[k]);
            }
        }
    }
}

/// The last `.` of a text is a `.`, with no `.` after it.
proof fn lemma_last_dot(n: Seq<char>)
    ensures
        -1 <= last_dot(n) < n.len(),
        last_dot(n) >= 0 ==> n[last_dot(n)] == '.',
        forall|k: int| last_dot(n) < k < n.len() ==> n[k] != '.',
    decreases n.len(),
{
    if n.len() > 0 && n.last() != '.' {
        lemma_last_dot(n.drop_last());
        assert forall|k: int| last_dot(n) < k < n.len() implies n[k] != '.' by {
            if k < n.len() - 1 {
                assert(n[k] == n.drop_last()[k]);
            }
        }
    }
}

/// The last `.` of `a . e`, where `e` holds no `.`, is the one before `e`.
proof fn lemma_last_dot_append(a: Seq<char>, e: Seq<char>)
    requires
        forall|i: int| 0 <= i < e.len() ==> e[i] != '.',
    ensures
        last_dot(a + seq!['.'] + e) == a.len(),
    decreases e.len(),
{
    let p = a + seq!['.'] + e;
    if e.len() > 0 {
        assert(p.drop_last() =~= a + seq!['.'] + e.drop_last());
        assert(p.last() == e.last());
        lemma_last_dot_append(a, e.drop_last());
    } else {
        assert(p.last() == '.');
    }
}

/// The file name of a path holds no `/`.
proof fn lemma_file_name_no_slash(p: Seq<char>)
    ensures
        file_name_of(p) is Some ==> forall|k: int| 0 <= k < file_name_of(p)->Some_0.len() ==> file_name_of(p)->Some_0[k] != '/',
    decreases p.len(),
{
    if p.len() > 0 {
        if p.last() == '/' || ends_in_dot_segment(p) {
            lemma_file_name_no_slash(p.drop_last());
        } else {
            lemma_segment_start(p);
        }
    }
}

/// An extension holds neither `.` nor `/`; and a path written as a stem, a `.`
/// and a text without `.` or `/` has that text for extension, where the stem
/// does not end its last segment with `/` and that segment is not `.` alone.
pub proof fn lemma_file_extension(p: Seq<char>, stem: Seq<char>, e: Seq<char>)
    ensures
        file_extension_of(p) is Some ==> forall|k: int|
            0 <= k < file_extension_of(p)->Some_0.len() ==> file_extension_of(p)->Some_0[k] != '.'
                && file_extension_of(p)->Some_0[k] != '/',
        ({
            &&& stem.len() > 0
            &&& stem.last() != '/'
            &&& !ends_in_dot_segment(stem)
            &&& forall|i: int| 0 <= i < e.len() ==> e[i] != '.' && e[i] != '/'
        }) ==> file_extension_of(stem + seq!['.'] + e) == Some(e),
{
    lemma_file_name_no_slash(p);
    if let Some(n) = file_name_of(p) {
        lemma_last_dot(n);
        if last_dot(n) > 0 {
            let x = n.subrange(last_dot(n) + 1, n.len() as int);
            assert forall|k: int| 0 <= k < x.len() implies x[k] != '.' && x[k] != '/' by {
                assert(x[k] == n[last_dot(n) + 1 + k]);
            }
        }
    }
    if stem.len() > 0 && stem.last() != '/' && !ends_in_dot_segment(stem) && forall|i: int|
        0 <= i < e.len() ==> e[i] != '.' && e[i] != '/' {
        let q = stem + seq!['.'] + e;
        let tail = seq!['.'] + e;
        assert(q =~= stem + tail);
        assert forall|i: int| 0 <= i < tail.len() implies tail[i] != '/' by {
            if i > 0 {
                assert(tail[i] == e[i - 1]);
            }
        }
        lemma_segment_start_append(stem, tail);
        lemma_segment_start(stem);
        let st = segment_start(stem);
        assert(st < stem.len());
        assert(q.last() != '/') by {
            if e.len() > 0 {
                assert(q.last() == e.last());
            }
        }
        assert(!ends_in_dot_segment(q)) by {
            if e.len() == 0 {
                assert(q[q.len() - 2] == stem.last());
            } else {
                assert(q.last() == e.last());
            }
        }
        let seg = q.subrange(st as int, q.len() as int);
        let sseg = stem.subrange(st as int, stem.len() as int);
        assert(seg =~= sseg + seq!['.'] + e);
        assert(seg != seq!['.', '.']) by {
            if seg == seq!['.', '.'] {
                assert(sseg.len() == 1);
                assert(seg[0] == stem[st as int]);
                assert(stem.last() == '.');
                if stem.len() >= 2 {
                    assert(st == stem.len() - 1);
                    assert(stem[stem.len() - 2] == '/');
                }
            }
        }
        assert(file_name_of(q) == Some(seg));
        lemma_last_dot_append(sseg, e);
        assert(seg.subrange(sseg.len() + 1int, seg.len() as int) =~= e);
    }
}

} // verus!
