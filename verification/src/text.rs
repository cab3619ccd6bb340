//! Character classes, scanning helpers and string conversions shared by the
//! grammars of this crate.

use vstd::prelude::*;

verus! {

/// The Unicode `White_Space` property (the class `\s` of the `regex` crate,
/// and what `str::trim_start` strips).
pub open spec fn is_space(c: char) -> bool {
    let u = c as u32;
    ||| 9 <= u <= 13
    ||| u == 32
    ||| u == 0x85
    ||| u == 0xa0
    ||| u == 0x1680
    ||| 0x2000 <= u <= 0x200a
    ||| u == 0x2028
    ||| u == 0x2029
    ||| u == 0x202f
    ||| u == 0x205f
    ||| u == 0x3000
}

/// The ASCII class `[A-Za-z0-9_]`.
pub open spec fn is_name_char(c: char) -> bool {
    let u = c as u32;
    ||| 48 <= u <= 57
    ||| 65 <= u <= 90
    ||| 97 <= u <= 122
    ||| u == 95
}

/// Whether a character outside ASCII and outside `White_Space` is a Unicode
/// word character (`\w`), as the `regex-syntax` tables define it.
pub uninterp spec fn regex_word_char(c: char) -> bool;

/// The class `\w` of the `regex` crate: on ASCII exactly `[A-Za-z0-9_]`,
/// never a `White_Space` character, otherwise as the Unicode tables say.
pub open spec fn is_word(c: char) -> bool {
    if (c as u32) < 128 {
        is_name_char(c)
    } else if is_space(c) {
        false
    } else {
        regex_word_char(c)
    }
}

/// `regex_syntax::is_word_character`: whether `c` is matched by `\w`.
/// Claimed: on ASCII it agrees with `is_word_byte` (`[_0-9a-zA-Z]`), and no
/// `White_Space` character is in its table; other characters are named.
#[verifier::external_body]
pub(crate) fn word_char(c: char) -> (r: bool)
    ensures
        r == (if (c as u32) < 128 {
            is_name_char(c)
        } else if is_space(c) {
            false
        } else {
            regex_word_char(c)
        }),
{
    regex_syntax::is_word_character(c)
}

pub fn space_char(c: char) -> (r: bool)
    ensures
        r == is_space(c),
{
    let u = c as u32;
    (9 <= u && u <= 13) || u == 32 || u == 0x85 || u == 0xa0 || u == 0x1680 || (0x2000 <= u
        && u <= 0x200a) || u == 0x2028 || u == 0x2029 || u == 0x202f || u == 0x205f || u == 0x3000
}

pub fn name_char(c: char) -> (r: bool)
    ensures
        r == is_name_char(c),
{
    let u = c as u32;
    (48 <= u && u <= 57) || (65 <= u && u <= 90) || (97 <= u && u <= 122) || u == 95
}

/// Which character class a run is made of.
#[derive(Clone, Copy, PartialEq, Eq, Structural, Debug)]
pub enum Class {
    Space,
    Word,
    Name,
}

pub open spec fn in_class(cls: Class, c: char) -> bool {
    match cls {
        Class::Space => is_space(c),
        Class::Word => is_word(c),
        Class::Name => is_name_char(c),
    }
}

pub fn class_char(cls: Class, c: char) -> (r: bool)
    ensures
        r == in_class(cls, c),
{
    match cls {
        Class::Space => space_char(c),
        Class::Word => word_char(c),
        Class::Name => name_char(c),
    }
}

/// End of the maximal run of `cls` characters that starts at `i`.
pub open spec fn run_end(s: Seq<char>, i: int, cls: Class) -> int
    decreases s.len() - i,
{
    if 0 <= i < s.len() && in_class(cls, s[i]) {
        run_end(s, i + 1, cls)
    } else {
        i
    }
}

pub proof fn lemma_run_end(s: Seq<char>, i: int, cls: Class)
    requires
        0 <= i <= s.len(),
    ensures
        i <= run_end(s, i, cls) <= s.len(),
        forall|k: int| i <= k < run_end(s, i, cls) ==> in_class(cls, #[trigger] s[k]),
        run_end(s, i, cls) < s.len() ==> !in_class(cls, s[run_end(s, i, cls)]),
    decreases s.len() - i,
{
    if i < s.len() && in_class(cls, s[i]) {
        lemma_run_end(s, i + 1, cls);
    }
}

pub fn run_end_exec(s: &Vec<char>, i: usize, cls: Class) -> (r: usize)
    requires
        i <= s.len(),
    ensures
        r == run_end(s@, i as int, cls),
{
    let mut j = i;
    while j < s.len() && class_char(cls, s[j])
        invariant
            i <= j <= s.len(),
            run_end(s@, i as int, cls) == run_end(s@, j as int, cls),
        decreases s.len() - j,
    {
        j = j + 1;
    }
    j
}

/// `lit` occurs in `s` at position `i`.
pub open spec fn seq_at(s: Seq<char>, i: int, lit: Seq<char>) -> bool {
    0 <= i && i + lit.len() <= s.len() && s.subrange(i, i + lit.len()) == lit
}

pub fn seq_at_exec(s: &Vec<char>, i: usize, lit: &Vec<char>) -> (r: bool)
    ensures
        r == seq_at(s@, i as int, lit@),
{
    if i > s.len() || lit.len() > s.len() - i {
        return false;
    }
    let mut k: usize = 0;
    while k < lit.len()
        invariant
            i + lit.len() <= s.len(),
            k <= lit.len(),
            forall|j: int| 0 <= j < k ==> s@[i + j] == lit@[j],
        decreases lit.len() - k,
    {
        if s[i + k] != lit[k] {
            assert(s@.subrange(i as int, i + lit.len())[k as int] != lit@[k as int]);
            return false;
        }
        k = k + 1;
    }
    assert(s@.subrange(i as int, i + lit.len()) =~= lit@);
    true
}

/// The first position at or after `i`, below `n`, that satisfies `pred`.
pub open spec fn first_from(n: int, pred: spec_fn(int) -> bool, i: int) -> Option<int>
    decreases n - i,
{
    if i >= n {
        None
    } else if pred(i) {
        Some(i)
    } else {
        first_from(n, pred, i + 1)
    }
}

pub proof fn lemma_first_from(n: int, pred: spec_fn(int) -> bool, i: int)
    ensures
        first_from(n, pred, i) matches Some(p) ==> i <= p < n && pred(p) && forall|q: int|
            i <= q < p ==> !#[trigger] pred(q),
        first_from(n, pred, i) is None ==> forall|q: int| i <= q < n ==> !#[trigger] pred(q),
    decreases n - i,
{
    if i < n && !pred(i) {
        lemma_first_from(n, pred, i + 1);
    }
}

/// The characters of a string slice, in order.
pub fn chars_of(s: &str) -> (v: Vec<char>)
    ensures
        v@ == s@,
{
    let mut v: Vec<char> = Vec::new();
    for c in it: s.chars()
        invariant
            v@ == it.seq().take(it.index()),
    {
        v.push(c);
    }
    v
}


/// `v` as a `String`: `String`'s `FromIterator<&char>`, which appends the
/// characters in order.
#[verifier::external_body]
pub(crate) fn string_of(v: &Vec<char>) -> (s: String)
    ensures
        s@ == v@,
{
    v.iter().collect()
}

/// `a` followed by `b`.
pub fn concat(a: &Vec<char>, b: &Vec<char>) -> (r: Vec<char>)
    ensures
        r@ == a@ + b@,
{
    let mut r = a.clone();
    let mut b2 = b.clone();
    proof {
        assert(r@ == a@);
        assert(b2@ == b@);
    }
    r.append(&mut b2);
    r
}

/// `s[i..j]` as a new vector.
pub fn slice_of(s: &Vec<char>, i: usize, j: usize) -> (r: Vec<char>)
    requires
        i <= j <= s.len(),
    ensures
        r@ == s@.subrange(i as int, j as int),
{
    let mut r: Vec<char> = Vec::new();
    let mut k = i;
    while k < j
        invariant
            i <= k <= j <= s.len(),
            r@ == s@.subrange(i as int, k as int),
        decreases j - k,
    {
        r.push(s[k]);
        k = k + 1;
        assert(r@ =~= s@.subrange(i as int, k as int));
    }
    r
}

// ---------------------------------------------------------------------
// Word boundaries and replacement of a bounded word (`\bword\b`)
// ---------------------------------------------------------------------

/// `\b` at position `i`: the characters on either side differ in being
/// word characters (outside the text counts as not a word character).
pub open spec fn word_boundary(s: Seq<char>, i: int) -> bool {
    let before = 0 < i <= s.len() && is_word(s[i - 1]);
    let after = 0 <= i < s.len() && is_word(s[i]);
    before != after
}

pub fn word_boundary_exec(s: &Vec<char>, i: usize) -> (r: bool)
    requires
        i <= s.len(),
    ensures
        r == word_boundary(s@, i as int),
{
    let before = i > 0 && word_char(s[i - 1]);
    let after = i < s.len() && word_char(s[i]);
    before != after
}

/// `\bw\b` matches at `i`.
pub open spec fn bounded_at(s: Seq<char>, i: int, w: Seq<char>) -> bool {
    seq_at(s, i, w) && word_boundary(s, i) && word_boundary(s, i + w.len())
}

/// What `Regex::replace_all` with the pattern `\bw\b` gives, scanning from
/// `i`: every leftmost non-overlapping match is replaced by `r`.
pub open spec fn replace_bounded_from(s: Seq<char>, w: Seq<char>, r: Seq<char>, i: int) -> Seq<
    char,
>
    decreases s.len() - i,
{
    if i < 0 || i >= s.len() {
        Seq::empty()
    } else if w.len() > 0 && bounded_at(s, i, w) {
        r + replace_bounded_from(s, w, r, i + w.len())
    } else {
        seq![s[i]] + replace_bounded_from(s, w, r, i + 1)
    }
}

pub open spec fn replace_bounded(s: Seq<char>, w: Seq<char>, r: Seq<char>) -> Seq<char> {
    replace_bounded_from(s, w, r, 0)
}

pub fn replace_bounded_exec(s: &Vec<char>, w: &Vec<char>, r: &Vec<char>) -> (out: Vec<char>)
    ensures
        out@ == replace_bounded(s@, w@, r@),
{
    let mut out: Vec<char> = Vec::new();
    let mut i: usize = 0;
    while i < s.len()
        invariant
            i <= s.len(),
            out@ + replace_bounded_from(s@, w@, r@, i as int) == replace_bounded(s@, w@, r@),
        decreases s.len() - i,
    {
        if w.len() > 0 && seq_at_exec(s, i, w) && word_boundary_exec(s, i)
            && word_boundary_exec(s, i + w.len()) {
            let ghost prev = out@;
            let mut rr = r.clone();
            out.append(&mut rr);
            assert(out@ == prev + r@);
            assert(prev + replace_bounded_from(s@, w@, r@, i as int) == prev + (r@
                + replace_bounded_from(s@, w@, r@, (i + w.len()) as int)));
            assert(out@ + replace_bounded_from(s@, w@, r@, (i + w.len()) as int) == prev + (r@
                + replace_bounded_from(s@, w@, r@, (i + w.len()) as int)));
            i = i + w.len();
        } else {
            let ghost prev = out@;
            out.push(s[i]);
            assert(out@ == prev + seq![s@[i as int]]);
            assert(out@ + replace_bounded_from(s@, w@, r@, (i + 1) as int) == prev + (seq![
                s@[i as int],
            ] + replace_bounded_from(s@, w@, r@, (i + 1) as int)));
            i = i + 1;
        }
    }
    assert(out@ + replace_bounded_from(s@, w@, r@, i as int) == out@);
    out
}

// ---------------------------------------------------------------------
// Replacement templates (`$1`, `${1}`, `$$`)
// ---------------------------------------------------------------------

/// The characters `0`..`9`.
pub open spec fn is_digit(c: char) -> bool {
    48 <= (c as u32) <= 57
}

/// Decimal value of a string of digits.
pub open spec fn digits_value(d: Seq<char>) -> nat
    decreases d.len(),
{
    if d.len() == 0 {
        0
    } else {
        digits_value(d.drop_last()) * 10 + ((d.last() as u32) - 48) as nat
    }
}

/// `t` holds no `$`.
pub open spec fn no_dollar(t: Seq<char>) -> bool {
    forall|j: int| 0 <= j < t.len() ==> t[j] != '$'
}

/// What `regex_automata::util::interpolate::string` writes for a template
/// and capture groups (the forms `$$`, `$N`, `${N}`, `$name`, `${name}`).
pub uninterp spec fn interpolated(t: Seq<char>, groups: Seq<Seq<char>>) -> Seq<char>;

/// `${1}` followed by text without `$`.
pub open spec fn group1_form(t: Seq<char>) -> bool {
    t.len() >= 4 && t.subrange(0, 4) == "${1}"@ && no_dollar(t.subrange(4, t.len() as int))
}

/// The expansion of a replacement template with capture groups: a template
/// without `$` is copied; `${1}` followed by text without `$` gives group 1
/// (nothing when there is none) followed by that text; other templates are
/// as named.
#[verifier::opaque]
pub open spec fn expand(t: Seq<char>, groups: Seq<Seq<char>>) -> Seq<char> {
    if no_dollar(t) {
        t
    } else if group1_form(t) {
        (if groups.len() > 1 {
            groups[1]
        } else {
            Seq::empty()
        }) + t.subrange(4, t.len() as int)
    } else {
        interpolated(t, groups)
    }
}

/// `regex_automata::util::interpolate::string`, which `Regex::replace`
/// uses to expand its replacement: group `i` is appended for a reference to
/// it, nothing for a missing group, and no names are defined. Claimed, from
/// its source and documentation: a template without `$` is copied; `${1}`
/// then text without `$` gives group 1 and the text; otherwise the result is
/// named by `interpolated`.
#[verifier::external_body]
pub(crate) fn expand_exec(t: &Vec<char>, groups: &Vec<Vec<char>>) -> (out: Vec<char>)
    ensures
        out@ == expand(t@, groups@.map_values(|g: Vec<char>| g@)),
        !no_dollar(t@) && !group1_form(t@) ==> out@ == interpolated(
            t@,
            groups@.map_values(|g: Vec<char>| g@),
        ),
{
    let template: String = t.iter().collect();
    let mut dst = String::new();
    regex_automata::util::interpolate::string(
        &template,
        |i, dst| dst.extend(groups.get(i).into_iter().flatten()),
        |_| None,
        &mut dst,
    );
    dst.chars().collect()
}

/// A template without `$` expands to itself.
pub proof fn lemma_expand_plain(t: Seq<char>, groups: Seq<Seq<char>>)
    requires
        forall|j: int| 0 <= j < t.len() ==> t[j] != '$',
    ensures
        expand(t, groups) == t,
{
    reveal(expand);
}

/// `${1}` followed by text without `$` expands to the first group followed
/// by that text.
pub proof fn lemma_expand_group1(v: Seq<char>, g0: Seq<char>, g1: Seq<char>)
    requires
        forall|j: int| 0 <= j < v.len() ==> v[j] != '$',
    ensures
        expand("${1}"@ + v, seq![g0, g1]) == g1 + v,
{
    reveal(expand);
    reveal_strlit("${1}");
    let t = "${1}"@ + v;
    assert(t[0] == '$');
    assert(t.subrange(0, 4) =~= "${1}"@);
    assert(t.subrange(4, t.len() as int) =~= v);
}


// ---------------------------------------------------------------------
// Case mapping and decimal numbers
// ---------------------------------------------------------------------

/// What `str::to_uppercase` returns for a string (Unicode full case mapping,
/// independent of locale).
pub uninterp spec fn uppercase(s: Seq<char>) -> Seq<char>;

/// What `str::to_lowercase` returns for a string (Unicode full case mapping,
/// independent of locale).
pub uninterp spec fn lowercase(s: Seq<char>) -> Seq<char>;

/// Every character is ASCII.
pub open spec fn is_ascii_text(s: Seq<char>) -> bool {
    forall|k: int| 0 <= k < s.len() ==> (#[trigger] s[k] as u32) < 128
}

/// The Unicode upper case of an ASCII character: `a`..`z` become `A`..`Z`,
/// every other ASCII character stays.
pub open spec fn ascii_upper(c: char) -> char {
    if 97 <= (c as u32) <= 122 {
        ((c as u32) - 32) as char
    } else {
        c
    }
}

/// The Unicode lower case of an ASCII character: `A`..`Z` become `a`..`z`,
/// every other ASCII character stays.
pub open spec fn ascii_lower(c: char) -> char {
    if 65 <= (c as u32) <= 90 {
        ((c as u32) + 32) as char
    } else {
        c
    }
}

pub open spec fn ascii_upper_text(s: Seq<char>) -> Seq<char> {
    s.map_values(|c: char| ascii_upper(c))
}

pub open spec fn ascii_lower_text(s: Seq<char>) -> Seq<char> {
    s.map_values(|c: char| ascii_lower(c))
}

/// `str::to_uppercase`; its result is named by `uppercase`. Claimed, from
/// its documentation (the Unicode case mappings, one character for one on
/// ASCII): an ASCII string has its letters `a`..`z` upper-cased and every
/// other character kept.
#[verifier::external_body]
pub(crate) fn to_uppercase(s: &str) -> (r: String)
    ensures
        r@ == uppercase(s@),
        is_ascii_text(s@) ==> r@ == ascii_upper_text(s@),
{
    s.to_uppercase()
}

/// `str::to_lowercase`; its result is named by `lowercase`. Claimed, from
/// its documentation: an ASCII string has its letters `A`..`Z` lower-cased
/// and every other character kept.
#[verifier::external_body]
pub(crate) fn to_lowercase(s: &str) -> (r: String)
    ensures
        r@ == lowercase(s@),
        is_ascii_text(s@) ==> r@ == ascii_lower_text(s@),
{
    s.to_lowercase()
}

/// The digit character of `d` (0 to 9).
pub open spec fn digit_char(d: nat) -> char {
    ((d + 48) as u32) as char
}

/// Decimal notation of a natural number, without leading zeros.
pub open spec fn decimal(n: nat) -> Seq<char>
    decreases n,
{
    if n < 10 {
        seq![digit_char(n)]
    } else {
        decimal(n / 10) + seq![digit_char(n % 10)]
    }
}

/// Decimal notation of an integer, with a leading `-` when it is negative.
pub open spec fn signed_decimal(n: int) -> Seq<char> {
    if n < 0 {
        seq!['-'] + decimal((-n) as nat)
    } else {
        decimal(n as nat)
    }
}

pub proof fn lemma_decimal_digits(n: nat)
    ensures
        decimal(n).len() > 0,
        forall|k: int| 0 <= k < decimal(n).len() ==> is_digit(#[trigger] decimal(n)[k]),
    decreases n,
{
    if n >= 10 {
        lemma_decimal_digits(n / 10);
        assert forall|k: int| 0 <= k < decimal(n).len() implies is_digit(#[trigger] decimal(n)[k]) by {
            if k < decimal(n / 10).len() {
                assert(decimal(n)[k] == decimal(n / 10)[k]);
            }
        }
    }
}

fn digit_of(d: u64) -> (c: char)
    requires
        d < 10,
    ensures
        c == digit_char(d as nat),
{
    let u = (d + 48) as u8;
    assert(((d + 48) as u32) as char == (u as char)) by {
        assert((d + 48) as u32 == u as u32);
    }
    u as char
}

/// `n` in decimal notation.
pub fn decimal_exec(n: u64) -> (r: Vec<char>)
    ensures
        r@ == decimal(n as nat),
    decreases n,
{
    if n < 10 {
        let mut v: Vec<char> = Vec::new();
        v.push(digit_of(n));
        assert(v@ =~= seq![digit_char(n as nat)]);
        v
    } else {
        let mut v = decimal_exec(n / 10);
        v.push(digit_of(n % 10));
        v
    }
}

/// `n` in decimal notation, with a leading `-` when it is negative.
pub fn signed_decimal_exec(n: i64) -> (r: Vec<char>)
    ensures
        r@ == signed_decimal(n as int),
{
    if n < 0 {
        let m: u64 = if n == i64::MIN {
            9223372036854775808u64
        } else {
            (-n) as u64
        };
        let d = decimal_exec(m);
        let mut v: Vec<char> = Vec::new();
        v.push('-');
        let r = concat(&v, &d);
        assert(v@ =~= seq!['-']);
        r
    } else {
        decimal_exec(n as u64)
    }
}

/// Whether two character sequences are equal.
pub fn seq_eq(a: &Vec<char>, b: &Vec<char>) -> (r: bool)
    ensures
        r == (a@ == b@),
{
    if a.len() != b.len() {
        return false;
    }
    let mut i: usize = 0;
    while i < a.len()
        invariant
            a.len() == b.len(),
            i <= a.len(),
            forall|k: int| 0 <= k < i ==> a@[k] == b@[k],
        decreases a.len() - i,
    {
        if a[i] != b[i] {
            return false;
        }
        i = i + 1;
    }
    assert(a@ =~= b@);
    true
}


/// The strings of a list of character vectors.
pub fn strings_of(v: &Vec<Vec<char>>) -> (r: Vec<String>)
    ensures
        r@.map_values(|x: String| x@) == v@.map_values(|x: Vec<char>| x@),
{
    let mut r: Vec<String> = Vec::new();
    let mut i: usize = 0;
    while i < v.len()
        invariant
            i <= v.len(),
            r.len() == i,
            forall|k: int| 0 <= k < i ==> (#[trigger] r@[k])@ == v@[k]@,
        decreases v.len() - i,
    {
        r.push(string_of(&v[i]));
        i = i + 1;
    }
    assert(r@.map_values(|x: String| x@) =~= v@.map_values(|x: Vec<char>| x@));
    r
}

/// `a` followed by `b`, as a new string.
pub fn cat(a: &str, b: &str) -> (r: String)
    ensures
        r@ == a@ + b@,
{
    String::from_str(a).concat(b)
}


/// What `String::from_utf8_lossy` returns for a byte sequence.
pub uninterp spec fn utf8_lossy(bytes: Seq<u8>) -> Seq<char>;

/// `String::from_utf8_lossy`: the text of `bytes`, with U+FFFD for invalid
/// sequences (named by `utf8_lossy`); valid UTF-8 is decoded as it is.
#[verifier::external_body]
pub(crate) fn from_utf8_lossy(bytes: &[u8]) -> (r: String)
    ensures
        r@ == utf8_lossy(bytes@),
        vstd::utf8::valid_utf8(bytes@) ==> r@ == vstd::utf8::decode_utf8(bytes@),
{
    String::from_utf8_lossy(bytes).to_string()
}

/// `lit` occurs somewhere in `s` (`str::contains`).
pub open spec fn contains_seq(s: Seq<char>, lit: Seq<char>) -> bool {
    exists|i: int| seq_at(s, i, lit)
}

pub fn contains_exec(s: &Vec<char>, lit: &Vec<char>) -> (r: bool)
    ensures
        r == contains_seq(s@, lit@),
{
    if seq_at_exec(s, s.len(), lit) {
        return true;
    }
    let mut i: usize = 0;
    while i < s.len()
        invariant
            i <= s.len(),
            !seq_at(s@, s@.len() as int, lit@),
            forall|k: int| 0 <= k < i ==> !seq_at(s@, k, lit@),
        decreases s.len() - i,
    {
        if seq_at_exec(s, i, lit) {
            return true;
        }
        i = i + 1;
    }
    assert forall|k: int| !seq_at(s@, k, lit@) by {
        if seq_at(s@, k, lit@) {
            assert(0 <= k <= s@.len());
        }
    }
    false
}

/// `list` joined with `sep` between its elements (`[T]::join`).
pub open spec fn seq_join(list: Seq<Seq<char>>, sep: Seq<char>) -> Seq<char>
    decreases list.len(),
{
    if list.len() == 0 {
        Seq::empty()
    } else if list.len() == 1 {
        list[0]
    } else {
        seq_join(list.drop_last(), sep) + sep + list.last()
    }
}

/// The strings of `list` joined with `sep`.
pub fn join_strings(list: &Vec<String>, sep: &str) -> (r: String)
    ensures
        r@ == seq_join(list@.map_values(|v: String| v@), sep@),
{
    let ghost views = list@.map_values(|v: String| v@);
    let mut r = String::new();
    let mut i: usize = 0;
    while i < list.len()
        invariant
            i <= list.len(),
            views == list@.map_values(|v: String| v@),
            r@ == seq_join(views.take(i as int), sep@),
        decreases list.len() - i,
    {
        if i != 0 {
            r.append(sep);
        }
        r.append(list[i].as_str());
        assert(views.take((i + 1) as int).drop_last() =~= views.take(i as int));
        i = i + 1;
    }
    assert(views.take(i as int) =~= views);
    r
}


// ---------------------------------------------------------------------
// Facts used by the laws
// ---------------------------------------------------------------------

/// A word character is never white space.
pub proof fn lemma_word_not_space(c: char)
    ensures
        is_word(c) ==> !is_space(c),
{
}

/// Runs from `i` agree in two texts that agree from `i` up to `k`, where the
/// run stops in both.
pub proof fn lemma_run_agree(s1: Seq<char>, s2: Seq<char>, i: int, k: int, cls: Class)
    requires
        0 <= i <= k,
        k <= s1.len(),
        k <= s2.len(),
        forall|j: int| i <= j < k ==> s1[j] == s2[j],
        k == s1.len() || !in_class(cls, s1[k]),
        k == s2.len() || !in_class(cls, s2[k]),
    ensures
        run_end(s1, i, cls) == run_end(s2, i, cls),
    decreases k - i,
{
    if i < k && in_class(cls, s1[i]) {
        lemma_run_agree(s1, s2, i + 1, k, cls);
    }
}

/// A run over characters that are all in the class ends where they end.
pub proof fn lemma_run_exact(s: Seq<char>, i: int, k: int, cls: Class)
    requires
        0 <= i <= k <= s.len(),
        forall|j: int| i <= j < k ==> in_class(cls, #[trigger] s[j]),
        k == s.len() || !in_class(cls, s[k]),
    ensures
        run_end(s, i, cls) == k,
    decreases k - i,
{
    if i < k {
        lemma_run_exact(s, i + 1, k, cls);
    }
}

/// The first position satisfying `pred` is the one before which none does.
pub proof fn lemma_first_from_is(n: int, pred: spec_fn(int) -> bool, i: int, p: int)
    requires
        i <= p < n,
        pred(p),
        forall|q: int| i <= q < p ==> !#[trigger] pred(q),
    ensures
        first_from(n, pred, i) == Some(p),
    decreases p - i,
{
    if i < p {
        lemma_first_from_is(n, pred, i + 1, p);
    }
}


/// A run that starts inside a run of the class ends where that run ends.
pub proof fn lemma_run_same(s: Seq<char>, q: int, p: int, cls: Class)
    requires
        0 <= q <= p <= s.len(),
        forall|j: int| q <= j < p ==> in_class(cls, #[trigger] s[j]),
    ensures
        run_end(s, q, cls) == run_end(s, p, cls),
    decreases p - q,
{
    if q < p {
        lemma_run_same(s, q + 1, p, cls);
    }
}

/// Every character of `x` is a word character.
pub open spec fn all_word(x: Seq<char>) -> bool {
    forall|j: int| 0 <= j < x.len() ==> is_word(#[trigger] x[j])
}

/// `s` has a word character at `k`.
pub open spec fn word_at(s: Seq<char>, k: int) -> bool {
    0 <= k < s.len() && is_word(s[k])
}

/// A run that starts in the second part of a concatenation ends where it
/// ends in that part, shifted.
pub proof fn lemma_run_shift(x: Seq<char>, y: Seq<char>, j: int, cls: Class)
    requires
        0 <= j <= y.len(),
    ensures
        run_end(x + y, x.len() + j, cls) == x.len() + run_end(y, j, cls),
    decreases y.len() - j,
{
    if j < y.len() && in_class(cls, y[j]) {
        lemma_run_shift(x, y, j + 1, cls);
    }
}

/// Where no bounded match starts in `[a, b)`, the replacement copies
/// `s[a..b]`.
pub proof fn lemma_rb_copies(s: Seq<char>, w: Seq<char>, r: Seq<char>, a: int, b: int)
    requires
        0 <= a <= b <= s.len(),
        w.len() > 0,
        forall|j: int| a <= j < b ==> !#[trigger] bounded_at(s, j, w),
    ensures
        replace_bounded_from(s, w, r, a) == s.subrange(a, b) + replace_bounded_from(s, w, r, b),
    decreases b - a,
{
    if a < b {
        assert(!bounded_at(s, a, w));
        lemma_rb_copies(s, w, r, a + 1, b);
        assert(s.subrange(a, b) =~= seq![s[a]] + s.subrange(a + 1, b));
        assert(replace_bounded_from(s, w, r, a) == seq![s[a]] + replace_bounded_from(
            s,
            w,
            r,
            a + 1,
        ));
        assert(seq![s[a]] + (s.subrange(a + 1, b) + replace_bounded_from(s, w, r, b)) =~= (seq![
            s[a],
        ] + s.subrange(a + 1, b)) + replace_bounded_from(s, w, r, b));
    } else {
        assert(s.subrange(a, b) =~= Seq::<char>::empty());
    }
}

/// Two texts that agree below `k`, and on whether `k` holds a word
/// character, have the same bounded matches ending by `k`.
proof fn lemma_bounded_agree(s1: Seq<char>, s2: Seq<char>, w: Seq<char>, j: int, k: int)
    requires
        0 <= j,
        j + w.len() <= k,
        k <= s1.len(),
        k <= s2.len(),
        forall|m: int| 0 <= m < k ==> s1[m] == s2[m],
        word_at(s1, k) == word_at(s2, k),
    ensures
        bounded_at(s1, j, w) == bounded_at(s2, j, w),
{
    assert(s1.subrange(j, j + w.len()) =~= s2.subrange(j, j + w.len()));
    let e = j + w.len();
    if j > 0 {
        assert(s1[j - 1] == s2[j - 1]);
    }
    if j < k {
        assert(s1[j] == s2[j]);
    }
    if 0 < e {
        assert(s1[e - 1] == s2[e - 1]);
    }
    if e < k {
        assert(s1[e] == s2[e]);
    }
}

/// Scanning two texts that agree below `k` from `i` to `k`, where no
/// bounded match crosses `k`, gives the same output up to `k`.
pub proof fn lemma_rb_prefix(s1: Seq<char>, s2: Seq<char>, w: Seq<char>, r: Seq<char>, i: int, k: int) -> (c: Seq<char>)
    requires
        0 <= i <= k,
        k <= s1.len(),
        k <= s2.len(),
        w.len() > 0,
        forall|m: int| 0 <= m < k ==> s1[m] == s2[m],
        word_at(s1, k) == word_at(s2, k),
        forall|j: int| i <= j < k && #[trigger] bounded_at(s1, j, w) ==> j + w.len() <= k,
        forall|j: int| i <= j < k && #[trigger] bounded_at(s2, j, w) ==> j + w.len() <= k,
    ensures
        replace_bounded_from(s1, w, r, i) == c + replace_bounded_from(s1, w, r, k),
        replace_bounded_from(s2, w, r, i) == c + replace_bounded_from(s2, w, r, k),
    decreases k - i,
{
    if i == k {
        Seq::empty()
    } else {
        let b1 = bounded_at(s1, i, w);
        let b2 = bounded_at(s2, i, w);
        if b1 || b2 {
            lemma_bounded_agree(s1, s2, w, i, k);
        }
        if b1 {
            let rest = lemma_rb_prefix(s1, s2, w, r, i + w.len(), k);
            assert(r + (rest + replace_bounded_from(s1, w, r, k)) =~= (r + rest)
                + replace_bounded_from(s1, w, r, k));
            assert(r + (rest + replace_bounded_from(s2, w, r, k)) =~= (r + rest)
                + replace_bounded_from(s2, w, r, k));
            r + rest
        } else {
            assert(s1[i] == s2[i]);
            let rest = lemma_rb_prefix(s1, s2, w, r, i + 1, k);
            assert(seq![s1[i]] + (rest + replace_bounded_from(s1, w, r, k)) =~= (seq![s1[i]] + rest)
                + replace_bounded_from(s1, w, r, k));
            assert(seq![s2[i]] + (rest + replace_bounded_from(s2, w, r, k)) =~= (seq![s1[i]] + rest)
                + replace_bounded_from(s2, w, r, k));
            seq![s1[i]] + rest
        }
    }
}

/// The replacement from a position depends only on the text from there on
/// and on whether a word character stands just before it.
pub proof fn lemma_rb_shift(s1: Seq<char>, s2: Seq<char>, w: Seq<char>, r: Seq<char>, i1: int, i2: int)
    requires
        0 <= i1 <= s1.len(),
        0 <= i2 <= s2.len(),
        w.len() > 0,
        s1.subrange(i1, s1.len() as int) == s2.subrange(i2, s2.len() as int),
        word_at(s1, i1 - 1) == word_at(s2, i2 - 1),
    ensures
        replace_bounded_from(s1, w, r, i1) == replace_bounded_from(s2, w, r, i2),
    decreases s1.len() - i1,
{
    let n1 = s1.len() as int;
    let n2 = s2.len() as int;
    let t1 = s1.subrange(i1, n1);
    let t2 = s2.subrange(i2, n2);
    assert(n1 - i1 == n2 - i2) by {
        assert(t1.len() == t2.len());
    }
    if i1 < n1 {
        let e = w.len() as int;
        assert(t1[0] == s1[i1] && t2[0] == s2[i2]);
        if i1 + e <= n1 {
            assert(s1.subrange(i1, i1 + e) =~= s2.subrange(i2, i2 + e)) by {
                assert forall|m: int| 0 <= m < e implies #[trigger] s1.subrange(i1, i1 + e)[m] == s2.subrange(
                    i2,
                    i2 + e,
                )[m] by {
                    assert(t1[m] == t2[m]);
                }
            }
            assert(t1[e - 1] == s1[i1 + e - 1] && t2[e - 1] == s2[i2 + e - 1]);
            if i1 + e < n1 {
                assert(t1[e] == s1[i1 + e] && t2[e] == s2[i2 + e]);
            }
        }
        assert(bounded_at(s1, i1, w) == bounded_at(s2, i2, w));
        let step: int = if bounded_at(s1, i1, w) {
            e
        } else {
            1
        };
        assert(s1.subrange(i1 + step, n1) =~= s2.subrange(i2 + step, n2)) by {
            assert forall|m: int| 0 <= m < n1 - i1 - step implies #[trigger] s1.subrange(i1 + step, n1)[m]
                == s2.subrange(i2 + step, n2)[m] by {
                assert(t1[step + m] == t2[step + m]);
            }
        }
        assert(t1[step - 1] == s1[i1 + step - 1] && t2[step - 1] == s2[i2 + step - 1]);
        lemma_rb_shift(s1, s2, w, r, i1 + step, i2 + step);
    }
}

} // verus!
