//! LVGL image sources: finding the image descriptor and renaming its symbols.
//!
//! The grammar is the one of the patterns `lv_img_dsc_t\s+(\w+)` (every
//! descriptor), `uint8_t\s+NAME_map\[\]` (the pixel array of `NAME`),
//! `lv_img_dsc_t\s+NAME\b` and `\bNAME_map\b` (the symbols that a rename
//! rewrites), read with the `regex` crate's leftmost-first semantics.

use vstd::prelude::*;
use crate::text::{
    all_word, bounded_at, chars_of, concat, expand, expand_exec, first_from, in_class,
    is_space, is_word, lemma_expand_plain, lemma_first_from, lemma_first_from_is, lemma_rb_copies,
    lemma_rb_prefix, lemma_rb_shift, lemma_run_agree, lemma_run_end, lemma_run_exact,
    lemma_run_shift, replace_bounded, replace_bounded_exec, replace_bounded_from, run_end,
    run_end_exec, seq_at, seq_at_exec, slice_of, string_of, word_at, word_char, Class,
};

verus! {

/// Errors that can occur while reading an LVGL image source.
#[derive(Debug, Clone, Copy, PartialEq, Eq, Structural)]
pub enum ParserError {
    NotLvglImage,
    AmbiguousDeclarations,
    SymbolMismatch,
    FileReadError,
}

impl ParserError {
    /// The message shown for this error.
    pub open spec fn text(self) -> Seq<char> {
        match self {
            ParserError::NotLvglImage =>
                "Not a valid LVGL image file. Missing lv_img_dsc_t declaration."@,
            ParserError::AmbiguousDeclarations =>
                "Ambiguous: file contains multiple image declarations."@,
            ParserError::SymbolMismatch =>
                "Symbol mismatch: descriptor and map array have different names."@,
            ParserError::FileReadError => "Cannot read file"@,
        }
    }

    pub fn message(&self) -> (m: String)
        ensures
            m@ == self.text(),
    {
        match self {
            ParserError::NotLvglImage => String::from_str(
                "Not a valid LVGL image file. Missing lv_img_dsc_t declaration.",
            ),
            ParserError::AmbiguousDeclarations => String::from_str(
                "Ambiguous: file contains multiple image declarations.",
            ),
            ParserError::SymbolMismatch => String::from_str(
                "Symbol mismatch: descriptor and map array have different names.",
            ),
            ParserError::FileReadError => String::from_str("Cannot read file"),
        }
    }
}

/// Information extracted from an LVGL image source.
#[derive(Debug)]
pub struct ImageInfo {
    pub original_name: String,
    pub file_size_bytes: usize,
}

pub open spec fn desc_lit() -> Seq<char> {
    "lv_img_dsc_t"@
}

pub open spec fn u8_lit() -> Seq<char> {
    "uint8_t"@
}

pub open spec fn map_suffix() -> Seq<char> {
    "_map"@
}

pub open spec fn map_decl_suffix() -> Seq<char> {
    "_map[]"@
}

/// Where the name of a descriptor that starts at `p` begins.
pub open spec fn desc_name_start(s: Seq<char>, p: int) -> int {
    run_end(s, p + desc_lit().len(), Class::Space)
}

/// Where the descriptor match that starts at `p` ends (after its name).
pub open spec fn desc_end(s: Seq<char>, p: int) -> int {
    run_end(s, desc_name_start(s, p), Class::Word)
}

/// `lv_img_dsc_t\s+(\w+)` matches at `p`.
pub open spec fn desc_at(s: Seq<char>, p: int) -> bool {
    &&& seq_at(s, p, desc_lit())
    &&& desc_name_start(s, p) > p + desc_lit().len()
    &&& desc_name_start(s, p) < s.len()
    &&& is_word(s[desc_name_start(s, p)])
}

pub open spec fn desc_pred(s: Seq<char>) -> spec_fn(int) -> bool {
    |p: int| desc_at(s, p)
}

/// The first descriptor match at or after `i`.
pub open spec fn find_desc(s: Seq<char>, i: int) -> Option<int> {
    first_from(s.len() as int, desc_pred(s), i)
}

/// `uint8_t\s+` followed by `tail` matches at `p`.
pub open spec fn u8_decl_at(s: Seq<char>, p: int, tail: Seq<char>) -> bool {
    &&& seq_at(s, p, u8_lit())
    &&& run_end(s, p + u8_lit().len(), Class::Space) > p + u8_lit().len()
    &&& seq_at(s, run_end(s, p + u8_lit().len(), Class::Space), tail)
}

/// `uint8_t\s+NAME_map\[\]` matches at `p`.
pub open spec fn map_decl_at(s: Seq<char>, p: int, name: Seq<char>) -> bool {
    u8_decl_at(s, p, name + map_decl_suffix())
}

pub open spec fn map_pred(s: Seq<char>, name: Seq<char>) -> spec_fn(int) -> bool {
    |p: int| map_decl_at(s, p, name)
}

/// The text declares a pixel array for `name`.
pub open spec fn has_map_decl(s: Seq<char>, name: Seq<char>) -> bool {
    first_from(s.len() as int, map_pred(s, name), 0) is Some
}

/// The name of the single image that `s` declares, or why there is none:
/// no descriptor, a second descriptor after the first, or no pixel array
/// for the first one.
pub open spec fn image_name(s: Seq<char>) -> Result<Seq<char>, ParserError> {
    match find_desc(s, 0) {
        None => Err(ParserError::NotLvglImage),
        Some(p) => if find_desc(s, desc_end(s, p)) is Some {
            Err(ParserError::AmbiguousDeclarations)
        } else {
            let name = s.subrange(desc_name_start(s, p), desc_end(s, p));
            if has_map_decl(s, name) {
                Ok(name)
            } else {
                Err(ParserError::SymbolMismatch)
            }
        },
    }
}

fn desc_at_exec(s: &Vec<char>, p: usize, lit: &Vec<char>) -> (r: bool)
    requires
        lit@ == desc_lit(),
        p <= s.len(),
    ensures
        r == desc_at(s@, p as int),
{
    if !seq_at_exec(s, p, lit) {
        return false;
    }
    let a = p + lit.len();
    let b = run_end_exec(s, a, Class::Space);
    proof {
        lemma_run_end(s@, a as int, Class::Space);
    }
    b > a && b < s.len() && word_char(s[b])
}

fn find_desc_exec(s: &Vec<char>, from: usize, lit: &Vec<char>) -> (r: Option<usize>)
    requires
        lit@ == desc_lit(),
        from <= s.len(),
    ensures
        match r {
            Some(p) => find_desc(s@, from as int) == Some(p as int),
            None => find_desc(s@, from as int) is None,
        },
{
    let mut i = from;
    while i < s.len()
        invariant
            lit@ == desc_lit(),
            from <= i <= s.len(),
            find_desc(s@, from as int) == find_desc(s@, i as int),
        decreases s.len() - i,
    {
        if desc_at_exec(s, i, lit) {
            return Some(i);
        }
        i = i + 1;
    }
    None
}

fn map_decl_at_exec(s: &Vec<char>, p: usize, u8lit: &Vec<char>, tail: &Vec<char>) -> (r: bool)
    requires
        u8lit@ == u8_lit(),
        p <= s.len(),
    ensures
        r == u8_decl_at(s@, p as int, tail@),
{
    if !seq_at_exec(s, p, u8lit) {
        return false;
    }
    let a = p + u8lit.len();
    let b = run_end_exec(s, a, Class::Space);
    proof {
        lemma_run_end(s@, a as int, Class::Space);
    }
    b > a && seq_at_exec(s, b, tail)
}

/// Finds the single image of `s`: the descriptor's start, where its name
/// starts, and where it ends.
fn image_parts(s: &Vec<char>) -> (r: Result<(usize, usize, usize), ParserError>)
    ensures
        match r {
            Ok((p, ns, e)) => {
                &&& find_desc(s@, 0) == Some(p as int)
                &&& ns as int == desc_name_start(s@, p as int)
                &&& e as int == desc_end(s@, p as int)
                &&& p < ns < e <= s.len()
                &&& image_name(s@) == Ok::<Seq<char>, ParserError>(s@.subrange(ns as int, e as int))
            },
            Err(err) => image_name(s@) == Err::<Seq<char>, ParserError>(err),
        },
{
    let lit = chars_of("lv_img_dsc_t");
    let first = find_desc_exec(s, 0, &lit);
    let p = match first {
        None => return Err(ParserError::NotLvglImage),
        Some(p) => p,
    };
    proof {
        lemma_first_from(s@.len() as int, desc_pred(s@), 0);
        assert(desc_pred(s@)(p as int));
        assert(desc_at(s@, p as int));
        assert(lit@.len() == desc_lit().len());
        assert(p + desc_lit().len() <= s@.len());
        lemma_run_end(s@, p + desc_lit().len(), Class::Space);
        lemma_run_end(s@, desc_name_start(s@, p as int), Class::Word);
    }
    let ll = lit.len();
    assert(ll == desc_lit().len());
    assert(p + ll <= s.len());
    let ns = run_end_exec(s, p + ll, Class::Space);
    let e = run_end_exec(s, ns, Class::Word);
    if find_desc_exec(s, e, &lit).is_some() {
        return Err(ParserError::AmbiguousDeclarations);
    }
    assert(p < ns < e <= s.len()) by {
        assert(desc_at(s@, p as int));
    }
    let ghost name = s@.subrange(ns as int, e as int);
    let u8lit = chars_of("uint8_t");
    let name_v = slice_of(s, ns, e);
    let suffix = chars_of("_map[]");
    let tail = concat(&name_v, &suffix);
    let mut i: usize = 0;
    while i < s.len()
        invariant
            i <= s.len(),
            u8lit@ == u8_lit(),
            tail@ == name + map_decl_suffix(),
            name == s@.subrange(ns as int, e as int),
            find_desc(s@, 0) == Some(p as int),
            ns as int == desc_name_start(s@, p as int),
            e as int == desc_end(s@, p as int),
            p < ns < e <= s.len(),
            find_desc(s@, e as int) is None,
            first_from(s@.len() as int, map_pred(s@, name), 0) == first_from(
                s@.len() as int,
                map_pred(s@, name),
                i as int,
            ),
        decreases s.len() - i,
    {
        if map_decl_at_exec(s, i, &u8lit, &tail) {
            return Ok((p, ns, e));
        }
        i = i + 1;
    }
    Err(ParserError::SymbolMismatch)
}

/// Checks that `content` is an LVGL image source and returns the name of
/// its image and its size in bytes.
pub fn validate_lvgl_image_content(content: &str) -> (r: Result<ImageInfo, ParserError>)
    ensures
        match image_name(content@) {
            Ok(name) => r matches Ok(info) && info.original_name@ == name
                && info.file_size_bytes == vstd::utf8::encode_utf8(content@).len() as usize,
            Err(e) => r matches Err(e2) && e2 == e,
        },
{
    let s = chars_of(content);
    match image_parts(&s) {
        Err(e) => Err(e),
        Ok((p, ns, e)) => {
            let name = slice_of(&s, ns, e);
            Ok(ImageInfo { original_name: string_of(&name), file_size_bytes: content.len() })
        },
    }
}

/// Checks the text of an image source file; `None` when the file could not
/// be read.
pub fn validate_lvgl_image(content: Option<&str>) -> (r: Result<ImageInfo, ParserError>)
    ensures
        match content {
            None => r matches Err(e) && e == ParserError::FileReadError,
            Some(c) => match image_name(c@) {
                Ok(name) => r matches Ok(info) && info.original_name@ == name
                    && info.file_size_bytes == vstd::utf8::encode_utf8(c@).len() as usize,
                Err(e) => r matches Err(e2) && e2 == e,
            },
        },
{
    match content {
        None => Err(ParserError::FileReadError),
        Some(c) => validate_lvgl_image_content(c),
    }
}

/// The text after renaming the image of `s` to `t`: the first descriptor
/// `lv_img_dsc_t <ws> NAME` becomes the expansion of `lv_img_dsc_t t`, then
/// every `\bNAME_map\b` becomes the expansion of `t_map`.
pub open spec fn renamed(s: Seq<char>, t: Seq<char>) -> Seq<char> {
    let p = match find_desc(s, 0) {
        Some(p) => p,
        None => 0,
    };
    let ns = desc_name_start(s, p);
    let e = desc_end(s, p);
    let old = s.subrange(ns, e);
    let u = s.subrange(0, p) + expand("lv_img_dsc_t "@ + t, seq![s.subrange(p, e)]) + s.subrange(
        e,
        s.len() as int,
    );
    let w = old + map_suffix();
    replace_bounded(u, w, expand(t + map_suffix(), seq![w]))
}

/// Renames the image symbols of an LVGL image source to `target_emotion`.
pub fn rename_symbols(content: &str, target_emotion: &str) -> (r: Result<String, ParserError>)
    ensures
        match image_name(content@) {
            Ok(_) => r matches Ok(out) && out@ == renamed(content@, target_emotion@),
            Err(e) => r matches Err(e2) && e2 == e,
        },
{
    let s = chars_of(content);
    let (p, ns, e) = match image_parts(&s) {
        Err(err) => return Err(err),
        Ok(parts) => parts,
    };
    let t = chars_of(target_emotion);
    let head = chars_of("lv_img_dsc_t ");
    let desc_template = concat(&head, &t);
    let whole = slice_of(&s, p, e);
    let mut groups: Vec<Vec<char>> = Vec::new();
    groups.push(whole);
    let desc_text = expand_exec(&desc_template, &groups);
    proof {
        assert(groups@.map_values(|g: Vec<char>| g@) =~= seq![s@.subrange(p as int, e as int)]);
    }
    let prefix = slice_of(&s, 0, p);
    let rest = slice_of(&s, e, s.len());
    let u0 = concat(&prefix, &desc_text);
    let u = concat(&u0, &rest);
    let old = slice_of(&s, ns, e);
    let suffix = chars_of("_map");
    let w = concat(&old, &suffix);
    let map_template = concat(&t, &suffix);
    let mut groups2: Vec<Vec<char>> = Vec::new();
    groups2.push(w.clone());
    proof {
        assert(groups2@.map_values(|g: Vec<char>| g@) =~= seq![w@]);
    }
    let map_text = expand_exec(&map_template, &groups2);
    let out = replace_bounded_exec(&u, &w, &map_text);
    Ok(string_of(&out))
}


// ----- renaming keeps the image valid -----

proof fn lemma_literals()
    ensures
        desc_lit().len() == 12,
        all_word(desc_lit()),
        desc_lit()[0] == 'l',
        desc_lit()[11] == 't',
        forall|m: int| 0 < m < 12 ==> #[trigger] desc_lit()[m] != 'l',
        forall|m: int| 0 <= m < 12 ==> #[trigger] desc_lit()[m] != '[',
        forall|m: int| 0 <= m < 12 ==> #[trigger] desc_lit()[m] != 'x',
        forall|m: int| 0 <= m < 12 ==> #[trigger] desc_lit()[m] != '$',
        u8_lit().len() == 7,
        all_word(u8_lit()),
        u8_lit()[6] == 't',
        forall|m: int| 0 <= m < 7 ==> #[trigger] u8_lit()[m] != 'l',
        map_suffix().len() == 4,
        all_word(map_suffix()),
        map_suffix()[3] == 'p',
        forall|m: int| 0 <= m < 4 ==> #[trigger] map_suffix()[m] != '$',
        map_decl_suffix() == map_suffix() + "[]"@,
        "[]"@ == seq!['[', ']'],
        "lv_img_dsc_t "@ == desc_lit() + seq![' '],
{
    reveal_strlit("lv_img_dsc_t");
    reveal_strlit("lv_img_dsc_t ");
    reveal_strlit("uint8_t");
    reveal_strlit("_map");
    reveal_strlit("_map[]");
    reveal_strlit("[]");
    assert(map_decl_suffix() =~= map_suffix() + "[]"@);
    assert("lv_img_dsc_t "@ =~= desc_lit() + seq![' ']);
    assert("[]"@ =~= seq!['[', ']']);
}

/// A symbol name: one or more word characters (`\w+`).
pub open spec fn is_symbol(t: Seq<char>) -> bool {
    t.len() > 0 && all_word(t)
}

/// A descriptor match only looks forward from where it starts.
proof fn lemma_desc_suffix(x: Seq<char>, y: Seq<char>, q: int)
    requires
        0 <= q,
    ensures
        desc_at(x + y, x.len() + q) == desc_at(y, q),
{
    lemma_literals();
    let s = x + y;
    let a = x.len() + q;
    if q + 12 <= y.len() {
        assert(s.subrange(a, a + 12) =~= y.subrange(q, q + 12));
        lemma_run_shift(x, y, q + 12, Class::Space);
    }
}

/// Two texts that agree from `q` to `k`, with a word character at `k` in
/// both, have a descriptor match at `q` alike, when its literal ends by `k`.
proof fn lemma_desc_agree(x: Seq<char>, y: Seq<char>, q: int, k: int)
    requires
        0 <= q,
        q + 12 <= k,
        word_at(x, k),
        word_at(y, k),
        forall|m: int| q <= m < k ==> x[m] == y[m],
    ensures
        desc_at(x, q) == desc_at(y, q),
{
    lemma_literals();
    assert(x.subrange(q, q + 12) =~= y.subrange(q, q + 12));
    crate::text::lemma_word_not_space(x[k]);
    crate::text::lemma_word_not_space(y[k]);
    lemma_run_agree(x, y, q + 12, k, Class::Space);
    lemma_run_end(x, q + 12, Class::Space);
    lemma_run_end(y, q + 12, Class::Space);
    let ns = desc_name_start(x, q);
    if ns < k {
        assert(x[ns] == y[ns]);
    }
}

/// Replacing bounded words by a word that does not end like the descriptor
/// literal creates no descriptor match where the text had none.
proof fn lemma_renamed_no_desc(s: Seq<char>, w: Seq<char>, r: Seq<char>, i: int)
    requires
        0 <= i <= s.len(),
        w.len() > 0,
        all_word(w),
        r.len() > 0,
        all_word(r),
        r.last() != 't',
        forall|j: int| i <= j < s.len() ==> !#[trigger] desc_at(s, j),
    ensures
        forall|q: int| !#[trigger] desc_at(replace_bounded_from(s, w, r, i), q),
    decreases s.len() - i,
{
    lemma_literals();
    let n = s.len() as int;
    let o = replace_bounded_from(s, w, r, i);
    let bp = |j: int| bounded_at(s, j, w);
    lemma_first_from(n, bp, i);
    let tl = s.subrange(i, n);
    assert(s.subrange(0, i) + tl =~= s);
    match first_from(n, bp, i) {
        None => {
            assert forall|j: int| i <= j < n implies !#[trigger] bounded_at(s, j, w) by {
                assert(!bp(j));
            }
            lemma_rb_copies(s, w, r, i, n);
            assert(o =~= tl);
            assert forall|q: int| !#[trigger] desc_at(o, q) by {
                if desc_at(o, q) {
                    lemma_desc_suffix(s.subrange(0, i), tl, q);
                    assert(desc_at(s, i + q));
                }
            }
        },
        Some(j) => {
            assert forall|m: int| i <= m < j implies !#[trigger] bounded_at(s, m, w) by {
                assert(!bp(m));
            }
            assert(bp(j));
            lemma_rb_copies(s, w, r, i, j);
            let e = j + w.len();
            let tail = replace_bounded_from(s, w, r, e);
            let head = s.subrange(i, j);
            let b = j - i;
            assert(o == head + (r + tail));
            assert(o =~= (head + r) + tail);
            lemma_renamed_no_desc(s, w, r, e);
            // what follows the replaced word
            assert(w[w.len() - 1] == s[e - 1]) by {
                assert(s.subrange(j, e)[w.len() - 1] == s[e - 1]);
            }
            assert(is_word(s[e - 1]));
            if e < n {
                assert(!is_word(s[e]));
                assert(s.subrange(j, e)[0] == w[0]);
                assert(!bounded_at(s, e, w)) by {
                    if bounded_at(s, e, w) {
                        assert(s.subrange(e, e + w.len())[0] == s[e]);
                    }
                }
                assert(tail[0] == s[e]);
            }
            // what precedes it
            assert(is_word(s[j])) by {
                assert(s.subrange(j, e)[0] == s[j]);
            }
            assert(j > 0 ==> !is_word(s[j - 1]));
            assert forall|q: int| !#[trigger] desc_at(o, q) by {
                if desc_at(o, q) {
                    lemma_run_end(o, q + 12, Class::Space);
                    assert(o.subrange(q, q + 12) == desc_lit());
                    assert(forall|m: int| 0 <= m < 12 ==> o[q + m] == #[trigger] desc_lit()[m]) by {
                        assert forall|m: int| 0 <= m < 12 implies o[q + m] == #[trigger] desc_lit()[m] by {
                            assert(o.subrange(q, q + 12)[m] == o[q + m]);
                        }
                    }
                    assert(is_space(o[q + 12]));
                    if q >= b + r.len() {
                        lemma_desc_suffix(head + r, tail, q - b - r.len());
                        assert(desc_at(tail, q - b - r.len()));
                    } else if q >= b {
                        if q + 12 < b + r.len() {
                            assert(o[q + 12] == r[q + 12 - b]);
                            crate::text::lemma_word_not_space(r[q + 12 - b]);
                        } else if q + 12 == b + r.len() {
                            assert(o[q + 11] == r[r.len() - 1]);
                            assert(desc_lit()[11] == 't');
                        } else {
                            let m = b + r.len() - q;
                            assert(0 < m < 12);
                            assert(o[b + r.len()] == tail[0]);
                            assert(o[q + m] == desc_lit()[m]);
                            assert(is_word(desc_lit()[m]));
                        }
                    } else if q + 12 <= b {
                        assert(o[b] == r[0]);
                        assert(s.subrange(i, n)[b] == s[j]);
                        lemma_desc_agree(o, tl, q, b);
                        lemma_desc_suffix(s.subrange(0, i), tl, q);
                        assert(desc_at(s, i + q));
                    } else {
                        let m = b - 1 - q;
                        assert(0 <= m < 12);
                        assert(o[b - 1] == s[j - 1]);
                        assert(o[q + m] == desc_lit()[m]);
                        assert(is_word(desc_lit()[m]));
                    }
                }
            }
        },
    }
}

/// `uint8_t`, white space from `q + 7` to `m`, then `t_map[]`: a pixel
/// array declaration of `t` at `q`.
proof fn lemma_decl_in(o: Seq<char>, q: int, m: int, t: Seq<char>)
    requires
        0 <= q,
        q + 7 < m,
        m + t.len() + 6 <= o.len(),
        t.len() > 0,
        is_word(t[0]),
        o.subrange(q, q + 7) == u8_lit(),
        forall|k: int| q + 7 <= k < m ==> is_space(#[trigger] o[k]),
        o.subrange(m, m + t.len() + 6) == t + map_decl_suffix(),
    ensures
        map_decl_at(o, q, t),
{
    lemma_literals();
    assert(o[m] == o.subrange(m, m + t.len() + 6)[0]);
    crate::text::lemma_word_not_space(o[m]);
    lemma_run_exact(o, q + 7, m, Class::Space);
}

/// A pixel array declaration of `name` at `q0` survives the renaming of
/// `name_map` to `r`: the scan from `i <= q0` copies its `uint8_t` and
/// white space and puts `r` before its `[]`.
proof fn lemma_decl_renamed(s: Seq<char>, name: Seq<char>, r: Seq<char>, i: int, q0: int) -> (c: Seq<
    char,
>)
    requires
        name.len() > 0,
        all_word(name),
        0 <= i <= q0,
        map_decl_at(s, q0, name),
    ensures
        ({
            let w = name + map_suffix();
            let m0 = run_end(s, q0 + 7, Class::Space);
            &&& q0 + 7 < m0
            &&& m0 + w.len() + 2 <= s.len()
            &&& s.subrange(q0, q0 + 7) == u8_lit()
            &&& forall|k: int| q0 + 7 <= k < m0 ==> is_space(#[trigger] s[k])
            &&& replace_bounded_from(s, w, r, i) == c + s.subrange(q0, m0) + r + "[]"@
                + replace_bounded_from(s, w, r, m0 + w.len() + 2)
        }),
{
    lemma_literals();
    let w = name + map_suffix();
    let wl = w.len() as int;
    assert(all_word(w)) by {
        assert forall|k: int| 0 <= k < wl implies is_word(#[trigger] w[k]) by {
            if k < name.len() {
                assert(w[k] == name[k]);
            } else {
                assert(w[k] == map_suffix()[k - name.len()]);
            }
        }
    }
    assert(w[wl - 1] == 'p');
    let m0 = run_end(s, q0 + 7, Class::Space);
    lemma_run_end(s, q0 + 7, Class::Space);
    let tail = w + "[]"@;
    assert(name + map_decl_suffix() =~= tail);
    assert(s.subrange(m0, m0 + wl + 2) == tail);
    assert forall|k: int| 0 <= k < wl + 2 implies #[trigger] s[m0 + k] == tail[k] by {
        assert(s.subrange(m0, m0 + wl + 2)[k] == s[m0 + k]);
    }
    assert forall|k: int| 0 <= k < 7 implies #[trigger] s[q0 + k] == u8_lit()[k] by {
        assert(s.subrange(q0, q0 + 7)[k] == s[q0 + k]);
    }
    assert(is_space(s[q0 + 7]));
    crate::text::lemma_word_not_space(w[0]);
    // no bounded match crosses `q0`
    assert forall|j: int| i <= j < q0 && #[trigger] bounded_at(s, j, w) implies j + wl <= q0 by {
        let f = j + wl;
        if f > q0 {
            assert(s.subrange(j, f)[f - 1 - j] == s[f - 1]);
            if f < q0 + 7 {
                assert(s[q0 + (f - 1 - q0)] == u8_lit()[f - 1 - q0]);
                assert(s[q0 + (f - q0)] == u8_lit()[f - q0]);
                assert(is_word(s[f - 1]) && is_word(s[f]));
            } else if f == q0 + 7 {
                assert(s[f - 1] == u8_lit()[6]);
            } else {
                assert(s.subrange(j, f)[q0 + 7 - j] == s[q0 + 7]);
                assert(is_word(w[q0 + 7 - j]));
                crate::text::lemma_word_not_space(s[q0 + 7]);
            }
        }
    }
    let c = lemma_rb_prefix(s, s, w, r, i, q0);
    // `uint8_t` and the white space are copied
    assert forall|j: int| q0 <= j < m0 implies !#[trigger] bounded_at(s, j, w) by {
        if bounded_at(s, j, w) {
            assert(s.subrange(j, j + wl)[0] == s[j]);
            if j >= q0 + 7 {
                assert(is_space(s[j]));
                crate::text::lemma_word_not_space(s[j]);
            } else if j > q0 {
                assert(s[q0 + (j - 1 - q0)] == u8_lit()[j - 1 - q0]);
                assert(s[q0 + (j - q0)] == u8_lit()[j - q0]);
                assert(is_word(s[j - 1]) && is_word(s[j]));
            } else {
                let f = j + wl;
                assert(s.subrange(j, f)[f - 1 - j] == s[f - 1]);
                if f < q0 + 7 {
                    assert(s[q0 + (f - 1 - q0)] == u8_lit()[f - 1 - q0]);
                    assert(s[q0 + (f - q0)] == u8_lit()[f - q0]);
                    assert(is_word(s[f - 1]) && is_word(s[f]));
                } else if f == q0 + 7 {
                    assert(s[f - 1] == u8_lit()[6]);
                } else {
                    assert(s.subrange(j, f)[7] == s[q0 + 7]);
                    crate::text::lemma_word_not_space(s[q0 + 7]);
                }
            }
        }
    }
    lemma_rb_copies(s, w, r, q0, m0);
    // the array's name is a bounded match
    assert(s.subrange(m0, m0 + wl) =~= w) by {
        assert forall|k: int| 0 <= k < wl implies #[trigger] s.subrange(m0, m0 + wl)[k] == w[k] by {
            assert(s[m0 + k] == tail[k]);
        }
    }
    assert(s[m0 + wl] == tail[wl]);
    assert(s[m0 + (wl + 1)] == tail[wl + 1]);
    assert(s[m0 + wl] == '[');
    assert(s[m0 + wl + 1] == ']');
    assert(bounded_at(s, m0, w)) by {
        crate::text::lemma_word_not_space(s[m0 - 1]);
        assert(s[m0] == w[0]);
        assert(s[m0 + wl - 1] == w[wl - 1]);
    }
    // then `[]` is copied
    assert forall|j: int| m0 + wl <= j < m0 + wl + 2 implies !#[trigger] bounded_at(s, j, w) by {
        if bounded_at(s, j, w) {
            assert(s.subrange(j, j + wl)[0] == s[j]);
        }
    }
    lemma_rb_copies(s, w, r, m0 + wl, m0 + wl + 2);
    assert(s.subrange(m0 + wl, m0 + wl + 2) =~= "[]"@);
    let rest = replace_bounded_from(s, w, r, m0 + wl + 2);
    assert(replace_bounded_from(s, w, r, i) =~= c + s.subrange(q0, m0) + r + "[]"@ + rest);
    c
}

/// Where the first descriptor starts (0 when there is none).
pub open spec fn first_desc(c: Seq<char>) -> int {
    match find_desc(c, 0) {
        Some(p) => p,
        None => 0,
    }
}

/// The name of the first descriptor.
pub open spec fn first_name(c: Seq<char>) -> Seq<char> {
    c.subrange(desc_name_start(c, first_desc(c)), desc_end(c, first_desc(c)))
}

/// The image's pixel array is declared before its descriptor or after its
/// name (not inside the name itself, as in `lv_img_dsc_t xuint8_t
/// xuint8_t_map[]`).
pub open spec fn array_outside_name(c: Seq<char>) -> bool {
    exists|q0: int|
        map_decl_at(c, q0, first_name(c)) && (q0 < first_desc(c) || q0 >= desc_end(
            c,
            first_desc(c),
        ))
}

proof fn lemma_image_facts(c: Seq<char>)
    requires
        image_name(c) is Ok,
    ensures
        ({
            let p = first_desc(c);
            let ns = desc_name_start(c, p);
            let e = desc_end(c, p);
            &&& find_desc(c, 0) == Some(p)
            &&& image_name(c) == Ok::<Seq<char>, ParserError>(first_name(c))
            &&& desc_at(c, p)
            &&& forall|j: int| 0 <= j < p ==> !#[trigger] desc_at(c, j)
            &&& forall|j: int| e <= j < c.len() ==> !#[trigger] desc_at(c, j)
            &&& 0 <= p
            &&& p + 12 < ns < e <= c.len()
            &&& c.subrange(p, p + 12) == desc_lit()
            &&& forall|k: int| p + 12 <= k < ns ==> is_space(#[trigger] c[k])
            &&& forall|k: int| ns <= k < e ==> is_word(#[trigger] c[k])
            &&& (e < c.len() ==> !is_word(c[e]))
            &&& all_word(first_name(c))
        }),
{
    lemma_literals();
    let n = c.len() as int;
    lemma_first_from(n, desc_pred(c), 0);
    let p = first_desc(c);
    assert(desc_pred(c)(p));
    let ns = desc_name_start(c, p);
    lemma_run_end(c, p + 12, Class::Space);
    lemma_run_end(c, ns, Class::Word);
    let e = desc_end(c, p);
    lemma_first_from(n, desc_pred(c), e);
    assert forall|j: int| 0 <= j < p implies !#[trigger] desc_at(c, j) by {
        assert(!desc_pred(c)(j));
    }
    assert forall|j: int| e <= j < n implies !#[trigger] desc_at(c, j) by {
        assert(!desc_pred(c)(j));
    }
    let name = first_name(c);
    assert forall|k: int| 0 <= k < name.len() implies is_word(#[trigger] name[k]) by {
        assert(name[k] == c[ns + k]);
    }
}

/// The renamed text is the replacement of `NAME_map` in the text whose
/// first descriptor was rewritten.
proof fn lemma_renamed_is(c: Seq<char>, t: Seq<char>)
    requires
        image_name(c) is Ok,
        is_symbol(t),
    ensures
        ({
            let p = first_desc(c);
            let e = desc_end(c, p);
            let u = c.subrange(0, p) + ("lv_img_dsc_t "@ + t) + c.subrange(e, c.len() as int);
            renamed(c, t) == replace_bounded(u, first_name(c) + map_suffix(), t + map_suffix())
        }),
{
    lemma_literals();
    lemma_image_facts(c);
    lemma_symbol_word(t);
    let p = first_desc(c);
    let e = desc_end(c, p);
    let m = "lv_img_dsc_t "@ + t;
    let r = t + map_suffix();
    assert forall|j: int| 0 <= j < m.len() implies m[j] != '$' by {
        if j < 13 {
            if j < 12 {
                assert(m[j] == desc_lit()[j]);
            } else {
                assert(m[j] == ' ');
            }
        } else {
            assert(m[j] == t[j - 13]);
        }
    }
    assert forall|j: int| 0 <= j < r.len() implies r[j] != '$' by {
        if j < t.len() {
            assert(r[j] == t[j]);
        } else {
            assert(r[j] == map_suffix()[j - t.len()]);
        }
    }
    let g1 = seq![c.subrange(p, e)];
    let g2 = seq![first_name(c) + map_suffix()];
    lemma_expand_plain(m, g1);
    lemma_expand_plain(r, g2);
    assert(m.subrange(0, m.len() as int) =~= m);
    assert(r.subrange(0, r.len() as int) =~= r);
}

/// The text with its first descriptor rewritten to name `t`, before the
/// array names are renamed.
pub open spec fn rewritten(c: Seq<char>, t: Seq<char>) -> Seq<char> {
    c.subrange(0, first_desc(c)) + ("lv_img_dsc_t "@ + t) + c.subrange(
        desc_end(c, first_desc(c)),
        c.len() as int,
    )
}

proof fn lemma_symbol_word(t: Seq<char>)
    requires
        is_symbol(t),
    ensures
        all_word(t),
        forall|k: int| 0 <= k < t.len() ==> #[trigger] t[k] != '$',
{
    assert forall|k: int| 0 <= k < t.len() implies #[trigger] t[k] != '$' by {
        assert(is_word(t[k]));
    }
}

/// A word followed by `_map` is a word that ends in `p`.
proof fn lemma_map_name(x: Seq<char>)
    requires
        x.len() > 0,
        all_word(x),
    ensures
        all_word(x + map_suffix()),
        (x + map_suffix()).len() >= 5,
        (x + map_suffix()).last() == 'p',
{
    lemma_literals();
    let r = x + map_suffix();
    assert forall|k: int| 0 <= k < r.len() implies is_word(#[trigger] r[k]) by {
        if k < x.len() {
            assert(r[k] == x[k]);
        } else {
            assert(r[k] == map_suffix()[k - x.len()]);
        }
    }
    assert(r.last() == map_suffix()[3]);
}

/// The layout of the rewritten text around its new descriptor.
proof fn lemma_rewritten_layout(c: Seq<char>, t: Seq<char>)
    requires
        image_name(c) is Ok,
        is_symbol(t),
    ensures
        ({
            let p = first_desc(c);
            let e = desc_end(c, p);
            let u = rewritten(c, t);
            let ml = 13 + t.len();
            &&& u.len() == p + ml + (c.len() - e)
            &&& forall|k: int| 0 <= k < p ==> #[trigger] u[k] == c[k]
            &&& forall|k: int| 0 <= k < 12 ==> #[trigger] u[p + k] == desc_lit()[k]
            &&& u[p + 12] == ' '
            &&& forall|k: int| 0 <= k < t.len() ==> #[trigger] u[p + 13 + k] == t[k]
            &&& u.subrange(p, p + ml) == "lv_img_dsc_t "@ + t
            &&& u.subrange(p + ml, u.len() as int) == c.subrange(e, c.len() as int)
            &&& (p + ml < u.len() ==> u[p + ml] == c[e])
        }),
{
    lemma_literals();
    lemma_image_facts(c);
    let p = first_desc(c);
    let e = desc_end(c, p);
    let m = "lv_img_dsc_t "@ + t;
    let u = rewritten(c, t);
    let ml = m.len() as int;
    assert forall|k: int| 0 <= k < 12 implies #[trigger] u[p + k] == desc_lit()[k] by {
        assert(u[p + k] == m[k]);
    }
    assert forall|k: int| 0 <= k < t.len() implies #[trigger] u[p + 13 + k] == t[k] by {
        assert(u[p + 13 + k] == m[13 + k]);
    }
    assert(u.subrange(p, p + ml) =~= m);
    assert(u.subrange(p + ml, u.len() as int) =~= c.subrange(e, c.len() as int));
}

/// Up to the new descriptor, the renaming of the rewritten text is that of
/// the part before it followed by a word character, which has no
/// descriptor match.
#[verifier::spinoff_prover]
proof fn lemma_split_prefix(c: Seq<char>, t: Seq<char>) -> (x: Seq<char>)
    requires
        image_name(c) is Ok,
        is_symbol(t),
    ensures
        ({
            let u = rewritten(c, t);
            let w = first_name(c) + map_suffix();
            let r = t + map_suffix();
            &&& replace_bounded_from(u, w, r, 0) == x + replace_bounded_from(
                u,
                w,
                r,
                first_desc(c),
            )
            &&& forall|q: int| !#[trigger] desc_at(x + seq!['x'], q)
        }),
{
    lemma_literals();
    lemma_image_facts(c);
    lemma_rewritten_layout(c, t);
    lemma_symbol_word(t);
    lemma_map_name(t);
    lemma_map_name(first_name(c));
    let p = first_desc(c);
    let w = first_name(c) + map_suffix();
    let wl = w.len() as int;
    let r = t + map_suffix();
    let u = rewritten(c, t);
    let a = c.subrange(0, p);
    let s1 = a + seq!['x'];
    assert(s1[p] == 'x');
    assert(is_word('x'));
    assert(is_word(u[p]));
    assert forall|k: int| 0 <= k < p implies u[k] == s1[k] by {}
    assert forall|j: int| 0 <= j < p && #[trigger] bounded_at(u, j, w) implies j + wl <= p by {
        let f = j + wl;
        if f > p {
            assert(u.subrange(j, f)[f - 1 - j] == u[f - 1]);
            if f < p + 12 {
                assert(u[p + (f - 1 - p)] == desc_lit()[f - 1 - p]);
                assert(u[p + (f - p)] == desc_lit()[f - p]);
            } else if f == p + 12 {
                assert(u[p + 11] == desc_lit()[11]);
            } else {
                assert(u.subrange(j, f)[p + 12 - j] == u[p + 12]);
                assert(is_word(w[p + 12 - j]));
            }
        }
    }
    assert forall|j: int| 0 <= j < p && #[trigger] bounded_at(s1, j, w) implies j + wl <= p by {
        let f = j + wl;
        if f > p {
            assert(s1.subrange(j, f)[f - 1 - j] == s1[f - 1]);
        }
    }
    let x = lemma_rb_prefix(u, s1, w, r, 0, p);
    assert(!bounded_at(s1, p, w));
    assert(replace_bounded_from(s1, w, r, p + 1) =~= Seq::<char>::empty());
    assert(replace_bounded_from(s1, w, r, 0) =~= x + seq!['x']);
    assert forall|j: int| 0 <= j < s1.len() implies !#[trigger] desc_at(s1, j) by {
        if desc_at(s1, j) {
            assert(s1.subrange(j, j + 12) == desc_lit());
            if j + 12 > p {
                assert(s1.subrange(j, j + 12)[p - j] == s1[p]);
            } else {
                assert(word_at(c, p)) by {
                    assert(c.subrange(p, p + 12)[0] == c[p]);
                }
                assert forall|k: int| j <= k < p implies s1[k] == c[k] by {}
                lemma_desc_agree(s1, c, j, p);
            }
        }
    }
    lemma_renamed_no_desc(s1, w, r, 0);
    x
}

/// The new descriptor is copied, and what follows it is the rest of the
/// text, renamed.
#[verifier::spinoff_prover]
proof fn lemma_split_middle(c: Seq<char>, t: Seq<char>)
    requires
        image_name(c) is Ok,
        is_symbol(t),
        t != first_name(c) + map_suffix(),
    ensures
        ({
            let u = rewritten(c, t);
            let w = first_name(c) + map_suffix();
            let r = t + map_suffix();
            replace_bounded_from(u, w, r, first_desc(c)) == ("lv_img_dsc_t "@ + t)
                + replace_bounded_from(c, w, r, desc_end(c, first_desc(c)))
        }),
{
    lemma_literals();
    lemma_image_facts(c);
    lemma_rewritten_layout(c, t);
    lemma_symbol_word(t);
    lemma_map_name(first_name(c));
    let p = first_desc(c);
    let e = desc_end(c, p);
    let w = first_name(c) + map_suffix();
    let wl = w.len() as int;
    let r = t + map_suffix();
    let u = rewritten(c, t);
    let ml = 13 + t.len();
    assert forall|j: int| p <= j < p + ml implies !#[trigger] bounded_at(u, j, w) by {
        if bounded_at(u, j, w) {
            let f = j + wl;
            assert(u.subrange(j, f)[0] == u[j]);
            assert(u.subrange(j, f)[wl - 1] == u[f - 1]);
            if j == p + 12 {
                assert(is_word(w[0]));
            } else if p < j < p + 12 {
                assert(u[p + (j - 1 - p)] == desc_lit()[j - 1 - p]);
                assert(u[p + (j - p)] == desc_lit()[j - p]);
            } else if j == p {
                if f < p + 12 {
                    assert(u[p + (f - 1 - p)] == desc_lit()[f - 1 - p]);
                    assert(u[p + (f - p)] == desc_lit()[f - p]);
                } else if f == p + 12 {
                    assert(u[p + 11] == desc_lit()[11]);
                } else {
                    assert(u.subrange(j, f)[12] == u[p + 12]);
                    assert(is_word(w[12]));
                }
            } else if j > p + 13 {
                assert(u[p + 13 + (j - 1 - p - 13)] == t[j - 1 - p - 13]);
                assert(u[p + 13 + (j - p - 13)] == t[j - p - 13]);
            } else {
                if wl < t.len() {
                    assert(u[p + 13 + (wl - 1)] == t[wl - 1]);
                    assert(u[p + 13 + wl] == t[wl]);
                } else if wl == t.len() {
                    assert(u.subrange(j, f) =~= t) by {
                        assert forall|k: int| 0 <= k < wl implies #[trigger] u.subrange(j, f)[k]
                            == t[k] by {
                            assert(u[p + 13 + k] == t[k]);
                        }
                    }
                } else {
                    assert(u.subrange(j, f)[t.len() as int] == u[p + ml]);
                    assert(is_word(w[t.len() as int]));
                }
            }
        }
    }
    lemma_rb_copies(u, w, r, p, p + ml);
    assert(u[p + ml - 1] == t[t.len() - 1]);
    assert(is_word(c[e - 1]));
    lemma_rb_shift(u, c, w, r, p + ml, e);
}

/// The renamed text is the renamed part before the descriptor, which holds
/// no descriptor match, then the new descriptor, then the rest renamed.
proof fn lemma_rename_split(c: Seq<char>, t: Seq<char>) -> (x: Seq<char>)
    requires
        image_name(c) is Ok,
        is_symbol(t),
        t != first_name(c) + map_suffix(),
    ensures
        renamed(c, t) == x + ("lv_img_dsc_t "@ + t) + replace_bounded_from(
            c,
            first_name(c) + map_suffix(),
            t + map_suffix(),
            desc_end(c, first_desc(c)),
        ),
        forall|q: int| 0 <= q < x.len() ==> !#[trigger] desc_at(renamed(c, t), q),
{
    lemma_literals();
    lemma_renamed_is(c, t);
    let x = lemma_split_prefix(c, t);
    lemma_split_middle(c, t);
    let m = "lv_img_dsc_t "@ + t;
    let tail = replace_bounded_from(
        c,
        first_name(c) + map_suffix(),
        t + map_suffix(),
        desc_end(c, first_desc(c)),
    );
    let out = renamed(c, t);
    assert(out == x + (m + tail));
    assert(out =~= x + m + tail);
    let xl = x.len() as int;
    assert(out[xl] == m[0]);
    assert(m[0] == desc_lit()[0]);
    assert(is_word(out[xl]));
    let xs = x + seq!['x'];
    assert(is_word(xs[xl]));
    assert forall|q: int| 0 <= q < xl implies !#[trigger] desc_at(out, q) by {
        if desc_at(out, q) {
            if q + 12 <= xl {
                assert forall|k: int| q <= k < xl implies out[k] == xs[k] by {}
                lemma_desc_agree(out, xs, q, xl);
            } else {
                assert(out.subrange(q, q + 12)[xl - q] == out[xl]);
                assert(desc_lit()[xl - q] != 'l');
            }
        }
    }
    x
}

/// `uint8_t`, white space, then `t_map[]` declares the pixel array of `t`.
proof fn lemma_decl_piece(pre: Seq<char>, h: Seq<char>, t: Seq<char>, post: Seq<char>)
    requires
        h.len() > 7,
        h.subrange(0, 7) == u8_lit(),
        forall|k: int| 7 <= k < h.len() ==> is_space(#[trigger] h[k]),
        is_symbol(t),
    ensures
        map_decl_at(pre + h + (t + map_suffix()) + "[]"@ + post, pre.len() as int, t),
{
    lemma_literals();
    lemma_symbol_word(t);
    let o = pre + h + (t + map_suffix()) + "[]"@ + post;
    let q = pre.len() as int;
    let m = q + h.len();
    assert(o.subrange(q, q + 7) =~= u8_lit()) by {
        assert forall|k: int| 0 <= k < 7 implies #[trigger] o.subrange(q, q + 7)[k] == u8_lit()[k] by {
            assert(o[q + k] == h[k]);
            assert(h.subrange(0, 7)[k] == h[k]);
        }
    }
    assert forall|k: int| q + 7 <= k < m implies is_space(#[trigger] o[k]) by {
        assert(o[k] == h[k - q]);
    }
    assert(o.subrange(m, m + t.len() + 6) =~= t + map_decl_suffix());
    assert(is_word(t[0]));
    lemma_decl_in(o, q, m, t);
}

/// A pixel array declaration after the image's name is still there, for the
/// new name, in the renamed text.
proof fn lemma_decl_after(c: Seq<char>, t: Seq<char>, q0: int)
    requires
        image_name(c) is Ok,
        is_symbol(t),
        t != first_name(c) + map_suffix(),
        map_decl_at(c, q0, first_name(c)),
        q0 >= desc_end(c, first_desc(c)),
    ensures
        has_map_decl(renamed(c, t), t),
{
    lemma_literals();
    lemma_image_facts(c);
    let old = first_name(c);
    let w = old + map_suffix();
    let r = t + map_suffix();
    let e = desc_end(c, first_desc(c));
    let x = lemma_rename_split(c, t);
    let m = "lv_img_dsc_t "@ + t;
    let cc = lemma_decl_renamed(c, old, r, e, q0);
    let m0 = run_end(c, q0 + 7, Class::Space);
    let h = c.subrange(q0, m0);
    let rest = replace_bounded_from(c, w, r, m0 + w.len() + 2);
    let out = renamed(c, t);
    let pre = x + m + cc;
    assert(out =~= pre + h + r + "[]"@ + rest);
    assert(h.subrange(0, 7) =~= c.subrange(q0, q0 + 7));
    assert forall|k: int| 7 <= k < h.len() implies is_space(#[trigger] h[k]) by {
        assert(h[k] == c[q0 + k]);
    }
    lemma_decl_piece(pre, h, t, rest);
    let mp = map_pred(out, t);
    assert(mp(pre.len() as int));
    lemma_first_from(out.len() as int, mp, 0);
}

/// A pixel array declaration before the descriptor ends before it.
proof fn lemma_decl_before_bound(c: Seq<char>, q0: int)
    requires
        image_name(c) is Ok,
        map_decl_at(c, q0, first_name(c)),
        0 <= q0 < first_desc(c),
    ensures
        run_end(c, q0 + 7, Class::Space) + first_name(c).len() + 6 <= first_desc(c),
{
    lemma_literals();
    lemma_image_facts(c);
    let p = first_desc(c);
    let old = first_name(c);
    lemma_map_name(old);
    let w = old + map_suffix();
    let wl = w.len() as int;
    let tail = w + "[]"@;
    assert(old + map_decl_suffix() =~= tail);
    let m0 = run_end(c, q0 + 7, Class::Space);
    lemma_run_end(c, q0 + 7, Class::Space);
    assert forall|k: int| 0 <= k < 12 implies #[trigger] c[p + k] == desc_lit()[k] by {
        assert(c.subrange(p, p + 12)[k] == c[p + k]);
    }
    assert(c[p] == 'l');
    assert(is_space(c[p + 12]));
    assert forall|k: int| 0 <= k < wl + 2 implies #[trigger] c[m0 + k] == tail[k] by {
        assert(c.subrange(m0, m0 + wl + 2)[k] == c[m0 + k]);
    }
    assert(tail[wl] == '[');
    assert(tail[wl + 1] == ']');
    // `uint8_t` ends before the descriptor
    assert(q0 + 7 <= p) by {
        if q0 + 7 > p {
            assert(c.subrange(q0, q0 + 7)[p - q0] == c[p]);
        }
    }
    // so does the white space
    assert(m0 <= p) by {
        if m0 > p {
            assert(is_space(c[p]));
        }
    }
    assert(m0 < p) by {
        if m0 == p {
            if wl < 12 {
                assert(c[p + wl] == desc_lit()[wl]);
                assert(c[m0 + wl] == tail[wl]);
            } else if wl == 12 {
                assert(c[m0 + wl] == tail[wl]);
            } else {
                assert(c[m0 + 12] == tail[12]);
                assert(tail[12] == w[12]);
                crate::text::lemma_word_not_space(w[12]);
            }
        }
    }
    // and the array's name with its `[]`
    assert(m0 + wl + 2 <= p) by {
        if m0 + wl + 2 > p {
            if p - m0 >= wl {
                assert(c[m0 + (p - m0)] == tail[p - m0]);
            } else {
                let f = m0 + wl;
                assert(c[f] == tail[wl]);
                if f < p + 12 {
                    assert(c[p + (f - p)] == desc_lit()[f - p]);
                } else if f > p + 12 {
                    assert(c[m0 + (p + 12 - m0)] == tail[p + 12 - m0]);
                    assert(tail[p + 12 - m0] == w[p + 12 - m0]);
                    crate::text::lemma_word_not_space(w[p + 12 - m0]);
                }
            }
        }
    }
    assert(wl == old.len() + 4);
}

/// A pixel array declaration before the descriptor is still there, for the
/// new name, in the renamed text.
proof fn lemma_decl_before(c: Seq<char>, t: Seq<char>, q0: int)
    requires
        image_name(c) is Ok,
        is_symbol(t),
        map_decl_at(c, q0, first_name(c)),
        0 <= q0 < first_desc(c),
    ensures
        has_map_decl(renamed(c, t), t),
{
    lemma_literals();
    lemma_image_facts(c);
    lemma_rewritten_layout(c, t);
    lemma_renamed_is(c, t);
    lemma_decl_before_bound(c, q0);
    let p = first_desc(c);
    let old = first_name(c);
    let w = old + map_suffix();
    let wl = w.len() as int;
    let r = t + map_suffix();
    let u = rewritten(c, t);
    let tail = w + "[]"@;
    assert(old + map_decl_suffix() =~= tail);
    let m0 = run_end(c, q0 + 7, Class::Space);
    lemma_run_end(c, q0 + 7, Class::Space);
    // the declaration reads the same in the rewritten text
    assert(u.subrange(q0, q0 + 7) =~= c.subrange(q0, q0 + 7));
    assert(c.subrange(m0, m0 + wl + 2)[0] == c[m0]);
    assert(c[m0] == tail[0]);
    crate::text::lemma_word_not_space(w[0]);
    lemma_run_agree(c, u, q0 + 7, m0, Class::Space);
    assert(u.subrange(m0, m0 + wl + 2) =~= c.subrange(m0, m0 + wl + 2));
    assert(map_decl_at(u, q0, old));
    lemma_map_name(old);
    let cc = lemma_decl_renamed(u, old, r, 0, q0);
    let m1 = run_end(u, q0 + 7, Class::Space);
    let h = u.subrange(q0, m1);
    let rest = replace_bounded_from(u, w, r, m1 + wl + 2);
    let out = renamed(c, t);
    assert(out == cc + h + r + "[]"@ + rest);
    assert(h.subrange(0, 7) =~= u.subrange(q0, q0 + 7));
    assert forall|k: int| 7 <= k < h.len() implies is_space(#[trigger] h[k]) by {
        assert(h[k] == u[q0 + k]);
    }
    lemma_decl_piece(cc, h, t, rest);
    let mp = map_pred(out, t);
    assert(mp(cc.len() as int));
    lemma_first_from(out.len() as int, mp, 0);
}

/// Renaming a valid image to a symbol `t` gives a valid image named `t`:
/// validating the renamed text finds exactly one descriptor, named `t`, and
/// the pixel array of `t`. Left out: renaming to `NAME_map` (the new
/// descriptor becomes `NAME_map_map`), and texts whose pixel array is
/// declared only inside the image's own name, where the rename leaves no
/// declaration of `t_map`.
pub proof fn law_rename_then_validate(c: Seq<char>, t: Seq<char>)
    requires
        image_name(c) is Ok,
        is_symbol(t),
        t != first_name(c) + map_suffix(),
        array_outside_name(c) || has_map_decl(renamed(c, t), t),
    ensures
        image_name(renamed(c, t)) == Ok::<Seq<char>, ParserError>(t),
{
    lemma_literals();
    lemma_image_facts(c);
    lemma_symbol_word(t);
    let p = first_desc(c);
    let e = desc_end(c, p);
    let old = first_name(c);
    let w = old + map_suffix();
    let r = t + map_suffix();
    lemma_map_name(old);
    lemma_map_name(t);
    let x = lemma_rename_split(c, t);
    let m = "lv_img_dsc_t "@ + t;
    let tail = replace_bounded_from(c, w, r, e);
    let out = renamed(c, t);
    let xl = x.len() as int;
    let ml = m.len() as int;
    assert(out =~= (x + m) + tail);
    assert(ml == 13 + t.len());
    assert forall|k: int| 0 <= k < ml implies #[trigger] out[xl + k] == m[k] by {}
    // the new descriptor
    assert(out.subrange(xl, xl + 12) =~= desc_lit()) by {
        assert forall|k: int| 0 <= k < 12 implies #[trigger] out.subrange(xl, xl + 12)[k]
            == desc_lit()[k] by {
            assert(out[xl + k] == m[k]);
        }
    }
    assert(out[xl + 12] == ' ');
    assert(out[xl + 13] == t[0]);
    crate::text::lemma_word_not_space(t[0]);
    lemma_run_exact(out, xl + 12, xl + 13, Class::Space);
    assert(desc_name_start(out, xl) == xl + 13);
    // the new name runs to the end of `t`
    assert forall|k: int| xl + 13 <= k < xl + ml implies in_class(Class::Word, #[trigger] out[k]) by {
        assert(out[k] == m[k - xl]);
        assert(m[k - xl] == t[k - xl - 13]);
    }
    if e < c.len() {
        assert(!bounded_at(c, e, w)) by {
            if bounded_at(c, e, w) {
                assert(c.subrange(e, e + w.len())[0] == c[e]);
            }
        }
        assert(tail[0] == c[e]);
        assert(out[xl + ml] == tail[0]);
    } else {
        assert(tail =~= Seq::<char>::empty());
    }
    lemma_run_exact(out, xl + 13, xl + ml, Class::Word);
    assert(desc_end(out, xl) == xl + ml);
    assert(desc_at(out, xl));
    assert(out.subrange(xl + 13, xl + ml) =~= t);
    // it is the first descriptor
    lemma_first_from_is(out.len() as int, desc_pred(out), 0, xl);
    // and there is none after it
    lemma_renamed_no_desc(c, w, r, e);
    lemma_first_from(out.len() as int, desc_pred(out), xl + ml);
    assert forall|q: int| xl + ml <= q < out.len() implies !#[trigger] desc_pred(out)(q) by {
        lemma_desc_suffix(x + m, tail, q - xl - ml);
    }
    assert(find_desc(out, xl + ml) is None);
    // the pixel array of `t` is declared
    if array_outside_name(c) {
        let q0 = choose|q0: int|
            map_decl_at(c, q0, first_name(c)) && (q0 < first_desc(c) || q0 >= desc_end(
                c,
                first_desc(c),
            ));
        if q0 < p {
            assert(q0 >= 0);
            lemma_decl_before(c, t, q0);
        } else {
            lemma_decl_after(c, t, q0);
        }
    }
}

} // verus!
