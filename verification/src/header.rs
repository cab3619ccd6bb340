//! `gif_profile.h`: the emotion keys of `gif_table[]`, the declared image
//! symbols, and the `GIF_PROFILE_DEFAULT` define.
//!
//! Grammar, with the `regex` crate's leftmost-first semantics:
//! table keys `\{\s*"(\w+)"\s*,` (every match), symbols
//! `extern\s+const\s+lv_img_dsc_t\s+(\w+)\s*;` (every match), default
//! `#define\s+GIF_PROFILE_DEFAULT\s+(\w+)` (first match).

use vstd::prelude::*;
use crate::text::{
    chars_of, concat, expand, expand_exec, first_from, in_class, is_space, is_word,
    lemma_expand_group1, lemma_first_from, lemma_first_from_is, lemma_run_agree, lemma_run_end,
    lemma_run_exact, lemma_word_not_space, run_end, run_end_exec, seq_at, seq_at_exec, slice_of,
    Class,
};

verus! {

/// The header patterns.
#[derive(Clone, Copy, PartialEq, Eq, Structural, Debug)]
pub enum HeaderPat {
    TableKey,
    Symbol,
    Default,
}

pub open spec fn extern_lit() -> Seq<char> {
    "extern"@
}

pub open spec fn const_lit() -> Seq<char> {
    "const"@
}

pub open spec fn dsc_lit() -> Seq<char> {
    "lv_img_dsc_t"@
}

pub open spec fn define_lit() -> Seq<char> {
    "#define"@
}

pub open spec fn default_lit() -> Seq<char> {
    "GIF_PROFILE_DEFAULT"@
}

// ----- `\{\s*"(\w+)"\s*,` -----

pub open spec fn key_quote(s: Seq<char>, p: int) -> int {
    run_end(s, p + 1, Class::Space)
}

pub open spec fn key_end(s: Seq<char>, p: int) -> int {
    run_end(s, key_quote(s, p) + 1, Class::Word)
}

pub open spec fn key_comma(s: Seq<char>, p: int) -> int {
    run_end(s, key_end(s, p) + 1, Class::Space)
}

pub open spec fn table_key_at(s: Seq<char>, p: int) -> bool {
    &&& 0 <= p < s.len()
    &&& s[p] == '{'
    &&& key_quote(s, p) < s.len()
    &&& s[key_quote(s, p)] == '"'
    &&& key_end(s, p) > key_quote(s, p) + 1
    &&& key_end(s, p) < s.len()
    &&& s[key_end(s, p)] == '"'
    &&& key_comma(s, p) < s.len()
    &&& s[key_comma(s, p)] == ','
}

// ----- `extern\s+const\s+lv_img_dsc_t\s+(\w+)\s*;` -----

pub open spec fn sym_const(s: Seq<char>, p: int) -> int {
    run_end(s, p + extern_lit().len(), Class::Space)
}

pub open spec fn sym_dsc(s: Seq<char>, p: int) -> int {
    run_end(s, sym_const(s, p) + const_lit().len(), Class::Space)
}

pub open spec fn sym_start(s: Seq<char>, p: int) -> int {
    run_end(s, sym_dsc(s, p) + dsc_lit().len(), Class::Space)
}

pub open spec fn sym_end(s: Seq<char>, p: int) -> int {
    run_end(s, sym_start(s, p), Class::Word)
}

pub open spec fn sym_semi(s: Seq<char>, p: int) -> int {
    run_end(s, sym_end(s, p), Class::Space)
}

pub open spec fn symbol_at(s: Seq<char>, p: int) -> bool {
    &&& seq_at(s, p, extern_lit())
    &&& sym_const(s, p) > p + extern_lit().len()
    &&& seq_at(s, sym_const(s, p), const_lit())
    &&& sym_dsc(s, p) > sym_const(s, p) + const_lit().len()
    &&& seq_at(s, sym_dsc(s, p), dsc_lit())
    &&& sym_start(s, p) > sym_dsc(s, p) + dsc_lit().len()
    &&& sym_end(s, p) > sym_start(s, p)
    &&& sym_semi(s, p) < s.len()
    &&& s[sym_semi(s, p)] == ';'
}

// ----- `#define\s+GIF_PROFILE_DEFAULT\s+(\w+)` -----

pub open spec fn def_name(s: Seq<char>, p: int) -> int {
    run_end(s, p + define_lit().len(), Class::Space)
}

/// Start of the defined value (end of the group `#define\s+GIF_PROFILE_DEFAULT\s+`).
pub open spec fn def_value(s: Seq<char>, p: int) -> int {
    run_end(s, def_name(s, p) + default_lit().len(), Class::Space)
}

pub open spec fn def_end(s: Seq<char>, p: int) -> int {
    run_end(s, def_value(s, p), Class::Word)
}

pub open spec fn default_at(s: Seq<char>, p: int) -> bool {
    &&& seq_at(s, p, define_lit())
    &&& def_name(s, p) > p + define_lit().len()
    &&& seq_at(s, def_name(s, p), default_lit())
    &&& def_value(s, p) > def_name(s, p) + default_lit().len()
    &&& def_end(s, p) > def_value(s, p)
}

// ----- matching -----

pub open spec fn header_at(pat: HeaderPat, s: Seq<char>, p: int) -> bool {
    match pat {
        HeaderPat::TableKey => table_key_at(s, p),
        HeaderPat::Symbol => symbol_at(s, p),
        HeaderPat::Default => default_at(s, p),
    }
}

pub open spec fn header_pred(pat: HeaderPat, s: Seq<char>) -> spec_fn(int) -> bool {
    |p: int| header_at(pat, s, p)
}

/// The captured name of the match at `p`: `[start, end)`.
pub open spec fn capture(pat: HeaderPat, s: Seq<char>, p: int) -> (int, int) {
    match pat {
        HeaderPat::TableKey => (key_quote(s, p) + 1, key_end(s, p)),
        HeaderPat::Symbol => (sym_start(s, p), sym_end(s, p)),
        HeaderPat::Default => (def_value(s, p), def_end(s, p)),
    }
}

/// Where the match at `p` ends.
pub open spec fn match_end(pat: HeaderPat, s: Seq<char>, p: int) -> int {
    match pat {
        HeaderPat::TableKey => key_comma(s, p) + 1,
        HeaderPat::Symbol => sym_semi(s, p) + 1,
        HeaderPat::Default => def_end(s, p),
    }
}

pub open spec fn captured(pat: HeaderPat, s: Seq<char>, p: int) -> Seq<char> {
    s.subrange(capture(pat, s, p).0, capture(pat, s, p).1)
}

/// Every capture of `pat` in `s` from `i` on, as `Regex::captures_iter`
/// yields them.
pub open spec fn all_captures_from(pat: HeaderPat, s: Seq<char>, i: int) -> Seq<Seq<char>>
    decreases s.len() - i,
{
    match first_from(s.len() as int, header_pred(pat, s), i) {
        None => Seq::empty(),
        Some(p) => if i < match_end(pat, s, p) <= s.len() {
            seq![captured(pat, s, p)] + all_captures_from(pat, s, match_end(pat, s, p))
        } else {
            Seq::empty()
        },
    }
}

/// The emotion keys of `gif_table[]`, in order.
pub open spec fn table_keys(s: Seq<char>) -> Seq<Seq<char>> {
    all_captures_from(HeaderPat::TableKey, s, 0)
}

/// The names of the `extern const lv_img_dsc_t` declarations, in order.
pub open spec fn symbols(s: Seq<char>) -> Seq<Seq<char>> {
    all_captures_from(HeaderPat::Symbol, s, 0)
}

/// The value of the first `#define GIF_PROFILE_DEFAULT`.
pub open spec fn default_emotion(s: Seq<char>) -> Option<Seq<char>> {
    match first_from(s.len() as int, header_pred(HeaderPat::Default, s), 0) {
        Some(p) => Some(captured(HeaderPat::Default, s, p)),
        None => None,
    }
}

/// The header with the value of its first `GIF_PROFILE_DEFAULT` define
/// replaced: the match becomes the expansion of `${1}` followed by `value`.
pub open spec fn with_default(s: Seq<char>, value: Seq<char>) -> Seq<char> {
    match first_from(s.len() as int, header_pred(HeaderPat::Default, s), 0) {
        Some(p) => s.subrange(0, p) + expand(
            "${1}"@ + value,
            seq![s.subrange(p, def_end(s, p)), s.subrange(p, def_value(s, p))],
        ) + s.subrange(def_end(s, p), s.len() as int),
        None => s,
    }
}

proof fn lemma_runs(s: Seq<char>, i: int, cls: Class)
    requires
        0 <= i <= s.len(),
    ensures
        i <= run_end(s, i, cls) <= s.len(),
{
    lemma_run_end(s, i, cls);
}

fn lit_vec(pat_lit: u8) -> (v: Vec<char>)
    ensures
        pat_lit == 0 ==> v@ == extern_lit(),
        pat_lit == 1 ==> v@ == const_lit(),
        pat_lit == 2 ==> v@ == dsc_lit(),
        pat_lit == 3 ==> v@ == define_lit(),
        pat_lit == 4 ==> v@ == default_lit(),
{
    if pat_lit == 0 {
        chars_of("extern")
    } else if pat_lit == 1 {
        chars_of("const")
    } else if pat_lit == 2 {
        chars_of("lv_img_dsc_t")
    } else if pat_lit == 3 {
        chars_of("#define")
    } else {
        chars_of("GIF_PROFILE_DEFAULT")
    }
}

/// Whether `pat` matches at `p`, with where its capture starts and ends and
/// where the match ends.
fn header_at_exec(pat: HeaderPat, s: &Vec<char>, p: usize) -> (r: Option<(usize, usize, usize)>)
    requires
        p <= s.len(),
    ensures
        r is Some == header_at(pat, s@, p as int),
        r matches Some((a, b, e)) ==> capture(pat, s@, p as int) == (a as int, b as int) && e
            == match_end(pat, s@, p as int) && p <= a <= b <= e <= s.len() && p < e,
{
    let n = s.len();
    match pat {
        HeaderPat::TableKey => {
            if p >= n || s[p] != '{' {
                return None;
            }
            let q = run_end_exec(s, p + 1, Class::Space);
            proof {
                lemma_runs(s@, p + 1, Class::Space);
            }
            if q >= n || s[q] != '"' {
                return None;
            }
            let w = run_end_exec(s, q + 1, Class::Word);
            proof {
                lemma_runs(s@, q + 1, Class::Word);
            }
            if w <= q + 1 || w >= n || s[w] != '"' {
                return None;
            }
            let c = run_end_exec(s, w + 1, Class::Space);
            proof {
                lemma_runs(s@, w + 1, Class::Space);
            }
            if c >= n || s[c] != ',' {
                return None;
            }
            Some((q + 1, w, c + 1))
        },
        HeaderPat::Symbol => {
            let l0 = lit_vec(0);
            let l1 = lit_vec(1);
            let l2 = lit_vec(2);
            if !seq_at_exec(s, p, &l0) {
                return None;
            }
            let a = run_end_exec(s, p + l0.len(), Class::Space);
            proof {
                lemma_runs(s@, p + l0.len(), Class::Space);
            }
            if a <= p + l0.len() || !seq_at_exec(s, a, &l1) {
                return None;
            }
            let b = run_end_exec(s, a + l1.len(), Class::Space);
            proof {
                lemma_runs(s@, a + l1.len(), Class::Space);
            }
            if b <= a + l1.len() || !seq_at_exec(s, b, &l2) {
                return None;
            }
            let c = run_end_exec(s, b + l2.len(), Class::Space);
            proof {
                lemma_runs(s@, b + l2.len(), Class::Space);
            }
            if c <= b + l2.len() {
                return None;
            }
            let w = run_end_exec(s, c, Class::Word);
            proof {
                lemma_runs(s@, c as int, Class::Word);
            }
            if w <= c {
                return None;
            }
            let d = run_end_exec(s, w, Class::Space);
            proof {
                lemma_runs(s@, w as int, Class::Space);
            }
            if d >= n || s[d] != ';' {
                return None;
            }
            Some((c, w, d + 1))
        },
        HeaderPat::Default => {
            let l3 = lit_vec(3);
            let l4 = lit_vec(4);
            if !seq_at_exec(s, p, &l3) {
                return None;
            }
            let a = run_end_exec(s, p + l3.len(), Class::Space);
            proof {
                lemma_runs(s@, p + l3.len(), Class::Space);
            }
            if a <= p + l3.len() || !seq_at_exec(s, a, &l4) {
                return None;
            }
            let b = run_end_exec(s, a + l4.len(), Class::Space);
            proof {
                lemma_runs(s@, a + l4.len(), Class::Space);
            }
            if b <= a + l4.len() {
                return None;
            }
            let w = run_end_exec(s, b, Class::Word);
            proof {
                lemma_runs(s@, b as int, Class::Word);
            }
            if w <= b {
                return None;
            }
            Some((b, w, w))
        },
    }
}

/// The first match of `pat` at or after `from`.
fn find_header(pat: HeaderPat, s: &Vec<char>, from: usize) -> (r: Option<(usize, usize, usize, usize)>)
    requires
        from <= s.len(),
    ensures
        match r {
            Some((p, a, b, e)) => {
                &&& first_from(s@.len() as int, header_pred(pat, s@), from as int) == Some(p as int)
                &&& capture(pat, s@, p as int) == (a as int, b as int)
                &&& e == match_end(pat, s@, p as int)
                &&& from <= p <= a <= b <= e <= s.len()
                &&& p < e
            },
            None => first_from(s@.len() as int, header_pred(pat, s@), from as int) is None,
        },
{
    let mut i = from;
    while i < s.len()
        invariant
            from <= i <= s.len(),
            first_from(s@.len() as int, header_pred(pat, s@), from as int) == first_from(
                s@.len() as int,
                header_pred(pat, s@),
                i as int,
            ),
        decreases s.len() - i,
    {
        match header_at_exec(pat, s, i) {
            Some((a, b, e)) => {
                return Some((i, a, b, e));
            },
            None => {},
        }
        i = i + 1;
    }
    None
}

/// Every capture of `pat`, in order.
fn all_captures(pat: HeaderPat, s: &Vec<char>) -> (r: Vec<Vec<char>>)
    ensures
        r@.map_values(|v: Vec<char>| v@) == all_captures_from(pat, s@, 0),
{
    let mut out: Vec<Vec<char>> = Vec::new();
    let mut i: usize = 0;
    loop
        invariant
            i <= s.len(),
            out@.map_values(|v: Vec<char>| v@) + all_captures_from(pat, s@, i as int)
                == all_captures_from(pat, s@, 0),
        decreases s.len() - i,
    {
        match find_header(pat, s, i) {
            None => {
                assert(all_captures_from(pat, s@, i as int) =~= Seq::<Seq<char>>::empty());
                assert(out@.map_values(|v: Vec<char>| v@) + Seq::<Seq<char>>::empty()
                    =~= out@.map_values(|v: Vec<char>| v@));
                return out;
            },
            Some((p, a, b, e)) => {
                let ghost prev = out@.map_values(|v: Vec<char>| v@);
                let cap = slice_of(s, a, b);
                out.push(cap);
                assert(out@.map_values(|v: Vec<char>| v@) =~= prev + seq![
                    captured(pat, s@, p as int),
                ]);
                assert(all_captures_from(pat, s@, i as int) == seq![captured(pat, s@, p as int)]
                    + all_captures_from(pat, s@, e as int));
                assert(out@.map_values(|v: Vec<char>| v@) + all_captures_from(pat, s@, e as int)
                    =~= prev + all_captures_from(pat, s@, i as int));
                i = e;
            },
        }
    }
}

/// The emotion keys of `gif_table[]` in the header text.
pub fn parse_table_keys(s: &Vec<char>) -> (r: Vec<Vec<char>>)
    ensures
        r@.map_values(|v: Vec<char>| v@) == table_keys(s@),
{
    all_captures(HeaderPat::TableKey, s)
}

/// The declared image symbols in the header text.
pub fn parse_symbols(s: &Vec<char>) -> (r: Vec<Vec<char>>)
    ensures
        r@.map_values(|v: Vec<char>| v@) == symbols(s@),
{
    all_captures(HeaderPat::Symbol, s)
}

/// The value of the first `GIF_PROFILE_DEFAULT` define.
pub fn find_default_emotion(s: &Vec<char>) -> (r: Option<Vec<char>>)
    ensures
        match default_emotion(s@) {
            Some(v) => r matches Some(x) && x@ == v,
            None => r is None,
        },
{
    match find_header(HeaderPat::Default, s, 0) {
        None => None,
        Some((p, a, b, e)) => Some(slice_of(s, a, b)),
    }
}

/// The header with its first `GIF_PROFILE_DEFAULT` value replaced by `value`.
pub fn replace_default(s: &Vec<char>, value: &Vec<char>) -> (r: Vec<char>)
    ensures
        r@ == with_default(s@, value@),
{
    match find_header(HeaderPat::Default, s, 0) {
        None => s.clone(),
        Some((p, a, b, e)) => {
            let head = chars_of("${1}");
            let template = concat(&head, value);
            let mut groups: Vec<Vec<char>> = Vec::new();
            groups.push(slice_of(s, p, e));
            groups.push(slice_of(s, p, a));
            assert(groups@.map_values(|v: Vec<char>| v@) =~= seq![
                s@.subrange(p as int, def_end(s@, p as int)),
                s@.subrange(p as int, def_value(s@, p as int)),
            ]);
            let text = expand_exec(&template, &groups);
            let pre = slice_of(s, 0, p);
            let post = slice_of(s, e, s.len());
            let r0 = concat(&pre, &text);
            concat(&r0, &post)
        },
    }
}


/// A define that matches in `u` before `p` also matches in `h`, when `u`
/// agrees with `h` below `b` and `h` has a define at `p` whose value starts
/// at `b`.
proof fn lemma_no_earlier_default(h: Seq<char>, u: Seq<char>, p: int, q: int)
    requires
        default_at(h, p),
        0 <= q < p,
        def_value(h, p) <= u.len(),
        forall|j: int| 0 <= j < def_value(h, p) ==> u[j] == h[j],
        default_at(u, q),
    ensures
        default_at(h, q),
{
    reveal_strlit("#define");
    reveal_strlit("GIF_PROFILE_DEFAULT");
    let dl = define_lit().len() as int;
    let gl = default_lit().len() as int;
    let b = def_value(h, p);
    lemma_run_end(h, p + dl, Class::Space);
    lemma_run_end(h, def_name(h, p) + gl, Class::Space);
    assert(h[p] == '#') by {
        assert(h.subrange(p, p + dl)[0] == h[p]);
    }
    assert(p < b);
    assert(q + dl <= p) by {
        if q + dl > p {
            assert(u.subrange(q, q + dl)[p - q] == u[p]);
        }
    }
    assert(h.subrange(q, q + dl) =~= u.subrange(q, q + dl));
    let dnq = run_end(h, q + dl, Class::Space);
    lemma_run_end(h, q + dl, Class::Space);
    assert(dnq <= p) by {
        if dnq > p {
            assert(is_space(h[p]));
        }
    }
    lemma_run_agree(h, u, q + dl, dnq, Class::Space);
    assert(dnq + gl <= p) by {
        if dnq + gl > p {
            assert(u.subrange(dnq, dnq + gl)[p - dnq] == u[p]);
        }
    }
    assert(h.subrange(dnq, dnq + gl) =~= u.subrange(dnq, dnq + gl));
    let dvq = run_end(h, dnq + gl, Class::Space);
    lemma_run_end(h, dnq + gl, Class::Space);
    assert(dvq <= p) by {
        if dvq > p {
            assert(is_space(h[p]));
        }
    }
    lemma_run_agree(h, u, dnq + gl, dvq, Class::Space);
    lemma_run_end(u, dvq, Class::Word);
    lemma_run_end(h, dvq, Class::Word);
}

/// The define at `p` keeps matching when its value is replaced by `v`.
proof fn lemma_default_still_at(h: Seq<char>, u: Seq<char>, v: Seq<char>, p: int)
    requires
        default_at(h, p),
        v.len() > 0,
        forall|j: int| 0 <= j < v.len() ==> is_word(#[trigger] v[j]),
        u == h.subrange(0, def_value(h, p)) + v + h.subrange(def_end(h, p), h.len() as int),
    ensures
        default_at(u, p),
        def_value(u, p) == def_value(h, p),
        def_end(u, p) == def_value(h, p) + v.len(),
{
    reveal_strlit("#define");
    reveal_strlit("GIF_PROFILE_DEFAULT");
    let dl = define_lit().len() as int;
    let gl = default_lit().len() as int;
    let dn = def_name(h, p);
    let b = def_value(h, p);
    let w = def_end(h, p);
    let vl = v.len() as int;
    lemma_run_end(h, p + dl, Class::Space);
    lemma_run_end(h, dn + gl, Class::Space);
    lemma_run_end(h, b, Class::Word);
    assert forall|j: int| 0 <= j < b implies u[j] == h[j] by {}
    assert(u.subrange(p, p + dl) =~= h.subrange(p, p + dl));
    lemma_run_agree(h, u, p + dl, dn, Class::Space);
    assert(u.subrange(dn, dn + gl) =~= h.subrange(dn, dn + gl));
    lemma_word_not_space(h[b]);
    lemma_word_not_space(v[0]);
    assert(u[b] == v[0]);
    lemma_run_agree(h, u, dn + gl, b, Class::Space);
    assert forall|j: int| b <= j < b + vl implies in_class(Class::Word, #[trigger] u[j]) by {
        assert(u[j] == v[j - b]);
    }
    assert(b + vl == u.len() || !in_class(Class::Word, u[b + vl])) by {
        if b + vl < u.len() {
            assert(u[b + vl] == h[w]);
        }
    }
    lemma_run_exact(u, b, b + vl, Class::Word);
}

/// Setting the default emotion to a name made of word characters, then
/// reading it back, gives that name.
pub proof fn law_default_set_then_get(h: Seq<char>, v: Seq<char>)
    requires
        default_emotion(h) is Some,
        v.len() > 0,
        forall|j: int| 0 <= j < v.len() ==> is_word(#[trigger] v[j]),
    ensures
        default_emotion(with_default(h, v)) == Some(v),
{
    let pred_h = header_pred(HeaderPat::Default, h);
    lemma_first_from(h.len() as int, pred_h, 0);
    let p = first_from(h.len() as int, pred_h, 0)->Some_0;
    assert(pred_h(p));
    let b = def_value(h, p);
    let w = def_end(h, p);
    lemma_run_end(h, b, Class::Word);
    assert forall|j: int| 0 <= j < v.len() implies v[j] != '$' by {
        assert(is_word(v[j]));
        assert(!is_word('$'));
    }
    lemma_expand_group1(v, h.subrange(p, w), h.subrange(p, b));
    let u = with_default(h, v);
    assert(u =~= h.subrange(0, b) + v + h.subrange(w, h.len() as int));
    lemma_default_still_at(h, u, v, p);
    assert(u.subrange(b, b + v.len()) =~= v);
    let pred_u = header_pred(HeaderPat::Default, u);
    assert forall|q: int| 0 <= q < p implies !#[trigger] pred_u(q) by {
        if default_at(u, q) {
            assert forall|j: int| 0 <= j < b implies u[j] == h[j] by {}
            lemma_no_earlier_default(h, u, p, q);
            assert(pred_h(q));
        }
    }
    assert(pred_u(p));
    lemma_first_from_is(u.len() as int, pred_u, 0, p);
}


/// A nonempty name made of word characters.
pub open spec fn is_word_name(v: Seq<char>) -> bool {
    v.len() > 0 && forall|j: int| 0 <= j < v.len() ==> is_word(#[trigger] v[j])
}

proof fn lemma_word_capture(s: Seq<char>, a: int, b: int)
    requires
        0 <= a < b,
        b == run_end(s, a, Class::Word),
        a <= s.len(),
    ensures
        is_word_name(s.subrange(a, b)),
{
    lemma_run_end(s, a, Class::Word);
    assert forall|j: int| 0 <= j < b - a implies is_word(#[trigger] s.subrange(a, b)[j]) by {
        assert(in_class(Class::Word, s[a + j]));
    }
}

/// Every declared symbol is a nonempty name of word characters.
pub proof fn lemma_symbols_are_words(s: Seq<char>, i: int)
    ensures
        forall|k: int|
            0 <= k < all_captures_from(HeaderPat::Symbol, s, i).len() ==> is_word_name(
                #[trigger] all_captures_from(HeaderPat::Symbol, s, i)[k],
            ),
    decreases s.len() - i,
{
    let pred = header_pred(HeaderPat::Symbol, s);
    lemma_first_from(s.len() as int, pred, i);
    match first_from(s.len() as int, pred, i) {
        None => {},
        Some(p) => {
            let e = match_end(HeaderPat::Symbol, s, p);
            if i < e <= s.len() {
                assert(pred(p));
                reveal_strlit("extern");
                lemma_run_end(s, p + extern_lit().len(), Class::Space);
                lemma_run_end(s, sym_const(s, p) + const_lit().len(), Class::Space);
                lemma_run_end(s, sym_dsc(s, p) + dsc_lit().len(), Class::Space);
                lemma_word_capture(s, sym_start(s, p), sym_end(s, p));
                lemma_symbols_are_words(s, e);
                let all = all_captures_from(HeaderPat::Symbol, s, i);
                let rest = all_captures_from(HeaderPat::Symbol, s, e);
                assert(all == seq![captured(HeaderPat::Symbol, s, p)] + rest);
                assert forall|k: int| 0 <= k < all.len() implies is_word_name(#[trigger] all[k]) by {
                    if k > 0 {
                        assert(all[k] == rest[k - 1]);
                    }
                }
            }
        },
    }
}

/// Setting the default emotion to a symbol that a header declares, then
/// reading it back, gives that symbol.
pub proof fn law_default_set_symbol_then_get(h: Seq<char>, declaring: Seq<char>, e: Seq<char>)
    requires
        default_emotion(h) is Some,
        symbols(declaring).contains(e),
    ensures
        default_emotion(with_default(h, e)) == Some(e),
{
    lemma_symbols_are_words(declaring, 0);
    let k = choose|k: int| 0 <= k < symbols(declaring).len() && symbols(declaring)[k] == e;
    assert(is_word_name(symbols(declaring)[k]));
    law_default_set_then_get(h, e);
}

/// Resetting a header's default to the default of its base header makes
/// both read the same default.
pub proof fn law_reset_restores_base_default(base: Seq<char>, h: Seq<char>)
    requires
        default_emotion(base) is Some,
        default_emotion(h) is Some,
    ensures
        default_emotion(with_default(h, default_emotion(base)->Some_0)) == default_emotion(base),
{
    let pred = header_pred(HeaderPat::Default, base);
    lemma_first_from(base.len() as int, pred, 0);
    let p = first_from(base.len() as int, pred, 0)->Some_0;
    assert(pred(p));
    lemma_word_capture(base, def_value(base, p), def_end(base, p));
    law_default_set_then_get(h, default_emotion(base)->Some_0);
}

/// Setting a header's default to the value it already has leaves the
/// header byte for byte as it was; so resetting a base profile, which is
/// its own base, leaves its header unchanged.
pub proof fn law_reset_base_unchanged(h: Seq<char>)
    requires
        default_emotion(h) is Some,
    ensures
        with_default(h, default_emotion(h)->Some_0) == h,
{
    let pred_h = header_pred(HeaderPat::Default, h);
    lemma_first_from(h.len() as int, pred_h, 0);
    let p = first_from(h.len() as int, pred_h, 0)->Some_0;
    assert(pred_h(p));
    let b = def_value(h, p);
    let w = def_end(h, p);
    lemma_run_end(h, p + define_lit().len(), Class::Space);
    lemma_run_end(h, def_name(h, p) + default_lit().len(), Class::Space);
    lemma_run_end(h, b, Class::Word);
    assert(p <= b < w <= h.len());
    lemma_word_capture(h, b, w);
    let v = h.subrange(b, w);
    assert(default_emotion(h) == Some(v));
    assert forall|j: int| 0 <= j < v.len() implies v[j] != '$' by {
        assert(is_word(v[j]));
        assert(!is_word('$'));
    }
    lemma_expand_group1(v, h.subrange(p, w), h.subrange(p, b));
    assert(with_default(h, v) == h.subrange(0, p) + (h.subrange(p, b) + v) + h.subrange(
        w,
        h.len() as int,
    ));
    assert(with_default(h, v) =~= h);
}

/// Setting the default changes only the value of the first
/// `GIF_PROFILE_DEFAULT` define: the result is the header up to that value,
/// then the new value, then the header after that value.
pub proof fn law_set_default_keeps_the_rest(h: Seq<char>, v: Seq<char>)
    requires
        default_emotion(h) is Some,
        forall|j: int| 0 <= j < v.len() ==> v[j] != '$',
    ensures
        exists|b: int, w: int|
            0 <= b <= w <= h.len() && #[trigger] h.subrange(b, w) == default_emotion(h)->Some_0
                && with_default(h, v) == #[trigger] (h.subrange(0, b) + v + h.subrange(
                w,
                h.len() as int,
            )),
{
    let pred_h = header_pred(HeaderPat::Default, h);
    lemma_first_from(h.len() as int, pred_h, 0);
    let p = first_from(h.len() as int, pred_h, 0)->Some_0;
    assert(pred_h(p));
    lemma_run_end(h, p + define_lit().len(), Class::Space);
    lemma_run_end(h, def_name(h, p) + default_lit().len(), Class::Space);
    let b = def_value(h, p);
    let w = def_end(h, p);
    lemma_run_end(h, b, Class::Word);
    assert(p <= b < w <= h.len());
    lemma_expand_group1(v, h.subrange(p, w), h.subrange(p, b));
    assert(with_default(h, v) =~= h.subrange(0, b) + v + h.subrange(w, h.len() as int));
    assert(h.subrange(b, w) == default_emotion(h)->Some_0);
}

/// A `gif_table[]` entry is read whatever white space stands around its
/// key: `{`, white space, `"key"`, white space, `,` puts `key` among the
/// emotion keys.
pub proof fn law_table_entry_is_read(s: Seq<char>, p: int, a: int, key: Seq<char>, c: int)
    requires
        0 <= p < a,
        s[p] == '{',
        forall|j: int| p < j < a ==> is_space(#[trigger] s[j]),
        a + key.len() + 1 < c < s.len(),
        s[a] == '"',
        key.len() > 0,
        forall|j: int| 0 <= j < key.len() ==> is_word(#[trigger] key[j]),
        s.subrange(a + 1, a + 1 + key.len()) == key,
        s[a + 1 + key.len()] == '"',
        forall|j: int| a + 1 + key.len() < j < c ==> is_space(#[trigger] s[j]),
        s[c] == ',',
    ensures
        table_keys(s).contains(key),
{
    let k1 = a + 1 + key.len();
    lemma_run_exact(s, p + 1, a, Class::Space);
    assert forall|j: int| a + 1 <= j < k1 implies in_class(Class::Word, #[trigger] s[j]) by {
        assert(s.subrange(a + 1, k1)[j - a - 1] == s[j]);
    }
    lemma_run_exact(s, a + 1, k1, Class::Word);
    lemma_run_exact(s, k1 + 1, c, Class::Space);
    assert(table_key_at(s, p));
    assert(captured(HeaderPat::TableKey, s, p) == key);
    lemma_key_listed(s, 0, p);
}

/// Every table entry at or after `i` is among the keys read from `i` on.
proof fn lemma_key_listed(s: Seq<char>, i: int, p: int)
    requires
        0 <= i <= p,
        table_key_at(s, p),
    ensures
        all_captures_from(HeaderPat::TableKey, s, i).contains(captured(HeaderPat::TableKey, s, p)),
    decreases p - i,
{
    let pred = header_pred(HeaderPat::TableKey, s);
    lemma_first_from(s.len() as int, pred, i);
    assert(pred(p));
    let q = first_from(s.len() as int, pred, i)->Some_0;
    assert(pred(q));
    lemma_run_end(s, q + 1, Class::Space);
    let kq = key_quote(s, q);
    lemma_run_end(s, kq + 1, Class::Word);
    let ke = key_end(s, q);
    lemma_run_end(s, ke + 1, Class::Space);
    let kc = key_comma(s, q);
    let e = match_end(HeaderPat::TableKey, s, q);
    assert(i <= q < e <= s.len());
    let rest = all_captures_from(HeaderPat::TableKey, s, e);
    let all = all_captures_from(HeaderPat::TableKey, s, i);
    assert(all == seq![captured(HeaderPat::TableKey, s, q)] + rest);
    if q == p {
        assert(all[0] == captured(HeaderPat::TableKey, s, p));
    } else {
        // the entry at `q` holds no `{` after its first character
        assert(e <= p) by {
            if p < e {
                if p < kq {
                    assert(is_space(s[p]));
                } else if kq < p < ke {
                    assert(is_word(s[p]));
                } else if ke < p < kc {
                    assert(is_space(s[p]));
                }
            }
        }
        lemma_key_listed(s, e, p);
        let k = choose|k: int| 0 <= k < rest.len() && rest[k] == captured(HeaderPat::TableKey, s, p);
        assert(all[k + 1] == rest[k]);
    }
}

} // verus!
