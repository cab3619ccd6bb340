//! ESP-IDF configuration files: which profile `sdkconfig.defaults` selects,
//! how activating a profile rewrites it, and how the generated `sdkconfig`
//! is brought in line with the active profile.
//!
//! Grammar of `sdkconfig.defaults`, with the `regex` crate's leftmost-first
//! semantics (`(?m)`: `^` at the start and after every `\n`; `\s` may cross
//! lines):
//! - name override `(?m)^\s*CONFIG_GIF_PROFILE_NAME\s*=\s*"?([A-Za-z0-9_]+)"?`
//! - choice `(?m)^\s*CONFIG_GIF_PROFILE_(\w+)=y`
//! - any name line `(?m)^\s*CONFIG_GIF_PROFILE_NAME\s*=.*$`
//!
//! The generated `sdkconfig` is read line by line (`str::lines`), each line
//! with its leading white space trimmed; a line is a name line if it starts
//! with `CONFIG_GIF_PROFILE_NAME`, a symbol line if it holds
//! `CONFIG_GIF_PROFILE_([A-Za-z0-9_]+)`.

use vstd::prelude::*;
use crate::text::{
    chars_of, concat, contains_seq, expand, expand_exec, first_from, in_class, is_name_char,
    is_space, lemma_expand_plain, lemma_first_from, lemma_first_from_is, lemma_run_agree,
    lemma_run_exact, lemma_run_same, lemma_run_end, lowercase, name_char, run_end, run_end_exec, seq_at, seq_at_exec, slice_of,
    string_of, to_lowercase, to_uppercase, uppercase, Class, all_word, is_word, lemma_run_shift,
    ascii_lower_text, ascii_upper_text, is_ascii_text,
};
use crate::profile::{base_of, spec_base_of};

verus! {

pub open spec fn name_lit() -> Seq<char> {
    "CONFIG_GIF_PROFILE_NAME"@
}

pub open spec fn prefix_lit() -> Seq<char> {
    "CONFIG_GIF_PROFILE_"@
}

pub open spec fn eq_y_lit() -> Seq<char> {
    "=y"@
}

/// `(?m)^`: the start of the text or just after a `\n`.
pub open spec fn line_start(s: Seq<char>, p: int) -> bool {
    p == 0 || (0 < p <= s.len() && s[p - 1] == '\n')
}

/// Where the white space that starts at `p` ends (`^\s*`).
pub open spec fn lead(s: Seq<char>, p: int) -> int {
    run_end(s, p, Class::Space)
}

pub open spec fn nl_pred(s: Seq<char>) -> spec_fn(int) -> bool {
    |k: int| s[k] == '\n'
}

/// The first `\n` at or after `i`, or the end of the text (`.*$`).
pub open spec fn line_end(s: Seq<char>, i: int) -> int {
    match first_from(s.len() as int, nl_pred(s), i) {
        Some(j) => j,
        None => s.len() as int,
    }
}

// ----- name lines -----

/// The `=` of a name line that starts at `p`.
pub open spec fn name_eq(s: Seq<char>, p: int) -> int {
    run_end(s, lead(s, p) + name_lit().len(), Class::Space)
}

/// The position after `=\s*`.
pub open spec fn name_ws(s: Seq<char>, p: int) -> int {
    run_end(s, name_eq(s, p) + 1, Class::Space)
}

/// Where the profile name of a name line starts (after an optional `"`).
pub open spec fn name_val(s: Seq<char>, p: int) -> int {
    if name_ws(s, p) < s.len() && s[name_ws(s, p)] == '"' {
        name_ws(s, p) + 1
    } else {
        name_ws(s, p)
    }
}

pub open spec fn name_val_end(s: Seq<char>, p: int) -> int {
    run_end(s, name_val(s, p), Class::Name)
}

/// A line naming a profile matches at `p`.
pub open spec fn name_value_at(s: Seq<char>, p: int) -> bool {
    &&& line_start(s, p)
    &&& seq_at(s, lead(s, p), name_lit())
    &&& name_eq(s, p) < s.len()
    &&& s[name_eq(s, p)] == '='
    &&& name_val(s, p) < s.len()
    &&& is_name_char(s[name_val(s, p)])
}

/// Any name line matches at `p` (it runs to the end of its line).
pub open spec fn name_any_at(s: Seq<char>, p: int) -> bool {
    &&& line_start(s, p)
    &&& seq_at(s, lead(s, p), name_lit())
    &&& name_eq(s, p) < s.len()
    &&& s[name_eq(s, p)] == '='
}

pub open spec fn name_any_end(s: Seq<char>, p: int) -> int {
    line_end(s, name_eq(s, p) + 1)
}

// ----- choice lines -----

pub open spec fn choice_word(s: Seq<char>, p: int) -> int {
    lead(s, p) + prefix_lit().len()
}

pub open spec fn choice_word_end(s: Seq<char>, p: int) -> int {
    run_end(s, choice_word(s, p), Class::Word)
}

/// A choice line `CONFIG_GIF_PROFILE_<word>=y` matches at `p`.
pub open spec fn choice_at(s: Seq<char>, p: int) -> bool {
    &&& line_start(s, p)
    &&& seq_at(s, lead(s, p), prefix_lit())
    &&& choice_word_end(s, p) > choice_word(s, p)
    &&& seq_at(s, choice_word_end(s, p), eq_y_lit())
}

pub open spec fn choice_end(s: Seq<char>, p: int) -> int {
    choice_word_end(s, p) + eq_y_lit().len()
}

/// The defaults patterns.
#[derive(Clone, Copy, PartialEq, Eq, Structural, Debug)]
pub enum DefaultsPat {
    NameValue,
    NameAny,
    Choice,
}

pub open spec fn defaults_at(pat: DefaultsPat, s: Seq<char>, p: int) -> bool {
    match pat {
        DefaultsPat::NameValue => name_value_at(s, p),
        DefaultsPat::NameAny => name_any_at(s, p),
        DefaultsPat::Choice => choice_at(s, p),
    }
}

pub open spec fn defaults_pred(pat: DefaultsPat, s: Seq<char>) -> spec_fn(int) -> bool {
    |p: int| defaults_at(pat, s, p)
}

pub open spec fn find_defaults(pat: DefaultsPat, s: Seq<char>) -> Option<int> {
    first_from(s.len() as int, defaults_pred(pat, s), 0)
}

/// The profile that `sdkconfig.defaults` selects: the name of the first name
/// override, else the lower-cased word of the first choice line.
pub open spec fn defaults_profile(s: Seq<char>) -> Option<Seq<char>> {
    match find_defaults(DefaultsPat::NameValue, s) {
        Some(p) => Some(s.subrange(name_val(s, p), name_val_end(s, p))),
        None => match find_defaults(DefaultsPat::Choice, s) {
            Some(p) => Some(lowercase(s.subrange(choice_word(s, p), choice_word_end(s, p)))),
            None => None,
        },
    }
}

/// The choice line that selects the base of `profile`.
pub open spec fn choice_line(profile: Seq<char>) -> Seq<char> {
    prefix_lit() + uppercase(spec_base_of(profile)) + eq_y_lit()
}

/// The name override line for `profile`.
pub open spec fn name_line(profile: Seq<char>) -> Seq<char> {
    "CONFIG_GIF_PROFILE_NAME=\""@ + profile + "\""@
}

/// The defaults with their first choice line replaced by the expansion of
/// the choice line of `profile`.
pub open spec fn with_choice(s: Seq<char>, profile: Seq<char>) -> Seq<char> {
    match find_defaults(DefaultsPat::Choice, s) {
        Some(p) => s.subrange(0, p) + expand(
            choice_line(profile),
            seq![s.subrange(p, choice_end(s, p))],
        ) + s.subrange(choice_end(s, p), s.len() as int),
        None => s,
    }
}

/// `sdkconfig.defaults` after activating `profile`: the choice line selects
/// its base, and its first name line (or a new one at the end) names it.
pub open spec fn activated(s: Seq<char>, profile: Seq<char>) -> Seq<char> {
    let u = with_choice(s, profile);
    match find_defaults(DefaultsPat::NameAny, u) {
        Some(p) => u.subrange(0, p) + expand(
            name_line(profile),
            seq![u.subrange(p, name_any_end(u, p))],
        ) + u.subrange(name_any_end(u, p), u.len() as int),
        None => u + "\n"@ + name_line(profile) + "\n"@,
    }
}

proof fn lemma_runs(s: Seq<char>, i: int, cls: Class)
    requires
        0 <= i <= s.len(),
    ensures
        i <= run_end(s, i, cls) <= s.len(),
{
    lemma_run_end(s, i, cls);
}

fn line_end_exec(s: &Vec<char>, i: usize) -> (r: usize)
    requires
        i <= s.len(),
    ensures
        r == line_end(s@, i as int),
        i <= r <= s.len(),
        r < s.len() ==> s@[r as int] == '\n',
{
    let mut j = i;
    while j < s.len() && s[j] != '\n'
        invariant
            i <= j <= s.len(),
            first_from(s@.len() as int, nl_pred(s@), i as int) == first_from(
                s@.len() as int,
                nl_pred(s@),
                j as int,
            ),
        decreases s.len() - j,
    {
        j = j + 1;
    }
    j
}

/// Whether `pat` matches at `p`; with the start and end of its capture and
/// the end of the match.
fn defaults_at_exec(pat: DefaultsPat, s: &Vec<char>, p: usize) -> (r: Option<(usize, usize, usize)>)
    requires
        p <= s.len(),
    ensures
        r is Some == defaults_at(pat, s@, p as int),
        r matches Some((a, b, e)) ==> p <= a <= b <= e <= s.len() && match pat {
            DefaultsPat::NameValue => a == name_val(s@, p as int) && b == name_val_end(
                s@,
                p as int,
            ),
            DefaultsPat::NameAny => e == name_any_end(s@, p as int),
            DefaultsPat::Choice => a == choice_word(s@, p as int) && b == choice_word_end(
                s@,
                p as int,
            ) && e == choice_end(s@, p as int),
        },
{
    let n = s.len();
    if !(p == 0 || s[p - 1] == '\n') {
        return None;
    }
    let l = run_end_exec(s, p, Class::Space);
    proof {
        lemma_runs(s@, p as int, Class::Space);
    }
    match pat {
        DefaultsPat::Choice => {
            let lit = chars_of("CONFIG_GIF_PROFILE_");
            if !seq_at_exec(s, l, &lit) {
                return None;
            }
            let a = l + lit.len();
            let b = run_end_exec(s, a, Class::Word);
            proof {
                lemma_runs(s@, a as int, Class::Word);
            }
            let y = chars_of("=y");
            if b <= a || !seq_at_exec(s, b, &y) {
                return None;
            }
            Some((a, b, b + y.len()))
        },
        _ => {
            let lit = chars_of("CONFIG_GIF_PROFILE_NAME");
            if !seq_at_exec(s, l, &lit) {
                return None;
            }
            let q1 = run_end_exec(s, l + lit.len(), Class::Space);
            proof {
                lemma_runs(s@, l + lit.len(), Class::Space);
            }
            if q1 >= n || s[q1] != '=' {
                return None;
            }
            if pat == DefaultsPat::NameAny {
                let e = line_end_exec(s, q1 + 1);
                return Some((q1 + 1, q1 + 1, e));
            }
            let q2 = run_end_exec(s, q1 + 1, Class::Space);
            proof {
                lemma_runs(s@, q1 + 1, Class::Space);
            }
            let q3 = if q2 < n && s[q2] == '"' {
                q2 + 1
            } else {
                q2
            };
            if q3 >= n || !name_char(s[q3]) {
                return None;
            }
            let b = run_end_exec(s, q3, Class::Name);
            proof {
                lemma_runs(s@, q3 as int, Class::Name);
            }
            Some((q3, b, b))
        },
    }
}

/// The first match of `pat` in `s`.
fn find_defaults_exec(pat: DefaultsPat, s: &Vec<char>) -> (r: Option<(usize, usize, usize, usize)>)
    ensures
        match r {
            Some((p, a, b, e)) => {
                &&& find_defaults(pat, s@) == Some(p as int)
                &&& p <= a <= b <= e <= s.len()
                &&& match pat {
                    DefaultsPat::NameValue => a == name_val(s@, p as int) && b == name_val_end(
                        s@,
                        p as int,
                    ),
                    DefaultsPat::NameAny => e == name_any_end(s@, p as int),
                    DefaultsPat::Choice => a == choice_word(s@, p as int) && b == choice_word_end(
                        s@,
                        p as int,
                    ) && e == choice_end(s@, p as int),
                }
            },
            None => find_defaults(pat, s@) is None,
        },
{
    let mut i: usize = 0;
    while i < s.len()
        invariant
            i <= s.len(),
            find_defaults(pat, s@) == first_from(s@.len() as int, defaults_pred(pat, s@), i as int),
        decreases s.len() - i,
    {
        match defaults_at_exec(pat, s, i) {
            Some((a, b, e)) => {
                return Some((i, a, b, e));
            },
            None => {},
        }
        i = i + 1;
    }
    None
}

/// The word of the first choice line, lower-cased, is its ASCII lower case
/// when it is ASCII.
pub open spec fn ascii_choice_word(s: Seq<char>) -> bool {
    match find_defaults(DefaultsPat::Choice, s) {
        Some(p) => {
            let w = s.subrange(choice_word(s, p), choice_word_end(s, p));
            is_ascii_text(w) ==> lowercase(w) == ascii_lower_text(w)
        },
        None => true,
    }
}

/// The upper case of the base of `profile` is its ASCII upper case when
/// it is ASCII.
pub open spec fn ascii_base_upper(profile: Seq<char>) -> bool {
    is_ascii_text(spec_base_of(profile)) ==> uppercase(spec_base_of(profile)) == ascii_upper_text(
        spec_base_of(profile),
    )
}

/// The profile that the text of `sdkconfig.defaults` selects, if any.
pub fn active_profile_name(defaults: &str) -> (r: Option<String>)
    ensures
        match defaults_profile(defaults@) {
            Some(name) => r matches Some(x) && x@ == name,
            None => r is None,
        },
        ascii_choice_word(defaults@),
{
    let s = chars_of(defaults);
    let c = find_defaults_exec(DefaultsPat::Choice, &s);
    let lowered = match c {
        Some((p, a, b, e)) => {
            let word = string_of(&slice_of(&s, a, b));
            Some(to_lowercase(word.as_str()))
        },
        None => None,
    };
    match find_defaults_exec(DefaultsPat::NameValue, &s) {
        Some((p, a, b, e)) => Some(string_of(&slice_of(&s, a, b))),
        None => lowered,
    }
}

/// Replaces `s[p..e]` by `text`.
fn splice(s: &Vec<char>, p: usize, e: usize, text: &Vec<char>) -> (r: Vec<char>)
    requires
        p <= e <= s.len(),
    ensures
        r@ == s@.subrange(0, p as int) + text@ + s@.subrange(e as int, s@.len() as int),
{
    let pre = slice_of(s, 0, p);
    let post = slice_of(s, e, s.len());
    let r0 = concat(&pre, text);
    concat(&r0, &post)
}

/// The text of `sdkconfig.defaults` after activating `profile_name`.
pub fn activate_in_defaults(defaults: &str, profile_name: &str) -> (r: String)
    ensures
        r@ == activated(defaults@, profile_name@),
        ascii_base_upper(profile_name@),
{
    let s = chars_of(defaults);
    let name = chars_of(profile_name);
    let base = base_of(profile_name);
    let base_upper = to_uppercase(base.as_str());
    let prefix = chars_of("CONFIG_GIF_PROFILE_");
    let y = chars_of("=y");
    let c0 = concat(&prefix, &chars_of(base_upper.as_str()));
    let choice = concat(&c0, &y);
    let u = match find_defaults_exec(DefaultsPat::Choice, &s) {
        Some((p, a, b, e)) => {
            let mut groups: Vec<Vec<char>> = Vec::new();
            groups.push(slice_of(&s, p, e));
            assert(groups@.map_values(|v: Vec<char>| v@) =~= seq![s@.subrange(p as int, e as int)]);
            let text = expand_exec(&choice, &groups);
            splice(&s, p, e, &text)
        },
        None => s.clone(),
    };
    assert(u@ == with_choice(s@, name@));
    let open = chars_of("CONFIG_GIF_PROFILE_NAME=\"");
    let close = chars_of("\"");
    let l0 = concat(&open, &name);
    let line = concat(&l0, &close);
    let out = match find_defaults_exec(DefaultsPat::NameAny, &u) {
        Some((p, a, b, e)) => {
            let mut groups: Vec<Vec<char>> = Vec::new();
            groups.push(slice_of(&u, p, e));
            assert(groups@.map_values(|v: Vec<char>| v@) =~= seq![u@.subrange(p as int, e as int)]);
            let text = expand_exec(&line, &groups);
            splice(&u, p, e, &text)
        },
        None => {
            let nl = chars_of("\n");
            let o1 = concat(&u, &nl);
            let o2 = concat(&o1, &line);
            concat(&o2, &nl)
        },
    };
    string_of(&out)
}


// ----- the generated `sdkconfig` -----

/// The line that `str::lines` yields from position `i`: up to the next `\n`,
/// without a `\r` just before that `\n`.
pub open spec fn line_at(s: Seq<char>, i: int) -> Seq<char> {
    let j = line_end(s, i);
    let raw = s.subrange(i, j);
    if j < s.len() && raw.len() > 0 && raw.last() == '\r' {
        raw.drop_last()
    } else {
        raw
    }
}

/// `str::lines` of `s`, from position `i` on.
pub open spec fn lines_from(s: Seq<char>, i: int) -> Seq<Seq<char>>
    decreases s.len() - i,
{
    if i < 0 || i >= s.len() {
        Seq::empty()
    } else if i <= line_end(s, i) < s.len() {
        seq![line_at(s, i)] + lines_from(s, line_end(s, i) + 1)
    } else {
        seq![line_at(s, i)]
    }
}

pub open spec fn lines(s: Seq<char>) -> Seq<Seq<char>> {
    lines_from(s, 0)
}

/// `str::trim_start`: the line without its leading `White_Space`.
pub open spec fn trim_start(l: Seq<char>) -> Seq<char> {
    l.subrange(run_end(l, 0, Class::Space), l.len() as int)
}

pub open spec fn is_name_line(line: Seq<char>) -> bool {
    seq_at(trim_start(line), 0, name_lit())
}

/// `CONFIG_GIF_PROFILE_([A-Za-z0-9_]+)` matches at `p`.
pub open spec fn sym_at(t: Seq<char>, p: int) -> bool {
    &&& seq_at(t, p, prefix_lit())
    &&& p + prefix_lit().len() < t.len()
    &&& is_name_char(t[p + prefix_lit().len()])
}

pub open spec fn sym_pred(t: Seq<char>) -> spec_fn(int) -> bool {
    |p: int| sym_at(t, p)
}

/// The profile symbol named by the match at `p`.
pub open spec fn sym_short(t: Seq<char>, p: int) -> Seq<char> {
    t.subrange(p + prefix_lit().len(), run_end(t, p + prefix_lit().len(), Class::Name))
}

/// What a line of the generated `sdkconfig` becomes when the active profile
/// is `profile` and its base, upper-cased, is `base`.
pub open spec fn regenerated_line(line: Seq<char>, profile: Seq<char>, base: Seq<char>) -> Seq<
    char,
> {
    let t = trim_start(line);
    if is_name_line(line) {
        name_line(profile) + "\n"@
    } else {
        match first_from(t.len() as int, sym_pred(t), 0) {
            Some(p) => if sym_short(t, p) == base {
                prefix_lit() + base + "=y\n"@
            } else {
                "# "@ + prefix_lit() + sym_short(t, p) + " is not set\n"@
            },
            None => line + "\n"@,
        }
    }
}

pub open spec fn regenerated_lines(ls: Seq<Seq<char>>, profile: Seq<char>, base: Seq<char>) -> Seq<
    char,
>
    decreases ls.len(),
{
    if ls.len() == 0 {
        Seq::empty()
    } else {
        regenerated_line(ls[0], profile, base) + regenerated_lines(ls.drop_first(), profile, base)
    }
}

pub open spec fn any_name_line(ls: Seq<Seq<char>>) -> bool
    decreases ls.len(),
{
    ls.len() > 0 && (is_name_line(ls[0]) || any_name_line(ls.drop_first()))
}

/// The generated `sdkconfig` brought in line with `profile`: every name line
/// names it, every profile symbol line selects its base or says that the
/// symbol is not set, other lines stay; a name line is added at the end if
/// there was none.
pub open spec fn generated(s: Seq<char>, profile: Seq<char>) -> Seq<char> {
    let base = uppercase(spec_base_of(profile));
    let ls = lines(s);
    regenerated_lines(ls, profile, base) + if any_name_line(ls) {
        Seq::empty()
    } else {
        name_line(profile) + "\n"@
    }
}

fn sym_at_exec(t: &Vec<char>, p: usize, prefix: &Vec<char>) -> (r: bool)
    requires
        prefix@ == prefix_lit(),
        p <= t.len(),
    ensures
        r == sym_at(t@, p as int),
{
    seq_at_exec(t, p, prefix) && p + prefix.len() < t.len() && name_char(t[p + prefix.len()])
}

/// The regenerated line, and whether the line was a name line.
fn regenerate_line(line: &Vec<char>, name_nl: &Vec<char>, base: &Vec<char>) -> (r: (
    Vec<char>,
    bool,
))
    requires
        exists|profile: Seq<char>| name_nl@ == name_line(profile) + "\n"@,
    ensures
        forall|profile: Seq<char>|
            name_nl@ == name_line(profile) + "\n"@ ==> r.0@ == regenerated_line(
                line@,
                profile,
                base@,
            ),
        r.1 == is_name_line(line@),
{
    let ts = run_end_exec(line, 0, Class::Space);
    proof {
        lemma_runs(line@, 0, Class::Space);
    }
    let t = slice_of(line, ts, line.len());
    let name_lit_v = chars_of("CONFIG_GIF_PROFILE_NAME");
    if seq_at_exec(&t, 0, &name_lit_v) {
        return (name_nl.clone(), true);
    }
    let prefix = chars_of("CONFIG_GIF_PROFILE_");
    let mut p: usize = 0;
    while p < t.len()
        invariant
            p <= t.len(),
            prefix@ == prefix_lit(),
            t@ == trim_start(line@),
            !is_name_line(line@),
            first_from(t@.len() as int, sym_pred(t@), 0) == first_from(
                t@.len() as int,
                sym_pred(t@),
                p as int,
            ),
        decreases t.len() - p,
    {
        if sym_at_exec(&t, p, &prefix) {
            let a = p + prefix.len();
            let b = run_end_exec(&t, a, Class::Name);
            proof {
                lemma_runs(t@, a as int, Class::Name);
            }
            let short = slice_of(&t, a, b);
            if crate::text::seq_eq(&short, base) {
                let y = chars_of("=y\n");
                let o = concat(&prefix, base);
                return (concat(&o, &y), false);
            } else {
                let hash = chars_of("# ");
                let tail = chars_of(" is not set\n");
                let o1 = concat(&hash, &prefix);
                let o2 = concat(&o1, &short);
                return (concat(&o2, &tail), false);
            }
        }
        p = p + 1;
    }
    let nl = chars_of("\n");
    (concat(line, &nl), false)
}

/// The generated `sdkconfig` text rewritten for the active profile
/// `profile_name`.
pub fn update_sdkconfig(content: &str, profile_name: &str) -> (r: String)
    ensures
        r@ == generated(content@, profile_name@),
        ascii_base_upper(profile_name@),
{
    let s = chars_of(content);
    let name = chars_of(profile_name);
    let base = base_of(profile_name);
    let base_upper = chars_of(to_uppercase(base.as_str()).as_str());
    let open = chars_of("CONFIG_GIF_PROFILE_NAME=\"");
    let quote = chars_of("\"");
    let nl_v = chars_of("\n");
    let l0 = concat(&open, &name);
    let l1 = concat(&l0, &quote);
    let name_nl = concat(&l1, &nl_v);
    let ghost nl = name_line(name@) + "\n"@;
    assert(name_nl@ =~= nl);
    let ghost bu = uppercase(spec_base_of(name@));
    let ghost all = lines(s@);
    let mut out: Vec<char> = Vec::new();
    let mut written = false;
    let mut i: usize = 0;
    while i < s.len()
        invariant
            i <= s.len(),
            name_nl@ == name_line(name@) + "\n"@,
            base_upper@ == bu,
            all == lines(s@),
            out@ + regenerated_lines(lines_from(s@, i as int), name@, bu) == regenerated_lines(
                all,
                name@,
                bu,
            ),
            (written || any_name_line(lines_from(s@, i as int))) == any_name_line(all),
        decreases s.len() - i,
    {
        let j = line_end_exec(&s, i);
        let end = if j < s.len() && j > i && s[j - 1] == '\r' {
            j - 1
        } else {
            j
        };
        let line = slice_of(&s, i, end);
        assert(line@ == line_at(s@, i as int)) by {
            let raw = s@.subrange(i as int, j as int);
            if j < s.len() && j > i && s@[j - 1] == '\r' {
                assert(raw.drop_last() =~= line@);
            } else {
                assert(raw =~= line@);
            }
        }
        let ghost rest = lines_from(s@, i as int);
        assert(rest[0] == line@);
        assert(rest.drop_first() == if j < s.len() {
            lines_from(s@, j + 1)
        } else {
            Seq::<Seq<char>>::empty()
        }) by {
            if j < s.len() {
                assert(rest.drop_first() =~= lines_from(s@, j + 1));
            } else {
                assert(rest.drop_first() =~= Seq::<Seq<char>>::empty());
            }
        }
        let (text, is_name) = regenerate_line(&line, &name_nl, &base_upper);
        let ghost prev = out@;
        let mut t2 = text;
        out.append(&mut t2);
        assert(out@ =~= prev + regenerated_line(line@, name@, bu));
        written = written || is_name;
        if j >= s.len() {
            i = s.len();
        } else {
            i = j + 1;
        }
        assert(lines_from(s@, i as int) == rest.drop_first());
        assert(out@ + regenerated_lines(lines_from(s@, i as int), name@, bu) =~= prev
            + regenerated_lines(rest, name@, bu));
    }
    if !written {
        let mut t2 = name_nl.clone();
        out.append(&mut t2);
    }
    string_of(&out)
}


proof fn lemma_regenerated_has_name_line(ls: Seq<Seq<char>>, profile: Seq<char>, base: Seq<char>)
    requires
        any_name_line(ls),
    ensures
        contains_seq(regenerated_lines(ls, profile, base), name_line(profile) + "\n"@),
    decreases ls.len(),
{
    let nl = name_line(profile) + "\n"@;
    let first = regenerated_line(ls[0], profile, base);
    let rest = regenerated_lines(ls.drop_first(), profile, base);
    let all = regenerated_lines(ls, profile, base);
    assert(all == first + rest);
    if is_name_line(ls[0]) {
        assert(first == nl);
        assert(all.subrange(0, nl.len() as int) =~= nl);
        assert(seq_at(all, 0, nl));
    } else {
        lemma_regenerated_has_name_line(ls.drop_first(), profile, base);
        let i = choose|i: int| seq_at(rest, i, nl);
        assert(all.subrange(first.len() + i, first.len() + i + nl.len()) =~= rest.subrange(
            i,
            i + nl.len(),
        ));
        assert(seq_at(all, first.len() + i, nl));
    }
}

/// After the generated `sdkconfig` is brought in line with a profile, it
/// holds the line naming that profile.
pub proof fn law_generated_names_profile(s: Seq<char>, profile: Seq<char>)
    ensures
        contains_seq(generated(s, profile), name_line(profile) + "\n"@),
{
    let nl = name_line(profile) + "\n"@;
    let base = uppercase(spec_base_of(profile));
    let ls = lines(s);
    let g = generated(s, profile);
    let r = regenerated_lines(ls, profile, base);
    if any_name_line(ls) {
        lemma_regenerated_has_name_line(ls, profile, base);
        assert(g =~= r);
    } else {
        assert(g == r + nl);
        assert(g.subrange(r.len() as int, (r.len() + nl.len()) as int) =~= nl);
        assert(seq_at(g, r.len() as int, nl));
    }
}


/// A profile name that detection reads back whole: `[A-Za-z0-9_]+`.
pub open spec fn is_profile_name(n: Seq<char>) -> bool {
    n.len() > 0 && forall|j: int| 0 <= j < n.len() ==> is_name_char(#[trigger] n[j])
}

/// A name line of `f` that ends (at its `=`) below `k` is a name line of
/// any text that agrees with `f` below `k`.
proof fn lemma_name_any_prefix(u: Seq<char>, f: Seq<char>, k: int, q: int)
    requires
        0 <= q,
        k <= u.len(),
        k <= f.len(),
        forall|j: int| 0 <= j < k ==> f[j] == u[j],
        name_any_at(f, q),
        name_eq(f, q) < k,
    ensures
        name_any_at(u, q),
        lead(u, q) == lead(f, q),
{
    let l = lead(f, q);
    lemma_run_end(f, q, Class::Space);
    lemma_run_end(f, l + name_lit().len(), Class::Space);
    assert(q <= l);
    lemma_run_agree(f, u, q, l, Class::Space);
    assert(u.subrange(l, l + name_lit().len()) =~= f.subrange(l, l + name_lit().len()));
    lemma_run_agree(f, u, l + name_lit().len(), name_eq(f, q), Class::Space);
}

/// The name line of `n` placed at a line start `m` matches there and names `n`.
proof fn lemma_name_line_at(f: Seq<char>, m: int, n: Seq<char>)
    requires
        is_profile_name(n),
        0 <= m,
        m + name_line(n).len() <= f.len(),
        f.subrange(m, m + name_line(n).len()) == name_line(n),
        line_start(f, m),
    ensures
        name_value_at(f, m),
        lead(f, m) == m,
        name_val(f, m) == m + 25,
        name_val_end(f, m) == m + 25 + n.len(),
        f.subrange(name_val(f, m), name_val_end(f, m)) == n,
{
    reveal_strlit("CONFIG_GIF_PROFILE_NAME=\"");
    reveal_strlit("CONFIG_GIF_PROFILE_NAME");
    reveal_strlit("\"");
    let nl = name_line(n);
    assert forall|j: int| 0 <= j < nl.len() implies f[m + j] == #[trigger] nl[j] by {
        assert(f.subrange(m, m + nl.len())[j] == f[m + j]);
    }
    assert(nl[0] == 'C');
    assert(f[m + 0] == nl[0]);
    assert(f[m] == 'C');
    assert(lead(f, m) == m);
    assert(f.subrange(m, m + 23) =~= name_lit()) by {
        assert forall|j: int| 0 <= j < 23 implies f.subrange(m, m + 23)[j] == name_lit()[j] by {
            assert(f[m + j] == nl[j]);
        }
    }
    assert(f[m + 23] == nl[23]);
    assert(f[m + 23] == '=');
    assert(name_eq(f, m) == m + 23);
    assert(f[m + 24] == nl[24]);
    assert(f[m + 24] == '"');
    assert(name_ws(f, m) == m + 24);
    assert(name_val(f, m) == m + 25);
    assert forall|j: int| m + 25 <= j < m + 25 + n.len() implies in_class(
        Class::Name,
        #[trigger] f[j],
    ) by {
        assert(f[j] == nl[j - m]);
        assert(nl[j - m] == n[j - m - 25]);
    }
    assert(f[m + 25 + n.len()] == nl[25 + n.len() as int]);
    assert(!is_name_char(f[m + 25 + n.len()]));
    lemma_run_exact(f, m + 25, m + 25 + n.len(), Class::Name);
    assert(f.subrange(m + 25, m + 25 + n.len()) =~= n) by {
        assert forall|j: int| 0 <= j < n.len() implies f.subrange(m + 25, m + 25 + n.len())[j]
            == n[j] by {
            assert(f[m + 25 + j] == nl[25 + j]);
        }
    }
}

/// The name of a name line depends only on where its `CONFIG_` starts.
proof fn lemma_name_val_by_lead(f: Seq<char>, q: int, m: int)
    requires
        lead(f, q) == lead(f, m),
    ensures
        name_val(f, q) == name_val(f, m),
        name_val_end(f, q) == name_val_end(f, m),
        name_value_at(f, m) && line_start(f, q) ==> name_value_at(f, q),
{
}

proof fn lemma_name_lit_chars()
    ensures
        forall|j: int| 0 <= j < name_lit().len() ==> (#[trigger] name_lit()[j]) != '\n',
        name_lit().len() == 23,
{
    reveal_strlit("CONFIG_GIF_PROFILE_NAME");
}

proof fn lemma_name_line_chars(n: Seq<char>)
    requires
        is_profile_name(n),
    ensures
        forall|j: int| 0 <= j < name_line(n).len() ==> (#[trigger] name_line(n)[j]) != '$',
        name_line(n).len() == 26 + n.len(),
{
    reveal_strlit("CONFIG_GIF_PROFILE_NAME=\"");
    reveal_strlit("\"");
    let nl = name_line(n);
    assert forall|j: int| 0 <= j < nl.len() implies (#[trigger] nl[j]) != '$' by {
        if 25 <= j < 25 + n.len() {
            assert(nl[j] == n[j - 25]);
            assert(is_name_char(n[j - 25]));
        }
    }
}

/// A line of `f` that names a profile and starts before `p`, where `f`
/// agrees with `u` below `p` and a `C` starts a line at `p`, is a name line
/// of `u`.
proof fn lemma_no_earlier_name(u: Seq<char>, f: Seq<char>, p: int, q: int)
    requires
        0 <= q < p < u.len(),
        p < f.len(),
        f[p] == 'C',
        forall|j: int| 0 <= j < p ==> f[j] == u[j],
        name_any_at(u, p),
        name_value_at(f, q),
    ensures
        name_any_at(u, q),
{
    lemma_name_lit_chars();
    lemma_run_end(f, q, Class::Space);
    lemma_run_end(u, p, Class::Space);
    let lq = lead(f, q);
    assert(lq <= p) by {
        if lq > p {
            assert(is_space(f[p]));
        }
    }
    if lq == p {
        assert forall|j: int| q <= j < p implies in_class(Class::Space, #[trigger] u[j]) by {
            assert(f[j] == u[j]);
        }
        lemma_run_same(u, q, p, Class::Space);
        assert(line_start(u, q)) by {
            if q > 0 {
                assert(f[q - 1] == u[q - 1]);
            }
        }
    } else {
        assert(u[p - 1] == '\n');
        assert(lq + 23 <= p) by {
            if lq + 23 > p {
                assert(f.subrange(lq, lq + 23)[p - 1 - lq] == f[p - 1]);
                assert(f[p - 1] == u[p - 1]);
            }
        }
        lemma_run_end(f, lq + 23, Class::Space);
        let qe = name_eq(f, q);
        assert(f[qe] == '=');
        assert(qe < p) by {
            if qe > p {
                assert(is_space(f[p]));
            }
        }
        lemma_name_any_prefix(u, f, p, q);
    }
}

/// When activation replaced the first name line of `u` (at `p`), the
/// replacement is the first line that names a profile.
#[verifier::spinoff_prover]
proof fn lemma_activate_replaced(u: Seq<char>, n: Seq<char>, p: int)
    requires
        is_profile_name(n),
        find_defaults(DefaultsPat::NameAny, u) == Some(p),
    ensures
        ({
            let e = name_any_end(u, p);
            let f = u.subrange(0, p) + name_line(n) + u.subrange(e, u.len() as int);
            defaults_profile(f) == Some(n)
        }),
{
    lemma_name_lit_chars();
    lemma_name_line_chars(n);
    let nl = name_line(n);
    let pu = defaults_pred(DefaultsPat::NameAny, u);
    lemma_first_from(u.len() as int, pu, 0);
    assert(pu(p));
    let e = name_any_end(u, p);
    let l = lead(u, p);
    lemma_run_end(u, p, Class::Space);
    lemma_run_end(u, l + 23, Class::Space);
    let ne = name_eq(u, p);
    lemma_first_from(u.len() as int, nl_pred(u), ne + 1);
    assert(ne < e <= u.len());
    let f = u.subrange(0, p) + nl + u.subrange(e, u.len() as int);
    let pf = defaults_pred(DefaultsPat::NameValue, f);
    assert forall|j: int| 0 <= j < p implies f[j] == u[j] by {}
    assert(f.subrange(p, p + nl.len()) =~= nl);
    assert(line_start(f, p)) by {
        if p > 0 {
            assert(f[p - 1] == u[p - 1]);
        }
    }
    lemma_name_line_at(f, p, n);
    reveal_strlit("CONFIG_GIF_PROFILE_NAME=\"");
    assert(nl[0] == 'C');
    assert(f[p] == nl[0]);
    assert forall|q: int| 0 <= q < p implies !#[trigger] pf(q) by {
        if name_value_at(f, q) {
            lemma_no_earlier_name(u, f, p, q);
            assert(pu(q));
        }
    }
    lemma_first_from_is(f.len() as int, pf, 0, p);
}

/// When `u` has no name line, the line that activation appends is the first
/// line that names a profile.
proof fn lemma_activate_appended(u: Seq<char>, n: Seq<char>)
    requires
        is_profile_name(n),
        find_defaults(DefaultsPat::NameAny, u) is None,
    ensures
        defaults_profile(u + "\n"@ + name_line(n) + "\n"@) == Some(n),
{
    lemma_name_lit_chars();
    lemma_name_line_chars(n);
    reveal_strlit("\n");
    let nl = name_line(n);
    let f = u + "\n"@ + nl + "\n"@;
    let pu = defaults_pred(DefaultsPat::NameAny, u);
    let pf = defaults_pred(DefaultsPat::NameValue, f);
    let m = (u.len() + 1) as int;
    assert(f.len() == m + nl.len() + 1);
    assert forall|j: int| 0 <= j < u.len() implies f[j] == u[j] by {}
    assert(f[u.len() as int] == '\n');
    assert(f.subrange(m, m + nl.len()) =~= nl);
    lemma_name_line_at(f, m, n);
    assert(pf(m));
    lemma_first_from(f.len() as int, pf, 0);
    let q0 = first_from(f.len() as int, pf, 0)->Some_0;
    assert(pf(q0));
    assert(q0 <= m);
    lemma_run_end(f, q0, Class::Space);
    let lq = lead(f, q0);
    reveal_strlit("CONFIG_GIF_PROFILE_NAME=\"");
    assert(nl[0] == 'C');
    assert(f[m] == nl[0]);
    assert(lq <= m) by {
        if lq > m {
            assert(is_space(f[m]));
        }
    }
    assert(lq == m) by {
        if lq < m {
            assert(lq != u.len()) by {
                if lq == u.len() {
                    assert(is_space(f[u.len() as int]));
                }
            }
            assert(lq + 23 <= u.len()) by {
                if lq + 23 > u.len() {
                    assert(f.subrange(lq, lq + 23)[u.len() - lq] == f[u.len() as int]);
                }
            }
            lemma_run_end(f, lq + 23, Class::Space);
            let qe = name_eq(f, q0);
            assert(f[qe] == '=');
            assert(qe < u.len()) by {
                if qe >= u.len() {
                    if qe == u.len() {
                        assert(f[qe] == '\n');
                    } else if qe > m {
                        assert(is_space(f[m]));
                    }
                }
            }
            lemma_name_any_prefix(u, f, u.len() as int, q0);
            lemma_first_from(u.len() as int, pu, 0);
            assert(pu(q0));
        }
    }
    lemma_name_val_by_lead(f, q0, m);
}

/// Activating a profile whose name detection can read, then detecting the
/// active profile, gives that profile.
pub proof fn law_activate_then_detect(d: Seq<char>, n: Seq<char>)
    requires
        is_profile_name(n),
    ensures
        defaults_profile(activated(d, n)) == Some(n),
{
    lemma_name_line_chars(n);
    let u = with_choice(d, n);
    let nl = name_line(n);
    match find_defaults(DefaultsPat::NameAny, u) {
        Some(p) => {
            let e = name_any_end(u, p);
            let pu = defaults_pred(DefaultsPat::NameAny, u);
            lemma_first_from(u.len() as int, pu, 0);
            lemma_expand_plain(nl, seq![u.subrange(p, e)]);
            assert(nl.subrange(0, nl.len() as int) =~= nl);
            lemma_activate_replaced(u, n, p);
        },
        None => {
            lemma_activate_appended(u, n);
        },
    }
}


// ----- rewriting the generated `sdkconfig` twice -----

/// Lines, each followed by a newline.
pub open spec fn join_lines(ls: Seq<Seq<char>>) -> Seq<char>
    decreases ls.len(),
{
    if ls.len() == 0 {
        Seq::empty()
    } else {
        ls[0] + "\n"@ + join_lines(ls.drop_first())
    }
}

/// A line that `str::lines` gives back whole: no newline in it, and no
/// carriage return at its end.
pub open spec fn plain_line(l: Seq<char>) -> bool {
    &&& no_newline(l)
    &&& !(l.len() > 0 && l.last() == '\r')
}

pub open spec fn no_newline(l: Seq<char>) -> bool {
    forall|k: int| 0 <= k < l.len() ==> #[trigger] l[k] != '\n'
}

/// Where the first profile symbol of a line is, if it has one.
pub open spec fn sym_pos(l: Seq<char>) -> Option<int> {
    first_from(trim_start(l).len() as int, sym_pred(trim_start(l)), 0)
}

/// A line that the rewrite keeps as it is.
pub open spec fn kept_line(l: Seq<char>) -> bool {
    !is_name_line(l) && sym_pos(l) is None
}

/// A symbol line whose symbol is `base`.
pub open spec fn selects(l: Seq<char>, base: Seq<char>) -> bool {
    !is_name_line(l) && (sym_pos(l) matches Some(p) && sym_short(trim_start(l), p) == base)
}

/// The rewritten line, without its newline.
pub open spec fn regen_body(line: Seq<char>, profile: Seq<char>, base: Seq<char>) -> Seq<char> {
    let t = trim_start(line);
    if is_name_line(line) {
        name_line(profile)
    } else {
        match first_from(t.len() as int, sym_pred(t), 0) {
            Some(p) => if sym_short(t, p) == base {
                prefix_lit() + base + eq_y_lit()
            } else {
                not_set_line(sym_short(t, p))
            },
            None => line,
        }
    }
}

pub open spec fn regen_bodies(ls: Seq<Seq<char>>, profile: Seq<char>, base: Seq<char>) -> Seq<
    Seq<char>,
>
    decreases ls.len(),
{
    if ls.len() == 0 {
        Seq::empty()
    } else {
        seq![regen_body(ls[0], profile, base)] + regen_bodies(ls.drop_first(), profile, base)
    }
}

proof fn lemma_sdk_literals()
    ensures
        name_lit().len() == 23,
        prefix_lit().len() == 19,
        eq_y_lit() == seq!['=', 'y'],
        name_lit() == prefix_lit() + "NAME"@,
        "NAME"@ == seq!['N', 'A', 'M', 'E'],
        prefix_lit()[0] == 'C',
        forall|k: int| 0 <= k < 19 ==> #[trigger] prefix_lit()[k] != '\n' && prefix_lit()[k] != '"'
            && is_name_char(prefix_lit()[k]),
        " is not set"@.len() == 11,
        " is not set"@[0] == ' ',
        " is not set"@.last() == 't',
        forall|k: int| 0 <= k < 11 ==> #[trigger] " is not set"@[k] != '\n',
        "# "@ == seq!['#', ' '],
        "\n"@ == seq!['\n'],
        "\""@ == seq!['"'],
        "CONFIG_GIF_PROFILE_NAME=\""@ == name_lit() + seq!['=', '"'],
        "=y\n"@ == eq_y_lit() + "\n"@,
        " is not set\n"@ == " is not set"@ + "\n"@,
{
    reveal_strlit("CONFIG_GIF_PROFILE_NAME");
    reveal_strlit("CONFIG_GIF_PROFILE_");
    reveal_strlit("=y");
    reveal_strlit("NAME");
    reveal_strlit(" is not set");
    reveal_strlit("# ");
    reveal_strlit("\n");
    reveal_strlit("\"");
    reveal_strlit("CONFIG_GIF_PROFILE_NAME=\"");
    reveal_strlit("=y\n");
    reveal_strlit(" is not set\n");
    assert(name_lit() =~= prefix_lit() + "NAME"@);
    assert("CONFIG_GIF_PROFILE_NAME=\""@ =~= name_lit() + seq!['=', '"']);
    assert("=y\n"@ =~= eq_y_lit() + "\n"@);
    assert(" is not set\n"@ =~= " is not set"@ + "\n"@);
    assert(eq_y_lit() =~= seq!['=', 'y']);
}

/// Each rewritten line is its body followed by a newline.
proof fn lemma_regen_line_body(line: Seq<char>, profile: Seq<char>, base: Seq<char>)
    ensures
        regenerated_line(line, profile, base) == regen_body(line, profile, base) + "\n"@,
{
    lemma_sdk_literals();
    let t = trim_start(line);
    if !is_name_line(line) {
        match first_from(t.len() as int, sym_pred(t), 0) {
            Some(p) => {
                if sym_short(t, p) == base {
                    assert(prefix_lit() + base + "=y\n"@ =~= prefix_lit() + base + eq_y_lit() + "\n"@);
                } else {
                    reveal(not_set_line);
                    assert("# "@ + prefix_lit() + sym_short(t, p) + " is not set\n"@ =~= "# "@
                        + prefix_lit() + sym_short(t, p) + " is not set"@ + "\n"@);
                }
            },
            None => {},
        }
    }
}

proof fn lemma_regen_lines_join(ls: Seq<Seq<char>>, profile: Seq<char>, base: Seq<char>)
    ensures
        regenerated_lines(ls, profile, base) == join_lines(regen_bodies(ls, profile, base)),
    decreases ls.len(),
{
    if ls.len() > 0 {
        lemma_regen_line_body(ls[0], profile, base);
        lemma_regen_lines_join(ls.drop_first(), profile, base);
        let bs = regen_bodies(ls, profile, base);
        assert(bs[0] == regen_body(ls[0], profile, base));
        assert(bs.drop_first() =~= regen_bodies(ls.drop_first(), profile, base));
    }
}

proof fn lemma_join_append(a: Seq<Seq<char>>, b: Seq<Seq<char>>)
    ensures
        join_lines(a + b) == join_lines(a) + join_lines(b),
    decreases a.len(),
{
    if a.len() == 0 {
        assert(a + b =~= b);
    } else {
        assert((a + b).drop_first() =~= a.drop_first() + b);
        lemma_join_append(a.drop_first(), b);
        assert((a + b)[0] == a[0]);
    }
}

proof fn lemma_first_nl_shift(a: Seq<char>, y: Seq<char>, i: int)
    requires
        0 <= i <= y.len(),
    ensures
        first_from((a + y).len() as int, nl_pred(a + y), a.len() + i) == match first_from(
            y.len() as int,
            nl_pred(y),
            i,
        ) {
            Some(j) => Some(a.len() + j),
            None => None::<int>,
        },
    decreases y.len() - i,
{
    if i < y.len() {
        assert((a + y)[a.len() + i] == y[i]);
        if y[i] != '\n' {
            lemma_first_nl_shift(a, y, i + 1);
        }
    }
}

proof fn lemma_line_end_shift(a: Seq<char>, y: Seq<char>, i: int)
    requires
        0 <= i <= y.len(),
    ensures
        line_end(a + y, a.len() + i) == a.len() + line_end(y, i),
{
    lemma_first_nl_shift(a, y, i);
}

/// `str::lines` of a text from a position after a prefix is `str::lines`
/// of the rest.
proof fn lemma_lines_shift(a: Seq<char>, y: Seq<char>, i: int)
    requires
        0 <= i,
    ensures
        lines_from(a + y, a.len() + i) == lines_from(y, i),
    decreases y.len() - i,
{
    let x = a + y;
    if i < y.len() {
        lemma_line_end_shift(a, y, i);
        lemma_first_from(y.len() as int, nl_pred(y), i);
        let j = line_end(y, i);
        assert(x.subrange(a.len() + i, a.len() + j) =~= y.subrange(i, j));
        assert(line_at(x, a.len() + i) == line_at(y, i));
        if j < y.len() {
            lemma_lines_shift(a, y, j + 1);
        }
    }
}

/// `str::lines` gives back lines joined with newlines.
proof fn lemma_lines_join(bs: Seq<Seq<char>>)
    requires
        forall|k: int| 0 <= k < bs.len() ==> plain_line(#[trigger] bs[k]),
    ensures
        lines(join_lines(bs)) == bs,
    decreases bs.len(),
{
    lemma_sdk_literals();
    if bs.len() == 0 {
        assert(lines(join_lines(bs)) =~= bs);
    } else {
        let b = bs[0];
        assert(plain_line(b));
        let rest = join_lines(bs.drop_first());
        let a = b + "\n"@;
        let x = join_lines(bs);
        assert(x == a + rest);
        assert(x.len() > 0);
        assert forall|k: int| 0 <= k < b.len() implies !#[trigger] nl_pred(x)(k) by {
            assert(x[k] == b[k]);
        }
        assert(nl_pred(x)(b.len() as int));
        lemma_first_from_is(x.len() as int, nl_pred(x), 0, b.len() as int);
        assert(line_end(x, 0) == b.len());
        assert(x.subrange(0, b.len() as int) =~= b);
        assert(line_at(x, 0) == b);
        assert forall|k: int| 0 <= k < bs.drop_first().len() implies plain_line(
            #[trigger] bs.drop_first()[k],
        ) by {
            assert(bs.drop_first()[k] == bs[k + 1]);
        }
        lemma_lines_join(bs.drop_first());
        lemma_lines_shift(a, rest, 0);
        assert(lines_from(x, 0) == seq![b] + lines_from(x, b.len() + 1int));
        assert(lines_from(x, 0) =~= bs);
    }
}

/// Every line that `str::lines` gives has no newline in it.
proof fn lemma_lines_no_nl(s: Seq<char>, i: int)
    requires
        0 <= i,
    ensures
        forall|k: int| 0 <= k < lines_from(s, i).len() ==> no_newline(#[trigger] lines_from(s, i)[k]),
    decreases s.len() - i,
{
    if i < s.len() {
        lemma_first_from(s.len() as int, nl_pred(s), i);
        let j = line_end(s, i);
        let l = line_at(s, i);
        assert forall|m: int| 0 <= m < l.len() implies l[m] != '\n' by {
            assert(l[m] == s[i + m]);
            assert(!nl_pred(s)(i + m));
        }
        if j < s.len() {
            lemma_lines_no_nl(s, j + 1);
            let ls = lines_from(s, i);
            assert forall|k: int| 0 <= k < ls.len() implies no_newline(#[trigger] ls[k]) by {
                if k > 0 {
                    assert(ls[k] == lines_from(s, j + 1)[k - 1]);
                }
            }
        }
    }
}

/// A text whose first character is not white space is its own
/// `trim_start`.
proof fn lemma_trim_none(t: Seq<char>)
    requires
        t.len() > 0,
        !is_space(t[0]),
    ensures
        trim_start(t) == t,
{
    assert(run_end(t, 0, Class::Space) == 0);
    assert(t.subrange(0, t.len() as int) =~= t);
}

/// The name line of a profile without newlines is a plain name line that
/// the rewrite keeps.
proof fn lemma_name_line_stable(n: Seq<char>, base: Seq<char>)
    requires
        no_newline(n),
    ensures
        plain_line(name_line(n)),
        is_name_line(name_line(n)),
        regen_body(name_line(n), n, base) == name_line(n),
{
    lemma_sdk_literals();
    let l = name_line(n);
    assert(l == name_lit() + seq!['=', '"'] + n + seq!['"']);
    assert forall|k: int| 0 <= k < l.len() implies #[trigger] l[k] != '\n' by {
        if k < 19 {
            assert(l[k] == prefix_lit()[k]);
        } else if 25 <= k < 25 + n.len() {
            assert(l[k] == n[k - 25]);
        }
    }
    assert(l[0] == 'C');
    lemma_trim_none(l);
    assert(l.subrange(0, 23) =~= name_lit());
}

/// The line that selects the base reads back as itself.
#[verifier::spinoff_prover]
proof fn lemma_select_body(base: Seq<char>)
    requires
        base.len() > 0,
        forall|k: int| 0 <= k < base.len() ==> is_name_char(#[trigger] base[k]),
        !seq_at(base, 0, "NAME"@),
    ensures
        ({
            let b = prefix_lit() + base + eq_y_lit();
            &&& plain_line(b)
            &&& !is_name_line(b)
            &&& forall|n: Seq<char>| #[trigger] regen_body(b, n, base) == b
        }),
{
    lemma_sdk_literals();
    let b = prefix_lit() + base + eq_y_lit();
    let bl = b.len() as int;
    let m = 19 + base.len() as int;
    assert(bl == m + 2);
    assert forall|k: int| 0 <= k < bl implies #[trigger] b[k] != '\n' by {
        if k < 19 {
            assert(b[k] == prefix_lit()[k]);
        } else if k < m {
            assert(b[k] == base[k - 19]);
        }
    }
    assert(b.last() == 'y');
    assert(b[0] == 'C');
    lemma_trim_none(b);
    assert(!seq_at(b, 0, name_lit())) by {
        if seq_at(b, 0, name_lit()) {
            assert forall|k: int| 0 <= k < 4 implies b[19 + k] == #[trigger] "NAME"@[k] by {
                assert(b.subrange(0, 23)[19 + k] == b[19 + k]);
                assert(name_lit()[19 + k] == "NAME"@[k]);
            }
            if base.len() < 4 {
                assert(b[m] == '=');
                assert("NAME"@[base.len() as int] != '=');
            } else {
                assert(base.subrange(0, 4) =~= "NAME"@) by {
                    assert forall|k: int| 0 <= k < 4 implies #[trigger] base.subrange(0, 4)[k]
                        == "NAME"@[k] by {
                        assert(b[19 + k] == base[k]);
                    }
                }
            }
        }
    }
    assert(b.subrange(0, 19) =~= prefix_lit());
    assert(b[19] == base[0]);
    assert(sym_pred(b)(0));
    lemma_first_from_is(b.len() as int, sym_pred(b), 0, 0);
    assert forall|k: int| 19 <= k < m implies in_class(Class::Name, #[trigger] b[k]) by {
        assert(b[k] == base[k - 19]);
    }
    assert(b[m] == '=');
    lemma_run_exact(b, 19, m, Class::Name);
    assert(b.subrange(19, m) =~= base);
}

/// The line saying that the symbol `x` is not set.
#[verifier::opaque]
pub open spec fn not_set_line(x: Seq<char>) -> Seq<char> {
    "# "@ + prefix_lit() + x + " is not set"@
}

#[verifier::spinoff_prover]
proof fn lemma_not_set_chars(x: Seq<char>)
    requires
        x.len() > 0,
        forall|k: int| 0 <= k < x.len() ==> is_name_char(#[trigger] x[k]),
    ensures
        ({
            let b = not_set_line(x);
            let m = 21 + x.len() as int;
            &&& b.len() == m + 11
            &&& plain_line(b)
            &&& b[0] == '#'
            &&& b[1] == ' '
            &&& b.subrange(2, 21) == prefix_lit()
            &&& forall|k: int| 21 <= k < m ==> #[trigger] b[k] == x[k - 21]
            &&& b[m] == ' '
        }),
{
    lemma_sdk_literals();
    reveal(not_set_line);
    let b = not_set_line(x);
    let m = 21 + x.len() as int;
    assert forall|k: int| 0 <= k < b.len() implies #[trigger] b[k] != '\n' by {
        if 2 <= k < 21 {
            assert(b[k] == prefix_lit()[k - 2]);
        } else if 21 <= k < m {
            assert(b[k] == x[k - 21]);
        } else if k >= m {
            assert(b[k] == " is not set"@[k - m]);
        }
    }
    assert(b.last() == " is not set"@.last());
    assert(b.subrange(2, 21) =~= prefix_lit());
    assert(b[m] == " is not set"@[0]);
}

/// A line saying that a symbol is not set reads back as itself.
#[verifier::spinoff_prover]
proof fn lemma_not_set_body(x: Seq<char>, base: Seq<char>)
    requires
        x.len() > 0,
        forall|k: int| 0 <= k < x.len() ==> is_name_char(#[trigger] x[k]),
        x != base,
    ensures
        plain_line(not_set_line(x)),
        !is_name_line(not_set_line(x)),
        forall|n: Seq<char>| #[trigger] regen_body(not_set_line(x), n, base) == not_set_line(x),
{
    lemma_not_set_chars(x);
    reveal_strlit("CONFIG_GIF_PROFILE_NAME");
    reveal_strlit("CONFIG_GIF_PROFILE_");
    let b = not_set_line(x);
    let m = 21 + x.len() as int;
    lemma_trim_none(b);
    assert(!seq_at(b, 0, name_lit())) by {
        if seq_at(b, 0, name_lit()) {
            assert(b.subrange(0, 23)[0] == b[0]);
        }
    }
    assert(b[21] == x[0]);
    assert(!sym_pred(b)(0)) by {
        if sym_at(b, 0) {
            assert(b.subrange(0, 19)[0] == b[0]);
        }
    }
    assert(!sym_pred(b)(1)) by {
        if sym_at(b, 1) {
            assert(b.subrange(1, 20)[0] == b[1]);
        }
    }
    assert(sym_pred(b)(2));
    lemma_first_from_is(b.len() as int, sym_pred(b), 0, 2);
    assert forall|k: int| 21 <= k < m implies in_class(Class::Name, #[trigger] b[k]) by {
        assert(b[k] == x[k - 21]);
    }
    lemma_run_exact(b, 21, m, Class::Name);
    assert(b.subrange(21, m) =~= x);
}

/// The bodies of the rewrite are plain lines that a second rewrite keeps,
/// with the same kind.
proof fn lemma_body_stable(l: Seq<char>, n: Seq<char>, base: Seq<char>)
    requires
        no_newline(l),
        no_newline(n),
        kept_line(l) ==> plain_line(l),
        selects(l, base) ==> !seq_at(base, 0, "NAME"@),
    ensures
        plain_line(regen_body(l, n, base)),
        regen_body(regen_body(l, n, base), n, base) == regen_body(l, n, base),
        is_name_line(regen_body(l, n, base)) == is_name_line(l),
{
    lemma_sdk_literals();
    lemma_name_line_stable(n, base);
    let t = trim_start(l);
    if !is_name_line(l) {
        match sym_pos(l) {
            None => {},
            Some(p) => {
                lemma_first_from(t.len() as int, sym_pred(t), 0);
                assert(sym_at(t, p));
                lemma_run_end(t, p + 19, Class::Name);
                let x = sym_short(t, p);
                assert(x.len() > 0);
                assert forall|k: int| 0 <= k < x.len() implies is_name_char(#[trigger] x[k]) by {
                    assert(x[k] == t[p + 19 + k]);
                }
                if x == base {
                    lemma_select_body(base);
                } else {
                    lemma_not_set_body(x, base);
                }
            },
        }
    }
}

proof fn lemma_bodies_index(ls: Seq<Seq<char>>, n: Seq<char>, base: Seq<char>)
    ensures
        regen_bodies(ls, n, base).len() == ls.len(),
        forall|k: int| 0 <= k < ls.len() ==> #[trigger] regen_bodies(ls, n, base)[k] == regen_body(
            ls[k],
            n,
            base,
        ),
    decreases ls.len(),
{
    if ls.len() > 0 {
        lemma_bodies_index(ls.drop_first(), n, base);
        assert forall|k: int| 0 <= k < ls.len() implies #[trigger] regen_bodies(ls, n, base)[k]
            == regen_body(ls[k], n, base) by {
            if k > 0 {
                assert(ls.drop_first()[k - 1] == ls[k]);
            }
        }
    }
}

proof fn lemma_any_name_line(ls: Seq<Seq<char>>)
    ensures
        any_name_line(ls) == exists|k: int| 0 <= k < ls.len() && is_name_line(#[trigger] ls[k]),
    decreases ls.len(),
{
    if ls.len() > 0 {
        lemma_any_name_line(ls.drop_first());
        if any_name_line(ls.drop_first()) {
            let k = choose|k: int| 0 <= k < ls.drop_first().len() && is_name_line(#[trigger] ls.drop_first()[k]);
            assert(is_name_line(ls[k + 1]));
        }
        if exists|k: int| 0 <= k < ls.len() && is_name_line(#[trigger] ls[k]) {
            let k = choose|k: int| 0 <= k < ls.len() && is_name_line(#[trigger] ls[k]);
            if k > 0 {
                assert(ls.drop_first()[k - 1] == ls[k]);
            }
        }
    }
}

/// Bringing the generated `sdkconfig` in line with a profile a second time
/// changes nothing. Left out: a profile name with a newline, a kept line
/// ending in a carriage return (`str::lines` drops it the second time), and
/// a base whose upper-cased name starts with `NAME` while a symbol line
/// selects it (its line becomes a name line the second time).
pub proof fn law_sync_twice_unchanged(s: Seq<char>, n: Seq<char>)
    requires
        no_newline(n),
        forall|k: int| 0 <= k < lines(s).len() && kept_line(#[trigger] lines(s)[k]) ==> plain_line(
            lines(s)[k],
        ),
        forall|k: int|
            0 <= k < lines(s).len() && selects(
                #[trigger] lines(s)[k],
                uppercase(spec_base_of(n)),
            ) ==> !seq_at(uppercase(spec_base_of(n)), 0, "NAME"@),
    ensures
        generated(generated(s, n), n) == generated(s, n),
{
    let base = uppercase(spec_base_of(n));
    let ls = lines(s);
    let bs = regen_bodies(ls, n, base);
    let extra: Seq<Seq<char>> = if any_name_line(ls) {
        Seq::empty()
    } else {
        seq![name_line(n)]
    };
    lemma_sdk_literals();
    lemma_name_line_stable(n, base);
    lemma_lines_no_nl(s, 0);
    lemma_bodies_index(ls, n, base);
    let all = bs + extra;
    assert forall|k: int| 0 <= k < all.len() implies plain_line(#[trigger] all[k]) && regen_body(
        all[k],
        n,
        base,
    ) == all[k] by {
        if k < bs.len() {
            assert(all[k] == bs[k]);
            lemma_body_stable(ls[k], n, base);
        } else {
            assert(all[k] == name_line(n));
        }
    }
    // the first rewrite is the bodies and the extra name line, joined
    lemma_regen_lines_join(ls, n, base);
    lemma_join_append(bs, extra);
    let g = generated(s, n);
    assert(join_lines(extra) == if any_name_line(ls) {
        Seq::<char>::empty()
    } else {
        name_line(n) + "\n"@
    }) by {
        if !any_name_line(ls) {
            assert(extra.drop_first() =~= Seq::<Seq<char>>::empty());
            assert(join_lines(extra.drop_first()) =~= Seq::<char>::empty());
            assert(extra[0] == name_line(n));
            assert(join_lines(extra) =~= name_line(n) + "\n"@ + Seq::<char>::empty());
        } else {
            assert(join_lines(extra) =~= Seq::<char>::empty());
        }
    }
    assert(g == join_lines(all));
    lemma_lines_join(all);
    assert(lines(g) == all);
    // the second rewrite keeps every line
    lemma_bodies_index(all, n, base);
    assert(regen_bodies(all, n, base) =~= all);
    lemma_regen_lines_join(all, n, base);
    // and adds no name line
    lemma_any_name_line(ls);
    lemma_any_name_line(all);
    if any_name_line(ls) {
        let k = choose|k: int| 0 <= k < ls.len() && is_name_line(#[trigger] ls[k]);
        lemma_body_stable(ls[k], n, base);
        assert(all[k] == bs[k]);
        assert(is_name_line(all[k]));
    } else {
        assert(all[bs.len() as int] == name_line(n));
        assert(is_name_line(all[bs.len() as int]));
    }
}


// ----- activating a profile writes its name and its base's choice -----

/// A choice line for the word `b` placed at a line start `p` matches there
/// and reads `b`.
proof fn lemma_choice_line_at(x: Seq<char>, p: int, b: Seq<char>)
    requires
        0 <= p,
        p + 21 + b.len() <= x.len(),
        x.subrange(p, p + 21 + b.len()) == prefix_lit() + b + eq_y_lit(),
        line_start(x, p),
        b.len() > 0,
        all_word(b),
    ensures
        choice_at(x, p),
        choice_word(x, p) == p + 19,
        choice_word_end(x, p) == p + 19 + b.len(),
        x.subrange(choice_word(x, p), choice_word_end(x, p)) == b,
{
    lemma_sdk_literals();
    let cl = prefix_lit() + b + eq_y_lit();
    let m = p + 19 + b.len();
    assert forall|k: int| 0 <= k < cl.len() implies #[trigger] x[p + k] == cl[k] by {
        assert(x.subrange(p, p + 21 + b.len())[k] == x[p + k]);
    }
    assert(x[p + 0] == cl[0]);
    assert(!is_space(x[p]));
    assert(lead(x, p) == p);
    assert(x.subrange(p, p + 19) =~= prefix_lit());
    assert forall|k: int| p + 19 <= k < m implies in_class(Class::Word, #[trigger] x[k]) by {
        assert(x[p + (k - p)] == cl[k - p]);
        assert(cl[k - p] == b[k - p - 19]);
    }
    assert(x[p + (19 + b.len())] == cl[19 + b.len() as int]);
    assert(x[m] == '=');
    lemma_run_exact(x, p + 19, m, Class::Word);
    assert(x[p + (20 + b.len())] == cl[20 + b.len() as int]);
    assert(x.subrange(m, m + 2) =~= eq_y_lit());
    assert(x.subrange(p + 19, m) =~= b) by {
        assert forall|k: int| 0 <= k < b.len() implies #[trigger] x.subrange(p + 19, m)[k] == b[k] by {
            assert(x[p + (19 + k)] == cl[19 + k]);
        }
    }
}

/// A choice match in `x` before a line start `k` that `x` shares with `y`,
/// whose white space does not run up to `k`, is a choice match of `y`.
proof fn lemma_choice_agree(x: Seq<char>, y: Seq<char>, k: int, r: int)
    requires
        0 <= r < k < x.len(),
        k <= y.len(),
        forall|j: int| 0 <= j < k ==> x[j] == y[j],
        x[k - 1] == '\n',
        !is_space(x[k]),
        choice_at(x, r),
        lead(x, r) != k,
    ensures
        choice_at(y, r),
{
    lemma_sdk_literals();
    lemma_run_end(x, r, Class::Space);
    let l = lead(x, r);
    assert(l < k) by {
        if l > k {
            assert(is_space(x[k]));
        }
    }
    assert(l + 19 <= k - 1) by {
        if l + 19 > k - 1 {
            assert(x.subrange(l, l + 19)[k - 1 - l] == x[k - 1]);
        }
    }
    let wb = l + 19;
    lemma_run_end(x, wb, Class::Word);
    let we = run_end(x, wb, Class::Word);
    assert(x.subrange(we, we + 2) == eq_y_lit());
    assert(x.subrange(we, we + 2)[0] == x[we]);
    assert(x.subrange(we, we + 2)[1] == x[we + 1]);
    assert(we + 2 <= k - 1) by {
        if we > k - 1 {
            assert(is_word(x[k - 1]));
        }
    }
    if r > 0 {
        assert(x[r - 1] == y[r - 1]);
    }
    assert(x[l] == y[l]);
    lemma_run_agree(x, y, r, l, Class::Space);
    assert(y.subrange(l, l + 19) =~= x.subrange(l, l + 19));
    assert(x[we] == y[we]);
    lemma_run_agree(x, y, wb, we, Class::Word);
    assert(y.subrange(we, we + 2) =~= x.subrange(we, we + 2));
}

/// No choice match starts before the first choice line `p` of `d` in a text
/// that agrees with `d` before `p` and has a `C` at `p`.
proof fn lemma_no_choice_before(x: Seq<char>, d: Seq<char>, p: int)
    requires
        find_defaults(DefaultsPat::Choice, d) == Some(p),
        p < x.len(),
        forall|j: int| 0 <= j < p ==> x[j] == d[j],
        x[p] == 'C',
    ensures
        forall|r: int| 0 <= r < p ==> !#[trigger] choice_at(x, r),
{
    lemma_sdk_literals();
    let pd = defaults_pred(DefaultsPat::Choice, d);
    lemma_first_from(d.len() as int, pd, 0);
    assert(pd(p));
    assert forall|r: int| 0 <= r < p implies !#[trigger] choice_at(x, r) by {
        if choice_at(x, r) {
            assert(d[p - 1] == '\n');
            assert(x[p - 1] == '\n');
            if lead(x, r) == p {
                lemma_run_end(x, r, Class::Space);
                assert forall|j: int| r <= j < p implies in_class(Class::Space, #[trigger] d[j]) by {
                    assert(x[j] == d[j]);
                }
                lemma_run_same(d, r, p, Class::Space);
                if r > 0 {
                    assert(x[r - 1] == d[r - 1]);
                }
                assert(choice_at(d, r));
                assert(pd(r));
            } else {
                lemma_choice_agree(x, d, p, r);
                assert(pd(r));
            }
        }
    }
}

/// A choice match looks back only at the character before it.
proof fn lemma_choice_shift(a: Seq<char>, y: Seq<char>, j: int)
    requires
        1 <= j,
    ensures
        choice_at(a + y, a.len() + j) == choice_at(y, j),
{
    lemma_sdk_literals();
    let x = a + y;
    let i = a.len() + j;
    if j <= y.len() {
        assert(x[i - 1] == y[j - 1]);
        lemma_run_shift(a, y, j, Class::Space);
        let l = lead(y, j);
        lemma_run_end(y, j, Class::Space);
        if l + 19 <= y.len() {
            assert(x.subrange(a.len() + l, a.len() + l + 19) =~= y.subrange(l, l + 19));
            lemma_run_shift(a, y, l + 19, Class::Word);
            let we = run_end(y, l + 19, Class::Word);
            lemma_run_end(y, l + 19, Class::Word);
            if we + 2 <= y.len() {
                assert(x.subrange(a.len() + we, a.len() + we + 2) =~= y.subrange(we, we + 2));
            }
        }
    }
}

/// The name line of a profile without `$` is inserted as it is.
proof fn lemma_name_line_plain(n: Seq<char>)
    requires
        forall|k: int| 0 <= k < n.len() ==> #[trigger] n[k] != '$',
        no_newline(n),
    ensures
        forall|g: Seq<Seq<char>>| #[trigger] expand(name_line(n), g) == name_line(n),
        no_newline(name_line(n)),
        name_line(n).len() == 26 + n.len(),
        name_line(n)[0] == 'C',
        name_line(n)[23] == '=',
        name_line(n)[24] == '"',
        name_line(n).last() == '"',
        name_line(n).subrange(0, 23) == name_lit(),
{
    lemma_sdk_literals();
    lemma_name_line_stable(n, Seq::empty());
    let l = name_line(n);
    assert(l == name_lit() + seq!['=', '"'] + n + seq!['"']);
    assert forall|k: int| 0 <= k < l.len() implies l[k] != '$' by {
        if k < 19 {
            assert(l[k] == prefix_lit()[k]);
        } else if 19 <= k < 23 {
            assert(l[k] == "NAME"@[k - 19]);
        } else if 25 <= k < 25 + n.len() {
            assert(l[k] == n[k - 25]);
        }
    }
    assert forall|g: Seq<Seq<char>>| #[trigger] expand(l, g) == l by {
        lemma_expand_plain(l, g);
        assert(l.subrange(0, l.len() as int) =~= l);
    }
    assert(l.subrange(0, 23) =~= name_lit());
}

/// The first choice line of `d`, replaced by the choice line of the base
/// `b`, is the first choice line of the result.
proof fn lemma_with_choice_first(d: Seq<char>, profile: Seq<char>)
    requires
        find_defaults(DefaultsPat::Choice, d) is Some,
        uppercase(spec_base_of(profile)).len() > 0,
        all_word(uppercase(spec_base_of(profile))),
    ensures
        ({
            let p = find_defaults(DefaultsPat::Choice, d)->Some_0;
            let b = uppercase(spec_base_of(profile));
            let cl = choice_line(profile);
            let e = choice_end(d, p);
            let u = with_choice(d, profile);
            &&& u == d.subrange(0, p) + cl + d.subrange(e, d.len() as int)
            &&& cl == prefix_lit() + b + eq_y_lit()
            &&& p <= e <= d.len()
            &&& find_defaults(DefaultsPat::Choice, u) == Some(p)
            &&& line_start(u, p)
        }),
{
    lemma_sdk_literals();
    let p = find_defaults(DefaultsPat::Choice, d)->Some_0;
    let b = uppercase(spec_base_of(profile));
    let cl = choice_line(profile);
    let pd = defaults_pred(DefaultsPat::Choice, d);
    lemma_first_from(d.len() as int, pd, 0);
    assert(pd(p));
    let e = choice_end(d, p);
    lemma_run_end(d, p, Class::Space);
    lemma_run_end(d, choice_word(d, p), Class::Word);
    assert forall|k: int| 0 <= k < cl.len() implies cl[k] != '$' by {
        if k < 19 {
            assert(cl[k] == prefix_lit()[k]);
        } else if k < 19 + b.len() {
            assert(cl[k] == b[k - 19]);
            assert(is_word(b[k - 19]));
        }
    }
    let g = seq![d.subrange(p, e)];
    lemma_expand_plain(cl, g);
    assert(cl.subrange(0, cl.len() as int) =~= cl);
    let u = with_choice(d, profile);
    assert(u == d.subrange(0, p) + cl + d.subrange(e, d.len() as int));
    assert(u.subrange(p, p + 21 + b.len()) =~= cl);
    assert(line_start(u, p)) by {
        if p > 0 {
            assert(u[p - 1] == d[p - 1]);
        }
    }
    lemma_choice_line_at(u, p, b);
    assert(u[p] == cl[0]);
    assert forall|j: int| 0 <= j < p implies u[j] == d[j] by {}
    lemma_no_choice_before(u, d, p);
    let pu = defaults_pred(DefaultsPat::Choice, u);
    assert forall|r: int| 0 <= r < p implies !#[trigger] pu(r) by {
        assert(!choice_at(u, r));
    }
    assert(pu(p));
    lemma_first_from_is(u.len() as int, pu, 0, p);
}

/// Where the first name line of the activated text stands relative to its
/// choice line: before it, ending before its line, or after it.
proof fn lemma_name_around_choice(u: Seq<char>, p: int, b: Seq<char>, q: int)
    requires
        0 <= p,
        p + 21 + b.len() <= u.len(),
        u.subrange(p, p + 21 + b.len()) == prefix_lit() + b + eq_y_lit(),
        line_start(u, p),
        b.len() > 0,
        all_word(b),
        b != "NAME"@,
        name_any_at(u, q),
        0 <= q,
    ensures
        (q < p && name_any_end(u, q) <= p - 1) || q > p + 21 + b.len(),
{
    lemma_sdk_literals();
    let cl = prefix_lit() + b + eq_y_lit();
    let ce = p + 21 + b.len();
    assert forall|k: int| 0 <= k < cl.len() implies #[trigger] u[p + k] == cl[k] by {
        assert(u.subrange(p, ce)[k] == u[p + k]);
    }
    assert forall|k: int| 0 <= k < cl.len() implies #[trigger] cl[k] != '\n' by {
        if k < 19 {
            assert(cl[k] == prefix_lit()[k]);
        } else if k < 19 + b.len() {
            assert(cl[k] == b[k - 19]);
            assert(is_word(b[k - 19]));
        }
    }
    assert(u[p + 0] == cl[0]);
    lemma_run_end(u, q, Class::Space);
    let lq = lead(u, q);
    if p < q <= ce {
        assert(u[p + (q - 1 - p)] == cl[q - 1 - p]);
    } else if q <= p {
        assert(lq <= p) by {
            if lq > p {
                assert(is_space(u[p]));
            }
        }
        assert(lq != p) by {
            if lq == p {
                assert(u.subrange(p, p + 23) == name_lit());
                assert forall|k: int| 0 <= k < 4 implies u[p + 19 + k] == #[trigger] "NAME"@[k] by {
                    assert(u.subrange(p, p + 23)[19 + k] == u[p + 19 + k]);
                    assert(name_lit()[19 + k] == "NAME"@[k]);
                }
                if b.len() < 4 {
                    assert(u[p + (19 + b.len())] == cl[19 + b.len() as int]);
                } else {
                    lemma_run_end(u, p + 23, Class::Space);
                    let ne = name_eq(u, q);
                    if b.len() > 4 {
                        assert(u[p + 23] == cl[23]);
                        assert(cl[23] == b[4]);
                        assert(is_word(b[4]));
                        assert(ne == p + 23);
                    } else {
                        assert(b =~= "NAME"@) by {
                            assert forall|k: int| 0 <= k < 4 implies #[trigger] b[k] == "NAME"@[k] by {
                                assert(u[p + (19 + k)] == cl[19 + k]);
                            }
                        }
                    }
                }
            }
        }
        assert(q < p);
        assert(u[p - 1] == '\n');
        assert(lq + 23 <= p - 1) by {
            if lq + 23 > p - 1 {
                assert(u.subrange(lq, lq + 23)[p - 1 - lq] == u[p - 1]);
            }
        }
        lemma_run_end(u, lq + 23, Class::Space);
        let ne = name_eq(u, q);
        assert(ne < p - 1) by {
            if ne > p {
                assert(is_space(u[p]));
            }
        }
        lemma_first_from(u.len() as int, nl_pred(u), ne + 1);
        assert(nl_pred(u)(p - 1));
    }
}

/// The defaults have a name line that ends before their first choice line.
pub open spec fn name_line_first(d: Seq<char>) -> bool {
    find_defaults(DefaultsPat::NameAny, d) matches Some(q0) && name_any_end(d, q0)
        < find_defaults(DefaultsPat::Choice, d)->Some_0
}

pub open spec fn activation_ok(d: Seq<char>, profile: Seq<char>) -> bool {
    &&& find_defaults(DefaultsPat::Choice, d) is Some
    &&& forall|k: int| 0 <= k < profile.len() ==> #[trigger] profile[k] != '$'
    &&& no_newline(profile)
    &&& uppercase(spec_base_of(profile)).len() > 0
    &&& all_word(uppercase(spec_base_of(profile)))
}

/// The choice line kept at `p`, after the inserted name line or with the
/// name line after it: it is the first choice line.
proof fn lemma_choice_kept(d: Seq<char>, profile: Seq<char>, f: Seq<char>)
    requires
        activation_ok(d, profile),
        ({
            let p = find_defaults(DefaultsPat::Choice, d)->Some_0;
            let u = with_choice(d, profile);
            let cll = 21 + uppercase(spec_base_of(profile)).len();
            &&& p + cll <= f.len()
            &&& forall|j: int| 0 <= j < p + cll ==> f[j] == u[j]
        }),
    ensures
        find_defaults(DefaultsPat::Choice, f) matches Some(r) && f.subrange(
            choice_word(f, r),
            choice_word_end(f, r),
        ) == uppercase(spec_base_of(profile)),
{
    lemma_sdk_literals();
    lemma_with_choice_first(d, profile);
    let p = find_defaults(DefaultsPat::Choice, d)->Some_0;
    let b = uppercase(spec_base_of(profile));
    let cl = choice_line(profile);
    let cll = 21 + b.len();
    let u = with_choice(d, profile);
    assert(f.subrange(p, p + cll) =~= cl) by {
        assert forall|k: int| 0 <= k < cll implies #[trigger] f.subrange(p, p + cll)[k] == cl[k] by {
            assert(f[p + k] == u[p + k]);
        }
    }
    assert(line_start(f, p)) by {
        if p > 0 {
            assert(f[p - 1] == u[p - 1]);
        }
    }
    lemma_choice_line_at(f, p, b);
    assert forall|j: int| 0 <= j < p implies f[j] == d[j] by {
        assert(f[j] == u[j]);
    }
    assert(f[p] == cl[0]);
    lemma_no_choice_before(f, d, p);
    let pf = defaults_pred(DefaultsPat::Choice, f);
    assert forall|r: int| 0 <= r < p implies !#[trigger] pf(r) by {
        assert(!choice_at(f, r));
    }
    assert(pf(p));
    lemma_first_from_is(f.len() as int, pf, 0, p);
}

/// No choice match starts at the inserted name line.
proof fn lemma_name_line_no_choice(f: Seq<char>, q: int, profile: Seq<char>)
    requires
        0 <= q,
        forall|k: int| 0 <= k < profile.len() ==> #[trigger] profile[k] != '$',
        no_newline(profile),
        q + name_line(profile).len() <= f.len(),
        f.subrange(q, q + name_line(profile).len()) == name_line(profile),
    ensures
        !choice_at(f, q),
{
    lemma_sdk_literals();
    lemma_name_line_plain(profile);
    let nl = name_line(profile);
    assert forall|k: int| 0 <= k < nl.len() implies #[trigger] f[q + k] == nl[k] by {
        assert(f.subrange(q, q + nl.len())[k] == f[q + k]);
    }
    assert(f[q + 0] == nl[0]);
    assert(lead(f, q) == q);
    lemma_run_end(f, q + 19, Class::Word);
    assert forall|k: int| q + 19 <= k < q + 23 implies in_class(Class::Word, #[trigger] f[k]) by {
        assert(f[q + (k - q)] == nl[k - q]);
        assert(nl.subrange(0, 23)[k - q] == nl[k - q]);
        assert(name_lit()[k - q] == "NAME"@[k - q - 19]);
    }
    assert(f[q + 23] == nl[23]);
    assert(f[q + 24] == nl[24]);
    lemma_run_exact(f, q + 19, q + 23, Class::Word);
    assert(f.subrange(q + 23, q + 25)[1] == f[q + 24]);
}

/// In a text whose first name line (at `q`, ending before the line of its
/// first choice match `p`) is replaced by the name line of `profile`, no
/// choice match starts before the shifted `p`.
#[verifier::spinoff_prover]
proof fn lemma_no_choice_in_rewritten(u: Seq<char>, q: int, ne: int, p: int, profile: Seq<char>, r: int)
    requires
        0 <= q <= ne,
        ne <= p - 1,
        p <= u.len(),
        line_start(u, q),
        forall|j: int| 0 <= j < p ==> !#[trigger] choice_at(u, j),
        forall|k: int| 0 <= k < profile.len() ==> #[trigger] profile[k] != '$',
        no_newline(profile),
        0 <= r < p + (q + name_line(profile).len() - ne),
    ensures
        !choice_at(u.subrange(0, q) + name_line(profile) + u.subrange(ne, u.len() as int), r),
{
    lemma_sdk_literals();
    lemma_name_line_plain(profile);
    let nl = name_line(profile);
    let a = u.subrange(0, q) + nl;
    let rest = u.subrange(ne, u.len() as int);
    let f = a + rest;
    assert(u.subrange(0, q) + nl + rest == f);
    assert(f.subrange(q, q + nl.len()) =~= nl);
    if choice_at(f, r) {
        if r < q {
            assert(u[q - 1] == '\n');
            assert(f[q - 1] == u[q - 1]);
            assert(f[q] == nl[0]);
            if lead(f, r) == q {
                lemma_run_end(f, r, Class::Space);
                lemma_name_line_no_choice(f, q, profile);
                assert(choice_at(f, q));
            } else {
                assert forall|j: int| 0 <= j < q implies f[j] == u[j] by {}
                lemma_choice_agree(f, u, q, r);
            }
        } else if r == q {
            lemma_name_line_no_choice(f, q, profile);
        } else if r <= a.len() {
            assert(f[r - 1] == nl[r - 1 - q]);
        } else {
            lemma_choice_shift(a, rest, r - a.len());
            let ur = u.subrange(0, ne);
            assert(ur + rest =~= u);
            lemma_choice_shift(ur, rest, r - a.len());
            assert(choice_at(u, ne + (r - a.len())));
        }
    }
}

/// When the first name line of `u` comes before its choice line, the
/// choice line is still the first one after the name line is rewritten.
#[verifier::spinoff_prover]
proof fn lemma_choice_after_name(d: Seq<char>, profile: Seq<char>, q: int)
    requires
        activation_ok(d, profile),
        find_defaults(DefaultsPat::NameAny, with_choice(d, profile)) == Some(q),
        q < find_defaults(DefaultsPat::Choice, d)->Some_0,
        name_any_end(with_choice(d, profile), q) <= find_defaults(DefaultsPat::Choice, d)->Some_0
            - 1,
    ensures
        find_defaults(DefaultsPat::Choice, activated(d, profile)) matches Some(r) && activated(
            d,
            profile,
        ).subrange(
            choice_word(activated(d, profile), r),
            choice_word_end(activated(d, profile), r),
        ) == uppercase(spec_base_of(profile)),
{
    lemma_sdk_literals();
    lemma_with_choice_first(d, profile);
    lemma_name_line_plain(profile);
    let p = find_defaults(DefaultsPat::Choice, d)->Some_0;
    let b = uppercase(spec_base_of(profile));
    let cl = choice_line(profile);
    let cll = 21 + b.len();
    let u = with_choice(d, profile);
    let nl = name_line(profile);
    let f = activated(d, profile);
    let pu = defaults_pred(DefaultsPat::Choice, u);
    lemma_first_from(u.len() as int, pu, 0);
    let pn = defaults_pred(DefaultsPat::NameAny, u);
    lemma_first_from(u.len() as int, pn, 0);
    assert(pn(q));
    let ne = name_any_end(u, q);
    assert(q <= ne) by {
        lemma_run_end(u, q, Class::Space);
        lemma_run_end(u, lead(u, q) + 23, Class::Space);
        lemma_first_from(u.len() as int, nl_pred(u), name_eq(u, q) + 1);
    }
    let a = u.subrange(0, q) + nl;
    let rest = u.subrange(ne, u.len() as int);
    assert(f == a + rest);
    let shift = a.len() - ne;
    let p2 = p + shift;
    assert(f.subrange(p2, p2 + cll) =~= u.subrange(p, p + cll));
    assert(u.subrange(p, p + cll) =~= cl);
    assert(f[p2 - 1] == u[p - 1]);
    assert(u[p - 1] == '\n');
    lemma_choice_line_at(f, p2, b);
    let pf = defaults_pred(DefaultsPat::Choice, f);
    assert(line_start(u, q));
    assert forall|j: int| 0 <= j < p implies !#[trigger] choice_at(u, j) by {
        assert(!pu(j));
    }
    assert forall|r: int| 0 <= r < p2 implies !#[trigger] pf(r) by {
        lemma_no_choice_in_rewritten(u, q, ne, p, profile, r);
    }
    assert(pf(p2));
    lemma_first_from_is(f.len() as int, pf, 0, p2);
}

/// A name line of the defaults that ends before their first choice line is
/// still the first name line once that choice line is rewritten.
#[verifier::spinoff_prover]
proof fn lemma_first_name_kept(d: Seq<char>, profile: Seq<char>, q0: int)
    requires
        activation_ok(d, profile),
        find_defaults(DefaultsPat::NameAny, d) == Some(q0),
        name_any_end(d, q0) < find_defaults(DefaultsPat::Choice, d)->Some_0,
    ensures
        find_defaults(DefaultsPat::NameAny, with_choice(d, profile)) == Some(q0),
        name_any_end(with_choice(d, profile), q0) == name_any_end(d, q0),
{
    lemma_sdk_literals();
    lemma_with_choice_first(d, profile);
    let p = find_defaults(DefaultsPat::Choice, d)->Some_0;
    let b = uppercase(spec_base_of(profile));
    let cl = choice_line(profile);
    let u = with_choice(d, profile);
    let pdn = defaults_pred(DefaultsPat::NameAny, d);
    lemma_first_from(d.len() as int, pdn, 0);
    assert(pdn(q0));
    let lq = lead(d, q0);
    lemma_run_end(d, q0, Class::Space);
    lemma_run_end(d, lq + 23, Class::Space);
    let en = name_eq(d, q0);
    lemma_first_from(d.len() as int, nl_pred(d), en + 1);
    let ne = name_any_end(d, q0);
    assert(q0 <= lq < en < ne < p);
    assert forall|j: int| 0 <= j < p implies #[trigger] u[j] == d[j] by {}
    assert(u[p] == cl[0]);
    assert(u[p] == 'C');
    // the name line reads the same in `u`
    if q0 > 0 {
        assert(u[q0 - 1] == d[q0 - 1]);
    }
    lemma_run_agree(d, u, q0, lq, Class::Space);
    assert(u.subrange(lq, lq + 23) =~= d.subrange(lq, lq + 23));
    lemma_run_agree(d, u, lq + 23, en, Class::Space);
    assert(name_any_at(u, q0));
    assert(nl_pred(d)(ne));
    assert forall|k: int| en + 1 <= k < ne implies !#[trigger] nl_pred(u)(k) by {
        assert(!nl_pred(d)(k));
    }
    assert(nl_pred(u)(ne));
    lemma_first_from_is(u.len() as int, nl_pred(u), en + 1, ne);
    // and no name line of `u` starts before it
    let pu = defaults_pred(DefaultsPat::NameAny, u);
    assert forall|r: int| 0 <= r < q0 implies !#[trigger] pu(r) by {
        if name_any_at(u, r) {
            lemma_run_end(u, r, Class::Space);
            let lr = lead(u, r);
            lemma_run_end(u, lr + 23, Class::Space);
            let er = name_eq(u, r);
            assert(d[p - 1] == '\n');
            assert(lr <= p) by {
                if lr > p {
                    assert(is_space(u[p]));
                }
            }
            if lr == p {
                assert forall|j: int| q0 <= j < p implies in_class(Class::Space, #[trigger] d[j]) by {
                    assert(u[j] == d[j]);
                }
                lemma_run_same(d, q0, p, Class::Space);
                lemma_run_end(d, p, Class::Space);
                assert(lead(d, q0) >= p);
            } else {
                assert(lr + 23 <= p - 1) by {
                    if lr + 23 > p - 1 {
                        assert(u.subrange(lr, lr + 23)[p - 1 - lr] == u[p - 1]);
                    }
                }
                assert(er < p) by {
                    if er > p {
                        assert(is_space(u[p]));
                    }
                }
                if r > 0 {
                    assert(u[r - 1] == d[r - 1]);
                }
                lemma_run_agree(u, d, r, lr, Class::Space);
                assert(d.subrange(lr, lr + 23) =~= u.subrange(lr, lr + 23));
                lemma_run_agree(u, d, lr + 23, er, Class::Space);
                assert(name_any_at(d, r));
                assert(pdn(r));
            }
        }
    }
    assert(pu(q0));
    lemma_first_from_is(u.len() as int, pu, 0, q0);
}

/// Activating a profile writes its name line, and the first choice line
/// of the result selects its base, upper-cased: for a clone, the base it
/// was made from. Left out: a `sdkconfig.defaults` without a choice line, a
/// name with `$` or a newline (it is read as a template, or splits its
/// line), an upper-cased base that is not a word, and one that is `NAME`
/// when no name line ends before the first choice line (that choice line is
/// then read as the name line).
pub proof fn law_activate_writes_name_and_base(d: Seq<char>, profile: Seq<char>)
    requires
        find_defaults(DefaultsPat::Choice, d) is Some,
        forall|k: int| 0 <= k < profile.len() ==> #[trigger] profile[k] != '$',
        no_newline(profile),
        uppercase(spec_base_of(profile)).len() > 0,
        all_word(uppercase(spec_base_of(profile))),
        uppercase(spec_base_of(profile)) != "NAME"@ || name_line_first(d),
    ensures
        contains_seq(activated(d, profile), name_line(profile)),
        find_defaults(DefaultsPat::Choice, activated(d, profile)) matches Some(r) && activated(
            d,
            profile,
        ).subrange(
            choice_word(activated(d, profile), r),
            choice_word_end(activated(d, profile), r),
        ) == uppercase(spec_base_of(profile)),
{
    lemma_sdk_literals();
    lemma_with_choice_first(d, profile);
    lemma_name_line_plain(profile);
    let p = find_defaults(DefaultsPat::Choice, d)->Some_0;
    let b = uppercase(spec_base_of(profile));
    let cll = 21 + b.len();
    let u = with_choice(d, profile);
    let nl = name_line(profile);
    let f = activated(d, profile);
    assert(u.subrange(p, p + cll) =~= choice_line(profile));
    let pn = defaults_pred(DefaultsPat::NameAny, u);
    lemma_first_from(u.len() as int, pn, 0);
    if b == "NAME"@ {
        let q0 = find_defaults(DefaultsPat::NameAny, d)->Some_0;
        lemma_first_name_kept(d, profile, q0);
    }
    match find_defaults(DefaultsPat::NameAny, u) {
        None => {
            assert(f == u + "\n"@ + nl + "\n"@);
            assert(f.subrange(u.len() + 1int, u.len() + 1int + nl.len()) =~= nl);
            assert(seq_at(f, u.len() + 1int, nl));
            assert forall|j: int| 0 <= j < p + cll implies f[j] == u[j] by {}
            lemma_choice_kept(d, profile, f);
        },
        Some(q) => {
            assert(pn(q));
            if b != "NAME"@ {
                lemma_name_around_choice(u, p, b, q);
            }
            let ne = name_any_end(u, q);
            assert(q <= ne <= u.len()) by {
                lemma_run_end(u, q, Class::Space);
                lemma_run_end(u, lead(u, q) + 23, Class::Space);
                lemma_first_from(u.len() as int, nl_pred(u), name_eq(u, q) + 1);
            }
            assert(f == u.subrange(0, q) + nl + u.subrange(ne, u.len() as int));
            assert(f.subrange(q, q + nl.len()) =~= nl);
            assert(seq_at(f, q, nl));
            if q > p + cll {
                assert forall|j: int| 0 <= j < p + cll implies f[j] == u[j] by {}
                lemma_choice_kept(d, profile, f);
            } else {
                lemma_choice_after_name(d, profile, q);
            }
        },
    }
}

/// The lines `bs` are those of the generated `sdkconfig` `ls` brought in
/// line with `profile`: as many, a name line becomes the profile's name
/// line, and a line that is neither a name line nor holds a profile symbol
/// stays as it is.
pub open spec fn keeps_other_lines(ls: Seq<Seq<char>>, bs: Seq<Seq<char>>, profile: Seq<char>) -> bool {
    &&& bs.len() == ls.len()
    &&& forall|k: int| 0 <= k < ls.len() && kept_line(#[trigger] ls[k]) ==> bs[k] == ls[k]
    &&& forall|k: int| 0 <= k < ls.len() && is_name_line(#[trigger] ls[k]) ==> bs[k] == name_line(
        profile,
    )
}

/// Bringing the generated `sdkconfig` in line with a profile rewrites only
/// the profile lines: the result is its lines in order, each followed by a
/// newline, where every line that is neither a name line nor holds a
/// `CONFIG_GIF_PROFILE_` symbol is kept as it is and every name line names
/// the profile; a name line is added at the end when there was none.
pub proof fn law_sync_keeps_other_lines(s: Seq<char>, n: Seq<char>)
    ensures
        exists|bs: Seq<Seq<char>>|
            #[trigger] keeps_other_lines(lines(s), bs, n) && generated(s, n) == join_lines(bs) + (
            if any_name_line(lines(s)) {
                Seq::<char>::empty()
            } else {
                name_line(n) + "\n"@
            }),
{
    let base = uppercase(spec_base_of(n));
    let ls = lines(s);
    let bs = regen_bodies(ls, n, base);
    lemma_bodies_index(ls, n, base);
    lemma_regen_lines_join(ls, n, base);
    assert(keeps_other_lines(ls, bs, n));
}

} // verus!
