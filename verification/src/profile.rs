//! Profiles of an EmotionDisplay checkout: their names, clones, and the
//! decisions of the profile operations, taken on what was read from disk.

use vstd::prelude::*;
use crate::text::{
    cat, chars_of, concat, decimal, decimal_exec, digit_char, digits_value, is_digit, lemma_decimal_digits,
    seq_eq, slice_of, string_of, strings_of, all_word, contains_seq, uppercase,
};
use vstd::set_lib::{lemma_int_range, lemma_len_subset, lemma_map_size, set_int_range};
use crate::header::{
    default_emotion, find_default_emotion, parse_symbols, parse_table_keys, replace_default,
    symbols, table_keys, with_default,
};
use crate::sdkconfig::{
    activate_in_defaults, activated, choice_word, choice_word_end, defaults_profile, find_defaults,
    generated, law_activate_writes_name_and_base, ascii_base_upper, ascii_choice_word, name_line, name_line_first, no_newline,
    update_sdkconfig,
    DefaultsPat,
};

verus! {

/// The last index below `j` at which `s` holds `c`.
pub open spec fn rfind_before(s: Seq<char>, c: char, j: int) -> Option<int>
    decreases j,
{
    if j <= 0 {
        None
    } else if s[j - 1] == c {
        Some(j - 1)
    } else {
        rfind_before(s, c, j - 1)
    }
}

/// `str::rfind`: the last index of `c` in `s`.
pub open spec fn rfind(s: Seq<char>, c: char) -> Option<int> {
    rfind_before(s, c, s.len() as int)
}

/// All characters of `s` are ASCII digits.
pub open spec fn all_digits(s: Seq<char>) -> bool {
    forall|k: int| 0 <= k < s.len() ==> is_digit(#[trigger] s[k])
}

/// A profile name without its trailing `_<digits>` suffix, if it has one:
/// "floki_1" gives "floki", "floki" and "floki_abc" stay as they are.
pub open spec fn spec_base_of(s: Seq<char>) -> Seq<char> {
    match rfind(s, '_') {
        Some(i) => if i + 1 < s.len() && all_digits(s.subrange(i + 1, s.len() as int)) {
            s.subrange(0, i)
        } else {
            s
        },
        None => s,
    }
}

proof fn lemma_rfind_before(s: Seq<char>, c: char, j: int)
    requires
        j <= s.len(),
    ensures
        rfind_before(s, c, j) matches Some(i) ==> 0 <= i < j && s[i] == c && forall|k: int|
            i < k < j ==> s[k] != c,
        rfind_before(s, c, j) is None ==> forall|k: int| 0 <= k < j ==> s[k] != c,
    decreases j,
{
    if j > 0 && s[j - 1] != c {
        lemma_rfind_before(s, c, j - 1);
    }
}

/// Strips a trailing `_<digits>` suffix. "floki_1" -> "floki", "floki" -> "floki".
pub fn base_of(profile: &str) -> (r: String)
    ensures
        r@ == spec_base_of(profile@),
{
    let s = chars_of(profile);
    let v = base_of_chars(&s);
    string_of(&v)
}

pub fn base_of_chars(s: &Vec<char>) -> (r: Vec<char>)
    ensures
        r@ == spec_base_of(s@),
{
    let mut j = s.len();
    while j > 0 && s[j - 1] != '_'
        invariant
            j <= s.len(),
            rfind_before(s@, '_', s@.len() as int) == rfind_before(s@, '_', j as int),
        decreases j,
    {
        j = j - 1;
    }
    if j == 0 {
        return s.clone();
    }
    let i = j - 1;
    if i + 1 >= s.len() {
        return s.clone();
    }
    assert(rfind(s@, '_') == Some(i as int));
    let mut k = i + 1;
    while k < s.len()
        invariant
            i + 1 <= k <= s.len(),
            i + 1 < s.len(),
            rfind(s@, '_') == Some(i as int),
            forall|m: int| i + 1 <= m < k ==> is_digit(#[trigger] s@[m]),
        decreases s.len() - k,
    {
        let u = s[k] as u32;
        if u < 48 || u > 57 {
            assert(!is_digit(s@.subrange(i + 1, s@.len() as int)[k - (i + 1)]));
            return s.clone();
        }
        k = k + 1;
    }
    assert(all_digits(s@.subrange(i + 1, s@.len() as int)));
    slice_of(s, 0, i)
}

/// A profile is a clone iff it has a base distinct from itself.
pub fn is_clone(profile: &str) -> (r: bool)
    ensures
        r == (spec_base_of(profile@) != profile@),
{
    let s = chars_of(profile);
    let b = base_of_chars(&s);
    !seq_eq(&b, &s)
}

/// The name of the `n`-th clone of `base`: `<base>_<n>`.
pub open spec fn clone_name_spec(base: Seq<char>, n: nat) -> Seq<char> {
    base + seq!['_'] + decimal(n)
}

/// The name of the `n`-th clone of `base`.
pub fn clone_name(base: &str, n: u64) -> (r: String)
    ensures
        r@ == clone_name_spec(base@, n as nat),
{
    let b = chars_of(base);
    let mut u: Vec<char> = Vec::new();
    u.push('_');
    let bu = concat(&b, &u);
    let d = decimal_exec(n);
    let v = concat(&bu, &d);
    assert(u@ =~= seq!['_']);
    string_of(&v)
}

/// The clone naming scheme and `base_of` agree: the base of `<base>_<n>` is
/// `base`, so every clone name is a clone of the profile it was made from.
pub proof fn law_base_of_clone_name(base: Seq<char>, n: nat)
    ensures
        spec_base_of(clone_name_spec(base, n)) == base,
        spec_base_of(clone_name_spec(base, n)) != clone_name_spec(base, n),
{
    let s = clone_name_spec(base, n);
    let d = decimal(n);
    lemma_decimal_digits(n);
    let i = base.len() as int;
    assert(s[i] == '_');
    assert forall|k: int| i < k < s.len() implies s[k] != '_' by {
        assert(s[k] == d[k - i - 1]);
        assert(is_digit(d[k - i - 1]));
    }
    lemma_rfind_before(s, '_', s.len() as int);
    assert(rfind(s, '_') == Some(i)) by {
        if rfind(s, '_') != Some(i) {
            match rfind(s, '_') {
                Some(j) => {
                    if j < i {
                        assert(s[i] != '_');
                    }
                },
                None => {
                    assert(s[i] != '_');
                },
            }
        }
    }
    assert(s.subrange(i + 1, s.len() as int) =~= d);
    assert(s.subrange(0, i) =~= base);
}


/// Activating a new clone of `base` writes the clone's name line, and the
/// first choice line then selects `base`, upper-cased. Left out: defaults
/// without a choice line, a base with `$` or a newline, an upper-cased base
/// that is not a word, and one that is `NAME` when no name line ends before
/// the first choice line.
pub proof fn law_clone_activation(d: Seq<char>, base: Seq<char>, n: nat)
    requires
        find_defaults(DefaultsPat::Choice, d) is Some,
        forall|k: int| 0 <= k < base.len() ==> #[trigger] base[k] != '$',
        no_newline(base),
        uppercase(base).len() > 0,
        all_word(uppercase(base)),
        uppercase(base) != "NAME"@ || name_line_first(d),
    ensures
        contains_seq(activated(d, clone_name_spec(base, n)), name_line(clone_name_spec(base, n))),
        find_defaults(DefaultsPat::Choice, activated(d, clone_name_spec(base, n))) matches Some(r)
            && activated(d, clone_name_spec(base, n)).subrange(
            choice_word(activated(d, clone_name_spec(base, n)), r),
            choice_word_end(activated(d, clone_name_spec(base, n)), r),
        ) == uppercase(base),
{
    let c = clone_name_spec(base, n);
    law_base_of_clone_name(base, n);
    lemma_decimal_digits(n);
    assert forall|k: int| 0 <= k < c.len() implies #[trigger] c[k] != '$' && c[k] != '\n' by {
        if k > base.len() {
            assert(c[k] == decimal(n)[k - base.len() - 1]);
            assert(is_digit(decimal(n)[k - base.len() - 1]));
        }
    }
    law_activate_writes_name_and_base(d, c);
}

/// Errors of the profile operations.
#[derive(Debug, Clone)]
pub enum ProfileError {
    ProjectNotFound,
    NoSdkConfig,
    NoProfileConfigured,
    ProfileFolderMissing(String),
    MalformedGifTable(String),
    WriteError(String),
}

impl ProfileError {
    /// The message shown for this error.
    pub open spec fn text(self) -> Seq<char> {
        match self {
            ProfileError::ProjectNotFound => "Project path not found"@,
            ProfileError::NoSdkConfig =>
                "Not an EmotionDisplay project. sdkconfig.defaults not found."@,
            ProfileError::NoProfileConfigured =>
                "No profile configured. Run 'idf.py menuconfig' first."@,
            ProfileError::ProfileFolderMissing(p) => "Profile '"@ + p@ + "' configured but main/"@
                + p@ + "/ folder missing."@,
            ProfileError::MalformedGifTable(path) => "Cannot parse "@ + path@
                + ". File may be corrupted."@,
            ProfileError::WriteError(e) => "Failed to write config: "@ + e@,
        }
    }

    pub fn message(&self) -> (m: String)
        ensures
            m@ == self.text(),
    {
        match self {
            ProfileError::ProjectNotFound => String::from_str("Project path not found"),
            ProfileError::NoSdkConfig => String::from_str(
                "Not an EmotionDisplay project. sdkconfig.defaults not found.",
            ),
            ProfileError::NoProfileConfigured => String::from_str(
                "No profile configured. Run 'idf.py menuconfig' first.",
            ),
            ProfileError::ProfileFolderMissing(p) => {
                let a = cat("Profile '", p.as_str());
                let b = cat(a.as_str(), "' configured but main/");
                let c = cat(b.as_str(), p.as_str());
                cat(c.as_str(), "/ folder missing.")
            },
            ProfileError::MalformedGifTable(path) => {
                let a = cat("Cannot parse ", path.as_str());
                cat(a.as_str(), ". File may be corrupted.")
            },
            ProfileError::WriteError(e) => cat("Failed to write config: ", e.as_str()),
        }
    }
}

/// A detected profile: its name, the emotion keys of its `gif_table[]`, the
/// image symbols it declares, and its folder.
#[derive(Debug, Clone)]
pub struct ProfileInfo {
    pub profile: String,
    pub emotions: Vec<String>,
    pub symbols: Vec<String>,
    pub profile_path: String,
}

pub open spec fn strs(v: Seq<String>) -> Seq<Seq<char>> {
    v.map_values(|x: String| x@)
}

pub open spec fn is_folder_missing<T>(r: Result<T, ProfileError>, name: Seq<char>) -> bool {
    r matches Err(ProfileError::ProfileFolderMissing(p)) && p@ == name
}

pub open spec fn is_malformed<T>(r: Result<T, ProfileError>, m: Seq<char>) -> bool {
    r matches Err(ProfileError::MalformedGifTable(p)) && p@ == m
}

pub open spec fn is_write_error<T>(r: Result<T, ProfileError>, m: Seq<char>) -> bool {
    r matches Err(ProfileError::WriteError(p)) && p@ == m
}

pub open spec fn is_ok_text(r: Result<String, ProfileError>, t: Seq<char>) -> bool {
    r matches Ok(x) && x@ == t
}

/// First stage of detection: the profile that `sdkconfig.defaults` selects.
/// `defaults` is the file's text, `None` when it is missing or unreadable.
pub fn resolve_active_profile(project_exists: bool, defaults: Option<&str>) -> (r: Result<
    String,
    ProfileError,
>)
    ensures
        !project_exists ==> r matches Err(ProfileError::ProjectNotFound),
        project_exists ==> match defaults {
            None => r matches Err(ProfileError::NoSdkConfig),
            Some(d) => match defaults_profile(d@) {
                Some(name) => is_ok_text(r, name),
                None => r matches Err(ProfileError::NoProfileConfigured),
            },
        },
        project_exists && defaults is Some ==> ascii_choice_word(defaults->0@),
{
    if !project_exists {
        return Err(ProfileError::ProjectNotFound);
    }
    match defaults {
        None => Err(ProfileError::NoSdkConfig),
        Some(d) => match crate::sdkconfig::active_profile_name(d) {
            Some(name) => Ok(name),
            None => Err(ProfileError::NoProfileConfigured),
        },
    }
}

/// Second stage of detection: the profile's emotion keys and symbols from
/// its `gif_profile.h`. `header` is that file's text, `None` when unreadable;
/// `header_path` names it in errors.
pub fn profile_info(
    profile: String,
    profile_path: String,
    folder_exists: bool,
    header_path: &str,
    header: Option<&str>,
) -> (r: Result<ProfileInfo, ProfileError>)
    ensures
        !folder_exists ==> is_folder_missing(r, profile@),
        folder_exists ==> match header {
            None => is_malformed(r, header_path@),
            Some(h) => if table_keys(h@).len() == 0 || symbols(h@).len() == 0 {
                is_malformed(r, header_path@)
            } else {
                r matches Ok(info) && info.profile@ == profile@ && strs(info.emotions@)
                    == table_keys(h@) && strs(info.symbols@) == symbols(h@) && info.profile_path@
                    == profile_path@
            },
        },
{
    if !folder_exists {
        return Err(ProfileError::ProfileFolderMissing(profile));
    }
    let h = match header {
        None => return Err(ProfileError::MalformedGifTable(String::from_str(header_path))),
        Some(h) => h,
    };
    let s = chars_of(h);
    let keys = parse_table_keys(&s);
    if keys.len() == 0 {
        return Err(ProfileError::MalformedGifTable(String::from_str(header_path)));
    }
    let syms = parse_symbols(&s);
    if syms.len() == 0 {
        return Err(ProfileError::MalformedGifTable(String::from_str(header_path)));
    }
    Ok(ProfileInfo { profile, emotions: strings_of(&keys), symbols: strings_of(&syms), profile_path })
}

/// Whether `name` is one of `names`.
pub fn contains_name(names: &Vec<String>, name: &str) -> (r: bool)
    ensures
        r == strs(names@).contains(name@),
{
    let target = String::from_str(name);
    let mut i: usize = 0;
    while i < names.len()
        invariant
            i <= names.len(),
            target@ == name@,
            forall|k: int| 0 <= k < i ==> names@[k]@ != name@,
        decreases names.len() - i,
    {
        if names[i] == target {
            assert(strs(names@)[i as int] == name@);
            return true;
        }
        i = i + 1;
    }
    assert(!strs(names@).contains(name@)) by {
        if strs(names@).contains(name@) {
            let k = choose|k: int| 0 <= k < strs(names@).len() && strs(names@)[k] == name@;
            assert(names@[k]@ == name@);
        }
    }
    false
}

/// Activating a profile: the checks on the checkout, then the new text of
/// `sdkconfig.defaults` (`defaults` is the result of reading it).
pub fn set_active_profile(
    project_exists: bool,
    profile_dir_exists: bool,
    defaults_exists: bool,
    defaults: Result<String, String>,
    profile_name: &str,
) -> (r: Result<String, ProfileError>)
    ensures
        !project_exists ==> r matches Err(ProfileError::ProjectNotFound),
        project_exists && !profile_dir_exists ==> is_folder_missing(r, profile_name@),
        project_exists && profile_dir_exists && !defaults_exists ==> r matches Err(
            ProfileError::NoSdkConfig,
        ),
        project_exists && profile_dir_exists && defaults_exists ==> match defaults {
            Err(e) => is_write_error(r, e@),
            Ok(d) => is_ok_text(r, activated(d@, profile_name@)),
        },
        project_exists && profile_dir_exists && defaults_exists && defaults is Ok
            ==> ascii_base_upper(profile_name@),
{
    if !project_exists {
        return Err(ProfileError::ProjectNotFound);
    }
    if !profile_dir_exists {
        return Err(ProfileError::ProfileFolderMissing(String::from_str(profile_name)));
    }
    if !defaults_exists {
        return Err(ProfileError::NoSdkConfig);
    }
    match defaults {
        Err(e) => Err(ProfileError::WriteError(e)),
        Ok(d) => Ok(activate_in_defaults(d.as_str(), profile_name)),
    }
}

/// Bringing the generated `sdkconfig` in line with the active profile:
/// `generated_file` is `None` when the file does not exist (nothing to do),
/// else the result of reading it; the result is the text to write.
pub fn sync_generated_sdkconfig(
    active_profile: &str,
    generated_file: Option<Result<String, String>>,
) -> (r: Result<Option<String>, ProfileError>)
    ensures
        match generated_file {
            None => r matches Ok(None),
            Some(Err(e)) => is_write_error(r, e@),
            Some(Ok(c)) => r matches Ok(Some(x)) && x@ == generated(c@, active_profile@),
        },
        generated_file matches Some(Ok(_)) ==> ascii_base_upper(active_profile@),
{
    match generated_file {
        None => Ok(None),
        Some(Err(e)) => Err(ProfileError::WriteError(e)),
        Some(Ok(c)) => Ok(Some(update_sdkconfig(c.as_str(), active_profile))),
    }
}

/// The default emotion from the active profile's header (`header` is the
/// result of reading it).
pub fn get_default_emotion(header: Result<String, String>) -> (r: Result<String, ProfileError>)
    ensures
        match header {
            Err(e) => is_write_error(r, e@),
            Ok(h) => match default_emotion(h@) {
                Some(v) => is_ok_text(r, v),
                None => is_malformed(r, "Cannot find GIF_PROFILE_DEFAULT"@),
            },
        },
{
    match header {
        Err(e) => Err(ProfileError::WriteError(e)),
        Ok(h) => {
            let s = chars_of(h.as_str());
            match find_default_emotion(&s) {
                Some(v) => Ok(string_of(&v)),
                None => Err(
                    ProfileError::MalformedGifTable(
                        String::from_str("Cannot find GIF_PROFILE_DEFAULT"),
                    ),
                ),
            }
        },
    }
}

/// Setting the default emotion of the active profile: `emotion` must be one
/// of its declared symbols; the result is the new text of its header
/// (`header` is the result of reading it).
pub fn set_default_emotion(profile: &ProfileInfo, emotion: &str, header: Result<String, String>) -> (r:
    Result<String, ProfileError>)
    ensures
        !strs(profile.symbols@).contains(emotion@) ==> is_malformed(
            r,
            "'"@ + emotion@ + "' is not a valid default emotion symbol in this profile"@,
        ),
        strs(profile.symbols@).contains(emotion@) ==> match header {
            Err(e) => is_write_error(r, e@),
            Ok(h) => is_ok_text(r, with_default(h@, emotion@)),
        },
{
    if !contains_name(&profile.symbols, emotion) {
        let a = cat("'", emotion);
        let m = cat(a.as_str(), "' is not a valid default emotion symbol in this profile");
        return Err(ProfileError::MalformedGifTable(m));
    }
    match header {
        Err(e) => Err(ProfileError::WriteError(e)),
        Ok(h) => {
            let s = chars_of(h.as_str());
            let v = chars_of(emotion);
            Ok(string_of(&replace_default(&s, &v)))
        },
    }
}

/// Resetting a profile's default emotion to its base profile's value: the
/// result is the new text of the profile's header. The headers are `None`
/// when unreadable; their paths name them in errors.
pub fn reset_profile_to_default(
    project_exists: bool,
    profile_name: &str,
    base_header_path: &str,
    base_header: Option<&str>,
    profile_header_path: &str,
    profile_header: Option<&str>,
) -> (r: Result<String, ProfileError>)
    ensures
        !project_exists ==> r matches Err(ProfileError::ProjectNotFound),
        project_exists ==> match base_header {
            None => is_malformed(r, base_header_path@),
            Some(b) => match default_emotion(b@) {
                None => is_malformed(
                    r,
                    "Cannot find GIF_PROFILE_DEFAULT in "@ + spec_base_of(profile_name@),
                ),
                Some(v) => match profile_header {
                    None => is_malformed(r, profile_header_path@),
                    Some(h) => is_ok_text(r, with_default(h@, v)),
                },
            },
        },
{
    if !project_exists {
        return Err(ProfileError::ProjectNotFound);
    }
    let base = base_of(profile_name);
    let b = match base_header {
        None => return Err(ProfileError::MalformedGifTable(String::from_str(base_header_path))),
        Some(b) => b,
    };
    let bs = chars_of(b);
    let value = match find_default_emotion(&bs) {
        None => {
            let m = cat("Cannot find GIF_PROFILE_DEFAULT in ", base.as_str());
            return Err(ProfileError::MalformedGifTable(m));
        },
        Some(v) => v,
    };
    let h = match profile_header {
        None => return Err(ProfileError::MalformedGifTable(String::from_str(profile_header_path))),
        Some(h) => h,
    };
    let hs = chars_of(h);
    Ok(string_of(&replace_default(&hs, &value)))
}

/// `n` is the number of the first free clone of `base`: `<base>_<n>` names
/// none of `names`, while every `<base>_<k>` with `1 <= k < n` does.
pub open spec fn first_free_clone(base: Seq<char>, names: Seq<Seq<char>>, n: nat) -> bool {
    &&& n >= 1
    &&& !names.contains(clone_name_spec(base, n))
    &&& forall|k: nat| 1 <= k < n ==> names.contains(#[trigger] clone_name_spec(base, k))
}

proof fn lemma_decimal_value(n: nat)
    ensures
        digits_value(decimal(n)) == n,
    decreases n,
{
    let d = decimal(n);
    let c = digit_char(n % 10);
    assert((c as u32) == n % 10 + 48);
    assert(d.len() > 0 && d.last() == c);
    if n >= 10 {
        lemma_decimal_value(n / 10);
        assert(d.drop_last() =~= decimal(n / 10));
    } else {
        assert(d.drop_last() =~= Seq::<char>::empty());
    }
    assert(digits_value(d) == digits_value(d.drop_last()) * 10 + ((c as u32) - 48) as nat);
}

/// Different numbers give different clone names.
proof fn lemma_clone_name_injective(base: Seq<char>, a: nat, b: nat)
    requires
        clone_name_spec(base, a) == clone_name_spec(base, b),
    ensures
        a == b,
{
    let i = base.len() + 1int;
    let x = clone_name_spec(base, a);
    let y = clone_name_spec(base, b);
    assert(x.subrange(i, x.len() as int) =~= decimal(a));
    assert(y.subrange(i, y.len() as int) =~= decimal(b));
    lemma_decimal_value(a);
    lemma_decimal_value(b);
}

/// If the clones `1..n` of `base` are all among `names`, there are at least
/// `n - 1` names.
proof fn lemma_taken_clones_bound(base: Seq<char>, names: Seq<Seq<char>>, n: int)
    requires
        n >= 1,
        forall|k: nat| 1 <= k < n ==> names.contains(#[trigger] clone_name_spec(base, k)),
    ensures
        n - 1 <= names.len(),
{
    let x = set_int_range(1, n);
    let f = |k: int| clone_name_spec(base, k as nat);
    let y = x.map(f);
    lemma_int_range(1, n);
    assert forall|a: int, b: int| x.contains(a) && x.contains(b) && #[trigger] f(a) == #[trigger] f(
        b,
    ) implies a == b by {
        lemma_clone_name_injective(base, a as nat, b as nat);
    }
    lemma_map_size(x, y, f);
    assert forall|v: Seq<char>| #[trigger] y.contains(v) implies names.to_set().contains(v) by {
        let k = choose|k: int| x.contains(k) && f(k) == v;
        assert(names.contains(clone_name_spec(base, k as nat)));
    }
    names.lemma_cardinality_of_set();
    lemma_len_subset(y, names.to_set());
}

/// Cloning a base profile: the checks on the checkout and the base, then
/// the name of the new clone, `<base>_<n>` for the first free `n`, given the
/// names of the entries of the `main/` folder that exist. The caller copies the base
/// folder there and activates the clone.
pub fn create_profile_clone(
    project_exists: bool,
    base_exists: bool,
    base_name: &str,
    existing: &Vec<String>,
) -> (r: Result<String, ProfileError>)
    requires
        existing.len() < usize::MAX,
    ensures
        !project_exists ==> r matches Err(ProfileError::ProjectNotFound),
        project_exists && !base_exists ==> is_folder_missing(r, base_name@),
        project_exists && base_exists && spec_base_of(base_name@) != base_name@ ==> is_write_error(
            r,
            "'"@ + base_name@ + "' is a clone. Clone a base profile, not another clone."@,
        ),
        project_exists && base_exists && spec_base_of(base_name@) == base_name@ ==> (r matches Ok(
            name,
        ) && exists|n: nat|
            first_free_clone(base_name@, strs(existing@), n) && name@ == clone_name_spec(
                base_name@,
                n,
            )),
{
    if !project_exists {
        return Err(ProfileError::ProjectNotFound);
    }
    if !base_exists {
        return Err(ProfileError::ProfileFolderMissing(String::from_str(base_name)));
    }
    if is_clone(base_name) {
        let a = cat("'", base_name);
        let m = cat(a.as_str(), "' is a clone. Clone a base profile, not another clone.");
        return Err(ProfileError::WriteError(m));
    }
    let ghost names = strs(existing@);
    let mut n: u64 = 1;
    let mut candidate = clone_name(base_name, n);
    while contains_name(existing, candidate.as_str())
        invariant
            1 <= n <= existing.len() + 1,
            existing.len() < usize::MAX,
            names == strs(existing@),
            candidate@ == clone_name_spec(base_name@, n as nat),
            forall|k: nat| 1 <= k < n ==> names.contains(#[trigger] clone_name_spec(base_name@, k)),
        decreases existing.len() + 1 - n,
    {
        proof {
            lemma_taken_clones_bound(base_name@, names, n + 1);
        }
        n = n + 1;
        candidate = clone_name(base_name, n);
    }
    Ok(candidate)
}

/// The error when copying the base folder into the new clone failed.
pub fn clone_copy_error(detail: &str) -> (r: ProfileError)
    ensures
        is_write_error(Err::<(), ProfileError>(r), "Failed to copy profile: "@ + detail@),
{
    ProfileError::WriteError(cat("Failed to copy profile: ", detail))
}

// ----- listing profiles -----

/// An entry of the `main/` folder: its name (`None` when it is not valid
/// Unicode), whether it is a folder, and whether it holds `gif_profile.h`.
#[derive(Debug, Clone)]
pub struct DirEntryInfo {
    pub name: Option<String>,
    pub is_dir: bool,
    pub has_header: bool,
}

pub open spec fn is_profile_entry(e: DirEntryInfo) -> bool {
    e.is_dir && e.name is Some && e.has_header
}

/// The names of the profile folders among `es`, in order.
pub open spec fn profile_entry_names(es: Seq<DirEntryInfo>) -> Seq<Seq<char>>
    decreases es.len(),
{
    if es.len() == 0 {
        Seq::empty()
    } else {
        profile_entry_names(es.drop_last()) + if is_profile_entry(es.last()) {
            seq![es.last().name->0@]
        } else {
            Seq::empty()
        }
    }
}

/// No two entries carry the same name.
pub open spec fn entry_names_distinct(es: Seq<DirEntryInfo>) -> bool {
    forall|i: int, j: int|
        0 <= i < es.len() && 0 <= j < es.len() && i != j && (#[trigger] es[i]).name is Some && (
        #[trigger] es[j]).name is Some ==> es[i].name->0@ != es[j].name->0@
}

proof fn lemma_entry_names_from(es: Seq<DirEntryInfo>, x: Seq<char>)
    requires
        profile_entry_names(es).contains(x),
    ensures
        exists|k: int| 0 <= k < es.len() && (#[trigger] es[k]).name is Some && es[k].name->0@ == x,
    decreases es.len(),
{
    let dl = es.drop_last();
    let a = profile_entry_names(dl);
    let i = choose|i: int| 0 <= i < profile_entry_names(es).len() && profile_entry_names(es)[i] == x;
    if i < a.len() {
        assert(a[i] == x);
        lemma_entry_names_from(dl, x);
        let k = choose|k: int| 0 <= k < dl.len() && (#[trigger] dl[k]).name is Some && dl[k].name->0@ == x;
        assert(es[k] == dl[k]);
    } else {
        assert(es[es.len() - 1] == es.last());
    }
}

/// Distinct entries give distinct profile names.
proof fn lemma_entry_names_unique(es: Seq<DirEntryInfo>)
    requires
        entry_names_distinct(es),
    ensures
        profile_entry_names(es).no_duplicates(),
    decreases es.len(),
{
    if es.len() > 0 {
        let dl = es.drop_last();
        assert forall|i: int, j: int|
            0 <= i < dl.len() && 0 <= j < dl.len() && i != j && (#[trigger] dl[i]).name is Some && (
            #[trigger] dl[j]).name is Some implies dl[i].name->0@ != dl[j].name->0@ by {
            assert(dl[i] == es[i] && dl[j] == es[j]);
        }
        lemma_entry_names_unique(dl);
        let a = profile_entry_names(dl);
        if is_profile_entry(es.last()) {
            let x = es.last().name->0@;
            assert(!a.contains(x)) by {
                if a.contains(x) {
                    lemma_entry_names_from(dl, x);
                    let k = choose|k: int| 0 <= k < dl.len() && (#[trigger] dl[k]).name is Some && dl[k].name->0@ == x;
                    assert(es[k] == dl[k]);
                    assert(es[es.len() - 1] == es.last());
                }
            }
            let b = profile_entry_names(es);
            assert(b == a.push(x));
            assert forall|i: int, j: int| 0 <= i < b.len() && 0 <= j < b.len() && i != j implies b[i]
                != b[j] by {
                if i < a.len() && j < a.len() {
                    assert(b[i] == a[i] && b[j] == a[j]);
                } else if i < a.len() {
                    assert(b[i] == a[i]);
                } else if j < a.len() {
                    assert(b[j] == a[j]);
                }
            }
        } else {
            assert(profile_entry_names(es) =~= a);
        }
    }
}

/// Two sequences with the same elements, counted, either both repeat an
/// element or neither does.
proof fn lemma_same_multiset_unique(a: Seq<Seq<char>>, b: Seq<Seq<char>>)
    requires
        a.to_multiset() == b.to_multiset(),
        b.no_duplicates(),
    ensures
        a.no_duplicates(),
{
    b.lemma_multiset_has_no_duplicates();
    a.lemma_multiset_has_no_duplicates_conv();
}

/// The order of `str`: lexicographic by code point, comparing from `k` on.
pub open spec fn str_le_from(a: Seq<char>, b: Seq<char>, k: int) -> bool
    decreases a.len() - k,
{
    if k < 0 || k >= a.len() {
        true
    } else if k >= b.len() {
        false
    } else if (a[k] as u32) != (b[k] as u32) {
        (a[k] as u32) < (b[k] as u32)
    } else {
        str_le_from(a, b, k + 1)
    }
}

/// `a <= b` in the order of strings.
pub open spec fn str_le(a: Seq<char>, b: Seq<char>) -> bool {
    str_le_from(a, b, 0)
}

pub open spec fn sorted_strs(s: Seq<Seq<char>>) -> bool {
    forall|i: int, j: int| 0 <= i < j < s.len() ==> str_le(#[trigger] s[i], #[trigger] s[j])
}

proof fn lemma_str_le_total(a: Seq<char>, b: Seq<char>, k: int)
    requires
        0 <= k,
    ensures
        str_le_from(a, b, k) || str_le_from(b, a, k),
    decreases a.len() - k,
{
    if k < a.len() && k < b.len() && (a[k] as u32) == (b[k] as u32) {
        lemma_str_le_total(a, b, k + 1);
    }
}

proof fn lemma_str_le_trans(a: Seq<char>, b: Seq<char>, c: Seq<char>, k: int)
    requires
        0 <= k,
        str_le_from(a, b, k),
        str_le_from(b, c, k),
    ensures
        str_le_from(a, c, k),
    decreases a.len() - k,
{
    if k < a.len() && k < b.len() && k < c.len() && (a[k] as u32) == (b[k] as u32) && (b[k] as u32)
        == (c[k] as u32) {
        lemma_str_le_trans(a, b, c, k + 1);
    }
}

fn str_le_exec(a: &Vec<char>, b: &Vec<char>) -> (r: bool)
    ensures
        r == str_le(a@, b@),
{
    let mut k: usize = 0;
    while k < a.len()
        invariant
            k <= a.len(),
            str_le(a@, b@) == str_le_from(a@, b@, k as int),
        decreases a.len() - k,
    {
        if k >= b.len() {
            return false;
        }
        if (a[k] as u32) != (b[k] as u32) {
            return (a[k] as u32) < (b[k] as u32);
        }
        k = k + 1;
    }
    true
}

/// Inserts `x` into the sorted `out` after every element not above it.
fn insert_sorted(out: &mut Vec<Vec<char>>, x: Vec<char>)
    requires
        sorted_strs(old(out)@.map_values(|v: Vec<char>| v@)),
    ensures
        sorted_strs(final(out)@.map_values(|v: Vec<char>| v@)),
        final(out)@.map_values(|v: Vec<char>| v@).to_multiset() == old(out)@.map_values(
            |v: Vec<char>| v@,
        ).to_multiset().insert(x@),
{
    let ghost before = out@.map_values(|v: Vec<char>| v@);
    let mut j: usize = 0;
    while j < out.len() && str_le_exec(&out[j], &x)
        invariant
            j <= out.len(),
            out@.map_values(|v: Vec<char>| v@) == before,
            forall|i: int| 0 <= i < j ==> str_le(before[i], x@),
        decreases out.len() - j,
    {
        j = j + 1;
    }
    proof {
        if j < out.len() {
            lemma_str_le_total(before[j as int], x@, 0);
        }
    }
    let ghost xv = x@;
    out.insert(j, x);
    let ghost after = out@.map_values(|v: Vec<char>| v@);
    assert(after =~= before.insert(j as int, xv));
    proof {
        broadcast use vstd::seq_lib::to_multiset_insert;
        assert forall|a: int, b: int| 0 <= a < b < after.len() implies str_le(
            #[trigger] after[a],
            #[trigger] after[b],
        ) by {
            if b < j {
                assert(after[a] == before[a] && after[b] == before[b]);
            } else if b == j {
                assert(after[a] == before[a]);
            } else if a == j {
                assert(after[b] == before[b - 1]);
                if b - 1 > j {
                    assert(str_le(before[j as int], before[b - 1]));
                    lemma_str_le_trans(xv, before[j as int], before[b - 1], 0);
                }
            } else if a < j {
                assert(after[b] == before[b - 1]);
                assert(after[a] == before[a]);
            } else {
                assert(after[b] == before[b - 1]);
                assert(after[a] == before[a - 1]);
            }
        }
    }
}

/// The profiles of a checkout: the folders under `main/` that hold a
/// `gif_profile.h`, in the order of their names. `main_exists` says whether
/// `main/` exists; `entries` are its entries.
pub fn list_available_profiles(project_exists: bool, main_exists: bool, entries: &Vec<DirEntryInfo>) -> (r:
    Result<Vec<String>, ProfileError>)
    ensures
        !project_exists ==> r matches Err(ProfileError::ProjectNotFound),
        project_exists ==> (r matches Ok(v) && if main_exists {
            sorted_strs(strs(v@)) && strs(v@).to_multiset() == profile_entry_names(
                entries@,
            ).to_multiset()
        } else {
            v.len() == 0
        }),
        project_exists && entry_names_distinct(entries@) ==> (r matches Ok(v) && strs(
            v@,
        ).no_duplicates()),
{
    if !project_exists {
        return Err(ProfileError::ProjectNotFound);
    }
    if !main_exists {
        return Ok(Vec::new());
    }
    let mut out: Vec<Vec<char>> = Vec::new();
    let mut i: usize = 0;
    proof {
        broadcast use vstd::seq_lib::group_to_multiset_ensures;
        assert(entries@.subrange(0, 0) =~= Seq::<DirEntryInfo>::empty());
        assert(out@.map_values(|v: Vec<char>| v@) =~= Seq::<Seq<char>>::empty());
        assert(profile_entry_names(entries@.subrange(0, 0)) =~= Seq::<Seq<char>>::empty());
    }
    while i < entries.len()
        invariant
            i <= entries.len(),
            sorted_strs(out@.map_values(|v: Vec<char>| v@)),
            out@.map_values(|v: Vec<char>| v@).to_multiset() == profile_entry_names(
                entries@.subrange(0, i as int),
            ).to_multiset(),
        decreases entries.len() - i,
    {
        let e = &entries[i];
        let ghost prefix = entries@.subrange(0, (i + 1) as int);
        assert(prefix.drop_last() =~= entries@.subrange(0, i as int));
        assert(prefix.last() == entries@[i as int]);
        if e.is_dir && e.has_header {
            match &e.name {
                Some(n) => {
                    let v = chars_of(n.as_str());
                    insert_sorted(&mut out, v);
                    proof {
                        broadcast use vstd::seq_lib::to_multiset_build;
                        assert(profile_entry_names(prefix) == profile_entry_names(
                            entries@.subrange(0, i as int),
                        ).push(n@));
                    }
                },
                None => {
                    assert(profile_entry_names(prefix) =~= profile_entry_names(
                        entries@.subrange(0, i as int),
                    ));
                },
            }
        } else {
            assert(profile_entry_names(prefix) =~= profile_entry_names(
                entries@.subrange(0, i as int),
            ));
        }
        i = i + 1;
    }
    assert(entries@.subrange(0, i as int) =~= entries@);
    let r = strings_of(&out);
    proof {
        if entry_names_distinct(entries@) {
            lemma_entry_names_unique(entries@);
            lemma_same_multiset_unique(strs(r@), profile_entry_names(entries@));
        }
    }
    Ok(r)
}

} // verus!
