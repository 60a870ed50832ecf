//! File-name logic: the supported image extensions, stem/extension
//! splitting, and collision-free destination-name resolution.
use vstd::prelude::*;
use crate::date::digit_char;

verus! {

pub open spec fn lower_char(c: char) -> char {
    if c == 'A' {
        'a'
    } else if c == 'B' {
        'b'
    } else if c == 'C' {
        'c'
    } else if c == 'D' {
        'd'
    } else if c == 'E' {
        'e'
    } else if c == 'F' {
        'f'
    } else if c == 'G' {
        'g'
    } else if c == 'H' {
        'h'
    } else if c == 'I' {
        'i'
    } else if c == 'J' {
        'j'
    } else if c == 'K' {
        'k'
    } else if c == 'L' {
        'l'
    } else if c == 'M' {
        'm'
    } else if c == 'N' {
        'n'
    } else if c == 'O' {
        'o'
    } else if c == 'P' {
        'p'
    } else if c == 'Q' {
        'q'
    } else if c == 'R' {
        'r'
    } else if c == 'S' {
        's'
    } else if c == 'T' {
        't'
    } else if c == 'U' {
        'u'
    } else if c == 'V' {
        'v'
    } else if c == 'W' {
        'w'
    } else if c == 'X' {
        'x'
    } else if c == 'Y' {
        'y'
    } else if c == 'Z' {
        'z'
    } else {
        c
    }
}

fn to_lower_char(c: char) -> (r: char)
    ensures
        r == lower_char(c),
{
    match c {
        'A' => 'a',
        'B' => 'b',
        'C' => 'c',
        'D' => 'd',
        'E' => 'e',
        'F' => 'f',
        'G' => 'g',
        'H' => 'h',
        'I' => 'i',
        'J' => 'j',
        'K' => 'k',
        'L' => 'l',
        'M' => 'm',
        'N' => 'n',
        'O' => 'o',
        'P' => 'p',
        'Q' => 'q',
        'R' => 'r',
        'S' => 's',
        'T' => 't',
        'U' => 'u',
        'V' => 'v',
        'W' => 'w',
        'X' => 'x',
        'Y' => 'y',
        'Z' => 'z',
        _ => c,
    }
}

/// ASCII-lowercased rendering of a character sequence.
pub open spec fn lower_seq(s: Seq<char>) -> Seq<char> {
    s.map_values(|c: char| lower_char(c))
}

/// Index of the dot that separates stem and extension: the last `.` at a
/// position of at least 1, or -1 when the name has no extension (no dot, or
/// only a leading dot).
pub open spec fn last_dot_from(s: Seq<char>, i: int) -> int
    decreases i + 1,
{
    if i < 1 {
        -1
    } else if s[i] == '.' {
        i
    } else {
        last_dot_from(s, i - 1)
    }
}

pub open spec fn last_dot(s: Seq<char>) -> int {
    last_dot_from(s, s.len() - 1)
}

pub open spec fn stem_of(s: Seq<char>) -> Seq<char> {
    if last_dot(s) >= 1 {
        s.take(last_dot(s))
    } else {
        s
    }
}

pub open spec fn ext_of(s: Seq<char>) -> Seq<char> {
    if last_dot(s) >= 1 {
        s.skip(last_dot(s) + 1)
    } else {
        Seq::<char>::empty()
    }
}

/// The fixed set of recognized image extensions, compared case
/// insensitively.
pub open spec fn supported_ext(e: Seq<char>) -> bool {
    ||| lower_seq(e) == "jpg"@
    ||| lower_seq(e) == "jpeg"@
    ||| lower_seq(e) == "png"@
    ||| lower_seq(e) == "tiff"@
    ||| lower_seq(e) == "tif"@
    ||| lower_seq(e) == "heic"@
    ||| lower_seq(e) == "heif"@
    ||| lower_seq(e) == "cr2"@
    ||| lower_seq(e) == "nef"@
    ||| lower_seq(e) == "arw"@
    ||| lower_seq(e) == "dng"@
    ||| lower_seq(e) == "orf"@
    ||| lower_seq(e) == "rw2"@
    ||| lower_seq(e) == "pef"@
    ||| lower_seq(e) == "srw"@
}

pub open spec fn is_supported_image_spec(name: Seq<char>) -> bool {
    last_dot(name) >= 1 && supported_ext(ext_of(name))
}

fn find_last_dot(s: &str) -> (r: Option<usize>)
    ensures
        match r {
            Some(k) => last_dot(s@) == k && 1 <= k < s@.len(),
            None => last_dot(s@) == -1,
        },
{
    let n = s.unicode_len();
    let mut j = n;
    while j > 1
        invariant
            0 <= j <= n,
            n == s@.len(),
            last_dot(s@) == last_dot_from(s@, j - 1),
        decreases j,
    {
        let c = s.get_char(j - 1);
        if c == '.' {
            return Some(j - 1);
        }
        j = j - 1;
    }
    None
}

/// Splits a file name into stem and extension, Rust path conventions: the
/// extension is what follows the last dot, and a lone leading dot starts no
/// extension.
pub fn split_name<'a>(s: &'a str) -> (r: (&'a str, &'a str))
    ensures
        r.0@ == stem_of(s@),
        r.1@ == ext_of(s@),
{
    let n = s.unicode_len();
    match find_last_dot(s) {
        Some(k) => {
            let stem = s.substring_char(0, k);
            let ext = s.substring_char(k + 1, n);
            assert(stem@ =~= stem_of(s@));
            assert(ext@ =~= ext_of(s@));
            (stem, ext)
        },
        None => {
            let whole = s.substring_char(0, n);
            let empty = s.substring_char(n, n);
            assert(whole@ =~= stem_of(s@));
            assert(empty@ =~= ext_of(s@));
            (whole, empty)
        },
    }
}

fn eq_lower_lit(e: &str, lit: &str) -> (r: bool)
    ensures
        r == (lower_seq(e@) == lit@),
{
    let n = e.unicode_len();
    if n != lit.unicode_len() {
        assert(lower_seq(e@).len() == e@.len());
        return false;
    }
    let mut i: usize = 0;
    while i < n
        invariant
            0 <= i <= n,
            n == e@.len() == lit@.len(),
            forall|k: int| 0 <= k < i ==> lower_seq(e@)[k] == lit@[k],
        decreases n - i,
    {
        if to_lower_char(e.get_char(i)) != lit.get_char(i) {
            assert(lower_seq(e@)[i as int] != lit@[i as int]);
            return false;
        }
        i = i + 1;
    }
    assert(lower_seq(e@) =~= lit@);
    true
}

/// Whether the file name carries one of the recognized image extensions,
/// case insensitively.
pub fn is_supported_image(name: &str) -> (r: bool)
    ensures
        r == is_supported_image_spec(name@),
{
    let n = name.unicode_len();
    match find_last_dot(name) {
        None => false,
        Some(k) => {
            let ext = name.substring_char(k + 1, n);
            assert(ext@ =~= ext_of(name@));
            eq_lower_lit(ext, "jpg") || eq_lower_lit(ext, "jpeg") || eq_lower_lit(ext, "png")
                || eq_lower_lit(ext, "tiff") || eq_lower_lit(ext, "tif") || eq_lower_lit(
                ext,
                "heic",
            ) || eq_lower_lit(ext, "heif") || eq_lower_lit(ext, "cr2") || eq_lower_lit(ext, "nef")
                || eq_lower_lit(ext, "arw") || eq_lower_lit(ext, "dng") || eq_lower_lit(ext, "orf")
                || eq_lower_lit(ext, "rw2") || eq_lower_lit(ext, "pef") || eq_lower_lit(ext, "srw")
        },
    }
}

/// The decimal rendering of a nonnegative integer, no padding.
pub open spec fn dec_seq(n: int) -> Seq<char>
    decreases n,
{
    if n < 10 {
        seq![digit_char(n)]
    } else {
        dec_seq(n / 10) + seq![digit_char(n % 10)]
    }
}

fn digit_str_small(k: u64) -> (r: &'static str)
    requires
        k < 10,
    ensures
        r@ =~= seq![digit_char(k as int)],
{
    crate::date::digit_str(k as u32)
}

fn push_dec(out: &mut String, n: u64)
    ensures
        final(out)@ == old(out)@ + dec_seq(n as int),
    decreases n,
{
    if n < 10 {
        out.append(digit_str_small(n));
        assert(final(out)@ =~= old(out)@ + dec_seq(n as int));
    } else {
        push_dec(out, n / 10);
        out.append(digit_str_small(n % 10));
        assert(final(out)@ =~= old(out)@ + dec_seq(n as int));
    }
}

/// Character-for-character string equality.
pub fn str_eq(a: &str, b: &str) -> (r: bool)
    ensures
        r == (a@ == b@),
{
    let n = a.unicode_len();
    if n != b.unicode_len() {
        return false;
    }
    let mut i: usize = 0;
    while i < n
        invariant
            0 <= i <= n,
            n == a@.len() == b@.len(),
            forall|k: int| 0 <= k < i ==> a@[k] == b@[k],
        decreases n - i,
    {
        if a.get_char(i) != b.get_char(i) {
            return false;
        }
        i = i + 1;
    }
    assert(a@ =~= b@);
    true
}

/// Whether `n` occurs among `names`.
pub open spec fn name_in(names: Seq<Seq<char>>, n: Seq<char>) -> bool {
    exists|k: int| 0 <= k < names.len() && names[k] == n
}

pub fn contains_name(names: &Vec<String>, n: &str) -> (r: bool)
    ensures
        r == name_in(names.deep_view(), n@),
{
    let mut k: usize = 0;
    while k < names.len()
        invariant
            0 <= k <= names.len(),
            names.deep_view().len() == names@.len(),
            forall|j: int| 0 <= j < names@.len() ==> names.deep_view()[j] == names@[j]@,
            forall|j: int| 0 <= j < k ==> names@[j]@ != n@,
        decreases names.len() - k,
    {
        if str_eq(names[k].as_str(), n) {
            assert(names.deep_view()[k as int] == n@);
            return true;
        }
        k = k + 1;
    }
    false
}

/// The candidate name with conflict suffix `i`: `stem_i.ext`, the dot
/// omitted when the extension is empty.
pub open spec fn suffix_name(stem: Seq<char>, ext: Seq<char>, i: int) -> Seq<char> {
    stem + seq!['_'] + dec_seq(i) + (if ext.len() > 0 {
        seq!['.'] + ext
    } else {
        Seq::<char>::empty()
    })
}

/// The first conflict suffix in `1..10000` whose candidate name is free, or
/// 10000 when every one is taken.
pub open spec fn first_free(names: Seq<Seq<char>>, stem: Seq<char>, ext: Seq<char>, i: int) -> int
    decreases 10000 - i,
{
    if i < 1 || i >= 10000 {
        10000
    } else if !name_in(names, suffix_name(stem, ext, i)) {
        i
    } else {
        first_free(names, stem, ext, i + 1)
    }
}

/// The fallback name when the probe range is exhausted: the original name
/// with the run's timestamp tag appended.
pub open spec fn fallback_name(name: Seq<char>, tag: int) -> Seq<char> {
    name + seq!['_'] + dec_seq(tag)
}

/// What destination resolution returns given the names already present.
pub open spec fn resolve_spec(names: Seq<Seq<char>>, name: Seq<char>, tag: int) -> Seq<char> {
    if !name_in(names, name) {
        name
    } else {
        let f = first_free(names, stem_of(name), ext_of(name), 1);
        if f < 10000 {
            suffix_name(stem_of(name), ext_of(name), f)
        } else {
            fallback_name(name, tag)
        }
    }
}

/// Whether resolution had to fall back to the timestamp name; only then can
/// the resolved name collide with an existing one.
pub open spec fn resolve_exhausted(names: Seq<Seq<char>>, name: Seq<char>) -> bool {
    name_in(names, name) && first_free(names, stem_of(name), ext_of(name), 1) == 10000
}

fn build_suffix(stem: &str, ext: &str, i: u64) -> (r: String)
    ensures
        r@ == suffix_name(stem@, ext@, i as int),
{
    let mut out = stem.to_owned();
    proof {
        reveal_strlit("_");
        reveal_strlit(".");
    }
    out.append("_");
    push_dec(&mut out, i);
    if !ext.is_empty() {
        out.append(".");
        out.append(ext);
    }
    assert(out@ =~= suffix_name(stem@, ext@, i as int));
    out
}

/// The DestinationResolver: returns `name` itself when it is not taken,
/// otherwise probes `stem_1.ext, stem_2.ext, ...` and returns the first
/// free candidate; after 9999 taken candidates it falls back to appending
/// the run's timestamp tag.  Except in that fallback case the result does
/// not occur among `existing`.
pub fn resolve_conflict(existing: &Vec<String>, file_name: &str, fallback_tag: u64) -> (r: String)
    ensures
        r@ == resolve_spec(existing.deep_view(), file_name@, fallback_tag as int),
        !resolve_exhausted(existing.deep_view(), file_name@) ==> !name_in(
            existing.deep_view(),
            r@,
        ),
{
    let ghost names = existing.deep_view();
    if !contains_name(existing, file_name) {
        return file_name.to_owned();
    }
    let (stem, ext) = split_name(file_name);
    let mut i: u64 = 1;
    while i < 10000
        invariant
            1 <= i <= 10000,
            names == existing.deep_view(),
            name_in(names, file_name@),
            stem@ == stem_of(file_name@),
            ext@ == ext_of(file_name@),
            first_free(names, stem@, ext@, 1) == first_free(names, stem@, ext@, i as int),
        decreases 10000 - i,
    {
        let cand = build_suffix(stem, ext, i);
        if !contains_name(existing, cand.as_str()) {
            assert(first_free(names, stem@, ext@, i as int) == i);
            assert(name_in(names, file_name@));
            assert(resolve_spec(names, file_name@, fallback_tag as int) == suffix_name(
                stem@,
                ext@,
                i as int,
            ));
            return cand;
        }
        i = i + 1;
    }
    assert(first_free(names, stem@, ext@, 1) == 10000);
    let mut out = file_name.to_owned();
    proof {
        reveal_strlit("_");
    }
    out.append("_");
    push_dec(&mut out, fallback_tag);
    assert(out@ =~= fallback_name(file_name@, fallback_tag as int));
    out
}

proof fn lemma_dec_len_pos(n: int)
    ensures
        dec_seq(n).len() >= 1,
    decreases n,
{
    if n >= 10 {
        lemma_dec_len_pos(n / 10);
    }
}

proof fn lemma_digit_char_inj(a: int, b: int)
    requires
        0 <= a < 10,
        0 <= b < 10,
        digit_char(a) == digit_char(b),
    ensures
        a == b,
{
    crate::date::lemma_digit_char_props(a);
    crate::date::lemma_digit_char_props(b);
}

proof fn lemma_dec_injective(a: int, b: int)
    requires
        0 <= a,
        0 <= b,
        dec_seq(a) == dec_seq(b),
    ensures
        a == b,
    decreases a,
{
    if a < 10 && b < 10 {
        assert(dec_seq(a)[0] == digit_char(a) && dec_seq(b)[0] == digit_char(b));
        lemma_digit_char_inj(a, b);
    } else if a < 10 {
        lemma_dec_len_pos(b / 10);
        assert(dec_seq(b).len() >= 2 && dec_seq(a).len() == 1);
    } else if b < 10 {
        lemma_dec_len_pos(a / 10);
        assert(dec_seq(a).len() >= 2 && dec_seq(b).len() == 1);
    } else {
        assert(dec_seq(a).last() == digit_char(a % 10));
        assert(dec_seq(b).last() == digit_char(b % 10));
        lemma_digit_char_inj(a % 10, b % 10);
        assert(dec_seq(a).drop_last() =~= dec_seq(a / 10));
        assert(dec_seq(b).drop_last() =~= dec_seq(b / 10));
        lemma_dec_injective(a / 10, b / 10);
        vstd::arithmetic::div_mod::lemma_fundamental_div_mod(a, 10);
        vstd::arithmetic::div_mod::lemma_fundamental_div_mod(b, 10);
    }
}

proof fn lemma_suffix_ne(stem: Seq<char>, ext: Seq<char>, i: int, j: int)
    requires
        0 <= i,
        0 <= j,
        i != j,
    ensures
        suffix_name(stem, ext, i) != suffix_name(stem, ext, j),
{
    let si = suffix_name(stem, ext, i);
    let sj = suffix_name(stem, ext, j);
    if si == sj {
        let di = dec_seq(i);
        let dj = dec_seq(j);
        assert(si.len() == sj.len());
        assert(di.len() == dj.len());
        assert forall|k: int| 0 <= k < di.len() implies di[k] == dj[k] by {
            assert(si[stem.len() + 1 + k] == di[k]);
            assert(sj[stem.len() + 1 + k] == dj[k]);
        }
        assert(di =~= dj);
        lemma_dec_injective(i, j);
    }
}

proof fn lemma_first_free_all_taken(names: Seq<Seq<char>>, stem: Seq<char>, ext: Seq<char>, i: int)
    requires
        1 <= i <= 10000,
        first_free(names, stem, ext, i) == 10000,
    ensures
        forall|j: int| i <= j < 10000 ==> name_in(names, #[trigger] suffix_name(stem, ext, j)),
    decreases 10000 - i,
{
    if i < 10000 {
        assert(name_in(names, suffix_name(stem, ext, i)));
        lemma_first_free_all_taken(names, stem, ext, i + 1);
    }
}

proof fn lemma_first_free_range(names: Seq<Seq<char>>, stem: Seq<char>, ext: Seq<char>, i: int)
    requires
        1 <= i <= 10000,
    ensures
        i <= first_free(names, stem, ext, i) <= 10000,
    decreases 10000 - i,
{
    if i < 10000 && name_in(names, suffix_name(stem, ext, i)) {
        lemma_first_free_range(names, stem, ext, i + 1);
    }
}

proof fn lemma_first_free_is_free(names: Seq<Seq<char>>, stem: Seq<char>, ext: Seq<char>, i: int)
    requires
        1 <= i,
        first_free(names, stem, ext, i) < 10000,
    ensures
        !name_in(names, suffix_name(stem, ext, first_free(names, stem, ext, i))),
    decreases 10000 - i,
{
    if i < 10000 {
        if name_in(names, suffix_name(stem, ext, i)) {
            lemma_first_free_is_free(names, stem, ext, i + 1);
        }
    }
}

/// Exhausting all 9999 probe names is possible only against at least 9999
/// existing names: the probe names are pairwise distinct, and each of them
/// occurs among `names`.
pub proof fn lemma_exhaustion_needs_9999(names: Seq<Seq<char>>, stem: Seq<char>, ext: Seq<char>)
    requires
        first_free(names, stem, ext, 1) == 10000,
    ensures
        names.len() >= 9999,
{
    broadcast use vstd::seq_lib::seq_to_set_is_finite;

    lemma_first_free_all_taken(names, stem, ext, 1);
    let ps = Seq::new(9999nat, |k: int| suffix_name(stem, ext, k + 1));
    assert(ps.no_duplicates()) by {
        assert forall|k: int, l: int|
            0 <= k < ps.len() && 0 <= l < ps.len() && k != l implies ps[k] != ps[l] by {
            lemma_suffix_ne(stem, ext, k + 1, l + 1);
        }
    }
    ps.unique_seq_to_set();
    assert(ps.to_set().subset_of(names.to_set())) by {
        assert forall|x: Seq<char>| ps.to_set().contains(x) implies names.to_set().contains(
            x,
        ) by {
            let k = choose|k: int| 0 <= k < ps.len() && ps[k] == x;
            assert(name_in(names, suffix_name(stem, ext, k + 1)));
            let w = choose|w: int| 0 <= w < names.len() && names[w] == x;
            assert(names.contains(x));
        }
    }
    vstd::set_lib::lemma_len_subset(ps.to_set(), names.to_set());
    names.lemma_cardinality_of_set();
}

/// With fewer than 9999 existing names, resolution never exhausts its probe
/// range, so the resolved name is always fresh.
pub proof fn lemma_resolve_fresh(names: Seq<Seq<char>>, name: Seq<char>, tag: int)
    requires
        names.len() < 9999,
    ensures
        !name_in(names, resolve_spec(names, name, tag)),
{
    if name_in(names, name) {
        let stem = stem_of(name);
        let ext = ext_of(name);
        let f = first_free(names, stem, ext, 1);
        lemma_first_free_range(names, stem, ext, 1);
        if f < 10000 {
            lemma_first_free_is_free(names, stem, ext, 1);
        } else {
            lemma_exhaustion_needs_9999(names, stem, ext);
        }
    }
}

} // verus!
