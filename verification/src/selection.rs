use crate::bytestr::{
    all_dec_digits, append_bytes, ascii_bytes, bytes_equal, contains_bytes, contains_seq,
    copy_range, dec_digits, dec_value, ends_with, is_ascii_ws, is_dec_digit, is_ws_byte,
    lemma_dec_value_take_le, lemma_run_end_at, lemma_run_start_at, push_decimal, run_end,
    run_start, spec_trim_ascii, spec_trim_dots, starts_with, str_bytes, trim_matching,
};
use vstd::prelude::*;

verus! {

/// Remove leading and trailing ASCII whitespace.
#[verifier::loop_isolation(false)]
pub fn trim_ascii(s: &[u8]) -> (r: Vec<u8>)
    ensures
        r@ == spec_trim_ascii(s@),
{
    let ghost p = |b: u8| is_ascii_ws(b);
    let n = s.len();
    let mut lo: usize = 0;
    while lo < n && is_ws_byte(s[lo])
        invariant
            n == s@.len(),
            0 <= lo <= n,
            forall|j: int| 0 <= j < lo ==> p(s@[j]),
        decreases n - lo,
    {
        lo += 1;
    }
    proof {
        lemma_run_start_at(s@, p, lo as int);
    }
    let mut hi: usize = n;
    while hi > lo && is_ws_byte(s[hi - 1])
        invariant
            n == s@.len(),
            0 <= lo <= hi <= n,
            forall|j: int| hi <= j < n ==> p(s@[j]),
        decreases hi,
    {
        hi -= 1;
    }
    proof {
        let t = s@.skip(lo as int);
        assert forall|j: int| hi - lo <= j < t.len() implies p(t[j]) by {
            assert(t[j] == s@[j + lo]);
        }
        if hi - lo > 0 {
            assert(t[hi - lo - 1] == s@[hi - 1]);
        }
        lemma_run_end_at(t, p, hi - lo);
    }
    let r = copy_range(s, lo, hi);
    proof {
        assert(r@ =~= spec_trim_ascii(s@));
    }
    r
}

/// Remove leading and trailing `.` bytes.
#[verifier::loop_isolation(false)]
pub fn trim_dots(s: &[u8]) -> (r: Vec<u8>)
    ensures
        r@ == spec_trim_dots(s@),
{
    let ghost p = |b: u8| b == 0x2e;
    let n = s.len();
    let mut lo: usize = 0;
    while lo < n && s[lo] == 0x2e
        invariant
            n == s@.len(),
            0 <= lo <= n,
            forall|j: int| 0 <= j < lo ==> p(s@[j]),
        decreases n - lo,
    {
        lo += 1;
    }
    proof {
        lemma_run_start_at(s@, p, lo as int);
    }
    let mut hi: usize = n;
    while hi > lo && s[hi - 1] == 0x2e
        invariant
            n == s@.len(),
            0 <= lo <= hi <= n,
            forall|j: int| hi <= j < n ==> p(s@[j]),
        decreases hi,
    {
        hi -= 1;
    }
    proof {
        let t = s@.skip(lo as int);
        assert forall|j: int| hi - lo <= j < t.len() implies p(t[j]) by {
            assert(t[j] == s@[j + lo]);
        }
        if hi - lo > 0 {
            assert(t[hi - lo - 1] == s@[hi - 1]);
        }
        lemma_run_end_at(t, p, hi - lo);
    }
    let r = copy_range(s, lo, hi);
    proof {
        assert(r@ =~= spec_trim_dots(s@));
    }
    r
}

// ---------- descriptors ----------

/// Every `.` replaced by `/`.
pub open spec fn dots_to_slashes(s: Seq<u8>) -> Seq<u8> {
    Seq::new(s.len(), |i: int| if s[i] == 0x2e { 0x2f } else { s[i] })
}

fn replace_dots(s: &[u8]) -> (r: Vec<u8>)
    ensures
        r@ == dots_to_slashes(s@),
{
    let n = s.len();
    let mut r: Vec<u8> = Vec::with_capacity(n);
    let mut i: usize = 0;
    while i < n
        invariant
            n == s@.len(),
            0 <= i <= n,
            r@ == dots_to_slashes(s@).take(i as int),
        decreases n - i,
    {
        let b = s[i];
        if b == 0x2e {
            r.push(0x2f);
        } else {
            r.push(b);
        }
        proof {
            assert(r@ =~= dots_to_slashes(s@).take(i + 1));
        }
        i += 1;
    }
    proof {
        assert(dots_to_slashes(s@).take(n as int) =~= dots_to_slashes(s@));
    }
    r
}

/// The dex descriptor for a keep-class argument: a class name given as
/// `a.b.C` becomes `La/b/C;`, and one already in descriptor form is kept.
pub open spec fn spec_to_dex_descriptor(class_name: Seq<u8>) -> Seq<u8> {
    let t = spec_trim_ascii(class_name);
    if t.len() >= 1 && t[0] == 0x4c && t.last() == 0x3b {
        t
    } else {
        seq![0x4cu8] + dots_to_slashes(t) + seq![0x3bu8]
    }
}

/// Format a keep-class argument as the raw descriptor bytes searched for in
/// executable sections.
pub fn to_dex_descriptor(class_name: &[u8]) -> (r: Vec<u8>)
    ensures
        r@ == spec_to_dex_descriptor(class_name@),
{
    let t = trim_ascii(class_name);
    if t.len() >= 1 && t[0] == 0x4c && t[t.len() - 1] == 0x3b {
        return t;
    }
    let mut r: Vec<u8> = Vec::new();
    r.push(0x4c);
    let mid = replace_dots(t.as_slice());
    append_bytes(&mut r, mid.as_slice());
    r.push(0x3b);
    proof {
        assert(r@ =~= spec_to_dex_descriptor(class_name@));
    }
    r
}

/// The descriptor-prefix for a keep-prefix argument: `com.example` becomes
/// `Lcom/example/`.
pub open spec fn spec_to_prefix_descriptor(prefix: Seq<u8>) -> Seq<u8> {
    let t = spec_trim_dots(spec_trim_ascii(prefix));
    seq![0x4cu8] + dots_to_slashes(t) + seq![0x2fu8]
}

/// Format a keep-prefix argument as the raw descriptor-prefix bytes searched
/// for in executable sections.
pub fn to_prefix_descriptor(prefix: &[u8]) -> (r: Vec<u8>)
    ensures
        r@ == spec_to_prefix_descriptor(prefix@),
{
    let t0 = trim_ascii(prefix);
    let t = trim_dots(t0.as_slice());
    let mut r: Vec<u8> = Vec::new();
    r.push(0x4c);
    let mid = replace_dots(t.as_slice());
    append_bytes(&mut r, mid.as_slice());
    r.push(0x2f);
    proof {
        assert(r@ =~= spec_to_prefix_descriptor(prefix@));
    }
    r
}

// ---------- payload candidates ----------

/// An executable-section candidate: `classes.dex`, or `classes<k>.dex` with
/// `k` a decimal rendering of a positive integer.
pub open spec fn spec_is_dex_candidate(name: Seq<u8>) -> bool {
    &&& name.len() >= 11
    &&& ascii_bytes("classes"@).is_prefix_of(name)
    &&& ascii_bytes(".dex"@).is_suffix_of(name)
    &&& ({
        let middle = name.subrange(7, name.len() - 4);
        middle.len() == 0 || (all_dec_digits(middle) && dec_value(middle) >= 1)
    })
}

/// A native-library candidate: `lib/<abi>/<file>.so` with one non-empty ABI
/// directory level and a `.so` file name directly under it.
pub open spec fn spec_is_lib_candidate(name: Seq<u8>) -> bool {
    &&& ascii_bytes("lib/"@).is_prefix_of(name)
    &&& ({
        let rest = name.skip(4);
        let s = run_start(rest, |b: u8| b != 0x2f) as int;
        &&& 0 < s < rest.len()
        &&& ({
            let file = rest.skip(s + 1);
            &&& file.len() > 3
            &&& ascii_bytes(".so"@).is_suffix_of(file)
            &&& (forall|j: int| 0 <= j < file.len() ==> file[j] != 0x2f)
        })
    })
}

/// An archive entry is a payload candidate iff its name matches
/// `classes<k>.dex` (`k` empty or a positive integer) or
/// `lib/<abi>/<name>.so`.
pub open spec fn spec_is_payload_entry(name: Seq<u8>) -> bool {
    spec_is_dex_candidate(name) || spec_is_lib_candidate(name)
}

proof fn lemma_dec_value_zero(s: Seq<u8>)
    requires
        all_dec_digits(s),
    ensures
        (dec_value(s) == 0) <==> (forall|i: int| 0 <= i < s.len() ==> s[i] == 0x30),
    decreases s.len(),
{
    if s.len() > 0 {
        assert(is_dec_digit(s.last()));
        assert forall|i: int| 0 <= i < s.drop_last().len() implies is_dec_digit(
            #[trigger] s.drop_last()[i],
        ) by {
            assert(s.drop_last()[i] == s[i]);
        }
        lemma_dec_value_zero(s.drop_last());
        if dec_value(s) == 0 {
            assert(s.last() == 0x30);
            assert forall|i: int| 0 <= i < s.len() implies s[i] == 0x30 by {
                if i < s.len() - 1 {
                    assert(s.drop_last()[i] == s[i]);
                }
            }
        } else {
            if forall|i: int| 0 <= i < s.len() ==> s[i] == 0x30 {
                assert forall|i: int| 0 <= i < s.drop_last().len() implies #[trigger] s.drop_last()[i]
                    == 0x30 by {
                    assert(s.drop_last()[i] == s[i]);
                }
                assert(s.last() == 0x30);
                assert(dec_value(s) == 0);
            }
        }
    }
}

/// Decide whether an entry name is a payload candidate.
#[verifier::loop_isolation(false)]
pub fn is_payload_entry(name: &[u8]) -> (r: bool)
    ensures
        r == spec_is_payload_entry(name@),
{
    proof {
        reveal_strlit("classes");
        reveal_strlit(".dex");
        reveal_strlit("lib/");
        reveal_strlit(".so");
    }
    let classes = str_bytes("classes");
    let dex = str_bytes(".dex");
    let n = name.len();
    if n >= 11 && starts_with(name, classes.as_slice()) && ends_with(name, dex.as_slice()) {
        let ghost middle = name@.subrange(7, n - 4);
        if n == 11 {
            proof {
                assert(middle.len() == 0);
            }
            return true;
        }
        let mut all_digits = true;
        let mut any_nonzero = false;
        let mut i: usize = 7;
        while i < n - 4
            invariant
                11 < n == name@.len(),
                7 <= i <= n - 4,
                middle == name@.subrange(7, n - 4),
                all_digits == all_dec_digits(middle.take(i - 7)),
                any_nonzero == !(forall|j: int| 0 <= j < i - 7 ==> middle[j] == 0x30),
            decreases n - i,
        {
            let b = name[i];
            proof {
                assert(middle[i - 7] == name@[i as int]);
                assert(middle.take(i - 7 + 1).drop_last() =~= middle.take(i - 7));
                assert(middle.take(i - 7 + 1).last() == middle[i - 7]);
            }
            if !(0x30 <= b && b <= 0x39) {
                all_digits = false;
            }
            if b != 0x30 {
                any_nonzero = true;
            }
            i += 1;
        }
        proof {
            assert(middle.take(middle.len() as int) =~= middle);
            if all_digits {
                lemma_dec_value_zero(middle);
            }
        }
        if all_digits && any_nonzero {
            return true;
        }
        proof {
            assert(!spec_is_dex_candidate(name@));
        }
        return is_lib_candidate(name);
    }
    proof {
        assert(!spec_is_dex_candidate(name@));
    }
    is_lib_candidate(name)
}

/// Decide the `lib/<abi>/<file>.so` shape.
#[verifier::loop_isolation(false)]
fn is_lib_candidate(name: &[u8]) -> (r: bool)
    ensures
        r == spec_is_lib_candidate(name@),
{
    proof {
        reveal_strlit("lib/");
        reveal_strlit(".so");
    }
    let ghost p = |b: u8| b != 0x2f;
    let lib = str_bytes("lib/");
    if !starts_with(name, lib.as_slice()) {
        return false;
    }
    let n = name.len();
    let ghost rest = name@.skip(4);
    let mut i: usize = 4;
    while i < n && name[i] != 0x2f
        invariant
            4 <= i <= n,
            n == name@.len(),
            rest == name@.skip(4),
            forall|t: int| 0 <= t < i - 4 ==> rest[t] != 0x2f,
        decreases n - i,
    {
        proof {
            assert(rest[i - 4] == name@[i as int]);
        }
        i += 1;
    }
    proof {
        assert forall|t: int| 0 <= t < i - 4 implies p(rest[t]) by {}
        if i < n {
            assert(rest[i - 4] == name@[i as int]);
        }
        lemma_run_start_at(rest, p, i - 4);
    }
    if i == n {
        return false;
    }
    if i == 4 {
        return false;
    }
    // the file part: everything after the first slash of `rest`
    let file_start = i + 1;
    let ghost file = rest.skip(i - 4 + 1);
    proof {
        assert(file =~= name@.subrange(file_start as int, n as int));
    }
    if n - file_start <= 3 {
        return false;
    }
    let so = str_bytes(".so");
    let file_copy = copy_range(name, file_start, n);
    if !ends_with(file_copy.as_slice(), so.as_slice()) {
        return false;
    }
    let mut j: usize = file_start;
    while j < n
        invariant
            file_start <= j <= n,
            n == name@.len(),
            file == name@.subrange(file_start as int, n as int),
            forall|t: int| 0 <= t < j - file_start ==> file[t] != 0x2f,
        decreases n - j,
    {
        proof {
            assert(file[j - file_start] == name@[j as int]);
        }
        if name[j] == 0x2f {
            return false;
        }
        j += 1;
    }
    true
}

// ---------- executable-section numbering ----------

/// Decimal `usize` parsing: one or more digits and nothing else, rejecting
/// values that do not fit.
pub open spec fn spec_parse_usize(s: Seq<u8>) -> Option<usize> {
    if s.len() > 0 && all_dec_digits(s) && dec_value(s) <= usize::MAX {
        Some(dec_value(s) as usize)
    } else {
        None
    }
}

/// Parse a decimal `usize`: digits only, no sign.
#[verifier::loop_isolation(false)]
pub fn parse_usize(s: &[u8]) -> (r: Option<usize>)
    ensures
        r == spec_parse_usize(s@),
{
    let n = s.len();
    if n == 0 {
        return None;
    }
    let mut acc: usize = 0;
    let mut i: usize = 0;
    while i < n
        invariant
            n == s@.len(),
            0 <= i <= n,
            all_dec_digits(s@.take(i as int)),
            acc == dec_value(s@.take(i as int)),
        decreases n - i,
    {
        let b = s[i];
        if !(0x30 <= b && b <= 0x39) {
            proof {
                assert(!is_dec_digit(s@[i as int]));
                assert(!all_dec_digits(s@));
            }
            return None;
        }
        let d = (b - 0x30) as usize;
        let wide: u128 = acc as u128 * 10 + d as u128;
        if wide > usize::MAX as u128 {
            proof {
                assert(s@.take(i + 1).drop_last() =~= s@.take(i as int));
                assert(s@.take(i + 1).last() == s@[i as int]);
                assert(dec_value(s@.take(i + 1)) > usize::MAX);
                if all_dec_digits(s@) {
                    lemma_dec_value_take_le(s@, i + 1);
                }
                assert(spec_parse_usize(s@) is None);
            }
            return None;
        }
        proof {
            assert(s@.take(i + 1).drop_last() =~= s@.take(i as int));
            assert(s@.take(i + 1).last() == s@[i as int]);
        }
        acc = wide as usize;
        i += 1;
    }
    proof {
        assert(s@.take(n as int) =~= s@);
    }
    Some(acc)
}

/// The executable-section index encoded in an entry name: `classes.dex` is 1,
/// `classes<k>.dex` is `k`.
pub open spec fn spec_class_index(name: Seq<u8>) -> Option<usize> {
    if name.len() >= 11 && ascii_bytes("classes"@).is_prefix_of(name) && ascii_bytes(
        ".dex"@,
    ).is_suffix_of(name) {
        let middle = name.subrange(7, name.len() - 4);
        if middle.len() == 0 {
            Some(1usize)
        } else {
            spec_parse_usize(middle)
        }
    } else {
        None
    }
}

/// Recover the executable-section index from an entry name.
pub fn class_index(name: &[u8]) -> (r: Option<usize>)
    ensures
        r == spec_class_index(name@),
{
    proof {
        reveal_strlit("classes");
        reveal_strlit(".dex");
    }
    let classes = str_bytes("classes");
    let dex = str_bytes(".dex");
    if name.len() >= 11 && starts_with(name, classes.as_slice()) && ends_with(
        name,
        dex.as_slice(),
    ) {
        let middle = copy_range(name, 7, name.len() - 4);
        if middle.len() == 0 {
            Some(1)
        } else {
            parse_usize(middle.as_slice())
        }
    } else {
        None
    }
}

/// The entry name for executable-section index `index`: index 1 is
/// `classes.dex`, index k > 1 is `classes<k>.dex`.
pub open spec fn spec_dex_name(index: usize) -> Seq<u8> {
    if index == 1 {
        ascii_bytes("classes.dex"@)
    } else {
        ascii_bytes("classes"@) + dec_digits(index as nat) + ascii_bytes(".dex"@)
    }
}

/// Render the entry name for an executable-section index.
pub fn dex_name_for_index(index: usize) -> (r: Vec<u8>)
    ensures
        r@ == spec_dex_name(index),
{
    proof {
        reveal_strlit("classes.dex");
        reveal_strlit("classes");
        reveal_strlit(".dex");
    }
    if index == 1 {
        str_bytes("classes.dex")
    } else {
        let mut r = str_bytes("classes");
        push_decimal(&mut r, index);
        let dex = str_bytes(".dex");
        append_bytes(&mut r, dex.as_slice());
        r
    }
}

// ---------- keep policy ----------

/// Some needle of the list occurs in `hay`.
pub open spec fn spec_any_contained(hay: Seq<u8>, needles: Seq<Seq<u8>>) -> bool {
    exists|k: int| 0 <= k < needles.len() && contains_seq(hay, needles[k])
}

/// An executable section is retained iff some keep-descriptor occurs in its
/// raw bytes; this is a coarse substring check, not a parser.
pub fn should_keep_dex(dex_bytes: &[u8], keep_descriptors: &Vec<Vec<u8>>) -> (r: bool)
    ensures
        r == spec_any_contained(dex_bytes@, keep_descriptors.deep_view()),
{
    let n = keep_descriptors.len();
    let mut k: usize = 0;
    while k < n
        invariant
            n == keep_descriptors@.len(),
            0 <= k <= n,
            forall|j: int|
                0 <= j < k ==> !contains_seq(dex_bytes@, keep_descriptors.deep_view()[j]),
        decreases n - k,
    {
        if contains_bytes(dex_bytes, keep_descriptors[k].as_slice()) {
            proof {
                assert(keep_descriptors.deep_view()[k as int] == keep_descriptors@[k as int]@);
            }
            return true;
        }
        proof {
            assert(keep_descriptors.deep_view()[k as int] == keep_descriptors@[k as int]@);
        }
        k += 1;
    }
    false
}

/// An executable section is retained iff some keep-prefix descriptor occurs
/// in its raw bytes.
pub fn matches_keep_prefix(dex_bytes: &[u8], keep_prefixes: &Vec<Vec<u8>>) -> (r: bool)
    ensures
        r == spec_any_contained(dex_bytes@, keep_prefixes.deep_view()),
{
    should_keep_dex(dex_bytes, keep_prefixes)
}

/// Index of the first byte after the last `/`, or 0 when there is none.
pub open spec fn basename_start(s: Seq<u8>) -> nat
    decreases s.len(),
{
    if s.len() == 0 {
        0
    } else if s.last() == 0x2f {
        s.len()
    } else {
        basename_start(s.drop_last())
    }
}

/// The file-name part of a path-like entry name.
pub open spec fn spec_basename(s: Seq<u8>) -> Seq<u8> {
    s.skip(basename_start(s) as int)
}

proof fn lemma_basename_start_at(s: Seq<u8>, i: int)
    requires
        0 <= i <= s.len(),
        forall|j: int| i <= j < s.len() ==> s[j] != 0x2f,
        i == 0 || s[i - 1] == 0x2f,
    ensures
        basename_start(s) == i,
    decreases s.len(),
{
    if s.len() == 0 {
    } else if i == s.len() {
        assert(s.last() == 0x2f);
    } else {
        assert(s.last() != 0x2f);
        assert forall|j: int| i <= j < s.drop_last().len() implies s.drop_last()[j] != 0x2f by {
            assert(s.drop_last()[j] == s[j]);
        }
        lemma_basename_start_at(s.drop_last(), i);
    }
}

/// Extract the file-name part of a path-like entry name.
pub fn basename(s: &[u8]) -> (r: Vec<u8>)
    ensures
        r@ == spec_basename(s@),
{
    let n = s.len();
    let mut i: usize = n;
    while i > 0 && s[i - 1] != 0x2f
        invariant
            n == s@.len(),
            0 <= i <= n,
            forall|j: int| i <= j < n ==> s@[j] != 0x2f,
        decreases i,
    {
        i -= 1;
    }
    proof {
        lemma_basename_start_at(s@, i as int);
    }
    let r = copy_range(s, i, n);
    proof {
        assert(r@ =~= spec_basename(s@));
    }
    r
}

/// The keep-libs policy: the basename of the entry matches a kept library
/// name `X` given as `X`, `libX.so`, or `X.so`.
pub open spec fn spec_keep_lib_match(file: Seq<u8>, kept: Seq<u8>) -> bool {
    ||| file == kept
    ||| file == ascii_bytes("lib"@) + kept + ascii_bytes(".so"@)
    ||| file == kept + ascii_bytes(".so"@)
}

/// A native library is retained iff its basename matches some element of the
/// keep-libs list.
pub open spec fn spec_should_keep_lib(name: Seq<u8>, keep_libs: Seq<Seq<u8>>) -> bool {
    exists|k: int| 0 <= k < keep_libs.len() && spec_keep_lib_match(spec_basename(name), keep_libs[k])
}

/// Decide whether a native-library entry is retained in plaintext.
pub fn should_keep_lib(name: &[u8], keep_libs: &Vec<Vec<u8>>) -> (r: bool)
    ensures
        r == spec_should_keep_lib(name@, keep_libs.deep_view()),
{
    proof {
        reveal_strlit("lib");
        reveal_strlit(".so");
    }
    let file = basename(name);
    let lib = str_bytes("lib");
    let so = str_bytes(".so");
    let n = keep_libs.len();
    let mut k: usize = 0;
    while k < n
        invariant
            n == keep_libs@.len(),
            file@ == spec_basename(name@),
            lib@ == ascii_bytes("lib"@),
            so@ == ascii_bytes(".so"@),
            0 <= k <= n,
            forall|j: int|
                0 <= j < k ==> !spec_keep_lib_match(spec_basename(name@), keep_libs.deep_view()[j]),
        decreases n - k,
    {
        let kept = &keep_libs[k];
        proof {
            assert(keep_libs.deep_view()[k as int] == keep_libs@[k as int]@);
        }
        if bytes_equal(file.as_slice(), kept.as_slice()) {
            return true;
        }
        let mut with_lib: Vec<u8> = Vec::new();
        append_bytes(&mut with_lib, lib.as_slice());
        append_bytes(&mut with_lib, kept.as_slice());
        append_bytes(&mut with_lib, so.as_slice());
        if bytes_equal(file.as_slice(), with_lib.as_slice()) {
            return true;
        }
        let mut with_so: Vec<u8> = Vec::new();
        append_bytes(&mut with_so, kept.as_slice());
        append_bytes(&mut with_so, so.as_slice());
        if bytes_equal(file.as_slice(), with_so.as_slice()) {
            return true;
        }
        k += 1;
    }
    false
}

} // verus!
