use vstd::prelude::*;

verus! {

/// The bytes of an ASCII character sequence.
pub open spec fn ascii_bytes(s: Seq<char>) -> Seq<u8> {
    Seq::new(s.len(), |i: int| s[i] as u8)
}

/// Bytes of an ASCII string slice, as a fresh vector.
pub fn str_bytes(s: &str) -> (r: Vec<u8>)
    requires
        vstd::string::is_ascii(s),
    ensures
        r@ == ascii_bytes(s@),
{
    proof {
        broadcast use vstd::string::is_ascii_spec_bytes;
    }
    let r = vstd::string::StrSliceExecFns::as_bytes_vec(s);
    proof {
        assert(r@ =~= ascii_bytes(s@));
    }
    r
}

/// `needle` occurs in `hay` starting at offset `i`.
pub open spec fn contains_at(hay: Seq<u8>, needle: Seq<u8>, i: int) -> bool {
    &&& 0 <= i
    &&& i + needle.len() <= hay.len()
    &&& hay.subrange(i, i + needle.len() as int) == needle
}

/// `needle` occurs somewhere in `hay` as a contiguous run of bytes.
pub open spec fn contains_seq(hay: Seq<u8>, needle: Seq<u8>) -> bool {
    exists|i: int| contains_at(hay, needle, i)
}

/// Slice equality, byte for byte.
pub fn bytes_equal(a: &[u8], b: &[u8]) -> (r: bool)
    ensures
        r == (a@ == b@),
{
    if a.len() != b.len() {
        proof {
            assert(a@.len() != b@.len());
        }
        return false;
    }
    let n = a.len();
    let mut i: usize = 0;
    while i < n
        invariant
            n == a@.len() == b@.len(),
            0 <= i <= n,
            forall|j: int| 0 <= j < i ==> a@[j] == b@[j],
        decreases n - i,
    {
        if a[i] != b[i] {
            return false;
        }
        i += 1;
    }
    proof {
        assert(a@ =~= b@);
    }
    true
}

/// `needle` matches the bytes of `hay` at offset `at`.
pub fn matches_at(hay: &[u8], needle: &[u8], at: usize) -> (r: bool)
    requires
        at + needle@.len() <= hay@.len(),
    ensures
        r == contains_at(hay@, needle@, at as int),
{
    let m = needle.len();
    let hn = hay.len();
    let mut k: usize = 0;
    while k < m
        invariant
            m == needle@.len(),
            hn == hay@.len(),
            at + m <= hn,
            0 <= k <= m,
            forall|j: int| 0 <= j < k ==> hay@[at + j] == needle@[j],
        decreases m - k,
    {
        if hay[at + k] != needle[k] {
            proof {
                assert(hay@.subrange(at as int, at + needle@.len() as int)[k as int] != needle@[k as int]);
            }
            return false;
        }
        k += 1;
    }
    proof {
        assert(hay@.subrange(at as int, at + needle@.len() as int) =~= needle@);
    }
    true
}

/// `needle` is a prefix of `hay`.
pub fn starts_with(hay: &[u8], needle: &[u8]) -> (r: bool)
    ensures
        r == needle@.is_prefix_of(hay@),
{
    if needle.len() > hay.len() {
        return false;
    }
    let r = matches_at(hay, needle, 0);
    proof {
        assert(needle@.is_prefix_of(hay@) == contains_at(hay@, needle@, 0));
    }
    r
}

/// `needle` is a suffix of `hay`.
pub fn ends_with(hay: &[u8], needle: &[u8]) -> (r: bool)
    ensures
        r == needle@.is_suffix_of(hay@),
{
    if needle.len() > hay.len() {
        return false;
    }
    let at = hay.len() - needle.len();
    let r = matches_at(hay, needle, at);
    proof {
        assert(needle@.is_suffix_of(hay@) == contains_at(hay@, needle@, at as int));
    }
    r
}

/// `needle` occurs somewhere in `hay`; the empty needle occurs everywhere.
pub fn contains_bytes(hay: &[u8], needle: &[u8]) -> (r: bool)
    ensures
        r == contains_seq(hay@, needle@),
{
    if needle.len() > hay.len() {
        proof {
            assert forall|i: int| !contains_at(hay@, needle@, i) by {}
        }
        return false;
    }
    let last = hay.len() - needle.len();
    let mut i: usize = 0;
    loop
        invariant
            needle@.len() <= hay@.len(),
            last == hay@.len() - needle@.len(),
            0 <= i <= last,
            forall|j: int| 0 <= j < i ==> !contains_at(hay@, needle@, j),
        decreases last - i,
    {
        if matches_at(hay, needle, i) {
            return true;
        }
        if i == last {
            proof {
                assert forall|j: int| !contains_at(hay@, needle@, j) by {
                    if 0 <= j <= last {
                        assert(!contains_at(hay@, needle@, j));
                    }
                }
            }
            return false;
        }
        i += 1;
    }
}

/// Copy `s[lo..hi]` into a fresh vector.
pub fn copy_range(s: &[u8], lo: usize, hi: usize) -> (r: Vec<u8>)
    requires
        lo <= hi <= s@.len(),
    ensures
        r@ == s@.subrange(lo as int, hi as int),
{
    let mut r: Vec<u8> = Vec::with_capacity(hi - lo);
    let mut i: usize = lo;
    while i < hi
        invariant
            lo <= i <= hi <= s@.len(),
            r@ == s@.subrange(lo as int, i as int),
        decreases hi - i,
    {
        r.push(s[i]);
        proof {
            assert(r@ =~= s@.subrange(lo as int, i + 1));
        }
        i += 1;
    }
    r
}

/// Append all of `src` to `dst`.
pub fn append_bytes(dst: &mut Vec<u8>, src: &[u8])
    ensures
        final(dst)@ == old(dst)@ + src@,
{
    dst.extend_from_slice(src);
}

/// Decimal rendering of `n`, most significant digit first, no leading zeros
/// (except for `n == 0`, which renders as "0").
pub open spec fn dec_digits(n: nat) -> Seq<u8>
    decreases n,
{
    if n < 10 {
        seq![(0x30 + n) as u8]
    } else {
        dec_digits(n / 10) + seq![(0x30 + n % 10) as u8]
    }
}

/// Append the decimal rendering of `n`.
pub fn push_decimal(out: &mut Vec<u8>, n: usize)
    ensures
        final(out)@ == old(out)@ + dec_digits(n as nat),
    decreases n,
{
    if n >= 10 {
        push_decimal(out, n / 10);
        out.push(0x30 + (n % 10) as u8);
        proof {
            assert(out@ =~= old(out)@ + dec_digits(n as nat));
        }
    } else {
        out.push(0x30 + (n % 10) as u8);
        proof {
            assert(out@ =~= old(out)@ + dec_digits(n as nat));
        }
    }
}


// ---------- whitespace tokens ----------

proof fn lemma_run_start_le(s: Seq<u8>, p: spec_fn(u8) -> bool)
    ensures
        run_start(s, p) <= s.len(),
    decreases s.len(),
{
    if s.len() > 0 && p(s[0]) {
        lemma_run_start_le(s.skip(1), p);
    }
}

/// The maximal whitespace-free runs of `s`, in order.
pub open spec fn ws_tokens(s: Seq<u8>) -> Seq<Seq<u8>>
    decreases s.len(),
    via ws_tokens_dec
{
    if s.len() == 0 {
        Seq::empty()
    } else if is_ascii_ws(s[0]) {
        ws_tokens(s.skip(1))
    } else {
        let tl = run_start(s, |b: u8| !is_ascii_ws(b)) as int;
        seq![s.take(tl)] + ws_tokens(s.skip(tl))
    }
}

#[via_fn]
proof fn ws_tokens_dec(s: Seq<u8>) {
    if s.len() > 0 && !is_ascii_ws(s[0]) {
        lemma_run_start_le(s, |b: u8| !is_ascii_ws(b));
    }
}

/// Split on ASCII whitespace, dropping empty pieces.
#[verifier::loop_isolation(false)]
pub fn split_ws_tokens(s: &[u8]) -> (r: Vec<Vec<u8>>)
    ensures
        r.deep_view() == ws_tokens(s@),
{
    let ghost p = |b: u8| !is_ascii_ws(b);
    let n = s.len();
    let mut r: Vec<Vec<u8>> = Vec::new();
    proof {
        assert(r.deep_view() =~= Seq::<Seq<u8>>::empty());
        assert(s@.skip(0) =~= s@);
    }
    let mut i: usize = 0;
    while i < n
        invariant
            n == s@.len(),
            0 <= i <= n,
            ws_tokens(s@) == r.deep_view() + ws_tokens(s@.skip(i as int)),
        decreases n - i,
    {
        if is_ws_byte(s[i]) {
            proof {
                let rest = s@.skip(i as int);
                assert(rest[0] == s@[i as int]);
                assert(rest.skip(1) =~= s@.skip(i + 1));
            }
            i += 1;
        } else {
            let start = i;
            let mut j = i + 1;
            while j < n && !is_ws_byte(s[j])
                invariant
                    start < j <= n,
                    forall|t: int| start < t < j ==> !is_ascii_ws(s@[t]),
                decreases n - j,
            {
                j += 1;
            }
            let tok = copy_range(s, start, j);
            r.push(tok);
            proof {
                let rest = s@.skip(start as int);
                assert forall|t: int| 0 <= t < j - start implies p(rest[t]) by {
                    assert(rest[t] == s@[t + start]);
                }
                if j < n {
                    assert(rest[j - start] == s@[j as int]);
                }
                lemma_run_start_at(rest, p, j - start);
                assert(rest.take(j - start) =~= s@.subrange(start as int, j as int));
                assert(rest.skip(j - start) =~= s@.skip(j as int));
                assert(ws_tokens(rest) == seq![s@.subrange(start as int, j as int)] + ws_tokens(
                    s@.skip(j as int),
                ));
                assert(r.deep_view() =~~= (r.deep_view().drop_last()) + seq![
                    s@.subrange(start as int, j as int),
                ]);
                assert((r.deep_view().drop_last() + seq![s@.subrange(start as int, j as int)])
                    + ws_tokens(s@.skip(j as int)) =~~= r.deep_view().drop_last() + ws_tokens(
                    s@.skip(start as int),
                ));
            }
            i = j;
        }
    }
    proof {
        assert(s@.skip(n as int) =~= Seq::<u8>::empty());
        assert(ws_tokens(Seq::<u8>::empty()) =~= Seq::<Seq<u8>>::empty());
        assert(r.deep_view() + Seq::<Seq<u8>>::empty() =~= r.deep_view());
    }
    r
}

// ---------- line splitting ----------

/// A line with one trailing carriage return removed.
pub open spec fn trim_cr(l: Seq<u8>) -> Seq<u8> {
    if l.len() > 0 && l.last() == 0x0d {
        l.drop_last()
    } else {
        l
    }
}

/// The lines of `s`: pieces separated by newline bytes, each with a trailing
/// carriage return removed, and no empty piece after a final newline.
pub open spec fn split_lines(s: Seq<u8>) -> Seq<Seq<u8>>
    decreases s.len(),
    via split_lines_dec
{
    if s.len() == 0 {
        Seq::empty()
    } else {
        let e = run_start(s, |b: u8| b != 0x0a) as int;
        if e == s.len() {
            seq![trim_cr(s.take(e))]
        } else {
            seq![trim_cr(s.take(e))] + split_lines(s.skip(e + 1))
        }
    }
}

#[via_fn]
proof fn split_lines_dec(s: Seq<u8>) {
    if s.len() > 0 {
        lemma_run_start_le(s, |b: u8| b != 0x0a);
    }
}

/// Split into lines the way a text reader does: on newline bytes, trimming a
/// trailing carriage return from each line.
#[verifier::loop_isolation(false)]
pub fn split_into_lines(s: &[u8]) -> (r: Vec<Vec<u8>>)
    ensures
        r.deep_view() == split_lines(s@),
{
    let ghost p = |b: u8| b != 0x0a;
    let n = s.len();
    let mut r: Vec<Vec<u8>> = Vec::new();
    proof {
        assert(r.deep_view() =~= Seq::<Seq<u8>>::empty());
        assert(s@.skip(0) =~= s@);
    }
    let mut i: usize = 0;
    while i < n
        invariant
            n == s@.len(),
            0 <= i <= n,
            split_lines(s@) == r.deep_view() + split_lines(s@.skip(i as int)),
        decreases n - i,
    {
        let start = i;
        let mut j = i;
        while j < n && s[j] != 0x0a
            invariant
                start <= j <= n,
                forall|t: int| start <= t < j ==> s@[t] != 0x0a,
            decreases n - j,
        {
            j += 1;
        }
        let hi = if j > start && s[j - 1] == 0x0d {
            j - 1
        } else {
            j
        };
        let line = copy_range(s, start, hi);
        r.push(line);
        proof {
            let rest = s@.skip(start as int);
            assert forall|t: int| 0 <= t < j - start implies p(rest[t]) by {
                assert(rest[t] == s@[t + start]);
            }
            if j < n {
                assert(rest[j - start] == s@[j as int]);
            }
            lemma_run_start_at(rest, p, j - start);
            assert(rest.take(j - start) =~= s@.subrange(start as int, j as int));
            assert(line@ =~= trim_cr(rest.take(j - start)));
            if j < n {
                assert(rest.skip(j - start + 1) =~= s@.skip(j + 1));
                assert(split_lines(rest) == seq![trim_cr(rest.take(j - start))] + split_lines(
                    s@.skip(j + 1),
                ));
            } else {
                assert(split_lines(rest) == seq![trim_cr(rest.take(j - start))]);
                assert(split_lines(s@.skip(n as int)) =~= Seq::<Seq<u8>>::empty());
            }
            assert(r.deep_view() =~~= (r.deep_view().drop_last()) + seq![line@]);
            if j < n {
                assert((r.deep_view().drop_last() + seq![line@]) + split_lines(s@.skip(j + 1))
                    =~~= r.deep_view().drop_last() + split_lines(s@.skip(start as int)));
            } else {
                assert(r.deep_view().drop_last() + seq![line@] =~~= r.deep_view().drop_last()
                    + split_lines(s@.skip(start as int)));
            }
        }
        if j < n {
            i = j + 1;
        } else {
            i = n;
        }
    }
    proof {
        assert(s@.skip(n as int) =~= Seq::<u8>::empty());
        assert(r.deep_view() + Seq::<Seq<u8>>::empty() =~= r.deep_view());
    }
    r
}

// ---------- character classes ----------

/// ASCII decimal digit.
pub open spec fn is_dec_digit(b: u8) -> bool {
    0x30 <= b <= 0x39
}

/// ASCII whitespace, the same bytes that ASCII string trimming removes.
pub open spec fn is_ascii_ws(b: u8) -> bool {
    b == 0x20 || (0x09 <= b && b <= 0x0d)
}

// ---------- leading and trailing runs ----------

/// Length of the longest prefix of `s` whose bytes all satisfy `p`.
pub open spec fn run_start(s: Seq<u8>, p: spec_fn(u8) -> bool) -> nat
    decreases s.len(),
{
    if s.len() > 0 && p(s[0]) {
        (1 + run_start(s.skip(1), p)) as nat
    } else {
        0
    }
}

/// Index one past the last byte of `s` not satisfying `p`; bytes from here on
/// form the longest `p`-suffix.
pub open spec fn run_end(s: Seq<u8>, p: spec_fn(u8) -> bool) -> nat
    decreases s.len(),
{
    if s.len() > 0 && p(s.last()) {
        run_end(s.drop_last(), p)
    } else {
        s.len()
    }
}

/// `s` with its longest `p`-prefix and `p`-suffix removed.
pub open spec fn trim_matching(s: Seq<u8>, p: spec_fn(u8) -> bool) -> Seq<u8> {
    let t = s.skip(run_start(s, p) as int);
    t.take(run_end(t, p) as int)
}

pub proof fn lemma_run_start_at(s: Seq<u8>, p: spec_fn(u8) -> bool, i: int)
    requires
        0 <= i <= s.len(),
        forall|j: int| 0 <= j < i ==> p(s[j]),
        i == s.len() || !p(s[i]),
    ensures
        run_start(s, p) == i,
    decreases i,
{
    if i == 0 {
    } else {
        assert(p(s[0]));
        assert forall|j: int| 0 <= j < i - 1 implies p(s.skip(1)[j]) by {
            assert(s.skip(1)[j] == s[j + 1]);
        }
        assert(i - 1 == s.skip(1).len() || !p(s.skip(1)[i - 1]));
        lemma_run_start_at(s.skip(1), p, i - 1);
    }
}

pub proof fn lemma_run_end_at(s: Seq<u8>, p: spec_fn(u8) -> bool, i: int)
    requires
        0 <= i <= s.len(),
        forall|j: int| i <= j < s.len() ==> p(s[j]),
        i == 0 || !p(s[i - 1]),
    ensures
        run_end(s, p) == i,
    decreases s.len(),
{
    if s.len() == 0 {
    } else if i == s.len() {
        assert(!p(s.last()));
    } else {
        assert(p(s.last()));
        assert forall|j: int| i <= j < s.drop_last().len() implies p(s.drop_last()[j]) by {
            assert(s.drop_last()[j] == s[j]);
        }
        lemma_run_end_at(s.drop_last(), p, i);
    }
}

/// `s` with leading and trailing ASCII whitespace removed.
pub open spec fn spec_trim_ascii(s: Seq<u8>) -> Seq<u8> {
    trim_matching(s, |b: u8| is_ascii_ws(b))
}

/// `s` with leading and trailing `.` bytes removed.
pub open spec fn spec_trim_dots(s: Seq<u8>) -> Seq<u8> {
    trim_matching(s, |b: u8| b == 0x2e)
}

pub fn is_ws_byte(b: u8) -> (r: bool)
    ensures
        r == is_ascii_ws(b),
{
    b == 0x20 || (0x09 <= b && b <= 0x0d)
}

/// Value of an all-digit run, most significant digit first.
pub open spec fn dec_value(s: Seq<u8>) -> nat
    decreases s.len(),
{
    if s.len() == 0 {
        0
    } else {
        dec_value(s.drop_last()) * 10 + (s.last() - 0x30) as nat
    }
}

/// All bytes of `s` are decimal digits.
pub open spec fn all_dec_digits(s: Seq<u8>) -> bool {
    forall|i: int| 0 <= i < s.len() ==> is_dec_digit(s[i])
}

pub proof fn lemma_dec_value_take_le(s: Seq<u8>, i: int)
    requires
        0 <= i <= s.len(),
        all_dec_digits(s),
    ensures
        dec_value(s.take(i)) <= dec_value(s),
    decreases s.len() - i,
{
    if i == s.len() {
        assert(s.take(i) =~= s);
    } else {
        assert(s.take(i + 1).drop_last() =~= s.take(i));
        assert(s.take(i + 1).last() == s[i]);
        assert(dec_value(s.take(i + 1)) == dec_value(s.take(i)) * 10 + (s[i] - 0x30) as nat);
        lemma_dec_value_take_le(s, i + 1);
    }
}

} // verus!
