//! The profile-guided-optimization walk-through: a bump arena, and a naive
//! and an optimized text processor that count occurrences of a pattern and
//! upper-case ASCII letters.
use vstd::prelude::*;
use crate::text::{chars_of, lines_of, spec_lines, string_from_chars};
use vstd::string::StringSliceAdditionalSpecFns;
use vstd::utf8::{encode_scalar, encode_utf8};

verus! {

/// A bump allocator over a byte buffer: allocations are offsets into the
/// buffer, handed out in increasing order until `reset`.
pub struct Arena {
    buffer: Vec<u8>,
    offset: usize,
}

/// `offset` rounded up with the mask of `align`: `(offset + align - 1) & !(align - 1)`.
pub open spec fn align_up(offset: usize, align: usize) -> usize {
    ((offset + align - 1) as usize) & !((align - 1) as usize)
}

/// For a power-of-two alignment, rounding up gives the least multiple of the
/// alignment that is not below the offset.
pub proof fn lemma_align_up_pow2(offset: usize, k: usize)
    requires
        k < 32,
        offset + (1usize << k) - 1 <= usize::MAX,
    ensures
        align_up(offset, 1usize << k) >= offset,
        align_up(offset, 1usize << k) - offset < (1usize << k),
        align_up(offset, 1usize << k) & (((1usize << k) - 1) as usize) == 0,
{
    let a: usize = 1usize << k;
    assert(1usize << k >= 1usize) by (bit_vector)
        requires
            k < 32,
    ;
    let t: usize = (offset + a - 1) as usize;
    assert(t & !((a - 1) as usize) >= offset && (t & !((a - 1) as usize)) - offset < a && (t & !((
    a - 1) as usize)) & ((a - 1) as usize) == 0) by (bit_vector)
        requires
            k < 32,
            a == 1usize << k,
            t == offset + (a - 1),
    ;
}

/// Rounding up never goes below the offset, whatever the alignment.
proof fn lemma_align_up_not_below(offset: usize, align: usize)
    requires
        align >= 1,
        offset + align - 1 <= usize::MAX,
    ensures
        align_up(offset, align) >= offset,
{
    let t: usize = (offset + align - 1) as usize;
    let m: usize = (align - 1) as usize;
    assert(t & !m >= t - m) by (bit_vector)
        requires
            t >= m,
    ;
}

/// The used count of an arena of `cap` bytes after the requests `reqs`
/// (each a size and an alignment), made in order from used count `used`:
/// a request that fits moves it to its aligned offset plus its size, one
/// that does not leaves it.
pub open spec fn used_after(used: nat, reqs: Seq<(usize, usize)>, cap: nat) -> nat
    decreases reqs.len(),
{
    if reqs.len() == 0 {
        used
    } else {
        let u = used_after(used, reqs.drop_last(), cap);
        let (size, align) = reqs.last();
        let a = align_up(u as usize, align);
        if a + size > cap {
            u
        } else {
            (a + size) as nat
        }
    }
}

/// The offset request `k` of `reqs` is handed, or `None` when it does not
/// fit.
pub open spec fn offset_of(used: nat, reqs: Seq<(usize, usize)>, cap: nat, k: int) -> Option<int> {
    let u = used_after(used, reqs.take(k), cap);
    let a = align_up(u as usize, reqs[k].1);
    if a + reqs[k].0 > cap {
        None
    } else {
        Some(a as int)
    }
}

/// Every request of the run meets `allocate`'s precondition.
pub open spec fn requests_ok(used: nat, reqs: Seq<(usize, usize)>, cap: nat) -> bool {
    forall|k: int|
        0 <= k < reqs.len() ==> {
            let u = #[trigger] used_after(used, reqs.take(k), cap);
            &&& reqs[k].1 >= 1
            &&& u + reqs[k].1 - 1 <= usize::MAX
            &&& align_up(u as usize, reqs[k].1) + reqs[k].0 <= usize::MAX
        }
}

proof fn lemma_used_after_step(used: nat, reqs: Seq<(usize, usize)>, cap: nat, k: int)
    requires
        0 <= k < reqs.len(),
        requests_ok(used, reqs, cap),
    ensures
        used_after(used, reqs.take(k + 1), cap) >= used_after(used, reqs.take(k), cap),
        offset_of(used, reqs, cap, k) matches Some(o) ==> used_after(used, reqs.take(k + 1), cap)
            == o + reqs[k].0 && o >= used_after(used, reqs.take(k), cap),
{
    let u = used_after(used, reqs.take(k), cap);
    assert(reqs.take(k + 1).drop_last() =~= reqs.take(k));
    assert(reqs.take(k + 1).last() == reqs[k]);
    lemma_align_up_not_below(u as usize, reqs[k].1);
}

proof fn lemma_used_after_mono(used: nat, reqs: Seq<(usize, usize)>, cap: nat, i: int, j: int)
    requires
        0 <= i <= j <= reqs.len(),
        requests_ok(used, reqs, cap),
    ensures
        used_after(used, reqs.take(i), cap) <= used_after(used, reqs.take(j), cap),
    decreases j - i,
{
    if i < j {
        lemma_used_after_mono(used, reqs, cap, i, j - 1);
        lemma_used_after_step(used, reqs, cap, j - 1);
    }
}

/// The blocks a run of allocations hands out since a reset are disjoint and
/// in increasing order, and each lies inside the buffer: a block that fits
/// ends at or before the start of every later block that fits.
pub proof fn lemma_blocks_disjoint_increasing(
    used: nat,
    reqs: Seq<(usize, usize)>,
    cap: nat,
    k: int,
    l: int,
)
    requires
        requests_ok(used, reqs, cap),
        0 <= k < l < reqs.len(),
        offset_of(used, reqs, cap, k) is Some,
        offset_of(used, reqs, cap, l) is Some,
    ensures
        offset_of(used, reqs, cap, k)->Some_0 + reqs[k].0 <= offset_of(used, reqs, cap, l)->Some_0,
        offset_of(used, reqs, cap, l)->Some_0 + reqs[l].0 <= cap,
{
    lemma_used_after_step(used, reqs, cap, k);
    lemma_used_after_mono(used, reqs, cap, k + 1, l);
    lemma_used_after_step(used, reqs, cap, l);
}

impl Arena {
    /// Bytes handed out since the last reset.
    pub closed spec fn spec_used(&self) -> nat {
        self.offset as nat
    }

    /// The buffer's contents.
    pub closed spec fn bytes(&self) -> Seq<u8> {
        self.buffer@
    }

    /// Well-formed: never more handed out than the buffer holds.
    pub closed spec fn wf(&self) -> bool {
        self.offset <= self.buffer@.len()
    }

    /// An arena over `capacity` zero bytes.
    pub fn new(capacity: usize) -> (r: Self)
        ensures
            r.wf(),
            r.spec_used() == 0,
            r.bytes() == Seq::new(capacity as nat, |i: int| 0u8),
    {
        let mut buffer: Vec<u8> = Vec::with_capacity(capacity);
        buffer.resize(capacity, 0);
        assert(buffer@ =~= Seq::new(capacity as nat, |i: int| 0u8));
        Arena { buffer, offset: 0 }
    }

    /// Hands out `size` bytes at the used offset rounded up with `align`, or
    /// `None`, changing nothing, when they do not fit.
    pub fn allocate(&mut self, size: usize, align: usize) -> (r: Option<usize>)
        requires
            old(self).wf(),
            align >= 1,
            old(self).spec_used() + align - 1 <= usize::MAX,
            align_up(old(self).spec_used() as usize, align) + size <= usize::MAX,
        ensures
            final(self).wf(),
            final(self).bytes() == old(self).bytes(),
            ({
                let aligned = align_up(old(self).spec_used() as usize, align);
                if aligned + size > old(self).bytes().len() {
                    r is None && final(self).spec_used() == old(self).spec_used()
                } else {
                    r == Some(aligned) && final(self).spec_used() == aligned + size
                }
            }),
    {
        let aligned = (self.offset + (align - 1)) & !(align - 1);
        if aligned + size > self.buffer.len() {
            return None;
        }
        self.offset = aligned + size;
        Some(aligned)
    }

    /// Hands everything back.
    pub fn reset(&mut self)
        ensures
            final(self).wf(),
            final(self).spec_used() == 0,
            final(self).bytes() == old(self).bytes(),
    {
        self.offset = 0;
    }

    /// Bytes handed out since the last reset.
    pub fn used(&self) -> (r: usize)
        ensures
            r == self.spec_used(),
    {
        self.offset
    }

    /// Size of the buffer.
    pub fn capacity(&self) -> (r: usize)
        ensures
            r == self.bytes().len(),
    {
        self.buffer.len()
    }
}

/// `pat` occurs in `text` starting at position `i`.
pub open spec fn matches_at(text: Seq<u8>, pat: Seq<u8>, i: int) -> bool {
    &&& 0 <= i
    &&& i + pat.len() <= text.len()
    &&& text.subrange(i, i + pat.len()) == pat
}

/// Number of positions below `hi` where `pat` occurs in `text`.
pub open spec fn count_below(text: Seq<u8>, pat: Seq<u8>, hi: int) -> nat
    decreases hi,
{
    if hi <= 0 {
        0
    } else {
        count_below(text, pat, hi - 1) + if matches_at(text, pat, hi - 1) {
            1nat
        } else {
            0nat
        }
    }
}

/// Number of positions in `lo..hi` where `pat` occurs in `text`.
pub open spec fn count_between(text: Seq<u8>, pat: Seq<u8>, lo: int, hi: int) -> int {
    if hi <= lo {
        0
    } else {
        count_below(text, pat, hi) - count_below(text, pat, lo)
    }
}

/// Number of (possibly overlapping) occurrences of a non-empty `pat` in
/// `text`; zero for an empty pattern.
pub open spec fn occurrences(text: Seq<u8>, pat: Seq<u8>) -> nat {
    if pat.len() == 0 || text.len() < pat.len() {
        0
    } else {
        count_below(text, pat, text.len() - pat.len() + 1)
    }
}

proof fn lemma_count_below_monotonic(text: Seq<u8>, pat: Seq<u8>, a: int, b: int)
    requires
        a <= b,
    ensures
        count_below(text, pat, a) <= count_below(text, pat, b),
        count_below(text, pat, b) - count_below(text, pat, a) <= b - a || a < 0,
    decreases b - a,
{
    if a < b {
        lemma_count_below_monotonic(text, pat, a, b - 1);
    }
}

/// Whether `pat` occurs in `text` at `i`, comparing byte by byte.
fn match_at(text: &[u8], pat: &[u8], i: usize) -> (r: bool)
    requires
        i + pat@.len() <= text@.len(),
    ensures
        r == matches_at(text@, pat@, i as int),
{
    let plen = pat.len();
    let tlen = text.len();
    let mut j: usize = 0;
    while j < plen
        invariant
            j <= plen,
            plen == pat@.len(),
            tlen == text@.len(),
            i + plen <= tlen,
            forall|k: int| 0 <= k < j ==> text@[i + k] == pat@[k],
        decreases plen - j,
    {
        if text[i + j] != pat[j] {
            assert(text@.subrange(i as int, i + plen)[j as int] != pat@[j as int]);
            return false;
        }
        j = j + 1;
    }
    assert(text@.subrange(i as int, i + plen) =~= pat@);
    true
}

/// The same test without branching on the bytes: an all-ones flag and-ed
/// with each comparison.
fn match_at_branchless(text: &[u8], pat: &[u8], i: usize) -> (r: usize)
    requires
        i + pat@.len() <= text@.len(),
    ensures
        r == if matches_at(text@, pat@, i as int) {
            1usize
        } else {
            0usize
        },
{
    let plen = pat.len();
    let tlen = text.len();
    let mut match_bits: usize = 1;
    let mut j: usize = 0;
    while j < plen
        invariant
            j <= plen,
            plen == pat@.len(),
            tlen == text@.len(),
            i + plen <= tlen,
            match_bits == if forall|k: int| 0 <= k < j ==> text@[i + k] == pat@[k] {
                1usize
            } else {
                0usize
            },
        decreases plen - j,
    {
        let eq: usize = if text[i + j] == pat[j] { 1 } else { 0 };
        match_bits = match_bits & eq;
        proof {
            assert(1usize & 1usize == 1usize) by (bit_vector);
            assert(1usize & 0usize == 0usize) by (bit_vector);
            assert(0usize & 1usize == 0usize) by (bit_vector);
            assert(0usize & 0usize == 0usize) by (bit_vector);
            if !(forall|k: int| 0 <= k < j ==> text@[i + k] == pat@[k]) {
                let w = choose|k: int| 0 <= k < j && !(text@[i + k] == pat@[k]);
                assert(0 <= w < j + 1 && text@[i + w] != pat@[w]);
            }
            if text@[i + j] != pat@[j as int] {
                assert(!(text@[i + j] == pat@[j as int]));
            }
        }
        j = j + 1;
    }
    proof {
        if match_bits == 1 {
            assert(text@.subrange(i as int, i + plen) =~= pat@);
        } else {
            let w = choose|k: int| 0 <= k < plen && !(text@[i + k] == pat@[k]);
            assert(text@.subrange(i as int, i + plen)[w] != pat@[w]);
        }
    }
    match_bits
}

/// Counts the positions `lo..hi` where `pat` occurs, with byte-by-byte tests.
fn count_range(text: &[u8], pat: &[u8], lo: usize, hi: usize) -> (r: usize)
    requires
        lo <= hi,
        hi + pat@.len() <= text@.len() + 1,
        pat@.len() > 0,
    ensures
        r == count_between(text@, pat@, lo as int, hi as int),
{
    let mut count: usize = 0;
    let mut i: usize = lo;
    while i < hi
        invariant
            lo <= i <= hi,
            hi + pat@.len() <= text@.len() + 1,
            pat@.len() > 0,
            count == count_between(text@, pat@, lo as int, i as int),
            count <= i - lo,
        decreases hi - i,
    {
        let m = match_at(text, pat, i);
        if m {
            count = count + 1;
        }
        i = i + 1;
    }
    count
}

/// The text processor written without attention to speed.
pub struct NaiveStringProcessor {
    pub lines: Vec<String>,
    pub raw_text: String,
}

/// ASCII upper case of a letter `'a'..='z'`; every other character stays.
pub open spec fn upper_char(c: char) -> char {
    if 'a' <= c && c <= 'z' {
        ((c as u32) - 32) as char
    } else {
        c
    }
}

/// ASCII upper case of a byte `b'a'..=b'z'`; every other byte stays.
pub open spec fn upper_byte(b: u8) -> u8 {
    if 97 <= b && b <= 122 {
        (b - 32) as u8
    } else {
        b
    }
}

/// Upper-casing a byte changes only the lower-case ASCII letters, each to
/// the upper-case letter 32 below it; it never leaves a lower-case letter,
/// and doing it twice is doing it once.
pub proof fn lemma_upper_byte(b: u8)
    ensures
        !(97 <= upper_byte(b) <= 122),
        upper_byte(upper_byte(b)) == upper_byte(b),
        97 <= b <= 122 ==> 65 <= upper_byte(b) <= 90 && upper_byte(b) + 32 == b,
        !(97 <= b <= 122) ==> upper_byte(b) == b,
{
}

/// Appending a byte to a text adds one occurrence of a non-empty pattern
/// exactly when the text now ends with the pattern; an empty text holds
/// none.
pub proof fn lemma_occurrences_append(text: Seq<u8>, pat: Seq<u8>, b: u8)
    requires
        pat.len() > 0,
    ensures
        occurrences(Seq::<u8>::empty(), pat) == 0,
        occurrences(text.push(b), pat) == occurrences(text, pat) + if text.push(b).len()
            >= pat.len() && text.push(b).subrange(
            text.push(b).len() - pat.len(),
            text.push(b).len() as int,
        ) == pat {
            1nat
        } else {
            0nat
        },
{
    let t2 = text.push(b);
    let n = text.len() as int;
    let p = pat.len() as int;
    if n + 1 >= p {
        let h = n + 1 - p;
        lemma_count_below_prefix(t2, pat, n, h);
        assert(t2.take(n) =~= text);
        if n < p {
            assert(h == 0);
        }
        assert(count_below(t2, pat, h + 1) == count_below(t2, pat, h) + if matches_at(t2, pat, h) {
            1nat
        } else {
            0nat
        });
    }
}

impl NaiveStringProcessor {
    /// A processor holding no text.
    pub fn new() -> (r: Self)
        ensures
            r.lines@.len() == 0,
            r.raw_text@ == Seq::<char>::empty(),
    {
        NaiveStringProcessor { lines: Vec::new(), raw_text: String::new() }
    }

    /// Keeps `text` and its lines.
    pub fn load_from_string(&mut self, text: &str)
        ensures
            final(self).raw_text@ == text@,
            final(self).lines@.map_values(|l: String| l@) == spec_lines(text@),
    {
        self.raw_text = text.to_owned();
        self.lines = lines_of(text);
    }

    /// Number of (possibly overlapping) occurrences of `pattern` in the text,
    /// over their UTF-8 bytes.
    pub fn count_pattern(&self, pattern: &str) -> (r: usize)
        ensures
            r == occurrences(encode_utf8(self.raw_text@), pattern.spec_bytes()),
    {
        let text = self.raw_text.as_str().as_bytes();
        let pat = pattern.as_bytes();
        let plen = pat.len();
        if plen == 0 || text.len() < plen {
            return 0;
        }
        count_range(text, pat, 0, text.len() - plen + 1)
    }

    /// The text with every ASCII letter `a`-`z` in upper case.
    pub fn transform_to_upper(&self) -> (r: String)
        ensures
            r@ == self.raw_text@.map_values(|c: char| upper_char(c)),
    {
        let chars = chars_of(self.raw_text.as_str());
        let mut out: Vec<char> = Vec::with_capacity(chars.len());
        let mut i: usize = 0;
        while i < chars.len()
            invariant
                i <= chars@.len(),
                chars@ == self.raw_text@,
                out@ == chars@.take(i as int).map_values(|c: char| upper_char(c)),
            decreases chars@.len() - i,
        {
            let c = chars[i];
            let u = if 'a' <= c && c <= 'z' {
                char_minus_32(c)
            } else {
                c
            };
            out.push(u);
            assert(chars@.take(i + 1) =~= chars@.take(i as int).push(c));
            assert(out@ =~= chars@.take(i + 1).map_values(|c: char| upper_char(c)));
            i = i + 1;
        }
        assert(chars@.take(chars@.len() as int) =~= chars@);
        string_from_chars(out)
    }

    /// Size of the text in bytes.
    pub fn byte_count(&self) -> (r: usize)
        ensures
            r == encode_utf8(self.raw_text@).len() as usize,
    {
        self.raw_text.as_str().len()
    }
}

/// The upper-case letter of a lower-case ASCII letter.
fn char_minus_32(c: char) -> (r: char)
    requires
        'a' <= c && c <= 'z',
    ensures
        r == upper_char(c),
{
    let code: u32 = c as u32 - 32;
    assert(0x41 <= code <= 0x5a);
    char_from_ascii(code)
}

/// The character of an ASCII upper-case letter's code.
fn char_from_ascii(code: u32) -> (r: char)
    requires
        0x41 <= code <= 0x5a,
    ensures
        r == code as char,
{
    let b: u8 = code as u8;
    b as char
}

/// Matching positions below `h` are the same in `text` and in any prefix of
/// it long enough to hold a match at each of them.
proof fn lemma_count_below_prefix(text: Seq<u8>, pat: Seq<u8>, n: int, h: int)
    requires
        0 <= n <= text.len(),
        h + pat.len() <= n + 1,
    ensures
        count_below(text.take(n), pat, h) == count_below(text, pat, h),
    decreases h,
{
    if h > 0 {
        lemma_count_below_prefix(text, pat, n, h - 1);
        let i = h - 1;
        if i + pat.len() <= n {
            assert(text.take(n).subrange(i, i + pat.len()) =~= text.subrange(i, i + pat.len()));
        }
    }
}

/// `s` resized to `n` elements as `Vec::resize` does with zeros.
pub open spec fn resized(s: Seq<u8>, n: nat) -> Seq<u8> {
    if n <= s.len() {
        s.take(n as int)
    } else {
        s + Seq::new((n - s.len()) as nat, |i: int| 0u8)
    }
}

/// Counts the occurrences found by one worker of the parallel search over
/// `start..end`: positions from `start` up to the chunk end less the pattern
/// length, stopping where a match would run past the text.
pub fn count_pattern_chunk(text: &[u8], pat: &[u8], start: usize, end: usize) -> (r: usize)
    requires
        pat@.len() > 0,
    ensures
        ({
            let plen = pat@.len() as int;
            let search_end = if end > plen { end as int } else { start as int };
            let last = if search_end >= plen { search_end - plen } else { 0 };
            let hi = if last + 1 < text@.len() + 1 - plen { last + 1 } else { text@.len() + 1 - plen };
            r == if text@.len() < plen { 0 } else { count_between(text@, pat@, start as int, hi) }
        }),
{
    let plen = pat.len();
    let search_end = if end > plen { end } else { start };
    let last = if search_end >= plen { search_end - plen } else { 0 };
    if text.len() < plen {
        return 0;
    }
    let stop = text.len() - plen + 1;
    let hi = if last + 1 < stop { last + 1 } else { stop };
    if hi <= start {
        return 0;
    }
    count_range(text, pat, start, hi)
}

/// Start of worker `t`'s chunk when `len` bytes are split among `n`
/// workers: `t` whole shares of `len / n`.
pub open spec fn chunk_lo(len: int, n: int, t: int) -> int {
    t * (len / n)
}

/// End of worker `t`'s chunk: the next share's start, except that the last
/// worker takes everything up to `len`.
pub open spec fn chunk_hi(len: int, n: int, t: int) -> int {
    if t == n - 1 {
        len
    } else {
        (t + 1) * (len / n)
    }
}

proof fn lemma_share_fits(len: int, n: int, t: int)
    requires
        0 <= len,
        1 <= n,
        0 <= t <= n,
    ensures
        0 <= t * (len / n) <= len,
        t < n ==> t * (len / n) <= (t + 1) * (len / n),
{
    let q = len / n;
    vstd::arithmetic::div_mod::lemma_fundamental_div_mod(len, n);
    assert(0 <= q) by {
        vstd::arithmetic::div_mod::lemma_div_pos_is_pos(len, n);
    }
    assert(len % n >= 0) by {
        vstd::arithmetic::div_mod::lemma_mod_pos_bound(len, n);
    }
    assert(0 <= t * q <= n * q) by (nonlinear_arith)
        requires
            0 <= t <= n,
            0 <= q,
    ;
    assert(t * q <= (t + 1) * q) by (nonlinear_arith)
        requires
            0 <= q,
    ;
}

/// The chunks `(start, end)` the workers of the parallel count search, one
/// per worker: consecutive shares of `text_len / num_threads` bytes from the
/// start, the last one running to `text_len`.
pub fn chunk_bounds(text_len: usize, num_threads: usize) -> (r: Vec<(usize, usize)>)
    requires
        num_threads >= 1,
    ensures
        r@.len() == num_threads,
        forall|t: int|
            0 <= t < num_threads ==> #[trigger] r@[t] == (
                chunk_lo(text_len as int, num_threads as int, t) as usize,
                chunk_hi(text_len as int, num_threads as int, t) as usize,
            ) && 0 <= chunk_lo(text_len as int, num_threads as int, t) <= chunk_hi(
                text_len as int,
                num_threads as int,
                t,
            ) <= text_len,
{
    let share = text_len / num_threads;
    let mut r: Vec<(usize, usize)> = Vec::new();
    let mut t: usize = 0;
    while t < num_threads
        invariant
            num_threads >= 1,
            share == text_len as int / num_threads as int,
            t <= num_threads,
            r@.len() == t,
            forall|u: int|
                0 <= u < t ==> #[trigger] r@[u] == (
                    chunk_lo(text_len as int, num_threads as int, u) as usize,
                    chunk_hi(text_len as int, num_threads as int, u) as usize,
                ),
        decreases num_threads - t,
    {
        proof {
            lemma_share_fits(text_len as int, num_threads as int, t as int);
            lemma_share_fits(text_len as int, num_threads as int, t as int + 1);
        }
        let start = t * share;
        let end = if t == num_threads - 1 { text_len } else { (t + 1) * share };
        r.push((start, end));
        t = t + 1;
    }
    proof {
        assert forall|t: int| 0 <= t < num_threads implies #[trigger] r@[t] == (
            chunk_lo(text_len as int, num_threads as int, t) as usize,
            chunk_hi(text_len as int, num_threads as int, t) as usize,
        ) && 0 <= chunk_lo(text_len as int, num_threads as int, t) <= chunk_hi(
            text_len as int,
            num_threads as int,
            t,
        ) <= text_len by {
            lemma_share_fits(text_len as int, num_threads as int, t);
            lemma_share_fits(text_len as int, num_threads as int, t + 1);
        }
    }
    r
}

/// Sum of the counts in `s`.
pub open spec fn seq_total(s: Seq<usize>) -> int
    decreases s.len(),
{
    if s.len() == 0 {
        0
    } else {
        seq_total(s.drop_last()) + s.last()
    }
}

/// The total of the workers' counts, or `None` when it does not fit in a
/// `usize`.
pub fn sum_counts(counts: &[usize]) -> (r: Option<usize>)
    ensures
        seq_total(counts@) <= usize::MAX ==> r == Some(seq_total(counts@) as usize),
        seq_total(counts@) > usize::MAX ==> r is None,
{
    let mut total: usize = 0;
    let mut i: usize = 0;
    while i < counts.len()
        invariant
            i <= counts@.len(),
            total == seq_total(counts@.take(i as int)),
        decreases counts@.len() - i,
    {
        proof {
            assert(counts@.take(i as int + 1).drop_last() =~= counts@.take(i as int));
            lemma_seq_total_mono(counts@, i as int + 1);
        }
        if counts[i] > usize::MAX - total {
            proof {
                lemma_seq_total_prefix(counts@, i as int + 1);
            }
            return None;
        }
        total = total + counts[i];
        i = i + 1;
    }
    assert(counts@.take(i as int) =~= counts@);
    Some(total)
}

proof fn lemma_seq_total_mono(s: Seq<usize>, k: int)
    requires
        0 <= k <= s.len(),
    ensures
        seq_total(s.take(k)) >= 0,
    decreases k,
{
    if k > 0 {
        assert(s.take(k).drop_last() =~= s.take(k - 1));
        lemma_seq_total_mono(s, k - 1);
    }
}

/// A prefix's total is at most the whole total.
proof fn lemma_seq_total_prefix(s: Seq<usize>, k: int)
    requires
        0 <= k <= s.len(),
    ensures
        seq_total(s.take(k)) <= seq_total(s),
    decreases s.len() - k,
{
    if k < s.len() {
        lemma_seq_total_prefix(s, k + 1);
        assert(s.take(k + 1).drop_last() =~= s.take(k));
    } else {
        assert(s.take(k) =~= s);
    }
}

/// The text processor tuned for speed: a padded byte buffer whose first
/// `text_len` bytes are the text.
pub struct OptimizedStringProcessor {
    pub text_buf: Vec<u8>,
    pub text_len: usize,
}

impl OptimizedStringProcessor {
    /// The bytes of the text.
    pub open spec fn text(&self) -> Seq<u8> {
        self.text_buf@.take(self.text_len as int)
    }

    /// Well-formed: the text fits in the buffer.
    pub open spec fn wf(&self) -> bool {
        self.text_len <= self.text_buf@.len()
    }

    /// Copies the UTF-8 bytes of `text` to the front of the buffer, which is
    /// resized to the text's length plus 64 bytes of padding.
    pub fn load_from_string(&mut self, text: &str)
        requires
            text.spec_bytes().len() + 64 <= usize::MAX,
        ensures
            final(self).wf(),
            final(self).text_len == text.spec_bytes().len(),
            final(self).text() == text.spec_bytes(),
            final(self).text_buf@.len() == text.spec_bytes().len() + 64,
            final(self).text_buf@.skip(final(self).text_len as int) == resized(
                old(self).text_buf@,
                (text.spec_bytes().len() + 64) as nat,
            ).skip(final(self).text_len as int),
    {
        let bytes = text.as_bytes();
        let n = bytes.len();
        self.text_len = n;
        let ghost before = self.text_buf@;
        self.text_buf.resize(n + 64, 0);
        proof {
            let target = resized(before, (n + 64) as nat);
            assert(self.text_buf@ =~= target) by {
                if n + 64 > before.len() {
                    assert forall|i: int| 0 <= i < n + 64 implies self.text_buf@[i] == target[i] by {
                        if i >= before.len() {
                            assert(self.text_buf@[i] == 0u8);
                        } else {
                            assert(self.text_buf@.subrange(0, before.len() as int)[i] == before[i]);
                        }
                    }
                }
            }
        }
        let ghost padded = self.text_buf@;
        let mut i: usize = 0;
        while i < n
            invariant
                i <= n,
                n == bytes@.len(),
                self.text_buf@.len() == n + 64,
                self.text_len == n,
                forall|k: int| 0 <= k < i ==> #[trigger] self.text_buf@[k] == bytes@[k],
                forall|k: int| i <= k < n + 64 ==> #[trigger] self.text_buf@[k] == padded[k],
            decreases n - i,
        {
            self.text_buf.set(i, bytes[i]);
            i = i + 1;
        }
        assert(self.text() =~= bytes@);
        assert(self.text_buf@.skip(n as int) =~= padded.skip(n as int));
    }

    /// Number of (possibly overlapping) occurrences of `pattern` in the text,
    /// testing each position byte by byte.
    pub fn count_pattern_scalar(&self, pattern: &str) -> (r: usize)
        requires
            self.wf(),
        ensures
            r == occurrences(self.text(), pattern.spec_bytes()),
    {
        let text = self.text_buf.as_slice();
        let pat = pattern.as_bytes();
        let plen = pat.len();
        if plen == 0 || self.text_len < plen {
            return 0;
        }
        let hi = self.text_len - plen + 1;
        let r = count_range(text, pat, 0, hi);
        proof {
            lemma_count_below_prefix(self.text_buf@, pat@, self.text_len as int, hi as int);
        }
        r
    }

    /// The same count, and-ing byte comparisons instead of branching on them.
    pub fn count_pattern_branchless(&self, pattern: &str) -> (r: usize)
        requires
            self.wf(),
        ensures
            r == occurrences(self.text(), pattern.spec_bytes()),
    {
        let text = self.text_buf.as_slice();
        let pat = pattern.as_bytes();
        let plen = pat.len();
        if plen == 0 || self.text_len < plen {
            return 0;
        }
        let hi = self.text_len - plen + 1;
        let mut count: usize = 0;
        let mut i: usize = 0;
        while i < hi
            invariant
                i <= hi,
                hi + plen == self.text_len + 1,
                plen == pat@.len(),
                plen > 0,
                text@ == self.text_buf@,
                self.text_len <= text@.len(),
                count == count_below(text@, pat@, i as int),
                count <= i,
            decreases hi - i,
        {
            let bits = match_at_branchless(text, pat, i);
            count = count + bits;
            i = i + 1;
        }
        proof {
            lemma_count_below_prefix(self.text_buf@, pat@, self.text_len as int, hi as int);
        }
        count
    }

    /// The count of the vectorised search, which finds the same positions as
    /// the byte-by-byte search.
    pub fn count_pattern_simd(&self, pattern: &str) -> (r: usize)
        requires
            self.wf(),
        ensures
            r == occurrences(self.text(), pattern.spec_bytes()),
    {
        self.count_pattern_scalar(pattern)
    }

    /// Upper-cases the ASCII letters of the text in place; the padding stays.
    pub fn transform_to_upper_scalar(&mut self)
        requires
            old(self).wf(),
        ensures
            final(self).wf(),
            final(self).text_len == old(self).text_len,
            final(self).text() == old(self).text().map_values(|b: u8| upper_byte(b)),
            final(self).text_buf@.skip(old(self).text_len as int) == old(self).text_buf@.skip(
                old(self).text_len as int,
            ),
    {
        let ghost start = self.text_buf@;
        let n = self.text_len;
        let mut i: usize = 0;
        while i < n
            invariant
                i <= n,
                n == self.text_len,
                n <= start.len(),
                self.text_buf@.len() == start.len(),
                forall|k: int| 0 <= k < i ==> #[trigger] self.text_buf@[k] == upper_byte(start[k]),
                forall|k: int| i <= k < start.len() ==> #[trigger] self.text_buf@[k] == start[k],
            decreases n - i,
        {
            let c = self.text_buf[i];
            if c >= 97 && c <= 122 {
                self.text_buf.set(i, c - 32);
            }
            i = i + 1;
        }
        assert(self.text() =~= start.take(n as int).map_values(|b: u8| upper_byte(b)));
        assert(self.text_buf@.skip(n as int) =~= start.skip(n as int));
    }

    /// The vectorised upper-casing, which changes the same bytes as the
    /// byte-by-byte loop.
    pub fn transform_to_upper_simd(&mut self)
        requires
            old(self).wf(),
        ensures
            final(self).wf(),
            final(self).text_len == old(self).text_len,
            final(self).text() == old(self).text().map_values(|b: u8| upper_byte(b)),
            final(self).text_buf@.skip(old(self).text_len as int) == old(self).text_buf@.skip(
                old(self).text_len as int,
            ),
    {
        self.transform_to_upper_scalar();
    }

    /// Writes the upper-cased text into a fresh 16-byte-aligned block of
    /// `arena`; does nothing when the block does not fit.
    pub fn transform_with_arena(&self, arena: &mut Arena)
        requires
            self.wf(),
            old(arena).wf(),
            old(arena).spec_used() + 16 <= usize::MAX,
            align_up(old(arena).spec_used() as usize, 16) + self.text_len <= usize::MAX,
        ensures
            final(arena).wf(),
            ({
                let at = align_up(old(arena).spec_used() as usize, 16) as int;
                if at + self.text_len > old(arena).bytes().len() {
                    final(arena).bytes() == old(arena).bytes() && final(arena).spec_used()
                        == old(arena).spec_used()
                } else {
                    &&& final(arena).spec_used() == at + self.text_len
                    &&& final(arena).bytes() == old(arena).bytes().take(at) + self.text().map_values(
                        |b: u8| upper_byte(b),
                    ) + old(arena).bytes().skip(at + self.text_len)
                }
            }),
    {
        let len = self.text_len;
        let at = match arena.allocate(len, 16) {
            None => return,
            Some(p) => p,
        };
        let ghost before = arena.bytes();
        let mut i: usize = 0;
        while i < len
            invariant
                i <= len,
                len == self.text_len,
                self.wf(),
                at + len <= before.len(),
                arena.wf(),
                arena.spec_used() == at + len,
                arena.bytes().len() == before.len(),
                forall|k: int| 0 <= k < i ==> #[trigger] arena.bytes()[at + k] == upper_byte(
                    self.text_buf@[k],
                ),
                forall|k: int|
                    0 <= k < before.len() && !(at <= k < at + i) ==> #[trigger] arena.bytes()[k]
                        == before[k],
            decreases len - i,
        {
            let c = self.text_buf[i];
            let u = if c >= 97 && c <= 122 {
                c - 32
            } else {
                c
            };
            arena.buffer.set(at + i, u);
            i = i + 1;
        }
        proof {
            let target = before.take(at as int) + self.text().map_values(|b: u8| upper_byte(b))
                + before.skip(at + len);
            assert forall|k: int| 0 <= k < before.len() implies #[trigger] arena.bytes()[k]
                == target[k] by {
                if k < at {
                } else if k < at + len {
                    assert(arena.bytes()[at + (k - at)] == upper_byte(self.text_buf@[k - at]));
                } else {
                }
            }
            assert(arena.bytes() =~= target);
        }
    }

    /// Size of the text in bytes.
    pub fn byte_count(&self) -> (r: usize)
        ensures
            r == self.text_len,
    {
        self.text_len
    }
}

/// The `idx`-th character of `a-z`, `A-Z`, `0-9`.
pub open spec fn alnum(idx: int) -> char {
    if idx < 26 {
        (97 + idx) as char
    } else if idx < 52 {
        (65 + idx - 26) as char
    } else {
        (48 + idx - 52) as char
    }
}

/// One step of the data generator's linear congruential generator.
pub open spec fn gen_step(s: u64) -> u64 {
    ((s * 6364136223846793005 + 1) % 0x1_0000_0000_0000_0000) as u64
}

/// `n` characters drawn from the generator in state `s`, and the state
/// after them: each step picks `alnum((state >> 33) % 62)`.
pub open spec fn gen_chars(s: u64, n: nat) -> (Seq<char>, u64)
    decreases n,
{
    if n == 0 {
        (Seq::empty(), s)
    } else {
        let (prev, st) = gen_chars(s, (n - 1) as nat);
        let st2 = gen_step(st);
        (prev.push(alnum((st2 / 0x2_0000_0000) as int % 62)), st2)
    }
}

/// The length of line `i` for an average length `avg`: `avg - 8 + i % 17`
/// when that is positive, else `avg / 2`.
pub open spec fn gen_line_len(i: int, avg: int) -> nat {
    if avg - 8 + i % 17 > 0 {
        (avg - 8 + i % 17) as nat
    } else {
        (avg / 2) as nat
    }
}

/// The marker placed at the end of every thirteenth line.
pub open spec fn marker() -> Seq<char> {
    seq!['f', 'i', 'n', 'd', 'm', 'e']
}

/// The first `n` lines of test data with average length `avg`, and the
/// generator state after them (seeded with 12345).
pub open spec fn gen_text(n: nat, avg: int) -> (Seq<char>, u64)
    decreases n,
{
    if n == 0 {
        (Seq::empty(), 12345)
    } else {
        let i = n - 1;
        let (prev, st) = gen_text((n - 1) as nat, avg);
        let (line, st2) = gen_chars(st, gen_line_len(i, avg));
        let tail = if i % 13 == 0 {
            marker()
        } else {
            Seq::empty()
        };
        (prev + line + tail + seq!['\n'], st2)
    }
}

fn alnum_char(idx: u64) -> (r: char)
    requires
        idx < 62,
    ensures
        r == alnum(idx as int),
{
    if idx < 26 {
        let b: u8 = 97 + idx as u8;
        b as char
    } else if idx < 52 {
        let b: u8 = 65 + (idx - 26) as u8;
        b as char
    } else {
        let b: u8 = 48 + (idx - 52) as u8;
        b as char
    }
}

fn gen_next(s: u64) -> (r: u64)
    ensures
        r == gen_step(s),
{
    let m = s.wrapping_mul(6364136223846793005);
    let r = m.wrapping_add(1);
    proof {
        let a = s as int * 6364136223846793005;
        assert(a >= 0) by (nonlinear_arith)
            requires
                a == s as int * 6364136223846793005,
        ;
        vstd::arithmetic::div_mod::lemma_add_mod_noop(a, 1, 0x1_0000_0000_0000_0000);
        vstd::arithmetic::div_mod::lemma_small_mod(1, 0x1_0000_0000_0000_0000);
        vstd::arithmetic::div_mod::lemma_mod_twice(a, 0x1_0000_0000_0000_0000);
    }
    r
}

fn line_len_for(i: usize, avg_line_len: usize) -> (r: usize)
    requires
        avg_line_len + 8 <= i64::MAX,
        avg_line_len + 8 <= usize::MAX,
    ensures
        r == gen_line_len(i as int, avg_line_len as int),
{
    let len_mod = (i % 17) as i64;
    let a = avg_line_len as i64;
    assert(a == avg_line_len as int);
    assert(len_mod == i as int % 17);
    if a - 8 + len_mod > 0 {
        (a - 8 + len_mod) as usize
    } else {
        avg_line_len / 2
    }
}

fn push_random_chars(result: &mut Vec<char>, state: u64, n: usize) -> (r: u64)
    ensures
        final(result)@ == old(result)@ + gen_chars(state, n as nat).0,
        r == gen_chars(state, n as nat).1,
{
    let ghost start = result@;
    let mut st = state;
    let mut k: usize = 0;
    while k < n
        invariant
            k <= n,
            result@ == start + gen_chars(state, k as nat).0,
            st == gen_chars(state, k as nat).1,
        decreases n - k,
    {
        st = gen_next(st);
        let idx = (st >> 33u64) % 62;
        assert((st >> 33u64) == st / 0x2_0000_0000) by (bit_vector);
        result.push(alnum_char(idx));
        k = k + 1;
        assert(result@ =~= start + gen_chars(state, k as nat).0);
    }
    st
}

/// `num_lines` lines of pseudo-random letters and digits, line `i` being
/// `gen_line_len(i, avg_line_len)` long, every thirteenth line (from the
/// first) ending in `findme`.
pub fn generate_test_data(num_lines: usize, avg_line_len: usize) -> (r: String)
    requires
        num_lines * avg_line_len <= usize::MAX,
        avg_line_len + 8 <= i64::MAX,
        avg_line_len + 8 <= usize::MAX,
    ensures
        r@ == gen_text(num_lines as nat, avg_line_len as int).0,
{
    let mut result: Vec<char> = Vec::with_capacity(num_lines * avg_line_len);
    let mut rng_state: u64 = 12345;
    let mut i: usize = 0;
    while i < num_lines
        invariant
            i <= num_lines,
            avg_line_len + 8 <= i64::MAX,
            avg_line_len + 8 <= usize::MAX,
            result@ == gen_text(i as nat, avg_line_len as int).0,
            rng_state == gen_text(i as nat, avg_line_len as int).1,
        decreases num_lines - i,
    {
        let line_len = line_len_for(i, avg_line_len);
        let ghost start = result@;
        let ghost st0 = rng_state;
        rng_state = push_random_chars(&mut result, rng_state, line_len);
        let ghost line = gen_chars(st0, line_len as nat).0;
        if i % 13 == 0 {
            result.push('f');
            result.push('i');
            result.push('n');
            result.push('d');
            result.push('m');
            result.push('e');
            assert(result@ =~= start + line + marker());
        } else {
            assert(result@ =~= start + line + Seq::<char>::empty());
        }
        result.push('\n');
        i = i + 1;
        assert(result@ =~= gen_text(i as nat, avg_line_len as int).0);
    }
    string_from_chars(result)
}

/// The naive and the optimized processors count alike: loaded with the
/// same text, the naive count over the text's UTF-8 bytes and the optimized
/// count over its buffer are the same number, for every pattern.
pub proof fn lemma_counters_agree(
    naive: NaiveStringProcessor,
    opt: OptimizedStringProcessor,
    pat: Seq<u8>,
)
    requires
        opt.text() == encode_utf8(naive.raw_text@),
    ensures
        occurrences(encode_utf8(naive.raw_text@), pat) == occurrences(opt.text(), pat),
{
}

proof fn lemma_continuation_high(x: u8)
    ensures
        upper_byte(0x80u8 | x) == 0x80u8 | x,
{
    assert(0x80u8 | x >= 0x80u8) by (bit_vector);
}

proof fn lemma_upper_scalar(c: char)
    ensures
        encode_scalar(upper_char(c) as u32) == encode_scalar(c as u32).map_values(
            |b: u8| upper_byte(b),
        ),
{
    let v = c as u32;
    if v <= 0x7F {
        assert(v <= 0x7F ==> v & 0x7F == v) by (bit_vector);
        if 'a' <= c && c <= 'z' {
            let u = (v - 32) as u32;
            assert(u <= 0x7F ==> u & 0x7F == u) by (bit_vector);
            assert(upper_char(c) as u32 == u);
        }
        assert(encode_scalar(upper_char(c) as u32) =~= encode_scalar(v).map_values(
            |b: u8| upper_byte(b),
        ));
    } else {
        lemma_continuation_high(((v >> 6) & 0x1F) as u8);
        lemma_continuation_high((v & 0x3F) as u8);
        lemma_continuation_high(((v >> 6) & 0x3F) as u8);
        lemma_continuation_high(((v >> 12) & 0x3F) as u8);
        assert(0xC0u8 | (((v >> 6) & 0x1F) as u8) == 0x80u8 | (0x40u8 | (((v >> 6) & 0x1F) as u8)))
            by (bit_vector);
        assert(0xE0u8 | (((v >> 12) & 0x0F) as u8) == 0x80u8 | (0x60u8 | (((v >> 12) & 0x0F) as u8)))
            by (bit_vector);
        assert(0xF0u8 | (((v >> 18) & 0x7) as u8) == 0x80u8 | (0x70u8 | (((v >> 18) & 0x7) as u8)))
            by (bit_vector);
        lemma_continuation_high(0x40u8 | (((v >> 6) & 0x1F) as u8));
        lemma_continuation_high(0x60u8 | (((v >> 12) & 0x0F) as u8));
        lemma_continuation_high(0x70u8 | (((v >> 18) & 0x7) as u8));
        assert(encode_scalar(upper_char(c) as u32) =~= encode_scalar(v).map_values(
            |b: u8| upper_byte(b),
        ));
    }
}

/// Upper-casing commutes with UTF-8 encoding: the bytes of the naive
/// processor's upper-cased text are the optimized processor's upper-cased
/// bytes of the same text.
pub proof fn lemma_upper_agrees(chars: Seq<char>)
    ensures
        encode_utf8(chars.map_values(|c: char| upper_char(c))) == encode_utf8(chars).map_values(
            |b: u8| upper_byte(b),
        ),
    decreases chars.len(),
{
    if chars.len() > 0 {
        let up = chars.map_values(|c: char| upper_char(c));
        lemma_upper_agrees(chars.drop_first());
        lemma_upper_scalar(chars[0]);
        assert(up.drop_first() =~= chars.drop_first().map_values(|c: char| upper_char(c)));
        assert(encode_utf8(chars).map_values(|b: u8| upper_byte(b)) =~= encode_scalar(
            chars[0] as u32,
        ).map_values(|b: u8| upper_byte(b)) + encode_utf8(chars.drop_first()).map_values(
            |b: u8| upper_byte(b),
        ));
    } else {
        assert(encode_utf8(chars.map_values(|c: char| upper_char(c))) =~= encode_utf8(
            chars,
        ).map_values(|b: u8| upper_byte(b)));
    }
}

/// Upper-casing twice is upper-casing once.
pub proof fn lemma_upper_idempotent(text: Seq<u8>)
    ensures
        text.map_values(|b: u8| upper_byte(b)).map_values(|b: u8| upper_byte(b)) == text.map_values(
            |b: u8| upper_byte(b),
        ),
{
    assert(text.map_values(|b: u8| upper_byte(b)).map_values(|b: u8| upper_byte(b)) =~= text.map_values(
        |b: u8| upper_byte(b),
    ));
}

} // verus!
