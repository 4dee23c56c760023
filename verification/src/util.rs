//! Small shared helpers: the library's error value, the clock, sizes and
//! path prefix handling.

use vstd::prelude::*;
use vstd::string::StringExecFns;

verus! {

/// The kind of an error, mirroring the I/O error kinds the broker reports.
#[derive(Debug, Clone, Copy, PartialEq, Eq, Structural)]
pub enum ErrKind {
    NotFound,
    InvalidInput,
    WouldBlock,
    Other,
}

/// An error with a message and a kind.
#[derive(Debug, Clone)]
pub struct CommonErr {
    pub message: String,
    pub kind: ErrKind,
}

impl CommonErr {
    /// The error's message.
    pub fn message(&self) -> (r: &String)
        ensures
            r@ == self.message@,
    {
        &self.message
    }

    /// The error's kind.
    pub fn kind(&self) -> (r: ErrKind)
        ensures
            r == self.kind,
    {
        self.kind
    }
}

/// Builds an error from a message and an optional kind; without a kind the
/// error is of the catch-all kind.
pub fn common_err(err_message: &str, err_kind: Option<ErrKind>) -> (r: CommonErr)
    ensures
        r.message@ == err_message@,
        r.kind == match err_kind {
            Some(k) => k,
            None => ErrKind::Other,
        },
{
    let kind = match err_kind {
        Some(k) => k,
        None => ErrKind::Other,
    };
    CommonErr { message: String::from_str(err_message), kind }
}

/// Relies on std's system clock: seconds since the Unix epoch, now. Nothing
/// is promised of the value; callers state what holds of any reading.
#[verifier::external_body]
pub fn now_secs() -> u64 {
    match std::time::SystemTime::now().duration_since(std::time::UNIX_EPOCH) {
        Ok(d) => d.as_secs(),
        Err(_) => 0,
    }
}


/// `p` occurs in `s` at position `i`.
pub open spec fn occurs_at(s: Seq<char>, p: Seq<char>, i: int) -> bool {
    0 <= i && i + p.len() <= s.len() && s.subrange(i, i + p.len()) == p
}

/// `p` occurs somewhere in `s`.
pub open spec fn contains_pat(s: Seq<char>, p: Seq<char>) -> bool {
    exists|i: int| occurs_at(s, p, i)
}

/// `s` begins with `p`.
pub open spec fn starts_with(s: Seq<char>, p: Seq<char>) -> bool {
    p.len() <= s.len() && s.subrange(0, p.len() as int) == p
}

/// One left-to-right pass replacing every occurrence of `p` by `r`;
/// scanning resumes after each replacement. An empty pattern is deliberately
/// a no-op: nothing in this library ever replaces an empty pattern, and
/// leaving the text unchanged keeps the function total.
pub open spec fn replace_all(s: Seq<char>, p: Seq<char>, r: Seq<char>) -> Seq<char>
    decreases s.len(),
{
    if p.len() == 0 {
        s
    } else if s.len() < p.len() {
        s
    } else if starts_with(s, p) {
        r + replace_all(s.skip(p.len() as int), p, r)
    } else {
        seq![s[0]] + replace_all(s.drop_first(), p, r)
    }
}

/// The text with every leading `c` removed.
pub open spec fn trim_start_char_spec(s: Seq<char>, c: char) -> Seq<char>
    decreases s.len(),
{
    if s.len() > 0 && s[0] == c {
        trim_start_char_spec(s.drop_first(), c)
    } else {
        s
    }
}

/// The text with every trailing `c` removed.
pub open spec fn trim_end_char_spec(s: Seq<char>, c: char) -> Seq<char>
    decreases s.len(),
{
    if s.len() > 0 && s.last() == c {
        trim_end_char_spec(s.drop_last(), c)
    } else {
        s
    }
}

/// The text with every leading copy of `p` removed; an empty pattern
/// removes nothing.
pub open spec fn trim_start_seq_spec(s: Seq<char>, p: Seq<char>) -> Seq<char>
    decreases s.len(),
{
    if p.len() == 0 {
        s
    } else if starts_with(s, p) {
        trim_start_seq_spec(s.skip(p.len() as int), p)
    } else {
        s
    }
}

/// Removing an occurrence of a nonempty pattern shortens the text.
proof fn lemma_replace_empty_len(s: Seq<char>, p: Seq<char>)
    requires
        p.len() > 0,
    ensures
        replace_all(s, p, Seq::empty()).len() <= s.len(),
        contains_pat(s, p) ==> replace_all(s, p, Seq::empty()).len() < s.len(),
    decreases s.len(),
{
    if s.len() < p.len() {
        if contains_pat(s, p) {
            let i = choose|i: int| occurs_at(s, p, i);
            assert(false);
        }
    } else if starts_with(s, p) {
        lemma_replace_empty_len(s.skip(p.len() as int), p);
        assert(Seq::empty() + replace_all(s.skip(p.len() as int), p, Seq::empty())
            =~= replace_all(s.skip(p.len() as int), p, Seq::empty()));
        assert(occurs_at(s, p, 0));
    } else {
        lemma_replace_empty_len(s.drop_first(), p);
        if contains_pat(s, p) {
            let i = choose|i: int| occurs_at(s, p, i);
            if i == 0 {
                assert(starts_with(s, p));
            }
            assert(occurs_at(s.drop_first(), p, i - 1)) by {
                assert(s.drop_first().subrange(i - 1, i - 1 + p.len()) =~= s.subrange(
                    i,
                    i + p.len(),
                ));
            }
        }
    }
}

/// Removing the occurrences of a nonempty pattern, over and over, until
/// none is left; an empty pattern removes nothing.
pub open spec fn strip_all(s: Seq<char>, p: Seq<char>) -> Seq<char>
    decreases s.len(),
    via strip_all_decreases
{
    if p.len() == 0 {
        s
    } else if contains_pat(s, p) {
        strip_all(replace_all(s, p, Seq::empty()), p)
    } else {
        s
    }
}

#[via_fn]
proof fn strip_all_decreases(s: Seq<char>, p: Seq<char>) {
    if p.len() > 0 && contains_pat(s, p) {
        lemma_replace_empty_len(s, p);
    }
}

/// A path join on '/' separated paths: an empty base yields the tail, a
/// base with a trailing separator takes the tail as is, any other base gets
/// a separator in between.
pub open spec fn join_spec(a: Seq<char>, b: Seq<char>) -> Seq<char> {
    if a.len() == 0 {
        b
    } else if a.last() == '/' {
        a + b
    } else {
        a + seq!['/'] + b
    }
}

/// Whether `p` matches `s` at position `k`.
fn str_match_at(s: &str, p: &str, k: usize) -> (r: bool)
    requires
        k + p@.len() <= s@.len(),
    ensures
        r == (s@.subrange(k as int, k + p@.len()) == p@),
{
    let n = s.unicode_len();
    let m = p.unicode_len();
    let mut j: usize = 0;
    while j < m
        invariant
            j <= m,
            m == p@.len(),
            n == s@.len(),
            k + m <= n,
            forall|l: int| 0 <= l < j ==> s@[k + l] == p@[l],
        decreases m - j,
    {
        if s.get_char(k + j) != p.get_char(j) {
            proof {
                assert(s@.subrange(k as int, k + p@.len())[j as int] != p@[j as int]);
            }
            return false;
        }
        j = j + 1;
    }
    proof {
        assert(s@.subrange(k as int, k + p@.len()) =~= p@);
    }
    true
}

/// Character-for-character equality of two texts.
pub(crate) fn str_eq(a: &str, b: &str) -> (r: bool)
    ensures
        r == (a@ == b@),
{
    let n = a.unicode_len();
    let m = b.unicode_len();
    if n != m {
        return false;
    }
    let r = str_match_at(a, b, 0);
    proof {
        if a@.subrange(0, b@.len() as int) == b@ {
            assert(a@ =~= b@);
        } else {
            if a@ == b@ {
                assert(a@.subrange(0, b@.len() as int) =~= b@);
            }
        }
    }
    r
}

/// Whether `p` occurs in `s`.
pub(crate) fn str_contains(s: &str, p: &str) -> (r: bool)
    ensures
        r == contains_pat(s@, p@),
{
    let n = s.unicode_len();
    let m = p.unicode_len();
    if m == 0 {
        proof {
            assert(s@.subrange(0, 0) =~= p@);
            assert(occurs_at(s@, p@, 0));
        }
        return true;
    }
    if m > n {
        proof {
            if contains_pat(s@, p@) {
                let i = choose|i: int| occurs_at(s@, p@, i);
                assert(false);
            }
        }
        return false;
    }
    let mut i: usize = 0;
    while i <= n - m
        invariant
            n == s@.len(),
            m == p@.len(),
            0 < m <= n,
            i <= n - m + 1,
            forall|l: int| 0 <= l < i ==> !occurs_at(s@, p@, l),
        decreases n - i,
    {
        if str_match_at(s, p, i) {
            proof {
                assert(occurs_at(s@, p@, i as int));
            }
            return true;
        }
        i = i + 1;
    }
    proof {
        assert forall|l: int| true implies !occurs_at(s@, p@, l) by {
            if 0 <= l < i {
            } else if l >= 0 && l + p@.len() <= s@.len() {
                assert(l < i);
            }
        }
    }
    false
}

/// One left-to-right replacement pass, as `str::replace` makes it.
pub(crate) fn str_replace(s: &str, pat: &str, rep: &str) -> (r: String)
    ensures
        r@ == replace_all(s@, pat@, rep@),
    decreases s@.len(),
{
    let n = s.unicode_len();
    let m = pat.unicode_len();
    if m == 0 || n < m {
        return String::from_str(s);
    }
    if str_match_at(s, pat, 0) {
        proof {
            assert(starts_with(s@, pat@));
        }
        let rest = s.substring_char(m, n);
        proof {
            assert(rest@ =~= s@.skip(m as int));
        }
        let tail = str_replace(rest, pat, rep);
        let mut out = String::from_str(rep);
        out.append(tail.as_str());
        out
    } else {
        proof {
            assert(s@.subrange(0, pat@.len() as int) != pat@);
        }
        let first = s.substring_char(0, 1);
        let rest = s.substring_char(1, n);
        proof {
            assert(first@ =~= seq![s@[0]]);
            assert(rest@ =~= s@.drop_first());
        }
        let tail = str_replace(rest, pat, rep);
        let mut out = String::from_str(first);
        out.append(tail.as_str());
        out
    }
}

/// Strips every occurrence of a pattern, over and over, until none is left.
fn strip_all_str(s: &str, pat: &str) -> (r: String)
    ensures
        r@ == strip_all(s@, pat@),
    decreases s@.len(),
{
    let m = pat.unicode_len();
    if m == 0 {
        return String::from_str(s);
    }
    if !str_contains(s, pat) {
        return String::from_str(s);
    }
    let t = str_replace(s, pat, "");
    proof {
        reveal_strlit("");
        assert(""@ =~= Seq::<char>::empty());
        lemma_replace_empty_len(s@, pat@);
    }
    strip_all_str(t.as_str(), pat)
}

/// The tail of `s` with every leading `c` removed.
pub(crate) fn str_trim_start_char<'a>(s: &'a str, c: char) -> (r: &'a str)
    ensures
        r@ == trim_start_char_spec(s@, c),
{
    let n = s.unicode_len();
    let mut k: usize = 0;
    proof {
        assert(s@.skip(0) =~= s@);
    }
    while k < n && s.get_char(k) == c
        invariant
            k <= n,
            n == s@.len(),
            trim_start_char_spec(s@, c) == trim_start_char_spec(s@.skip(k as int), c),
        decreases n - k,
    {
        proof {
            assert(s@.skip(k as int)[0] == c);
            assert(s@.skip(k as int).drop_first() =~= s@.skip(k + 1));
        }
        k = k + 1;
    }
    proof {
        if k == n {
            assert(s@.skip(k as int).len() == 0);
        } else {
            assert(s@.skip(k as int)[0] == s@[k as int]);
        }
        assert(trim_start_char_spec(s@, c) == s@.skip(k as int));
        assert(s@.subrange(k as int, n as int) =~= s@.skip(k as int));
    }
    s.substring_char(k, n)
}

/// The head of `s` with every trailing `c` removed.
pub(crate) fn str_trim_end_char<'a>(s: &'a str, c: char) -> (r: &'a str)
    ensures
        r@ == trim_end_char_spec(s@, c),
{
    let n = s.unicode_len();
    let mut k: usize = n;
    proof {
        assert(s@.take(n as int) =~= s@);
    }
    while k > 0 && s.get_char(k - 1) == c
        invariant
            k <= n,
            n == s@.len(),
            trim_end_char_spec(s@, c) == trim_end_char_spec(s@.take(k as int), c),
        decreases k,
    {
        proof {
            assert(s@.take(k as int).last() == c);
            assert(s@.take(k as int).drop_last() =~= s@.take(k - 1));
        }
        k = k - 1;
    }
    proof {
        if k > 0 {
            assert(s@.take(k as int).last() == s@[k - 1]);
        }
        assert(trim_end_char_spec(s@, c) == s@.take(k as int));
        assert(s@.subrange(0, k as int) =~= s@.take(k as int));
    }
    s.substring_char(0, k)
}

/// The tail of `s` with every leading copy of `p` removed.
pub(crate) fn str_trim_start_seq<'a>(s: &'a str, p: &str) -> (r: &'a str)
    ensures
        r@ == trim_start_seq_spec(s@, p@),
{
    let n = s.unicode_len();
    let m = p.unicode_len();
    if m == 0 || m > n {
        proof {
            assert(s@.subrange(0, n as int) =~= s@);
        }
        return s.substring_char(0, n);
    }
    let mut k: usize = 0;
    proof {
        assert(s@.skip(0) =~= s@);
    }
    while k <= n - m && str_match_at(s, p, k)
        invariant
            k <= n,
            n == s@.len(),
            m == p@.len(),
            0 < m <= n,
            trim_start_seq_spec(s@, p@) == trim_start_seq_spec(s@.skip(k as int), p@),
        decreases n - k,
    {
        proof {
            assert(s@.skip(k as int).subrange(0, m as int) =~= s@.subrange(k as int, k + m));
            assert(starts_with(s@.skip(k as int), p@));
            assert(s@.skip(k as int).skip(m as int) =~= s@.skip(k + m));
        }
        k = k + m;
    }
    proof {
        let tail = s@.skip(k as int);
        if k <= n - m {
            assert(tail.subrange(0, m as int) =~= s@.subrange(k as int, k + m));
            assert(!starts_with(tail, p@));
        } else {
            assert(tail.len() < m);
        }
        assert(trim_start_seq_spec(s@, p@) == tail);
        assert(s@.subrange(k as int, n as int) =~= tail);
    }
    s.substring_char(k, n)
}

/// Joins two '/'-separated paths, per [`join_spec`].
pub(crate) fn path_join(prefix: &str, rel: &str) -> (r: String)
    ensures
        r@ == join_spec(prefix@, rel@),
{
    let n = prefix.unicode_len();
    if n == 0 {
        return String::from_str(rel);
    }
    let mut out = String::from_str(prefix);
    if prefix.get_char(n - 1) != '/' {
        out.append("/");
        proof {
            reveal_strlit("/");
            assert("/"@ =~= seq!['/']);
        }
    }
    out.append(rel);
    out
}

/// Resolves client-visible paths against a fixed local prefix, and masks
/// the prefix on the way back out.
pub struct PathUtil {
    pub prefix: String,
}

/// What resolving a path against a prefix yields: every `../` is removed,
/// over and over; leading and trailing dots and separators go; the rest is
/// joined under the prefix.
pub open spec fn full_path_spec(prefix: Seq<char>, path: Seq<char>) -> Seq<char> {
    let a = strip_all(path, "../"@);
    let b = trim_end_char_spec(a, '.');
    let c = trim_end_char_spec(b, '/');
    let d = trim_start_char_spec(c, '.');
    let e = trim_start_char_spec(d, '/');
    join_spec(prefix, e)
}

impl PathUtil {
    pub fn new(prefix: &String) -> (r: PathUtil)
        ensures
            r.prefix@ == prefix@,
    {
        PathUtil { prefix: prefix.clone() }
    }

    /// Resolves a client-supplied path under the prefix, refusing to climb
    /// out of it: see [`full_path_spec`].
    pub fn full_path(&self, path: &String) -> (r: String)
        ensures
            r@ == full_path_spec(self.prefix@, path@),
    {
        let stripped = strip_all_str(path.as_str(), "../");
        let t1 = str_trim_end_char(stripped.as_str(), '.');
        let t2 = str_trim_end_char(t1, '/');
        let t3 = str_trim_start_char(t2, '.');
        let t4 = str_trim_start_char(t3, '/');
        path_join(self.prefix.as_str(), t4)
    }

    /// Masks the local prefix in a path, replacing each occurrence with a
    /// bare separator.
    pub fn mask_path(&self, path: &String) -> (r: String)
        ensures
            r@ == replace_all(path@, self.prefix@, "/"@),
    {
        str_replace(path.as_str(), self.prefix.as_str(), "/")
    }
}


/// The decimal digit character for a value below ten.
pub open spec fn digit_char(d: nat) -> char {
    ((48 + d) as u8) as char
}

/// The decimal rendering of a number, most significant digit first.
pub open spec fn dec_chars(n: nat) -> Seq<char>
    decreases n,
{
    if n < 10 {
        seq![digit_char(n)]
    } else {
        dec_chars(n / 10).push(digit_char(n % 10))
    }
}

/// One decimal digit as text.
fn digit_str(d: u64) -> (r: &'static str)
    requires
        d < 10,
    ensures
        r@ == seq![digit_char(d as nat)],
{
    proof {
        reveal_strlit("0");
        reveal_strlit("1");
        reveal_strlit("2");
        reveal_strlit("3");
        reveal_strlit("4");
        reveal_strlit("5");
        reveal_strlit("6");
        reveal_strlit("7");
        reveal_strlit("8");
        reveal_strlit("9");
    }
    if d == 0 {
        let r = "0";
        proof {
            assert(r@ =~= seq![digit_char(d as nat)]);
        }
        r
    } else if d == 1 {
        let r = "1";
        proof {
            assert(r@ =~= seq![digit_char(d as nat)]);
        }
        r
    } else if d == 2 {
        let r = "2";
        proof {
            assert(r@ =~= seq![digit_char(d as nat)]);
        }
        r
    } else if d == 3 {
        let r = "3";
        proof {
            assert(r@ =~= seq![digit_char(d as nat)]);
        }
        r
    } else if d == 4 {
        let r = "4";
        proof {
            assert(r@ =~= seq![digit_char(d as nat)]);
        }
        r
    } else if d == 5 {
        let r = "5";
        proof {
            assert(r@ =~= seq![digit_char(d as nat)]);
        }
        r
    } else if d == 6 {
        let r = "6";
        proof {
            assert(r@ =~= seq![digit_char(d as nat)]);
        }
        r
    } else if d == 7 {
        let r = "7";
        proof {
            assert(r@ =~= seq![digit_char(d as nat)]);
        }
        r
    } else if d == 8 {
        let r = "8";
        proof {
            assert(r@ =~= seq![digit_char(d as nat)]);
        }
        r
    } else {
        let r = "9";
        proof {
            assert(r@ =~= seq![digit_char(d as nat)]);
        }
        r
    }
}

/// Renders a number in decimal.
pub fn u64_to_string(n: u64) -> (r: String)
    ensures
        r@ == dec_chars(n as nat),
    decreases n,
{
    if n < 10 {
        String::from_str(digit_str(n))
    } else {
        let mut out = u64_to_string(n / 10);
        out.append(digit_str(n % 10));
        proof {
            assert(out@ =~= dec_chars((n / 10) as nat).push(digit_char((n % 10) as nat)));
        }
        out
    }
}

/// What a byte count reads as: the largest binary unit it strictly
/// exceeds, or nothing at all for zero and one byte.
pub open spec fn format_size_spec(bytes: u64) -> Seq<char> {
    if bytes > 1073741824 {
        dec_chars((bytes >> 30) as nat) + "GB"@
    } else if bytes > 1048576 {
        dec_chars((bytes >> 20) as nat) + "MB"@
    } else if bytes > 1024 {
        dec_chars((bytes >> 10) as nat) + "KB"@
    } else if bytes > 1 {
        dec_chars(bytes as nat) + "B"@
    } else {
        Seq::empty()
    }
}

/// Renders a byte count with the largest binary unit it strictly exceeds;
/// zero and one byte render as nothing.
pub fn format_size(bytes: u64) -> (r: String)
    ensures
        r@ == format_size_spec(bytes),
{
    if bytes > 1073741824 {
        let mut out = u64_to_string(bytes >> 30);
        out.append("GB");
        out
    } else if bytes > 1048576 {
        let mut out = u64_to_string(bytes >> 20);
        out.append("MB");
        out
    } else if bytes > 1024 {
        let mut out = u64_to_string(bytes >> 10);
        out.append("KB");
        out
    } else if bytes > 1 {
        let mut out = u64_to_string(bytes);
        out.append("B");
        out
    } else {
        let r = String::new();
        proof {
            assert(r@ =~= Seq::<char>::empty());
        }
        r
    }
}

/// Relies on rand's `thread_rng().gen_range(0..bound)`: a uniformly drawn
/// index below the bound. Only the bound is promised; the draw itself is
/// chance.
#[verifier::external_body]
fn rand_below(bound: usize) -> (r: usize)
    requires
        bound > 0,
    ensures
        r < bound,
{
    rand::Rng::gen_range(&mut rand::thread_rng(), 0..bound)
}

/// A random string of the given length, each character drawn from the
/// pool.
fn gen_string(size: usize, pool: &str) -> (r: String)
    requires
        pool@.len() > 0,
    ensures
        r@.len() == size,
        forall|i: int| 0 <= i < size ==> pool@.contains(#[trigger] r@[i]),
{
    let n = pool.unicode_len();
    let mut out = String::new();
    let mut i: usize = 0;
    proof {
        assert(out@ =~= Seq::<char>::empty());
    }
    while i < size
        invariant
            i <= size,
            n == pool@.len(),
            n > 0,
            out@.len() == i,
            forall|j: int| 0 <= j < i ==> pool@.contains(#[trigger] out@[j]),
        decreases size - i,
    {
        let idx = rand_below(n);
        let c = pool.substring_char(idx, idx + 1);
        out.append(c);
        proof {
            assert(out@[i as int] == pool@[idx as int]);
            assert(pool@.contains(pool@[idx as int]));
        }
        i = i + 1;
    }
    out
}

/// The characters a generated password may hold.
pub open spec fn password_pool() -> Seq<char> {
    "0123456789abcdefghijklmnopqrstuvwxyzABCDEFGHIJKLMNOPQRSTUVWXYZ<>?,./;:[]{}~!@#$%^&*()_+-="@
}

/// The characters a generated identifier may hold.
pub open spec fn uuid_pool() -> Seq<char> {
    "0123456789abcde"@
}

/// A random password of the given length, drawn from the password pool.
pub fn gen_password(size: usize) -> (r: String)
    ensures
        r@.len() == size,
        forall|i: int| 0 <= i < size ==> password_pool().contains(#[trigger] r@[i]),
{
    let pool = "0123456789abcdefghijklmnopqrstuvwxyzABCDEFGHIJKLMNOPQRSTUVWXYZ<>?,./;:[]{}~!@#$%^&*()_+-=";
    proof {
        reveal_strlit(
            "0123456789abcdefghijklmnopqrstuvwxyzABCDEFGHIJKLMNOPQRSTUVWXYZ<>?,./;:[]{}~!@#$%^&*()_+-=",
        );
    }
    gen_string(size, pool)
}

/// A random identifier in five dash-separated groups of 16, 4, 4, 4 and 12
/// characters, each drawn from the identifier pool.
pub fn gen_uuid() -> (r: String)
    ensures
        r@.len() == 44,
        r@[16] == '-' && r@[21] == '-' && r@[26] == '-' && r@[31] == '-',
        forall|i: int|
            0 <= i < 44 && i != 16 && i != 21 && i != 26 && i != 31 ==> uuid_pool().contains(
                #[trigger] r@[i],
            ),
{
    let pool = "0123456789abcde";
    proof {
        reveal_strlit("0123456789abcde");
        reveal_strlit("-");
        assert("-"@ =~= seq!['-']);
    }
    let mut out = gen_string(16, pool);
    out.append("-");
    let s2 = gen_string(4, pool);
    out.append(s2.as_str());
    out.append("-");
    let s3 = gen_string(4, pool);
    out.append(s3.as_str());
    out.append("-");
    let s4 = gen_string(4, pool);
    out.append(s4.as_str());
    out.append("-");
    let s5 = gen_string(12, pool);
    out.append(s5.as_str());
    out
}

} // verus!
