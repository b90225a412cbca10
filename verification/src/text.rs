use vstd::prelude::*;
use vstd::utf8::{decode_utf8, valid_utf8};

verus! {

/// The byte of a line feed, `'\n'`.
pub const NEWLINE: u8 = 10;

/// The byte of a carriage return, `'\r'`.
pub const CARRIAGE_RETURN: u8 = 13;

/// Where the line that starts at `i` ends: the index of the first line feed
/// at or after `i`, or the length of `s` when there is none.
pub open spec fn line_end(s: Seq<u8>, i: int) -> int
    decreases s.len() - i,
{
    if i < 0 || i >= s.len() {
        s.len() as int
    } else if s[i] == NEWLINE {
        i
    } else {
        line_end(s, i + 1)
    }
}

/// A line without the carriage return that stood before its line feed.
pub open spec fn strip_cr(l: Seq<u8>) -> Seq<u8> {
    if l.len() > 0 && l.last() == CARRIAGE_RETURN {
        l.drop_last()
    } else {
        l
    }
}

pub proof fn lemma_line_end_bounds(s: Seq<u8>, i: int)
    requires
        0 <= i <= s.len(),
    ensures
        i <= line_end(s, i) <= s.len(),
        line_end(s, i) < s.len() ==> s[line_end(s, i)] == NEWLINE,
        forall|j: int| i <= j < line_end(s, i) ==> s[j] != NEWLINE,
    decreases s.len() - i,
{
    if i < s.len() && s[i] != NEWLINE {
        lemma_line_end_bounds(s, i + 1);
    }
}

/// The lines of `s` from index `i` on, split the way `str::lines` splits
/// them: at each line feed, and a carriage return right before a line feed
/// is dropped with it. A final line feed ends the last line and opens no
/// new one.
pub open spec fn lines_from(s: Seq<u8>, i: int) -> Seq<Seq<u8>>
    decreases s.len() - i,
{
    if i < 0 || i >= s.len() {
        seq![]
    } else {
        let e = line_end(s, i);
        proof {
            lemma_line_end_bounds(s, i);
        }
        if e < s.len() {
            seq![strip_cr(s.subrange(i, e))] + lines_from(s, e + 1)
        } else {
            seq![s.subrange(i, s.len() as int)]
        }
    }
}

/// The lines of `s`, as `str::lines` gives them.
pub open spec fn lines(s: Seq<u8>) -> Seq<Seq<u8>> {
    lines_from(s, 0)
}

/// The view of each line.
pub open spec fn views(ls: Seq<Vec<u8>>) -> Seq<Seq<u8>> {
    ls.map_values(|l: Vec<u8>| l@)
}

/// Finds where the line that starts at `i` ends.
fn find_line_end(s: &[u8], i: usize) -> (e: usize)
    requires
        i <= s@.len(),
    ensures
        e == line_end(s@, i as int),
{
    let mut j = i;
    while j < s.len() && s[j] != NEWLINE
        invariant
            i <= j <= s@.len(),
            line_end(s@, j as int) == line_end(s@, i as int),
        decreases s@.len() - j,
    {
        j = j + 1;
    }
    j
}

/// Copies the bytes of `s` from `a` up to `b`.
pub fn copy_range(s: &[u8], a: usize, b: usize) -> (v: Vec<u8>)
    requires
        a <= b <= s@.len(),
    ensures
        v@ == s@.subrange(a as int, b as int),
{
    let mut v: Vec<u8> = Vec::new();
    let mut k = a;
    while k < b
        invariant
            a <= k <= b <= s@.len(),
            v@ == s@.subrange(a as int, k as int),
        decreases b - k,
    {
        v.push(s[k]);
        k = k + 1;
        assert(v@ =~= s@.subrange(a as int, k as int));
    }
    v
}

/// Splits `s` into its lines, as `str::lines` does.
pub fn split_lines(s: &[u8]) -> (ls: Vec<Vec<u8>>)
    ensures
        views(ls@) == lines(s@),
{
    let mut ls: Vec<Vec<u8>> = Vec::new();
    let mut i: usize = 0;
    while i < s.len()
        invariant
            i <= s@.len(),
            views(ls@) + lines_from(s@, i as int) == lines(s@),
        decreases s@.len() - i,
    {
        let ghost old_ls = ls@;
        let e = find_line_end(s, i);
        proof {
            lemma_line_end_bounds(s@, i as int);
        }
        if e < s.len() {
            let mut stop = e;
            if e > i && s[e - 1] == CARRIAGE_RETURN {
                stop = e - 1;
            }
            let line = copy_range(s, i, stop);
            proof {
                let l = s@.subrange(i as int, e as int);
                assert(strip_cr(l) =~= s@.subrange(i as int, stop as int));
            }
            ls.push(line);
            proof {
                assert(views(ls@) =~= views(old_ls).push(strip_cr(s@.subrange(i as int, e as int))));
                assert(lines_from(s@, i as int) == seq![strip_cr(s@.subrange(i as int, e as int))]
                    + lines_from(s@, e + 1));
                assert(views(ls@) + lines_from(s@, e + 1) =~= views(old_ls) + lines_from(s@, i as int));
            }
            i = e + 1;
        } else {
            let line = copy_range(s, i, s.len());
            ls.push(line);
            proof {
                assert(views(ls@) =~= views(old_ls).push(s@.subrange(i as int, s@.len() as int)));
                assert(lines_from(s@, s@.len() as int) == Seq::<Seq<u8>>::empty());
                assert(views(ls@) + lines_from(s@, s@.len() as int) =~= views(old_ls) + lines_from(s@, i as int));
            }
            i = s.len();
        }
    }
    proof {
        assert(lines_from(s@, i as int) == Seq::<Seq<u8>>::empty());
        assert(views(ls@) =~= views(ls@) + lines_from(s@, i as int));
    }
    ls
}

/// The bytes of ASCII white space that `split_ascii_whitespace` splits at:
/// space, tab, line feed, form feed and carriage return.
pub open spec fn is_ascii_space(b: u8) -> bool {
    b == 32 || b == 9 || b == 10 || b == 12 || b == 13
}

/// The first index at or after `i` that holds no white space, or the length.
pub open spec fn skip_space(l: Seq<u8>, i: int) -> int
    decreases l.len() - i,
{
    if i < 0 || i >= l.len() {
        l.len() as int
    } else if is_ascii_space(l[i]) {
        skip_space(l, i + 1)
    } else {
        i
    }
}

/// The first index at or after `i` that holds white space, or the length.
pub open spec fn word_end(l: Seq<u8>, i: int) -> int
    decreases l.len() - i,
{
    if i < 0 || i >= l.len() {
        l.len() as int
    } else if is_ascii_space(l[i]) {
        i
    } else {
        word_end(l, i + 1)
    }
}

pub proof fn lemma_skip_space_bounds(l: Seq<u8>, i: int)
    requires
        0 <= i <= l.len(),
    ensures
        i <= skip_space(l, i) <= l.len(),
        skip_space(l, i) < l.len() ==> !is_ascii_space(l[skip_space(l, i)]),
    decreases l.len() - i,
{
    if i < l.len() && is_ascii_space(l[i]) {
        lemma_skip_space_bounds(l, i + 1);
    }
}

pub proof fn lemma_word_end_bounds(l: Seq<u8>, i: int)
    requires
        0 <= i <= l.len(),
    ensures
        i <= word_end(l, i) <= l.len(),
        i < l.len() && !is_ascii_space(l[i]) ==> i < word_end(l, i),
    decreases l.len() - i,
{
    if i < l.len() && !is_ascii_space(l[i]) {
        lemma_word_end_bounds(l, i + 1);
    }
}

/// The words of `l` from index `i` on: the non-empty runs of bytes between
/// ASCII white space, as `split_ascii_whitespace` gives them.
pub open spec fn words_from(l: Seq<u8>, i: int) -> Seq<Seq<u8>>
    decreases l.len() - i,
{
    if i < 0 || i > l.len() {
        seq![]
    } else {
        let a = skip_space(l, i);
        proof {
            lemma_skip_space_bounds(l, i);
        }
        if a >= l.len() {
            seq![]
        } else {
            let b = word_end(l, a);
            proof {
                lemma_word_end_bounds(l, a);
            }
            seq![l.subrange(a, b)] + words_from(l, b)
        }
    }
}

/// The words of `l`, as `split_ascii_whitespace` gives them.
pub open spec fn words(l: Seq<u8>) -> Seq<Seq<u8>> {
    words_from(l, 0)
}

fn find_skip_space(l: &[u8], i: usize) -> (a: usize)
    requires
        i <= l@.len(),
    ensures
        a == skip_space(l@, i as int),
{
    let mut j = i;
    while j < l.len() && (l[j] == 32 || l[j] == 9 || l[j] == 10 || l[j] == 12 || l[j] == 13)
        invariant
            i <= j <= l@.len(),
            skip_space(l@, j as int) == skip_space(l@, i as int),
        decreases l@.len() - j,
    {
        j = j + 1;
    }
    j
}

fn find_word_end(l: &[u8], i: usize) -> (b: usize)
    requires
        i <= l@.len(),
    ensures
        b == word_end(l@, i as int),
{
    let mut j = i;
    while j < l.len() && !(l[j] == 32 || l[j] == 9 || l[j] == 10 || l[j] == 12 || l[j] == 13)
        invariant
            i <= j <= l@.len(),
            word_end(l@, j as int) == word_end(l@, i as int),
        decreases l@.len() - j,
    {
        j = j + 1;
    }
    j
}

/// Finds the second word of `l`: its bounds, where `l` has two words or more.
pub fn second_word(l: &[u8]) -> (r: Option<(usize, usize)>)
    ensures
        r is Some <==> words(l@).len() >= 2,
        r matches Some((a, b)) ==> a <= b <= l@.len() && l@.subrange(a as int, b as int)
            == words(l@)[1] && a == skip_space(l@, word_end(l@, skip_space(l@, 0))) && b
            == word_end(l@, a as int),
{
    let ghost s = l@;
    let a0 = find_skip_space(l, 0);
    proof {
        lemma_skip_space_bounds(s, 0);
    }
    if a0 >= l.len() {
        assert(words(s) == Seq::<Seq<u8>>::empty());
        return None;
    }
    let b0 = find_word_end(l, a0);
    proof {
        lemma_word_end_bounds(s, a0 as int);
    }
    let a1 = find_skip_space(l, b0);
    proof {
        lemma_skip_space_bounds(s, b0 as int);
        assert(words(s) == seq![s.subrange(a0 as int, b0 as int)] + words_from(s, b0 as int));
    }
    if a1 >= l.len() {
        assert(words_from(s, b0 as int) == Seq::<Seq<u8>>::empty());
        assert(words(s).len() == 1);
        return None;
    }
    let b1 = find_word_end(l, a1);
    proof {
        lemma_word_end_bounds(s, a1 as int);
        assert(words_from(s, b0 as int) == seq![s.subrange(a1 as int, b1 as int)] + words_from(
            s,
            b1 as int,
        ));
        assert(words(s)[1] == s.subrange(a1 as int, b1 as int));
    }
    Some((a1, b1))
}

/// The byte of `'-'`.
pub const MINUS: u8 = 45;

/// The byte of `'+'`.
pub const PLUS: u8 = 43;

pub open spec fn is_digit(b: u8) -> bool {
    48 <= b <= 57
}

pub open spec fn all_digits(d: Seq<u8>) -> bool {
    forall|k: int| 0 <= k < d.len() ==> is_digit(#[trigger] d[k])
}

/// The number that the decimal digits `d` write.
pub open spec fn decimal_value(d: Seq<u8>) -> int
    decreases d.len(),
{
    if d.len() == 0 {
        0
    } else {
        decimal_value(d.drop_last()) * 10 + (d.last() - 48)
    }
}

/// What `str::parse::<i32>` gives for the text `w`: an optional `'+'` or
/// `'-'`, then one decimal digit or more, whose value fits in an `i32`.
pub open spec fn parse_i32(w: Seq<u8>) -> Option<i32> {
    let signed = w.len() > 0 && (w[0] == MINUS || w[0] == PLUS);
    let d = if signed {
        w.drop_first()
    } else {
        w
    };
    if d.len() == 0 || !all_digits(d) {
        None
    } else {
        let v = if w[0] == MINUS {
            -decimal_value(d)
        } else {
            decimal_value(d)
        };
        if i32::MIN <= v <= i32::MAX {
            Some(v as i32)
        } else {
            None
        }
    }
}

pub proof fn lemma_decimal_value_nonneg(d: Seq<u8>)
    requires
        all_digits(d),
    ensures
        decimal_value(d) >= 0,
    decreases d.len(),
{
    if d.len() > 0 {
        assert(all_digits(d.drop_last())) by {
            assert forall|k: int| 0 <= k < d.drop_last().len() implies is_digit(
                #[trigger] d.drop_last()[k],
            ) by {
                assert(d.drop_last()[k] == d[k]);
            }
        }
        lemma_decimal_value_nonneg(d.drop_last());
        assert(is_digit(d[d.len() - 1]));
    }
}

/// The value of a prefix of digits is at most the value of all of them.
pub proof fn lemma_decimal_value_prefix(d: Seq<u8>, k: int)
    requires
        all_digits(d),
        0 <= k <= d.len(),
    ensures
        decimal_value(d.take(k)) <= decimal_value(d),
    decreases d.len(),
{
    if k == d.len() {
        assert(d.take(k) =~= d);
    } else {
        let p = d.drop_last();
        assert(all_digits(p)) by {
            assert forall|j: int| 0 <= j < p.len() implies is_digit(#[trigger] p[j]) by {
                assert(p[j] == d[j]);
            }
        }
        lemma_decimal_value_prefix(p, k);
        assert(p.take(k) =~= d.take(k));
        lemma_decimal_value_nonneg(p);
        assert(is_digit(d[d.len() - 1]));
    }
}

/// Parses the text `w` as `str::parse::<i32>` does.
pub fn parse_i32_bytes(w: &[u8]) -> (r: Option<i32>)
    ensures
        r == parse_i32(w@),
{
    let ghost s = w@;
    let n = w.len();
    if n == 0 {
        return None;
    }
    let start: usize = if w[0] == MINUS || w[0] == PLUS {
        1
    } else {
        0
    };
    let ghost d = s.subrange(start as int, n as int);
    assert(d =~= if start == 1 {
        s.drop_first()
    } else {
        s
    });
    if start == n {
        return None;
    }
    let mut acc: i64 = 0;
    let mut k: usize = start;
    while k < n
        invariant
            start <= k <= n,
            n == w@.len(),
            s == w@,
            d == s.subrange(start as int, n as int),
            start <= 1,
            0 < n,
            start == 1 <==> (s[0] == MINUS || s[0] == PLUS),
            d == if start == 1 {
                s.drop_first()
            } else {
                s
            },
            all_digits(s.subrange(start as int, k as int)),
            acc == decimal_value(s.subrange(start as int, k as int)),
            0 <= acc <= 2147483648,
        decreases n - k,
    {
        let b = w[k];
        if b < 48 || b > 57 {
            assert(!is_digit(d[k - start]));
            return None;
        }
        let next = acc * 10 + (b - 48) as i64;
        let ghost p = s.subrange(start as int, k + 1);
        assert(p.drop_last() =~= s.subrange(start as int, k as int));
        assert(all_digits(p)) by {
            assert forall|j: int| 0 <= j < p.len() implies is_digit(#[trigger] p[j]) by {
                if j < p.len() - 1 {
                    assert(p[j] == s.subrange(start as int, k as int)[j]);
                }
            }
        }
        if next > 2147483648 {
            proof {
                if all_digits(d) {
                    lemma_decimal_value_prefix(d, k + 1 - start);
                    assert(d.take(k + 1 - start) =~= p);
                }
            }
            return None;
        }
        acc = next;
        k = k + 1;
    }
    assert(s.subrange(start as int, k as int) =~= d);
    if w[0] == MINUS {
        Some((-acc) as i32)
    } else if acc <= 2147483647 {
        Some(acc as i32)
    } else {
        None
    }
}

/// Whether `l` starts with `prefix`.
pub open spec fn starts_with(l: Seq<u8>, prefix: Seq<u8>) -> bool {
    prefix.len() <= l.len() && l.take(prefix.len() as int) == prefix
}

/// Tells whether `l` starts with `prefix`.
pub fn has_prefix(l: &[u8], prefix: &[u8]) -> (r: bool)
    ensures
        r == starts_with(l@, prefix@),
{
    if prefix.len() > l.len() {
        return false;
    }
    let mut k: usize = 0;
    while k < prefix.len()
        invariant
            k <= prefix@.len() <= l@.len(),
            forall|j: int| 0 <= j < k ==> l@[j] == prefix@[j],
        decreases prefix@.len() - k,
    {
        if l[k] != prefix[k] {
            assert(l@.take(prefix@.len() as int)[k as int] != prefix@[k as int]);
            return false;
        }
        k = k + 1;
    }
    assert(l@.take(prefix@.len() as int) =~= prefix@);
    true
}

/// Calls `String::from_utf8`, which gives the text that `bytes` encode
/// where they are valid UTF-8, and an error where they are not. The error is
/// handed on as `None`.
#[verifier::external_body]
pub(crate) fn utf8_text(bytes: Vec<u8>) -> (r: Option<String>)
    ensures
        r is Some <==> valid_utf8(bytes@),
        r matches Some(t) ==> t@ == decode_utf8(bytes@),
{
    String::from_utf8(bytes).ok()
}

/// The characters of `s`, one by one.
pub fn chars_of(s: &str) -> (v: Vec<char>)
    ensures
        v@ == s@,
{
    let mut v: Vec<char> = Vec::new();
    for c in it: s.chars()
        invariant
            v@ == it.seq().take(it.index() as int),
    {
        v.push(c);
    }
    v
}

/// Whether `c` is white space in the sense of `char::is_whitespace`: it has
/// the Unicode property `White_Space`.
pub open spec fn is_white_space(c: char) -> bool {
    let u = c as u32;
    (9 <= u <= 13) || u == 32 || u == 0x85 || u == 0xA0 || u == 0x1680 || (0x2000 <= u <= 0x200A)
        || u == 0x2028 || u == 0x2029 || u == 0x202F || u == 0x205F || u == 0x3000
}

/// The first index at or after `i` that holds no white space, or the length.
pub open spec fn trim_front(s: Seq<char>, i: int) -> int
    decreases s.len() - i,
{
    if i < 0 || i >= s.len() {
        s.len() as int
    } else if is_white_space(s[i]) {
        trim_front(s, i + 1)
    } else {
        i
    }
}

/// The end, going back from `j` but not below `lo`, of the text without its
/// trailing white space.
pub open spec fn trim_back(s: Seq<char>, j: int, lo: int) -> int
    decreases j - lo,
{
    if j <= lo {
        lo
    } else if is_white_space(s[j - 1]) {
        trim_back(s, j - 1, lo)
    } else {
        j
    }
}

/// `s` without its leading and trailing white space, as `str::trim` gives it.
pub open spec fn trim(s: Seq<char>) -> Seq<char> {
    let a = trim_front(s, 0);
    s.subrange(a, trim_back(s, s.len() as int, a))
}

pub proof fn lemma_trim_front_bounds(s: Seq<char>, i: int)
    requires
        0 <= i <= s.len(),
    ensures
        i <= trim_front(s, i) <= s.len(),
    decreases s.len() - i,
{
    if i < s.len() && is_white_space(s[i]) {
        lemma_trim_front_bounds(s, i + 1);
    }
}

pub proof fn lemma_trim_back_bounds(s: Seq<char>, j: int, lo: int)
    requires
        lo <= j,
    ensures
        lo <= trim_back(s, j, lo) <= j,
    decreases j - lo,
{
    if j > lo && is_white_space(s[j - 1]) {
        lemma_trim_back_bounds(s, j - 1, lo);
    }
}

/// Tells whether `c` is white space.
pub fn white_space(c: char) -> (r: bool)
    ensures
        r == is_white_space(c),
{
    let u = c as u32;
    (9 <= u && u <= 13) || u == 32 || u == 0x85 || u == 0xA0 || u == 0x1680 || (0x2000 <= u && u
        <= 0x200A) || u == 0x2028 || u == 0x2029 || u == 0x202F || u == 0x205F || u == 0x3000
}

/// Finds the bounds of `v` without its leading and trailing white space.
fn trim_bounds(v: &Vec<char>) -> (r: (usize, usize))
    ensures
        r.0 == trim_front(v@, 0),
        r.1 == trim_back(v@, v@.len() as int, r.0 as int),
        r.0 <= r.1 <= v@.len(),
{
    let mut a: usize = 0;
    while a < v.len() && white_space(v[a])
        invariant
            a <= v@.len(),
            trim_front(v@, a as int) == trim_front(v@, 0),
        decreases v@.len() - a,
    {
        a = a + 1;
    }
    let mut b: usize = v.len();
    while b > a && white_space(v[b - 1])
        invariant
            a <= b <= v@.len(),
            trim_back(v@, b as int, a as int) == trim_back(v@, v@.len() as int, a as int),
        decreases b - a,
    {
        b = b - 1;
    }
    (a, b)
}

/// Tells whether `x` and `y` agree once their leading and trailing white
/// space is taken away.
pub fn trimmed_equal(x: &str, y: &str) -> (r: bool)
    ensures
        r == (trim(x@) == trim(y@)),
{
    let xs = chars_of(x);
    let ys = chars_of(y);
    let (xa, xb) = trim_bounds(&xs);
    let (ya, yb) = trim_bounds(&ys);
    let ghost tx = xs@.subrange(xa as int, xb as int);
    let ghost ty = ys@.subrange(ya as int, yb as int);
    assert(tx == trim(x@));
    assert(ty == trim(y@));
    if xb - xa != yb - ya {
        assert(tx.len() != ty.len());
        return false;
    }
    let n = xb - xa;
    let mut k: usize = 0;
    while k < n
        invariant
            k <= n,
            n == xb - xa,
            n == yb - ya,
            xa <= xb <= xs@.len(),
            ya <= yb <= ys@.len(),
            tx == xs@.subrange(xa as int, xb as int),
            ty == ys@.subrange(ya as int, yb as int),
            forall|j: int| 0 <= j < k ==> tx[j] == ty[j],
            tx == trim(x@),
            ty == trim(y@),
        decreases n - k,
    {
        if xs[xa + k] != ys[ya + k] {
            assert(tx[k as int] != ty[k as int]);
            return false;
        }
        k = k + 1;
    }
    assert(tx =~= ty);
    true
}

/// Every character of `p` is white space.
pub open spec fn all_white(p: Seq<char>) -> bool {
    forall|k: int| 0 <= k < p.len() ==> is_white_space(#[trigger] p[k])
}

proof fn lemma_trim_front_is(s: Seq<char>, i: int, j: int)
    requires
        0 <= i <= j <= s.len(),
        forall|k: int| i <= k < j ==> is_white_space(#[trigger] s[k]),
        j == s.len() || !is_white_space(s[j]),
    ensures
        trim_front(s, i) == j,
    decreases j - i,
{
    if i < j {
        lemma_trim_front_is(s, i + 1, j);
    }
}

proof fn lemma_trim_front_props(s: Seq<char>, i: int)
    requires
        0 <= i <= s.len(),
    ensures
        forall|k: int| i <= k < trim_front(s, i) ==> is_white_space(#[trigger] s[k]),
        trim_front(s, i) == s.len() || !is_white_space(s[trim_front(s, i)]),
    decreases s.len() - i,
{
    lemma_trim_front_bounds(s, i);
    if i < s.len() && is_white_space(s[i]) {
        lemma_trim_front_props(s, i + 1);
    }
}

proof fn lemma_trim_back_is(s: Seq<char>, j: int, lo: int, e: int)
    requires
        0 <= lo <= e <= j <= s.len(),
        forall|k: int| e <= k < j ==> is_white_space(#[trigger] s[k]),
        e == lo || !is_white_space(s[e - 1]),
    ensures
        trim_back(s, j, lo) == e,
    decreases j - e,
{
    if e < j {
        lemma_trim_back_is(s, j - 1, lo, e);
    }
}

proof fn lemma_trim_back_props(s: Seq<char>, j: int, lo: int)
    requires
        0 <= lo <= j <= s.len(),
    ensures
        forall|k: int| trim_back(s, j, lo) <= k < j ==> is_white_space(#[trigger] s[k]),
        trim_back(s, j, lo) == lo || !is_white_space(s[trim_back(s, j, lo) - 1]),
    decreases j - lo,
{
    lemma_trim_back_bounds(s, j, lo);
    if j > lo && is_white_space(s[j - 1]) {
        lemma_trim_back_props(s, j - 1, lo);
    }
}

/// Leading and trailing white space does not change what a text trims to:
/// an answer padded with white space is judged as the answer itself.
pub proof fn lemma_trim_ignores_padding(p: Seq<char>, s: Seq<char>, q: Seq<char>)
    requires
        all_white(p),
        all_white(q),
    ensures
        trim(p + s + q) == trim(s),
{
    let x = p + s + q;
    let n = p.len() as int;
    let m = s.len() as int;
    lemma_trim_front_bounds(s, 0);
    lemma_trim_front_props(s, 0);
    let a = trim_front(s, 0);
    lemma_trim_back_bounds(s, m, a);
    lemma_trim_back_props(s, m, a);
    let b = trim_back(s, m, a);
    assert forall|k: int| 0 <= k < n + a implies is_white_space(#[trigger] x[k]) by {
        if k < n {
            assert(x[k] == p[k]);
        } else {
            assert(x[k] == s[k - n]);
        }
    }
    if a < m {
        assert(x[n + a] == s[a]);
        lemma_trim_front_is(x, 0, n + a);
        assert forall|k: int| n + b <= k < x.len() implies is_white_space(#[trigger] x[k]) by {
            if k < n + m {
                assert(x[k] == s[k - n]);
            } else {
                assert(x[k] == q[k - n - m]);
            }
        }
        if b > a {
            assert(x[n + b - 1] == s[b - 1]);
        }
        lemma_trim_back_is(x, x.len() as int, n + a, n + b);
        assert(x.subrange(n + a, n + b) =~= s.subrange(a, b));
    } else {
        assert forall|k: int| 0 <= k < x.len() implies is_white_space(#[trigger] x[k]) by {
            if k < n + m {
            } else {
                assert(x[k] == q[k - n - m]);
            }
        }
        lemma_trim_front_is(x, 0, x.len() as int);
        assert(trim_back(x, x.len() as int, x.len() as int) == x.len());
        assert(trim_back(s, m, m) == m);
        assert(trim(x) =~= Seq::<char>::empty());
        assert(trim(s) =~= Seq::<char>::empty());
    }
}

proof fn lemma_line_end_shift(a: Seq<u8>, b: Seq<u8>, j: int)
    requires
        0 <= j <= b.len(),
    ensures
        line_end(a + b, a.len() + j) == a.len() + line_end(b, j),
    decreases b.len() - j,
{
    if j < b.len() {
        assert((a + b)[a.len() + j] == b[j]);
        lemma_line_end_shift(a, b, j + 1);
        assert(a.len() + j + 1 == a.len() + (j + 1));
    }
}

proof fn lemma_lines_from_shift(a: Seq<u8>, b: Seq<u8>, j: int)
    requires
        0 <= j <= b.len(),
    ensures
        lines_from(a + b, a.len() + j) == lines_from(b, j),
    decreases b.len() - j,
{
    if j < b.len() {
        let k = a.len() + j;
        lemma_line_end_shift(a, b, j);
        lemma_line_end_bounds(b, j);
        let e = line_end(b, j);
        assert((a + b).subrange(k, a.len() + e) =~= b.subrange(j, e));
        if e < b.len() {
            lemma_lines_from_shift(a, b, e + 1);
            assert(a.len() + e + 1 == a.len() + (e + 1));
        } else {
            assert((a + b).subrange(k, (a + b).len() as int) =~= b.subrange(j, b.len() as int));
        }
    }
}

proof fn lemma_line_end_prefix(a: Seq<u8>, b: Seq<u8>, i: int)
    requires
        0 <= i < a.len(),
        a.last() == NEWLINE,
    ensures
        line_end(a + b, i) == line_end(a, i),
        line_end(a, i) < a.len(),
    decreases a.len() - i,
{
    assert((a + b)[i] == a[i]);
    if a[i] != NEWLINE {
        lemma_line_end_prefix(a, b, i + 1);
    }
}

proof fn lemma_lines_from_prefix(a: Seq<u8>, b: Seq<u8>, i: int)
    requires
        0 <= i <= a.len(),
        a.len() == 0 || a.last() == NEWLINE,
    ensures
        lines_from(a + b, i) == lines_from(a, i) + lines(b),
    decreases a.len() - i,
{
    if i == a.len() {
        lemma_lines_from_shift(a, b, 0);
        assert(lines_from(a, i) + lines(b) =~= lines(b));
    } else {
        lemma_line_end_prefix(a, b, i);
        lemma_line_end_bounds(a, i);
        let e = line_end(a, i);
        assert((a + b).subrange(i, e) =~= a.subrange(i, e));
        lemma_lines_from_prefix(a, b, e + 1);
        assert(lines_from(a, i) == seq![strip_cr(a.subrange(i, e))] + lines_from(a, e + 1));
        assert(lines_from(a + b, i) == seq![strip_cr(a.subrange(i, e))] + lines_from(a + b, e + 1));
        assert(seq![strip_cr(a.subrange(i, e))] + (lines_from(a, e + 1) + lines(b)) =~= (seq![
            strip_cr(a.subrange(i, e)),
        ] + lines_from(a, e + 1)) + lines(b));
    }
}

/// The lines of two texts joined, the first of them empty or ending with a
/// line feed, are the lines of the first followed by those of the second.
pub proof fn lemma_lines_of_joined_texts(a: Seq<u8>, b: Seq<u8>)
    requires
        a.len() == 0 || a.last() == NEWLINE,
    ensures
        lines(a + b) == lines(a) + lines(b),
{
    lemma_lines_from_prefix(a, b, 0);
}

/// A sign in front of the digits: `'+'` changes nothing, and `'-'` negates
/// the value of digits that parse.
pub proof fn lemma_parse_i32_sign(d: Seq<u8>)
    requires
        d.len() > 0,
        is_digit(d[0]),
    ensures
        parse_i32(seq![PLUS] + d) == parse_i32(d),
        parse_i32(d) matches Some(v) ==> parse_i32(seq![MINUS] + d) == Some((-v) as i32),
{
    assert((seq![PLUS] + d).drop_first() =~= d);
    assert((seq![MINUS] + d).drop_first() =~= d);
    assert((seq![PLUS] + d)[0] == PLUS);
    assert((seq![MINUS] + d)[0] == MINUS);
    if all_digits(d) {
        lemma_decimal_value_nonneg(d);
    }
}

} // verus!
