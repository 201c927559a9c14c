use vstd::prelude::*;
use vstd::string::*;

use crate::octets::octets_of;

verus! {

broadcast use vstd::seq_lib::group_to_multiset_ensures;

/// The character of a decimal digit.
pub open spec fn digit_char(d: int) -> char {
    if d == 0 {
        '0'
    } else if d == 1 {
        '1'
    } else if d == 2 {
        '2'
    } else if d == 3 {
        '3'
    } else if d == 4 {
        '4'
    } else if d == 5 {
        '5'
    } else if d == 6 {
        '6'
    } else if d == 7 {
        '7'
    } else if d == 8 {
        '8'
    } else {
        '9'
    }
}

/// An octet in decimal, without leading zeros.
pub open spec fn octet_text(n: u8) -> Seq<char> {
    if n < 10 {
        seq![digit_char(n as int)]
    } else if n < 100 {
        seq![digit_char(n as int / 10), digit_char(n as int % 10)]
    } else {
        seq![digit_char(n as int / 100), digit_char((n as int / 10) % 10), digit_char(n as int % 10)]
    }
}

/// An address in dotted decimal, most significant octet first.
pub open spec fn address_text_of(ip: u32) -> Seq<char> {
    let (a, b, c, d) = octets_of(ip);
    octet_text(a) + "."@ + octet_text(b) + "."@ + octet_text(c) + "."@ + octet_text(d)
}

/// The text of one decimal digit.
fn digit_str(d: u8) -> (s: &'static str)
    requires
        d < 10,
    ensures
        s@ == seq![digit_char(d as int)],
{
    proof {
        reveal_strlit("0");
        reveal_strlit("1");
        reveal_strlit("2");
        reveal_strlit("3");
        reveal_strlit("4");
        reveal_strlit("5");
        reveal_strlit("6");
        reveal_strlit("7");
        reveal_strlit("8");
        reveal_strlit("9");
    }
    match d {
        0 => "0",
        1 => "1",
        2 => "2",
        3 => "3",
        4 => "4",
        5 => "5",
        6 => "6",
        7 => "7",
        8 => "8",
        _ => "9",
    }
}

/// Appends an octet in decimal.
fn append_octet(s: &mut String, n: u8)
    ensures
        final(s)@ == old(s)@ + octet_text(n),
{
    if n >= 100 {
        s.append(digit_str(n / 100));
    }
    if n >= 10 {
        s.append(digit_str((n / 10) % 10));
    }
    s.append(digit_str(n % 10));
    assert(s@ =~= old(s)@ + octet_text(n));
}

/// The character of a decimal digit reads back as that digit.
proof fn lemma_digit_char(d: int)
    requires
        0 <= d <= 9,
    ensures
        is_ascii_digit(digit_char(d)),
        digit_char(d) as int - '0' as int == d,
{
}

/// The text of an octet is its decimal numeral without leading zeros: it
/// is made of ASCII digits, reads back as the octet, has as many digits as
/// the octet needs (one below 10, two below 100, three otherwise), and
/// starts with `0` only for the octet 0.
pub proof fn law_octet_text_decimal(n: u8)
    ensures
        forall|i: int| 0 <= i < octet_text(n).len() ==> is_ascii_digit(#[trigger] octet_text(n)[i]),
        digits_value(octet_text(n)) == n as int,
        octet_text(n).len() == if n < 10 {
            1int
        } else if n < 100 {
            2int
        } else {
            3int
        },
        octet_text(n)[0] == '0' ==> n == 0,
{
    let t = octet_text(n);
    let v = n as int;
    if n < 10 {
        lemma_digit_char(v);
        assert(t.drop_last() =~= Seq::<char>::empty());
        assert(digits_value(t.drop_last()) == 0);
        assert(digits_value(t) == v);
    } else if n < 100 {
        lemma_digit_char(v / 10);
        lemma_digit_char(v % 10);
        assert(t.drop_last() =~= seq![digit_char(v / 10)]);
        assert(t.drop_last().drop_last() =~= Seq::<char>::empty());
        assert(digits_value(t.drop_last().drop_last()) == 0);
        assert(digits_value(t.drop_last()) == v / 10);
        assert(digits_value(t) == (v / 10) * 10 + v % 10);
        assert((v / 10) * 10 + v % 10 == v);
    } else {
        lemma_digit_char(v / 100);
        lemma_digit_char((v / 10) % 10);
        lemma_digit_char(v % 10);
        assert(t.drop_last() =~= seq![digit_char(v / 100), digit_char((v / 10) % 10)]);
        assert(t.drop_last().drop_last() =~= seq![digit_char(v / 100)]);
        assert(t.drop_last().drop_last().drop_last() =~= Seq::<char>::empty());
        let a = v / 100;
        let b = (v / 10) % 10;
        let c = v % 10;
        assert(digits_value(t.drop_last().drop_last().drop_last()) == 0);
        assert(digits_value(t.drop_last().drop_last()) == a);
        assert(digits_value(t.drop_last()) == a * 10 + b);
        assert(digits_value(t) == (a * 10 + b) * 10 + c);
        assert((a * 10 + b) * 10 + c == v);
    }
}

/// The dotted decimal text of an address, as reverse lookups compare it
/// with the names they find.
pub fn address_text(ip: u32) -> (s: String)
    ensures
        s@ == address_text_of(ip),
{
    let mut s = String::new();
    append_octet(&mut s, ((ip >> 24) & 0xFF) as u8);
    s.append(".");
    append_octet(&mut s, ((ip >> 16) & 0xFF) as u8);
    s.append(".");
    append_octet(&mut s, ((ip >> 8) & 0xFF) as u8);
    s.append(".");
    append_octet(&mut s, (ip & 0xFF) as u8);
    proof {
        crate::octets::lemma_octets_by_shifts(ip);
        assert(ip >> 0u32 == ip) by (bit_vector);
    }
    assert(s@ =~= address_text_of(ip));
    s
}

/// An ASCII decimal digit, the only characters whose runs are read as
/// numbers by the human order.
pub open spec fn is_ascii_digit(c: char) -> bool {
    '0' <= c <= '9'
}

/// The number that a run of ASCII digits reads as.
pub open spec fn digits_value(s: Seq<char>) -> int
    decreases s.len(),
{
    if s.len() == 0 {
        0
    } else {
        digits_value(s.drop_last()) * 10 + (s.last() as int - '0' as int)
    }
}

/// `s[i..j]` is made of ASCII digits only.
pub open spec fn all_digits(s: Seq<char>, i: int, j: int) -> bool {
    forall|k: int| i <= k < j ==> is_ascii_digit(#[trigger] s[k])
}

/// Every run of ASCII digits in `s` reads as a number that fits in `u32`:
/// the human order reads numbers into a `u32` and overflows on larger ones.
pub open spec fn digit_runs_fit(s: Seq<char>) -> bool {
    forall|i: int, j: int|
        0 <= i <= j <= s.len() && #[trigger] all_digits(s, i, j) ==> digits_value(
            s.subrange(i, j),
        ) <= u32::MAX
}

/// Digits are not negative, and a run read from a later start is not
/// larger.
proof fn lemma_digits_suffix(s: Seq<char>, start: int, i: int, j: int)
    requires
        0 <= start <= i <= j <= s.len(),
        all_digits(s, start, j),
    ensures
        0 <= digits_value(s.subrange(i, j)) <= digits_value(s.subrange(start, j)),
    decreases j - i,
{
    if i < j {
        lemma_digits_suffix(s, start, i, j - 1);
        assert(s.subrange(i, j).drop_last() =~= s.subrange(i, j - 1));
        assert(s.subrange(start, j).drop_last() =~= s.subrange(start, j - 1));
        assert(is_ascii_digit(s[j - 1]));
    } else {
        assert(s.subrange(i, j) =~= Seq::<char>::empty());
        lemma_digits_nonneg(s, start, j);
    }
}

/// A run of digits reads as a number that is not negative.
proof fn lemma_digits_nonneg(s: Seq<char>, i: int, j: int)
    requires
        0 <= i <= j <= s.len(),
        all_digits(s, i, j),
    ensures
        digits_value(s.subrange(i, j)) >= 0,
    decreases j - i,
{
    if i < j {
        lemma_digits_nonneg(s, i, j - 1);
        assert(s.subrange(i, j).drop_last() =~= s.subrange(i, j - 1));
        assert(is_ascii_digit(s[j - 1]));
    }
}

/// Whether every run of ASCII digits in `s` reads as a number that fits
/// in `u32`, so that `s` can be compared in human order.
pub fn digit_runs_fit_in(s: &str) -> (r: bool)
    ensures
        r == digit_runs_fit(s@),
{
    let n = s.unicode_len();
    let mut k: usize = 0;
    let mut start: usize = 0;
    let mut v: u64 = 0;
    while k < n
        invariant
            n == s@.len(),
            start <= k <= n,
            all_digits(s@, start as int, k as int),
            start > 0 ==> !is_ascii_digit(s@[start - 1]),
            v == digits_value(s@.subrange(start as int, k as int)),
            v <= u32::MAX,
            forall|i: int, j: int|
                0 <= i <= j <= k && #[trigger] all_digits(s@, i, j) ==> digits_value(
                    s@.subrange(i, j),
                ) <= u32::MAX,
        decreases n - k,
    {
        let c = s.get_char(k);
        if '0' <= c && c <= '9' {
            let ghost sub = s@.subrange(start as int, k + 1);
            assert(sub.drop_last() =~= s@.subrange(start as int, k as int));
            let d: u64 = (c as u64) - 48;
            let w: u64 = v * 10 + d;
            if w > u32::MAX as u64 {
                assert(all_digits(s@, start as int, k + 1));
                return false;
            }
            v = w;
            k = k + 1;
            proof {
                assert forall|i: int, j: int|
                    0 <= i <= j <= k && #[trigger] all_digits(s@, i, j) implies digits_value(
                    s@.subrange(i, j),
                ) <= u32::MAX by {
                    if j == k && i < start {
                        assert(is_ascii_digit(s@[start - 1]));
                    }
                    if j == k && i >= start {
                        lemma_digits_suffix(s@, start as int, i, j);
                    }
                }
            }
        } else {
            k = k + 1;
            start = k;
            v = 0;
            proof {
                assert(s@.subrange(start as int, k as int) =~= Seq::<char>::empty());
                assert forall|i: int, j: int|
                    0 <= i <= j <= k && #[trigger] all_digits(s@, i, j) implies digits_value(
                    s@.subrange(i, j),
                ) <= u32::MAX by {
                    if j == k && i < j {
                        assert(is_ascii_digit(s@[k - 1]));
                    }
                    if j == k && i == j {
                        assert(s@.subrange(i, j) =~= Seq::<char>::empty());
                    }
                }
            }
        }
    }
    true
}

/// An ASCII character that is not a digit: the human order never reads a
/// number at it.
pub open spec fn is_ascii_non_digit(c: char) -> bool {
    (c as u32) < 128 && !is_ascii_digit(c)
}

/// `k` is where `a` and `b` first differ, or the length of the shorter one
/// when one starts the other.
pub open spec fn first_difference(a: Seq<char>, b: Seq<char>, k: int) -> bool {
    &&& 0 <= k <= a.len()
    &&& k <= b.len()
    &&& forall|i: int| 0 <= i < k ==> a[i] == b[i]
    &&& (k == a.len() || k == b.len() || a[k] != b[k])
}

/// Comparing `a` with `b` in human order reads no number past `u32::MAX`.
/// The comparison passes over the characters the two strings share; where
/// they first differ it stops when one has ended or holds an ASCII
/// character that is not a digit, and otherwise it reads numbers only from
/// there on, which then must fit.
pub open spec fn comparable_pair(a: Seq<char>, b: Seq<char>) -> bool {
    forall|k: int|
        #[trigger] first_difference(a, b, k) ==> {
            ||| k == a.len()
            ||| k == b.len()
            ||| is_ascii_non_digit(a[k])
            ||| is_ascii_non_digit(b[k])
            ||| (digit_runs_fit(a.skip(k)) && digit_runs_fit(b.skip(k)))
        }
}

/// Every two of the names (in either order) can be compared in human order.
pub open spec fn pairs_comparable(v: Seq<String>) -> bool {
    forall|i: int, j: int|
        0 <= i < v.len() && 0 <= j < v.len() ==> comparable_pair(#[trigger] v[i]@, #[trigger] v[j]@)
}

/// Strings differ first at one place only.
proof fn lemma_first_difference_unique(a: Seq<char>, b: Seq<char>, k1: int, k2: int)
    requires
        first_difference(a, b, k1),
        first_difference(a, b, k2),
    ensures
        k1 == k2,
{
    if k1 < k2 {
        assert(a[k1] == b[k1]);
    } else if k2 < k1 {
        assert(a[k2] == b[k2]);
    }
}

/// Whether comparing `a` with `b` in human order reads no number past
/// `u32::MAX`.
pub fn comparable_in(a: &str, b: &str) -> (r: bool)
    ensures
        r == comparable_pair(a@, b@),
{
    let na = a.unicode_len();
    let nb = b.unicode_len();
    let mut k: usize = 0;
    while k < na && k < nb && a.get_char(k) == b.get_char(k)
        invariant
            na == a@.len(),
            nb == b@.len(),
            k <= na,
            k <= nb,
            forall|i: int| 0 <= i < k ==> a@[i] == b@[i],
        decreases na - k,
    {
        k = k + 1;
    }
    assert(first_difference(a@, b@, k as int));
    proof {
        assert forall|k2: int| #[trigger] first_difference(a@, b@, k2) implies k2 == k by {
            lemma_first_difference_unique(a@, b@, k as int, k2);
        }
    }
    if k == na || k == nb {
        return true;
    }
    let x = a.get_char(k);
    let y = b.get_char(k);
    if ((x as u32) < 128 && !('0' <= x && x <= '9')) || ((y as u32) < 128 && !('0' <= y && y
        <= '9')) {
        return true;
    }
    let ra = a.substring_char(k, na);
    let rb = b.substring_char(k, nb);
    assert(ra@ =~= a@.skip(k as int));
    assert(rb@ =~= b@.skip(k as int));
    digit_runs_fit_in(ra) && digit_runs_fit_in(rb)
}

/// A string can be compared with itself: it has no first difference.
proof fn lemma_comparable_self(s: Seq<char>)
    ensures
        comparable_pair(s, s),
{
    assert forall|k: int| #[trigger] first_difference(s, s, k) implies k == s.len() by {}
}

/// Whether every two of the names can be compared in human order.
pub fn names_comparable(names: &Vec<String>) -> (r: bool)
    ensures
        r == pairs_comparable(names@),
{
    let n = names.len();
    let mut i: usize = 0;
    while i < n
        invariant
            n == names.len(),
            i <= n,
            forall|a: int, b: int|
                0 <= a < i && 0 <= b < n ==> comparable_pair(#[trigger] names@[a]@, #[trigger] names@[b]@),
        decreases n - i,
    {
        let mut j: usize = 0;
        while j < n
            invariant
                n == names.len(),
                i < n,
                j <= n,
                forall|a: int, b: int|
                    0 <= a < i && 0 <= b < n ==> comparable_pair(#[trigger] names@[a]@, #[trigger] names@[b]@),
                forall|b: int| 0 <= b < j ==> comparable_pair(names@[i as int]@, #[trigger] names@[b]@),
            decreases n - j,
        {
            if !comparable_in(names[i].as_str(), names[j].as_str()) {
                return false;
            }
            j = j + 1;
        }
        i = i + 1;
    }
    true
}

/// Whether `human_sort::compare` orders `a` after `b`.
pub uninterp spec fn human_after(a: Seq<char>, b: Seq<char>) -> bool;

/// Calls `human_sort::compare`, which compares two strings in human order
/// (runs of digits by their numbers, other characters one by one), and
/// tells whether it answers `Greater`. Its answer depends on the two
/// strings alone; what it is is left to the name `human_after`. The
/// comparison treats its two strings alike (equal characters are passed
/// over in both, numbers and characters compared with `cmp`, and the
/// strings themselves with `cmp` at the end), so it never orders each of
/// two strings after the other: when it answers `Greater` for `(a, b)` it
/// does not for `(b, a)`. It reads runs of ASCII digits into a `u32`, which
/// overflows on numbers past `u32::MAX`. It reads none before the strings
/// first differ, and none when there one has ended or holds an ASCII
/// character that is not a digit; pairs where a number it may read from
/// there on is past `u32::MAX` are left out (`comparable_pair`), some of
/// which it would compare without reading that number.
#[verifier::external_body]
fn human_greater(a: &str, b: &str) -> (r: bool)
    requires
        comparable_pair(a@, b@),
    ensures
        r == human_after(a@, b@),
        r ==> !human_after(b@, a@),
{
    match human_sort::compare(a, b) {
        std::cmp::Ordering::Less => false,
        std::cmp::Ordering::Equal => false,
        std::cmp::Ordering::Greater => true,
    }
}

/// The texts of a list of strings.
pub open spec fn texts(v: Seq<String>) -> Seq<Seq<char>> {
    v.map_values(|s: String| s@)
}

/// No string of `v` comes right before one it is ordered after.
pub open spec fn human_sorted_seq(v: Seq<Seq<char>>) -> bool {
    forall|i: int| 0 <= i < v.len() - 1 ==> !human_after(#[trigger] v[i], v[i + 1])
}

/// `x` placed into `s` as a stable sort places a string that comes after
/// those already sorted: behind the last one it is not ordered before.
pub open spec fn human_insert(s: Seq<Seq<char>>, x: Seq<char>) -> Seq<Seq<char>>
    decreases s.len(),
{
    if s.len() > 0 && human_after(s.last(), x) {
        human_insert(s.drop_last(), x).push(s.last())
    } else {
        s.push(x)
    }
}

/// `s` sorted in human order, stably: each string in turn is placed behind
/// the last of those before it that it is not ordered before.
pub open spec fn human_sorted(s: Seq<Seq<char>>) -> Seq<Seq<char>>
    decreases s.len(),
{
    if s.len() == 0 {
        s
    } else {
        human_insert(human_sorted(s.drop_last()), s.last())
    }
}

/// Placing `x` at `p`, where all strings from `p` on are ordered after it
/// and the one before `p` is not, is what `human_insert` does.
proof fn lemma_human_insert_at(s: Seq<Seq<char>>, x: Seq<char>, p: int)
    requires
        0 <= p <= s.len(),
        forall|q: int| p <= q < s.len() ==> human_after(#[trigger] s[q], x),
        p > 0 ==> !human_after(s[p - 1], x),
    ensures
        human_insert(s, x) == s.insert(p, x),
    decreases s.len(),
{
    if p == s.len() {
        assert(s.push(x) =~= s.insert(p, x));
    } else {
        let d = s.drop_last();
        assert(human_after(s[s.len() - 1], x));
        lemma_human_insert_at(d, x, p);
        assert(d.insert(p, x).push(s.last()) =~= s.insert(p, x));
    }
}

/// Sorts host names in human order, stably: the result is
/// `human_sorted` of the names, so every name is kept, as many times as it
/// came, and no name comes right before one it is ordered after. Every two
/// names must be comparable unless there is at most one.
pub fn human_sort(names: &Vec<String>) -> (sorted: Vec<String>)
    requires
        names@.len() <= 1 || pairs_comparable(names@),
    ensures
        texts(sorted@) == human_sorted(texts(names@)),
        texts(sorted@).to_multiset() == texts(names@).to_multiset(),
        human_sorted_seq(texts(sorted@)),
{
    proof {
        if names@.len() == 1 {
            lemma_comparable_self(names@[0]@);
        }
    }
    let mut out: Vec<String> = Vec::new();
    let mut i: usize = 0;
    while i < names.len()
        invariant
            i <= names.len(),
            pairs_comparable(names@),
            forall|m: int, j: int|
                0 <= m < out.len() && 0 <= j < names.len() ==> comparable_pair(
                    #[trigger] out@[m]@,
                    #[trigger] names@[j]@,
                ),
            texts(out@) == human_sorted(texts(names@.take(i as int))),
            texts(out@).to_multiset() == texts(names@.take(i as int)).to_multiset(),
            human_sorted_seq(texts(out@)),
        decreases names.len() - i,
    {
        let e = names[i].clone();
        let mut p: usize = out.len();
        while p > 0 && human_greater(out[p - 1].as_str(), e.as_str())
            invariant
                p <= out.len(),
                i < names.len(),
                e@ == names@[i as int]@,
                forall|m: int, j: int|
                    0 <= m < out.len() && 0 <= j < names.len() ==> comparable_pair(
                        #[trigger] out@[m]@,
                        #[trigger] names@[j]@,
                    ),
                forall|q: int| p <= q < out.len() ==> human_after(#[trigger] out@[q]@, e@),
                p < out.len() ==> !human_after(e@, out@[p as int]@),
            decreases p,
        {
            p = p - 1;
        }
        let ghost before = out@;
        out.insert(p, e);
        proof {
            let tb = texts(before);
            assert(texts(out@) =~= tb.insert(p as int, e@));
            assert(names@.take(i + 1) =~= names@.take(i as int).push(names@[i as int]));
            let tn = texts(names@.take(i as int));
            assert(texts(names@.take(i + 1)) =~= tn.push(e@));
            assert(tn.push(e@).drop_last() =~= tn);
            lemma_human_insert_at(tb, e@, p as int);
            tb.to_multiset_ensures();
            vstd::seq_lib::to_multiset_insert(tb, p as int, e@);
            let to = texts(out@);
            assert forall|j: int| 0 <= j < to.len() - 1 implies !human_after(
                #[trigger] to[j],
                to[j + 1],
            ) by {
                if j < p - 1 {
                    assert(to[j] == tb[j] && to[j + 1] == tb[j + 1]);
                } else if j == p - 1 {
                } else if j == p {
                    assert(to[j + 1] == tb[p as int]);
                } else {
                    assert(to[j] == tb[j - 1] && to[j + 1] == tb[j]);
                }
            }
            assert forall|m: int, j: int|
                0 <= m < out.len() && 0 <= j < names.len() implies comparable_pair(
                #[trigger] out@[m]@,
                #[trigger] names@[j]@,
            ) by {
                if m < p {
                    assert(out@[m] == before[m]);
                } else if m > p {
                    assert(out@[m] == before[m - 1]);
                }
            }
        }
        i = i + 1;
    }
    assert(names@.take(names.len() as int) =~= names@);
    out
}

/// The names from `texts` that are worth recording for the address whose
/// text is `ip_text`: all those that are not the address itself, in order.
pub open spec fn recorded_names(ip_text: Seq<char>, texts: Seq<Seq<char>>) -> Seq<Seq<char>> {
    texts.filter(|t: Seq<char>| t != ip_text)
}

/// The host names that a reverse lookup of `ip` found and that are worth
/// recording: the names sorted stably in human order, without those that
/// are just the address in dotted decimal. Every two names must be
/// comparable unless there is at most one.
pub fn names_to_record(ip: u32, names: &Vec<String>) -> (r: Vec<String>)
    requires
        names@.len() <= 1 || pairs_comparable(names@),
    ensures
        texts(r@) == recorded_names(address_text_of(ip), human_sorted(texts(names@))),
{
    let sorted = human_sort(names);
    let ip_text = address_text(ip);
    let mut r: Vec<String> = Vec::new();
    let mut i: usize = 0;
    while i < sorted.len()
        invariant
            i <= sorted.len(),
            ip_text@ == address_text_of(ip),
            texts(r@) == recorded_names(ip_text@, texts(sorted@.take(i as int))),
        decreases sorted.len() - i,
    {
        let name = sorted[i].clone();
        proof {
            let tk = texts(sorted@.take(i as int));
            assert(texts(sorted@.take(i + 1)) =~= tk.push(sorted@[i as int]@));
            tk.lemma_filter_push(sorted@[i as int]@, |t: Seq<char>| t != ip_text@);
        }
        if name != ip_text {
            r.push(name);
            assert(texts(r@) =~= recorded_names(ip_text@, texts(sorted@.take(i + 1))));
        } else {
            assert(texts(r@) =~= recorded_names(ip_text@, texts(sorted@.take(i + 1))));
        }
        i = i + 1;
    }
    assert(sorted@.take(sorted.len() as int) =~= sorted@);
    assert(texts(r@) == recorded_names(address_text_of(ip), texts(sorted@)));
    r
}

} // verus!
