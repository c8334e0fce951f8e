//! Character and decimal text helpers shared by the parsers and formatters.

use vstd::prelude::*;
use vstd::utf8::is_ascii_chars;

verus! {

/// The characters of `s`, in order.
pub fn chars_of(s: &str) -> (v: Vec<char>)
    ensures
        v@ == s@,
{
    let mut v: Vec<char> = Vec::new();
    for c in it: s.chars()
        invariant
            v@ == it.seq().take(it.index()),
            it.seq() == s@,
    {
        v.push(c);
    }
    v
}

/// Appends one character to a string (`String::push`).
#[verifier::external_body]
pub(crate) fn push_char(s: &mut String, c: char)
    ensures
        final(s)@ == old(s)@.push(c),
{
    s.push(c);
}

/// Appends the characters `v[from..to]` to `s`.
pub fn push_range(s: &mut String, v: &Vec<char>, from: usize, to: usize)
    requires
        from <= to <= v@.len(),
    ensures
        final(s)@ == old(s)@ + v@.subrange(from as int, to as int),
{
    let ghost start = s@;
    let mut i = from;
    while i < to
        invariant
            from <= i <= to <= v@.len(),
            s@ == start + v@.subrange(from as int, i as int),
        decreases to - i,
    {
        push_char(s, v[i]);
        i = i + 1;
        assert(v@.subrange(from as int, i as int) == v@.subrange(from as int, i - 1).push(v@[i - 1]));
    }
}

/// A new string holding `v[from..to]`.
pub fn string_of_range(v: &Vec<char>, from: usize, to: usize) -> (s: String)
    requires
        from <= to <= v@.len(),
    ensures
        s@ == v@.subrange(from as int, to as int),
{
    let mut s = String::new();
    push_range(&mut s, v, from, to);
    s
}

/// A new string holding all of `v`.
pub fn string_of(v: &Vec<char>) -> (s: String)
    ensures
        s@ == v@,
{
    let s = string_of_range(v, 0, v.len());
    assert(v@.subrange(0, v@.len() as int) == v@);
    s
}

/// Appends the characters of `t` to `s`.
pub fn push_str(s: &mut String, t: &str)
    ensures
        final(s)@ == old(s)@ + t@,
{
    s.append(t);
}

// ── Searching ────────────────────────────────────────────────────────

/// `n` occurs in `h` at position `i`.
pub open spec fn matches_at(h: Seq<char>, n: Seq<char>, i: int) -> bool {
    0 <= i && i + n.len() <= h.len() && h.subrange(i, i + n.len()) =~= n
}

/// The first position at or after `i` where `n` occurs in `h`.
pub open spec fn find_from(h: Seq<char>, n: Seq<char>, i: int) -> Option<int>
    decreases h.len() - i,
{
    if i < 0 || i + n.len() > h.len() {
        None
    } else if matches_at(h, n, i) {
        Some(i)
    } else {
        find_from(h, n, i + 1)
    }
}

/// The first position where `n` occurs in `h` (`str::find`).
pub open spec fn find_first(h: Seq<char>, n: Seq<char>) -> Option<int> {
    find_from(h, n, 0)
}

/// What `find_from` returns: a match position with no earlier one, or no match at all.
pub proof fn lemma_find_from(h: Seq<char>, n: Seq<char>, i: int)
    requires
        0 <= i,
    ensures
        find_from(h, n, i) matches Some(j) ==> i <= j && matches_at(h, n, j) && forall|k: int|
            i <= k < j ==> !matches_at(h, n, k),
        find_from(h, n, i) is None ==> forall|k: int| i <= k ==> !matches_at(h, n, k),
    decreases h.len() - i,
{
    if i + n.len() > h.len() {
    } else if matches_at(h, n, i) {
    } else {
        lemma_find_from(h, n, i + 1);
    }
}

fn matches_here(h: &Vec<char>, n: &Vec<char>, i: usize) -> (b: bool)
    requires
        i + n@.len() <= h@.len(),
    ensures
        b == matches_at(h@, n@, i as int),
{
    let mut k: usize = 0;
    while k < n.len()
        invariant
            k <= n@.len(),
            i + n.len() <= h.len(),
            forall|m: int| 0 <= m < k ==> h@[i + m] == n@[m],
        decreases n@.len() - k,
    {
        if h[i + k] != n[k] {
            assert(h@.subrange(i as int, i + n@.len())[k as int] != n@[k as int]);
            return false;
        }
        k = k + 1;
    }
    assert(h@.subrange(i as int, i + n@.len()) =~= n@);
    true
}

/// Position of the first occurrence of `n` in `h` at or after `from`.
pub fn find_chars(h: &Vec<char>, n: &Vec<char>, from: usize) -> (r: Option<usize>)
    ensures
        r matches Some(j) ==> find_from(h@, n@, from as int) == Some(j as int),
        r is None ==> find_from(h@, n@, from as int) is None,
{
    if n.len() > h.len() {
        assert(from as int + n@.len() > h@.len());
        assert(find_from(h@, n@, from as int) is None);
        return None;
    }
    let last = h.len() - n.len();
    let mut i = from;
    while i <= last
        invariant
            from <= i,
            last + n@.len() == h@.len(),
            find_from(h@, n@, from as int) == find_from(h@, n@, i as int),
        decreases last + 1 - i,
    {
        if matches_here(h, n, i) {
            return Some(i);
        }
        if i == last {
            assert(find_from(h@, n@, i as int + 1) is None);
            return None;
        }
        i = i + 1;
    }
    None
}

/// `n` occurs somewhere in `h` (`str::contains`).
pub open spec fn contains_chars(h: Seq<char>, n: Seq<char>) -> bool {
    exists|i: int| matches_at(h, n, i)
}

/// Whether `n` occurs in `h`.
pub fn has_chars(h: &Vec<char>, n: &Vec<char>) -> (b: bool)
    ensures
        b == contains_chars(h@, n@),
{
    let r = find_chars(h, n, 0);
    proof {
        lemma_find_from(h@, n@, 0);
    }
    r.is_some()
}

/// `h` ends with `n` (`str::ends_with`).
pub open spec fn ends_with(h: Seq<char>, n: Seq<char>) -> bool {
    n.len() <= h.len() && h.subrange(h.len() - n.len(), h.len() as int) =~= n
}

/// Whether `h` ends with `n`.
pub fn has_suffix(h: &Vec<char>, n: &Vec<char>) -> (b: bool)
    ensures
        b == ends_with(h@, n@),
{
    if n.len() > h.len() {
        return false;
    }
    matches_here(h, n, h.len() - n.len())
}

/// The part of `s` after its last `'/'`, or all of `s` (`s.rsplit('/').next()`).
pub open spec fn after_last_slash(s: Seq<char>) -> Seq<char>
    decreases s.len(),
{
    if s.len() == 0 {
        s
    } else if s.last() == '/' {
        Seq::empty()
    } else {
        after_last_slash(s.drop_last()).push(s.last())
    }
}

/// Start of the part after the last `'/'`.
pub fn last_segment_start(s: &Vec<char>) -> (i: usize)
    ensures
        i <= s@.len(),
        s@.subrange(i as int, s@.len() as int) == after_last_slash(s@),
{
    let mut i = s.len();
    assert(s@.subrange(0, i as int) == s@);
    assert(s@.subrange(i as int, i as int) =~= Seq::<char>::empty());
    while i > 0 && s[i - 1] != '/'
        invariant
            i <= s@.len(),
            after_last_slash(s@) == after_last_slash(s@.subrange(0, i as int)) + s@.subrange(
                i as int,
                s@.len() as int,
            ),
        decreases i,
    {
        let ghost p = s@.subrange(0, i as int);
        assert(p.drop_last() == s@.subrange(0, i - 1));
        assert(s@.subrange(i - 1, s@.len() as int) == seq![s@[i - 1]] + s@.subrange(
            i as int,
            s@.len() as int,
        ));
        i = i - 1;
    }
    if i > 0 {
        assert(s@.subrange(0, i as int).last() == '/');
    }
    assert(s@.subrange(0, 0) =~= Seq::<char>::empty());
    i
}

// ── Decimal numbers ──────────────────────────────────────────────────

/// The ASCII digit for `d` (0..=9).
pub open spec fn digit_char(d: nat) -> char {
    if d == 0 { '0' }
    else if d == 1 { '1' }
    else if d == 2 { '2' }
    else if d == 3 { '3' }
    else if d == 4 { '4' }
    else if d == 5 { '5' }
    else if d == 6 { '6' }
    else if d == 7 { '7' }
    else if d == 8 { '8' }
    else { '9' }
}

/// The decimal digits of `n`, most significant first, with no leading zeros.
pub open spec fn decimal(n: nat) -> Seq<char>
    decreases n,
{
    if n < 10 {
        seq![digit_char(n)]
    } else {
        decimal(n / 10).push(digit_char(n % 10))
    }
}

/// `s` padded on the left with `'0'` to at least `width` characters (`{:0width$}`).
pub open spec fn zero_padded(s: Seq<char>, width: nat) -> Seq<char> {
    if s.len() >= width {
        s
    } else {
        Seq::new((width - s.len()) as nat, |i: int| '0') + s
    }
}

fn digit_of(d: u64) -> (c: char)
    requires
        d < 10,
    ensures
        c == digit_char(d as nat),
{
    if d == 0 { '0' }
    else if d == 1 { '1' }
    else if d == 2 { '2' }
    else if d == 3 { '3' }
    else if d == 4 { '4' }
    else if d == 5 { '5' }
    else if d == 6 { '6' }
    else if d == 7 { '7' }
    else if d == 8 { '8' }
    else { '9' }
}

/// Appends the decimal digits of `n` to `s`.
pub fn push_decimal(s: &mut String, n: u64)
    ensures
        final(s)@ == old(s)@ + decimal(n as nat),
    decreases n,
{
    if n < 10 {
        push_char(s, digit_of(n));
        assert(decimal(n as nat) == seq![digit_char(n as nat)]);
    } else {
        push_decimal(s, n / 10);
        push_char(s, digit_of(n % 10));
    }
}

/// Appends `n` in decimal, padded with zeros to at least `width` digits.
pub fn push_decimal_padded(s: &mut String, n: u64, width: usize)
    ensures
        final(s)@ == old(s)@ + zero_padded(decimal(n as nat), width as nat),
{
    let mut digits = String::new();
    push_decimal(&mut digits, n);
    let d = chars_of(digits.as_str());
    let ghost start = s@;
    if d.len() < width {
        let mut k: usize = 0;
        while k < width - d.len()
            invariant
                d@ == decimal(n as nat),
                d@.len() < width,
                k <= width - d@.len(),
                s@ == start + Seq::new(k as nat, |i: int| '0'),
            decreases width - d@.len() - k,
        {
            push_char(s, '0');
            k = k + 1;
            assert(Seq::new(k as nat, |i: int| '0') =~= Seq::new((k - 1) as nat, |i: int| '0').push('0'));
        }
    }
    push_range(s, &d, 0, d.len());
    assert(d@.subrange(0, d@.len() as int) == d@);
    assert(s@ =~= start + zero_padded(decimal(n as nat), width as nat));
}

/// `n` in decimal.
pub fn decimal_string(n: u64) -> (s: String)
    ensures
        s@ == decimal(n as nat),
{
    let mut s = String::new();
    push_decimal(&mut s, n);
    assert(s@ =~= decimal(n as nat));
    s
}

/// The value of an ASCII digit character, if it is one.
pub open spec fn digit_value(c: char) -> Option<nat> {
    if '0' <= c && c <= '9' {
        Some((c as nat - '0' as nat) as nat)
    } else {
        None
    }
}

/// Every character of `s` is an ASCII digit.
pub open spec fn all_digits(s: Seq<char>) -> bool {
    forall|i: int| 0 <= i < s.len() ==> #[trigger] digit_value(s[i]) is Some
}

/// The number that the ASCII digits `s` spell in decimal.
pub open spec fn digits_value(s: Seq<char>) -> nat
    decreases s.len(),
{
    if s.len() == 0 {
        0
    } else {
        digits_value(s.drop_last()) * 10 + digit_value(s.last()).unwrap()
    }
}

/// What `s.parse::<i64>()` accepts: an optional `+` or `-`, then one or more
/// ASCII digits, whose value fits in an `i64`.
pub open spec fn parse_i64(s: Seq<char>) -> Option<i64> {
    let neg = s.len() > 0 && s[0] == '-';
    let signed = s.len() > 0 && (s[0] == '-' || s[0] == '+');
    let body = if signed { s.drop_first() } else { s };
    if body.len() == 0 || !all_digits(body) {
        None
    } else {
        let v = digits_value(body) as int;
        let value = if neg { -v } else { v };
        if i64::MIN <= value && value <= i64::MAX {
            Some(value as i64)
        } else {
            None
        }
    }
}

proof fn lemma_digits_value_step(s: Seq<char>, i: int)
    requires
        0 <= i < s.len(),
    ensures
        digits_value(s.subrange(0, i + 1)) == digits_value(s.subrange(0, i)) * 10
            + digit_value(s[i]).unwrap(),
{
    assert(s.subrange(0, i + 1).drop_last() =~= s.subrange(0, i));
}

/// Parses `v[from..to]` as an `i64`, as `str::parse::<i64>` does.
pub fn parse_i64_chars(v: &Vec<char>, from: usize, to: usize) -> (r: Option<i64>)
    requires
        from <= to <= v@.len(),
    ensures
        r == parse_i64(v@.subrange(from as int, to as int)),
{
    let ghost s = v@.subrange(from as int, to as int);
    if from == to {
        return None;
    }
    let neg = v[from] == '-';
    let signed = v[from] == '-' || v[from] == '+';
    let start = if signed { from + 1 } else { from };
    let ghost body = v@.subrange(start as int, to as int);
    assert(body =~= if signed { s.drop_first() } else { s });
    if start == to {
        return None;
    }
    // Accumulate the magnitude; stop as soon as it passes 2^63.
    let limit: u64 = 0x8000_0000_0000_0000;
    let mut acc: u64 = 0;
    let mut i = start;
    let mut too_big = false;
    while i < to
        invariant
            start <= i <= to <= v@.len(),
            limit == 0x8000_0000_0000_0000u64,
            s == v@.subrange(from as int, to as int),
            signed == (s.len() > 0 && (s[0] == '-' || s[0] == '+')),
            body == (if signed { s.drop_first() } else { s }),
            body == v@.subrange(start as int, to as int),
            forall|k: int| 0 <= k < i - start ==> #[trigger] digit_value(body[k]) is Some,
            !too_big ==> acc as nat == digits_value(body.subrange(0, i - start)),
            !too_big ==> acc <= limit,
            too_big ==> digits_value(body.subrange(0, i - start)) > limit,
        decreases to - i,
    {
        let c = v[i];
        if c < '0' || c > '9' {
            assert(digit_value(body[i - start]) is None);
            assert(!all_digits(body));
            return None;
        }
        let d = (c as u32 - '0' as u32) as u64;
        assert(d < 10);
        proof {
            lemma_digits_value_step(body, i - start);
        }
        if !too_big {
            if acc > (limit - d) / 10 {
                too_big = true;
                assert(acc * 10 + d > limit) by (nonlinear_arith)
                    requires acc > (limit - d) / 10, d < 10;
            } else {
                assert(acc * 10 + d <= limit) by (nonlinear_arith)
                    requires acc <= (limit - d) / 10, d < 10;
                acc = acc * 10 + d;
            }
        } else {
            assert(digits_value(body.subrange(0, i - start)) * 10 + d >= digits_value(body.subrange(0, i - start))) by (nonlinear_arith);
        }
        i = i + 1;
    }
    assert(body.subrange(0, body.len() as int) =~= body);
    assert(all_digits(body));
    if too_big {
        return None;
    }
    if neg {
        if acc == limit {
            Some(i64::MIN)
        } else {
            Some(-(acc as i64))
        }
    } else {
        if acc == limit {
            None
        } else {
            Some(acc as i64)
        }
    }
}


// ── Case mapping ─────────────────────────────────────────────────────

/// What `str::to_uppercase` returns for the characters `s` (full Unicode case mapping).
pub uninterp spec fn uppercase(s: Seq<char>) -> Seq<char>;

/// What `str::to_lowercase` returns for the characters `s` (full Unicode case mapping).
pub uninterp spec fn lowercase(s: Seq<char>) -> Seq<char>;

/// `str::to_uppercase`: the result is the Unicode upper-case mapping of `s`, named
/// `uppercase`; it depends on the characters of `s` alone. On ASCII text the mapping
/// upper-cases the letters `a`..`z` and keeps every other character.
#[verifier::external_body]
pub(crate) fn to_upper(s: &str) -> (r: String)
    ensures
        r@ == uppercase(s@),
        is_ascii_chars(s@) ==> r@ == ascii_upper(s@),
{
    s.to_uppercase()
}

/// `str::to_lowercase`: the result is the Unicode lower-case mapping of `s`, named
/// `lowercase`; it depends on the characters of `s` alone. On ASCII text the mapping
/// lower-cases the letters `A`..`Z` and keeps every other character.
#[verifier::external_body]
pub(crate) fn to_lower(s: &str) -> (r: String)
    ensures
        r@ == lowercase(s@),
        is_ascii_chars(s@) ==> r@ == ascii_lower(s@),
{
    s.to_lowercase()
}


// ── Splitting ───────────────────────────────────────────────────────

/// A copy of `v[from..to]`.
pub fn sub_vec(v: &Vec<char>, from: usize, to: usize) -> (r: Vec<char>)
    requires
        from <= to <= v@.len(),
    ensures
        r@ == v@.subrange(from as int, to as int),
{
    let mut r: Vec<char> = Vec::new();
    let mut i = from;
    while i < to
        invariant
            from <= i <= to <= v@.len(),
            r@ == v@.subrange(from as int, i as int),
        decreases to - i,
    {
        r.push(v[i]);
        i = i + 1;
        assert(r@ =~= v@.subrange(from as int, i as int));
    }
    r
}

/// The pieces of `s` that follow each occurrence of `pat` at or after `pos`, each
/// running up to the next occurrence or the end (`s.split(pat).skip(1)` for `pos == 0`).
pub open spec fn split_after(s: Seq<char>, pat: Seq<char>, pos: int) -> Seq<Seq<char>>
    decreases s.len() - pos,
{
    if pat.len() == 0 || pos < 0 {
        Seq::empty()
    } else {
        match find_from(s, pat, pos) {
            None => Seq::empty(),
            Some(i) => {
                proof {
                    lemma_find_from(s, pat, pos);
                }
                let start = i + pat.len();
                let end = match find_from(s, pat, start) {
                    Some(j) => j,
                    None => s.len() as int,
                };
                seq![s.subrange(start, end)] + split_after(s, pat, start)
            },
        }
    }
}

/// `s` up to the first occurrence of `pat`, or all of `s`.
pub open spec fn before_first(s: Seq<char>, pat: Seq<char>) -> Seq<char> {
    match find_first(s, pat) {
        Some(e) => s.subrange(0, e),
        None => s,
    }
}

/// The text between the first `open` and the first `close`, if both occur.
pub open spec fn between_tags(s: Seq<char>, open: Seq<char>, close: Seq<char>) -> Option<Seq<char>> {
    match (find_first(s, open), find_first(s, close)) {
        (Some(i), Some(j)) => Some(s.subrange(i + open.len(), j)),
        _ => None,
    }
}

/// The first `close` does not come before the end of the first `open` (where both
/// occur); slicing between them is then possible.
pub open spec fn tags_in_order(s: Seq<char>, open: Seq<char>, close: Seq<char>) -> bool {
    match (find_first(s, open), find_first(s, close)) {
        (Some(i), Some(j)) => i + open.len() <= j,
        _ => true,
    }
}

/// The text between the first `open` and the first `close` of `s`.
pub fn between(s: &Vec<char>, open: &Vec<char>, close: &Vec<char>) -> (r: Option<String>)
    requires
        tags_in_order(s@, open@, close@),
    ensures
        match r {
            Some(t) => between_tags(s@, open@, close@) == Some(t@),
            None => between_tags(s@, open@, close@) is None,
        },
{
    proof {
        lemma_find_from(s@, open@, 0);
        lemma_find_from(s@, close@, 0);
    }
    let i = match find_chars(s, open, 0) {
        Some(i) => i,
        None => return None,
    };
    let j = match find_chars(s, close, 0) {
        Some(j) => j,
        None => return None,
    };
    Some(string_of_range(s, i + open.len(), j))
}

/// The characters `"<" + tag + ">"`.
pub fn open_tag(tag: &str) -> (r: Vec<char>)
    ensures
        r@ == "<"@ + tag@ + ">"@,
{
    let mut s = String::new();
    push_str(&mut s, "<");
    push_str(&mut s, tag);
    push_str(&mut s, ">");
    chars_of(s.as_str())
}

/// The characters `"</" + tag + ">"`.
pub fn close_tag(tag: &str) -> (r: Vec<char>)
    ensures
        r@ == "</"@ + tag@ + ">"@,
{
    let mut s = String::new();
    push_str(&mut s, "</");
    push_str(&mut s, tag);
    push_str(&mut s, ">");
    chars_of(s.as_str())
}


// ── Ordering ────────────────────────────────────────────────────────

/// `a` sorts strictly before `b`: the order of `String` and `str`, which compares
/// the characters by code point, a proper prefix coming first.
pub open spec fn seq_lt(a: Seq<char>, b: Seq<char>) -> bool
    decreases a.len(),
{
    if a.len() == 0 {
        b.len() > 0
    } else if b.len() == 0 {
        false
    } else if a[0] != b[0] {
        (a[0] as int) < (b[0] as int)
    } else {
        seq_lt(a.drop_first(), b.drop_first())
    }
}

/// Nothing sorts before itself.
pub proof fn lemma_seq_lt_irreflexive(a: Seq<char>)
    ensures
        !seq_lt(a, a),
    decreases a.len(),
{
    if a.len() > 0 {
        lemma_seq_lt_irreflexive(a.drop_first());
    }
}

/// Of two different sequences one sorts before the other, and never both.
pub proof fn lemma_seq_lt_total(a: Seq<char>, b: Seq<char>)
    ensures
        a != b ==> (seq_lt(a, b) || seq_lt(b, a)),
        !(seq_lt(a, b) && seq_lt(b, a)),
    decreases a.len(),
{
    if a.len() > 0 && b.len() > 0 {
        lemma_seq_lt_total(a.drop_first(), b.drop_first());
        if a[0] == b[0] && a.drop_first() == b.drop_first() {
            assert(a =~= seq![a[0]] + a.drop_first());
            assert(b =~= seq![b[0]] + b.drop_first());
        }
    } else if a.len() == 0 && b.len() == 0 {
        assert(a =~= b);
    }
}

/// Sorting before is transitive.
pub proof fn lemma_seq_lt_trans(a: Seq<char>, b: Seq<char>, c: Seq<char>)
    requires
        seq_lt(a, b),
        seq_lt(b, c),
    ensures
        seq_lt(a, c),
    decreases a.len(),
{
    if a.len() > 0 && b.len() > 0 && c.len() > 0 {
        if a[0] == b[0] && b[0] == c[0] {
            lemma_seq_lt_trans(a.drop_first(), b.drop_first(), c.drop_first());
        }
    }
}

/// Whether `a` sorts strictly before `b`.
pub fn chars_lt(a: &Vec<char>, b: &Vec<char>) -> (r: bool)
    ensures
        r == seq_lt(a@, b@),
{
    let mut i: usize = 0;
    assert(a@.subrange(0, a@.len() as int) =~= a@);
    assert(b@.subrange(0, b@.len() as int) =~= b@);
    while i < a.len() && i < b.len() && a[i] == b[i]
        invariant
            i <= a.len(),
            i <= b.len(),
            a@.subrange(0, i as int) == b@.subrange(0, i as int),
            seq_lt(a@, b@) == seq_lt(a@.subrange(i as int, a@.len() as int), b@.subrange(i as int, b@.len() as int)),
        decreases a.len() - i,
    {
        proof {
            let sa = a@.subrange(i as int, a@.len() as int);
            let sb = b@.subrange(i as int, b@.len() as int);
            assert(sa.drop_first() =~= a@.subrange(i + 1, a@.len() as int));
            assert(sb.drop_first() =~= b@.subrange(i + 1, b@.len() as int));
            assert(a@.subrange(0, i + 1) =~= a@.subrange(0, i as int).push(a@[i as int]));
            assert(b@.subrange(0, i + 1) =~= b@.subrange(0, i as int).push(b@[i as int]));
        }
        i = i + 1;
    }
    if i == a.len() {
        i < b.len()
    } else if i == b.len() {
        false
    } else {
        proof {
            let sa = a@.subrange(i as int, a@.len() as int);
            let sb = b@.subrange(i as int, b@.len() as int);
            assert(sa[0] == a@[i as int] && sb[0] == b@[i as int]);
        }
        a[i] < b[i]
    }
}

/// Whether the string `a` sorts strictly before `b`.
pub fn str_lt(a: &str, b: &str) -> (r: bool)
    ensures
        r == seq_lt(a@, b@),
{
    let va = chars_of(a);
    let vb = chars_of(b);
    chars_lt(&va, &vb)
}

/// The character sequences of the strings `v`.
pub open spec fn string_views(v: Seq<String>) -> Seq<Seq<char>> {
    v.map_values(|s: String| s@)
}

/// `s` is in ascending order.
pub open spec fn sorted_seqs(s: Seq<Seq<char>>) -> bool {
    forall|i: int, j: int| 0 <= i < j < s.len() ==> !seq_lt(#[trigger] s[j], #[trigger] s[i])
}

/// Sorts strings in ascending order (`Vec::sort` on `String`).
pub fn sort_strings(v: Vec<String>) -> (r: Vec<String>)
    ensures
        sorted_seqs(string_views(r@)),
        string_views(r@).to_multiset() == string_views(v@).to_multiset(),
{
    broadcast use vstd::seq_lib::group_to_multiset_ensures;

    let mut src = v;
    let ghost orig = string_views(src@);
    let mut out: Vec<String> = Vec::new();
    let ghost taken: int = 0;
    while src.len() > 0
        invariant
            0 <= taken <= orig.len(),
            string_views(src@) == orig.subrange(taken, orig.len() as int),
            sorted_seqs(string_views(out@)),
            string_views(out@).to_multiset() == orig.subrange(0, taken).to_multiset(),
        decreases src.len(),
    {
        let ghost sv = src@;
        let x = src.remove(0);
        proof {
            assert(string_views(sv).len() == sv.len());
            assert(src@ == sv.remove(0));
            assert(string_views(sv)[0] == sv[0]@);
            assert(orig.subrange(taken, orig.len() as int)[0] == orig[taken]);
            assert(x@ == orig[taken]);
            assert forall|k: int| 0 <= k < src@.len() implies string_views(src@)[k] == orig[taken + 1 + k] by {
                assert(src@[k] == sv.remove(0)[k]);
                assert(src@[k] == sv[k + 1]);
                assert(string_views(sv)[k + 1] == orig.subrange(taken, orig.len() as int)[k + 1]);
            }
            assert(string_views(src@) =~= orig.subrange(taken + 1, orig.len() as int));
        }
        let xs = x.as_str();
        assert(xs@ == x@);
        // Insert after every element that does not sort after x.
        let mut p: usize = 0;
        let mut found = false;
        while !found && p < out.len()
            invariant
                p <= out.len(),
                sorted_seqs(string_views(out@)),
                xs@ == x@,
                forall|k: int| 0 <= k < p ==> !seq_lt(x@, #[trigger] string_views(out@)[k]),
                found ==> p < out.len() && seq_lt(x@, string_views(out@)[p as int]),
            decreases out.len() - p + (if found { 0int } else { 1int }),
        {
            let lt = str_lt(xs, out[p].as_str());
            assert(string_views(out@)[p as int] == out@[p as int]@);
            if lt {
                found = true;
            } else {
                p = p + 1;
            }
        }
        let ghost before = string_views(out@);
        proof {
            // Everything from p on sorts after x.
            assert forall|k: int| p <= k < before.len() implies seq_lt(x@, #[trigger] before[k]) by {
                assert(found);
                assert(seq_lt(x@, before[p as int]));
                if k > p {
                    assert(!seq_lt(before[k], before[p as int]));
                    lemma_seq_lt_total(before[k], before[p as int]);
                    if before[k] != before[p as int] {
                        lemma_seq_lt_trans(x@, before[p as int], before[k]);
                    }
                }
            }
        }
        out.insert(p, x);
        proof {
            let after = string_views(out@);
            assert(after =~= before.insert(p as int, x@));
            assert forall|i: int, j: int| 0 <= i < j < after.len() implies !seq_lt(
                #[trigger] after[j],
                #[trigger] after[i],
            ) by {
                if j < p {
                    assert(after[i] == before[i] && after[j] == before[j]);
                } else if j == p {
                    assert(after[i] == before[i]);
                    assert(!seq_lt(x@, before[i]));
                    lemma_seq_lt_total(x@, before[i]);
                    if x@ == before[i] {
                        lemma_seq_lt_irreflexive(x@);
                    }
                } else if i > p {
                    assert(after[i] == before[i - 1] && after[j] == before[j - 1]);
                } else if i == p {
                    assert(after[j] == before[j - 1]);
                    assert(seq_lt(x@, before[j - 1]));
                    lemma_seq_lt_total(x@, before[j - 1]);
                } else {
                    assert(after[i] == before[i] && after[j] == before[j - 1]);
                }
            }
            assert(orig.subrange(0, taken + 1) =~= orig.subrange(0, taken).push(x@));
            vstd::seq_lib::to_multiset_insert(before, p as int, x@);
            vstd::seq_lib::to_multiset_build(orig.subrange(0, taken), x@);
            taken = taken + 1;
        }
    }
    proof {
        assert(orig.subrange(0, taken) =~= orig);
    }
    out
}


// ── Splitting into vectors ──────────────────────────────────────────

/// The character sequences of the vectors `v`.
pub open spec fn char_rows(v: Seq<Vec<char>>) -> Seq<Seq<char>> {
    v.map_values(|r: Vec<char>| r@)
}

/// The pieces of `s` after each occurrence of `pat` (`s.split(pat).skip(1)`).
pub fn split_pieces(s: &Vec<char>, pat: &Vec<char>) -> (r: Vec<Vec<char>>)
    requires
        pat@.len() > 0,
    ensures
        char_rows(r@) == split_after(s@, pat@, 0),
{
    let mut out: Vec<Vec<char>> = Vec::new();
    let mut pos: usize = 0;
    proof {
        assert(char_rows(out@) =~= Seq::<Seq<char>>::empty());
        assert(Seq::<Seq<char>>::empty() + split_after(s@, pat@, 0) =~= split_after(s@, pat@, 0));
    }
    while pos <= s.len()
        invariant
            pat@.len() > 0,
            pos <= s@.len() + 1,
            char_rows(out@) + split_after(s@, pat@, pos as int) == split_after(s@, pat@, 0),
        decreases s.len() + 1 - pos,
    {
        proof {
            lemma_find_from(s@, pat@, pos as int);
        }
        match find_chars(s, pat, pos) {
            None => {
                assert(char_rows(out@) + Seq::<Seq<char>>::empty() =~= char_rows(out@));
                return out;
            },
            Some(i) => {
                let start = i + pat.len();
                proof {
                    lemma_find_from(s@, pat@, start as int);
                }
                let end = match find_chars(s, pat, start) {
                    Some(j) => j,
                    None => s.len(),
                };
                let piece = sub_vec(s, start, end);
                let ghost before = char_rows(out@);
                let ghost pv = piece@;
                out.push(piece);
                proof {
                    assert(char_rows(out@) =~= before.push(pv));
                    assert(split_after(s@, pat@, pos as int) == seq![pv] + split_after(
                        s@,
                        pat@,
                        start as int,
                    ));
                    assert(before.push(pv) + split_after(s@, pat@, start as int) =~= before + (seq![
                        pv,
                    ] + split_after(s@, pat@, start as int)));
                }
                pos = start;
            },
        }
    }
    proof {
        assert(split_after(s@, pat@, pos as int) =~= Seq::<Seq<char>>::empty());
        assert(char_rows(out@) + Seq::<Seq<char>>::empty() =~= char_rows(out@));
    }
    out
}

/// `s` up to the first occurrence of `pat`, or all of `s`.
pub fn prefix_before(s: &Vec<char>, pat: &Vec<char>) -> (r: Vec<char>)
    ensures
        r@ == before_first(s@, pat@),
{
    proof {
        lemma_find_from(s@, pat@, 0);
    }
    match find_chars(s, pat, 0) {
        Some(e) => sub_vec(s, 0, e),
        None => {
            let r = sub_vec(s, 0, s.len());
            assert(s@.subrange(0, s@.len() as int) =~= s@);
            r
        },
    }
}


// ── Signed padding ──────────────────────────────────────────────────

/// `n` in decimal, zero-padded to `width` characters counting the sign
/// (`{:0width$}`): `-5` at width 4 is `-005`.
pub open spec fn signed_padded(n: int, width: nat) -> Seq<char> {
    if n < 0 {
        seq!['-'] + zero_padded(decimal((-n) as nat), (width - 1) as nat)
    } else {
        zero_padded(decimal(n as nat), width)
    }
}

/// Appends `n` formatted as `{:0width$}`.
pub fn push_signed_padded(s: &mut String, n: i32, width: usize)
    requires
        width >= 1,
    ensures
        final(s)@ == old(s)@ + signed_padded(n as int, width as nat),
{
    if n < 0 {
        push_char(s, '-');
        let m: i64 = -(n as i64);
        push_decimal_padded(s, m as u64, width - 1);
        assert(final(s)@ =~= old(s)@ + signed_padded(n as int, width as nat));
    } else {
        push_decimal_padded(s, n as u64, width);
    }
}

// ── Tags ─────────────────────────────────────────────────────────────

/// The text between `<tag>` and `</tag>` in `s`, if both occur.
pub open spec fn tag_text(s: Seq<char>, tag: Seq<char>) -> Option<Seq<char>> {
    between_tags(s, "<"@ + tag + ">"@, "</"@ + tag + ">"@)
}

/// The first `</tag>` does not start before the end of the first `<tag>`.
pub open spec fn tag_ordered(s: Seq<char>, tag: Seq<char>) -> bool {
    tags_in_order(s, "<"@ + tag + ">"@, "</"@ + tag + ">"@)
}

/// The text of the element `tag`, or nothing where it is missing
/// (`unwrap_or_default`).
pub open spec fn tag_field(s: Seq<char>, tag: Seq<char>) -> Seq<char> {
    match tag_text(s, tag) {
        Some(t) => t,
        None => Seq::empty(),
    }
}

/// The text between the first `<tag>` and the first `</tag>` of `s`.
pub fn tag_value(s: &Vec<char>, tag: &str) -> (r: Option<String>)
    requires
        tag_ordered(s@, tag@),
    ensures
        match r {
            Some(t) => tag_text(s@, tag@) == Some(t@),
            None => tag_text(s@, tag@) is None,
        },
{
    let open = open_tag(tag);
    let close = close_tag(tag);
    between(s, &open, &close)
}

/// Whether `tag_ordered` holds.
pub fn tag_ordered_check(s: &Vec<char>, tag: &str) -> (b: bool)
    ensures
        b == tag_ordered(s@, tag@),
{
    let open = open_tag(tag);
    let close = close_tag(tag);
    match (find_chars(s, &open, 0), find_chars(s, &close, 0)) {
        (Some(i), Some(j)) => i <= j && j - i >= open.len(),
        _ => true,
    }
}


/// Whether the characters `v` spell `s`.
pub fn chars_eq(v: &Vec<char>, s: &str) -> (b: bool)
    ensures
        b == (v@ == s@),
{
    let w = chars_of(s);
    if v.len() != w.len() {
        return false;
    }
    let mut i: usize = 0;
    while i < v.len()
        invariant
            v.len() == w.len(),
            w@ == s@,
            i <= v.len(),
            forall|k: int| 0 <= k < i ==> v@[k] == w@[k],
        decreases v.len() - i,
    {
        if v[i] != w[i] {
            return false;
        }
        i = i + 1;
    }
    assert(v@ =~= w@);
    true
}


/// Two ascending orders of the same strings are the same list: what sorting
/// returns is determined by the strings alone.
pub proof fn law_sorted_unique(a: Seq<Seq<char>>, b: Seq<Seq<char>>)
    requires
        sorted_seqs(a),
        sorted_seqs(b),
        a.to_multiset() == b.to_multiset(),
    ensures
        a == b,
    decreases a.len(),
{
    broadcast use vstd::seq_lib::group_to_multiset_ensures;

    vstd::seq_lib::to_multiset_len(a);
    vstd::seq_lib::to_multiset_len(b);
    assert(a.len() == b.len());
    if a.len() > 0 {
        // Each first element is the least of the common multiset.
        assert(a.to_multiset().count(a[0]) > 0);
        assert(b.contains(a[0]));
        let j = choose|j: int| 0 <= j < b.len() && b[j] == a[0];
        if j > 0 {
            assert(!seq_lt(b[j], b[0]));
        } else {
            lemma_seq_lt_irreflexive(a[0]);
        }
        assert(b.to_multiset().count(b[0]) > 0);
        assert(a.contains(b[0]));
        let i = choose|i: int| 0 <= i < a.len() && a[i] == b[0];
        if i > 0 {
            assert(!seq_lt(a[i], a[0]));
        } else {
            lemma_seq_lt_irreflexive(b[0]);
        }
        lemma_seq_lt_total(a[0], b[0]);
        assert(a[0] == b[0]);
        let (ra, rb) = (a.drop_first(), b.drop_first());
        assert(a.remove(0) =~= ra);
        assert(b.remove(0) =~= rb);
        assert(ra.to_multiset() == a.to_multiset().remove(a[0]));
        assert(rb.to_multiset() == b.to_multiset().remove(b[0]));
        assert forall|x: int, y: int| 0 <= x < y < ra.len() implies !seq_lt(#[trigger] ra[y], #[trigger] ra[x]) by {
            assert(ra[x] == a[x + 1] && ra[y] == a[y + 1]);
        }
        assert forall|x: int, y: int| 0 <= x < y < rb.len() implies !seq_lt(#[trigger] rb[y], #[trigger] rb[x]) by {
            assert(rb[x] == b[x + 1] && rb[y] == b[y + 1]);
        }
        law_sorted_unique(ra, rb);
        assert(a =~= seq![a[0]] + ra);
        assert(b =~= seq![b[0]] + rb);
    }
}


/// An ASCII letter's upper-case form; every other character stays.
pub open spec fn ascii_upper_char(c: char) -> char {
    if 'a' <= c && c <= 'z' { (((c as u32) - 32) as u8) as char } else { c }
}

/// An ASCII letter's lower-case form; every other character stays.
pub open spec fn ascii_lower_char(c: char) -> char {
    if 'A' <= c && c <= 'Z' { (((c as u32) + 32) as u8) as char } else { c }
}

/// ASCII letters upper-cased.
pub open spec fn ascii_upper(s: Seq<char>) -> Seq<char> {
    s.map_values(|c: char| ascii_upper_char(c))
}

/// ASCII letters lower-cased.
pub open spec fn ascii_lower(s: Seq<char>) -> Seq<char> {
    s.map_values(|c: char| ascii_lower_char(c))
}

/// What `str::to_uppercase` returns: for ASCII text its ASCII letters upper-cased.
pub open spec fn upper(s: Seq<char>) -> Seq<char> {
    if is_ascii_chars(s) { ascii_upper(s) } else { uppercase(s) }
}

/// What `str::to_lowercase` returns: for ASCII text its ASCII letters lower-cased.
pub open spec fn lower(s: Seq<char>) -> Seq<char> {
    if is_ascii_chars(s) { ascii_lower(s) } else { lowercase(s) }
}

/// Case mapping keeps ASCII text ASCII; upper-casing twice, or after lower-casing,
/// is upper-casing once.
pub proof fn lemma_ascii_case(s: Seq<char>)
    requires
        is_ascii_chars(s),
    ensures
        is_ascii_chars(ascii_upper(s)),
        is_ascii_chars(ascii_lower(s)),
        ascii_upper(ascii_upper(s)) == ascii_upper(s),
        ascii_upper(ascii_lower(s)) == ascii_upper(s),
        upper(upper(s)) == upper(s),
        upper(lower(s)) == upper(s),
{
    assert(ascii_upper(ascii_upper(s)) =~= ascii_upper(s));
    assert(ascii_upper(ascii_lower(s)) =~= ascii_upper(s));
    assert(is_ascii_chars(ascii_upper(s)));
    assert(is_ascii_chars(ascii_lower(s)));
}

} // verus!
