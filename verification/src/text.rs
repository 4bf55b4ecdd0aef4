//! Character-level text handling shared by the parsers of this crate.

use vstd::prelude::*;

verus! {

broadcast use vstd::string::group_string_axioms;

/// The Unicode `White_Space` property, which `char::is_whitespace` tests.
pub open spec fn is_ws(c: char) -> bool {
    let u = c as u32;
    ||| 9 <= u <= 13
    ||| u == 32
    ||| u == 0x85
    ||| u == 0xa0
    ||| u == 0x1680
    ||| 0x2000 <= u <= 0x200a
    ||| u == 0x2028
    ||| u == 0x2029
    ||| u == 0x202f
    ||| u == 0x205f
    ||| u == 0x3000
}

/// Whether `c` is white space in the sense of `char::is_whitespace`.
pub fn is_whitespace_char(c: char) -> (b: bool)
    ensures
        b == is_ws(c),
{
    let u = c as u32;
    (9 <= u && u <= 13) || u == 32 || u == 0x85 || u == 0xa0 || u == 0x1680 || (0x2000 <= u
        && u <= 0x200a) || u == 0x2028 || u == 0x2029 || u == 0x202f || u == 0x205f || u == 0x3000
}

/// The characters of a string slice, in order.
pub fn to_chars(s: &str) -> (v: Vec<char>)
    ensures
        v@ == s@,
{
    let mut v: Vec<char> = Vec::new();
    for c in it: s.chars()
        invariant
            v@ == it.seq().take(it.index() as int),
    {
        v.push(c);
    }
    v
}


/// Appends one character to a `String` (`String::push`).
#[verifier::external_body]
fn push_char(s: &mut String, c: char)
    ensures
        final(s)@ == old(s)@.push(c),
{
    s.push(c)
}

/// The `String` made of the given characters.
pub fn string_from_chars(v: &[char]) -> (s: String)
    ensures
        s@ == v@,
{
    let mut s = String::new();
    for i in 0..v.len()
        invariant
            s@ == v@.take(i as int),
    {
        push_char(&mut s, v[i]);
        assert(v@.take(i + 1) == v@.take(i as int).push(v@[i as int]));
    }
    assert(v@.take(v@.len() as int) == v@);
    s
}

/// `s` with leading white space removed (`str::trim_start`).
pub open spec fn trim_start(s: Seq<char>) -> Seq<char>
    decreases s.len(),
{
    if s.len() > 0 && is_ws(s[0]) {
        trim_start(s.drop_first())
    } else {
        s
    }
}

/// `s` with trailing white space removed (`str::trim_end`).
pub open spec fn trim_end(s: Seq<char>) -> Seq<char>
    decreases s.len(),
{
    if s.len() > 0 && is_ws(s.last()) {
        trim_end(s.drop_last())
    } else {
        s
    }
}

/// `s` with white space removed at both ends (`str::trim`).
pub open spec fn trim(s: Seq<char>) -> Seq<char> {
    trim_end(trim_start(s))
}

proof fn lemma_trim_start_skip(s: Seq<char>, k: int)
    requires
        0 <= k <= s.len(),
        forall|i: int| 0 <= i < k ==> is_ws(#[trigger] s[i]),
    ensures
        trim_start(s) == trim_start(s.skip(k)),
    decreases k,
{
    if k > 0 {
        assert(s.drop_first().skip(k - 1) == s.skip(k));
        lemma_trim_start_skip(s.drop_first(), k - 1);
    } else {
        assert(s.skip(0) == s);
    }
}

proof fn lemma_trim_end_take(s: Seq<char>, k: int)
    requires
        0 <= k <= s.len(),
        forall|i: int| k <= i < s.len() ==> is_ws(#[trigger] s[i]),
    ensures
        trim_end(s) == trim_end(s.take(k)),
    decreases s.len() - k,
{
    if k < s.len() {
        assert(s.drop_last().take(k) == s.take(k));
        lemma_trim_end_take(s.drop_last(), k);
    } else {
        assert(s.take(k) == s);
    }
}

/// The characters of `v` without white space at either end.
pub fn trim_chars(v: &Vec<char>) -> (r: Vec<char>)
    ensures
        r@ == trim(v@),
{
    let n = v.len();
    let mut start: usize = 0;
    while start < n && is_whitespace_char(v[start])
        invariant
            start <= n == v@.len(),
            forall|i: int| 0 <= i < start ==> is_ws(#[trigger] v@[i]),
        decreases n - start,
    {
        start += 1;
    }
    proof {
        lemma_trim_start_skip(v@, start as int);
    }
    let ghost t = v@.skip(start as int);
    assert(trim_start(v@) == t);
    let mut end: usize = n;
    while end > start && is_whitespace_char(v[end - 1])
        invariant
            start <= end <= n == v@.len(),
            t == v@.skip(start as int),
            forall|i: int| end <= i < n ==> is_ws(#[trigger] v@[i]),
        decreases end,
    {
        end -= 1;
    }
    proof {
        lemma_trim_end_take(t, end - start);
        assert(t.take(end - start) == v@.subrange(start as int, end as int));
    }
    let mut r: Vec<char> = Vec::new();
    let mut i = start;
    while i < end
        invariant
            start <= i <= end <= n == v@.len(),
            r@ == v@.subrange(start as int, i as int),
        decreases end - i,
    {
        r.push(v[i]);
        assert(v@.subrange(start as int, i + 1) == v@.subrange(start as int, i as int).push(v@[i as int]));
        i += 1;
    }
    r
}

/// The string slice without white space at either end, as a new `String`.
pub fn trim_str(s: &str) -> (r: String)
    ensures
        r@ == trim(s@),
{
    let v = to_chars(s);
    let t = trim_chars(&v);
    string_from_chars(t.as_slice())
}


/// The views of a sequence of character vectors.
pub open spec fn views(v: Seq<Vec<char>>) -> Seq<Seq<char>> {
    Seq::new(v.len(), |i: int| v[i]@)
}

/// The pieces of `s` between the characters that satisfy `p`, empty pieces
/// included (`str::split` with a character predicate).
pub open spec fn split_by(s: Seq<char>, p: spec_fn(char) -> bool) -> Seq<Seq<char>>
    decreases s.len(),
{
    if s.len() == 0 {
        seq![Seq::<char>::empty()]
    } else {
        let init = split_by(s.drop_last(), p);
        if p(s.last()) {
            init.push(Seq::<char>::empty())
        } else {
            init.update(init.len() - 1, init.last().push(s.last()))
        }
    }
}

/// The pieces of `s` between occurrences of `sep` (`str::split(sep)`).
pub open spec fn split_char(s: Seq<char>, sep: char) -> Seq<Seq<char>> {
    split_by(s, |c: char| c == sep)
}

/// The pieces of `s` between white-space characters, empty ones included.
pub open spec fn split_ws_pieces(s: Seq<char>) -> Seq<Seq<char>> {
    split_by(s, |c: char| is_ws(c))
}

/// The test that keeps a piece in `words`.
pub open spec fn nonempty_piece() -> spec_fn(Seq<char>) -> bool {
    |w: Seq<char>| w.len() > 0
}

/// The white-space separated words of `s` (`str::split_whitespace`).
pub open spec fn words(s: Seq<char>) -> Seq<Seq<char>> {
    split_ws_pieces(s).filter(nonempty_piece())
}

pub proof fn lemma_split_by_nonempty(s: Seq<char>, p: spec_fn(char) -> bool)
    ensures
        split_by(s, p).len() >= 1,
    decreases s.len(),
{
    if s.len() > 0 {
        lemma_split_by_nonempty(s.drop_last(), p);
    }
}

pub proof fn lemma_split_char_nonempty(s: Seq<char>, sep: char)
    ensures
        split_char(s, sep).len() >= 1,
    decreases s.len(),
{
    if s.len() > 0 {
        lemma_split_char_nonempty(s.drop_last(), sep);
    }
}

/// The pieces of `v` between occurrences of `sep`.
pub fn split_on(v: &Vec<char>, sep: char) -> (r: Vec<Vec<char>>)
    ensures
        views(r@) == split_char(v@, sep),
{
    let mut pieces: Vec<Vec<char>> = Vec::new();
    let mut cur: Vec<char> = Vec::new();
    assert(v@.take(0) == Seq::<char>::empty());
    assert(views(pieces@).push(cur@) == split_char(v@.take(0), sep));
    for i in 0..v.len()
        invariant
            views(pieces@).push(cur@) == split_char(v@.take(i as int), sep),
    {
        let ghost before = split_char(v@.take(i as int), sep);
        proof {
            lemma_split_by_nonempty(v@.take(i as int), |c: char| c == sep);
            assert(v@.take(i + 1).drop_last() == v@.take(i as int));
            assert(v@.take(i + 1).last() == v@[i as int]);
        }
        if v[i] == sep {
            let ghost old_pieces = pieces@;
            pieces.push(cur);
            cur = Vec::new();
            assert(views(pieces@) == views(old_pieces).push(before.last()));
            assert(views(pieces@).push(cur@) == split_char(v@.take(i + 1), sep));
        } else {
            cur.push(v[i]);
            assert(views(pieces@).push(cur@) == split_char(v@.take(i + 1), sep));
        }
    }
    let ghost old_pieces = pieces@;
    pieces.push(cur);
    assert(v@.take(v@.len() as int) == v@);
    assert(views(pieces@) == views(old_pieces).push(cur@));
    pieces
}

/// The white-space separated words of `v`.
pub fn split_words(v: &Vec<char>) -> (r: Vec<Vec<char>>)
    ensures
        views(r@) == words(v@),
{
    broadcast use Seq::lemma_filter_push;

    let mut out: Vec<Vec<char>> = Vec::new();
    let mut cur: Vec<char> = Vec::new();
    assert(v@.take(0) == Seq::<char>::empty());
    proof {
        reveal_with_fuel(Seq::filter, 1);
        assert(split_ws_pieces(v@.take(0)).drop_last() == Seq::<Seq<char>>::empty());
    }
    for i in 0..v.len()
        invariant
            views(out@) == split_ws_pieces(v@.take(i as int)).drop_last().filter(nonempty_piece()),
            cur@ == split_ws_pieces(v@.take(i as int)).last(),
    {
        let ghost before = split_ws_pieces(v@.take(i as int));
        proof {
            lemma_split_by_nonempty(v@.take(i as int), |c: char| is_ws(c));
            assert(v@.take(i + 1).drop_last() == v@.take(i as int));
            assert(v@.take(i + 1).last() == v@[i as int]);
            assert(before.drop_last().push(before.last()) == before);
        }
        if is_whitespace_char(v[i]) {
            let ghost after = split_ws_pieces(v@.take(i + 1));
            assert(after == before.push(Seq::<char>::empty()));
            assert(after.drop_last() == before);
            proof {
                before.drop_last().lemma_filter_push(before.last(), nonempty_piece());
            }
            assert(before.drop_last().push(before.last()).filter(nonempty_piece()) == (if before.last().len() > 0 {
                before.drop_last().filter(nonempty_piece()).push(before.last())
            } else {
                before.drop_last().filter(nonempty_piece())
            }));
            if cur.len() > 0 {
                let ghost old_out = out@;
                out.push(cur);
                assert(views(out@) == views(old_out).push(before.last()));
            }
            cur = Vec::new();
        } else {
            cur.push(v[i]);
            let ghost after = split_ws_pieces(v@.take(i + 1));
            assert(after.drop_last() == before.drop_last());
        }
    }
    assert(v@.take(v@.len() as int) == v@);
    proof {
        let all = split_ws_pieces(v@);
        lemma_split_by_nonempty(v@, |c: char| is_ws(c));
        assert(all.drop_last().push(all.last()) == all);
        assert(all.drop_last().push(all.last()).filter(nonempty_piece()) == (if all.last().len() > 0 {
            all.drop_last().filter(nonempty_piece()).push(all.last())
        } else {
            all.drop_last().filter(nonempty_piece())
        }));
    }
    if cur.len() > 0 {
        let ghost old_out = out@;
        out.push(cur);
        assert(views(out@) == views(old_out).push(split_ws_pieces(v@).last()));
    }
    out
}


/// The pieces joined with one `sep` between neighbours (`[..].join(sep)`).
pub open spec fn join_with(ws: Seq<Seq<char>>, sep: char) -> Seq<char>
    decreases ws.len(),
{
    if ws.len() == 0 {
        Seq::<char>::empty()
    } else if ws.len() == 1 {
        ws[0]
    } else {
        join_with(ws.drop_last(), sep).push(sep) + ws.last()
    }
}

/// The first `k` pieces of `ws` joined with `sep` between them.
pub fn join_prefix(ws: &Vec<Vec<char>>, k: usize, sep: char) -> (r: Vec<char>)
    requires
        k <= ws@.len(),
    ensures
        r@ == join_with(views(ws@).take(k as int), sep),
{
    let mut r: Vec<char> = Vec::new();
    let mut i: usize = 0;
    assert(views(ws@).take(0) == Seq::<Seq<char>>::empty());
    while i < k
        invariant
            i <= k <= ws@.len(),
            r@ == join_with(views(ws@).take(i as int), sep),
        decreases k - i,
    {
        let ghost prefix = views(ws@).take(i + 1);
        assert(prefix.drop_last() == views(ws@).take(i as int));
        assert(prefix.last() == ws@[i as int]@);
        if i > 0 {
            r.push(sep);
        }
        let piece = &ws[i];
        let ghost before = r@;
        for j in 0..piece.len()
            invariant
                r@ == before + piece@.take(j as int),
        {
            r.push(piece[j]);
            assert(piece@.take(j + 1) == piece@.take(j as int).push(piece@[j as int]));
        }
        assert(piece@.take(piece@.len() as int) == piece@);
        if i == 0 {
            assert(before == Seq::<char>::empty());
            assert(r@ == piece@);
        }
        i += 1;
    }
    r
}

/// The position of the last `c` in `s`, or -1 when `s` holds no `c`.
pub open spec fn last_index_of(s: Seq<char>, c: char) -> int
    decreases s.len(),
{
    if s.len() == 0 {
        -1
    } else if s.last() == c {
        s.len() - 1
    } else {
        last_index_of(s.drop_last(), c)
    }
}

pub proof fn lemma_last_index_of(s: Seq<char>, c: char)
    ensures
        -1 <= last_index_of(s, c) < s.len(),
        last_index_of(s, c) >= 0 ==> s[last_index_of(s, c)] == c,
        forall|i: int| last_index_of(s, c) < i < s.len() ==> s[i] != c,
    decreases s.len(),
{
    if s.len() > 0 && s.last() != c {
        lemma_last_index_of(s.drop_last(), c);
        assert forall|i: int| last_index_of(s, c) < i < s.len() implies s[i] != c by {
            if i < s.len() - 1 {
                assert(s[i] == s.drop_last()[i]);
            }
        }
    }
}

/// Where the last `c` stands among the first `end` characters of `v`.
pub fn find_last(v: &Vec<char>, end: usize, c: char) -> (r: Option<usize>)
    requires
        end <= v@.len(),
    ensures
        match r {
            Some(i) => last_index_of(v@.take(end as int), c) == i,
            None => last_index_of(v@.take(end as int), c) == -1,
        },
{
    let mut j = end;
    while j > 0
        invariant
            j <= end <= v@.len(),
            last_index_of(v@.take(end as int), c) == last_index_of(v@.take(j as int), c),
        decreases j,
    {
        assert(v@.take(j as int).drop_last() == v@.take(j - 1));
        if v[j - 1] == c {
            return Some(j - 1);
        }
        j -= 1;
    }
    None
}

/// Whether `s` begins with `prefix` (`str::starts_with`).
pub open spec fn has_prefix(s: Seq<char>, prefix: Seq<char>) -> bool {
    prefix.len() <= s.len() && s.take(prefix.len() as int) == prefix
}

/// Whether the characters of `v` begin with those of `prefix`.
pub fn starts_with_chars(v: &Vec<char>, prefix: &Vec<char>) -> (b: bool)
    ensures
        b == has_prefix(v@, prefix@),
{
    if prefix.len() > v.len() {
        return false;
    }
    for i in 0..prefix.len()
        invariant
            prefix@.len() <= v@.len(),
            forall|k: int| 0 <= k < i ==> v@[k] == prefix@[k],
    {
        if v[i] != prefix[i] {
            return false;
        }
    }
    assert(v@.take(prefix@.len() as int) == prefix@);
    true
}

/// Whether two character vectors are equal.
pub fn chars_eq(a: &Vec<char>, b: &Vec<char>) -> (r: bool)
    ensures
        r == (a@ == b@),
{
    if a.len() != b.len() {
        return false;
    }
    for i in 0..a.len()
        invariant
            a@.len() == b@.len(),
            forall|k: int| 0 <= k < i ==> a@[k] == b@[k],
    {
        if a[i] != b[i] {
            return false;
        }
    }
    assert(a@ == b@);
    true
}

/// Whether a string holds exactly the text of `lit`.
pub fn eq_str(s: &str, lit: &str) -> (r: bool)
    ensures
        r == (s@ == lit@),
{
    let a = to_chars(s);
    let b = to_chars(lit);
    chars_eq(&a, &b)
}


/// An ASCII decimal digit.
pub open spec fn is_digit(c: char) -> bool {
    48 <= (c as u32) <= 57
}

/// The value of an ASCII decimal digit.
pub open spec fn digit_value(c: char) -> int {
    (c as u32) - 48
}

/// Every character of `s` is an ASCII decimal digit.
pub open spec fn all_digits(s: Seq<char>) -> bool {
    forall|i: int| 0 <= i < s.len() ==> is_digit(#[trigger] s[i])
}

/// The number that a run of decimal digits writes.
pub open spec fn digits_value(s: Seq<char>) -> int
    decreases s.len(),
{
    if s.len() == 0 {
        0
    } else {
        digits_value(s.drop_last()) * 10 + digit_value(s.last())
    }
}

/// `s` with one leading `+` removed, if it has one.
pub open spec fn drop_plus(s: Seq<char>) -> Seq<char> {
    if s.len() > 0 && s[0] == '+' {
        s.drop_first()
    } else {
        s
    }
}

/// What `str::parse::<u64>` gives: an optional `+`, then one or more
/// decimal digits that write a value of at most `u64::MAX`.
pub open spec fn parse_u64_spec(s: Seq<char>) -> Option<u64> {
    let d = drop_plus(s);
    if d.len() > 0 && all_digits(d) && digits_value(d) <= u64::MAX {
        Some(digits_value(d) as u64)
    } else {
        None
    }
}

/// What `str::parse::<i32>` gives: an optional sign, then one or more
/// decimal digits, the signed value lying within the range of `i32`.
pub open spec fn parse_i32_spec(s: Seq<char>) -> Option<i32> {
    if s.len() > 0 && s[0] == '-' {
        let d = s.drop_first();
        if d.len() > 0 && all_digits(d) && digits_value(d) <= 0x8000_0000 {
            Some((-digits_value(d)) as i32)
        } else {
            None
        }
    } else {
        let d = drop_plus(s);
        if d.len() > 0 && all_digits(d) && digits_value(d) <= 0x7fff_ffff {
            Some(digits_value(d) as i32)
        } else {
            None
        }
    }
}

proof fn lemma_digits_value_nonneg(s: Seq<char>)
    requires
        all_digits(s),
    ensures
        digits_value(s) >= 0,
    decreases s.len(),
{
    if s.len() > 0 {
        assert(all_digits(s.drop_last()));
        lemma_digits_value_nonneg(s.drop_last());
        assert(is_digit(s[s.len() - 1]));
    }
}

proof fn lemma_digits_value_prefix(s: Seq<char>, k: int)
    requires
        all_digits(s),
        0 <= k <= s.len(),
    ensures
        digits_value(s.take(k)) <= digits_value(s),
    decreases s.len() - k,
{
    if k < s.len() {
        assert(all_digits(s.drop_last()));
        assert(s.drop_last().take(k) == s.take(k));
        lemma_digits_value_prefix(s.drop_last(), k);
        lemma_digits_value_nonneg(s.drop_last());
        assert(is_digit(s[s.len() - 1]));
    } else {
        assert(s.take(k) == s);
    }
}

/// The value of the digits `v[start..]` when they are one or more ASCII
/// digits writing a number of at most `limit`.
fn parse_digits(v: &Vec<char>, start: usize, limit: u64) -> (r: Option<u64>)
    requires
        start <= v@.len(),
        limit >= 9,
    ensures
        r matches Some(m) ==> m as int == digits_value(v@.skip(start as int)) && m <= limit,
        ({
            let d = v@.skip(start as int);
            r == (if d.len() > 0 && all_digits(d) && digits_value(d) <= limit {
                Some(digits_value(d) as u64)
            } else {
                None
            })
        }),
{
    let ghost d = v@.skip(start as int);
    if start == v.len() {
        return None;
    }
    let mut acc: u64 = 0;
    let mut i = start;
    assert(d.take(0) == Seq::<char>::empty());
    while i < v.len()
        invariant
            start <= i <= v@.len(),
            d == v@.skip(start as int),
            all_digits(d.take(i - start)),
            acc == digits_value(d.take(i - start)),
            acc <= limit,
            limit >= 9,
        decreases v@.len() - i,
    {
        let c = v[i];
        let ghost t = d.take(i + 1 - start);
        assert(t.drop_last() == d.take(i - start));
        assert(t.last() == c);
        if !(48 <= (c as u32) && (c as u32) <= 57) {
            assert(!is_digit(d[i - start]));
            return None;
        }
        let dv = ((c as u32) - 48) as u64;
        if acc > (limit - dv) / 10 {
            proof {
                assert(acc * 10 + dv > limit) by (nonlinear_arith)
                    requires
                        acc > (limit - dv) / 10,
                        dv <= 9,
                        dv <= limit || true,
                ;
                if all_digits(d) {
                    lemma_digits_value_prefix(d, i + 1 - start);
                }
            }
            return None;
        }
        proof {
            assert(acc * 10 + dv <= limit) by (nonlinear_arith)
                requires
                    acc <= (limit - dv) / 10,
                    dv <= limit,
            ;
        }
        acc = acc * 10 + dv;
        i += 1;
    }
    assert(d.take(i - start) == d);
    proof {
        lemma_digits_value_nonneg(d);
    }
    Some(acc)
}

/// What `str::parse::<u64>` gives on the characters `v`.
pub fn parse_u64_chars(v: &Vec<char>) -> (r: Option<u64>)
    ensures
        r == parse_u64_spec(v@),
{
    let start: usize = if v.len() > 0 && v[0] == '+' { 1 } else { 0 };
    assert(v@.skip(start as int) == drop_plus(v@));
    parse_digits(v, start, u64::MAX)
}

/// What `str::parse::<i32>` gives on the characters `v`.
pub fn parse_i32_chars(v: &Vec<char>) -> (r: Option<i32>)
    ensures
        r == parse_i32_spec(v@),
{
    if v.len() > 0 && v[0] == '-' {
        assert(v@.skip(1) == v@.drop_first());
        match parse_digits(v, 1, 0x8000_0000) {
            Some(m) => {
                if m == 0x8000_0000 {
                    Some(i32::MIN)
                } else {
                    Some(-(m as i32))
                }
            },
            None => None,
        }
    } else {
        let start: usize = if v.len() > 0 && v[0] == '+' { 1 } else { 0 };
        assert(v@.skip(start as int) == drop_plus(v@));
        match parse_digits(v, start, 0x7fff_ffff) {
            Some(m) => Some(m as i32),
            None => None,
        }
    }
}

/// What `str::parse::<u64>` gives on a string slice.
pub fn parse_u64_str(s: &str) -> (r: Option<u64>)
    ensures
        r == parse_u64_spec(s@),
{
    let v = to_chars(s);
    parse_u64_chars(&v)
}


/// The ASCII digit for a value below ten.
pub open spec fn digit_char(d: int) -> char {
    (d + 48) as char
}

/// The decimal digits of a natural number, most significant first.
pub open spec fn decimal(m: nat) -> Seq<char>
    decreases m,
{
    if m < 10 {
        seq![digit_char(m as int)]
    } else {
        decimal(m / 10).push(digit_char((m % 10) as int))
    }
}

/// The absolute value of an integer.
pub open spec fn abs(n: int) -> nat {
    if n < 0 {
        (-n) as nat
    } else {
        n as nat
    }
}

/// How `format!("{:0w$}", n)` writes an integer: a `-` for a negative
/// value, then zeros up to a total width of `width`, then the digits.
pub open spec fn padded_decimal(n: int, width: nat) -> Seq<char> {
    let sign: Seq<char> = if n < 0 {
        seq!['-']
    } else {
        Seq::<char>::empty()
    };
    let body = decimal(abs(n));
    let used = sign.len() + body.len();
    let fill: nat = if used < width {
        (width - used) as nat
    } else {
        0
    };
    sign + Seq::new(fill, |i: int| '0') + body
}

/// How `to_string` writes an integer.
pub open spec fn int_text(n: int) -> Seq<char> {
    padded_decimal(n, 0)
}

/// `decimal` writes at least one character, only digits, and their value
/// is the number.
pub proof fn lemma_decimal(m: nat)
    ensures
        decimal(m).len() >= 1,
        all_digits(decimal(m)),
        digits_value(decimal(m)) == m,
    decreases m,
{
    let s = decimal(m);
    if m >= 10 {
        lemma_decimal(m / 10);
        assert(s.drop_last() == decimal(m / 10));
        let d = (m % 10) as int;
        assert((digit_char(d) as u32) == d + 48);
        assert forall|i: int| 0 <= i < s.len() implies is_digit(#[trigger] s[i]) by {
            if i < s.len() - 1 {
                assert(s[i] == decimal(m / 10)[i]);
            } else {
                assert(s[i] == digit_char(d));
            }
        }
        assert(all_digits(s));
        assert(s.last() == digit_char(d));
        assert(digit_value(s.last()) == d);
        assert(digits_value(s) == digits_value(s.drop_last()) * 10 + digit_value(s.last()));
        assert(m == (m / 10) * 10 + m % 10);
    } else {
        assert((digit_char(m as int) as u32) == m + 48);
        assert(s.drop_last().len() == 0);
        assert(s[0] == digit_char(m as int));
        assert(is_digit(s[0]));
        assert(all_digits(s));
        assert(s.last() == s[0]);
        assert(digit_value(s.last()) == m);
        assert(digits_value(s.drop_last()) == 0);
        assert(digits_value(s) == m);
    }
}

/// Ten to the power `w`.
pub open spec fn pow10(w: nat) -> nat
    decreases w,
{
    if w == 0 {
        1
    } else {
        10 * pow10((w - 1) as nat)
    }
}

/// A number below `10^w` takes at most `w` digits.
pub proof fn lemma_decimal_len(m: nat, w: nat)
    requires
        w >= 1,
        m < pow10(w),
    ensures
        decimal(m).len() <= w,
    decreases m,
{
    if m >= 10 {
        if w == 1 {
            assert(pow10(1) == 10) by {
                reveal_with_fuel(pow10, 2);
            }
        } else {
            let p = pow10((w - 1) as nat);
            assert(m / 10 < p) by (nonlinear_arith)
                requires
                    m < 10 * p,
            ;
            lemma_decimal_len(m / 10, (w - 1) as nat);
        }
    }
}

/// Leading zeros do not change the value that digits write.
pub proof fn lemma_leading_zeros(k: nat, s: Seq<char>)
    requires
        all_digits(s),
    ensures
        all_digits(Seq::new(k, |i: int| '0') + s),
        digits_value(Seq::new(k, |i: int| '0') + s) == digits_value(s),
    decreases s.len(),
{
    let z = Seq::new(k, |i: int| '0');
    assert(('0' as u32) == 48);
    assert forall|i: int| 0 <= i < (z + s).len() implies is_digit(#[trigger] (z + s)[i]) by {
        if i < k {
            assert((z + s)[i] == '0');
        } else {
            assert((z + s)[i] == s[i - k]);
        }
    }
    if s.len() == 0 {
        assert(z + s == z);
        lemma_zeros_value(k);
    } else {
        assert((z + s).drop_last() == z + s.drop_last());
        assert((z + s).last() == s.last());
        assert(all_digits(s.drop_last()));
        lemma_leading_zeros(k, s.drop_last());
    }
}

proof fn lemma_zeros_value(k: nat)
    ensures
        digits_value(Seq::new(k, |i: int| '0')) == 0,
    decreases k,
{
    let z = Seq::new(k, |i: int| '0');
    assert(('0' as u32) == 48);
    if k > 0 {
        assert(z.drop_last() == Seq::new((k - 1) as nat, |i: int| '0'));
        lemma_zeros_value((k - 1) as nat);
    }
}

/// `format!("{:0w$}", n)` of a number below `10^w` is exactly `w` digits
/// that write the number.
pub proof fn lemma_padded_decimal(n: int, w: nat)
    requires
        w >= 1,
        0 <= n < pow10(w),
    ensures
        padded_decimal(n, w).len() == w,
        all_digits(padded_decimal(n, w)),
        digits_value(padded_decimal(n, w)) == n,
{
    lemma_decimal(n as nat);
    lemma_decimal_len(n as nat, w);
    let body = decimal(n as nat);
    let fill = (w - body.len()) as nat;
    assert(padded_decimal(n, w) == Seq::new(fill, |i: int| '0') + body);
    lemma_leading_zeros(fill, body);
}

/// `str::parse::<u64>` reads back what `decimal` writes.
pub proof fn lemma_parse_u64_decimal(x: u64)
    ensures
        parse_u64_spec(decimal(x as nat)) == Some(x),
{
    lemma_decimal(x as nat);
    let d = decimal(x as nat);
    assert(is_digit(d[0]));
    assert(('+' as u32) == 43);
    assert(drop_plus(d) == d);
}

/// `str::parse::<i32>` reads back what `to_string` writes.
pub proof fn lemma_parse_i32_int_text(v: i32)
    ensures
        parse_i32_spec(int_text(v as int)) == Some(v),
        forall|i: int|
            0 <= i < int_text(v as int).len() ==> #[trigger] int_text(v as int)[i] == '-' || is_digit(
                int_text(v as int)[i],
            ),
        int_text(v as int).len() >= 1,
{
    let t = int_text(v as int);
    lemma_decimal(abs(v as int));
    let body = decimal(abs(v as int));
    assert(('-' as u32) == 45);
    assert(('+' as u32) == 43);
    if v < 0 {
        assert(t == seq!['-'] + body) by {
            assert(Seq::new(0, |i: int| '0') + body == body);
        }
        assert(t.drop_first() == body);
        assert forall|i: int| 0 <= i < t.len() implies #[trigger] t[i] == '-' || is_digit(t[i]) by {
            if i > 0 {
                assert(t[i] == body[i - 1]);
            }
        }
    } else {
        assert(t == body) by {
            assert(Seq::<char>::empty() + Seq::new(0, |i: int| '0') + body == body);
        }
        assert(is_digit(t[0]));
        assert(drop_plus(t) == t);
    }
}

/// Splitting at a separator splits the two sides apart.
pub proof fn lemma_split_by_concat(x: Seq<char>, c: char, y: Seq<char>, p: spec_fn(char) -> bool)
    requires
        p(c),
    ensures
        split_by(x.push(c) + y, p) == split_by(x, p) + split_by(y, p),
    decreases y.len(),
{
    let a = split_by(x, p);
    if y.len() == 0 {
        assert(x.push(c) + y == x.push(c));
        assert(x.push(c).drop_last() == x);
        assert(split_by(y, p) == seq![Seq::<char>::empty()]);
        assert(a.push(Seq::<char>::empty()) == a + seq![Seq::<char>::empty()]);
    } else {
        let y0 = y.drop_last();
        let d = y.last();
        let z = x.push(c) + y;
        assert(z.drop_last() == x.push(c) + y0);
        assert(z.last() == d);
        lemma_split_by_concat(x, c, y0, p);
        lemma_split_by_nonempty(y0, p);
        let b0 = split_by(y0, p);
        let ab = a + b0;
        if p(d) {
            assert(ab.push(Seq::<char>::empty()) == a + b0.push(Seq::<char>::empty()));
        } else {
            assert(ab.last() == b0.last());
            assert(ab.update(ab.len() - 1, ab.last().push(d)) == a + b0.update(
                b0.len() - 1,
                b0.last().push(d),
            ));
        }
    }
}

/// A text without separators is one piece.
pub proof fn lemma_split_by_free(y: Seq<char>, p: spec_fn(char) -> bool)
    requires
        forall|i: int| 0 <= i < y.len() ==> !p(#[trigger] y[i]),
    ensures
        split_by(y, p) == seq![y],
    decreases y.len(),
{
    if y.len() == 0 {
        assert(y == Seq::<char>::empty());
    } else {
        let y0 = y.drop_last();
        assert forall|i: int| 0 <= i < y0.len() implies !p(#[trigger] y0[i]) by {
            assert(y0[i] == y[i]);
        }
        lemma_split_by_free(y0, p);
        assert(!p(y[y.len() - 1]));
        assert(y0.push(y.last()) == y);
    }
}

/// Splitting at `sep` splits the two sides of a `sep` apart.
pub proof fn lemma_split_char_concat(x: Seq<char>, sep: char, y: Seq<char>)
    ensures
        split_char(x.push(sep) + y, sep) == split_char(x, sep) + split_char(y, sep),
    decreases y.len(),
{
    let a = split_char(x, sep);
    if y.len() == 0 {
        assert(x.push(sep) + y == x.push(sep));
        assert(x.push(sep).drop_last() == x);
        assert(split_char(y, sep) == seq![Seq::<char>::empty()]);
        assert(a.push(Seq::<char>::empty()) == a + seq![Seq::<char>::empty()]);
    } else {
        let y0 = y.drop_last();
        let d = y.last();
        let z = x.push(sep) + y;
        assert(z.drop_last() == x.push(sep) + y0);
        assert(z.last() == d);
        lemma_split_char_concat(x, sep, y0);
        lemma_split_char_nonempty(y0, sep);
        let b0 = split_char(y0, sep);
        let ab = a + b0;
        if d == sep {
            assert(ab.push(Seq::<char>::empty()) == a + b0.push(Seq::<char>::empty()));
        } else {
            assert(ab.last() == b0.last());
            assert(ab.update(ab.len() - 1, ab.last().push(d)) == a + b0.update(
                b0.len() - 1,
                b0.last().push(d),
            ));
        }
    }
}

/// A text without `sep` is one piece.
pub proof fn lemma_split_char_free(y: Seq<char>, sep: char)
    requires
        forall|i: int| 0 <= i < y.len() ==> #[trigger] y[i] != sep,
    ensures
        split_char(y, sep) == seq![y],
    decreases y.len(),
{
    if y.len() == 0 {
        assert(y == Seq::<char>::empty());
    } else {
        let y0 = y.drop_last();
        assert forall|i: int| 0 <= i < y0.len() implies #[trigger] y0[i] != sep by {
            assert(y0[i] == y[i]);
        }
        lemma_split_char_free(y0, sep);
        assert(y[y.len() - 1] != sep);
        assert(y0.push(y.last()) == y);
    }
}

/// A white-space character splits the words of a text in two.
pub proof fn lemma_words_concat(x: Seq<char>, c: char, y: Seq<char>)
    requires
        is_ws(c),
    ensures
        words(x.push(c) + y) == words(x) + words(y),
{
    broadcast use Seq::filter_distributes_over_add;

    lemma_split_by_concat(x, c, y, |ch: char| is_ws(ch));
    assert(split_ws_pieces(x.push(c) + y) == split_ws_pieces(x) + split_ws_pieces(y));
}

/// A non-empty text without white space is one word.
pub proof fn lemma_words_single(y: Seq<char>)
    requires
        y.len() > 0,
        forall|i: int| 0 <= i < y.len() ==> !is_ws(#[trigger] y[i]),
    ensures
        words(y) == seq![y],
{
    lemma_split_by_free(y, |ch: char| is_ws(ch));
    reveal_with_fuel(Seq::filter, 2);
    assert(seq![y].drop_last() == Seq::<Seq<char>>::empty());
}

/// Words without white space, joined by single spaces, split back into
/// the same words.
pub proof fn lemma_words_of_join(qs: Seq<Seq<char>>)
    requires
        forall|k: int| 0 <= k < qs.len() ==> (#[trigger] qs[k]).len() > 0,
        forall|k: int, i: int| 0 <= k < qs.len() && 0 <= i < qs[k].len() ==> !is_ws(#[trigger] qs[k][i]),
    ensures
        words(join_with(qs, ' ')) == qs,
    decreases qs.len(),
{
    if qs.len() == 0 {
        reveal_with_fuel(Seq::filter, 2);
        assert(split_ws_pieces(Seq::<char>::empty()) == seq![Seq::<char>::empty()]);
        assert(seq![Seq::<char>::empty()].drop_last() == Seq::<Seq<char>>::empty());
    } else if qs.len() == 1 {
        lemma_words_single(qs[0]);
        assert(seq![qs[0]] == qs);
    } else {
        let q0 = qs.drop_last();
        assert forall|k: int| 0 <= k < q0.len() implies (#[trigger] q0[k]).len() > 0 by {
            assert(q0[k] == qs[k]);
        }
        assert forall|k: int, i: int| 0 <= k < q0.len() && 0 <= i < q0[k].len() implies !is_ws(
            #[trigger] q0[k][i],
        ) by {
            assert(q0[k] == qs[k]);
        }
        lemma_words_of_join(q0);
        assert(is_ws(' '));
        lemma_words_concat(join_with(q0, ' '), ' ', qs.last());
        let l = qs.len() - 1;
        assert forall|i: int| 0 <= i < qs.last().len() implies !is_ws(#[trigger] qs.last()[i]) by {
            assert(qs.last()[i] == qs[l][i]);
        }
        lemma_words_single(qs.last());
        assert(q0 + seq![qs.last()] == qs);
    }
}

/// Extending the last word extends the joined text.
pub proof fn lemma_join_extend_last(ps: Seq<Seq<char>>, t: Seq<char>)
    requires
        ps.len() >= 1,
    ensures
        join_with(ps.update(ps.len() - 1, ps.last() + t), ' ') == join_with(ps, ' ') + t,
{
    let qs = ps.update(ps.len() - 1, ps.last() + t);
    if ps.len() > 1 {
        assert(qs.drop_last() == ps.drop_last());
        assert(join_with(ps.drop_last(), ' ').push(' ') + (ps.last() + t) == join_with(ps.drop_last(), ' ').push(' ')
            + ps.last() + t);
    }
}

/// The first character of joined words is that of the first word.
pub proof fn lemma_join_first(ps: Seq<Seq<char>>)
    requires
        ps.len() >= 1,
        ps[0].len() > 0,
    ensures
        join_with(ps, ' ').len() > 0,
        join_with(ps, ' ')[0] == ps[0][0],
    decreases ps.len(),
{
    if ps.len() > 1 {
        assert(ps.drop_last()[0] == ps[0]);
        lemma_join_first(ps.drop_last());
    }
}

/// The last `c` of `x`, `c`, then a text without `c`, is that `c`.
pub proof fn lemma_last_index_after(x: Seq<char>, c: char, y: Seq<char>)
    requires
        forall|i: int| 0 <= i < y.len() ==> #[trigger] y[i] != c,
    ensures
        last_index_of(x.push(c) + y, c) == x.len(),
    decreases y.len(),
{
    if y.len() == 0 {
        assert(x.push(c) + y == x.push(c));
    } else {
        let y0 = y.drop_last();
        assert((x.push(c) + y).drop_last() == x.push(c) + y0);
        assert((x.push(c) + y).last() == y[y.len() - 1]);
        assert forall|i: int| 0 <= i < y0.len() implies #[trigger] y0[i] != c by {
            assert(y0[i] == y[i]);
        }
        lemma_last_index_after(x, c, y0);
    }
}

/// A text that neither starts nor ends with white space is its own trim.
pub proof fn lemma_trim_plain(s: Seq<char>)
    requires
        s.len() > 0,
        !is_ws(s[0]),
        !is_ws(s.last()),
    ensures
        trim(s) == s,
{
    assert(trim_start(s) == s);
    assert(trim_end(s) == s);
}

/// Digits write a value below `10^len`.
pub proof fn lemma_digits_value_bound(s: Seq<char>)
    requires
        all_digits(s),
    ensures
        0 <= digits_value(s) < pow10(s.len()),
    decreases s.len(),
{
    if s.len() > 0 {
        assert(all_digits(s.drop_last()));
        lemma_digits_value_bound(s.drop_last());
        assert(is_digit(s[s.len() - 1]));
        let v = digits_value(s.drop_last());
        let p = pow10(s.drop_last().len());
        let d = digit_value(s.last());
        assert(v * 10 + d < 10 * p) by (nonlinear_arith)
            requires
                0 <= v < p,
                0 <= d < 10,
        ;
        assert(v * 10 + d >= 0) by (nonlinear_arith)
            requires
                0 <= v,
                0 <= d,
        ;
    }
}

/// The first digit counts `10^(len-1)` times.
pub proof fn lemma_digits_value_first(s: Seq<char>)
    requires
        s.len() >= 1,
    ensures
        digits_value(s) == digit_value(s[0]) * pow10((s.len() - 1) as nat) + digits_value(s.drop_first()),
    decreases s.len(),
{
    if s.len() == 1 {
        assert(s.drop_last().len() == 0);
        assert(s.drop_first().len() == 0);
        assert(pow10(0) == 1);
        assert(digits_value(s) == digits_value(s.drop_last()) * 10 + digit_value(s.last()));
        assert(s.last() == s[0]);
        assert(digit_value(s[0]) * 1 == digit_value(s[0]));
    } else {
        let s0 = s.drop_last();
        lemma_digits_value_first(s0);
        assert(s0[0] == s[0]);
        assert(s0.drop_first() == s.drop_first().drop_last());
        assert(s.drop_first().last() == s.last());
        let d0 = digit_value(s[0]);
        let p = pow10((s0.len() - 1) as nat);
        let r = digits_value(s0.drop_first());
        assert(pow10((s.len() - 1) as nat) == 10 * p);
        let t = s.drop_first();
        assert(t.len() >= 1);
        assert(digits_value(t) == digits_value(t.drop_last()) * 10 + digit_value(t.last()));
        assert(digits_value(t) == r * 10 + digit_value(s.last()));
        assert(digits_value(s) == digits_value(s0) * 10 + digit_value(s.last()));
        assert(digits_value(s0) == d0 * p + r);
        assert((d0 * p + r) * 10 == d0 * (10 * p) + r * 10) by (nonlinear_arith);
    }
}

/// For digits of equal length, the lexicographic order is the order of
/// their values.
pub proof fn lemma_lex_digits(a: Seq<char>, b: Seq<char>)
    requires
        a.len() == b.len(),
        all_digits(a),
        all_digits(b),
    ensures
        lex_lt(a, b) == (digits_value(a) < digits_value(b)),
    decreases a.len(),
{
    if a.len() > 0 {
        let n = a.len();
        assert(all_digits(a.drop_first()) && all_digits(b.drop_first())) by {
            assert forall|i: int| 0 <= i < n - 1 implies is_digit(#[trigger] a.drop_first()[i]) by {
                assert(a.drop_first()[i] == a[i + 1]);
            }
            assert forall|i: int| 0 <= i < n - 1 implies is_digit(#[trigger] b.drop_first()[i]) by {
                assert(b.drop_first()[i] == b[i + 1]);
            }
        }
        lemma_lex_digits(a.drop_first(), b.drop_first());
        lemma_digits_value_first(a);
        lemma_digits_value_first(b);
        lemma_digits_value_bound(a.drop_first());
        lemma_digits_value_bound(b.drop_first());
        assert(is_digit(a[0]) && is_digit(b[0]));
        let p = pow10((n - 1) as nat);
        let da = digit_value(a[0]);
        let db = digit_value(b[0]);
        let ra = digits_value(a.drop_first());
        let rb = digits_value(b.drop_first());
        if a[0] != b[0] {
            vstd::utf8::char_u32_cast(a[0], a[0] as u32);
            vstd::utf8::char_u32_cast(b[0], b[0] as u32);
            assert(da != db);
            if da < db {
                assert(da * p + ra < db * p + rb) by (nonlinear_arith)
                    requires
                        da + 1 <= db,
                        0 <= ra < p,
                        0 <= rb,
                        p > 0,
                ;
            } else {
                assert(db * p + rb < da * p + ra) by (nonlinear_arith)
                    requires
                        db + 1 <= da,
                        0 <= rb < p,
                        0 <= ra,
                        p > 0,
                ;
            }
        }
    }
}

/// Comparing two texts whose first parts have equal lengths: the first
/// parts decide unless they are equal.
pub proof fn lemma_lex_concat(a: Seq<char>, b: Seq<char>, x: Seq<char>, y: Seq<char>)
    requires
        a.len() == b.len(),
    ensures
        lex_lt(a + x, b + y) == (if a == b {
            lex_lt(x, y)
        } else {
            lex_lt(a, b)
        }),
    decreases a.len(),
{
    if a.len() == 0 {
        assert(a + x == x);
        assert(b + y == y);
        assert(a == b);
    } else {
        assert((a + x)[0] == a[0]);
        assert((b + y)[0] == b[0]);
        assert((a + x).drop_first() == a.drop_first() + x);
        assert((b + y).drop_first() == b.drop_first() + y);
        lemma_lex_concat(a.drop_first(), b.drop_first(), x, y);
        if a[0] == b[0] && a.drop_first() == b.drop_first() {
            assert(a == b) by {
                assert(a =~= seq![a[0]] + a.drop_first());
                assert(b =~= seq![b[0]] + b.drop_first());
            }
        }
        if a == b {
            assert(a.drop_first() == b.drop_first());
        }
    }
}

fn digit_to_char(d: u64) -> (c: char)
    requires
        d < 10,
    ensures
        c == digit_char(d as int),
{
    let b: u8 = d as u8 + 48;
    b as char
}

/// The characters of `format!("{:0w$}", n)` with `w` = `width`.
pub fn padded_decimal_chars(n: i64, width: usize) -> (r: Vec<char>)
    ensures
        r@ == padded_decimal(n as int, width as nat),
{
    let mag: u64 = if n < 0 { (-(n as i128)) as u64 } else { n as u64 };
    assert(mag as nat == abs(n as int));
    let mut body: Vec<char> = Vec::new();
    let mut m = mag;
    while m >= 10
        invariant
            decimal(mag as nat) == decimal(m as nat) + body@,
        decreases m,
    {
        let c = digit_to_char(m % 10);
        let ghost old_body = body@;
        body.insert(0, c);
        assert(decimal(m as nat) == decimal((m / 10) as nat).push(c));
        assert(decimal((m / 10) as nat).push(c) + old_body == decimal((m / 10) as nat) + body@);
        m = m / 10;
    }
    let ghost old_body = body@;
    body.insert(0, digit_to_char(m));
    assert(decimal(mag as nat) == body@);
    let mut r: Vec<char> = Vec::new();
    if n < 0 {
        r.push('-');
    }
    let ghost sign = r@;
    if body.len() < width && r.len() < width - body.len() {
        let fill = width - body.len() - r.len();
        for i in 0..fill
            invariant
                r@ == sign + Seq::new(i as nat, |k: int| '0'),
        {
            r.push('0');
            assert(sign + Seq::new((i + 1) as nat, |k: int| '0') == (sign + Seq::new(i as nat, |k: int| '0')).push('0'));
        }
    } else {
        assert(sign + Seq::new(0, |k: int| '0') == sign);
    }
    let ghost head = r@;
    for i in 0..body.len()
        invariant
            r@ == head + body@.take(i as int),
    {
        r.push(body[i]);
        assert(body@.take(i + 1) == body@.take(i as int).push(body@[i as int]));
    }
    assert(body@.take(body@.len() as int) == body@);
    r
}

/// `format!("{:0w$}", n)` with `w` = `width`.
pub fn padded_decimal_string(n: i64, width: usize) -> (s: String)
    ensures
        s@ == padded_decimal(n as int, width as nat),
{
    let v = padded_decimal_chars(n, width);
    string_from_chars(v.as_slice())
}

/// Lexicographic order of character sequences, by code point; this is
/// the order of `String` (byte order of UTF-8 follows code point order).
pub open spec fn lex_lt(a: Seq<char>, b: Seq<char>) -> bool
    decreases a.len(),
{
    if b.len() == 0 {
        false
    } else if a.len() == 0 {
        true
    } else if a[0] != b[0] {
        (a[0] as u32) < (b[0] as u32)
    } else {
        lex_lt(a.drop_first(), b.drop_first())
    }
}

/// Whether `a` comes strictly before `b` in lexicographic order.
pub fn chars_lt(a: &Vec<char>, b: &Vec<char>) -> (r: bool)
    ensures
        r == lex_lt(a@, b@),
{
    let mut i: usize = 0;
    assert(a@.skip(0) == a@ && b@.skip(0) == b@);
    while i < a.len() && i < b.len()
        invariant
            i <= a@.len(),
            i <= b@.len(),
            lex_lt(a@, b@) == lex_lt(a@.skip(i as int), b@.skip(i as int)),
        decreases a@.len() - i,
    {
        if a[i] != b[i] {
            return (a[i] as u32) < (b[i] as u32);
        }
        assert(a@.skip(i as int).drop_first() == a@.skip(i + 1));
        assert(b@.skip(i as int).drop_first() == b@.skip(i + 1));
        i += 1;
    }
    i < b.len()
}


/// The characters `v[from..to]`.
pub fn sub_chars(v: &Vec<char>, from: usize, to: usize) -> (r: Vec<char>)
    requires
        from <= to <= v@.len(),
    ensures
        r@ == v@.subrange(from as int, to as int),
{
    let mut r: Vec<char> = Vec::new();
    let mut i = from;
    while i < to
        invariant
            from <= i <= to <= v@.len(),
            r@ == v@.subrange(from as int, i as int),
        decreases to - i,
    {
        r.push(v[i]);
        assert(v@.subrange(from as int, i + 1) == v@.subrange(from as int, i as int).push(v@[i as int]));
        i += 1;
    }
    r
}

/// A line without the `\r` of a `\r\n` line ending.
pub open spec fn strip_cr(l: Seq<char>) -> Seq<char> {
    if l.len() > 0 && l.last() == '\r' {
        l.drop_last()
    } else {
        l
    }
}

/// The lines of a text (`str::lines`): split at `\n`, a `\r` before a
/// `\n` dropped, and no empty last line after a final line ending.
pub open spec fn text_lines(s: Seq<char>) -> Seq<Seq<char>> {
    let p = split_char(s, '\n');
    let body = Seq::new((p.len() - 1) as nat, |k: int| strip_cr(p[k]));
    if p.last().len() > 0 {
        body.push(p.last())
    } else {
        body
    }
}

/// The lines of the characters `v`.
pub fn split_lines(v: &Vec<char>) -> (r: Vec<Vec<char>>)
    ensures
        views(r@) == text_lines(v@),
{
    let pieces = split_on(v, '\n');
    proof {
        lemma_split_char_nonempty(v@, '\n');
    }
    let ghost p = views(pieces@);
    let n = pieces.len();
    assert(p.len() == n);
    assert(n >= 1);
    let mut out: Vec<Vec<char>> = Vec::new();
    for k in 0..n - 1
        invariant
            n == pieces@.len() >= 1,
            p == views(pieces@),
            views(out@) == Seq::new(k as nat, |q: int| strip_cr(p[q])),
    {
        let piece = &pieces[k];
        let line = if piece.len() > 0 && piece[piece.len() - 1] == '\r' {
            sub_chars(piece, 0, piece.len() - 1)
        } else {
            sub_chars(piece, 0, piece.len())
        };
        assert(piece@.subrange(0, piece@.len() as int) == piece@);
        assert(piece@.len() > 0 ==> piece@.subrange(0, piece@.len() - 1) == piece@.drop_last());
        assert(p[k as int] == piece@);
        assert(line@ == strip_cr(p[k as int]));
        let ghost before = out@;
        out.push(line);
        assert(views(out@) == views(before).push(strip_cr(p[k as int])));
        assert(views(out@) == Seq::new((k + 1) as nat, |q: int| strip_cr(p[q])));
    }
    let last = &pieces[n - 1];
    if last.len() > 0 {
        let ghost before = out@;
        out.push(sub_chars(last, 0, last.len()));
        assert(last@.subrange(0, last@.len() as int) == last@);
        assert(views(out@) == views(before).push(p.last()));
    }
    out
}


pub proof fn lemma_lex_irreflexive(a: Seq<char>)
    ensures
        !lex_lt(a, a),
    decreases a.len(),
{
    if a.len() > 0 {
        lemma_lex_irreflexive(a.drop_first());
    }
}

pub proof fn lemma_lex_asymmetric(a: Seq<char>, b: Seq<char>)
    ensures
        lex_lt(a, b) ==> !lex_lt(b, a),
    decreases a.len(),
{
    if a.len() > 0 && b.len() > 0 && a[0] == b[0] {
        lemma_lex_asymmetric(a.drop_first(), b.drop_first());
    }
}

pub proof fn lemma_lex_transitive(a: Seq<char>, b: Seq<char>, c: Seq<char>)
    ensures
        lex_lt(a, b) && lex_lt(b, c) ==> lex_lt(a, c),
    decreases a.len(),
{
    if a.len() > 0 && b.len() > 0 && c.len() > 0 && a[0] == b[0] && b[0] == c[0] {
        lemma_lex_transitive(a.drop_first(), b.drop_first(), c.drop_first());
    }
}

pub proof fn lemma_lex_total(a: Seq<char>, b: Seq<char>)
    ensures
        a != b ==> lex_lt(a, b) || lex_lt(b, a),
    decreases a.len(),
{
    if a.len() > 0 && b.len() > 0 && a[0] == b[0] {
        lemma_lex_total(a.drop_first(), b.drop_first());
        if a.drop_first() == b.drop_first() {
            assert(a == seq![a[0]] + a.drop_first());
            assert(b == seq![b[0]] + b.drop_first());
        }
    } else if a.len() == 0 && b.len() == 0 {
        assert(a == b);
    } else if a.len() > 0 && b.len() > 0 {
        assert(a[0] != b[0]);
        vstd::utf8::char_u32_cast(a[0], a[0] as u32);
        vstd::utf8::char_u32_cast(b[0], b[0] as u32);
        assert((a[0] as u32) != (b[0] as u32));
    }
}

} // verus!
