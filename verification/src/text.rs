//! Text primitives over `&str`, stated on sequences of characters.
//!
//! Every function here has an exact contract over the character view of its
//! arguments. The parsers and renderers of the crate are built from these.

use vstd::prelude::*;

verus! {

/// `String::push`: appends one character at the end of the string.
pub assume_specification[ String::push ](s: &mut String, c: char)
    ensures
        final(s)@ == old(s)@.push(c),
;

// ---- characters -------------------------------------------------------------

/// The Unicode `White_Space` property.
pub open spec fn white(c: char) -> bool {
    let n = c as u32;
    ||| 0x09 <= n <= 0x0d
    ||| n == 0x20
    ||| n == 0x85
    ||| n == 0xa0
    ||| n == 0x1680
    ||| 0x2000 <= n <= 0x200a
    ||| n == 0x2028
    ||| n == 0x2029
    ||| n == 0x202f
    ||| n == 0x205f
    ||| n == 0x3000
}

/// Whether `c` has the Unicode `White_Space` property.
pub fn is_white(c: char) -> (r: bool)
    ensures
        r == white(c),
{
    let n: u32 = c as u32;
    (0x09 <= n && n <= 0x0d) || n == 0x20 || n == 0x85 || n == 0xa0 || n == 0x1680 || (0x2000 <= n
        && n <= 0x200a) || n == 0x2028 || n == 0x2029 || n == 0x202f || n == 0x205f || n == 0x3000
}

/// ASCII decimal digit.
pub open spec fn digit(c: char) -> bool {
    '0' <= c <= '9'
}

// ---- whole strings ----------------------------------------------------------

/// The characters of `s`, in order.
pub fn chars_of(s: &str) -> (v: Vec<char>)
    ensures
        v@ == s@,
{
    let mut v: Vec<char> = Vec::new();
    for c in it: s.chars()
        invariant
            v@ == it.seq().take(it.index()),
            it.seq() == s@,
    {
        v.push(c);
    }
    v
}

/// Whether two strings hold the same characters.
pub fn same(a: &str, b: &str) -> (r: bool)
    ensures
        r == (a@ == b@),
{
    let x = chars_of(a);
    let y = chars_of(b);
    if x.len() != y.len() {
        return false;
    }
    let mut i: usize = 0;
    while i < x.len()
        invariant
            x@ == a@,
            y@ == b@,
            x@.len() == y@.len(),
            i <= x@.len(),
            forall|j: int| 0 <= j < i ==> x@[j] == y@[j],
        decreases x@.len() - i,
    {
        if x[i] != y[i] {
            return false;
        }
        i += 1;
    }
    assert(a@ =~= b@);
    true
}

// ---- prefixes ---------------------------------------------------------------

/// `p` is a prefix of `s`.
pub open spec fn has_prefix(s: Seq<char>, p: Seq<char>) -> bool {
    p.len() <= s.len() && s.take(p.len() as int) == p
}

/// Whether `s` starts with `p`.
pub fn starts_with(s: &str, p: &str) -> (r: bool)
    ensures
        r == has_prefix(s@, p@),
{
    let x = chars_of(s);
    let y = chars_of(p);
    occurs(&x, &y, 0)
}

/// What follows the prefix `p` of `s`, or `None` when `s` does not start with it.
pub fn strip_prefix<'a>(s: &'a str, p: &str) -> (r: Option<&'a str>)
    ensures
        r is Some <==> has_prefix(s@, p@),
        r matches Some(rest) ==> rest@ == s@.skip(p@.len() as int),
{
    if starts_with(s, p) {
        let n: usize = s.unicode_len();
        let rest = s.substring_char(p.unicode_len(), n);
        assert(rest@ =~= s@.skip(p@.len() as int));
        Some(rest)
    } else {
        None
    }
}

// ---- searching --------------------------------------------------------------

/// `p` stands in `s` at position `i`.
pub open spec fn occurs_at(s: Seq<char>, p: Seq<char>, i: int) -> bool {
    0 <= i && i + p.len() <= s.len() && s.subrange(i, i + p.len()) == p
}

/// Position of the first occurrence of `p` in `s` at or after `from`.
pub open spec fn find_from(s: Seq<char>, p: Seq<char>, from: int) -> Option<int>
    decreases s.len() + 1 - from,
{
    if from + p.len() > s.len() {
        None
    } else if occurs_at(s, p, from) {
        Some(from)
    } else {
        find_from(s, p, from + 1)
    }
}

/// `s` cut at the first occurrence of `p`: what precedes it and what follows it.
pub open spec fn cut(s: Seq<char>, p: Seq<char>) -> Option<(Seq<char>, Seq<char>)> {
    match find_from(s, p, 0) {
        Some(i) => Some((s.take(i), s.skip(i + p.len()))),
        None => None,
    }
}

/// What precedes the first occurrence of `p` in `s`, or all of `s`.
pub open spec fn before(s: Seq<char>, p: Seq<char>) -> Seq<char> {
    match cut(s, p) {
        Some((head, _)) => head,
        None => s,
    }
}

/// `find_from` gives the least position at which the pattern occurs, if any.
pub proof fn lemma_find_least(s: Seq<char>, p: Seq<char>, from: int)
    requires
        0 <= from,
    ensures
        find_from(s, p, from) matches Some(i) ==> from <= i && occurs_at(s, p, i) && (forall|j: int|
            from <= j < i ==> !occurs_at(s, p, j)),
        find_from(s, p, from) is None ==> forall|j: int| from <= j ==> !occurs_at(s, p, j),
    decreases s.len() + 1 - from,
{
    if from + p.len() <= s.len() && !occurs_at(s, p, from) {
        lemma_find_least(s, p, from + 1);
    }
}

/// Whether `p` stands in `s` at position `i`.
fn occurs(s: &Vec<char>, p: &Vec<char>, i: usize) -> (r: bool)
    ensures
        r == occurs_at(s@, p@, i as int),
        i == 0 ==> r == has_prefix(s@, p@),
{
    assert(i == 0 && p@.len() <= s@.len() ==> s@.subrange(0, p@.len() as int) =~= s@.take(
        p@.len() as int,
    ));
    if i > s.len() || p.len() > s.len() - i {
        return false;
    }
    let mut k: usize = 0;
    while k < p.len()
        invariant
            i + p.len() <= s.len(),
            k <= p.len(),
            forall|j: int| 0 <= j < k ==> s@[i + j] == p@[j],
            i == 0 ==> s@.subrange(0, p@.len() as int) == s@.take(p@.len() as int),
        decreases p@.len() - k,
    {
        if s[i + k] != p[k] {
            assert(s@.subrange(i as int, i + p@.len())[k as int] != p@[k as int]);
            return false;
        }
        k += 1;
    }
    assert(s@.subrange(i as int, i + p@.len()) =~= p@);
    true
}

/// Position of the first occurrence of `p` in `s`.
pub fn find(s: &str, p: &str) -> (r: Option<usize>)
    ensures
        r is Some <==> find_from(s@, p@, 0) is Some,
        r matches Some(i) ==> find_from(s@, p@, 0) == Some(i as int) && i + p@.len() <= s@.len(),
{
    let x = chars_of(s);
    let y = chars_of(p);
    if y.len() > x.len() {
        return None;
    }
    let last: usize = x.len() - y.len();
    let mut i: usize = 0;
    while i < last
        invariant
            x@ == s@,
            y@ == p@,
            y@.len() <= x@.len(),
            last == x@.len() - y@.len(),
            i <= last,
            find_from(s@, p@, 0) == find_from(s@, p@, i as int),
        decreases last - i,
    {
        if occurs(&x, &y, i) {
            return Some(i);
        }
        i += 1;
    }
    if occurs(&x, &y, last) {
        Some(last)
    } else {
        assert(find_from(s@, p@, last + 1) is None);
        None
    }
}

/// `s` cut at the first occurrence of `p`.
pub fn split_once<'a>(s: &'a str, p: &str) -> (r: Option<(&'a str, &'a str)>)
    ensures
        r is Some <==> cut(s@, p@) is Some,
        r matches Some((a, b)) ==> cut(s@, p@) == Some((a@, b@)),
{
    match find(s, p) {
        Some(i) => {
            let n: usize = s.unicode_len();
            let a = s.substring_char(0, i);
            let b = s.substring_char(i + p.unicode_len(), n);
            assert(a@ =~= s@.take(i as int));
            assert(b@ =~= s@.skip(i + p@.len()));
            Some((a, b))
        },
        None => None,
    }
}

/// What precedes the first occurrence of `p` in `s`, or all of `s`.
pub fn before_first<'a>(s: &'a str, p: &str) -> (r: &'a str)
    ensures
        r@ == before(s@, p@),
{
    match split_once(s, p) {
        Some((a, _)) => a,
        None => s,
    }
}

// ---- trimming ---------------------------------------------------------------

/// `s` without its leading white space.
pub open spec fn skip_white(s: Seq<char>) -> Seq<char>
    decreases s.len(),
{
    if s.len() > 0 && white(s[0]) {
        skip_white(s.skip(1))
    } else {
        s
    }
}

/// `s` without its trailing white space.
pub open spec fn drop_white(s: Seq<char>) -> Seq<char>
    decreases s.len(),
{
    if s.len() > 0 && white(s.last()) {
        drop_white(s.drop_last())
    } else {
        s
    }
}

/// `s` without leading and trailing white space.
pub open spec fn trimmed(s: Seq<char>) -> Seq<char> {
    drop_white(skip_white(s))
}

/// Text without white space at either end is its own trim.
pub proof fn lemma_trim_same(s: Seq<char>)
    requires
        s.len() > 0,
        !white(s[0]),
        !white(s.last()),
    ensures
        trimmed(s) == s,
{
}

/// `s` without any `c` at its end.
pub open spec fn drop_all_last(s: Seq<char>, c: char) -> Seq<char>
    decreases s.len(),
{
    if s.len() > 0 && s.last() == c {
        drop_all_last(s.drop_last(), c)
    } else {
        s
    }
}

/// `s` without its leading white space.
pub fn trim_start(s: &str) -> (r: &str)
    ensures
        r@ == skip_white(s@),
{
    let x = chars_of(s);
    let mut i: usize = 0;
    assert(s@.skip(0) =~= s@);
    while i < x.len() && is_white(x[i])
        invariant
            x@ == s@,
            i <= x@.len(),
            skip_white(s@) == skip_white(s@.skip(i as int)),
        decreases x@.len() - i,
    {
        assert(s@.skip(i as int).skip(1) =~= s@.skip(i + 1));
        i += 1;
    }
    let r = s.substring_char(i, x.len());
    assert(r@ =~= s@.skip(i as int));
    r
}

/// `s` without its trailing white space.
pub fn trim_end(s: &str) -> (r: &str)
    ensures
        r@ == drop_white(s@),
{
    let x = chars_of(s);
    let mut n: usize = x.len();
    assert(s@.take(s@.len() as int) =~= s@);
    while n > 0 && is_white(x[n - 1])
        invariant
            x@ == s@,
            n <= x@.len(),
            drop_white(s@) == drop_white(s@.take(n as int)),
        decreases n,
    {
        assert(s@.take(n as int).drop_last() =~= s@.take(n - 1));
        n -= 1;
    }
    let r = s.substring_char(0, n);
    assert(r@ =~= s@.take(n as int));
    r
}

/// `s` without leading and trailing white space.
pub fn trim(s: &str) -> (r: &str)
    ensures
        r@ == trimmed(s@),
{
    trim_end(trim_start(s))
}

/// `s` without any `c` at its end.
pub fn trim_end_matches(s: &str, c: char) -> (r: &str)
    ensures
        r@ == drop_all_last(s@, c),
{
    let x = chars_of(s);
    let mut n: usize = x.len();
    assert(s@.take(s@.len() as int) =~= s@);
    while n > 0 && x[n - 1] == c
        invariant
            x@ == s@,
            n <= x@.len(),
            drop_all_last(s@, c) == drop_all_last(s@.take(n as int), c),
        decreases n,
    {
        assert(s@.take(n as int).drop_last() =~= s@.take(n - 1));
        n -= 1;
    }
    let r = s.substring_char(0, n);
    assert(r@ =~= s@.take(n as int));
    r
}

// ---- splitting and joining --------------------------------------------------

/// The character views of a sequence of strings.
pub open spec fn views(v: Seq<String>) -> Seq<Seq<char>> {
    v.map_values(|s: String| s@)
}

/// The character view of an optional string.
pub open spec fn opt(s: Option<String>) -> Option<Seq<char>> {
    match s {
        Some(v) => Some(v@),
        None => None,
    }
}

/// The parts of `s` between the occurrences of `sep`; at least one part.
pub open spec fn split(s: Seq<char>, sep: char) -> Seq<Seq<char>>
    decreases s.len(),
{
    if s.len() == 0 {
        seq![Seq::<char>::empty()]
    } else {
        let parts = split(s.drop_last(), sep);
        if s.last() == sep {
            parts.push(Seq::<char>::empty())
        } else {
            parts.drop_last().push(parts.last().push(s.last()))
        }
    }
}

/// `parts` one after the other, with `sep` between neighbours.
pub open spec fn join(parts: Seq<Seq<char>>, sep: Seq<char>) -> Seq<char>
    decreases parts.len(),
{
    if parts.len() == 0 {
        Seq::empty()
    } else if parts.len() == 1 {
        parts[0]
    } else {
        join(parts.drop_last(), sep) + sep + parts.last()
    }
}

/// A terminated line without the carriage return of a `\r\n` ending.
pub open spec fn line_body(part: Seq<char>) -> Seq<char> {
    if part.len() > 0 && part.last() == '\r' {
        part.drop_last()
    } else {
        part
    }
}

/// The bodies of a run of terminated lines.
pub open spec fn line_bodies(parts: Seq<Seq<char>>) -> Seq<Seq<char>> {
    Seq::new(parts.len(), |i: int| line_body(parts[i]))
}

/// The lines of `s`: what stands before each `\n` (or `\r\n`), then what
/// follows the last one unless that is empty.
pub open spec fn lines(s: Seq<char>) -> Seq<Seq<char>> {
    let parts = split(s, '\n');
    let full = line_bodies(parts.drop_last());
    if parts.last().len() == 0 {
        full
    } else {
        full.push(parts.last())
    }
}

/// Splitting loses nothing: the parts joined by the separator are the text
/// again, and no part holds the separator.
pub proof fn lemma_split_join(s: Seq<char>, sep: char)
    ensures
        split(s, sep).len() > 0,
        join(split(s, sep), seq![sep]) == s,
        forall|i: int|
            0 <= i < split(s, sep).len() ==> !(#[trigger] split(s, sep)[i]).contains(sep),
    decreases s.len(),
{
    let parts = split(s, sep);
    if s.len() > 0 {
        lemma_split_join(s.drop_last(), sep);
        let prev = split(s.drop_last(), sep);
        if s.last() == sep {
            assert(parts.drop_last() =~= prev);
            assert(join(parts, seq![sep]) =~= s);
        } else {
            assert(parts.drop_last() =~= prev.drop_last());
            assert(prev.last() == prev[prev.len() - 1]);
            assert(join(parts, seq![sep]) =~= join(prev, seq![sep]).push(s.last()));
            assert(join(parts, seq![sep]) =~= s);
            assert forall|i: int| 0 <= i < parts.len() implies !(#[trigger] parts[i]).contains(
                sep,
            ) by {
                if i < parts.len() - 1 {
                    assert(parts[i] == prev[i]);
                } else {
                    let w = prev.last();
                    assert forall|k: int| 0 <= k < parts[i].len() implies parts[i][k] != sep by {
                        if k < w.len() {
                            assert(w.contains(w[k]));
                        }
                    }
                }
            }
        }
    }
}

/// Text without the separator extends the last part.
proof fn lemma_split_extend(s: Seq<char>, t: Seq<char>, sep: char)
    requires
        !t.contains(sep),
    ensures
        split(s + t, sep) == split(s, sep).drop_last().push(split(s, sep).last() + t),
    decreases t.len(),
{
    lemma_split_join(s, sep);
    let parts = split(s, sep);
    if t.len() == 0 {
        assert(s + t =~= s);
        assert(parts.last() + t =~= parts.last());
        assert(parts.drop_last().push(parts.last()) =~= parts);
    } else {
        let u = t.drop_last();
        assert(t.contains(t.last()));
        assert forall|i: int| 0 <= i < u.len() implies u[i] != sep by {
            assert(t.contains(t[i]));
        }
        lemma_split_extend(s, u, sep);
        assert((s + t).drop_last() =~= s + u);
        let prev = split(s + u, sep);
        assert(prev.drop_last() =~= parts.drop_last());
        assert((parts.last() + u).push(t.last()) =~= parts.last() + t);
    }
}

/// A separator and text without it add one part.
pub proof fn lemma_split_append(s: Seq<char>, t: Seq<char>, sep: char)
    requires
        !t.contains(sep),
    ensures
        split(s.push(sep) + t, sep) == split(s, sep).push(t),
{
    let head = s.push(sep);
    assert(head.drop_last() =~= s);
    assert(split(head, sep) == split(s, sep).push(Seq::<char>::empty()));
    lemma_split_extend(head, t, sep);
    assert(Seq::<char>::empty() + t =~= t);
    assert(split(s, sep).push(Seq::<char>::empty()).drop_last() =~= split(s, sep));
}

/// Joining loses nothing: text joined from parts without the separator splits
/// into those parts again.
pub proof fn lemma_join_split(parts: Seq<Seq<char>>, sep: char)
    requires
        parts.len() > 0,
        forall|i: int| 0 <= i < parts.len() ==> !(#[trigger] parts[i]).contains(sep),
    ensures
        split(join(parts, seq![sep]), sep) == parts,
    decreases parts.len(),
{
    let empty = Seq::<char>::empty();
    if parts.len() == 1 {
        lemma_split_extend(empty, parts[0], sep);
        assert(empty + parts[0] =~= parts[0]);
        assert(split(empty, sep) =~= seq![empty]);
        assert(split(parts[0], sep) =~= parts);
    } else {
        let init = parts.drop_last();
        assert forall|i: int| 0 <= i < init.len() implies !(#[trigger] init[i]).contains(sep) by {
            assert(init[i] == parts[i]);
        }
        lemma_join_split(init, sep);
        let head = join(init, seq![sep]) + seq![sep];
        assert(head.drop_last() =~= join(init, seq![sep]));
        assert(split(head, sep) =~= init.push(empty));
        assert(parts.last() == parts[parts.len() - 1]);
        lemma_split_extend(head, parts.last(), sep);
        assert(empty + parts.last() =~= parts.last());
        assert(split(join(parts, seq![sep]), sep) =~= parts);
    }
}

/// Joined text starts with its first part.
pub proof fn lemma_join_starts(parts: Seq<Seq<char>>, sep: Seq<char>)
    requires
        parts.len() > 0,
    ensures
        has_prefix(join(parts, sep), parts[0]),
    decreases parts.len(),
{
    if parts.len() > 1 {
        lemma_join_starts(parts.drop_last(), sep);
        assert(join(parts, sep).take(parts[0].len() as int) =~= join(parts.drop_last(), sep).take(
            parts[0].len() as int,
        ));
    } else {
        assert(parts[0].take(parts[0].len() as int) =~= parts[0]);
    }
}

/// The parts of `s` between the occurrences of `sep`.
pub fn split_on(s: &str, sep: char) -> (r: Vec<String>)
    ensures
        views(r@) == split(s@, sep),
{
    let x = chars_of(s);
    let mut done: Vec<String> = Vec::new();
    let mut cur: String = String::new();
    let mut i: usize = 0;
    assert(views(done@).push(cur@) =~= split(s@.take(0), sep));
    while i < x.len()
        invariant
            x@ == s@,
            i <= x@.len(),
            views(done@).push(cur@) == split(s@.take(i as int), sep),
        decreases x@.len() - i,
    {
        let ghost before_parts = views(done@).push(cur@);
        assert(s@.take(i + 1).drop_last() =~= s@.take(i as int));
        assert(before_parts.drop_last() =~= views(done@));
        if x[i] == sep {
            done.push(cur);
            cur = String::new();
            assert(views(done@) =~= before_parts);
        } else {
            cur.push(x[i]);
        }
        i += 1;
    }
    assert(s@.take(i as int) =~= s@);
    let ghost d = done@;
    done.push(cur);
    assert(views(done@) =~= views(d).push(cur@));
    done
}

/// A terminated line without the carriage return of a `\r\n` ending.
fn without_return(part: &str) -> (r: &str)
    ensures
        r@ == line_body(part@),
{
    let x = chars_of(part);
    let n: usize = x.len();
    if n > 0 && x[n - 1] == '\r' {
        let r = part.substring_char(0, n - 1);
        assert(r@ =~= part@.drop_last());
        r
    } else {
        part
    }
}

/// The lines of `s`.
pub fn lines_of(s: &str) -> (r: Vec<String>)
    ensures
        views(r@) == lines(s@),
{
    let parts = split_on(s, '\n');
    let ghost p = split(s@, '\n');
    proof {
        lemma_split_join(s@, '\n');
        assert(views(parts@).len() == p.len());
    }
    let last: usize = parts.len() - 1;
    let mut r: Vec<String> = Vec::new();
    let mut i: usize = 0;
    while i < last
        invariant
            views(parts@) == p,
            last + 1 == parts@.len(),
            i <= last,
            views(r@) == line_bodies(p.take(i as int)),
        decreases last - i,
    {
        let ghost d = r@;
        assert(p[i as int] == parts@[i as int]@);
        r.push(String::from_str(without_return(parts[i].as_str())));
        assert(views(r@) =~= views(d).push(line_body(p[i as int])));
        assert(views(r@) =~= line_bodies(p.take(i + 1)));
        i += 1;
    }
    assert(p.drop_last() =~= p.take(last as int));
    assert(p.last() == parts@[last as int]@);
    if !parts[last].as_str().is_empty() {
        let ghost d = r@;
        r.push(parts[last].clone());
        assert(views(r@) =~= views(d).push(p.last()));
    }
    r
}

/// `parts` one after the other, with `sep` between neighbours.
pub fn join_with(parts: &Vec<String>, sep: &str) -> (r: String)
    ensures
        r@ == join(views(parts@), sep@),
{
    let mut r = String::new();
    let mut i: usize = 0;
    let ghost p = views(parts@);
    while i < parts.len()
        invariant
            p == views(parts@),
            i <= parts@.len(),
            r@ == join(p.take(i as int), sep@),
        decreases parts@.len() - i,
    {
        assert(p.take(i + 1).drop_last() =~= p.take(i as int));
        assert(p.take(i + 1).last() == parts@[i as int]@);
        if i > 0 {
            r.append(sep);
        }
        r.append(parts[i].as_str());
        assert(r@ =~= join(p.take(i + 1), sep@));
        i += 1;
    }
    assert(p.take(i as int) =~= p);
    r
}

// ---- numbers ----------------------------------------------------------------

/// The decimal digit of a number below ten.
pub open spec fn digit_char(d: nat) -> char {
    (('0' as u32) + d) as char
}

/// `n` in decimal, without leading zeros.
pub open spec fn decimal(n: nat) -> Seq<char>
    decreases n,
{
    if n < 10 {
        seq![digit_char(n)]
    } else {
        decimal(n / 10).push(digit_char(n % 10))
    }
}

/// The number that a run of digits writes.
pub open spec fn digits_value(s: Seq<char>) -> nat
    decreases s.len(),
{
    if s.len() == 0 {
        0
    } else {
        (digits_value(s.drop_last()) * 10 + (s.last() as u32 - '0' as u32)) as nat
    }
}

/// A non-empty run of decimal digits.
pub open spec fn all_digits(s: Seq<char>) -> bool {
    s.len() > 0 && forall|i: int| 0 <= i < s.len() ==> digit(#[trigger] s[i])
}

/// The number that `s` writes: a sign (`-` only where `signed`), then digits.
pub open spec fn number(s: Seq<char>, signed: bool) -> Option<int> {
    if s.len() > 0 && s[0] == '+' && all_digits(s.skip(1)) {
        Some(digits_value(s.skip(1)) as int)
    } else if signed && s.len() > 0 && s[0] == '-' && all_digits(s.skip(1)) {
        Some(-(digits_value(s.skip(1)) as int))
    } else if all_digits(s) {
        Some(digits_value(s) as int)
    } else {
        None
    }
}

/// `s` read as a `u32`: an optional `+`, then digits, within range.
pub open spec fn read_u32(s: Seq<char>) -> Option<u32> {
    match number(s, false) {
        Some(n) => if n <= u32::MAX {
            Some(n as u32)
        } else {
            None
        },
        None => None,
    }
}

/// `s` read as an `i32`: an optional sign, then digits, within range.
pub open spec fn read_i32(s: Seq<char>) -> Option<i32> {
    match number(s, true) {
        Some(n) => if i32::MIN <= n <= i32::MAX {
            Some(n as i32)
        } else {
            None
        },
        None => None,
    }
}

/// Writing a number in decimal and reading the digits gives the number back.
pub proof fn lemma_decimal_value(n: nat)
    ensures
        all_digits(decimal(n)),
        digits_value(decimal(n)) == n,
    decreases n,
{
    if n < 10 {
        assert(decimal(n).drop_last() =~= Seq::<char>::empty());
        assert(digits_value(decimal(n).drop_last()) == 0);
    } else {
        lemma_decimal_value(n / 10);
        assert(decimal(n).drop_last() =~= decimal(n / 10));
    }
}

/// Appends `n` in decimal to `out`.
pub fn push_decimal(out: &mut String, n: u64)
    ensures
        final(out)@ == old(out)@ + decimal(n as nat),
    decreases n,
{
    if n >= 10 {
        push_decimal(out, n / 10);
    }
    let d: u8 = 48 + (n % 10) as u8;
    out.push(d as char);
    assert(out@ =~= old(out)@ + decimal(n as nat));
}

/// Reads the digits of `x` from `from` on, up to the bound `max`.
fn digits_from(x: &Vec<char>, from: usize, max: u64) -> (r: Option<u64>)
    requires
        from <= x@.len(),
        max <= 0xffff_ffff,
    ensures
        r is Some <==> all_digits(x@.skip(from as int)) && digits_value(x@.skip(from as int))
            <= max,
        r matches Some(n) ==> n == digits_value(x@.skip(from as int)),
{
    if from == x.len() {
        return None;
    }
    let ghost t = x@.skip(from as int);
    let mut acc: u64 = 0;
    let mut over: bool = false;
    let mut i: usize = from;
    while i < x.len()
        invariant
            t == x@.skip(from as int),
            from <= i <= x@.len(),
            max <= 0xffff_ffff,
            acc <= max,
            forall|j: int| 0 <= j < i - from ==> digit(#[trigger] t[j]),
            !over ==> acc == digits_value(t.take(i - from)),
            over ==> digits_value(t.take(i - from)) > max,
        decreases x@.len() - i,
    {
        let c: char = x[i];
        assert(t[i - from] == c);
        if c < '0' || c > '9' {
            return None;
        }
        let ghost next = t.take(i + 1 - from);
        assert(next.drop_last() =~= t.take(i - from));
        let d: u64 = (c as u32 - '0' as u32) as u64;
        if !over {
            let grown: u64 = acc * 10 + d;
            if grown > max {
                over = true;
            } else {
                acc = grown;
            }
        }
        i += 1;
    }
    assert(t.take(i - from) =~= t);
    if over {
        None
    } else {
        Some(acc)
    }
}

/// `s` read as a `u32`.
pub fn parse_u32(s: &str) -> (r: Option<u32>)
    ensures
        r == read_u32(s@),
{
    let x = chars_of(s);
    assert(x@.skip(0) =~= x@);
    let from: usize = if x.len() > 0 && x[0] == '+' {
        1
    } else {
        0
    };
    proof {
        if x@.len() > 0 && x@[0] == '+' {
            assert(!digit(x@[0]));
        }
    }
    match digits_from(&x, from, 0xffff_ffff) {
        Some(n) => Some(n as u32),
        None => None,
    }
}

/// `s` read as an `i32`.
pub fn parse_i32(s: &str) -> (r: Option<i32>)
    ensures
        r == read_i32(s@),
{
    let x = chars_of(s);
    assert(x@.skip(0) =~= x@);
    if x.len() > 0 && x[0] == '-' {
        assert(!digit(x@[0]));
        return match digits_from(&x, 1, 0x8000_0000) {
            Some(n) => Some((-(n as i64)) as i32),
            None => None,
        };
    }
    let from: usize = if x.len() > 0 && x[0] == '+' {
        1
    } else {
        0
    };
    proof {
        if x@.len() > 0 && x@[0] == '+' {
            assert(!digit(x@[0]));
        }
    }
    match digits_from(&x, from, 0x7fff_ffff) {
        Some(n) => Some(n as i32),
        None => None,
    }
}

// ---- laws -------------------------------------------------------------------

/// A text starts with a prefix exactly when it is the prefix and something more.
pub proof fn law_prefix(s: Seq<char>, p: Seq<char>)
    ensures
        has_prefix(s, p) <==> exists|rest: Seq<char>| s == #[trigger] (p + rest),
        forall|rest: Seq<char>| has_prefix(#[trigger] (p + rest), p),
{
    assert forall|rest: Seq<char>| has_prefix(#[trigger] (p + rest), p) by {
        assert((p + rest).take(p.len() as int) =~= p);
    }
    if has_prefix(s, p) {
        let rest = s.skip(p.len() as int);
        assert(p + rest =~= s);
    }
}

/// A text is cut at the first occurrence of a pattern: what stands before it, where
/// the pattern does not occur earlier, and what stands after it.
pub proof fn law_cut_at_first(a: Seq<char>, p: Seq<char>, b: Seq<char>)
    requires
        forall|i: int|
            0 <= i < a.len() ==> #[trigger] (a + p + b).subrange(i, i + p.len()) != p,
    ensures
        cut(a + p + b, p) == Some((a, b)),
        before(a + p + b, p) == a,
{
    let s = a + p + b;
    let n = a.len() as int;
    lemma_find_least(s, p, 0);
    assert(s.subrange(n, n + p.len()) =~= p);
    assert(occurs_at(s, p, n));
    let i = find_from(s, p, 0)->0;
    if i < n {
        assert(s.subrange(i, i + p.len()) != p);
    }
    assert(s.take(n) =~= a);
    assert(s.skip(n + p.len()) =~= b);
}

/// A text in which a pattern does not occur is not cut.
pub proof fn law_no_cut(s: Seq<char>, p: Seq<char>)
    requires
        forall|i: int|
            0 <= i && i + p.len() <= s.len() ==> #[trigger] s.subrange(i, i + p.len()) != p,
    ensures
        cut(s, p) is None,
        before(s, p) == s,
{
    lemma_find_least(s, p, 0);
    if find_from(s, p, 0) is Some {
        let i = find_from(s, p, 0)->0;
        assert(s.subrange(i, i + p.len()) == p);
    }
}

/// Trimming takes all the white space off both ends and nothing else.
pub proof fn law_trim(a: Seq<char>, s: Seq<char>, b: Seq<char>)
    requires
        forall|i: int| 0 <= i < a.len() ==> white(#[trigger] a[i]),
        forall|i: int| 0 <= i < b.len() ==> white(#[trigger] b[i]),
        s.len() > 0 ==> !white(s[0]) && !white(s.last()),
    ensures
        trimmed(a + s + b) == s,
        s.len() > 0 ==> skip_white(a + s + b) == s + b,
        drop_white(s + b) == s,
{
    lemma_drop_trailing(s, b);
    if s.len() > 0 {
        assert((s + b)[0] == s[0]);
        assert(a + s + b =~= a + (s + b));
        lemma_skip_leading(a, s + b);
    } else {
        let all = a + s + b;
        assert forall|i: int| 0 <= i < all.len() implies white(#[trigger] all[i]) by {
            if i >= a.len() {
                assert(all[i] == b[i - a.len()]);
            }
        }
        lemma_skip_leading(all, Seq::empty());
        assert(all + Seq::<char>::empty() =~= all);
    }
}

/// Leading white space is skipped.
pub proof fn lemma_skip_leading(a: Seq<char>, s: Seq<char>)
    requires
        forall|i: int| 0 <= i < a.len() ==> white(#[trigger] a[i]),
        s.len() > 0 ==> !white(s[0]),
    ensures
        skip_white(a + s) == s,
    decreases a.len(),
{
    if a.len() == 0 {
        assert(a + s =~= s);
    } else {
        let tail = a.skip(1);
        assert forall|i: int| 0 <= i < tail.len() implies white(#[trigger] tail[i]) by {
            assert(tail[i] == a[i + 1]);
        }
        lemma_skip_leading(tail, s);
        assert((a + s)[0] == a[0]);
        assert((a + s).skip(1) =~= tail + s);
    }
}

proof fn lemma_drop_trailing(s: Seq<char>, b: Seq<char>)
    requires
        forall|i: int| 0 <= i < b.len() ==> white(#[trigger] b[i]),
        s.len() > 0 ==> !white(s.last()),
    ensures
        drop_white(s + b) == s,
    decreases b.len(),
{
    if b.len() == 0 {
        assert(s + b =~= s);
    } else {
        let init = b.drop_last();
        assert forall|i: int| 0 <= i < init.len() implies white(#[trigger] init[i]) by {
            assert(init[i] == b[i]);
        }
        lemma_drop_trailing(s, init);
        assert((s + b).last() == b[b.len() - 1]);
        assert((s + b).drop_last() =~= s + init);
    }
}

/// Every `c` goes from the end, and nothing else.
pub proof fn law_drop_all_last(s: Seq<char>, tail: Seq<char>, c: char)
    requires
        s.len() > 0 ==> s.last() != c,
        forall|i: int| 0 <= i < tail.len() ==> #[trigger] tail[i] == c,
    ensures
        drop_all_last(s + tail, c) == s,
    decreases tail.len(),
{
    if tail.len() == 0 {
        assert(s + tail =~= s);
    } else {
        let init = tail.drop_last();
        assert forall|i: int| 0 <= i < init.len() implies #[trigger] init[i] == c by {
            assert(init[i] == tail[i]);
        }
        law_drop_all_last(s, init, c);
        assert((s + tail).last() == tail[tail.len() - 1]);
        assert((s + tail).drop_last() =~= s + init);
    }
}

/// The lines of a text grow one by one: a line that is ended by `\n` or `\r\n` adds
/// what stands before the ending, and a last one without an ending adds itself.
pub proof fn law_lines(s: Seq<char>, line: Seq<char>)
    requires
        s.len() == 0 || s.last() == '\n',
        !line.contains('\n'),
    ensures
        lines(Seq::empty()) == Seq::<Seq<char>>::empty(),
        line.len() == 0 || line.last() != '\r' ==> lines(s + line + seq!['\n']) == lines(s).push(line),
        lines(s + line + seq!['\r', '\n']) == lines(s).push(line),
        line.len() > 0 ==> lines(s + line) == lines(s).push(line),
{
    let empty = Seq::<char>::empty();
    assert(split(empty, '\n') =~= seq![empty]);
    assert(seq![empty].drop_last() =~= Seq::<Seq<char>>::empty());
    assert(line_bodies(Seq::<Seq<char>>::empty()) =~= Seq::<Seq<char>>::empty());
    lemma_complete_split(s);
    lemma_ended_line(s, line);
    let cr = line.push('\r');
    assert(!cr.contains('\n')) by {
        assert forall|i: int| 0 <= i < cr.len() implies cr[i] != '\n' by {
            if i < line.len() {
                assert(line.contains(line[i]));
            }
        }
    }
    lemma_ended_line(s, cr);
    assert(cr.drop_last() =~= line);
    assert(s + line + seq!['\r', '\n'] =~= s + cr + seq!['\n']);
    if line.len() > 0 {
        lemma_split_extend(s, line, '\n');
        let parts = split(s, '\n');
        assert(empty + line =~= line);
        assert(split(s + line, '\n').drop_last() =~= parts.drop_last());
    }
}

proof fn lemma_complete_split(s: Seq<char>)
    requires
        s.len() == 0 || s.last() == '\n',
    ensures
        split(s, '\n').len() > 0,
        split(s, '\n').last() == Seq::<char>::empty(),
        lines(s) == line_bodies(split(s, '\n').drop_last()),
{
    lemma_split_join(s, '\n');
}

proof fn lemma_ended_line(s: Seq<char>, line: Seq<char>)
    requires
        s.len() == 0 || s.last() == '\n',
        !line.contains('\n'),
    ensures
        lines(s + line + seq!['\n']) == lines(s).push(line_body(line)),
{
    let empty = Seq::<char>::empty();
    lemma_complete_split(s);
    lemma_split_extend(s, line, '\n');
    let parts = split(s, '\n');
    assert(empty + line =~= line);
    let all = s + line + seq!['\n'];
    assert(all.drop_last() =~= s + line);
    let now = split(all, '\n');
    assert(now == parts.drop_last().push(line).push(empty));
    assert(now.drop_last() =~= parts.drop_last().push(line));
    assert(line_bodies(now.drop_last()) =~= line_bodies(parts.drop_last()).push(line_body(line)));
}

/// A number is written in exactly one way: the digits that give it, without a
/// leading zero.
pub proof fn law_decimal_is_the_only_way(n: nat, s: Seq<char>)
    requires
        all_digits(s),
        digits_value(s) == n,
        s.len() > 1 ==> s[0] != '0',
    ensures
        s == decimal(n),
    decreases s.len(),
{
    let init = s.drop_last();
    let d = s.last();
    assert(digit(s[s.len() - 1]));
    assert(s =~= init.push(d));
    if s.len() == 1 {
        assert(init =~= Seq::<char>::empty());
        assert(digits_value(init) == 0);
        assert(decimal(n) =~= s);
    } else {
        assert forall|i: int| 0 <= i < init.len() implies digit(#[trigger] init[i]) by {
            assert(init[i] == s[i]);
        }
        let m = digits_value(init);
        assert(init[0] == s[0]);
        law_decimal_is_the_only_way(m, init);
        lemma_positive(init);
        assert(n == m * 10 + (d as u32 - '0' as u32));
        assert(n / 10 == m && n % 10 == (d as u32 - '0' as u32));
    }
}

proof fn lemma_positive(s: Seq<char>)
    requires
        all_digits(s),
        s[0] != '0',
    ensures
        digits_value(s) > 0,
    decreases s.len(),
{
    let init = s.drop_last();
    assert(digit(s[s.len() - 1]));
    if s.len() == 1 {
        assert(digits_value(init) == 0);
    } else {
        assert forall|i: int| 0 <= i < init.len() implies digit(#[trigger] init[i]) by {
            assert(init[i] == s[i]);
        }
        assert(init[0] == s[0]);
        lemma_positive(init);
    }
}

/// A number that is written in decimal, with a `+` or without, reads as that number
/// if it fits; with a `-` an `i32` reads as its negative.
pub proof fn law_numbers_read_back(n: nat)
    ensures
        n <= u32::MAX ==> read_u32(decimal(n)) == Some(n as u32) && read_u32(seq!['+'] + decimal(n))
            == Some(n as u32),
        n > u32::MAX ==> read_u32(decimal(n)) is None && read_u32(seq!['+'] + decimal(n)) is None,
        n <= i32::MAX ==> read_i32(decimal(n)) == Some(n as i32) && read_i32(seq!['+'] + decimal(n))
            == Some(n as i32),
        n > i32::MAX ==> read_i32(decimal(n)) is None && read_i32(seq!['+'] + decimal(n)) is None,
        n <= i32::MAX as nat + 1 ==> read_i32(seq!['-'] + decimal(n)) == Some((-(n as int)) as i32),
        n > i32::MAX as nat + 1 ==> read_i32(seq!['-'] + decimal(n)) is None,
        read_u32(seq!['-'] + decimal(n)) is None,
{
    lemma_decimal_value(n);
    let d = decimal(n);
    assert(digit(d[0]));
    let (plus, minus) = (seq!['+'] + d, seq!['-'] + d);
    assert(plus.skip(1) =~= d && minus.skip(1) =~= d);
    assert(plus[0] == '+' && minus[0] == '-');
    assert(!digit(minus[0]) && !digit(plus[0]));
}

/// Nothing but digits behind an optional sign reads as a number.
pub proof fn law_only_digits_read(s: Seq<char>)
    ensures
        read_u32(s) matches Some(n) ==> exists|d: Seq<char>|
            #![trigger all_digits(d)]
            all_digits(d) && digits_value(d) == n && (s == d || s == seq!['+'] + d),
        read_i32(s) matches Some(n) ==> exists|d: Seq<char>|
            #![trigger all_digits(d)]
            all_digits(d) && (digits_value(d) == n && (s == d || s == seq!['+'] + d) || -digits_value(
                d,
            ) == n && s == seq!['-'] + d),
{
    if s.len() > 0 {
        let d = s.skip(1);
        if s[0] == '+' {
            assert(s =~= seq!['+'] + d);
        }
        if s[0] == '-' {
            assert(s =~= seq!['-'] + d);
        }
        assert(all_digits(s) || !all_digits(s));
        assert(all_digits(d) || !all_digits(d));
    }
}

/// Joining puts the separator between neighbours, and only there.
pub proof fn law_join_grows(parts: Seq<Seq<char>>, last: Seq<char>, sep: Seq<char>)
    ensures
        join(Seq::empty(), sep) == Seq::<char>::empty(),
        join(seq![last], sep) == last,
        parts.len() > 0 ==> join(parts.push(last), sep) == join(parts, sep) + sep + last,
{
    assert(parts.push(last).drop_last() =~= parts);
}

/// A further digit counts ten times what is before it and itself.
pub proof fn law_digits_value_grows(s: Seq<char>, c: char)
    requires
        '0' <= c <= '9',
    ensures
        digits_value(Seq::empty()) == 0,
        digits_value(s.push(c)) == digits_value(s) * 10 + (c as u32 - 48),
{
    assert(s.push(c).drop_last() =~= s);
}

/// The views of strings are what they hold, one by one.
pub proof fn law_views(v: Seq<String>, s: String)
    ensures
        views(v).len() == v.len(),
        forall|i: int| 0 <= i < v.len() ==> #[trigger] views(v)[i] == v[i]@,
        opt(Some(s)) == Some(s@),
        opt(None) is None,
{
}

} // verus!
