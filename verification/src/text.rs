//! Text as sequences of characters: searching, replacing, joining, trimming,
//! decimal numbers and the order of strings.

use vstd::prelude::*;

verus! {

/// `String::push` appends one character at the end.
pub assume_specification[ String::push ](s: &mut String, c: char)
    ensures
        final(s)@ == old(s)@.push(c),
;

/// Whether `pat` stands in `s` at position `i`.
pub open spec fn occurs_at(s: Seq<char>, pat: Seq<char>, i: int) -> bool {
    0 <= i && i + pat.len() <= s.len() && s.subrange(i, i + pat.len()) == pat
}

/// Whether `pat` stands somewhere in `s`.
pub open spec fn contains(s: Seq<char>, pat: Seq<char>) -> bool {
    exists|i: int| #[trigger] occurs_at(s, pat, i)
}

/// Number of matches of `pat` in `s`, taken from the left and not overlapping.
pub open spec fn count(s: Seq<char>, pat: Seq<char>) -> nat
    decreases s.len(),
{
    if pat.len() == 0 || s.len() < pat.len() {
        0
    } else if occurs_at(s, pat, 0) {
        1 + count(s.skip(pat.len() as int), pat)
    } else {
        count(s.skip(1), pat)
    }
}

/// `s` with each match of `pat`, taken from the left and not overlapping,
/// exchanged for `to`.
pub open spec fn replaced(s: Seq<char>, pat: Seq<char>, to: Seq<char>) -> Seq<char>
    decreases s.len(),
{
    if pat.len() == 0 || s.len() < pat.len() {
        s
    } else if occurs_at(s, pat, 0) {
        to + replaced(s.skip(pat.len() as int), pat, to)
    } else {
        seq![s[0]] + replaced(s.skip(1), pat, to)
    }
}

/// The parts one after the other, with `sep` between neighbours.
pub open spec fn joined(parts: Seq<Seq<char>>, sep: Seq<char>) -> Seq<char>
    decreases parts.len(),
{
    if parts.len() == 0 {
        seq![]
    } else if parts.len() == 1 {
        parts[0]
    } else {
        joined(parts.drop_last(), sep) + sep + parts.last()
    }
}

/// Views of the strings of `v`, in order.
pub open spec fn views(v: Seq<String>) -> Seq<Seq<char>> {
    v.map_values(|s: String| s@)
}

/// Characters with the Unicode property `White_Space`.
pub open spec fn is_space(c: char) -> bool {
    ||| '\u{9}' <= c <= '\u{d}'
    ||| c == ' '
    ||| c == '\u{85}'
    ||| c == '\u{a0}'
    ||| c == '\u{1680}'
    ||| '\u{2000}' <= c <= '\u{200a}'
    ||| c == '\u{2028}'
    ||| c == '\u{2029}'
    ||| c == '\u{202f}'
    ||| c == '\u{205f}'
    ||| c == '\u{3000}'
}

/// `s` without leading white space.
pub open spec fn trimmed_start(s: Seq<char>) -> Seq<char>
    decreases s.len(),
{
    if s.len() > 0 && is_space(s[0]) {
        trimmed_start(s.skip(1))
    } else {
        s
    }
}

/// `s` without trailing white space.
pub open spec fn trimmed_end(s: Seq<char>) -> Seq<char>
    decreases s.len(),
{
    if s.len() > 0 && is_space(s.last()) {
        trimmed_end(s.drop_last())
    } else {
        s
    }
}

/// `s` without leading and trailing white space.
pub open spec fn trimmed(s: Seq<char>) -> Seq<char> {
    trimmed_end(trimmed_start(s))
}

/// The digit that stands for `d`.
pub open spec fn digit(d: nat) -> char {
    (48 + d % 10) as char
}

/// `n` in decimal, without leading zeros.
pub open spec fn decimal(n: nat) -> Seq<char>
    decreases n,
{
    if n < 10 {
        seq![digit(n)]
    } else {
        decimal(n / 10).push(digit(n % 10))
    }
}

/// Whether `a` comes strictly before `b` in the order of strings: at the first
/// place where they differ, or as a proper prefix.
pub open spec fn precedes(a: Seq<char>, b: Seq<char>) -> bool
    decreases a.len(),
{
    if b.len() == 0 {
        false
    } else if a.len() == 0 {
        true
    } else if a[0] != b[0] {
        a[0] < b[0]
    } else {
        precedes(a.skip(1), b.skip(1))
    }
}

/// Characters of `s`, in order.
pub fn chars_of(s: &str) -> (r: Vec<char>)
    ensures
        r@ == s@,
{
    let mut out: Vec<char> = Vec::new();
    for c in it: s.chars()
        invariant
            it.seq() == s@,
            out@ == s@.take(it.index() as int),
    {
        out.push(c);
    }
    proof {
        assert(s@.take(s@.len() as int) =~= s@);
    }
    out
}

/// The string made of the characters of `v`.
pub fn text_of(v: &Vec<char>) -> (r: String)
    ensures
        r@ == v@,
{
    let mut out = String::new();
    let mut i: usize = 0;
    while i < v.len()
        invariant
            0 <= i <= v.len(),
            out@ == v@.take(i as int),
        decreases v.len() - i,
    {
        out.push(v[i]);
        i += 1;
    }
    proof {
        assert(v@.take(v@.len() as int) =~= v@);
    }
    out
}

/// Appends `t` to `s`.
pub fn push_text(s: &mut String, t: &str)
    ensures
        final(s)@ == old(s)@ + t@,
{
    s.append(t);
}

/// Whether two strings hold the same characters.
pub fn same(a: &str, b: &str) -> (r: bool)
    ensures
        r == (a@ == b@),
{
    let x: String = a.to_owned();
    let y: String = b.to_owned();
    x == y
}

/// Whether the characters of `pat` stand in `s` at position `i`.
fn stands_at(s: &Vec<char>, pat: &Vec<char>, i: usize) -> (r: bool)
    requires
        i <= s.len(),
    ensures
        r == occurs_at(s@, pat@, i as int),
        r == occurs_at(s@.skip(i as int), pat@, 0),
{
    let ghost rest = s@.skip(i as int);
    if pat.len() > s.len() - i {
        return false;
    }
    let mut k: usize = 0;
    while k < pat.len()
        invariant
            0 <= k <= pat.len(),
            i + pat.len() <= s.len(),
            rest == s@.skip(i as int),
            s@.subrange(i as int, i + k) == pat@.take(k as int),
        decreases pat.len() - k,
    {
        if s[i + k] != pat[k] {
            proof {
                assert(s@.subrange(i as int, i + pat.len())[k as int] != pat@[k as int]);
                assert(rest.subrange(0, pat.len() as int)[k as int] != pat@[k as int]);
            }
            return false;
        }
        k += 1;
        proof {
            assert(s@.subrange(i as int, i + k) =~= pat@.take(k as int));
        }
    }
    proof {
        assert(pat@.take(k as int) =~= pat@);
        assert(rest.subrange(0, pat.len() as int) =~= s@.subrange(i as int, i + pat.len()));
    }
    true
}

/// Whether `s` starts with `pat`.
pub fn starts_with(s: &str, pat: &str) -> (r: bool)
    ensures
        r == occurs_at(s@, pat@, 0),
{
    let text = chars_of(s);
    let sought = chars_of(pat);
    stands_at(&text, &sought, 0)
}

/// Whether `pat` stands somewhere in `s`.
pub fn contains_text(s: &str, pat: &str) -> (r: bool)
    ensures
        r == contains(s@, pat@),
{
    let text = chars_of(s);
    let sought = chars_of(pat);
    let mut i: usize = 0;
    while i <= text.len()
        invariant
            0 <= i <= text.len() + 1,
            text@ == s@,
            sought@ == pat@,
            forall|j: int| 0 <= j < i ==> !#[trigger] occurs_at(s@, pat@, j),
        decreases text.len() + 1 - i,
    {
        if stands_at(&text, &sought, i) {
            return true;
        }
        if i == text.len() {
            proof {
                assert forall|j: int| !#[trigger] occurs_at(s@, pat@, j) by {}
            }
            return false;
        }
        i += 1;
    }
    false
}

/// Number of matches of `pat` in `s`, taken from the left and not overlapping.
pub fn count_text(s: &str, pat: &str) -> (r: usize)
    requires
        pat@.len() > 0,
    ensures
        r == count(s@, pat@),
{
    let text = chars_of(s);
    let sought = chars_of(pat);
    let mut n: usize = 0;
    let mut i: usize = 0;
    proof {
        assert(s@.skip(0) =~= s@);
    }
    while i < text.len()
        invariant
            0 <= i <= text.len(),
            n <= i,
            text@ == s@,
            sought@ == pat@,
            pat@.len() > 0,
            n + count(s@.skip(i as int), pat@) == count(s@, pat@),
        decreases text.len() - i,
    {
        let ghost rest = s@.skip(i as int);
        if stands_at(&text, &sought, i) {
            proof {
                assert(rest.skip(pat@.len() as int) =~= s@.skip(i + pat@.len()));
            }
            n += 1;
            i += sought.len();
        } else {
            proof {
                assert(rest.skip(1) =~= s@.skip(i + 1));
                assert(count(rest.skip(1), pat@) == count(rest, pat@));
            }
            i += 1;
        }
    }
    n
}

/// `s` with each match of `pat` exchanged for `to`.
pub fn replace_text(s: &str, pat: &str, to: &str) -> (r: String)
    requires
        pat@.len() > 0,
    ensures
        r@ == replaced(s@, pat@, to@),
{
    let text = chars_of(s);
    let sought = chars_of(pat);
    let mut out = String::new();
    let mut i: usize = 0;
    proof {
        assert(s@.skip(0) =~= s@);
        assert(out@ + replaced(s@, pat@, to@) =~= replaced(s@, pat@, to@));
    }
    while i < text.len()
        invariant
            0 <= i <= text.len(),
            text@ == s@,
            sought@ == pat@,
            pat@.len() > 0,
            out@ + replaced(s@.skip(i as int), pat@, to@) == replaced(s@, pat@, to@),
        decreases text.len() - i,
    {
        let ghost rest = s@.skip(i as int);
        let ghost before = out@;
        if stands_at(&text, &sought, i) {
            push_text(&mut out, to);
            proof {
                assert(rest.skip(pat@.len() as int) =~= s@.skip(i + pat@.len()));
                let tail = replaced(s@.skip(i + pat@.len()), pat@, to@);
                assert(before + (to@ + tail) =~= out@ + tail);
            }
            i += sought.len();
        } else {
            out.push(text[i]);
            proof {
                assert(rest.skip(1) =~= s@.skip(i + 1));
                let tail = replaced(s@.skip(i + 1), pat@, to@);
                if rest.len() < pat@.len() {
                    assert(rest =~= seq![rest[0]] + rest.skip(1));
                }
                assert(before + (seq![rest[0]] + tail) =~= out@ + tail);
            }
            i += 1;
        }
    }
    proof {
        assert(s@.skip(i as int) =~= seq![]);
        assert(out@ + seq![] =~= out@);
    }
    out
}

/// The strings of `parts` one after the other, with `sep` between neighbours.
pub fn join_texts(parts: &Vec<String>, sep: &str) -> (r: String)
    ensures
        r@ == joined(views(parts@), sep@),
{
    let mut out = String::new();
    let mut i: usize = 0;
    while i < parts.len()
        invariant
            0 <= i <= parts.len(),
            out@ == joined(views(parts@).take(i as int), sep@),
        decreases parts.len() - i,
    {
        if i > 0 {
            push_text(&mut out, sep);
        }
        push_text(&mut out, parts[i].as_str());
        i += 1;
        proof {
            let now = views(parts@).take(i as int);
            assert(now.drop_last() =~= views(parts@).take(i - 1));
            assert(now.last() == parts@[i - 1]@);
            if i == 1 {
                assert(seq![] + parts@[0]@ =~= parts@[0]@);
            }
        }
    }
    proof {
        assert(views(parts@).take(parts@.len() as int) =~= views(parts@));
    }
    out
}

/// Whether `c` has the Unicode property `White_Space`.
fn is_white_space(c: char) -> (r: bool)
    ensures
        r == is_space(c),
{
    ('\u{9}' <= c && c <= '\u{d}') || c == ' ' || c == '\u{85}' || c == '\u{a0}' || c == '\u{1680}'
        || ('\u{2000}' <= c && c <= '\u{200a}') || c == '\u{2028}' || c == '\u{2029}' || c
        == '\u{202f}' || c == '\u{205f}' || c == '\u{3000}'
}

/// `s` without leading and trailing white space.
pub fn trim_text(s: &str) -> (r: String)
    ensures
        r@ == trimmed(s@),
{
    let text = chars_of(s);
    let mut i: usize = 0;
    proof {
        assert(s@.skip(0) =~= s@);
    }
    while i < text.len() && is_white_space(text[i])
        invariant
            0 <= i <= text.len(),
            text@ == s@,
            trimmed_start(s@.skip(i as int)) == trimmed_start(s@),
        decreases text.len() - i,
    {
        proof {
            assert(s@.skip(i as int).skip(1) =~= s@.skip(i + 1));
        }
        i += 1;
    }
    let ghost rest = s@.skip(i as int);
    let mut j: usize = text.len();
    proof {
        assert(trimmed_start(s@) == rest);
        assert(s@.subrange(i as int, j as int) =~= rest);
    }
    while j > i && is_white_space(text[j - 1])
        invariant
            i <= j <= text.len(),
            text@ == s@,
            trimmed_end(s@.subrange(i as int, j as int)) == trimmed_end(rest),
        decreases j - i,
    {
        proof {
            assert(s@.subrange(i as int, j as int).drop_last() =~= s@.subrange(
                i as int,
                j - 1,
            ));
        }
        j -= 1;
    }
    let mut out = String::new();
    let mut k: usize = i;
    while k < j
        invariant
            i <= k <= j <= text.len(),
            text@ == s@,
            out@ == s@.subrange(i as int, k as int),
        decreases j - k,
    {
        out.push(text[k]);
        k += 1;
        proof {
            assert(s@.subrange(i as int, k as int) =~= s@.subrange(i as int, k - 1).push(
                s@[k - 1],
            ));
        }
    }
    out
}

/// The digit that stands for `d`.
fn digit_char(d: u8) -> (r: char)
    requires
        d < 10,
    ensures
        r == digit(d as nat),
{
    (48 + d) as char
}

/// `n` in decimal, without leading zeros.
pub fn decimal_text(n: u64) -> (r: String)
    ensures
        r@ == decimal(n as nat),
    decreases n,
{
    if n < 10 {
        let mut out = String::new();
        out.push(digit_char(n as u8));
        out
    } else {
        let mut out = decimal_text(n / 10);
        out.push(digit_char((n % 10) as u8));
        out
    }
}

/// Whether `a` comes strictly before `b` in the order of strings.
pub fn text_precedes(a: &str, b: &str) -> (r: bool)
    ensures
        r == precedes(a@, b@),
{
    let x = chars_of(a);
    let y = chars_of(b);
    let mut i: usize = 0;
    proof {
        assert(a@.skip(0) =~= a@);
        assert(b@.skip(0) =~= b@);
    }
    while i < x.len() && i < y.len()
        invariant
            0 <= i <= x.len(),
            i <= y.len(),
            x@ == a@,
            y@ == b@,
            precedes(a@.skip(i as int), b@.skip(i as int)) == precedes(a@, b@),
        decreases x.len() - i,
    {
        if x[i] != y[i] {
            return x[i] < y[i];
        }
        proof {
            assert(a@.skip(i as int).skip(1) =~= a@.skip(i + 1));
            assert(b@.skip(i as int).skip(1) =~= b@.skip(i + 1));
        }
        i += 1;
    }
    i < y.len()
}

/// Different numbers have different decimal forms.
pub proof fn decimal_is_injective(a: nat, b: nat)
    requires
        decimal(a) == decimal(b),
    ensures
        a == b,
    decreases a,
{
    if a >= 10 && b >= 10 {
        assert(decimal(a).drop_last() =~= decimal(a / 10));
        assert(decimal(b).drop_last() =~= decimal(b / 10));
        decimal_is_injective(a / 10, b / 10);
        assert(decimal(a).last() == digit(a % 10));
        assert(decimal(b).last() == digit(b % 10));
    } else if a >= 10 {
        lemma_decimal_len(a);
        assert(decimal(b).len() == 1);
    } else if b >= 10 {
        lemma_decimal_len(b);
        assert(decimal(a).len() == 1);
    } else {
        assert(decimal(a)[0] == digit(a));
        assert(decimal(b)[0] == digit(b));
    }
}

proof fn lemma_decimal_len(n: nat)
    ensures
        decimal(n).len() >= if n < 10 { 1nat } else { 2nat },
    decreases n,
{
    if n >= 10 {
        lemma_decimal_len(n / 10);
    }
}

/// The order of strings is strict and total.
pub proof fn precedes_is_a_strict_total_order(a: Seq<char>, b: Seq<char>, c: Seq<char>)
    ensures
        !precedes(a, a),
        precedes(a, b) ==> !precedes(b, a),
        a != b ==> precedes(a, b) || precedes(b, a),
        precedes(a, b) && precedes(b, c) ==> precedes(a, c),
    decreases a.len() + b.len() + c.len(),
{
    if a.len() > 0 && b.len() > 0 {
        if c.len() > 0 {
            precedes_is_a_strict_total_order(a.skip(1), b.skip(1), c.skip(1));
        } else {
            precedes_is_a_strict_total_order(a.skip(1), b.skip(1), c);
        }
        if a[0] == b[0] && a.skip(1) == b.skip(1) {
            assert(a =~= b) by {
                assert forall|i: int| 0 <= i < a.len() implies a[i] == b[i] by {
                    if i > 0 {
                        assert(a.skip(1)[i - 1] == b.skip(1)[i - 1]);
                    }
                }
            }
        }
    } else if a.len() > 0 {
        precedes_is_a_strict_total_order(a.skip(1), b, c);
    } else if b.len() == 0 {
        assert(a =~= b);
    }
}

/// Text in which the pattern does not occur is left as it is.
pub proof fn replacing_an_absent_pattern_changes_nothing(
    s: Seq<char>,
    pat: Seq<char>,
    to: Seq<char>,
)
    requires
        !contains(s, pat),
    ensures
        replaced(s, pat, to) == s,
    decreases s.len(),
{
    if pat.len() > 0 && s.len() >= pat.len() {
        assert(!occurs_at(s, pat, 0));
        let rest = s.skip(1);
        assert forall|i: int| !#[trigger] occurs_at(rest, pat, i) by {
            if occurs_at(rest, pat, i) {
                assert(s.subrange(i + 1, i + 1 + pat.len()) =~= rest.subrange(i, i + pat.len()));
                assert(occurs_at(s, pat, i + 1));
            }
        }
        replacing_an_absent_pattern_changes_nothing(rest, pat, to);
        assert(seq![s[0]] + rest =~= s);
    }
}

/// Text in front of the first match stays, the match is exchanged, and the
/// rest is treated in the same way.
pub proof fn replacing_starts_at_the_first_match(
    before: Seq<char>,
    after: Seq<char>,
    pat: Seq<char>,
    to: Seq<char>,
)
    requires
        pat.len() > 0,
        forall|i: int| 0 <= i < before.len() ==> !#[trigger] occurs_at(before + pat + after, pat, i),
    ensures
        replaced(before + pat + after, pat, to) == before + to + replaced(after, pat, to),
    decreases before.len(),
{
    let s = before + pat + after;
    if before.len() == 0 {
        assert(s.subrange(0, pat.len() as int) =~= pat);
        assert(s.skip(pat.len() as int) =~= after);
        assert(before + to =~= to);
    } else {
        assert(!occurs_at(s, pat, 0));
        let rest = before.skip(1);
        assert(s.skip(1) =~= rest + pat + after);
        assert forall|i: int| 0 <= i < rest.len() implies !#[trigger] occurs_at(
            rest + pat + after,
            pat,
            i,
        ) by {
            if occurs_at(rest + pat + after, pat, i) {
                assert(s.subrange(i + 1, i + 1 + pat.len()) =~= (rest + pat + after).subrange(
                    i,
                    i + pat.len(),
                ));
                assert(occurs_at(s, pat, i + 1));
            }
        }
        replacing_starts_at_the_first_match(rest, after, pat, to);
        let tail = replaced(after, pat, to);
        assert(seq![s[0]] + (rest + to + tail) =~= before + to + tail);
    }
}

/// Whether the characters of `pat` are those of `s` from place `i` on, one by
/// one.
pub open spec fn reads_at(s: Seq<char>, pat: Seq<char>, i: int) -> bool {
    &&& 0 <= i <= s.len() - pat.len()
    &&& forall|k: int| 0 <= k < pat.len() ==> #[trigger] pat[k] == s[i + k]
}

/// A pattern occurs where its characters stand, and a text contains it if it
/// does so at some place.
pub proof fn patterns_occur_where_they_can_be_read(s: Seq<char>, pat: Seq<char>)
    ensures
        forall|i: int| #[trigger] occurs_at(s, pat, i) <==> reads_at(s, pat, i),
        contains(s, pat) <==> exists|i: int| #[trigger] reads_at(s, pat, i),
{
    assert forall|i: int| #[trigger] occurs_at(s, pat, i) <==> reads_at(s, pat, i) by {
        if occurs_at(s, pat, i) {
            assert forall|k: int| 0 <= k < pat.len() implies #[trigger] pat[k] == s[i + k] by {
                assert(s.subrange(i, i + pat.len())[k] == s[i + k]);
            }
        }
        if reads_at(s, pat, i) {
            assert(s.subrange(i, i + pat.len()) =~= pat);
        }
    }
    if contains(s, pat) {
        let i = choose|i: int| #[trigger] occurs_at(s, pat, i);
        assert(reads_at(s, pat, i));
    }
    if exists|i: int| #[trigger] reads_at(s, pat, i) {
        let i = choose|i: int| #[trigger] reads_at(s, pat, i);
        assert(occurs_at(s, pat, i));
    }
}

/// Number of places before `end` at which `pat` can be read in `s`.
pub open spec fn places(s: Seq<char>, pat: Seq<char>, end: int) -> nat
    decreases end,
{
    if end <= 0 {
        0
    } else {
        places(s, pat, end - 1) + if reads_at(s, pat, end - 1) {
            1nat
        } else {
            0nat
        }
    }
}

proof fn lemma_no_places(s: Seq<char>, pat: Seq<char>, from: int, end: int)
    requires
        0 <= from <= end,
        forall|i: int| from <= i < end ==> !#[trigger] reads_at(s, pat, i),
    ensures
        places(s, pat, end) == places(s, pat, from),
    decreases end,
{
    if from < end {
        lemma_no_places(s, pat, from, end - 1);
    }
}

proof fn lemma_count_from(s: Seq<char>, pat: Seq<char>, from: int)
    requires
        0 <= from <= s.len(),
        pat.len() > 0,
        forall|k: int| 1 <= k < pat.len() ==> #[trigger] pat[k] != pat[0],
    ensures
        places(s, pat, from) + count(s.skip(from), pat) == places(s, pat, s.len() as int),
    decreases s.len() - from,
{
    let rest = s.skip(from);
    let n = pat.len() as int;
    patterns_occur_where_they_can_be_read(s, pat);
    patterns_occur_where_they_can_be_read(rest, pat);
    if rest.len() < n {
        lemma_no_places(s, pat, from, s.len() as int);
    } else {
        assert(reads_at(rest, pat, 0) == reads_at(s, pat, from)) by {
            assert(forall|k: int| 0 <= k < n ==> #[trigger] rest[k] == s[from + k]);
            if reads_at(rest, pat, 0) {
                assert forall|k: int| 0 <= k < n implies #[trigger] pat[k] == s[from + k] by {
                    assert(pat[k] == rest[0 + k]);
                }
            }
            if reads_at(s, pat, from) {
                assert forall|k: int| 0 <= k < n implies #[trigger] pat[k] == rest[0 + k] by {
                    assert(rest[k] == s[from + k]);
                }
            }
        }
        assert(occurs_at(rest, pat, 0) == reads_at(rest, pat, 0));
        if reads_at(s, pat, from) {
            assert forall|i: int| from + 1 <= i < from + n implies !#[trigger] reads_at(
                s,
                pat,
                i,
            ) by {
                let k = i - from;
                assert(pat[k] == s[from + k]);
                if reads_at(s, pat, i) {
                    assert(pat[0] == s[i + 0]);
                }
            }
            lemma_no_places(s, pat, from + 1, from + n);
            assert(rest.skip(n) =~= s.skip(from + n));
            lemma_count_from(s, pat, from + n);
        } else {
            assert(rest.skip(1) =~= s.skip(from + 1));
            lemma_count_from(s, pat, from + 1);
        }
    }
}

/// Of a pattern whose first character stands only at its start, the count is
/// the number of places at which it can be read.
pub proof fn matches_are_counted_by_their_places(s: Seq<char>, pat: Seq<char>)
    requires
        pat.len() > 0,
        forall|k: int| 1 <= k < pat.len() ==> #[trigger] pat[k] != pat[0],
    ensures
        count(s, pat) == places(s, pat, s.len() as int),
{
    lemma_count_from(s, pat, 0);
    assert(s.skip(0) =~= s);
}

/// Whether `a` and `b` agree before place `k`, and there `a` has ended or has
/// the smaller character.
pub open spec fn parts_at(a: Seq<char>, b: Seq<char>, k: int) -> bool {
    &&& 0 <= k <= a.len()
    &&& k < b.len()
    &&& forall|j: int| 0 <= j < k ==> #[trigger] a[j] == b[j]
    &&& k == a.len() || a[k] < b[k]
}

/// A text comes before another if where they part it has ended or has the
/// smaller character.
pub proof fn texts_are_ordered_by_where_they_part(a: Seq<char>, b: Seq<char>)
    ensures
        precedes(a, b) <==> exists|k: int| #[trigger] parts_at(a, b, k),
    decreases a.len(),
{
    if a.len() > 0 && b.len() > 0 && a[0] == b[0] {
        let (s, t) = (a.skip(1), b.skip(1));
        texts_are_ordered_by_where_they_part(s, t);
        if precedes(s, t) {
            let k = choose|k: int| #[trigger] parts_at(s, t, k);
            assert forall|j: int| 0 <= j < k + 1 implies #[trigger] a[j] == b[j] by {
                if j > 0 {
                    assert(s[j - 1] == t[j - 1]);
                }
            }
            assert(parts_at(a, b, k + 1));
        }
        if exists|k: int| #[trigger] parts_at(a, b, k) {
            let k = choose|k: int| #[trigger] parts_at(a, b, k);
            assert forall|j: int| 0 <= j < k - 1 implies #[trigger] s[j] == t[j] by {
                assert(a[j + 1] == b[j + 1]);
            }
            assert(parts_at(s, t, k - 1));
        }
    } else {
        if precedes(a, b) {
            assert(parts_at(a, b, 0));
        }
        if exists|k: int| #[trigger] parts_at(a, b, k) {
            let k = choose|k: int| #[trigger] parts_at(a, b, k);
            if k > 0 {
                assert(a[0] == b[0]);
            }
        }
    }
}

/// Whether a text is all white space.
pub open spec fn blank(s: Seq<char>) -> bool {
    forall|i: int| 0 <= i < s.len() ==> is_space(#[trigger] s[i])
}

proof fn lemma_trimmed_start(s: Seq<char>) -> (head: Seq<char>)
    ensures
        s == head + trimmed_start(s),
        blank(head),
        trimmed_start(s).len() > 0 ==> !is_space(trimmed_start(s)[0]),
    decreases s.len(),
{
    if s.len() > 0 && is_space(s[0]) {
        let head = lemma_trimmed_start(s.skip(1));
        let all = seq![s[0]] + head;
        assert(s =~= seq![s[0]] + s.skip(1));
        assert(seq![s[0]] + (head + trimmed_start(s.skip(1))) =~= all + trimmed_start(s));
        all
    } else {
        let none = Seq::<char>::empty();
        assert(s =~= none + trimmed_start(s));
        none
    }
}

proof fn lemma_trimmed_end(s: Seq<char>) -> (tail: Seq<char>)
    ensures
        s == trimmed_end(s) + tail,
        blank(tail),
        trimmed_end(s).len() > 0 ==> !is_space(trimmed_end(s).last()),
    decreases s.len(),
{
    if s.len() > 0 && is_space(s.last()) {
        let tail = lemma_trimmed_end(s.drop_last());
        let all = tail.push(s.last());
        assert(s =~= s.drop_last().push(s.last()));
        assert((trimmed_end(s.drop_last()) + tail).push(s.last()) =~= trimmed_end(s) + all);
        all
    } else {
        let none = Seq::<char>::empty();
        assert(s =~= trimmed_end(s) + none);
        none
    }
}

/// Trimming takes white space off both ends of a text, all of it and nothing
/// else.
pub proof fn trimming_takes_white_space_off_both_ends(s: Seq<char>) -> (ends: (
    Seq<char>,
    Seq<char>,
))
    ensures
        s == ends.0 + trimmed(s) + ends.1,
        blank(ends.0),
        blank(ends.1),
        trimmed(s).len() > 0 ==> !is_space(trimmed(s)[0]) && !is_space(trimmed(s).last()),
{
    let head = lemma_trimmed_start(s);
    let t = trimmed_start(s);
    let tail = lemma_trimmed_end(t);
    assert(s =~= head + trimmed(s) + tail);
    if trimmed(s).len() > 0 {
        assert(t[0] == trimmed(s)[0]);
    }
    (head, tail)
}

/// Of the ASCII characters the blank, the tab and the line breaks are white
/// space.
pub proof fn blanks_and_control_characters_are_white_space(c: char)
    requires
        c as int <= 127,
    ensures
        is_space(c) <==> c as int == 32 || 9 <= c as int <= 13,
{
}

/// The number that digits stand for.
pub open spec fn number(digits: Seq<char>) -> int
    decreases digits.len(),
{
    if digits.len() == 0 {
        0
    } else {
        10 * number(digits.drop_last()) + (digits.last() as int - '0' as int)
    }
}

/// A number can be read back from its decimal form, which has no leading zero.
pub proof fn decimal_reads_as_the_number(n: nat)
    ensures
        number(decimal(n)) == n,
        decimal(n).len() >= 1,
        n > 0 ==> decimal(n)[0] != '0',
    decreases n,
{
    reveal_with_fuel(number, 2);
    if n >= 10 {
        decimal_reads_as_the_number(n / 10);
        assert(decimal(n).drop_last() =~= decimal(n / 10));
        assert(decimal(n)[0] == decimal(n / 10)[0]);
    } else {
        assert(decimal(n).drop_last() =~= Seq::<char>::empty());
    }
}

/// Joining two rows of parts is joining each, with the separator between.
pub proof fn rows_can_be_joined_apart(a: Seq<Seq<char>>, b: Seq<Seq<char>>, sep: Seq<char>)
    requires
        a.len() > 0,
        b.len() > 0,
    ensures
        joined(a + b, sep) == joined(a, sep) + sep + joined(b, sep),
        joined(seq![a[0]], sep) == a[0],
    decreases b.len(),
{
    let both = a + b;
    assert(both.drop_last() =~= a + b.drop_last());
    assert(both.last() == b.last());
    if b.len() == 1 {
        assert(both.drop_last() =~= a);
    } else {
        rows_can_be_joined_apart(a, b.drop_last(), sep);
        assert(joined(both, sep) =~= joined(a, sep) + sep + joined(b, sep));
    }
}

} // verus!
