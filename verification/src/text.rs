//! Verified operations on strings of characters.
use vstd::prelude::*;
use vstd::utf8::*;

verus! {

/// Whether two strings hold the same characters.
pub fn same_text(a: &str, b: &str) -> (r: bool)
    ensures
        r == (a@ == b@),
{
    let x = a.as_bytes();
    let y = b.as_bytes();
    proof {
        encode_utf8_decode_utf8(a@);
        encode_utf8_decode_utf8(b@);
    }
    if x.len() != y.len() {
        return false;
    }
    let mut i: usize = 0;
    while i < x.len()
        invariant
            x@ == encode_utf8(a@),
            y@ == encode_utf8(b@),
            x@.len() == y@.len(),
            i <= x@.len(),
            forall|j: int| 0 <= j < i ==> x@[j] == y@[j],
        decreases x@.len() - i,
    {
        if x[i] != y[i] {
            return false;
        }
        i += 1;
    }
    assert(x@ == y@);
    true
}

/// The characters of a string.
pub fn chars_of(s: &str) -> (r: Vec<char>)
    ensures
        r@ == s@,
{
    let mut r: Vec<char> = Vec::new();
    for c in it: s.chars()
        invariant
            r@ == s@.take(it.index() as int),
            it.seq() == s@,
    {
        r.push(c);
        assert(s@.take(it.index() + 1) == s@.take(it.index() as int).push(c));
    }
    assert(s@.take(s@.len() as int) == s@);
    r
}

/// The order of strings: by the first character in which they differ; a string comes after its
/// beginnings.
pub open spec fn text_lt(a: Seq<char>, b: Seq<char>) -> bool
    decreases a.len(),
{
    if b.len() == 0 {
        false
    } else if a.len() == 0 {
        true
    } else {
        a[0] < b[0] || (a[0] == b[0] && text_lt(a.drop_first(), b.drop_first()))
    }
}

/// A string does not come before itself.
pub proof fn lemma_text_lt_irreflexive(a: Seq<char>)
    ensures
        !text_lt(a, a),
    decreases a.len(),
{
    if a.len() > 0 {
        lemma_text_lt_irreflexive(a.drop_first());
    }
}

/// The order of strings is transitive.
pub proof fn lemma_text_lt_transitive(a: Seq<char>, b: Seq<char>, c: Seq<char>)
    requires
        text_lt(a, b),
        text_lt(b, c),
    ensures
        text_lt(a, c),
    decreases a.len(),
{
    if a.len() > 0 {
        if a[0] == b[0] && b[0] == c[0] {
            lemma_text_lt_transitive(a.drop_first(), b.drop_first(), c.drop_first());
        }
    }
}

/// Of two different strings one comes first.
pub proof fn lemma_text_lt_total(a: Seq<char>, b: Seq<char>)
    ensures
        text_lt(a, b) || a == b || text_lt(b, a),
    decreases a.len(),
{
    if a.len() == 0 {
        if b.len() == 0 {
            assert(a == b);
        }
    } else if b.len() > 0 {
        lemma_text_lt_total(a.drop_first(), b.drop_first());
        if a[0] == b[0] && a.drop_first() == b.drop_first() {
            assert(a == seq![a[0]] + a.drop_first());
            assert(b == seq![b[0]] + b.drop_first());
        }
    }
}

/// Where two strings agree at the start, the rest decides.
proof fn lemma_text_lt_common(a: Seq<char>, b: Seq<char>, i: int)
    requires
        0 <= i <= a.len(),
        i <= b.len(),
        a.take(i) == b.take(i),
    ensures
        text_lt(a, b) == text_lt(a.skip(i), b.skip(i)),
    decreases i,
{
    if i == 0 {
        assert(a.skip(0) == a && b.skip(0) == b);
    } else {
        assert(a[0] == a.take(i)[0]);
        assert(b[0] == b.take(i)[0]);
        let a1 = a.drop_first();
        let b1 = b.drop_first();
        assert(a1.take(i - 1) == a.take(i).drop_first());
        assert(b1.take(i - 1) == b.take(i).drop_first());
        lemma_text_lt_common(a1, b1, i - 1);
        assert(a1.skip(i - 1) == a.skip(i));
        assert(b1.skip(i - 1) == b.skip(i));
    }
}

/// Whether one string comes before another.
pub fn text_less(a: &str, b: &str) -> (r: bool)
    ensures
        r == text_lt(a@, b@),
{
    let x = chars_of(a);
    let y = chars_of(b);
    let mut i: usize = 0;
    while i < x.len() && i < y.len()
        invariant
            x@ == a@,
            y@ == b@,
            i <= x@.len(),
            i <= y@.len(),
            a@.take(i as int) == b@.take(i as int),
        decreases x@.len() - i,
    {
        proof {
            lemma_text_lt_common(a@, b@, i as int);
        }
        if x[i] < y[i] {
            return true;
        }
        if y[i] < x[i] {
            return false;
        }
        assert(a@.take(i + 1) == a@.take(i as int).push(a@[i as int]));
        assert(b@.take(i + 1) == b@.take(i as int).push(b@[i as int]));
        i += 1;
    }
    proof {
        lemma_text_lt_common(a@, b@, i as int);
    }
    i < y.len()
}

/// A string without the given character at its end, however often it stands there.
pub open spec fn trimmed_end(s: Seq<char>, c: char) -> Seq<char>
    decreases s.len(),
{
    if s.len() > 0 && s.last() == c {
        trimmed_end(s.drop_last(), c)
    } else {
        s
    }
}

/// Takes the given character away from the end of a string, however often it stands there.
pub fn trim_end<'a>(s: &'a str, c: char) -> (r: &'a str)
    ensures
        r@ == trimmed_end(s@, c),
{
    let chars = chars_of(s);
    let mut n: usize = chars.len();
    assert(s@.take(s@.len() as int) == s@);
    while n > 0 && chars[n - 1] == c
        invariant
            chars@ == s@,
            n <= s@.len(),
            trimmed_end(s@.take(n as int), c) == trimmed_end(s@, c),
        decreases n,
    {
        assert(s@.take(n as int).drop_last() == s@.take(n - 1));
        n -= 1;
    }
    assert(s@.subrange(0, n as int) == s@.take(n as int));
    s.substring_char(0, n)
}

/// A letter between `A` and `Z` in lower case; every other character as it is.
pub open spec fn lower_char(c: char) -> char {
    if 'A' <= c && c <= 'Z' {
        (c as u8 + 32) as char
    } else {
        c
    }
}

/// A string with its letters between `A` and `Z` in lower case.
pub open spec fn lowered(s: Seq<char>) -> Seq<char> {
    s.map_values(|c: char| lower_char(c))
}

fn to_lower(c: char) -> (r: char)
    ensures
        r == lower_char(c),
{
    if 'A' <= c && c <= 'Z' {
        (c as u8 + 32) as char
    } else {
        c
    }
}

/// Whether a string is a given word once its letters between `A` and `Z` are in lower case.
pub fn is_lowered(s: &str, word: &str) -> (r: bool)
    ensures
        r == (lowered(s@) == word@),
{
    let x = chars_of(s);
    let y = chars_of(word);
    if x.len() != y.len() {
        return false;
    }
    let mut i: usize = 0;
    while i < x.len()
        invariant
            x@ == s@,
            y@ == word@,
            x@.len() == y@.len(),
            i <= x@.len(),
            forall|j: int| 0 <= j < i ==> lowered(s@)[j] == #[trigger] y@[j],
        decreases x@.len() - i,
    {
        if to_lower(x[i]) != y[i] {
            assert(lowered(s@)[i as int] != word@[i as int]);
            return false;
        }
        i += 1;
    }
    assert(lowered(s@) == word@);
    true
}

/// The parts of a string between the given characters; there is one more than there are of those.
pub open spec fn parts(s: Seq<char>, c: char) -> Seq<Seq<char>>
    decreases s.len(),
{
    if s.len() == 0 {
        seq![Seq::empty()]
    } else {
        let front = parts(s.drop_last(), c);
        if s.last() == c {
            front.push(Seq::empty())
        } else {
            front.drop_last().push(front.last().push(s.last()))
        }
    }
}

/// A string has at least one part.
pub proof fn lemma_parts_nonempty(s: Seq<char>, c: char)
    ensures
        parts(s, c).len() > 0,
    decreases s.len(),
{
    if s.len() > 0 {
        lemma_parts_nonempty(s.drop_last(), c);
    }
}

/// A string without the given character is its only part.
pub proof fn lemma_parts_plain(s: Seq<char>, c: char)
    requires
        !s.contains(c),
    ensures
        parts(s, c) == seq![s],
    decreases s.len(),
{
    if s.len() > 0 {
        let front = s.drop_last();
        assert forall|i: int| 0 <= i < front.len() implies front[i] != c by {
            assert(s[i] == front[i]);
        }
        lemma_parts_plain(front, c);
        assert(s[s.len() - 1] != c);
        assert(front.push(s.last()) == s);
    } else {
        assert(s == Seq::<char>::empty());
    }
}

/// What stands behind the last of the given characters is the last part.
pub proof fn lemma_parts_append(a: Seq<char>, b: Seq<char>, c: char)
    requires
        !b.contains(c),
    ensures
        parts(a.push(c) + b, c) == parts(a, c).push(b),
    decreases b.len(),
{
    if b.len() == 0 {
        assert(a.push(c) + b == a.push(c));
        assert(a.push(c).drop_last() == a);
        assert(b == Seq::<char>::empty());
    } else {
        let front = b.drop_last();
        assert forall|i: int| 0 <= i < front.len() implies front[i] != c by {
            assert(b[i] == front[i]);
        }
        lemma_parts_append(a, front, c);
        let s = a.push(c) + b;
        assert(s.drop_last() == a.push(c) + front);
        assert(s.last() == b.last());
        assert(b[b.len() - 1] != c);
        assert(front.push(b.last()) == b);
        let p = parts(a, c);
        assert(p.push(front).drop_last() == p);
    }
}

/// The texts of some strings.
pub open spec fn strings(s: Seq<String>) -> Seq<Seq<char>> {
    s.map_values(|t: String| t@)
}

/// A copy of some strings.
pub fn copied(s: &Vec<String>) -> (r: Vec<String>)
    ensures
        strings(r@) == strings(s@),
{
    let mut r: Vec<String> = Vec::new();
    let mut i: usize = 0;
    while i < s.len()
        invariant
            i <= s@.len(),
            strings(r@) == strings(s@).take(i as int),
        decreases s@.len() - i,
    {
        let ghost before = r@;
        r.push(s[i].clone());
        assert(strings(r@) == strings(before).push(s@[i as int]@));
        assert(strings(r@) == strings(s@).take(i + 1));
        i += 1;
    }
    assert(strings(r@) == strings(s@));
    r
}

/// The parts of a string between the given characters.
pub fn split(s: &str, c: char) -> (r: Vec<String>)
    ensures
        strings(r@) == parts(s@, c),
{
    let chars = chars_of(s);
    let mut r: Vec<String> = Vec::new();
    let mut start: usize = 0;
    let mut i: usize = 0;
    proof {
        assert(s@.take(0) == Seq::<char>::empty());
        assert(strings(r@).push(s@.subrange(0, 0)) == seq![Seq::<char>::empty()]);
    }
    while i < chars.len()
        invariant
            chars@ == s@,
            start <= i <= s@.len(),
            strings(r@).push(s@.subrange(start as int, i as int)) == parts(s@.take(i as int), c),
        decreases s@.len() - i,
    {
        let ghost before = r@;
        proof {
            assert(s@.take(i + 1).drop_last() == s@.take(i as int));
            assert(s@.take(i + 1).last() == s@[i as int]);
        }
        if chars[i] == c {
            r.push(s.substring_char(start, i).to_owned());
            start = i + 1;
            proof {
                assert(strings(r@) == strings(before).push(r@.last()@));
                assert(s@.subrange(start as int, i + 1) == Seq::<char>::empty());
            }
        } else {
            proof {
                let front = strings(r@).push(s@.subrange(start as int, i as int));
                assert(front.drop_last() == strings(r@));
                assert(s@.subrange(start as int, i + 1) == s@.subrange(
                    start as int,
                    i as int,
                ).push(s@[i as int]));
            }
        }
        i += 1;
    }
    let ghost before = r@;
    r.push(s.substring_char(start, i).to_owned());
    proof {
        assert(strings(r@) == strings(before).push(r@.last()@));
        assert(s@.take(i as int) == s@);
    }
    r
}

/// A decimal digit.
pub open spec fn digit(n: u8) -> char {
    ('0' as u8 + n) as char
}

/// A number in decimal digits.
pub open spec fn decimal_text(n: nat) -> Seq<char>
    decreases n,
{
    if n < 10 {
        seq![digit(n as u8)]
    } else {
        decimal_text(n / 10).push(digit((n % 10) as u8))
    }
}

fn digit_text(n: u64) -> (r: &'static str)
    requires
        n < 10,
    ensures
        r@ == seq![digit(n as u8)],
{
    proof {
        reveal_strlit("0");
        reveal_strlit("1");
        reveal_strlit("2");
        reveal_strlit("3");
        reveal_strlit("4");
        reveal_strlit("5");
        reveal_strlit("6");
        reveal_strlit("7");
        reveal_strlit("8");
        reveal_strlit("9");
    }
    match n {
        0 => "0",
        1 => "1",
        2 => "2",
        3 => "3",
        4 => "4",
        5 => "5",
        6 => "6",
        7 => "7",
        8 => "8",
        _ => "9",
    }
}

/// A number in decimal digits.
pub fn write_decimal(n: u64) -> (r: String)
    ensures
        r@ == decimal_text(n as nat),
    decreases n,
{
    if n < 10 {
        digit_text(n).to_owned()
    } else {
        let mut r = write_decimal(n / 10);
        let ghost front = r@;
        let last = digit_text(n % 10);
        r.append(last);
        assert(r@ == front.push(digit((n % 10) as u8)));
        r
    }
}

/// Whether a character is white space, as Unicode has it.
pub open spec fn is_space(c: char) -> bool {
    let n = c as u32;
    ||| 0x09 <= n <= 0x0d
    ||| n == 0x20
    ||| n == 0x85
    ||| n == 0xa0
    ||| n == 0x1680
    ||| 0x2000 <= n <= 0x200a
    ||| n == 0x2028
    ||| n == 0x2029
    ||| n == 0x202f
    ||| n == 0x205f
    ||| n == 0x3000
}

fn white(c: char) -> (r: bool)
    ensures
        r == is_space(c),
{
    let n: u32 = c as u32;
    (0x09 <= n && n <= 0x0d) || n == 0x20 || n == 0x85 || n == 0xa0 || n == 0x1680 || (0x2000 <= n
        && n <= 0x200a) || n == 0x2028 || n == 0x2029 || n == 0x202f || n == 0x205f || n == 0x3000
}

/// A string without the white space at its beginning.
pub open spec fn without_leading_space(s: Seq<char>) -> Seq<char>
    decreases s.len(),
{
    if s.len() > 0 && is_space(s.first()) {
        without_leading_space(s.drop_first())
    } else {
        s
    }
}

/// A string without the white space at its end.
pub open spec fn without_trailing_space(s: Seq<char>) -> Seq<char>
    decreases s.len(),
{
    if s.len() > 0 && is_space(s.last()) {
        without_trailing_space(s.drop_last())
    } else {
        s
    }
}

/// A string without the white space around it.
pub open spec fn trimmed(s: Seq<char>) -> Seq<char> {
    without_trailing_space(without_leading_space(s))
}

/// Takes the white space around a string away.
pub fn trim<'a>(s: &'a str) -> (r: &'a str)
    ensures
        r@ == trimmed(s@),
{
    let chars = chars_of(s);
    let mut i: usize = 0;
    assert(s@.skip(0) == s@);
    while i < chars.len() && white(chars[i])
        invariant
            chars@ == s@,
            i <= s@.len(),
            without_leading_space(s@.skip(i as int)) == without_leading_space(s@),
        decreases s@.len() - i,
    {
        assert(s@.skip(i as int).drop_first() == s@.skip(i + 1));
        i += 1;
    }
    let ghost rest = s@.skip(i as int);
    assert(rest == without_leading_space(s@));
    let mut n: usize = chars.len();
    assert(s@.subrange(i as int, n as int) == rest);
    while n > i && white(chars[n - 1])
        invariant
            chars@ == s@,
            i <= n <= s@.len(),
            without_trailing_space(s@.subrange(i as int, n as int)) == without_trailing_space(rest),
        decreases n,
    {
        assert(s@.subrange(i as int, n as int).drop_last() == s@.subrange(i as int, n - 1));
        n -= 1;
    }
    s.substring_char(i, n)
}

// ---------------------------------------------------------------------------
// Laws
// ---------------------------------------------------------------------------
/// Whether a place decides that one string comes before another: up to there they agree, and there
/// the first ends or has the lesser character.
pub open spec fn decides_at(a: Seq<char>, b: Seq<char>, i: int) -> bool {
    &&& 0 <= i <= a.len()
    &&& i < b.len()
    &&& a.take(i) == b.take(i)
    &&& i == a.len() || a[i] < b[i]
}

/// Strings are in order by the first place at which they differ.
pub proof fn law_first_difference_orders(a: Seq<char>, b: Seq<char>)
    ensures
        text_lt(a, b) <==> exists|i: int| #[trigger] decides_at(a, b, i),
    decreases a.len(),
{
    if text_lt(a, b) {
        if a.len() == 0 || a[0] < b[0] {
            assert(a.take(0) == b.take(0));
            assert(decides_at(a, b, 0));
        } else {
            let a1 = a.drop_first();
            let b1 = b.drop_first();
            law_first_difference_orders(a1, b1);
            let i = choose|i: int| #[trigger] decides_at(a1, b1, i);
            assert(a.take(i + 1) == seq![a[0]] + a1.take(i));
            assert(b.take(i + 1) == seq![b[0]] + b1.take(i));
            assert(decides_at(a, b, i + 1));
        }
    }
    if exists|i: int| #[trigger] decides_at(a, b, i) {
        let i = choose|i: int| #[trigger] decides_at(a, b, i);
        lemma_text_lt_common(a, b, i);
    }
}

/// What is trimmed of the end of a string is the given character and nothing else, and none of it
/// is left there.
pub proof fn law_only_the_end_is_trimmed(s: Seq<char>, c: char)
    ensures
        ({
            let n = trimmed_end(s, c).len() as int;
            &&& n <= s.len()
            &&& trimmed_end(s, c) == s.take(n)
            &&& n == 0 || s[n - 1] != c
            &&& forall|j: int| n <= j < s.len() ==> #[trigger] s[j] == c
        }),
    decreases s.len(),
{
    if s.len() > 0 && s.last() == c {
        let front = s.drop_last();
        law_only_the_end_is_trimmed(front, c);
        let n = trimmed_end(front, c).len() as int;
        assert(s.take(n) == front.take(n));
        assert forall|j: int| n <= j < s.len() implies #[trigger] s[j] == c by {
            if j < front.len() {
                assert(front[j] == s[j]);
            }
        }
    } else {
        assert(s.take(s.len() as int) == s);
    }
}

/// Lower case changes the letters from `A` to `Z`, each into the one that stands 32 places behind
/// it, and nothing else.
pub proof fn law_what_lower_case_changes(s: Seq<char>, i: int)
    requires
        0 <= i < s.len(),
    ensures
        lowered(s).len() == s.len(),
        'A' <= s[i] && s[i] <= 'Z' ==> lowered(s)[i] as int == s[i] as int + 32,
        !('A' <= s[i] && s[i] <= 'Z') ==> lowered(s)[i] == s[i],
{
}

/// Some parts with the given character between every two.
pub open spec fn put_together(p: Seq<Seq<char>>, c: char) -> Seq<char>
    decreases p.len(),
{
    if p.len() == 0 {
        Seq::empty()
    } else if p.len() == 1 {
        p[0]
    } else {
        put_together(p.drop_last(), c).push(c) + p.last()
    }
}

proof fn lemma_put_together_push(p: Seq<Seq<char>>, c: char, x: char)
    requires
        p.len() > 0,
    ensures
        put_together(p.drop_last().push(p.last().push(x)), c) == put_together(p, c).push(x),
{
    let q = p.drop_last().push(p.last().push(x));
    assert(q.drop_last() == p.drop_last());
    if p.len() > 1 {
        let front = put_together(p.drop_last(), c).push(c);
        assert(front + p.last().push(x) == (front + p.last()).push(x));
    }
}

/// The parts of a string are what stands between the given characters: put together again they are
/// the string, and none of them has the character in it.
pub proof fn law_parts_make_up_the_string(s: Seq<char>, c: char)
    ensures
        parts(s, c).len() > 0,
        put_together(parts(s, c), c) == s,
        forall|i: int, j: int|
            0 <= i < parts(s, c).len() && 0 <= j < parts(s, c)[i].len()
                ==> #[trigger] parts(s, c)[i][j] != c,
    decreases s.len(),
{
    let p = parts(s, c);
    if s.len() > 0 {
        let front = parts(s.drop_last(), c);
        law_parts_make_up_the_string(s.drop_last(), c);
        if s.last() == c {
            assert(p.drop_last() == front);
            assert(put_together(front, c).push(c) + Seq::<char>::empty() == s);
        } else {
            lemma_put_together_push(front, c, s.last());
            assert(s.drop_last().push(s.last()) == s);
        }
        assert forall|i: int, j: int|
            0 <= i < p.len() && 0 <= j < p[i].len() implies #[trigger] p[i][j] != c by {
            if i < front.len() && j < front[i].len() {
                assert(p[i][j] == front[i][j]);
            }
        }
    }
}

/// What stands before one of the given characters and what stands behind it have their parts each
/// for itself.
pub proof fn law_parts_on_both_sides(a: Seq<char>, b: Seq<char>, c: char)
    ensures
        parts(a.push(c) + b, c) == parts(a, c) + parts(b, c),
        !a.contains(c) ==> parts(a, c) == seq![a],
    decreases b.len(),
{
    let s = a.push(c) + b;
    if !a.contains(c) {
        lemma_parts_plain(a, c);
    }
    lemma_parts_nonempty(a, c);
    lemma_parts_nonempty(b, c);
    if b.len() == 0 {
        assert(s == a.push(c));
        assert(s.drop_last() == a);
        assert(parts(a, c).push(Seq::empty()) == parts(a, c) + parts(b, c));
    } else {
        let front = b.drop_last();
        law_parts_on_both_sides(a, front, c);
        lemma_parts_nonempty(front, c);
        assert(s.drop_last() == a.push(c) + front);
        assert(s.last() == b.last());
        let p = parts(a, c);
        let q = parts(front, c);
        if b.last() == c {
            assert((p + q).push(Seq::empty()) == p + q.push(Seq::empty()));
        } else {
            assert((p + q).last() == q.last());
            assert((p + q).drop_last().push(q.last().push(b.last())) == p + q.drop_last().push(
                q.last().push(b.last()),
            ));
        }
    }
}

/// A number is written in the digits from `0` to `9`, without zeros before it; one digit more makes
/// ten of it and the digit.
pub proof fn law_how_a_number_is_written(n: nat, d: nat)
    requires
        d < 10,
    ensures
        decimal_text(d).len() == 1,
        decimal_text(d)[0] as int == '0' as int + d,
        n > 0 ==> decimal_text(n * 10 + d) == decimal_text(n) + decimal_text(d),
        decimal_text(n).len() > 0,
        n > 0 ==> decimal_text(n)[0] != '0',
        forall|i: int|
            0 <= i < decimal_text(n).len() ==> '0' <= #[trigger] decimal_text(n)[i]
                && decimal_text(n)[i] <= '9',
    decreases n,
{
    if n > 0 {
        assert((n * 10 + d) / 10 == n);
        assert((n * 10 + d) % 10 == d);
        assert(decimal_text(n).push(digit(d as u8)) == decimal_text(n) + decimal_text(d));
    }
    if n >= 10 {
        law_how_a_number_is_written(n / 10, d);
        let front = decimal_text(n / 10);
        assert(decimal_text(n)[0] == front[0]);
        assert forall|i: int| 0 <= i < decimal_text(n).len() implies '0'
            <= #[trigger] decimal_text(n)[i] && decimal_text(n)[i] <= '9' by {
            if i < front.len() {
                assert(decimal_text(n)[i] == front[i]);
            }
        }
    }
}

/// The texts of some strings, one for one.
pub proof fn law_texts_of_strings(s: Seq<String>, i: int)
    requires
        0 <= i < s.len(),
    ensures
        strings(s).len() == s.len(),
        strings(s)[i] == s[i]@,
{
}

proof fn lemma_leading_space(a: Seq<char>, b: Seq<char>)
    requires
        forall|i: int| 0 <= i < a.len() ==> is_space(#[trigger] a[i]),
    ensures
        without_leading_space(a + b) == without_leading_space(b),
    decreases a.len(),
{
    if a.len() == 0 {
        assert(a + b == b);
    } else {
        let rest = a.drop_first();
        assert forall|i: int| 0 <= i < rest.len() implies is_space(#[trigger] rest[i]) by {
            assert(rest[i] == a[i + 1]);
        }
        lemma_leading_space(rest, b);
        assert((a + b).first() == a[0]);
        assert((a + b).drop_first() == rest + b);
    }
}

proof fn lemma_trailing_space(a: Seq<char>, b: Seq<char>)
    requires
        forall|i: int| 0 <= i < b.len() ==> is_space(#[trigger] b[i]),
    ensures
        without_trailing_space(a + b) == without_trailing_space(a),
    decreases b.len(),
{
    if b.len() == 0 {
        assert(a + b == a);
    } else {
        let rest = b.drop_last();
        assert forall|i: int| 0 <= i < rest.len() implies is_space(#[trigger] rest[i]) by {
            assert(rest[i] == b[i]);
        }
        lemma_trailing_space(a, rest);
        assert((a + b).last() == b[b.len() - 1]);
        assert((a + b).drop_last() == a + rest);
    }
}

/// Trimming takes away the white space before and behind a text, all of it and nothing else: what
/// is left is the text between them, which begins and ends with something else or is empty.
pub proof fn law_what_trimming_leaves(before: Seq<char>, text: Seq<char>, behind: Seq<char>)
    requires
        forall|i: int| 0 <= i < before.len() ==> is_space(#[trigger] before[i]),
        forall|i: int| 0 <= i < behind.len() ==> is_space(#[trigger] behind[i]),
        text.len() == 0 || (!is_space(text.first()) && !is_space(text.last())),
    ensures
        trimmed(before + text + behind) == text,
{
    if text.len() == 0 {
        let s = before + behind;
        assert(before + text + behind == s);
        assert forall|i: int| 0 <= i < s.len() implies is_space(#[trigger] s[i]) by {
            if i < before.len() {
                assert(s[i] == before[i]);
            } else {
                assert(s[i] == behind[i - before.len()]);
            }
        }
        let none = Seq::<char>::empty();
        lemma_leading_space(s, none);
        assert(s + none == s);
        assert(text == none);
    } else {
        assert(before + text + behind == before + (text + behind));
        lemma_leading_space(before, text + behind);
        assert((text + behind).first() == text.first());
        lemma_trailing_space(text, behind);
    }
}

/// The characters that are white space, by their numbers.
pub proof fn law_which_characters_are_white_space(c: char)
    ensures
        is_space(c) <==> seq![
            0x09int,
            0x0a,
            0x0b,
            0x0c,
            0x0d,
            0x20,
            0x85,
            0xa0,
            0x1680,
            0x2000,
            0x2001,
            0x2002,
            0x2003,
            0x2004,
            0x2005,
            0x2006,
            0x2007,
            0x2008,
            0x2009,
            0x200a,
            0x2028,
            0x2029,
            0x202f,
            0x205f,
            0x3000,
        ].contains(c as int),
{
    let n = c as int;
    let all = seq![
        0x09int,
        0x0a,
        0x0b,
        0x0c,
        0x0d,
        0x20,
        0x85,
        0xa0,
        0x1680,
        0x2000,
        0x2001,
        0x2002,
        0x2003,
        0x2004,
        0x2005,
        0x2006,
        0x2007,
        0x2008,
        0x2009,
        0x200a,
        0x2028,
        0x2029,
        0x202f,
        0x205f,
        0x3000,
    ];
    if is_space(c) {
        let i: int = if n <= 0x0d {
            n - 0x09
        } else if n == 0x20 {
            5
        } else if n == 0x85 {
            6
        } else if n == 0xa0 {
            7
        } else if n == 0x1680 {
            8
        } else if n <= 0x200a {
            9 + n - 0x2000
        } else if n == 0x2028 {
            20
        } else if n == 0x2029 {
            21
        } else if n == 0x202f {
            22
        } else if n == 0x205f {
            23
        } else {
            24
        };
        assert(all[i] == n);
    }
}

} // verus!
