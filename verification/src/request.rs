//! Reading an instance from text: numbers separated by commas or white
//! space, an instance file whose goal follows a `goal:` marker, and a
//! target line.
use crate::bignum::{decimal_body, decimal_body_ok, decimal_value, BigNum};
use crate::profile::big_values;
use vstd::prelude::*;

verus! {

/// The characters with Unicode's `White_Space` property, the ones that
/// `char::is_whitespace` accepts.
pub open spec fn white_space(c: char) -> bool {
    let u = c as u32;
    ||| 9 <= u <= 13
    ||| u == 32
    ||| u == 0x85
    ||| u == 0xa0
    ||| u == 0x1680
    ||| 0x2000 <= u <= 0x200a
    ||| u == 0x2028
    ||| u == 0x2029
    ||| u == 0x202f
    ||| u == 0x205f
    ||| u == 0x3000
}

/// A character that ends a number: a comma or white space.
pub open spec fn separator(c: char) -> bool {
    c == ',' || white_space(c)
}

/// The fields between separators, empty ones included, as `str::split`
/// gives them.
pub open spec fn fields(s: Seq<char>) -> Seq<Seq<char>>
    decreases s.len(),
{
    if s.len() == 0 {
        seq![Seq::empty()]
    } else {
        let f = fields(s.drop_last());
        if separator(s.last()) {
            f.push(Seq::empty())
        } else {
            f.update(f.len() - 1, f.last().push(s.last()))
        }
    }
}

/// The bytes of an ASCII text.
pub open spec fn ascii_bytes(t: Seq<char>) -> Seq<u8> {
    t.map_values(|c: char| (c as u32) as u8)
}

/// The text is ASCII.
pub open spec fn is_ascii(t: Seq<char>) -> bool {
    forall|i: int| 0 <= i < t.len() ==> (#[trigger] t[i]) as u32 <= 127
}

/// The number a token spells for `BigUint::parse_bytes(_, 10)`, if any.
pub open spec fn token_value(t: Seq<char>) -> Option<int> {
    if is_ascii(t) && decimal_body_ok(decimal_body(ascii_bytes(t))) {
        Some(decimal_value(decimal_body(ascii_bytes(t))) as int)
    } else {
        None
    }
}

/// The numbers that the fields spell, in order, skipping the fields that
/// spell none.
pub open spec fn numbers_in(fs: Seq<Seq<char>>) -> Seq<int>
    decreases fs.len(),
{
    if fs.len() == 0 {
        Seq::empty()
    } else {
        let p = numbers_in(fs.drop_last());
        match token_value(fs.last()) {
            Some(v) => p.push(v),
            None => p,
        }
    }
}

pub proof fn lemma_fields_nonempty(s: Seq<char>)
    ensures
        fields(s).len() >= 1,
    decreases s.len(),
{
    if s.len() > 0 {
        lemma_fields_nonempty(s.drop_last());
    }
}

fn is_white_space(c: char) -> (r: bool)
    ensures
        r == white_space(c),
{
    let u = c as u32;
    (9 <= u && u <= 13) || u == 32 || u == 0x85 || u == 0xa0 || u == 0x1680 || (0x2000 <= u && u <= 0x200a) || u
        == 0x2028 || u == 0x2029 || u == 0x202f || u == 0x205f || u == 0x3000
}

fn is_separator(c: char) -> (r: bool)
    ensures
        r == separator(c),
{
    c == ',' || is_white_space(c)
}

/// The number a token spells in decimal (`_` separators and one leading `+`
/// allowed, as `BigUint::parse_bytes(_, 10)` reads it), or `None`.
pub fn parse_number(tok: &[char]) -> (r: Option<BigNum>)
    ensures
        r is Some <==> token_value(tok@) is Some,
        r matches Some(v) ==> v@ == token_value(tok@)->0,
{
    let mut bytes: Vec<u8> = Vec::new();
    for i in 0..tok.len()
        invariant
            bytes@ == ascii_bytes(tok@.take(i as int)),
            forall|k: int| 0 <= k < i ==> (#[trigger] tok@[k]) as u32 <= 127,
    {
        let u = tok[i] as u32;
        if u > 127 {
            return None;
        }
        bytes.push(u as u8);
        proof {
            assert(ascii_bytes(tok@.take(i + 1)) =~= ascii_bytes(tok@.take(i as int)).push((tok@[i as int] as u32) as u8));
        }
    }
    proof {
        assert(tok@.take(tok@.len() as int) =~= tok@);
    }
    BigNum::parse_decimal(&bytes)
}

/// The numbers in `text`: it is split at commas and white space, and each
/// nonempty piece that spells a decimal number gives that number; the other
/// pieces are skipped.
pub fn parse_numbers(text: &[char]) -> (r: Vec<BigNum>)
    ensures
        big_values(r@) == numbers_in(fields(text@)),
{
    let mut out: Vec<BigNum> = Vec::new();
    let mut cur: Vec<char> = Vec::new();
    let ghost mut done: Seq<Seq<char>> = Seq::empty();
    assert(big_values(out@) =~= Seq::<int>::empty());
    for i in 0..text.len()
        invariant
            fields(text@.take(i as int)) == done.push(cur@),
            big_values(out@) == numbers_in(done),
    {
        let c = text[i];
        proof {
            assert(text@.take(i + 1).drop_last() =~= text@.take(i as int));
            lemma_fields_nonempty(text@.take(i as int));
        }
        if is_separator(c) {
            let ghost before = out@;
            match parse_number(cur.as_slice()) {
                Some(v) => {
                    out.push(v);
                    proof {
                        assert(big_values(out@) =~= big_values(before).push(v@ as int));
                    }
                },
                None => {},
            }
            proof {
                assert(done.push(cur@).drop_last() =~= done);
                done = done.push(cur@);
            }
            cur = Vec::new();
            proof {
                assert(fields(text@.take(i + 1)) =~= done.push(cur@));
            }
        } else {
            let ghost before = cur@;
            cur.push(c);
            proof {
                assert(fields(text@.take(i + 1)) =~= done.push(cur@));
            }
        }
    }
    let ghost before = out@;
    match parse_number(cur.as_slice()) {
        Some(v) => {
            out.push(v);
            proof {
                assert(big_values(out@) =~= big_values(before).push(v@ as int));
            }
        },
        None => {},
    }
    proof {
        assert(text@.take(text@.len() as int) =~= text@);
        assert(done.push(cur@).drop_last() =~= done);
    }
    out
}

/// `pat` occurs in `s` at position `i`.
pub open spec fn occurs_at(s: Seq<char>, pat: Seq<char>, i: int) -> bool {
    0 <= i && i + pat.len() <= s.len() && s.subrange(i, i + pat.len()) == pat
}

/// The first position at or after `i` where `pat` occurs, or -1.
pub open spec fn first_from(s: Seq<char>, pat: Seq<char>, i: int) -> int
    decreases s.len() + 1 - i,
{
    if i < 0 || i + pat.len() > s.len() {
        -1
    } else if occurs_at(s, pat, i) {
        i
    } else {
        first_from(s, pat, i + 1)
    }
}

/// The last position below `k` where `pat` occurs, or -1.
pub open spec fn last_below(s: Seq<char>, pat: Seq<char>, k: int) -> int
    decreases k,
{
    if k <= 0 {
        -1
    } else if occurs_at(s, pat, k - 1) {
        k - 1
    } else {
        last_below(s, pat, k - 1)
    }
}

proof fn lemma_first_from_occurs(s: Seq<char>, pat: Seq<char>, i: int)
    ensures
        first_from(s, pat, i) >= 0 ==> occurs_at(s, pat, first_from(s, pat, i)),
    decreases s.len() + 1 - i,
{
    if !(i < 0 || i + pat.len() > s.len()) && !occurs_at(s, pat, i) {
        lemma_first_from_occurs(s, pat, i + 1);
    }
}

proof fn lemma_last_below_occurs(s: Seq<char>, pat: Seq<char>, k: int)
    ensures
        last_below(s, pat, k) >= 0 ==> occurs_at(s, pat, last_below(s, pat, k)),
    decreases k,
{
    if k > 0 && !occurs_at(s, pat, k - 1) {
        lemma_last_below_occurs(s, pat, k - 1);
    }
}

/// The marker that ends the element list on its own line.
pub open spec fn line_goal() -> Seq<char> {
    seq!['\n', 'g', 'o', 'a', 'l', ':']
}

/// The marker that precedes the goal.
pub open spec fn goal_mark() -> Seq<char> {
    seq!['g', 'o', 'a', 'l', ':']
}

/// An instance file split into the text of its elements and the text of
/// its goal: at the first `\ngoal:`, else at the last `goal:`.
pub open spec fn file_parts(s: Seq<char>) -> Option<(Seq<char>, Seq<char>)> {
    let i = first_from(s, line_goal(), 0);
    if i >= 0 {
        Some((s.take(i), s.skip(i + 6)))
    } else {
        let j = last_below(s, goal_mark(), s.len() as int);
        if j >= 0 {
            Some((s.take(j), s.skip(j + 5)))
        } else {
            None
        }
    }
}

/// The ASCII digits of `s`, in order, as bytes.
pub open spec fn digit_bytes(s: Seq<char>) -> Seq<u8>
    decreases s.len(),
{
    if s.len() == 0 {
        Seq::empty()
    } else {
        let p = digit_bytes(s.drop_last());
        if 48 <= (s.last() as u32) <= 57 {
            p.push((s.last() as u32) as u8)
        } else {
            p
        }
    }
}

fn occurs(s: &[char], pat: &[char], i: usize) -> (r: bool)
    ensures
        r == occurs_at(s@, pat@, i as int),
{
    if i > s.len() || pat.len() > s.len() - i {
        return false;
    }
    let n = s.len();
    let mut k: usize = 0;
    while k < pat.len()
        invariant
            n == s@.len(),
            i <= s@.len(),
            i + pat@.len() <= s@.len(),
            k <= pat@.len(),
            forall|t: int| 0 <= t < k ==> s@[i + t] == pat@[t],
        decreases pat@.len() - k,
    {
        assert(i + k < s@.len());
        if s[i + k] != pat[k] {
            proof {
                assert(s@.subrange(i as int, i + pat@.len())[k as int] != pat@[k as int]);
            }
            return false;
        }
        k = k + 1;
    }
    proof {
        assert(s@.subrange(i as int, i + pat@.len()) =~= pat@);
    }
    true
}

fn find_first(s: &[char], pat: &[char]) -> (r: Option<usize>)
    ensures
        match r {
            Some(i) => first_from(s@, pat@, 0) == i,
            None => first_from(s@, pat@, 0) == -1,
        },
{
    let mut i: usize = 0;
    while i <= s.len()
        invariant
            i <= s@.len() + 1,
            first_from(s@, pat@, 0) == first_from(s@, pat@, i as int),
        decreases s@.len() + 1 - i,
    {
        if pat.len() > s.len() - i {
            return None;
        }
        if occurs(s, pat, i) {
            return Some(i);
        }
        proof {
            if pat@.len() == 0 {
                assert(s@.subrange(i as int, i as int) =~= pat@);
            }
        }
        i = i + 1;
    }
    None
}

fn find_last(s: &[char], pat: &[char]) -> (r: Option<usize>)
    ensures
        match r {
            Some(i) => last_below(s@, pat@, s@.len() as int) == i,
            None => last_below(s@, pat@, s@.len() as int) == -1,
        },
{
    let mut k: usize = s.len();
    while k > 0
        invariant
            k <= s@.len(),
            last_below(s@, pat@, s@.len() as int) == last_below(s@, pat@, k as int),
        decreases k,
    {
        if occurs(s, pat, k - 1) {
            return Some(k - 1);
        }
        k = k - 1;
    }
    None
}

fn digits_of(s: &[char]) -> (r: Vec<u8>)
    ensures
        r@ == digit_bytes(s@),
{
    let mut r: Vec<u8> = Vec::new();
    for i in 0..s.len()
        invariant
            r@ == digit_bytes(s@.take(i as int)),
    {
        let c = s[i];
        proof {
            assert(s@.take(i + 1).drop_last() =~= s@.take(i as int));
        }
        let u = c as u32;
        if 48 <= u && u <= 57 {
            r.push(u as u8);
        }
    }
    proof {
        assert(s@.take(s@.len() as int) =~= s@);
    }
    r
}

proof fn lemma_digit_bytes(s: Seq<char>)
    ensures
        forall|i: int| 0 <= i < digit_bytes(s).len() ==> 48 <= #[trigger] digit_bytes(s)[i] <= 57,
    decreases s.len(),
{
    if s.len() > 0 {
        lemma_digit_bytes(s.drop_last());
        let p = digit_bytes(s.drop_last());
        let u = s.last() as u32;
        if 48 <= u <= 57 {
            assert(48 <= (u as u8) <= 57) by (bit_vector)
                requires
                    48 <= u <= 57,
            ;
            assert(digit_bytes(s) == p.push(u as u8));
            assert forall|i: int| 0 <= i < digit_bytes(s).len() implies 48 <= #[trigger] digit_bytes(s)[i] <= 57 by {
                if i < p.len() {
                    assert(digit_bytes(s)[i] == p[i]);
                }
            }
        }
    }
}

/// An instance file: the elements (see `parse_numbers`) before the first
/// `\ngoal:` (or, without one, before the last `goal:`), and the goal made of
/// the ASCII digits after the marker. `None` without a marker, without a
/// goal digit, or without an element.
pub fn parse_file_content(content: &[char]) -> (r: Option<(Vec<BigNum>, BigNum)>)
    ensures
        match file_parts(content@) {
            None => r is None,
            Some((elems, goal)) => {
                &&& r is Some <==> (numbers_in(fields(elems)).len() > 0 && digit_bytes(goal).len() > 0)
                &&& r matches Some((v, t)) ==> big_values(v@) == numbers_in(fields(elems)) && t@ == decimal_value(
                    digit_bytes(goal),
                )
            },
        },
{
    let m1: Vec<char> = vec!['\n', 'g', 'o', 'a', 'l', ':'];
    let m2: Vec<char> = vec!['g', 'o', 'a', 'l', ':'];
    proof {
        assert(m1@ =~= line_goal());
        assert(m2@ =~= goal_mark());
    }
    proof {
        lemma_first_from_occurs(content@, line_goal(), 0);
        lemma_last_below_occurs(content@, goal_mark(), content@.len() as int);
    }
    let n = content.len();
    let (elem_end, goal_start) = match find_first(content, m1.as_slice()) {
        Some(i) => {
            assert(occurs_at(content@, line_goal(), i as int));
            assert(line_goal().len() == 6);
            assert(i + 6 <= n);
            (i, i + 6)
        },
        None => match find_last(content, m2.as_slice()) {
            Some(j) => {
                assert(occurs_at(content@, goal_mark(), j as int));
                assert(goal_mark().len() == 5);
                assert(j + 5 <= n);
                (j, j + 5)
            },
            None => {
                return None;
            },
        },
    };
    let elem_part = slice_of(content, 0, elem_end);
    let goal_part = slice_of(content, goal_start, content.len());
    proof {
        assert(elem_part@ =~= content@.take(elem_end as int));
        assert(goal_part@ =~= content@.skip(goal_start as int));
    }
    let nums = parse_numbers(elem_part.as_slice());
    let digits = digits_of(goal_part.as_slice());
    proof {
        lemma_digit_bytes(goal_part@);
        let d = digits@;
        assert(decimal_body(d) == d);
    }
    let target = match BigNum::parse_decimal(digits.as_slice()) {
        Some(t) => t,
        None => {
            return None;
        },
    };
    if nums.len() == 0 {
        return None;
    }
    Some((nums, target))
}

/// A copy of `s[lo..hi]`.
fn slice_of(s: &[char], lo: usize, hi: usize) -> (r: Vec<char>)
    requires
        lo <= hi <= s@.len(),
    ensures
        r@ == s@.subrange(lo as int, hi as int),
{
    let mut r: Vec<char> = Vec::new();
    for i in lo..hi
        invariant
            lo <= i <= hi,
            hi <= s@.len(),
            r@ == s@.subrange(lo as int, i as int),
    {
        r.push(s[i]);
        proof {
            assert(r@ =~= s@.subrange(lo as int, i + 1));
        }
    }
    r
}

/// `s` without its leading white space.
pub open spec fn trim_start(s: Seq<char>) -> Seq<char>
    decreases s.len(),
{
    if s.len() > 0 && white_space(s[0]) {
        trim_start(s.drop_first())
    } else {
        s
    }
}

/// `s` without its trailing white space.
pub open spec fn trim_end(s: Seq<char>) -> Seq<char>
    decreases s.len(),
{
    if s.len() > 0 && white_space(s.last()) {
        trim_end(s.drop_last())
    } else {
        s
    }
}

/// `s` without leading and trailing white space, as `str::trim` gives it.
pub open spec fn trimmed(s: Seq<char>) -> Seq<char> {
    trim_end(trim_start(s))
}

/// The target typed on a line: the number the trimmed line spells, or zero
/// when it spells none.
pub fn parse_target_line(line: &[char]) -> (r: BigNum)
    ensures
        r@ == match token_value(trimmed(line@)) {
            Some(v) => v,
            None => 0,
        },
{
    let n = line.len();
    let mut lo: usize = 0;
    assert(line@.skip(0) =~= line@);
    while lo < n && is_white_space(line[lo])
        invariant
            n == line@.len(),
            lo <= n,
            trim_start(line@) == trim_start(line@.skip(lo as int)),
        decreases n - lo,
    {
        proof {
            assert(line@.skip(lo as int).drop_first() =~= line@.skip(lo + 1));
        }
        lo = lo + 1;
    }
    proof {
        assert(trim_start(line@.skip(lo as int)) == line@.skip(lo as int));
    }
    let mut hi: usize = n;
    while hi > lo && is_white_space(line[hi - 1])
        invariant
            n == line@.len(),
            lo <= hi <= n,
            trim_start(line@) == line@.skip(lo as int),
            trimmed(line@) == trim_end(line@.subrange(lo as int, hi as int)),
        decreases hi,
    {
        proof {
            assert(line@.subrange(lo as int, hi as int).drop_last() =~= line@.subrange(lo as int, hi - 1));
        }
        hi = hi - 1;
    }
    let core = slice_of(line, lo, hi);
    proof {
        assert(trim_end(line@.subrange(lo as int, hi as int)) == line@.subrange(lo as int, hi as int));
        assert(line@.skip(lo as int) =~= line@.subrange(lo as int, n as int));
    }
    match parse_number(core.as_slice()) {
        Some(v) => v,
        None => BigNum::zero(),
    }
}

/// The answer to an instance without elements: the empty selection when the
/// target is zero, impossible otherwise.
pub fn empty_instance(target: &BigNum) -> (v: crate::controller::Verdict)
    ensures
        crate::controller::verdict_ok(v, Seq::empty(), target@ as int),
        v is Found <==> target@ == 0,
        v is Impossible <==> target@ != 0,
        v matches crate::controller::Verdict::Found(sol) ==> sol@.len() == 0,
{
    if target.is_zero() {
        let sol: Vec<BigNum> = Vec::new();
        proof {
            assert(big_values(sol@) =~= Seq::<int>::empty());
            crate::spec::lemma_empty_sub_multiset(Seq::<int>::empty());
        }
        crate::controller::Verdict::Found(sol)
    } else {
        proof {
            assert forall|sel: Seq<bool>| sel.len() == 0 implies #[trigger] crate::spec::sel_sum(Seq::<int>::empty(), sel)
                != target@ as int by {}
        }
        crate::controller::Verdict::Impossible
    }
}

/// The code points that Unicode gives the `White_Space` property: tab,
/// line feed, line and form feed, carriage return, space, next line,
/// no-break space, Ogham space mark, the spaces from en quad to hair space,
/// line and paragraph separators, narrow no-break space, medium
/// mathematical space and ideographic space.
pub open spec fn unicode_space_point(u: u32) -> bool {
    u == 0x09 || u == 0x0a || u == 0x0b || u == 0x0c || u == 0x0d || u == 0x20 || u == 0x85 || u == 0xa0 || u
        == 0x1680 || u == 0x2000 || u == 0x2001 || u == 0x2002 || u == 0x2003 || u == 0x2004 || u == 0x2005 || u
        == 0x2006 || u == 0x2007 || u == 0x2008 || u == 0x2009 || u == 0x200a || u == 0x2028 || u == 0x2029 || u
        == 0x202f || u == 0x205f || u == 0x3000
}

/// How many characters of `s` end a field.
pub open spec fn cuts(s: Seq<char>) -> nat
    decreases s.len(),
{
    if s.len() == 0 {
        0
    } else {
        cuts(s.drop_last()) + if separator(s.last()) {
            1nat
        } else {
            0nat
        }
    }
}

/// Texts that differ only in which separator stands at some places split
/// into the same fields.
proof fn lemma_fields_same_cuts(s1: Seq<char>, s2: Seq<char>)
    requires
        s1.len() == s2.len(),
        forall|i: int| 0 <= i < s1.len() ==> s1[i] == s2[i] || (separator(s1[i]) && separator(s2[i])),
    ensures
        fields(s1) == fields(s2),
    decreases s1.len(),
{
    if s1.len() > 0 {
        lemma_fields_same_cuts(s1.drop_last(), s2.drop_last());
    }
}

proof fn lemma_fields_len(s: Seq<char>)
    ensures
        fields(s).len() == 1 + cuts(s),
    decreases s.len(),
{
    if s.len() > 0 {
        lemma_fields_len(s.drop_last());
    }
}

proof fn lemma_cuts_concat(a: Seq<char>, b: Seq<char>)
    ensures
        cuts(a + b) == cuts(a) + cuts(b),
    decreases b.len(),
{
    if b.len() == 0 {
        assert(a + b =~= a);
    } else {
        lemma_cuts_concat(a, b.drop_last());
        assert((a + b).drop_last() =~= a + b.drop_last());
    }
}

/// Every Unicode white-space character separates numbers just as a comma
/// does: putting one in place of a comma anywhere in a text leaves the
/// numbers read from it unchanged.
pub proof fn law_white_space_separates(a: Seq<char>, c: char, b: Seq<char>)
    requires
        unicode_space_point(c as u32),
    ensures
        numbers_in(fields(a + seq![c] + b)) == numbers_in(fields(a + seq![','] + b)),
        fields(a + seq![c] + b).len() == fields(a + b).len() + 1,
{
    let s1 = a + seq![c] + b;
    let s2 = a + seq![','] + b;
    assert forall|i: int| 0 <= i < s1.len() implies s1[i] == s2[i] || (separator(s1[i]) && separator(s2[i])) by {
        if i == a.len() {
            assert(s1[i] == c && s2[i] == ',');
        } else if i < a.len() {
            assert(s1[i] == a[i] && s2[i] == a[i]);
        } else {
            assert(s1[i] == b[i - a.len() - 1] && s2[i] == b[i - a.len() - 1]);
        }
    }
    lemma_fields_same_cuts(s1, s2);
    lemma_fields_len(s1);
    lemma_fields_len(a + b);
    lemma_cuts_concat(a + seq![c], b);
    lemma_cuts_concat(a, seq![c]);
    lemma_cuts_concat(a, b);
    reveal_with_fuel(cuts, 2);
    assert(seq![c].drop_last() =~= Seq::<char>::empty());
}

/// No other character but the comma separates: putting one between two
/// pieces of text splits it into no more fields than without it.
pub proof fn law_only_white_space_and_comma_separate(a: Seq<char>, c: char, b: Seq<char>)
    requires
        !unicode_space_point(c as u32),
        c != ',',
    ensures
        fields(a + seq![c] + b).len() == fields(a + b).len(),
{
    lemma_fields_len(a + seq![c] + b);
    lemma_fields_len(a + b);
    lemma_cuts_concat(a + seq![c], b);
    lemma_cuts_concat(a, seq![c]);
    lemma_cuts_concat(a, b);
    reveal_with_fuel(cuts, 2);
    assert(seq![c].drop_last() =~= Seq::<char>::empty());
}

} // verus!
