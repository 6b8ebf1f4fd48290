//! Reading the text an operator types: lines of resource counts and yes/no
//! answers.
use vstd::prelude::*;
use vstd::string::StrSliceExecFns;

verus! {

/// A Unicode White_Space character: tab, line feed, vertical tab, form feed,
/// carriage return, space, next line, no-break space, Ogham space mark, the
/// spaces from en quad to hair space, line and paragraph separator, narrow
/// no-break space, medium mathematical space and ideographic space. These
/// are what `char::is_whitespace` accepts, and so what `str::trim` and
/// `str::split_whitespace` split at.
pub open spec fn is_white(c: char) -> bool {
    let u = c as u32;
    ||| 0x09 <= u && u <= 0x0d
    ||| u == 0x20
    ||| u == 0x85
    ||| u == 0xa0
    ||| u == 0x1680
    ||| 0x2000 <= u && u <= 0x200a
    ||| u == 0x2028
    ||| u == 0x2029
    ||| u == 0x202f
    ||| u == 0x205f
    ||| u == 0x3000
}

/// An ASCII decimal digit.
pub open spec fn is_digit(c: char) -> bool {
    0x30 <= c as u32 && c as u32 <= 0x39
}

/// The number that a string of decimal digits writes.
pub open spec fn decimal(d: Seq<char>) -> nat
    decreases d.len(),
{
    if d.len() == 0 {
        0
    } else {
        decimal(d.drop_last()) * 10 + (d.last() as u32 - 0x30) as nat
    }
}

/// A word without its leading `+`, if it has one.
pub open spec fn unsigned_part(w: Seq<char>) -> Seq<char> {
    if w.len() > 0 && w[0] == '+' {
        w.drop_first()
    } else {
        w
    }
}

/// The count that one word writes: ASCII decimal digits, optionally after a
/// `+`, for a value of at most 255.
pub open spec fn word_value(w: Seq<char>) -> Option<u8> {
    let d = unsigned_part(w);
    if d.len() > 0 && (forall|k: int| 0 <= k < d.len() ==> is_digit(d[k])) && decimal(d) <= 255 {
        Some(decimal(d) as u8)
    } else {
        None
    }
}

/// Puts the value of the word `cur` (when there is one) in front of `rest`.
pub open spec fn prepend_word(cur: Seq<char>, rest: Option<Seq<u8>>) -> Option<Seq<u8>> {
    if cur.len() == 0 {
        rest
    } else {
        match (word_value(cur), rest) {
            (Some(v), Some(r)) => Some(seq![v] + r),
            _ => None,
        }
    }
}

/// The counts written in `s`, where `cur` is a word already begun: words are
/// the maximal runs of characters that are not white space, and every one
/// must be a count.
pub open spec fn counts_from(s: Seq<char>, cur: Seq<char>) -> Option<Seq<u8>>
    decreases s.len(),
{
    if s.len() == 0 {
        prepend_word(cur, Some(Seq::empty()))
    } else if is_white(s[0]) {
        prepend_word(cur, counts_from(s.drop_first(), Seq::empty()))
    } else {
        counts_from(s.drop_first(), cur.push(s[0]))
    }
}

/// The counts that a line of counts separated by white space holds, or
/// `None` when a word of it is not a count.
pub open spec fn counts_of(s: Seq<char>) -> Option<Seq<u8>> {
    counts_from(s, Seq::empty())
}

proof fn lemma_decimal_grows(d: Seq<char>, k: int)
    requires
        0 <= k <= d.len(),
        forall|j: int| 0 <= j < d.len() ==> is_digit(d[j]),
    ensures
        decimal(d.take(k)) <= decimal(d),
    decreases d.len(),
{
    if k < d.len() {
        lemma_decimal_grows(d.drop_last(), k);
        assert(d.drop_last().take(k) =~= d.take(k));
    } else {
        assert(d.take(k) =~= d);
    }
}

fn white_char(c: char) -> (r: bool)
    ensures
        r == is_white(c),
{
    let u = c as u32;
    (0x09 <= u && u <= 0x0d) || u == 0x20 || u == 0x85 || u == 0xa0 || u == 0x1680 || (0x2000
        <= u && u <= 0x200a) || u == 0x2028 || u == 0x2029 || u == 0x202f || u == 0x205f || u
        == 0x3000
}

/// The characters of `line`, in order.
fn chars_of(line: &str) -> (r: Vec<char>)
    ensures
        r@ == line@,
{
    let n = line.unicode_len();
    let mut out: Vec<char> = Vec::with_capacity(n);
    let mut i: usize = 0;
    while i < n
        invariant
            n == line@.len(),
            i <= n,
            out@ =~= line@.take(i as int),
        decreases n - i,
    {
        out.push(line.get_char(i));
        i = i + 1;
    }
    assert(out@ =~= line@);
    out
}

/// Reads the word `line[start..end]` as a count.
fn word_count(line: &Vec<char>, start: usize, end: usize) -> (r: Option<u8>)
    requires
        start < end <= line@.len(),
    ensures
        r == word_value(line@.subrange(start as int, end as int)),
{
    let ghost w = line@.subrange(start as int, end as int);
    let mut i = start;
    if line[i] == '+' {
        i = i + 1;
    }
    let ghost d = w.skip(i - start);
    assert(d =~= unsigned_part(w));
    if i == end {
        return None;
    }
    let mut v: u16 = 0;
    let first = i;
    while i < end
        invariant
            w == line@.subrange(start as int, end as int),
            d == unsigned_part(w),
            d.len() > 0,
            start < end,
            first <= i <= end <= line@.len(),
            d =~= line@.subrange(first as int, end as int),
            forall|j: int| first <= j < i ==> is_digit(line@[j]),
            v as nat == decimal(d.take(i - first)),
            v <= 255,
        decreases end - i,
    {
        let c = line[i] as u32;
        if c < 0x30 || c > 0x39 {
            assert(d[i - first] == line@[i as int]);
            assert(!is_digit(d[i - first]));
            return None;
        }
        assert(d.take(i - first + 1).drop_last() =~= d.take(i - first));
        assert(d.take(i - first + 1).last() == line@[i as int]);
        let next = v * 10 + (c - 0x30) as u16;
        i = i + 1;
        assert(decimal(d.take(i - first)) == next);
        if next > 255 {
            proof {
                if forall|k: int| 0 <= k < d.len() ==> is_digit(d[k]) {
                    lemma_decimal_grows(d, i - first);
                }
            }
            return None;
        }
        v = next;
    }
    assert(d.take(d.len() as int) =~= d);
    Some(v as u8)
}

/// Reads a line of counts separated by white space, such as `10 5 7`.
/// Returns `None` when a word is not a decimal count from 0 to 255 (a
/// leading `+` is allowed).
pub fn parse_counts(line: &str) -> (r: Option<Vec<u8>>)
    ensures
        match r {
            Some(v) => counts_of(line@) == Some(v@),
            None => counts_of(line@) is None,
        },
{
    let cs = chars_of(line);
    let mut out: Vec<u8> = Vec::new();
    let mut start: usize = 0;
    let mut i: usize = 0;
    proof {
        assert(cs@.skip(0) =~= cs@);
        assert(cs@.subrange(0, 0) =~= Seq::<char>::empty());
        if let Some(rest) = counts_of(cs@) {
            assert(out@ + rest =~= rest);
        }
    }
    while i < cs.len()
        invariant
            cs@ == line@,
            start <= i <= cs@.len(),
            counts_of(cs@) == match counts_from(
                cs@.skip(i as int),
                cs@.subrange(start as int, i as int),
            ) {
                Some(rest) => Some(out@ + rest),
                None => None::<Seq<u8>>,
            },
        decreases cs@.len() - i,
    {
        let ghost tail = cs@.skip(i as int);
        let ghost cur = cs@.subrange(start as int, i as int);
        assert(tail.drop_first() =~= cs@.skip(i + 1));
        assert(tail[0] == cs@[i as int]);
        if white_char(cs[i]) {
            if start < i {
                match word_count(&cs, start, i) {
                    Some(v) => {
                        assert(out@.push(v) + counts_from(tail.drop_first(), Seq::empty())->Some_0
                            =~= out@ + (seq![v] + counts_from(tail.drop_first(), Seq::empty())->Some_0));
                        out.push(v);
                    },
                    None => return None,
                }
            }
            start = i + 1;
            assert(cs@.subrange(start as int, i + 1) =~= Seq::<char>::empty());
        } else {
            assert(cur.push(cs@[i as int]) =~= cs@.subrange(start as int, i + 1));
        }
        i = i + 1;
    }
    assert(cs@.skip(i as int) =~= Seq::<char>::empty());
    if start < i {
        match word_count(&cs, start, i) {
            Some(v) => {
                assert(out@.push(v) =~= out@ + (seq![v] + Seq::<u8>::empty()));
                out.push(v);
            },
            None => return None,
        }
    } else {
        assert(out@ =~= out@ + Seq::<u8>::empty());
    }
    Some(out)
}

/// `s` without its leading white space.
pub open spec fn trim_start(s: Seq<char>) -> Seq<char>
    decreases s.len(),
{
    if s.len() > 0 && is_white(s[0]) {
        trim_start(s.drop_first())
    } else {
        s
    }
}

/// `s` without its trailing white space.
pub open spec fn trim_end(s: Seq<char>) -> Seq<char>
    decreases s.len(),
{
    if s.len() > 0 && is_white(s.last()) {
        trim_end(s.drop_last())
    } else {
        s
    }
}

/// `c` is the lower-case ASCII letter `letter` or its upper-case form.
pub open spec fn same_letter(c: char, letter: char) -> bool {
    c == letter || c as u32 + 0x20 == letter as u32
}

/// `t` spells the lower-case ASCII word `word`, in any case.
///
/// Apart from the ASCII letters themselves, no character lower-cases to a
/// string holding `y`, `e`, `s`, `n` or `o` (the Kelvin sign becomes `k`, the
/// dotted capital I becomes `i` and a combining dot). So for these words,
/// comparing letter by letter decides what comparing `str::to_lowercase` of
/// `t` with the word decides.
pub open spec fn spells(t: Seq<char>, word: Seq<char>) -> bool {
    &&& t.len() == word.len()
    &&& forall|i: int| 0 <= i < t.len() ==> same_letter(#[trigger] t[i], word[i])
}

/// The answer that a line gives to a yes/no question: `y` or `yes` for yes,
/// `n` or `no` for no, in any case and with white space around it; `None` for
/// anything else.
pub open spec fn answer_of(s: Seq<char>) -> Option<bool> {
    let t = trim_end(trim_start(s));
    if spells(t, seq!['y']) || spells(t, seq!['y', 'e', 's']) {
        Some(true)
    } else if spells(t, seq!['n']) || spells(t, seq!['n', 'o']) {
        Some(false)
    } else {
        None
    }
}

fn is_letter(c: char, letter: char) -> (r: bool)
    requires
        0x61 <= letter as u32 <= 0x7a,
    ensures
        r == same_letter(c, letter),
{
    c == letter || c as u32 == letter as u32 - 0x20
}

/// Reads the answer to a yes/no question; see `answer_of`.
pub fn parse_answer(line: &str) -> (r: Option<bool>)
    ensures
        r == answer_of(line@),
{
    let cs = chars_of(line);
    let n = cs.len();
    let mut a: usize = 0;
    proof {
        assert(cs@.skip(0) =~= cs@);
    }
    while a < n && white_char(cs[a])
        invariant
            cs@ == line@,
            n == cs@.len(),
            a <= n,
            trim_start(cs@) == trim_start(cs@.skip(a as int)),
        decreases n - a,
    {
        assert(cs@.skip(a as int).drop_first() =~= cs@.skip(a + 1));
        a = a + 1;
    }
    let mut b: usize = n;
    assert(cs@.subrange(a as int, n as int) =~= cs@.skip(a as int));
    while b > a && white_char(cs[b - 1])
        invariant
            cs@ == line@,
            n == cs@.len(),
            a <= b <= n,
            trim_start(cs@) == cs@.skip(a as int),
            trim_end(trim_start(cs@)) == trim_end(cs@.subrange(a as int, b as int)),
        decreases b - a,
    {
        assert(cs@.subrange(a as int, b as int).drop_last() =~= cs@.subrange(
            a as int,
            b - 1,
        ));
        b = b - 1;
    }
    let ghost t = cs@.subrange(a as int, b as int);
    assert(trim_end(trim_start(cs@)) == t);
    let len = b - a;
    if len == 1 {
        let c = cs[a];
        assert(t[0] == c);
        if is_letter(c, 'y') {
            assert(spells(t, seq!['y']));
            Some(true)
        } else if is_letter(c, 'n') {
            assert(spells(t, seq!['n']));
            Some(false)
        } else {
            assert(!spells(t, seq!['y']) && !spells(t, seq!['n']));
            None
        }
    } else if len == 2 {
        assert(t[0] == cs[a as int] && t[1] == cs[a + 1]);
        if is_letter(cs[a], 'n') && is_letter(cs[a + 1], 'o') {
            assert(spells(t, seq!['n', 'o']));
            Some(false)
        } else {
            None
        }
    } else if len == 3 {
        assert(t[0] == cs[a as int] && t[1] == cs[a + 1] && t[2] == cs[a + 2]);
        if is_letter(cs[a], 'y') && is_letter(cs[a + 1], 'e') && is_letter(cs[a + 2], 's') {
            assert(spells(t, seq!['y', 'e', 's']));
            Some(true)
        } else {
            None
        }
    } else {
        None
    }
}

} // verus!
