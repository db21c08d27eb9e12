//! Loading the dictionary from the lines of a word list.

use vstd::prelude::*;
use crate::classes::{is_space, is_digit, space, digit};
use crate::dict::{Jieba, with_word};
use crate::split::sub_chars;
use crate::text::to_chars;

verus! {

/// Why a line of a word list is refused.
#[derive(Clone, Copy, Debug, PartialEq, Eq, Structural)]
pub enum Reason {
    /// The line holds no second field.
    MissingFrequency,
    /// The second field is no decimal number that fits the machine word.
    InvalidFrequency,
    /// With this line the sum of the frequencies leaves the machine word.
    TotalOverflow,
}

/// A word list that cannot be loaded: the line, counted from 1, and the reason.
#[derive(Clone, Copy, Debug, PartialEq, Eq, Structural)]
pub enum DictError {
    BadDictionary { line_no: usize, reason: Reason },
}

/// The first position from `i` on that holds no white space.
pub open spec fn skip_space(s: Seq<char>, i: int) -> int
    decreases s.len() - i,
{
    if 0 <= i < s.len() && is_space(s[i]) {
        skip_space(s, i + 1)
    } else {
        i
    }
}

/// The position behind the last character before `j` that is no white space,
/// not going below `lo`.
pub open spec fn back_space(s: Seq<char>, lo: int, j: int) -> int
    decreases j - lo,
{
    if lo < j <= s.len() && is_space(s[j - 1]) {
        back_space(s, lo, j - 1)
    } else {
        j
    }
}

/// The line without the white space at its start and at its end.
pub open spec fn trimmed(s: Seq<char>) -> Seq<char> {
    let a = skip_space(s, 0);
    s.subrange(a, back_space(s, a, s.len() as int))
}

/// The first position from `i` on that holds a space character, or the length.
pub open spec fn find_sp(s: Seq<char>, i: int) -> int
    decreases s.len() - i,
{
    if 0 <= i < s.len() && s[i] != ' ' {
        find_sp(s, i + 1)
    } else {
        i
    }
}

/// All characters are decimal digits, and there is at least one.
pub open spec fn is_decimal(s: Seq<char>) -> bool {
    s.len() > 0 && forall|i: int| 0 <= i < s.len() ==> is_digit(#[trigger] s[i])
}

/// The number that a sequence of decimal digits denotes.
pub open spec fn decimal_value(s: Seq<char>) -> nat
    decreases s.len(),
{
    if s.len() == 0 {
        0
    } else {
        decimal_value(s.drop_last()) * 10 + ((s.last() as u32 - 0x30) as nat)
    }
}

/// The frequency that a field denotes, if it denotes one.
pub open spec fn freq_of(s: Seq<char>) -> Option<usize> {
    if is_decimal(s) && decimal_value(s) <= usize::MAX {
        Some(decimal_value(s) as usize)
    } else {
        None
    }
}

/// The record of a line: the trimmed line is divided at single spaces, its
/// first field is the word and its second field the frequency; further fields
/// are not read.
pub open spec fn parse_spec(line: Seq<char>) -> Result<(Seq<char>, usize), Reason> {
    let t = trimmed(line);
    let a = find_sp(t, 0);
    if a >= t.len() {
        Err(Reason::MissingFrequency)
    } else {
        match freq_of(t.subrange(a + 1, find_sp(t, a + 1))) {
            Some(f) => Ok((t.subrange(0, a), f)),
            None => Err(Reason::InvalidFrequency),
        }
    }
}

proof fn lemma_decimal_grows(s: Seq<char>, i: int)
    requires
        0 <= i <= s.len(),
    ensures
        decimal_value(s.subrange(0, i)) <= decimal_value(s),
    decreases s.len() - i,
{
    if i < s.len() {
        lemma_decimal_grows(s, i + 1);
        assert(s.subrange(0, i + 1).drop_last() =~= s.subrange(0, i));
    } else {
        assert(s.subrange(0, i) =~= s);
    }
}

/// The line without the white space at its start and at its end.
pub fn trim(line: &Vec<char>) -> (r: Vec<char>)
    ensures
        r@ == trimmed(line@),
{
    let n: usize = line.len();
    let mut a: usize = 0;
    while a < n && space(line[a])
        invariant
            n == line.len(),
            a <= n,
            skip_space(line@, a as int) == skip_space(line@, 0),
        decreases n - a,
    {
        a += 1;
    }
    let mut b: usize = n;
    while b > a && space(line[b - 1])
        invariant
            n == line.len(),
            a <= b <= n,
            back_space(line@, a as int, b as int) == back_space(line@, a as int, n as int),
        decreases b - a,
    {
        b -= 1;
    }
    sub_chars(line, a, b)
}

/// The first position from `from` on that holds a space character.
pub fn find_space(t: &Vec<char>, from: usize) -> (r: usize)
    requires
        from <= t.len(),
    ensures
        r == find_sp(t@, from as int),
        from <= r <= t.len(),
{
    let n: usize = t.len();
    let mut i: usize = from;
    while i < n && t[i] != ' '
        invariant
            n == t.len(),
            from <= i <= n,
            find_sp(t@, i as int) == find_sp(t@, from as int),
        decreases n - i,
    {
        i += 1;
    }
    i
}

/// Reads a field as a decimal number.
pub fn parse_freq(field: &Vec<char>) -> (r: Option<usize>)
    ensures
        r == freq_of(field@),
{
    let ghost s = field@;
    let n: usize = field.len();
    if n == 0 {
        return None;
    }
    let mut v: usize = 0;
    let mut i: usize = 0;
    assert(s.subrange(0, 0) =~= Seq::<char>::empty());
    while i < n
        invariant
            s == field@,
            n == s.len(),
            i <= n,
            forall|j: int| 0 <= j < i ==> is_digit(#[trigger] s[j]),
            v == decimal_value(s.subrange(0, i as int)),
        decreases n - i,
    {
        let c: char = field[i];
        if !digit(c) {
            return None;
        }
        let d: usize = (c as u32 - 0x30) as usize;
        proof {
            assert(s.subrange(0, i + 1).drop_last() =~= s.subrange(0, i as int));
            assert(s.subrange(0, i + 1).last() == c);
            lemma_decimal_grows(s, i + 1);
        }
        if v > (usize::MAX - d) / 10 {
            assert(decimal_value(s.subrange(0, i + 1)) > usize::MAX);
            return None;
        }
        v = v * 10 + d;
        i += 1;
    }
    assert(s.subrange(0, n as int) =~= s);
    Some(v)
}

/// Reads one line of a word list.
pub fn parse_line(line: &Vec<char>) -> (r: Result<(Vec<char>, usize), Reason>)
    ensures
        match r {
            Ok(rec) => parse_spec(line@) == Ok::<(Seq<char>, usize), Reason>((rec.0@, rec.1)),
            Err(e) => parse_spec(line@) == Err::<(Seq<char>, usize), Reason>(e),
        },
{
    let t = trim(line);
    let a: usize = find_space(&t, 0);
    if a >= t.len() {
        return Err(Reason::MissingFrequency);
    }
    let b: usize = find_space(&t, a + 1);
    let field = sub_chars(&t, a + 1, b);
    match parse_freq(&field) {
        Some(f) => Ok((sub_chars(&t, 0, a), f)),
        None => Err(Reason::InvalidFrequency),
    }
}

/// The line holds white space only.
pub open spec fn is_blank(line: Seq<char>) -> bool {
    trimmed(line).len() == 0
}

/// The number of lines up to the last one that is not blank.
pub open spec fn body_len(lines: Seq<String>) -> int
    decreases lines.len(),
{
    if lines.len() > 0 && is_blank(lines.last()@) {
        body_len(lines.drop_last())
    } else {
        lines.len() as int
    }
}

/// What loading the lines `i..len` into the entries `m` with the total `total`
/// gives: the entries and total after the last line, or the first line that
/// is refused.
pub open spec fn load_spec(
    lines: Seq<String>,
    len: int,
    i: int,
    m: Map<Seq<char>, usize>,
    total: int,
) -> Result<(Map<Seq<char>, usize>, int), DictError>
    decreases len - i,
{
    if i < 0 || i >= len || i >= lines.len() {
        Ok((m, total))
    } else {
        match parse_spec(lines[i]@) {
            Err(reason) => Err(DictError::BadDictionary { line_no: (i + 1) as usize, reason }),
            Ok(rec) => if total + rec.1 > usize::MAX {
                Err(
                    DictError::BadDictionary {
                        line_no: (i + 1) as usize,
                        reason: Reason::TotalOverflow,
                    },
                )
            } else {
                load_spec(lines, len, i + 1, with_word(m, rec.0, rec.1), total + rec.1)
            },
        }
    }
}

/// The entries after the first `j` records were stored, one after the other.
pub open spec fn stored(m: Map<Seq<char>, usize>, recs: Seq<(Vec<char>, usize)>, j: int) -> Map<
    Seq<char>,
    usize,
>
    decreases j,
{
    if j <= 0 || j > recs.len() {
        m
    } else {
        with_word(stored(m, recs, j - 1), recs[j - 1].0@, recs[j - 1].1)
    }
}

proof fn lemma_stored_push(
    m: Map<Seq<char>, usize>,
    recs: Seq<(Vec<char>, usize)>,
    r: (Vec<char>, usize),
    j: int,
)
    requires
        0 <= j <= recs.len(),
    ensures
        stored(m, recs.push(r), j) == stored(m, recs, j),
    decreases j,
{
    if j > 0 {
        lemma_stored_push(m, recs, r, j - 1);
    }
}

impl Jieba {
    /// A segmenter with the dictionary that the lines of a word list hold.
    pub fn from_dict(lines: &Vec<String>) -> (r: Result<Jieba, DictError>)
        ensures
            match load_spec(lines@, body_len(lines@), 0, crate::dict::no_entries(), 0) {
                Ok(end) => r is Ok && r->Ok_0.wf() && r->Ok_0.entries() == end.0
                    && r->Ok_0.total_freq() == end.1,
                Err(e) => r is Err && r->Err_0 == e,
            },
    {
        let mut jieba = Jieba::empty();
        match jieba.load_dict(lines) {
            Ok(()) => Ok(jieba),
            Err(e) => Err(e),
        }
    }

    /// Loads the lines of a word list. Blank lines at the end are passed
    /// over. Every other line must hold a word and a frequency; the word is
    /// stored with that frequency, which replaces an earlier one, and the
    /// frequency is added to the total. Where a line is refused nothing is
    /// stored at all.
    pub fn load_dict(&mut self, lines: &Vec<String>) -> (r: Result<(), DictError>)
        requires
            old(self).wf(),
        ensures
            final(self).wf(),
            match load_spec(
                lines@,
                body_len(lines@),
                0,
                old(self).entries(),
                old(self).total_freq() as int,
            ) {
                Ok(end) => r is Ok && final(self).entries() == end.0 && final(self).total_freq()
                    == end.1,
                Err(e) => r == Err::<(), DictError>(e) && final(self).entries() == old(
                    self,
                ).entries() && final(self).total_freq() == old(self).total_freq(),
            },
    {
        let ghost m0 = self.entries();
        let ghost t0 = self.total_freq() as int;
        let ghost ls = lines@;
        let mut len: usize = lines.len();
        assert(ls.subrange(0, len as int) =~= ls);
        let mut scanning: bool = true;
        while scanning && len > 0
            invariant
                ls == lines@,
                len <= ls.len(),
                body_len(ls.subrange(0, len as int)) == body_len(ls),
                !scanning ==> len > 0 && !is_blank(ls[len - 1]@),
            decreases len + (if scanning { 1int } else { 0int }),
        {
            let line = to_chars(lines[len - 1].as_str());
            let t = trim(&line);
            if t.len() > 0 {
                scanning = false;
            } else {
                assert(ls.subrange(0, len as int).drop_last() =~= ls.subrange(0, len - 1));
                len -= 1;
            }
        }
        assert(len > 0 ==> ls.subrange(0, len as int).last() == ls[len - 1]);
        assert(body_len(ls) == len);
        let ghost whole = load_spec(ls, len as int, 0, m0, t0);
        let mut recs: Vec<(Vec<char>, usize)> = Vec::new();
        let mut total: usize = self.total();
        let mut i: usize = 0;
        while i < len
            invariant
                ls == lines@,
                len <= ls.len(),
                i <= len,
                recs.len() == i,
                len == body_len(ls),
                m0 == old(self).entries(),
                t0 == old(self).total_freq(),
                whole == load_spec(ls, len as int, 0, m0, t0),
                whole == load_spec(
                    ls,
                    len as int,
                    i as int,
                    stored(m0, recs@, recs.len() as int),
                    total as int,
                ),
                self.entries() == m0,
                self.total_freq() == t0,
                self.wf(),
            decreases len - i,
        {
            let line = to_chars(lines[i].as_str());
            match parse_line(&line) {
                Err(reason) => {
                    return Err(DictError::BadDictionary { line_no: i + 1, reason });
                },
                Ok(rec) => {
                    if rec.1 > usize::MAX - total {
                        return Err(
                            DictError::BadDictionary {
                                line_no: i + 1,
                                reason: Reason::TotalOverflow,
                            },
                        );
                    }
                    total = total + rec.1;
                    proof {
                        lemma_stored_push(m0, recs@, rec, recs.len() as int);
                    }
                    recs.push(rec);
                },
            }
            i += 1;
        }
        let ghost end = stored(m0, recs@, recs.len() as int);
        assert(whole == Ok::<(Map<Seq<char>, usize>, int), DictError>((end, total as int)));
        let mut j: usize = 0;
        while j < len
            invariant
                j <= len,
                recs.len() == len,
                self.wf(),
                self.entries() == stored(m0, recs@, j as int),
            decreases len - j,
        {
            self.store(&recs[j].0, recs[j].1);
            j += 1;
        }
        self.set_total(total);
        Ok(())
    }
}

} // verus!
