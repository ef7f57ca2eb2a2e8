use vstd::prelude::*;
use crate::process::Kind;

verus! {

/// A whitespace character (Unicode's `White_Space`): it separates tokens on a line.
pub open spec fn is_blank(c: char) -> bool {
    let u = c as u32;
    (9 <= u <= 13) || u == 32 || u == 0x85 || u == 0xA0 || u == 0x1680 || (0x2000 <= u <= 0x200A)
        || u == 0x2028 || u == 0x2029 || u == 0x202F || u == 0x205F || u == 0x3000
}

/// The tokens of `s` still to come, after `done` and the token `cur` in progress: blanks
/// separate tokens, and no token is empty.
pub open spec fn tokens_acc(s: Seq<char>, done: Seq<Seq<char>>, cur: Seq<char>) -> Seq<Seq<char>>
    decreases s.len(),
{
    if s.len() == 0 {
        if cur.len() > 0 {
            done.push(cur)
        } else {
            done
        }
    } else if is_blank(s[0]) {
        tokens_acc(s.drop_first(), if cur.len() > 0 { done.push(cur) } else { done }, Seq::empty())
    } else {
        tokens_acc(s.drop_first(), done, cur.push(s[0]))
    }
}

/// The non-empty runs of non-blank characters of `s`, in order.
pub open spec fn tokens_of(s: Seq<char>) -> Seq<Seq<char>> {
    tokens_acc(s, Seq::empty(), Seq::empty())
}

/// The lines of `s` still to come, after `done` and the line `cur` in progress: a line
/// ends at a newline, and text that ends with a newline has no empty line after it.
pub open spec fn lines_acc(s: Seq<char>, done: Seq<Seq<char>>, cur: Seq<char>) -> Seq<Seq<char>>
    decreases s.len(),
{
    if s.len() == 0 {
        if cur.len() > 0 {
            done.push(cur)
        } else {
            done
        }
    } else if s[0] == '\n' {
        lines_acc(s.drop_first(), done.push(cur), Seq::empty())
    } else {
        lines_acc(s.drop_first(), done, cur.push(s[0]))
    }
}

/// The lines of `s`.
pub open spec fn lines_of(s: Seq<char>) -> Seq<Seq<char>> {
    lines_acc(s, Seq::empty(), Seq::empty())
}

/// The characters of `s`.
fn chars_of(s: &str) -> (r: Vec<char>)
    ensures
        r@ == s@,
{
    let mut v: Vec<char> = Vec::new();
    for c in it: s.chars()
        invariant
            v@ == it.seq().take(it.index() as int),
    {
        v.push(c);
    }
    proof {
        broadcast use vstd::string::axiom_spec_iter;
    }
    v
}

/// Relies on `String`'s `FromIterator<char>`: the string holds exactly the given
/// characters, in order.
#[verifier::external_body]
fn string_of(cs: &Vec<char>) -> (r: String)
    ensures
        r@ == cs@,
{
    cs.iter().collect()
}

/// The tokens of `cs[lo..hi]`.
fn split_tokens(cs: &Vec<char>, lo: usize, hi: usize) -> (r: Vec<Vec<char>>)
    requires
        lo <= hi <= cs@.len(),
    ensures
        r@.map_values(|t: Vec<char>| t@) == tokens_of(cs@.subrange(lo as int, hi as int)),
{
    let ghost s = cs@.subrange(lo as int, hi as int);
    let mut done: Vec<Vec<char>> = Vec::new();
    let mut cur: Vec<char> = Vec::new();
    let mut j: usize = lo;
    assert(done@.map_values(|t: Vec<char>| t@) =~= Seq::<Seq<char>>::empty());
    assert(cur@ =~= Seq::<char>::empty());
    while j < hi
        invariant
            lo <= j <= hi <= cs@.len(),
            s == cs@.subrange(lo as int, hi as int),
            tokens_acc(cs@.subrange(j as int, hi as int), done@.map_values(|t: Vec<char>| t@), cur@)
                == tokens_of(s),
        decreases hi - j,
    {
        let ghost rest = cs@.subrange(j as int, hi as int);
        let ghost before = done@.map_values(|t: Vec<char>| t@);
        let c = cs[j];
        assert(rest[0] == c);
        assert(rest.drop_first() =~= cs@.subrange(j + 1, hi as int));
        let u = c as u32;
        if (9 <= u && u <= 13) || u == 32 || u == 0x85 || u == 0xA0 || u == 0x1680 || (0x2000 <= u
            && u <= 0x200A) || u == 0x2028 || u == 0x2029 || u == 0x202F || u == 0x205F || u == 0x3000 {
            if cur.len() > 0 {
                let t = cur;
                done.push(t);
                assert(done@.map_values(|t: Vec<char>| t@) =~= before.push(t@));
            }
            cur = Vec::new();
        } else {
            cur.push(c);
        }
        j = j + 1;
    }
    let ghost before = done@.map_values(|t: Vec<char>| t@);
    if cur.len() > 0 {
        let t = cur;
        done.push(t);
        assert(done@.map_values(|t: Vec<char>| t@) =~= before.push(t@));
    }
    done
}

/// Splits a line into its whitespace-separated tokens, dropping empty ones.
pub fn clean_and_split_string(raw: String) -> (r: Vec<String>)
    ensures
        r@.map_values(|t: String| t@) == tokens_of(raw@),
{
    let cs = chars_of(raw.as_str());
    let toks = split_tokens(&cs, 0, cs.len());
    assert(cs@.subrange(0, cs@.len() as int) =~= cs@);
    let mut r: Vec<String> = Vec::new();
    let mut k: usize = 0;
    while k < toks.len()
        invariant
            k <= toks@.len(),
            r@.map_values(|t: String| t@) == toks@.map_values(|t: Vec<char>| t@).take(k as int),
        decreases toks@.len() - k,
    {
        let ghost before = r@.map_values(|t: String| t@);
        let ghost tv = toks@.map_values(|t: Vec<char>| t@);
        let t = string_of(&toks[k]);
        r.push(t);
        assert(tv.take(k + 1) =~= tv.take(k as int).push(tv[k as int]));
        assert(r@.map_values(|t: String| t@) =~= before.push(t@));
        k = k + 1;
    }
    assert(toks@.map_values(|t: Vec<char>| t@).take(k as int) =~= toks@.map_values(|t: Vec<char>| t@));
    r
}

/// The lines of `cs`.
fn split_lines(cs: &Vec<char>) -> (r: Vec<Vec<char>>)
    ensures
        r@.map_values(|t: Vec<char>| t@) == lines_of(cs@),
{
    let mut done: Vec<Vec<char>> = Vec::new();
    let mut cur: Vec<char> = Vec::new();
    let mut j: usize = 0;
    assert(done@.map_values(|t: Vec<char>| t@) =~= Seq::<Seq<char>>::empty());
    assert(cur@ =~= Seq::<char>::empty());
    assert(cs@.subrange(0, cs@.len() as int) =~= cs@);
    while j < cs.len()
        invariant
            j <= cs@.len(),
            lines_acc(cs@.subrange(j as int, cs@.len() as int), done@.map_values(|t: Vec<char>| t@), cur@)
                == lines_of(cs@),
        decreases cs@.len() - j,
    {
        let ghost rest = cs@.subrange(j as int, cs@.len() as int);
        let ghost before = done@.map_values(|t: Vec<char>| t@);
        let c = cs[j];
        assert(rest[0] == c);
        assert(rest.drop_first() =~= cs@.subrange(j + 1, cs@.len() as int));
        if c == '\n' {
            let t = cur;
            done.push(t);
            assert(done@.map_values(|t: Vec<char>| t@) =~= before.push(t@));
            cur = Vec::new();
            assert(cur@ =~= Seq::<char>::empty());
        } else {
            cur.push(c);
        }
        j = j + 1;
    }
    let ghost before = done@.map_values(|t: Vec<char>| t@);
    if cur.len() > 0 {
        let t = cur;
        done.push(t);
        assert(done@.map_values(|t: Vec<char>| t@) =~= before.push(t@));
    }
    done
}

/// A decimal digit.
pub open spec fn is_digit(c: char) -> bool {
    48 <= (c as u32) <= 57
}

/// The value of a run of decimal digits.
pub open spec fn digits_value(s: Seq<char>) -> nat
    decreases s.len(),
{
    if s.len() == 0 {
        0
    } else {
        digits_value(s.drop_last()) * 10 + ((s.last() as u32) - 48) as nat
    }
}

/// A token without its leading `+`, if it has one.
pub open spec fn unsigned_part(t: Seq<char>) -> Seq<char> {
    if t.len() > 0 && t[0] == '+' {
        t.drop_first()
    } else {
        t
    }
}

/// Every character is a decimal digit.
pub open spec fn all_digits(d: Seq<char>) -> bool {
    forall|i: int| 0 <= i < d.len() ==> #[trigger] is_digit(d[i])
}

/// What `u32`'s `FromStr` reads from a token: an optional `+`, then one or more decimal
/// digits whose value fits in a `u32`.
pub open spec fn decimal_of(t: Seq<char>) -> Option<u32> {
    let d = unsigned_part(t);
    if d.len() > 0 && all_digits(d) && digits_value(d) <= u32::MAX {
        Some(digits_value(d) as u32)
    } else {
        None
    }
}

/// A longer run of digits is worth at least as much as its prefix.
proof fn lemma_digits_prefix(d: Seq<char>, k: int)
    requires
        0 <= k <= d.len(),
        all_digits(d),
    ensures
        digits_value(d.take(k)) <= digits_value(d),
    decreases d.len(),
{
    if k < d.len() {
        assert(d.drop_last().take(k) =~= d.take(k));
        lemma_digits_prefix(d.drop_last(), k);
    } else {
        assert(d.take(k) =~= d);
    }
}

/// Reads a `u32` from a token, as `u32`'s `FromStr` does.
fn parse_u32(t: &Vec<char>) -> (r: Option<u32>)
    ensures
        r == decimal_of(t@),
{
    let mut start: usize = 0;
    if t.len() > 0 && t[0] == '+' {
        start = 1;
    }
    let ghost d = unsigned_part(t@);
    assert(d =~= t@.subrange(start as int, t@.len() as int));
    if start >= t.len() {
        return None;
    }
    let mut acc: u64 = 0;
    let mut j: usize = start;
    assert(d.take(0) =~= Seq::<char>::empty());
    while j < t.len()
        invariant
            start <= j <= t@.len(),
            d == unsigned_part(t@),
            d =~= t@.subrange(start as int, t@.len() as int),
            acc == digits_value(d.take(j - start)),
            acc <= u32::MAX,
            forall|i: int| 0 <= i < j - start ==> #[trigger] is_digit(d[i]),
        decreases t@.len() - j,
    {
        let c = t[j];
        assert(d[j - start] == c);
        let code = c as u32;
        if code < 48 || code > 57 {
            assert(!is_digit(d[j - start]));
            assert(!all_digits(d));
            return None;
        }
        let v: u64 = (code - 48) as u64;
        assert(d.take(j - start + 1).drop_last() =~= d.take(j - start));
        acc = acc * 10 + v;
        j = j + 1;
        if acc > u32::MAX as u64 {
            proof {
                if all_digits(d) {
                    lemma_digits_prefix(d, j - start);
                }
            }
            return None;
        }
    }
    assert(d.take(j - start) =~= d);
    Some(acc as u32)
}

/// Why a workload text cannot be loaded; `line` counts from one.
#[derive(Clone, Copy, Debug, PartialEq, Eq, Structural)]
pub enum LoadError {
    /// The first line of a record lacks a name followed by a numeric arrival time.
    BadHeader { line: usize },
    /// A record's first line is the last line of the text.
    MissingHistory { line: usize },
    /// An instruction's kind is none of `C`, `I` and `O`.
    BadKind { line: usize },
    /// An instruction's duration is missing, not a number that fits in a `u32`, or zero.
    BadDuration { line: usize },
    /// A record's history holds no instruction.
    EmptyHistory { line: usize },
    /// The workload has more processes than there are ids.
    TooManyProcesses,
}

/// One record of a workload: a process's name, arrival time and history.
pub struct ProcessRecord {
    pub name: String,
    pub arrival: u32,
    pub history: Vec<(Kind, u32)>,
}

pub struct RecordView {
    pub name: Seq<char>,
    pub arrival: u32,
    pub history: Seq<(Kind, u32)>,
}

impl View for ProcessRecord {
    type V = RecordView;

    open spec fn view(&self) -> RecordView {
        RecordView { name: self.name@, arrival: self.arrival, history: self.history@ }
    }
}

/// The kind that a token names: `C`, `I` or `O`.
pub open spec fn kind_of(t: Seq<char>) -> Option<Kind> {
    if t == seq!['C'] {
        Some(Kind::Compute)
    } else if t == seq!['I'] {
        Some(Kind::InputIO)
    } else if t == seq!['O'] {
        Some(Kind::OutputIO)
    } else {
        None
    }
}

/// A sentinel token: `N` or `STOPHERE`.
pub open spec fn is_sentinel(t: Seq<char>) -> bool {
    t == seq!['N'] || t == seq!['S', 'T', 'O', 'P', 'H', 'E', 'R', 'E']
}

/// `r` with `p` put in front of its value.
pub open spec fn prefixed<T>(p: Seq<T>, r: Result<Seq<T>, LoadError>) -> Result<Seq<T>, LoadError> {
    match r {
        Ok(s) => Ok(p + s),
        Err(e) => Err(e),
    }
}

/// The instructions that the tokens of a history line give: kind and duration pairs, up
/// to the end of the line or a sentinel token in a kind's place. A sentinel here ends only
/// this record's history, not the workload: files commonly end every history with `N 0`,
/// and a sentinel that ended the file there would leave at most one process in it. A
/// sentinel ends the workload where a record would start (see `parse_records`).
pub open spec fn parse_history(toks: Seq<Seq<char>>, line: usize) -> Result<Seq<(Kind, u32)>, LoadError>
    decreases toks.len(),
{
    if toks.len() == 0 || is_sentinel(toks[0]) {
        Ok(Seq::empty())
    } else if kind_of(toks[0]) is None {
        Err(LoadError::BadKind { line })
    } else if toks.len() < 2 || decimal_of(toks[1]) is None || decimal_of(toks[1])->0 == 0 {
        Err(LoadError::BadDuration { line })
    } else {
        prefixed(seq![(kind_of(toks[0])->0, decimal_of(toks[1])->0)], parse_history(toks.skip(2), line))
    }
}

/// The records of a workload from line `i` (counted from zero) on. A record is a line with
/// a name and an arrival time, then a line with its history. Blank lines between records
/// are passed over; a line that starts with a sentinel token where a record would start
/// ends the workload, as does the end of the text.
pub open spec fn parse_records(lines: Seq<Seq<char>>, i: nat) -> Result<Seq<RecordView>, LoadError>
    decreases lines.len() - i,
{
    if i >= lines.len() {
        Ok(Seq::empty())
    } else {
        let head = tokens_of(lines[i as int]);
        if head.len() == 0 {
            parse_records(lines, i + 1)
        } else if is_sentinel(head[0]) {
            Ok(Seq::empty())
        } else if head.len() < 2 || decimal_of(head[1]) is None {
            Err(LoadError::BadHeader { line: (i + 1) as usize })
        } else if i + 1 >= lines.len() {
            Err(LoadError::MissingHistory { line: (i + 1) as usize })
        } else {
            match parse_history(tokens_of(lines[i + 1int]), (i + 2) as usize) {
                Err(e) => Err(e),
                Ok(h) => if h.len() == 0 {
                    Err(LoadError::EmptyHistory { line: (i + 2) as usize })
                } else {
                    prefixed(
                        seq![RecordView { name: head[0], arrival: decimal_of(head[1])->0, history: h }],
                        parse_records(lines, i + 2),
                    )
                },
            }
        }
    }
}

/// The records of a workload text.
pub open spec fn workload_of(text: Seq<char>) -> Result<Seq<RecordView>, LoadError> {
    parse_records(lines_of(text), 0)
}

/// Whether token `t` is the word `w`.
fn token_is(t: &Vec<char>, w: &[char]) -> (r: bool)
    ensures
        r == (t@ == w@),
{
    if t.len() != w.len() {
        return false;
    }
    let mut j: usize = 0;
    while j < t.len()
        invariant
            j <= t@.len() == w@.len(),
            forall|k: int| 0 <= k < j ==> t@[k] == w@[k],
        decreases t@.len() - j,
    {
        if t[j] != w[j] {
            return false;
        }
        j = j + 1;
    }
    assert(t@ =~= w@);
    true
}

/// Whether token `t` is a sentinel.
fn token_is_sentinel(t: &Vec<char>) -> (r: bool)
    ensures
        r == is_sentinel(t@),
{
    let n = ['N'];
    let stop = ['S', 'T', 'O', 'P', 'H', 'E', 'R', 'E'];
    assert(n@ =~= seq!['N']);
    assert(stop@ =~= seq!['S', 'T', 'O', 'P', 'H', 'E', 'R', 'E']);
    token_is(t, &n) || token_is(t, &stop)
}

/// The kind that token `t` names.
fn token_kind(t: &Vec<char>) -> (r: Option<Kind>)
    ensures
        r == kind_of(t@),
{
    let c = ['C'];
    let i = ['I'];
    let o = ['O'];
    assert(c@ =~= seq!['C']);
    assert(i@ =~= seq!['I']);
    assert(o@ =~= seq!['O']);
    if token_is(t, &c) {
        Some(Kind::Compute)
    } else if token_is(t, &i) {
        Some(Kind::InputIO)
    } else if token_is(t, &o) {
        Some(Kind::OutputIO)
    } else {
        None
    }
}

/// The instructions that the tokens of a history line give.
fn read_history(toks: &Vec<Vec<char>>, line: usize) -> (r: Result<Vec<(Kind, u32)>, LoadError>)
    ensures
        match (r, parse_history(toks@.map_values(|t: Vec<char>| t@), line)) {
            (Ok(h), Ok(s)) => h@ == s,
            (Err(e), Err(f)) => e == f,
            _ => false,
        },
{
    let ghost tv = toks@.map_values(|t: Vec<char>| t@);
    let mut h: Vec<(Kind, u32)> = Vec::new();
    let mut k: usize = 0;
    assert(tv.skip(0) =~= tv);
    assert(h@ + Seq::<(Kind, u32)>::empty() =~= h@);
    loop
        invariant
            k <= toks@.len(),
            tv == toks@.map_values(|t: Vec<char>| t@),
            parse_history(tv, line) == prefixed(h@, parse_history(tv.skip(k as int), line)),
        decreases toks@.len() - k,
    {
        let ghost rest = tv.skip(k as int);
        if k >= toks.len() {
            assert(h@ + Seq::<(Kind, u32)>::empty() =~= h@);
            return Ok(h);
        }
        assert(rest[0] == toks@[k as int]@);
        if token_is_sentinel(&toks[k]) {
            assert(h@ + Seq::<(Kind, u32)>::empty() =~= h@);
            return Ok(h);
        }
        match token_kind(&toks[k]) {
            None => {
                return Err(LoadError::BadKind { line });
            },
            Some(kind) => {
                if k + 1 >= toks.len() {
                    return Err(LoadError::BadDuration { line });
                }
                assert(rest[1] == toks@[k + 1]@);
                match parse_u32(&toks[k + 1]) {
                    None => {
                        return Err(LoadError::BadDuration { line });
                    },
                    Some(d) => {
                        if d == 0 {
                            return Err(LoadError::BadDuration { line });
                        }
                        let ghost before = h@;
                        h.push((kind, d));
                        k = k + 2;
                        assert(rest.skip(2) =~= tv.skip(k as int));
                        assert(forall|x: Seq<(Kind, u32)>| before + (seq![(kind, d)] + x) =~= h@ + x);
                    },
                }
            },
        }
    }
}

/// Reads the records of a workload text: each record is a line with a name and an arrival
/// time, then a line of kind and duration pairs (`C`, `I`, `O`), ended by the end of the
/// line or a sentinel (`N` or `STOPHERE`). A sentinel where a record would start ends the
/// workload. Fails on the first malformed record, naming its line.
pub fn parse_workload(text: &str) -> (r: Result<Vec<ProcessRecord>, LoadError>)
    ensures
        match (r, workload_of(text@)) {
            (Ok(v), Ok(s)) => v@.map_values(|p: ProcessRecord| p@) == s,
            (Err(e), Err(f)) => e == f,
            _ => false,
        },
{
    let cs = chars_of(text);
    let lines = split_lines(&cs);
    let ghost lv = lines@.map_values(|t: Vec<char>| t@);
    let mut out: Vec<ProcessRecord> = Vec::new();
    let mut i: usize = 0;
    assert(out@.map_values(|p: ProcessRecord| p@) + Seq::<RecordView>::empty() =~= Seq::<RecordView>::empty());
    loop
        invariant
            i <= lines@.len(),
            lv == lines@.map_values(|t: Vec<char>| t@),
            lv == lines_of(text@),
            workload_of(text@) == prefixed(out@.map_values(|p: ProcessRecord| p@), parse_records(lv, i as nat)),
        decreases lines@.len() - i,
    {
        let ghost ov = out@.map_values(|p: ProcessRecord| p@);
        if i >= lines.len() {
            assert(ov + Seq::<RecordView>::empty() =~= ov);
            return Ok(out);
        }
        assert(lv[i as int] == lines@[i as int]@);
        let line = &lines[i];
        let head = split_tokens(line, 0, line.len());
        assert(line@.subrange(0, line@.len() as int) =~= line@);
        let ghost hv = head@.map_values(|t: Vec<char>| t@);
        if head.len() == 0 {
            i = i + 1;
        } else {
            assert(hv[0] == head@[0]@);
            if token_is_sentinel(&head[0]) {
                assert(ov + Seq::<RecordView>::empty() =~= ov);
                return Ok(out);
            }
            if head.len() < 2 {
                return Err(LoadError::BadHeader { line: i + 1 });
            }
            assert(hv[1] == head@[1]@);
            let arrival = match parse_u32(&head[1]) {
                None => {
                    return Err(LoadError::BadHeader { line: i + 1 });
                },
                Some(a) => a,
            };
            if i + 1 >= lines.len() {
                return Err(LoadError::MissingHistory { line: i + 1 });
            }
            let hline = &lines[i + 1];
            assert(lv[i + 1] == lines@[i + 1]@);
            let toks = split_tokens(hline, 0, hline.len());
            assert(hline@.subrange(0, hline@.len() as int) =~= hline@);
            let history = match read_history(&toks, i + 2) {
                Err(e) => {
                    return Err(e);
                },
                Ok(h) => h,
            };
            if history.len() == 0 {
                return Err(LoadError::EmptyHistory { line: i + 2 });
            }
            let name = string_of(&head[0]);
            let rec = ProcessRecord { name, arrival, history };
            let ghost rv = rec@;
            out.push(rec);
            i = i + 2;
            assert(out@.map_values(|p: ProcessRecord| p@) =~= ov.push(rv));
            assert(forall|x: Seq<RecordView>| ov + (seq![rv] + x) =~= ov.push(rv) + x);
        }
    }
}

} // verus!
