//! Scratch files: how a selection of them is read from the command line, which
//! of them a history listing shows and under which index, which one a pick
//! names, the order they are listed in, and the name a new one gets.
use vstd::prelude::*;
use vstd::string::*;

use crate::text::{
    decimal, lemma_pieces_up_to_pair, lemma_pieces_without_pairs, pieces_between, u128_to_string,
};

verus! {

/// Why a number could not be read, as std's reading of an unsigned integer
/// tells it.
#[derive(Debug, PartialEq, Eq, Clone, Copy, Structural)]
pub enum NumberError {
    Empty,
    InvalidDigit,
    PosOverflow,
}

/// Why a selection could not be read: one of its numbers, or its shape.
#[derive(Debug, PartialEq, Eq, Clone, Copy, Structural)]
pub enum SelectionError {
    Number(NumberError),
    Shape,
}

/// A part of the history: the indexes from `start` to `end`, both included, or
/// a single index.
#[derive(Debug, PartialEq, Eq, Clone, Copy, Structural)]
pub enum HistorySubsetSelection {
    Range { start: usize, end: usize },
    Single(usize),
}

/// How files are counted: back from the newest, or on from the oldest.
#[derive(Debug, PartialEq, Eq, Clone, Copy, Structural)]
pub enum HistoryIndexMode {
    Ago,
    Since,
}

pub open spec fn is_digit(b: u8) -> bool {
    48 <= b <= 57
}

/// The value of the digits `d` read from the left, as std reads an unsigned
/// integer: the first byte that is no digit, or the first digit that takes the
/// value past `usize::MAX`, decides the error.
pub open spec fn digits_value(d: Seq<u8>) -> Result<nat, NumberError>
    decreases d.len(),
{
    if d.len() == 0 {
        Ok(0)
    } else {
        match digits_value(d.drop_last()) {
            Err(e) => Err(e),
            Ok(v) => if !is_digit(d.last()) {
                Err(NumberError::InvalidDigit)
            } else if v * 10 + (d.last() - 48) > usize::MAX {
                Err(NumberError::PosOverflow)
            } else {
                Ok((v * 10 + (d.last() - 48)) as nat)
            },
        }
    }
}

/// The number the text `s` holds, as `usize::from_str` reads it: one optional
/// leading `+`, then decimal digits.
pub open spec fn number_of(s: Seq<u8>) -> Result<usize, NumberError> {
    if s.len() == 0 {
        Err(NumberError::Empty)
    } else if s.len() == 1 && (s[0] == 43 || s[0] == 45) {
        Err(NumberError::InvalidDigit)
    } else {
        let d = if s[0] == 43 {
            s.drop_first()
        } else {
            s
        };
        match digits_value(d) {
            Ok(v) => Ok(v as usize),
            Err(e) => Err(e),
        }
    }
}

/// The pieces of `s` between its `..`, as `str::split` gives them.
pub open spec fn pieces(s: Seq<u8>) -> Seq<Seq<u8>> {
    pieces_between(s, 46u8, 0, 0)
}

/// The numbers of `parts`, read in order; the first that fails decides.
pub open spec fn numbers_of(parts: Seq<Seq<u8>>) -> Result<Seq<usize>, NumberError>
    decreases parts.len(),
{
    if parts.len() == 0 {
        Ok(Seq::empty())
    } else {
        match numbers_of(parts.drop_last()) {
            Err(e) => Err(e),
            Ok(ns) => match number_of(parts.last()) {
                Ok(n) => Ok(ns.push(n)),
                Err(e) => Err(e),
            },
        }
    }
}

/// The selection the text `s` names: `n` names one index, `l..r` the indexes
/// from `l` to `r`.
pub open spec fn selection_of(s: Seq<u8>) -> Result<HistorySubsetSelection, SelectionError> {
    match numbers_of(pieces(s)) {
        Err(e) => Err(SelectionError::Number(e)),
        Ok(ns) => if ns.len() == 2 {
            Ok(HistorySubsetSelection::Range { start: ns[0], end: ns[1] })
        } else if ns.len() == 1 {
            Ok(HistorySubsetSelection::Single(ns[0]))
        } else {
            Err(SelectionError::Shape)
        },
    }
}

proof fn lemma_digits_error_stays(d: Seq<u8>, k: int)
    requires
        0 <= k <= d.len(),
        digits_value(d.subrange(0, k)) is Err,
    ensures
        digits_value(d) == digits_value(d.subrange(0, k)),
    decreases d.len() - k,
{
    if k < d.len() {
        assert(d.subrange(0, k + 1).drop_last() =~= d.subrange(0, k));
        lemma_digits_error_stays(d, k + 1);
    } else {
        assert(d.subrange(0, k) =~= d);
    }
}

proof fn lemma_numbers_error_stays(a: Seq<Seq<u8>>, b: Seq<Seq<u8>>)
    requires
        numbers_of(a) is Err,
    ensures
        numbers_of(a + b) == numbers_of(a),
    decreases b.len(),
{
    if b.len() == 0 {
        assert(a + b =~= a);
    } else {
        lemma_numbers_error_stays(a, b.drop_last());
        assert((a + b).drop_last() =~= a + b.drop_last());
    }
}

/// The number held by the bytes `b[lo..hi]`.
fn read_number(b: &[u8], lo: usize, hi: usize) -> (r: Result<usize, NumberError>)
    requires
        lo <= hi <= b@.len(),
    ensures
        r == number_of(b@.subrange(lo as int, hi as int)),
{
    let ghost s = b@.subrange(lo as int, hi as int);
    if lo == hi {
        return Err(NumberError::Empty);
    }
    proof {
        assert(s[0] == b@[lo as int]);
        assert(s.len() == hi - lo);
    }
    if hi - lo == 1 && (b[lo] == 43 || b[lo] == 45) {
        return Err(NumberError::InvalidDigit);
    }
    let first: usize = if b[lo] == 43 {
        lo + 1
    } else {
        lo
    };
    let ghost d = b@.subrange(first as int, hi as int);
    proof {
        if b[lo as int] == 43 {
            assert(s.drop_first() =~= d);
        } else {
            assert(s =~= d);
        }
    }
    let mut v: usize = 0;
    let mut i: usize = first;
    proof {
        assert(d.subrange(0, 0) =~= Seq::<u8>::empty());
    }
    while i < hi
        invariant
            first <= i <= hi <= b@.len(),
            d == b@.subrange(first as int, hi as int),
            digits_value(d.subrange(0, i - first)) == Ok::<nat, NumberError>(v as nat),
            number_of(b@.subrange(lo as int, hi as int)) == (match digits_value(d) {
                Ok(w) => Ok::<usize, NumberError>(w as usize),
                Err(e) => Err(e),
            }),
        decreases hi - i,
    {
        let c = b[i];
        proof {
            assert(d.subrange(0, i - first + 1).drop_last() =~= d.subrange(0, i - first));
            assert(d.subrange(0, i - first + 1).last() == c);
        }
        if c < 48 || c > 57 {
            proof {
                assert(digits_value(d.subrange(0, i - first + 1)) == Err::<nat, NumberError>(
                    NumberError::InvalidDigit,
                ));
                lemma_digits_error_stays(d, i - first + 1);
            }
            return Err(NumberError::InvalidDigit);
        }
        let x = (c - 48) as usize;
        match v.checked_mul(10) {
            None => {
                proof {
                    assert(digits_value(d.subrange(0, i - first + 1)) == Err::<nat, NumberError>(
                        NumberError::PosOverflow,
                    ));
                    lemma_digits_error_stays(d, i - first + 1);
                }
                return Err(NumberError::PosOverflow);
            },
            Some(t) => match t.checked_add(x) {
                None => {
                    proof {
                        assert(digits_value(d.subrange(0, i - first + 1)) == Err::<nat, NumberError>(
                            NumberError::PosOverflow,
                        ));
                        lemma_digits_error_stays(d, i - first + 1);
                    }
                    return Err(NumberError::PosOverflow);
                },
                Some(w) => {
                    v = w;
                },
            },
        }
        i = i + 1;
    }
    proof {
        assert(d.subrange(0, hi - first) =~= d);
        assert(digits_value(d) == Ok::<nat, NumberError>(v as nat));
    }
    Ok(v)
}

impl HistorySubsetSelection {
    /// Reads a selection: a number like `1`, or a range like `1..3`.
    pub fn from_str(s: &str) -> (r: Result<HistorySubsetSelection, SelectionError>)
        ensures
            r == selection_of(s.spec_bytes()),
    {
        let b = s.as_bytes();
        let ghost bs = b@;
        let n = b.len();
        let mut nums: Vec<usize> = Vec::new();
        let ghost mut done: Seq<Seq<u8>> = Seq::empty();
        let mut start: usize = 0;
        let mut i: usize = 0;
        loop
            invariant_except_break
                pieces(bs) == done + pieces_between(bs, 46u8, start as int, i as int),
                numbers_of(done) == Ok::<Seq<usize>, NumberError>(nums@),
            invariant
                b@ == bs,
                bs == s.spec_bytes(),
                n == bs.len(),
                start <= i <= n,
            ensures
                numbers_of(pieces(bs)) == Ok::<Seq<usize>, NumberError>(nums@),
            decreases n - i,
        {
            if n - i <= 1 {
                let r = read_number(b, start, n);
                let ghost p = bs.subrange(start as int, n as int);
                proof {
                    assert(pieces_between(bs, 46u8, start as int, i as int) == seq![p]);
                    assert(done + seq![p] =~= done.push(p));
                    assert(done.push(p).drop_last() =~= done);
                }
                match r {
                    Ok(v) => {
                        nums.push(v);
                        break ;
                    },
                    Err(e) => {
                        return Err(SelectionError::Number(e));
                    },
                }
            } else if b[i] == 46 && b[i + 1] == 46 {
                let r = read_number(b, start, i);
                let ghost p = bs.subrange(start as int, i as int);
                let ghost rest = pieces_between(bs, 46u8, i + 2, i + 2);
                proof {
                    assert(pieces_between(bs, 46u8, start as int, i as int) == seq![p] + rest);
                    assert(done + (seq![p] + rest) =~= done.push(p) + rest);
                    assert(done.push(p).drop_last() =~= done);
                }
                match r {
                    Ok(v) => {
                        nums.push(v);
                        proof {
                            done = done.push(p);
                        }
                        start = i + 2;
                        i = i + 2;
                    },
                    Err(e) => {
                        proof {
                            lemma_numbers_error_stays(done.push(p), rest);
                        }
                        return Err(SelectionError::Number(e));
                    },
                }
            } else {
                i = i + 1;
            }
        }
        if nums.len() == 2 {
            Ok(HistorySubsetSelection::Range { start: nums[0], end: nums[1] })
        } else if nums.len() == 1 {
            Ok(HistorySubsetSelection::Single(nums[0]))
        } else {
            Err(SelectionError::Shape)
        }
    }
}

impl SelectionError {
    /// What the error says.
    pub fn message(&self) -> (r: &'static str)
        ensures
            r@ == selection_error_text(*self),
    {
        match self {
            SelectionError::Number(NumberError::Empty) => "cannot parse integer from empty string",
            SelectionError::Number(NumberError::InvalidDigit) => "invalid digit found in string",
            SelectionError::Number(NumberError::PosOverflow) => "number too large to fit in target type",
            SelectionError::Shape => "invalid selection defined, should be a number like 1 or a range like 1..3",
        }
    }
}

/// The text of a selection error: std's words for a number that could not be
/// read, or the shape a selection should have.
pub open spec fn selection_error_text(e: SelectionError) -> Seq<char> {
    match e {
        SelectionError::Number(NumberError::Empty) => "cannot parse integer from empty string"@,
        SelectionError::Number(NumberError::InvalidDigit) => "invalid digit found in string"@,
        SelectionError::Number(NumberError::PosOverflow) => "number too large to fit in target type"@,
        SelectionError::Shape => "invalid selection defined, should be a number like 1 or a range like 1..3"@,
    }
}

/// The index under which the file at position `i` of `len` files, oldest
/// first, is shown.
pub open spec fn shown_index(len: nat, i: nat, mode: HistoryIndexMode) -> int {
    match mode {
        HistoryIndexMode::Ago => len - i - 1,
        HistoryIndexMode::Since => i as int,
    }
}

/// The index `k` is in the selection; no selection takes every index.
pub open spec fn is_selected(select: Option<HistorySubsetSelection>, k: int) -> bool {
    match select {
        None => true,
        Some(HistorySubsetSelection::Range { start, end }) => start <= k <= end,
        Some(HistorySubsetSelection::Single(s)) => s == k,
    }
}

/// The entries of a history listing of `len` files for the first `n` of them,
/// oldest first: the index each is shown under and its position.
pub open spec fn history_upto(
    len: nat,
    mode: HistoryIndexMode,
    select: Option<HistorySubsetSelection>,
    n: nat,
) -> Seq<(usize, usize)>
    decreases n,
{
    if n == 0 {
        Seq::empty()
    } else {
        let rest = history_upto(len, mode, select, (n - 1) as nat);
        let k = shown_index(len, (n - 1) as nat, mode);
        if is_selected(select, k) {
            rest.push((k as usize, (n - 1) as usize))
        } else {
            rest
        }
    }
}

/// The entries of a history listing of `len` files, oldest first: for each file
/// the selection takes, the index it is shown under and its position.
pub fn history_entries(
    len: usize,
    mode: HistoryIndexMode,
    select: Option<HistorySubsetSelection>,
) -> (r: Vec<(usize, usize)>)
    ensures
        r@ == history_upto(len as nat, mode, select, len as nat),
{
    let mut r: Vec<(usize, usize)> = Vec::new();
    let mut i: usize = 0;
    while i < len
        invariant
            i <= len,
            r@ == history_upto(len as nat, mode, select, i as nat),
        decreases len - i,
    {
        let k: usize = match mode {
            HistoryIndexMode::Ago => len - i - 1,
            HistoryIndexMode::Since => i,
        };
        let taken = match select {
            None => true,
            Some(HistorySubsetSelection::Range { start, end }) => start <= k && k <= end,
            Some(HistorySubsetSelection::Single(s)) => s == k,
        };
        if taken {
            r.push((k, i));
        }
        i = i + 1;
    }
    r
}

/// The position, oldest first, of the file that `number` names among `len`
/// files; none when there are not that many.
pub fn pick_index(len: usize, number: usize, mode: HistoryIndexMode) -> (r: Option<usize>)
    ensures
        r == (if number < len {
            Some(shown_index(len as nat, number as nat, mode) as usize)
        } else {
            None
        }),
{
    if number >= len {
        return None;
    }
    match mode {
        HistoryIndexMode::Ago => Some(len - number - 1),
        HistoryIndexMode::Since => Some(number),
    }
}

/// The decimal digits of `n`, as bytes of text.
pub open spec fn decimal_bytes(n: nat) -> Seq<u8>
    decreases n,
{
    if n < 10 {
        seq![(48 + n) as u8]
    } else {
        decimal_bytes(n / 10) + seq![(48 + n % 10) as u8]
    }
}

proof fn lemma_decimal_bytes(n: nat)
    requires
        n <= usize::MAX,
    ensures
        digits_value(decimal_bytes(n)) == Ok::<nat, NumberError>(n),
        decimal_bytes(n).len() > 0,
        forall|k: int| 0 <= k < decimal_bytes(n).len() ==> is_digit(#[trigger] decimal_bytes(n)[k]),
    decreases n,
{
    let s = decimal_bytes(n);
    if n < 10 {
        assert(s.drop_last() =~= Seq::<u8>::empty());
        assert(s.last() == (48 + n) as u8);
        assert(s.last() - 48 == n);
    } else {
        lemma_decimal_bytes(n / 10);
        assert(s.drop_last() =~= decimal_bytes(n / 10));
        assert(s.last() == (48 + n % 10) as u8);
        assert(s.last() - 48 == n % 10);
        assert((n / 10) * 10 + n % 10 == n);
        assert(digits_value(s.drop_last()) == Ok::<nat, NumberError>(n / 10));
    }
}

/// The text of a number reads back as that number, and two numbers joined by
/// `..` as the range between them.
pub proof fn a_selection_reads_back_from_its_text(start: usize, end: usize)
    ensures
        selection_of(decimal_bytes(start as nat)) == Ok::<HistorySubsetSelection, SelectionError>(
            HistorySubsetSelection::Single(start),
        ),
        selection_of(decimal_bytes(start as nat) + seq![46u8, 46u8] + decimal_bytes(end as nat))
            == Ok::<HistorySubsetSelection, SelectionError>(
            HistorySubsetSelection::Range { start, end },
        ),
{
    let a = decimal_bytes(start as nat);
    let b = decimal_bytes(end as nat);
    lemma_decimal_bytes(start as nat);
    lemma_decimal_bytes(end as nat);
    assert(number_of(a) == Ok::<usize, NumberError>(start)) by {
        assert(is_digit(a[0]));
    }
    assert(number_of(b) == Ok::<usize, NumberError>(end)) by {
        assert(is_digit(b[0]));
    }
    lemma_pieces_without_pairs(a, 46u8, 0, 0);
    assert(a.subrange(0, a.len() as int) =~= a);
    assert(numbers_of(seq![a]) == Ok::<Seq<usize>, NumberError>(seq![start])) by {
        assert(seq![a].drop_last() =~= Seq::<Seq<u8>>::empty());
        assert(numbers_of(Seq::<Seq<u8>>::empty()) == Ok::<Seq<usize>, NumberError>(Seq::empty()));
        assert(seq![a].last() == a);
        assert(Seq::<usize>::empty().push(start) =~= seq![start]);
    }
    let s = a + seq![46u8, 46u8] + b;
    let k = a.len() as int;
    assert(s[k] == 46 && s[k + 1] == 46);
    assert forall|m: int| 0 <= m < k implies s[m] != 46 by {
        assert(s[m] == a[m]);
        assert(is_digit(a[m]));
    }
    lemma_pieces_up_to_pair(s, 46u8, 0, 0, k);
    assert forall|m: int| k + 2 <= m < s.len() implies s[m] != 46 by {
        assert(s[m] == b[m - k - 2]);
        assert(is_digit(b[m - k - 2]));
    }
    lemma_pieces_without_pairs(s, 46u8, k + 2, k + 2);
    assert(s.subrange(0, k) =~= a);
    assert(s.subrange(k + 2, s.len() as int) =~= b);
    assert(pieces(s) =~= seq![a, b]);
    assert(numbers_of(seq![a, b]) == Ok::<Seq<usize>, NumberError>(seq![start, end])) by {
        assert(seq![a, b].drop_last() =~= seq![a]);
        assert(seq![start].push(end) =~= seq![start, end]);
    }
}

/// The file a pick names is the one a history listing shows under that number:
/// counting back and counting on each undo themselves.
pub proof fn a_pick_names_the_file_listed_under_its_number(len: nat, number: nat, mode: HistoryIndexMode)
    requires
        number < len,
    ensures
        0 <= shown_index(len, number, mode) < len,
        shown_index(len, shown_index(len, number, mode) as nat, mode) == number,
{
}

/// The entries are in order of modification time, oldest first.
pub open spec fn by_time(s: Seq<(String, u128)>) -> bool {
    forall|i: int, j: int| 0 <= i < j < s.len() ==> s[i].1 <= s[j].1
}

/// The entries modified at the time `t`.
pub open spec fn at_time(t: u128) -> spec_fn((String, u128)) -> bool {
    |e: (String, u128)| e.1 == t
}

proof fn lemma_filter_none<A>(s: Seq<A>, p: spec_fn(A) -> bool)
    requires
        forall|k: int| 0 <= k < s.len() ==> !p(#[trigger] s[k]),
    ensures
        s.filter(p) == Seq::<A>::empty(),
    decreases s.len(),
{
    reveal(Seq::filter);
    if s.len() > 0 {
        lemma_filter_none(s.drop_last(), p);
    }
}

/// The entries ordered by modification time, oldest first; entries of the same
/// time keep their order.
pub fn sort_by_modification(entries: Vec<(String, u128)>) -> (r: Vec<(String, u128)>)
    ensures
        by_time(r@),
        forall|t: u128| #[trigger] r@.filter(at_time(t)) == entries@.filter(at_time(t)),
{
    let ghost all = entries@;
    let mut rest = entries;
    let mut sorted: Vec<(String, u128)> = Vec::new();
    let ghost mut i: int = 0;
    proof {
        reveal(Seq::filter);
        assert(all.subrange(0, 0) =~= Seq::<(String, u128)>::empty());
        assert(rest@ =~= all.subrange(0, all.len() as int));
    }
    while rest.len() > 0
        invariant
            0 <= i <= all.len(),
            rest@ == all.subrange(i, all.len() as int),
            by_time(sorted@),
            forall|t: u128| #[trigger] sorted@.filter(at_time(t)) == all.subrange(0, i).filter(
                at_time(t),
            ),
        decreases rest@.len(),
    {
        let e = rest.remove(0);
        let time = e.1;
        let mut p = sorted.len();
        while p > 0 && sorted[p - 1].1 > time
            invariant
                p <= sorted@.len(),
                forall|q: int| p <= q < sorted@.len() ==> sorted@[q].1 > time,
            decreases p,
        {
            p = p - 1;
        }
        let ghost before = sorted@;
        proof {
            assert forall|q: int| 0 <= q < p implies before[q].1 <= time by {
                if p > 0 {
                    assert(before[p - 1].1 <= time);
                }
            }
        }
        sorted.insert(p, e);
        proof {
            let left = before.subrange(0, p as int);
            let right = before.subrange(p as int, before.len() as int);
            assert(sorted@ =~= left + seq![e] + right);
            assert(before =~= left + right);
            assert(all.subrange(0, i + 1) =~= all.subrange(0, i).push(e));
            assert forall|t: u128| #[trigger] sorted@.filter(at_time(t)) == all.subrange(
                0,
                i + 1,
            ).filter(at_time(t)) by {
                let f = at_time(t);
                let prev = all.subrange(0, i);
                assert(before.filter(f) == prev.filter(f));
                Seq::filter_distributes_over_add(left + seq![e], right, f);
                Seq::filter_distributes_over_add(left, seq![e], f);
                Seq::filter_distributes_over_add(left, right, f);
                reveal(Seq::filter);
                assert(seq![e].drop_last() =~= Seq::<(String, u128)>::empty());
                assert(prev.push(e).drop_last() =~= prev);
                assert(prev.push(e).last() == e);
                if t == time {
                    lemma_filter_none(right, f);
                    assert(f(e));
                    assert(seq![e].filter(f) =~= seq![e]);
                    assert(prev.push(e).filter(f) == prev.filter(f).push(e));
                    assert(left.filter(f) + seq![e] + right.filter(f) =~= (left.filter(f)
                        + right.filter(f)).push(e));
                } else {
                    assert(!f(e));
                    assert(seq![e].last() == e);
                    assert(seq![e].drop_last().filter(f).len() == 0);
                    assert(seq![e].filter(f) =~= Seq::<(String, u128)>::empty());
                    assert(prev.push(e).filter(f) == prev.filter(f));
                    assert(left.filter(f) + seq![e].filter(f) =~= left.filter(f));
                }
            }
            i = i + 1;
            assert(rest@ =~= all.subrange(i, all.len() as int));
        }
    }
    proof {
        assert(all.subrange(0, i) =~= all);
    }
    sorted
}

/// The file name's extension is `rd`: it ends with `.rd`, and that dot is not
/// its first character.
pub open spec fn has_rd_extension(name: Seq<char>) -> bool {
    name.len() > 3 && name[name.len() - 3] == '.' && name[name.len() - 2] == 'r' && name[name.len()
        - 1] == 'd'
}

/// The names of the entries whose extension is `rd`, in order.
pub open spec fn rd_names(s: Seq<(String, u128)>) -> Seq<String>
    decreases s.len(),
{
    if s.len() == 0 {
        Seq::empty()
    } else if has_rd_extension(s.last().0@) {
        rd_names(s.drop_last()).push(s.last().0)
    } else {
        rd_names(s.drop_last())
    }
}

/// The names of the scratch files among the entries, in order: those whose
/// extension is `rd`.
pub fn scratch_file_names(entries: Vec<(String, u128)>) -> (r: Vec<String>)
    ensures
        r@ == rd_names(entries@),
{
    let ghost all = entries@;
    let mut rest = entries;
    let mut names: Vec<String> = Vec::new();
    let ghost mut i: int = 0;
    proof {
        assert(rest@ =~= all.subrange(0, all.len() as int));
        assert(all.subrange(0, 0) =~= Seq::<(String, u128)>::empty());
    }
    while rest.len() > 0
        invariant
            0 <= i <= all.len(),
            rest@ == all.subrange(i, all.len() as int),
            names@ == rd_names(all.subrange(0, i)),
        decreases rest@.len(),
    {
        let e = rest.remove(0);
        proof {
            assert(all.subrange(0, i + 1).drop_last() =~= all.subrange(0, i));
            assert(all.subrange(0, i + 1).last() == e);
        }
        let name = e.0;
        let s = name.as_str();
        let n = s.unicode_len();
        let rd = n > 3 && s.get_char(n - 3) == '.' && s.get_char(n - 2) == 'r' && s.get_char(n - 1)
            == 'd';
        if rd {
            names.push(name);
        }
        proof {
            i = i + 1;
            assert(rest@ =~= all.subrange(i, all.len() as int));
        }
    }
    proof {
        assert(all.subrange(0, i) =~= all);
    }
    names
}

/// The name of a scratch file made at the time `millis`, in milliseconds.
pub fn scratch_file_name(millis: u128) -> (r: String)
    ensures
        r@ == "scratch-"@ + decimal(millis as nat) + ".rd"@,
{
    let mut r = String::from_str("scratch-");
    let digits = u128_to_string(millis);
    r.append(digits.as_str());
    r.append(".rd");
    r
}

} // verus!
