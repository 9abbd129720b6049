//! The text format of a problem: the item count, then `id value weight` for
//! each item, then the capacity, all as decimal numbers separated by ASCII
//! whitespace. Problems are read from it and written to it.

use vstd::prelude::*;
use crate::problem::{
    all_selected, lemma_sum_upto_prefix, sum_upto, sums_fit_in_word, values, weights, Item, Problem,
    SolveError,
};

verus! {

/// ASCII whitespace: space, tab, line feed, form feed, carriage return.
pub open spec fn is_space(c: u8) -> bool {
    c == 32 || c == 9 || c == 10 || c == 12 || c == 13
}

pub open spec fn is_digit(c: u8) -> bool {
    48 <= c <= 57
}

/// Length of the run of non-space bytes at the front of `s`.
pub open spec fn word_len(s: Seq<u8>) -> nat
    decreases s.len(),
{
    if s.len() == 0 || is_space(s[0]) {
        0
    } else {
        1 + word_len(s.drop_first())
    }
}

/// The words of `s`: its maximal runs of non-space bytes, in order.
pub open spec fn words(s: Seq<u8>) -> Seq<Seq<u8>>
    decreases s.len(),
{
    if s.len() == 0 {
        Seq::empty()
    } else if is_space(s[0]) {
        words(s.drop_first())
    } else {
        let k = word_len(s);
        if 0 < k <= s.len() {
            seq![s.take(k as int)] + words(s.skip(k as int))
        } else {
            Seq::empty()
        }
    }
}

/// The number that a word of decimal digits spells.
pub open spec fn decimal(w: Seq<u8>) -> int
    decreases w.len(),
{
    if w.len() == 0 {
        0
    } else {
        decimal(w.drop_last()) * 10 + (w.last() - 48)
    }
}

/// A word of decimal digits whose number fits in a machine word.
pub open spec fn is_number(w: Seq<u8>) -> bool {
    &&& w.len() > 0
    &&& forall|i: int| 0 <= i < w.len() ==> is_digit(#[trigger] w[i])
    &&& decimal(w) <= usize::MAX
}

/// The numbers of a text in which every word is a number.
pub open spec fn numbers(s: Seq<u8>) -> Seq<int> {
    words(s).map_values(|w: Seq<u8>| decimal(w))
}

/// Length of the line at the front of `s`, without its line feed.
pub open spec fn line_len(s: Seq<u8>) -> nat
    decreases s.len(),
{
    if s.len() == 0 || s[0] == 10 {
        0
    } else {
        1 + line_len(s.drop_first())
    }
}

/// The lines of `s`, without their line feeds; a final line feed ends the
/// last line and starts none.
pub open spec fn lines(s: Seq<u8>) -> Seq<Seq<u8>>
    decreases s.len(),
{
    if s.len() == 0 {
        Seq::empty()
    } else {
        let k = line_len(s);
        if k < s.len() {
            seq![s.take(k as int)] + lines(s.skip(k as int + 1))
        } else {
            seq![s]
        }
    }
}

/// The lines of `s` hold the words of a problem of `n` items: the first line
/// one word (the item count), each of the next `n` lines three words, the
/// line after them one word (the capacity), and any later line none.
pub open spec fn has_problem_lines(s: Seq<u8>, n: int) -> bool {
    let ls = lines(s);
    &&& ls.len() >= n + 2
    &&& words(ls[0]).len() == 1
    &&& forall|i: int| 1 <= i <= n ==> #[trigger] words(ls[i]).len() == 3
    &&& words(ls[n + 1]).len() == 1
    &&& forall|i: int| n + 2 <= i < ls.len() ==> #[trigger] words(ls[i]).len() == 0
}

/// The text is a problem: its lines have the layout of a problem with as
/// many items as its first word says, and all its words are numbers.
pub open spec fn is_problem_text(s: Seq<u8>) -> bool {
    &&& is_problem_words(s)
    &&& has_problem_lines(s, decimal(words(s)[0]))
}

/// All words of the text are numbers, and there are as many as the item
/// count asks for.
pub open spec fn is_problem_words(s: Seq<u8>) -> bool {
    let ws = words(s);
    &&& forall|k: int| 0 <= k < ws.len() ==> is_number(#[trigger] ws[k])
    &&& ws.len() >= 2
    &&& ws.len() == 3 * decimal(ws[0]) + 2
}

/// The items that the numbers of a problem text describe.
pub open spec fn text_items(nums: Seq<int>) -> Seq<Item> {
    Seq::new(
        nums[0] as nat,
        |i: int|
            Item {
                id: nums[3 * i + 1] as usize,
                value: nums[3 * i + 2] as usize,
                weight: nums[3 * i + 3] as usize,
            },
    )
}

/// The capacity that the numbers of a problem text give.
pub open spec fn text_capacity(nums: Seq<int>) -> int {
    nums[nums.len() - 1]
}

proof fn lemma_word_len(t: Seq<u8>, k: int)
    requires
        0 <= k <= t.len(),
        forall|j: int| 0 <= j < k ==> !is_space(#[trigger] t[j]),
        k == t.len() || is_space(t[k]),
    ensures
        word_len(t) == k,
    decreases k,
{
    if k > 0 {
        assert forall|j: int| 0 <= j < k - 1 implies !is_space(#[trigger] t.drop_first()[j]) by {
            assert(t.drop_first()[j] == t[j + 1]);
        }
        if k < t.len() {
            assert(t.drop_first()[k - 1] == t[k]);
        }
        lemma_word_len(t.drop_first(), k - 1);
    }
}

/// A word that starts at `start` and ends at `end` is the first word there.
proof fn lemma_words_at_word(s: Seq<u8>, start: int, end: int)
    requires
        0 <= start < end <= s.len(),
        forall|j: int| start <= j < end ==> !is_space(#[trigger] s[j]),
        end == s.len() || is_space(s[end]),
    ensures
        words(s.skip(start)) == seq![s.subrange(start, end)] + words(s.skip(end)),
{
    let t = s.skip(start);
    assert forall|j: int| 0 <= j < end - start implies !is_space(#[trigger] t[j]) by {
        assert(t[j] == s[start + j]);
    }
    if end < s.len() {
        assert(t[end - start] == s[end]);
    }
    lemma_word_len(t, end - start);
    assert(t.take(end - start) =~= s.subrange(start, end));
    assert(t.skip(end - start) =~= s.skip(end));
}

proof fn lemma_words_at_space(s: Seq<u8>, i: int)
    requires
        0 <= i < s.len(),
        is_space(s[i]),
    ensures
        words(s.skip(i)) == words(s.skip(i + 1)),
{
    assert(s.skip(i).drop_first() =~= s.skip(i + 1));
}

/// A longer run of digits spells a number at least as large.
proof fn lemma_decimal_prefix(w: Seq<u8>, j: int)
    requires
        0 <= j <= w.len(),
        forall|i: int| 0 <= i < w.len() ==> is_digit(#[trigger] w[i]),
    ensures
        0 <= decimal(w.take(j)) <= decimal(w),
    decreases w.len() - j,
{
    if j < w.len() {
        lemma_decimal_prefix(w, j + 1);
        assert(w.take(j + 1).drop_last() =~= w.take(j));
    } else {
        assert(w.take(j) =~= w);
        lemma_decimal_nonneg(w);
    }
}

proof fn lemma_decimal_nonneg(w: Seq<u8>)
    requires
        forall|i: int| 0 <= i < w.len() ==> is_digit(#[trigger] w[i]),
    ensures
        0 <= decimal(w),
    decreases w.len(),
{
    if w.len() > 0 {
        lemma_decimal_nonneg(w.drop_last());
    }
}

/// Reads the numbers of a text, or `None` when one of its words is not a
/// number that fits in a machine word.
fn read_numbers(input: &[u8]) -> (r: Option<Vec<usize>>)
    ensures
        r is Some <==> forall|k: int| 0 <= k < words(input@).len() ==> is_number(#[trigger] words(input@)[k]),
        r matches Some(v) ==> v@.len() == words(input@).len() && forall|k: int|
            0 <= k < v@.len() ==> #[trigger] v@[k] == decimal(words(input@)[k]),
{
    let ghost s = input@;
    let n = input.len();
    let mut nums: Vec<usize> = Vec::new();
    let ghost mut done: Seq<Seq<u8>> = Seq::empty();
    let mut i: usize = 0;
    proof {
        assert(s.skip(0) =~= s);
        assert(done + words(s) =~= words(s));
    }
    while i < n
        invariant
            s == input@,
            n == s.len(),
            0 <= i <= n,
            words(s) == done + words(s.skip(i as int)),
            nums@.len() == done.len(),
            forall|k: int| 0 <= k < done.len() ==> is_number(#[trigger] done[k]),
            forall|k: int| 0 <= k < nums@.len() ==> #[trigger] nums@[k] == decimal(done[k]),
        decreases n - i,
    {
        let c = input[i];
        if c == 32 || c == 9 || c == 10 || c == 12 || c == 13 {
            proof {
                lemma_words_at_space(s, i as int);
            }
            i = i + 1;
        } else {
            let start = i;
            let mut value: usize = 0;
            let mut bad = false;
            while i < n && !bad && !(input[i] == 32 || input[i] == 9 || input[i] == 10 || input[i] == 12
                || input[i] == 13)
                invariant
                    s == input@,
                    n == s.len(),
                    start < n,
                    !is_space(s[start as int]),
                    start <= i <= n,
                    forall|j: int| start <= j < i ==> !is_space(#[trigger] s[j]),
                    !bad ==> forall|j: int| start <= j < i ==> is_digit(#[trigger] s[j]),
                    !bad ==> value == decimal(s.subrange(start as int, i as int)),
                    bad ==> i < n && !is_space(s[i as int]) && (!is_digit(s[i as int])
                        || decimal(s.subrange(start as int, i + 1)) > usize::MAX),
                    bad ==> forall|j: int| start <= j < i ==> is_digit(#[trigger] s[j]),
                decreases n - i + if bad { 0int } else { 1int },
            {
                let c = input[i];
                if c < 48 || c > 57 {
                    bad = true;
                } else {
                    let d = (c - 48) as usize;
                    proof {
                        assert(s.subrange(start as int, i + 1).drop_last() =~= s.subrange(
                            start as int,
                            i as int,
                        ));
                    }
                    match value.checked_mul(10) {
                        Some(v10) => match v10.checked_add(d) {
                            Some(v) => {
                                value = v;
                                i = i + 1;
                            },
                            None => {
                                bad = true;
                            },
                        },
                        None => {
                            proof {
                                lemma_decimal_nonneg(s.subrange(start as int, i as int));
                            }
                            bad = true;
                        },
                    }
                }
            }
            proof {
                if bad {
                    let t = s.skip(start as int);
                    let k = word_len(t);
                    let m = lemma_word_end(t);
                    assert(m == k);
                    assert(t[i - start] == s[i as int]);
                    assert(i - start < k);
                    assert forall|j: int| start <= j < start + k implies !is_space(#[trigger] s[j]) by {
                        assert(t[j - start] == s[j]);
                    }
                    if start + k < s.len() {
                        assert(t[k as int] == s[start + k]);
                    }
                    lemma_words_at_word(s, start as int, start + k);
                    let w = s.subrange(start as int, start + k);
                    assert(words(s)[done.len() as int] == w);
                    if forall|j: int| 0 <= j < w.len() ==> is_digit(#[trigger] w[j]) {
                        lemma_decimal_prefix(w, i + 1 - start);
                        assert(w.take(i + 1 - start) =~= s.subrange(start as int, i + 1));
                    }
                    assert(!is_number(words(s)[done.len() as int]));
                } else {
                    lemma_words_at_word(s, start as int, i as int);
                }
            }
            if bad {
                return None;
            }
            nums.push(value);
            proof {
                let w = s.subrange(start as int, i as int);
                done = done.push(w);
                assert(words(s) =~= done + words(s.skip(i as int)));
            }
        }
    }
    proof {
        assert(s.skip(n as int) =~= Seq::<u8>::empty());
        assert(words(s) =~= done);
    }
    Some(nums)
}

/// The run of non-space bytes at the front of a text ends at a space or at
/// the end of the text.
proof fn lemma_word_end(t: Seq<u8>) -> (k: int)
    ensures
        k == word_len(t),
        0 <= k <= t.len(),
        forall|j: int| 0 <= j < k ==> !is_space(#[trigger] t[j]),
        k == t.len() || is_space(t[k]),
    decreases t.len(),
{
    if t.len() == 0 || is_space(t[0]) {
        0
    } else {
        let k1 = lemma_word_end(t.drop_first());
        assert forall|j: int| 0 <= j < k1 + 1 implies !is_space(#[trigger] t[j]) by {
            if j > 0 {
                assert(t[j] == t.drop_first()[j - 1]);
            }
        }
        if k1 + 1 < t.len() {
            assert(t[k1 + 1] == t.drop_first()[k1]);
        }
        k1 + 1
    }
}

fn copy_bytes(input: &[u8], lo: usize, hi: usize) -> (r: Vec<u8>)
    requires
        lo <= hi <= input@.len(),
    ensures
        r@ == input@.subrange(lo as int, hi as int),
{
    let mut r: Vec<u8> = Vec::new();
    let mut i: usize = lo;
    while i < hi
        invariant
            lo <= i <= hi <= input@.len(),
            r@ == input@.subrange(lo as int, i as int),
        decreases hi - i,
    {
        r.push(input[i]);
        i = i + 1;
        assert(r@ =~= input@.subrange(lo as int, i as int));
    }
    r
}

/// The number of words of a text.
fn count_words(input: &[u8]) -> (r: usize)
    ensures
        r == words(input@).len(),
{
    let ghost s = input@;
    let n = input.len();
    let mut count: usize = 0;
    let mut i: usize = 0;
    proof {
        assert(s.skip(0) =~= s);
    }
    while i < n
        invariant
            s == input@,
            n == s.len(),
            0 <= i <= n,
            count <= i,
            words(s).len() == count + words(s.skip(i as int)).len(),
        decreases n - i,
    {
        let c = input[i];
        if c == 32 || c == 9 || c == 10 || c == 12 || c == 13 {
            proof {
                lemma_words_at_space(s, i as int);
            }
            i = i + 1;
        } else {
            let start = i;
            while i < n && !(input[i] == 32 || input[i] == 9 || input[i] == 10 || input[i] == 12
                || input[i] == 13)
                invariant
                    s == input@,
                    n == s.len(),
                    start < i + 1,
                    start <= i <= n,
                    !is_space(s[start as int]),
                    forall|j: int| start <= j < i ==> !is_space(#[trigger] s[j]),
                decreases n - i,
            {
                i = i + 1;
            }
            proof {
                lemma_words_at_word(s, start as int, i as int);
            }
            count = count + 1;
        }
    }
    proof {
        assert(s.skip(n as int) =~= Seq::<u8>::empty());
    }
    count
}

proof fn lemma_line_len(t: Seq<u8>, k: int)
    requires
        0 <= k <= t.len(),
        forall|j: int| 0 <= j < k ==> #[trigger] t[j] != 10,
        k == t.len() || t[k] == 10,
    ensures
        line_len(t) == k,
    decreases k,
{
    if k > 0 {
        assert forall|j: int| 0 <= j < k - 1 implies #[trigger] t.drop_first()[j] != 10 by {
            assert(t.drop_first()[j] == t[j + 1]);
        }
        if k < t.len() {
            assert(t.drop_first()[k - 1] == t[k]);
        }
        lemma_line_len(t.drop_first(), k - 1);
    }
}

/// A line that starts at `start` and ends at `end` is the first line there.
proof fn lemma_lines_at(s: Seq<u8>, start: int, end: int)
    requires
        0 <= start <= end <= s.len(),
        start < s.len(),
        forall|j: int| start <= j < end ==> #[trigger] s[j] != 10,
        end == s.len() || s[end] == 10,
    ensures
        end < s.len() ==> lines(s.skip(start)) == seq![s.subrange(start, end)] + lines(s.skip(end + 1)),
        end == s.len() ==> lines(s.skip(start)) == seq![s.subrange(start, end)],
{
    let t = s.skip(start);
    assert forall|j: int| 0 <= j < end - start implies #[trigger] t[j] != 10 by {
        assert(t[j] == s[start + j]);
    }
    if end < s.len() {
        assert(t[end - start] == s[end]);
    }
    lemma_line_len(t, end - start);
    assert(t.take(end - start) =~= s.subrange(start, end));
    if end < s.len() {
        assert(t.skip(end - start + 1) =~= s.skip(end + 1));
    } else {
        assert(t =~= s.subrange(start, end));
    }
}

/// The number of words on each line of a text.
fn line_word_counts(input: &[u8]) -> (r: Vec<usize>)
    ensures
        r@.len() == lines(input@).len(),
        forall|i: int| 0 <= i < r@.len() ==> #[trigger] r@[i] == words(lines(input@)[i]).len(),
{
    let ghost s = input@;
    let n = input.len();
    let mut counts: Vec<usize> = Vec::new();
    let ghost mut done: Seq<Seq<u8>> = Seq::empty();
    let mut start: usize = 0;
    let mut i: usize = 0;
    proof {
        assert(s.skip(0) =~= s);
        assert(done + lines(s) =~= lines(s));
    }
    while i < n
        invariant
            s == input@,
            n == s.len(),
            0 <= start <= i <= n,
            forall|j: int| start <= j < i ==> #[trigger] s[j] != 10,
            lines(s) == done + lines(s.skip(start as int)),
            counts@.len() == done.len(),
            forall|k: int| 0 <= k < counts@.len() ==> #[trigger] counts@[k] == words(done[k]).len(),
        decreases n - i,
    {
        if input[i] == 10 {
            let line = copy_bytes(input, start, i);
            let c = count_words(line.as_slice());
            proof {
                lemma_lines_at(s, start as int, i as int);
                let d0 = done;
                done = done.push(s.subrange(start as int, i as int));
                assert(lines(s) =~= done + lines(s.skip(i + 1)));
            }
            counts.push(c);
            i = i + 1;
            start = i;
        } else {
            i = i + 1;
        }
    }
    if start < n {
        let line = copy_bytes(input, start, n);
        let c = count_words(line.as_slice());
        proof {
            lemma_lines_at(s, start as int, n as int);
            done = done.push(s.subrange(start as int, n as int));
            assert(lines(s) =~= done);
        }
        counts.push(c);
    } else {
        proof {
            assert(s.skip(start as int) =~= Seq::<u8>::empty());
            assert(lines(s) =~= done);
        }
    }
    counts
}

/// Word counts per line in the layout of a problem of `n` items.
pub open spec fn layout_ok(counts: Seq<usize>, n: int) -> bool {
    &&& counts.len() >= n + 2
    &&& counts[0] == 1
    &&& forall|i: int| 1 <= i <= n ==> #[trigger] counts[i] == 3
    &&& counts[n + 1] == 1
    &&& forall|i: int| n + 2 <= i < counts.len() ==> #[trigger] counts[i] == 0
}

proof fn lemma_layout(s: Seq<u8>, counts: Seq<usize>, n: int)
    requires
        n >= 0,
        counts.len() == lines(s).len(),
        forall|i: int| 0 <= i < counts.len() ==> #[trigger] counts[i] == words(lines(s)[i]).len(),
    ensures
        layout_ok(counts, n) <==> has_problem_lines(s, n),
{
    let ls = lines(s);
    if layout_ok(counts, n) {
        assert forall|i: int| 1 <= i <= n implies #[trigger] words(ls[i]).len() == 3 by {
            assert(counts[i] == 3);
        }
        assert forall|i: int| n + 2 <= i < ls.len() implies #[trigger] words(ls[i]).len() == 0 by {
            assert(counts[i] == 0);
        }
        assert(counts[0] == words(ls[0]).len());
        assert(counts[n + 1] == words(ls[n + 1]).len());
    }
    if has_problem_lines(s, n) {
        assert forall|i: int| 1 <= i <= n implies #[trigger] counts[i] == 3 by {
            assert(words(ls[i]).len() == 3);
        }
        assert forall|i: int| n + 2 <= i < counts.len() implies #[trigger] counts[i] == 0 by {
            assert(words(ls[i]).len() == 0);
        }
        assert(counts[0] == words(ls[0]).len());
        assert(counts[n + 1] == words(ls[n + 1]).len());
    }
}

/// Whether the word counts per line have the layout of a problem of `n` items.
fn check_layout(counts: &Vec<usize>, n: usize) -> (r: bool)
    ensures
        r == layout_ok(counts@, n as int),
{
    let len = counts.len();
    if n >= len || len - n < 2 || counts[0] != 1 || counts[n + 1] != 1 {
        return false;
    }
    let mut line: usize = 1;
    while line <= n
        invariant
            len == counts@.len(),
            len >= n + 2,
            1 <= line <= n + 1,
            forall|i: int| 1 <= i < line ==> #[trigger] counts@[i] == 3,
        decreases n + 1 - line,
    {
        if counts[line] != 3 {
            return false;
        }
        line = line + 1;
    }
    let mut line: usize = n + 2;
    while line < len
        invariant
            len == counts@.len(),
            n + 2 <= line <= len,
            forall|i: int| n + 2 <= i < line ==> #[trigger] counts@[i] == 0,
        decreases len - line,
    {
        if counts[line] != 0 {
            return false;
        }
        line = line + 1;
    }
    true
}

impl Problem {
    /// Parses a problem text. It is refused with `InvalidInput` unless every
    /// word is a number, the item count matches the numbers that follow, and
    /// the weights and the values of all items each sum to a machine word.
    pub fn read(input: &[u8]) -> (r: Result<Problem, SolveError>)
        ensures
            r is Ok <==> is_problem_text(input@) && sums_fit_in_word(text_items(numbers(input@))),
            r is Err ==> r == Err::<Problem, SolveError>(SolveError::InvalidInput),
            r matches Ok(p) ==> p.items@ == text_items(numbers(input@)) && p.capacity == text_capacity(
                numbers(input@),
            ),
    {
        let ghost ws = words(input@);
        let ghost nums_spec = numbers(input@);
        let nums = match read_numbers(input) {
            Some(v) => v,
            None => {
                return Err(SolveError::InvalidInput);
            },
        };
        let len = nums.len();
        if len < 2 {
            return Err(SolveError::InvalidInput);
        }
        let item_count = nums[0];
        if (len - 2) % 3 != 0 || (len - 2) / 3 != item_count {
            return Err(SolveError::InvalidInput);
        }
        proof {
            assert(ws.len() == 3 * decimal(ws[0]) + 2);
            assert(nums@ =~= nums_spec.map_values(|x: int| x as usize));
        }
        let counts = line_word_counts(input);
        if !check_layout(&counts, item_count) {
            proof {
                lemma_layout(input@, counts@, item_count as int);
            }
            return Err(SolveError::InvalidInput);
        }
        proof {
            lemma_layout(input@, counts@, item_count as int);
            assert(decimal(ws[0]) == item_count);
        }
        let ghost all_items = text_items(nums_spec);
        let mut items: Vec<Item> = Vec::with_capacity(item_count);
        let mut weight_total: usize = 0;
        let mut value_total: usize = 0;
        let mut i: usize = 0;
        while i < item_count
            invariant
                nums_spec == numbers(input@),
                ws == words(input@),
                forall|k: int| 0 <= k < ws.len() ==> is_number(#[trigger] ws[k]),
                len == nums@.len(),
                len == 3 * item_count + 2,
                nums@.len() == ws.len(),
                forall|k: int| 0 <= k < nums@.len() ==> #[trigger] nums@[k] == decimal(ws[k]),
                item_count == nums@[0],
                all_items == text_items(nums_spec),
                all_items.len() == item_count,
                0 <= i <= item_count,
                items@ == all_items.take(i as int),
                weight_total == sum_upto(weights(all_items), all_selected(all_items.len()), i as int),
                value_total == sum_upto(values(all_items), all_selected(all_items.len()), i as int),
            decreases item_count - i,
        {
            let item = Item::new(nums[3 * i + 1], nums[3 * i + 2], nums[3 * i + 3]);
            proof {
                assert(ws.len() == nums_spec.len());
                assert(nums_spec[3 * i + 1] == decimal(ws[3 * i + 1]));
                assert(nums_spec[3 * i + 2] == decimal(ws[3 * i + 2]));
                assert(nums_spec[3 * i + 3] == decimal(ws[3 * i + 3]));
                assert(item == all_items[i as int]);
                assert(items@.push(item) =~= all_items.take(i + 1));
                assert(weights(all_items)[i as int] == item.weight);
                assert(values(all_items)[i as int] == item.value);
                lemma_sum_upto_prefix(weights(all_items), all_selected(all_items.len()), i + 1, all_items.len() as int);
                lemma_sum_upto_prefix(values(all_items), all_selected(all_items.len()), i + 1, all_items.len() as int);
            }
            weight_total = match weight_total.checked_add(item.weight) {
                Some(w) => w,
                None => {
                    return Err(SolveError::InvalidInput);
                },
            };
            value_total = match value_total.checked_add(item.value) {
                Some(v) => v,
                None => {
                    return Err(SolveError::InvalidInput);
                },
            };
            items.push(item);
            i = i + 1;
        }
        proof {
            assert(items@ =~= all_items);
            assert(nums_spec.len() == len);
        }
        Ok(Problem { items, capacity: nums[len - 1] })
    }
}

/// The decimal digits of `x`, most significant first, without leading zeros.
pub open spec fn digits(x: nat) -> Seq<u8>
    decreases x,
{
    if x < 10 {
        seq![(48 + x) as u8]
    } else {
        digits(x / 10).push((48 + x % 10) as u8)
    }
}

/// Words, each followed by its separator byte.
pub open spec fn join_words(ws: Seq<Seq<u8>>, seps: Seq<u8>) -> Seq<u8>
    decreases ws.len(),
{
    if ws.len() == 0 || seps.len() == 0 {
        Seq::empty()
    } else {
        join_words(ws.drop_last(), seps.drop_last()) + ws.last() + seq![seps.last()]
    }
}

/// The numbers that a problem's text lists: the item count, `id value weight`
/// for each item, and the capacity.
pub open spec fn problem_numbers(items: Seq<Item>, capacity: nat) -> Seq<nat> {
    Seq::new(
        3 * items.len() + 2,
        |k: int|
            if k == 0 {
                items.len()
            } else if k == 3 * items.len() + 1 {
                capacity
            } else {
                let it = items[(k - 1) / 3];
                if (k - 1) % 3 == 0 {
                    it.id as nat
                } else if (k - 1) % 3 == 1 {
                    it.value as nat
                } else {
                    it.weight as nat
                }
            },
    )
}

/// The separator after each number: a line ends after the count, after each
/// item's weight and after the capacity; a space follows the others.
pub open spec fn problem_separators(n: nat) -> Seq<u8> {
    Seq::new(
        3 * n + 2,
        |k: int|
            if k == 0 || k == 3 * n + 1 || (k - 1) % 3 == 2 {
                10u8
            } else {
                32u8
            },
    )
}

/// The text of a problem.
pub open spec fn problem_text(items: Seq<Item>, capacity: nat) -> Seq<u8> {
    join_words(
        problem_numbers(items, capacity).map_values(|x: nat| digits(x)),
        problem_separators(items.len()),
    )
}

proof fn lemma_digits(x: nat)
    ensures
        digits(x).len() > 0,
        forall|i: int| 0 <= i < digits(x).len() ==> is_digit(#[trigger] digits(x)[i]),
        decimal(digits(x)) == x,
    decreases x,
{
    if x >= 10 {
        lemma_digits(x / 10);
        let d = digits(x);
        assert(d.drop_last() =~= digits(x / 10));
        vstd::arithmetic::div_mod::lemma_fundamental_div_mod(x as int, 10);
        assert(d.last() - 48 == x % 10);
        assert(decimal(d) == decimal(d.drop_last()) * 10 + (d.last() - 48));
        assert(decimal(d) == (x / 10) * 10 + x % 10);
        assert forall|i: int| 0 <= i < d.len() implies is_digit(#[trigger] d[i]) by {
            if i < d.len() - 1 {
                assert(d[i] == digits(x / 10)[i]);
            }
        }
    } else {
        assert(digits(x).drop_last() =~= Seq::<u8>::empty());
        assert(decimal(Seq::<u8>::empty()) == 0);
        assert(decimal(digits(x)) == decimal(digits(x).drop_last()) * 10 + (digits(x).last() - 48));
    }
}

/// The run of non-space bytes at the front of `x + y` ends inside `x` when
/// `x` ends with a space.
proof fn lemma_word_len_concat(x: Seq<u8>, y: Seq<u8>)
    requires
        x.len() > 0,
        is_space(x.last()),
    ensures
        word_len(x + y) == word_len(x),
        word_len(x) < x.len(),
    decreases x.len(),
{
    if !is_space(x[0]) {
        assert((x + y).drop_first() =~= x.drop_first() + y);
        lemma_word_len_concat(x.drop_first(), y);
    }
}

/// The words of two texts joined at a space are the words of each.
proof fn lemma_words_concat(x: Seq<u8>, y: Seq<u8>)
    requires
        x.len() == 0 || is_space(x.last()),
    ensures
        words(x + y) == words(x) + words(y),
    decreases x.len(),
{
    if x.len() == 0 {
        assert(x + y =~= y);
        assert(words(x) =~= Seq::<Seq<u8>>::empty());
        assert(words(x) + words(y) =~= words(y));
    } else if is_space(x[0]) {
        assert((x + y).drop_first() =~= x.drop_first() + y);
        lemma_words_concat(x.drop_first(), y);
    } else {
        lemma_word_len_concat(x, y);
        let k = word_len(x) as int;
        let _ = lemma_word_end(x);
        assert((x + y).take(k) =~= x.take(k));
        assert((x + y).skip(k) =~= x.skip(k) + y);
        lemma_words_concat(x.skip(k), y);
        assert(seq![x.take(k)] + (words(x.skip(k)) + words(y)) =~= (seq![x.take(k)] + words(x.skip(k)))
            + words(y));
    }
}

/// A word followed by a space is that one word.
proof fn lemma_words_single(w: Seq<u8>, c: u8)
    requires
        w.len() > 0,
        forall|i: int| 0 <= i < w.len() ==> !is_space(#[trigger] w[i]),
        is_space(c),
    ensures
        words(w + seq![c]) == seq![w],
{
    let s = w + seq![c];
    assert forall|j: int| 0 <= j < w.len() implies !is_space(#[trigger] s[j]) by {
        assert(s[j] == w[j]);
    }
    lemma_words_at_word(s, 0, w.len() as int);
    assert(s.skip(0) =~= s);
    assert(s.subrange(0, w.len() as int) =~= w);
    lemma_words_at_space(s, w.len() as int);
    assert(s.skip(w.len() as int + 1) =~= Seq::<u8>::empty());
    assert(words(Seq::<u8>::empty()) =~= Seq::<Seq<u8>>::empty());
    assert(seq![w] + Seq::<Seq<u8>>::empty() =~= seq![w]);
}

/// Joining words with spaces and reading the words back gives them again.
proof fn lemma_words_join(ws: Seq<Seq<u8>>, seps: Seq<u8>)
    requires
        ws.len() == seps.len(),
        forall|k: int| 0 <= k < seps.len() ==> is_space(#[trigger] seps[k]),
        forall|k: int|
            0 <= k < ws.len() ==> (#[trigger] ws[k]).len() > 0 && forall|i: int|
                0 <= i < ws[k].len() ==> !is_space(#[trigger] ws[k][i]),
    ensures
        words(join_words(ws, seps)) == ws,
        ws.len() > 0 ==> is_space(join_words(ws, seps).last()),
        ws.len() > 0 ==> join_words(ws, seps).len() > 0,
    decreases ws.len(),
{
    if ws.len() == 0 {
        assert(words(Seq::<u8>::empty()) =~= Seq::<Seq<u8>>::empty());
        assert(ws =~= Seq::<Seq<u8>>::empty());
    } else {
        let ws0 = ws.drop_last();
        let seps0 = seps.drop_last();
        assert forall|k: int| 0 <= k < seps0.len() implies is_space(#[trigger] seps0[k]) by {
            assert(seps0[k] == seps[k]);
        }
        assert forall|k: int| 0 <= k < ws0.len() implies (#[trigger] ws0[k]).len() > 0 && forall|i: int|
            0 <= i < ws0[k].len() ==> !is_space(#[trigger] ws0[k][i]) by {
            assert(ws0[k] == ws[k]);
        }
        lemma_words_join(ws0, seps0);
        let j0 = join_words(ws0, seps0);
        let w = ws.last();
        let c = seps.last();
        assert(is_space(seps[seps.len() - 1]));
        assert(ws[ws.len() - 1] == w);
        assert(join_words(ws, seps) =~= j0 + (w + seq![c]));
        lemma_words_concat(j0, w + seq![c]);
        lemma_words_single(w, c);
        assert(ws0 + seq![w] =~= ws);
        assert((j0 + (w + seq![c])).last() == c);
    }
}

/// The words of a problem's text are its numbers: they are numbers as the
/// reader asks for, and they give back the items and the capacity.
pub proof fn lemma_text_words_round_trip(items: Seq<Item>, capacity: usize)
    requires
        items.len() <= usize::MAX,
    ensures
        is_problem_words(problem_text(items, capacity as nat)),
        text_items(numbers(problem_text(items, capacity as nat))) == items,
        text_capacity(numbers(problem_text(items, capacity as nat))) == capacity,
{
    let nums = problem_numbers(items, capacity as nat);
    let ws = nums.map_values(|x: nat| digits(x));
    let seps = problem_separators(items.len());
    assert forall|k: int| 0 <= k < ws.len() implies (#[trigger] ws[k]).len() > 0 && forall|i: int|
        0 <= i < ws[k].len() ==> !is_space(#[trigger] ws[k][i]) by {
        lemma_digits(nums[k]);
        assert forall|i: int| 0 <= i < ws[k].len() implies !is_space(#[trigger] ws[k][i]) by {
            assert(is_digit(digits(nums[k])[i]));
        }
    }
    lemma_words_join(ws, seps);
    let text = problem_text(items, capacity as nat);
    assert(words(text) == ws);
    assert forall|k: int| 0 <= k < ws.len() implies is_number(#[trigger] ws[k]) by {
        lemma_digits(nums[k]);
        assert(nums[k] <= usize::MAX) by {
            if k != 0 && k != 3 * items.len() + 1 {
                assert(0 <= (k - 1) / 3 < items.len());
            }
        }
    }
    lemma_digits(items.len());
    let got = numbers(text);
    assert forall|k: int| 0 <= k < got.len() implies #[trigger] got[k] == nums[k] by {
        lemma_digits(nums[k]);
    }
    assert forall|i: int| 0 <= i < items.len() implies #[trigger] text_items(got)[i] == items[i] by {
        let k = 3 * i + 1;
        assert((k - 1) / 3 == i && (k - 1) % 3 == 0);
        assert((k + 1 - 1) / 3 == i && (k + 1 - 1) % 3 == 1);
        assert((k + 2 - 1) / 3 == i && (k + 2 - 1) % 3 == 2);
        assert(got[k] == items[i].id);
        assert(got[k + 1] == items[i].value);
        assert(got[k + 2] == items[i].weight);
    }
    assert(text_items(got) =~= items);
}

/// Appends the decimal digits of `x` and then `sep`.
fn push_number(out: &mut Vec<u8>, x: usize, sep: u8)
    ensures
        final(out)@ == old(out)@ + digits(x as nat) + seq![sep],
{
    let ghost start = out@;
    let mut reversed: Vec<u8> = Vec::new();
    let mut y = x;
    while y >= 10
        invariant
            digits(x as nat) == digits(y as nat) + reversed@.reverse(),
        decreases y,
    {
        let ghost r0 = reversed@;
        reversed.push((48 + y % 10) as u8);
        proof {
            assert(reversed@.reverse() =~= seq![(48 + y % 10) as u8] + r0.reverse());
            assert(digits(y as nat) == digits((y / 10) as nat).push((48 + y % 10) as u8));
            assert(digits(y as nat) + r0.reverse() =~= digits((y / 10) as nat) + reversed@.reverse());
        }
        y = y / 10;
    }
    let ghost r1 = reversed@;
    reversed.push((48 + y) as u8);
    proof {
        assert(reversed@.reverse() =~= seq![(48 + y) as u8] + r1.reverse());
        assert(digits(x as nat) =~= reversed@.reverse());
    }
    let mut k: usize = reversed.len();
    while k > 0
        invariant
            0 <= k <= reversed@.len(),
            out@ == start + reversed@.reverse().take(reversed@.len() - k),
        decreases k,
    {
        k = k - 1;
        out.push(reversed[k]);
        proof {
            assert(reversed@.reverse().take(reversed@.len() - k) =~= reversed@.reverse().take(
                reversed@.len() - k - 1,
            ).push(reversed@[k as int]));
        }
    }
    proof {
        assert(reversed@.reverse().take(reversed@.len() as int) =~= digits(x as nat));
    }
    out.push(sep);
}

proof fn lemma_join_step(ws: Seq<Seq<u8>>, seps: Seq<u8>, k: int)
    requires
        0 <= k < ws.len(),
        ws.len() == seps.len(),
    ensures
        join_words(ws.take(k + 1), seps.take(k + 1)) == join_words(ws.take(k), seps.take(k)) + ws[k]
            + seq![seps[k]],
{
    assert(ws.take(k + 1).drop_last() =~= ws.take(k));
    assert(seps.take(k + 1).drop_last() =~= seps.take(k));
}

impl Problem {
    /// The problem in the text format: the item count on a line, a line
    /// `id value weight` for each item, and the capacity on a line.
    pub fn to_text(&self) -> (r: Vec<u8>)
        ensures
            r@ == problem_text(self.items@, self.capacity as nat),
    {
        let ghost items = self.items@;
        let ghost ws = problem_numbers(items, self.capacity as nat).map_values(|x: nat| digits(x));
        let ghost seps = problem_separators(items.len());
        let n = self.items.len();
        let mut out: Vec<u8> = Vec::new();
        push_number(&mut out, n, 10);
        proof {
            lemma_join_step(ws, seps, 0);
            assert(join_words(ws.take(0), seps.take(0)) =~= Seq::<u8>::empty());
            assert(out@ =~= join_words(ws.take(1), seps.take(1)));
        }
        let mut i: usize = 0;
        while i < n
            invariant
                items == self.items@,
                n == items.len(),
                ws == problem_numbers(items, self.capacity as nat).map_values(|x: nat| digits(x)),
                seps == problem_separators(items.len()),
                0 <= i <= n,
                out@ == join_words(ws.take(3 * i + 1), seps.take(3 * i + 1)),
            decreases n - i,
        {
            let item = self.items[i];
            let ghost k = 3 * i + 1;
            proof {
                assert((k - 1) / 3 == i && (k - 1) % 3 == 0);
                assert((k + 1 - 1) / 3 == i && (k + 1 - 1) % 3 == 1);
                assert((k + 2 - 1) / 3 == i && (k + 2 - 1) % 3 == 2);
                lemma_join_step(ws, seps, k);
                lemma_join_step(ws, seps, k + 1);
                lemma_join_step(ws, seps, k + 2);
            }
            push_number(&mut out, item.id, 32);
            push_number(&mut out, item.value, 32);
            push_number(&mut out, item.weight, 10);
            i = i + 1;
        }
        push_number(&mut out, self.capacity, 10);
        proof {
            lemma_join_step(ws, seps, 3 * n + 1);
            assert(ws.take(3 * n + 2) =~= ws);
            assert(seps.take(3 * n + 2) =~= seps);
        }
        out
    }
}

} // verus!
