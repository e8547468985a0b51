//! The shell's command line: splitting a line into words, and choosing the built-in command.

use vstd::prelude::*;
use vstd::string::*;

verus! {

/// The most arguments a command keeps; words after them are dropped.
pub const MAX_ARGS: usize = 4;

/// The characters Unicode calls white space (what `char::is_whitespace` tests).
pub open spec fn is_white_space(c: char) -> bool {
    let v = c as u32;
    ||| 0x09 <= v <= 0x0D
    ||| v == 0x20
    ||| v == 0x85
    ||| v == 0xA0
    ||| v == 0x1680
    ||| 0x2000 <= v <= 0x200A
    ||| v == 0x2028
    ||| v == 0x2029
    ||| v == 0x202F
    ||| v == 0x205F
    ||| v == 0x3000
}

/// Whether `c` is white space.
pub fn is_white_space_char(c: char) -> (b: bool)
    ensures
        b == is_white_space(c),
{
    let v = c as u32;
    (0x09 <= v && v <= 0x0D) || v == 0x20 || v == 0x85 || v == 0xA0 || v == 0x1680 || (0x2000 <= v
        && v <= 0x200A) || v == 0x2028 || v == 0x2029 || v == 0x202F || v == 0x205F || v == 0x3000
}

/// The words of `s`, as half-open ranges of character positions: the maximal runs of characters
/// that are not white space, in order.
pub open spec fn word_spans(s: Seq<char>) -> Seq<(int, int)>
    decreases s.len(),
{
    if s.len() == 0 {
        Seq::empty()
    } else {
        let before = word_spans(s.drop_last());
        let i = s.len() - 1;
        if is_white_space(s[i]) {
            before
        } else if i > 0 && !is_white_space(s[i - 1]) {
            before.update(before.len() - 1, (before.last().0, i + 1))
        } else {
            before.push((i, i + 1))
        }
    }
}

/// The words of `s`: the maximal runs of characters that are not white space, in order.
pub open spec fn words(s: Seq<char>) -> Seq<Seq<char>> {
    word_spans(s).map_values(|span: (int, int)| s.subrange(span.0, span.1))
}

/// The spans lie in `s`, in order, apart from each other, and each is a maximal run of
/// characters that are not white space; every such character lies in one of them.
pub open spec fn spans_are_words(s: Seq<char>, spans: Seq<(int, int)>) -> bool {
    &&& forall|k: int| 0 <= k < spans.len() ==> 0 <= (#[trigger] spans[k]).0 < spans[k].1 <= s.len()
    &&& forall|k: int, p: int|
        0 <= k < spans.len() && (#[trigger] spans[k]).0 <= p < spans[k].1 ==> !is_white_space(
            #[trigger] s[p],
        )
    &&& forall|k: int| 0 <= k < spans.len() - 1 ==> (#[trigger] spans[k]).1 < spans[k + 1].0
    &&& forall|k: int|
        0 <= k < spans.len() && (#[trigger] spans[k]).1 < s.len() ==> is_white_space(s[spans[k].1])
    &&& forall|k: int| 0 <= k < spans.len() && (#[trigger] spans[k]).0 > 0 ==> is_white_space(s[spans[k].0 - 1])
    &&& forall|p: int|
        0 <= p < s.len() && !is_white_space(#[trigger] s[p]) ==> exists|k: int|
            0 <= k < spans.len() && (#[trigger] spans[k]).0 <= p < spans[k].1
}

/// The words of a line are exactly its maximal runs of characters that are not white space,
/// in order: none is empty, none holds white space, and white space separates them.
pub proof fn lemma_word_spans_are_words(s: Seq<char>)
    ensures
        spans_are_words(s, word_spans(s)),
    decreases s.len(),
{
    if s.len() > 0 {
        let t = s.drop_last();
        let i = s.len() - 1;
        lemma_word_spans_are_words(t);
        let before = word_spans(t);
        let spans = word_spans(s);
        assert forall|p: int| 0 <= p < i implies s[p] == t[p] by {}
        if is_white_space(s[i]) {
            assert(spans == before);
            assert forall|p: int|
                0 <= p < s.len() && !is_white_space(#[trigger] s[p]) implies exists|k: int|
                    0 <= k < spans.len() && (#[trigger] spans[k]).0 <= p < spans[k].1 by {
                assert(t[p] == s[p]);
            }
            assert forall|k: int, p: int|
                0 <= k < spans.len() && (#[trigger] spans[k]).0 <= p < spans[k].1 implies !is_white_space(
                    #[trigger] s[p],
                ) by {
                assert(t[p] == s[p]);
            }
        } else if i > 0 && !is_white_space(s[i - 1]) {
            assert(!is_white_space(t[i - 1]));
            let k0 = choose|k: int| 0 <= k < before.len() && (#[trigger] before[k]).0 <= i - 1 < before[k].1;
            assert(before[k0].1 == i) by {
                if before[k0].1 < i {
                    assert(is_white_space(t[before[k0].1]));
                    assert(!is_white_space(t[before[k0].1]));
                }
            }
            assert(k0 == before.len() - 1) by {
                if k0 < before.len() - 1 {
                    assert(before[k0].1 < before[k0 + 1].0);
                    assert(before[k0 + 1].1 <= i);
                }
            }
            let last = before.len() - 1;
            assert(spans == before.update(last, (before[last].0, i + 1)));
            assert forall|k: int, p: int|
                0 <= k < spans.len() && (#[trigger] spans[k]).0 <= p < spans[k].1 implies !is_white_space(
                    #[trigger] s[p],
                ) by {
                if p < i {
                    if k == last {
                        assert(before[last].0 <= p < before[last].1);
                    } else {
                        assert(before[k] == spans[k]);
                    }
                    assert(t[p] == s[p]);
                }
            }
            assert forall|p: int|
                0 <= p < s.len() && !is_white_space(#[trigger] s[p]) implies exists|k: int|
                    0 <= k < spans.len() && (#[trigger] spans[k]).0 <= p < spans[k].1 by {
                if p == i {
                    assert(spans[last].0 <= p < spans[last].1);
                } else {
                    assert(!is_white_space(t[p]));
                    let k = choose|k: int| 0 <= k < before.len() && (#[trigger] before[k]).0 <= p < before[k].1;
                    assert(spans[k].0 <= p < spans[k].1);
                }
            }
            assert forall|k: int| 0 <= k < spans.len() - 1 implies (#[trigger] spans[k]).1 < spans[k + 1].0 by {
                assert(before[k].1 < before[k + 1].0);
            }
            assert forall|k: int|
                0 <= k < spans.len() && (#[trigger] spans[k]).1 < s.len() implies is_white_space(s[spans[k].1]) by {
                assert(k != last);
                assert(t[spans[k].1] == s[spans[k].1]);
            }
            assert forall|k: int| 0 <= k < spans.len() && (#[trigger] spans[k]).0 > 0 implies is_white_space(
                s[spans[k].0 - 1],
            ) by {
                assert(before[k].0 == spans[k].0);
                assert(t[spans[k].0 - 1] == s[spans[k].0 - 1]);
            }
        } else {
            assert(spans == before.push((i, i + 1)));
            if before.len() > 0 {
                let last = before.len() - 1;
                assert(before[last].1 < i) by {
                    if before[last].1 == i {
                        assert(!is_white_space(t[i - 1]));
                    }
                }
            }
            assert forall|k: int, p: int|
                0 <= k < spans.len() && (#[trigger] spans[k]).0 <= p < spans[k].1 implies !is_white_space(
                    #[trigger] s[p],
                ) by {
                if k < before.len() {
                    assert(before[k] == spans[k]);
                    assert(t[p] == s[p]);
                }
            }
            assert forall|p: int|
                0 <= p < s.len() && !is_white_space(#[trigger] s[p]) implies exists|k: int|
                    0 <= k < spans.len() && (#[trigger] spans[k]).0 <= p < spans[k].1 by {
                if p == i {
                    assert(spans[before.len() as int].0 <= p < spans[before.len() as int].1);
                } else {
                    assert(!is_white_space(t[p]));
                    let k = choose|k: int| 0 <= k < before.len() && (#[trigger] before[k]).0 <= p < before[k].1;
                    assert(spans[k].0 <= p < spans[k].1);
                }
            }
            assert forall|k: int| 0 <= k < spans.len() - 1 implies (#[trigger] spans[k]).1 < spans[k + 1].0 by {
                if k < before.len() - 1 {
                    assert(before[k].1 < before[k + 1].0);
                }
            }
            assert forall|k: int|
                0 <= k < spans.len() && (#[trigger] spans[k]).1 < s.len() implies is_white_space(s[spans[k].1]) by {
                assert(k < before.len());
                assert(before[k] == spans[k]);
                if spans[k].1 < i {
                    assert(t[spans[k].1] == s[spans[k].1]);
                }
            }
            assert forall|k: int| 0 <= k < spans.len() && (#[trigger] spans[k]).0 > 0 implies is_white_space(
                s[spans[k].0 - 1],
            ) by {
                if k < before.len() {
                    assert(before[k] == spans[k]);
                    assert(t[spans[k].0 - 1] == s[spans[k].0 - 1]);
                }
            }
        }
    }
}

/// Spans that are words come in order: each ends before any later one starts.
proof fn lemma_words_ordered(s: Seq<char>, a: Seq<(int, int)>, i: int, j: int)
    requires
        spans_are_words(s, a),
        0 <= i < j < a.len(),
    ensures
        a[i].1 < a[j].0,
    decreases j - i,
{
    if j > i + 1 {
        lemma_words_ordered(s, a, i, j - 1);
        assert(a[j - 1].1 < a[j].0);
        assert(a[j - 1].0 < a[j - 1].1);
    } else {
        assert(a[i].1 < a[i + 1].0);
    }
}

/// Two lists of spans that are both the words of `s` agree at position `k` when they agree
/// before it.
proof fn lemma_words_agree_at(s: Seq<char>, a: Seq<(int, int)>, b: Seq<(int, int)>, k: int)
    requires
        spans_are_words(s, a),
        spans_are_words(s, b),
        0 <= k < a.len(),
        k < b.len(),
        forall|j: int| 0 <= j < k ==> a[j] == b[j],
    ensures
        a[k] == b[k],
{
    lemma_word_starts_agree(s, a, b, k);
    lemma_word_starts_agree(s, b, a, k);
    let p = a[k].0;
    assert(b[k].0 == p);
    let e1 = a[k].1;
    let e2 = b[k].1;
    if e1 < e2 {
        assert(!is_white_space(s[e1]));
        assert(is_white_space(s[a[k].1]));
    }
    if e2 < e1 {
        assert(!is_white_space(s[e2]));
        assert(is_white_space(s[b[k].1]));
    }
}

/// Under the same assumptions, the word at position `k` of `b` starts no later than that of `a`.
proof fn lemma_word_starts_agree(s: Seq<char>, a: Seq<(int, int)>, b: Seq<(int, int)>, k: int)
    requires
        spans_are_words(s, a),
        spans_are_words(s, b),
        0 <= k < a.len(),
        k < b.len(),
        forall|j: int| 0 <= j < k ==> a[j] == b[j],
    ensures
        b[k].0 <= a[k].0,
{
    let p = a[k].0;
    assert(0 <= p < s.len());
    assert(!is_white_space(s[p]));
    let m = choose|m: int| 0 <= m < b.len() && (#[trigger] b[m]).0 <= p < b[m].1;
    if m < k {
        assert(b[m] == a[m]);
        lemma_words_ordered(s, a, m, k);
    } else if m > k {
        lemma_words_ordered(s, b, k, m);
        let q = b[k].0;
        assert(!is_white_space(s[q]));
        let n = choose|n: int| 0 <= n < a.len() && (#[trigger] a[n]).0 <= q < a[n].1;
        if n < k {
            assert(a[n] == b[n]);
            lemma_words_ordered(s, b, n, k);
        } else if n > k {
            lemma_words_ordered(s, a, k, n);
        }
    }
}

/// There is only one way to cut a line into words: any list of spans that are its maximal runs
/// of characters that are not white space, in order, is `word_spans` of it.
pub proof fn lemma_words_unique(s: Seq<char>, spans: Seq<(int, int)>)
    requires
        spans_are_words(s, spans),
    ensures
        spans == word_spans(s),
{
    let w = word_spans(s);
    lemma_word_spans_are_words(s);
    lemma_words_agree_upto(s, spans, w, 0);
    if spans.len() > w.len() {
        lemma_words_longer(s, spans, w);
    }
    if w.len() > spans.len() {
        lemma_words_longer(s, w, spans);
    }
    assert(spans =~= w);
}

proof fn lemma_words_agree_upto(s: Seq<char>, a: Seq<(int, int)>, b: Seq<(int, int)>, k: int)
    requires
        spans_are_words(s, a),
        spans_are_words(s, b),
        0 <= k,
        forall|j: int| 0 <= j < k && j < a.len() && j < b.len() ==> a[j] == b[j],
    ensures
        forall|j: int| 0 <= j < a.len() && j < b.len() ==> a[j] == b[j],
    decreases a.len() - k,
{
    if k < a.len() && k < b.len() {
        lemma_words_agree_at(s, a, b, k);
        lemma_words_agree_upto(s, a, b, k + 1);
    }
}

proof fn lemma_words_longer(s: Seq<char>, a: Seq<(int, int)>, b: Seq<(int, int)>)
    requires
        spans_are_words(s, a),
        spans_are_words(s, b),
        forall|j: int| 0 <= j < a.len() && j < b.len() ==> a[j] == b[j],
    ensures
        a.len() <= b.len(),
{
    if a.len() > b.len() {
        let l = b.len() as int;
        let p = a[l].0;
        assert(!is_white_space(s[p]));
        let m = choose|m: int| 0 <= m < b.len() && (#[trigger] b[m]).0 <= p < b[m].1;
        assert(a[m] == b[m]);
        lemma_words_ordered(s, a, m, l);
    }
}

/// A command line split into its name and its first arguments.
pub struct Command<'a> {
    pub name: &'a str,
    pub args: [&'a str; 4],
    pub argc: usize,
}

impl<'a> Command<'a> {
    /// The command holds the first word of `line` as its name (empty when the line has no word),
    /// the next words, at most `MAX_ARGS` of them, as its arguments, and empty strings in the
    /// unused argument slots.
    pub open spec fn parsed_from(&self, line: Seq<char>) -> bool {
        let w = words(line);
        &&& self.name@ == (if w.len() > 0 {
            w[0]
        } else {
            Seq::<char>::empty()
        })
        &&& self.argc == (if w.len() <= 1 {
            0
        } else if w.len() - 1 <= MAX_ARGS {
            w.len() - 1
        } else {
            MAX_ARGS as int
        })
        &&& forall|k: int| 0 <= k < self.argc ==> (#[trigger] self.args@[k])@ == w[k + 1]
        &&& forall|k: int| self.argc <= k < MAX_ARGS ==> (#[trigger] self.args@[k])@ == Seq::<char>::empty()
    }
}

/// A parsed command line keeps its words: the name is the first word (empty for a line without
/// words), every word after it up to the fourth becomes an argument, in order, and `argc` counts
/// them: one less than the number of words, but never more than four. A line of exactly two
/// words thus gives one argument, its second word.
pub proof fn lemma_parse_keeps_words(cmd: Command, line: Seq<char>)
    requires
        cmd.parsed_from(line),
    ensures
        words(line).len() == 0 ==> cmd.name@.len() == 0 && cmd.argc == 0,
        words(line).len() >= 1 ==> cmd.name@ == words(line)[0],
        1 <= words(line).len() <= 5 ==> cmd.argc == words(line).len() - 1,
        words(line).len() >= 5 ==> cmd.argc == 4,
        words(line).len() == 2 ==> cmd.argc == 1 && cmd.args@[0]@ == words(line)[1],
        forall|k: int| 0 <= k < cmd.argc ==> (#[trigger] cmd.args@[k])@ == words(line)[k + 1],
        forall|k: int| cmd.argc <= k < 4 ==> (#[trigger] cmd.args@[k])@.len() == 0,
{
    if words(line).len() == 2 {
        assert(cmd.args@[0]@ == words(line)[0int + 1]);
    }
    assert forall|k: int| cmd.argc <= k < 4 implies (#[trigger] cmd.args@[k])@.len() == 0 by {
        assert(cmd.args@[k]@ == Seq::<char>::empty());
    }
}

/// The same, for any way of marking out the line's maximal runs of characters that are not white
/// space: the name is the first run, the arguments are the next runs, at most four, in order, and
/// `argc` is one less than the number of runs, but at most four.
pub proof fn lemma_parse_takes_runs(cmd: Command, line: Seq<char>, runs: Seq<(int, int)>)
    requires
        cmd.parsed_from(line),
        spans_are_words(line, runs),
    ensures
        runs.len() == 0 ==> cmd.name@.len() == 0 && cmd.argc == 0,
        runs.len() >= 1 ==> cmd.name@ == line.subrange(runs[0].0, runs[0].1),
        1 <= runs.len() <= 5 ==> cmd.argc == runs.len() - 1,
        runs.len() >= 5 ==> cmd.argc == 4,
        forall|k: int| 0 <= k < cmd.argc ==> (#[trigger] cmd.args@[k])@ == line.subrange(runs[k + 1].0, runs[k + 1].1),
{
    lemma_words_unique(line, runs);
    lemma_parse_keeps_words(cmd, line);
    assert forall|k: int| 0 <= k < cmd.argc implies (#[trigger] cmd.args@[k])@ == line.subrange(runs[k + 1].0, runs[k + 1].1) by {
        assert(words(line)[k + 1] == line.subrange(runs[k + 1].0, runs[k + 1].1));
    }
}

/// Word spans held as pairs of `usize`, read as pairs of integers.
pub open spec fn spans_view(spans: Seq<(usize, usize)>) -> Seq<(int, int)> {
    spans.map_values(|span: (usize, usize)| (span.0 as int, span.1 as int))
}

/// Finds the word spans of `input`, as the shell reads it.
fn find_word_spans(input: &str) -> (spans: Vec<(usize, usize)>)
    ensures
        spans_view(spans@) == word_spans(input@),
        forall|k: int| 0 <= k < spans@.len() ==> (#[trigger] spans@[k]).0 <= spans@[k].1 <= input@.len(),
{
    let ghost s = input@;
    let n = input.unicode_len();
    let mut spans: Vec<(usize, usize)> = Vec::new();
    let mut in_word = false;
    let mut start: usize = 0;
    let mut i: usize = 0;
    while i < n
        invariant
            s == input@,
            n == s.len(),
            i <= n,
            start <= i,
            in_word <==> (i > 0 && !is_white_space(s[i - 1])),
            in_word ==> word_spans(s.take(i as int)) == spans_view(spans@).push(
                (start as int, i as int),
            ),
            !in_word ==> word_spans(s.take(i as int)) == spans_view(spans@),
            forall|k: int| 0 <= k < spans@.len() ==> (#[trigger] spans@[k]).0 <= spans@[k].1 <= i,
        decreases n - i,
    {
        let c = input.get_char(i);
        let white = is_white_space_char(c);
        proof {
            let t = s.take(i as int + 1);
            assert(t.drop_last() =~= s.take(i as int));
            assert(t[i as int] == c);
            if i > 0 {
                assert(t[i - 1] == s[i - 1]);
            }
        }
        if white {
            if in_word {
                let ghost before = spans@;
                spans.push((start, i));
                proof {
                    assert(spans_view(spans@) =~= spans_view(before).push((start as int, i as int)));
                }
            }
            in_word = false;
        } else {
            if !in_word {
                start = i;
            }
            in_word = true;
        }
        i = i + 1;
    }
    if in_word {
        let ghost before = spans@;
        spans.push((start, n));
        proof {
            assert(spans_view(spans@) =~= spans_view(before).push((start as int, n as int)));
        }
    }
    proof {
        assert(s.take(n as int) =~= s);
    }
    spans
}

/// The word `k` of `input` when `k` is below `count`, and the empty string otherwise.
fn word_or_empty<'a>(input: &'a str, spans: &Vec<(usize, usize)>, k: usize, count: usize) -> (w: &'a str)
    requires
        count <= spans@.len(),
        spans_view(spans@) == word_spans(input@),
        forall|j: int| 0 <= j < spans@.len() ==> (#[trigger] spans@[j]).0 <= spans@[j].1 <= input@.len(),
    ensures
        k < count ==> w@ == words(input@)[k as int],
        k >= count ==> w@ == Seq::<char>::empty(),
{
    if k < count {
        let span = spans[k];
        assert(word_spans(input@)[k as int] == (span.0 as int, span.1 as int));
        input.substring_char(span.0, span.1)
    } else {
        proof {
            reveal_strlit("");
        }
        ""
    }
}

/// Splits a command line into its name, its first arguments (at most `MAX_ARGS`) and their
/// count.
pub fn parse<'a>(input: &'a str) -> (cmd: Command<'a>)
    ensures
        cmd.parsed_from(input@),
{
    let spans = find_word_spans(input);
    let count = spans.len();
    let argc: usize = if count <= 1 {
        0
    } else if count - 1 <= MAX_ARGS {
        count - 1
    } else {
        MAX_ARGS
    };
    let name = word_or_empty(input, &spans, 0, count);
    let used: usize = if count == 0 { 0 } else { argc + 1 };
    let args = [
        word_or_empty(input, &spans, 1, used),
        word_or_empty(input, &spans, 2, used),
        word_or_empty(input, &spans, 3, used),
        word_or_empty(input, &spans, 4, used),
    ];
    let cmd = Command { name, args, argc };
    proof {
        assert(words(input@).len() == count);
        assert forall|k: int| 0 <= k < cmd.argc implies (#[trigger] cmd.args@[k])@ == words(input@)[k + 1] by {
            assert(cmd.args@[k] == args@[k]);
        }
        assert forall|k: int| cmd.argc <= k < MAX_ARGS implies (#[trigger] cmd.args@[k])@ == Seq::<char>::empty() by {
            assert(cmd.args@[k] == args@[k]);
        }
    }
    cmd
}

/// The commands the shell knows.
#[derive(PartialEq, Eq, Structural, Clone, Copy, Debug)]
pub enum Builtin {
    Help,
    Echo,
    Uptime,
    Test,
    Unknown,
}

/// The command that a command name selects.
pub open spec fn builtin_named(name: Seq<char>) -> Builtin {
    if name == "help"@ {
        Builtin::Help
    } else if name == "echo"@ {
        Builtin::Echo
    } else if name == "uptime"@ {
        Builtin::Uptime
    } else if name == "test"@ {
        Builtin::Test
    } else {
        Builtin::Unknown
    }
}

/// Whether `a` and `b` hold the same characters.
fn same_text(a: &str, b: &str) -> (same: bool)
    ensures
        same == (a@ == b@),
{
    let n = a.unicode_len();
    if n != b.unicode_len() {
        return false;
    }
    let mut i: usize = 0;
    while i < n
        invariant
            n == a@.len(),
            n == b@.len(),
            i <= n,
            forall|j: int| 0 <= j < i ==> a@[j] == b@[j],
        decreases n - i,
    {
        if a.get_char(i) != b.get_char(i) {
            return false;
        }
        i = i + 1;
    }
    proof {
        assert(a@ =~= b@);
    }
    true
}

/// The command that the command line `cmd` runs.
pub fn run(cmd: &Command) -> (builtin: Builtin)
    ensures
        builtin == builtin_named(cmd.name@),
{
    if same_text(cmd.name, "help") {
        Builtin::Help
    } else if same_text(cmd.name, "echo") {
        Builtin::Echo
    } else if same_text(cmd.name, "uptime") {
        Builtin::Uptime
    } else if same_text(cmd.name, "test") {
        Builtin::Test
    } else {
        Builtin::Unknown
    }
}

/// The first `n` arguments, each followed by a space.
pub open spec fn spaced_args(args: Seq<&str>, n: int) -> Seq<char>
    decreases n,
{
    if n <= 0 {
        Seq::empty()
    } else {
        spaced_args(args, n - 1) + args[n - 1]@ + seq![' ']
    }
}

/// What `echo` prints, written out for each count of arguments it can have: the arguments in
/// order, each followed by one space.
pub proof fn lemma_spaced_args_in_full(args: Seq<&str>)
    ensures
        spaced_args(args, 0) == Seq::<char>::empty(),
        spaced_args(args, 1) == args[0]@ + seq![' '],
        spaced_args(args, 2) == args[0]@ + seq![' '] + args[1]@ + seq![' '],
        spaced_args(args, 3) == args[0]@ + seq![' '] + args[1]@ + seq![' '] + args[2]@ + seq![' '],
        spaced_args(args, 4) == args[0]@ + seq![' '] + args[1]@ + seq![' '] + args[2]@ + seq![' ']
            + args[3]@ + seq![' '],
{
    reveal_with_fuel(spaced_args, 5);
    assert(spaced_args(args, 1) =~= args[0]@ + seq![' ']);
}

/// Argument `k` (below `n`) stands in the first `n` arguments and their spaces right after the
/// first `k` arguments and their spaces, and a space follows it.
pub proof fn lemma_spaced_args_layout(args: Seq<&str>, n: int, k: int)
    requires
        0 <= k < n,
    ensures
        ({
            let at = spaced_args(args, k).len() as int;
            let end = at + args[k]@.len();
            &&& end < spaced_args(args, n).len()
            &&& spaced_args(args, n).subrange(at, end) == args[k]@
            &&& spaced_args(args, n)[end] == ' '
        }),
    decreases n,
{
    let at = spaced_args(args, k).len() as int;
    let end = at + args[k]@.len();
    if n > k + 1 {
        lemma_spaced_args_layout(args, n - 1, k);
        let prev = spaced_args(args, n - 1);
        assert(spaced_args(args, n) == prev + args[n - 1]@ + seq![' ']);
        assert(spaced_args(args, n).subrange(at, end) =~= prev.subrange(at, end));
        assert(spaced_args(args, n)[end] == prev[end]);
    } else {
        assert(spaced_args(args, n) == spaced_args(args, k) + args[k]@ + seq![' ']);
        assert(spaced_args(args, n).subrange(at, end) =~= args[k]@);
    }
}

/// What `echo` prints: each argument followed by a space, then a line feed.
pub fn echo_text(cmd: &Command) -> (text: String)
    requires
        cmd.argc <= MAX_ARGS,
    ensures
        text@ == spaced_args(cmd.args@, cmd.argc as int) + seq!['\n'],
{
    let mut text = String::new();
    let mut k: usize = 0;
    while k < cmd.argc
        invariant
            cmd.argc <= MAX_ARGS,
            k <= cmd.argc,
            text@ == spaced_args(cmd.args@, k as int),
        decreases cmd.argc - k,
    {
        text.append(cmd.args[k]);
        proof {
            reveal_strlit(" ");
        }
        text.append(" ");
        k = k + 1;
    }
    proof {
        reveal_strlit("\n");
    }
    text.append("\n");
    text
}

} // verus!
