//! Helpers of the command-line tools: flag lookup, decimal parsing and the
//! median of timing samples.
use vstd::prelude::*;
use vstd::string::StrSliceExecFns;
use vstd::relations::{sorted_by, total_ordering};

verus! {

/// `c` is an ASCII decimal digit.
pub open spec fn is_digit(c: char) -> bool {
    '0' <= c && c <= '9'
}

/// Value of the decimal digit `c`.
pub open spec fn digit_value(c: char) -> nat {
    (c as int - '0' as int) as nat
}

/// `s` is a non-empty run of ASCII decimal digits.
pub open spec fn all_digits(s: Seq<char>) -> bool {
    s.len() > 0 && forall|i: int| 0 <= i < s.len() ==> is_digit(#[trigger] s[i])
}

/// Value of the decimal numeral `s`, most significant digit first.
pub open spec fn decimal_value(s: Seq<char>) -> nat
    decreases s.len(),
{
    if s.len() == 0 {
        0
    } else {
        decimal_value(s.drop_last()) * 10 + digit_value(s.last())
    }
}

/// The digits of `s` once an optional leading `+` is removed.
pub open spec fn unsigned_digits(s: Seq<char>) -> Seq<char> {
    if s.len() > 0 && s[0] == '+' {
        s.subrange(1, s.len() as int)
    } else {
        s
    }
}

/// What `str::parse::<usize>` gives for `s`: an optional `+`, then at least
/// one ASCII digit, and a value that fits in `usize`.
pub open spec fn parsed_usize(s: Seq<char>) -> Option<usize> {
    let d = unsigned_digits(s);
    if all_digits(d) && decimal_value(d) <= usize::MAX {
        Some(decimal_value(d) as usize)
    } else {
        None
    }
}

/// A numeral never has a smaller value than any of its prefixes.
pub proof fn lemma_decimal_value_grows(s: Seq<char>, k: int)
    requires
        0 <= k <= s.len(),
        all_digits(s) || k == s.len(),
    ensures
        decimal_value(s.subrange(0, k)) <= decimal_value(s),
    decreases s.len() - k,
{
    if k < s.len() {
        lemma_decimal_value_grows(s, k + 1);
        assert(s.subrange(0, k + 1).drop_last() =~= s.subrange(0, k));
        assert(decimal_value(s.subrange(0, k + 1)) == decimal_value(s.subrange(0, k)) * 10
            + digit_value(s.subrange(0, k + 1).last()));
    } else {
        assert(s.subrange(0, k) =~= s);
    }
}

/// Reading a numeral digit by digit: a lone digit `c` is worth
/// `c - '0'`; a further digit multiplies the value so far by ten and adds
/// its own; one leading `+` changes nothing; the empty string, a first
/// character that is neither a digit nor `+`, and a later character that is
/// not a digit are refused.
pub proof fn lemma_parse_usize_reads_decimal(s: Seq<char>, c: char, i: int)
    ensures
        '0' <= c <= '9' ==> parsed_usize(seq![c]) == Some((c as int - 48) as usize),
        parsed_usize(Seq::<char>::empty()) is None,
        s.len() > 0 && !('0' <= s[0] <= '9') && s[0] != '+' ==> parsed_usize(s) is None,
        0 < i < s.len() && !('0' <= s[i] <= '9') ==> parsed_usize(s) is None,
        (s.len() == 0 || s[0] != '+') ==> parsed_usize(seq!['+'] + s) == parsed_usize(s),
        all_digits(s) && '0' <= c <= '9' && parsed_usize(s.push(c)) is Some ==> parsed_usize(s) is Some
            && parsed_usize(s.push(c))->0 == 10 * parsed_usize(s)->0 + (c as int - 48),
{
    if '0' <= c <= '9' {
        assert(seq![c].drop_last() =~= Seq::<char>::empty());
        assert(unsigned_digits(seq![c]) == seq![c]);
        assert(all_digits(seq![c]));
        assert(decimal_value(Seq::<char>::empty()) == 0);
        assert(decimal_value(seq![c]) == decimal_value(seq![c].drop_last()) * 10 + digit_value(c));
        assert(decimal_value(seq![c]) == digit_value(c));
        assert('0' as int == 48);
    }
    if 0 < i < s.len() && !('0' <= s[i] <= '9') {
        let d = unsigned_digits(s);
        if s[0] == '+' {
            assert(d[i - 1] == s[i]);
        } else {
            assert(d[i] == s[i]);
        }
    }
    if s.len() == 0 || s[0] != '+' {
        assert((seq!['+'] + s).subrange(1, (seq!['+'] + s).len() as int) =~= s);
        assert(unsigned_digits(seq!['+'] + s) == s);
        if s.len() > 0 && !is_digit(s[0]) {
            assert(unsigned_digits(s) == s);
        }
    }
    if all_digits(s) && '0' <= c <= '9' {
        let t = s.push(c);
        assert(t.drop_last() =~= s);
        assert(unsigned_digits(s) == s);
        assert(unsigned_digits(t) == t);
        assert(all_digits(t)) by {
            assert forall|j: int| 0 <= j < t.len() implies is_digit(#[trigger] t[j]) by {
                if j < s.len() {
                    assert(t[j] == s[j]);
                }
            }
        }
        assert(decimal_value(t) == decimal_value(s) * 10 + digit_value(c));
    }
}

/// Parses `s` as `str::parse::<usize>` does.
pub fn parse_usize(s: &str) -> (r: Option<usize>)
    ensures
        r == parsed_usize(s@),
{
    let n: usize = s.unicode_len();
    let mut start: usize = 0;
    if n > 0 && s.get_char(0) == '+' {
        start = 1;
    }
    let ghost d = unsigned_digits(s@);
    assert(d =~= s@.subrange(start as int, n as int));
    if start == n {
        assert(!all_digits(d));
        return None;
    }
    let mut value: usize = 0;
    let mut i: usize = start;
    while i < n
        invariant
            start <= i <= n,
            n == s@.len(),
            start < n,
            d =~= s@.subrange(start as int, n as int),
            d == unsigned_digits(s@),
            forall|j: int| start <= j < i ==> is_digit(#[trigger] s@[j]),
            value as nat == decimal_value(s@.subrange(start as int, i as int)),
        decreases n - i,
    {
        let c = s.get_char(i);
        if !('0' <= c && c <= '9') {
            assert(!is_digit(d[i - start]));
            assert(!all_digits(d));
            return None;
        }
        let ghost prefix = s@.subrange(start as int, i + 1);
        assert(prefix.drop_last() =~= s@.subrange(start as int, i as int));
        assert(prefix.last() == c);
        let digit: usize = ((c as u32) - ('0' as u32)) as usize;
        match value.checked_mul(10) {
            None => {
                proof {
                    if all_digits(d) {
                        assert(d.subrange(0, i + 1 - start) =~= prefix);
                        lemma_decimal_value_grows(d, i + 1 - start);
                    }
                }
                return None;
            },
            Some(tens) => match tens.checked_add(digit) {
                None => {
                    proof {
                        if all_digits(d) {
                            assert(d.subrange(0, i + 1 - start) =~= prefix);
                            lemma_decimal_value_grows(d, i + 1 - start);
                            assert(decimal_value(prefix) == tens + digit);
                        }
                    }
                    return None;
                },
                Some(v) => {
                    value = v;
                },
            },
        }
        i = i + 1;
    }
    assert(d =~= s@.subrange(start as int, i as int));
    assert(all_digits(d));
    Some(value)
}

/// The first index `i` with `args[i] == flag` that has an argument after it.
pub open spec fn flag_index(args: Seq<Seq<char>>, flag: Seq<char>, i: int) -> bool {
    &&& 0 <= i
    &&& i + 1 < args.len()
    &&& args[i] == flag
    &&& forall|j: int| 0 <= j < i ==> #[trigger] args[j] != flag
}

/// The value given after `flag`: the argument that follows the first
/// occurrence of `flag`, where one follows it.
pub open spec fn flag_value(args: Seq<Seq<char>>, flag: Seq<char>) -> Option<Seq<char>> {
    if exists|i: int| flag_index(args, flag, i) {
        let i = choose|i: int| flag_index(args, flag, i);
        Some(args[i + 1])
    } else {
        None
    }
}

/// The views of a list of strings.
pub open spec fn views(args: Seq<String>) -> Seq<Seq<char>> {
    args.map_values(|a: String| a@)
}

/// At most one index is the first occurrence of a flag.
pub proof fn lemma_flag_index_unique(args: Seq<Seq<char>>, flag: Seq<char>, i: int, j: int)
    requires
        flag_index(args, flag, i),
        flag_index(args, flag, j),
    ensures
        i == j,
{
    if i < j {
        assert(args[i] != flag);
    } else if j < i {
        assert(args[j] != flag);
    }
}

/// The value of a flag is the argument right after its first occurrence,
/// even when the flag occurs again later; a flag that occurs only as the
/// last argument, or not at all, has none.
pub proof fn lemma_flag_value_first_occurrence(args: Seq<Seq<char>>, flag: Seq<char>, i: int)
    ensures
        0 <= i && i + 1 < args.len() && args[i] == flag && (forall|j: int|
            0 <= j < i ==> #[trigger] args[j] != flag) ==> flag_value(args, flag) == Some(args[i + 1]),
        (forall|j: int| 0 <= j < args.len() - 1 ==> #[trigger] args[j] != flag) ==> flag_value(
            args,
            flag,
        ) is None,
{
    if 0 <= i && i + 1 < args.len() && args[i] == flag && (forall|j: int|
        0 <= j < i ==> #[trigger] args[j] != flag) {
        assert(flag_index(args, flag, i));
        let k = choose|k: int| flag_index(args, flag, k);
        lemma_flag_index_unique(args, flag, i, k);
    }
    if forall|j: int| 0 <= j < args.len() - 1 ==> #[trigger] args[j] != flag {
        assert forall|k: int| !flag_index(args, flag, k) by {
            if flag_index(args, flag, k) {
                assert(args[k] != flag);
            }
        }
    }
}

/// Returns the argument that follows `flag`, or `None` where `flag` is
/// absent or comes last.
pub fn parse_arg_str(args: &Vec<String>, flag: &str) -> (r: Option<String>)
    ensures
        r matches Some(v) ==> flag_value(views(args@), flag@) == Some(v@),
        r is None ==> flag_value(views(args@), flag@) is None,
{
    let ghost a = views(args@);
    let key = String::from_str(flag);
    let mut i: usize = 0;
    while i < args.len()
        invariant
            i <= args@.len(),
            a == views(args@),
            key@ == flag@,
            forall|j: int| 0 <= j < i && j + 1 < args@.len() ==> #[trigger] a[j] != flag@,
        decreases args@.len() - i,
    {
        if args[i] == key && i + 1 < args.len() {
            assert(flag_index(a, flag@, i as int)) by {
                assert forall|j: int| 0 <= j < i implies #[trigger] a[j] != flag@ by {
                    assert(j + 1 < args@.len());
                }
            }
            proof {
                let k = choose|k: int| flag_index(a, flag@, k);
                lemma_flag_index_unique(a, flag@, i as int, k);
            }
            return Some(args[i + 1].clone());
        }
        i = i + 1;
    }
    assert forall|k: int| !flag_index(a, flag@, k) by {
        if flag_index(a, flag@, k) {
            assert(a[k] != flag@);
        }
    }
    None
}

/// The number given after `flag`, as `parse_arg_str` finds it and
/// `str::parse::<usize>` reads it.
pub open spec fn flag_number(args: Seq<Seq<char>>, flag: Seq<char>) -> Option<usize> {
    match flag_value(args, flag) {
        Some(v) => parsed_usize(v),
        None => None,
    }
}

/// Returns the number that follows `flag`; `None` where the flag is absent,
/// comes last, or is followed by something that is not a `usize`.
pub fn parse_arg(args: &Vec<String>, flag: &str) -> (r: Option<usize>)
    ensures
        r == flag_number(views(args@), flag@),
{
    match parse_arg_str(args, flag) {
        Some(v) => parse_usize(v.as_str()),
        None => None,
    }
}

/// `c` has the Unicode `White_Space` property (as `char::is_whitespace`).
pub open spec fn is_white_space(c: char) -> bool {
    ||| '\u{9}' <= c && c <= '\u{d}'
    ||| c == ' '
    ||| c == '\u{85}'
    ||| c == '\u{a0}'
    ||| c == '\u{1680}'
    ||| '\u{2000}' <= c && c <= '\u{200a}'
    ||| c == '\u{2028}'
    ||| c == '\u{2029}'
    ||| c == '\u{202f}'
    ||| c == '\u{205f}'
    ||| c == '\u{3000}'
}

fn white_space(c: char) -> (b: bool)
    ensures
        b == is_white_space(c),
{
    ('\u{9}' <= c && c <= '\u{d}') || c == ' ' || c == '\u{85}' || c == '\u{a0}' || c == '\u{1680}'
        || ('\u{2000}' <= c && c <= '\u{200a}') || c == '\u{2028}' || c == '\u{2029}' || c
        == '\u{202f}' || c == '\u{205f}' || c == '\u{3000}'
}

/// `s` without leading and trailing white space (as `str::trim`): the part
/// from `start` to `end`.
pub open spec fn trimmed(s: Seq<char>, start: int, end: int) -> bool {
    &&& 0 <= start <= end <= s.len()
    &&& forall|i: int| 0 <= i < start ==> is_white_space(#[trigger] s[i])
    &&& forall|i: int| end <= i < s.len() ==> is_white_space(#[trigger] s[i])
    &&& start < end ==> !is_white_space(s[start]) && !is_white_space(s[end - 1])
}

/// Default number of initial mutations asked for interactively.
pub const DEFAULT_ANSWER_MUTATIONS: usize = 12;

/// Number of mutations given by an answer line: the trimmed line read as a
/// `usize`, or the default where it is empty or not a number.
pub open spec fn answer_mutations(answer: Seq<char>) -> usize {
    let (start, end) = choose|start: int, end: int| #[trigger] trimmed(answer, start, end);
    let t = answer.subrange(start, end);
    if t.len() == 0 {
        DEFAULT_ANSWER_MUTATIONS
    } else {
        match parsed_usize(t) {
            Some(v) => v,
            None => DEFAULT_ANSWER_MUTATIONS,
        }
    }
}

/// The trimmed part of a string is unique: the same bounds, or empty both
/// times.
pub proof fn lemma_trimmed_unique(s: Seq<char>, a: int, b: int, c: int, d: int)
    requires
        trimmed(s, a, b),
        trimmed(s, c, d),
    ensures
        (a == c && b == d) || (a == b && c == d),
{
    if a < b && c < d {
        if a < c {
            assert(is_white_space(s[a]));
        } else if c < a {
            assert(is_white_space(s[c]));
        }
        if b < d {
            assert(is_white_space(s[d - 1]));
        } else if d < b {
            assert(is_white_space(s[b - 1]));
        }
    } else if a < b {
        // Then c == d and every character is white space.
        if a < c {
            assert(is_white_space(s[a]));
        } else {
            assert(d <= a);
            assert(is_white_space(s[a]));
        }
    } else if c < d {
        if c < a {
            assert(is_white_space(s[c]));
        } else {
            assert(b <= c);
            assert(is_white_space(s[c]));
        }
    }
}

/// An answer that is a numeral, alone or with white space around it, gives
/// its value; an answer of white space only (the empty one too) gives the
/// default of 12.
pub proof fn lemma_answer_mutations(t: Seq<char>, s: Seq<char>)
    requires
        all_digits(t),
        decimal_value(t) <= usize::MAX,
    ensures
        answer_mutations(t) == decimal_value(t),
        answer_mutations(seq![' '] + t + seq!['\n']) == decimal_value(t),
        (forall|i: int| 0 <= i < s.len() ==> is_white_space(#[trigger] s[i])) ==> answer_mutations(s)
            == 12,
{
    assert(is_digit(t[0]));
    assert(unsigned_digits(t) == t);
    assert forall|i: int| 0 <= i < t.len() implies !is_white_space(#[trigger] t[i]) by {
        assert(is_digit(t[i]));
    }
    assert(trimmed(t, 0, t.len() as int));
    let (a, b) = choose|a: int, b: int| #[trigger] trimmed(t, a, b);
    lemma_trimmed_unique(t, a, b, 0, t.len() as int);
    assert(t.subrange(0, t.len() as int) =~= t);

    let u = seq![' '] + t + seq!['\n'];
    assert forall|i: int| 1 <= i < u.len() - 1 implies u[i] == t[i - 1] by {}
    assert(u[0] == ' ');
    assert(u[u.len() - 1] == '\n');
    assert(!is_white_space(u[1])) by {
        assert(u[1] == t[0]);
    }
    assert(!is_white_space(u[u.len() - 2])) by {
        assert(u[u.len() - 2] == t[t.len() - 1]);
    }
    assert(trimmed(u, 1, u.len() - 1));
    let (c, d) = choose|c: int, d: int| #[trigger] trimmed(u, c, d);
    lemma_trimmed_unique(u, c, d, 1, u.len() - 1);
    assert(u.subrange(1, u.len() - 1) =~= t);

    if forall|i: int| 0 <= i < s.len() ==> is_white_space(#[trigger] s[i]) {
        assert(trimmed(s, 0, 0));
        let (e, f) = choose|e: int, f: int| #[trigger] trimmed(s, e, f);
        lemma_trimmed_unique(s, e, f, 0, 0);
    }
}

/// Reads the answer to the question for the number of initial mutations.
pub fn mutations_from_answer(answer: &str) -> (n: usize)
    ensures
        n == answer_mutations(answer@),
{
    let len = answer.unicode_len();
    let mut start: usize = 0;
    while start < len && white_space(answer.get_char(start))
        invariant
            start <= len,
            len == answer@.len(),
            forall|i: int| 0 <= i < start ==> is_white_space(#[trigger] answer@[i]),
        decreases len - start,
    {
        start = start + 1;
    }
    let mut end: usize = len;
    while end > start && white_space(answer.get_char(end - 1))
        invariant
            start <= end <= len,
            len == answer@.len(),
            forall|i: int| end <= i < len ==> is_white_space(#[trigger] answer@[i]),
            start < len ==> !is_white_space(answer@[start as int]),
        decreases end - start,
    {
        end = end - 1;
    }
    assert(trimmed(answer@, start as int, end as int));
    proof {
        let (a, b) = choose|a: int, b: int| #[trigger] trimmed(answer@, a, b);
        lemma_trimmed_unique(answer@, a, b, start as int, end as int);
    }
    if start == end {
        return DEFAULT_ANSWER_MUTATIONS;
    }
    let t = answer.substring_char(start, end);
    match parse_usize(t) {
        Some(v) => v,
        None => DEFAULT_ANSWER_MUTATIONS,
    }
}

/// `s` holds `pat` at position `i`.
pub open spec fn occurs_at(s: Seq<char>, pat: Seq<char>, i: int) -> bool {
    0 <= i && i + pat.len() <= s.len() && s.subrange(i, i + pat.len()) == pat
}

/// `i` is the first position of `pat` in `s` (as `str::find`).
pub open spec fn first_occurrence(s: Seq<char>, pat: Seq<char>, i: int) -> bool {
    occurs_at(s, pat, i) && forall|j: int| 0 <= j < i ==> !#[trigger] occurs_at(s, pat, j)
}

/// The text between the `gen_` prefix and the `.json` suffix of a saved
/// top-predator file name, where the name has both.
pub open spec fn top_predator_stem(name: Seq<char>) -> Option<Seq<char>> {
    if name.len() >= 9 && name.subrange(0, 4) == seq!['g', 'e', 'n', '_'] && name.subrange(
        name.len() - 5,
        name.len() as int,
    ) == seq!['.', 'j', 's', 'o', 'n'] {
        Some(name.subrange(4, name.len() - 5))
    } else {
        None
    }
}

/// The marker between generation and rank.
pub open spec fn rank_marker() -> Seq<char> {
    seq!['_', 'r', 'a', 'n', 'k']
}

/// Generation and rank named by the stem of a top-predator file:
/// `<generation>_rank<rank>`, or `<generation>` alone for rank 1.
pub open spec fn stem_key(stem: Seq<char>) -> Option<(usize, usize)> {
    if exists|i: int| first_occurrence(stem, rank_marker(), i) {
        let i = choose|i: int| first_occurrence(stem, rank_marker(), i);
        match (parsed_usize(stem.subrange(0, i)), parsed_usize(stem.subrange(i + 5, stem.len() as int))) {
            (Some(g), Some(r)) => Some((g, r)),
            _ => None,
        }
    } else {
        match parsed_usize(stem) {
            Some(g) => Some((g, 1usize)),
            None => None,
        }
    }
}

/// Generation and rank of a saved top-predator file name such as
/// `gen_5000_rank2.json` or `gen_5000.json`.
pub open spec fn top_predator_key(name: Seq<char>) -> Option<(usize, usize)> {
    match top_predator_stem(name) {
        Some(stem) => stem_key(stem),
        None => None,
    }
}

/// At most one position is the first occurrence of a pattern.
proof fn lemma_first_occurrence_unique(s: Seq<char>, pat: Seq<char>, i: int, j: int)
    requires
        first_occurrence(s, pat, i),
        first_occurrence(s, pat, j),
    ensures
        i == j,
{
    if i < j {
        assert(!occurs_at(s, pat, i));
    } else if j < i {
        assert(!occurs_at(s, pat, j));
    }
}

/// A numeral of at least one digit that fits in `usize` reads as its value.
proof fn lemma_numeral_parses(g: Seq<char>)
    requires
        all_digits(g),
        decimal_value(g) <= usize::MAX,
    ensures
        parsed_usize(g) == Some(decimal_value(g) as usize),
{
    assert(is_digit(g[0]));
    assert(unsigned_digits(g) == g);
}

/// A digit string never holds `_rank`.
proof fn lemma_no_marker_in_digits(t: Seq<char>, g: Seq<char>, j: int)
    requires
        all_digits(g),
        0 <= j < g.len(),
        j < t.len(),
        t[j] == g[j],
    ensures
        !occurs_at(t, rank_marker(), j),
{
    if occurs_at(t, rank_marker(), j) {
        assert(t.subrange(j, j + 5)[0] == rank_marker()[0]);
        assert(is_digit(g[j]));
    }
}

/// The files `gen_<g>_rank<r>.json` and `gen_<g>.json`, for numerals `g`
/// and `r`, name generation `g` with rank `r`, and generation `g` with
/// rank 1; a name that is too short or does not start with `g` names none.
pub proof fn lemma_top_predator_names(g: Seq<char>, r: Seq<char>, name: Seq<char>)
    requires
        all_digits(g),
        all_digits(r),
        decimal_value(g) <= usize::MAX,
        decimal_value(r) <= usize::MAX,
    ensures
        top_predator_key(seq!['g', 'e', 'n', '_'] + g + seq!['_', 'r', 'a', 'n', 'k'] + r + seq![
            '.',
            'j',
            's',
            'o',
            'n',
        ]) == Some((decimal_value(g) as usize, decimal_value(r) as usize)),
        top_predator_key(seq!['g', 'e', 'n', '_'] + g + seq!['.', 'j', 's', 'o', 'n']) == Some(
            (decimal_value(g) as usize, 1usize),
        ),
        name.len() < 9 ==> top_predator_key(name) is None,
        name.len() > 0 && name[0] != 'g' ==> top_predator_key(name) is None,
{
    let pre = seq!['g', 'e', 'n', '_'];
    let suf = seq!['.', 'j', 's', 'o', 'n'];
    let mk = seq!['_', 'r', 'a', 'n', 'k'];
    assert(mk =~= rank_marker());
    lemma_numeral_parses(g);
    lemma_numeral_parses(r);
    // With a rank.
    let stem = g + mk + r;
    let n1 = pre + g + mk + r + suf;
    assert(n1 =~= pre + stem + suf);
    assert(n1.subrange(0, 4) =~= pre);
    assert(n1.subrange(n1.len() - 5, n1.len() as int) =~= suf);
    assert(n1.subrange(4, n1.len() - 5) =~= stem);
    assert(top_predator_stem(n1) == Some(stem));
    let gl = g.len() as int;
    assert(stem.subrange(gl, gl + 5) =~= rank_marker());
    assert forall|j: int| 0 <= j < gl implies !#[trigger] occurs_at(stem, rank_marker(), j) by {
        assert(stem[j] == g[j]);
        lemma_no_marker_in_digits(stem, g, j);
    }
    assert(first_occurrence(stem, rank_marker(), gl));
    let i = choose|i: int| first_occurrence(stem, rank_marker(), i);
    lemma_first_occurrence_unique(stem, rank_marker(), i, gl);
    assert(stem.subrange(0, gl) =~= g);
    assert(stem.subrange(gl + 5, stem.len() as int) =~= r);
    // Without a rank.
    let n2 = pre + g + suf;
    assert(n2.subrange(0, 4) =~= pre);
    assert(n2.subrange(n2.len() - 5, n2.len() as int) =~= suf);
    assert(n2.subrange(4, n2.len() - 5) =~= g);
    assert(top_predator_stem(n2) == Some(g));
    assert forall|j: int| !first_occurrence(g, rank_marker(), j) by {
        if first_occurrence(g, rank_marker(), j) {
            lemma_no_marker_in_digits(g, g, j);
        }
    }
    if name.len() > 0 && name[0] != 'g' && name.len() >= 9 {
        assert(name.subrange(0, 4)[0] == name[0]);
        assert(name.subrange(0, 4) != pre);
    }
}

/// Whether `s` holds `_rank` at position `i`.
fn rank_marker_at(s: &str, n: usize, i: usize) -> (b: bool)
    requires
        n == s@.len(),
        i + 5 <= n,
    ensures
        b == occurs_at(s@, rank_marker(), i as int),
{
    let b = s.get_char(i) == '_' && s.get_char(i + 1) == 'r' && s.get_char(i + 2) == 'a'
        && s.get_char(i + 3) == 'n' && s.get_char(i + 4) == 'k';
    assert(b == (s@.subrange(i as int, i + 5) =~= rank_marker()));
    b
}

/// Reads generation and rank from the file name of a saved top predator;
/// `None` for a name that does not have the form `gen_<g>.json` or
/// `gen_<g>_rank<r>.json` with decimal `g` and `r`.
pub fn parse_top_predator_name(name: &str) -> (r: Option<(usize, usize)>)
    ensures
        r == top_predator_key(name@),
{
    let n: usize = name.unicode_len();
    if n < 9 {
        return None;
    }
    let prefix_ok = name.get_char(0) == 'g' && name.get_char(1) == 'e' && name.get_char(2) == 'n'
        && name.get_char(3) == '_';
    assert(prefix_ok == (name@.subrange(0, 4) =~= seq!['g', 'e', 'n', '_']));
    let suffix_ok = name.get_char(n - 5) == '.' && name.get_char(n - 4) == 'j' && name.get_char(
        n - 3,
    ) == 's' && name.get_char(n - 2) == 'o' && name.get_char(n - 1) == 'n';
    assert(suffix_ok == (name@.subrange(n - 5, n as int) =~= seq!['.', 'j', 's', 'o', 'n']));
    if !prefix_ok || !suffix_ok {
        return None;
    }
    let stem = name.substring_char(4, n - 5);
    assert(top_predator_stem(name@) == Some(stem@));
    let m: usize = n - 9;
    let mut i: usize = 0;
    while m >= 5 && i <= m - 5
        invariant
            m == stem@.len(),
            top_predator_stem(name@) == Some(stem@),
            i <= m,
            forall|j: int| 0 <= j < i ==> !#[trigger] occurs_at(stem@, rank_marker(), j),
        decreases m - i,
    {
        if rank_marker_at(stem, m, i) {
            proof {
                assert(first_occurrence(stem@, rank_marker(), i as int));
                let k = choose|k: int| first_occurrence(stem@, rank_marker(), k);
                lemma_first_occurrence_unique(stem@, rank_marker(), i as int, k);
            }
            let g = parse_usize(stem.substring_char(0, i));
            let r = parse_usize(stem.substring_char(i + 5, m));
            assert(stem_key(stem@) == match (g, r) {
                (Some(g), Some(r)) => Some((g, r)),
                _ => None,
            });
            return match (g, r) {
                (Some(g), Some(r)) => Some((g, r)),
                _ => None,
            };
        }
        i = i + 1;
    }
    assert forall|k: int| !first_occurrence(stem@, rank_marker(), k) by {
        if first_occurrence(stem@, rank_marker(), k) {
            assert(!occurs_at(stem@, rank_marker(), k));
        }
    }
    match parse_usize(stem) {
        Some(g) => Some((g, 1)),
        None => None,
    }
}

/// Saved top predators are listed by generation, then rank, then the order
/// in which they were found: entry `a` comes before entry `b`.
pub open spec fn entry_before(keys: Seq<(usize, usize)>, a: usize, b: usize) -> bool {
    ||| keys[a as int].0 < keys[b as int].0
    ||| keys[a as int].0 == keys[b as int].0 && keys[a as int].1 < keys[b as int].1
    ||| keys[a as int] == keys[b as int] && a < b
}

/// Returns the positions of `keys` in the order of a stable sort by
/// generation and rank.
pub fn order_top_predators(keys: &Vec<(usize, usize)>) -> (order: Vec<usize>)
    ensures
        order@.len() == keys@.len(),
        forall|k: usize| k < keys@.len() ==> order@.contains(k),
        forall|a: int| 0 <= a < order@.len() ==> order@[a] < keys@.len(),
        forall|a: int, b: int|
            0 <= a < b < order@.len() ==> entry_before(keys@, #[trigger] order@[a], #[trigger] order@[b]),
{
    let mut order: Vec<usize> = Vec::new();
    let mut i: usize = 0;
    while i < keys.len()
        invariant
            i <= keys@.len(),
            order@.len() == i,
            forall|k: usize| k < i ==> order@.contains(k),
            forall|a: int| 0 <= a < order@.len() ==> order@[a] < i,
            forall|a: int, b: int|
                0 <= a < b < order@.len() ==> entry_before(keys@, #[trigger] order@[a], #[trigger] order@[b]),
        decreases keys@.len() - i,
    {
        let (g, r) = keys[i];
        let mut p: usize = 0;
        while p < order.len() && (keys[order[p]].0 < g || (keys[order[p]].0 == g
            && keys[order[p]].1 <= r))
            invariant
                p <= order@.len(),
                i < keys@.len(),
                (g, r) == keys@[i as int],
                forall|a: int| 0 <= a < order@.len() ==> order@[a] < i,
                forall|a: int| 0 <= a < p ==> entry_before(keys@, #[trigger] order@[a], i),
            decreases order@.len() - p,
        {
            p = p + 1;
        }
        let ghost before = order@;
        order.insert(p, i);
        assert forall|a: int, b: int| 0 <= a < b < order@.len() implies entry_before(
            keys@,
            #[trigger] order@[a],
            #[trigger] order@[b],
        ) by {
            if b < p {
                assert(entry_before(keys@, before[a], before[b]));
            } else if b == p {
            } else if a < p {
                assert(entry_before(keys@, before[a], before[b - 1]));
            } else if a == p {
                assert(entry_before(keys@, i, before[p as int]));
                if p < b - 1 {
                    assert(entry_before(keys@, before[p as int], before[b - 1]));
                }
            } else {
                assert(entry_before(keys@, before[a - 1], before[b - 1]));
            }
        }
        assert forall|k: usize| k < i + 1 implies order@.contains(k) by {
            if k == i {
                assert(order@[p as int] == k);
            } else {
                assert(before.contains(k));
                let a = choose|a: int| 0 <= a < before.len() && before[a] == k;
                if a < p {
                    assert(order@[a] == k);
                } else {
                    assert(order@[a + 1] == k);
                }
            }
        }
        i = i + 1;
    }
    order
}

/// A long run `(steps, final predator count)` beats the best so far when it
/// lasted longer, or as long with more predators left; the first run always
/// becomes the best.
pub open spec fn beats(candidate: (i64, usize), best: Option<(i64, usize)>) -> bool {
    match best {
        None => true,
        Some(b) => candidate.0 > b.0 || (candidate.0 == b.0 && candidate.1 > b.1),
    }
}

/// A run that lasted longer always becomes the best and a shorter one never
/// does; only between runs of equal length does the number of predators
/// left decide, more winning. The first run becomes the best, no run beats
/// itself, and of two runs at most one beats the other.
pub proof fn lemma_longest_run_wins(candidate: (i64, usize), b: (i64, usize))
    ensures
        beats(candidate, None),
        candidate.0 > b.0 ==> beats(candidate, Some(b)),
        candidate.0 < b.0 ==> !beats(candidate, Some(b)),
        candidate.0 == b.0 ==> (beats(candidate, Some(b)) <==> candidate.1 > b.1),
        !beats(b, Some(b)),
        beats(candidate, Some(b)) ==> !beats(b, Some(candidate)),
{
}

/// Saved top predators are listed by generation first, then by rank, and
/// entries with the same generation and rank in the order they were found;
/// of two different entries exactly one comes first.
pub proof fn lemma_entries_by_generation_then_rank(keys: Seq<(usize, usize)>, a: usize, b: usize)
    requires
        a < keys.len(),
        b < keys.len(),
    ensures
        keys[a as int].0 < keys[b as int].0 ==> entry_before(keys, a, b) && !entry_before(keys, b, a),
        keys[a as int].0 == keys[b as int].0 && keys[a as int].1 < keys[b as int].1 ==> entry_before(
            keys,
            a,
            b,
        ) && !entry_before(keys, b, a),
        keys[a as int] == keys[b as int] && a < b ==> entry_before(keys, a, b) && !entry_before(keys, b, a),
        a != b ==> (entry_before(keys, a, b) || entry_before(keys, b, a)),
        !entry_before(keys, a, a),
{
}

/// The samples in ascending order: as many as in `xs`, each kept as often
/// as it occurs, and each no greater than the next.
pub proof fn lemma_sorted_samples_ascending(xs: Seq<u128>)
    ensures
        sorted_samples(xs).len() == xs.len(),
        sorted_samples(xs).to_multiset() == xs.to_multiset(),
        forall|i: int, j: int|
            0 <= i <= j < xs.len() ==> #[trigger] sorted_samples(xs)[i] <= #[trigger] sorted_samples(
                xs,
            )[j],
{
    broadcast use vstd::seq_lib::group_to_multiset_ensures;

    lemma_sample_leq_total();
    xs.lemma_sort_by_ensures(sample_leq());
    let v = sorted_samples(xs);
    assert(v.to_multiset().len() == xs.to_multiset().len());
    assert forall|i: int, j: int| 0 <= i <= j < xs.len() implies #[trigger] v[i] <= #[trigger] v[j] by {
        if i < j {
            assert(sample_leq()(v[i], v[j]));
        }
    }
}

/// Whether `candidate` takes the place of the best run so far.
pub fn replaces_best(candidate: (i64, usize), best: Option<(i64, usize)>) -> (r: bool)
    ensures
        r == beats(candidate, best),
{
    match best {
        None => true,
        Some(b) => candidate.0 > b.0 || (candidate.0 == b.0 && candidate.1 > b.1),
    }
}

/// The order of timing samples.
pub open spec fn sample_leq() -> spec_fn(u128, u128) -> bool {
    |a: u128, b: u128| a <= b
}

/// `xs` in ascending order.
pub open spec fn sorted_samples(xs: Seq<u128>) -> Seq<u128> {
    xs.sort_by(sample_leq())
}

/// `<=` on samples is a total order.
pub proof fn lemma_sample_leq_total()
    ensures
        total_ordering(sample_leq()),
{
}

/// Returns `xs` in ascending order, with every sample kept.
fn sort_samples(xs: &Vec<u128>) -> (v: Vec<u128>)
    ensures
        v@ == sorted_samples(xs@),
{
    broadcast use vstd::seq_lib::group_to_multiset_ensures;
    broadcast use vstd::multiset::group_multiset_axioms;

    let mut v: Vec<u128> = Vec::new();
    let mut i: usize = 0;
    while i < xs.len()
        invariant
            i <= xs@.len(),
            sorted_by(v@, sample_leq()),
            v@.to_multiset() == xs@.subrange(0, i as int).to_multiset(),
        decreases xs@.len() - i,
    {
        let x = xs[i];
        let mut p: usize = 0;
        while p < v.len() && v[p] <= x
            invariant
                p <= v@.len(),
                forall|j: int| 0 <= j < p ==> v@[j] <= x,
            decreases v@.len() - p,
        {
            p = p + 1;
        }
        let ghost before = v@;
        v.insert(p, x);
        assert(sorted_by(v@, sample_leq())) by {
            assert forall|a: int, b: int| 0 <= a < b < v@.len() implies #[trigger] sample_leq()(
                v@[a],
                v@[b],
            ) by {
                assert(sorted_by(before, sample_leq()));
                if b < p {
                } else if b == p {
                } else if a < p {
                    assert(sample_leq()(before[a], before[b - 1]));
                } else if a == p {
                    assert(before[p as int] > x);
                    if p < b - 1 {
                        assert(sample_leq()(before[p as int], before[b - 1]));
                    }
                } else {
                    assert(sample_leq()(before[a - 1], before[b - 1]));
                }
            }
        }
        assert(v@.remove(p as int) =~= before);
        assert(xs@.subrange(0, i + 1) =~= xs@.subrange(0, i as int).push(x));
        assert(v@[p as int] == x);
        assert(v@.contains(x));
        proof {
            v@.to_multiset_ensures();
            xs@.subrange(0, i as int).to_multiset_ensures();
        }
        assert(v@.to_multiset().count(x) > 0);
        assert(v@.to_multiset() =~= before.to_multiset().insert(x));
        i = i + 1;
    }
    assert(xs@.subrange(0, i as int) =~= xs@);
    proof {
        lemma_sample_leq_total();
        xs@.lemma_sort_by_ensures(sample_leq());
        vstd::seq_lib::lemma_sorted_unique(v@, sorted_samples(xs@), sample_leq());
    }
    v
}

/// Returns the median of the timing samples `xs` (in nanoseconds): the
/// element at index `len / 2` of the samples in ascending order, that is
/// the upper median where the count is even.
pub fn median_duration(xs: Vec<u128>) -> (m: u128)
    requires
        xs@.len() > 0,
    ensures
        m == sorted_samples(xs@)[xs@.len() as int / 2],
{
    broadcast use vstd::seq_lib::group_to_multiset_ensures;

    let sorted = sort_samples(&xs);
    proof {
        lemma_sample_leq_total();
        xs@.lemma_sort_by_ensures(sample_leq());
        assert(xs@.to_multiset().len() == sorted@.to_multiset().len());
    }
    sorted[sorted.len() / 2]
}

} // verus!
